//! The decisions that steer the ATRAC1 encoder and decoder.

use vstd::prelude::*;
use crate::at1::data::{BlockSizeMod, EncodeSettings, WindowMode};

verus! {

/// One bit for each band with a transient, the low band first.
pub open spec fn transient_mask(low: bool, mid: bool, hi: bool) -> u32 {
    ((if low {
        1int
    } else {
        0
    }) + (if mid {
        2int
    } else {
        0
    }) + (if hi {
        4int
    } else {
        0
    })) as u32
}

/// The bands to split into short transforms: those where a transient was found, or
/// those of the settings.
pub fn window_mask(settings: &EncodeSettings, low: bool, mid: bool, hi: bool) -> (mask: u32)
    ensures
        mask == (if settings.window_mode == WindowMode::Auto {
            transient_mask(low, mid, hi)
        } else {
            settings.window_mask
        }),
{
    if settings.window_mode == WindowMode::Auto {
        let mut mask: u32 = 0;
        if low {
            mask += 1;
        }
        if mid {
            mask += 2;
        }
        if hi {
            mask += 4;
        }
        mask
    } else {
        settings.window_mask
    }
}

/// The splits that a mask stands for: of its three low bits, each that is set
/// splits its band.
pub fn block_size_of(mask: u32) -> (m: BlockSizeMod)
    ensures
        m.wf(),
        m.log_count@ == seq![
            if mask % 2 == 1 { 2u32 } else { 0u32 },
            if (mask / 2) % 2 == 1 { 2u32 } else { 0u32 },
            if (mask / 4) % 2 == 1 { 3u32 } else { 0u32 },
        ],
{
    assert((mask & 1 != 0) == (mask % 2 == 1) && (mask & 2 != 0) == ((mask / 2) % 2 == 1) && (mask
        & 4 != 0) == ((mask / 4) % 2 == 1)) by (bit_vector);
    BlockSizeMod::new(mask & 0x1 != 0, mask & 0x2 != 0, mask & 0x4 != 0)
}

/// Bands where a transient was found, and no others, are split.
pub proof fn law_transient_bands_split(low: bool, mid: bool, hi: bool)
    ensures
        ({
            let mask = transient_mask(low, mid, hi);
            &&& (mask % 2 == 1) == low
            &&& ((mask / 2) % 2 == 1) == mid
            &&& ((mask / 4) % 2 == 1) == hi
        }),
{
}

/// Whose loudness a frame adds to the running loudness.
#[derive(Debug, Clone, Copy, Eq, PartialEq, Structural)]
pub enum LoudnessUpdate {
    /// That of both channels.
    Stereo,
    /// That of the first channel.
    Mono,
    /// None: the loudness stays.
    Keep,
}

/// Only frames without short transforms count, and both channels of a pair only
/// together.
pub fn loudness_update(window_masks: &[u32]) -> (u: LoudnessUpdate)
    requires
        window_masks@.len() > 0,
    ensures
        u == (if window_masks@.len() == 2 && window_masks@[0] == 0 && window_masks@[1] == 0 {
            LoudnessUpdate::Stereo
        } else if window_masks@[0] == 0 {
            LoudnessUpdate::Mono
        } else {
            LoudnessUpdate::Keep
        }),
{
    if window_masks.len() == 2 && window_masks[0] == 0 && window_masks[1] == 0 {
        LoudnessUpdate::Stereo
    } else if window_masks[0] == 0 {
        LoudnessUpdate::Mono
    } else {
        LoudnessUpdate::Keep
    }
}

} // verus!
