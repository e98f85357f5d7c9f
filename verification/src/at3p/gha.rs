//! Tonal components of ATRAC3plus frames.

use vstd::prelude::*;

verus! {

/// A single sine wave.
#[derive(Debug, Clone, Copy, PartialEq, Eq, Structural)]
pub struct WaveParam {
    pub freq_index: u32,
    pub amp_sf: u32,
    pub amp_index: u32,
    pub phase_index: u32,
}

impl Default for WaveParam {
    fn default() -> (w: Self)
        ensures
            w == (WaveParam { freq_index: 0, amp_sf: 0, amp_index: 0, phase_index: 0 }),
    {
        WaveParam { freq_index: 0, amp_sf: 0, amp_index: 0, phase_index: 0 }
    }
}

/// The waves of one subband: where they start, how many they are, and the points
/// at which they set in and end.
#[derive(Debug, Clone, Copy, PartialEq, Eq)]
pub struct WaveSbInfo {
    pub wave_index: usize,
    pub wave_nums: usize,
    pub envelope: (u32, u32),
}

impl WaveSbInfo {
    /// No waves and an open envelope.
    pub open spec fn empty() -> Self {
        WaveSbInfo {
            wave_index: 0,
            wave_nums: 0,
            envelope: (At3PGhaData::EMPTY_POINT, At3PGhaData::EMPTY_POINT),
        }
    }
}

impl Default for WaveSbInfo {
    fn default() -> (w: Self)
        ensures
            w == WaveSbInfo::empty(),
    {
        WaveSbInfo {
            wave_index: 0,
            wave_nums: 0,
            envelope: (At3PGhaData::EMPTY_POINT, At3PGhaData::EMPTY_POINT),
        }
    }
}

/// The waves of one channel.
#[derive(Debug, Clone)]
pub struct WavesChannel {
    pub wave_sb_infos: Vec<WaveSbInfo>,
    pub wave_params: Vec<WaveParam>,
}

impl Default for WavesChannel {
    fn default() -> (w: Self)
        ensures
            w.wave_sb_infos@ == Seq::<WaveSbInfo>::empty(),
            w.wave_params@ == Seq::<WaveParam>::empty(),
    {
        WavesChannel { wave_sb_infos: Vec::new(), wave_params: Vec::new() }
    }
}

/// The tonal components of one frame. The second channel may share the waves of
/// the first in some subbands; which input channel comes first is given by
/// `second_is_leader`.
#[derive(Debug, Clone)]
pub struct At3PGhaData {
    pub waves: [WavesChannel; 2],
    pub num_tone_bands: u8,
    pub tone_sharing: [bool; 16],
    pub second_is_leader: bool,
}

impl Default for At3PGhaData {
    fn default() -> (d: Self)
        ensures
            d.num_tone_bands == 0,
            !d.second_is_leader,
            forall|i: int| 0 <= i < 16 ==> !#[trigger] d.tone_sharing@[i],
            forall|c: int|
                0 <= c < 2 ==> (#[trigger] d.waves@[c]).wave_sb_infos@.len() == 0
                    && d.waves@[c].wave_params@.len() == 0,
    {
        At3PGhaData {
            waves: [WavesChannel::default(), WavesChannel::default()],
            num_tone_bands: 0,
            tone_sharing: [false; 16],
            second_is_leader: false,
        }
    }
}

impl At3PGhaData {
    /// An envelope without a point.
    pub const EMPTY_POINT: u32 = 0xFFFF_FFFF;

    /// An envelope that has not been looked at.
    pub const INIT: u32 = 0xFFFF_FFFE;

    /// What is known of the waves of channel `ch` in subband `sb`.
    pub open spec fn sb_info(&self, ch: int, sb: int) -> WaveSbInfo {
        self.waves@[ch].wave_sb_infos@[sb]
    }

    /// The waves of channel `ch` in subband `sb`.
    pub open spec fn sb_waves(&self, ch: int, sb: int) -> Seq<WaveParam> {
        self.waves@[ch].wave_params@.subrange(
            self.sb_info(ch, sb).wave_index as int,
            self.sb_info(ch, sb).wave_index + self.sb_info(ch, sb).wave_nums,
        )
    }

    pub fn num_waves(&self, ch: usize, sb: usize) -> (n: usize)
        requires
            ch < 2,
            sb < self.waves@[ch as int].wave_sb_infos@.len(),
        ensures
            n == self.sb_info(ch as int, sb as int).wave_nums,
    {
        self.waves[ch].wave_sb_infos[sb].wave_nums
    }

    pub fn envelope(&self, ch: usize, sb: usize) -> (e: (u32, u32))
        requires
            ch < 2,
            sb < self.waves@[ch as int].wave_sb_infos@.len(),
        ensures
            e == self.sb_info(ch as int, sb as int).envelope,
    {
        self.waves[ch].wave_sb_infos[sb].envelope
    }

    /// The waves from the first one of the subband on, and how many of them are
    /// its own.
    pub fn waves(&self, ch: usize, sb: usize) -> (r: (&[WaveParam], usize))
        requires
            ch < 2,
            sb < self.waves@[ch as int].wave_sb_infos@.len(),
            self.sb_info(ch as int, sb as int).wave_index <= self.waves@[ch as int].wave_params@.len(),
        ensures
            r.0@ == self.waves@[ch as int].wave_params@.skip(
                self.sb_info(ch as int, sb as int).wave_index as int,
            ),
            r.1 == self.sb_info(ch as int, sb as int).wave_nums,
    {
        let info: WaveSbInfo = self.waves[ch].wave_sb_infos[sb];
        let all: &[WaveParam] = self.waves[ch].wave_params.as_slice();
        let rest: &[WaveParam] = vstd::slice::slice_subrange(all, info.wave_index, all.len());
        assert(rest@ =~= all@.skip(info.wave_index as int));
        (rest, info.wave_nums)
    }
}

} // verus!
