//! What is kept of the tones of two frames, and how they overlap.

use vstd::prelude::*;
use crate::at3p::gha;
use crate::at3p::gha::At3PGhaData;

verus! {

/// Number of subbands.
pub const SUBBANDS: usize = 16;

/// Most waves of a frame.
pub const MAX_WAVES: usize = 48;

/// Amplitude envelope of a group of sine waves.
#[derive(Debug, Clone, Copy, PartialEq, Eq, Structural)]
pub struct WaveEnvelope {
    pub has_start_point: bool,
    pub has_stop_point: bool,
    pub start_pos: i32,
    pub stop_pos: i32,
}

impl WaveEnvelope {
    pub open spec fn zero() -> Self {
        WaveEnvelope { has_start_point: false, has_stop_point: false, start_pos: 0, stop_pos: 0 }
    }
}

/// Parameters of a group of sine waves.
#[derive(Debug, Clone, Copy, PartialEq, Eq, Structural)]
pub struct WavesData {
    pub pend_env: WaveEnvelope,
    pub curr_env: WaveEnvelope,
    pub num_wavs: i32,
    pub start_index: i32,
}

impl WavesData {
    pub open spec fn zero() -> Self {
        WavesData {
            pend_env: WaveEnvelope::zero(),
            curr_env: WaveEnvelope::zero(),
            num_wavs: 0,
            start_index: 0,
        }
    }

    fn none() -> (w: Self)
        ensures
            w == Self::zero(),
    {
        let env = WaveEnvelope {
            has_start_point: false,
            has_stop_point: false,
            start_pos: 0,
            stop_pos: 0,
        };
        WavesData { pend_env: env, curr_env: env, num_wavs: 0, start_index: 0 }
    }
}

/// Parameters of a single sine wave.
#[derive(Debug, Clone, Copy, PartialEq, Eq, Structural)]
pub struct WaveParam {
    pub freq_index: i32,
    pub amp_sf: i32,
    pub amp_index: i32,
    pub phase_index: i32,
}

impl WaveParam {
    pub open spec fn zero() -> Self {
        WaveParam { freq_index: 0, amp_sf: 0, amp_index: 0, phase_index: 0 }
    }

    /// The wave of a tonal component.
    pub open spec fn of(w: gha::WaveParam) -> Self {
        WaveParam {
            freq_index: w.freq_index as i32,
            amp_sf: w.amp_sf as i32,
            amp_index: w.amp_index as i32,
            phase_index: w.phase_index as i32,
        }
    }
}

/// The sine waves of a frame.
#[derive(Debug, Clone)]
pub struct WaveSynthParams {
    pub tones_present: bool,
    pub amplitude_mode: i32,
    pub num_tone_bands: i32,
    pub invert_phase: [bool; 16],
    pub tones_index: i32,
    pub waves: [WaveParam; 48],
}

impl WaveSynthParams {
    pub open spec fn is_blank(&self) -> bool {
        &&& !self.tones_present
        &&& self.amplitude_mode == 0
        &&& self.num_tone_bands == 0
        &&& self.tones_index == 0
        &&& forall|i: int| 0 <= i < 16 ==> !#[trigger] self.invert_phase@[i]
        &&& forall|i: int| 0 <= i < 48 ==> #[trigger] self.waves@[i] == WaveParam::zero()
    }
}

impl Default for WaveSynthParams {
    fn default() -> (w: Self)
        ensures
            w.is_blank(),
    {
        WaveSynthParams {
            tones_present: false,
            amplitude_mode: 0,
            num_tone_bands: 0,
            invert_phase: [false; 16],
            tones_index: 0,
            waves: [WaveParam { freq_index: 0, amp_sf: 0, amp_index: 0, phase_index: 0 }; 48],
        }
    }
}

/// The groups of waves of a channel in this frame and in the one before.
#[derive(Debug, Clone)]
pub struct ChanParams {
    pub tones_info: [WavesData; 16],
    pub tones_info_prev: [WavesData; 16],
}

impl Default for ChanParams {
    fn default() -> (c: Self)
        ensures
            forall|i: int| 0 <= i < 16 ==> #[trigger] c.tones_info@[i] == WavesData::zero(),
            forall|i: int| 0 <= i < 16 ==> #[trigger] c.tones_info_prev@[i] == WavesData::zero(),
    {
        ChanParams { tones_info: [WavesData::none(); 16], tones_info_prev: [WavesData::none(); 16] }
    }
}

/// The tones of both channels over two frames.
#[derive(Debug, Clone)]
pub struct ChanUnitCtx {
    pub channels: [ChanParams; 2],
    pub waves_info: WaveSynthParams,
    pub waves_info_prev: WaveSynthParams,
}

impl Default for ChanUnitCtx {
    fn default() -> (c: Self)
        ensures
            c.waves_info.is_blank(),
            c.waves_info_prev.is_blank(),
            forall|ch: int, i: int|
                0 <= ch < 2 && 0 <= i < 16 ==> #[trigger] c.channels@[ch].tones_info@[i]
                    == WavesData::zero(),
            forall|ch: int, i: int|
                0 <= ch < 2 && 0 <= i < 16 ==> #[trigger] c.channels@[ch].tones_info_prev@[i]
                    == WavesData::zero(),
    {
        ChanUnitCtx {
            channels: [ChanParams::default(), ChanParams::default()],
            waves_info: WaveSynthParams::default(),
            waves_info_prev: WaveSynthParams::default(),
        }
    }
}

/// The envelope of a subband: an open start lies before it, an open stop behind.
pub open spec fn pending_envelope(e: (u32, u32)) -> WaveEnvelope {
    WaveEnvelope {
        has_start_point: e.0 != At3PGhaData::EMPTY_POINT,
        start_pos: if e.0 != At3PGhaData::EMPTY_POINT {
            e.0 as i32
        } else {
            (-1) as i32
        },
        has_stop_point: e.1 != At3PGhaData::EMPTY_POINT,
        stop_pos: if e.1 != At3PGhaData::EMPTY_POINT {
            e.1 as i32
        } else {
            32
        },
    }
}

/// The waves of channel `ch` in the subbands below `n`.
pub open spec fn channel_waves(d: At3PGhaData, ch: int, n: nat) -> Seq<WaveParam>
    decreases n,
{
    if n == 0 {
        Seq::empty()
    } else {
        channel_waves(d, ch, (n - 1) as nat) + d.sb_waves(ch, n - 1).map(
            |i: int, w: gha::WaveParam| WaveParam::of(w),
        )
    }
}

/// All waves of a frame.
pub open spec fn all_waves(d: At3PGhaData, channels: int) -> Seq<WaveParam> {
    let n = d.num_tone_bands as nat;
    if channels == 2 {
        channel_waves(d, 0, n) + channel_waves(d, 1, n)
    } else {
        channel_waves(d, 0, n)
    }
}

/// Where the waves of subband `sb` of channel `ch` start.
pub open spec fn waves_start(d: At3PGhaData, ch: int, sb: int) -> int {
    (if ch == 0 {
        0
    } else {
        channel_waves(d, 0, d.num_tone_bands as nat).len() as int
    }) + channel_waves(d, ch, sb as nat).len()
}

/// Subband `sb` of channel `ch` by itself.
pub open spec fn own_group(d: At3PGhaData, ch: int, sb: int) -> WavesData {
    if sb >= d.num_tone_bands || ch != 0 && d.tone_sharing@[sb] {
        WavesData::zero()
    } else {
        WavesData {
            pend_env: pending_envelope(d.sb_info(ch, sb).envelope),
            curr_env: WaveEnvelope::zero(),
            num_wavs: d.sb_info(ch, sb).wave_nums as i32,
            start_index: if d.sb_info(ch, sb).wave_nums != 0 {
                waves_start(d, ch, sb) as i32
            } else {
                0
            },
        }
    }
}

/// Subband `sb` of channel `ch` of a frame: a shared subband has the waves of the
/// first channel, and the channels change places where the second one leads.
pub open spec fn group(d: At3PGhaData, channels: int, ch: int, sb: int) -> WavesData {
    if channels == 2 && sb < d.num_tone_bands {
        let first = own_group(d, 0, sb);
        let second = if d.tone_sharing@[sb] {
            first
        } else {
            own_group(d, 1, sb)
        };
        if d.second_is_leader == (ch == 0) {
            second
        } else {
            first
        }
    } else if ch < channels {
        own_group(d, ch, sb)
    } else {
        WavesData::zero()
    }
}

/// The tonal components can be synthesised.
pub open spec fn synth_wf(d: At3PGhaData, channels: int) -> bool {
    &&& d.num_tone_bands <= 16
    &&& all_waves(d, channels).len() <= MAX_WAVES
    &&& forall|ch: int, sb: int|
        0 <= ch < channels && 0 <= sb < d.num_tone_bands ==> {
            &&& sb < d.waves@[ch].wave_sb_infos@.len()
            &&& (#[trigger] d.sb_info(ch, sb)).wave_index + d.sb_info(ch, sb).wave_nums
                <= d.waves@[ch].wave_params@.len()
            &&& ch != 0 && d.tone_sharing@[sb] ==> d.sb_info(ch, sb).wave_nums == 0
        }
}

fn pending_of(e: (u32, u32)) -> (w: WaveEnvelope)
    ensures
        w == pending_envelope(e),
{
    let has_start: bool = e.0 != At3PGhaData::EMPTY_POINT;
    let has_stop: bool = e.1 != At3PGhaData::EMPTY_POINT;
    WaveEnvelope {
        has_start_point: has_start,
        start_pos: if has_start {
            #[verifier::truncate]
            (e.0 as i32)
        } else {
            -1
        },
        has_stop_point: has_stop,
        stop_pos: if has_stop {
            #[verifier::truncate]
            (e.1 as i32)
        } else {
            32
        },
    }
}

proof fn lemma_channel_waves(d: At3PGhaData, ch: int, k: nat, n: nat)
    requires
        k <= n,
    ensures
        channel_waves(d, ch, k).len() <= channel_waves(d, ch, n).len(),
    decreases n,
{
    if k < n {
        lemma_channel_waves(d, ch, k, (n - 1) as nat);
    }
}

/// Gathers the groups and waves of one channel.
fn load_channel(d: &At3PGhaData, channels: usize, ch: usize, list: &mut Vec<WaveParam>) -> (info: [
    WavesData; 16])
    requires
        1 <= channels <= 2,
        ch < channels,
        synth_wf(*d, channels as int),
        old(list)@ == (if ch == 0 {
            Seq::<WaveParam>::empty()
        } else {
            channel_waves(*d, 0, d.num_tone_bands as nat)
        }),
    ensures
        forall|sb: int| 0 <= sb < 16 ==> #[trigger] info@[sb] == own_group(*d, ch as int, sb),
        final(list)@ == old(list)@ + channel_waves(*d, ch as int, d.num_tone_bands as nat),
{
    let ghost start = list@;
    let n: usize = d.num_tone_bands as usize;
    let mut info: [WavesData; 16] = [WavesData::none(); 16];
    let mut sb: usize = 0;
    assert(start + channel_waves(*d, ch as int, 0) =~= start);
    proof {
        if ch == 1 {
            assert(all_waves(*d, 2).len() == channel_waves(*d, 0, n as nat).len() + channel_waves(
                *d,
                1,
                n as nat,
            ).len());
        }
    }
    while sb < n
        invariant
            sb <= n <= 16,
            n == d.num_tone_bands,
            1 <= channels <= 2,
            ch < channels,
            synth_wf(*d, channels as int),
            start.len() == (if ch == 0 {
                0
            } else {
                channel_waves(*d, 0, n as nat).len()
            }),
            start.len() + channel_waves(*d, ch as int, n as nat).len() <= MAX_WAVES,
            list@ == start + channel_waves(*d, ch as int, sb as nat),
            forall|i: int| 0 <= i < sb ==> #[trigger] info@[i] == own_group(*d, ch as int, i),
            forall|i: int| sb <= i < 16 ==> #[trigger] info@[i] == WavesData::zero(),
        decreases n - sb,
    {
        let ghost sbi = d.sb_info(ch as int, sb as int);
        proof {
            lemma_channel_waves(*d, ch as int, (sb + 1) as nat, n as nat);
            lemma_channel_waves(*d, ch as int, sb as nat, n as nat);
        }
        let first: usize = list.len();
        let num: usize = d.num_waves(ch, sb);
        let ghost waves = d.sb_waves(ch as int, sb as int);
        let ghost mapped = waves.map(|i: int, w: gha::WaveParam| WaveParam::of(w));
        let ghost head = list@;
        let (rest, _count): (&[gha::WaveParam], usize) = d.waves(ch, sb);
        let mut j: usize = 0;
        assert(head + mapped.take(0) =~= head);
        while j < num
            invariant
                j <= num,
                num <= rest@.len(),
                waves == rest@.take(num as int),
                mapped == waves.map(|i: int, w: gha::WaveParam| WaveParam::of(w)),
                list@ == head + mapped.take(j as int),
            decreases num - j,
        {
            let w: gha::WaveParam = rest[j];
            assert(waves[j as int] == w);
            list.push(
                WaveParam {
                    freq_index:
                        #[verifier::truncate]
                        (w.freq_index as i32),
                    amp_sf:
                        #[verifier::truncate]
                        (w.amp_sf as i32),
                    amp_index:
                        #[verifier::truncate]
                        (w.amp_index as i32),
                    phase_index:
                        #[verifier::truncate]
                        (w.phase_index as i32),
                },
            );
            assert(list@ =~= head + mapped.take(j + 1));
            j += 1;
        }
        assert(mapped.take(num as int) =~= mapped);
        assert(list@ =~= start + channel_waves(*d, ch as int, (sb + 1) as nat));
        if !(ch != 0 && d.tone_sharing[sb]) {
            info[sb] = WavesData {
                pend_env: pending_of(d.envelope(ch, sb)),
                curr_env: WavesData::none().curr_env,
                num_wavs: num as i32,
                start_index: if num != 0 {
                    first as i32
                } else {
                    0
                },
            };
        }
        sb += 1;
    }
    info
}

/// How the tones of a subband are put together: those that go on from the frame
/// before, and those that set in.
#[derive(Debug, Clone, Copy, PartialEq, Eq, Structural)]
pub struct TonePlan {
    pub now: WavesData,
    pub next: WavesData,
    /// The tones of the frame before reach into this frame.
    pub synth_now: bool,
    /// The tones of this frame set in before its end.
    pub synth_next: bool,
    pub invert_now: bool,
    pub invert_next: bool,
    /// The tones of the frame before fade out.
    pub fade_now: bool,
    /// The tones of this frame fade in.
    pub fade_next: bool,
}

/// The envelope over two frames: `pending` of the frame before and of this one,
/// the latter 32 steps later.
pub open spec fn joined_envelope(now: WaveEnvelope, next: WaveEnvelope) -> WaveEnvelope {
    let starts_late = next.has_start_point && next.start_pos < next.stop_pos;
    let start_pos = if starts_late {
        next.start_pos + 32
    } else if now.has_start_point {
        now.start_pos as int
    } else {
        0
    };
    let stops_early = now.has_stop_point && now.stop_pos >= start_pos;
    WaveEnvelope {
        has_start_point: starts_late || now.has_start_point,
        start_pos: start_pos as i32,
        has_stop_point: stops_early || next.has_stop_point,
        stop_pos: if stops_early {
            now.stop_pos
        } else if next.has_stop_point {
            (next.stop_pos + 32) as i32
        } else {
            64
        },
    }
}

/// The plan for a subband whose tones were `now` and are `next`.
pub open spec fn planned(
    now: WavesData,
    next: WavesData,
    invert_now: bool,
    invert_next: bool,
) -> TonePlan {
    let synth_now = now.num_wavs != 0 && now.curr_env.stop_pos >= 32;
    let synth_next = next.num_wavs != 0 && next.curr_env.start_pos < 32;
    TonePlan {
        now,
        next,
        synth_now,
        synth_next,
        invert_now,
        invert_next,
        fade_now: synth_now && synth_next || now.num_wavs != 0 && !now.curr_env.has_stop_point,
        fade_next: synth_now && synth_next || next.num_wavs != 0 && !next.curr_env.has_start_point,
    }
}

fn join_envelopes(now: WaveEnvelope, next: WaveEnvelope) -> (e: WaveEnvelope)
    requires
        next.start_pos <= 0x7FFF_FFDF,
        next.stop_pos <= 0x7FFF_FFDF,
    ensures
        e == joined_envelope(now, next),
{
    let starts_late: bool = next.has_start_point && next.start_pos < next.stop_pos;
    let start_pos: i32 = if starts_late {
        next.start_pos + 32
    } else if now.has_start_point {
        now.start_pos
    } else {
        0
    };
    let stops_early: bool = now.has_stop_point && now.stop_pos >= start_pos;
    WaveEnvelope {
        has_start_point: starts_late || now.has_start_point,
        start_pos,
        has_stop_point: stops_early || next.has_stop_point,
        stop_pos: if stops_early {
            now.stop_pos
        } else if next.has_stop_point {
            next.stop_pos + 32
        } else {
            64
        },
    }
}

/// Where in a table of 2048 steps a wave starts that was at its phase `back`
/// samples ago.
pub open spec fn phase_start(phase_index: int, freq_index: int, back: int) -> int {
    (64 * (phase_index % 32) - back * freq_index) % 2048
}

pub fn wave_start(phase_index: i32, freq_index: i32, back: i32) -> (r: i32)
    requires
        0 <= phase_index,
        0 <= freq_index < 1024,
        0 <= back <= 128,
    ensures
        r == phase_start(phase_index as int, freq_index as int, back as int),
        0 <= r < 2048,
{
    assert(0 <= back * freq_index <= 131072) by (nonlinear_arith)
        requires
            0 <= freq_index < 1024,
            0 <= back <= 128,
    ;
    let phase: i32 = 64 * (phase_index % 32);
    let moved: i32 = back * freq_index;
    (phase - moved + 131072) % 2048
}

/// The first sample of a frame, of which `offset` have gone by, that lies behind a
/// point of the grid of four samples; none where the point is not in it.
pub open spec fn grid_sample(pos: int, offset: int) -> Option<int> {
    if 0 < 4 * pos - offset <= 128 {
        Some(4 * pos - offset)
    } else {
        None
    }
}

/// Where a wave sets in: silence before, and four samples of fading unless it
/// ends at the same point.
pub fn onset(env: WaveEnvelope, offset: i32) -> (r: Option<(usize, bool)>)
    requires
        0 <= offset <= 128,
        env.has_start_point ==> i32::MIN <= 4 * env.start_pos - offset && 4 * env.start_pos
            <= i32::MAX,
    ensures
        match r {
            Some((at, fade)) => env.has_start_point && grid_sample(
                env.start_pos as int,
                offset as int,
            ) == Some(at as int) && fade == (!env.has_stop_point || env.start_pos != env.stop_pos),
            None => !env.has_start_point || grid_sample(env.start_pos as int, offset as int) is None,
        },
{
    if env.has_start_point {
        let at: i32 = 4 * env.start_pos - offset;
        if 0 < at && at <= 128 {
            return Some((at as usize, !env.has_stop_point || env.start_pos != env.stop_pos));
        }
    }
    None
}

/// Where a wave ends: four samples of fading before, and silence from there on.
pub fn offset_end(env: WaveEnvelope, offset: i32) -> (r: Option<usize>)
    requires
        0 <= offset <= 128,
        env.has_stop_point ==> i32::MIN <= 4 * (env.stop_pos + 1) - offset && 4 * (env.stop_pos + 1)
            <= i32::MAX,
    ensures
        r == (if env.has_stop_point && grid_sample(env.stop_pos + 1, offset as int) is Some {
            Some(grid_sample(env.stop_pos + 1, offset as int)->0 as usize)
        } else {
            None
        }),
{
    if env.has_stop_point {
        let at: i32 = 4 * (env.stop_pos + 1) - offset;
        if 0 < at && at <= 128 {
            return Some(at as usize);
        }
    }
    None
}

impl ChanUnitCtx {
    /// The tonal components of a frame were taken over, or that it has none.
    pub open spec fn is_loaded(
        before: Self,
        after: Self,
        tonal: Option<At3PGhaData>,
        channels: int,
    ) -> bool {
        &&& forall|ch: int, sb: int|
            0 <= ch < 2 && 0 <= sb < 16 ==> #[trigger] after.channels@[ch].tones_info@[sb] == (
            match tonal {
                Some(d) => group(d, channels, ch, sb),
                None => WavesData::zero(),
            })
        &&& forall|ch: int|
            0 <= ch < 2 ==> (#[trigger] after.channels@[ch]).tones_info_prev
                == before.channels@[ch].tones_info_prev
        &&& after.waves_info_prev == before.waves_info_prev
        &&& after.waves_info.tones_present == (tonal is Some)
        &&& after.waves_info.invert_phase == before.waves_info.invert_phase
        &&& match tonal {
            Some(d) => {
                let list = all_waves(d, channels);
                &&& after.waves_info.num_tone_bands == d.num_tone_bands
                &&& after.waves_info.amplitude_mode == 1
                &&& after.waves_info.tones_index == list.len()
                &&& after.waves_info.waves@ == list + Seq::new(
                    (48 - list.len()) as nat,
                    |i: int| WaveParam::zero(),
                )
            },
            None => {
                &&& after.waves_info.num_tone_bands == before.waves_info.num_tone_bands
                &&& after.waves_info.amplitude_mode == before.waves_info.amplitude_mode
                &&& after.waves_info.tones_index == before.waves_info.tones_index
                &&& after.waves_info.waves == before.waves_info.waves
            },
        }
    }

    /// Tones of subband `sb` of channel `ch` sound in this frame or have sounded in
    /// the one before.
    pub open spec fn sounds(&self, ch: int, sb: int) -> bool {
        &&& self.waves_info.tones_present || self.waves_info_prev.tones_present
        &&& self.channels@[ch].tones_info@[sb].num_wavs != 0
            || self.channels@[ch].tones_info_prev@[sb].num_wavs != 0
    }

    /// This frame has become the one before.
    pub open spec fn is_swapped(before: Self, after: Self) -> bool {
        &&& forall|ch: int|
            0 <= ch < 2 ==> (#[trigger] after.channels@[ch]).tones_info
                == before.channels@[ch].tones_info_prev && after.channels@[ch].tones_info_prev
                == before.channels@[ch].tones_info
        &&& after.waves_info == before.waves_info_prev
        &&& after.waves_info_prev == before.waves_info
    }

    /// Where a frame has no tones and the one before had none, no subband sounds, so
    /// nothing is taken from the samples; and the next frame has none before it.
    pub proof fn law_silence_is_left_alone(before: Self, after: Self, next: Self, channels: int)
        requires
            !before.waves_info_prev.tones_present,
            Self::is_loaded(before, after, None, channels),
            Self::is_swapped(after, next),
        ensures
            forall|ch: int, sb: int| !#[trigger] after.sounds(ch, sb),
            !next.waves_info_prev.tones_present,
    {
    }

    /// The second channel had no tones in the frame before.
    pub open spec fn second_was_silent(&self) -> bool {
        forall|sb: int|
            0 <= sb < 16 ==> (#[trigger] self.channels@[1].tones_info_prev@[sb]).num_wavs == 0
    }

    /// With one channel the second one never sounds, so its samples are left alone: not
    /// from the start on, where it was silent before, and else from the second frame
    /// on. Planning the tones of the first channel keeps it so.
    pub proof fn law_mono_leaves_second_alone(
        before: Self,
        after: Self,
        planned: Self,
        next: Self,
        tonal: Option<At3PGhaData>,
    )
        requires
            Self::is_loaded(before, after, tonal, 1),
            planned.channels@[1] == after.channels@[1],
            Self::is_swapped(planned, next),
        ensures
            before.second_was_silent() ==> forall|sb: int|
                0 <= sb < 16 ==> !#[trigger] after.sounds(1, sb) && !planned.sounds(1, sb),
            next.second_was_silent(),
    {
        assert forall|sb: int| 0 <= sb < 16 implies (
        #[trigger] after.channels@[1].tones_info@[sb]).num_wavs == 0 by {}
        assert(after.channels@[1].tones_info_prev == before.channels@[1].tones_info_prev);
        assert(next.channels@[1].tones_info_prev == planned.channels@[1].tones_info);
        if before.second_was_silent() {
            assert forall|sb: int| 0 <= sb < 16 implies !#[trigger] after.sounds(1, sb)
                && !planned.sounds(1, sb) by {
                assert(before.channels@[1].tones_info_prev@[sb].num_wavs == 0);
                assert(after.channels@[1].tones_info@[sb].num_wavs == 0);
            }
        }
        assert forall|sb: int| 0 <= sb < 16 implies (
        #[trigger] next.channels@[1].tones_info_prev@[sb]).num_wavs == 0 by {
            assert(after.channels@[1].tones_info@[sb].num_wavs == 0);
        }
    }

    /// Takes over the tonal components of a frame, or notes that it has none.
    pub fn load_tones(&mut self, tonal: Option<&At3PGhaData>, stereo: bool)
        requires
            tonal matches Some(d) ==> synth_wf(*d, if stereo {
                2
            } else {
                1
            }),
        ensures
            Self::is_loaded(
                *old(self),
                *final(self),
                match tonal {
                    Some(d) => Some(*d),
                    None => None,
                },
                if stereo {
                    2
                } else {
                    1
                },
            ),
    {
        match tonal {
            None => {
                self.channels[0].tones_info = [WavesData::none(); 16];
                self.channels[1].tones_info = [WavesData::none(); 16];
                self.waves_info.tones_present = false;
            },
            Some(d) => {
                let channels: usize = if stereo {
                    2
                } else {
                    1
                };
                let n: usize = d.num_tone_bands as usize;
                let mut list: Vec<WaveParam> = Vec::new();
                let mut first: [WavesData; 16] = load_channel(d, channels, 0, &mut list);
                assert(list@ =~= channel_waves(*d, 0, n as nat));
                let mut second: [WavesData; 16] = [WavesData::none(); 16];
                if stereo {
                    second = load_channel(d, channels, 1, &mut list);
                    let mut i: usize = 0;
                    while i < n
                        invariant
                            i <= n <= 16,
                            n == d.num_tone_bands,
                            forall|sb: int|
                                0 <= sb < 16 ==> #[trigger] first@[sb] == (if sb < i {
                                    group(*d, 2, 0, sb)
                                } else {
                                    own_group(*d, 0, sb)
                                }),
                            forall|sb: int|
                                0 <= sb < 16 ==> #[trigger] second@[sb] == (if sb < i {
                                    group(*d, 2, 1, sb)
                                } else {
                                    own_group(*d, 1, sb)
                                }),
                        decreases n - i,
                    {
                        if d.tone_sharing[i] {
                            second[i] = first[i];
                        }
                        if d.second_is_leader {
                            let a: WavesData = first[i];
                            let b: WavesData = second[i];
                            first[i] = b;
                            second[i] = a;
                        }
                        i += 1;
                    }
                }
                assert(list@ =~= all_waves(*d, channels as int));
                let mut waves: [WaveParam; 48] = [WaveParam {
                    freq_index: 0,
                    amp_sf: 0,
                    amp_index: 0,
                    phase_index: 0,
                };48];
                let mut k: usize = 0;
                while k < list.len()
                    invariant
                        k <= list@.len() <= 48,
                        forall|j: int| 0 <= j < k ==> #[trigger] waves@[j] == list@[j],
                        forall|j: int| k <= j < 48 ==> #[trigger] waves@[j] == WaveParam::zero(),
                    decreases list@.len() - k,
                {
                    waves[k] = list[k];
                    k += 1;
                }
                assert(waves@ =~= list@ + Seq::new(
                    (48 - list@.len()) as nat,
                    |i: int| WaveParam::zero(),
                ));
                self.channels[0].tones_info = first;
                self.channels[1].tones_info = second;
                self.waves_info.waves = waves;
                self.waves_info.num_tone_bands = d.num_tone_bands as i32;
                self.waves_info.tones_present = true;
                self.waves_info.amplitude_mode = 1;
                self.waves_info.tones_index = list.len() as i32;
            },
        }
    }

    /// Some tones of subband `sb` of channel `ch` sound in this frame or have
    /// sounded in the one before.
    pub fn band_sounds(&self, ch: usize, sb: usize) -> (r: bool)
        requires
            ch < 2,
            sb < 16,
        ensures
            r == self.sounds(ch as int, sb as int),
    {
        (self.waves_info.tones_present || self.waves_info_prev.tones_present) && (
        self.channels[ch].tones_info[sb].num_wavs != 0
            || self.channels[ch].tones_info_prev[sb].num_wavs != 0)
    }

    /// Plans how the tones of a subband fade from the frame before into this one,
    /// and keeps the envelope that they get.
    pub fn plan_tones(&mut self, ch: usize, sb: usize) -> (plan: TonePlan)
        requires
            ch < 2,
            sb < 16,
            old(self).channels@[ch as int].tones_info@[sb as int].pend_env.start_pos <= 0x7FFF_FFDF,
            old(self).channels@[ch as int].tones_info@[sb as int].pend_env.stop_pos <= 0x7FFF_FFDF,
        ensures
            ({
                let now = old(self).channels@[ch as int].tones_info_prev@[sb as int];
                let next = WavesData {
                    curr_env: joined_envelope(
                        now.pend_env,
                        old(self).channels@[ch as int].tones_info@[sb as int].pend_env,
                    ),
                    ..old(self).channels@[ch as int].tones_info@[sb as int]
                };
                &&& plan == planned(
                    now,
                    next,
                    ch == 1 && old(self).waves_info_prev.invert_phase@[sb as int],
                    ch == 1 && old(self).waves_info.invert_phase@[sb as int],
                )
                &&& final(self).channels@[ch as int].tones_info@ == old(
                    self,
                ).channels@[ch as int].tones_info@.update(sb as int, next)
                &&& final(self).channels@[ch as int].tones_info_prev == old(
                    self,
                ).channels@[ch as int].tones_info_prev
                &&& final(self).channels@[1 - ch] == old(self).channels@[1 - ch]
                &&& final(self).waves_info == old(self).waves_info
                &&& final(self).waves_info_prev == old(self).waves_info_prev
            }),
    {
        let now: WavesData = self.channels[ch].tones_info_prev[sb];
        let mut next: WavesData = self.channels[ch].tones_info[sb];
        let curr_env: WaveEnvelope = join_envelopes(now.pend_env, next.pend_env);
        next.curr_env = curr_env;
        self.channels[ch].tones_info[sb] = next;
        let synth_now: bool = now.num_wavs != 0 && now.curr_env.stop_pos >= 32;
        let synth_next: bool = next.num_wavs != 0 && curr_env.start_pos < 32;
        TonePlan {
            now,
            next,
            synth_now,
            synth_next,
            invert_now: ch == 1 && self.waves_info_prev.invert_phase[sb],
            invert_next: ch == 1 && self.waves_info.invert_phase[sb],
            fade_now: (synth_now && synth_next) || (now.num_wavs != 0
                && !now.curr_env.has_stop_point),
            fade_next: (synth_now && synth_next) || (next.num_wavs != 0
                && !curr_env.has_start_point),
        }
    }

    /// Makes this frame the one before.
    pub fn swap_history(&mut self)
        ensures
            Self::is_swapped(*old(self), *final(self)),
    {
        let a: [WavesData; 16] = self.channels[0].tones_info;
        self.channels[0].tones_info = self.channels[0].tones_info_prev;
        self.channels[0].tones_info_prev = a;
        let b: [WavesData; 16] = self.channels[1].tones_info;
        self.channels[1].tones_info = self.channels[1].tones_info_prev;
        self.channels[1].tones_info_prev = b;
        core::mem::swap(&mut self.waves_info, &mut self.waves_info_prev);
    }
}

/// An envelope is taken over as it is; without a start it begins before the frame, without
/// an end it ends behind the last of its 32 steps.
pub proof fn law_pending_envelope(e: (u32, u32))
    requires
        e.0 == 0xFFFF_FFFF || e.0 <= i32::MAX,
        e.1 == 0xFFFF_FFFF || e.1 <= i32::MAX,
    ensures
        ({
            let p = pending_envelope(e);
            &&& e.0 == 0xFFFF_FFFF ==> !p.has_start_point && p.start_pos == -1
            &&& e.0 != 0xFFFF_FFFF ==> p.has_start_point && p.start_pos == e.0
            &&& e.1 == 0xFFFF_FFFF ==> !p.has_stop_point && p.stop_pos == 32
            &&& e.1 != 0xFFFF_FFFF ==> p.has_stop_point && p.stop_pos == e.1
        }),
{
}

/// Whose waves a channel has: the first part of the data is that of the leader, the second
/// that of the follower, which has the waves of the leader in a shared subband.
pub proof fn law_groups_follow_leader(d: At3PGhaData, sb: int)
    requires
        0 <= sb < d.num_tone_bands,
    ensures
        ({
            let leader = if d.second_is_leader {
                1int
            } else {
                0
            };
            &&& group(d, 2, leader, sb) == own_group(d, 0, sb)
            &&& d.tone_sharing@[sb] ==> group(d, 2, 1 - leader, sb) == own_group(d, 0, sb)
            &&& !d.tone_sharing@[sb] ==> group(d, 2, 1 - leader, sb) == own_group(d, 1, sb)
            &&& group(d, 1, 0, sb) == own_group(d, 0, sb)
            &&& group(d, 1, 1, sb) == WavesData::zero()
        }),
{
}

proof fn lemma_channel_slice(d: At3PGhaData, ch: int, n: nat, sb: int)
    requires
        0 <= sb < n,
    ensures
        ({
            let at = channel_waves(d, ch, sb as nat).len() as int;
            let own = d.sb_waves(ch, sb).map(|i: int, w: gha::WaveParam| WaveParam::of(w));
            let all = channel_waves(d, ch, n);
            &&& at + own.len() <= all.len()
            &&& all.subrange(at, at + own.len()) == own
        }),
    decreases n,
{
    let all = channel_waves(d, ch, n);
    let before = channel_waves(d, ch, (n - 1) as nat);
    let at = channel_waves(d, ch, sb as nat).len() as int;
    let own = d.sb_waves(ch, sb).map(|i: int, w: gha::WaveParam| WaveParam::of(w));
    if sb < n - 1 {
        lemma_channel_slice(d, ch, (n - 1) as nat, sb);
        assert(all.subrange(at, at + own.len()) =~= before.subrange(at, at + own.len()));
    } else {
        assert(all =~= before + own);
        assert(all.subrange(at, at + own.len()) =~= own);
    }
}

/// A group finds its own waves in the list of all: from its start on, as many as it has,
/// each with the frequency, amplitude and phase of its tonal component.
pub proof fn law_groups_find_waves(d: At3PGhaData, channels: int, ch: int, sb: int, k: int)
    requires
        1 <= channels <= 2,
        synth_wf(d, channels),
        0 <= ch < channels,
        0 <= sb < d.num_tone_bands,
        ch == 0 || !d.tone_sharing@[sb],
        0 <= k < own_group(d, ch, sb).num_wavs,
    ensures
        ({
            let w = all_waves(d, channels)[own_group(d, ch, sb).start_index + k];
            let own = d.waves@[ch].wave_params@[d.sb_info(ch, sb).wave_index + k];
            &&& own_group(d, ch, sb).num_wavs == d.sb_info(ch, sb).wave_nums
            &&& own.freq_index <= i32::MAX ==> w.freq_index == own.freq_index
            &&& own.amp_sf <= i32::MAX ==> w.amp_sf == own.amp_sf
            &&& own.amp_index <= i32::MAX ==> w.amp_index == own.amp_index
            &&& own.phase_index <= i32::MAX ==> w.phase_index == own.phase_index
        }),
{
    let n = d.num_tone_bands as nat;
    lemma_channel_slice(d, ch, n, sb);
    let own = d.sb_waves(ch, sb).map(|i: int, w: gha::WaveParam| WaveParam::of(w));
    let at = channel_waves(d, ch, sb as nat).len() as int;
    let all = channel_waves(d, ch, n);
    let info = d.sb_info(ch, sb);
    assert(info.wave_index + info.wave_nums <= d.waves@[ch].wave_params@.len());
    assert(all_waves(d, channels).len() <= 48);
    assert(own.len() == info.wave_nums);
    assert(info.wave_nums <= 48);
    assert(all.subrange(at, at + own.len())[k] == own[k]);
    assert(own[k] == WaveParam::of(d.waves@[ch].wave_params@[info.wave_index + k]));
}

/// How the envelopes of two frames join. It starts with the tones of the later frame where
/// these start within it and before they end, else as the earlier one did, at 0 without a
/// start. It stops with the earlier frame where that stops no sooner than the start, else
/// with the later one, and at 64 without a stop.
pub proof fn law_envelopes_join(now: WaveEnvelope, next: WaveEnvelope)
    requires
        -0x1000_0000 <= next.start_pos <= 0x1000_0000,
        -0x1000_0000 <= next.stop_pos <= 0x1000_0000,
    ensures
        ({
            let e = joined_envelope(now, next);
            &&& next.has_start_point && next.start_pos < next.stop_pos ==> e.has_start_point
                && e.start_pos == next.start_pos + 32
            &&& !(next.has_start_point && next.start_pos < next.stop_pos) && now.has_start_point
                ==> e.has_start_point && e.start_pos == now.start_pos
            &&& !(next.has_start_point && next.start_pos < next.stop_pos) && !now.has_start_point
                ==> !e.has_start_point && e.start_pos == 0
            &&& now.has_stop_point && now.stop_pos >= e.start_pos ==> e.has_stop_point && e.stop_pos
                == now.stop_pos
            &&& !(now.has_stop_point && now.stop_pos >= e.start_pos) && next.has_stop_point
                ==> e.has_stop_point && e.stop_pos == next.stop_pos + 32
            &&& !(now.has_stop_point && now.stop_pos >= e.start_pos) && !next.has_stop_point
                ==> !e.has_stop_point && e.stop_pos == 64
        }),
{
}

/// Tones of the frame before sound where they reach the second of two frames, those of this
/// one where they set in before it. Where both sound they fade into each other; alone, tones
/// without an end fade out and tones without a start fade in.
pub proof fn law_planned(now: WavesData, next: WavesData, invert_now: bool, invert_next: bool)
    ensures
        ({
            let p = planned(now, next, invert_now, invert_next);
            &&& p.now == now && p.next == next
            &&& p.invert_now == invert_now && p.invert_next == invert_next
            &&& p.synth_now <==> now.num_wavs != 0 && now.curr_env.stop_pos >= 32
            &&& p.synth_next <==> next.num_wavs != 0 && next.curr_env.start_pos < 32
            &&& p.synth_now && p.synth_next ==> p.fade_now && p.fade_next
            &&& !(p.synth_now && p.synth_next) ==> {
                &&& p.fade_now <==> now.num_wavs != 0 && !now.curr_env.has_stop_point
                &&& p.fade_next <==> next.num_wavs != 0 && !next.curr_env.has_start_point
            }
        }),
{
}

/// After `back` samples a wave is at its phase: it moves by its frequency in each.
pub proof fn law_phase_reached(phase_index: int, freq_index: int, back: int)
    ensures
        0 <= phase_start(phase_index, freq_index, back) < 2048,
        (phase_start(phase_index, freq_index, back) + back * freq_index) % 2048 == 64 * (phase_index
            % 32),
{
    let a = 64 * (phase_index % 32);
    let m = back * freq_index;
    assert(((a - m) % 2048 + m) % 2048 == a % 2048);
}

} // verus!
