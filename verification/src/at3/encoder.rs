//! The decisions that steer an ATRAC3 encoder from frame to frame.

use vstd::prelude::*;
use crate::at3::bitstream::{Allocation, SingleChannelElement};
use crate::at3::data;
use crate::at3::sound_unit::Atrac3BitStreamWriter;
use crate::at3::data::{
    ContainerParams, EncodeSettings, SubbandInfo, TonalVal, EXPONENT_OFFSET, SPECS_PER_BLOCK,
    SPECS_START_LONG,
};
use crate::container::{CompressedOutput, ContainerError};
use crate::dsp::gain::GainPoint;
use crate::dsp::transient::GainCurvePoint;
use crate::pcm::engine::ProcessResult;

verus! {

/// The most lines of one tonal component that are cut out of a block.
pub const MAX_TONAL_LEN: usize = 5;

/// The most lines of one tonal block.
pub const MAX_TONAL_GROUP: usize = 7;

/// The blocks that are searched for tonal components.
pub const FIRST_TONAL_BLOCK: usize = 8;

pub const END_TONAL_BLOCK: usize = 29;

/// The lines of a block among which a tonal component is searched.
#[derive(Debug, Clone, Copy, Eq, PartialEq, Structural)]
pub struct TonalWindow {
    pub start: usize,
    pub end: usize,
    pub max_len: usize,
}

/// The lines to search in block `block_num`, where there are `num_specs` lines in
/// all; nothing for blocks that are not searched or not all there.
pub fn tonal_window(block_num: usize, num_specs: usize) -> (r: Option<TonalWindow>)
    ensures
        match r {
            Some(w) => {
                &&& FIRST_TONAL_BLOCK <= block_num < END_TONAL_BLOCK
                &&& w.start == SPECS_START_LONG@[block_num as int]
                &&& w.end == w.start + SPECS_PER_BLOCK@[block_num as int]
                &&& w.end <= num_specs
                &&& w.max_len == MAX_TONAL_LEN
                &&& w.start + w.max_len <= w.end
            },
            None => !(FIRST_TONAL_BLOCK <= block_num < END_TONAL_BLOCK) || SPECS_START_LONG@[block_num as int]
                + SPECS_PER_BLOCK@[block_num as int] > num_specs,
        },
{
    if block_num < FIRST_TONAL_BLOCK || block_num >= END_TONAL_BLOCK {
        return None;
    }
    let start: usize = SPECS_START_LONG[block_num] as usize;
    let end: usize = start + SPECS_PER_BLOCK[block_num] as usize;
    if end > num_specs {
        return None;
    }
    Some(TonalWindow { start, end, max_len: MAX_TONAL_LEN })
}

/// The lines `start..start + len` of block `block`.
pub open spec fn run_lines(block: nat, start: nat, len: nat) -> Seq<TonalVal> {
    Seq::new(len, |i: int| TonalVal { pos: (start + i) as u16, bfu: block as u8 })
}

/// Adds the lines of a tonal component to those found so far.
pub fn push_tonal_run(res: &mut Vec<TonalVal>, block_num: usize, start: usize, len: usize)
    requires
        block_num < data::MAX_BFUS,
        start + len <= data::NUM_SPECS,
    ensures
        final(res)@ == old(res)@ + run_lines(block_num as nat, start as nat, len as nat),
{
    let ghost before = res@;
    let mut n: usize = 0;
    assert(before + run_lines(block_num as nat, start as nat, 0) =~= before);
    while n < len
        invariant
            n <= len,
            block_num < data::MAX_BFUS,
            start + len <= data::NUM_SPECS,
            res@ == before + run_lines(block_num as nat, start as nat, n as nat),
        decreases len - n,
    {
        res.push(TonalVal { pos: (start + n) as u16, bfu: block_num as u8 });
        n += 1;
        assert(res@ =~= before + run_lines(block_num as nat, start as nat, n as nat));
    }
}

/// Line `i` goes on with the group that starts at `start`: it is the next line and
/// the group is not full.
pub open spec fn joins_group(t: Seq<TonalVal>, start: int, i: int) -> bool {
    &&& start < i < t.len()
    &&& t[i].pos == t[i - 1].pos + 1
    &&& i - start < MAX_TONAL_GROUP
}

/// Where the group that starts at `start` and holds the lines before `i` ends.
pub open spec fn group_end(t: Seq<TonalVal>, start: int, i: int) -> int
    decreases t.len() - i,
{
    if joins_group(t, start, i) {
        group_end(t, start, i + 1)
    } else {
        i
    }
}

/// The groups of the lines from `start` on, as first line and number of lines.
pub open spec fn groups_from(t: Seq<TonalVal>, start: int) -> Seq<(usize, usize)>
    decreases t.len() - start,
{
    if start < 0 || start >= t.len() {
        Seq::empty()
    } else {
        let end = group_end(t, start, start + 1);
        if !(start < end <= t.len()) {
            Seq::empty()
        } else {
            seq![(start as usize, (end - start) as usize)] + groups_from(t, end)
        }
    }
}

proof fn lemma_group_end(t: Seq<TonalVal>, start: int, i: int)
    requires
        0 <= start < i <= t.len(),
        i - start <= MAX_TONAL_GROUP,
        forall|k: int| start < k < i ==> (#[trigger] t[k]).pos == t[k - 1].pos + 1,
    ensures
        i <= group_end(t, start, i) <= t.len(),
        group_end(t, start, i) - start <= MAX_TONAL_GROUP,
        forall|k: int|
            start < k < group_end(t, start, i) ==> (#[trigger] t[k]).pos == t[k - 1].pos + 1,
        !joins_group(t, start, group_end(t, start, i)),
    decreases t.len() - i,
{
    if joins_group(t, start, i) {
        lemma_group_end(t, start, i + 1);
    }
}

/// The groups cover the lines one after the other; a group holds one to seven
/// neighbouring lines; a group ends only where it is full or where the next line
/// is no neighbour.
pub proof fn law_groups_cover(t: Seq<TonalVal>, start: int, g: int)
    requires
        0 <= start < t.len() <= usize::MAX,
        0 <= g < groups_from(t, start).len(),
    ensures
        ({
            let gs = groups_from(t, start);
            let first = gs[g].0 as int;
            let end = first + gs[g].1;
            &&& gs[0].0 == start
            &&& 1 <= gs[g].1 <= MAX_TONAL_GROUP
            &&& end == (if g + 1 < gs.len() {
                gs[g + 1].0 as int
            } else {
                t.len() as int
            })
            &&& forall|k: int| first < k < end ==> (#[trigger] t[k]).pos == t[k - 1].pos + 1
            &&& !joins_group(t, first, end)
        }),
    decreases t.len() - start,
{
    let end = group_end(t, start, start + 1);
    lemma_group_end(t, start, start + 1);
    let rest = groups_from(t, end);
    let gs = groups_from(t, start);
    assert(gs =~= seq![(start as usize, (end - start) as usize)] + rest);
    if end < t.len() {
        let end2 = group_end(t, end, end + 1);
        lemma_group_end(t, end, end + 1);
        assert(rest.len() > 0);
        law_groups_cover(t, end, 0);
        if g > 0 {
            law_groups_cover(t, end, g - 1);
            assert(gs[g] == rest[g - 1]);
            if g + 1 < gs.len() {
                assert(gs[g + 1] == rest[g]);
            }
        } else {
            assert(gs[1] == rest[0]);
        }
    } else {
        assert(rest.len() == 0);
    }
}

/// Splits tonal lines into groups of neighbours.
pub fn tonal_groups(t: &[TonalVal]) -> (r: Vec<(usize, usize)>)
    requires
        forall|i: int| 0 <= i < t@.len() ==> (#[trigger] t@[i]).pos < u16::MAX,
    ensures
        r@ == groups_from(t@, 0),
{
    let mut r: Vec<(usize, usize)> = Vec::new();
    let mut i: usize = 0;
    assert(r@ + groups_from(t@, 0) =~= groups_from(t@, 0));
    while i < t.len()
        invariant
            i <= t@.len(),
            forall|k: int| 0 <= k < t@.len() ==> (#[trigger] t@[k]).pos < u16::MAX,
            r@ + groups_from(t@, i as int) == groups_from(t@, 0),
        decreases t@.len() - i,
    {
        let start: usize = i;
        i += 1;
        while i < t.len() && t[i].pos == t[i - 1].pos + 1 && i - start < MAX_TONAL_GROUP
            invariant
                start < i <= t@.len(),
                i - start <= MAX_TONAL_GROUP,
                forall|k: int| 0 <= k < t@.len() ==> (#[trigger] t@[k]).pos < u16::MAX,
                group_end(t@, start as int, start + 1) == group_end(t@, start as int, i as int),
            decreases t@.len() - i,
        {
            assert(joins_group(t@, start as int, i as int));
            assert(t@[i as int].pos < u16::MAX);
            i += 1;
        }
        let ghost before = r@;
        r.push((start, i - start));
        proof {
            assert(!joins_group(t@, start as int, i as int));
            assert(before + groups_from(t@, start as int) =~= r@ + groups_from(t@, i as int));
        }
    }
    assert(groups_from(t@, i as int) =~= Seq::empty());
    r
}

/// Whether the curve of a band is used at all: not above the third band, where the
/// signal is too weak, or where there is too little of high frequency.
pub fn keeps_curve(band: usize, below_min_signal: bool, low_high_freq: bool) -> (r: bool)
    ensures
        r == (band < 3 && !below_min_signal && !low_high_freq),
{
    band < 3 && !below_min_signal && !low_high_freq
}

/// The first point at the start of the frame.
pub open spec fn is_first_zero(points: Seq<GainCurvePoint>, i: int) -> bool {
    &&& 0 <= i < points.len()
    &&& points[i].location == 0
    &&& forall|k: int| 0 <= k < i ==> (#[trigger] points[k]).location != 0
}

/// No point is at the start of the frame.
pub open spec fn no_zero(points: Seq<GainCurvePoint>) -> bool {
    forall|k: int| 0 <= k < points.len() ==> (#[trigger] points[k]).location != 0
}

/// A curve that starts at `level`: a point at the start of the frame gets that
/// level, or a new one is put in front, except that an empty curve needs none at
/// the neutral level. Nothing where the curve is that already.
pub fn with_point_zero(points: &[GainCurvePoint], level: u32) -> (r: Option<Vec<GainCurvePoint>>)
    requires
        points@.len() < usize::MAX,
    ensures
        match r {
            Some(c) => {
                ||| exists|i: int| #[trigger]
                    is_first_zero(points@, i) && points@[i].level != level && c@ == points@.update(
                        i,
                        GainCurvePoint { level, location: 0 },
                    )
                ||| no_zero(points@) && (level != EXPONENT_OFFSET || points@.len() > 0) && c@ == seq![
                    GainCurvePoint { level, location: 0 },
                ] + points@
            },
            None => {
                ||| exists|i: int| #[trigger]
                    is_first_zero(points@, i) && points@[i].level == level
                ||| points@.len() == 0 && level == EXPONENT_OFFSET
            },
        },
        r matches Some(c) ==> c@ == started_curve(points@, level) && c@.len() <= points@.len() + 1,
        r is None ==> started_curve(points@, level) == points@,
{
    let mut i: usize = 0;
    while i < points.len() && points[i].location != 0
        invariant
            i <= points@.len(),
            forall|k: int| 0 <= k < i ==> (#[trigger] points@[k]).location != 0,
        decreases points@.len() - i,
    {
        i += 1;
    }
    let zero: GainCurvePoint = GainCurvePoint { level, location: 0 };
    proof {
        lemma_zero_place(points@, 0, i as int);
        if i < points@.len() && points@[i as int].level == level {
            assert(points@.update(i as int, zero) =~= points@);
        }
    }
    if i < points.len() {
        assert(is_first_zero(points@, i as int));
        if points[i].level != level {
            let mut c: Vec<GainCurvePoint> = vstd::slice::slice_to_vec(points);
            c[i] = zero;
            Some(c)
        } else {
            None
        }
    } else if level != EXPONENT_OFFSET as u32 || points.len() > 0 {
        let mut c: Vec<GainCurvePoint> = Vec::new();
        c.push(zero);
        let mut rest: Vec<GainCurvePoint> = vstd::slice::slice_to_vec(points);
        c.append(&mut rest);
        assert(c@ =~= seq![zero] + points@);
        Some(c)
    } else {
        None
    }
}

/// The place of the first point at the start of the frame from place `i` on, or the
/// end of the curve.
pub open spec fn zero_place(points: Seq<GainCurvePoint>, i: int) -> int
    decreases points.len() - i,
{
    if 0 <= i < points.len() && points[i].location != 0 {
        zero_place(points, i + 1)
    } else {
        i
    }
}

/// The curve that starts at `level`.
pub open spec fn started_curve(points: Seq<GainCurvePoint>, level: u32) -> Seq<GainCurvePoint> {
    let zero = GainCurvePoint { level, location: 0 };
    let i = zero_place(points, 0);
    if i < points.len() {
        points.update(i, zero)
    } else if level != EXPONENT_OFFSET || points.len() > 0 {
        seq![zero] + points
    } else {
        points
    }
}

proof fn lemma_zero_place_bounds(points: Seq<GainCurvePoint>, from: int)
    requires
        0 <= from <= points.len(),
    ensures
        from <= zero_place(points, from) <= points.len(),
    decreases points.len() - from,
{
    if from < points.len() && points[from].location != 0 {
        lemma_zero_place_bounds(points, from + 1);
    }
}

proof fn lemma_zero_place(points: Seq<GainCurvePoint>, from: int, i: int)
    requires
        0 <= from <= i <= points.len(),
        forall|k: int| from <= k < i ==> (#[trigger] points[k]).location != 0,
        i < points.len() ==> points[i].location == 0,
    ensures
        zero_place(points, from) == i,
    decreases i - from,
{
    if from < i {
        lemma_zero_place(points, from + 1, i);
    }
}

/// The curve without a first point that changes nothing.
pub open spec fn without_idle_start(points: Seq<GainCurvePoint>) -> Seq<GainCurvePoint> {
    if points.len() >= 2 && points[0].location == 0 && points[0].level == points[1].level {
        points.skip(1)
    } else {
        points
    }
}

/// The points that a frame holds: without an idle first one, and no more than fit.
pub open spec fn finished_curve(points: Seq<GainCurvePoint>) -> Seq<GainPoint> {
    let p = without_idle_start(points);
    let n = if p.len() > SubbandInfo::MAX_GAIN_POINTS_NUM {
        SubbandInfo::MAX_GAIN_POINTS_NUM as int
    } else {
        p.len() as int
    };
    p.take(n).map_values(|x: GainCurvePoint| GainPoint { level: x.level, location: x.location })
}

pub fn finish_curve(points: &[GainCurvePoint]) -> (r: Vec<GainPoint>)
    ensures
        r@ == finished_curve(points@),
        r@.len() <= points@.len(),
{
    let first: usize = if points.len() >= 2 && points[0].location == 0 && points[0].level
        == points[1].level {
        1
    } else {
        0
    };
    let ghost p = without_idle_start(points@);
    assert(p =~= points@.skip(first as int));
    let left: usize = points.len() - first;
    let n: usize = if left > SubbandInfo::MAX_GAIN_POINTS_NUM {
        SubbandInfo::MAX_GAIN_POINTS_NUM
    } else {
        left
    };
    let mut r: Vec<GainPoint> = Vec::new();
    let mut i: usize = 0;
    while i < n
        invariant
            i <= n,
            n <= p.len(),
            p == points@.skip(first as int),
            first <= points@.len(),
            r@ == p.take(i as int).map_values(
                |x: GainCurvePoint| GainPoint { level: x.level, location: x.location },
            ),
        decreases n - i,
    {
        assert(points@.len() == points.len());
        let x: GainCurvePoint = points[first + i];
        r.push(GainPoint { level: x.level, location: x.location });
        i += 1;
        assert(r@ =~= p.take(i as int).map_values(
            |x: GainCurvePoint| GainPoint { level: x.level, location: x.location },
        ));
    }
    r
}

/// The points of a band's curve in a frame: none where no curve was found. A curve that
/// is not kept is emptied, and still gets its start below the fourth band. `start` is
/// the level that the curve is to start at, where there is one.
pub open spec fn band_points(
    raw: Seq<GainCurvePoint>,
    band: int,
    below_min_signal: bool,
    low_high_freq: bool,
    start: Option<u32>,
) -> Seq<GainPoint> {
    if raw.len() == 0 {
        Seq::empty()
    } else {
        let kept = if band < 3 && !below_min_signal && !low_high_freq {
            raw
        } else {
            Seq::empty()
        };
        finished_curve(
            match start {
                Some(level) => if band < 3 {
                    started_curve(kept, level)
                } else {
                    kept
                },
                None => kept,
            },
        )
    }
}

pub fn band_curve(
    raw: &[GainCurvePoint],
    band: usize,
    below_min_signal: bool,
    low_high_freq: bool,
    start: Option<u32>,
) -> (r: Vec<GainPoint>)
    requires
        raw@.len() < usize::MAX,
    ensures
        r@ == band_points(raw@, band as int, below_min_signal, low_high_freq, start),
{
    if raw.len() == 0 {
        return Vec::new();
    }
    let kept: Vec<GainCurvePoint> = if keeps_curve(band, below_min_signal, low_high_freq) {
        vstd::slice::slice_to_vec(raw)
    } else {
        Vec::new()
    };
    assert(kept@ =~= (if band < 3 && !below_min_signal && !low_high_freq {
        raw@
    } else {
        Seq::empty()
    }));
    if band < 3 {
        if let Some(level) = start {
            if let Some(started) = with_point_zero(kept.as_slice(), level) {
                return finish_curve(started.as_slice());
            }
        }
    }
    finish_curve(kept.as_slice())
}

/// What becomes of a curve of at most six points can be written into a sound unit,
/// which counts points in three bits.
pub proof fn law_curve_fits(
    raw: Seq<GainCurvePoint>,
    band: int,
    below_min_signal: bool,
    low_high_freq: bool,
    start: Option<u32>,
)
    requires
        raw.len() <= crate::dsp::transient::MAX_CURVE_POINTS,
    ensures
        band_points(raw, band, below_min_signal, low_high_freq, start).len() < 8,
{
    let none = Seq::<GainCurvePoint>::empty();
    lemma_zero_place_bounds(raw, 0);
    if let Some(level) = start {
        assert(started_curve(raw, level).len() <= raw.len() + 1);
        assert(started_curve(none, level).len() <= 1);
        assert(finished_curve(started_curve(raw, level)).len() < 8);
        assert(finished_curve(started_curve(none, level)).len() < 8);
    }
    assert(finished_curve(raw).len() < 8);
    assert(finished_curve(none).len() < 8);
}

/// What an encoder does with one block of samples.
#[derive(Debug, Clone, Copy, Eq, PartialEq, Structural)]
pub struct FramePlan {
    /// The number of channels to encode.
    pub channels: usize,
    /// Where the bands of the block go in the look-ahead buffer.
    pub qmf_offset: usize,
    /// The block is only looked at.
    pub look_ahead: bool,
    /// The two channels become middle and side.
    pub matrix: bool,
    /// The loudness of both channels counts.
    pub stereo_loudness: bool,
    /// A silent second channel completes the pair.
    pub silent_second: bool,
}

/// The channels of an encoder: those of the output or of the source, whichever are
/// more, at least one and at most two.
pub open spec fn channels_of(output_channels: int, source_channels: int) -> int {
    if output_channels > 1 || source_channels > 1 {
        2
    } else {
        1
    }
}

pub fn encoder_channels(output_channels: usize, source_channels: u8) -> (n: usize)
    ensures
        n == channels_of(output_channels as int, source_channels as int),
{
    let source: usize = if source_channels > 1 {
        source_channels as usize
    } else {
        1
    };
    let most: usize = if output_channels > source {
        output_channels
    } else {
        source
    };
    if most > 2 {
        2
    } else {
        most
    }
}

/// Where an encoder stands: before its first block, or at a frame.
#[derive(Debug, Clone, Copy, Eq, PartialEq, Structural)]
pub struct FrameState {
    pub lookahead_pending: bool,
    pub frame_num: u64,
}

impl FrameState {
    pub open spec fn fresh() -> Self {
        FrameState { lookahead_pending: true, frame_num: 0 }
    }

    /// The state after a further block.
    pub open spec fn after_block(&self) -> Self {
        FrameState {
            lookahead_pending: false,
            frame_num: if self.lookahead_pending {
                self.frame_num
            } else {
                (self.frame_num + 1) as u64
            },
        }
    }

    pub fn new() -> (s: Self)
        ensures
            s == Self::fresh(),
    {
        FrameState { lookahead_pending: true, frame_num: 0 }
    }

    /// Takes the next block in. The first one is only looked at; every other one
    /// completes a frame.
    pub fn next_block(
        &mut self,
        settings: &EncodeSettings,
        output_channels: usize,
        meta_channels: u16,
    ) -> (plan: FramePlan)
        requires
            old(self).frame_num < u64::MAX,
        ensures
            ({
                let most = channels_of(output_channels as int, settings.source_channels as int);
                let channels = if meta_channels < 1 {
                    1
                } else if meta_channels > most {
                    most
                } else {
                    meta_channels as int
                };
                &&& plan.channels == channels
                &&& plan.qmf_offset == (if old(self).lookahead_pending {
                    128int
                } else {
                    384
                })
                &&& plan.look_ahead == old(self).lookahead_pending
                &&& plan.matrix == (settings.container_params.joint_stereo && channels == 2)
                &&& plan.stereo_loudness == (channels == 2
                    && !settings.container_params.joint_stereo)
                &&& plan.silent_second == (settings.container_params.joint_stereo && channels == 1)
            }),
            *final(self) == old(self).after_block(),
    {
        let most: usize = encoder_channels(output_channels, settings.source_channels);
        let wanted: usize = meta_channels as usize;
        let channels: usize = if wanted < 1 {
            1
        } else if wanted > most {
            most
        } else {
            wanted
        };
        let look_ahead: bool = self.lookahead_pending;
        let joint_stereo: bool = settings.container_params.joint_stereo;
        let plan = FramePlan {
            channels,
            qmf_offset: if look_ahead {
                128
            } else {
                384
            },
            look_ahead,
            matrix: joint_stereo && channels == 2,
            stereo_loudness: channels == 2 && !joint_stereo,
            silent_second: joint_stereo && channels == 1,
        };
        self.lookahead_pending = false;
        if !look_ahead {
            self.frame_num = self.frame_num + 1;
        }
        plan
    }
}

/// Completes the channels of a frame: joint stereo with one channel gets a silent
/// second one.
pub fn complete_elements(elements: &mut Vec<SingleChannelElement>, plan: &FramePlan)
    ensures
        !plan.silent_second ==> final(elements)@ == old(elements)@,
        plan.silent_second ==> {
            let last = final(elements)@.last();
            &&& final(elements)@ == old(elements)@.push(last)
            &&& last.subband_info@.len() == 1
            &&& last.subband_info@[0]@.len() == 0
            &&& last.tonal_blocks@.len() == 0
            &&& last.scaled_blocks@.len() == 0
        },
{
    if plan.silent_second {
        elements.push(SingleChannelElement::new(1));
        assert(elements@[elements@.len() - 1].subband_info@[0]@.len() == 0);
    }
}

/// The samples of one band around the frame that is being encoded: the end of the
/// block before it, the frame, and the block that is looked at.
#[derive(Debug, Clone)]
pub struct LookAhead<T> {
    buf: Vec<T>,
}

impl<T: Copy> View for LookAhead<T> {
    type V = Seq<T>;

    closed spec fn view(&self) -> Seq<T> {
        self.buf@
    }
}

impl<T: Copy> LookAhead<T> {
    pub open spec fn wf(&self) -> bool {
        self@.len() == 640
    }

    pub fn new(silence: T) -> (b: Self)
        ensures
            b.wf(),
            b@ == Seq::new(640, |i: int| silence),
    {
        let mut buf: Vec<T> = Vec::new();
        let mut i: usize = 0;
        while i < 640
            invariant
                i <= 640,
                buf@ == Seq::new(i as nat, |j: int| silence),
            decreases 640 - i,
        {
            buf.push(silence);
            i += 1;
            assert(buf@ =~= Seq::new(i as nat, |j: int| silence));
        }
        LookAhead { buf }
    }

    /// Stores the band samples of one block at `offset`.
    pub fn store(&mut self, offset: usize, samples: &[T])
        requires
            old(self).wf(),
            samples@.len() == 256,
            offset + 256 <= 640,
        ensures
            final(self).wf(),
            final(self)@ == old(self)@.take(offset as int) + samples@ + old(self)@.skip(
                offset + 256,
            ),
    {
        let mut i: usize = 0;
        while i < 256
            invariant
                i <= 256,
                samples@.len() == 256,
                offset + 256 <= 640,
                self.buf@.len() == 640,
                old(self)@.len() == 640,
                forall|j: int|
                    0 <= j < 640 ==> #[trigger] self.buf@[j] == (if offset <= j < offset + i {
                        samples@[j - offset]
                    } else {
                        old(self)@[j]
                    }),
            decreases 256 - i,
        {
            self.buf[offset + i] = samples[i];
            i += 1;
        }
        assert(self@ =~= old(self)@.take(offset as int) + samples@ + old(self)@.skip(
            offset + 256,
        ));
    }

    /// The samples of the frame.
    pub fn current_slot(&self) -> (r: &[T])
        requires
            self.wf(),
        ensures
            r@ == self@.subrange(128, 384),
    {
        vstd::slice::slice_subrange(self.buf.as_slice(), 128, 384)
    }

    /// The frame with the samples on both its sides.
    pub fn gain_window(&self) -> (r: &[T])
        requires
            self.wf(),
        ensures
            r@ == self@.subrange(0, 512),
    {
        vstd::slice::slice_subrange(self.buf.as_slice(), 0, 512)
    }

    /// Moves on to the next frame.
    pub fn shift(&mut self)
        requires
            old(self).wf(),
        ensures
            final(self).wf(),
            final(self)@ == old(self)@.skip(256) + old(self)@.skip(384),
    {
        let mut i: usize = 0;
        while i < 384
            invariant
                i <= 384,
                self.buf@.len() == 640,
                old(self)@.len() == 640,
                forall|j: int|
                    0 <= j < 640 ==> #[trigger] self.buf@[j] == (if j < i {
                        old(self)@[j + 256]
                    } else {
                        old(self)@[j]
                    }),
            decreases 384 - i,
        {
            self.buf[i] = self.buf[i + 256];
            i += 1;
        }
        assert(self@ =~= old(self)@.skip(256) + old(self)@.skip(384));
    }
}

/// A block that was looked at is the frame after the buffer has moved on, and the
/// end of the frame before it stays in sight.
pub proof fn law_look_ahead<T>(b: Seq<T>, samples: Seq<T>)
    requires
        b.len() == 640,
        samples.len() == 256,
    ensures
        ({
            let stored = b.take(384) + samples + b.skip(640);
            let moved = stored.skip(256) + stored.skip(384);
            &&& moved.subrange(128, 384) == samples
            &&& moved.subrange(0, 128) == b.subrange(256, 384)
        }),
{
    let stored = b.take(384) + samples + b.skip(640);
    let moved = stored.skip(256) + stored.skip(384);
    assert(moved.subrange(128, 384) =~= samples);
    assert(moved.subrange(0, 128) =~= b.subrange(256, 384));
}

/// What one block brings to the writer of sound units.
pub struct UnitInput {
    pub elements: Seq<SingleChannelElement>,
    pub wanted_shift: int,
    pub allocations: Seq<Allocation>,
}

/// The output's answer that a block passes on.
pub open spec fn answer_of(r: Result<ProcessResult, ContainerError>) -> Result<(), ContainerError> {
    match r {
        Ok(_) => Ok(()),
        Err(e) => Err(e),
    }
}

/// What an output got of a block: nothing of one that is only looked at, else one frame,
/// its sound unit.
pub open spec fn block_written<O: CompressedOutput>(
    params: ContainerParams,
    plan: FramePlan,
    unit: UnitInput,
    out: O,
    after: O,
    r: Result<ProcessResult, ContainerError>,
) -> bool {
    if plan.look_ahead {
        r == Ok::<ProcessResult, ContainerError>(ProcessResult::LookAhead) && after == out
    } else {
        &&& out.wrote(
            crate::at3::sound_unit::sound_unit(
                params,
                unit.elements,
                unit.wanted_shift,
                unit.allocations,
            ),
            &after,
            answer_of(r),
        )
        &&& r is Ok ==> r == Ok::<ProcessResult, ContainerError>(ProcessResult::Processed)
    }
}

/// Hands an output what a block gives: nothing where it is only looked at, else the
/// frame of its channels.
pub fn write_block<O: CompressedOutput>(
    writer: &mut Atrac3BitStreamWriter,
    output: &mut O,
    plan: &FramePlan,
    elements: &[SingleChannelElement],
    wanted_shift: i32,
    allocations: &[Allocation],
) -> (r: Result<ProcessResult, ContainerError>)
    requires
        old(output).ready(),
        !plan.look_ahead ==> {
            &&& crate::at3::sound_unit::elements_wf(old(writer).spec_params(), elements@)
            &&& crate::at3::sound_unit::allocations_wf(elements@, allocations@)
            &&& old(output).has_room(old(writer).spec_params().frame_sz as nat)
        },
    ensures
        final(output).ready(),
        block_written(
            old(writer).spec_params(),
            *plan,
            (UnitInput {
                elements: elements@,
                wanted_shift: wanted_shift as int,
                allocations: allocations@,
            }),
            *old(output),
            *final(output),
            r,
        ),
        plan.look_ahead ==> *final(writer) == *old(writer),
        final(writer).spec_params() == old(writer).spec_params(),
        final(writer).spec_bfu_idx_const() == old(writer).spec_bfu_idx_const(),
        final(writer).spec_bfu_alloc_mode() == old(writer).spec_bfu_alloc_mode(),
{
    if plan.look_ahead {
        return Ok(ProcessResult::LookAhead);
    }
    match writer.write_sound_unit(output, elements, wanted_shift, allocations) {
        Ok(done) => {
            assert(done == ());
            Ok(ProcessResult::Processed)
        },
        Err(e) => Err(e),
    }
}

/// Block number `k` was taken in and its frame handed out.
pub open spec fn block_done<O: CompressedOutput>(
    params: ContainerParams,
    states: Seq<FrameState>,
    plans: Seq<FramePlan>,
    units: Seq<UnitInput>,
    outs: Seq<O>,
    results: Seq<Result<ProcessResult, ContainerError>>,
    k: int,
) -> bool {
    &&& states[k + 1] == states[k].after_block()
    &&& plans[k].look_ahead == states[k].lookahead_pending
    &&& block_written(params, plans[k], units[k], outs[k], outs[k + 1], results[k])
}

/// The first block is only looked at, and the output gets nothing. Then for every block
/// the output gets one frame, of the size that the container asks for; the block counts
/// as processed where the output takes it.
pub proof fn law_one_frame_per_block<O: CompressedOutput>(
    params: ContainerParams,
    states: Seq<FrameState>,
    plans: Seq<FramePlan>,
    units: Seq<UnitInput>,
    outs: Seq<O>,
    results: Seq<Result<ProcessResult, ContainerError>>,
    k: int,
)
    requires
        0 <= k < u64::MAX,
        states[0] == FrameState::fresh(),
        forall|j: int|
            0 <= j <= k ==> #[trigger] block_done(params, states, plans, units, outs, results, j),
    ensures
        k == 0 ==> results[k] == Ok::<ProcessResult, ContainerError>(ProcessResult::LookAhead)
            && outs[k + 1] == outs[k],
        k > 0 ==> {
            let frame = crate::at3::sound_unit::sound_unit(
                params,
                units[k].elements,
                units[k].wanted_shift,
                units[k].allocations,
            );
            &&& frame.len() == params.frame_sz
            &&& outs[k].wrote(frame, &outs[k + 1], answer_of(results[k]))
            &&& results[k] is Ok ==> results[k] == Ok::<ProcessResult, ContainerError>(
                ProcessResult::Processed,
            )
        },
        states[k + 1] == (FrameState { lookahead_pending: false, frame_num: k as u64 }),
    decreases k,
{
    assert(block_done(params, states, plans, units, outs, results, k));
    if k > 0 {
        law_one_frame_per_block(params, states, plans, units, outs, results, k - 1);
        crate::at3::sound_unit::law_sound_unit_len(
            params,
            units[k].elements,
            units[k].wanted_shift,
            units[k].allocations,
        );
    }
}

/// A curve is made to start at a level: its first point at the start of the frame gets the
/// level and all others stay; without such a point one is put in front of all, unless the
/// curve is empty and the level the neutral one, 4.
pub proof fn law_curve_starts(points: Seq<GainCurvePoint>, level: u32, i: int)
    ensures
        is_first_zero(points, i) ==> {
            let r = started_curve(points, level);
            &&& r.len() == points.len()
            &&& r[i].level == level && r[i].location == 0
            &&& forall|k: int| 0 <= k < points.len() && k != i ==> #[trigger] r[k] == points[k]
        },
        no_zero(points) && (points.len() > 0 || level != 4) ==> {
            let r = started_curve(points, level);
            &&& r.len() == points.len() + 1
            &&& r[0].level == level && r[0].location == 0
            &&& forall|k: int| 0 <= k < points.len() ==> r[k + 1] == #[trigger] points[k]
        },
        points.len() == 0 && level == 4 ==> started_curve(points, level).len() == 0,
{
    if is_first_zero(points, i) {
        lemma_zero_place(points, 0, i);
    }
    if no_zero(points) {
        lemma_zero_place(points, 0, points.len() as int);
    }
}

/// A finished curve has the points of the curve in their order, up to as many as a frame
/// holds. Only a first point at the start of the frame with the level of the second is
/// left out.
pub proof fn law_curve_is_finished(points: Seq<GainCurvePoint>, k: int)
    ensures
        ({
            let r = finished_curve(points);
            let idle = points.len() >= 2 && points[0].location == 0 && points[0].level
                == points[1].level;
            let from = if idle {
                1int
            } else {
                0
            };
            let left = points.len() - from;
            &&& left <= SubbandInfo::MAX_GAIN_POINTS_NUM ==> r.len() == left
            &&& left > SubbandInfo::MAX_GAIN_POINTS_NUM ==> r.len() == SubbandInfo::MAX_GAIN_POINTS_NUM
            &&& 0 <= k < r.len() ==> r[k].level == points[from + k].level && r[k].location
                == points[from + k].location
        }),
{
}

/// What a band makes of its curve: nothing of none; nothing above the third band; below it a
/// kept curve is finished, after it was made to start at the given level, if any; of one
/// that is not kept only a start at another than the neutral level remains.
pub proof fn law_band_points(
    raw: Seq<GainCurvePoint>,
    band: int,
    below_min_signal: bool,
    low_high_freq: bool,
    start: Option<u32>,
)
    ensures
        ({
            let r = band_points(raw, band, below_min_signal, low_high_freq, start);
            &&& raw.len() == 0 ==> r.len() == 0
            &&& band >= 3 ==> r.len() == 0
            &&& raw.len() > 0 && band < 3 && !below_min_signal && !low_high_freq ==> {
                &&& start is None ==> r == finished_curve(raw)
                &&& start matches Some(l) ==> r == finished_curve(started_curve(raw, l))
            }
            &&& raw.len() > 0 && band < 3 && (below_min_signal || low_high_freq) ==> {
                &&& start is None || start == Some(4u32) ==> r.len() == 0
                &&& start matches Some(l) ==> (l != 4 ==> r == seq![
                    (GainPoint { level: l, location: 0 }),
                ])
            }
        }),
{
    let none = Seq::<GainCurvePoint>::empty();
    if raw.len() > 0 && (below_min_signal || low_high_freq || band >= 3) {
        assert(finished_curve(none) =~= Seq::<GainPoint>::empty());
        match start {
            Some(l) => {
                let z = GainCurvePoint { level: l, location: 0 };
                assert(seq![z] + none =~= seq![z]);
                assert(zero_place(none, 0) == 0);
                assert(finished_curve(seq![z]) =~= seq![GainPoint { level: l, location: 0 }]);
            },
            None => {},
        }
    }
}

/// The lines of a component follow each other, all in its block.
pub proof fn law_run_lines(block: nat, start: nat, len: nat, i: int)
    requires
        0 <= i < len,
        start + len <= u16::MAX,
        block <= u8::MAX,
    ensures
        run_lines(block, start, len).len() == len,
        run_lines(block, start, len)[i].pos == start + i,
        run_lines(block, start, len)[i].bfu == block,
{
}

/// Two channels are encoded where the output or the source has more than one.
pub proof fn law_channels_of(output_channels: int, source_channels: int)
    requires
        0 <= output_channels,
        0 <= source_channels,
    ensures
        channels_of(output_channels, source_channels) == 2 <==> output_channels >= 2
            || source_channels >= 2,
        channels_of(output_channels, source_channels) == 1 <==> output_channels <= 1
            && source_channels <= 1,
{
}

} // verus!
