//! Gain curves: points, and the stretches of samples that they stand for.

use vstd::prelude::*;
use vstd::arithmetic::power2::*;

verus! {

/// One point of a gain curve: up to `location` the level index is `level`.
#[derive(Debug, Clone, Copy, Eq, PartialEq, Structural)]
pub struct GainPoint {
    pub level: u32,
    pub location: u32,
}

/// How levels and locations of points map to tables and samples.
#[derive(Debug, Clone, Copy, Eq, PartialEq, Structural)]
pub struct GainGrid {
    /// The level index of unchanged samples.
    pub exponent_offset: i32,
    /// The place of a constant level in the table of level increments.
    pub interpolation_pos_shift: i32,
    /// Locations are in units of two to this many samples.
    pub loc_scale: u32,
    /// The number of samples over which one level fades into the next.
    pub loc_sz: u32,
}

/// A stretch of samples that belongs to one point: at a constant level up to
/// `flat_end`, then fading up to `ramp_end` by the increment at `inc_pos`.
#[derive(Debug, Clone, Copy, Eq, PartialEq, Structural)]
pub struct GainSegment {
    pub flat_end: usize,
    pub ramp_end: usize,
    pub level: u32,
    pub inc_pos: i32,
}

pub open spec fn max_int(a: int, b: int) -> int {
    if a < b {
        b
    } else {
        a
    }
}

/// The level that follows point `i`.
pub open spec fn next_level(grid: GainGrid, points: Seq<GainPoint>, i: int) -> int {
    if i + 1 < points.len() {
        points[i + 1].level as int
    } else {
        grid.exponent_offset as int
    }
}

/// The first sample of the fade of a point.
pub open spec fn point_pos(grid: GainGrid, p: GainPoint) -> int {
    (p.location << grid.loc_scale) as int
}

/// Where the stretches of the first `n` points end.
pub open spec fn plan_end(grid: GainGrid, points: Seq<GainPoint>, n: nat) -> int
    decreases n,
{
    if n == 0 {
        0
    } else {
        max_int(
            plan_end(grid, points, (n - 1) as nat),
            point_pos(grid, points[n - 1]) + grid.loc_sz,
        )
    }
}

/// The stretch of point `i`.
pub open spec fn is_segment(grid: GainGrid, points: Seq<GainPoint>, i: int, s: GainSegment) -> bool {
    &&& s.flat_end == max_int(plan_end(grid, points, i as nat), point_pos(grid, points[i]))
    &&& s.ramp_end == plan_end(grid, points, (i + 1) as nat)
    &&& s.level == points[i].level
    &&& s.inc_pos == inc_pos_of(grid, points, i)
}

/// The place of the increment of point `i`.
pub open spec fn inc_pos_of(grid: GainGrid, points: Seq<GainPoint>, i: int) -> int {
    next_level(grid, points, i) - points[i].level + grid.interpolation_pos_shift
}

/// Places and increments that can be told.
pub open spec fn points_wf(grid: GainGrid, points: Seq<GainPoint>) -> bool {
    &&& grid.loc_scale < 32
    &&& forall|i: int|
        0 <= i < points.len() ==> i32::MIN <= #[trigger] inc_pos_of(grid, points, i) <= i32::MAX
    &&& forall|i: int|
        0 <= i < points.len() ==> point_pos(grid, #[trigger] points[i]) + grid.loc_sz
            <= usize::MAX
}

impl GainGrid {
    /// The place of the increment from a level back to unchanged samples.
    pub fn gain_inc_pos(&self, level_idx_cur: u32) -> (r: i32)
        requires
            i32::MIN <= self.exponent_offset - level_idx_cur + self.interpolation_pos_shift
                <= i32::MAX,
        ensures
            r == self.exponent_offset - level_idx_cur + self.interpolation_pos_shift,
    {
        (self.exponent_offset as i64 - level_idx_cur as i64 + self.interpolation_pos_shift as i64)
            as i32
    }

    /// The place of the increment from one level to the next.
    pub fn gain_inc2_pos(&self, level_idx_cur: u32, level_idx_next: u32) -> (r: i32)
        requires
            i32::MIN <= level_idx_next - level_idx_cur + self.interpolation_pos_shift <= i32::MAX,
        ensures
            r == level_idx_next - level_idx_cur + self.interpolation_pos_shift,
    {
        (level_idx_next as i64 - level_idx_cur as i64 + self.interpolation_pos_shift as i64) as i32
    }

    /// The stretches of all points of a curve.
    pub fn plan(&self, points: &[GainPoint]) -> (r: Vec<GainSegment>)
        requires
            points_wf(*self, points@),
        ensures
            r@.len() == points@.len(),
            forall|i: int|
                0 <= i < points@.len() ==> is_segment(*self, points@, i, #[trigger] r@[i]),
    {
        let mut r: Vec<GainSegment> = Vec::new();
        let mut pos: usize = 0;
        let mut i: usize = 0;
        while i < points.len()
            invariant
                i <= points@.len(),
                points_wf(*self, points@),
                pos == plan_end(*self, points@, i as nat),
                r@.len() == i,
                forall|k: int|
                    0 <= k < i ==> is_segment(*self, points@, k, #[trigger] r@[k]),
            decreases points@.len() - i,
        {
            let point: GainPoint = points[i];
            assert(i32::MIN <= inc_pos_of(*self, points@, i as int) <= i32::MAX);
            assert(point_pos(*self, points@[i as int]) + self.loc_sz <= usize::MAX);
            let last_pos: usize = (point.location << self.loc_scale) as usize;
            let inc_pos: i32 = if i + 1 < points.len() {
                self.gain_inc2_pos(point.level, points[i + 1].level)
            } else {
                self.gain_inc_pos(point.level)
            };
            let flat_end: usize = if pos < last_pos {
                last_pos
            } else {
                pos
            };
            let fade_end: usize = last_pos + self.loc_sz as usize;
            let ramp_end: usize = if pos < fade_end {
                fade_end
            } else {
                pos
            };
            r.push(GainSegment { flat_end, ramp_end, level: point.level, inc_pos });
            pos = ramp_end;
            i += 1;
        }
        r
    }
}

/// The stretches of a curve follow each other without gap: each starts where the
/// one before it ends and no stretch runs backwards.
pub proof fn law_segments_tile(
    grid: GainGrid,
    points: Seq<GainPoint>,
    i: int,
    a: GainSegment,
    b: GainSegment,
)
    requires
        0 <= i,
        i + 1 < points.len(),
        is_segment(grid, points, i, a),
        is_segment(grid, points, i + 1, b),
    ensures
        a.flat_end <= a.ramp_end,
        a.ramp_end <= b.flat_end,
        b.flat_end <= b.ramp_end,
        point_pos(grid, points[i + 1]) <= a.ramp_end ==> b.flat_end == a.ramp_end,
{
}

/// Where the points of a curve lie apart, each level holds up to just the place of its
/// point and then fades for just as many samples as a fade takes, towards the level of
/// the next point, behind the last one towards that of unchanged samples. Places are
/// counted in units of two to the scale.
pub proof fn law_points_placed(grid: GainGrid, points: Seq<GainPoint>, i: int, s: GainSegment)
    requires
        0 <= i < points.len(),
        is_segment(grid, points, i, s),
        grid.loc_scale < 32,
        forall|k: int|
            0 <= k < points.len() ==> (#[trigger] points[k]).location * pow2(grid.loc_scale as nat)
                <= u32::MAX,
        forall|j: int, k: int|
            0 <= j < k < points.len() ==> (#[trigger] points[j]).location * pow2(
                grid.loc_scale as nat,
            ) + grid.loc_sz <= (#[trigger] points[k]).location * pow2(grid.loc_scale as nat),
    ensures
        s.level == points[i].level,
        s.flat_end == points[i].location * pow2(grid.loc_scale as nat),
        s.ramp_end == s.flat_end + grid.loc_sz,
        i + 1 < points.len() ==> s.inc_pos == points[i + 1].level - points[i].level
            + grid.interpolation_pos_shift,
        i + 1 == points.len() ==> s.inc_pos == grid.exponent_offset - points[i].level
            + grid.interpolation_pos_shift,
{
    lemma_plan_end(grid, points, i as nat);
    lemma_plan_end(grid, points, (i + 1) as nat);
    lemma_point_pos(grid, points[i]);
    if i > 0 {
        lemma_point_pos(grid, points[i - 1]);
    }
}

proof fn lemma_point_pos(grid: GainGrid, p: GainPoint)
    requires
        grid.loc_scale < 32,
        p.location * pow2(grid.loc_scale as nat) <= u32::MAX,
    ensures
        point_pos(grid, p) == p.location * pow2(grid.loc_scale as nat),
{
    vstd::bits::lemma_u32_shl_is_mul(p.location, grid.loc_scale);
}

proof fn lemma_plan_end(grid: GainGrid, points: Seq<GainPoint>, n: nat)
    requires
        n <= points.len(),
        grid.loc_scale < 32,
        forall|k: int|
            0 <= k < points.len() ==> (#[trigger] points[k]).location * pow2(grid.loc_scale as nat)
                <= u32::MAX,
        forall|j: int, k: int|
            0 <= j < k < points.len() ==> (#[trigger] points[j]).location * pow2(
                grid.loc_scale as nat,
            ) + grid.loc_sz <= (#[trigger] points[k]).location * pow2(grid.loc_scale as nat),
    ensures
        n == 0 ==> plan_end(grid, points, n) == 0,
        n > 0 ==> plan_end(grid, points, n) == point_pos(grid, points[n - 1]) + grid.loc_sz,
    decreases n,
{
    if n > 0 {
        lemma_plan_end(grid, points, (n - 1) as nat);
        lemma_point_pos(grid, points[n - 1]);
        if n > 1 {
            lemma_point_pos(grid, points[n - 2]);
        }
    }
}

} // verus!
