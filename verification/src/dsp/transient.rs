//! Gain curves out of the levels of subframes.

use vstd::prelude::*;
use vstd::arithmetic::power2;
use crate::util;

verus! {

/// The level of a subframe that is as loud as the target.
pub const NEUTRAL_LEVEL: u16 = 4;

/// The most points that a curve starts with.
pub const MAX_CURVE_POINTS: usize = 6;

#[derive(Debug, Clone, Copy, Eq, PartialEq, Structural)]
pub struct GainCurvePoint {
    pub level: u32,
    pub location: u32,
}

/// A change of level: from subframe `loc` on the level is no longer `level`.
#[derive(Debug, Clone, Copy, Eq, PartialEq, Structural)]
pub struct Transition {
    pub loc: usize,
    pub level: u16,
    pub delta: i32,
}

pub open spec fn min_level(a: u16, b: u16) -> u16 {
    if a < b {
        a
    } else {
        b
    }
}

pub open spec fn max_level(a: u16, b: u16) -> u16 {
    if a < b {
        b
    } else {
        a
    }
}

pub open spec fn distance(a: u16, b: u16) -> int {
    if a < b {
        b - a
    } else {
        a - b
    }
}

/// The level of a subframe next to one of level `prev`: a step by one is not taken
/// where the levels within the subframe span at most one step and reach `prev`.
pub open spec fn stuck_level(level: u16, prev: u16, a: u16, b: u16) -> u16 {
    if distance(a, b) <= 1 && distance(level, prev) == 1 && min_level(a, b) <= prev <= max_level(
        a,
        b,
    ) {
        prev
    } else {
        level
    }
}

pub fn sticky_level(level: u16, prev: u16, idx_lo: u16, idx_hi: u16) -> (r: u16)
    ensures
        r == stuck_level(level, prev, idx_lo, idx_hi),
{
    let min_idx: u16 = if idx_lo < idx_hi {
        idx_lo
    } else {
        idx_hi
    };
    let max_idx: u16 = if idx_lo < idx_hi {
        idx_hi
    } else {
        idx_lo
    };
    let step: u16 = if level < prev {
        prev - level
    } else {
        level - prev
    };
    if max_idx - min_idx <= 1 && step == 1 && prev >= min_idx && prev <= max_idx {
        prev
    } else {
        level
    }
}

/// Subframe levels with small steps held back; `spans` has the lowest and the
/// highest level within each subframe.
pub open spec fn settled_levels(levels: Seq<u16>, spans: Seq<(u16, u16)>) -> Seq<u16>
    decreases levels.len(),
{
    if levels.len() == 0 {
        Seq::empty()
    } else if levels.len() == 1 {
        levels
    } else {
        let head = settled_levels(levels.drop_last(), spans);
        let i = levels.len() - 1;
        head.push(stuck_level(levels[i], head.last(), spans[i].0, spans[i].1))
    }
}

/// Holds small steps back.
pub fn settle_levels(levels: &[u16], spans: &[(u16, u16)]) -> (r: Vec<u16>)
    requires
        spans@.len() == levels@.len(),
    ensures
        r@ == settled_levels(levels@, spans@),
        r@.len() == levels@.len(),
{
    let mut r: Vec<u16> = Vec::new();
    let mut i: usize = 0;
    while i < levels.len()
        invariant
            i <= levels@.len(),
            spans@.len() == levels@.len(),
            r@.len() == i,
            r@ == settled_levels(levels@.take(i as int), spans@),
        decreases levels@.len() - i,
    {
        let level: u16 = if i == 0 {
            levels[i]
        } else {
            sticky_level(levels[i], r[i - 1], spans[i].0, spans[i].1)
        };
        r.push(level);
        i += 1;
        proof {
            let t = levels@.take(i as int);
            assert(t.drop_last() =~= levels@.take(i - 1));
            if i == 1 {
                assert(r@ =~= t);
            }
        }
    }
    assert(levels@.take(levels@.len() as int) =~= levels@);
    r
}

/// The subframe from which on all but the last are at the target.
pub open spec fn is_target_sf(levels: Seq<u16>, t: int) -> bool {
    &&& 0 <= t < levels.len()
    &&& forall|k: int| t <= k < levels.len() - 1 ==> #[trigger] levels[k] == NEUTRAL_LEVEL
    &&& t > 0 ==> levels[t - 1] != NEUTRAL_LEVEL
}

pub fn find_target_sf(sf_level: &[u16]) -> (t: usize)
    requires
        sf_level@.len() > 0,
    ensures
        is_target_sf(sf_level@, t as int),
{
    let mut t: usize = sf_level.len() - 1;
    while t > 0 && sf_level[t - 1] == 4
        invariant
            t < sf_level@.len(),
            forall|k: int| t <= k < sf_level@.len() - 1 ==> #[trigger] sf_level@[k] == NEUTRAL_LEVEL,
        decreases t,
    {
        t -= 1;
    }
    t
}

/// A change of level at `loc` is kept: the last one, one by more than a step, or
/// one at a strong boundary.
pub open spec fn is_kept(loc: int, target_sf: int, lev: u16, prev: u16, strong: Seq<bool>) -> bool {
    lev != prev && (loc == target_sf || distance(lev, prev) >= 2 || strong[loc])
}

/// The kept changes of level at or before subframe `k`, where the level after it
/// is `prev`, in ascending order.
pub open spec fn transitions(
    levels: Seq<u16>,
    strong: Seq<bool>,
    target_sf: int,
    k: nat,
    prev: u16,
) -> Seq<Transition>
    decreases k,
{
    if k == 0 {
        Seq::empty()
    } else {
        let lev = levels[k - 1];
        if is_kept(k as int, target_sf, lev, prev, strong) {
            transitions(levels, strong, target_sf, (k - 1) as nat, lev).push(
                Transition {
                    loc: k as usize,
                    level: lev,
                    delta: distance(lev, prev) as i32,
                },
            )
        } else {
            transitions(levels, strong, target_sf, (k - 1) as nat, prev)
        }
    }
}

/// `a` matters more than `b`: it is larger, or as large and later.
pub open spec fn beats(a: Transition, b: Transition) -> bool {
    a.delta > b.delta || (a.delta == b.delta && a.loc > b.loc)
}

/// The change among the first `n` that matters least.
pub open spec fn weakest(t: Seq<Transition>, n: nat) -> int
    decreases n,
{
    if n <= 1 {
        0
    } else {
        let w = weakest(t, (n - 1) as nat);
        if beats(t[w], t[n - 1]) {
            n - 1
        } else {
            w
        }
    }
}

/// The changes that matter most, at most as many as a curve starts with.
pub open spec fn strongest(t: Seq<Transition>) -> Seq<Transition>
    decreases t.len(),
{
    if t.len() <= MAX_CURVE_POINTS {
        t
    } else {
        let w = weakest(t, t.len());
        if 0 <= w < t.len() {
            strongest(t.remove(w))
        } else {
            t
        }
    }
}

/// Points of a curve out of changes of level.
pub open spec fn curve_of(t: Seq<Transition>) -> Seq<GainCurvePoint> {
    t.map_values(|x: Transition| GainCurvePoint { level: x.level as u32, location: x.loc as u32 })
}

pub open spec fn locs_ascend(t: Seq<Transition>) -> bool {
    forall|i: int, j: int| 0 <= i < j < t.len() ==> (#[trigger] t[i]).loc < (#[trigger] t[j]).loc
}

proof fn lemma_weakest(t: Seq<Transition>, n: nat)
    requires
        1 <= n <= t.len(),
        locs_ascend(t),
    ensures
        0 <= weakest(t, n) < n,
        forall|j: int| 0 <= j < n && j != weakest(t, n) ==> beats(#[trigger] t[j], t[weakest(t, n)]),
    decreases n,
{
    if n > 1 {
        lemma_weakest(t, (n - 1) as nat);
        let w = weakest(t, (n - 1) as nat);
        assert(t[w].loc < t[n - 1].loc);
        assert forall|j: int| 0 <= j < n && j != weakest(t, n) implies beats(
            #[trigger] t[j],
            t[weakest(t, n)],
        ) by {
            if j < n - 1 && j != w {
                assert(beats(t[j], t[w]));
            }
        }
    }
}

proof fn lemma_transitions(
    levels: Seq<u16>,
    strong: Seq<bool>,
    target_sf: int,
    k: nat,
    prev: u16,
)
    requires
        k <= target_sf < levels.len() <= usize::MAX,
    ensures
        locs_ascend(transitions(levels, strong, target_sf, k, prev)),
        forall|i: int|
            0 <= i < transitions(levels, strong, target_sf, k, prev).len() ==> 1 <= (
            #[trigger] transitions(levels, strong, target_sf, k, prev)[i]).loc <= k,
        transitions(levels, strong, target_sf, k, prev).len() <= k,
    decreases k,
{
    if k > 0 {
        let lev = levels[k - 1];
        lemma_transitions(levels, strong, target_sf, (k - 1) as nat, lev);
        lemma_transitions(levels, strong, target_sf, (k - 1) as nat, prev);
    }
}

/// What a curve keeps of the changes of level: at most six of them, in ascending
/// order; each kept one matters more than each dropped one; none is invented.
pub proof fn law_strongest_kept(t: Seq<Transition>)
    requires
        locs_ascend(t),
    ensures
        strongest(t).len() == (if t.len() <= MAX_CURVE_POINTS {
            t.len()
        } else {
            MAX_CURVE_POINTS as nat
        }),
        locs_ascend(strongest(t)),
        forall|i: int| 0 <= i < strongest(t).len() ==> t.contains(#[trigger] strongest(t)[i]),
        forall|i: int, j: int|
            0 <= i < strongest(t).len() && 0 <= j < t.len() && !strongest(t).contains(t[j])
                ==> beats(#[trigger] strongest(t)[i], #[trigger] t[j]),
    decreases t.len(),
{
    if t.len() > MAX_CURVE_POINTS {
        lemma_weakest(t, t.len());
        let w = weakest(t, t.len());
        let r = t.remove(w);
        assert(forall|i: int| 0 <= i < r.len() ==> #[trigger] r[i] == (if i < w {
            t[i]
        } else {
            t[i + 1]
        }));
        law_strongest_kept(r);
        let s = strongest(r);
        assert forall|i: int| 0 <= i < s.len() implies t.contains(#[trigger] s[i]) by {
            assert(r.contains(s[i]));
            let k = choose|k: int| 0 <= k < r.len() && r[k] == s[i];
            assert(r[k] == t[if k < w {
                k
            } else {
                k + 1
            }]);
        }
        assert forall|i: int, j: int|
            0 <= i < s.len() && 0 <= j < t.len() && !s.contains(t[j]) implies beats(
            #[trigger] s[i],
            #[trigger] t[j],
        ) by {
            if j == w {
                assert(r.contains(s[i]));
                let k = choose|k: int| 0 <= k < r.len() && r[k] == s[i];
                let m = if k < w {
                    k
                } else {
                    k + 1
                };
                assert(r[k] == t[m]);
                assert(beats(t[m], t[w]));
            } else {
                let k = if j < w {
                    j
                } else {
                    j - 1
                };
                assert(r[k] == t[j]);
            }
        }
    }
}

/// Builds a gain curve out of subframe levels: the changes of level before the
/// target is reached, walked from the target back.
/// `strong` tells of each subframe whether the signal changes a lot at its start.
pub fn build_curve(sf_level: &[u16], strong: &[bool]) -> (curve: Vec<GainCurvePoint>)
    requires
        sf_level@.len() > 0,
        sf_level@.len() <= u32::MAX,
        strong@.len() >= sf_level@.len(),
    ensures
        exists|t: int|
            #![trigger is_target_sf(sf_level@, t)]
            is_target_sf(sf_level@, t) && curve@ == curve_of(
                strongest(transitions(sf_level@, strong@, t, t as nat, NEUTRAL_LEVEL)),
            ),
        curve@.len() <= MAX_CURVE_POINTS,
        forall|i: int, j: int|
            0 <= i < j < curve@.len() ==> (#[trigger] curve@[i]).location < (
            #[trigger] curve@[j]).location,
        forall|i: int|
            0 <= i < curve@.len() ==> 1 <= (#[trigger] curve@[i]).location < sf_level@.len(),
{
    let target_sf: usize = find_target_sf(sf_level);
    let ghost all = transitions(
        sf_level@,
        strong@,
        target_sf as int,
        target_sf as nat,
        NEUTRAL_LEVEL,
    );
    proof {
        lemma_transitions(
            sf_level@,
            strong@,
            target_sf as int,
            target_sf as nat,
            NEUTRAL_LEVEL,
        );
    }
    let mut found: Vec<Transition> = Vec::new();
    let mut prev: u16 = 4;
    let mut sf: usize = target_sf;
    assert(transitions(sf_level@, strong@, target_sf as int, sf as nat, prev) + found@.reverse()
        =~= all);
    while sf > 0
        invariant
            sf <= target_sf < sf_level@.len() <= strong@.len(),
            transitions(sf_level@, strong@, target_sf as int, sf as nat, prev) + found@.reverse()
                == all,
        decreases sf,
    {
        let loc: usize = sf;
        let ghost rest = transitions(sf_level@, strong@, target_sf as int, sf as nat, prev);
        let ghost before = found@;
        sf -= 1;
        let lev: u16 = sf_level[sf];
        if lev != prev {
            let delta: i32 = if lev < prev {
                prev as i32 - lev as i32
            } else {
                lev as i32 - prev as i32
            };
            if loc == target_sf || delta >= 2 || strong[loc] {
                found.push(Transition { loc, level: lev, delta });
                prev = lev;
                proof {
                    let t = found@.last();
                    assert(rest == transitions(
                        sf_level@,
                        strong@,
                        target_sf as int,
                        sf as nat,
                        lev,
                    ).push(t));
                    assert(found@.reverse() =~= seq![t] + before.reverse());
                    assert(rest.drop_last() + found@.reverse() =~= rest + before.reverse());
                    assert(rest.drop_last() =~= transitions(
                        sf_level@,
                        strong@,
                        target_sf as int,
                        sf as nat,
                        lev,
                    ));
                }
            }
        }
    }
    let mut trans: Vec<Transition> = Vec::new();
    let mut i: usize = found.len();
    assert(found@.reverse() =~= all);
    while i > 0
        invariant
            i <= found@.len(),
            trans@ == found@.reverse().take(found@.len() - i),
        decreases i,
    {
        i -= 1;
        trans.push(found[i]);
        assert(trans@ =~= found@.reverse().take(found@.len() - i));
    }
    assert(trans@ =~= all);
    proof {
        law_strongest_kept(all);
    }
    while trans.len() > MAX_CURVE_POINTS
        invariant
            locs_ascend(trans@),
            strongest(trans@) == strongest(all),
        decreases trans@.len(),
    {
        let mut w: usize = 0;
        let mut n: usize = 1;
        while n < trans.len()
            invariant
                1 <= n <= trans@.len(),
                w < n,
                w == weakest(trans@, n as nat),
            decreases trans@.len() - n,
        {
            let a: Transition = trans[w];
            let b: Transition = trans[n];
            if a.delta > b.delta || (a.delta == b.delta && a.loc > b.loc) {
                w = n;
            }
            n += 1;
        }
        let ghost before = trans@;
        let _ = trans.remove(w);
        assert(trans@ == before.remove(w as int));
        assert(forall|k: int| 0 <= k < trans@.len() ==> #[trigger] trans@[k] == (if k < w {
            before[k]
        } else {
            before[k + 1]
        }));
    }
    let mut curve: Vec<GainCurvePoint> = Vec::new();
    i = 0;
    while i < trans.len()
        invariant
            i <= trans@.len(),
            curve@ == curve_of(trans@).take(i as int),
            trans@ == strongest(all),
            forall|k: int| 0 <= k < trans@.len() ==> all.contains(#[trigger] trans@[k]),
            forall|k: int|
                0 <= k < all.len() ==> 1 <= (#[trigger] all[k]).loc < sf_level@.len(),
            sf_level@.len() <= u32::MAX,
        decreases trans@.len() - i,
    {
        let t: Transition = trans[i];
        assert(all.contains(trans@[i as int]));
        curve.push(GainCurvePoint { level: t.level as u32, location: t.loc as u32 });
        i += 1;
        assert(curve@ =~= curve_of(trans@).take(i as int));
    }
    assert(curve@ =~= curve_of(trans@));
    proof {
        assert(is_target_sf(sf_level@, target_sf as int));
        assert forall|k: int| 0 <= k < curve@.len() implies 1 <= (#[trigger] curve@[k]).location
            < sf_level@.len() && curve@[k].location == trans@[k].loc by {
            assert(all.contains(trans@[k]));
        }
    }
    curve
}

/// The changes of level at or before subframe `k` that a curve leaves out, where the
/// level after it is `prev`, the latest first.
pub open spec fn pruned(
    levels: Seq<u16>,
    strong: Seq<bool>,
    target_sf: int,
    k: nat,
    prev: u16,
) -> Seq<Transition>
    decreases k,
{
    if k == 0 {
        Seq::empty()
    } else {
        let lev = levels[k - 1];
        if is_kept(k as int, target_sf, lev, prev, strong) {
            pruned(levels, strong, target_sf, (k - 1) as nat, lev)
        } else if lev != prev {
            seq![
                Transition {
                    loc: k as usize,
                    level: lev,
                    delta: distance(lev, prev) as i32,
                },
            ] + pruned(levels, strong, target_sf, (k - 1) as nat, prev)
        } else {
            pruned(levels, strong, target_sf, (k - 1) as nat, prev)
        }
    }
}

/// The changes of level before the target that `build_curve` leaves out because the
/// signal hardly changes there.
pub fn pruned_transitions(sf_level: &[u16], strong: &[bool]) -> (r: Vec<Transition>)
    requires
        sf_level@.len() > 0,
        strong@.len() >= sf_level@.len(),
    ensures
        exists|t: int|
            #![trigger is_target_sf(sf_level@, t)]
            is_target_sf(sf_level@, t) && r@ == pruned(
                sf_level@,
                strong@,
                t,
                t as nat,
                NEUTRAL_LEVEL,
            ),
{
    let target_sf: usize = find_target_sf(sf_level);
    let ghost t = target_sf as int;
    let ghost all = pruned(sf_level@, strong@, t, t as nat, NEUTRAL_LEVEL);
    let mut r: Vec<Transition> = Vec::new();
    let mut prev: u16 = NEUTRAL_LEVEL;
    let mut sf: usize = target_sf;
    assert(r@ + all =~= all);
    while sf > 0
        invariant
            sf <= target_sf < sf_level@.len() <= strong@.len(),
            t == target_sf,
            r@ + pruned(sf_level@, strong@, t, sf as nat, prev) == all,
        decreases sf,
    {
        let loc: usize = sf;
        let ghost before = r@;
        let ghost rest = pruned(sf_level@, strong@, t, sf as nat, prev);
        sf -= 1;
        let lev: u16 = sf_level[sf];
        if lev != prev {
            let delta: i32 = if lev < prev {
                prev as i32 - lev as i32
            } else {
                lev as i32 - prev as i32
            };
            if loc == target_sf || delta >= 2 || strong[loc] {
                prev = lev;
            } else {
                r.push(Transition { loc, level: lev, delta });
                assert(r@ + pruned(sf_level@, strong@, t, sf as nat, prev) =~= before + rest);
            }
        }
    }
    assert(r@ + pruned(sf_level@, strong@, t, 0, prev) =~= r@);
    r
}

/// The level of a subframe that is `whole` times as loud as the target, or
/// `whole` times as soft: one step for every doubling.
pub fn relation_to_idx(softer: bool, whole: u32) -> (level: u16)
    requires
        softer ==> whole <= 2048,
        !softer ==> whole <= 16,
    ensures
        level == (if softer {
            NEUTRAL_LEVEL + util::highest_bit(whole as nat)
        } else {
            NEUTRAL_LEVEL - util::highest_bit(whole as nat)
        }),
        level <= 15,
{
    proof {
        power2::lemma2_to64();
        if whole > 0 {
            let h = util::highest_bit(whole as nat);
            util::lemma_highest_bit(whole as nat);
            if h > 11 {
                power2::lemma_pow2_strictly_increases(11, h);
            }
            if h > 4 {
                power2::lemma_pow2_strictly_increases(4, h);
            }
        }
    }
    let step: u16 = util::get_first_set_bit(whole);
    if softer {
        NEUTRAL_LEVEL + step
    } else {
        NEUTRAL_LEVEL - step
    }
}

/// Where the last transient of a signal was, counted in short blocks from the one
/// before the frame on.
#[derive(Debug, Clone, Copy, Eq, PartialEq, Structural)]
pub struct TransientMark {
    pub last_transient_pos: u16,
}

impl TransientMark {
    pub fn new() -> (m: Self)
        ensures
            m.last_transient_pos == 0,
    {
        TransientMark { last_transient_pos: 0 }
    }

    /// Takes note of the jumps of a frame: `jumps[i]` tells of one between short
    /// block `i` and the one before it. True where there was any.
    pub fn note(&mut self, jumps: &[bool]) -> (found: bool)
        requires
            jumps@.len() <= u16::MAX,
        ensures
            found == jumps@.contains(true),
            !found ==> *final(self) == *old(self),
            found ==> {
                let last = final(self).last_transient_pos - 1;
                &&& 0 <= last < jumps@.len()
                &&& jumps@[last]
                &&& forall|i: int| last < i < jumps@.len() ==> !jumps@[i]
            },
    {
        let mut i: usize = jumps.len();
        while i > 0
            invariant
                i <= jumps@.len() <= u16::MAX,
                *self == *old(self),
                forall|k: int| i <= k < jumps@.len() ==> !jumps@[k],
            decreases i,
        {
            if jumps[i - 1] {
                self.last_transient_pos = i as u16;
                assert(jumps@[i - 1] == true);
                return true;
            }
            i -= 1;
        }
        false
    }
}

/// When a step is held back: only a step by one, onto a level that the levels within
/// the subframe are no more than one step from and that is one of them. Every other
/// level stays. The order of the two levels within the subframe does not matter.
pub proof fn law_small_steps_held(level: u16, prev: u16, a: u16, b: u16)
    ensures
        stuck_level(level, prev, a, b) == stuck_level(level, prev, b, a),
        level == prev ==> stuck_level(level, prev, a, b) == level,
        level > prev + 1 || prev > level + 1 ==> stuck_level(level, prev, a, b) == level,
        a > b + 1 || b > a + 1 ==> stuck_level(level, prev, a, b) == level,
        prev != a && prev != b ==> stuck_level(level, prev, a, b) == level,
        (level == prev + 1 || prev == level + 1) && (a == b && prev == a || a == b + 1 && (prev == a
            || prev == b) || b == a + 1 && (prev == a || prev == b)) ==> stuck_level(
            level,
            prev,
            a,
            b,
        ) == prev,
{
}

/// Levels settle one after the other: the first stays, and every later one is held back
/// against the settled level before it, by the levels within its own subframe.
pub proof fn law_levels_settle(levels: Seq<u16>, spans: Seq<(u16, u16)>, i: int)
    requires
        0 <= i < levels.len(),
    ensures
        settled_levels(levels, spans).len() == levels.len(),
        i == 0 ==> settled_levels(levels, spans)[0] == levels[0],
        i > 0 ==> settled_levels(levels, spans)[i] == stuck_level(
            levels[i],
            settled_levels(levels, spans)[i - 1],
            spans[i].0,
            spans[i].1,
        ),
    decreases levels.len(),
{
    lemma_settled_len(levels, spans);
    if levels.len() > 1 {
        lemma_settled_len(levels.drop_last(), spans);
        if i < levels.len() - 1 {
            law_levels_settle(levels.drop_last(), spans, i);
        }
    }
}

proof fn lemma_settled_len(levels: Seq<u16>, spans: Seq<(u16, u16)>)
    ensures
        settled_levels(levels, spans).len() == levels.len(),
    decreases levels.len(),
{
    if levels.len() > 1 {
        lemma_settled_len(levels.drop_last(), spans);
    }
}

/// The level that holds behind change `j` of a list: that of the next change, and behind
/// the last one `prev`.
pub open spec fn level_behind(t: Seq<Transition>, j: int, prev: u16) -> u16 {
    if j + 1 < t.len() {
        t[j + 1].level
    } else {
        prev
    }
}

/// What the kept changes are: each tells the level before its place and how far that is
/// from the level that holds behind it, which is more than nothing; and it is at the
/// target, by two steps or more, or at a strong boundary.
pub proof fn law_kept_changes(
    levels: Seq<u16>,
    strong: Seq<bool>,
    target_sf: int,
    k: nat,
    prev: u16,
    j: int,
)
    requires
        k <= target_sf < levels.len() <= usize::MAX,
        0 <= j < transitions(levels, strong, target_sf, k, prev).len(),
    ensures
        ({
            let t = transitions(levels, strong, target_sf, k, prev);
            let next = level_behind(t, j, prev);
            &&& 1 <= t[j].loc <= k
            &&& t[j].level == levels[t[j].loc - 1]
            &&& t[j].level != next
            &&& t[j].level > next ==> t[j].delta == t[j].level - next
            &&& t[j].level < next ==> t[j].delta == next - t[j].level
            &&& t[j].loc == target_sf || t[j].delta >= 2 || strong[t[j].loc as int]
        }),
    decreases k,
{
    if k > 0 {
        let lev = levels[k - 1];
        let t = transitions(levels, strong, target_sf, k, prev);
        if is_kept(k as int, target_sf, lev, prev, strong) {
            let r = transitions(levels, strong, target_sf, (k - 1) as nat, lev);
            if j < r.len() {
                law_kept_changes(levels, strong, target_sf, (k - 1) as nat, lev, j);
                assert(level_behind(r, j, lev) == level_behind(t, j, prev));
            }
        } else {
            law_kept_changes(levels, strong, target_sf, (k - 1) as nat, prev, j);
        }
    }
}

/// Change `j` is the last one of the list up to place `loc`, -1 for none, and it is at
/// `loc`, or the level before `loc` is the one that holds there, or it is off by one step
/// at a boundary that is not strong and not at the target.
pub open spec fn is_accounted(
    levels: Seq<u16>,
    strong: Seq<bool>,
    target_sf: int,
    t: Seq<Transition>,
    prev: u16,
    loc: int,
    j: int,
) -> bool {
    let next = level_behind(t, j, prev);
    &&& -1 <= j < t.len()
    &&& j >= 0 ==> t[j].loc <= loc
    &&& j + 1 < t.len() ==> t[j + 1].loc > loc
    &&& {
        ||| j >= 0 && t[j].loc == loc
        ||| levels[loc - 1] == next
        ||| loc != target_sf && !strong[loc] && (levels[loc - 1] + 1 == next || levels[loc - 1] == next
            + 1)
    }
}

/// No change that matters is missed: every place is accounted for by the list.
pub proof fn law_no_change_missed(
    levels: Seq<u16>,
    strong: Seq<bool>,
    target_sf: int,
    k: nat,
    prev: u16,
    loc: int,
) -> (j: int)
    requires
        k <= target_sf < levels.len() <= usize::MAX,
        1 <= loc <= k,
    ensures
        is_accounted(
            levels,
            strong,
            target_sf,
            transitions(levels, strong, target_sf, k, prev),
            prev,
            loc,
            j,
        ),
    decreases k,
{
    let lev = levels[k - 1];
    let t = transitions(levels, strong, target_sf, k, prev);
    if is_kept(k as int, target_sf, lev, prev, strong) {
        let r = transitions(levels, strong, target_sf, (k - 1) as nat, lev);
        lemma_transitions(levels, strong, target_sf, (k - 1) as nat, lev);
        if loc == k {
            r.len() as int
        } else {
            let j = law_no_change_missed(levels, strong, target_sf, (k - 1) as nat, lev, loc);
            assert(level_behind(t, j, prev) == level_behind(r, j, lev));
            j
        }
    } else {
        lemma_transitions(levels, strong, target_sf, (k - 1) as nat, prev);
        if loc == k {
            t.len() - 1
        } else {
            law_no_change_missed(levels, strong, target_sf, (k - 1) as nat, prev, loc)
        }
    }
}

/// The changes that are left out are by one step, at boundaries that are not strong, and
/// none of them is listed among the kept ones; the two lists have every change between
/// them.
pub proof fn law_changes_kept_or_pruned(
    levels: Seq<u16>,
    strong: Seq<bool>,
    target_sf: int,
    k: nat,
    prev: u16,
    i: int,
)
    requires
        k <= target_sf < levels.len() <= usize::MAX,
        0 <= i < pruned(levels, strong, target_sf, k, prev).len(),
    ensures
        ({
            let p = pruned(levels, strong, target_sf, k, prev);
            let t = transitions(levels, strong, target_sf, k, prev);
            &&& 1 <= p[i].loc <= k
            &&& i > 0 ==> p[i].loc < p[i - 1].loc
            &&& p[i].level == levels[p[i].loc - 1]
            &&& p[i].delta == 1
            &&& p[i].loc != target_sf
            &&& !strong[p[i].loc as int]
            &&& forall|j: int| 0 <= j < t.len() ==> (#[trigger] t[j]).loc != p[i].loc
        }),
    decreases k,
{
    if k > 0 {
        let lev = levels[k - 1];
        let p = pruned(levels, strong, target_sf, k, prev);
        if is_kept(k as int, target_sf, lev, prev, strong) {
            law_changes_kept_or_pruned(levels, strong, target_sf, (k - 1) as nat, lev, i);
            let r = transitions(levels, strong, target_sf, (k - 1) as nat, lev);
            let t = transitions(levels, strong, target_sf, k, prev);
            assert forall|j: int| 0 <= j < t.len() implies (#[trigger] t[j]).loc != p[i].loc by {
                if j < r.len() {
                    assert(t[j] == r[j]);
                }
            }
        } else if lev != prev {
            let r = pruned(levels, strong, target_sf, (k - 1) as nat, prev);
            lemma_transitions(levels, strong, target_sf, (k - 1) as nat, prev);
            if i > 0 {
                assert(p[i] == r[i - 1]);
                if i > 1 {
                    assert(p[i - 1] == r[i - 2]);
                }
                law_changes_kept_or_pruned(levels, strong, target_sf, (k - 1) as nat, prev, i - 1);
            }
        } else {
            law_changes_kept_or_pruned(levels, strong, target_sf, (k - 1) as nat, prev, i);
        }
    }
}

/// A curve has one point for each change, with its level and its place.
pub proof fn law_curve_points(t: Seq<Transition>, i: int)
    requires
        0 <= i < t.len(),
        t[i].loc <= u32::MAX,
    ensures
        curve_of(t).len() == t.len(),
        curve_of(t)[i].level == t[i].level,
        curve_of(t)[i].location == t[i].loc,
{
}

} // verus!
