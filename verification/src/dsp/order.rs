//! Order statistics of levels. A level is given by a key; the order of the keys is
//! that of the levels.

use vstd::prelude::*;

verus! {

pub open spec fn key_leq() -> spec_fn(i32, i32) -> bool {
    |a: i32, b: i32| a <= b
}

/// The keys in ascending order.
pub open spec fn ordered(keys: Seq<i32>) -> Seq<i32> {
    keys.sort_by(key_leq())
}

proof fn lemma_ordered(keys: Seq<i32>, sorted: Seq<i32>)
    requires
        sorted.to_multiset() == keys.to_multiset(),
        forall|i: int, j: int| 0 <= i < j < sorted.len() ==> sorted[i] <= sorted[j],
    ensures
        sorted == ordered(keys),
        sorted.len() == keys.len(),
{
    keys.lemma_sort_by_ensures(key_leq());
    vstd::seq_lib::lemma_sorted_unique(sorted, ordered(keys), key_leq());
    vstd::seq_lib::to_multiset_len(sorted);
    vstd::seq_lib::to_multiset_len(keys);
}

/// Sorts keys.
pub fn sort_keys(keys: &[i32]) -> (sorted: Vec<i32>)
    ensures
        sorted@ == ordered(keys@),
        sorted@.len() == keys@.len(),
{
    let mut sorted: Vec<i32> = Vec::new();
    let mut i: usize = 0;
    assert(keys@.take(0) =~= sorted@);
    while i < keys.len()
        invariant
            i <= keys@.len(),
            sorted@.len() == i,
            sorted@.to_multiset() == keys@.take(i as int).to_multiset(),
            forall|a: int, b: int| 0 <= a < b < sorted@.len() ==> sorted@[a] <= sorted@[b],
        decreases keys@.len() - i,
    {
        let key: i32 = keys[i];
        let mut at: usize = i;
        while at > 0 && sorted[at - 1] > key
            invariant
                at <= i,
                sorted@.len() == i,
                forall|a: int| at <= a < i ==> sorted@[a] > key,
            decreases at,
        {
            at -= 1;
        }
        proof {
            vstd::seq_lib::to_multiset_insert(sorted@, at as int, key);
            vstd::seq_lib::to_multiset_build(keys@.take(i as int), key);
            assert(keys@.take(i + 1) =~= keys@.take(i as int).push(key));
        }
        sorted.insert(at, key);
        i += 1;
    }
    proof {
        assert(keys@.take(i as int) =~= keys@);
        lemma_ordered(keys@, sorted@);
    }
    sorted
}

/// The keys a quarter and three quarters of the way up.
pub fn quartiles(keys: &[i32]) -> (r: (i32, i32))
    requires
        0 < keys@.len() <= usize::MAX / 3,
    ensures
        r.0 == ordered(keys@)[keys@.len() as int / 4],
        r.1 == ordered(keys@)[keys@.len() as int * 3 / 4],
{
    let sorted: Vec<i32> = sort_keys(keys);
    let n: usize = sorted.len();
    (sorted[n / 4], sorted[(n * 3) / 4])
}

/// The first key of the neighbourhood of key `i`.
pub open spec fn window_start(i: int, radius: int) -> int {
    if i >= radius {
        i - radius
    } else {
        0
    }
}

/// The end of the neighbourhood of key `i` of `n`.
pub open spec fn window_end(n: int, i: int, radius: int) -> int {
    if i + radius < n {
        i + radius + 1
    } else {
        n
    }
}

/// The keys around key `i`, at most `radius` away from it.
pub open spec fn around(keys: Seq<i32>, i: int, radius: int) -> Seq<i32> {
    keys.subrange(window_start(i, radius), window_end(keys.len() as int, i, radius))
}

/// The middle one of the keys around key `i`.
pub open spec fn median_at(keys: Seq<i32>, i: int, radius: int) -> i32 {
    ordered(around(keys, i, radius))[around(keys, i, radius).len() as int / 2]
}

/// Every key replaced by the median of the keys around it.
pub fn median_filter(keys: &[i32], radius: usize) -> (out: Vec<i32>)
    requires
        keys@.len() + radius < usize::MAX,
    ensures
        out@ == Seq::new(keys@.len(), |i: int| median_at(keys@, i, radius as int)),
{
    let n: usize = keys.len();
    let mut out: Vec<i32> = Vec::new();
    let mut i: usize = 0;
    while i < n
        invariant
            i <= n,
            n == keys@.len(),
            n + radius < usize::MAX,
            out@.len() == i,
            forall|j: int| 0 <= j < i ==> out@[j] == median_at(keys@, j, radius as int),
        decreases n - i,
    {
        let start: usize = if i >= radius {
            i - radius
        } else {
            0
        };
        let end: usize = if i + radius < n {
            i + radius + 1
        } else {
            n
        };
        let window: &[i32] = vstd::slice::slice_subrange(keys, start, end);
        let sorted: Vec<i32> = sort_keys(window);
        out.push(sorted[sorted.len() / 2]);
        i += 1;
    }
    assert(out@ =~= Seq::new(keys@.len(), |i: int| median_at(keys@, i, radius as int)));
    out
}

/// The lowest of the `n` keys from `from` on.
pub open spec fn lowest(keys: Seq<i32>, from: int, n: nat) -> i32
    decreases n,
{
    if n <= 1 {
        keys[from]
    } else {
        let rest = lowest(keys, from, (n - 1) as nat);
        if keys[from + n - 1] < rest {
            keys[from + n - 1]
        } else {
            rest
        }
    }
}

/// No key of a range lies below its lowest one.
proof fn lemma_lowest(keys: Seq<i32>, from: int, n: nat, i: int)
    requires
        from <= i < from + n,
    ensures
        lowest(keys, from, n) <= keys[i],
    decreases n,
{
    if n > 1 && i < from + n - 1 {
        lemma_lowest(keys, from, (n - 1) as nat, i);
    }
}

fn find_lowest(keys: &[i32], from: usize, n: usize) -> (r: i32)
    requires
        n > 0,
        from + n <= keys@.len(),
    ensures
        r == lowest(keys@, from as int, n as nat),
{
    let len: usize = keys.len();
    let mut r: i32 = keys[from];
    let mut k: usize = 1;
    while k < n
        invariant
            1 <= k <= n,
            from + n <= len,
            len == keys@.len(),
            r == lowest(keys@, from as int, k as nat),
        decreases n - k,
    {
        if keys[from + k] < r {
            r = keys[from + k];
        }
        k += 1;
    }
    r
}

/// A stretch of an envelope that stays at a level or above it.
#[derive(Debug, Clone, Copy, Eq, PartialEq, Structural)]
pub struct Plateau {
    pub level: i32,
    pub start: usize,
    /// The last place of the stretch.
    pub end: usize,
}

/// `p` is the first of the highest stretches of at least `n` keys, as long as it
/// stays at its level, and its level is above `floor`.
pub open spec fn is_plateau(keys: Seq<i32>, n: int, floor: i32, p: Plateau) -> bool {
    &&& p.level > floor
    &&& p.start + n <= keys.len()
    &&& p.level == lowest(keys, p.start as int, n as nat)
    &&& forall|j: int|
        0 <= j < p.start ==> #[trigger] lowest(keys, j, n as nat) < p.level
    &&& forall|j: int|
        p.start <= j <= keys.len() - n ==> #[trigger] lowest(keys, j, n as nat) <= p.level
    &&& p.start + n - 1 <= p.end < keys.len()
    &&& forall|i: int| p.start + n <= i <= p.end ==> keys[i] >= p.level
    &&& p.end + 1 < keys.len() ==> keys[p.end + 1] < p.level
}

/// Finds the highest level above `floor` that `min_contiguous` successive keys reach.
pub fn find_plateau(keys: &[i32], min_contiguous: usize, floor: i32) -> (r: Option<Plateau>)
    requires
        min_contiguous > 0,
    ensures
        match r {
            Some(p) => is_plateau(keys@, min_contiguous as int, floor, p),
            None => forall|j: int|
                0 <= j <= keys@.len() - min_contiguous ==> #[trigger] lowest(
                    keys@,
                    j,
                    min_contiguous as nat,
                ) <= floor,
        },
{
    let n: usize = keys.len();
    if n < min_contiguous {
        return None;
    }
    let last: usize = n - min_contiguous;
    let mut level: i32 = floor;
    let mut start: Option<usize> = None;
    let mut j: usize = 0;
    let mut more: bool = true;
    while more
        invariant
            n == keys@.len(),
            min_contiguous > 0,
            last == n - min_contiguous,
            j <= last,
            level >= floor,
            ({
                let seen = if more {
                    j as int
                } else {
                    last + 1
                };
                match start {
                    Some(s) => {
                        &&& s < seen
                        &&& level > floor
                        &&& level == lowest(keys@, s as int, min_contiguous as nat)
                        &&& forall|k: int|
                            0 <= k < s ==> #[trigger] lowest(keys@, k, min_contiguous as nat)
                                < level
                        &&& forall|k: int|
                            s <= k < seen ==> #[trigger] lowest(keys@, k, min_contiguous as nat)
                                <= level
                    },
                    None => {
                        &&& level == floor
                        &&& forall|k: int|
                            0 <= k < seen ==> #[trigger] lowest(keys@, k, min_contiguous as nat)
                                <= floor
                    },
                }
            }),
        decreases
            last - j + (if more {
                1int
            } else {
                0
            }),
    {
        let low: i32 = find_lowest(keys, j, min_contiguous);
        if low > level {
            level = low;
            start = Some(j);
        }
        if j < last {
            j += 1;
        } else {
            more = false;
        }
    }
    match start {
        None => None,
        Some(s) => {
            let mut end: usize = s + min_contiguous - 1;
            while end + 1 < n && keys[end + 1] >= level
                invariant
                    n == keys@.len(),
                    min_contiguous > 0,
                    s + min_contiguous - 1 <= end < n,
                    forall|i: int| s + min_contiguous <= i <= end ==> keys@[i] >= level,
                decreases n - end,
            {
                end += 1;
            }
            Some(Plateau { level, start: s, end })
        },
    }
}

/// From its first place to its last a plateau stays at its level or above.
pub proof fn law_plateau_holds_level(keys: Seq<i32>, n: int, floor: i32, p: Plateau, i: int)
    requires
        n > 0,
        is_plateau(keys, n, floor, p),
        p.start <= i <= p.end,
    ensures
        keys[i] >= p.level,
{
    if i < p.start + n {
        lemma_lowest(keys, p.start as int, n as nat, i);
    }
}

/// What follows a plateau is a release: the envelope ends far below the plateau, or
/// it does not come near it again and ends well below it.
pub fn releases_at_end(end: usize, near: &[bool], far_below: bool, well_below: bool) -> (r: bool)
    requires
        end < near@.len(),
    ensures
        r == (end < near@.len() - 1 && (far_below || well_below && !(exists|i: int|
            end < i < near@.len() && near@[i]))),
{
    let n: usize = near.len();
    if end == n - 1 {
        return false;
    }
    if far_below {
        return true;
    }
    let mut i: usize = end + 1;
    while i < n
        invariant
            end < i <= n,
            n == near@.len(),
            !far_below,
            forall|k: int| end < k < i ==> !near@[k],
        decreases n - i,
    {
        if near[i] {
            return false;
        }
        i += 1;
    }
    well_below
}

/// What is put in order are just the given keys, and no key comes before a lower one.
pub proof fn law_ordered(keys: Seq<i32>, i: int, j: int)
    requires
        0 <= i <= j < keys.len(),
    ensures
        ordered(keys).len() == keys.len(),
        ordered(keys).to_multiset() == keys.to_multiset(),
        ordered(keys)[i] <= ordered(keys)[j],
{
    keys.lemma_sort_by_ensures(key_leq());
    vstd::seq_lib::to_multiset_len(ordered(keys));
    vstd::seq_lib::to_multiset_len(keys);
    if i < j {
        assert(key_leq()(ordered(keys)[i], ordered(keys)[j]));
    }
}

/// The neighbourhood of key `i` has the keys at most `radius` places away from it, in
/// their order, and no others.
pub proof fn law_neighbours(keys: Seq<i32>, i: int, radius: int, j: int)
    requires
        0 <= i < keys.len(),
        0 <= radius,
    ensures
        ({
            let first = if i < radius {
                0
            } else {
                i - radius
            };
            let last = if i + radius >= keys.len() {
                keys.len() - 1
            } else {
                i + radius
            };
            &&& around(keys, i, radius).len() == last - first + 1
            &&& first <= j <= last ==> around(keys, i, radius)[j - first] == keys[j]
        }),
{
}

/// A median is the middle one of its neighbourhood put in order, the upper one of two:
/// no key of the lower part is above it and none of the upper part below.
pub proof fn law_median_splits(keys: Seq<i32>, i: int, radius: int, j: int)
    requires
        0 <= i < keys.len(),
        0 <= radius,
        0 <= j < around(keys, i, radius).len(),
    ensures
        ({
            let s = ordered(around(keys, i, radius));
            let m = median_at(keys, i, radius);
            &&& s.len() == around(keys, i, radius).len()
            &&& m == s[s.len() as int / 2]
            &&& 2 * j <= s.len() ==> s[j] <= m
            &&& 2 * j >= s.len() ==> s[j] >= m
        }),
{
    let a = around(keys, i, radius);
    let mid = a.len() as int / 2;
    if j <= mid {
        law_ordered(a, j, mid);
    } else {
        law_ordered(a, mid, j);
    }
    if 2 * j >= a.len() {
        if j >= mid {
            law_ordered(a, mid, j);
        }
    }
}

/// The lowest key of a range is one of its keys, and none lies below it.
pub proof fn law_lowest(keys: Seq<i32>, from: int, n: nat, i: int)
    requires
        from <= i < from + n,
    ensures
        lowest(keys, from, n) <= keys[i],
        exists|k: int| from <= k < from + n && #[trigger] keys[k] == lowest(keys, from, n),
    decreases n,
{
    lemma_lowest(keys, from, n, i);
    if n > 1 {
        law_lowest(keys, from, (n - 1) as nat, from);
        let k = choose|k: int|
            from <= k < from + n - 1 && #[trigger] keys[k] == lowest(keys, from, (n - 1) as nat);
        assert(keys[k] == lowest(keys, from, (n - 1) as nat));
        assert(keys[from + n - 1] == keys[from + n - 1]);
    } else {
        assert(keys[from] == lowest(keys, from, n));
    }
}

} // verus!
