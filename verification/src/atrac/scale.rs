//! Where the blocks of a spectrum lie, which scale they get and how their rounded
//! lines are moved.

use vstd::prelude::*;

verus! {

/// The blocks of the bands of a spectrum.
#[derive(Debug, Clone)]
pub struct BlockLayout<'a> {
    pub num_qmf: usize,
    pub blocks_per_band: &'a [u8],
    pub specs_start_short: &'a [u16],
    pub specs_start_long: &'a [u16],
    pub specs_per_block: &'a [u16],
    pub short_windows: &'a [bool],
}

impl<'a> BlockLayout<'a> {
    /// Every band and every block of a band is described.
    pub open spec fn wf(&self) -> bool {
        &&& self.num_qmf < self.blocks_per_band@.len()
        &&& self.num_qmf <= self.short_windows@.len()
        &&& forall|b: int|
            0 <= b < self.num_qmf ==> {
                let end = self.blocks_per_band@[b + 1];
                #[trigger] self.blocks_per_band@[b] < end ==> {
                    &&& end <= self.specs_start_short@.len()
                    &&& end <= self.specs_start_long@.len()
                    &&& end <= self.specs_per_block@.len()
                }
            }
    }

    /// The lines of block `n` of band `b`, as first line and number of lines.
    pub open spec fn range_of(&self, b: int, n: int) -> (usize, usize) {
        (
            if self.short_windows@[b] {
                self.specs_start_short@[n] as usize
            } else {
                self.specs_start_long@[n] as usize
            },
            self.specs_per_block@[n] as usize,
        )
    }

    /// The lines of the blocks of band `b` that come before block `end`.
    pub open spec fn band_ranges(&self, b: int, end: int) -> Seq<(usize, usize)> {
        let first = self.blocks_per_band@[b] as int;
        Seq::new(
            (if first < end {
                end - first
            } else {
                0
            }) as nat,
            |i: int| self.range_of(b, first + i),
        )
    }

    /// The lines of all blocks of the first `n` bands, band by band.
    pub open spec fn ranges(&self, n: nat) -> Seq<(usize, usize)>
        decreases n,
    {
        if n == 0 {
            Seq::empty()
        } else {
            self.ranges((n - 1) as nat) + self.band_ranges(
                n - 1,
                self.blocks_per_band@[n as int] as int,
            )
        }
    }

    /// The lines of all blocks, in the order in which they are scaled.
    pub fn block_ranges(&self) -> (r: Vec<(usize, usize)>)
        requires
            self.wf(),
        ensures
            r@ == self.ranges(self.num_qmf as nat),
    {
        let mut r: Vec<(usize, usize)> = Vec::new();
        let mut b: usize = 0;
        while b < self.num_qmf
            invariant
                b <= self.num_qmf,
                self.wf(),
                r@ == self.ranges(b as nat),
            decreases self.num_qmf - b,
        {
            let first: usize = self.blocks_per_band[b] as usize;
            let end: usize = self.blocks_per_band[b + 1] as usize;
            let short: bool = self.short_windows[b];
            let ghost before = r@;
            let mut n: usize = first;
            assert(self.blocks_per_band@[b as int] == first);
            assert(before + self.band_ranges(b as int, first as int) =~= before);
            while n < end
                invariant
                    first <= n,
                    n <= end || n == first,
                    b < self.num_qmf,
                    self.wf(),
                    first == self.blocks_per_band@[b as int],
                    end == self.blocks_per_band@[b + 1],
                    short == self.short_windows@[b as int],
                    r@ == before + self.band_ranges(b as int, n as int),
                decreases end - n,
            {
                assert(self.blocks_per_band@[b as int] < end);
                let start: usize = if short {
                    self.specs_start_short[n] as usize
                } else {
                    self.specs_start_long[n] as usize
                };
                r.push((start, self.specs_per_block[n] as usize));
                n += 1;
                assert(r@ =~= before + self.band_ranges(b as int, n as int));
            }
            b += 1;
            assert(r@ =~= self.ranges(b as nat)) by {
                let all = self.band_ranges(b - 1, end as int);
                assert(self.band_ranges(b - 1, n as int) =~= all);
            }
        }
        r
    }
}

/// The blocks of one band follow those of the band before.
pub open spec fn bands_ascend(layout: BlockLayout<'_>) -> bool {
    &&& layout.num_qmf < layout.blocks_per_band@.len()
    &&& layout.blocks_per_band@[0] == 0
    &&& forall|b: int|
        0 <= b < layout.num_qmf ==> #[trigger] layout.blocks_per_band@[b]
            <= layout.blocks_per_band@[b + 1]
}

proof fn lemma_ranges(layout: BlockLayout<'_>, n: nat, b: int, i: int)
    requires
        bands_ascend(layout),
        n <= layout.num_qmf,
    ensures
        layout.ranges(n).len() == layout.blocks_per_band@[n as int],
        0 <= b < n && layout.blocks_per_band@[b] <= i < layout.blocks_per_band@[b + 1] ==> {
            &&& i < layout.ranges(n).len()
            &&& layout.ranges(n)[i].0 == (if layout.short_windows@[b] {
                layout.specs_start_short@[i]
            } else {
                layout.specs_start_long@[i]
            })
            &&& layout.ranges(n)[i].1 == layout.specs_per_block@[i]
        },
    decreases n,
{
    if n > 0 {
        assert(layout.blocks_per_band@[n - 1] <= layout.blocks_per_band@[n as int]);
        lemma_ranges(layout, (n - 1) as nat, b, i);
        let before = layout.ranges((n - 1) as nat);
        let here = layout.band_ranges(n - 1, layout.blocks_per_band@[n as int] as int);
        assert(layout.ranges(n) == before + here);
        if b == n - 1 && layout.blocks_per_band@[b] <= i < layout.blocks_per_band@[b + 1] {
            assert(layout.ranges(n)[i] == here[i - before.len()]);
        }
    }
}

/// Where the blocks of the bands follow each other, every block of the spectrum is
/// cut exactly once, in ascending order. Block `i` of band `b` has its own number of
/// lines and starts where the table for short windows puts it if its own band has
/// short windows, else where the table for whole ones does.
pub proof fn law_block_ranges(layout: BlockLayout<'_>, b: int, i: int)
    requires
        bands_ascend(layout),
        0 <= b < layout.num_qmf,
        layout.blocks_per_band@[b] <= i < layout.blocks_per_band@[b + 1],
    ensures
        layout.ranges(layout.num_qmf as nat).len() == layout.blocks_per_band@[layout.num_qmf as int],
        i < layout.ranges(layout.num_qmf as nat).len(),
        layout.short_windows@[b] ==> layout.ranges(layout.num_qmf as nat)[i].0
            == layout.specs_start_short@[i],
        !layout.short_windows@[b] ==> layout.ranges(layout.num_qmf as nat)[i].0
            == layout.specs_start_long@[i],
        layout.ranges(layout.num_qmf as nat)[i].1 == layout.specs_per_block@[i],
{
    lemma_ranges(layout, layout.num_qmf as nat, b, i);
}

/// The scales that a block can be given, by keys whose order is that of the scales.
#[derive(Debug, Clone)]
pub struct Scaler {
    scale_table: Vec<i32>,
}

/// Scale `i` comes before scale `j`: it is smaller, or the same and named earlier.
pub open spec fn scale_before(table: Seq<i32>, i: int, j: int) -> bool {
    table[i] < table[j] || table[i] == table[j] && i <= j
}

/// Scale `r` is the first that holds a peak, or the last one where none does.
pub open spec fn is_scale_for(table: Seq<i32>, peak: i32, r: int) -> bool {
    &&& 0 <= r < table.len()
    &&& if table[r] >= peak {
        forall|i: int|
            0 <= i < table.len() && table[i] >= peak ==> #[trigger] scale_before(table, r, i)
    } else {
        &&& forall|i: int| 0 <= i < table.len() ==> table[i] < peak
        &&& forall|i: int| 0 <= i < table.len() ==> #[trigger] scale_before(table, i, r)
    }
}

impl View for Scaler {
    type V = Seq<i32>;

    closed spec fn view(&self) -> Seq<i32> {
        self.scale_table@
    }
}

impl Scaler {
    pub fn new(scale_table: &[i32]) -> (s: Self)
        ensures
            s@ == scale_table@,
    {
        let table: Vec<i32> = vstd::slice::slice_to_vec(scale_table);
        assert(table@ =~= scale_table@);
        Scaler { scale_table: table }
    }

    /// The scale for a block with the given peak.
    pub fn scale_factor_index(&self, peak: i32) -> (r: u8)
        requires
            1 <= self@.len() <= 256,
        ensures
            is_scale_for(self@, peak, r as int),
    {
        let n: usize = self.scale_table.len();
        let mut best: usize = 0;
        let mut i: usize = 1;
        while i < n
            invariant
                1 <= i <= n,
                n == self.scale_table@.len(),
                is_scale_for(self.scale_table@.take(i as int), peak, best as int),
            decreases n - i,
        {
            let ghost head = self.scale_table@.take(i as int);
            let ghost more = self.scale_table@.take(i + 1);
            let ghost was = best as int;
            let key: i32 = self.scale_table[i];
            let cur: i32 = self.scale_table[best];
            let holds: bool = cur >= peak;
            if (key >= peak && (!holds || key < cur)) || (!holds && key >= cur) {
                best = i;
            }
            proof {
                let r = best as int;
                if more[r] >= peak {
                    assert forall|a: int|
                        0 <= a <= i && more[a] >= peak implies #[trigger] scale_before(
                        more,
                        r,
                        a,
                    ) by {
                        if a < i {
                            assert(holds ==> scale_before(head, was, a));
                            assert(!holds ==> scale_before(head, a, was));
                        }
                    }
                } else {
                    assert forall|a: int| 0 <= a <= i implies more[a] < peak by {
                        assert(a < i ==> more[a] == head[a]);
                    }
                    assert forall|a: int| 0 <= a <= i implies #[trigger] scale_before(more, a, r) by {
                        assert(a < i ==> scale_before(head, a, was));
                    }
                }
            }
            i += 1;
        }
        assert(self.scale_table@.take(n as int) =~= self.scale_table@);
        best as u8
    }
}

/// No scale that holds the peak is smaller than the one chosen.
pub proof fn law_tightest_scale(table: Seq<i32>, peak: i32, r: int, i: int)
    requires
        is_scale_for(table, peak, r),
        0 <= i < table.len(),
        peak <= table[i],
    ensures
        peak <= table[r] <= table[i],
{
    if table[r] >= peak {
        assert(scale_before(table, r, i));
    } else {
        assert(scale_before(table, i, r));
    }
}

/// The number of steps from zero.
pub open spec fn magnitude(m: i32) -> int {
    if m < 0 {
        -m
    } else {
        m as int
    }
}

/// One step away from zero; zero itself goes to the side that `positive` tells.
pub fn step_away(m: i32, positive: bool) -> (r: i32)
    requires
        i32::MIN < m < i32::MAX,
    ensures
        magnitude(r) == magnitude(m) + 1,
        r > 0 <==> m > 0 || m == 0 && positive,
{
    if m > 0 {
        m + 1
    } else if m < 0 {
        m - 1
    } else if positive {
        1
    } else {
        -1
    }
}

/// One step towards zero, which stays where it is.
pub fn step_toward(m: i32) -> (r: i32)
    ensures
        magnitude(r) == (if m == 0 {
            0
        } else {
            magnitude(m) - 1
        }),
        r != 0 ==> (r > 0 <==> m > 0),
{
    if m > 0 {
        m - 1
    } else if m < 0 {
        m + 1
    } else {
        0
    }
}

} // verus!
