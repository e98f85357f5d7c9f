//! What a reader gets out of the bits of tonal components.

use vstd::prelude::*;
use vstd::arithmetic::power2::*;
use crate::at3::coding;
use crate::at3::tonal;
use crate::at3::tonal::TonalBlock;
use crate::bitstream::bits;

verus! {

/// Components take a selector four above the precision of their block, at most 7.
pub proof fn law_selector(precision: int)
    ensures
        precision <= 3 ==> tonal::tonal_quant(precision) == precision + 4,
        precision >= 3 ==> tonal::tonal_quant(precision) == 7,
{
}

/// A component is read back: its scale factor in six bits, its place among the 64 lines of
/// its block in six, and the code of its values at the selector.
pub proof fn law_component_reads_back(tc: TonalBlock, quant: int)
    ensures
        ({
            let b = tonal::component_bits(tc, quant);
            let code = coding::vlc_bits(quant, tc.mantissas@[quant - 2]@);
            &&& b.len() == 12 + code.len()
            &&& bits::number_at(b, 0, 6) == tc.scale_factor_index as nat % 64
            &&& bits::number_at(b, 6, 6) == tc.val.pos as int % 64
            &&& b.skip(12) == code
        }),
{
    lemma2_to64();
    let none = Seq::<bool>::empty();
    let a = bits::msb_bits(tc.scale_factor_index as nat, 6);
    let p = (tc.val.pos as int % 64) as nat;
    let c = bits::msb_bits(p, 6);
    let code = coding::vlc_bits(quant, tc.mantissas@[quant - 2]@);
    let b = tonal::component_bits(tc, quant);
    assert(b =~= none + a + (c + code));
    bits::lemma_number_between(none, tc.scale_factor_index as nat, 6, c + code);
    bits::lemma_number_between(a, p, 6, code);
    assert(b.skip(12) =~= code);
}

/// The bits of the components of block `sb` among the first `j` of a list.
pub open spec fn components_size(
    tcs: Seq<TonalBlock>,
    m: Seq<int>,
    sb: int,
    quant: int,
    j: nat,
) -> int
    decreases j,
{
    if j == 0 {
        0
    } else {
        components_size(tcs, m, sb, quant, (j - 1) as nat) + (if tcs[m[j - 1]].val.pos / 64 == sb {
            tonal::component_bits(tcs[m[j - 1]], quant).len() as int
        } else {
            0
        })
    }
}

/// How many of the first `j` components of a list lie in block `sb`.
pub open spec fn components_before(tcs: Seq<TonalBlock>, m: Seq<int>, sb: int, j: nat) -> nat
    decreases j,
{
    if j == 0 {
        0
    } else {
        components_before(tcs, m, sb, (j - 1) as nat) + (if tcs[m[j - 1]].val.pos / 64 == sb {
            1nat
        } else {
            0
        })
    }
}

proof fn lemma_components_prefix(
    tcs: Seq<TonalBlock>,
    m: Seq<int>,
    n: Seq<int>,
    sb: int,
    quant: int,
    j: nat,
)
    requires
        j <= n.len() <= m.len(),
        n == m.take(n.len() as int),
    ensures
        components_size(tcs, n, sb, quant, j) == components_size(tcs, m, sb, quant, j),
        components_before(tcs, n, sb, j) == components_before(tcs, m, sb, j),
    decreases j,
{
    if j > 0 {
        lemma_components_prefix(tcs, m, n, sb, quant, (j - 1) as nat);
        assert(n[j - 1] == m[j - 1]);
    }
}

/// The components of a block are written one after the other in their order, each as
/// itself; they are counted by as many as lie in the block.
pub proof fn law_block_components_read_back(
    tcs: Seq<TonalBlock>,
    m: Seq<int>,
    sb: int,
    quant: int,
    j: int,
)
    ensures
        ({
            let b = tonal::block_components_bits(tcs, m, sb, quant);
            let at = components_size(tcs, m, sb, quant, j as nat);
            let c = tonal::component_bits(tcs[m[j]], quant);
            &&& b.len() == components_size(tcs, m, sb, quant, m.len())
            &&& tonal::count_in_block(tcs, m, sb) == components_before(tcs, m, sb, m.len())
            &&& 0 <= j < m.len() && tcs[m[j]].val.pos / 64 == sb ==> {
                &&& 0 <= at
                &&& at + c.len() <= b.len()
                &&& b.subrange(at, at + c.len()) == c
            }
        }),
    decreases m.len(),
{
    if m.len() > 0 {
        let d = m.drop_last();
        law_block_components_read_back(tcs, d, sb, quant, j);
        lemma_components_prefix(tcs, m, d, sb, quant, d.len());
        let rb = tonal::block_components_bits(tcs, d, sb, quant);
        let b = tonal::block_components_bits(tcs, m, sb, quant);
        if 0 <= j < d.len() {
            lemma_components_prefix(tcs, m, d, sb, quant, j as nat);
            assert(d[j] == m[j]);
            if tcs[m[j]].val.pos / 64 == sb {
                let at = components_size(tcs, m, sb, quant, j as nat);
                let c = tonal::component_bits(tcs[m[j]], quant);
                assert(b.subrange(at, at + c.len()) =~= rb.subrange(at, at + c.len()));
            }
        } else if j == d.len() && tcs[m[j]].val.pos / 64 == sb {
            let at = rb.len() as int;
            let c = tonal::component_bits(tcs[m[j]], quant);
            assert(b.subrange(at, at + c.len()) =~= c);
        }
    }
}

/// A listed component lies among the 256 lines of band `band`.
pub open spec fn band_has(tcs: Seq<TonalBlock>, m: Seq<int>, band: int) -> bool {
    exists|i: int| 0 <= i < m.len() && (#[trigger] tcs[m[i]]).val.pos / 256 == band
}

proof fn lemma_band_has(tcs: Seq<TonalBlock>, m: Seq<int>, band: int)
    ensures
        tonal::band_active(tcs, m, band) == band_has(tcs, m, band),
{
    if tonal::band_active(tcs, m, band) {
        let i = choose|i: int|
            0 <= i < m.len() && (#[trigger] tcs[m[i]]).spec_block() / 4 == band;
        assert(tcs[m[i]].val.pos / 256 == band);
    }
    if band_has(tcs, m, band) {
        let i = choose|i: int| 0 <= i < m.len() && (#[trigger] tcs[m[i]]).val.pos / 256 == band;
        assert(tcs[m[i]].spec_block() / 4 == band);
    }
}

/// The bits of the blocks below `n`: three and those of the components for each block of a
/// band that has any.
pub open spec fn blocks_size(tcs: Seq<TonalBlock>, m: Seq<int>, quant: int, n: nat) -> int
    decreases n,
{
    if n == 0 {
        0
    } else {
        blocks_size(tcs, m, quant, (n - 1) as nat) + (if band_has(tcs, m, (n - 1) / 4) {
            3 + components_size(tcs, m, n - 1, quant, m.len())
        } else {
            0
        })
    }
}

/// Blocks are read in ascending order: those of a band without components are left out;
/// of the others come the number of components in three bits and the components.
pub proof fn law_blocks_read_back(tcs: Seq<TonalBlock>, m: Seq<int>, quant: int, n: nat, sb: int)
    ensures
        ({
            let b = tonal::spec_blocks_bits(tcs, m, quant, n);
            let at = blocks_size(tcs, m, quant, sb as nat);
            let all = tonal::block_components_bits(tcs, m, sb, quant);
            &&& b.len() == blocks_size(tcs, m, quant, n)
            &&& 0 <= sb < n && band_has(tcs, m, sb / 4) ==> {
                &&& 0 <= at
                &&& at + 3 + all.len() <= b.len()
                &&& bits::number_at(b, at, 3) == components_before(tcs, m, sb, m.len()) % 8
                &&& b.subrange(at + 3, at + 3 + all.len()) == all
            }
        }),
    decreases n,
{
    if n > 0 {
        lemma2_to64();
        law_blocks_read_back(tcs, m, quant, (n - 1) as nat, sb);
        lemma_band_has(tcs, m, (n - 1) / 4);
        law_block_components_read_back(tcs, m, n - 1, quant, 0);
        let rb = tonal::spec_blocks_bits(tcs, m, quant, (n - 1) as nat);
        let b = tonal::spec_blocks_bits(tcs, m, quant, n);
        if 0 <= sb < n - 1 && band_has(tcs, m, sb / 4) {
            let at = blocks_size(tcs, m, quant, sb as nat);
            let all = tonal::block_components_bits(tcs, m, sb, quant);
            if band_has(tcs, m, (n - 1) / 4) {
                let here = b.skip(rb.len() as int);
                assert(b =~= rb + here);
                bits::lemma_number_before(rb, here, at, 3);
                assert(b.subrange(at + 3, at + 3 + all.len()) =~= rb.subrange(
                    at + 3,
                    at + 3 + all.len(),
                ));
            }
        } else if sb == n - 1 && band_has(tcs, m, sb / 4) {
            let count = tonal::count_in_block(tcs, m, sb);
            let all = tonal::block_components_bits(tcs, m, sb, quant);
            let at = rb.len() as int;
            assert(b =~= rb + bits::msb_bits(count, 3) + all);
            bits::lemma_number_between(rb, count, 3, all);
            assert(b.subrange(at + 3, at + 3 + all.len()) =~= all);
        }
    }
}

proof fn lemma_flags(tcs: Seq<TonalBlock>, m: Seq<int>, n: nat, i: int)
    ensures
        tonal::band_flags_bits(tcs, m, n).len() == n,
        0 <= i < n ==> tonal::band_flags_bits(tcs, m, n)[i] == band_has(tcs, m, i),
    decreases n,
{
    if n > 0 {
        lemma_flags(tcs, m, (n - 1) as nat, i);
        lemma_band_has(tcs, m, n - 1);
    }
}

/// A subgroup opens with one bit for each of four bands, set where the band has components,
/// the number of values less one in three bits and the selector in three; its blocks follow.
pub proof fn law_subgroup_reads_back(tcs: Seq<TonalBlock>, m: Seq<int>, g: int, band: int)
    requires
        0 <= g < 64,
        g % 8 >= 1,
    ensures
        ({
            let b = tonal::subgroup_bits(tcs, m, g);
            &&& 0 <= band < 4 ==> b[band] == band_has(tcs, m, band)
            &&& bits::number_at(b, 4, 3) == g % 8 - 1
            &&& bits::number_at(b, 7, 3) == g / 8
            &&& b.skip(10) == tonal::spec_blocks_bits(tcs, m, g / 8, 16)
        }),
{
    lemma2_to64();
    lemma_flags(tcs, m, 4, band);
    let f = tonal::band_flags_bits(tcs, m, 4);
    let v = bits::msb_bits((g % 8 - 1) as nat, 3);
    let q = bits::msb_bits((g / 8) as nat, 3);
    let r = tonal::spec_blocks_bits(tcs, m, g / 8, 16);
    let b = tonal::subgroup_bits(tcs, m, g);
    assert(b =~= f + v + (q + r));
    bits::lemma_number_between(f, (g % 8 - 1) as nat, 3, q + r);
    bits::lemma_number_between(f + v, (g / 8) as nat, 3, r);
    assert(b.skip(10) =~= r);
}

/// Subgroup `k` of a group is written behind the ones before it, with the components from
/// its own start up to the start of the next.
pub proof fn law_subgroups_in_order(
    tcs: Seq<TonalBlock>,
    m: Seq<int>,
    starts: Seq<int>,
    g: int,
    n: nat,
    k: int,
)
    requires
        0 <= k < n <= starts.len(),
    ensures
        ({
            let b = tonal::subgroups_bits(tcs, m, starts, g, n);
            let at = tonal::subgroups_bits(tcs, m, starts, g, k as nat).len() as int;
            let end = if k + 1 < starts.len() {
                starts[k + 1]
            } else {
                m.len() as int
            };
            let own = tonal::subgroup_bits(tcs, m.subrange(starts[k], end), g);
            &&& at + own.len() <= b.len()
            &&& b.subrange(at, at + own.len()) == own
        }),
    decreases n,
{
    let b = tonal::subgroups_bits(tcs, m, starts, g, n);
    let rb = tonal::subgroups_bits(tcs, m, starts, g, (n - 1) as nat);
    let at = tonal::subgroups_bits(tcs, m, starts, g, k as nat).len() as int;
    let end = if k + 1 < starts.len() {
        starts[k + 1]
    } else {
        m.len() as int
    };
    let own = tonal::subgroup_bits(tcs, m.subrange(starts[k], end), g);
    if k < n - 1 {
        law_subgroups_in_order(tcs, m, starts, g, (n - 1) as nat, k);
        assert(b.subrange(at, at + own.len()) =~= rb.subrange(at, at + own.len()));
    } else {
        assert(b.subrange(at, at + own.len()) =~= own);
    }
}

/// The bits of group `g`: all its subgroups.
pub open spec fn group_bits(tcs: Seq<TonalBlock>, alloc: Seq<u32>, g: int) -> Seq<bool> {
    let m = tonal::members(tcs, alloc, g, tcs.len());
    let starts = tonal::subgroup_starts(tonal::blocks_of(tcs, m), 0);
    tonal::subgroups_bits(tcs, m, starts, g, starts.len())
}

/// Groups are written in ascending order of their numbers.
pub proof fn law_groups_in_order(tcs: Seq<TonalBlock>, alloc: Seq<u32>, n: nat, g: int)
    requires
        0 <= g < n,
    ensures
        ({
            let b = tonal::groups_bits(tcs, alloc, n);
            let at = tonal::groups_bits(tcs, alloc, g as nat).len() as int;
            let own = group_bits(tcs, alloc, g);
            &&& at + own.len() <= b.len()
            &&& b.subrange(at, at + own.len()) == own
        }),
    decreases n,
{
    let b = tonal::groups_bits(tcs, alloc, n);
    let rb = tonal::groups_bits(tcs, alloc, (n - 1) as nat);
    let at = tonal::groups_bits(tcs, alloc, g as nat).len() as int;
    let own = group_bits(tcs, alloc, g);
    if g < n - 1 {
        law_groups_in_order(tcs, alloc, (n - 1) as nat, g);
        assert(b.subrange(at, at + own.len()) =~= rb.subrange(at, at + own.len()));
    } else {
        assert(b.subrange(at, at + own.len()) =~= own);
    }
}

/// Tonal components open with the number of subgroups of all groups in five bits; where
/// there are any, two unset bits and the groups follow.
pub proof fn law_tonal_opening_reads_back(tcs: Seq<TonalBlock>, alloc: Seq<u32>)
    ensures
        ({
            let b = tonal::tonal_bits(tcs, alloc);
            let n = tonal::num_subgroups(tcs, alloc, 64);
            &&& bits::number_at(b, 0, 5) == n % 32
            &&& n == 0 ==> b.len() == 5
            &&& n > 0 ==> bits::number_at(b, 5, 2) == 0 && b.skip(7) == tonal::groups_bits(
                tcs,
                alloc,
                64,
            )
        }),
{
    lemma2_to64();
    let b = tonal::tonal_bits(tcs, alloc);
    let n = tonal::num_subgroups(tcs, alloc, 64);
    let none = Seq::<bool>::empty();
    let r = tonal::groups_bits(tcs, alloc, 64);
    if n == 0 {
        assert(b =~= none + bits::msb_bits(0, 5) + none);
        bits::lemma_number_between(none, 0, 5, none);
    } else {
        let c = bits::msb_bits(n, 5);
        let z = bits::msb_bits(0, 2);
        assert(b =~= none + c + (z + r));
        bits::lemma_number_between(none, n, 5, z + r);
        bits::lemma_number_between(c, 0, 2, r);
        assert(b.skip(7) =~= r);
    }
}

/// The first subgroup starts with the first component; each further one starts where seven
/// components in a row before it, in its own subgroup, lie in the block of the next, and
/// nowhere earlier.
pub proof fn law_subgroups_are_long(blocks: Seq<int>, from: int, k: int, t: int)
    requires
        0 <= from <= blocks.len(),
        0 <= k,
        k + 1 < tonal::subgroup_starts(blocks, from).len(),
    ensures
        ({
            let starts = tonal::subgroup_starts(blocks, from);
            let next = starts[k + 1];
            &&& starts[0] == from
            &&& starts[k] + 7 <= next < blocks.len()
            &&& blocks[next - 7] == blocks[next]
            &&& starts[k] + 7 <= t < next ==> blocks[t - 7] != blocks[t]
        }),
    decreases blocks.len() - from,
{
    let end = tonal::subgroup_end(blocks, from, from + 1);
    tonal::lemma_subgroup_end(blocks, from, from + 1);
    let starts = tonal::subgroup_starts(blocks, from);
    let rest = tonal::subgroup_starts(blocks, end);
    assert(starts == seq![from] + rest);
    if k > 0 {
        assert(end < blocks.len());
        law_subgroups_are_long(blocks, end, k - 1, t);
        assert(starts[k] == rest[k - 1] && starts[k + 1] == rest[k]);
    } else {
        assert(end < blocks.len());
        assert(rest[0] == end);
        lemma_end(blocks, from, from + 1, t);
    }
}

proof fn lemma_end(blocks: Seq<int>, from: int, j: int, t: int)
    requires
        from < j <= blocks.len(),
        tonal::subgroup_end(blocks, from, j) < blocks.len(),
    ensures
        ({
            let end = tonal::subgroup_end(blocks, from, j);
            &&& j <= end
            &&& end - 7 >= from
            &&& blocks[end - 7] == blocks[end]
            &&& j <= t < end && from + 7 <= t ==> blocks[t - 7] != blocks[t]
        }),
    decreases blocks.len() - j,
{
    if j < blocks.len() && !(j - 7 >= from && blocks[j - 7] == blocks[j]) {
        lemma_end(blocks, from, j + 1, t);
    }
}

} // verus!
