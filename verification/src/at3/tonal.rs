//! Tonal components: grouping and coding.

use vstd::prelude::*;
use crate::at3::coding;
use crate::at3::coding::vlc_encode;
use crate::at3::data::TonalVal;
use crate::bitstream::bits;
use crate::bitstream::BitStream;

verus! {

/// A run of adjacent lines that is coded on its own. `mantissas` holds its values
/// quantised at each of the selectors 2 to 7.
#[derive(Debug, Clone, PartialEq)]
pub struct TonalBlock {
    pub val: TonalVal,
    pub scale_factor_index: u8,
    pub mantissas: Vec<Vec<i32>>,
}

impl TonalBlock {
    pub open spec fn wf(&self) -> bool {
        &&& self.val.pos < 1024
        &&& self.scale_factor_index < 64
        &&& self.mantissas@.len() == 6
        &&& 1 <= self.mantissas@[0]@.len() <= 7
        &&& forall|i: int|
            0 <= i < 6 ==> (#[trigger] self.mantissas@[i])@.len() == self.mantissas@[0]@.len()
                && coding::codable(i + 2, self.mantissas@[i]@)
    }

    /// The number of coded values.
    pub open spec fn num_values(&self) -> int {
        self.mantissas@[0]@.len() as int
    }

    /// Which of the sixteen 64 line wide blocks the component starts in.
    pub open spec fn spec_block(&self) -> int {
        self.val.pos as int / 64
    }
}

/// The selector that a component is coded with, from the precision of its block.
pub open spec fn tonal_quant(precision: int) -> int {
    if precision + 4 < 7 {
        precision + 4
    } else {
        7
    }
}

/// Component `tc` is coded, and in group number `g`: groups are numbered by
/// eight times the selector plus the number of values.
pub open spec fn in_group(tc: TonalBlock, alloc: Seq<u32>, g: int) -> bool {
    (tc.val.bfu as int) < alloc.len() && tonal_quant(alloc[tc.val.bfu as int] as int) * 8
        + tc.num_values() == g
}

/// The positions of the members of group `g` among the first `n` components.
pub open spec fn members(tcs: Seq<TonalBlock>, alloc: Seq<u32>, g: int, n: nat) -> Seq<int>
    decreases n,
{
    if n == 0 {
        Seq::empty()
    } else {
        let before = members(tcs, alloc, g, (n - 1) as nat);
        if in_group(tcs[n - 1], alloc, g) {
            before.push(n - 1)
        } else {
            before
        }
    }
}

/// The 64 line blocks of the listed components.
pub open spec fn blocks_of(tcs: Seq<TonalBlock>, m: Seq<int>) -> Seq<int> {
    Seq::new(m.len(), |i: int| tcs[m[i]].spec_block())
}

/// The first place from `j` on where a subgroup that starts at `from` must end:
/// the end of the list, or the eighth component in a row of one block.
pub open spec fn subgroup_end(blocks: Seq<int>, from: int, j: int) -> int
    decreases blocks.len() - j,
{
    if j >= blocks.len() {
        blocks.len() as int
    } else if j - 7 >= from && blocks[j - 7] == blocks[j] {
        j
    } else {
        subgroup_end(blocks, from, j + 1)
    }
}

pub proof fn lemma_subgroup_end(blocks: Seq<int>, from: int, j: int)
    requires
        from < j,
        j <= blocks.len(),
    ensures
        j <= subgroup_end(blocks, from, j) <= blocks.len(),
    decreases blocks.len() - j,
{
    if j < blocks.len() && !(j - 7 >= from && blocks[j - 7] == blocks[j]) {
        lemma_subgroup_end(blocks, from, j + 1);
    }
}

/// Where the subgroups of a group start.
pub open spec fn subgroup_starts(blocks: Seq<int>, from: int) -> Seq<int>
    decreases blocks.len() - from,
{
    if from >= blocks.len() {
        Seq::empty()
    } else {
        proof {
            lemma_subgroup_end(blocks, from, from + 1);
        }
        seq![from] + subgroup_starts(blocks, subgroup_end(blocks, from, from + 1))
    }
}

/// How many of the listed components lie in 64 line block `sb`.
pub open spec fn count_in_block(tcs: Seq<TonalBlock>, m: Seq<int>, sb: int) -> nat
    decreases m.len(),
{
    if m.len() == 0 {
        0
    } else {
        count_in_block(tcs, m.drop_last(), sb) + (if tcs[m.last()].spec_block() == sb {
            1nat
        } else {
            0nat
        })
    }
}

/// Some listed component lies in band `qmf`.
pub open spec fn band_active(tcs: Seq<TonalBlock>, m: Seq<int>, qmf: int) -> bool {
    exists|i: int| 0 <= i < m.len() && (#[trigger] tcs[m[i]]).spec_block() / 4 == qmf
}

/// Scale factor, place in its block and mantissas of one component.
pub open spec fn component_bits(tc: TonalBlock, quant: int) -> Seq<bool> {
    bits::msb_bits(tc.scale_factor_index as nat, 6) + bits::msb_bits(
        (tc.val.pos as int % 64) as nat,
        6,
    ) + coding::vlc_bits(quant, tc.mantissas@[quant - 2]@)
}

/// The listed components that lie in 64 line block `sb`, in their order.
pub open spec fn block_components_bits(
    tcs: Seq<TonalBlock>,
    m: Seq<int>,
    sb: int,
    quant: int,
) -> Seq<bool>
    decreases m.len(),
{
    if m.len() == 0 {
        Seq::empty()
    } else {
        block_components_bits(tcs, m.drop_last(), sb, quant) + (if tcs[m.last()].spec_block()
            == sb {
            component_bits(tcs[m.last()], quant)
        } else {
            Seq::empty()
        })
    }
}

/// The 64 line blocks below `n` that lie in active bands: the number of
/// components of each, and the components.
pub open spec fn spec_blocks_bits(
    tcs: Seq<TonalBlock>,
    m: Seq<int>,
    quant: int,
    n: nat,
) -> Seq<bool>
    decreases n,
{
    if n == 0 {
        Seq::empty()
    } else {
        let before = spec_blocks_bits(tcs, m, quant, (n - 1) as nat);
        if band_active(tcs, m, (n - 1) / 4) {
            before + (bits::msb_bits(count_in_block(tcs, m, n - 1), 3) + block_components_bits(
                tcs,
                m,
                n - 1,
                quant,
            ))
        } else {
            before
        }
    }
}

/// One flag for each of the first `n` bands: whether it has components.
pub open spec fn band_flags_bits(tcs: Seq<TonalBlock>, m: Seq<int>, n: nat) -> Seq<bool>
    decreases n,
{
    if n == 0 {
        Seq::empty()
    } else {
        band_flags_bits(tcs, m, (n - 1) as nat).push(band_active(tcs, m, n - 1))
    }
}

/// A subgroup: the components `m` of group `g`.
pub open spec fn subgroup_bits(tcs: Seq<TonalBlock>, m: Seq<int>, g: int) -> Seq<bool> {
    band_flags_bits(tcs, m, 4) + bits::msb_bits((g % 8 - 1) as nat, 3) + bits::msb_bits(
        (g / 8) as nat,
        3,
    ) + spec_blocks_bits(tcs, m, g / 8, 16)
}

/// The first `n` subgroups of group `g`, whose members are `m`.
pub open spec fn subgroups_bits(
    tcs: Seq<TonalBlock>,
    m: Seq<int>,
    starts: Seq<int>,
    g: int,
    n: nat,
) -> Seq<bool>
    decreases n,
{
    if n == 0 {
        Seq::empty()
    } else {
        let end = if n < starts.len() {
            starts[n as int]
        } else {
            m.len() as int
        };
        subgroups_bits(tcs, m, starts, g, (n - 1) as nat) + subgroup_bits(
            tcs,
            m.subrange(starts[n - 1], end),
            g,
        )
    }
}

/// Where the subgroups of group `g` start in the list of its members.
pub open spec fn group_starts(tcs: Seq<TonalBlock>, alloc: Seq<u32>, g: int) -> Seq<int> {
    subgroup_starts(blocks_of(tcs, members(tcs, alloc, g, tcs.len())), 0)
}

/// The groups below `n`, in order.
pub open spec fn groups_bits(tcs: Seq<TonalBlock>, alloc: Seq<u32>, n: nat) -> Seq<bool>
    decreases n,
{
    if n == 0 {
        Seq::empty()
    } else {
        let starts = group_starts(tcs, alloc, n - 1);
        groups_bits(tcs, alloc, (n - 1) as nat) + subgroups_bits(
            tcs,
            members(tcs, alloc, n - 1, tcs.len()),
            starts,
            n - 1,
            starts.len(),
        )
    }
}

/// The number of subgroups in the groups below `n`.
pub open spec fn num_subgroups(tcs: Seq<TonalBlock>, alloc: Seq<u32>, n: nat) -> nat
    decreases n,
{
    if n == 0 {
        0
    } else {
        num_subgroups(tcs, alloc, (n - 1) as nat) + group_starts(tcs, alloc, n - 1).len()
    }
}

/// Everything that is written for the tonal components: the number of
/// subgroups and, where there are any, the coding mode and the groups.
pub open spec fn tonal_bits(tcs: Seq<TonalBlock>, alloc: Seq<u32>) -> Seq<bool> {
    let n = num_subgroups(tcs, alloc, 64);
    if n == 0 {
        bits::msb_bits(0, 5)
    } else {
        bits::msb_bits(n, 5) + bits::msb_bits(0, 2) + groups_bits(tcs, alloc, 64)
    }
}

/// The components are valid, their blocks never step back within a group, and
/// the number of subgroups fits its field.
pub open spec fn tonal_codable(tcs: Seq<TonalBlock>, alloc: Seq<u32>) -> bool {
    &&& forall|i: int| 0 <= i < tcs.len() ==> (#[trigger] tcs[i]).wf()
    &&& forall|i: int| 0 <= i < alloc.len() ==> #[trigger] alloc[i] <= u32::MAX - 4
    &&& forall|i: int, j: int, g: int|
        0 <= i < j < tcs.len() && #[trigger] in_group(tcs[i], alloc, g) && #[trigger] in_group(
            tcs[j],
            alloc,
            g,
        ) ==> tcs[i].spec_block() <= tcs[j].spec_block()
    &&& num_subgroups(tcs, alloc, 64) < 32
    &&& tonal_bits(tcs, alloc).len() <= u16::MAX
}

pub open spec fn as_ints(s: Seq<usize>) -> Seq<int> {
    s.map(|i: int, x: usize| x as int)
}

/// One group of components: their positions, and where its subgroups start.
#[derive(Debug, Clone)]
pub struct TonalComponentsSubGroup {
    pub subgroup_starts: Vec<usize>,
    pub ptrs: Vec<usize>,
}

proof fn lemma_members_bounds(tcs: Seq<TonalBlock>, alloc: Seq<u32>, g: int, n: nat)
    requires
        n <= tcs.len(),
    ensures
        members(tcs, alloc, g, n).len() <= n,
        forall|i: int|
            0 <= i < members(tcs, alloc, g, n).len() ==> 0 <= #[trigger] members(
                tcs,
                alloc,
                g,
                n,
            )[i] < n && in_group(tcs[members(tcs, alloc, g, n)[i]], alloc, g),
        forall|i: int, j: int|
            0 <= i < j < members(tcs, alloc, g, n).len() ==> #[trigger] members(
                tcs,
                alloc,
                g,
                n,
            )[i] < #[trigger] members(tcs, alloc, g, n)[j],
    decreases n,
{
    if n > 0 {
        lemma_members_bounds(tcs, alloc, g, (n - 1) as nat);
    }
}

proof fn lemma_starts_step(blocks: Seq<int>, from: int)
    requires
        0 <= from < blocks.len(),
    ensures
        from < subgroup_end(blocks, from, from + 1) <= blocks.len(),
        subgroup_starts(blocks, from) == seq![from] + subgroup_starts(
            blocks,
            subgroup_end(blocks, from, from + 1),
        ),
{
    lemma_subgroup_end(blocks, from, from + 1);
}

/// Cuts the members of a group into subgroups that hold at most seven
/// components of any one 64 line block.
fn find_subgroup_starts(tcs: &[TonalBlock], ptrs: &Vec<usize>) -> (starts: Vec<usize>)
    requires
        forall|i: int| 0 <= i < ptrs@.len() ==> #[trigger] ptrs@[i] < tcs@.len(),
    ensures
        as_ints(starts@) == subgroup_starts(blocks_of(tcs@, as_ints(ptrs@)), 0),
{
    let ghost blocks = blocks_of(tcs@, as_ints(ptrs@));
    let mut starts: Vec<usize> = Vec::new();
    let mut from: usize = 0;
    let n: usize = ptrs.len();
    assert(as_ints(starts@) + subgroup_starts(blocks, 0) =~= subgroup_starts(blocks, 0));
    while from < n
        invariant
            from <= n,
            n == ptrs@.len(),
            blocks == blocks_of(tcs@, as_ints(ptrs@)),
            forall|i: int| 0 <= i < ptrs@.len() ==> #[trigger] ptrs@[i] < tcs@.len(),
            as_ints(starts@) + subgroup_starts(blocks, from as int) == subgroup_starts(blocks, 0),
        decreases n - from,
    {
        let ghost old_starts = as_ints(starts@);
        starts.push(from);
        let mut j: usize = from + 1;
        while j < n && !(j - from >= 7 && tcs[ptrs[j - 7]].val.pos / 64 == tcs[ptrs[j]].val.pos
            / 64)
            invariant
                from < j <= n,
                n == ptrs@.len(),
                blocks == blocks_of(tcs@, as_ints(ptrs@)),
                forall|i: int| 0 <= i < ptrs@.len() ==> #[trigger] ptrs@[i] < tcs@.len(),
                subgroup_end(blocks, from as int, from + 1) == subgroup_end(
                    blocks,
                    from as int,
                    j as int,
                ),
            decreases n - j,
        {
            j += 1;
        }
        proof {
            lemma_starts_step(blocks, from as int);
            assert(subgroup_end(blocks, from as int, from + 1) == j);
            assert(as_ints(starts@) =~= old_starts.push(from as int));
            assert(as_ints(starts@) + subgroup_starts(blocks, j as int) =~= old_starts
                + subgroup_starts(blocks, from as int));
        }
        from = j;
    }
    assert(as_ints(starts@) + subgroup_starts(blocks, from as int) =~= as_ints(starts@));
    starts
}

/// Sorts the components into groups of one selector and one number of values.
pub fn group_tonal_components(tonal_components: &[TonalBlock], alloc_table: &[u32]) -> (groups: Vec<
    TonalComponentsSubGroup,
>)
    requires
        forall|i: int| 0 <= i < tonal_components@.len() ==> (#[trigger] tonal_components@[i]).wf(),
        forall|i: int| 0 <= i < alloc_table@.len() ==> #[trigger] alloc_table@[i] <= u32::MAX - 4,
    ensures
        groups@.len() == 64,
        forall|g: int|
            0 <= g < 64 ==> as_ints((#[trigger] groups@[g]).ptrs@) == members(
                tonal_components@,
                alloc_table@,
                g,
                tonal_components@.len(),
            ) && as_ints(groups@[g].subgroup_starts@) == group_starts(
                tonal_components@,
                alloc_table@,
                g,
            ),
{
    let ghost tcs = tonal_components@;
    let ghost alloc = alloc_table@;
    let mut groups: Vec<TonalComponentsSubGroup> = Vec::new();
    let mut k: usize = 0;
    while k < 64
        invariant
            k <= 64,
            groups@.len() == k,
            forall|g: int| 0 <= g < k ==> (#[trigger] groups@[g]).ptrs@ == Seq::<usize>::empty(),
        decreases 64 - k,
    {
        groups.push(TonalComponentsSubGroup { subgroup_starts: Vec::new(), ptrs: Vec::new() });
        k += 1;
    }
    let mut i: usize = 0;
    assert forall|g: int| 0 <= g < 64 implies as_ints((#[trigger] groups@[g]).ptrs@) == members(
        tcs,
        alloc,
        g,
        0,
    ) by {
        assert(as_ints(groups@[g].ptrs@) =~= Seq::<int>::empty());
    }
    while i < tonal_components.len()
        invariant
            i <= tcs.len(),
            tcs == tonal_components@,
            alloc == alloc_table@,
            groups@.len() == 64,
            forall|j: int| 0 <= j < tcs.len() ==> (#[trigger] tcs[j]).wf(),
            forall|j: int| 0 <= j < alloc.len() ==> #[trigger] alloc[j] <= u32::MAX - 4,
            forall|g: int|
                0 <= g < 64 ==> as_ints((#[trigger] groups@[g]).ptrs@) == members(
                    tcs,
                    alloc,
                    g,
                    i as nat,
                ),
        decreases tcs.len() - i,
    {
        let tc: &TonalBlock = &tonal_components[i];
        let bfu: usize = tc.val.bfu as usize;
        let ghost before = groups@;
        if bfu < alloc_table.len() {
            let raised: u32 = alloc_table[bfu] + 4;
            let quant: usize = if raised < 7 {
                raised as usize
            } else {
                7
            };
            let g: usize = quant * 8 + tc.mantissas[0].len();
            groups[g].ptrs.push(i);
            assert(as_ints(groups@[g as int].ptrs@) =~= as_ints(before[g as int].ptrs@).push(
                i as int,
            ));
        }
        assert forall|g: int| 0 <= g < 64 implies as_ints((#[trigger] groups@[g]).ptrs@)
            == members(tcs, alloc, g, (i + 1) as nat) by {
            assert(as_ints(before[g].ptrs@) == members(tcs, alloc, g, i as nat));
        }
        i += 1;
    }
    let mut g: usize = 0;
    while g < 64
        invariant
            g <= 64,
            tcs == tonal_components@,
            alloc == alloc_table@,
            groups@.len() == 64,
            forall|h: int|
                0 <= h < 64 ==> as_ints((#[trigger] groups@[h]).ptrs@) == members(
                    tcs,
                    alloc,
                    h,
                    tcs.len(),
                ),
            forall|h: int|
                0 <= h < g ==> as_ints((#[trigger] groups@[h]).subgroup_starts@) == group_starts(
                    tcs,
                    alloc,
                    h,
                ),
        decreases 64 - g,
    {
        proof {
            lemma_members_bounds(tcs, alloc, g as int, tcs.len());
            assert forall|j: int| 0 <= j < groups@[g as int].ptrs@.len() implies #[trigger] groups@[
            g as int].ptrs@[j] < tcs.len() by {
                assert(as_ints(groups@[g as int].ptrs@)[j] == groups@[g as int].ptrs@[j]);
            }
        }
        let starts: Vec<usize> = find_subgroup_starts(tonal_components, &groups[g].ptrs);
        groups[g].subgroup_starts = starts;
        g += 1;
    }
    groups
}

proof fn lemma_block_components_prefix(
    tcs: Seq<TonalBlock>,
    m: Seq<int>,
    sb: int,
    quant: int,
    k: int,
)
    requires
        0 <= k <= m.len(),
    ensures
        block_components_bits(tcs, m.take(k), sb, quant).len() <= block_components_bits(
            tcs,
            m,
            sb,
            quant,
        ).len(),
    decreases m.len() - k,
{
    if k == m.len() {
        assert(m.take(k) =~= m);
    } else {
        lemma_block_components_prefix(tcs, m, sb, quant, k + 1);
        assert(m.take(k + 1).drop_last() =~= m.take(k));
    }
}

proof fn lemma_spec_blocks_prefix(tcs: Seq<TonalBlock>, m: Seq<int>, quant: int, k: nat, n: nat)
    requires
        k <= n,
    ensures
        spec_blocks_bits(tcs, m, quant, k).len() <= spec_blocks_bits(tcs, m, quant, n).len(),
    decreases n,
{
    if k < n {
        lemma_spec_blocks_prefix(tcs, m, quant, k, (n - 1) as nat);
    }
}

proof fn lemma_subgroups_prefix(
    tcs: Seq<TonalBlock>,
    m: Seq<int>,
    starts: Seq<int>,
    g: int,
    k: nat,
    n: nat,
)
    requires
        k <= n,
    ensures
        subgroups_bits(tcs, m, starts, g, k).len() <= subgroups_bits(tcs, m, starts, g, n).len(),
    decreases n,
{
    if k < n {
        lemma_subgroups_prefix(tcs, m, starts, g, k, (n - 1) as nat);
    }
}

proof fn lemma_groups_prefix(tcs: Seq<TonalBlock>, alloc: Seq<u32>, k: nat, n: nat)
    requires
        k <= n,
    ensures
        groups_bits(tcs, alloc, k).len() <= groups_bits(tcs, alloc, n).len(),
        num_subgroups(tcs, alloc, k) <= num_subgroups(tcs, alloc, n),
    decreases n,
{
    if k < n {
        lemma_groups_prefix(tcs, alloc, k, (n - 1) as nat);
    }
}

/// Writes one component.
fn write_component(tc: &TonalBlock, quant: usize, bs: &mut BitStream)
    requires
        tc.wf(),
        2 <= quant <= 7,
        old(bs).wf(),
        old(bs).bits().len() + component_bits(*tc, quant as int).len() + 7 <= usize::MAX,
        component_bits(*tc, quant as int).len() <= u32::MAX,
    ensures
        final(bs).wf(),
        final(bs).read_pos() == old(bs).read_pos(),
        final(bs).bits() == old(bs).bits() + component_bits(*tc, quant as int),
{
    let ghost q = quant as int;
    let m: &[i32] = tc.mantissas[quant - 2].as_slice();
    assert(m@ == tc.mantissas@[q - 2]@);
    assert(coding::codable((q - 2) + 2, m@));
    assert(coding::coded_part(q, m@, m@.len() as int) =~= m@);
    bs.write(tc.scale_factor_index as u32, 6);
    bs.write((tc.val.pos % 64) as u32, 6);
    let len: u32 = m.len() as u32;
    vlc_encode(quant as u32, m, len, Some(bs));
    assert(bs.bits() =~= old(bs).bits() + component_bits(*tc, q));
}

/// Writes the components of one 64 line block, with their number.
fn write_block_components(
    tcs: &[TonalBlock],
    ptrs: &[usize],
    sb: usize,
    quant: usize,
    bs: &mut BitStream,
)
    requires
        forall|i: int| 0 <= i < tcs@.len() ==> (#[trigger] tcs@[i]).wf(),
        forall|i: int| 0 <= i < ptrs@.len() ==> #[trigger] ptrs@[i] < tcs@.len(),
        2 <= quant <= 7,
        count_in_block(tcs@, as_ints(ptrs@), sb as int) <= u32::MAX,
        old(bs).wf(),
        block_components_bits(tcs@, as_ints(ptrs@), sb as int, quant as int).len() <= u32::MAX,
        old(bs).bits().len() + 3 + block_components_bits(
            tcs@,
            as_ints(ptrs@),
            sb as int,
            quant as int,
        ).len() + 7 <= usize::MAX,
    ensures
        final(bs).wf(),
        final(bs).read_pos() == old(bs).read_pos(),
        final(bs).bits() == old(bs).bits() + (bits::msb_bits(
            count_in_block(tcs@, as_ints(ptrs@), sb as int),
            3,
        ) + block_components_bits(tcs@, as_ints(ptrs@), sb as int, quant as int)),
{
    let ghost m = as_ints(ptrs@);
    let mut count: u32 = 0;
    let mut i: usize = 0;
    assert(m.take(0) =~= Seq::<int>::empty());
    while i < ptrs.len()
        invariant
            i <= ptrs@.len(),
            m == as_ints(ptrs@),
            forall|j: int| 0 <= j < ptrs@.len() ==> #[trigger] ptrs@[j] < tcs@.len(),
            count == count_in_block(tcs@, m.take(i as int), sb as int),
            count_in_block(tcs@, m, sb as int) <= u32::MAX,
        decreases ptrs@.len() - i,
    {
        proof {
            assert(m.take(i + 1).drop_last() =~= m.take(i as int));
            lemma_count_prefix(tcs@, m, sb as int, i + 1);
        }
        if (tcs[ptrs[i]].val.pos / 64) as usize == sb {
            count += 1;
        }
        i += 1;
    }
    assert(m.take(ptrs@.len() as int) =~= m);
    bs.write(count, 3);
    let ghost start = bs.bits();
    let mut i: usize = 0;
    assert(start + Seq::<bool>::empty() =~= start);
    while i < ptrs.len()
        invariant
            i <= ptrs@.len(),
            m == as_ints(ptrs@),
            2 <= quant <= 7,
            forall|j: int| 0 <= j < tcs@.len() ==> (#[trigger] tcs@[j]).wf(),
            forall|j: int| 0 <= j < ptrs@.len() ==> #[trigger] ptrs@[j] < tcs@.len(),
            bs.wf(),
            bs.read_pos() == old(bs).read_pos(),
            bs.bits() == start + block_components_bits(
                tcs@,
                m.take(i as int),
                sb as int,
                quant as int,
            ),
            block_components_bits(tcs@, m, sb as int, quant as int).len() <= u32::MAX,
            start.len() + block_components_bits(tcs@, m, sb as int, quant as int).len() + 7
                <= usize::MAX,
        decreases ptrs@.len() - i,
    {
        proof {
            assert(m.take(i + 1).drop_last() =~= m.take(i as int));
            lemma_block_components_prefix(tcs@, m, sb as int, quant as int, i + 1);
        }
        let tc: &TonalBlock = &tcs[ptrs[i]];
        if (tc.val.pos / 64) as usize == sb {
            write_component(tc, quant, bs);
        }
        assert(bs.bits() =~= start + block_components_bits(
            tcs@,
            m.take(i + 1),
            sb as int,
            quant as int,
        ));
        i += 1;
    }
    assert(bs.bits() =~= old(bs).bits() + (bits::msb_bits(count as nat, 3) + block_components_bits(
        tcs@,
        m,
        sb as int,
        quant as int,
    )));
}

proof fn lemma_count_prefix(tcs: Seq<TonalBlock>, m: Seq<int>, sb: int, k: int)
    requires
        0 <= k <= m.len(),
    ensures
        count_in_block(tcs, m.take(k), sb) <= count_in_block(tcs, m, sb),
        count_in_block(tcs, m, sb) <= m.len(),
    decreases m.len(),
{
    if k == m.len() {
        assert(m.take(k) =~= m);
        if m.len() > 0 {
            lemma_count_prefix(tcs, m.drop_last(), sb, m.len() - 1);
        }
    } else {
        lemma_count_prefix(tcs, m.drop_last(), sb, k);
        assert(m.drop_last().take(k) =~= m.take(k));
    }
}

/// Whether a band has any of the listed components.
fn is_band_active(tcs: &[TonalBlock], ptrs: &[usize], qmf: usize) -> (r: bool)
    requires
        forall|i: int| 0 <= i < ptrs@.len() ==> #[trigger] ptrs@[i] < tcs@.len(),
    ensures
        r == band_active(tcs@, as_ints(ptrs@), qmf as int),
{
    let mut i: usize = 0;
    while i < ptrs.len()
        invariant
            i <= ptrs@.len(),
            forall|j: int| 0 <= j < ptrs@.len() ==> #[trigger] ptrs@[j] < tcs@.len(),
            forall|j: int|
                0 <= j < i ==> (#[trigger] tcs@[as_ints(ptrs@)[j]]).spec_block() / 4 != qmf,
        decreases ptrs@.len() - i,
    {
        let pos: u16 = tcs[ptrs[i]].val.pos;
        assert(as_ints(ptrs@)[i as int] == ptrs@[i as int]);
        if (pos / 64 / 4) as usize == qmf {
            assert(tcs@[as_ints(ptrs@)[i as int]].spec_block() / 4 == qmf);
            return true;
        }
        i += 1;
    }
    false
}

/// Writes one subgroup of group `g`.
fn write_subgroup(tcs: &[TonalBlock], ptrs: &[usize], g: usize, bs: &mut BitStream)
    requires
        forall|i: int| 0 <= i < tcs@.len() ==> (#[trigger] tcs@[i]).wf(),
        forall|i: int| 0 <= i < ptrs@.len() ==> #[trigger] ptrs@[i] < tcs@.len(),
        2 <= g / 8 <= 7,
        1 <= g % 8,
        ptrs@.len() <= u32::MAX,
        old(bs).wf(),
        subgroup_bits(tcs@, as_ints(ptrs@), g as int).len() <= u32::MAX,
        old(bs).bits().len() + subgroup_bits(tcs@, as_ints(ptrs@), g as int).len() + 7
            <= usize::MAX,
    ensures
        final(bs).wf(),
        final(bs).read_pos() == old(bs).read_pos(),
        final(bs).bits() == old(bs).bits() + subgroup_bits(tcs@, as_ints(ptrs@), g as int),
{
    let ghost m = as_ints(ptrs@);
    let ghost start = bs.bits();
    let quant: usize = g / 8;
    let ghost blocks_len = spec_blocks_bits(tcs@, m, quant as int, 16).len();
    let mut qmf: usize = 0;
    proof {
        lemma_band_flags_len(tcs@, m, 4);
        assert(start + Seq::<bool>::empty() =~= start);
    }
    while qmf < 4
        invariant
            qmf <= 4,
            m == as_ints(ptrs@),
            forall|i: int| 0 <= i < ptrs@.len() ==> #[trigger] ptrs@[i] < tcs@.len(),
            bs.wf(),
            bs.read_pos() == old(bs).read_pos(),
            bs.bits() == start + band_flags_bits(tcs@, m, qmf as nat),
            start.len() + 10 + blocks_len + 7 <= usize::MAX,
        decreases 4 - qmf,
    {
        let active: bool = is_band_active(tcs, ptrs, qmf);
        proof {
            lemma_band_flags_len(tcs@, m, qmf as nat);
            lemma_flag_bit(active);
        }
        bs.write(if active {
            1
        } else {
            0
        }, 1);
        assert(bs.bits() =~= start + band_flags_bits(tcs@, m, (qmf + 1) as nat));
        qmf += 1;
    }
    bs.write((g % 8 - 1) as u32, 3);
    bs.write(quant as u32, 3);
    let ghost mid = bs.bits();
    let mut sb: usize = 0;
    assert(mid + Seq::<bool>::empty() =~= mid);
    while sb < 16
        invariant
            sb <= 16,
            m == as_ints(ptrs@),
            2 <= quant <= 7,
            ptrs@.len() <= u32::MAX,
            forall|i: int| 0 <= i < tcs@.len() ==> (#[trigger] tcs@[i]).wf(),
            forall|i: int| 0 <= i < ptrs@.len() ==> #[trigger] ptrs@[i] < tcs@.len(),
            bs.wf(),
            bs.read_pos() == old(bs).read_pos(),
            bs.bits() == mid + spec_blocks_bits(tcs@, m, quant as int, sb as nat),
            blocks_len == spec_blocks_bits(tcs@, m, quant as int, 16).len(),
            blocks_len <= u32::MAX,
            mid.len() + blocks_len + 7 <= usize::MAX,
        decreases 16 - sb,
    {
        proof {
            lemma_spec_blocks_prefix(tcs@, m, quant as int, (sb + 1) as nat, 16);
            lemma_count_prefix(tcs@, m, sb as int, m.len() as int);
        }
        if is_band_active(tcs, ptrs, sb / 4) {
            write_block_components(tcs, ptrs, sb, quant, bs);
        }
        assert(bs.bits() =~= mid + spec_blocks_bits(tcs@, m, quant as int, (sb + 1) as nat));
        sb += 1;
    }
    assert(bs.bits() =~= start + subgroup_bits(tcs@, m, g as int));
}

proof fn lemma_band_flags_len(tcs: Seq<TonalBlock>, m: Seq<int>, n: nat)
    ensures
        band_flags_bits(tcs, m, n).len() == n,
    decreases n,
{
    if n > 0 {
        lemma_band_flags_len(tcs, m, (n - 1) as nat);
    }
}

/// A flag takes one bit.
pub proof fn lemma_flag_bit(b: bool)
    ensures
        bits::msb_bits(if b {
            1
        } else {
            0
        }, 1) == seq![b],
{
    bits::lemma_msb_bits_push(if b {
        1
    } else {
        0
    }, 1);
    assert(bits::msb_bits(0, 0) =~= Seq::empty());
    assert(seq![b] =~= Seq::empty().push(b));
}

proof fn lemma_starts_ordered(blocks: Seq<int>, from: int, k: int)
    requires
        0 <= from <= blocks.len(),
        0 <= k < subgroup_starts(blocks, from).len(),
    ensures
        from <= subgroup_starts(blocks, from)[k] < blocks.len(),
        k + 1 < subgroup_starts(blocks, from).len() ==> subgroup_starts(blocks, from)[k]
            < subgroup_starts(blocks, from)[k + 1],
    decreases blocks.len() - from,
{
    if from < blocks.len() {
        lemma_starts_step(blocks, from);
        let end = subgroup_end(blocks, from, from + 1);
        let rest = subgroup_starts(blocks, end);
        if k > 0 {
            lemma_starts_ordered(blocks, end, k - 1);
        } else if rest.len() > 0 {
            lemma_starts_ordered(blocks, end, 0);
        }
    }
}

/// Writes the subgroups of group `g`.
fn write_group(
    tcs: &[TonalBlock],
    group: &TonalComponentsSubGroup,
    g: usize,
    bs: &mut BitStream,
)
    requires
        forall|i: int| 0 <= i < tcs@.len() ==> (#[trigger] tcs@[i]).wf(),
        forall|i: int| 0 <= i < group.ptrs@.len() ==> #[trigger] group.ptrs@[i] < tcs@.len(),
        as_ints(group.subgroup_starts@) == subgroup_starts(
            blocks_of(tcs@, as_ints(group.ptrs@)),
            0,
        ),
        group.ptrs@.len() <= u32::MAX,
        group.ptrs@.len() > 0 ==> 2 <= g / 8 <= 7 && 1 <= g % 8,
        old(bs).wf(),
        subgroups_bits(
            tcs@,
            as_ints(group.ptrs@),
            as_ints(group.subgroup_starts@),
            g as int,
            group.subgroup_starts@.len(),
        ).len() <= u32::MAX,
        old(bs).bits().len() + subgroups_bits(
            tcs@,
            as_ints(group.ptrs@),
            as_ints(group.subgroup_starts@),
            g as int,
            group.subgroup_starts@.len(),
        ).len() + 7 <= usize::MAX,
    ensures
        final(bs).wf(),
        final(bs).read_pos() == old(bs).read_pos(),
        final(bs).bits() == old(bs).bits() + subgroups_bits(
            tcs@,
            as_ints(group.ptrs@),
            as_ints(group.subgroup_starts@),
            g as int,
            group.subgroup_starts@.len(),
        ),
{
    let ghost m = as_ints(group.ptrs@);
    let ghost starts = as_ints(group.subgroup_starts@);
    let ghost blocks = blocks_of(tcs@, m);
    let ghost n = starts.len();
    let ghost start = bs.bits();
    let mut k: usize = 0;
    assert(start + Seq::<bool>::empty() =~= start);
    while k < group.subgroup_starts.len()
        invariant
            k <= group.subgroup_starts@.len(),
            m == as_ints(group.ptrs@),
            starts == as_ints(group.subgroup_starts@),
            starts == subgroup_starts(blocks, 0),
            blocks == blocks_of(tcs@, m),
            n == starts.len(),
            group.ptrs@.len() <= u32::MAX,
            forall|i: int| 0 <= i < tcs@.len() ==> (#[trigger] tcs@[i]).wf(),
            forall|i: int| 0 <= i < group.ptrs@.len() ==> #[trigger] group.ptrs@[i] < tcs@.len(),
            group.ptrs@.len() > 0 ==> 2 <= g / 8 <= 7 && 1 <= g % 8,
            bs.wf(),
            bs.read_pos() == old(bs).read_pos(),
            bs.bits() == start + subgroups_bits(tcs@, m, starts, g as int, k as nat),
            subgroups_bits(tcs@, m, starts, g as int, n).len() <= u32::MAX,
            start.len() + subgroups_bits(tcs@, m, starts, g as int, n).len() + 7 <= usize::MAX,
        decreases group.subgroup_starts@.len() - k,
    {
        proof {
            lemma_starts_ordered(blocks, 0, k as int);
            if k + 1 < n {
                lemma_starts_ordered(blocks, 0, k + 1);
            }
            lemma_subgroups_prefix(tcs@, m, starts, g as int, (k + 1) as nat, n);
            assert(starts[k as int] == group.subgroup_starts@[k as int]);
        }
        let from: usize = group.subgroup_starts[k];
        let end: usize = if k + 1 < group.subgroup_starts.len() {
            assert(starts[k + 1] == group.subgroup_starts@[k + 1]);
            group.subgroup_starts[k + 1]
        } else {
            group.ptrs.len()
        };
        let part: &[usize] = vstd::slice::slice_subrange(group.ptrs.as_slice(), from, end);
        assert(as_ints(part@) =~= m.subrange(from as int, end as int));
        write_subgroup(tcs, part, g, bs);
        assert(bs.bits() =~= start + subgroups_bits(tcs@, m, starts, g as int, (k + 1) as nat));
        k += 1;
    }
}

/// The number of subgroups over all groups.
fn count_subgroups(
    groups: &Vec<TonalComponentsSubGroup>,
    Ghost(tcs): Ghost<Seq<TonalBlock>>,
    Ghost(alloc): Ghost<Seq<u32>>,
) -> (n: usize)
    requires
        groups@.len() == 64,
        forall|g: int|
            0 <= g < 64 ==> as_ints((#[trigger] groups@[g]).subgroup_starts@) == group_starts(
                tcs,
                alloc,
                g,
            ),
        num_subgroups(tcs, alloc, 64) <= usize::MAX,
    ensures
        n == num_subgroups(tcs, alloc, 64),
{
    let mut n: usize = 0;
    let mut g: usize = 0;
    while g < 64
        invariant
            g <= 64,
            groups@.len() == 64,
            forall|h: int|
                0 <= h < 64 ==> as_ints((#[trigger] groups@[h]).subgroup_starts@) == group_starts(
                    tcs,
                    alloc,
                    h,
                ),
            n == num_subgroups(tcs, alloc, g as nat),
            num_subgroups(tcs, alloc, 64) <= usize::MAX,
        decreases 64 - g,
    {
        proof {
            lemma_groups_prefix(tcs, alloc, (g + 1) as nat, 64);
            assert(groups@[g as int].subgroup_starts@.len() == as_ints(
                groups@[g as int].subgroup_starts@,
            ).len());
        }
        n += groups[g].subgroup_starts.len();
        g += 1;
    }
    n
}

/// Writes the tonal components and returns the number of bits written.
pub fn encode_tonal_components(
    tonal_blocks: &[TonalBlock],
    alloc_table: &[u32],
    bitstream: &mut BitStream,
) -> (bits_used: u16)
    requires
        tonal_codable(tonal_blocks@, alloc_table@),
        tonal_blocks@.len() <= u32::MAX,
        old(bitstream).wf(),
        old(bitstream).bits().len() + tonal_bits(tonal_blocks@, alloc_table@).len() + 7
            <= usize::MAX,
    ensures
        final(bitstream).wf(),
        final(bitstream).read_pos() == old(bitstream).read_pos(),
        final(bitstream).bits() == old(bitstream).bits() + tonal_bits(
            tonal_blocks@,
            alloc_table@,
        ),
        bits_used == tonal_bits(tonal_blocks@, alloc_table@).len(),
{
    let ghost tcs = tonal_blocks@;
    let ghost alloc = alloc_table@;
    let groups: Vec<TonalComponentsSubGroup> = group_tonal_components(tonal_blocks, alloc_table);
    let before: usize = bitstream.size_in_bits();
    let tcsgn: usize = count_subgroups(&groups, Ghost(tcs), Ghost(alloc));
    bitstream.write(tcsgn as u32, 5);
    if tcsgn == 0 {
        return 5;
    }
    bitstream.write(0, 2);
    let ghost start = bitstream.bits();
    let mut g: usize = 0;
    assert(start + Seq::<bool>::empty() =~= start);
    while g < 64
        invariant
            g <= 64,
            groups@.len() == 64,
            tcs == tonal_blocks@,
            tcs.len() <= u32::MAX,
            forall|i: int| 0 <= i < tcs.len() ==> (#[trigger] tcs[i]).wf(),
            forall|h: int|
                0 <= h < 64 ==> as_ints((#[trigger] groups@[h]).ptrs@) == members(
                    tcs,
                    alloc,
                    h,
                    tcs.len(),
                ) && as_ints(groups@[h].subgroup_starts@) == group_starts(tcs, alloc, h),
            bitstream.wf(),
            bitstream.read_pos() == old(bitstream).read_pos(),
            bitstream.bits() == start + groups_bits(tcs, alloc, g as nat),
            groups_bits(tcs, alloc, 64).len() <= u16::MAX,
            start.len() + groups_bits(tcs, alloc, 64).len() + 7 <= usize::MAX,
        decreases 64 - g,
    {
        proof {
            lemma_groups_prefix(tcs, alloc, (g + 1) as nat, 64);
            lemma_members_bounds(tcs, alloc, g as int, tcs.len());
            let ptrs = groups@[g as int].ptrs@;
            assert forall|j: int| 0 <= j < ptrs.len() implies #[trigger] ptrs[j] < tcs.len() by {
                assert(as_ints(ptrs)[j] == ptrs[j]);
            }
            if ptrs.len() > 0 {
                assert(as_ints(ptrs)[0] == ptrs[0]);
                let tc = tcs[as_ints(ptrs)[0]];
                assert(in_group(tc, alloc, g as int));
                assert(tc.wf());
            }
            assert(as_ints(ptrs).len() == ptrs.len());
            assert(as_ints(groups@[g as int].subgroup_starts@).len()
                == groups@[g as int].subgroup_starts@.len());
        }
        write_group(tonal_blocks, &groups[g], g, bitstream);
        assert(bitstream.bits() =~= start + groups_bits(tcs, alloc, (g + 1) as nat));
        g += 1;
    }
    assert(bitstream.bits() =~= old(bitstream).bits() + tonal_bits(tcs, alloc));
    (bitstream.size_in_bits() - before) as u16
}

proof fn lemma_no_long_run(blocks: Seq<int>, from: int, j: int, t: int)
    requires
        from < j <= t < subgroup_end(blocks, from, j),
    ensures
        !(t - 7 >= from && blocks[t - 7] == blocks[t]),
    decreases blocks.len() - j,
{
    if j < blocks.len() && !(j - 7 >= from && blocks[j - 7] == blocks[j]) && t > j {
        lemma_no_long_run(blocks, from, j + 1, t);
    }
}

proof fn lemma_start_end(blocks: Seq<int>, from: int, k: int)
    requires
        0 <= from <= blocks.len(),
        0 <= k < subgroup_starts(blocks, from).len(),
    ensures
        ({
            let starts = subgroup_starts(blocks, from);
            subgroup_end(blocks, starts[k], starts[k] + 1) == (if k + 1 < starts.len() {
                starts[k + 1]
            } else {
                blocks.len() as int
            })
        }),
    decreases blocks.len() - from,
{
    if from < blocks.len() {
        lemma_starts_step(blocks, from);
        let end = subgroup_end(blocks, from, from + 1);
        if k > 0 {
            lemma_start_end(blocks, end, k - 1);
        } else if end < blocks.len() {
            lemma_starts_step(blocks, end);
        }
    }
}

/// In a list of components whose blocks never step back and never hold eight in
/// a row of one block, no block occurs more than seven times.
proof fn lemma_count_small(tcs: Seq<TonalBlock>, m: Seq<int>, sb: int)
    requires
        forall|i: int, j: int|
            0 <= i < j < m.len() ==> (#[trigger] tcs[m[i]]).spec_block() <= (
            #[trigger] tcs[m[j]]).spec_block(),
        forall|j: int|
            7 <= j < m.len() ==> tcs[m[j - 7]].spec_block() != (#[trigger] tcs[m[j]]).spec_block(),
    ensures
        count_in_block(tcs, m, sb) <= 7,
        m.len() > 0 && tcs[m.last()].spec_block() < sb ==> count_in_block(tcs, m, sb) == 0,
        m.len() > 0 && tcs[m.last()].spec_block() == sb ==> {
            let c = count_in_block(tcs, m, sb);
            c <= m.len() && tcs[m[m.len() - c]].spec_block() == sb
        },
    decreases m.len(),
{
    if m.len() > 0 {
        let d = m.drop_last();
        lemma_count_small(tcs, d, sb);
        if d.len() > 0 {
            assert(tcs[m[m.len() - 2]].spec_block() <= tcs[m[m.len() - 1]].spec_block());
            let c = count_in_block(tcs, d, sb);
            if tcs[m.last()].spec_block() == sb && tcs[d.last()].spec_block() == sb && c == 7 {
                assert(d[d.len() - 7] == m[m.len() - 8]);
                let j = m.len() - 1;
                assert(tcs[m[j]].spec_block() == sb);
                assert(tcs[m[j - 7]].spec_block() == sb);
            }
        }
    }
}

/// In every subgroup each 64 line block holds at most seven components, so that
/// their number fits its three bits.
pub proof fn law_component_count_fits(
    tcs: Seq<TonalBlock>,
    alloc: Seq<u32>,
    g: int,
    k: int,
    sb: int,
)
    requires
        tonal_codable(tcs, alloc),
        0 <= k < group_starts(tcs, alloc, g).len(),
    ensures
        ({
            let m = members(tcs, alloc, g, tcs.len());
            let starts = group_starts(tcs, alloc, g);
            let end = if k + 1 < starts.len() {
                starts[k + 1]
            } else {
                m.len() as int
            };
            count_in_block(tcs, m.subrange(starts[k], end), sb) <= 7
        }),
{
    let m = members(tcs, alloc, g, tcs.len());
    let blocks = blocks_of(tcs, m);
    let starts = group_starts(tcs, alloc, g);
    let from = starts[k];
    let end = if k + 1 < starts.len() {
        starts[k + 1]
    } else {
        m.len() as int
    };
    lemma_members_bounds(tcs, alloc, g, tcs.len());
    lemma_starts_ordered(blocks, 0, k);
    if k + 1 < starts.len() {
        lemma_starts_ordered(blocks, 0, k + 1);
    }
    lemma_start_end(blocks, 0, k);
    let sub = m.subrange(from, end);
    assert forall|i: int, j: int| 0 <= i < j < sub.len() implies (
    #[trigger] tcs[sub[i]]).spec_block() <= (#[trigger] tcs[sub[j]]).spec_block() by {
        let a = m[from + i];
        let b = m[from + j];
        assert(a < b);
        assert(in_group(tcs[a], alloc, g) && in_group(tcs[b], alloc, g));
    }
    assert forall|j: int| 7 <= j < sub.len() implies tcs[sub[j - 7]].spec_block() != (
    #[trigger] tcs[sub[j]]).spec_block() by {
        lemma_no_long_run(blocks, from, from + 1, from + j);
        assert(blocks[from + j] == tcs[sub[j]].spec_block());
        assert(blocks[from + j - 7] == tcs[sub[j - 7]].spec_block());
    }
    lemma_count_small(tcs, sub, sb);
}

proof fn lemma_members_complete(tcs: Seq<TonalBlock>, alloc: Seq<u32>, g: int, n: nat, i: int)
    requires
        0 <= i < n <= tcs.len(),
        in_group(tcs[i], alloc, g),
    ensures
        members(tcs, alloc, g, n).contains(i),
    decreases n,
{
    let all = members(tcs, alloc, g, n);
    if i == n - 1 {
        assert(all.last() == i);
    } else {
        lemma_members_complete(tcs, alloc, g, (n - 1) as nat, i);
        let before = members(tcs, alloc, g, (n - 1) as nat);
        let at = choose|j: int| 0 <= j < before.len() && before[j] == i;
        assert(all[at] == i);
    }
}

/// Every component whose block is coded is a member of one group below 64 and
/// of no other; a component of a block that is not coded is in none.
pub proof fn law_groups_partition(tcs: Seq<TonalBlock>, alloc: Seq<u32>, i: int)
    requires
        tonal_codable(tcs, alloc),
        0 <= i < tcs.len(),
    ensures
        (tcs[i].val.bfu as int) < alloc.len() ==> {
            let own = tonal_quant(alloc[tcs[i].val.bfu as int] as int) * 8 + tcs[i].num_values();
            &&& 0 <= own < 64
            &&& members(tcs, alloc, own, tcs.len()).contains(i)
            &&& forall|g: int|
                g != own ==> !(#[trigger] members(tcs, alloc, g, tcs.len())).contains(i)
        },
        tcs[i].val.bfu as int >= alloc.len() ==> forall|g: int|
            !(#[trigger] members(tcs, alloc, g, tcs.len())).contains(i),
{
    assert(tcs[i].wf());
    if (tcs[i].val.bfu as int) < alloc.len() {
        let own = tonal_quant(alloc[tcs[i].val.bfu as int] as int) * 8 + tcs[i].num_values();
        lemma_members_complete(tcs, alloc, own, tcs.len(), i);
    }
    assert forall|g: int|
        (#[trigger] members(tcs, alloc, g, tcs.len())).contains(i) implies in_group(
        tcs[i],
        alloc,
        g,
    ) by {
        lemma_members_bounds(tcs, alloc, g, tcs.len());
    }
}

} // verus!
