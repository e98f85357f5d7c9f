//! Coding of the spectrum of an ATRAC3plus frame.

use vstd::prelude::*;
use vstd::arithmetic::power2::*;
use vstd::arithmetic::div_mod::*;
use crate::at3p::fields;
use crate::at3p::fields::{count_bits, BitField};
use crate::at3p::tables;
use crate::at3p::tables::{SpectraTab, VlcElement};
use crate::at3p::tonal;

verus! {

/// What a line puts into the index of its code word: its absolute value where
/// signs are coded apart, else its low bits.
pub open spec fn coeff_word(t: i32, tab: SpectraTab) -> u32 {
    if !tab.is_signed && t != 0 {
        (if t < 0 {
            -t
        } else {
            t as int
        }) as u32
    } else {
        (t as int % (pow2(tab.bits as nat) as int)) as u32
    }
}

/// The index of the code word of the first `n` lines of a tuple.
pub open spec fn tuple_index(c: Seq<i32>, tab: SpectraTab, n: nat) -> u32
    decreases n,
{
    if n == 0 {
        0
    } else {
        tuple_index(c, tab, (n - 1) as nat) | (coeff_word(c[n - 1], tab) << ((tab.bits * (n - 1))
            as u32))
    }
}

/// The signs of the first `n` lines of a tuple, for lines other than zero.
pub open spec fn sign_fields(c: Seq<i32>, tab: SpectraTab, n: nat) -> Seq<BitField>
    decreases n,
{
    if n == 0 {
        Seq::empty()
    } else {
        sign_fields(c, tab, (n - 1) as nat) + (if !tab.is_signed && c[n - 1] != 0 {
            seq![
                (
                    if c[n - 1] > 0 {
                        0u16
                    } else {
                        1u16
                    },
                    1u8,
                ),
            ]
        } else {
            Seq::empty()
        })
    }
}

/// One tuple of lines: its code word and its signs.
pub open spec fn tuple_fields(c: Seq<i32>, tab: SpectraTab, vlc: Seq<VlcElement>) -> Seq<BitField> {
    seq![tonal::word_field(vlc[tuple_index(c, tab, c.len()) as int])] + sign_fields(
        c,
        tab,
        c.len(),
    )
}

/// Tuple number `j` of a unit.
pub open spec fn tuple(q: Seq<i32>, tab: SpectraTab, j: int) -> Seq<i32> {
    q.subrange(j * tab.num_coeffs, j * tab.num_coeffs + tab.num_coeffs)
}

/// The first `n` tuples of a unit; a flag opens every group of tuples where
/// groups are larger than one.
pub open spec fn tuples_fields(
    q: Seq<i32>,
    tab: SpectraTab,
    vlc: Seq<VlcElement>,
    n: nat,
) -> Seq<BitField>
    decreases n,
{
    if n == 0 {
        Seq::empty()
    } else {
        tuples_fields(q, tab, vlc, (n - 1) as nat) + (if tab.group_size != 1 && (n - 1)
            % tab.group_size as int == 0 {
            seq![(1u16, 1u8)]
        } else {
            Seq::empty()
        }) + tuple_fields(tuple(q, tab, n - 1), tab, vlc)
    }
}

/// The number of tuples of a unit.
pub open spec fn num_tuples(q: Seq<i32>, tab: SpectraTab) -> nat {
    q.len() / tab.num_coeffs as nat
}

/// The spectrum of a unit under a code table.
pub open spec fn unit_fields(q: Seq<i32>, tab: SpectraTab, vlc: Seq<VlcElement>) -> Seq<BitField> {
    tuples_fields(q, tab, vlc, num_tuples(q, tab))
}

/// A unit can be coded under a table: it is cut into whole groups, and every
/// tuple has a place in the table.
pub open spec fn unit_codable(q: Seq<i32>, tab: SpectraTab) -> bool {
    &&& 1 <= tab.num_coeffs <= 4
    &&& tab.group_size >= 1
    &&& tab.bits <= 8
    &&& q.len() <= 128
    &&& q.len() % (tab.num_coeffs as nat) == 0
    &&& num_tuples(q, tab) % (tab.group_size as nat) == 0
    &&& forall|i: int| 0 <= i < q.len() ==> #[trigger] q[i] > i32::MIN
    &&& forall|j: int|
        0 <= j < num_tuples(q, tab) ==> tuple_index(
            #[trigger] tuple(q, tab, j),
            tab,
            tab.num_coeffs as nat,
        ) < 256
}

proof fn lemma_mask_mod(t: i32, b: u32)
    requires
        b <= 8,
    ensures
        (t as u32) & (((1u32 << b) - 1) as u32) == t as int % (pow2(b as nat) as int),
{
    let v: u32 = t as u32;
    assert(if t >= 0 {
        v == t
    } else {
        v == t + 0x1_0000_0000i64
    }) by (bit_vector)
        requires
            v == t as u32,
    ;
    lemma2_to64();
    vstd::bits::lemma_u32_pow2_no_overflow(b as nat);
    vstd::bits::lemma_u32_shl_is_mul(1, b);
    vstd::bits::lemma_u32_low_bits_mask_is_mod(v, b as nat);
    lemma_pow2_pos(b as nat);
    lemma_pow2_adds(b as nat, (32 - b) as nat);
    lemma_mod_multiples_vanish(pow2((32 - b) as nat) as int, t as int, pow2(b as nat) as int);
}

fn coeff_value(t: i32, tab: SpectraTab) -> (w: u32)
    requires
        t > i32::MIN,
        tab.bits <= 8,
    ensures
        w == coeff_word(t, tab),
{
    if !tab.is_signed && t != 0 {
        if t < 0 {
            (-t) as u32
        } else {
            t as u32
        }
    } else {
        let b: u32 = tab.bits as u32;
        proof {
            lemma_mask_mod(t, b);
            lemma2_to64();
            vstd::bits::lemma_u32_pow2_no_overflow(b as nat);
            vstd::bits::lemma_u32_shl_is_mul(1, b);
            lemma_pow2_pos(b as nat);
        }
        let m: u32 = (1u32 << b) - 1;
        (
        #[verifier::truncate]
        (t as u32)) & m
    }
}

proof fn lemma_sign_fields_len(c: Seq<i32>, tab: SpectraTab, n: nat)
    ensures
        sign_fields(c, tab, n).len() <= n,
        forall|i: int|
            0 <= i < sign_fields(c, tab, n).len() ==> (#[trigger] sign_fields(c, tab, n)[i]).1 <= 1,
    decreases n,
{
    if n > 0 {
        lemma_sign_fields_len(c, tab, (n - 1) as nat);
    }
}

/// A unit takes at most three fields for each line, none wider than 12 bits.
pub proof fn lemma_tuples_fields(q: Seq<i32>, tab: SpectraTab, vlc: Seq<VlcElement>, n: nat)
    requires
        unit_codable(q, tab),
        vlc.len() == 256,
        tables::lens_wf(vlc),
        n <= num_tuples(q, tab),
    ensures
        tuples_fields(q, tab, vlc, n).len() <= 6 * n,
        forall|i: int|
            0 <= i < tuples_fields(q, tab, vlc, n).len() ==> (#[trigger] tuples_fields(
                q,
                tab,
                vlc,
                n,
            )[i]).1 <= 12,
    decreases n,
{
    if n > 0 {
        lemma_tuples_fields(q, tab, vlc, (n - 1) as nat);
        let c = tuple(q, tab, n - 1);
        lemma_tuple_range(q, tab, n - 1);
        lemma_sign_fields_len(c, tab, c.len());
        let e = vlc[tuple_index(c, tab, c.len()) as int];
        assert(0 <= e.len <= 12);
    }
}

proof fn lemma_tuple_range(q: Seq<i32>, tab: SpectraTab, j: int)
    requires
        1 <= tab.num_coeffs <= 4,
        q.len() % (tab.num_coeffs as nat) == 0,
        0 <= j < num_tuples(q, tab),
    ensures
        0 <= j * tab.num_coeffs,
        j * tab.num_coeffs + tab.num_coeffs <= q.len(),
        tuple(q, tab, j).len() == tab.num_coeffs,
        num_tuples(q, tab) <= q.len(),
{
    let nc = tab.num_coeffs as int;
    let n = num_tuples(q, tab) as int;
    lemma_fundamental_div_mod(q.len() as int, nc);
    assert(nc * n == q.len());
    assert(0 <= j * nc && j * nc + nc <= nc * n && n <= nc * n) by (nonlinear_arith)
        requires
            0 <= j < n,
            nc >= 1,
    ;
}

fn push_tuple(q: &[i32], j: usize, tab: SpectraTab, vlc: &Vec<VlcElement>, data: &mut Vec<BitField>)
    requires
        unit_codable(q@, tab),
        j < num_tuples(q@, tab),
        vlc@.len() == 256,
    ensures
        final(data)@ == old(data)@ + tuple_fields(tuple(q@, tab, j as int), tab, vlc@),
{
    let ghost c = tuple(q@, tab, j as int);
    let nc: usize = tab.num_coeffs as usize;
    proof {
        lemma_tuple_range(q@, tab, j as int);
        assert(q@.len() == q.len());
    }
    let base: usize = j * nc;
    let part: &[i32] = vstd::slice::slice_subrange(q, base, base + nc);
    assert(part@ =~= c);
    assert forall|k: int| 0 <= k < nc implies #[trigger] part@[k] > i32::MIN by {
        assert(q@[base + k] > i32::MIN);
    }
    let mut val: u32 = 0;
    let mut i: usize = 0;
    while i < nc
        invariant
            i <= nc,
            nc == tab.num_coeffs,
            nc <= 4,
            tab.bits <= 8,
            part@ == c,
            c.len() == nc,
            forall|k: int| 0 <= k < nc ==> #[trigger] part@[k] > i32::MIN,
            val == tuple_index(c, tab, i as nat),
        decreases nc - i,
    {
        let w: u32 = coeff_value(part[i], tab);
        assert(tab.bits * i <= 8 * 3) by (nonlinear_arith)
            requires
                tab.bits <= 8,
                0 <= i <= 3,
        ;
        let shift: u32 = tab.bits as u32 * i as u32;
        val = val | (w << shift);
        i += 1;
    }
    assert(tuple_index(tuple(q@, tab, j as int), tab, nc as nat) < 256);
    let el: VlcElement = vlc[val as usize];
    let ghost start = data@;
    data.push(
        (
            #[verifier::truncate]
            (el.code as u16),
            #[verifier::truncate]
            (el.len as u8),
        ),
    );
    let ghost head = data@;
    let mut i: usize = 0;
    assert(head + sign_fields(c, tab, 0) =~= head);
    while i < nc
        invariant
            i <= nc,
            nc == tab.num_coeffs,
            part@ == c,
            c.len() == nc,
            data@ == head + sign_fields(c, tab, i as nat),
        decreases nc - i,
    {
        let t: i32 = part[i];
        if !tab.is_signed && t != 0 {
            data.push((if t > 0 {
                0
            } else {
                1
            }, 1));
        }
        assert(data@ =~= head + sign_fields(c, tab, (i + 1) as nat));
        i += 1;
    }
    assert(data@ =~= start + tuple_fields(c, tab, vlc@));
}

/// Codes the lines of a unit under a code table.
pub fn encode_qu_spectra(qspec: &[i32], tab: SpectraTab, vlc: &Vec<VlcElement>) -> (data: Vec<
    BitField,
>)
    requires
        unit_codable(qspec@, tab),
        vlc@.len() == 256,
    ensures
        data@ == unit_fields(qspec@, tab, vlc@),
{
    let mut data: Vec<BitField> = Vec::new();
    let count: usize = qspec.len() / tab.num_coeffs as usize;
    let mut j: usize = 0;
    assert(data@ =~= tuples_fields(qspec@, tab, vlc@, 0));
    while j < count
        invariant
            j <= count,
            count == num_tuples(qspec@, tab),
            unit_codable(qspec@, tab),
            vlc@.len() == 256,
            data@ == tuples_fields(qspec@, tab, vlc@, j as nat),
        decreases count - j,
    {
        if tab.group_size != 1 && j % (tab.group_size as usize) == 0 {
            data.push((1, 1));
        }
        push_tuple(qspec, j, tab, vlc, &mut data);
        assert(data@ =~= tuples_fields(qspec@, tab, vlc@, (j + 1) as nat));
        j += 1;
    }
    data
}

/// The number of the code table that a unit of word length `wl` uses as its
/// choice `i`.
pub open spec fn table_index(wl: int, i: int) -> int {
    wl - 1 + i * 7
}

/// The bits of a unit under choice `i`.
pub open spec fn choice_cost(
    q: Seq<i32>,
    wl: int,
    tabs: Seq<SpectraTab>,
    vlcs: Seq<Vec<VlcElement>>,
    i: int,
) -> nat {
    fields::fields_bits(
        unit_fields(q, tabs[table_index(wl, i)], vlcs[table_index(wl, i)]@),
    ).len()
}

/// The cheapest of the first `n` choices; the first one of equal ones.
pub open spec fn best_choice(
    q: Seq<i32>,
    wl: int,
    tabs: Seq<SpectraTab>,
    vlcs: Seq<Vec<VlcElement>>,
    n: nat,
) -> int
    decreases n,
{
    if n <= 1 {
        0
    } else {
        let b = best_choice(q, wl, tabs, vlcs, (n - 1) as nat);
        if choice_cost(q, wl, tabs, vlcs, n - 1) < choice_cost(q, wl, tabs, vlcs, b) {
            n - 1
        } else {
            b
        }
    }
}

/// A unit can be coded under all of its choices.
pub open spec fn unit_wf(
    q: Seq<i32>,
    wl: int,
    tabs: Seq<SpectraTab>,
    vlcs: Seq<Vec<VlcElement>>,
) -> bool {
    &&& 1 <= wl <= 7
    &&& tabs.len() == 112
    &&& vlcs.len() == 112
    &&& forall|i: int|
        0 <= i < 112 ==> (#[trigger] vlcs[i])@.len() == 256 && tables::lens_wf(vlcs[i]@)
    &&& forall|i: int| 0 <= i < 8 ==> unit_codable(q, #[trigger] tabs[table_index(wl, i)])
}

pub proof fn lemma_best_choice(
    q: Seq<i32>,
    wl: int,
    tabs: Seq<SpectraTab>,
    vlcs: Seq<Vec<VlcElement>>,
    n: nat,
)
    requires
        1 <= n <= 8,
    ensures
        0 <= best_choice(q, wl, tabs, vlcs, n) < n,
    decreases n,
{
    if n > 1 {
        lemma_best_choice(q, wl, tabs, vlcs, (n - 1) as nat);
    }
}

/// No choice is cheaper than the one taken.
pub proof fn law_best_choice_is_cheapest(
    q: Seq<i32>,
    wl: int,
    tabs: Seq<SpectraTab>,
    vlcs: Seq<Vec<VlcElement>>,
    n: nat,
    i: int,
)
    requires
        0 <= i < n,
    ensures
        choice_cost(q, wl, tabs, vlcs, best_choice(q, wl, tabs, vlcs, n)) <= choice_cost(
            q,
            wl,
            tabs,
            vlcs,
            i,
        ),
    decreases n,
{
    if n > 1 && i < n - 1 {
        law_best_choice_is_cheapest(q, wl, tabs, vlcs, (n - 1) as nat, i);
    }
}

/// Codes a unit under the cheapest of its eight code tables, and says which.
pub fn encode_unit(
    mantissas: &[i32],
    wordlen: usize,
    tabs: &Vec<SpectraTab>,
    vlcs: &Vec<Vec<VlcElement>>,
) -> (r: (usize, Vec<BitField>))
    requires
        unit_wf(mantissas@, wordlen as int, tabs@, vlcs@),
    ensures
        r.0 == best_choice(mantissas@, wordlen as int, tabs@, vlcs@, 8),
        r.0 < 8,
        r.1@ == unit_fields(
            mantissas@,
            tabs@[table_index(wordlen as int, r.0 as int)],
            vlcs@[table_index(wordlen as int, r.0 as int)]@,
        ),
{
    let ghost q = mantissas@;
    let ghost wl = wordlen as int;
    let mut best: usize = 0;
    assert(unit_codable(q, tabs@[table_index(wl, 0)]));
    let mut res: Vec<BitField> = encode_qu_spectra(
        mantissas,
        tabs[wordlen - 1],
        &vlcs[wordlen - 1],
    );
    proof {
        lemma_unit_cost(q, wl, tabs@, vlcs@, 0);
    }
    let mut consumed: usize = count_bits(&res);
    let mut i: usize = 1;
    while i < 8
        invariant
            1 <= i <= 8,
            q == mantissas@,
            wl == wordlen,
            unit_wf(q, wl, tabs@, vlcs@),
            best == best_choice(q, wl, tabs@, vlcs@, i as nat),
            best < 8,
            consumed == choice_cost(q, wl, tabs@, vlcs@, best as int),
            res@ == unit_fields(
                q,
                tabs@[table_index(wl, best as int)],
                vlcs@[table_index(wl, best as int)]@,
            ),
        decreases 8 - i,
    {
        let tab_index: usize = wordlen - 1 + i * 7;
        assert(tab_index == table_index(wl, i as int));
        assert(unit_codable(q, tabs@[table_index(wl, i as int)]));
        let tmp: Vec<BitField> = encode_qu_spectra(mantissas, tabs[tab_index], &vlcs[tab_index]);
        proof {
            lemma_unit_cost(q, wl, tabs@, vlcs@, i as int);
        }
        let t: usize = count_bits(&tmp);
        if t < consumed {
            consumed = t;
            best = i;
            res = tmp;
        }
        i += 1;
    }
    (best, res)
}

/// The cost of a choice is small.
pub proof fn lemma_unit_cost(
    q: Seq<i32>,
    wl: int,
    tabs: Seq<SpectraTab>,
    vlcs: Seq<Vec<VlcElement>>,
    i: int,
)
    requires
        unit_wf(q, wl, tabs, vlcs),
        0 <= i < 8,
    ensures
        choice_cost(q, wl, tabs, vlcs, i) <= 23 * 768,
        fields::fields_wf(unit_fields(q, tabs[table_index(wl, i)], vlcs[table_index(wl, i)]@)),
        unit_fields(q, tabs[table_index(wl, i)], vlcs[table_index(wl, i)]@).len() <= 768,
{
    let tab = tabs[table_index(wl, i)];
    let vlc = vlcs[table_index(wl, i)]@;
    assert(unit_codable(q, tab));
    lemma_tuples_fields(q, tab, vlc, num_tuples(q, tab));
    if num_tuples(q, tab) > 0 {
        lemma_tuple_range(q, tab, 0);
    }
    fields::lemma_fields_bits_bound(unit_fields(q, tab, vlc));
}

/// The table choices of the first `n` units of a channel.
pub open spec fn tab_idx_fields(spec_tab_idx: Seq<(u8, u8)>, ch: int, n: nat) -> Seq<BitField> {
    Seq::new(
        n,
        |i: int|
            (
                if ch == 0 {
                    spec_tab_idx[i].0 as u16
                } else {
                    spec_tab_idx[i].1 as u16
                },
                3u8,
            ),
    )
}

/// The table choices of one channel.
pub open spec fn channel_tab_fields(spec_tab_idx: Seq<(u8, u8)>, ch: int, nqu: nat) -> Seq<
    BitField,
> {
    seq![(0u16, 1u8), (0u16, 2u8), (0u16, 1u8)] + tab_idx_fields(spec_tab_idx, ch, nqu)
}

/// The table choices of all channels, with the full set of tables in use.
pub open spec fn code_tab_fields(
    channels: nat,
    spec_tab_idx: Seq<(u8, u8)>,
    nqu: nat,
) -> Seq<BitField>
    decreases channels,
{
    if channels == 0 {
        seq![(1u16, 1u8)]
    } else {
        code_tab_fields((channels - 1) as nat, spec_tab_idx, nqu) + channel_tab_fields(
            spec_tab_idx,
            channels - 1,
            nqu,
        )
    }
}

/// Codes the table choices.
pub fn encode_code_tab(channels: usize, num_quant_units: usize, spec_tab_idx: &Vec<(u8, u8)>) -> (
data: Vec<BitField>)
    requires
        num_quant_units <= spec_tab_idx@.len(),
    ensures
        data@ == code_tab_fields(channels as nat, spec_tab_idx@, num_quant_units as nat),
{
    let mut data: Vec<BitField> = Vec::new();
    data.push((1, 1));
    let mut ch: usize = 0;
    assert(data@ =~= code_tab_fields(0, spec_tab_idx@, num_quant_units as nat));
    while ch < channels
        invariant
            ch <= channels,
            num_quant_units <= spec_tab_idx@.len(),
            data@ == code_tab_fields(ch as nat, spec_tab_idx@, num_quant_units as nat),
        decreases channels - ch,
    {
        let ghost start = data@;
        data.push((0, 1));
        data.push((0, 2));
        data.push((0, 1));
        let ghost head = data@;
        let mut i: usize = 0;
        assert(head + tab_idx_fields(spec_tab_idx@, ch as int, 0) =~= head);
        while i < num_quant_units
            invariant
                i <= num_quant_units,
                num_quant_units <= spec_tab_idx@.len(),
                data@ == head + tab_idx_fields(spec_tab_idx@, ch as int, i as nat),
            decreases num_quant_units - i,
        {
            let v: u8 = if ch == 0 {
                spec_tab_idx[i].0
            } else {
                spec_tab_idx[i].1
            };
            data.push((v as u16, 3));
            assert(data@ =~= head + tab_idx_fields(spec_tab_idx@, ch as int, (i + 1) as nat));
            i += 1;
        }
        assert(data@ =~= start + channel_tab_fields(
            spec_tab_idx@,
            ch as int,
            num_quant_units as nat,
        ));
        ch += 1;
    }
    data
}

/// Of choices that cost the same the first one is taken: every earlier choice costs more.
pub proof fn law_best_choice_is_first(
    q: Seq<i32>,
    wl: int,
    tabs: Seq<SpectraTab>,
    vlcs: Seq<Vec<VlcElement>>,
    n: nat,
    i: int,
)
    requires
        1 <= n,
        0 <= i < best_choice(q, wl, tabs, vlcs, n),
    ensures
        choice_cost(q, wl, tabs, vlcs, best_choice(q, wl, tabs, vlcs, n)) < choice_cost(
            q,
            wl,
            tabs,
            vlcs,
            i,
        ),
    decreases n,
{
    if n > 1 {
        let b = best_choice(q, wl, tabs, vlcs, (n - 1) as nat);
        if choice_cost(q, wl, tabs, vlcs, n - 1) < choice_cost(q, wl, tabs, vlcs, b) {
            law_best_choice_is_cheapest(q, wl, tabs, vlcs, (n - 1) as nat, i);
        } else {
            law_best_choice_is_first(q, wl, tabs, vlcs, (n - 1) as nat, i);
        }
    }
}

} // verus!
