//! Packing of the frequencies of the waves of a subband.

use vstd::prelude::*;
use vstd::arithmetic::power2::*;
use crate::at3p::gha::WaveParam;
use crate::util;
use crate::util::get_first_set_bit;

verus! {

#[derive(Debug, Clone, Copy, PartialEq, Eq, Structural)]
pub enum TonePackOrder {
    Asc,
    Desc,
}

#[derive(Debug, Clone, Copy, PartialEq, Eq, Structural)]
pub struct TonePackEntry {
    pub code: u16,
    pub bits: u16,
}

#[derive(Debug, Clone)]
pub struct TonePackResult {
    pub data: Vec<TonePackEntry>,
    pub used_bits: i32,
    pub order: TonePackOrder,
}

/// The ten bits of a frequency.
pub open spec fn freq(w: WaveParam) -> int {
    w.freq_index as int % 1024
}

/// The bits of a frequency that is known to be at least `prev`: ten below 512,
/// then as many as the distance from `prev` to the top needs.
pub open spec fn asc_width(prev: int) -> nat {
    if prev < 512 {
        10
    } else {
        util::highest_bit((1023 - prev) as nat) + 1
    }
}

/// The bits of a frequency that is known to be at most `prev`.
pub open spec fn desc_width(prev: int) -> nat {
    util::highest_bit(prev as nat) + 1
}

/// Entry `i` in ascending order. A frequency of less than ten bits is counted
/// from the lowest value that ends at 1023.
pub open spec fn asc_entry(p: Seq<WaveParam>, i: int) -> TonePackEntry {
    if i == 0 {
        TonePackEntry { code: freq(p[0]) as u16, bits: 10 }
    } else {
        let b = asc_width(freq(p[i - 1]));
        TonePackEntry { code: (freq(p[i]) - (1024 - pow2(b))) as u16, bits: b as u16 }
    }
}

/// Entry `i` in descending order.
pub open spec fn desc_entry(p: Seq<WaveParam>, i: int) -> TonePackEntry {
    let n = p.len();
    if i == 0 {
        TonePackEntry { code: freq(p[n - 1]) as u16, bits: 10 }
    } else {
        TonePackEntry {
            code: freq(p[n - 1 - i]) as u16,
            bits: desc_width(freq(p[n - i])) as u16,
        }
    }
}

pub open spec fn asc_entries(p: Seq<WaveParam>) -> Seq<TonePackEntry> {
    Seq::new(p.len(), |i: int| asc_entry(p, i))
}

pub open spec fn desc_entries(p: Seq<WaveParam>) -> Seq<TonePackEntry> {
    Seq::new(p.len(), |i: int| desc_entry(p, i))
}

/// The bits of the first `n` entries.
pub open spec fn entries_bits(e: Seq<TonePackEntry>, n: nat) -> nat
    decreases n,
{
    if n == 0 {
        0
    } else {
        entries_bits(e, (n - 1) as nat) + e[n - 1].bits as nat
    }
}

/// Ascending order is taken for a single wave and where it needs fewer bits.
pub open spec fn pack_order(p: Seq<WaveParam>) -> TonePackOrder {
    if p.len() == 1 || entries_bits(asc_entries(p), p.len()) < entries_bits(
        desc_entries(p),
        p.len(),
    ) {
        TonePackOrder::Asc
    } else {
        TonePackOrder::Desc
    }
}

/// The packed frequencies.
pub open spec fn packed(p: Seq<WaveParam>) -> Seq<TonePackEntry> {
    if pack_order(p) == TonePackOrder::Asc {
        asc_entries(p)
    } else {
        desc_entries(p)
    }
}

proof fn lemma_widths(prev: int)
    requires
        0 <= prev < 1024,
    ensures
        1 <= asc_width(prev) <= 10,
        1 <= desc_width(prev) <= 10,
        pow2(asc_width(prev)) <= 1024,
        prev >= 512 ==> 1023 - prev < pow2(asc_width(prev)),
        prev < pow2(desc_width(prev)),
{
    lemma2_to64();
    if prev >= 512 && prev < 1023 {
        util::lemma_highest_bit((1023 - prev) as nat);
        let h = util::highest_bit((1023 - prev) as nat);
        if h >= 9 {
            if h > 9 {
                lemma_pow2_strictly_increases(9, h);
            }
        }
        if h + 1 < 10 {
            lemma_pow2_strictly_increases(h + 1, 10);
        }
    }
    if prev > 0 {
        util::lemma_highest_bit(prev as nat);
        let h = util::highest_bit(prev as nat);
        if h >= 10 {
            if h > 10 {
                lemma_pow2_strictly_increases(10, h);
            }
        }
    }
}

pub proof fn lemma_entries_width(p: Seq<WaveParam>)
    ensures
        forall|i: int| 0 <= i < p.len() ==> 1 <= (#[trigger] asc_entries(p)[i]).bits <= 10,
        forall|i: int| 0 <= i < p.len() ==> 1 <= (#[trigger] desc_entries(p)[i]).bits <= 10,
{
    assert forall|i: int| 0 <= i < p.len() implies 1 <= (#[trigger] asc_entries(p)[i]).bits
        <= 10 by {
        if i > 0 {
            lemma_widths(freq(p[i - 1]));
        }
    }
    assert forall|i: int| 0 <= i < p.len() implies 1 <= (#[trigger] desc_entries(p)[i]).bits
        <= 10 by {
        if i > 0 {
            lemma_widths(freq(p[p.len() - i]));
        }
    }
}

fn masked_freq(w: &WaveParam) -> (f: u16)
    ensures
        f == freq(*w),
        f < 1024,
{
    (w.freq_index % 1024) as u16
}

fn shift_one(b: u16) -> (r: i32)
    requires
        b <= 10,
    ensures
        r == pow2(b as nat),
        1 <= r <= 1024,
{
    let mut r: i32 = 1;
    let mut i: u16 = 0;
    proof {
        lemma2_to64();
    }
    while i < b
        invariant
            i <= b <= 10,
            r == pow2(i as nat),
            1 <= r <= 1024,
        decreases b - i,
    {
        proof {
            lemma_pow2_unfold((i + 1) as nat);
            lemma2_to64();
            if i + 1 < 10 {
                lemma_pow2_strictly_increases((i + 1) as nat, 10);
            }
        }
        r = r * 2;
        i += 1;
    }
    r
}

fn pack_asc(param: &[WaveParam]) -> (r: (Vec<TonePackEntry>, i32))
    requires
        1 <= param@.len() <= 0x0CCC_CCCC,
    ensures
        r.0@ == asc_entries(param@),
        r.1 == entries_bits(asc_entries(param@), param@.len()),
{
    let ghost all = asc_entries(param@);
    let mut res: Vec<TonePackEntry> = Vec::new();
    let mut prev: u16 = masked_freq(&param[0]);
    res.push(TonePackEntry { code: prev, bits: 10 });
    let mut bits: i32 = 10;
    let mut i: usize = 1;
    assert(res@ =~= all.take(1));
    assert(entries_bits(all, 1) == 10) by {
        reveal_with_fuel(entries_bits, 2);
    }
    while i < param.len()
        invariant
            1 <= i <= param@.len(),
            param@.len() <= 0x0CCC_CCCC,
            all == asc_entries(param@),
            res@ == all.take(i as int),
            bits == entries_bits(all, i as nat),
            bits <= 10 * i,
            prev == freq(param@[i - 1]),
            prev < 1024,
        decreases param@.len() - i,
    {
        let cur: u16 = masked_freq(&param[i]);
        proof {
            lemma_widths(prev as int);
            lemma2_to64();
        }
        let b: u16 = if prev < 512 {
            10
        } else {
            get_first_set_bit(1023 - prev as u32) + 1
        };
        let code: i32 = cur as i32 - (1024 - shift_one(b));
        res.push(
            TonePackEntry {
                code:
                    #[verifier::truncate]
                    (code as u16),
                bits: b,
            },
        );
        bits += b as i32;
        assert(res@ =~= all.take(i + 1));
        prev = cur;
        i += 1;
    }
    assert(res@ =~= all);
    (res, bits)
}

fn pack_desc(param: &[WaveParam]) -> (r: (Vec<TonePackEntry>, i32))
    requires
        1 <= param@.len() <= 0x0CCC_CCCC,
    ensures
        r.0@ == desc_entries(param@),
        r.1 == entries_bits(desc_entries(param@), param@.len()),
{
    let ghost all = desc_entries(param@);
    let n: usize = param.len();
    let mut res: Vec<TonePackEntry> = Vec::new();
    let mut prev: u16 = masked_freq(&param[n - 1]);
    res.push(TonePackEntry { code: prev, bits: 10 });
    let mut bits: i32 = 10;
    let mut i: usize = 1;
    assert(res@ =~= all.take(1));
    assert(entries_bits(all, 1) == 10) by {
        reveal_with_fuel(entries_bits, 2);
    }
    while i < n
        invariant
            1 <= i <= n,
            n == param@.len(),
            n <= 0x0CCC_CCCC,
            all == desc_entries(param@),
            res@ == all.take(i as int),
            bits == entries_bits(all, i as nat),
            bits <= 10 * i,
            prev == freq(param@[n - i]),
            prev < 1024,
        decreases n - i,
    {
        let cur: u16 = masked_freq(&param[n - 1 - i]);
        proof {
            lemma_widths(prev as int);
        }
        let b: u16 = get_first_set_bit(prev as u32) + 1;
        res.push(TonePackEntry { code: cur, bits: b });
        bits += b as i32;
        assert(res@ =~= all.take(i + 1));
        prev = cur;
        i += 1;
    }
    assert(res@ =~= all);
    (res, bits)
}

/// Packs the frequencies of the waves of a subband in the cheaper order.
pub fn create_freq_bit_pack(param: &[WaveParam]) -> (r: TonePackResult)
    requires
        1 <= param@.len() <= 0x0CCC_CCCC,
    ensures
        r.data@ == packed(param@),
        r.used_bits == entries_bits(packed(param@), param@.len()),
        r.order == pack_order(param@),
{
    let (asc, asc_bits): (Vec<TonePackEntry>, i32) = pack_asc(param);
    let (desc, desc_bits): (Vec<TonePackEntry>, i32) = pack_desc(param);
    if param.len() == 1 || asc_bits < desc_bits {
        TonePackResult { data: asc, used_bits: asc_bits, order: TonePackOrder::Asc }
    } else {
        TonePackResult { data: desc, used_bits: desc_bits, order: TonePackOrder::Desc }
    }
}

/// For waves in ascending order of frequency every code fits its width in both
/// orders, and gives the frequency back.
pub proof fn law_freq_pack_decodes(p: Seq<WaveParam>, i: int)
    requires
        forall|a: int, b: int| 0 <= a <= b < p.len() ==> freq(p[a]) <= freq(p[b]),
        0 < i < p.len(),
    ensures
        ({
            let e = asc_entries(p)[i];
            &&& e.bits == asc_width(freq(p[i - 1]))
            &&& e.code < pow2(e.bits as nat)
            &&& e.code + (1024 - pow2(e.bits as nat)) == freq(p[i])
        }),
        ({
            let e = desc_entries(p)[i];
            &&& e.bits == desc_width(freq(p[p.len() - i]))
            &&& e.code < pow2(e.bits as nat)
            &&& e.code == freq(p[p.len() - 1 - i])
        }),
{
    lemma2_to64();
    lemma_widths(freq(p[i - 1]));
    lemma_widths(freq(p[p.len() - i]));
    assert(freq(p[i - 1]) <= freq(p[i]));
    assert(freq(p[p.len() - 1 - i]) <= freq(p[p.len() - i]));
}

/// The width of a frequency is the least that tells it from all others that can follow
/// one of `prev`: downwards the frequencies up to `prev`, upwards those from `prev` on, but
/// ten bits where `prev` lies in the lower half.
pub proof fn law_widths_are_least(prev: int)
    requires
        0 <= prev < 1024,
    ensures
        prev < 512 ==> asc_width(prev) == 10,
        512 <= prev < 1023 ==> pow2((asc_width(prev) - 1) as nat) <= 1023 - prev < pow2(
            asc_width(prev),
        ),
        prev == 1023 ==> asc_width(prev) == 1,
        prev > 0 ==> pow2((desc_width(prev) - 1) as nat) <= prev < pow2(desc_width(prev)),
        prev == 0 ==> desc_width(prev) == 1,
{
    if 512 <= prev < 1023 {
        util::lemma_highest_bit((1023 - prev) as nat);
    }
    if prev > 0 {
        util::lemma_highest_bit(prev as nat);
    }
}

/// Frequencies are packed in the cheaper order: a single wave in ascending order, else in
/// ascending order just where that takes fewer bits. Whatever the order, each wave has its
/// own entry, and the first one in that order takes ten bits.
pub proof fn law_cheaper_order(p: Seq<WaveParam>)
    requires
        p.len() > 0,
    ensures
        packed(p).len() == p.len(),
        packed(p)[0].bits == 10,
        p.len() == 1 ==> packed(p) == asc_entries(p),
        p.len() > 1 ==> entries_bits(packed(p), p.len()) <= entries_bits(asc_entries(p), p.len()),
        p.len() > 1 ==> entries_bits(packed(p), p.len()) <= entries_bits(desc_entries(p), p.len()),
        pack_order(p) == TonePackOrder::Asc ==> packed(p)[0].code == p[0].freq_index as int % 1024,
        pack_order(p) == TonePackOrder::Desc ==> packed(p)[0].code == p.last().freq_index as int
            % 1024,
        pack_order(p) == TonePackOrder::Asc ==> packed(p) == asc_entries(p),
        pack_order(p) == TonePackOrder::Desc ==> packed(p) == desc_entries(p),
        p.len() > 1 && pack_order(p) == TonePackOrder::Asc ==> entries_bits(asc_entries(p), p.len())
            < entries_bits(desc_entries(p), p.len()),
{
}

} // verus!
