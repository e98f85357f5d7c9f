//! What a reader gets out of the bits of an ATRAC3plus frame.

use vstd::prelude::*;
use vstd::arithmetic::power2::*;
use crate::at3::sound_unit;
use crate::at3p::bitstream;
use crate::at3p::fields;
use crate::at3p::fields::BitField;
use crate::at3p::frame;
use crate::at3p::frame::FrameModel;
use crate::at3p::mdct::At3pMdctWin;
use crate::at3p::spectra;
use crate::at3p::tables;
use crate::at3p::tables::VlcElement;
use crate::bitstream::bits;

verus! {

/// The numbers of bits that a list of values of one width takes.
pub open spec fn of_width(f: Seq<BitField>, w: u8) -> bool {
    forall|i: int| 0 <= i < f.len() ==> (#[trigger] f[i]).1 == w
}

proof fn lemma_of_width(f: Seq<BitField>, w: u8)
    requires
        of_width(f, w),
    ensures
        fields::fields_bits(f).len() == w * f.len(),
    decreases f.len(),
{
    if f.len() > 0 {
        assert(f.last() == f[f.len() - 1]);
        lemma_of_width(f.drop_last(), w);
        assert(w * f.len() == w * (f.len() - 1) + w) by (nonlinear_arith);
    } else {
        assert(w * f.len() == 0) by (nonlinear_arith)
            requires
                f.len() == 0,
        ;
    }
}

/// A field is read behind the bits of the fields before it.
proof fn lemma_field_reads(f: Seq<BitField>, k: int)
    requires
        0 <= k < f.len(),
    ensures
        bits::number_at(
            fields::fields_bits(f),
            fields::fields_bits(f.take(k)).len() as int,
            f[k].1 as int,
        ) == f[k].0 as nat % pow2(f[k].1 as nat),
        fields::fields_bits(f.take(k)).len() + f[k].1 <= fields::fields_bits(f).len(),
{
    let a = f.take(k);
    let b = f.skip(k + 1);
    assert(f =~= a.push(f[k]) + b);
    fields::lemma_fields_bits_push(a, f[k]);
    fields::lemma_fields_bits_concat(a.push(f[k]), b);
    bits::lemma_number_between(
        fields::fields_bits(a),
        f[k].0 as nat,
        f[k].1 as nat,
        fields::fields_bits(b),
    );
}

/// A field of a list of one width is read at a multiple of it.
proof fn lemma_listed_reads(f: Seq<BitField>, w: u8, k: int)
    requires
        of_width(f, w),
        0 <= k < f.len(),
    ensures
        bits::number_at(fields::fields_bits(f), w * k, w as int) == f[k].0 as nat % pow2(w as nat),
        0 <= w * k,
        w * k + w <= fields::fields_bits(f).len(),
        fields::fields_bits(f).len() == w * f.len(),
{
    lemma_field_reads(f, k);
    assert(of_width(f.take(k), w));
    lemma_of_width(f.take(k), w);
    lemma_of_width(f, w);
    assert(w * k >= 0) by (nonlinear_arith)
        requires
            k >= 0,
    ;
}

/// What stands between other bits is read at its place among them.
proof fn lemma_between(a: Seq<bool>, s: Seq<bool>, b: Seq<bool>, at: int, n: int)
    requires
        0 <= at,
        0 <= n,
        at + n <= s.len(),
    ensures
        bits::number_at(a + s + b, a.len() + at, n) == bits::number_at(s, at, n),
{
    bits::lemma_number_behind(a, s, at, n);
    bits::lemma_number_before(a + s, b, a.len() + at, n);
}

proof fn lemma_channel_scales(g: FrameModel, ch: int, n: nat, i: int)
    requires
        0 <= i < n,
    ensures
        ({
            let b = fields::fields_bits(frame::sf_channel_fields(g, ch, n));
            &&& b.len() == 2 + 6 * n
            &&& bits::number_at(b, 0, 2) == 0
            &&& bits::number_at(b, 2 + 6 * i, 6) == (if ch == 0 {
                g.sf_idx[i].0
            } else {
                g.sf_idx[i].1
            }) as nat % 64
        }),
{
    lemma2_to64();
    let all = frame::sf_channel_fields(g, ch, n);
    let head = seq![(0u16, 2u8)];
    let list = all.skip(1);
    assert(all =~= head + list);
    assert(of_width(list, 6));
    lemma_listed_reads(list, 6, i);
    lemma_listed_reads(head, 2, 0);
    fields::lemma_fields_bits_concat(head, list);
    let hb = fields::fields_bits(head);
    let lb = fields::fields_bits(list);
    assert(list[i] == all[i + 1]);
    bits::lemma_number_behind(hb, lb, 6 * i, 6);
    bits::lemma_number_before(hb, lb, 0, 2);
}

/// Scale factors are read channel after channel: for each channel two bits of the mode,
/// which is 0, then six bits for each unit.
pub proof fn law_scales_read_back(g: FrameModel, ch: int, i: int)
    requires
        1 <= g.channels <= 2,
        0 <= ch < g.channels,
        0 <= i < g.num_quant_units,
        g.sf_idx.len() > 0,
    ensures
        ({
            let b = fields::fields_bits(frame::sf_idx_fields(g));
            let n = g.num_quant_units as int;
            &&& b.len() == g.channels * (2 + 6 * n)
            &&& bits::number_at(b, ch * (2 + 6 * n), 2) == 0
            &&& ch == 0 ==> bits::number_at(b, 2 + 6 * i, 6) == g.sf_idx[i].0 as nat % 64
            &&& ch == 1 ==> bits::number_at(b, 2 + 6 * n + 2 + 6 * i, 6) == g.sf_idx[i].1 as nat
                % 64
        }),
{
    let n = g.num_quant_units as nat;
    let none = Seq::<BitField>::empty();
    let c0 = frame::sf_channel_fields(g, 0, n);
    let c1 = frame::sf_channel_fields(g, 1, n);
    let b0 = fields::fields_bits(c0);
    let b1 = fields::fields_bits(c1);
    reveal_with_fuel(frame::sf_fields, 3);
    assert(none + c0 =~= c0);
    lemma_channel_scales(g, 0, n, if ch == 0 {
        i
    } else {
        0
    });
    lemma_channel_scales(g, 1, n, if ch == 1 {
        i
    } else {
        0
    });
    if g.channels == 2 {
        fields::lemma_fields_bits_concat(c0, c1);
        if ch == 0 {
            bits::lemma_number_before(b0, b1, 0, 2);
            bits::lemma_number_before(b0, b1, 2 + 6 * i, 6);
        } else {
            bits::lemma_number_behind(b0, b1, 0, 2);
            bits::lemma_number_behind(b0, b1, 2 + 6 * i, 6);
        }
    }
}

/// The bits of the parts of a frame, in their order.
#[verifier::rlimit(60)]
#[verifier::spinoff_prover]
proof fn lemma_parts(f: FrameModel, n: u32)
    ensures
        ({
            let start = bitstream::with_units(f, n);
            let g = frame::configured(start);
            let o = bits::msb_bits(0, 1) + bits::msb_bits((f.channels - 1) as nat, 2);
            let c = fields::fields_bits(frame::configure_fields(start));
            let w = fields::fields_bits(frame::word_len_fields(g));
            let s = fields::fields_bits(frame::sf_idx_fields(g));
            let q = fields::fields_bits(frame::quant_fields(g));
            &&& bitstream::frame_bits(f, n) == o + c + w + s + q + bitstream::tail_bits(f)
            &&& o.len() == 3
            &&& c.len() == 6
        }),
{
    let start = bitstream::with_units(f, n);
    let g = frame::configured(start);
    let o = bits::msb_bits(0, 1) + bits::msb_bits((f.channels - 1) as nat, 2);
    let cf = frame::configure_fields(start);
    let wf = frame::word_len_fields(g);
    let sf = frame::sf_idx_fields(g);
    let qf = frame::quant_fields(g);
    fields::lemma_fields_bits_concat(cf, wf);
    fields::lemma_fields_bits_concat(cf + wf, sf);
    fields::lemma_fields_bits_concat(cf + wf + sf, qf);
    let c = fields::fields_bits(cf);
    let w = fields::fields_bits(wf);
    let s = fields::fields_bits(sf);
    let q = fields::fields_bits(qf);
    let t = bitstream::tail_bits(f);
    assert(o + (c + w + s + q) + t =~= o + c + w + s + q + t);
    reveal_with_fuel(fields::fields_bits, 3);
}

/// The bits that the word lengths of a frame with `n` units take.
pub open spec fn word_lens_size(f: FrameModel, n: u32) -> nat {
    fields::fields_bits(
        frame::word_len_fields(frame::configured(bitstream::with_units(f, n))),
    ).len()
}

proof fn lemma_configure_reads(start: FrameModel)
    requires
        1 <= start.num_quant_units <= 32,
    ensures
        ({
            let c = fields::fields_bits(frame::configure_fields(start));
            &&& c.len() == 6
            &&& bits::number_at(c, 0, 5) == start.num_quant_units - 1
            &&& bits::number_at(c, 5, 1) == 0
        }),
{
    lemma2_to64();
    let cf = frame::configure_fields(start);
    let none = Seq::<BitField>::empty();
    lemma_field_reads(cf, 0);
    lemma_field_reads(cf, 1);
    assert(cf.take(0) =~= none);
    assert(cf.take(1) =~= none.push(cf[0]));
    assert(cf =~= none.push(cf[0]).push(cf[1]));
    fields::lemma_fields_bits_push(none, cf[0]);
    fields::lemma_fields_bits_push(none.push(cf[0]), cf[1]);
    assert(fields::fields_bits(none).len() == 0);
    assert(cf[0].0 as nat == (start.num_quant_units - 1) as nat);
    assert(cf[0].0 as nat % pow2(5) == cf[0].0 as nat);
}

/// A frame opens with a start bit, the number of channels less one in two bits, the
/// number of units less one in five and an unset mute bit.
#[verifier::rlimit(60)]
#[verifier::spinoff_prover]
pub proof fn law_opening_reads_back(f: FrameModel, n: u32)
    requires
        1 <= n <= 32,
        1 <= f.channels <= 2,
    ensures
        bits::number_at(bitstream::frame_bits(f, n), 0, 1) == 0,
        bits::number_at(bitstream::frame_bits(f, n), 1, 2) == f.channels - 1,
        bits::number_at(bitstream::frame_bits(f, n), 3, 5) == n - 1,
        bits::number_at(bitstream::frame_bits(f, n), 8, 1) == 0,
{
    lemma2_to64();
    lemma_parts(f, n);
    let start = bitstream::with_units(f, n);
    let g = frame::configured(start);
    let c = fields::fields_bits(frame::configure_fields(start));
    let w = fields::fields_bits(frame::word_len_fields(g));
    let s = fields::fields_bits(frame::sf_idx_fields(g));
    let q = fields::fields_bits(frame::quant_fields(g));
    let t = bitstream::tail_bits(f);
    lemma_configure_reads(start);
    let none = Seq::<bool>::empty();
    let m = bits::msb_bits((f.channels - 1) as nat, 2);
    let z = bits::msb_bits(0, 1);
    let rest = w + s + q + t;
    let all = bitstream::frame_bits(f, n);
    assert(all =~= z + m + c + rest);
    assert(all =~= none + z + (m + c + rest));
    assert(all =~= z + m + (c + rest));
    bits::lemma_number_between(none, 0, 1, m + c + rest);
    bits::lemma_number_between(z, (f.channels - 1) as nat, 2, c + rest);
    lemma_between(z + m, c, rest, 0, 5);
    lemma_between(z + m, c, rest, 5, 1);
}

/// A reader of a frame gets every scale factor back: behind the nine bits that open the
/// frame and the word lengths, the channels follow each other, each with two bits of the
/// mode and six bits for every unit. The group of unit `i` in channel `ch` is the scale
/// factor of just that unit in just that channel.
#[verifier::rlimit(60)]
#[verifier::spinoff_prover]
pub proof fn law_frame_scales_read_back(f: FrameModel, n: u32, ch: int, i: int)
    requires
        bitstream::main_ready(f, n),
        0 <= ch < f.channels,
        0 <= i < n,
    ensures
        ({
            let at = 9 + word_lens_size(f, n) + ch * (2 + 6 * n);
            &&& bits::number_at(bitstream::frame_bits(f, n), at, 2) == 0
            &&& bits::number_at(bitstream::frame_bits(f, n), at + 2 + 6 * i, 6)
                == f.sces[ch].scaled_blocks@[i].scale_factor_index as nat % 64
        }),
{
    let start = bitstream::with_units(f, n);
    let g = frame::configured(start);
    let o = bits::msb_bits(0, 1) + bits::msb_bits((f.channels - 1) as nat, 2);
    let c = fields::fields_bits(frame::configure_fields(start));
    let w = fields::fields_bits(frame::word_len_fields(g));
    let s = fields::fields_bits(frame::sf_idx_fields(g));
    let q = fields::fields_bits(frame::quant_fields(g));
    let t = bitstream::tail_bits(f);
    lemma_parts(f, n);
    law_scales_read_back(g, ch, i);
    assert(bitstream::frame_bits(f, n) =~= (o + c + w) + s + (q + t));
    let at = ch * (2 + 6 * n);
    assert(at == 0 || at == 2 + 6 * n) by (nonlinear_arith)
        requires
            at == ch * (2 + 6 * n),
            ch == 0 || ch == 1,
    ;
    let size = g.channels * (2 + 6 * n);
    assert(at + 2 + 6 * n <= size) by (nonlinear_arith)
        requires
            at == ch * (2 + 6 * n),
            size == g.channels * (2 + 6 * n),
            ch + 1 <= g.channels,
    ;
    assert(s.len() == size);
    lemma_between(o + c + w, s, q + t, at, 2);
    lemma_between(o + c + w, s, q + t, at + 2 + 6 * i, 6);
}

/// What has to be added to the word length of one unit of the first channel to get that
/// of the next, `i`, modulo eight.
pub open spec fn step_symbol(wl: Seq<(u8, u8)>, i: int) -> int {
    (wl[i].0 - wl[i - 1].0) % 8
}

/// What has to be added to the word length of unit `i` in the first channel to get that
/// in the second, modulo eight.
pub open spec fn pair_symbol(wl: Seq<(u8, u8)>, i: int) -> int {
    (wl[i].1 - wl[i].0) % 8
}

/// The bits of the code words of the steps to the units before `n`.
pub open spec fn steps_size(tab: Seq<VlcElement>, wl: Seq<(u8, u8)>, n: nat) -> int
    decreases n,
{
    if n <= 1 {
        0
    } else {
        steps_size(tab, wl, (n - 1) as nat) + tab[step_symbol(wl, n - 1)].len as int
    }
}

/// The bits of the code words of the differences between the channels in the units
/// before `n`.
pub open spec fn pairs_size(tab: Seq<VlcElement>, wl: Seq<(u8, u8)>, n: nat) -> int
    decreases n,
{
    if n == 0 {
        0
    } else {
        pairs_size(tab, wl, (n - 1) as nat) + tab[pair_symbol(wl, n - 1)].len as int
    }
}

/// At `at` stands the code word of a symbol.
pub open spec fn word_at(b: Seq<bool>, at: int, tab: Seq<VlcElement>, symbol: int) -> bool {
    let e = tab[symbol];
    bits::number_at(b, at, e.len as int) == e.code as u16 as nat % pow2(e.len as nat)
}

proof fn lemma_steps_size(tab: Seq<VlcElement>, wl: Seq<(u8, u8)>, n: nat, k: nat)
    requires
        1 <= k <= n,
        tab.len() == 8,
        tables::lens_wf(tab),
    ensures
        fields::fields_bits(frame::wl_words(tab, frame::wl_deltas(wl, n), 1, k as int)).len()
            == steps_size(tab, wl, k),
    decreases k,
{
    let d = frame::wl_deltas(wl, n);
    let words = frame::wl_words(tab, d, 1, k as int);
    if k > 1 {
        let r = frame::wl_words(tab, d, 1, k - 1);
        let x = tab[step_symbol(wl, k - 1)];
        lemma_steps_size(tab, wl, n, (k - 1) as nat);
        assert(0 <= x.len <= 12);
        assert(words =~= r.push((x.code as u16, x.len as u8)));
        fields::lemma_fields_bits_push(r, (x.code as u16, x.len as u8));
    } else {
        assert(words =~= Seq::<BitField>::empty());
    }
}

proof fn lemma_pairs_size(tab: Seq<VlcElement>, wl: Seq<(u8, u8)>, n: nat, k: nat)
    requires
        k <= n,
        tab.len() == 8,
        tables::lens_wf(tab),
    ensures
        fields::fields_bits(frame::wl_words(tab, frame::wl_inter_deltas(wl, n), 0, k as int)).len()
            == pairs_size(tab, wl, k),
    decreases k,
{
    let d = frame::wl_inter_deltas(wl, n);
    let words = frame::wl_words(tab, d, 0, k as int);
    if k > 0 {
        let r = frame::wl_words(tab, d, 0, k - 1);
        let x = tab[pair_symbol(wl, k - 1)];
        lemma_pairs_size(tab, wl, n, (k - 1) as nat);
        assert(0 <= x.len <= 12);
        assert(words =~= r.push((x.code as u16, x.len as u8)));
        fields::lemma_fields_bits_push(r, (x.code as u16, x.len as u8));
    } else {
        assert(words =~= Seq::<BitField>::empty());
    }
}

/// The five fields that open the word lengths of the first channel.
proof fn lemma_wl_head(idx: u16, first: u16)
    requires
        idx < 4,
    ensures
        ({
            let b = fields::fields_bits(
                seq![(3u16, 2u8), (0u16, 2u8), (0u16, 2u8), (idx, 2u8), (first, 3u8)],
            );
            &&& b.len() == 11
            &&& bits::number_at(b, 0, 2) == 3
            &&& bits::number_at(b, 2, 2) == 0
            &&& bits::number_at(b, 4, 2) == 0
            &&& bits::number_at(b, 6, 2) == idx
            &&& bits::number_at(b, 8, 3) == first as nat % 8
        }),
{
    lemma2_to64();
    let list = seq![(3u16, 2u8), (0u16, 2u8), (0u16, 2u8), (idx, 2u8)];
    let all = seq![(3u16, 2u8), (0u16, 2u8), (0u16, 2u8), (idx, 2u8), (first, 3u8)];
    assert(all =~= list.push((first, 3u8)));
    fields::lemma_fields_bits_push(list, (first, 3u8));
    let lb = fields::fields_bits(list);
    let t = bits::msb_bits(first as nat, 3);
    lemma_listed_reads(list, 2, 0);
    lemma_listed_reads(list, 2, 1);
    lemma_listed_reads(list, 2, 2);
    lemma_listed_reads(list, 2, 3);
    bits::lemma_number_before(lb, t, 0, 2);
    bits::lemma_number_before(lb, t, 2, 2);
    bits::lemma_number_before(lb, t, 4, 2);
    bits::lemma_number_before(lb, t, 6, 2);
    lemma_field_reads(all, 4);
    assert(all.take(4) =~= list);
}

proof fn lemma_wl_second_head(idx: u16)
    requires
        idx < 4,
    ensures
        ({
            let b = fields::fields_bits(seq![(1u16, 2u8), (0u16, 2u8), (idx, 2u8)]);
            &&& b.len() == 6
            &&& bits::number_at(b, 0, 2) == 1
            &&& bits::number_at(b, 2, 2) == 0
            &&& bits::number_at(b, 4, 2) == idx
        }),
{
    lemma2_to64();
    let list = seq![(1u16, 2u8), (0u16, 2u8), (idx, 2u8)];
    lemma_listed_reads(list, 2, 0);
    lemma_listed_reads(list, 2, 1);
    lemma_listed_reads(list, 2, 2);
}

/// The table that the steps of the first channel are coded with.
pub open spec fn steps_table(g: FrameModel) -> int {
    frame::wl_table(
        g.huff.word_lens@,
        frame::wl_deltas(g.word_len, g.num_quant_units as nat),
        frame::wl_spread(g.word_len, g.num_quant_units as nat),
        g.num_quant_units as nat,
    )
}

/// The table that the differences between the channels are coded with.
pub open spec fn pairs_table(g: FrameModel) -> int {
    frame::wl_table(
        g.huff.word_lens@,
        frame::wl_inter_deltas(g.word_len, g.num_quant_units as nat),
        frame::wl_inter_spread(g.word_len, g.num_quant_units as nat),
        g.num_quant_units as nat,
    )
}

#[verifier::rlimit(60)]
#[verifier::spinoff_prover]
proof fn lemma_first_word_lens(g: FrameModel, i: int)
    requires
        frame::word_len_ready(g),
        1 <= i < g.num_quant_units || i == 0,
    ensures
        ({
            let n = g.num_quant_units as nat;
            let t = steps_table(g);
            let d = frame::wl_deltas(g.word_len, n);
            let tab = g.huff.word_lens@[t]@;
            let b = fields::fields_bits(
                seq![
                    (3u16, 2u8),
                    (0u16, 2u8),
                    (0u16, 2u8),
                    (t as u16, 2u8),
                    (d[0] as u16, 3u8),
                ] + frame::wl_words(tab, d, 1, n as int),
            );
            &&& b.len() == 11 + steps_size(tab, g.word_len, n)
            &&& bits::number_at(b, 0, 2) == 3
            &&& bits::number_at(b, 2, 2) == 0
            &&& bits::number_at(b, 4, 2) == 0
            &&& bits::number_at(b, 6, 2) == t
            &&& bits::number_at(b, 8, 3) == g.word_len[0].0 as nat % 8
            &&& i > 0 ==> word_at(
                b,
                11 + steps_size(tab, g.word_len, i as nat),
                tab,
                step_symbol(g.word_len, i),
            ) && 11 + steps_size(tab, g.word_len, i as nat) + tab[step_symbol(g.word_len, i)].len
                <= b.len()
        }),
{
    let n = g.num_quant_units as nat;
    let t = steps_table(g);
    let d = frame::wl_deltas(g.word_len, n);
    assert(g.huff.word_lens@[t]@.len() == 8 && tables::lens_wf(g.huff.word_lens@[t]@));
    let tab = g.huff.word_lens@[t]@;
    let head = seq![(3u16, 2u8), (0u16, 2u8), (0u16, 2u8), (t as u16, 2u8), (d[0] as u16, 3u8)];
    let words = frame::wl_words(tab, d, 1, n as int);
    lemma_wl_head(t as u16, d[0] as u16);
    fields::lemma_fields_bits_concat(head, words);
    let hb = fields::fields_bits(head);
    let wb = fields::fields_bits(words);
    lemma_steps_size(tab, g.word_len, n, n);
    bits::lemma_number_before(hb, wb, 0, 2);
    bits::lemma_number_before(hb, wb, 2, 2);
    bits::lemma_number_before(hb, wb, 4, 2);
    bits::lemma_number_before(hb, wb, 6, 2);
    bits::lemma_number_before(hb, wb, 8, 3);
    if i > 0 {
        let e = tab[step_symbol(g.word_len, i)];
        assert(0 <= e.len <= 12);
        lemma_field_reads(words, i - 1);
        assert(words[i - 1] == (e.code as u16, e.len as u8));
        assert(words.take(i - 1) =~= frame::wl_words(tab, d, 1, i));
        lemma_steps_size(tab, g.word_len, n, i as nat);
        bits::lemma_number_behind(
            hb,
            wb,
            steps_size(tab, g.word_len, i as nat),
            e.len as int,
        );
    }
}

/// Word lengths are read back. The first channel gives two bits 3, two bits 0, two bits 0,
/// the number of a code table in two bits, the word length of the first unit in three, and
/// for each further unit the code word of what is to be added to the word length before,
/// modulo eight. The second channel gives two bits 1, two bits 0, the number of a table,
/// and for each unit the code word of what is to be added to the word length of the first
/// channel.
#[verifier::rlimit(60)]
#[verifier::spinoff_prover]
pub proof fn law_word_lens_read_back(g: FrameModel, i: int)
    requires
        frame::word_len_ready(g),
        0 <= i < g.num_quant_units,
    ensures
        ({
            let b = fields::fields_bits(frame::word_len_fields(g));
            let wl = g.word_len;
            let tab = g.huff.word_lens@[bits::number_at(b, 6, 2) as int]@;
            let at = 11 + steps_size(tab, wl, g.num_quant_units as nat);
            let tab2 = g.huff.word_lens@[bits::number_at(b, at + 4, 2) as int]@;
            &&& bits::number_at(b, 0, 2) == 3
            &&& bits::number_at(b, 2, 2) == 0
            &&& bits::number_at(b, 4, 2) == 0
            &&& bits::number_at(b, 6, 2) == steps_table(g)
            &&& bits::number_at(b, 8, 3) == wl[0].0 as nat % 8
            &&& i > 0 ==> word_at(b, 11 + steps_size(tab, wl, i as nat), tab, step_symbol(wl, i))
            &&& g.channels == 2 ==> {
                &&& bits::number_at(b, at, 2) == 1
                &&& bits::number_at(b, at + 2, 2) == 0
                &&& bits::number_at(b, at + 4, 2) == pairs_table(g)
                &&& word_at(b, at + 6 + pairs_size(tab2, wl, i as nat), tab2, pair_symbol(wl, i))
                &&& b.len() == at + 6 + pairs_size(tab2, wl, g.num_quant_units as nat)
            }
            &&& g.channels != 2 ==> b.len() == at
        }),
{
    let n = g.num_quant_units as nat;
    let wl = g.word_len;
    let t = steps_table(g);
    let d = frame::wl_deltas(wl, n);
    let tab = g.huff.word_lens@[t]@;
    assert(g.huff.word_lens@[t]@.len() == 8 && tables::lens_wf(g.huff.word_lens@[t]@));
    let first = seq![(3u16, 2u8), (0u16, 2u8), (0u16, 2u8), (t as u16, 2u8), (d[0] as u16, 3u8)]
        + frame::wl_words(tab, d, 1, n as int);
    let fb = fields::fields_bits(first);
    lemma_first_word_lens(g, i);
    lemma_steps_size(tab, wl, n, n);
    if i > 0 {
        lemma_steps_size(tab, wl, n, i as nat);
    }
    if g.channels == 2 {
        let u = pairs_table(g);
        let e = frame::wl_inter_deltas(wl, n);
        assert(g.huff.word_lens@[u]@.len() == 8 && tables::lens_wf(g.huff.word_lens@[u]@));
        let tab2 = g.huff.word_lens@[u]@;
        let head = seq![(1u16, 2u8), (0u16, 2u8), (u as u16, 2u8)];
        let words = frame::wl_words(tab2, e, 0, n as int);
        let hb = fields::fields_bits(head);
        let wb = fields::fields_bits(words);
        lemma_wl_second_head(u as u16);
        fields::lemma_fields_bits_concat(first, head);
        fields::lemma_fields_bits_concat(first + head, words);
        let b = fields::fields_bits(frame::word_len_fields(g));
        assert(b == fb + hb + wb);
        assert(b =~= fb + (hb + wb));
        bits::lemma_number_before(fb, hb + wb, 0, 2);
        bits::lemma_number_before(fb, hb + wb, 2, 2);
        bits::lemma_number_before(fb, hb + wb, 4, 2);
        bits::lemma_number_before(fb, hb + wb, 6, 2);
        bits::lemma_number_before(fb, hb + wb, 8, 3);
        if i > 0 {
            let x = tab[step_symbol(wl, i)];
            assert(0 <= x.len <= 12);
            bits::lemma_number_before(
                fb,
                hb + wb,
                11 + steps_size(tab, wl, i as nat),
                x.len as int,
            );
        }
        lemma_between(fb, hb, wb, 0, 2);
        lemma_between(fb, hb, wb, 2, 2);
        lemma_between(fb, hb, wb, 4, 2);
        let y = tab2[pair_symbol(wl, i)];
        assert(0 <= y.len <= 12);
        lemma_field_reads(words, i);
        assert(words[i] == (y.code as u16, y.len as u8));
        assert(words.take(i) =~= frame::wl_words(tab2, e, 0, i));
        lemma_pairs_size(tab2, wl, n, i as nat);
        lemma_pairs_size(tab2, wl, n, n);
        bits::lemma_number_behind(
            fb + hb,
            wb,
            pairs_size(tab2, wl, i as nat),
            y.len as int,
        );
    }
}

/// The bits of a spread are those of all steps: it is at least as large as each of them,
/// and as small as they allow.
pub proof fn law_spread_bounds_steps(wl: Seq<(u8, u8)>, n: nat, i: int)
    requires
        1 <= i < n,
    ensures
        wl[i].0 - wl[i - 1].0 <= frame::wl_spread(wl, n),
        wl[i - 1].0 - wl[i].0 <= frame::wl_spread(wl, n),
        (forall|k: int| 1 <= k < n ==> (#[trigger] wl[k]).0 == wl[k - 1].0) ==> frame::wl_spread(
            wl,
            n,
        ) == 0,
        (forall|k: int|
            1 <= k < n ==> (#[trigger] wl[k]).0 <= wl[k - 1].0 + 1 && wl[k - 1].0 <= wl[k].0 + 1)
            ==> frame::wl_spread(wl, n) <= 1,
    decreases n,
{
    let a = frame::wl_spread(wl, (n - 1) as nat);
    let c = frame::abs_diff(wl[n - 1].0 as int, wl[n - 2].0 as int);
    assert((a | c) >= a && (a | c) >= c && (a == 0 && c == 0 ==> (a | c) == 0) && (a <= 1 && c <= 1
        ==> (a | c) <= 1)) by (bit_vector);
    if n > 2 {
        law_spread_bounds_steps(wl, (n - 1) as nat, if i < n - 1 {
            i
        } else {
            1
        });
    }
}

/// Small differences take the small tables; others take the cheaper of the two large
/// ones, the first of them if they cost the same.
pub proof fn law_table_choice(
    word_lens: Seq<Vec<VlcElement>>,
    deltas: Seq<u8>,
    spread: u8,
    n: nat,
)
    ensures
        ({
            let t = frame::wl_table(word_lens, deltas, spread, n);
            &&& spread <= 1 ==> t == 0
            &&& spread == 2 ==> t == 1
            &&& spread >= 3 ==> (t == 2 || t == 3) && frame::wl_cost(word_lens[t]@, deltas, n)
                <= frame::wl_cost(word_lens[2]@, deltas, n) && frame::wl_cost(
                word_lens[t]@,
                deltas,
                n,
            ) <= frame::wl_cost(word_lens[3]@, deltas, n) && (t == 3 ==> frame::wl_cost(
                word_lens[3]@,
                deltas,
                n,
            ) < frame::wl_cost(word_lens[2]@, deltas, n))
        }),
{
}

proof fn lemma_channel_tabs(idx: Seq<(u8, u8)>, ch: int, n: nat, i: int)
    requires
        0 <= i < n,
    ensures
        ({
            let b = fields::fields_bits(spectra::channel_tab_fields(idx, ch, n));
            &&& b.len() == 4 + 3 * n
            &&& bits::number_at(b, 0, 1) == 0
            &&& bits::number_at(b, 1, 2) == 0
            &&& bits::number_at(b, 3, 1) == 0
            &&& bits::number_at(b, 4 + 3 * i, 3) == (if ch == 0 {
                idx[i].0
            } else {
                idx[i].1
            }) as nat % 8
        }),
{
    lemma2_to64();
    let all = spectra::channel_tab_fields(idx, ch, n);
    let head = seq![(0u16, 1u8), (0u16, 2u8), (0u16, 1u8)];
    let list = spectra::tab_idx_fields(idx, ch, n);
    lemma_listed_reads(list, 3, i);
    fields::lemma_fields_bits_concat(head, list);
    let hb = fields::fields_bits(head);
    let lb = fields::fields_bits(list);
    let none = Seq::<BitField>::empty();
    lemma_field_reads(head, 0);
    lemma_field_reads(head, 1);
    lemma_field_reads(head, 2);
    assert(head.take(0) =~= none);
    assert(head.take(1) =~= none.push((0u16, 1u8)));
    assert(head.take(2) =~= none.push((0u16, 1u8)).push((0u16, 2u8)));
    assert(head =~= none.push((0u16, 1u8)).push((0u16, 2u8)).push((0u16, 1u8)));
    fields::lemma_fields_bits_push(none, (0u16, 1u8));
    fields::lemma_fields_bits_push(none.push((0u16, 1u8)), (0u16, 2u8));
    fields::lemma_fields_bits_push(none.push((0u16, 1u8)).push((0u16, 2u8)), (0u16, 1u8));
    bits::lemma_number_before(hb, lb, 0, 1);
    bits::lemma_number_before(hb, lb, 1, 2);
    bits::lemma_number_before(hb, lb, 3, 1);
    bits::lemma_number_behind(hb, lb, 3 * i, 3);
}

/// Table choices are read channel after channel behind a set bit: for each channel an
/// unset bit, two bits 0, an unset bit, then three bits for each unit.
#[verifier::rlimit(60)]
#[verifier::spinoff_prover]
pub proof fn law_tables_read_back(channels: nat, idx: Seq<(u8, u8)>, n: nat, ch: int, i: int)
    requires
        1 <= channels <= 2,
        0 <= ch < channels,
        0 <= i < n,
    ensures
        ({
            let b = fields::fields_bits(spectra::code_tab_fields(channels, idx, n));
            let at: int = if ch == 0 {
                1
            } else {
                (5 + 3 * n) as int
            };
            &&& b.len() == (if channels == 1 {
                5 + 3 * n
            } else {
                9 + 6 * n
            })
            &&& bits::number_at(b, 0, 1) == 1
            &&& bits::number_at(b, at, 1) == 0
            &&& bits::number_at(b, at + 1, 2) == 0
            &&& bits::number_at(b, at + 3, 1) == 0
            &&& ch == 0 ==> bits::number_at(b, at + 4 + 3 * i, 3) == idx[i].0 as nat % 8
            &&& ch == 1 ==> bits::number_at(b, at + 4 + 3 * i, 3) == idx[i].1 as nat % 8
        }),
{
    lemma2_to64();
    reveal_with_fuel(spectra::code_tab_fields, 3);
    let full = seq![(1u16, 1u8)];
    let c0 = spectra::channel_tab_fields(idx, 0, n);
    let c1 = spectra::channel_tab_fields(idx, 1, n);
    let fb = fields::fields_bits(full);
    let b0 = fields::fields_bits(c0);
    let b1 = fields::fields_bits(c1);
    let none = Seq::<bool>::empty();
    lemma_listed_reads(full, 1, 0);
    lemma_channel_tabs(idx, 0, n, if ch == 0 {
        i
    } else {
        0
    });
    lemma_channel_tabs(idx, 1, n, if ch == 1 {
        i
    } else {
        0
    });
    fields::lemma_fields_bits_concat(full, c0);
    fields::lemma_fields_bits_concat(full + c0, c1);
    let tail = if channels == 2 {
        b1
    } else {
        none
    };
    let b = fields::fields_bits(spectra::code_tab_fields(channels, idx, n));
    assert(b =~= fb + b0 + tail);
    assert(b =~= none + fb + (b0 + tail));
    lemma_between(none, fb, b0 + tail, 0, 1);
    if ch == 0 {
        lemma_between(fb, b0, tail, 0, 1);
        lemma_between(fb, b0, tail, 1, 2);
        lemma_between(fb, b0, tail, 3, 1);
        lemma_between(fb, b0, tail, 4 + 3 * i, 3);
    } else {
        assert(b =~= fb + b0 + b1 + none);
        lemma_between(fb + b0, b1, none, 0, 1);
        lemma_between(fb + b0, b1, none, 1, 2);
        lemma_between(fb + b0, b1, none, 3, 1);
        lemma_between(fb + b0, b1, none, 4 + 3 * i, 3);
    }
}

/// The table that a unit takes is a cheapest one for its own lines, in its own channel:
/// no other of its eight choices codes them in fewer bits.
pub proof fn law_chosen_tables_cheapest(g: FrameModel, i: int, other: int)
    requires
        0 <= i < g.num_quant_units,
        i < g.spec_tab_idx.len(),
        0 <= other < 8,
    ensures
        ({
            let t = frame::chosen_tabs(g)[i];
            &&& t.0 < 8
            &&& spectra::choice_cost(
                g.sces[0].scaled_blocks@[i].mantissas@,
                g.word_len[i].0 as int,
                g.books.spectra_tabs@,
                g.huff.vlc_specs@,
                t.0 as int,
            ) <= spectra::choice_cost(
                g.sces[0].scaled_blocks@[i].mantissas@,
                g.word_len[i].0 as int,
                g.books.spectra_tabs@,
                g.huff.vlc_specs@,
                other,
            )
            &&& g.channels > 1 ==> t.1 < 8 && spectra::choice_cost(
                g.sces[1].scaled_blocks@[i].mantissas@,
                g.word_len[i].1 as int,
                g.books.spectra_tabs@,
                g.huff.vlc_specs@,
                t.1 as int,
            ) <= spectra::choice_cost(
                g.sces[1].scaled_blocks@[i].mantissas@,
                g.word_len[i].1 as int,
                g.books.spectra_tabs@,
                g.huff.vlc_specs@,
                other,
            )
        }),
{
    let tabs = g.books.spectra_tabs@;
    let vlcs = g.huff.vlc_specs@;
    let q0 = g.sces[0].scaled_blocks@[i].mantissas@;
    let q1 = g.sces[1].scaled_blocks@[i].mantissas@;
    let w0 = g.word_len[i].0 as int;
    let w1 = g.word_len[i].1 as int;
    spectra::lemma_best_choice(q0, w0, tabs, vlcs, 8);
    spectra::lemma_best_choice(q1, w1, tabs, vlcs, 8);
    spectra::law_best_choice_is_cheapest(q0, w0, tabs, vlcs, 8, other);
    spectra::law_best_choice_is_cheapest(q1, w1, tabs, vlcs, 8, other);
}

/// The window shapes of a channel are read back. An unset bit: every subband has the sine
/// window. A set and an unset bit: every one of the `n` subbands has the steep window. Two
/// set bits: one bit for each subband, set for the steep window.
pub proof fn law_windows_read_back(win: At3pMdctWin, n: nat, i: int)
    requires
        0 <= i < n,
    ensures
        ({
            let b = fields::fields_bits(frame::window_fields(win, n));
            &&& bits::number_at(b, 0, 1) <= 1
            &&& bits::number_at(b, 0, 1) == 0 <==> win.all_sine()
            &&& win.all_sine() ==> b.len() == 1
            &&& !win.all_sine() ==> {
                &&& bits::number_at(b, 1, 1) <= 1
                &&& bits::number_at(b, 1, 1) == 0 ==> b.len() == 2 && win.steep(i)
                &&& bits::number_at(b, 1, 1) == 1 ==> {
                    &&& b.len() == 2 + n
                    &&& win.steep(i) ==> bits::number_at(b, 2 + i, 1) == 1
                    &&& !win.steep(i) ==> bits::number_at(b, 2 + i, 1) == 0
                }
            }
        }),
{
    lemma2_to64();
    let all = frame::window_fields(win, n);
    lemma_listed_reads(all, 1, 0);
    if !win.all_sine() {
        lemma_listed_reads(all, 1, 1);
        if !(forall|sb: int| 0 <= sb < n ==> #[trigger] win.steep(sb)) {
            lemma_listed_reads(all, 1, 2 + i);
            assert(all[2 + i] == frame::window_list(win, n)[i]);
        }
    }
}

/// The lines of unit `qu` of channel `ch` in the code of choice `c`.
pub open spec fn unit_code(g: FrameModel, ch: int, qu: int, c: int) -> Seq<bool> {
    let wl = if ch == 0 {
        g.word_len[qu].0
    } else {
        g.word_len[qu].1
    };
    let i = wl - 1 + 7 * c;
    fields::fields_bits(
        spectra::unit_fields(
            g.sces[ch].scaled_blocks@[qu].mantissas@,
            g.books.spectra_tabs@[i],
            g.huff.vlc_specs@[i]@,
        ),
    )
}

/// The choice of unit `qu` in channel `ch`.
pub open spec fn choice_of(g: FrameModel, ch: int, qu: int) -> int {
    let t = frame::chosen_tabs(g)[qu];
    if ch == 0 {
        t.0 as int
    } else {
        t.1 as int
    }
}

/// The bits of the first `n` units of a channel, each in the code of its choice.
pub open spec fn units_size(g: FrameModel, ch: int, n: nat) -> int
    decreases n,
{
    if n == 0 {
        0
    } else {
        units_size(g, ch, (n - 1) as nat) + unit_code(g, ch, n - 1, choice_of(g, ch, n - 1)).len()
    }
}

proof fn lemma_unit_code(g: FrameModel, ch: int, qu: int)
    requires
        0 <= ch < g.channels <= 2,
        0 <= qu < g.num_quant_units <= g.spec_tab_idx.len(),
    ensures
        fields::fields_bits(frame::qu_fields(g, ch, qu)) == unit_code(
            g,
            ch,
            qu,
            choice_of(g, ch, qu),
        ),
{
    let wl = frame::unit_word_len(g, ch, qu);
    spectra::lemma_best_choice(
        frame::unit_lines(g, ch, qu),
        wl,
        g.books.spectra_tabs@,
        g.huff.vlc_specs@,
        8,
    );
}

proof fn lemma_units_read(g: FrameModel, ch: int, n: nat, qu: int)
    requires
        0 <= ch < g.channels <= 2,
        n <= g.num_quant_units <= g.spec_tab_idx.len(),
    ensures
        fields::fields_bits(frame::qus_fields(g, ch, n)).len() == units_size(g, ch, n),
        0 <= qu < n ==> {
            let b = fields::fields_bits(frame::qus_fields(g, ch, n));
            let at = units_size(g, ch, qu as nat);
            let code = unit_code(g, ch, qu, choice_of(g, ch, qu));
            &&& 0 <= at
            &&& at + code.len() <= b.len()
            &&& b.subrange(at, at + code.len()) == code
        },
    decreases n,
{
    if n > 0 {
        let r = frame::qus_fields(g, ch, (n - 1) as nat);
        let x = frame::qu_fields(g, ch, n - 1);
        let rb = fields::fields_bits(r);
        let xb = fields::fields_bits(x);
        lemma_units_read(g, ch, (n - 1) as nat, qu);
        lemma_unit_code(g, ch, n - 1);
        fields::lemma_fields_bits_concat(r, x);
        let b = fields::fields_bits(frame::qus_fields(g, ch, n));
        assert(b == rb + xb);
        if 0 <= qu < n - 1 {
            let at = units_size(g, ch, qu as nat);
            let code = unit_code(g, ch, qu, choice_of(g, ch, qu));
            assert(b.subrange(at, at + code.len()) =~= rb.subrange(at, at + code.len()));
        } else if qu == n - 1 {
            assert(b.subrange(rb.len() as int, b.len() as int) =~= xb);
        }
    }
}

/// The spectrum of one channel: its units, then its power groups.
pub open spec fn channel_spectrum(g: FrameModel, ch: int) -> Seq<bool> {
    fields::fields_bits(
        frame::qus_fields(g, ch, g.num_quant_units as nat) + frame::powgrp_fields(
            frame::num_powgrps(g),
        ),
    )
}

/// In the spectrum of a channel the units stand in their order, each with its own lines in
/// the code of its own choice; behind them are four bits 15 for every power group.
#[verifier::rlimit(60)]
#[verifier::spinoff_prover]
pub proof fn law_channel_spectrum_reads_back(g: FrameModel, ch: int, qu: int, k: int)
    requires
        0 <= ch < g.channels <= 2,
        0 <= qu < g.num_quant_units <= g.spec_tab_idx.len(),
    ensures
        ({
            let b = channel_spectrum(g, ch);
            let n = g.num_quant_units as nat;
            let at = units_size(g, ch, qu as nat);
            let code = unit_code(g, ch, qu, choice_of(g, ch, qu));
            &&& b.len() == units_size(g, ch, n) + 4 * frame::num_powgrps(g)
            &&& 0 <= at
            &&& at + code.len() <= units_size(g, ch, n)
            &&& b.subrange(at, at + code.len()) == code
            &&& 0 <= k < frame::num_powgrps(g) ==> bits::number_at(b, units_size(g, ch, n) + 4 * k, 4)
                == 15
        }),
{
    lemma2_to64();
    let n = g.num_quant_units as nat;
    let groups = frame::powgrp_fields(frame::num_powgrps(g));
    let units = frame::qus_fields(g, ch, n);
    let gb = fields::fields_bits(groups);
    let ub = fields::fields_bits(units);
    lemma_units_read(g, ch, n, qu);
    assert(of_width(groups, 4));
    lemma_of_width(groups, 4);
    fields::lemma_fields_bits_concat(units, groups);
    let code = unit_code(g, ch, qu, choice_of(g, ch, qu));
    let at = units_size(g, ch, qu as nat);
    assert((ub + gb).subrange(at, at + code.len()) =~= ub.subrange(at, at + code.len()));
    if 0 <= k < frame::num_powgrps(g) {
        lemma_listed_reads(groups, 4, k);
        bits::lemma_number_behind(ub, gb, 4 * k, 4);
    }
}

/// Spectra are read channel after channel.
pub proof fn law_spectra_read_back(g: FrameModel)
    requires
        1 <= g.channels <= 2,
    ensures
        g.channels == 1 ==> fields::fields_bits(frame::spectra_fields(g, 1)) == channel_spectrum(
            g,
            0,
        ),
        g.channels == 2 ==> fields::fields_bits(frame::spectra_fields(g, 2)) == channel_spectrum(
            g,
            0,
        ) + channel_spectrum(g, 1),
{
    reveal_with_fuel(frame::spectra_fields, 3);
    let n = g.num_quant_units as nat;
    let groups = frame::powgrp_fields(frame::num_powgrps(g));
    let q0 = frame::qus_fields(g, 0, n);
    let q1 = frame::qus_fields(g, 1, n);
    let none = Seq::<BitField>::empty();
    assert(none + q0 =~= q0);
    assert(q0 + groups + q1 + groups =~= (q0 + groups) + (q1 + groups));
    fields::lemma_fields_bits_concat(q0 + groups, q1 + groups);
}

/// What precedes the table choices in a frame, the choices, the spectra and the rest.
#[verifier::rlimit(60)]
#[verifier::spinoff_prover]
proof fn lemma_unit_parts(f: FrameModel, n: u32) -> (pre: Seq<bool>)
    requires
        bitstream::main_ready(f, n),
    ensures
        ({
            let g = frame::configured(bitstream::with_units(f, n));
            let tb = fields::fields_bits(
                spectra::code_tab_fields(g.channels as nat, frame::chosen_tabs(g), n as nat),
            );
            let ub = fields::fields_bits(frame::spectra_fields(g, g.channels as nat));
            &&& bitstream::frame_bits(f, n) == pre + tb + (ub + bitstream::tail_bits(f))
            &&& pre.len() == 9 + word_lens_size(f, n) + f.channels * (2 + 6 * n)
        }),
{
    let start = bitstream::with_units(f, n);
    let g = frame::configured(start);
    let o = bits::msb_bits(0, 1) + bits::msb_bits((f.channels - 1) as nat, 2);
    let c = fields::fields_bits(frame::configure_fields(start));
    let w = fields::fields_bits(frame::word_len_fields(g));
    let s = fields::fields_bits(frame::sf_idx_fields(g));
    let t = bitstream::tail_bits(f);
    lemma_parts(f, n);
    law_scales_read_back(g, 0, 0);
    let tf = spectra::code_tab_fields(g.channels as nat, frame::chosen_tabs(g), n as nat);
    let uf = frame::spectra_fields(g, g.channels as nat);
    let tb = fields::fields_bits(tf);
    let ub = fields::fields_bits(uf);
    fields::lemma_fields_bits_concat(tf, uf);
    let pre = o + c + w + s;
    assert(bitstream::frame_bits(f, n) =~= pre + tb + (ub + t));
    pre
}

/// Where the table choices of a frame start.
pub open spec fn tables_start(f: FrameModel, n: u32) -> int {
    9 + word_lens_size(f, n) + f.channels * (2 + 6 * n)
}

/// Where the table choices of channel `ch` start, behind those of the channel before.
pub open spec fn channel_tables_start(f: FrameModel, n: u32, ch: int) -> int {
    tables_start(f, n) + (if ch == 0 {
        1
    } else {
        5 + 3 * n
    })
}

/// Where the spectrum of channel `ch` starts.
pub open spec fn spectrum_start(f: FrameModel, n: u32, ch: int) -> int {
    let g = frame::configured(bitstream::with_units(f, n));
    tables_start(f, n) + (if f.channels == 1 {
        5 + 3 * n
    } else {
        9 + 6 * n
    }) + (if ch == 0 {
        0
    } else {
        units_size(g, 0, n as nat) + 4 * frame::num_powgrps(g)
    })
}

/// A reader of a frame finds the choice of every unit of every channel behind the scale
/// factors.
#[verifier::rlimit(60)]
#[verifier::spinoff_prover]
pub proof fn law_frame_tables_read_back(f: FrameModel, n: u32, ch: int, qu: int)
    requires
        bitstream::main_ready(f, n),
        0 <= ch < f.channels,
        0 <= qu < n,
    ensures
        ({
            let g = frame::configured(bitstream::with_units(f, n));
            let b = bitstream::frame_bits(f, n);
            &&& bits::number_at(b, tables_start(f, n), 1) == 1
            &&& bits::number_at(b, channel_tables_start(f, n, ch) + 4 + 3 * qu, 3) == choice_of(
                g,
                ch,
                qu,
            )
        }),
{
    let g = frame::configured(bitstream::with_units(f, n));
    let idx = frame::chosen_tabs(g);
    let pre = lemma_unit_parts(f, n);
    let tb = fields::fields_bits(spectra::code_tab_fields(g.channels as nat, idx, n as nat));
    let rest = fields::fields_bits(frame::spectra_fields(g, g.channels as nat))
        + bitstream::tail_bits(f);
    law_tables_read_back(g.channels as nat, idx, n as nat, ch, qu);
    law_chosen_tables_cheapest(g, qu, 0);
    lemma_between(pre, tb, rest, 0, 1);
    lemma_between(
        pre,
        tb,
        rest,
        (if ch == 0 {
            1
        } else {
            5 + 3 * n
        }) + 4 + 3 * qu,
        3,
    );
}

/// A reader of a frame finds the spectrum of every unit of every channel behind the
/// choices, in the code of its choice.
#[verifier::rlimit(60)]
#[verifier::spinoff_prover]
pub proof fn law_frame_units_read_back(f: FrameModel, n: u32, ch: int, qu: int)
    requires
        bitstream::main_ready(f, n),
        0 <= ch < f.channels,
        0 <= qu < n,
    ensures
        ({
            let g = frame::configured(bitstream::with_units(f, n));
            let b = bitstream::frame_bits(f, n);
            let at = spectrum_start(f, n, ch) + units_size(g, ch, qu as nat);
            let code = unit_code(g, ch, qu, choice_of(g, ch, qu));
            &&& 0 <= at
            &&& at + code.len() <= b.len()
            &&& b.subrange(at, at + code.len()) == code
        }),
{
    let g = frame::configured(bitstream::with_units(f, n));
    let idx = frame::chosen_tabs(g);
    let pre = lemma_unit_parts(f, n);
    let tb = fields::fields_bits(spectra::code_tab_fields(g.channels as nat, idx, n as nat));
    let ub = fields::fields_bits(frame::spectra_fields(g, g.channels as nat));
    let t = bitstream::tail_bits(f);
    law_tables_read_back(g.channels as nat, idx, n as nat, ch, qu);
    law_spectra_read_back(g);
    law_channel_spectrum_reads_back(g, 0, if ch == 0 {
        qu
    } else {
        0
    }, 0);
    if g.channels == 2 {
        law_channel_spectrum_reads_back(g, 1, if ch == 1 {
            qu
        } else {
            0
        }, 0);
    }
    let code = unit_code(g, ch, qu, choice_of(g, ch, qu));
    let unit = units_size(g, ch, qu as nat);
    let before = if ch == 0 {
        0
    } else {
        units_size(g, 0, n as nat) + 4 * frame::num_powgrps(g)
    };
    let own = before + unit;
    assert(ub.subrange(own, own + code.len()) =~= channel_spectrum(g, ch).subrange(
        unit,
        unit + code.len(),
    ));
    let at = pre.len() + tb.len() + own;
    assert((pre + tb + (ub + t)).subrange(at, at + code.len()) =~= ub.subrange(
        own,
        own + code.len(),
    ));
    assert(at == spectrum_start(f, n, ch) + units_size(g, ch, qu as nat));
}

/// The word lengths of a frame stand behind the nine bits that open it, and its tail ends it.
#[verifier::rlimit(60)]
#[verifier::spinoff_prover]
pub proof fn law_frame_ends_read_back(f: FrameModel, n: u32)
    ensures
        ({
            let b = bitstream::frame_bits(f, n);
            let g = frame::configured(bitstream::with_units(f, n));
            let w = fields::fields_bits(frame::word_len_fields(g));
            let t = bitstream::tail_bits(f);
            &&& 9 + w.len() + t.len() <= b.len()
            &&& b.subrange(9, (9 + w.len()) as int) == w
            &&& b.skip(b.len() - t.len()) == t
        }),
{
    lemma_parts(f, n);
    let start = bitstream::with_units(f, n);
    let g = frame::configured(start);
    let o = bits::msb_bits(0, 1) + bits::msb_bits((f.channels - 1) as nat, 2);
    let c = fields::fields_bits(frame::configure_fields(start));
    let w = fields::fields_bits(frame::word_len_fields(g));
    let s = fields::fields_bits(frame::sf_idx_fields(g));
    let q = fields::fields_bits(frame::quant_fields(g));
    let t = bitstream::tail_bits(f);
    lemma_ends(o + c, w, s + q, t);
    assert(bitstream::frame_bits(f, n) =~= (o + c) + w + (s + q) + t);
}

proof fn lemma_ends(a: Seq<bool>, w: Seq<bool>, m: Seq<bool>, t: Seq<bool>)
    ensures
        (a + w + m + t).subrange(a.len() as int, (a.len() + w.len()) as int) == w,
        (a + w + m + t).skip((a.len() + w.len() + m.len()) as int) == t,
{
    assert((a + w + m + t).subrange(a.len() as int, (a.len() + w.len()) as int) =~= w);
    assert((a + w + m + t).skip((a.len() + w.len() + m.len()) as int) =~= t);
}

/// The bytes of a frame hold its bits from the first on, and behind them only zeros.
pub proof fn law_bytes_hold_frame(f: FrameModel, n: u32, frame_sz: int, i: int)
    requires
        0 <= frame_sz,
        bitstream::frame_bits(f, n).len() <= 8 * frame_sz,
        0 <= i < 8 * frame_sz,
    ensures
        ({
            let b = bits::bytes_bits(bitstream::frame_bytes(f, n, frame_sz));
            let all = bitstream::frame_bits(f, n);
            &&& bitstream::frame_bytes(f, n, frame_sz).len() == frame_sz
            &&& i < all.len() ==> b[i] == all[i]
            &&& i >= all.len() ==> !b[i]
        }),
{
    let all = bitstream::frame_bits(f, n);
    lemma_bytes_hold(all, frame_sz, i);
}

proof fn lemma_bytes_hold(all: Seq<bool>, frame_sz: int, i: int)
    requires
        all.len() <= 8 * frame_sz,
        0 <= i < 8 * frame_sz,
    ensures
        ({
            let r = sound_unit::resized(bits::pack(all), frame_sz);
            &&& r.len() == frame_sz
            &&& i < all.len() ==> bits::bytes_bits(r)[i] == all[i]
            &&& i >= all.len() ==> !bits::bytes_bits(r)[i]
        }),
{
    let p = bits::pack(all);
    let r = sound_unit::resized(p, frame_sz);
    bits::lemma_bytes_bits_pack(all);
    let pad = bits::padded(all);
    if i < pad.len() {
        assert(i / 8 < p.len());
        assert(r[i / 8] == p[i / 8]);
        assert(bits::bytes_bits(p)[i] == pad[i]);
        assert(bits::bytes_bits(r)[i] == bits::bytes_bits(p)[i]);
    } else {
        assert(r[i / 8] == 0);
        lemma_zero_bits(i % 8);
    }
}

proof fn lemma_zero_bits(k: int)
    requires
        0 <= k < 8,
    ensures
        !bits::msb_bits(0, 8)[k],
{
    lemma_pow2_pos((8 - 1 - k) as nat);
    vstd::arithmetic::div_mod::lemma_div_of0(pow2((8 - 1 - k) as nat) as int);
}

/// The bits of the spread between the channels are those of all differences.
pub proof fn law_spread_bounds_pairs(wl: Seq<(u8, u8)>, n: nat, i: int)
    requires
        0 <= i < n,
    ensures
        wl[i].1 - wl[i].0 <= frame::wl_inter_spread(wl, n),
        wl[i].0 - wl[i].1 <= frame::wl_inter_spread(wl, n),
        (forall|k: int| 0 <= k < n ==> (#[trigger] wl[k]).0 == wl[k].1) ==> frame::wl_inter_spread(
            wl,
            n,
        ) == 0,
    decreases n,
{
    if n > 1 {
        let a = frame::wl_inter_spread(wl, (n - 1) as nat);
        let c = frame::abs_diff(wl[n - 1].1 as int, wl[n - 1].0 as int);
        assert((a | c) >= a && (a | c) >= c && (a == 0 && c == 0 ==> (a | c) == 0)) by (bit_vector);
        law_spread_bounds_pairs(wl, (n - 1) as nat, if i < n - 1 {
            i
        } else {
            0
        });
    }
}

/// The subbands that a frame has windows for reach up to that of its last unit, and its
/// power groups are those of that subband.
pub proof fn law_last_unit_decides(f: FrameModel, g: FrameModel)
    requires
        f.num_quant_units >= 1,
        g.num_quant_units >= 1,
        f.books == g.books,
        f.books.qu_to_subband@[f.num_quant_units - 1] <= g.books.qu_to_subband@[g.num_quant_units - 1],
    ensures
        frame::num_subbands(f) == f.books.qu_to_subband@[f.num_quant_units - 1] + 1,
        frame::num_subbands(f) <= frame::num_subbands(g),
        frame::num_powgrps(f) == f.books.subband_to_num_powgrps@[frame::num_subbands(f) - 1],
{
}

} // verus!
