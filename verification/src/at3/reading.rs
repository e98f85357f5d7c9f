//! What a reader gets out of the bits of an ATRAC3 sound unit.

use vstd::prelude::*;
use vstd::arithmetic::power2::*;
use crate::at3::bitstream;
use crate::at3::bitstream::{Allocation, ScaledBlock, SingleChannelElement, TonalBlock};
use crate::at3::coding;
use crate::at3::data::ContainerParams;
use crate::at3::sound_unit;
use crate::bitstream::bits;
use crate::dsp::gain::GainPoint;

verus! {

/// How many of the first `n` blocks have precision.
pub open spec fn coded_before(precision: Seq<u32>, n: nat) -> nat
    decreases n,
{
    if n == 0 {
        0
    } else {
        coded_before(precision, (n - 1) as nat) + (if precision[n - 1] == 0 {
            0nat
        } else {
            1
        })
    }
}

/// The code of the mantissas that a block has at its precision: of constant length in
/// mode 1, else of variable length.
pub open spec fn block_code(mode: int, block: ScaledBlock, p: int) -> Seq<bool> {
    if mode == 1 {
        coding::clc_bits(p, block.at(p))
    } else {
        coding::vlc_bits(p, block.at(p))
    }
}

/// The bits of the codes of the first `n` blocks.
pub open spec fn codes_len(
    blocks: Seq<ScaledBlock>,
    precision: Seq<u32>,
    mode: int,
    n: nat,
) -> nat
    decreases n,
{
    if n == 0 {
        0
    } else {
        codes_len(blocks, precision, mode, (n - 1) as nat) + (if precision[n - 1] == 0 {
            0nat
        } else {
            block_code(mode, blocks[n - 1], precision[n - 1] as int).len()
        })
    }
}

proof fn lemma_coded_mono(precision: Seq<u32>, m: nat, n: nat)
    requires
        m <= n,
    ensures
        coded_before(precision, m) <= coded_before(precision, n),
    decreases n,
{
    if m < n {
        lemma_coded_mono(precision, m, (n - 1) as nat);
    }
}

proof fn lemma_precision_reads(precision: Seq<u32>, n: nat, i: int)
    requires
        0 <= i < n <= precision.len(),
    ensures
        bitstream::precision_bits(precision, n).len() == 3 * n,
        bits::number_at(bitstream::precision_bits(precision, n), 3 * i, 3) == precision[i] as nat
            % 8,
    decreases n,
{
    lemma2_to64();
    let head = bitstream::precision_bits(precision, (n - 1) as nat);
    let last = bits::msb_bits(precision[n - 1] as nat, 3);
    if n > 1 {
        lemma_precision_reads(precision, (n - 1) as nat, 0);
    }
    if i < n - 1 {
        lemma_precision_reads(precision, (n - 1) as nat, i);
        bits::lemma_number_before(head, last, 3 * i, 3);
    } else {
        bits::lemma_number_between(head, precision[n - 1] as nat, 3, Seq::empty());
        assert(head + last + Seq::<bool>::empty() =~= head + last);
    }
}

proof fn lemma_scales_len(blocks: Seq<ScaledBlock>, precision: Seq<u32>, n: nat)
    ensures
        bitstream::scale_factor_bits(blocks, precision, n).len() == 6 * coded_before(precision, n),
    decreases n,
{
    if n > 0 {
        lemma_scales_len(blocks, precision, (n - 1) as nat);
    }
}

proof fn lemma_scale_reads(blocks: Seq<ScaledBlock>, precision: Seq<u32>, n: nat, i: int)
    requires
        0 <= i < n <= precision.len(),
        precision[i] != 0,
    ensures
        6 * coded_before(precision, i as nat) + 6 <= 6 * coded_before(precision, n),
        bits::number_at(
            bitstream::scale_factor_bits(blocks, precision, n),
            6 * coded_before(precision, i as nat) as int,
            6,
        ) == blocks[i].scale_factor_index as nat % 64,
    decreases n,
{
    lemma2_to64();
    let head = bitstream::scale_factor_bits(blocks, precision, (n - 1) as nat);
    let all = bitstream::scale_factor_bits(blocks, precision, n);
    lemma_scales_len(blocks, precision, (n - 1) as nat);
    if i < n - 1 {
        lemma_scale_reads(blocks, precision, (n - 1) as nat, i);
        let more = all.skip(head.len() as int);
        assert(all =~= head + more);
        bits::lemma_number_before(head, more, 6 * coded_before(precision, i as nat) as int, 6);
    } else {
        let v = blocks[n - 1].scale_factor_index as nat;
        bits::lemma_number_between(head, v, 6, Seq::empty());
        assert(head + bits::msb_bits(v, 6) + Seq::<bool>::empty() =~= all);
    }
}

proof fn lemma_codes_len(blocks: Seq<ScaledBlock>, precision: Seq<u32>, mode: int, n: nat)
    ensures
        bitstream::mantissas_bits(blocks, precision, mode, n).len() == codes_len(
            blocks,
            precision,
            mode,
            n,
        ),
    decreases n,
{
    if n > 0 {
        lemma_codes_len(blocks, precision, mode, (n - 1) as nat);
    }
}

proof fn lemma_code_place(
    blocks: Seq<ScaledBlock>,
    precision: Seq<u32>,
    mode: int,
    n: nat,
    i: int,
)
    requires
        0 <= i < n <= precision.len(),
        precision[i] != 0,
    ensures
        ({
            let from = codes_len(blocks, precision, mode, i as nat) as int;
            let code = block_code(mode, blocks[i], precision[i] as int);
            let all = bitstream::mantissas_bits(blocks, precision, mode, n);
            &&& from + code.len() <= all.len()
            &&& all.subrange(from, from + code.len()) == code
        }),
    decreases n,
{
    let from = codes_len(blocks, precision, mode, i as nat) as int;
    let code = block_code(mode, blocks[i], precision[i] as int);
    let all = bitstream::mantissas_bits(blocks, precision, mode, n);
    let head = bitstream::mantissas_bits(blocks, precision, mode, (n - 1) as nat);
    lemma_codes_len(blocks, precision, mode, (n - 1) as nat);
    if i < n - 1 {
        lemma_code_place(blocks, precision, mode, (n - 1) as nat, i);
        assert(all.subrange(from, from + code.len()) =~= head.subrange(from, from + code.len()));
    } else {
        assert(all.subrange(from, from + code.len()) =~= code);
    }
}

/// The spectrum of a channel is read back: behind the tonal components stand the number
/// of blocks less one in five bits, the coding mode in one, and the precision of every
/// block in three. Then every block that has precision has, in order, its own scale
/// factor in six bits; and behind all of these, in the same order, the code of its own
/// mantissas.
#[verifier::rlimit(60)]
#[verifier::spinoff_prover]
pub proof fn law_spectrum_reads_back(
    tonal_blocks: Seq<TonalBlock>,
    blocks: Seq<ScaledBlock>,
    precision: Seq<u32>,
    mode: int,
    i: int,
)
    requires
        1 <= precision.len() <= 32,
        0 <= mode <= 1,
        0 <= i < precision.len(),
        precision[i] <= 7,
        precision[i] != 0 ==> blocks[i].scale_factor_index < 64,
    ensures
        ({
            let n = precision.len();
            let all = bitstream::specs_bits(tonal_blocks, blocks, precision, mode);
            let at = crate::at3::tonal::tonal_bits(tonal_blocks, precision).len() as int;
            let scales = at + 6 + 3 * n;
            let codes = scales + 6 * coded_before(precision, n);
            let from = codes + codes_len(blocks, precision, mode, i as nat);
            let code = block_code(mode, blocks[i], precision[i] as int);
            &&& bits::number_at(all, at, 5) == n - 1
            &&& bits::number_at(all, at + 5, 1) == mode
            &&& bits::number_at(all, at + 6 + 3 * i, 3) == precision[i]
            &&& precision[i] != 0 ==> bits::number_at(
                all,
                scales + 6 * coded_before(precision, i as nat),
                6,
            ) == blocks[i].scale_factor_index
            &&& precision[i] != 0 ==> all.subrange(from, from + code.len()) == code
            &&& all.len() == codes + codes_len(blocks, precision, mode, n)
        }),
{
    lemma2_to64();
    let n = precision.len();
    let all = bitstream::specs_bits(tonal_blocks, blocks, precision, mode);
    let t = crate::at3::tonal::tonal_bits(tonal_blocks, precision);
    let c = bits::msb_bits((n - 1) as nat, 5);
    let m = bits::msb_bits(mode as nat, 1);
    let p = bitstream::precision_bits(precision, n);
    let s = bitstream::scale_factor_bits(blocks, precision, n);
    let q = bitstream::mantissas_bits(blocks, precision, mode, n);
    lemma_precision_reads(precision, n, i);
    lemma_scales_len(blocks, precision, n);
    lemma_codes_len(blocks, precision, mode, n);
    assert(all =~= t + c + (m + p + s + q));
    bits::lemma_number_between(t, (n - 1) as nat, 5, m + p + s + q);
    assert(all =~= (t + c) + m + (p + s + q));
    bits::lemma_number_between(t + c, mode as nat, 1, p + s + q);
    assert(all =~= (t + c + m) + (p + (s + q)));
    bits::lemma_number_behind(t + c + m, p + (s + q), 3 * i, 3);
    bits::lemma_number_before(p, s + q, 3 * i, 3);
    if precision[i] != 0 {
        lemma_scale_reads(blocks, precision, n, i);
        let at = 6 * coded_before(precision, i as nat) as int;
        assert(all =~= (t + c + m + p) + (s + q));
        bits::lemma_number_behind(t + c + m + p, s + q, at, 6);
        bits::lemma_number_before(s, q, at, 6);
        lemma_code_place(blocks, precision, mode, n, i);
        let code = block_code(mode, blocks[i], precision[i] as int);
        let from = codes_len(blocks, precision, mode, i as nat) as int;
        let pre = t + c + m + p + s;
        assert(all =~= pre + q);
        assert(all.subrange(pre.len() + from, pre.len() + from + code.len()) =~= q.subrange(
            from,
            from + code.len(),
        ));
    }
}

/// Where the gain curve of band `b` starts behind the number of bands.
pub open spec fn curve_start(info: Seq<Vec<GainPoint>>, b: nat) -> nat
    decreases b,
{
    if b == 0 {
        0
    } else {
        curve_start(info, (b - 1) as nat) + 3 + 9 * info[b - 1]@.len()
    }
}

proof fn lemma_points_read(points: Seq<GainPoint>, n: nat, k: int)
    requires
        0 <= k < n <= points.len(),
    ensures
        sound_unit::gain_curve_bits(points, n).len() == 9 * n,
        bits::number_at(sound_unit::gain_curve_bits(points, n), 9 * k, 4) == points[k].level as nat
            % 16,
        bits::number_at(sound_unit::gain_curve_bits(points, n), 9 * k + 4, 5)
            == points[k].location as nat % 32,
    decreases n,
{
    lemma2_to64();
    let all = sound_unit::gain_curve_bits(points, n);
    let head = sound_unit::gain_curve_bits(points, (n - 1) as nat);
    let level = bits::msb_bits(points[n - 1].level as nat, 4);
    let location = bits::msb_bits(points[n - 1].location as nat, 5);
    if n > 1 {
        lemma_points_read(points, (n - 1) as nat, 0);
    }
    if k < n - 1 {
        lemma_points_read(points, (n - 1) as nat, k);
        assert(all =~= head + (level + location));
        bits::lemma_number_before(head, level + location, 9 * k, 4);
        bits::lemma_number_before(head, level + location, 9 * k + 4, 5);
    } else {
        bits::lemma_number_between(head, points[k].level as nat, 4, location);
        bits::lemma_number_between(head + level, points[k].location as nat, 5, Seq::empty());
        assert(head + level + location + Seq::<bool>::empty() =~= all);
    }
}

proof fn lemma_curve_place(info: Seq<Vec<GainPoint>>, n: nat, b: int)
    requires
        0 <= b < n <= info.len(),
    ensures
        sound_unit::gain_bits(info, n).len() == curve_start(info, n),
        curve_start(info, b as nat) + 3 + 9 * info[b]@.len() <= curve_start(info, n),
        ({
            let from = curve_start(info, b as nat) as int;
            sound_unit::gain_bits(info, n).subrange(from, from + 3 + 9 * info[b]@.len())
                == bits::msb_bits(info[b]@.len(), 3) + sound_unit::gain_curve_bits(
                info[b]@,
                info[b]@.len(),
            )
        }),
    decreases n,
{
    let all = sound_unit::gain_bits(info, n);
    let head = sound_unit::gain_bits(info, (n - 1) as nat);
    let last = info[n - 1]@;
    if last.len() > 0 {
        lemma_points_read(last, last.len(), 0);
    }
    if n > 1 {
        lemma_curve_place(info, (n - 1) as nat, 0);
    }
    let from = curve_start(info, b as nat) as int;
    let len = 3 + 9 * info[b]@.len();
    if b < n - 1 {
        lemma_curve_place(info, (n - 1) as nat, b);
        assert(all.subrange(from, from + len) =~= head.subrange(from, from + len));
    } else {
        assert(all.subrange(from, from + len) =~= bits::msb_bits(last.len(), 3)
            + sound_unit::gain_curve_bits(last, last.len()));
    }
}

#[verifier::rlimit(60)]
#[verifier::spinoff_prover]
proof fn lemma_curve_reads(pre: Seq<bool>, info: Seq<Vec<GainPoint>>, b: int, k: int)
    requires
        0 <= b < info.len(),
        info[b]@.len() < 8,
    ensures
        ({
            let all = pre + sound_unit::gain_bits(info, info.len());
            let at = pre.len() + curve_start(info, b as nat);
            &&& all.len() == pre.len() + curve_start(info, info.len())
            &&& bits::number_at(all, at as int, 3) == info[b]@.len()
            &&& 0 <= k < info[b]@.len() ==> bits::number_at(all, at + 3 + 9 * k, 4)
                == info[b]@[k].level as nat % 16
            &&& 0 <= k < info[b]@.len() ==> bits::number_at(all, at + 3 + 9 * k + 4, 5)
                == info[b]@[k].location as nat % 32
        }),
{
    lemma2_to64();
    let curve = info[b]@;
    let g = sound_unit::gain_bits(info, info.len());
    let all = pre + g;
    lemma_curve_place(info, info.len(), b);
    let from = curve_start(info, b as nat) as int;
    let count = bits::msb_bits(curve.len(), 3);
    let points = sound_unit::gain_curve_bits(curve, curve.len());
    let before = pre + g.take(from);
    let post = g.skip(from + 3 + 9 * curve.len());
    assert(g =~= g.take(from) + g.subrange(from, from + 3 + 9 * curve.len()) + post);
    assert(all =~= before + count + (points + post));
    bits::lemma_number_between(before, curve.len(), 3, points + post);
    if 0 <= k < curve.len() {
        lemma_points_read(curve, curve.len(), k);
        assert(all =~= (before + count) + (points + post));
        bits::lemma_number_behind(before + count, points + post, 9 * k, 4);
        bits::lemma_number_before(points, post, 9 * k, 4);
        bits::lemma_number_behind(before + count, points + post, 9 * k + 4, 5);
        bits::lemma_number_before(points, post, 9 * k + 4, 5);
    }
}

/// The mark that opens a channel.
spec fn mark_bits(js_second: bool) -> Seq<bool> {
    if js_second {
        sound_unit::js_params_bits() + bits::msb_bits(3, 2)
    } else {
        bits::msb_bits(0x28, 6)
    }
}

#[verifier::rlimit(60)]
#[verifier::spinoff_prover]
proof fn lemma_mark_reads(js_second: bool, y: Seq<bool>)
    ensures
        ({
            let all = mark_bits(js_second) + y;
            &&& !js_second ==> bits::number_at(all, 0, 6) == 0x28
            &&& js_second ==> {
                &&& bits::number_at(all, 0, 1) == 0
                &&& bits::number_at(all, 1, 3) == 7
                &&& bits::number_at(all, 4, 2) == 3
                &&& bits::number_at(all, 6, 2) == 3
                &&& bits::number_at(all, 8, 2) == 3
                &&& bits::number_at(all, 10, 2) == 3
                &&& bits::number_at(all, 12, 2) == 3
            }
        }),
{
    lemma2_to64();
    let all = mark_bits(js_second) + y;
    let none = Seq::<bool>::empty();
    if js_second {
        let (f, w, x) = (bits::msb_bits(0, 1), bits::msb_bits(7, 3), bits::msb_bits(3, 2));
        assert(all =~= none + f + (w + x + x + x + x + x + y));
        bits::lemma_number_between(none, 0, 1, w + x + x + x + x + x + y);
        assert(all =~= f + w + (x + x + x + x + x + y));
        bits::lemma_number_between(f, 7, 3, x + x + x + x + x + y);
        assert(all =~= (f + w) + x + (x + x + x + x + y));
        bits::lemma_number_between(f + w, 3, 2, x + x + x + x + y);
        assert(all =~= (f + w + x) + x + (x + x + x + y));
        bits::lemma_number_between(f + w + x, 3, 2, x + x + x + y);
        assert(all =~= (f + w + x + x) + x + (x + x + y));
        bits::lemma_number_between(f + w + x + x, 3, 2, x + x + y);
        assert(all =~= (f + w + x + x + x) + x + (x + y));
        bits::lemma_number_between(f + w + x + x + x, 3, 2, x + y);
        assert(all =~= (f + w + x + x + x + x) + x + y);
        bits::lemma_number_between(f + w + x + x + x + x, 3, 2, y);
    } else {
        assert(all =~= none + bits::msb_bits(0x28, 6) + y);
        bits::lemma_number_between(none, 0x28, 6, y);
    }
}

/// The opening of a channel is read back. The second channel of a joint stereo pair
/// starts with a flag, the weights of the pair and a mark of two bits; any other channel
/// with a mark of six. Then stand the number of bands less one, and for each band the
/// number of points of its gain curve, and level and location of every point.
#[verifier::rlimit(60)]
#[verifier::spinoff_prover]
pub proof fn law_opening_reads_back(sce: SingleChannelElement, js_second: bool, b: int, k: int)
    requires
        sound_unit::header_wf(sce),
        0 <= b < sce.subband_info@.len(),
    ensures
        ({
            let all = sound_unit::header_bits(sce, js_second);
            let mark = if js_second {
                14int
            } else {
                6
            };
            let at = mark + 2 + curve_start(sce.subband_info@, b as nat);
            let point = sce.subband_info@[b]@[k];
            &&& !js_second ==> bits::number_at(all, 0, 6) == 0x28
            &&& js_second ==> {
                &&& bits::number_at(all, 0, 1) == 0
                &&& bits::number_at(all, 1, 3) == 7
                &&& bits::number_at(all, 4, 2) == 3
                &&& bits::number_at(all, 6, 2) == 3
                &&& bits::number_at(all, 8, 2) == 3
                &&& bits::number_at(all, 10, 2) == 3
                &&& bits::number_at(all, 12, 2) == 3
            }
            &&& bits::number_at(all, mark, 2) == sce.subband_info@.len() - 1
            &&& bits::number_at(all, at, 3) == sce.subband_info@[b]@.len()
            &&& 0 <= k < sce.subband_info@[b]@.len() && point.level < 16 ==> bits::number_at(
                all,
                at + 3 + 9 * k,
                4,
            ) == point.level
            &&& 0 <= k < sce.subband_info@[b]@.len() && point.location < 32 ==> bits::number_at(
                all,
                at + 3 + 9 * k + 4,
                5,
            ) == point.location
            &&& all.len() == mark + 2 + curve_start(sce.subband_info@, sce.subband_info@.len())
        }),
{
    lemma2_to64();
    let info = sce.subband_info@;
    let all = sound_unit::header_bits(sce, js_second);
    let bands = bits::msb_bits((info.len() - 1) as nat, 2);
    let g = sound_unit::gain_bits(info, info.len());
    let mark = mark_bits(js_second);
    assert(info[b]@.len() < 8);
    assert(all =~= mark + bands + g);
    bits::lemma_number_between(mark, (info.len() - 1) as nat, 2, g);
    lemma_mark_reads(js_second, bands + g);
    assert(all =~= mark + (bands + g));
    lemma_curve_reads(mark + bands, info, b, k);
}

/// Bytes that start like the bytes of `b` are read as starting with the bits of `b`.
proof fn lemma_starts_with(bytes: Seq<u8>, b: Seq<bool>)
    requires
        b.len() <= 8 * bytes.len(),
        forall|j: int|
            0 <= j < bytes.len() && j < bits::pack(b).len() ==> #[trigger] bytes[j] == bits::pack(
                b,
            )[j],
    ensures
        bits::bytes_bits(bytes).take(b.len() as int) == b,
{
    bits::lemma_bytes_bits_pack(b);
    let p = bits::pack(b);
    assert forall|i: int| 0 <= i < b.len() implies #[trigger] bits::bytes_bits(bytes)[i] == b[i] by {
        assert(bits::padded(b)[i] == b[i]);
        assert(bits::bytes_bits(p)[i] == b[i]);
        assert(i / 8 < bytes.len() && i / 8 < p.len());
        assert(bytes[i / 8] == p[i / 8]);
    }
    assert(bits::bytes_bits(bytes).take(b.len() as int) =~= b);
}

/// Both channels are found in a sound unit of even size: the first from its first byte
/// on; the second from the middle on, or, of a joint stereo pair, from the last byte
/// backwards. Each starts with its own opening, followed by its own spectrum.
#[verifier::rlimit(60)]
#[verifier::spinoff_prover]
pub proof fn law_channels_read_back(
    params: ContainerParams,
    elements: Seq<SingleChannelElement>,
    wanted: int,
    allocations: Seq<Allocation>,
)
    requires
        sound_unit::elements_wf(params, elements),
        params.frame_sz % 2 == 0,
        forall|ch: int|
            0 <= ch < elements.len() ==> sound_unit::channel_bits(
                params,
                elements,
                allocations,
                ch,
            ).len() <= 8 * #[trigger] sound_unit::channel_len(params, elements, wanted, ch),
    ensures
        ({
            let frame = sound_unit::sound_unit(params, elements, wanted, allocations);
            let first = sound_unit::header_bits(elements[0], false) + bitstream::specs_bits(
                elements[0].tonal_blocks@,
                elements[0].scaled_blocks@,
                allocations[0].precision@,
                allocations[0].coding_mode as int,
            );
            let second = sound_unit::header_bits(elements[1], params.joint_stereo)
                + bitstream::specs_bits(
                elements[1].tonal_blocks@,
                elements[1].scaled_blocks@,
                allocations[1].precision@,
                allocations[1].coding_mode as int,
            );
            &&& frame.len() == params.frame_sz
            &&& bits::bytes_bits(frame).take(first.len() as int) == first
            &&& elements.len() == 2 && params.joint_stereo ==> bits::bytes_bits(
                frame.reverse(),
            ).take(second.len() as int) == second
            &&& elements.len() == 2 && !params.joint_stereo ==> bits::bytes_bits(
                frame.skip(params.frame_sz as int / 2),
            ).take(second.len() as int) == second
        }),
{
    let frame = sound_unit::sound_unit(params, elements, wanted, allocations);
    let b0 = sound_unit::channel_bits(params, elements, allocations, 0);
    let l0 = sound_unit::channel_len(params, elements, wanted, 0);
    let l1 = sound_unit::channel_len(params, elements, wanted, 1);
    let c0 = sound_unit::channel_bytes(params, elements, wanted, allocations, 0);
    let c1 = sound_unit::channel_bytes(params, elements, wanted, allocations, 1);
    assert(b0.len() <= 8 * l0);
    assert(c0.len() == l0);
    assert forall|j: int| 0 <= j < frame.len() && j < bits::pack(b0).len() implies #[trigger] frame[j]
        == bits::pack(b0)[j] by {
        assert(j < l0);
        assert(frame[j] == c0[j]);
    }
    lemma_starts_with(frame, b0);
    if elements.len() == 2 {
        let b1 = sound_unit::channel_bits(params, elements, allocations, 1);
        assert(b1.len() <= 8 * l1);
        assert(c1.len() == l1);
        assert(l0 + l1 == params.frame_sz);
        assert(frame =~= c0 + c1);
        let half = params.frame_sz as int / 2;
        if params.joint_stereo {
            let back = frame.reverse();
            assert forall|j: int|
                0 <= j < back.len() && j < bits::pack(b1).len() implies #[trigger] back[j]
                == bits::pack(b1)[j] by {
                assert(j < l1);
                assert(back[j] == c1[l1 - 1 - j]);
            }
            lemma_starts_with(back, b1);
        } else {
            let rest = frame.skip(half);
            assert forall|j: int|
                0 <= j < rest.len() && j < bits::pack(b1).len() implies #[trigger] rest[j]
                == bits::pack(b1)[j] by {
                assert(j < l1);
                assert(rest[j] == c1[j]);
            }
            lemma_starts_with(rest, b1);
        }
    }
}

} // verus!
