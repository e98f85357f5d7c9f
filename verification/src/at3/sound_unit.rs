//! Sound units: the frames of an ATRAC3 stream.

use vstd::prelude::*;
use crate::at3::bitstream;
use crate::at3::bitstream::{encode_specs, Allocation, SingleChannelElement};
use crate::at3::data::{BfuAllocMode, ContainerParams, NUM_QMF};
use crate::bitstream::bits;
use crate::bitstream::BitStream;
use crate::container::{CompressedOutput, ContainerError};
use crate::dsp::gain::GainPoint;
use crate::util::div8_ceil;

verus! {

/// Level and location of the first `n` points of a gain curve.
pub open spec fn gain_curve_bits(points: Seq<GainPoint>, n: nat) -> Seq<bool>
    decreases n,
{
    if n == 0 {
        Seq::empty()
    } else {
        gain_curve_bits(points, (n - 1) as nat) + bits::msb_bits(points[n - 1].level as nat, 4)
            + bits::msb_bits(points[n - 1].location as nat, 5)
    }
}

/// The gain curves of the first `n` bands, each after the number of its points.
pub open spec fn gain_bits(info: Seq<Vec<GainPoint>>, n: nat) -> Seq<bool>
    decreases n,
{
    if n == 0 {
        Seq::empty()
    } else {
        gain_bits(info, (n - 1) as nat) + bits::msb_bits(info[n - 1]@.len(), 3) + gain_curve_bits(
            info[n - 1]@,
            info[n - 1]@.len(),
        )
    }
}

/// The joint stereo parameters that open the second channel.
pub open spec fn js_params_bits() -> Seq<bool> {
    bits::msb_bits(0, 1) + bits::msb_bits(7, 3) + bits::msb_bits(3, 2) + bits::msb_bits(3, 2)
        + bits::msb_bits(3, 2) + bits::msb_bits(3, 2)
}

/// What precedes the spectrum of a channel: its mark, the number of bands and
/// their gain curves.
pub open spec fn header_bits(sce: SingleChannelElement, js_second: bool) -> Seq<bool> {
    (if js_second {
        js_params_bits() + bits::msb_bits(3, 2)
    } else {
        bits::msb_bits(0x28, 6)
    }) + bits::msb_bits((sce.subband_info@.len() - 1) as nat, 2) + gain_bits(
        sce.subband_info@,
        sce.subband_info@.len(),
    )
}

/// One to four bands with at most seven gain points each.
pub open spec fn header_wf(sce: SingleChannelElement) -> bool {
    &&& 1 <= sce.subband_info@.len() <= NUM_QMF
    &&& forall|i: int|
        0 <= i < sce.subband_info@.len() ==> (#[trigger] sce.subband_info@[i])@.len() < 8
}

proof fn lemma_gain_curve_len(points: Seq<GainPoint>, n: nat)
    ensures
        gain_curve_bits(points, n).len() == 9 * n,
    decreases n,
{
    if n > 0 {
        lemma_gain_curve_len(points, (n - 1) as nat);
    }
}

proof fn lemma_gain_len(info: Seq<Vec<GainPoint>>, n: nat)
    requires
        n <= info.len(),
        forall|i: int| 0 <= i < info.len() ==> (#[trigger] info[i])@.len() < 8,
    ensures
        gain_bits(info, n).len() <= 66 * n,
    decreases n,
{
    if n > 0 {
        lemma_gain_len(info, (n - 1) as nat);
        lemma_gain_curve_len(info[n - 1]@, info[n - 1]@.len());
        assert(info[n - 1]@.len() < 8);
    }
}

proof fn lemma_header_len(sce: SingleChannelElement, js_second: bool)
    requires
        header_wf(sce),
    ensures
        8 <= header_bits(sce, js_second).len() <= 280,
{
    lemma_gain_len(sce.subband_info@, sce.subband_info@.len());
}

fn write_js_params(bs: &mut BitStream)
    requires
        old(bs).wf(),
        old(bs).bits().len() + 12 + 7 <= usize::MAX,
    ensures
        final(bs).wf(),
        final(bs).read_pos() == old(bs).read_pos(),
        final(bs).bits() == old(bs).bits() + js_params_bits(),
{
    bs.write(0, 1);
    bs.write(7, 3);
    bs.write(3, 2);
    bs.write(3, 2);
    bs.write(3, 2);
    bs.write(3, 2);
    assert(bs.bits() =~= old(bs).bits() + js_params_bits());
}

fn write_gain_curve(points: &Vec<GainPoint>, bs: &mut BitStream)
    requires
        points@.len() < 8,
        old(bs).wf(),
        old(bs).bits().len() + 66 + 7 <= usize::MAX,
    ensures
        final(bs).wf(),
        final(bs).read_pos() == old(bs).read_pos(),
        final(bs).bits() == old(bs).bits() + (bits::msb_bits(points@.len(), 3) + gain_curve_bits(
            points@,
            points@.len(),
        )),
{
    bs.write(points.len() as u32, 3);
    let ghost start = bs.bits();
    let mut i: usize = 0;
    assert(start + Seq::<bool>::empty() =~= start);
    while i < points.len()
        invariant
            i <= points@.len(),
            points@.len() < 8,
            bs.wf(),
            bs.read_pos() == old(bs).read_pos(),
            bs.bits() == start + gain_curve_bits(points@, i as nat),
            bs.bits().len() == start.len() + 9 * i,
            start.len() + 63 + 7 <= usize::MAX,
        decreases points@.len() - i,
    {
        bs.write(points[i].level, 4);
        bs.write(points[i].location, 5);
        assert(bs.bits() =~= start + gain_curve_bits(points@, (i + 1) as nat));
        i += 1;
    }
    assert(bs.bits() =~= old(bs).bits() + (bits::msb_bits(points@.len(), 3) + gain_curve_bits(
        points@,
        points@.len(),
    )));
}

/// The opening of a channel as a new bitstream.
fn start_channel(sce: &SingleChannelElement, js_second: bool) -> (bs: BitStream)
    requires
        header_wf(*sce),
    ensures
        bs.wf(),
        bs.read_pos() == 0,
        bs.bits() == header_bits(*sce, js_second),
{
    let mut bs = BitStream::new();
    if js_second {
        write_js_params(&mut bs);
        bs.write(3, 2);
    } else {
        bs.write(0x28, 6);
    }
    bs.write((sce.subband_info.len() - 1) as u32, 2);
    let ghost start = bs.bits();
    let mut i: usize = 0;
    assert(start + Seq::<bool>::empty() =~= start);
    while i < sce.subband_info.len()
        invariant
            i <= sce.subband_info@.len(),
            header_wf(*sce),
            bs.wf(),
            bs.read_pos() == 0,
            start.len() <= 16,
            bs.bits() == start + gain_bits(sce.subband_info@, i as nat),
        decreases sce.subband_info@.len() - i,
    {
        proof {
            lemma_gain_len(sce.subband_info@, i as nat);
            assert(sce.subband_info@[i as int]@.len() < 8);
        }
        write_gain_curve(&sce.subband_info[i], &mut bs);
        assert(bs.bits() =~= start + gain_bits(sce.subband_info@, (i + 1) as nat));
        i += 1;
    }
    assert(bs.bits() =~= header_bits(*sce, js_second));
    bs
}

/// Channel `ch` is the second one of a joint stereo pair.
pub open spec fn is_js_second(params: ContainerParams, ch: int) -> bool {
    params.joint_stereo && ch == 1
}

/// The bits of channel `ch` that are not for its spectrum.
pub open spec fn spent_bits(
    params: ContainerParams,
    elements: Seq<SingleChannelElement>,
    ch: int,
) -> int {
    6 + header_bits(elements[ch], is_js_second(params, ch)).len() as int
}

/// The most bytes that can pass from one channel of a joint stereo pair to the
/// other.
pub open spec fn max_ms_shift(params: ContainerParams, elements: Seq<SingleChannelElement>) -> int {
    params.frame_sz as int / 2 - (spent_bits(params, elements, 0) + spent_bits(params, elements, 1)
        + 7) / 8
}

/// The bytes that pass from the second channel of a joint stereo pair to the
/// first: all that can for a silent second channel, else the wanted number as
/// far as it is allowed.
pub open spec fn ms_bytes_shift(
    params: ContainerParams,
    elements: Seq<SingleChannelElement>,
    wanted: int,
) -> int {
    let max = max_ms_shift(params, elements);
    if !params.joint_stereo {
        0
    } else if elements[1].scaled_blocks@.len() == 0 {
        max
    } else if wanted < -max {
        -max
    } else if wanted > max {
        max
    } else {
        wanted
    }
}

/// The bytes of the frame that channel `ch` gets.
pub open spec fn channel_len(
    params: ContainerParams,
    elements: Seq<SingleChannelElement>,
    wanted: int,
    ch: int,
) -> int {
    let shift = ms_bytes_shift(params, elements, wanted);
    if is_js_second(params, ch) {
        params.frame_sz as int / 2 - shift
    } else {
        params.frame_sz as int / 2 + shift
    }
}

/// The bits that the spectrum of channel `ch` may take, at least 1.
pub open spec fn channel_target(
    params: ContainerParams,
    elements: Seq<SingleChannelElement>,
    wanted: int,
    ch: int,
) -> int {
    let b = 8 * channel_len(params, elements, wanted, ch) - spent_bits(params, elements, ch);
    if b > 1 {
        b
    } else {
        1
    }
}

/// One channel, or two; two for joint stereo, whose frame has room for what
/// precedes the spectra.
pub open spec fn elements_wf(params: ContainerParams, elements: Seq<SingleChannelElement>) -> bool {
    &&& 1 <= elements.len() <= 2
    &&& params.joint_stereo ==> elements.len() == 2
    &&& forall|i: int| 0 <= i < elements.len() ==> header_wf(#[trigger] elements[i])
    &&& params.joint_stereo ==> max_ms_shift(params, elements) >= (if elements[1].scaled_blocks@.len()
        == 0 {
        -(params.frame_sz as int / 2)
    } else {
        0
    })
}

/// `bytes` cut or filled up with zeros to `n`.
pub open spec fn resized(bytes: Seq<u8>, n: int) -> Seq<u8> {
    if n <= bytes.len() {
        bytes.take(n)
    } else {
        bytes + Seq::new((n - bytes.len()) as nat, |i: int| 0u8)
    }
}

/// The whole bitstream of channel `ch`.
pub open spec fn channel_bits(
    params: ContainerParams,
    elements: Seq<SingleChannelElement>,
    allocations: Seq<Allocation>,
    ch: int,
) -> Seq<bool> {
    header_bits(elements[ch], is_js_second(params, ch)) + bitstream::specs_bits(
        elements[ch].tonal_blocks@,
        elements[ch].scaled_blocks@,
        allocations[ch].precision@,
        allocations[ch].coding_mode as int,
    )
}

/// What channel `ch` puts into the frame; the second channel of a joint stereo
/// pair is stored backwards.
pub open spec fn channel_bytes(
    params: ContainerParams,
    elements: Seq<SingleChannelElement>,
    wanted: int,
    allocations: Seq<Allocation>,
    ch: int,
) -> Seq<u8> {
    let data = resized(
        bits::pack(channel_bits(params, elements, allocations, ch)),
        channel_len(params, elements, wanted, ch),
    );
    if is_js_second(params, ch) {
        data.reverse()
    } else {
        data
    }
}

/// A sound unit: the channels one after the other, a single one twice.
pub open spec fn sound_unit(
    params: ContainerParams,
    elements: Seq<SingleChannelElement>,
    wanted: int,
    allocations: Seq<Allocation>,
) -> Seq<u8> {
    let first = channel_bytes(params, elements, wanted, allocations, 0);
    let second = if elements.len() == 2 {
        channel_bytes(params, elements, wanted, allocations, 1)
    } else {
        first
    };
    resized(first + second, params.frame_sz as int)
}

/// The allocations can be written for the channels.
pub open spec fn allocations_wf(
    elements: Seq<SingleChannelElement>,
    allocations: Seq<Allocation>,
) -> bool {
    &&& allocations.len() == elements.len()
    &&& forall|i: int|
        0 <= i < elements.len() ==> bitstream::specs_codable(
            #[trigger] elements[i],
            allocations[i].precision@,
        ) && allocations[i].coding_mode <= 1
}

/// How the bytes of a sound unit are shared out.
#[derive(Debug, Clone, Copy, Eq, PartialEq)]
pub struct SoundUnitPlan {
    pub ms_bytes_shift: i32,
    pub target_bits: [u16; 2],
}

/// Cuts or zero-fills a byte vector.
pub fn resize_bytes(v: &mut Vec<u8>, n: usize)
    ensures
        final(v)@ == resized(old(v)@, n as int),
{
    let ghost before = v@;
    v.resize(n, 0);
    proof {
        if n > before.len() {
            assert(v@.subrange(0, before.len() as int) == before);
            assert forall|i: int| 0 <= i < n implies v@[i] == resized(before, n as int)[i] by {
                if i < before.len() {
                    assert(v@.subrange(0, before.len() as int)[i] == v@[i]);
                }
            }
        }
        assert(v@ =~= resized(before, n as int));
    }
}

/// Builds ATRAC3 frames.
pub struct Atrac3BitStreamWriter {
    params: ContainerParams,
    bfu_idx_const: u32,
    bfu_alloc_mode: BfuAllocMode,
    out_buffer: Vec<u8>,
}

impl Atrac3BitStreamWriter {
    pub closed spec fn spec_params(&self) -> ContainerParams {
        self.params
    }

    pub closed spec fn spec_bfu_idx_const(&self) -> u32 {
        self.bfu_idx_const
    }

    pub closed spec fn spec_bfu_alloc_mode(&self) -> BfuAllocMode {
        self.bfu_alloc_mode
    }

    /// The frame built last.
    pub closed spec fn spec_frame_buffer(&self) -> Seq<u8> {
        self.out_buffer@
    }

    pub fn new(params: ContainerParams, bfu_idx_const: u32) -> (w: Self)
        ensures
            w.spec_params() == params,
            w.spec_bfu_idx_const() == bfu_idx_const,
            w.spec_bfu_alloc_mode() == BfuAllocMode::Fast,
            w.spec_frame_buffer() == Seq::new(params.frame_sz as nat, |i: int| 0u8),
    {
        Self::with_alloc_mode(params, bfu_idx_const, BfuAllocMode::Fast)
    }

    pub fn with_alloc_mode(
        params: ContainerParams,
        bfu_idx_const: u32,
        bfu_alloc_mode: BfuAllocMode,
    ) -> (w: Self)
        ensures
            w.spec_params() == params,
            w.spec_bfu_idx_const() == bfu_idx_const,
            w.spec_bfu_alloc_mode() == bfu_alloc_mode,
            w.spec_frame_buffer() == Seq::new(params.frame_sz as nat, |i: int| 0u8),
    {
        let w = Atrac3BitStreamWriter {
            params,
            bfu_idx_const,
            bfu_alloc_mode,
            out_buffer: vec![0; params.frame_sz as usize],
        };
        assert(w.spec_frame_buffer() =~= Seq::new(params.frame_sz as nat, |i: int| 0u8));
        w
    }

    pub fn params(&self) -> (p: ContainerParams)
        ensures
            p == self.spec_params(),
    {
        self.params
    }

    pub fn bfu_idx_const(&self) -> (n: u32)
        ensures
            n == self.spec_bfu_idx_const(),
    {
        self.bfu_idx_const
    }

    pub fn bfu_alloc_mode(&self) -> (m: BfuAllocMode)
        ensures
            m == self.spec_bfu_alloc_mode(),
    {
        self.bfu_alloc_mode
    }

    pub fn frame_buffer(&self) -> (r: &[u8])
        ensures
            r@ == self.spec_frame_buffer(),
    {
        self.out_buffer.as_slice()
    }

    /// Shares the bytes of a frame out between the channels. `wanted_shift` is
    /// the number of bytes that a joint stereo pair wants to pass to its first
    /// channel.
    pub fn plan_sound_unit(&self, elements: &[SingleChannelElement], wanted_shift: i32) -> (plan:
        SoundUnitPlan)
        requires
            elements_wf(self.spec_params(), elements@),
        ensures
            plan.ms_bytes_shift == ms_bytes_shift(
                self.spec_params(),
                elements@,
                wanted_shift as int,
            ),
            forall|ch: int|
                0 <= ch < elements@.len() ==> #[trigger] plan.target_bits@[ch] == channel_target(
                    self.spec_params(),
                    elements@,
                    wanted_shift as int,
                    ch,
                ) % 65536,
    {
        let ghost params = self.params;
        let half: i32 = (self.params.frame_sz / 2) as i32;
        let mut spent: [i32; 2] = [0, 0];
        let mut ch: usize = 0;
        while ch < elements.len()
            invariant
                ch <= elements@.len(),
                params == self.params,
                elements_wf(params, elements@),
                forall|c: int|
                    0 <= c < ch ==> #[trigger] spent@[c] == spent_bits(params, elements@, c),
                forall|c: int| 0 <= c < 2 ==> 0 <= #[trigger] spent@[c] <= 286,
            decreases elements@.len() - ch,
        {
            let js_second: bool = self.params.joint_stereo && ch == 1;
            proof {
                assert(header_wf(elements@[ch as int]));
                lemma_header_len(elements@[ch as int], js_second);
            }
            let bs: BitStream = start_channel(&elements[ch], js_second);
            spent[ch] = 6 + bs.size_in_bits() as i32;
            ch += 1;
        }
        let shift: i32 = if self.params.joint_stereo {
            let total: u32 = (spent[0] + spent[1]) as u32;
            let max: i32 = half - div8_ceil(total) as i32;
            if elements[1].scaled_blocks.len() == 0 {
                max
            } else if wanted_shift < -max {
                -max
            } else if wanted_shift > max {
                max
            } else {
                wanted_shift
            }
        } else {
            0
        };
        let mut target_bits: [u16; 2] = [0, 0];
        let mut ch: usize = 0;
        while ch < elements.len()
            invariant
                ch <= elements@.len(),
                elements@.len() <= 2,
                params == self.params,
                0 <= half <= 32767,
                half == params.frame_sz as int / 2,
                shift == ms_bytes_shift(params, elements@, wanted_shift as int),
                -65536 <= shift <= 65536,
                forall|c: int|
                    0 <= c < elements@.len() ==> #[trigger] spent@[c] == spent_bits(
                        params,
                        elements@,
                        c,
                    ),
                forall|c: int| 0 <= c < 2 ==> 0 <= #[trigger] spent@[c] <= 286,
                forall|c: int|
                    0 <= c < ch ==> #[trigger] target_bits@[c] == channel_target(
                        params,
                        elements@,
                        wanted_shift as int,
                        c,
                    ) % 65536,
            decreases elements@.len() - ch,
        {
            let len: i32 = if self.params.joint_stereo && ch == 1 {
                half - shift
            } else {
                half + shift
            };
            let left: i32 = 8 * len - spent[ch];
            let target: i32 = if left > 1 {
                left
            } else {
                1
            };
            assert(target >= 0 ==> target as u16 == target % 65536) by (bit_vector);
            target_bits[ch] =
            #[verifier::truncate]
            (target as u16);
            ch += 1;
        }
        SoundUnitPlan { ms_bytes_shift: shift, target_bits }
    }

    /// Builds the frame for the channels with the allocations found for them.
    pub fn build_sound_unit_frame(
        &mut self,
        elements: &[SingleChannelElement],
        wanted_shift: i32,
        allocations: &[Allocation],
    ) -> (frame: Vec<u8>)
        requires
            elements_wf(old(self).spec_params(), elements@),
            allocations_wf(elements@, allocations@),
        ensures
            frame@ == sound_unit(
                old(self).spec_params(),
                elements@,
                wanted_shift as int,
                allocations@,
            ),
            final(self).spec_frame_buffer() == frame@,
            final(self).spec_params() == old(self).spec_params(),
            final(self).spec_bfu_idx_const() == old(self).spec_bfu_idx_const(),
            final(self).spec_bfu_alloc_mode() == old(self).spec_bfu_alloc_mode(),
    {
        let ghost params = self.params;
        let ghost wanted = wanted_shift as int;
        let plan: SoundUnitPlan = self.plan_sound_unit(elements, wanted_shift);
        let half: i32 = (self.params.frame_sz / 2) as i32;
        let shift: i32 = plan.ms_bytes_shift;
        proof {
            lemma_header_len(elements@[0], false);
            if params.joint_stereo {
                lemma_header_len(elements@[1], true);
            }
        }
        let first_len: usize = (half + shift) as usize;
        let mut buf: Vec<u8> = channel_data(&elements[0], false, &allocations[0], first_len);
        assert(buf@ == channel_bytes(params, elements@, wanted, allocations@, 0));
        if elements.len() == 2 {
            let js: bool = self.params.joint_stereo;
            let len: usize = if js {
                (half - shift) as usize
            } else {
                (half + shift) as usize
            };
            let mut second: Vec<u8> = channel_data(&elements[1], js, &allocations[1], len);
            assert(second@ == channel_bytes(params, elements@, wanted, allocations@, 1));
            buf.append(&mut second);
        } else {
            let mut copy: Vec<u8> = vstd::slice::slice_to_vec(buf.as_slice());
            buf.append(&mut copy);
        }
        resize_bytes(&mut buf, self.params.frame_sz as usize);
        self.out_buffer = vstd::slice::slice_to_vec(buf.as_slice());
        buf
    }

    /// Builds the frame for the channels and hands it to an output.
    pub fn write_sound_unit<O: CompressedOutput>(
        &mut self,
        output: &mut O,
        elements: &[SingleChannelElement],
        wanted_shift: i32,
        allocations: &[Allocation],
    ) -> (r: Result<(), ContainerError>)
        requires
            elements_wf(old(self).spec_params(), elements@),
            allocations_wf(elements@, allocations@),
            old(output).ready(),
            old(output).has_room(old(self).spec_params().frame_sz as nat),
        ensures
            final(output).ready(),
            old(output).wrote(
                sound_unit(
                    old(self).spec_params(),
                    elements@,
                    wanted_shift as int,
                    allocations@,
                ),
                final(output),
                r,
            ),
            final(self).spec_frame_buffer() == sound_unit(
                old(self).spec_params(),
                elements@,
                wanted_shift as int,
                allocations@,
            ),
            final(self).spec_params() == old(self).spec_params(),
            final(self).spec_bfu_idx_const() == old(self).spec_bfu_idx_const(),
            final(self).spec_bfu_alloc_mode() == old(self).spec_bfu_alloc_mode(),
    {
        let frame: Vec<u8> = self.build_sound_unit_frame(elements, wanted_shift, allocations);
        output.write_frame(frame.as_slice())
    }
}

/// The bytes of one channel.
fn channel_data(
    sce: &SingleChannelElement,
    js_second: bool,
    allocation: &Allocation,
    len: usize,
) -> (data: Vec<u8>)
    requires
        header_wf(*sce),
        bitstream::specs_codable(*sce, allocation.precision@),
        allocation.coding_mode <= 1,
    ensures
        ({
            let d = resized(
                bits::pack(
                    header_bits(*sce, js_second) + bitstream::specs_bits(
                        sce.tonal_blocks@,
                        sce.scaled_blocks@,
                        allocation.precision@,
                        allocation.coding_mode as int,
                    ),
                ),
                len as int,
            );
            data@ == (if js_second {
                d.reverse()
            } else {
                d
            })
        }),
{
    let mut bs: BitStream = start_channel(sce, js_second);
    proof {
        lemma_header_len(*sce, js_second);
        bitstream::law_specs_bit_count(
            sce.tonal_blocks@,
            sce.scaled_blocks@,
            allocation.precision@,
            allocation.coding_mode as int,
        );
        bitstream::lemma_specs_cost_bound(
            sce.scaled_blocks@,
            allocation.precision@,
            allocation.coding_mode as int,
        );
    }
    encode_specs(sce, &mut bs, allocation.precision.as_slice(), allocation.coding_mode);
    let mut data: Vec<u8> = vstd::slice::slice_to_vec(bs.bytes());
    resize_bytes(&mut data, len);
    if js_second {
        reversed(&data)
    } else {
        data
    }
}

fn reversed(v: &Vec<u8>) -> (r: Vec<u8>)
    ensures
        r@ == v@.reverse(),
{
    let mut r: Vec<u8> = Vec::new();
    let mut i: usize = v.len();
    while i > 0
        invariant
            i <= v@.len(),
            r@.len() == v@.len() - i,
            forall|j: int| 0 <= j < r@.len() ==> #[trigger] r@[j] == v@[v@.len() - 1 - j],
        decreases i,
    {
        i -= 1;
        r.push(v[i]);
    }
    assert(r@ =~= v@.reverse());
    r
}

/// A frame has the size that its format asks for.
pub proof fn law_sound_unit_len(
    params: ContainerParams,
    elements: Seq<SingleChannelElement>,
    wanted: int,
    allocations: Seq<Allocation>,
)
    ensures
        sound_unit(params, elements, wanted, allocations).len() == params.frame_sz,
{
}

/// A single channel is stored in both halves of a frame of even size.
pub proof fn law_mono_is_duplicated(
    params: ContainerParams,
    elements: Seq<SingleChannelElement>,
    wanted: int,
    allocations: Seq<Allocation>,
)
    requires
        elements_wf(params, elements),
        elements.len() == 1,
        params.frame_sz % 2 == 0,
    ensures
        ({
            let frame = sound_unit(params, elements, wanted, allocations);
            let half = params.frame_sz as int / 2;
            frame.take(half) == frame.skip(half)
        }),
{
    let frame = sound_unit(params, elements, wanted, allocations);
    let half = params.frame_sz as int / 2;
    let first = channel_bytes(params, elements, wanted, allocations, 0);
    assert(first.len() == half);
    assert(frame =~= first + first);
    assert(frame.take(half) =~= first);
    assert(frame.skip(half) =~= first);
}

/// An allocation whose cost is within the budget of its channel is stored
/// whole: the bits of the channel fit the bytes that it gets.
pub proof fn law_accepted_allocation_fits(
    params: ContainerParams,
    elements: Seq<SingleChannelElement>,
    wanted: int,
    allocations: Seq<Allocation>,
    ch: int,
)
    requires
        elements_wf(params, elements),
        allocations_wf(elements, allocations),
        0 <= ch < elements.len(),
        allocations[ch].coding_mode == bitstream::cheaper_mode(
            elements[ch].scaled_blocks@,
            allocations[ch].precision@,
        ),
        8 * channel_len(params, elements, wanted, ch) > spent_bits(params, elements, ch),
        bitstream::total_cost(elements[ch], allocations[ch].precision@) <= channel_target(
            params,
            elements,
            wanted,
            ch,
        ),
    ensures
        channel_bits(params, elements, allocations, ch).len() <= 8 * channel_len(
            params,
            elements,
            wanted,
            ch,
        ),
{
    bitstream::law_specs_bit_count(
        elements[ch].tonal_blocks@,
        elements[ch].scaled_blocks@,
        allocations[ch].precision@,
        allocations[ch].coding_mode as int,
    );
}

/// What passes between the channels of a joint stereo pair: never more than leaves both
/// channels what precedes their spectra, the wanted number where that allows it, and all of
/// it for a silent second channel. Without joint stereo nothing passes.
pub proof fn law_shift_is_bounded(
    params: ContainerParams,
    elements: Seq<SingleChannelElement>,
    wanted: int,
)
    requires
        elements_wf(params, elements),
    ensures
        ({
            let s = ms_bytes_shift(params, elements, wanted);
            let half = params.frame_sz as int / 2;
            let spent = 12 + header_bits(elements[0], false).len() + header_bits(
                elements[1],
                true,
            ).len();
            let max = half - (spent + 7) / 8;
            &&& !params.joint_stereo ==> s == 0
            &&& params.joint_stereo && elements[1].scaled_blocks@.len() == 0 ==> s == max
            &&& params.joint_stereo && elements[1].scaled_blocks@.len() > 0 ==> {
                &&& -max <= s <= max
                &&& -max <= wanted <= max ==> s == wanted
                &&& wanted > max ==> s == max
                &&& wanted < -max ==> s == -max
            }
        }),
{
}

/// The channels share out the frame: halves without joint stereo; what one channel of a
/// joint stereo pair gets beyond its half the other goes without. The spectrum of a channel
/// may take what is left of its bytes behind six bits and what precedes it.
pub proof fn law_channels_share_frame(
    params: ContainerParams,
    elements: Seq<SingleChannelElement>,
    wanted: int,
)
    requires
        elements_wf(params, elements),
    ensures
        ({
            let a = channel_len(params, elements, wanted, 0);
            let b = channel_len(params, elements, wanted, 1);
            let half = params.frame_sz as int / 2;
            let left0 = 8 * a - 6 - header_bits(elements[0], false).len();
            let left1 = 8 * b - 6 - header_bits(elements[1], params.joint_stereo).len();
            &&& a + b == 2 * half
            &&& !params.joint_stereo ==> a == half
            &&& params.joint_stereo ==> a - half == ms_bytes_shift(params, elements, wanted)
            &&& left0 >= 1 ==> channel_target(params, elements, wanted, 0) == left0
            &&& left0 < 1 ==> channel_target(params, elements, wanted, 0) == 1
            &&& left1 >= 1 ==> channel_target(params, elements, wanted, 1) == left1
            &&& left1 < 1 ==> channel_target(params, elements, wanted, 1) == 1
        }),
{
}

/// Cutting and filling up keeps the bytes that stay and adds only zeros.
pub proof fn law_resized(bytes: Seq<u8>, n: int, i: int)
    requires
        0 <= i < n,
    ensures
        resized(bytes, n).len() == n,
        i < bytes.len() ==> resized(bytes, n)[i] == bytes[i],
        i >= bytes.len() ==> resized(bytes, n)[i] == 0,
{
}

} // verus!
