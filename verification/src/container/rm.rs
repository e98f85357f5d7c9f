//! RealMedia files with ATRAC3 frames.

use vstd::prelude::*;
use crate::container::bytes;
use crate::container::bytes::{patch, push_bytes, push_u16_be, push_u32_be};
use crate::container::{CompressedOutput, ContainerError};

verus! {

pub const RMF_HEADER_SZ: usize = 18;

pub const PROP_HEADER_SZ: usize = 50;

pub const CODEC_DATA_SZ: usize = 92;

pub const MDPR_HEADER_SZ: usize = 168;

pub const DATA_HEADER_SZ: usize = 18;

/// Where the data chunk starts.
pub const DATA_HEADER_POS: usize = 236;

/// "audio/x-pn-realaudio" and a zero.
pub const RA_MIME: [u8; 21] = [
    0x61, 0x75, 0x64, 0x69, 0x6f, 0x2f, 0x78, 0x2d, 0x70, 0x6e, 0x2d, 0x72, 0x65, 0x61, 0x6c, 0x61,
    0x75, 0x64, 0x69, 0x6f, 0,
];

/// "Audio Stream" and a zero.
pub const RA_DESC: [u8; 13] = [
    0x41, 0x75, 0x64, 0x69, 0x6f, 0x20, 0x53, 0x74, 0x72, 0x65, 0x61, 0x6d, 0,
];

/// "genratrc" and two marks.
pub const CODEC_NAME: [u8; 10] = [0x67, 0x65, 0x6e, 0x72, 0x61, 0x74, 0x72, 0x63, 1, 7];

/// What the bytes of a frame are mixed with, over and over.
pub const SCRAMBLE_KEY: [u8; 4] = [0x53, 0x7f, 0x61, 0x03];

/// The bits per second of frames of a size.
pub open spec fn bitrate_of(frame_size: u32) -> u32 {
    let b = frame_size * 352800 / 1024;
    if b > u32::MAX {
        u32::MAX
    } else {
        b as u32
    }
}

/// The milliseconds that frames last.
pub open spec fn duration_of(num_frames: u32) -> u32 {
    let d = num_frames * 10240 / 441;
    if d > u32::MAX {
        u32::MAX
    } else {
        d as u32
    }
}

pub open spec fn rmf_bytes() -> Seq<u8> {
    seq![0x2eu8, 0x52u8, 0x4du8, 0x46u8] + bytes::be32(RMF_HEADER_SZ as u32) + bytes::be16(0)
        + bytes::be32(0) + bytes::be32(4)
}

pub open spec fn prop_bytes(frame_size: u32, num_frames: u32) -> Seq<u8> {
    let bitrate = bitrate_of(frame_size);
    seq![0x50u8, 0x52u8, 0x4fu8, 0x50u8] + bytes::be32(PROP_HEADER_SZ as u32) + bytes::be16(0)
        + bytes::be32(bitrate) + bytes::be32(bitrate) + bytes::be32(frame_size) + bytes::be32(
        frame_size,
    ) + bytes::be32(num_frames) + bytes::be32(duration_of(num_frames)) + bytes::be32(0)
        + bytes::be32(0) + bytes::be32(DATA_HEADER_POS as u32) + bytes::be16(1) + bytes::be16(3)
}

pub open spec fn zeros(n: nat) -> Seq<u8> {
    Seq::new(n, |i: int| 0u8)
}

/// The part of the media properties that only the codec reads.
pub open spec fn codec_bytes(frame_size: u32, num_channels: usize, joint_stereo: bool) -> Seq<u8> {
    let rate = (bitrate_of(frame_size) / 8 * 60) as u32;
    bytes::be32(88) + seq![0x2eu8, 0x72u8, 0x61u8, 0xfdu8] + bytes::be16(5) + zeros(2) + seq![
        0x2eu8,
        0x72u8,
        0x61u8,
        0x35u8,
    ] + bytes::be32(0x01b53530) + bytes::be16(5) + zeros(4) + bytes::be16(2) + bytes::be32(
        (frame_size * 3) as u32,
    ) + bytes::be32(0x00051540) + bytes::be32(rate) + bytes::be32(rate) + bytes::be16(1)
        + bytes::be16((frame_size as u16 * 3) as u16) + bytes::be16(frame_size as u16) + zeros(4)
        + bytes::be16(44100) + zeros(2) + bytes::be16(44100) + zeros(2) + bytes::be16(16)
        + bytes::be16(2) + CODEC_NAME@ + zeros(2) + bytes::be32(10) + bytes::be32(4) + bytes::be16(
        (1024 * (num_channels as u16)) as u16,
    ) + bytes::be16(0x088e) + bytes::be16(
        if joint_stereo {
            0x12
        } else {
            0x02
        },
    )
}

pub open spec fn mdpr_bytes(
    frame_size: u32,
    num_frames: u32,
    num_channels: usize,
    joint_stereo: bool,
) -> Seq<u8> {
    let bitrate = bitrate_of(frame_size);
    seq![0x4du8, 0x44u8, 0x50u8, 0x52u8] + bytes::be32(MDPR_HEADER_SZ as u32) + bytes::be16(0)
        + bytes::be16(0) + bytes::be32(bitrate) + bytes::be32(bitrate) + bytes::be32(frame_size)
        + bytes::be32(frame_size) + bytes::be32(0) + bytes::be32(0) + bytes::be32(
        duration_of(num_frames),
    ) + seq![13u8] + RA_DESC@ + seq![21u8] + RA_MIME@ + codec_bytes(
        frame_size,
        num_channels,
        joint_stereo,
    )
}

/// The start of the data chunk, with the size that it has.
pub open spec fn data_bytes(size: u32, num_frames: u32) -> Seq<u8> {
    seq![0x44u8, 0x41u8, 0x54u8, 0x41u8] + bytes::be32(size) + bytes::be16(0) + bytes::be32(
        num_frames,
    ) + bytes::be32(0)
}

/// What precedes the data chunk.
#[verifier::opaque]
pub open spec fn media_header(
    frame_size: u32,
    num_frames: u32,
    num_channels: usize,
    joint_stereo: bool,
) -> Seq<u8> {
    rmf_bytes() + prop_bytes(frame_size, num_frames) + mdpr_bytes(
        frame_size,
        num_frames,
        num_channels,
        joint_stereo,
    )
}

/// The numbers of a header fit into their fields.
pub open spec fn format_fits(frame_size: u32, num_channels: usize) -> bool {
    &&& frame_size * 3 <= u32::MAX
    &&& bitrate_of(frame_size) / 8 * 60 <= u32::MAX
    &&& (frame_size as u16) * 3 <= u16::MAX
    &&& 1024 * (num_channels as u16) <= u16::MAX
}

fn push_zeros(buf: &mut Vec<u8>, n: usize)
    ensures
        final(buf)@ == old(buf)@ + zeros(n as nat),
{
    let ghost start = buf@;
    let mut i: usize = 0;
    assert(start + zeros(0) =~= start);
    while i < n
        invariant
            i <= n,
            buf@ == start + zeros(i as nat),
        decreases n - i,
    {
        buf.push(0);
        i += 1;
        assert(buf@ =~= start + zeros(i as nat));
    }
}

fn push4(buf: &mut Vec<u8>, a: u8, b: u8, c: u8, d: u8)
    ensures
        final(buf)@ == old(buf)@ + seq![a, b, c, d],
{
    buf.push(a);
    buf.push(b);
    buf.push(c);
    buf.push(d);
    assert(buf@ =~= old(buf)@ + seq![a, b, c, d]);
}

fn bitrate(frame_size: u32) -> (b: u32)
    ensures
        b == bitrate_of(frame_size),
{
    let b: u64 = frame_size as u64 * 352800 / 1024;
    if b > u32::MAX as u64 {
        u32::MAX
    } else {
        b as u32
    }
}

fn duration(num_frames: u32) -> (d: u32)
    ensures
        d == duration_of(num_frames),
{
    let d: u64 = num_frames as u64 * 10240 / 441;
    if d > u32::MAX as u64 {
        u32::MAX
    } else {
        d as u32
    }
}

fn rmf_chunk() -> (buf: Vec<u8>)
    ensures
        buf@ == rmf_bytes(),
{
    let mut buf: Vec<u8> = Vec::new();
    push4(&mut buf, 0x2e, 0x52, 0x4d, 0x46);
    assert(buf@ =~= seq![0x2eu8, 0x52u8, 0x4du8, 0x46u8]);
    push_u32_be(&mut buf, RMF_HEADER_SZ as u32);
    push_u16_be(&mut buf, 0);
    push_u32_be(&mut buf, 0);
    push_u32_be(&mut buf, 4);
    buf
}

fn prop_chunk(frame_size: u32, num_frames: u32) -> (buf: Vec<u8>)
    ensures
        buf@ == prop_bytes(frame_size, num_frames),
{
    let mut buf: Vec<u8> = Vec::new();
    let rate: u32 = bitrate(frame_size);
    push4(&mut buf, 0x50, 0x52, 0x4f, 0x50);
    assert(buf@ =~= seq![0x50u8, 0x52u8, 0x4fu8, 0x50u8]);
    push_u32_be(&mut buf, PROP_HEADER_SZ as u32);
    push_u16_be(&mut buf, 0);
    push_u32_be(&mut buf, rate);
    push_u32_be(&mut buf, rate);
    push_u32_be(&mut buf, frame_size);
    push_u32_be(&mut buf, frame_size);
    push_u32_be(&mut buf, num_frames);
    push_u32_be(&mut buf, duration(num_frames));
    push_u32_be(&mut buf, 0);
    push_u32_be(&mut buf, 0);
    push_u32_be(&mut buf, (RMF_HEADER_SZ + PROP_HEADER_SZ + MDPR_HEADER_SZ) as u32);
    push_u16_be(&mut buf, 1);
    push_u16_be(&mut buf, 3);
    buf
}

fn codec_data(frame_size: u32, num_channels: usize, joint_stereo: bool) -> (buf: Vec<u8>)
    requires
        format_fits(frame_size, num_channels),
    ensures
        buf@ == codec_bytes(frame_size, num_channels, joint_stereo),
{
    let mut buf: Vec<u8> = Vec::new();
    let rate: u32 = bitrate(frame_size) / 8 * 60;
    let size16: u16 =
        #[verifier::truncate]
        (frame_size as u16);
    let channels16: u16 =
        #[verifier::truncate]
        (num_channels as u16);
    push_u32_be(&mut buf, 88);
    assert(buf@ =~= bytes::be32(88));
    push4(&mut buf, 0x2e, 0x72, 0x61, 0xfd);
    push_u16_be(&mut buf, 5);
    push_zeros(&mut buf, 2);
    push4(&mut buf, 0x2e, 0x72, 0x61, 0x35);
    push_u32_be(&mut buf, 0x01b53530);
    push_u16_be(&mut buf, 5);
    push_zeros(&mut buf, 4);
    push_u16_be(&mut buf, 2);
    push_u32_be(&mut buf, frame_size * 3);
    push_u32_be(&mut buf, 0x00051540);
    push_u32_be(&mut buf, rate);
    push_u32_be(&mut buf, rate);
    push_u16_be(&mut buf, 1);
    push_u16_be(&mut buf, size16 * 3);
    push_u16_be(&mut buf, size16);
    push_zeros(&mut buf, 4);
    push_u16_be(&mut buf, 44100);
    push_zeros(&mut buf, 2);
    push_u16_be(&mut buf, 44100);
    push_zeros(&mut buf, 2);
    push_u16_be(&mut buf, 16);
    push_u16_be(&mut buf, 2);
    push_bytes(&mut buf, CODEC_NAME.as_slice());
    push_zeros(&mut buf, 2);
    push_u32_be(&mut buf, 10);
    push_u32_be(&mut buf, 4);
    push_u16_be(&mut buf, 1024 * channels16);
    push_u16_be(&mut buf, 0x088e);
    push_u16_be(
        &mut buf,
        if joint_stereo {
            0x12
        } else {
            0x02
        },
    );
    buf
}

fn mdpr_chunk(
    frame_size: u32,
    num_frames: u32,
    num_channels: usize,
    joint_stereo: bool,
) -> (buf: Vec<u8>)
    requires
        format_fits(frame_size, num_channels),
    ensures
        buf@ == mdpr_bytes(frame_size, num_frames, num_channels, joint_stereo),
{
    let mut buf: Vec<u8> = Vec::new();
    let rate: u32 = bitrate(frame_size);
    push4(&mut buf, 0x4d, 0x44, 0x50, 0x52);
    assert(buf@ =~= seq![0x4du8, 0x44u8, 0x50u8, 0x52u8]);
    push_u32_be(&mut buf, MDPR_HEADER_SZ as u32);
    push_u16_be(&mut buf, 0);
    push_u16_be(&mut buf, 0);
    push_u32_be(&mut buf, rate);
    push_u32_be(&mut buf, rate);
    push_u32_be(&mut buf, frame_size);
    push_u32_be(&mut buf, frame_size);
    push_u32_be(&mut buf, 0);
    push_u32_be(&mut buf, 0);
    push_u32_be(&mut buf, duration(num_frames));
    push_bytes(&mut buf, [13u8].as_slice());
    push_bytes(&mut buf, RA_DESC.as_slice());
    push_bytes(&mut buf, [21u8].as_slice());
    push_bytes(&mut buf, RA_MIME.as_slice());
    let mut codec: Vec<u8> = codec_data(frame_size, num_channels, joint_stereo);
    buf.append(&mut codec);
    buf
}

fn data_chunk(num_frames: u32) -> (buf: Vec<u8>)
    ensures
        buf@ == data_bytes(u32::MAX, num_frames),
{
    let mut buf: Vec<u8> = Vec::new();
    push4(&mut buf, 0x44, 0x41, 0x54, 0x41);
    assert(buf@ =~= seq![0x44u8, 0x41u8, 0x54u8, 0x41u8]);
    push_u32_be(&mut buf, u32::MAX);
    push_u16_be(&mut buf, 0);
    push_u32_be(&mut buf, num_frames);
    push_u32_be(&mut buf, 0);
    buf
}

proof fn lemma_header_len(
    frame_size: u32,
    num_frames: u32,
    num_channels: usize,
    joint_stereo: bool,
)
    ensures
        media_header(frame_size, num_frames, num_channels, joint_stereo).len() == DATA_HEADER_POS,
{
    reveal(media_header);
    lemma_codec_len(frame_size, num_channels, joint_stereo);
}

proof fn lemma_codec_len(frame_size: u32, num_channels: usize, joint_stereo: bool)
    ensures
        codec_bytes(frame_size, num_channels, joint_stereo).len() == CODEC_DATA_SZ,
{
}

/// A frame as it is stored.
pub open spec fn scrambled(data: Seq<u8>) -> Seq<u8> {
    Seq::new(data.len(), |i: int| data[i] ^ SCRAMBLE_KEY@[i % 4])
}

pub fn scramble_data(input: &[u8]) -> (out: Vec<u8>)
    ensures
        out@ == scrambled(input@),
{
    let mut out: Vec<u8> = Vec::new();
    let mut i: usize = 0;
    while i < input.len()
        invariant
            i <= input@.len(),
            out@ == scrambled(input@.take(i as int)),
        decreases input@.len() - i,
    {
        out.push(input[i] ^ SCRAMBLE_KEY[i % 4]);
        i += 1;
        assert(out@ =~= scrambled(input@.take(i as int)));
    }
    assert(input@.take(input@.len() as int) =~= input@);
    out
}

/// Scrambling twice gives a frame back.
pub proof fn law_scramble_undoes_itself(data: Seq<u8>)
    ensures
        scrambled(scrambled(data)) == data,
{
    assert forall|i: int| 0 <= i < data.len() implies scrambled(scrambled(data))[i] == data[i] by {
        let a = data[i];
        let k = SCRAMBLE_KEY@[i % 4];
        assert((a ^ k) ^ k == a) by (bit_vector);
    }
    assert(scrambled(scrambled(data)) =~= data);
}

/// Timestamps are kept in this fraction of a millisecond: two to the -46.
pub const TIME_UNIT: u128 = 0x4000_0000_0000;

/// The time of three frames.
pub const PACKET_TIME: u128 = 4901877145437274;

/// Timestamps have less than this many significant steps: two to the 53.
pub const TIME_PRECISION: u128 = 0x20_0000_0000_0000;

/// The smallest power of two that leaves 53 significant bits of `x`.
pub open spec fn rounding_unit(x: nat) -> nat
    decreases x,
{
    if x < TIME_PRECISION {
        1
    } else {
        2 * rounding_unit(x / 2)
    }
}

/// `x` rounded to 53 significant bits, to the nearest, to an even number of steps
/// where two are equally near.
pub open spec fn rounded(x: nat) -> nat {
    let u = rounding_unit(x);
    let q = x / u;
    let r = x % u;
    if 2 * r > u || (2 * r == u && q % 2 == 1) {
        (q + 1) * u
    } else {
        q * u
    }
}

/// The timestamp of packet `k`, in time units: the time of all packets before it,
/// rounded at each step.
pub open spec fn packet_time(k: nat) -> nat
    decreases k,
{
    if k == 0 {
        0
    } else {
        rounded(packet_time((k - 1) as nat) + PACKET_TIME as nat)
    }
}

/// The milliseconds of a timestamp.
pub open spec fn stamp_of(t: nat) -> u32 {
    if t / TIME_UNIT as nat > u32::MAX {
        u32::MAX
    } else {
        (t / TIME_UNIT as nat) as u32
    }
}

proof fn lemma_rounding_unit(x: nat)
    ensures
        rounding_unit(x) >= 1,
        x < TIME_PRECISION || rounding_unit(x) * (TIME_PRECISION / 2) <= x,
        x / rounding_unit(x) < TIME_PRECISION,
    decreases x,
{
    assert(TIME_PRECISION / 2 == 0x10_0000_0000_0000);
    if x >= TIME_PRECISION {
        lemma_rounding_unit(x / 2);
        let u = rounding_unit(x / 2);
        vstd::arithmetic::div_mod::lemma_div_denominator(x as int, 2, u as int);
        assert(2 * u == rounding_unit(x));
        if x / 2 < TIME_PRECISION {
            assert(u == 1);
        }
    }
}

proof fn lemma_rounded(x: nat)
    ensures
        rounded(x) <= x + rounding_unit(x),
        x < TIME_PRECISION ==> rounded(x) == x,
{
    lemma_rounding_unit(x);
    let u = rounding_unit(x) as int;
    vstd::arithmetic::div_mod::lemma_fundamental_div_mod(x as int, u);
    vstd::arithmetic::div_mod::lemma_mod_bound(x as int, u);
    let q = x as int / u;
    assert((q + 1) * u == q * u + u && q * u == u * q) by (nonlinear_arith);
}

proof fn lemma_packet_time(k: nat)
    requires
        k <= u32::MAX,
    ensures
        packet_time(k) <= k * 0x40_0000_0000_0000,
    decreases k,
{
    if k > 0 {
        lemma_packet_time((k - 1) as nat);
        let x = (packet_time((k - 1) as nat) + PACKET_TIME as nat) as nat;
        lemma_rounded(x);
        lemma_rounding_unit(x);
        let u = rounding_unit(x);
        assert(x <= 0x1_0000_0000 * 0x40_0000_0000_0000);
        if x >= TIME_PRECISION {
            assert(u * 0x10_0000_0000_0000 <= x);
            assert(u <= 0x4_0000_0000);
        }
    }
}

/// Rounds a time to 53 significant bits.
fn round_time(x: u128) -> (r: u128)
    requires
        x <= 0x1_0000_0000 * 0x40_0000_0000_0000,
    ensures
        r == rounded(x as nat),
{
    let mut unit: u128 = 1;
    let mut rest: u128 = x;
    proof {
        lemma_rounding_unit(x as nat);
        if x >= TIME_PRECISION {
            assert(rounding_unit(x as nat) * 0x10_0000_0000_0000 <= x);
        }
    }
    while rest >= TIME_PRECISION
        invariant
            unit >= 1,
            unit * rounding_unit(rest as nat) == rounding_unit(x as nat),
            rounding_unit(x as nat) <= 0x4_0000_0000 || rounding_unit(x as nat) == 1,
        decreases rest,
    {
        proof {
            let v = rounding_unit((rest / 2) as nat) as int;
            let w = unit as int;
            lemma_rounding_unit((rest / 2) as nat);
            assert((2 * w) * v == w * (2 * v) && 2 * w <= w * (2 * v)) by (nonlinear_arith)
                requires
                    w >= 1,
                    v >= 1,
            ;
        }
        unit = unit * 2;
        rest = rest / 2;
    }
    proof {
        assert(unit * 1 == unit);
    }
    let q: u128 = x / unit;
    let r: u128 = x % unit;
    assert((q + 1) * unit == q * unit + unit && q * unit == unit * q) by (nonlinear_arith);
    proof {
        vstd::arithmetic::div_mod::lemma_fundamental_div_mod(x as int, unit as int);
    }
    if 2 * r > unit || (2 * r == unit && q % 2 == 1) {
        (q + 1) * unit
    } else {
        q * unit
    }
}

/// What frame number `n` adds to a file: a packet holds three frames and opens with
/// its size and its timestamp.
pub open spec fn packet_bytes(n: nat, data: Seq<u8>) -> Seq<u8> {
    if n % 3 == 0 {
        bytes::be16(0) + bytes::be16((3 * data.len() + 12) as u16) + bytes::be16(0) + bytes::be32(
            stamp_of(packet_time(n / 3)),
        ) + seq![0u8, 2u8] + scrambled(data)
    } else {
        scrambled(data)
    }
}

/// Writes RealMedia files.
#[derive(Debug, Clone)]
pub struct RmOutput {
    inner: Vec<u8>,
    timestamp: u128,
    frame_num: u32,
    frame_size: u32,
}

impl RmOutput {
    /// The file so far.
    pub closed spec fn contents(&self) -> Seq<u8> {
        self.inner@
    }

    pub closed spec fn num_written(&self) -> u32 {
        self.frame_num
    }

    pub closed spec fn spec_frame_size(&self) -> u32 {
        self.frame_size
    }

    pub closed spec fn wf(&self) -> bool {
        &&& self.inner@.len() >= DATA_HEADER_POS + DATA_HEADER_SZ
        &&& self.timestamp == packet_time(self.frame_num as nat / 3)
    }

    pub fn new(num_channels: usize, num_frames: u32, frame_size: u32, joint_stereo: bool) -> (r: Result<
        Self,
        ContainerError,
    >)
        requires
            format_fits(frame_size, num_channels),
        ensures
            r matches Ok(o) && {
                &&& o.wf()
                &&& o.num_written() == 0
                &&& o.spec_frame_size() == frame_size
                &&& o.contents() == media_header(
                    frame_size,
                    num_frames,
                    num_channels,
                    joint_stereo,
                ) + data_bytes(u32::MAX, num_frames)
            },
    {
        let mut inner: Vec<u8> = rmf_chunk();
        let mut prop: Vec<u8> = prop_chunk(frame_size, num_frames);
        inner.append(&mut prop);
        let mut mdpr: Vec<u8> = mdpr_chunk(frame_size, num_frames, num_channels, joint_stereo);
        inner.append(&mut mdpr);
        proof {
            lemma_header_len(frame_size, num_frames, num_channels, joint_stereo);
            assert(inner@ == media_header(frame_size, num_frames, num_channels, joint_stereo)) by {
                reveal(media_header);
            }
        }
        let mut data: Vec<u8> = data_chunk(num_frames);
        inner.append(&mut data);
        Ok(RmOutput { inner, timestamp: 0, frame_num: 0, frame_size })
    }

    /// Puts the size of the data chunk into its start, where it can be told.
    pub fn finalize(&mut self) -> (r: Result<(), ContainerError>)
        requires
            old(self).wf(),
        ensures
            r is Ok,
            final(self).wf(),
            final(self).num_written() == old(self).num_written(),
            final(self).spec_frame_size() == old(self).spec_frame_size(),
            final(self).contents() == with_data_size(old(self).contents()),
    {
        let size: usize = self.inner.len() - DATA_HEADER_POS;
        if size as u64 <= u32::MAX as u64 {
            let mut size_bytes: Vec<u8> = Vec::new();
            push_u32_be(&mut size_bytes, size as u32);
            assert(size_bytes@ =~= bytes::be32(size as u32));
            patch(&mut self.inner, DATA_HEADER_POS + 4, size_bytes.as_slice());
        }
        Ok(())
    }

    /// The finished file.
    pub fn into_inner(self) -> (r: Result<Vec<u8>, ContainerError>)
        requires
            self.wf(),
        ensures
            r matches Ok(file) && file@ == with_data_size(self.contents()),
    {
        let mut out = self;
        let _ = out.finalize();
        Ok(out.inner)
    }
}

/// A file whose data chunk tells its size, unless it is too large for that.
pub open spec fn with_data_size(file: Seq<u8>) -> Seq<u8> {
    let size = file.len() - DATA_HEADER_POS;
    if size <= u32::MAX {
        bytes::patched(file, DATA_HEADER_POS + 4, bytes::be32(size as u32))
    } else {
        file
    }
}

impl CompressedOutput for RmOutput {
    open spec fn ready(&self) -> bool {
        self.wf()
    }

    open spec fn has_room(&self, len: nat) -> bool {
        self.num_written() < u32::MAX
    }

    open spec fn wrote(&self, data: Seq<u8>, after: &Self, r: Result<(), ContainerError>) -> bool {
        &&& after.spec_frame_size() == self.spec_frame_size()
        &&& match r {
            Ok(_) => {
                &&& data.len() == self.spec_frame_size()
                &&& after.contents() == self.contents() + packet_bytes(
                    self.num_written() as nat,
                    data,
                )
                &&& after.num_written() == self.num_written() + 1
            },
            Err(e) => {
                &&& data.len() != self.spec_frame_size()
                &&& e == ContainerError::InvalidInput("unexpected RM frame size")
                &&& after.contents() == self.contents()
                &&& after.num_written() == self.num_written()
            },
        }
    }

    fn write_frame(&mut self, data: &[u8]) -> (r: Result<(), ContainerError>)
    {
        if data.len() != self.frame_size as usize {
            return Err(ContainerError::InvalidInput("unexpected RM frame size"));
        }
        let scrambled_data: Vec<u8> = scramble_data(data);
        let ghost n = self.frame_num as nat;
        proof {
            lemma_packet_time(n / 3);
        }
        if self.frame_num % 3 == 0 {
            push_u16_be(&mut self.inner, 0);
            let size: u64 = 3 * (self.frame_size as u64) + 12;
            let size16: u16 =
                #[verifier::truncate]
                (size as u16);
            push_u16_be(&mut self.inner, size16);
            push_u16_be(&mut self.inner, 0);
            let ms: u128 = self.timestamp / TIME_UNIT;
            let stamp: u32 = if ms > u32::MAX as u128 {
                u32::MAX
            } else {
                ms as u32
            };
            push_u32_be(&mut self.inner, stamp);
            self.inner.push(0);
            self.inner.push(2);
        } else if self.frame_num % 3 == 2 {
            self.timestamp = round_time(self.timestamp + PACKET_TIME);
        }
        push_bytes(&mut self.inner, scrambled_data.as_slice());
        self.frame_num = self.frame_num + 1;
        assert(self.contents() =~= old(self).contents() + packet_bytes(n, data@));
        assert(self.timestamp == packet_time(self.frame_num as nat / 3)) by {
            if n % 3 == 2 {
                assert((n + 1) / 3 == n / 3 + 1);
            } else {
                assert((n + 1) / 3 == n / 3);
            }
        }
        Ok(())
    }

    fn name(&self) -> (n: &str)
        ensures
            n@ == ""@,
    {
        ""
    }

    fn channels(&self) -> (n: usize)
        ensures
            n == 0,
    {
        0
    }
}

proof fn lemma_rmf_fields()
    ensures
        ({
            let p = rmf_bytes();
            &&& p.len() == 18
            &&& p.subrange(0, 4) == seq![0x2eu8, 0x52u8, 0x4du8, 0x46u8]
            &&& bytes::be32_at(p, 4) == 18
            &&& bytes::be16_at(p, 8) == 0
            &&& bytes::be32_at(p, 10) == 0
            &&& bytes::be32_at(p, 14) == 4
        }),
{
    let s0 = Seq::<u8>::empty();
    let s1 = s0 + seq![0x2eu8, 0x52u8, 0x4du8, 0x46u8];
    bytes::lemma_put(s0, seq![0x2eu8, 0x52u8, 0x4du8, 0x46u8]);
    let s2 = s1 + bytes::be32(RMF_HEADER_SZ as u32);
    bytes::lemma_put_be32(s1, RMF_HEADER_SZ as u32);
    let s3 = s2 + bytes::be16(0);
    bytes::lemma_put_be16(s2, 0);
    let s4 = s3 + bytes::be32(0);
    bytes::lemma_put_be32(s3, 0);
    let s5 = s4 + bytes::be32(4);
    bytes::lemma_put_be32(s4, 4);
    assert(rmf_bytes() =~= s5);
}

proof fn lemma_prop_fields(frame_size: u32, num_frames: u32)
    ensures
        ({
            let p = prop_bytes(frame_size, num_frames);
            &&& p.len() == 50
            &&& p.subrange(0, 4) == seq![0x50u8, 0x52u8, 0x4fu8, 0x50u8]
            &&& bytes::be32_at(p, 4) == 50
            &&& bytes::be16_at(p, 8) == 0
            &&& bytes::be32_at(p, 10) == bitrate_of(frame_size)
            &&& bytes::be32_at(p, 14) == bitrate_of(frame_size)
            &&& bytes::be32_at(p, 18) == frame_size
            &&& bytes::be32_at(p, 22) == frame_size
            &&& bytes::be32_at(p, 26) == num_frames
            &&& bytes::be32_at(p, 30) == duration_of(num_frames)
            &&& bytes::be32_at(p, 34) == 0
            &&& bytes::be32_at(p, 38) == 0
            &&& bytes::be32_at(p, 42) == 236
            &&& bytes::be16_at(p, 46) == 1
            &&& bytes::be16_at(p, 48) == 3
        }),
{
    let bitrate = bitrate_of(frame_size);
    let s0 = Seq::<u8>::empty();
    let s1 = s0 + seq![0x50u8, 0x52u8, 0x4fu8, 0x50u8];
    bytes::lemma_put(s0, seq![0x50u8, 0x52u8, 0x4fu8, 0x50u8]);
    let s2 = s1 + bytes::be32(PROP_HEADER_SZ as u32);
    bytes::lemma_put_be32(s1, PROP_HEADER_SZ as u32);
    let s3 = s2 + bytes::be16(0);
    bytes::lemma_put_be16(s2, 0);
    let s4 = s3 + bytes::be32(bitrate);
    bytes::lemma_put_be32(s3, bitrate);
    let s5 = s4 + bytes::be32(bitrate);
    bytes::lemma_put_be32(s4, bitrate);
    let s6 = s5 + bytes::be32(frame_size);
    bytes::lemma_put_be32(s5, frame_size);
    let s7 = s6 + bytes::be32(frame_size);
    bytes::lemma_put_be32(s6, frame_size);
    let s8 = s7 + bytes::be32(num_frames);
    bytes::lemma_put_be32(s7, num_frames);
    let s9 = s8 + bytes::be32(duration_of(num_frames));
    bytes::lemma_put_be32(s8, duration_of(num_frames));
    let s10 = s9 + bytes::be32(0);
    bytes::lemma_put_be32(s9, 0);
    let s11 = s10 + bytes::be32(0);
    bytes::lemma_put_be32(s10, 0);
    let s12 = s11 + bytes::be32(DATA_HEADER_POS as u32);
    bytes::lemma_put_be32(s11, DATA_HEADER_POS as u32);
    let s13 = s12 + bytes::be16(1);
    bytes::lemma_put_be16(s12, 1);
    let s14 = s13 + bytes::be16(3);
    bytes::lemma_put_be16(s13, 3);
    assert(s0 + seq![0x50u8, 0x52u8, 0x4fu8, 0x50u8] =~= seq![0x50u8, 0x52u8, 0x4fu8, 0x50u8]);
    assert(prop_bytes(frame_size, num_frames) == s14);
}

proof fn lemma_first_codec_fields(frame_size: u32) -> (c: Seq<u8>)
    requires
        frame_size * 3 <= u32::MAX,
        bitrate_of(frame_size) / 8 * 60 <= u32::MAX,
    ensures
        ({
            let rate = (bitrate_of(frame_size) / 8 * 60) as u32;
            c == bytes::be32(88) + seq![0x2eu8, 0x72u8, 0x61u8, 0xfdu8] + bytes::be16(5) + zeros(2) + seq![
        0x2eu8,
        0x72u8,
        0x61u8,
        0x35u8,
    ] + bytes::be32(0x01b53530) + bytes::be16(5) + zeros(4) + bytes::be16(2) + bytes::be32(
        (frame_size * 3) as u32,
    ) + bytes::be32(0x00051540) + bytes::be32(rate) + bytes::be32(rate) + bytes::be16(1)
        }),
        ({
            &&& c.len() == 46
            &&& bytes::be32_at(c, 0) == 88
            &&& c.subrange(4, 8) == seq![0x2eu8, 0x72u8, 0x61u8, 0xfdu8]
            &&& bytes::be16_at(c, 8) == 5
            &&& c.subrange(10, 12) == zeros(2)
            &&& c.subrange(12, 16) == seq![0x2eu8, 0x72u8, 0x61u8, 0x35u8]
            &&& bytes::be32_at(c, 16) == 0x01b53530
            &&& bytes::be16_at(c, 20) == 5
            &&& c.subrange(22, 26) == zeros(4)
            &&& bytes::be16_at(c, 26) == 2
            &&& bytes::be32_at(c, 28) == 3 * frame_size
            &&& bytes::be32_at(c, 32) == 0x00051540
            &&& bytes::be32_at(c, 36) == bitrate_of(frame_size) / 8 * 60
            &&& bytes::be32_at(c, 40) == bitrate_of(frame_size) / 8 * 60
            &&& bytes::be16_at(c, 44) == 1
        }),
{
    let rate = (bitrate_of(frame_size) / 8 * 60) as u32;
    let s0 = Seq::<u8>::empty();
    let s1 = s0 + bytes::be32(88);
    bytes::lemma_put_be32(s0, 88);
    let s2 = s1 + seq![0x2eu8, 0x72u8, 0x61u8, 0xfdu8];
    bytes::lemma_put(s1, seq![0x2eu8, 0x72u8, 0x61u8, 0xfdu8]);
    let s3 = s2 + bytes::be16(5);
    bytes::lemma_put_be16(s2, 5);
    let s4 = s3 + zeros(2);
    bytes::lemma_put(s3, zeros(2));
    let s5 = s4 + seq![0x2eu8, 0x72u8, 0x61u8, 0x35u8];
    bytes::lemma_put(s4, seq![0x2eu8, 0x72u8, 0x61u8, 0x35u8]);
    let s6 = s5 + bytes::be32(0x01b53530);
    bytes::lemma_put_be32(s5, 0x01b53530);
    let s7 = s6 + bytes::be16(5);
    bytes::lemma_put_be16(s6, 5);
    let s8 = s7 + zeros(4);
    bytes::lemma_put(s7, zeros(4));
    let s9 = s8 + bytes::be16(2);
    bytes::lemma_put_be16(s8, 2);
    let s10 = s9 + bytes::be32((frame_size * 3) as u32);
    bytes::lemma_put_be32(s9, (frame_size * 3) as u32);
    let s11 = s10 + bytes::be32(0x00051540);
    bytes::lemma_put_be32(s10, 0x00051540);
    let s12 = s11 + bytes::be32(rate);
    bytes::lemma_put_be32(s11, rate);
    let s13 = s12 + bytes::be32(rate);
    bytes::lemma_put_be32(s12, rate);
    let s14 = s13 + bytes::be16(1);
    bytes::lemma_put_be16(s13, 1);
    assert(s0 + bytes::be32(88) =~= bytes::be32(88));
    s14
}

proof fn lemma_last_codec_fields(
    a: Seq<u8>,
    frame_size: u32,
    num_channels: usize,
    joint_stereo: bool,
)
    requires
        a.len() == 46,
    ensures
        ({
            let c = a + bytes::be16((frame_size as u16 * 3) as u16) + bytes::be16(frame_size as u16) + zeros(4)
        + bytes::be16(44100) + zeros(2) + bytes::be16(44100) + zeros(2) + bytes::be16(16)
        + bytes::be16(2) + CODEC_NAME@ + zeros(2) + bytes::be32(10) + bytes::be32(4) + bytes::be16(
        (1024 * (num_channels as u16)) as u16,
    ) + bytes::be16(0x088e) + bytes::be16(
        if joint_stereo {
            0x12
        } else {
            0x02
        },
    );
            &&& c.len() == 92
            &&& bytes::extends(c, a)
            &&& frame_size * 3 <= u16::MAX ==> bytes::be16_at(c, 46) == 3 * frame_size
            &&& frame_size <= u16::MAX ==> bytes::be16_at(c, 48) == frame_size
            &&& c.subrange(50, 54) == zeros(4)
            &&& bytes::be16_at(c, 54) == 44100
            &&& c.subrange(56, 58) == zeros(2)
            &&& bytes::be16_at(c, 58) == 44100
            &&& c.subrange(60, 62) == zeros(2)
            &&& bytes::be16_at(c, 62) == 16
            &&& bytes::be16_at(c, 64) == 2
            &&& c.subrange(66, 76) == CODEC_NAME@
            &&& c.subrange(76, 78) == zeros(2)
            &&& bytes::be32_at(c, 78) == 10
            &&& bytes::be32_at(c, 82) == 4
            &&& num_channels <= 63 ==> bytes::be16_at(c, 86) == 1024 * num_channels
            &&& bytes::be16_at(c, 88) == 0x088e
            &&& joint_stereo ==> bytes::be16_at(c, 90) == 0x12
            &&& !joint_stereo ==> bytes::be16_at(c, 90) == 0x02
        }),
{
    let s1 = a + bytes::be16((frame_size as u16 * 3) as u16);
    bytes::lemma_put_be16(a, (frame_size as u16 * 3) as u16);
    let s2 = s1 + bytes::be16(frame_size as u16);
    bytes::lemma_put_be16(s1, frame_size as u16);
    let s3 = s2 + zeros(4);
    bytes::lemma_put(s2, zeros(4));
    let s4 = s3 + bytes::be16(44100);
    bytes::lemma_put_be16(s3, 44100);
    let s5 = s4 + zeros(2);
    bytes::lemma_put(s4, zeros(2));
    let s6 = s5 + bytes::be16(44100);
    bytes::lemma_put_be16(s5, 44100);
    let s7 = s6 + zeros(2);
    bytes::lemma_put(s6, zeros(2));
    let s8 = s7 + bytes::be16(16);
    bytes::lemma_put_be16(s7, 16);
    let s9 = s8 + bytes::be16(2);
    bytes::lemma_put_be16(s8, 2);
    let s10 = s9 + CODEC_NAME@;
    bytes::lemma_put(s9, CODEC_NAME@);
    let s11 = s10 + zeros(2);
    bytes::lemma_put(s10, zeros(2));
    let s12 = s11 + bytes::be32(10);
    bytes::lemma_put_be32(s11, 10);
    let s13 = s12 + bytes::be32(4);
    bytes::lemma_put_be32(s12, 4);
    let s14 = s13 + bytes::be16((1024 * (num_channels as u16)) as u16);
    bytes::lemma_put_be16(s13, (1024 * (num_channels as u16)) as u16);
    let s15 = s14 + bytes::be16(0x088e);
    bytes::lemma_put_be16(s14, 0x088e);
    let s16 = s15 + bytes::be16(if joint_stereo {
            0x12
        } else {
            0x02
        });
    bytes::lemma_put_be16(s15, if joint_stereo {
            0x12
        } else {
            0x02
        });
}

proof fn lemma_codec_fields(frame_size: u32, num_channels: usize, joint_stereo: bool)
    requires
        frame_size * 3 <= u32::MAX,
        bitrate_of(frame_size) / 8 * 60 <= u32::MAX,
    ensures
        ({
            let c = codec_bytes(frame_size, num_channels, joint_stereo);
            &&& c.len() == 92
            &&& bytes::be32_at(c, 0) == 88
            &&& c.subrange(4, 8) == seq![0x2eu8, 0x72u8, 0x61u8, 0xfdu8]
            &&& bytes::be16_at(c, 8) == 5
            &&& c.subrange(10, 12) == zeros(2)
            &&& c.subrange(12, 16) == seq![0x2eu8, 0x72u8, 0x61u8, 0x35u8]
            &&& bytes::be32_at(c, 16) == 0x01b53530
            &&& bytes::be16_at(c, 20) == 5
            &&& c.subrange(22, 26) == zeros(4)
            &&& bytes::be16_at(c, 26) == 2
            &&& bytes::be32_at(c, 28) == 3 * frame_size
            &&& bytes::be32_at(c, 32) == 0x00051540
            &&& bytes::be32_at(c, 36) == bitrate_of(frame_size) / 8 * 60
            &&& bytes::be32_at(c, 40) == bitrate_of(frame_size) / 8 * 60
            &&& bytes::be16_at(c, 44) == 1
            &&& frame_size * 3 <= u16::MAX ==> bytes::be16_at(c, 46) == 3 * frame_size
            &&& frame_size <= u16::MAX ==> bytes::be16_at(c, 48) == frame_size
            &&& c.subrange(50, 54) == zeros(4)
            &&& bytes::be16_at(c, 54) == 44100
            &&& c.subrange(56, 58) == zeros(2)
            &&& bytes::be16_at(c, 58) == 44100
            &&& c.subrange(60, 62) == zeros(2)
            &&& bytes::be16_at(c, 62) == 16
            &&& bytes::be16_at(c, 64) == 2
            &&& c.subrange(66, 76) == CODEC_NAME@
            &&& c.subrange(76, 78) == zeros(2)
            &&& bytes::be32_at(c, 78) == 10
            &&& bytes::be32_at(c, 82) == 4
            &&& num_channels <= 63 ==> bytes::be16_at(c, 86) == 1024 * num_channels
            &&& bytes::be16_at(c, 88) == 0x088e
            &&& joint_stereo ==> bytes::be16_at(c, 90) == 0x12
            &&& !joint_stereo ==> bytes::be16_at(c, 90) == 0x02
        }),
{
    let a = lemma_first_codec_fields(frame_size);
    lemma_last_codec_fields(a, frame_size, num_channels, joint_stereo);
}

proof fn lemma_mdpr_fields(frame_size: u32, num_frames: u32) -> (m: Seq<u8>)
    ensures
        m.len() == 76,
        forall|num_channels: usize, joint_stereo: bool| #[trigger]
            mdpr_bytes(frame_size, num_frames, num_channels, joint_stereo) == m + codec_bytes(
                frame_size,
                num_channels,
                joint_stereo,
            ),
        ({
            &&& m.subrange(0, 4) == seq![0x4du8, 0x44u8, 0x50u8, 0x52u8]
            &&& bytes::be32_at(m, 4) == 168
            &&& bytes::be16_at(m, 8) == 0
            &&& bytes::be16_at(m, 10) == 0
            &&& bytes::be32_at(m, 12) == bitrate_of(frame_size)
            &&& bytes::be32_at(m, 16) == bitrate_of(frame_size)
            &&& bytes::be32_at(m, 20) == frame_size
            &&& bytes::be32_at(m, 24) == frame_size
            &&& bytes::be32_at(m, 28) == 0
            &&& bytes::be32_at(m, 32) == 0
            &&& bytes::be32_at(m, 36) == duration_of(num_frames)
            &&& m.subrange(40, 41) == seq![13u8]
            &&& m.subrange(41, 54) == RA_DESC@
            &&& m.subrange(54, 55) == seq![21u8]
            &&& m.subrange(55, 76) == RA_MIME@
        }),
{
    let bitrate = bitrate_of(frame_size);
    let s0 = Seq::<u8>::empty();
    let s1 = s0 + seq![0x4du8, 0x44u8, 0x50u8, 0x52u8];
    bytes::lemma_put(s0, seq![0x4du8, 0x44u8, 0x50u8, 0x52u8]);
    let s2 = s1 + bytes::be32(MDPR_HEADER_SZ as u32);
    bytes::lemma_put_be32(s1, MDPR_HEADER_SZ as u32);
    let s3 = s2 + bytes::be16(0);
    bytes::lemma_put_be16(s2, 0);
    let s4 = s3 + bytes::be16(0);
    bytes::lemma_put_be16(s3, 0);
    let s5 = s4 + bytes::be32(bitrate);
    bytes::lemma_put_be32(s4, bitrate);
    let s6 = s5 + bytes::be32(bitrate);
    bytes::lemma_put_be32(s5, bitrate);
    let s7 = s6 + bytes::be32(frame_size);
    bytes::lemma_put_be32(s6, frame_size);
    let s8 = s7 + bytes::be32(frame_size);
    bytes::lemma_put_be32(s7, frame_size);
    let s9 = s8 + bytes::be32(0);
    bytes::lemma_put_be32(s8, 0);
    let s10 = s9 + bytes::be32(0);
    bytes::lemma_put_be32(s9, 0);
    let s11 = s10 + bytes::be32(duration_of(num_frames));
    bytes::lemma_put_be32(s10, duration_of(num_frames));
    let s12 = s11 + seq![13u8];
    bytes::lemma_put(s11, seq![13u8]);
    let s13 = s12 + RA_DESC@;
    bytes::lemma_put(s12, RA_DESC@);
    let s14 = s13 + seq![21u8];
    bytes::lemma_put(s13, seq![21u8]);
    let s15 = s14 + RA_MIME@;
    bytes::lemma_put(s14, RA_MIME@);
    assert(s0 + seq![0x4du8, 0x44u8, 0x50u8, 0x52u8] =~= seq![0x4du8, 0x44u8, 0x50u8, 0x52u8]);
    s15
}

/// A reader of the start of a file gets the format back: big endian numbers at the places
/// that the chunks give them. The sizes and the rates of the frames come once for the whole
/// and once for the stream, the channels at 230, and at 234 the mode: 18 for joint stereo
/// and else 2.
pub proof fn law_media_header_reads_back(
    frame_size: u32,
    num_frames: u32,
    num_channels: usize,
    joint_stereo: bool,
)
    requires
        frame_size * 3 <= u32::MAX,
        bitrate_of(frame_size) / 8 * 60 <= u32::MAX,
    ensures
        ({
            let h = media_header(frame_size, num_frames, num_channels, joint_stereo);
            &&& h.len() == 236
            &&& h.subrange(0, 4) == seq![0x2eu8, 0x52u8, 0x4du8, 0x46u8]
            &&& bytes::be32_at(h, 4) == 18
            &&& bytes::be16_at(h, 8) == 0
            &&& bytes::be32_at(h, 10) == 0
            &&& bytes::be32_at(h, 14) == 4
            &&& h.subrange(18, 22) == seq![0x50u8, 0x52u8, 0x4fu8, 0x50u8]
            &&& bytes::be32_at(h, 22) == 50
            &&& bytes::be16_at(h, 26) == 0
            &&& bytes::be32_at(h, 28) == bitrate_of(frame_size)
            &&& bytes::be32_at(h, 32) == bitrate_of(frame_size)
            &&& bytes::be32_at(h, 36) == frame_size
            &&& bytes::be32_at(h, 40) == frame_size
            &&& bytes::be32_at(h, 44) == num_frames
            &&& bytes::be32_at(h, 48) == duration_of(num_frames)
            &&& bytes::be32_at(h, 52) == 0
            &&& bytes::be32_at(h, 56) == 0
            &&& bytes::be32_at(h, 60) == 236
            &&& bytes::be16_at(h, 64) == 1
            &&& bytes::be16_at(h, 66) == 3
            &&& h.subrange(68, 72) == seq![0x4du8, 0x44u8, 0x50u8, 0x52u8]
            &&& bytes::be32_at(h, 72) == 168
            &&& bytes::be16_at(h, 76) == 0
            &&& bytes::be16_at(h, 78) == 0
            &&& bytes::be32_at(h, 80) == bitrate_of(frame_size)
            &&& bytes::be32_at(h, 84) == bitrate_of(frame_size)
            &&& bytes::be32_at(h, 88) == frame_size
            &&& bytes::be32_at(h, 92) == frame_size
            &&& bytes::be32_at(h, 96) == 0
            &&& bytes::be32_at(h, 100) == 0
            &&& bytes::be32_at(h, 104) == duration_of(num_frames)
            &&& h.subrange(108, 109) == seq![13u8]
            &&& h.subrange(109, 122) == RA_DESC@
            &&& h.subrange(122, 123) == seq![21u8]
            &&& h.subrange(123, 144) == RA_MIME@
            &&& bytes::be32_at(h, 144) == 88
            &&& h.subrange(148, 152) == seq![0x2eu8, 0x72u8, 0x61u8, 0xfdu8]
            &&& bytes::be16_at(h, 152) == 5
            &&& h.subrange(154, 156) == zeros(2)
            &&& h.subrange(156, 160) == seq![0x2eu8, 0x72u8, 0x61u8, 0x35u8]
            &&& bytes::be32_at(h, 160) == 0x01b53530
            &&& bytes::be16_at(h, 164) == 5
            &&& h.subrange(166, 170) == zeros(4)
            &&& bytes::be16_at(h, 170) == 2
            &&& bytes::be32_at(h, 172) == 3 * frame_size
            &&& bytes::be32_at(h, 176) == 0x00051540
            &&& bytes::be32_at(h, 180) == bitrate_of(frame_size) / 8 * 60
            &&& bytes::be32_at(h, 184) == bitrate_of(frame_size) / 8 * 60
            &&& bytes::be16_at(h, 188) == 1
            &&& frame_size * 3 <= u16::MAX ==> bytes::be16_at(h, 190) == 3 * frame_size
            &&& frame_size <= u16::MAX ==> bytes::be16_at(h, 192) == frame_size
            &&& h.subrange(194, 198) == zeros(4)
            &&& bytes::be16_at(h, 198) == 44100
            &&& h.subrange(200, 202) == zeros(2)
            &&& bytes::be16_at(h, 202) == 44100
            &&& h.subrange(204, 206) == zeros(2)
            &&& bytes::be16_at(h, 206) == 16
            &&& bytes::be16_at(h, 208) == 2
            &&& h.subrange(210, 220) == CODEC_NAME@
            &&& h.subrange(220, 222) == zeros(2)
            &&& bytes::be32_at(h, 222) == 10
            &&& bytes::be32_at(h, 226) == 4
            &&& num_channels <= 63 ==> bytes::be16_at(h, 230) == 1024 * num_channels
            &&& bytes::be16_at(h, 232) == 0x088e
            &&& joint_stereo ==> bytes::be16_at(h, 234) == 0x12
            &&& !joint_stereo ==> bytes::be16_at(h, 234) == 0x02
        }),
{
    reveal(media_header);
    let h = media_header(frame_size, num_frames, num_channels, joint_stereo);
    let r = rmf_bytes();
    let p = prop_bytes(frame_size, num_frames);
    let m = lemma_mdpr_fields(frame_size, num_frames);
    let c = codec_bytes(frame_size, num_channels, joint_stereo);
    lemma_rmf_fields();
    lemma_prop_fields(frame_size, num_frames);
    lemma_codec_fields(frame_size, num_channels, joint_stereo);
    assert(mdpr_bytes(frame_size, num_frames, num_channels, joint_stereo) == m + c);
    lemma_joined(r, p, m, c);
    assert(h =~= r + p + m + c);
}

/// Four strings of bytes in a row: each is read where it stands.
proof fn lemma_joined(r: Seq<u8>, p: Seq<u8>, m: Seq<u8>, c: Seq<u8>)
    ensures
        bytes::extends(r + p + m + c, r),
        forall|at: int|
            r.len() <= at && at + 2 <= r.len() + p.len() ==> #[trigger] bytes::be16_at(
                r + p + m + c,
                at,
            ) == bytes::be16_at(p, at - r.len()),
        forall|at: int|
            r.len() <= at && at + 4 <= r.len() + p.len() ==> #[trigger] bytes::be32_at(
                r + p + m + c,
                at,
            ) == bytes::be32_at(p, at - r.len()),
        forall|at: int, end: int|
            r.len() <= at <= end <= r.len() + p.len() ==> #[trigger] (r + p + m + c).subrange(at, end)
                == p.subrange(at - r.len(), end - r.len()),
        forall|at: int|
            r.len() + p.len() <= at && at + 2 <= r.len() + p.len() + m.len()
                ==> #[trigger] bytes::be16_at(r + p + m + c, at) == bytes::be16_at(
                m,
                at - r.len() - p.len(),
            ),
        forall|at: int|
            r.len() + p.len() <= at && at + 4 <= r.len() + p.len() + m.len()
                ==> #[trigger] bytes::be32_at(r + p + m + c, at) == bytes::be32_at(
                m,
                at - r.len() - p.len(),
            ),
        forall|at: int, end: int|
            r.len() + p.len() <= at <= end <= r.len() + p.len() + m.len() ==> #[trigger] (r + p + m
                + c).subrange(at, end) == m.subrange(at - r.len() - p.len(), end - r.len() - p.len()),
        forall|at: int|
            r.len() + p.len() + m.len() <= at && at + 2 <= r.len() + p.len() + m.len() + c.len()
                ==> #[trigger] bytes::be16_at(r + p + m + c, at) == bytes::be16_at(
                c,
                at - r.len() - p.len() - m.len(),
            ),
        forall|at: int|
            r.len() + p.len() + m.len() <= at && at + 4 <= r.len() + p.len() + m.len() + c.len()
                ==> #[trigger] bytes::be32_at(r + p + m + c, at) == bytes::be32_at(
                c,
                at - r.len() - p.len() - m.len(),
            ),
        forall|at: int, end: int|
            r.len() + p.len() + m.len() <= at <= end <= r.len() + p.len() + m.len() + c.len()
                ==> #[trigger] (r + p + m + c).subrange(at, end) == c.subrange(
                at - r.len() - p.len() - m.len(),
                end - r.len() - p.len() - m.len(),
            ),
{
    bytes::lemma_put(r, p);
    bytes::lemma_behind(r, p);
    bytes::lemma_put(r + p, m);
    bytes::lemma_behind(r + p, m);
    bytes::lemma_put(r + p + m, c);
    bytes::lemma_behind(r + p + m, c);
}

/// The start of the data chunk: its size at 4, the number of frames at 10.
pub proof fn law_data_header_reads_back(size: u32, num_frames: u32)
    ensures
        ({
            let d = data_bytes(size, num_frames);
            &&& d.len() == 18
            &&& d.subrange(0, 4) == seq![0x44u8, 0x41u8, 0x54u8, 0x41u8]
            &&& bytes::be32_at(d, 4) == size
            &&& bytes::be16_at(d, 8) == 0
            &&& bytes::be32_at(d, 10) == num_frames
            &&& bytes::be32_at(d, 14) == 0
        }),
{
    reveal(bytes::be16_at);
    reveal(bytes::be32_at);
}

/// The rate is that of frames of eight times their bytes, 44100 times in 1024 samples,
/// rounded down; the duration that of 1024 samples for each frame, in milliseconds; both as
/// far as 32 bits hold them.
pub proof fn law_rate_and_duration(frame_size: u32, num_frames: u32)
    ensures
        ({
            let b = bitrate_of(frame_size) as int;
            &&& b * 1024 <= 8 * frame_size * 44100
            &&& b < u32::MAX ==> 8 * frame_size * 44100 < (b + 1) * 1024
        }),
        ({
            let d = duration_of(num_frames) as int;
            &&& d * 44100 <= num_frames * 1024 * 1000
            &&& d < u32::MAX ==> num_frames * 1024 * 1000 < (d + 1) * 44100
        }),
{
}

/// Scrambling mixes every byte with one of four, taken in turn.
pub proof fn law_scramble_key(data: Seq<u8>, i: int)
    requires
        0 <= i < data.len(),
    ensures
        scrambled(data).len() == data.len(),
        i % 4 == 0 ==> scrambled(data)[i] == data[i] ^ 0x53,
        i % 4 == 1 ==> scrambled(data)[i] == data[i] ^ 0x7f,
        i % 4 == 2 ==> scrambled(data)[i] == data[i] ^ 0x61,
        i % 4 == 3 ==> scrambled(data)[i] == data[i] ^ 0x03,
{
}

/// Every third frame opens a packet: two bytes 0, the size of the packet, two bytes 0, the
/// time stamp of its number, 0 and 2. The frames themselves are read back by scrambling
/// them once more.
pub proof fn law_packets_read_back(n: nat, data: Seq<u8>)
    requires
        3 * data.len() + 12 <= u16::MAX,
    ensures
        ({
            let p = packet_bytes(n, data);
            &&& n % 3 == 0 ==> {
                &&& p.len() == 12 + data.len()
                &&& bytes::be16_at(p, 0) == 0
                &&& bytes::be16_at(p, 2) == 3 * data.len() + 12
                &&& bytes::be16_at(p, 4) == 0
                &&& bytes::be32_at(p, 6) == stamp_of(packet_time(n / 3))
                &&& p[10] == 0 && p[11] == 2
                &&& scrambled(p.skip(12)) == data
            }
            &&& n % 3 != 0 ==> scrambled(p) == data
        }),
{
    reveal(bytes::be16_at);
    reveal(bytes::be32_at);
    law_scramble_undoes_itself(data);
    if n % 3 == 0 {
        assert(packet_bytes(n, data).skip(12) =~= scrambled(data));
    }
}

/// Rounding a time takes the nearest of the times with 53 significant bits, of two the one
/// with an even number of steps, and leaves alone what has no more.
pub proof fn law_rounds_to_nearest(x: nat)
    ensures
        x < 0x20_0000_0000_0000 ==> rounded(x) == x,
        2 * (rounded(x) - x) <= rounding_unit(x),
        2 * (x - rounded(x)) <= rounding_unit(x),
        rounded(x) % rounding_unit(x) == 0,
        2 * (rounded(x) - x) == rounding_unit(x) || 2 * (x - rounded(x)) == rounding_unit(x)
            ==> rounded(x) / rounding_unit(x) % 2 == 0,
{
    lemma_rounding_unit(x);
    lemma_rounded(x);
    let u = rounding_unit(x) as int;
    vstd::arithmetic::div_mod::lemma_fundamental_div_mod(x as int, u);
    vstd::arithmetic::div_mod::lemma_mod_bound(x as int, u);
    let q = x as int / u;
    assert((q + 1) * u == q * u + u && q * u == u * q) by (nonlinear_arith);
    vstd::arithmetic::div_mod::lemma_fundamental_div_mod_converse(q * u, u, q, 0);
    vstd::arithmetic::div_mod::lemma_fundamental_div_mod_converse((q + 1) * u, u, q + 1, 0);
}

/// A packet is later than the one before by the time of three frames, up to rounding; that
/// time is 3072 samples at 44100 a second, to one part. Stamps are whole milliseconds.
pub proof fn law_packet_times(k: nat)
    ensures
        packet_time(0) == 0,
        -44100 < PACKET_TIME * 44100 - 3072 * 1000 * TIME_UNIT < 44100,
        2 * (packet_time(k + 1) - packet_time(k) - PACKET_TIME) <= rounding_unit(
            (packet_time(k) + PACKET_TIME) as nat,
        ),
        2 * (packet_time(k) + PACKET_TIME - packet_time(k + 1)) <= rounding_unit(
            (packet_time(k) + PACKET_TIME) as nat,
        ),
        packet_time(k) < u32::MAX * TIME_UNIT ==> stamp_of(packet_time(k)) * TIME_UNIT <= packet_time(k)
            < (stamp_of(packet_time(k)) + 1) * TIME_UNIT,
{
    law_rounds_to_nearest((packet_time(k) + PACKET_TIME) as nat);
}

/// Frames of just the frame size are appended, scrambled, and others are refused; every third
/// one from the first on opens a packet.
pub proof fn law_written_frames(
    out: RmOutput,
    data: Seq<u8>,
    after: RmOutput,
    r: Result<(), ContainerError>,
)
    requires
        out.wrote(data, &after, r),
    ensures
        ({
            let at = out.contents().len() as int;
            let head = if out.num_written() as int % 3 == 0 {
                12int
            } else {
                0
            };
            &&& r is Ok <==> data.len() == out.spec_frame_size()
            &&& r is Err ==> after.contents() == out.contents() && after.num_written()
                == out.num_written()
            &&& r is Ok ==> {
                &&& after.contents().len() == at + head + data.len()
                &&& after.contents().take(at) == out.contents()
                &&& scrambled(after.contents().skip(at + head)) == data
                &&& after.num_written() == out.num_written() + 1
            }
        }),
{
    let at = out.contents().len() as int;
    if r is Ok {
        law_scramble_undoes_itself(data);
        assert(after.contents().take(at) =~= out.contents());
        if out.num_written() as int % 3 == 0 {
            assert(after.contents().skip(at + 12) =~= scrambled(data));
        } else {
            assert(after.contents().skip(at) =~= scrambled(data));
        }
    }
}

/// A finished file tells the size of all from its data chunk on, big endian, at 240, and is
/// otherwise as it was; one too large for that stays as it is.
pub proof fn law_data_size_told(file: Seq<u8>, i: int)
    requires
        file.len() >= 254,
        0 <= i < file.len(),
    ensures
        with_data_size(file).len() == file.len(),
        file.len() - 236 <= u32::MAX ==> bytes::be32_at(with_data_size(file), 240) == file.len() - 236,
        i < 240 || i >= 244 ==> with_data_size(file)[i] == file[i],
        file.len() - 236 > u32::MAX ==> with_data_size(file) == file,
{
    reveal(bytes::be32_at);
}

} // verus!
