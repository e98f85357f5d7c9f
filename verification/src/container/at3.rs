//! RIFF files with ATRAC3 or ATRAC3plus frames.

use vstd::prelude::*;
use crate::container::bytes;
use crate::container::bytes::{patch, push_bytes, push_u16_le, push_u32_le};
use crate::container::{CompressedOutput, ContainerError};

verus! {

pub const WAVE_SAMPLE_RATE: u32 = 44100;

pub const AT3_SAMPLES_PER_FRAME: u32 = 1024;

pub const AT3P_SAMPLES_PER_FRAME: u32 = 2048;

pub const AT3_HEADER_SIZE: usize = 76;

pub const AT3P_HEADER_SIZE: usize = 80;

pub const ATRAC3PLUS_SUBFORMAT_GUID: [u8; 16] = [
    0xBF, 0xAA, 0x23, 0xE9, 0x58, 0xCB, 0x71, 0x44, 0xA1, 0x19, 0xFF, 0xFA, 0x01, 0xE4, 0xCE, 0x62,
];

#[derive(Debug, Clone, Copy, Eq, PartialEq, Structural)]
pub enum At3Kind {
    Atrac3 { joint_stereo: bool },
    Atrac3Plus,
}

pub open spec fn header_size(kind: At3Kind) -> int {
    match kind {
        At3Kind::Atrac3 { .. } => AT3_HEADER_SIZE as int,
        At3Kind::Atrac3Plus => AT3P_HEADER_SIZE as int,
    }
}

pub open spec fn samples_per_frame(kind: At3Kind) -> int {
    match kind {
        At3Kind::Atrac3 { .. } => AT3_SAMPLES_PER_FRAME as int,
        At3Kind::Atrac3Plus => AT3P_SAMPLES_PER_FRAME as int,
    }
}

/// The size of a file with `num_frames` frames.
pub open spec fn file_size(kind: At3Kind, num_frames: int, frame_size: int) -> int {
    header_size(kind) + num_frames * frame_size
}

/// "RIFF", what follows, "WAVE" and the start of the format chunk.
pub open spec fn riff_prefix(chunk_size: u32, fmt_size: u32) -> Seq<u8> {
    seq![0x52u8, 0x49u8, 0x46u8, 0x46u8] + bytes::le32(chunk_size) + seq![
        0x57u8,
        0x41u8,
        0x56u8,
        0x45u8,
        0x66u8,
        0x6du8,
        0x74u8,
        0x20u8,
    ] + bytes::le32(fmt_size)
}

/// The speaker positions of a number of channels.
pub open spec fn channel_mask(channels: usize) -> u32 {
    if channels == 1 {
        4
    } else if channels == 2 {
        3
    } else {
        0
    }
}

/// The format chunk from its code on.
pub open spec fn format_bytes(kind: At3Kind, channels: usize, frame_size: u32) -> Seq<u8> {
    match kind {
        At3Kind::Atrac3 { joint_stereo } => {
            let mode: u16 = if joint_stereo {
                1
            } else {
                0
            };
            bytes::le16(0x0270) + bytes::le16(channels as u16) + bytes::le32(WAVE_SAMPLE_RATE)
                + bytes::le32((frame_size * 44100 / 1024) as u32) + bytes::le16(frame_size as u16)
                + bytes::le16(0) + bytes::le16(14) + bytes::le16(1) + bytes::le32(0x1000)
                + bytes::le16(mode) + bytes::le16(mode) + bytes::le16(1) + bytes::le16(0)
        },
        At3Kind::Atrac3Plus => bytes::le16(0xfffe) + bytes::le16(channels as u16) + bytes::le32(
            WAVE_SAMPLE_RATE,
        ) + bytes::le32((frame_size * 44100 / 2048) as u32) + bytes::le16(frame_size as u16)
            + bytes::le16(16) + bytes::le16(22) + bytes::le16(16) + bytes::le32(
            channel_mask(channels),
        ) + ATRAC3PLUS_SUBFORMAT_GUID@,
    }
}

/// "fact" with the number of samples, and "data" with the number of bytes.
pub open spec fn tail_bytes(kind: At3Kind, samples: u32, data_size: u32) -> Seq<u8> {
    seq![0x66u8, 0x61u8, 0x63u8, 0x74u8] + (match kind {
        At3Kind::Atrac3 { .. } => bytes::le32(8) + bytes::le32(samples) + bytes::le32(
            AT3_SAMPLES_PER_FRAME,
        ),
        At3Kind::Atrac3Plus => bytes::le32(4) + bytes::le32(samples),
    }) + seq![0x64u8, 0x61u8, 0x74u8, 0x61u8] + bytes::le32(data_size)
}

/// The header of a file with `num_frames` frames.
#[verifier::opaque]
pub open spec fn at3_header(
    kind: At3Kind,
    channels: usize,
    num_frames: int,
    frame_size: u32,
) -> Seq<u8> {
    riff_prefix(
        (file_size(kind, num_frames, frame_size as int) - 8) as u32,
        match kind {
            At3Kind::Atrac3 { .. } => 32,
            At3Kind::Atrac3Plus => 40,
        },
    ) + format_bytes(kind, channels, frame_size) + tail_bytes(
        kind,
        (num_frames * samples_per_frame(kind)) as u32,
        (num_frames * frame_size) as u32,
    )
}

/// The numbers of a header fit into their fields.
pub open spec fn header_fits(kind: At3Kind, num_frames: int, frame_size: u32) -> bool {
    &&& frame_size * 44100 <= u32::MAX
    &&& num_frames * samples_per_frame(kind) <= u32::MAX
}

fn write_riff_prefix(buf: &mut Vec<u8>, chunk_size: u32, fmt_size: u32)
    ensures
        final(buf)@ == old(buf)@ + riff_prefix(chunk_size, fmt_size),
{
    buf.push(0x52);
    buf.push(0x49);
    buf.push(0x46);
    buf.push(0x46);
    push_u32_le(buf, chunk_size);
    buf.push(0x57);
    buf.push(0x41);
    buf.push(0x56);
    buf.push(0x45);
    buf.push(0x66);
    buf.push(0x6d);
    buf.push(0x74);
    buf.push(0x20);
    push_u32_le(buf, fmt_size);
    assert(buf@ =~= old(buf)@ + riff_prefix(chunk_size, fmt_size));
}

fn wave_channel_mask(channels: usize) -> (m: u32)
    ensures
        m == channel_mask(channels),
{
    match channels {
        1 => 4,
        2 => 3,
        _ => 0,
    }
}

fn write_format(buf: &mut Vec<u8>, kind: At3Kind, channels: usize, frame_size: u32)
    requires
        frame_size * 44100 <= u32::MAX,
    ensures
        final(buf)@ == old(buf)@ + format_bytes(kind, channels, frame_size),
{
    let channels16: u16 =
        #[verifier::truncate]
        (channels as u16);
    let frame_size16: u16 =
        #[verifier::truncate]
        (frame_size as u16);
    match kind {
        At3Kind::Atrac3 { joint_stereo } => {
            push_u16_le(buf, 0x0270);
            push_u16_le(buf, channels16);
            push_u32_le(buf, WAVE_SAMPLE_RATE);
            push_u32_le(buf, frame_size * WAVE_SAMPLE_RATE / AT3_SAMPLES_PER_FRAME);
            push_u16_le(buf, frame_size16);
            push_u16_le(buf, 0);
            push_u16_le(buf, 14);
            push_u16_le(buf, 1);
            push_u32_le(buf, 0x1000);
            let mode: u16 = if joint_stereo {
                1
            } else {
                0
            };
            push_u16_le(buf, mode);
            push_u16_le(buf, mode);
            push_u16_le(buf, 1);
            push_u16_le(buf, 0);
        },
        At3Kind::Atrac3Plus => {
            push_u16_le(buf, 0xfffe);
            push_u16_le(buf, channels16);
            push_u32_le(buf, WAVE_SAMPLE_RATE);
            push_u32_le(buf, frame_size * WAVE_SAMPLE_RATE / AT3P_SAMPLES_PER_FRAME);
            push_u16_le(buf, frame_size16);
            push_u16_le(buf, 16);
            push_u16_le(buf, 22);
            push_u16_le(buf, 16);
            push_u32_le(buf, wave_channel_mask(channels));
            push_bytes(buf, ATRAC3PLUS_SUBFORMAT_GUID.as_slice());
        },
    }
    assert(buf@ =~= old(buf)@ + format_bytes(kind, channels, frame_size));
}

fn write_tail(buf: &mut Vec<u8>, kind: At3Kind, samples: u32, data_size: u32)
    ensures
        final(buf)@ == old(buf)@ + tail_bytes(kind, samples, data_size),
{
    buf.push(0x66);
    buf.push(0x61);
    buf.push(0x63);
    buf.push(0x74);
    match kind {
        At3Kind::Atrac3 { .. } => {
            push_u32_le(buf, 8);
            push_u32_le(buf, samples);
            push_u32_le(buf, AT3_SAMPLES_PER_FRAME);
        },
        At3Kind::Atrac3Plus => {
            push_u32_le(buf, 4);
            push_u32_le(buf, samples);
        },
    }
    buf.push(0x64);
    buf.push(0x61);
    buf.push(0x74);
    buf.push(0x61);
    push_u32_le(buf, data_size);
    assert(buf@ =~= old(buf)@ + tail_bytes(kind, samples, data_size));
}

fn build_header(kind: At3Kind, channels: usize, num_frames: u32, frame_size: u32) -> (h: Vec<u8>)
    requires
        file_size(kind, num_frames as int, frame_size as int) < u32::MAX,
        header_fits(kind, num_frames as int, frame_size),
    ensures
        h@ == at3_header(kind, channels, num_frames as int, frame_size),
{
    assert(num_frames * frame_size >= 0) by (nonlinear_arith);
    let mut h: Vec<u8> = Vec::new();
    let data_size: u32 = num_frames * frame_size;
    match kind {
        At3Kind::Atrac3 { .. } => write_riff_prefix(
            &mut h,
            AT3_HEADER_SIZE as u32 + data_size - 8,
            32,
        ),
        At3Kind::Atrac3Plus => write_riff_prefix(
            &mut h,
            AT3P_HEADER_SIZE as u32 + data_size - 8,
            40,
        ),
    }
    write_format(&mut h, kind, channels, frame_size);
    let per_frame: u32 = match kind {
        At3Kind::Atrac3 { .. } => AT3_SAMPLES_PER_FRAME,
        At3Kind::Atrac3Plus => AT3P_SAMPLES_PER_FRAME,
    };
    write_tail(&mut h, kind, num_frames * per_frame, data_size);
    reveal(at3_header);
    assert(h@ =~= at3_header(kind, channels, num_frames as int, frame_size));
    h
}

pub proof fn lemma_header_len(kind: At3Kind, channels: usize, num_frames: int, frame_size: u32)
    ensures
        at3_header(kind, channels, num_frames, frame_size).len() == header_size(kind),
{
    reveal(at3_header);
}

/// Writes RIFF files. The header first tells an announced number of frames; in the
/// finished file it tells those that were written.
#[derive(Debug, Clone)]
pub struct At3Output {
    inner: Vec<u8>,
    kind: At3Kind,
    frame_size: u32,
    announced: u32,
    frames_written: u64,
    channels: usize,
}

impl At3Output {
    /// The file so far.
    pub closed spec fn contents(&self) -> Seq<u8> {
        self.inner@
    }

    pub closed spec fn spec_kind(&self) -> At3Kind {
        self.kind
    }

    pub closed spec fn spec_frame_size(&self) -> u32 {
        self.frame_size
    }

    /// The number of frames that the header tells.
    pub closed spec fn num_announced(&self) -> u32 {
        self.announced
    }

    pub closed spec fn num_written(&self) -> u64 {
        self.frames_written
    }

    pub closed spec fn spec_channels(&self) -> usize {
        self.channels
    }

    /// The header of a file with `n` frames.
    pub open spec fn header_for(&self, n: int) -> Seq<u8> {
        at3_header(self.spec_kind(), self.spec_channels(), n, self.spec_frame_size())
    }

    /// The frames written so far.
    pub open spec fn data(&self) -> Seq<u8> {
        self.contents().skip(header_size(self.spec_kind()))
    }

    pub open spec fn wf(&self) -> bool {
        &&& self.contents() == self.header_for(self.num_announced() as int) + self.data()
        &&& self.data().len() == self.num_written() * self.spec_frame_size()
        &&& self.spec_frame_size() * 44100 <= u32::MAX
    }

    /// The file is too large for its size to be told.
    pub open spec fn too_large(&self) -> bool {
        self.contents().len() >= u32::MAX
    }

    /// The parameters of the output are those of `other`.
    pub open spec fn same_format(&self, other: &Self) -> bool {
        &&& self.spec_kind() == other.spec_kind()
        &&& self.spec_frame_size() == other.spec_frame_size()
        &&& self.spec_channels() == other.spec_channels()
    }

    /// A file of one kind with its header.
    fn start(kind: At3Kind, channels: usize, num_frames: u32, frame_size: u32) -> (r: Result<
        Self,
        ContainerError,
    >)
        requires
            file_size(kind, num_frames as int, frame_size as int) < u32::MAX ==> header_fits(
                kind,
                num_frames as int,
                frame_size,
            ),
        ensures
            match r {
                Ok(o) => {
                    &&& file_size(kind, num_frames as int, frame_size as int) < u32::MAX
                    &&& o.wf()
                    &&& o.spec_kind() == kind
                    &&& o.spec_frame_size() == frame_size
                    &&& o.spec_channels() == channels
                    &&& o.num_announced() == num_frames
                    &&& o.num_written() == 0
                    &&& o.data() == Seq::<u8>::empty()
                },
                Err(e) => {
                    &&& file_size(kind, num_frames as int, frame_size as int) >= u32::MAX
                    &&& e == ContainerError::InvalidInput("RIFF file too large")
                },
            },
    {
        assert(0 <= num_frames * frame_size <= 0xffff_ffff * 0xffff_ffff) by (nonlinear_arith)
            requires
                num_frames <= 0xffff_ffff,
                frame_size <= 0xffff_ffff,
        ;
        let header_len: u64 = match kind {
            At3Kind::Atrac3 { .. } => AT3_HEADER_SIZE as u64,
            At3Kind::Atrac3Plus => AT3P_HEADER_SIZE as u64,
        };
        let size: u64 = header_len + num_frames as u64 * frame_size as u64;
        if size >= u32::MAX as u64 {
            return Err(ContainerError::InvalidInput("RIFF file too large"));
        }
        let inner: Vec<u8> = build_header(kind, channels, num_frames, frame_size);
        let o = At3Output {
            inner,
            kind,
            frame_size,
            announced: num_frames,
            frames_written: 0,
            channels,
        };
        proof {
            lemma_header_len(kind, channels, num_frames as int, frame_size);
            assert(o.data() =~= Seq::<u8>::empty());
            assert(o.num_written() * o.spec_frame_size() == 0) by (nonlinear_arith)
                requires
                    o.num_written() == 0,
            ;
            assert(o.contents() =~= o.header_for(num_frames as int) + o.data());
        }
        Ok(o)
    }

    /// A file of ATRAC3 frames.
    pub fn atrac3(channels: usize, num_frames: u32, frame_size: u32, joint_stereo: bool) -> (r: Result<
        Self,
        ContainerError,
    >)
        requires
            file_size(
                At3Kind::Atrac3 { joint_stereo },
                num_frames as int,
                frame_size as int,
            ) < u32::MAX ==> header_fits(
                At3Kind::Atrac3 { joint_stereo },
                num_frames as int,
                frame_size,
            ),
        ensures
            match r {
                Ok(o) => {
                    &&& AT3_HEADER_SIZE + num_frames * frame_size < u32::MAX
                    &&& o.wf()
                    &&& o.spec_kind() == (At3Kind::Atrac3 { joint_stereo })
                    &&& o.spec_frame_size() == frame_size
                    &&& o.spec_channels() == channels
                    &&& o.num_announced() == num_frames
                    &&& o.num_written() == 0
                    &&& o.data() == Seq::<u8>::empty()
                },
                Err(e) => {
                    &&& AT3_HEADER_SIZE + num_frames * frame_size >= u32::MAX
                    &&& e == ContainerError::InvalidInput("RIFF file too large")
                },
            },
    {
        Self::start(At3Kind::Atrac3 { joint_stereo }, channels, num_frames, frame_size)
    }

    /// A file of ATRAC3plus frames.
    pub fn atrac3plus(channels: usize, num_frames: u32, frame_size: u32) -> (r: Result<
        Self,
        ContainerError,
    >)
        requires
            channels <= u16::MAX && frame_size <= u16::MAX && file_size(
                At3Kind::Atrac3Plus,
                num_frames as int,
                frame_size as int,
            ) < u32::MAX ==> header_fits(At3Kind::Atrac3Plus, num_frames as int, frame_size),
        ensures
            match r {
                Ok(o) => {
                    &&& channels <= u16::MAX
                    &&& frame_size <= u16::MAX
                    &&& AT3P_HEADER_SIZE + num_frames * frame_size < u32::MAX
                    &&& o.wf()
                    &&& o.spec_kind() == At3Kind::Atrac3Plus
                    &&& o.spec_frame_size() == frame_size
                    &&& o.spec_channels() == channels
                    &&& o.num_announced() == num_frames
                    &&& o.num_written() == 0
                    &&& o.data() == Seq::<u8>::empty()
                },
                Err(e) => {
                    if channels > u16::MAX {
                        e == ContainerError::InvalidInput("too many ATRAC3plus channels")
                    } else if frame_size > u16::MAX {
                        e == ContainerError::InvalidInput("ATRAC3plus frame size too large")
                    } else {
                        AT3P_HEADER_SIZE + num_frames * frame_size >= u32::MAX && e
                            == ContainerError::InvalidInput("RIFF file too large")
                    }
                },
            },
    {
        if channels > u16::MAX as usize {
            return Err(ContainerError::InvalidInput("too many ATRAC3plus channels"));
        }
        if frame_size > u16::MAX as u32 {
            return Err(ContainerError::InvalidInput("ATRAC3plus frame size too large"));
        }
        Self::start(At3Kind::Atrac3Plus, channels, num_frames, frame_size)
    }

    /// Makes the header tell the frames that were written, where the size of the
    /// file can be told at all.
    pub fn finalize(&mut self) -> (r: Result<(), ContainerError>)
        requires
            old(self).wf(),
            !old(self).too_large() ==> old(self).num_written() * samples_per_frame(
                old(self).spec_kind(),
            ) <= u32::MAX,
        ensures
            r is Ok,
            final(self).wf(),
            final(self).same_format(old(self)),
            final(self).data() == old(self).data(),
            final(self).num_written() == old(self).num_written(),
            final(self).num_announced() == (if old(self).too_large() {
                old(self).num_announced() as int
            } else {
                old(self).num_written() as int
            }),
    {
        if self.inner.len() >= u32::MAX as usize {
            return Ok(());
        }
        proof {
            lemma_header_len(self.kind, self.channels, self.announced as int, self.frame_size);
            assert(self.contents().len() == file_size(
                self.kind,
                self.frames_written as int,
                self.frame_size as int,
            ));
        }
        assert(self.frames_written <= u32::MAX) by (nonlinear_arith)
            requires
                self.frames_written * samples_per_frame(self.kind) <= u32::MAX,
                samples_per_frame(self.kind) >= 1,
        ;
        let written: u32 = self.frames_written as u32;
        let header: Vec<u8> = build_header(self.kind, self.channels, written, self.frame_size);
        proof {
            lemma_header_len(self.kind, self.channels, written as int, self.frame_size);
        }
        patch(&mut self.inner, 0, header.as_slice());
        self.announced = written;
        proof {
            assert(self.data() =~= old(self).data());
            assert(self.contents() =~= self.header_for(written as int) + self.data());
        }
        Ok(())
    }

    /// The finished file.
    pub fn into_inner(self) -> (r: Result<Vec<u8>, ContainerError>)
        requires
            self.wf(),
            !self.too_large() ==> self.num_written() * samples_per_frame(self.spec_kind())
                <= u32::MAX,
        ensures
            r matches Ok(file) && file@ == self.header_for(
                if self.too_large() {
                    self.num_announced() as int
                } else {
                    self.num_written() as int
                },
            ) + self.data(),
    {
        let mut out = self;
        let _ = out.finalize();
        Ok(out.inner)
    }
}

impl CompressedOutput for At3Output {
    open spec fn ready(&self) -> bool {
        self.wf()
    }

    open spec fn has_room(&self, len: nat) -> bool {
        self.num_written() < u64::MAX
    }

    open spec fn wrote(&self, data: Seq<u8>, after: &Self, r: Result<(), ContainerError>) -> bool {
        &&& after.same_format(self)
        &&& after.num_announced() == self.num_announced()
        &&& match r {
            Ok(_) => {
                &&& data.len() == self.spec_frame_size()
                &&& after.data() == self.data() + data
                &&& after.num_written() == self.num_written() + 1
            },
            Err(e) => {
                &&& data.len() != self.spec_frame_size()
                &&& e == ContainerError::InvalidInput("unexpected AT3 frame size")
                &&& after.data() == self.data()
                &&& after.num_written() == self.num_written()
            },
        }
    }

    fn write_frame(&mut self, data: &[u8]) -> (r: Result<(), ContainerError>)
    {
        if data.len() != self.frame_size as usize {
            return Err(ContainerError::InvalidInput("unexpected AT3 frame size"));
        }
        proof {
            lemma_header_len(self.kind, self.channels, self.announced as int, self.frame_size);
        }
        push_bytes(&mut self.inner, data);
        self.frames_written = self.frames_written + 1;
        proof {
            assert(self.data() =~= old(self).data() + data@);
            assert(self.contents() =~= self.header_for(self.announced as int) + self.data());
            let n = old(self).frames_written as int;
            let f = self.frame_size as int;
            assert((n + 1) * f == n * f + f) by (nonlinear_arith);
        }
        Ok(())
    }

    fn name(&self) -> (n: &str)
        ensures
            n@ == ""@,
    {
        ""
    }

    fn channels(&self) -> (n: usize)
        ensures
            n == self.spec_channels(),
    {
        self.channels
    }
}

proof fn lemma_format_len(kind: At3Kind, channels: usize, frame_size: u32)
    ensures
        format_bytes(kind, channels, frame_size).len() == (match kind {
            At3Kind::Atrac3 { .. } => 32int,
            At3Kind::Atrac3Plus => 40,
        }),
{
}

proof fn lemma_tail_same(kind: At3Kind, s1: u32, d1: u32, s2: u32, d2: u32, i: int)
    requires
        0 <= i < tail_bytes(kind, s1, d1).len() - 4,
        !(8 <= i < 12),
    ensures
        tail_bytes(kind, s1, d1)[i] == tail_bytes(kind, s2, d2)[i],
{
}

/// Where the header tells the size of the file, of the sound and of the frames:
/// the two headers of files with different numbers of frames differ nowhere else.
pub proof fn law_header_fields(kind: At3Kind, channels: usize, m: int, n: int, frame_size: u32, i: int)
    requires
        0 <= i < header_size(kind),
        !(4 <= i < 8),
        ({
            let total = match kind {
                At3Kind::Atrac3 { .. } => 60int,
                At3Kind::Atrac3Plus => 68,
            };
            !(total <= i < total + 4)
        }),
        i < header_size(kind) - 4,
    ensures
        at3_header(kind, channels, m, frame_size)[i] == at3_header(kind, channels, n, frame_size)[i],
{
    reveal(at3_header);
    lemma_header_len(kind, channels, m, frame_size);
    lemma_header_len(kind, channels, n, frame_size);
    let f = format_bytes(kind, channels, frame_size);
    lemma_format_len(kind, channels, frame_size);
    if i >= 20 + f.len() {
        lemma_tail_same(
            kind,
            (m * samples_per_frame(kind)) as u32,
            (m * frame_size) as u32,
            (n * samples_per_frame(kind)) as u32,
            (n * frame_size) as u32,
            i - 20 - f.len(),
        );
    }
}

#[verifier::rlimit(60)]
proof fn lemma_atrac3_fields(joint_stereo: bool, channels: usize, frame_size: u32)
    ensures
        ({
            let f = format_bytes(At3Kind::Atrac3 { joint_stereo }, channels, frame_size);
            &&& f.len() == 32
            &&& bytes::le16_at(f, 0) == 0x270
            &&& channels <= u16::MAX ==> bytes::le16_at(f, 2) == channels
            &&& bytes::le32_at(f, 4) == 44100
            &&& frame_size * 44100 <= u32::MAX ==> bytes::le32_at(f, 8) == frame_size * 44100
                / 1024
            &&& frame_size <= u16::MAX ==> bytes::le16_at(f, 12) == frame_size
            &&& bytes::le16_at(f, 14) == 0
            &&& bytes::le16_at(f, 16) == 14
            &&& bytes::le16_at(f, 18) == 1
            &&& bytes::le32_at(f, 20) == 4096
            &&& joint_stereo ==> bytes::le16_at(f, 24) == 1 && bytes::le16_at(f, 26) == 1
            &&& !joint_stereo ==> bytes::le16_at(f, 24) == 0 && bytes::le16_at(f, 26) == 0
            &&& bytes::le16_at(f, 28) == 1
            &&& bytes::le16_at(f, 30) == 0
        }),
{
}

#[verifier::rlimit(60)]
proof fn lemma_atrac3plus_fields(channels: usize, frame_size: u32)
    ensures
        ({
            let f = format_bytes(At3Kind::Atrac3Plus, channels, frame_size);
            &&& f.len() == 40
            &&& bytes::le16_at(f, 0) == 0xfffe
            &&& channels <= u16::MAX ==> bytes::le16_at(f, 2) == channels
            &&& bytes::le32_at(f, 4) == 44100
            &&& frame_size * 44100 <= u32::MAX ==> bytes::le32_at(f, 8) == frame_size * 44100
                / 2048
            &&& frame_size <= u16::MAX ==> bytes::le16_at(f, 12) == frame_size
            &&& bytes::le16_at(f, 14) == 16
            &&& bytes::le16_at(f, 16) == 22
            &&& bytes::le16_at(f, 18) == 16
            &&& bytes::le32_at(f, 20) == (if channels == 1 {
                4int
            } else if channels == 2 {
                3
            } else {
                0
            })
            &&& f.skip(24) == seq![
                0xBFu8,
                0xAAu8,
                0x23u8,
                0xE9u8,
                0x58u8,
                0xCBu8,
                0x71u8,
                0x44u8,
                0xA1u8,
                0x19u8,
                0xFFu8,
                0xFAu8,
                0x01u8,
                0xE4u8,
                0xCEu8,
                0x62u8,
            ]
        }),
{
}

/// Numbers between other bytes are read where they stand.
proof fn lemma_fields_between(a: Seq<u8>, f: Seq<u8>, t: Seq<u8>)
    ensures
        forall|at: int|
            a.len() <= at && at + 2 <= a.len() + f.len() ==> #[trigger] bytes::le16_at(a + f + t, at)
                == bytes::le16_at(f, at - a.len()),
        forall|at: int|
            a.len() <= at && at + 4 <= a.len() + f.len() ==> #[trigger] bytes::le32_at(a + f + t, at)
                == bytes::le32_at(f, at - a.len()),
        forall|at: int|
            0 <= at && at + 4 <= a.len() ==> #[trigger] bytes::le32_at(a + f + t, at)
                == bytes::le32_at(a, at),
        forall|at: int|
            a.len() + f.len() <= at && at + 4 <= a.len() + f.len() + t.len()
                ==> #[trigger] bytes::le32_at(a + f + t, at) == bytes::le32_at(
                t,
                at - a.len() - f.len(),
            ),
{
}

proof fn lemma_prefix_fields(chunk_size: u32, fmt_size: u32)
    ensures
        ({
            let p = riff_prefix(chunk_size, fmt_size);
            &&& p.len() == 20
            &&& p.subrange(0, 4) == seq![0x52u8, 0x49u8, 0x46u8, 0x46u8]
            &&& bytes::le32_at(p, 4) == chunk_size
            &&& p.subrange(8, 12) == seq![0x57u8, 0x41u8, 0x56u8, 0x45u8]
            &&& p.subrange(12, 16) == seq![0x66u8, 0x6du8, 0x74u8, 0x20u8]
            &&& bytes::le32_at(p, 16) == fmt_size
        }),
{
}

proof fn lemma_tail_fields(kind: At3Kind, samples: u32, data_size: u32)
    ensures
        ({
            let t = tail_bytes(kind, samples, data_size);
            &&& t.subrange(0, 4) == seq![0x66u8, 0x61u8, 0x63u8, 0x74u8]
            &&& bytes::le32_at(t, 8) == samples
            &&& kind is Atrac3 ==> {
                &&& t.len() == 24
                &&& bytes::le32_at(t, 4) == 8
                &&& bytes::le32_at(t, 12) == 1024
                &&& t.subrange(16, 20) == seq![0x64u8, 0x61u8, 0x74u8, 0x61u8]
                &&& bytes::le32_at(t, 20) == data_size
            }
            &&& kind is Atrac3Plus ==> {
                &&& t.len() == 20
                &&& bytes::le32_at(t, 4) == 4
                &&& t.subrange(12, 16) == seq![0x64u8, 0x61u8, 0x74u8, 0x61u8]
                &&& bytes::le32_at(t, 16) == data_size
            }
        }),
{
}

/// A reader of the header of an ATRAC3 file gets the format back. Numbers are little
/// endian: the size of all that follows at 4, a format chunk of 32 bytes with the number
/// of channels at 22, the sample rate at 24, the bytes per second at 28, the frame size
/// at 32 and, at 44 and again at 46, 1 for joint stereo and else 0; the number of samples
/// at 60 and the size of the frames at 72.
pub proof fn law_atrac3_header_reads_back(
    joint_stereo: bool,
    channels: usize,
    num_frames: u32,
    frame_size: u32,
)
    requires
        76 + num_frames * frame_size < u32::MAX,
        num_frames * 1024 <= u32::MAX,
    ensures
        ({
            let h = at3_header(
                At3Kind::Atrac3 { joint_stereo },
                channels,
                num_frames as int,
                frame_size,
            );
            &&& h.len() == 76
            &&& h.subrange(0, 4) == seq![0x52u8, 0x49u8, 0x46u8, 0x46u8]
            &&& bytes::le32_at(h, 4) == 68 + num_frames * frame_size
            &&& h.subrange(8, 12) == seq![0x57u8, 0x41u8, 0x56u8, 0x45u8]
            &&& h.subrange(12, 16) == seq![0x66u8, 0x6du8, 0x74u8, 0x20u8]
            &&& bytes::le32_at(h, 16) == 32
            &&& bytes::le16_at(h, 20) == 0x270
            &&& channels <= u16::MAX ==> bytes::le16_at(h, 22) == channels
            &&& bytes::le32_at(h, 24) == 44100
            &&& frame_size * 44100 <= u32::MAX ==> bytes::le32_at(h, 28) == frame_size * 44100
                / 1024
            &&& frame_size <= u16::MAX ==> bytes::le16_at(h, 32) == frame_size
            &&& bytes::le16_at(h, 34) == 0
            &&& bytes::le16_at(h, 36) == 14
            &&& bytes::le16_at(h, 38) == 1
            &&& bytes::le32_at(h, 40) == 4096
            &&& joint_stereo ==> bytes::le16_at(h, 44) == 1 && bytes::le16_at(h, 46) == 1
            &&& !joint_stereo ==> bytes::le16_at(h, 44) == 0 && bytes::le16_at(h, 46) == 0
            &&& bytes::le16_at(h, 48) == 1
            &&& bytes::le16_at(h, 50) == 0
            &&& h.subrange(52, 56) == seq![0x66u8, 0x61u8, 0x63u8, 0x74u8]
            &&& bytes::le32_at(h, 56) == 8
            &&& bytes::le32_at(h, 60) == num_frames * 1024
            &&& bytes::le32_at(h, 64) == 1024
            &&& h.subrange(68, 72) == seq![0x64u8, 0x61u8, 0x74u8, 0x61u8]
            &&& bytes::le32_at(h, 72) == num_frames * frame_size
        }),
{
    reveal(at3_header);
    let kind = At3Kind::Atrac3 { joint_stereo };
    let h = at3_header(kind, channels, num_frames as int, frame_size);
    assert(num_frames * frame_size >= 0) by (nonlinear_arith);
    let p = riff_prefix((68 + num_frames * frame_size) as u32, 32);
    let f = format_bytes(kind, channels, frame_size);
    let t = tail_bytes(kind, (num_frames * 1024) as u32, (num_frames * frame_size) as u32);
    lemma_prefix_fields((68 + num_frames * frame_size) as u32, 32);
    lemma_atrac3_fields(joint_stereo, channels, frame_size);
    lemma_tail_fields(kind, (num_frames * 1024) as u32, (num_frames * frame_size) as u32);
    lemma_fields_between(p, f, t);
    assert(h == p + f + t);
    assert(h.subrange(0, 4) =~= p.subrange(0, 4));
    assert(h.subrange(8, 12) =~= p.subrange(8, 12));
    assert(h.subrange(12, 16) =~= p.subrange(12, 16));
    assert(h.subrange(52, 56) =~= t.subrange(0, 4));
    assert(h.subrange(68, 72) =~= t.subrange(16, 20));
}

/// A reader of the header of an ATRAC3plus file gets the format back, as with ATRAC3
/// but for a format chunk of 40 bytes, with the speakers at 40 and the identifier of the
/// codec from 44 on; the number of samples is at 68 and the size of the frames at 76.
pub proof fn law_atrac3plus_header_reads_back(channels: usize, num_frames: u32, frame_size: u32)
    requires
        80 + num_frames * frame_size < u32::MAX,
        num_frames * 2048 <= u32::MAX,
    ensures
        ({
            let h = at3_header(At3Kind::Atrac3Plus, channels, num_frames as int, frame_size);
            &&& h.len() == 80
            &&& h.subrange(0, 4) == seq![0x52u8, 0x49u8, 0x46u8, 0x46u8]
            &&& bytes::le32_at(h, 4) == 72 + num_frames * frame_size
            &&& h.subrange(8, 12) == seq![0x57u8, 0x41u8, 0x56u8, 0x45u8]
            &&& h.subrange(12, 16) == seq![0x66u8, 0x6du8, 0x74u8, 0x20u8]
            &&& bytes::le32_at(h, 16) == 40
            &&& bytes::le16_at(h, 20) == 0xfffe
            &&& channels <= u16::MAX ==> bytes::le16_at(h, 22) == channels
            &&& bytes::le32_at(h, 24) == 44100
            &&& frame_size * 44100 <= u32::MAX ==> bytes::le32_at(h, 28) == frame_size * 44100
                / 2048
            &&& frame_size <= u16::MAX ==> bytes::le16_at(h, 32) == frame_size
            &&& bytes::le16_at(h, 34) == 16
            &&& bytes::le16_at(h, 36) == 22
            &&& bytes::le16_at(h, 38) == 16
            &&& bytes::le32_at(h, 40) == (if channels == 1 {
                4int
            } else if channels == 2 {
                3
            } else {
                0
            })
            &&& h.subrange(44, 60) == seq![
                0xBFu8,
                0xAAu8,
                0x23u8,
                0xE9u8,
                0x58u8,
                0xCBu8,
                0x71u8,
                0x44u8,
                0xA1u8,
                0x19u8,
                0xFFu8,
                0xFAu8,
                0x01u8,
                0xE4u8,
                0xCEu8,
                0x62u8,
            ]
            &&& h.subrange(60, 64) == seq![0x66u8, 0x61u8, 0x63u8, 0x74u8]
            &&& bytes::le32_at(h, 64) == 4
            &&& bytes::le32_at(h, 68) == num_frames * 2048
            &&& h.subrange(72, 76) == seq![0x64u8, 0x61u8, 0x74u8, 0x61u8]
            &&& bytes::le32_at(h, 76) == num_frames * frame_size
        }),
{
    reveal(at3_header);
    let kind = At3Kind::Atrac3Plus;
    let h = at3_header(kind, channels, num_frames as int, frame_size);
    assert(num_frames * frame_size >= 0) by (nonlinear_arith);
    let p = riff_prefix((72 + num_frames * frame_size) as u32, 40);
    let f = format_bytes(kind, channels, frame_size);
    let t = tail_bytes(kind, (num_frames * 2048) as u32, (num_frames * frame_size) as u32);
    lemma_prefix_fields((72 + num_frames * frame_size) as u32, 40);
    lemma_atrac3plus_fields(channels, frame_size);
    lemma_tail_fields(kind, (num_frames * 2048) as u32, (num_frames * frame_size) as u32);
    lemma_fields_between(p, f, t);
    assert(h == p + f + t);
    assert(h.subrange(0, 4) =~= p.subrange(0, 4));
    assert(h.subrange(8, 12) =~= p.subrange(8, 12));
    assert(h.subrange(12, 16) =~= p.subrange(12, 16));
    assert(h.subrange(44, 60) =~= f.skip(24));
    assert(h.subrange(60, 64) =~= t.subrange(0, 4));
    assert(h.subrange(72, 76) =~= t.subrange(12, 16));
}

/// Frames of just the frame size are appended, and others are refused.
pub proof fn law_written_frames(
    out: At3Output,
    data: Seq<u8>,
    after: At3Output,
    r: Result<(), ContainerError>,
    i: int,
)
    requires
        out.wrote(data, &after, r),
        0 <= i,
    ensures
        ({
            let at = out.data().len() as int;
            let n = out.spec_frame_size() as int;
            &&& r is Ok <==> data.len() == n
            &&& r is Ok ==> after.data().len() == at + n
            &&& r is Err ==> after.data() == out.data()
            &&& i < at ==> after.data()[i] == out.data()[i]
            &&& r is Ok && i < n ==> after.data()[at + i] == data[i]
            &&& after.num_written() - out.num_written() == (if r is Ok {
                1int
            } else {
                0
            })
        }),
{
}

/// A file is its header and the frames behind it, and its header is one that tells the format
/// of the output and the announced number of frames.
pub proof fn law_file_tells_format(out: At3Output)
    requires
        out.wf(),
    ensures
        out.contents() == at3_header(
            out.spec_kind(),
            out.spec_channels(),
            out.num_announced() as int,
            out.spec_frame_size(),
        ) + out.data(),
        out.data().len() == out.num_written() * out.spec_frame_size(),
{
}

} // verus!
