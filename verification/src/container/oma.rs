//! OpenMG files: frames after a header that tells their format.

use vstd::prelude::*;
use crate::container::bytes;
use crate::container::bytes::{patch, push_bytes, push_u32_be};
use crate::container::{CompressedOutput, ContainerError};

verus! {

pub const OMA_HEADER_SIZE: usize = 96;

#[derive(Debug, Clone, Copy, Eq, PartialEq, Structural)]
pub enum OmaCodec {
    Atrac3,
    Atrac3Plus,
}

#[derive(Debug, Clone, Copy, Eq, PartialEq, Structural)]
pub enum OmaChannelFormat {
    Mono,
    Stereo,
    StereoJoint,
    Channels3,
    Channels4,
    Channels6,
    Channels7,
    Channels8,
}

/// The place of a sample rate among those that the format knows.
pub open spec fn rate_index(sample_rate: u32) -> Option<u32> {
    if sample_rate == 32000 {
        Some(0)
    } else if sample_rate == 44100 {
        Some(1)
    } else if sample_rate == 48000 {
        Some(2)
    } else if sample_rate == 88200 {
        Some(3)
    } else if sample_rate == 96000 {
        Some(4)
    } else {
        None
    }
}

fn sample_rate_idx(sample_rate: u32) -> (r: Result<u32, ContainerError>)
    ensures
        match r {
            Ok(i) => rate_index(sample_rate) == Some(i),
            Err(e) => rate_index(sample_rate) is None && e
                == ContainerError::UnsupportedSampleRate,
        },
{
    match sample_rate {
        32_000 => Ok(0),
        44_100 => Ok(1),
        48_000 => Ok(2),
        88_200 => Ok(3),
        96_000 => Ok(4),
        _ => Err(ContainerError::UnsupportedSampleRate),
    }
}

/// The number that stands for a channel format.
pub open spec fn channel_index(format: OmaChannelFormat) -> u32 {
    match format {
        OmaChannelFormat::Mono => 0,
        OmaChannelFormat::Stereo => 1,
        OmaChannelFormat::StereoJoint => 1,
        OmaChannelFormat::Channels3 => 2,
        OmaChannelFormat::Channels4 => 3,
        OmaChannelFormat::Channels6 => 4,
        OmaChannelFormat::Channels7 => 5,
        OmaChannelFormat::Channels8 => 6,
    }
}

fn channel_idx(format: OmaChannelFormat) -> (r: u32)
    ensures
        r == channel_index(format),
{
    match format {
        OmaChannelFormat::Mono => 0,
        OmaChannelFormat::Stereo => 1,
        OmaChannelFormat::StereoJoint => 1,
        OmaChannelFormat::Channels3 => 2,
        OmaChannelFormat::Channels4 => 3,
        OmaChannelFormat::Channels6 => 4,
        OmaChannelFormat::Channels7 => 5,
        OmaChannelFormat::Channels8 => 6,
    }
}

/// The number of channels of a channel format.
pub open spec fn channel_count(format: OmaChannelFormat) -> usize {
    match format {
        OmaChannelFormat::Mono => 1,
        OmaChannelFormat::Stereo => 2,
        OmaChannelFormat::StereoJoint => 2,
        OmaChannelFormat::Channels3 => 3,
        OmaChannelFormat::Channels4 => 4,
        OmaChannelFormat::Channels6 => 6,
        OmaChannelFormat::Channels7 => 7,
        OmaChannelFormat::Channels8 => 8,
    }
}

/// The size of a frame in units of eight bytes.
pub open spec fn frame_units(codec: OmaCodec, frame_size: u32) -> int {
    match codec {
        OmaCodec::Atrac3 => frame_size as int / 8,
        OmaCodec::Atrac3Plus => (frame_size - 8) / 8,
    }
}

/// Why a format cannot be told in a header, if so.
pub open spec fn format_error(
    codec: OmaCodec,
    sample_rate: u32,
    format: OmaChannelFormat,
    frame_size: u32,
) -> Option<ContainerError> {
    if rate_index(sample_rate) is None {
        Some(ContainerError::UnsupportedSampleRate)
    } else if codec == OmaCodec::Atrac3 && format != OmaChannelFormat::Stereo && format
        != OmaChannelFormat::StereoJoint {
        Some(ContainerError::InvalidInput("ATRAC3 OMA requires stereo channel format"))
    } else if frame_units(codec, frame_size) > 0x3ff {
        Some(ContainerError::InvalidInput("OMA frame too large"))
    } else {
        None
    }
}

/// The word that tells a format: for ATRAC3 joint stereo in bit 17, the sample rate
/// from bit 13 on and the frame size in the low bits; for ATRAC3plus a mark in bit
/// 24, the sample rate, the channels from bit 10 on and the frame size.
pub open spec fn format_word(
    codec: OmaCodec,
    sample_rate: u32,
    format: OmaChannelFormat,
    frame_size: u32,
) -> int {
    let rate = rate_index(sample_rate)->0 as int;
    match codec {
        OmaCodec::Atrac3 => (if format == OmaChannelFormat::StereoJoint {
            131072int
        } else {
            0
        }) + 8192 * rate + frame_units(codec, frame_size),
        OmaCodec::Atrac3Plus => 16777216 + 8192 * rate + 1024 * (channel_index(format) + 1)
            + frame_units(codec, frame_size),
    }
}

/// A frame of ATRAC3plus has at least eight bytes.
pub open spec fn frame_size_wf(codec: OmaCodec, sample_rate: u32, frame_size: u32) -> bool {
    codec == OmaCodec::Atrac3Plus && rate_index(sample_rate) is Some ==> frame_size >= 8
}

fn params(
    codec: OmaCodec,
    sample_rate: u32,
    channel_format: OmaChannelFormat,
    frame_size: u32,
) -> (r: Result<u32, ContainerError>)
    requires
        frame_size_wf(codec, sample_rate, frame_size),
    ensures
        match r {
            Ok(w) => format_error(codec, sample_rate, channel_format, frame_size) is None && w
                == format_word(codec, sample_rate, channel_format, frame_size),
            Err(e) => format_error(codec, sample_rate, channel_format, frame_size) == Some(e),
        },
{
    let sr_idx: u32 = match sample_rate_idx(sample_rate) {
        Ok(i) => i,
        Err(e) => {
            return Err(e);
        },
    };
    match codec {
        OmaCodec::Atrac3 => {
            if channel_format != OmaChannelFormat::Stereo && channel_format
                != OmaChannelFormat::StereoJoint {
                return Err(
                    ContainerError::InvalidInput("ATRAC3 OMA requires stereo channel format"),
                );
            }
            let js: u32 = if channel_format == OmaChannelFormat::StereoJoint {
                131072
            } else {
                0
            };
            let units: u32 = frame_size / 8;
            if units > 0x3ff {
                return Err(ContainerError::InvalidInput("OMA frame too large"));
            }
            Ok(js + 8192 * sr_idx + units)
        },
        OmaCodec::Atrac3Plus => {
            let units: u32 = (frame_size - 8) / 8;
            if units > 0x3ff {
                return Err(ContainerError::InvalidInput("OMA frame too large"));
            }
            Ok(16777216 + 8192 * sr_idx + 1024 * (channel_idx(channel_format) + 1) + units)
        },
    }
}

/// A header with this format word.
pub open spec fn oma_header(word: u32) -> Seq<u8> {
    Seq::new(
        OMA_HEADER_SIZE as nat,
        |i: int|
            if i == 0 {
                0x45u8
            } else if i == 1 {
                0x41u8
            } else if i == 2 {
                0x33u8
            } else if i == 3 {
                1u8
            } else if i == 5 {
                96u8
            } else if i == 6 || i == 7 {
                0xffu8
            } else if 32 <= i < 36 {
                bytes::be32(word)[i - 32]
            } else {
                0u8
            },
    )
}

/// Writes OpenMG files.
#[derive(Debug, Clone)]
pub struct OmaOutput {
    inner: Vec<u8>,
    codec: OmaCodec,
    channel_format: OmaChannelFormat,
    frame_size: usize,
}

impl OmaOutput {
    /// The file so far.
    pub closed spec fn contents(&self) -> Seq<u8> {
        self.inner@
    }

    pub closed spec fn spec_codec(&self) -> OmaCodec {
        self.codec
    }

    pub closed spec fn spec_format(&self) -> OmaChannelFormat {
        self.channel_format
    }

    pub closed spec fn spec_frame_size(&self) -> usize {
        self.frame_size
    }

    pub fn new(
        codec: OmaCodec,
        sample_rate: u32,
        channel_format: OmaChannelFormat,
        frame_size: u32,
    ) -> (r: Result<Self, ContainerError>)
        requires
            frame_size_wf(codec, sample_rate, frame_size),
        ensures
            match r {
                Ok(o) => {
                    &&& format_error(codec, sample_rate, channel_format, frame_size) is None
                    &&& o.contents() == oma_header(
                        format_word(codec, sample_rate, channel_format, frame_size) as u32,
                    )
                    &&& o.spec_codec() == codec
                    &&& o.spec_format() == channel_format
                    &&& o.spec_frame_size() == frame_size
                },
                Err(e) => format_error(codec, sample_rate, channel_format, frame_size) == Some(e),
            },
    {
        let word: u32 = match params(codec, sample_rate, channel_format, frame_size) {
            Ok(w) => w,
            Err(e) => {
                return Err(e);
            },
        };
        let mut inner: Vec<u8> = vec![0; OMA_HEADER_SIZE];
        inner[0] = 0x45;
        inner[1] = 0x41;
        inner[2] = 0x33;
        inner[3] = 1;
        inner[5] = 96;
        inner[6] = 0xff;
        inner[7] = 0xff;
        let mut word_bytes: Vec<u8> = Vec::new();
        push_u32_be(&mut word_bytes, word);
        assert(word_bytes@ =~= bytes::be32(word));
        patch(&mut inner, 32, word_bytes.as_slice());
        assert(inner@ =~= oma_header(word));
        Ok(OmaOutput { inner, codec, channel_format, frame_size: frame_size as usize })
    }

    pub fn into_inner(self) -> (file: Vec<u8>)
        ensures
            file@ == self.contents(),
    {
        self.inner
    }
}

impl CompressedOutput for OmaOutput {
    open spec fn ready(&self) -> bool {
        true
    }

    open spec fn has_room(&self, len: nat) -> bool {
        true
    }

    open spec fn wrote(&self, data: Seq<u8>, after: &Self, r: Result<(), ContainerError>) -> bool {
        &&& after.spec_codec() == self.spec_codec()
        &&& after.spec_format() == self.spec_format()
        &&& after.spec_frame_size() == self.spec_frame_size()
        &&& match r {
            Ok(_) => {
                &&& data.len() >= self.spec_frame_size()
                &&& after.contents() == self.contents() + data.take(self.spec_frame_size() as int)
            },
            Err(e) => {
                &&& data.len() < self.spec_frame_size()
                &&& e == ContainerError::InvalidInput("short OMA frame")
                &&& after.contents() == self.contents()
            },
        }
    }

    /// Appends as much of `data` as a frame holds.
    fn write_frame(&mut self, data: &[u8]) -> (r: Result<(), ContainerError>)
    {
        if data.len() < self.frame_size {
            return Err(ContainerError::InvalidInput("short OMA frame"));
        }
        push_bytes(&mut self.inner, vstd::slice::slice_subrange(data, 0, self.frame_size));
        Ok(())
    }

    fn name(&self) -> (n: &str)
        ensures
            n@ == match self.spec_codec() {
                OmaCodec::Atrac3 => "ATRAC3"@,
                OmaCodec::Atrac3Plus => "ATRAC3PLUS"@,
            },
    {
        match self.codec {
            OmaCodec::Atrac3 => "ATRAC3",
            OmaCodec::Atrac3Plus => "ATRAC3PLUS",
        }
    }

    fn channels(&self) -> (n: usize)
        ensures
            n == channel_count(self.spec_format()),
    {
        match self.channel_format {
            OmaChannelFormat::Mono => 1,
            OmaChannelFormat::Stereo => 2,
            OmaChannelFormat::StereoJoint => 2,
            OmaChannelFormat::Channels3 => 3,
            OmaChannelFormat::Channels4 => 4,
            OmaChannelFormat::Channels6 => 6,
            OmaChannelFormat::Channels7 => 7,
            OmaChannelFormat::Channels8 => 8,
        }
    }
}

/// The parts of a format word do not overlap: frame size, channels, sample rate and
/// the marks can be told from it.
pub proof fn law_format_word_decodes(
    codec: OmaCodec,
    sample_rate: u32,
    format: OmaChannelFormat,
    frame_size: u32,
)
    requires
        frame_size_wf(codec, sample_rate, frame_size),
        format_error(codec, sample_rate, format, frame_size) is None,
    ensures
        ({
            let w = format_word(codec, sample_rate, format, frame_size);
            &&& 0 <= w <= u32::MAX
            &&& w % 1024 == frame_units(codec, frame_size)
            &&& w / 8192 % 8 == rate_index(sample_rate)->0
            &&& w / 16777216 == (if codec == OmaCodec::Atrac3Plus {
                1int
            } else {
                0
            })
            &&& codec == OmaCodec::Atrac3Plus ==> w / 1024 % 8 == channel_index(format) + 1
            &&& codec == OmaCodec::Atrac3 ==> (w / 131072 == 1) == (format
                == OmaChannelFormat::StereoJoint)
        }),
{
}

/// Which formats have a header: those of a known sample rate, for ATRAC3 only stereo, and
/// frames of up to 1023 units of eight bytes, for ATRAC3plus one unit more.
pub proof fn law_formats_with_header(
    codec: OmaCodec,
    sample_rate: u32,
    format: OmaChannelFormat,
    frame_size: u32,
)
    requires
        frame_size_wf(codec, sample_rate, frame_size),
    ensures
        format_error(codec, sample_rate, format, frame_size) is None <==> {
            &&& sample_rate == 32000 || sample_rate == 44100 || sample_rate == 48000 || sample_rate
                == 88200 || sample_rate == 96000
            &&& codec == OmaCodec::Atrac3Plus || format == OmaChannelFormat::Stereo || format
                == OmaChannelFormat::StereoJoint
            &&& codec == OmaCodec::Atrac3 ==> frame_size < 8192
            &&& codec == OmaCodec::Atrac3Plus ==> frame_size < 8200
        },
{
}

/// A reader of the header gets the format back. The word at 32 is big endian and tells, by
/// its places, the sample rate among 32000, 44100, 48000, 88200 and 96000; the size of a
/// frame in units of eight bytes, for ATRAC3plus less one; for ATRAC3plus the channels
/// among 1, 2, 3, 4, 6, 7 and 8; for ATRAC3 joint stereo.
pub proof fn law_header_reads_back(
    codec: OmaCodec,
    sample_rate: u32,
    format: OmaChannelFormat,
    frame_size: u32,
    i: int,
)
    requires
        frame_size_wf(codec, sample_rate, frame_size),
        format_error(codec, sample_rate, format, frame_size) is None,
    ensures
        ({
            let h = oma_header(format_word(codec, sample_rate, format, frame_size) as u32);
            let w = bytes::be32_at(h, 32);
            let rate = w / 8192 % 8;
            let count = w / 1024 % 8;
            let units = w % 1024;
            &&& h.len() == 96
            &&& h.take(8) == seq![0x45u8, 0x41u8, 0x33u8, 1u8, 0u8, 96u8, 0xffu8, 0xffu8]
            &&& 8 <= i < 32 || 36 <= i < 96 ==> h[i] == 0
            &&& 0 <= rate < 5
            &&& sample_rate == seq![32000int, 44100, 48000, 88200, 96000][rate]
            &&& codec == OmaCodec::Atrac3 ==> {
                &&& frame_size / 8 == units
                &&& w == (if format == OmaChannelFormat::StereoJoint {
                    131072int
                } else {
                    0
                }) + 8192 * rate + units
            }
            &&& codec == OmaCodec::Atrac3Plus ==> {
                &&& w / 65536 == 256
                &&& frame_size / 8 == units + 1
                &&& 1 <= count <= 7
                &&& channel_count(format) == seq![1int, 2, 3, 4, 6, 7, 8][count - 1]
            }
        }),
{
    reveal(bytes::be32_at);
    law_format_word_decodes(codec, sample_rate, format, frame_size);
    let w = format_word(codec, sample_rate, format, frame_size) as u32;
    let h = oma_header(w);
    assert(h[32] == bytes::be32(w)[0] && h[33] == bytes::be32(w)[1] && h[34] == bytes::be32(w)[2]
        && h[35] == bytes::be32(w)[3]);
    assert(bytes::be32_at(h, 32) == w);
    assert(h.take(8) =~= seq![0x45u8, 0x41u8, 0x33u8, 1u8, 0u8, 96u8, 0xffu8, 0xffu8]);
}

/// A format has as many channels as its name says.
pub proof fn law_channel_counts()
    ensures
        channel_count(OmaChannelFormat::Mono) == 1,
        channel_count(OmaChannelFormat::Stereo) == 2,
        channel_count(OmaChannelFormat::StereoJoint) == 2,
        channel_count(OmaChannelFormat::Channels3) == 3,
        channel_count(OmaChannelFormat::Channels4) == 4,
        channel_count(OmaChannelFormat::Channels6) == 6,
        channel_count(OmaChannelFormat::Channels7) == 7,
        channel_count(OmaChannelFormat::Channels8) == 8,
{
}

/// A frame is appended, as much of it as a frame holds, and refused where it is shorter.
pub proof fn law_written_frames(
    out: OmaOutput,
    data: Seq<u8>,
    after: OmaOutput,
    r: Result<(), ContainerError>,
    i: int,
)
    requires
        out.wrote(data, &after, r),
        0 <= i,
    ensures
        ({
            let at = out.contents().len() as int;
            let n = out.spec_frame_size() as int;
            &&& r is Ok <==> data.len() >= n
            &&& r is Ok ==> after.contents().len() == at + n
            &&& r is Err ==> after.contents() == out.contents()
            &&& i < at ==> after.contents()[i] == out.contents()[i]
            &&& r is Ok && i < n ==> after.contents()[at + i] == data[i]
        }),
{
}

} // verus!
