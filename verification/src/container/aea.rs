//! AEA files: ATRAC1 frames after a header of fixed size.

use vstd::prelude::*;
use crate::at3::sound_unit;
use crate::at3::sound_unit::resize_bytes;
use crate::container::bytes;
use crate::container::bytes::{patch, u32_ne_bytes, utf8_text};
use crate::container::{CompressedInput, CompressedOutput, ContainerError};

verus! {

pub const AEA_META_SIZE: usize = 2048;

pub const AEA_FRAME_SIZE: usize = 212;

pub const AEA_PREROLL_FRAMES: u64 = 5;

/// The most bytes of a title.
pub const MAX_TITLE_LEN: usize = 15;

/// How many bytes of a title are kept.
pub open spec fn kept_len(title: Seq<u8>) -> int {
    if title.len() < MAX_TITLE_LEN {
        title.len() as int
    } else {
        MAX_TITLE_LEN as int
    }
}

/// A header: the mark, the title, the frame count and the number of channels.
pub open spec fn aea_header(title: Seq<u8>, count: Seq<u8>, channels: u8) -> Seq<u8> {
    Seq::new(
        AEA_META_SIZE as nat,
        |i: int|
            if i == 1 {
                8u8
            } else if 4 <= i < 4 + kept_len(title) {
                title[i - 4]
            } else if 260 <= i < 264 {
                count[i - 260]
            } else if i == 264 {
                channels
            } else {
                0u8
            },
    )
}

/// The bytes of a frame count, in the order of the machine.
pub open spec fn is_count(b: Seq<u8>, n: u32) -> bool {
    b == bytes::le32(n) || b == bytes::be32(n)
}

/// The frame count of a file.
pub open spec fn count_of(file: Seq<u8>) -> Seq<u8> {
    file.subrange(260, 264)
}

/// Where the title of a file ends: at its first zero.
pub open spec fn title_end(file: Seq<u8>, from: int) -> int
    decreases 20 - from,
{
    if from >= 20 || file[from] == 0 {
        from
    } else {
        title_end(file, from + 1)
    }
}

/// The title of a file.
pub open spec fn title_of(file: Seq<u8>) -> Seq<u8> {
    file.subrange(4, title_end(file, 4))
}

/// Frame `k` of a file, counted from the end of the header.
pub open spec fn frame_at(file: Seq<u8>, k: int) -> Seq<u8> {
    file.subrange(
        AEA_META_SIZE + AEA_FRAME_SIZE * k,
        AEA_META_SIZE + AEA_FRAME_SIZE * k + AEA_FRAME_SIZE,
    )
}

/// The text of a title; empty where it is no text.
pub open spec fn is_title_text(title: Seq<u8>, text: Seq<char>) -> bool {
    vstd::utf8::encode_utf8(text) == title || (!vstd::utf8::valid_utf8(title) && text == ""@)
}

fn aea_title(file: &Vec<u8>) -> (r: &str)
    requires
        file@.len() >= AEA_META_SIZE,
    ensures
        is_title_text(title_of(file@), r@),
{
    let mut end: usize = 4;
    while end < 20 && file[end] != 0
        invariant
            4 <= end <= 20,
            file@.len() >= AEA_META_SIZE,
            title_end(file@, 4) == title_end(file@, end as int),
        decreases 20 - end,
    {
        end += 1;
    }
    match utf8_text(vstd::slice::slice_subrange(file.as_slice(), 4, end)) {
        Some(s) => s,
        None => "",
    }
}

/// Writes AEA files. The first frame that it is given is dropped: it stands for the
/// delay of the codec, and a silent frame takes its place.
#[derive(Debug, Clone)]
pub struct AeaOutput {
    inner: Vec<u8>,
    first_write: bool,
    written_frames: u32,
}

impl AeaOutput {
    /// The file so far.
    pub closed spec fn contents(&self) -> Seq<u8> {
        self.inner@
    }

    /// No frame was given yet.
    pub closed spec fn untouched(&self) -> bool {
        self.first_write
    }

    /// The number of frames that were kept.
    pub closed spec fn num_written(&self) -> u32 {
        self.written_frames
    }

    pub open spec fn wf(&self) -> bool {
        self.contents().len() == AEA_META_SIZE + AEA_FRAME_SIZE * (1 + self.num_written())
    }

    pub fn new(title: &str, num_channels: usize, num_frames: u32) -> (r: Result<
        Self,
        ContainerError,
    >)
        ensures
            r matches Ok(o) && {
                &&& o.wf()
                &&& o.untouched()
                &&& o.num_written() == 0
                &&& is_count(count_of(o.contents()), num_frames)
                &&& o.contents() == aea_header(
                    vstd::utf8::encode_utf8(title@),
                    count_of(o.contents()),
                    num_channels as u8,
                ) + Seq::new(AEA_FRAME_SIZE as nat, |i: int| 0u8)
            },
    {
        let mut inner: Vec<u8> = vec![0; AEA_META_SIZE + AEA_FRAME_SIZE];
        inner[1] = 8;
        let title_bytes: &[u8] = title.as_bytes();
        let title_len: usize = if title_bytes.len() < MAX_TITLE_LEN {
            title_bytes.len()
        } else {
            MAX_TITLE_LEN
        };
        patch(&mut inner, 4, vstd::slice::slice_subrange(title_bytes, 0, title_len));
        let count: [u8; 4] = u32_ne_bytes(num_frames);
        patch(&mut inner, 260, count.as_slice());
        inner[264] =
        #[verifier::truncate]
        (num_channels as u8);
        let o = AeaOutput { inner, first_write: true, written_frames: 0 };
        assert(count_of(o.contents()) =~= count@);
        assert(o.contents() =~= aea_header(
            vstd::utf8::encode_utf8(title@),
            count_of(o.contents()),
            num_channels as u8,
        ) + Seq::new(AEA_FRAME_SIZE as nat, |i: int| 0u8));
        Ok(o)
    }

    /// Puts the number of frames into the header.
    pub fn finalize(&mut self) -> (r: Result<(), ContainerError>)
        requires
            old(self).wf(),
        ensures
            r is Ok,
            final(self).wf(),
            final(self).untouched() == old(self).untouched(),
            final(self).num_written() == old(self).num_written(),
            is_count(count_of(final(self).contents()), old(self).num_written()),
            final(self).contents() == bytes::patched(
                old(self).contents(),
                260,
                count_of(final(self).contents()),
            ),
    {
        let count: [u8; 4] = u32_ne_bytes(self.written_frames);
        patch(&mut self.inner, 260, count.as_slice());
        assert(count_of(self.contents()) =~= count@);
        Ok(())
    }

    /// The finished file.
    pub fn into_inner(self) -> (r: Result<Vec<u8>, ContainerError>)
        requires
            self.wf(),
        ensures
            r matches Ok(file) && {
                &&& is_count(count_of(file@), self.num_written())
                &&& file@ == bytes::patched(self.contents(), 260, count_of(file@))
            },
    {
        let mut out = self;
        let _ = out.finalize();
        Ok(out.inner)
    }
}

impl CompressedOutput for AeaOutput {
    open spec fn ready(&self) -> bool {
        self.wf()
    }

    open spec fn has_room(&self, len: nat) -> bool {
        self.num_written() < u32::MAX
    }

    open spec fn wrote(&self, data: Seq<u8>, after: &Self, r: Result<(), ContainerError>) -> bool {
        &&& r is Ok
        &&& !after.untouched()
        &&& if self.untouched() {
            after.contents() == self.contents() && after.num_written() == self.num_written()
        } else {
            after.contents() == self.contents() + sound_unit::resized(data, AEA_FRAME_SIZE as int)
                && after.num_written() == self.num_written() + 1
        }
    }

    fn write_frame(&mut self, data: &[u8]) -> (r: Result<(), ContainerError>)
    {
        if self.first_write {
            self.first_write = false;
            return Ok(());
        }
        let mut frame: Vec<u8> = vstd::slice::slice_to_vec(data);
        resize_bytes(&mut frame, AEA_FRAME_SIZE);
        self.inner.append(&mut frame);
        self.written_frames = self.written_frames + 1;
        Ok(())
    }

    fn name(&self) -> (n: &str)
        ensures
            is_title_text(title_of(self.contents()), n@),
    {
        aea_title(&self.inner)
    }

    fn channels(&self) -> (n: usize)
        ensures
            n == self.contents()[264],
    {
        self.inner[264] as usize
    }
}

/// Whether bytes start with a header of an AEA file.
pub open spec fn is_aea(file: Seq<u8>) -> bool {
    &&& file.len() >= AEA_META_SIZE
    &&& file[0] == 0
    &&& file[1] == 8
    &&& file[2] == 0
    &&& file[3] == 0
    &&& file[264] < 3
}

/// Reads AEA files.
#[derive(Debug, Clone)]
pub struct AeaInput {
    inner: Vec<u8>,
    pos: usize,
}

impl AeaInput {
    /// The file.
    pub closed spec fn contents(&self) -> Seq<u8> {
        self.inner@
    }

    /// The number of frames read so far.
    pub closed spec fn num_read(&self) -> int {
        (self.pos - AEA_META_SIZE) / AEA_FRAME_SIZE as int
    }

    pub closed spec fn wf(&self) -> bool {
        &&& is_aea(self.inner@)
        &&& AEA_META_SIZE <= self.pos <= self.inner@.len()
        &&& self.pos == AEA_META_SIZE + AEA_FRAME_SIZE * self.num_read()
        &&& 3 * self.inner@.len() <= u64::MAX
    }

    pub fn new(file: Vec<u8>) -> (r: Result<Self, ContainerError>)
        requires
            3 * file@.len() <= u64::MAX,
        ensures
            match r {
                Ok(i) => is_aea(file@) && i.wf() && i.contents() == file@ && i.num_read() == 0,
                Err(e) => e == (if file@.len() < AEA_META_SIZE {
                    ContainerError::UnexpectedEof
                } else {
                    ContainerError::InvalidInput("invalid AEA header")
                }) && !is_aea(file@),
            },
    {
        if file.len() < AEA_META_SIZE {
            return Err(ContainerError::UnexpectedEof);
        }
        if file[0] != 0 || file[1] != 8 || file[2] != 0 || file[3] != 0 || file[264] >= 3 {
            return Err(ContainerError::InvalidInput("invalid AEA header"));
        }
        Ok(AeaInput { inner: file, pos: AEA_META_SIZE })
    }

    /// The number of channels that the length counts with: none counts as one.
    pub open spec fn counted_channels(&self) -> int {
        if self.contents()[264] == 0 {
            1
        } else {
            self.contents()[264] as int
        }
    }

    /// The samples of a channel: those of all its frames but the first five.
    pub open spec fn spec_length(&self) -> int {
        let frames = (self.contents().len() - AEA_META_SIZE) / AEA_FRAME_SIZE as int
            / self.counted_channels();
        if frames > AEA_PREROLL_FRAMES {
            512 * (frames - AEA_PREROLL_FRAMES)
        } else {
            0
        }
    }
}

impl CompressedInput for AeaInput {
    open spec fn ready(&self) -> bool {
        self.wf()
    }

    fn read_frame(&mut self) -> (r: Result<Option<Vec<u8>>, ContainerError>)
        ensures
            final(self).contents() == old(self).contents(),
            r is Ok,
            match r->Ok_0 {
                Some(f) => {
                    &&& AEA_META_SIZE + AEA_FRAME_SIZE * (old(self).num_read() + 1) <= old(
                        self,
                    ).contents().len()
                    &&& f@ == frame_at(old(self).contents(), old(self).num_read())
                    &&& final(self).num_read() == old(self).num_read() + 1
                },
                None => {
                    &&& AEA_META_SIZE + AEA_FRAME_SIZE * (old(self).num_read() + 1) > old(
                        self,
                    ).contents().len()
                    &&& final(self).num_read() == old(self).num_read()
                },
            },
    {
        if self.inner.len() - self.pos < AEA_FRAME_SIZE {
            return Ok(None);
        }
        let end: usize = self.pos + AEA_FRAME_SIZE;
        let frame: Vec<u8> = vstd::slice::slice_to_vec(
            vstd::slice::slice_subrange(self.inner.as_slice(), self.pos, end),
        );
        self.pos = end;
        Ok(Some(frame))
    }

    fn frame_size(&self) -> (n: usize)
        ensures
            n == AEA_FRAME_SIZE,
    {
        AEA_FRAME_SIZE
    }

    fn length_in_samples(&self) -> (n: u64)
        ensures
            n == self.spec_length(),
    {
        let channels: u64 = if self.inner[264] == 0 {
            1
        } else {
            self.inner[264] as u64
        };
        let data_len: u64 = (self.inner.len() - AEA_META_SIZE) as u64;
        let frames: u64 = data_len / AEA_FRAME_SIZE as u64 / channels;
        if frames > AEA_PREROLL_FRAMES {
            512 * (frames - AEA_PREROLL_FRAMES)
        } else {
            0
        }
    }

    fn name(&self) -> (n: &str)
        ensures
            is_title_text(title_of(self.contents()), n@),
    {
        aea_title(&self.inner)
    }

    fn channels(&self) -> (n: usize)
        ensures
            n == self.contents()[264],
    {
        self.inner[264] as usize
    }
}

/// A file that was written is a file that can be read, if it has at most two
/// channels: with its number of channels and its title, cut to fifteen bytes, as
/// long as no byte of it is zero.
pub proof fn law_header_reads_back(title: Seq<u8>, count: Seq<u8>, channels: u8, data: Seq<u8>)
    requires
        count.len() == 4,
        channels < 3,
        forall|i: int| 0 <= i < kept_len(title) ==> #[trigger] title[i] != 0,
    ensures
        ({
            let file = aea_header(title, count, channels) + data;
            &&& is_aea(file)
            &&& file[264] == channels
            &&& count_of(file) == count
            &&& title_of(file) == title.take(kept_len(title))
        }),
{
    let file = aea_header(title, count, channels) + data;
    assert(count_of(file) =~= count);
    lemma_title_found(file, title, 4);
    assert(title_of(file) =~= title.take(kept_len(title)));
}

proof fn lemma_title_found(file: Seq<u8>, title: Seq<u8>, from: int)
    requires
        file.len() >= AEA_META_SIZE,
        4 <= from <= 4 + kept_len(title),
        forall|i: int| 0 <= i < kept_len(title) ==> #[trigger] title[i] != 0,
        forall|i: int| 0 <= i < kept_len(title) ==> file[4 + i] == #[trigger] title[i],
        file[4 + kept_len(title)] == 0,
    ensures
        title_end(file, from) == 4 + kept_len(title),
    decreases 20 - from,
{
    if from < 4 + kept_len(title) {
        assert(title[from - 4] != 0);
        lemma_title_found(file, title, from + 1);
    }
}

/// A frame that is appended to a file of `k` frames is frame `k` of the longer file,
/// the frames before it stay, and setting the frame count changes no frame.
pub proof fn law_frames_read_back(file: Seq<u8>, frame: Seq<u8>, count: Seq<u8>, k: int, j: int)
    requires
        0 <= j < k,
        file.len() == AEA_META_SIZE + AEA_FRAME_SIZE * k,
        frame.len() == AEA_FRAME_SIZE,
        count.len() == 4,
    ensures
        frame_at(file + frame, k) == frame,
        frame_at(file + frame, j) == frame_at(file, j),
        frame_at(bytes::patched(file, 260, count), j) == frame_at(file, j),
{
    assert(frame_at(file + frame, k) =~= frame);
    assert(AEA_META_SIZE + AEA_FRAME_SIZE * j + AEA_FRAME_SIZE <= file.len());
    assert(frame_at(file + frame, j) =~= frame_at(file, j));
    assert(frame_at(bytes::patched(file, 260, count), j) =~= frame_at(file, j));
}

/// A header has 2048 bytes: the mark 8 at 1, up to fifteen bytes of the title from 4 on, the
/// frame count from 260 on and the channels at 264; all others are 0.
pub proof fn law_header_layout(title: Seq<u8>, count: Seq<u8>, channels: u8, i: int)
    requires
        count.len() == 4,
        0 <= i < 2048,
    ensures
        ({
            let h = aea_header(title, count, channels);
            &&& h.len() == 2048
            &&& h[1] == 8
            &&& 4 <= i < 19 && i - 4 < title.len() ==> h[i] == title[i - 4]
            &&& h.subrange(260, 264) == count
            &&& h[264] == channels
            &&& i == 0 || i == 2 || i == 3 || i == 19 || (4 <= i < 19 && i - 4 >= title.len()) || (19
                < i < 260) || i > 264 ==> h[i] == 0
        }),
{
    let h = aea_header(title, count, channels);
    assert(h.subrange(260, 264) =~= count);
}

/// Frames of 212 bytes follow the header one after the other.
pub proof fn law_frames_follow(file: Seq<u8>, k: int, i: int)
    requires
        0 <= k,
        2048 + 212 * (k + 1) <= file.len(),
        0 <= i < 212,
    ensures
        frame_at(file, k).len() == 212,
        frame_at(file, k)[i] == file[2048 + 212 * k + i],
{
}

/// The first frame that is written is left out. Every later one is appended as a frame of its
/// own, cut or filled up with zeros to 212 bytes, and what was there before stays.
pub proof fn law_written_frames(
    out: AeaOutput,
    data: Seq<u8>,
    after: AeaOutput,
    r: Result<(), ContainerError>,
    k: int,
    i: int,
)
    requires
        out.wrote(data, &after, r),
        0 <= k,
        out.contents().len() == 2048 + 212 * k,
        0 <= i < 212,
    ensures
        r is Ok,
        !after.untouched(),
        out.untouched() ==> after.contents() == out.contents(),
        !out.untouched() ==> {
            &&& after.contents().len() == 2048 + 212 * (k + 1)
            &&& after.contents().take(out.contents().len() as int) == out.contents()
            &&& i < data.len() ==> frame_at(after.contents(), k)[i] == data[i]
            &&& i >= data.len() ==> frame_at(after.contents(), k)[i] == 0
            &&& after.num_written() == out.num_written() + 1
        },
{
    if !out.untouched() {
        assert(after.contents().take(out.contents().len() as int) =~= out.contents());
    }
}

} // verus!
