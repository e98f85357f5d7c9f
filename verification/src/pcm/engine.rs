//! The engine that reads frames, hands them to a processor and writes them.

use vstd::prelude::*;

verus! {

#[derive(Debug, Clone, Copy, Eq, PartialEq, Structural)]
pub enum ProcessResult {
    LookAhead,
    Processed,
}

#[derive(Debug, Clone, Copy, Eq, PartialEq, Structural)]
pub enum PcmEngineError {
    NoDataToRead,
    BufferTooSmall,
    WrongReadBuffer,
}

impl PcmEngineError {
    /// The error in words.
    pub open spec fn words(&self) -> Seq<char> {
        match *self {
            PcmEngineError::NoDataToRead => "no data to read"@,
            PcmEngineError::BufferTooSmall => "buffer too small"@,
            PcmEngineError::WrongReadBuffer => "wrong read buffer"@,
        }
    }

    pub fn message(&self) -> (m: String)
        ensures
            m@ == self.words(),
    {
        match *self {
            PcmEngineError::NoDataToRead => "no data to read".to_owned(),
            PcmEngineError::BufferTooSmall => "buffer too small".to_owned(),
            PcmEngineError::WrongReadBuffer => "wrong read buffer".to_owned(),
        }
    }
}

/// Interleaved samples of a fixed number of frames.
#[derive(Debug, Clone)]
pub struct PcmBuffer<T> {
    buf: Vec<T>,
    num_channels: usize,
    silence: T,
}

impl<T: Copy> PcmBuffer<T> {
    /// All samples, frame by frame.
    pub closed spec fn all(&self) -> Seq<T> {
        self.buf@
    }

    pub closed spec fn num_channels(&self) -> int {
        self.num_channels as int
    }

    /// The sample that stands for silence.
    pub closed spec fn silence(&self) -> T {
        self.silence
    }

    /// The number of frames.
    pub open spec fn num_frames(&self) -> int {
        self.all().len() as int / self.num_channels()
    }

    /// Whole frames only, at most 65535 of them.
    pub open spec fn wf(&self) -> bool {
        &&& self.num_channels() > 0
        &&& self.all().len() == self.num_frames() * self.num_channels()
        &&& 0 <= self.num_frames() <= u16::MAX
    }

    /// `other` has the shape of this buffer.
    pub open spec fn same_shape(&self, other: &Self) -> bool {
        &&& self.all().len() == other.all().len()
        &&& self.num_channels() == other.num_channels()
        &&& self.silence() == other.silence()
    }

    pub fn new(buf_size: u16, num_channels: usize, silence: T) -> (b: Self)
        requires
            buf_size * num_channels <= usize::MAX,
        ensures
            num_channels > 0 ==> b.wf() && b.num_frames() == buf_size,
            b.num_channels() == num_channels,
            b.silence() == silence,
            b.all() == Seq::new((buf_size * num_channels) as nat, |i: int| silence),
    {
        let len: usize = buf_size as usize * num_channels;
        let mut buf: Vec<T> = Vec::new();
        let mut i: usize = 0;
        while i < len
            invariant
                i <= len,
                buf@ == Seq::new(i as nat, |j: int| silence),
            decreases len - i,
        {
            buf.push(silence);
            i += 1;
            assert(buf@ =~= Seq::new(i as nat, |j: int| silence));
        }
        let b = PcmBuffer { buf, num_channels, silence };
        proof {
            if num_channels > 0 {
                vstd::arithmetic::div_mod::lemma_fundamental_div_mod_converse(
                    len as int,
                    num_channels as int,
                    buf_size as int,
                    0,
                );
            }
            assert(b.all() =~= Seq::new((buf_size * num_channels) as nat, |i: int| silence));
        }
        b
    }

    /// The number of frames.
    pub fn size(&self) -> (n: usize)
        requires
            self.wf(),
        ensures
            n == self.num_frames(),
    {
        self.buf.len() / self.num_channels
    }

    pub fn frame(&self, pos: usize) -> (r: &[T])
        requires
            self.wf(),
            pos < self.num_frames(),
        ensures
            r@ == self.all().subrange(
                pos * self.num_channels(),
                pos * self.num_channels() + self.num_channels(),
            ),
    {
        proof {
            assert(self.buf@.len() == self.buf.len());
            lemma_frames_in(pos as int, 1, self.num_frames(), self.num_channels());
        }
        let start: usize = pos * self.num_channels;
        vstd::slice::slice_subrange(self.buf.as_slice(), start, start + self.num_channels)
    }

    pub fn frame_mut(&mut self, pos: usize) -> (r: &mut [T])
        requires
            old(self).wf(),
            pos < old(self).num_frames(),
        ensures
            r@ == old(self).all().subrange(
                pos * old(self).num_channels(),
                pos * old(self).num_channels() + old(self).num_channels(),
            ),
            final(self).num_channels() == old(self).num_channels(),
            final(self).silence() == old(self).silence(),
            final(self).all() == old(self).all().take(pos * old(self).num_channels()) + final(r)@
                + old(self).all().skip(pos * old(self).num_channels() + old(self).num_channels()),
    {
        proof {
            lemma_frames_in(pos as int, 1, self.num_frames(), self.num_channels());
        }
        self.frames_mut(pos, 1)
    }

    pub fn channels(&self) -> (n: u16)
        ensures
            n == self.num_channels() as u16,
    {
        #[verifier::truncate]
        (self.num_channels as u16)
    }

    /// Silences `len` frames from `pos` on.
    pub fn zero(&mut self, pos: usize, len: usize)
        requires
            old(self).wf(),
            pos + len <= old(self).num_frames(),
        ensures
            final(self).wf(),
            final(self).same_shape(old(self)),
            final(self).all() == Seq::new(
                old(self).all().len(),
                |i: int|
                    if pos * old(self).num_channels() <= i < (pos + len) * old(
                        self,
                    ).num_channels() {
                        old(self).silence()
                    } else {
                        old(self).all()[i]
                    },
            ),
    {
        proof {
            assert(self.buf@.len() == self.buf.len());
            lemma_frames_in(pos as int, len as int, self.num_frames(), self.num_channels());
        }
        let start: usize = pos * self.num_channels;
        let end: usize = (pos + len) * self.num_channels;
        let mut i: usize = start;
        while i < end
            invariant
                start <= i <= end,
                end <= self.buf@.len(),
                self.buf@.len() == old(self).buf@.len(),
                self.num_channels == old(self).num_channels,
                self.silence == old(self).silence,
                forall|j: int|
                    0 <= j < self.buf@.len() ==> #[trigger] self.buf@[j] == (if start <= j < i {
                        self.silence
                    } else {
                        old(self).buf@[j]
                    }),
            decreases end - i,
        {
            self.buf[i] = self.silence;
            i += 1;
        }
        assert(self.all() =~= Seq::new(
            old(self).all().len(),
            |i: int|
                if start <= i < end {
                    old(self).silence()
                } else {
                    old(self).all()[i]
                },
        ));
    }

    pub fn samples(&self) -> (r: &[T])
        ensures
            r@ == self.all(),
    {
        self.buf.as_slice()
    }

    pub fn samples_mut(&mut self) -> (r: &mut [T])
        ensures
            r@ == old(self).all(),
            final(self).all() == final(r)@,
            final(self).num_channels() == old(self).num_channels(),
            final(self).silence() == old(self).silence(),
    {
        self.buf.as_mut_slice()
    }

    /// `len` frames from `pos` on.
    pub fn frames_mut(&mut self, pos: usize, len: usize) -> (r: &mut [T])
        requires
            old(self).wf(),
            pos + len <= old(self).num_frames(),
        ensures
            r@ == old(self).all().subrange(
                pos * old(self).num_channels(),
                (pos + len) * old(self).num_channels(),
            ),
            final(self).num_channels() == old(self).num_channels(),
            final(self).silence() == old(self).silence(),
            final(self).all() == old(self).all().take(pos * old(self).num_channels()) + final(r)@
                + old(self).all().skip((pos + len) * old(self).num_channels()),
    {
        proof {
            assert(self.buf@.len() == self.buf.len());
            lemma_frames_in(pos as int, len as int, self.num_frames(), self.num_channels());
        }
        let start: usize = pos * self.num_channels;
        let end: usize = (pos + len) * self.num_channels;
        let (_, tail): (&mut [T], &mut [T]) = self.buf.as_mut_slice().split_at_mut(start);
        let (mid, _): (&mut [T], &mut [T]) = tail.split_at_mut(end - start);
        mid
    }
}

proof fn lemma_frames_in(pos: int, len: int, frames: int, channels: int)
    requires
        0 <= pos,
        0 <= len,
        pos + len <= frames,
        channels > 0,
    ensures
        0 <= pos * channels <= (pos + len) * channels <= frames * channels,
        (pos + 1) * channels == pos * channels + channels,
{
    assert(0 <= pos * channels <= (pos + len) * channels <= frames * channels && (pos + 1) * channels
        == pos * channels + channels) by (nonlinear_arith)
        requires
            0 <= pos,
            0 <= len,
            pos + len <= frames,
            channels > 0,
    ;
}

/// Fills buffers with samples.
pub trait PcmReader<T: Copy> {
    /// What a read can come to: the buffer before and after it, the reader after it
    /// and the answer.
    open spec fn gave(
        &self,
        before: &PcmBuffer<T>,
        after: &PcmBuffer<T>,
        next: &Self,
        r: Result<bool, PcmEngineError>,
    ) -> bool {
        true
    }

    /// Reads up to `size` frames; false where there are none left.
    fn read(&mut self, data: &mut PcmBuffer<T>, size: u32) -> (r: Result<bool, PcmEngineError>)
        requires
            old(data).wf(),
            size == old(data).num_frames(),
        ensures
            final(data).same_shape(old(data)),
            old(self).gave(old(data), final(data), final(self), r),
    ;
}

/// Takes processed samples.
pub trait PcmWriter<T: Copy> {
    /// What writing the samples `data` can come to: the writer after it and the answer.
    open spec fn wrote(&self, data: Seq<T>, next: &Self, r: Result<(), PcmEngineError>) -> bool {
        true
    }

    /// Writes the first `size` frames.
    fn write(&mut self, data: &PcmBuffer<T>, size: u32) -> (r: Result<(), PcmEngineError>)
        requires
            data.wf(),
            size <= data.num_frames(),
        ensures
            old(self).wrote(data.all().take(size * data.num_channels()), final(self), r),
    ;
}

#[derive(Debug, Clone, Copy)]
pub struct ProcessMeta {
    pub channels: u16,
}

/// Works on one block of frames after the other.
pub trait Processor<T: Copy> {
    /// The processor looks ahead no more: it has a result for every block.
    open spec fn settled(&self) -> bool {
        false
    }

    /// What work on a block can come to: the block before and after it, the processor
    /// after it and the answer.
    open spec fn processed(
        &self,
        before: Seq<T>,
        after: Seq<T>,
        meta: &ProcessMeta,
        next: &Self,
        r: ProcessResult,
    ) -> bool {
        true
    }

    fn process_frame(&mut self, data: &mut [T], meta: &ProcessMeta) -> (r: ProcessResult)
        ensures
            final(data)@.len() == old(data)@.len(),
            old(self).processed(old(data)@, final(data)@, meta, final(self), r),
            old(self).settled() ==> r == ProcessResult::Processed && final(self).settled(),
    ;
}

/// How far the blocks of one call have come.
#[derive(Debug, Clone, Copy, Eq, PartialEq, Structural)]
pub struct Progress {
    /// Frames that are ready to be written.
    pub last_pos: usize,
    /// Blocks that were looked at and not processed yet.
    pub to_drain: u64,
    /// No further block is to be processed.
    pub stopped: bool,
}

/// What the result of one block does to the progress: a processed block is ready,
/// and while the engine drains, it is the last one of the call.
pub open spec fn advanced(p: Progress, step: int, drain: bool, result: ProcessResult) -> Progress {
    if result == ProcessResult::Processed {
        if drain && p.to_drain != 0 {
            Progress {
                last_pos: (p.last_pos + step) as usize,
                to_drain: (p.to_drain - 1) as u64,
                stopped: true,
            }
        } else {
            Progress { last_pos: (p.last_pos + step) as usize, ..p }
        }
    } else {
        Progress { to_drain: (p.to_drain + 1) as u64, ..p }
    }
}

/// The progress after blocks with these results.
pub open spec fn progress_after(
    results: Seq<ProcessResult>,
    step: int,
    drain: bool,
    to_drain: u64,
) -> Progress
    decreases results.len(),
{
    if results.len() == 0 {
        Progress { last_pos: 0, to_drain, stopped: false }
    } else {
        advanced(
            progress_after(results.drop_last(), step, drain, to_drain),
            step,
            drain,
            results.last(),
        )
    }
}

/// These are the results of all `blocks` blocks of a call, or of those up to the
/// one that stopped it.
pub open spec fn is_run(
    results: Seq<ProcessResult>,
    blocks: int,
    step: int,
    drain: bool,
    to_drain: u64,
) -> bool {
    &&& results.len() <= blocks
    &&& results.len() > 0 ==> !progress_after(
        results.drop_last(),
        step,
        drain,
        to_drain,
    ).stopped
    &&& results.len() == blocks || progress_after(results, step, drain, to_drain).stopped
}

/// Takes note of the result of one block. No block is looked at while the engine
/// drains.
pub fn advance(p: Progress, step: usize, drain: bool, result: ProcessResult) -> (r: Progress)
    requires
        p.last_pos + step <= usize::MAX,
        p.to_drain < u64::MAX,
        drain ==> result == ProcessResult::Processed,
    ensures
        r == advanced(p, step as int, drain, result),
{
    if result == ProcessResult::Processed {
        if drain && p.to_drain != 0 {
            Progress { last_pos: p.last_pos + step, to_drain: p.to_drain - 1, stopped: true }
        } else {
            Progress { last_pos: p.last_pos + step, to_drain: p.to_drain, stopped: p.stopped }
        }
    } else {
        Progress { last_pos: p.last_pos, to_drain: p.to_drain + 1, stopped: p.stopped }
    }
}

/// What a reader's answer means for a call: whether it drains, or the error that it
/// ends in.
pub open spec fn on_read(got: Result<bool, PcmEngineError>, to_drain: u64) -> Result<
    bool,
    PcmEngineError,
> {
    match got {
        Err(e) => Err(e),
        Ok(true) => Ok(false),
        Ok(false) => if to_drain != 0 {
            Ok(true)
        } else {
            Err(PcmEngineError::NoDataToRead)
        },
    }
}

/// The same for the answer of a reader that there may not be.
pub open spec fn on_answer(got: Option<Result<bool, PcmEngineError>>, to_drain: u64) -> Result<
    bool,
    PcmEngineError,
> {
    match got {
        Some(g) => on_read(g, to_drain),
        None => Ok(false),
    }
}

/// Takes a reader's answer: with data the call goes on; without, it drains while there
/// are blocks to drain.
pub fn after_read(got: Result<bool, PcmEngineError>, to_drain: u64) -> (r: Result<
    bool,
    PcmEngineError,
>)
    ensures
        r == on_read(got, to_drain),
{
    match got {
        Err(e) => Err(e),
        Ok(more) => {
            if more {
                Ok(false)
            } else if to_drain != 0 {
                Ok(true)
            } else {
                Err(PcmEngineError::NoDataToRead)
            }
        },
    }
}

/// Block `k` of samples in blocks of `len`.
pub open spec fn block<T>(all: Seq<T>, len: int, k: int) -> Seq<T> {
    all.subrange(k * len, (k + 1) * len)
}

/// Block `k` was handed to the processor as it stood, and nothing else changed.
pub open spec fn block_processed<T: Copy, P: Processor<T>>(
    procs: Seq<P>,
    bufs: Seq<Seq<T>>,
    results: Seq<ProcessResult>,
    len: int,
    meta: ProcessMeta,
    k: int,
) -> bool {
    &&& bufs[k + 1].len() == bufs[k].len()
    &&& procs[k].processed(
        block(bufs[k], len, k),
        block(bufs[k + 1], len, k),
        &meta,
        &procs[k + 1],
        results[k],
    )
    &&& bufs[k + 1] == bufs[k].take(k * len) + block(bufs[k + 1], len, k) + bufs[k].skip(
        (k + 1) * len,
    )
}

/// The blocks of a buffer were processed one after the other, from the first on: these
/// are the processor and the samples before each of them and at the end.
pub open spec fn is_pass<T: Copy, P: Processor<T>>(
    procs: Seq<P>,
    bufs: Seq<Seq<T>>,
    results: Seq<ProcessResult>,
    len: int,
    meta: ProcessMeta,
) -> bool {
    &&& procs.len() == results.len() + 1
    &&& bufs.len() == results.len() + 1
    &&& forall|k: int|
        0 <= k < results.len() ==> #[trigger] block_processed(procs, bufs, results, len, meta, k)
}

/// The writer's answer that a call passes on.
pub open spec fn written(r: Result<u64, PcmEngineError>) -> Result<(), PcmEngineError> {
    match r {
        Ok(_) => Ok(()),
        Err(e) => Err(e),
    }
}

/// Reads a buffer of frames, has it processed block by block and writes it.
pub struct PcmEngine<T: Copy, R: PcmReader<T>, W: PcmWriter<T>> {
    buffer: PcmBuffer<T>,
    writer: Option<W>,
    reader: Option<R>,
    processed: u64,
    to_drain: u64,
}

impl<T: Copy, R: PcmReader<T>, W: PcmWriter<T>> PcmEngine<T, R, W> {
    pub open spec fn wf(&self) -> bool {
        self.buffer().wf()
    }

    pub closed spec fn buffer(&self) -> PcmBuffer<T> {
        self.buffer
    }

    pub closed spec fn reader(&self) -> Option<R> {
        self.reader
    }

    pub closed spec fn writer(&self) -> Option<W> {
        self.writer
    }

    /// The number of frames of the buffer.
    pub open spec fn num_frames(&self) -> int {
        self.buffer().num_frames()
    }

    /// Frames processed so far.
    pub closed spec fn processed(&self) -> u64 {
        self.processed
    }

    /// Blocks that were looked at and not processed yet.
    pub closed spec fn to_drain(&self) -> u64 {
        self.to_drain
    }

    /// A call may come to a reader without data while blocks are held back.
    pub open spec fn may_drain(&self) -> bool {
        &&& self.to_drain() != 0
        &&& self.reader() matches Some(reader) && exists|loaded: PcmBuffer<T>, next: R| #[trigger]
            reader.gave(&self.buffer(), &loaded, &next, Ok(false))
    }

    /// What the reader of an engine, where it has one, has answered and put into the
    /// buffer.
    pub open spec fn loaded(
        before: Self,
        after: Self,
        got: Option<Result<bool, PcmEngineError>>,
        buffer: PcmBuffer<T>,
    ) -> bool {
        match before.reader() {
            Some(reader) => {
                &&& got is Some
                &&& after.reader() is Some
                &&& buffer.same_shape(&before.buffer())
                &&& reader.gave(&before.buffer(), &buffer, &after.reader()->0, got->0)
            },
            None => got is None && after.reader() is None && buffer == before.buffer(),
        }
    }

    /// The samples of `buffer` went through the processor in blocks of `step` frames,
    /// and those that are ready to the writer, where there is one.
    pub open spec fn passed<P: Processor<T>>(
        before: Self,
        after: Self,
        step: int,
        drain: bool,
        buffer: PcmBuffer<T>,
        procs: Seq<P>,
        bufs: Seq<Seq<T>>,
        results: Seq<ProcessResult>,
        r: Result<u64, PcmEngineError>,
    ) -> bool {
        let p = progress_after(results, step, drain, before.to_drain());
        let channels = buffer.num_channels();
        let total = before.processed() + p.last_pos;
        &&& is_run(results, before.num_frames() / step, step, drain, before.to_drain())
        &&& drain ==> results == seq![ProcessResult::Processed]
        &&& is_pass(
            procs,
            bufs,
            results,
            step * channels,
            ProcessMeta { channels: channels as u16 },
        )
        &&& bufs[0] == buffer.all()
        &&& after.buffer().all() == bufs.last()
        &&& after.buffer().same_shape(&buffer)
        &&& after.to_drain() == p.to_drain
        &&& match before.writer() {
            Some(writer) => {
                &&& after.writer() is Some
                &&& writer.wrote(
                    bufs.last().take(p.last_pos * channels),
                    &after.writer()->0,
                    written(r),
                )
            },
            None => after.writer() is None && r is Ok,
        }
        &&& r matches Ok(n) ==> n == total
        &&& after.processed() == (if r is Ok {
            total
        } else {
            before.processed() as int
        })
    }

    /// What a call does that has blocks of `step` frames, for each answer of the reader.
    pub open spec fn pumped<P: Processor<T>>(
        before: Self,
        after: Self,
        step: int,
        first: P,
        last: P,
        got: Option<Result<bool, PcmEngineError>>,
        buffer: PcmBuffer<T>,
        r: Result<u64, PcmEngineError>,
    ) -> bool {
        match on_answer(got, before.to_drain()) {
            Err(e) => {
                &&& r == Err::<u64, PcmEngineError>(e)
                &&& after.buffer() == buffer
                &&& after.writer() == before.writer()
                &&& after.processed() == before.processed()
                &&& after.to_drain() == before.to_drain()
                &&& last == first
            },
            Ok(drain) => exists|procs: Seq<P>, bufs: Seq<Seq<T>>, results: Seq<ProcessResult>|
                {
                    &&& #[trigger] Self::passed(
                        before,
                        after,
                        step,
                        drain,
                        buffer,
                        procs,
                        bufs,
                        results,
                        r,
                    )
                    &&& procs[0] == first
                    &&& procs.last() == last
                },
        }
    }

    pub fn new(
        buf_size: u16,
        num_channels: usize,
        silence: T,
        reader: Option<R>,
        writer: Option<W>,
    ) -> (e: Self)
        requires
            num_channels > 0,
            buf_size * num_channels <= usize::MAX,
        ensures
            e.wf(),
            e.num_frames() == buf_size,
            e.buffer().num_channels() == num_channels,
            e.buffer().silence() == silence,
            e.buffer().all() == Seq::new((buf_size * num_channels) as nat, |i: int| silence),
            e.reader() == reader,
            e.writer() == writer,
            e.processed() == 0,
            e.to_drain() == 0,
    {
        PcmEngine {
            buffer: PcmBuffer::new(buf_size, num_channels, silence),
            writer,
            reader,
            processed: 0,
            to_drain: 0,
        }
    }

    /// Pumps one buffer of frames through the processor in blocks of `step` frames
    /// and returns how many frames have been processed in all. Where the reader has
    /// no more data, blocks that were looked at before are drained, one a call.
    pub fn apply_process<P: Processor<T>>(&mut self, step: usize, processor: &mut P) -> (r: Result<
        u64,
        PcmEngineError,
    >)
        requires
            old(self).wf(),
            step > 0,
            old(self).processed() + old(self).num_frames() <= u64::MAX,
            old(self).to_drain() + old(self).num_frames() <= u64::MAX,
            old(self).may_drain() ==> old(processor).settled(),
        ensures
            final(self).wf(),
            final(self).buffer().same_shape(&old(self).buffer()),
            step > old(self).num_frames() ==> r == Err::<u64, PcmEngineError>(
                PcmEngineError::BufferTooSmall,
            ) && *final(self) == *old(self) && *final(processor) == *old(processor),
            step <= old(self).num_frames() ==> exists|
                got: Option<Result<bool, PcmEngineError>>,
                buffer: PcmBuffer<T>,
            | #[trigger]
                Self::loaded(*old(self), *final(self), got, buffer) && Self::pumped(
                    *old(self),
                    *final(self),
                    step as int,
                    *old(processor),
                    *final(processor),
                    got,
                    buffer,
                    r,
                ),
    {
        let size: usize = self.buffer.size();
        if step > size {
            return Err(PcmEngineError::BufferTooSmall);
        }
        let ghost before = *self;
        let ghost first = *processor;
        let mut drain: bool = false;
        let mut got: Option<Result<bool, PcmEngineError>> = None;
        if let Some(reader) = &mut self.reader {
            got = Some(reader.read(&mut self.buffer, size as u32));
        }
        let ghost buffer = self.buffer;
        assert(Self::loaded(before, *self, got, buffer));
        if let Some(answer) = got {
            match after_read(answer, self.to_drain) {
                Ok(b) => {
                    drain = b;
                },
                Err(e) => {
                    assert(Self::pumped(
                        before,
                        *self,
                        step as int,
                        first,
                        *processor,
                        got,
                        buffer,
                        Err(e),
                    ));
                    return Err(e);
                },
            }
        }
        let ghost next = self.reader;
        assert(drain ==> before.may_drain());
        let meta = ProcessMeta { channels: self.buffer.channels() };
        let blocks: usize = size / step;
        let ghost channels = buffer.num_channels();
        let ghost len = step * channels;
        let mut p = Progress { last_pos: 0, to_drain: self.to_drain, stopped: false };
        let ghost mut results = Seq::<ProcessResult>::empty();
        let ghost mut procs = seq![first];
        let ghost mut bufs = seq![buffer.all()];
        let mut k: usize = 0;
        while k < blocks && !p.stopped
            invariant
                step > 0,
                k <= blocks,
                blocks == size / step,
                size <= u16::MAX,
                before.wf(),
                buffer.same_shape(&before.buffer()),
                self.buffer.wf(),
                self.buffer.num_frames() == size,
                self.buffer.same_shape(&buffer),
                channels == buffer.num_channels(),
                len == step * channels,
                meta == (ProcessMeta { channels: channels as u16 }),
                self.reader == next,
                self.writer == before.writer,
                self.processed == before.processed,
                self.to_drain == before.to_drain,
                before.to_drain + size <= u64::MAX,
                drain ==> before.to_drain != 0 && processor.settled(),
                results.len() == k,
                procs.len() == k + 1,
                bufs.len() == k + 1,
                procs[0] == first,
                bufs[0] == buffer.all(),
                procs.last() == *processor,
                bufs.last() == self.buffer.all(),
                is_pass(procs, bufs, results, len, meta),
                p == progress_after(results, step as int, drain, before.to_drain),
                p.last_pos <= k * step,
                p.to_drain <= before.to_drain + k,
                drain ==> results.len() == 0 || results == seq![ProcessResult::Processed]
                    && p.stopped,
                results.len() > 0 ==> !progress_after(
                    results.drop_last(),
                    step as int,
                    drain,
                    before.to_drain,
                ).stopped,
            decreases blocks - k,
        {
            assert(k * step + step == (k + 1) * step && (k + 1) * step <= blocks * step && 0 <= k
                * step) by (nonlinear_arith)
                requires
                    k < blocks,
            ;
            assert(blocks * step <= size) by {
                vstd::arithmetic::div_mod::lemma_fundamental_div_mod(size as int, step as int);
                assert(step * blocks == blocks * step) by (nonlinear_arith);
            }
            let ghost was = self.buffer;
            let data: &mut [T] = self.buffer.frames_mut(k * step, step);
            let ghost mid = final(data)@;
            let result: ProcessResult = processor.process_frame(data, &meta);
            proof {
                lemma_frames_in(k * step, step as int, was.num_frames(), channels);
                assert((k * step) * channels == k * len && (k * step + step) * channels == (k + 1)
                    * len) by (nonlinear_arith)
                    requires
                        len == step * channels,
                ;
                assert(self.buffer.all().len() == was.all().len());
                lemma_pass(
                    procs,
                    bufs,
                    results,
                    len,
                    meta,
                    *processor,
                    mid,
                    result,
                );
                assert(self.buffer.all() =~= was.all().take(k * len) + mid + was.all().skip(
                    (k + 1) * len,
                ));
            }
            assert(k < size) by (nonlinear_arith)
                requires
                    k * step + step <= size,
                    step > 0,
            ;
            p = advance(p, step, drain, result);
            proof {
                let before_results = results;
                results = results.push(result);
                procs = procs.push(*processor);
                bufs = bufs.push(self.buffer.all());
                assert(results.drop_last() =~= before_results);
                if drain {
                    assert(results =~= seq![ProcessResult::Processed]);
                }
            }
            k += 1;
        }
        self.to_drain = p.to_drain;
        proof {
            assert(is_run(
                results,
                before.num_frames() / step as int,
                step as int,
                drain,
                before.to_drain(),
            ));
            assert(blocks * step <= size) by {
                vstd::arithmetic::div_mod::lemma_fundamental_div_mod(size as int, step as int);
                assert(step * blocks == blocks * step) by (nonlinear_arith);
            }
            assert(k * step <= blocks * step) by (nonlinear_arith)
                requires
                    k <= blocks,
            ;
            assert(blocks > 0) by (nonlinear_arith)
                requires
                    blocks == size / step,
                    0 < step <= size,
            ;
        }
        let mut answer: Result<(), PcmEngineError> = Ok(());
        if let Some(writer) = &mut self.writer {
            answer = writer.write(&self.buffer, p.last_pos as u32);
        }
        let r: Result<u64, PcmEngineError> = match answer {
            Ok(done) => {
                assert(done == ());
                self.processed = self.processed + p.last_pos as u64;
                Ok(self.processed)
            },
            Err(e) => Err(e),
        };
        assert(written(r) == answer);
        proof {
            assert(Self::loaded(before, *self, got, buffer));
            let go_on = on_answer(got, before.to_drain());
            assert(go_on == Ok::<bool, PcmEngineError>(drain));
            assert(Self::passed(
                before,
                *self,
                step as int,
                go_on->Ok_0,
                buffer,
                procs,
                bufs,
                results,
                r,
            ));
            assert(procs[0] == first && procs.last() == *processor);
            assert(Self::pumped(
                before,
                *self,
                step as int,
                first,
                *processor,
                got,
                buffer,
                r,
            ));
        }
        r
    }

    /// A reader without data ends the work: a call drains one block and hands it to the
    /// writer while blocks are held back, and reports after that that there is nothing
    /// to read.
    pub proof fn law_dry_reader_drains<P: Processor<T>>(
        before: Self,
        after: Self,
        step: int,
        first: P,
        last: P,
        got: Option<Result<bool, PcmEngineError>>,
        buffer: PcmBuffer<T>,
        r: Result<u64, PcmEngineError>,
    )
        requires
            before.wf(),
            0 < step <= before.num_frames(),
            Self::loaded(before, after, got, buffer),
            Self::pumped(before, after, step, first, last, got, buffer, r),
            got == Some(Ok::<bool, PcmEngineError>(false)),
        ensures
            before.to_drain() == 0 ==> r == Err::<u64, PcmEngineError>(
                PcmEngineError::NoDataToRead,
            ) && after.writer() == before.writer(),
            before.to_drain() > 0 ==> after.to_drain() == before.to_drain() - 1,
            before.to_drain() > 0 && r is Ok ==> r == Ok::<u64, PcmEngineError>(
                (before.processed() + step) as u64,
            ),
            before.to_drain() > 0 && before.writer() is None ==> r is Ok,
            before.to_drain() > 0 && before.writer() is Some ==> before.writer()->0.wrote(
                after.buffer().all().take(step * buffer.num_channels()),
                &after.writer()->0,
                written(r),
            ),
    {
        if before.to_drain() > 0 {
            let (procs, bufs, results) = choose|
                procs: Seq<P>,
                bufs: Seq<Seq<T>>,
                results: Seq<ProcessResult>,
            | #[trigger]
                Self::passed(before, after, step, true, buffer, procs, bufs, results, r) && procs[0]
                    == first && procs.last() == last;
            assert(results.drop_last() =~= Seq::<ProcessResult>::empty());
            reveal_with_fuel(progress_after, 2);
        }
    }
}

/// One more block at the end of a pass.
proof fn lemma_pass<T: Copy, P: Processor<T>>(
    procs: Seq<P>,
    bufs: Seq<Seq<T>>,
    results: Seq<ProcessResult>,
    len: int,
    meta: ProcessMeta,
    next: P,
    mid: Seq<T>,
    result: ProcessResult,
)
    requires
        len >= 0,
        is_pass(procs, bufs, results, len, meta),
        0 <= results.len() * len <= (results.len() + 1) * len <= bufs.last().len(),
        mid.len() == (results.len() + 1) * len - results.len() * len,
        procs.last().processed(
            block(bufs.last(), len, results.len() as int),
            mid,
            &meta,
            &next,
            result,
        ),
    ensures
        is_pass(
            procs.push(next),
            bufs.push(
                bufs.last().take(results.len() * len) + mid + bufs.last().skip(
                    (results.len() + 1) * len,
                ),
            ),
            results.push(result),
            len,
            meta,
        ),
{
    let n = results.len() as int;
    let after = bufs.last().take(n * len) + mid + bufs.last().skip((n + 1) * len);
    assert(block(after, len, n) =~= mid);
    let procs2 = procs.push(next);
    let bufs2 = bufs.push(after);
    let results2 = results.push(result);
    assert forall|k: int| 0 <= k < results2.len() implies #[trigger] block_processed(
        procs2,
        bufs2,
        results2,
        len,
        meta,
        k,
    ) by {
        if k < n {
            assert(block_processed(procs, bufs, results, len, meta, k));
        }
    }
}

/// While samples come in, every block is accounted for: it is ready to be written,
/// or it was looked at and is still to be drained.
pub proof fn law_blocks_accounted(results: Seq<ProcessResult>, step: int, to_drain: u64)
    requires
        step > 0,
        step * results.len() <= usize::MAX,
        to_drain + results.len() <= u64::MAX,
    ensures
        ({
            let p = progress_after(results, step, false, to_drain);
            &&& !p.stopped
            &&& to_drain <= p.to_drain <= to_drain + results.len()
            &&& p.last_pos + step * (p.to_drain - to_drain) == step * results.len()
        }),
    decreases results.len(),
{
    if results.len() == 0 {
        assert(step * 0 == 0);
    } else {
        let n = results.len() as int;
        let rest = results.drop_last();
        let p = progress_after(rest, step, false, to_drain);
        assert(step * (n - 1) + step == step * n) by (nonlinear_arith);
        law_blocks_accounted(rest, step, to_drain);
        let d = p.to_drain - to_drain;
        assert(step * d + step == step * (d + 1) && 0 <= step * d) by (nonlinear_arith)
            requires
                0 <= d,
                0 < step,
        ;
    }
}

/// Once no samples come in, each call drains one block of those that were looked at.
pub proof fn law_drains_one(results: Seq<ProcessResult>, blocks: int, step: int, to_drain: u64)
    requires
        0 < step <= usize::MAX,
        0 < blocks,
        0 < to_drain,
        is_run(results, blocks, step, true, to_drain),
        forall|i: int|
            0 <= i < results.len() ==> #[trigger] results[i] == ProcessResult::Processed,
    ensures
        progress_after(results, step, true, to_drain) == (Progress {
            last_pos: step as usize,
            to_drain: (to_drain - 1) as u64,
            stopped: true,
        }),
{
    let start = progress_after(Seq::empty(), step, true, to_drain);
    if results.len() > 0 {
        let first = results.take(1);
        assert(first.drop_last() =~= Seq::<ProcessResult>::empty());
        assert(first.last() == results[0]);
        let one = progress_after(first, step, true, to_drain);
        assert(one.stopped);
        if results.len() > 1 {
            lemma_stays_stopped(results.drop_last(), step, to_drain);
        } else {
            assert(results =~= first);
        }
    } else {
        assert(results =~= Seq::<ProcessResult>::empty());
        assert(!start.stopped);
    }
}

/// A call that drains is stopped by its first block.
proof fn lemma_stays_stopped(results: Seq<ProcessResult>, step: int, to_drain: u64)
    requires
        results.len() > 0,
        0 < to_drain,
        forall|i: int|
            0 <= i < results.len() ==> #[trigger] results[i] == ProcessResult::Processed,
    ensures
        progress_after(results, step, true, to_drain).stopped,
    decreases results.len(),
{
    if results.len() == 1 {
        assert(results.drop_last() =~= Seq::<ProcessResult>::empty());
        reveal_with_fuel(progress_after, 2);
    } else {
        assert forall|i: int| 0 <= i < results.drop_last().len() implies #[trigger] results.drop_last()[i]
            == ProcessResult::Processed by {
            assert(results.drop_last()[i] == results[i]);
        }
        lemma_stays_stopped(results.drop_last(), step, to_drain);
    }
}

/// What a reader's answer comes to: an error ends the call; with samples it does not drain;
/// without, it drains just while blocks wait, and else there is nothing to read. Without a
/// reader it does not drain.
pub proof fn law_reader_decides(e: PcmEngineError, to_drain: u64)
    ensures
        on_read(Err(e), to_drain) == Err::<bool, PcmEngineError>(e),
        on_read(Ok(true), to_drain) == Ok::<bool, PcmEngineError>(false),
        to_drain > 0 ==> on_read(Ok(false), to_drain) == Ok::<bool, PcmEngineError>(true),
        to_drain == 0 ==> on_read(Ok(false), to_drain) == Err::<bool, PcmEngineError>(
            PcmEngineError::NoDataToRead,
        ),
        on_answer(None, to_drain) == Ok::<bool, PcmEngineError>(false),
        on_answer(Some(Ok(true)), to_drain) == Ok::<bool, PcmEngineError>(false),
        on_answer(Some(Ok(false)), to_drain) == on_read(Ok(false), to_drain),
        on_answer(Some(Err(e)), to_drain) == Err::<bool, PcmEngineError>(e),
{
}

} // verus!
