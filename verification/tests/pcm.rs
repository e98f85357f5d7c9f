use std::cell::RefCell;
use std::rc::Rc;

use atracdenc_core::pcm::engine::{
    advance, after_read, PcmBuffer, PcmEngine, PcmEngineError, PcmReader, PcmWriter, ProcessMeta,
    ProcessResult, Processor, Progress,
};
use atracdenc_core::pcm::interleave::{deinterleave, interleave};

struct VecReader {
    chunks: Vec<Vec<f32>>,
    channels: usize,
}

impl PcmReader<f32> for VecReader {
    fn read(&mut self, data: &mut PcmBuffer<f32>, size: u32) -> Result<bool, PcmEngineError> {
        if data.channels() as usize != self.channels {
            return Err(PcmEngineError::WrongReadBuffer);
        }
        let Some(chunk) = self.chunks.first().cloned() else {
            return Ok(false);
        };
        self.chunks.remove(0);
        let frames = chunk.len() / self.channels;
        data.samples_mut()[..chunk.len()].copy_from_slice(&chunk);
        if frames < size as usize {
            data.zero(frames, size as usize - frames);
        }
        Ok(frames != 0)
    }
}

#[derive(Default)]
struct VecWriter {
    data: Rc<RefCell<Vec<f32>>>,
}

impl PcmWriter<f32> for VecWriter {
    fn write(&mut self, data: &PcmBuffer<f32>, size: u32) -> Result<(), PcmEngineError> {
        self.data
            .borrow_mut()
            .extend_from_slice(&data.samples()[..size as usize * data.channels() as usize]);
        Ok(())
    }
}

struct LookaheadOnce {
    calls: usize,
}

impl Processor<f32> for LookaheadOnce {
    fn process_frame(&mut self, data: &mut [f32], _meta: &ProcessMeta) -> ProcessResult {
        self.calls += 1;
        data[0] += 1.0;
        if self.calls == 1 {
            ProcessResult::LookAhead
        } else {
            ProcessResult::Processed
        }
    }
}

#[test]
fn apply_process_handles_lookahead_and_drain() {
    let reader = VecReader {
        chunks: vec![vec![1.0, 2.0, 3.0, 4.0]],
        channels: 1,
    };
    let writer = VecWriter::default();
    let written = writer.data.clone();
    let mut engine = PcmEngine::new(4, 1, 0.0, Some(reader), Some(writer));
    let mut proc = LookaheadOnce { calls: 0 };

    assert_eq!(3, engine.apply_process(1, &mut proc).unwrap());
    assert_eq!(4, engine.apply_process(1, &mut proc).unwrap());
    assert_eq!(
        Err(PcmEngineError::NoDataToRead),
        engine.apply_process(1, &mut proc)
    );
    assert_eq!(vec![2.0, 3.0, 4.0, 3.0], *written.borrow());
}

#[test]
fn engine_passes_errors_on() {
    let reader = VecReader {
        chunks: vec![],
        channels: 2,
    };
    let mut engine: PcmEngine<f32, VecReader, VecWriter> =
        PcmEngine::new(4, 1, 0.0, Some(reader), None);
    let mut proc = LookaheadOnce { calls: 1 };
    assert_eq!(
        Err(PcmEngineError::BufferTooSmall),
        engine.apply_process(5, &mut proc)
    );
    assert_eq!(
        Err(PcmEngineError::WrongReadBuffer),
        engine.apply_process(4, &mut proc)
    );
    let mut idle: PcmEngine<f32, VecReader, VecWriter> = PcmEngine::new(5, 1, 0.0, None, None);
    assert_eq!(4, idle.apply_process(2, &mut proc).unwrap());
    assert_eq!("no data to read", PcmEngineError::NoDataToRead.message());
    assert_eq!("buffer too small", PcmEngineError::BufferTooSmall.message());
    assert_eq!("wrong read buffer", PcmEngineError::WrongReadBuffer.message());
}

#[test]
fn progress_counts_blocks() {
    let p = Progress {
        last_pos: 4,
        to_drain: 1,
        stopped: false,
    };
    let q = advance(p, 4, false, ProcessResult::LookAhead);
    assert_eq!((4, 2, false), (q.last_pos, q.to_drain, q.stopped));
    let q = advance(p, 4, true, ProcessResult::Processed);
    assert_eq!((8, 0, true), (q.last_pos, q.to_drain, q.stopped));
    let q = advance(p, 4, false, ProcessResult::Processed);
    assert_eq!((8, 1, false), (q.last_pos, q.to_drain, q.stopped));
}

#[test]
fn buffers_hold_frames() {
    let mut b = PcmBuffer::new(3, 2, 0_i16);
    assert_eq!((3, 2), (b.size(), b.channels()));
    b.frame_mut(1).copy_from_slice(&[5, 6]);
    assert_eq!([5, 6], b.frame(1));
    b.frames_mut(1, 2)[3] = 9;
    assert_eq!([0, 0, 5, 6, 0, 9], b.samples());
    b.zero(1, 1);
    assert_eq!([0, 0, 0, 0, 0, 9], b.samples());
}

#[test]
fn channels_are_taken_out_and_put_back() {
    let mut data = [1, 10, 2, 20, 3, 30];
    assert_eq!(vec![10, 20, 30], deinterleave(&data, 2, 1, 3));
    interleave(&mut data, 2, 1, &[7, 8], 2);
    assert_eq!([1, 7, 2, 8, 3, 30], data);
    assert_eq!(vec![7, 8], deinterleave(&data, 2, 1, 2));
    assert_eq!(vec![1, 2, 3], deinterleave(&data, 2, 0, 3));
}

#[test]
fn readers_answer_decides_what_a_call_does() {
    assert_eq!(Ok(false), after_read(Ok(true), 3));
    assert_eq!(Ok(true), after_read(Ok(false), 3));
    assert_eq!(Err(PcmEngineError::NoDataToRead), after_read(Ok(false), 0));
    assert_eq!(
        Err(PcmEngineError::WrongReadBuffer),
        after_read(Err(PcmEngineError::WrongReadBuffer), 3)
    );
}
