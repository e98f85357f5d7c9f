//! PCM buffers and the engine that pumps frames through a processor.

pub mod engine;
pub mod interleave;
