//! Bit-exact core of the ATRAC family of audio codecs: bitstream packing, bit
//! allocation, container framing and the decisions that steer the transforms.

pub mod at1;
pub mod at3;
pub mod at3p;
pub mod atrac;
pub mod bitstream;
pub mod container;
pub mod dsp;
pub mod error;
pub mod format;
pub mod pcm;
pub mod text;
pub mod util;
