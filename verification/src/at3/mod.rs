//! ATRAC3.

pub mod bitstream;
pub mod coding;
pub mod data;
pub mod decoding;
pub mod encoder;
pub mod reading;
pub mod sound_unit;
pub mod tonal;
pub mod tonal_reading;
