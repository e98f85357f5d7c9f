//! ATRAC1: bit allocation, frames and their dequantisation.

pub mod bitalloc;
pub mod codec;
pub mod data;
pub mod dequantiser;
pub mod frame;
