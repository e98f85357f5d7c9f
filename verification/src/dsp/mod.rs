//! Signal processing blocks.

pub mod delay_buffer;
pub mod gain;
pub mod order;
pub mod transient;
