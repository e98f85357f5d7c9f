//! ATRAC3plus.

pub mod bitstream;
pub mod encoder;
pub mod ff_dsp;
pub mod fields;
pub mod frame;
pub mod freq_pack;
pub mod gha;
pub mod gha_result;
pub mod gha_track;
pub mod mdct;
pub mod reading;
pub mod spectra;
pub mod tables;
pub mod tonal;
pub mod tone_reading;
pub mod unit_reading;
