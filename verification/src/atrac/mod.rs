//! What the codecs share.

pub mod scale;
