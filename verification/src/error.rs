//! The errors of the library as a whole.

use vstd::prelude::*;
use crate::bitstream::encode::BitStreamEncodeError;
use crate::container::ContainerError;
use crate::pcm::engine::PcmEngineError;

verus! {

#[derive(Debug, Clone, Eq, PartialEq)]
pub enum AtracdencError {
    PcmEngine(PcmEngineError),
    Container(ContainerError),
    BitStreamEncode(BitStreamEncodeError),
    InvalidInput(String),
}

impl AtracdencError {
    /// The error is that the input is invalid, for this reason.
    pub open spec fn is_invalid_input(&self, why: Seq<char>) -> bool {
        *self matches AtracdencError::InvalidInput(s) && s@ == why
    }

    /// The error in words.
    pub fn message(&self) -> (m: String)
        ensures
            m@ == match *self {
                AtracdencError::PcmEngine(e) => "PCM engine error: "@ + e.words(),
                AtracdencError::Container(e) => "container error: "@ + e.words(),
                AtracdencError::BitStreamEncode(e) => "bitstream encode error: "@ + e.words(),
                AtracdencError::InvalidInput(why) => "invalid input: "@ + why@,
            },
    {
        match self {
            AtracdencError::PcmEngine(e) => {
                let inner: String = e.message();
                "PCM engine error: ".to_owned().concat(inner.as_str())
            },
            AtracdencError::Container(e) => {
                let inner: String = e.message();
                "container error: ".to_owned().concat(inner.as_str())
            },
            AtracdencError::BitStreamEncode(e) => {
                let inner: String = e.message();
                "bitstream encode error: ".to_owned().concat(inner.as_str())
            },
            AtracdencError::InvalidInput(why) => {
                "invalid input: ".to_owned().concat(why.as_str())
            },
        }
    }
}

} // verus!
