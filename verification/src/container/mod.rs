//! Files that hold compressed frames.

pub mod aea;
pub mod at3;
pub mod bytes;
pub mod oma;
pub mod raw;
pub mod rm;

use vstd::prelude::*;

verus! {

#[derive(Debug, Clone, Copy, Eq, PartialEq)]
pub enum ContainerError {
    InvalidInput(&'static str),
    AlreadyConsumed,
    UnsupportedSampleRate,
    UnexpectedEof,
}

impl ContainerError {
    /// The error in words.
    pub open spec fn words(&self) -> Seq<char> {
        match *self {
            ContainerError::InvalidInput(what) => "invalid input: "@ + what@,
            ContainerError::AlreadyConsumed => "container already consumed"@,
            ContainerError::UnsupportedSampleRate => "unsupported sample rate"@,
            ContainerError::UnexpectedEof => "unexpected end of file"@,
        }
    }

    pub fn message(&self) -> (m: String)
        ensures
            m@ == self.words(),
    {
        match *self {
            ContainerError::InvalidInput(what) => "invalid input: ".to_owned().concat(what),
            ContainerError::AlreadyConsumed => "container already consumed".to_owned(),
            ContainerError::UnsupportedSampleRate => "unsupported sample rate".to_owned(),
            ContainerError::UnexpectedEof => "unexpected end of file".to_owned(),
        }
    }
}

/// Takes compressed frames.
pub trait CompressedOutput {
    /// The output can be used.
    open spec fn ready(&self) -> bool {
        true
    }

    /// A further frame of `len` bytes can be taken.
    open spec fn has_room(&self, len: nat) -> bool {
        true
    }

    /// What writing `data` can come to: the output after it, and the result.
    open spec fn wrote(&self, data: Seq<u8>, after: &Self, r: Result<(), ContainerError>) -> bool {
        true
    }

    fn write_frame(&mut self, data: &[u8]) -> (r: Result<(), ContainerError>)
        requires
            old(self).ready(),
            old(self).has_room(data@.len()),
        ensures
            final(self).ready(),
            old(self).wrote(data@, final(self), r),
    ;

    fn name(&self) -> &str
        requires
            self.ready(),
    ;

    fn channels(&self) -> usize
        requires
            self.ready(),
    ;
}

/// Gives compressed frames.
pub trait CompressedInput {
    /// The input can be used.
    open spec fn ready(&self) -> bool {
        true
    }

    /// The next frame; nothing at the end.
    fn read_frame(&mut self) -> (r: Result<Option<Vec<u8>>, ContainerError>)
        requires
            old(self).ready(),
        ensures
            final(self).ready(),
    ;

    fn frame_size(&self) -> usize
        requires
            self.ready(),
    ;

    fn length_in_samples(&self) -> u64
        requires
            self.ready(),
    ;

    fn name(&self) -> &str
        requires
            self.ready(),
    ;

    fn channels(&self) -> usize
        requires
            self.ready(),
    ;
}

/// What the errors of containers say: an invalid input why it is that, the others themselves.
pub proof fn law_error_words(what: &'static str)
    ensures
        ContainerError::InvalidInput(what).words() == "invalid input: "@ + what@,
        ContainerError::AlreadyConsumed.words() == "container already consumed"@,
        ContainerError::UnsupportedSampleRate.words() == "unsupported sample rate"@,
        ContainerError::UnexpectedEof.words() == "unexpected end of file"@,
{
}

} // verus!
