//! Frames without any header.

use vstd::prelude::*;
use crate::at3::sound_unit;
use crate::at3::sound_unit::resize_bytes;
use crate::container::bytes::push_bytes;
use crate::container::{CompressedOutput, ContainerError};

verus! {

/// Frames one after the other, all of one size where a size is set.
#[derive(Debug, Clone)]
pub struct RawOutput {
    inner: Vec<u8>,
    num_channels: usize,
    frame_size: Option<usize>,
}

impl RawOutput {
    /// What was written so far.
    pub closed spec fn contents(&self) -> Seq<u8> {
        self.inner@
    }

    pub closed spec fn spec_frame_size(&self) -> Option<usize> {
        self.frame_size
    }

    pub closed spec fn spec_channels(&self) -> usize {
        self.num_channels
    }

    pub fn new(num_channels: usize, frame_size: Option<usize>) -> (o: Self)
        ensures
            o.contents() == Seq::<u8>::empty(),
            o.spec_channels() == num_channels,
            o.spec_frame_size() == frame_size,
    {
        RawOutput { inner: Vec::new(), num_channels, frame_size }
    }

    pub fn into_inner(self) -> (bytes: Vec<u8>)
        ensures
            bytes@ == self.contents(),
    {
        self.inner
    }
}

impl CompressedOutput for RawOutput {
    open spec fn ready(&self) -> bool {
        true
    }

    open spec fn has_room(&self, len: nat) -> bool {
        true
    }

    open spec fn wrote(&self, data: Seq<u8>, after: &Self, r: Result<(), ContainerError>) -> bool {
        &&& r is Ok
        &&& after.contents() == self.contents() + (match self.spec_frame_size() {
            Some(n) => sound_unit::resized(data, n as int),
            None => data,
        })
        &&& after.spec_channels() == self.spec_channels()
        &&& after.spec_frame_size() == self.spec_frame_size()
    }

    fn write_frame(&mut self, data: &[u8]) -> (r: Result<(), ContainerError>)
    {
        match self.frame_size {
            Some(n) => {
                let mut frame: Vec<u8> = vstd::slice::slice_to_vec(data);
                resize_bytes(&mut frame, n);
                self.inner.append(&mut frame);
            },
            None => push_bytes(&mut self.inner, data),
        }
        Ok(())
    }

    fn name(&self) -> (n: &str)
        ensures
            n@ == ""@,
    {
        ""
    }

    fn channels(&self) -> (n: usize)
        ensures
            n == self.spec_channels(),
    {
        self.num_channels
    }
}

/// Frames are appended as they are, or cut or filled up with zeros to the frame size where
/// there is one.
pub proof fn law_written_frames(
    out: RawOutput,
    data: Seq<u8>,
    after: RawOutput,
    r: Result<(), ContainerError>,
    i: int,
)
    requires
        out.wrote(data, &after, r),
        0 <= i,
    ensures
        ({
            let at = out.contents().len() as int;
            let n = match out.spec_frame_size() {
                Some(n) => n as int,
                None => data.len() as int,
            };
            &&& r is Ok
            &&& after.contents().len() == at + n
            &&& i < at ==> after.contents()[i] == out.contents()[i]
            &&& i < n && i < data.len() ==> after.contents()[at + i] == data[i]
            &&& data.len() <= i < n ==> after.contents()[at + i] == 0
        }),
{
}

} // verus!
