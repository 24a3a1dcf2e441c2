//! The one place a payload may be rewritten on its way out or in.

use vstd::prelude::*;

use crate::proto::frame::{FrameHeader, TRANSFORM_OVERHEAD_BYTES};
use crate::proto::Error;

verus! {

/// The only place the payload is touched, so encryption arrives here as one impl
/// rather than as surgery on a working path.
pub trait FrameTransform: Send {
    /// After fragmenting, before the header is prepended and the datagram sent.
    fn outbound(&mut self, header: &FrameHeader, payload: &mut Vec<u8>) -> Result<(), Error>;

    /// After the header is stripped, before reassembly.
    fn inbound(&mut self, header: &FrameHeader, payload: &mut Vec<u8>) -> Result<(), Error>;

    /// Bytes this transform may add, which the datagram budget reserves.
    fn overhead(&self) -> usize;
}

/// Media in the clear.
pub struct Passthrough;

impl FrameTransform for Passthrough {
    fn outbound(&mut self, header: &FrameHeader, payload: &mut Vec<u8>) -> (done: Result<
        (),
        Error,
    >)
        ensures
            done is Ok,
            final(payload)@ == old(payload)@,
    {
        Ok(())
    }

    fn inbound(&mut self, header: &FrameHeader, payload: &mut Vec<u8>) -> (done: Result<(), Error>)
        ensures
            done is Ok,
            final(payload)@ == old(payload)@,
    {
        Ok(())
    }

    /// The budget already reserves an AEAD tag, so enabling encryption later does
    /// not shift packet sizes.
    fn overhead(&self) -> (bytes: usize)
        ensures
            bytes == TRANSFORM_OVERHEAD_BYTES,
    {
        TRANSFORM_OVERHEAD_BYTES
    }
}

} // verus!
