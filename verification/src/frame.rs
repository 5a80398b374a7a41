//! The frame data type: one wire-protocol unit.

use vstd::prelude::*;

verus! {

/// One wire-protocol unit, as application code sees it.
///
/// `Simple`, `Error`, `Integer`, `Bulk` and `Null` are the scalar variants:
/// they have a wire form and the codec both reads and writes them.  `Array`
/// is representable so that callers can hold one, but this core refuses to
/// encode it (`Unimplemented`) and treats its wire tag as malformed input
/// rather than guessing at a recursive grammar.
#[derive(Debug, PartialEq, Eq)]
pub enum Frame {
    Simple(Vec<u8>),
    Error(Vec<u8>),
    Integer(u64),
    Bulk(Vec<u8>),
    Null,
    Array(Vec<Frame>),
}

/// The mathematical shape of a frame, used throughout the contracts.
///
/// Payloads are byte sequences.  `Array` carries no payload here: the codec
/// neither encodes nor decodes arrays, so no contract of this crate ever
/// speaks about an array's elements.
pub enum FrameModel {
    Simple(Seq<u8>),
    Error(Seq<u8>),
    Integer(u64),
    Bulk(Seq<u8>),
    Null,
    Array,
}

impl View for Frame {
    type V = FrameModel;

    open spec fn view(&self) -> FrameModel {
        match self {
            Frame::Simple(s) => FrameModel::Simple(s@),
            Frame::Error(s) => FrameModel::Error(s@),
            Frame::Integer(n) => FrameModel::Integer(*n),
            Frame::Bulk(b) => FrameModel::Bulk(b@),
            Frame::Null => FrameModel::Null,
            Frame::Array(_) => FrameModel::Array,
        }
    }
}

/// The scalar frames are exactly the ones with a wire form.
pub open spec fn is_scalar(f: FrameModel) -> bool {
    !(f is Array)
}

/// The error taxonomy of the transport core.
///
/// `Malformed`: buffered bytes cannot be a valid frame, fatal to the owning
/// connection only.  `ConnectionReset`: the peer closed mid-frame.
/// `IoError`: a transport-level failure, raised by the unverified I/O shell.
/// `Unimplemented`: an unsupported frame shape (an array) was given to the
/// encoder; loud by design, never silently degraded.
#[derive(Debug, Clone, Copy, PartialEq, Eq, Structural)]
pub enum TransportError {
    Malformed,
    ConnectionReset,
    IoError,
    Unimplemented,
}

} // verus!
