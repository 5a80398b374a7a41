//! The executable frame codec: incremental frame-boundary detection
//! (the check pass), frame construction (the parse pass), the accumulation
//! buffer, and wire encoding of scalar frames.

use vstd::prelude::*;
use crate::frame::Frame;
use crate::frame::TransportError;
use crate::frame::is_scalar;
use crate::wire::DecodeModel;
use crate::wire::all_digits;
use crate::wire::crlf_at;
use crate::wire::dec_digits;
use crate::wire::dec_val;
use crate::wire::lemma_dec_val_step;
use crate::wire::lemma_dec_val_take;
use crate::wire::lemma_decode_bounds;
use crate::wire::lemma_line_end_at;
use crate::wire::lemma_line_end_none;
use crate::wire::line_end;
use crate::wire::spec_decode;
use crate::wire::spec_encode;

verus! {

/// Three-way outcome of `decode_next`: a complete frame and the number of
/// bytes it consumed, not enough bytes yet, or malformed input.
#[derive(Debug)]
pub enum DecodeOutcome {
    Complete(Frame, usize),
    Incomplete,
    Malformed,
}

/// Outcome of the check pass: where the first frame would end (in bytes
/// from the start of the buffer), or that the buffer is too short, or that
/// it can never hold a valid frame.
#[derive(Debug, PartialEq, Eq, Structural)]
pub enum CheckOutcome {
    FrameEnd(usize),
    Incomplete,
    Malformed,
}

/// The executable decode outcome agrees with the model outcome.
pub open spec fn decode_matches(r: DecodeOutcome, m: DecodeModel) -> bool {
    match m {
        DecodeModel::Complete(f, n) => r matches DecodeOutcome::Complete(rf, rn) && rf@ == f
            && rn == n,
        DecodeModel::Incomplete => r is Incomplete,
        DecodeModel::Malformed => r is Malformed,
    }
}

/// The executable check outcome agrees with the model outcome.
pub open spec fn check_matches(r: CheckOutcome, m: DecodeModel) -> bool {
    match m {
        DecodeModel::Complete(f, n) => r matches CheckOutcome::FrameEnd(rn) && rn == n,
        DecodeModel::Incomplete => r is Incomplete,
        DecodeModel::Malformed => r is Malformed,
    }
}

/// Index of the first CR LF pair at or after `from`, if one is present.
fn find_crlf(buf: &Vec<u8>, from: usize) -> (r: Option<usize>)
    requires
        from <= buf@.len(),
    ensures
        match r {
            Option::Some(i) => from <= i && i + 2 <= buf@.len() && line_end(
                buf@.skip(from as int),
            ) == Some(i - from),
            Option::None => line_end(buf@.skip(from as int)) is None,
        },
{
    let ghost sub = buf@.skip(from as int);
    let mut j: usize = from;
    loop
        invariant
            from <= j <= buf@.len(),
            sub == buf@.skip(from as int),
            forall|k: int| from <= k < j ==> !#[trigger] crlf_at(buf@, k),
        decreases buf@.len() - j,
    {
        if buf.len() - j < 2 {
            proof {
                assert forall|q: int| 0 <= q && q + 2 <= sub.len() implies !crlf_at(sub, q) by {
                    assert(sub[q] == buf@[from + q]);
                    assert(sub[q + 1] == buf@[from + q + 1]);
                    assert(!crlf_at(buf@, from + q));
                }
                lemma_line_end_none(sub);
            }
            return None;
        }
        if buf[j] == 13u8 && buf[j + 1] == 10u8 {
            proof {
                assert(crlf_at(buf@, j as int));
                assert(sub[j - from] == buf@[j as int]);
                assert(sub[j - from + 1] == buf@[j as int + 1]);
                assert(crlf_at(sub, j - from));
                assert forall|q: int| 0 <= q < j - from implies !crlf_at(sub, q) by {
                    assert(sub[q] == buf@[from + q]);
                    assert(sub[q + 1] == buf@[from + q + 1]);
                    assert(!crlf_at(buf@, from + q));
                }
                lemma_line_end_at(sub, j - from);
            }
            return Some(j);
        }
        proof {
            assert(!crlf_at(buf@, j as int));
        }
        j = j + 1;
    }
}

/// Reads `buf[start..end]` as an unsigned decimal number.  `None` when the
/// range is empty, holds a non-digit, or its value does not fit in a `u64`.
fn parse_decimal(buf: &Vec<u8>, start: usize, end: usize) -> (r: Option<u64>)
    requires
        start <= end <= buf@.len(),
    ensures
        ({
            let line = buf@.subrange(start as int, end as int);
            match r {
                Option::Some(v) => line.len() > 0 && all_digits(line) && dec_val(line) == v,
                Option::None => !(line.len() > 0 && all_digits(line) && dec_val(line)
                    <= u64::MAX),
            }
        }),
{
    let ghost line = buf@.subrange(start as int, end as int);
    if start == end {
        return None;
    }
    let mut acc: u128 = 0;
    let mut j: usize = start;
    loop
        invariant
            start <= j <= end <= buf@.len(),
            line == buf@.subrange(start as int, end as int),
            start < end,
            all_digits(line.take(j - start)),
            acc == dec_val(line.take(j - start)),
            acc <= u64::MAX,
        decreases end - j,
    {
        if j == end {
            proof {
                assert(line.take(j - start) =~= line);
            }
            return Some(acc as u64);
        }
        let d = buf[j];
        proof {
            assert(line[j - start] == buf@[j as int]);
        }
        if d < 48 || d > 57 {
            proof {
                assert(!all_digits(line));
            }
            return None;
        }
        proof {
            assert(line.take(j - start + 1) =~= line.take(j - start).push(line[j - start]));
            assert(all_digits(line.take(j - start + 1)));
            lemma_dec_val_step(line, j - start);
        }
        acc = acc * 10 + ((d - 48) as u128);
        j = j + 1;
        if acc > u64::MAX as u128 {
            proof {
                if all_digits(line) && dec_val(line) <= u64::MAX {
                    lemma_dec_val_take(line, j - start);
                }
            }
            return None;
        }
    }
}

/// The check pass: scan the buffer just far enough to decide whether a
/// complete, syntactically valid frame sits at its front, and where it ends,
/// without building the frame value.
pub fn check_frame(buf: &Vec<u8>) -> (r: CheckOutcome)
    ensures
        check_matches(r, spec_decode(buf@)),
{
    if buf.len() == 0 {
        return CheckOutcome::Incomplete;
    }
    let tag = buf[0];
    if tag == 43u8 || tag == 45u8 {
        match find_crlf(buf, 1) {
            Option::None => CheckOutcome::Incomplete,
            Option::Some(i) => CheckOutcome::FrameEnd(i + 2),
        }
    } else if tag == 58u8 {
        match find_crlf(buf, 1) {
            Option::None => CheckOutcome::Incomplete,
            Option::Some(i) => {
                match parse_decimal(buf, 1, i) {
                    Option::Some(_) => CheckOutcome::FrameEnd(i + 2),
                    Option::None => CheckOutcome::Malformed,
                }
            },
        }
    } else if tag == 36u8 {
        if buf.len() >= 2 && buf[1] == 45u8 {
            match find_crlf(buf, 1) {
                Option::None => CheckOutcome::Incomplete,
                Option::Some(i) => {
                    if i == 3 && buf[2] == 49u8 {
                        CheckOutcome::FrameEnd(5)
                    } else {
                        CheckOutcome::Malformed
                    }
                },
            }
        } else {
            match find_crlf(buf, 1) {
                Option::None => CheckOutcome::Incomplete,
                Option::Some(i) => {
                    match parse_decimal(buf, 1, i) {
                        Option::None => CheckOutcome::Malformed,
                        Option::Some(len) => {
                            let start = i + 2;
                            let remaining = (buf.len() - start) as u64;
                            if remaining < 2 || len > remaining - 2 {
                                CheckOutcome::Incomplete
                            } else {
                                let end = start + (len as usize);
                                if buf[end] == 13u8 && buf[end + 1] == 10u8 {
                                    CheckOutcome::FrameEnd(end + 2)
                                } else {
                                    CheckOutcome::Malformed
                                }
                            }
                        },
                    }
                },
            }
        }
    } else {
        CheckOutcome::Malformed
    }
}

/// Copies `buf[start..end]` into a fresh byte vector.
fn copy_range(buf: &Vec<u8>, start: usize, end: usize) -> (r: Vec<u8>)
    requires
        start <= end <= buf@.len(),
    ensures
        r@ == buf@.subrange(start as int, end as int),
{
    let mut r: Vec<u8> = Vec::new();
    let mut j: usize = start;
    while j < end
        invariant
            start <= j <= end <= buf@.len(),
            r@ == buf@.subrange(start as int, j as int),
        decreases end - j,
    {
        r.push(buf[j]);
        proof {
            assert(buf@.subrange(start as int, j + 1) =~= buf@.subrange(start as int, j as int)
                .push(buf@[j as int]));
        }
        j = j + 1;
    }
    r
}

/// The parse pass: build the frame whose end the check pass found.  Reads
/// the same bytes from the start again, now knowing they are valid.
fn parse_checked(buf: &Vec<u8>, n: usize) -> (f: Frame)
    requires
        spec_decode(buf@) is Complete,
        spec_decode(buf@)->Complete_1 == n,
    ensures
        f@ == spec_decode(buf@)->Complete_0,
{
    let tag = buf[0];
    if tag == 43u8 {
        let i = match find_crlf(buf, 1) {
            Option::Some(i) => i,
            Option::None => unreached(),
        };
        Frame::Simple(copy_range(buf, 1, i))
    } else if tag == 45u8 {
        let i = match find_crlf(buf, 1) {
            Option::Some(i) => i,
            Option::None => unreached(),
        };
        Frame::Error(copy_range(buf, 1, i))
    } else if tag == 58u8 {
        let i = match find_crlf(buf, 1) {
            Option::Some(i) => i,
            Option::None => unreached(),
        };
        let v = match parse_decimal(buf, 1, i) {
            Option::Some(v) => v,
            Option::None => unreached(),
        };
        Frame::Integer(v)
    } else {
        if buf.len() >= 2 && buf[1] == 45u8 {
            Frame::Null
        } else {
            let i = match find_crlf(buf, 1) {
                Option::Some(i) => i,
                Option::None => {
                    proof {
                        assert(false);
                    }
                    0
                },
            };
            let len = match parse_decimal(buf, 1, i) {
                Option::Some(v) => v,
                Option::None => {
                    proof {
                        assert(false);
                    }
                    0
                },
            };
            let start = i + 2;
            proof {
                lemma_decode_bounds(buf@);
            }
            Frame::Bulk(copy_range(buf, start, start + (len as usize)))
        }
    }
}

/// `decode_next`: the three-way incremental decode of one frame from the
/// front of the buffer.  Runs the check pass first; only once validity is
/// confirmed does the parse pass build the frame value.
pub fn decode_next(buf: &Vec<u8>) -> (r: DecodeOutcome)
    ensures
        decode_matches(r, spec_decode(buf@)),
{
    match check_frame(buf) {
        CheckOutcome::Incomplete => DecodeOutcome::Incomplete,
        CheckOutcome::Malformed => DecodeOutcome::Malformed,
        CheckOutcome::FrameEnd(n) => {
            let f = parse_checked(buf, n);
            DecodeOutcome::Complete(f, n)
        },
    }
}

/// Appends a byte slice to a vector.
fn append_bytes(out: &mut Vec<u8>, data: &[u8])
    ensures
        final(out)@ == old(out)@ + data@,
{
    out.extend_from_slice(data);
    proof {
        assert forall|i: int| 0 <= i < out@.len() implies out@[i] == (old(out)@ + data@)[i] by {
            if i >= old(out)@.len() {
                assert(cloned::<u8>(data@[i - old(out)@.len()], out@[i]));
            }
        }
        assert(out@ =~= old(out)@ + data@);
    }
}

/// The accumulation buffer of one connection: it holds exactly the bytes
/// read from the stream that no successful decode has consumed yet.  The
/// view of a codec is that byte sequence.
pub struct FrameCodec {
    buffer: Vec<u8>,
}

impl View for FrameCodec {
    type V = Seq<u8>;

    closed spec fn view(&self) -> Seq<u8> {
        self.buffer@
    }
}

impl FrameCodec {
    /// A fresh codec with an empty accumulation buffer.
    pub fn new() -> (c: Self)
        ensures
            c@ == Seq::<u8>::empty(),
    {
        FrameCodec { buffer: Vec::new() }
    }

    /// How many bytes are buffered and not yet consumed.
    pub fn buffered_len(&self) -> (n: usize)
        ensures
            n == self@.len(),
    {
        self.buffer.len()
    }

    /// Appends one chunk read from the stream to the accumulation buffer.
    pub fn feed(&mut self, data: &[u8])
        ensures
            final(self)@ == old(self)@ + data@,
    {
        append_bytes(&mut self.buffer, data);
    }

    /// One decode attempt of the read loop.  A complete frame is returned
    /// and exactly its bytes are removed from the front of the buffer; on
    /// `Ok(None)` (not enough bytes yet) and on `Err(Malformed)` the buffer
    /// is left unchanged.
    pub fn parse_frame(&mut self) -> (r: Result<Option<Frame>, TransportError>)
        ensures
            match spec_decode(old(self)@) {
                DecodeModel::Complete(f, n) => r matches Ok(Some(rf)) && rf@ == f
                    && final(self)@ == old(self)@.skip(n),
                DecodeModel::Incomplete => r matches Ok(o) && o is None
                    && final(self)@ == old(self)@,
                DecodeModel::Malformed => r matches Err(e) && e == TransportError::Malformed
                    && final(self)@ == old(self)@,
            },
    {
        match decode_next(&self.buffer) {
            DecodeOutcome::Complete(f, n) => {
                proof {
                    lemma_decode_bounds(self.buffer@);
                }
                let rest = self.buffer.split_off(n);
                self.buffer = rest;
                Ok(Some(f))
            },
            DecodeOutcome::Incomplete => Ok(None),
            DecodeOutcome::Malformed => Err(TransportError::Malformed),
        }
    }

    /// The end-of-stream decision of the read loop: the peer has closed.
    /// An empty accumulation buffer is a clean end of stream; buffered
    /// bytes mean the peer closed mid-frame, a protocol violation.
    pub fn end_of_stream(&self) -> (r: Result<Option<Frame>, TransportError>)
        ensures
            (r is Ok) <==> self@.len() == 0,
            r matches Ok(o) ==> o is None,
            r matches Err(e) ==> e == TransportError::ConnectionReset,
    {
        if self.buffer.len() == 0 {
            Ok(None)
        } else {
            Err(TransportError::ConnectionReset)
        }
    }
}

/// Appends the canonical decimal digits of `n`.
fn push_decimal(out: &mut Vec<u8>, n: u64)
    ensures
        final(out)@ == old(out)@ + dec_digits(n as int),
    decreases n,
{
    if n < 10 {
        out.push(48 + n as u8);
        proof {
            assert(out@ =~= old(out)@ + dec_digits(n as int));
        }
    } else {
        push_decimal(out, n / 10);
        out.push(48 + (n % 10) as u8);
        proof {
            assert(out@ =~= old(out)@ + dec_digits(n as int));
        }
    }
}

/// An unsigned number rendered as ASCII digits followed by the frame
/// terminator; shared by the length-prefix and the integer-value encodings.
pub fn encode_decimal(n: u64) -> (r: Vec<u8>)
    ensures
        r@ == dec_digits(n as int) + seq![13u8, 10u8],
{
    let mut out: Vec<u8> = Vec::new();
    push_decimal(&mut out, n);
    out.push(13);
    out.push(10);
    proof {
        assert(out@ =~= dec_digits(n as int) + seq![13u8, 10u8]);
    }
    out
}

/// Serializes one frame into its byte-exact wire form.  Scalar frames
/// always succeed; encoding an array is unsupported in this core and fails
/// loudly with `Unimplemented`.
pub fn encode_frame(f: &Frame) -> (r: Result<Vec<u8>, TransportError>)
    ensures
        is_scalar(f@) ==> (r matches Ok(v) && v@ == spec_encode(f@)),
        !is_scalar(f@) ==> (r matches Err(e) && e == TransportError::Unimplemented),
{
    match f {
        Frame::Simple(s) => {
            let mut out: Vec<u8> = Vec::new();
            out.push(43);
            append_bytes(&mut out, s.as_slice());
            out.push(13);
            out.push(10);
            proof {
                assert(out@ =~= spec_encode(f@));
            }
            Ok(out)
        },
        Frame::Error(s) => {
            let mut out: Vec<u8> = Vec::new();
            out.push(45);
            append_bytes(&mut out, s.as_slice());
            out.push(13);
            out.push(10);
            proof {
                assert(out@ =~= spec_encode(f@));
            }
            Ok(out)
        },
        Frame::Integer(n) => {
            let mut out: Vec<u8> = Vec::new();
            out.push(58);
            push_decimal(&mut out, *n);
            out.push(13);
            out.push(10);
            proof {
                assert(out@ =~= spec_encode(f@));
            }
            Ok(out)
        },
        Frame::Bulk(b) => {
            let mut out: Vec<u8> = Vec::new();
            out.push(36);
            push_decimal(&mut out, b.len() as u64);
            out.push(13);
            out.push(10);
            append_bytes(&mut out, b.as_slice());
            out.push(13);
            out.push(10);
            proof {
                assert(out@ =~= spec_encode(f@));
            }
            Ok(out)
        },
        Frame::Null => {
            let mut out: Vec<u8> = Vec::new();
            out.push(36);
            out.push(45);
            out.push(49);
            out.push(13);
            out.push(10);
            proof {
                assert(out@ =~= spec_encode(f@));
            }
            Ok(out)
        },
        Frame::Array(_) => Err(TransportError::Unimplemented),
    }
}

} // verus!
