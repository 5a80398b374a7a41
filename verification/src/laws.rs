//! The laws of the codec: chunking invariance of incremental decoding, and
//! the round trip between encoding and decoding of scalar frames.

use vstd::prelude::*;
use crate::frame::FrameModel;
use crate::wire::DecodeModel;
use crate::wire::all_digits;
use crate::wire::crlf_at;
use crate::wire::crlf_free;
use crate::wire::dec_digits;
use crate::wire::dec_val;
use crate::wire::chunked_frames;
use crate::wire::concat_chunks;
use crate::wire::encodable;
use crate::wire::encode_stream;
use crate::wire::frames_of;
use crate::wire::leftover;
use crate::wire::lemma_dec_digits_props;
use crate::wire::lemma_dec_val_nonneg;
use crate::wire::lemma_decode_bounds;
use crate::wire::lemma_digits_crlf_free;
use crate::wire::lemma_line_end_append;
use crate::wire::lemma_line_end_at;
use crate::wire::lemma_line_end_none;
use crate::wire::lemma_line_end_props;
use crate::wire::line_end;
use crate::wire::spec_decode;
use crate::wire::spec_encode;

verus! {

/// An empty accumulation buffer is merely incomplete, never malformed.
pub proof fn lemma_empty_incomplete()
    ensures
        spec_decode(Seq::<u8>::empty()) is Incomplete,
{
}

/// Bytes appended after a decided buffer do not change the decision: a
/// complete frame stays the same complete frame with the same byte count,
/// and malformed input stays malformed.
pub proof fn lemma_decode_append(s: Seq<u8>, t: Seq<u8>)
    requires
        !(spec_decode(s) is Incomplete),
    ensures
        spec_decode(s + t) == spec_decode(s),
{
    let u = s + t;
    assert(s.len() > 0);
    assert(u[0] == s[0]);
    assert(u.skip(1) =~= s.skip(1) + t);
    if s[0] == 43u8 || s[0] == 45u8 || s[0] == 58u8 || s[0] == 36u8 {
        if line_end(s.skip(1)) is None {
            assert(spec_decode(s) is Incomplete);
        } else {
            let i = line_end(s.skip(1))->Some_0;
            lemma_line_end_props(s.skip(1));
            lemma_line_end_append(s.skip(1), t);
            assert(line_end(u.skip(1)) == Some(i));
            assert(1 + i + 2 <= s.len());
            let line = s.subrange(1, 1 + i);
            assert(u.subrange(1, 1 + i) =~= line);
            if s[0] == 36u8 {
                assert(u[1] == s[1]);
                if s[1] == 45u8 {
                    if i == 2 {
                        assert(u[2] == s[2]);
                    }
                } else {
                    if line.len() > 0 && all_digits(line) && dec_val(line) <= u64::MAX {
                        let len = dec_val(line);
                        lemma_dec_val_nonneg(line);
                        assert(!(s.len() < 3 + i + len + 2));
                        assert(u[3 + i + len] == s[3 + i + len]);
                        assert(u[3 + i + len + 1] == s[3 + i + len + 1]);
                        if s[3 + i + len] == 13u8 && s[3 + i + len + 1] == 10u8 {
                            assert(u.subrange(3 + i, 3 + i + len) =~= s.subrange(
                                3 + i,
                                3 + i + len,
                            ));
                        }
                    }
                }
            }
        }
    }
}

/// No strict prefix of a complete frame is malformed: until the frame's
/// last byte has arrived, the decoder reports Incomplete and keeps waiting.
pub proof fn lemma_decode_prefix_incomplete(s: Seq<u8>, m: int)
    requires
        spec_decode(s) is Complete,
        0 <= m < spec_decode(s)->Complete_1,
    ensures
        spec_decode(s.take(m)) is Incomplete,
{
    let n = spec_decode(s)->Complete_1;
    lemma_decode_bounds(s);
    lemma_line_end_props(s.skip(1));
    let p = s.take(m);
    if m > 0 {
        assert(p[0] == s[0]);
        assert(p.skip(1) =~= s.skip(1).take(m - 1));
        if line_end(s.skip(1)) is None {
            assert(!(spec_decode(s) is Complete));
        } else {
            let i = line_end(s.skip(1))->Some_0;
            if m - 1 < i + 2 {
                assert forall|j: int| 0 <= j && j + 2 <= p.skip(1).len() implies !crlf_at(
                    p.skip(1),
                    j,
                ) by {
                    assert(p.skip(1)[j] == s.skip(1)[j]);
                    assert(p.skip(1)[j + 1] == s.skip(1)[j + 1]);
                    assert(j < i);
                    assert(!crlf_at(s.skip(1), j));
                }
                lemma_line_end_none(p.skip(1));
                if p.len() >= 2 {
                    assert(p[1] == s[1]);
                }
            } else {
                // The whole length line sits inside the prefix; only a bulk
                // frame reaches past its line, so the tag must be `$`.
                assert(m >= i + 3);
                assert(s[0] == 36u8);
                assert(s[1] != 45u8);
                assert(p[1] == s[1]);
                assert(crlf_at(s.skip(1), i));
                assert(p.skip(1)[i] == s.skip(1)[i]);
                assert(p.skip(1)[i + 1] == s.skip(1)[i + 1]);
                assert(crlf_at(p.skip(1), i));
                assert forall|j: int| 0 <= j < i implies !crlf_at(p.skip(1), j) by {
                    assert(p.skip(1)[j] == s.skip(1)[j]);
                    assert(p.skip(1)[j + 1] == s.skip(1)[j + 1]);
                    assert(!crlf_at(s.skip(1), j));
                }
                lemma_line_end_at(p.skip(1), i);
                assert(p.subrange(1, 1 + i) =~= s.subrange(1, 1 + i));
                let line = s.subrange(1, 1 + i);
                assert(line.len() > 0 && all_digits(line) && dec_val(line) <= u64::MAX);
                lemma_dec_val_nonneg(line);
                assert(p.len() < 3 + i + dec_val(line) + 2);
            }
        }
    }
}

/// Chunking invariance: decoding a byte stream that arrives in two pieces
/// — first `x`, then `y` appended to what `x` left over — yields exactly
/// the frames and the leftover of decoding `x + y` in one piece.  Applied
/// repeatedly, any chunking of a stream decodes to the same frames as a
/// single contiguous read.
pub proof fn lemma_chunking_invariance(x: Seq<u8>, y: Seq<u8>)
    ensures
        frames_of(x + y) == frames_of(x) + frames_of(leftover(x) + y),
        leftover(x + y) == leftover(leftover(x) + y),
    decreases x.len(),
{
    match spec_decode(x) {
        DecodeModel::Complete(f, n) => {
            lemma_decode_bounds(x);
            lemma_decode_append(x, y);
            assert(spec_decode(x + y) == DecodeModel::Complete(f, n));
            assert((x + y).skip(n) =~= x.skip(n) + y);
            lemma_chunking_invariance(x.skip(n), y);
            assert(frames_of(x + y) =~= frames_of(x) + frames_of(leftover(x) + y));
        },
        DecodeModel::Incomplete => {
            assert(leftover(x) == x);
            assert(frames_of(x + y) =~= frames_of(x) + frames_of(leftover(x) + y));
        },
        DecodeModel::Malformed => {
            assert(leftover(x) == x);
            assert(frames_of(x + y) =~= frames_of(x) + frames_of(leftover(x) + y));
        },
    }
}

/// Chunking invariance over a whole delivery: however a byte stream is
/// split into chunks arriving across multiple reads, an incremental reader
/// that drains greedily after each arrival emits exactly the frames of the
/// stream read contiguously, starting from any buffered prefix.
pub proof fn lemma_chunked_reads_equal_contiguous(buf: Seq<u8>, chunks: Seq<Seq<u8>>)
    ensures
        chunked_frames(buf, chunks) == frames_of(buf + concat_chunks(chunks)),
    decreases chunks.len(),
{
    if chunks.len() == 0 {
        assert(buf + concat_chunks(chunks) =~= buf);
    } else {
        let c0 = chunks.first();
        let rest = chunks.drop_first();
        lemma_chunked_reads_equal_contiguous(leftover(buf + c0), rest);
        lemma_chunking_invariance(buf + c0, concat_chunks(rest));
        assert((buf + c0) + concat_chunks(rest) =~= buf + concat_chunks(chunks));
        assert(chunked_frames(buf, chunks) =~= frames_of(buf + concat_chunks(chunks)));
    }
}

/// A crlf-free payload followed by CR LF has its line end exactly at the
/// payload's end.
proof fn lemma_line_of_payload(pld: Seq<u8>, rest: Seq<u8>)
    requires
        crlf_free(pld),
        rest.len() >= 2,
        rest[0] == 13u8,
        rest[1] == 10u8,
    ensures
        line_end(pld + rest) == Some(pld.len() as int),
{
    let sub = pld + rest;
    assert(sub[pld.len() as int] == 13u8);
    assert(sub[pld.len() as int + 1] == 10u8);
    assert(crlf_at(sub, pld.len() as int));
    assert forall|j: int| 0 <= j < pld.len() implies !crlf_at(sub, j) by {
        if j + 2 <= pld.len() {
            assert(sub[j] == pld[j]);
            assert(sub[j + 1] == pld[j + 1]);
            assert(!crlf_at(pld, j));
        } else {
            assert(sub[j + 1] == rest[0]);
        }
    }
    lemma_line_end_at(sub, pld.len() as int);
}

/// The round trip law: every scalar frame that the encoder can emit is
/// decoded back to itself, consuming exactly its encoding.  Line-delimited
/// payloads (`Simple`, `Error`) must be free of CR LF — a payload holding
/// the terminator has no faithful wire form in this grammar — and a bulk
/// payload must have a length the length prefix can carry; `encodable`
/// states exactly that.
pub proof fn lemma_round_trip(f: FrameModel)
    requires
        encodable(f),
    ensures
        spec_decode(spec_encode(f)) == DecodeModel::Complete(f, spec_encode(f).len() as int),
{
    let e = spec_encode(f);
    match f {
        FrameModel::Simple(s) => {
            assert(e[0] == 43u8);
            assert(e.skip(1) =~= s + seq![13u8, 10u8]);
            lemma_line_of_payload(s, seq![13u8, 10u8]);
            assert(line_end(e.skip(1)) == Some(s.len() as int));
            assert(e.subrange(1, 1 + s.len() as int) =~= s);
            assert(e.len() == 3 + s.len());
        },
        FrameModel::Error(s) => {
            assert(e[0] == 45u8);
            assert(e.skip(1) =~= s + seq![13u8, 10u8]);
            lemma_line_of_payload(s, seq![13u8, 10u8]);
            assert(line_end(e.skip(1)) == Some(s.len() as int));
            assert(e.subrange(1, 1 + s.len() as int) =~= s);
            assert(e.len() == 3 + s.len());
        },
        FrameModel::Integer(n) => {
            let d = dec_digits(n as int);
            lemma_dec_digits_props(n as int);
            lemma_digits_crlf_free(d);
            assert(e[0] == 58u8);
            assert(e.skip(1) =~= d + seq![13u8, 10u8]);
            lemma_line_of_payload(d, seq![13u8, 10u8]);
            assert(line_end(e.skip(1)) == Some(d.len() as int));
            let line = e.subrange(1, 1 + d.len() as int);
            assert(line =~= d);
            assert(dec_val(line) == n);
            assert(e.len() == 3 + d.len());
        },
        FrameModel::Bulk(b) => {
            let d = dec_digits(b.len() as int);
            let i = d.len() as int;
            let len = b.len() as int;
            lemma_dec_digits_props(b.len() as int);
            lemma_digits_crlf_free(d);
            let rest = seq![13u8, 10u8] + b + seq![13u8, 10u8];
            assert(e[0] == 36u8);
            assert(e.skip(1) =~= d + rest);
            assert(rest[0] == 13u8);
            assert(rest[1] == 10u8);
            lemma_line_of_payload(d, rest);
            assert(line_end(e.skip(1)) == Some(i));
            assert(e[1] == d[0]);
            assert(48 <= d[0] <= 57);
            assert(e[1] != 45u8);
            let line = e.subrange(1, 1 + i);
            assert(line =~= d);
            assert(dec_val(line) == b.len());
            assert(e.len() == 3 + i + len + 2);
            assert(e[3 + i + len] == 13u8);
            assert(e[3 + i + len + 1] == 10u8);
            assert(e.subrange(3 + i, 3 + i + len) =~= b);
        },
        FrameModel::Null => {
            assert(e[0] == 36u8);
            assert(e[1] == 45u8);
            assert(e[2] == 49u8);
            assert(e.skip(1) =~= seq![45u8, 49u8, 13u8, 10u8]);
            assert(crlf_at(e.skip(1), 2));
            assert forall|j: int| 0 <= j < 2 implies !crlf_at(e.skip(1), j) by {
                assert(e.skip(1)[0] == 45u8);
                assert(e.skip(1)[1] == 49u8);
                assert(e.skip(1)[2] == 13u8);
            }
            lemma_line_end_at(e.skip(1), 2);
            assert(line_end(e.skip(1)) == Some(2int));
            assert(e.len() == 5);
        },
        FrameModel::Array => {
        },
    }
}

/// A validly encoded stream decodes completely: greedy decoding of the
/// concatenated wire forms of encodable frames yields exactly those frames
/// and leaves nothing buffered.  With chunking invariance, any chunked
/// delivery of such a stream decodes to the identical frame sequence.
pub proof fn lemma_valid_stream_decodes(fs: Seq<FrameModel>)
    requires
        forall|k: int| 0 <= k < fs.len() ==> encodable(#[trigger] fs[k]),
    ensures
        frames_of(encode_stream(fs)) == fs,
        leftover(encode_stream(fs)) == Seq::<u8>::empty(),
    decreases fs.len(),
{
    if fs.len() == 0 {
        assert(frames_of(encode_stream(fs)) =~= fs);
    } else {
        let f0 = fs.first();
        assert(encodable(fs[0]));
        lemma_round_trip(f0);
        let e0 = spec_encode(f0);
        let rest = encode_stream(fs.drop_first());
        lemma_decode_bounds(e0);
        lemma_decode_append(e0, rest);
        assert(spec_decode(e0 + rest) == DecodeModel::Complete(f0, e0.len() as int));
        assert((e0 + rest).skip(e0.len() as int) =~= rest);
        assert forall|k: int| 0 <= k < fs.drop_first().len() implies encodable(
            #[trigger] fs.drop_first()[k],
        ) by {
            assert(fs.drop_first()[k] == fs[k + 1]);
            assert(encodable(fs[k + 1]));
        }
        lemma_valid_stream_decodes(fs.drop_first());
        assert(frames_of(encode_stream(fs)) =~= fs);
    }
}

} // verus!
