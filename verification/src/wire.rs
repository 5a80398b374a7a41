//! The wire grammar: the mathematical model of encoding and of one-frame
//! decoding, shared by the contracts of the executable codec.

use vstd::prelude::*;
use crate::frame::FrameModel;
use crate::frame::is_scalar;

verus! {

/// Outcome of decoding one frame from the front of a byte sequence:
/// a complete frame together with the number of bytes it occupies,
/// not enough bytes yet, or bytes that can never begin a valid frame.
pub enum DecodeModel {
    Complete(FrameModel, int),
    Incomplete,
    Malformed,
}

/// A CR LF pair stands at index `j` of `s`.
pub open spec fn crlf_at(s: Seq<u8>, j: int) -> bool {
    s[j] == 13u8 && s[j + 1] == 10u8
}

/// Relative index of the first CR LF pair in `s`, if any.
pub open spec fn line_end(s: Seq<u8>) -> Option<int>
    decreases s.len(),
{
    if s.len() < 2 {
        None
    } else if crlf_at(s, 0) {
        Some(0int)
    } else {
        match line_end(s.skip(1)) {
            Option::None => None,
            Option::Some(i) => Some(i + 1),
        }
    }
}

/// Every byte of `s` is an ASCII decimal digit.
pub open spec fn all_digits(s: Seq<u8>) -> bool {
    forall|i: int| 0 <= i < s.len() ==> 48 <= #[trigger] s[i] <= 57
}

/// `s` contains no CR LF pair, so it can stand as the payload of a
/// line-delimited frame.
pub open spec fn crlf_free(s: Seq<u8>) -> bool {
    forall|j: int| 0 <= j && j + 2 <= s.len() ==> !#[trigger] crlf_at(s, j)
}

/// Numeric value of an ASCII digit string, most significant digit first.
pub open spec fn dec_val(s: Seq<u8>) -> int
    decreases s.len(),
{
    if s.len() == 0 {
        0
    } else {
        dec_val(s.drop_last()) * 10 + (s.last() - 48)
    }
}

/// Canonical ASCII decimal digits of `n` (no leading zeros).
pub open spec fn dec_digits(n: int) -> Seq<u8>
    decreases n,
{
    if n < 10 {
        seq![(48 + n) as u8]
    } else {
        dec_digits(n / 10).push((48 + n % 10) as u8)
    }
}

/// The byte-exact wire form of a scalar frame.  `Array` has no wire form in
/// this core (the encoder refuses it), so it is mapped to the empty sequence,
/// about which no contract ever speaks.
pub open spec fn spec_encode(f: FrameModel) -> Seq<u8> {
    match f {
        FrameModel::Simple(s) => seq![43u8] + s + seq![13u8, 10u8],
        FrameModel::Error(s) => seq![45u8] + s + seq![13u8, 10u8],
        FrameModel::Integer(n) => seq![58u8] + dec_digits(n as int) + seq![13u8, 10u8],
        FrameModel::Bulk(b) => seq![36u8] + dec_digits(b.len() as int) + seq![13u8, 10u8] + b
            + seq![13u8, 10u8],
        FrameModel::Null => seq![36u8, 45u8, 49u8, 13u8, 10u8],
        FrameModel::Array => Seq::empty(),
    }
}

/// Decoding one frame from the front of `s`: the three-way outcome.
///
/// A line-delimited payload runs to the first CR LF.  An integer line must be
/// one or more digits whose value fits in 64 unsigned bits.  A bulk frame is
/// a digit line giving the payload length, the payload, and a closing CR LF;
/// the five bytes `$-1\r\n` are the null frame.  The array tag (or any other
/// leading byte) is malformed for this core, which decodes scalars only.
pub open spec fn spec_decode(s: Seq<u8>) -> DecodeModel {
    if s.len() == 0 {
        DecodeModel::Incomplete
    } else if s[0] == 43u8 {
        match line_end(s.skip(1)) {
            Option::None => DecodeModel::Incomplete,
            Option::Some(i) => DecodeModel::Complete(FrameModel::Simple(s.subrange(1, 1 + i)), 3 + i),
        }
    } else if s[0] == 45u8 {
        match line_end(s.skip(1)) {
            Option::None => DecodeModel::Incomplete,
            Option::Some(i) => DecodeModel::Complete(FrameModel::Error(s.subrange(1, 1 + i)), 3 + i),
        }
    } else if s[0] == 58u8 {
        match line_end(s.skip(1)) {
            Option::None => DecodeModel::Incomplete,
            Option::Some(i) => {
                let line = s.subrange(1, 1 + i);
                if line.len() > 0 && all_digits(line) && dec_val(line) <= u64::MAX {
                    DecodeModel::Complete(FrameModel::Integer(dec_val(line) as u64), 3 + i)
                } else {
                    DecodeModel::Malformed
                }
            },
        }
    } else if s[0] == 36u8 {
        if s.len() >= 2 && s[1] == 45u8 {
            match line_end(s.skip(1)) {
                Option::None => DecodeModel::Incomplete,
                Option::Some(i) => {
                    if i == 2 && s[2] == 49u8 {
                        DecodeModel::Complete(FrameModel::Null, 5)
                    } else {
                        DecodeModel::Malformed
                    }
                },
            }
        } else {
            match line_end(s.skip(1)) {
                Option::None => DecodeModel::Incomplete,
                Option::Some(i) => {
                    let line = s.subrange(1, 1 + i);
                    if line.len() > 0 && all_digits(line) && dec_val(line) <= u64::MAX {
                        let len = dec_val(line);
                        if s.len() < 3 + i + len + 2 {
                            DecodeModel::Incomplete
                        } else if s[3 + i + len] == 13u8 && s[3 + i + len + 1] == 10u8 {
                            DecodeModel::Complete(
                                FrameModel::Bulk(s.subrange(3 + i, 3 + i + len)),
                                3 + i + len + 2,
                            )
                        } else {
                            DecodeModel::Malformed
                        }
                    } else {
                        DecodeModel::Malformed
                    }
                },
            }
        }
    } else {
        DecodeModel::Malformed
    }
}

/// The frames obtained by decoding greedily from the front of `s`,
/// stopping at the first incomplete or malformed remainder.
pub open spec fn frames_of(s: Seq<u8>) -> Seq<FrameModel>
    decreases s.len(),
{
    match spec_decode(s) {
        DecodeModel::Complete(f, n) => if 1 <= n <= s.len() {
            seq![f] + frames_of(s.skip(n))
        } else {
            seq![f]
        },
        _ => Seq::empty(),
    }
}

/// The bytes left after decoding greedily from the front of `s`.
pub open spec fn leftover(s: Seq<u8>) -> Seq<u8>
    decreases s.len(),
{
    match spec_decode(s) {
        DecodeModel::Complete(f, n) => if 1 <= n <= s.len() {
            leftover(s.skip(n))
        } else {
            s
        },
        _ => s,
    }
}

/// A frame the encoder can put on the wire faithfully: a scalar whose
/// line-delimited payload is free of the terminator, and whose bulk
/// payload has a length the length prefix can carry.
pub open spec fn encodable(f: FrameModel) -> bool {
    &&& is_scalar(f)
    &&& f matches FrameModel::Simple(s) ==> crlf_free(s)
    &&& f matches FrameModel::Error(s) ==> crlf_free(s)
    &&& f matches FrameModel::Bulk(b) ==> b.len() <= u64::MAX
}

/// The wire form of a whole frame sequence: each frame's encoding in turn.
pub open spec fn encode_stream(fs: Seq<FrameModel>) -> Seq<u8>
    decreases fs.len(),
{
    if fs.len() == 0 {
        Seq::empty()
    } else {
        spec_encode(fs.first()) + encode_stream(fs.drop_first())
    }
}

/// All the chunks, concatenated: the stream as one contiguous read.
pub open spec fn concat_chunks(chunks: Seq<Seq<u8>>) -> Seq<u8>
    decreases chunks.len(),
{
    if chunks.len() == 0 {
        Seq::empty()
    } else {
        chunks.first() + concat_chunks(chunks.drop_first())
    }
}

/// The frames an incremental reader emits when, holding buffered bytes
/// `buf`, the chunks arrive one at a time and the codec drains greedily
/// after each arrival.
pub open spec fn chunked_frames(buf: Seq<u8>, chunks: Seq<Seq<u8>>) -> Seq<FrameModel>
    decreases chunks.len(),
{
    if chunks.len() == 0 {
        frames_of(buf)
    } else {
        frames_of(buf + chunks.first()) + chunked_frames(
            leftover(buf + chunks.first()),
            chunks.drop_first(),
        )
    }
}

/// `line_end` finds a CR LF pair, and the first one.
pub proof fn lemma_line_end_props(s: Seq<u8>)
    ensures
        match line_end(s) {
            Option::Some(i) => 0 <= i && i + 2 <= s.len() && crlf_at(s, i) && forall|j: int|
                0 <= j < i ==> !#[trigger] crlf_at(s, j),
            Option::None => forall|j: int| 0 <= j && j + 2 <= s.len() ==> !#[trigger] crlf_at(s, j),
        },
    decreases s.len(),
{
    if s.len() < 2 {
    } else if crlf_at(s, 0) {
    } else {
        lemma_line_end_props(s.skip(1));
        assert forall|j: int| 0 <= j && j + 2 <= s.len() implies crlf_at(s, j) == crlf_at(
            s.skip(1),
            j - 1,
        ) || j == 0 by {
            if j >= 1 {
                assert(s.skip(1)[j - 1] == s[j]);
                assert(s.skip(1)[j] == s[j + 1]);
            }
        }
        match line_end(s.skip(1)) {
            Option::Some(i) => {
                assert(crlf_at(s.skip(1), i));
                assert(s.skip(1)[i] == s[i + 1] && s.skip(1)[i + 1] == s[i + 2]);
                assert(crlf_at(s, i + 1));
                assert forall|j: int| 0 <= j < i + 1 implies !crlf_at(s, j) by {
                    if j >= 1 {
                        assert(!crlf_at(s.skip(1), j - 1));
                        assert(s.skip(1)[j - 1] == s[j]);
                        assert(s.skip(1)[j] == s[j + 1]);
                    }
                }
            },
            Option::None => {
                assert forall|j: int| 0 <= j && j + 2 <= s.len() implies !crlf_at(s, j) by {
                    if j >= 1 {
                        assert(!crlf_at(s.skip(1), j - 1));
                        assert(s.skip(1)[j - 1] == s[j]);
                        assert(s.skip(1)[j] == s[j + 1]);
                    }
                }
            },
        }
    }
}

/// Converse: a first CR LF pair at `i` pins `line_end` down.
pub proof fn lemma_line_end_at(s: Seq<u8>, i: int)
    requires
        0 <= i,
        i + 2 <= s.len(),
        crlf_at(s, i),
        forall|j: int| 0 <= j < i ==> !#[trigger] crlf_at(s, j),
    ensures
        line_end(s) == Some(i),
    decreases s.len(),
{
    if i == 0 {
    } else {
        assert(!crlf_at(s, 0));
        assert(s.skip(1)[i - 1] == s[i] && s.skip(1)[i] == s[i + 1]);
        assert(crlf_at(s.skip(1), i - 1));
        assert forall|j: int| 0 <= j < i - 1 implies !crlf_at(s.skip(1), j) by {
            assert(s.skip(1)[j] == s[j + 1]);
            assert(s.skip(1)[j + 1] == s[j + 2]);
            assert(!crlf_at(s, j + 1));
        }
        lemma_line_end_at(s.skip(1), i - 1);
    }
}

/// Converse: no CR LF pair anywhere means no line end.
pub proof fn lemma_line_end_none(s: Seq<u8>)
    requires
        forall|j: int| 0 <= j && j + 2 <= s.len() ==> !#[trigger] crlf_at(s, j),
    ensures
        line_end(s) is None,
    decreases s.len(),
{
    if s.len() < 2 {
    } else {
        assert(!crlf_at(s, 0));
        assert forall|j: int| 0 <= j && j + 2 <= s.skip(1).len() implies !crlf_at(s.skip(1), j) by {
            assert(s.skip(1)[j] == s[j + 1]);
            assert(s.skip(1)[j + 1] == s[j + 2]);
            assert(!crlf_at(s, j + 1));
        }
        lemma_line_end_none(s.skip(1));
    }
}

/// A found line end does not move when bytes are appended.
pub proof fn lemma_line_end_append(s: Seq<u8>, t: Seq<u8>)
    requires
        line_end(s) is Some,
    ensures
        line_end(s + t) == line_end(s),
{
    let i = line_end(s)->Some_0;
    lemma_line_end_props(s);
    assert(crlf_at(s + t, i));
    assert forall|j: int| 0 <= j < i implies !crlf_at((s + t), j) by {
        assert(!crlf_at(s, j));
        assert((s + t)[j] == s[j]);
        assert((s + t)[j + 1] == s[j + 1]);
    }
    lemma_line_end_at(s + t, i);
}

/// All digit values are nonnegative.
pub proof fn lemma_dec_val_nonneg(s: Seq<u8>)
    requires
        all_digits(s),
    ensures
        dec_val(s) >= 0,
    decreases s.len(),
{
    if s.len() > 0 {
        assert(all_digits(s.drop_last()));
        lemma_dec_val_nonneg(s.drop_last());
    }
}

/// Reading further digits can only increase the value.
pub proof fn lemma_dec_val_take(s: Seq<u8>, m: int)
    requires
        all_digits(s),
        0 <= m <= s.len(),
    ensures
        dec_val(s.take(m)) <= dec_val(s),
    decreases s.len(),
{
    if m == s.len() {
        assert(s.take(m) =~= s);
    } else {
        assert(all_digits(s.drop_last()));
        assert(s.take(m) =~= s.drop_last().take(m));
        lemma_dec_val_take(s.drop_last(), m);
        lemma_dec_val_nonneg(s.drop_last());
    }
}

/// One step of reading a digit string from the left.
pub proof fn lemma_dec_val_step(s: Seq<u8>, j: int)
    requires
        0 <= j < s.len(),
    ensures
        dec_val(s.take(j + 1)) == dec_val(s.take(j)) * 10 + (s[j] - 48),
{
    assert(s.take(j + 1).drop_last() =~= s.take(j));
    assert(s.take(j + 1).last() == s[j]);
}

/// The canonical digits of `n` are digits, are at least one byte long,
/// and read back as `n`.
pub proof fn lemma_dec_digits_props(n: int)
    requires
        n >= 0,
    ensures
        all_digits(dec_digits(n)),
        dec_digits(n).len() >= 1,
        dec_val(dec_digits(n)) == n,
    decreases n,
{
    if n < 10 {
        assert(dec_val(dec_digits(n)) == dec_val(seq![(48 + n) as u8].drop_last()) * 10 + ((48
            + n) as u8 - 48));
        assert(seq![(48 + n) as u8].drop_last() =~= Seq::<u8>::empty());
    } else {
        lemma_dec_digits_props(n / 10);
        let d = dec_digits(n / 10);
        assert(dec_digits(n) == d.push((48 + n % 10) as u8));
        assert(dec_digits(n).drop_last() =~= d);
        assert(dec_digits(n).last() == (48 + n % 10) as u8);
        assert(0 <= n % 10 < 10);
        assert(all_digits(dec_digits(n))) by {
            assert forall|i: int| 0 <= i < dec_digits(n).len() implies 48 <= #[trigger] dec_digits(
                n,
            )[i] <= 57 by {
                if i < d.len() {
                    assert(dec_digits(n)[i] == d[i]);
                }
            }
        }
        assert(dec_val(dec_digits(n)) == dec_val(d) * 10 + ((48 + n % 10) as u8 - 48));
        assert(n == (n / 10) * 10 + n % 10);
    }
}

/// A complete frame occupies at least three bytes and no more than the
/// buffer holds.
pub proof fn lemma_decode_bounds(s: Seq<u8>)
    ensures
        spec_decode(s) matches DecodeModel::Complete(_, n) ==> 3 <= n <= s.len(),
{
    if s.len() > 0 {
        lemma_line_end_props(s.skip(1));
        match line_end(s.skip(1)) {
            Option::Some(i) => {
                let line = s.subrange(1, 1 + i);
                if line.len() > 0 && all_digits(line) {
                    lemma_dec_val_nonneg(line);
                }
            },
            Option::None => {},
        }
    }
}

/// A digit string contains no CR LF pair.
pub proof fn lemma_digits_crlf_free(s: Seq<u8>)
    requires
        all_digits(s),
    ensures
        crlf_free(s),
{
    assert forall|j: int| 0 <= j && j + 2 <= s.len() implies !crlf_at(s, j) by {
        assert(48 <= s[j] <= 57);
    }
}

} // verus!
