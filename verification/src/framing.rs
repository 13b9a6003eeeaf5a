//! What holds of the codec: decoding undoes encoding, and the frames that
//! come out of a stream do not depend on how the stream was cut into reads.

use crate::decimal::{
    decimal_digits, decimal_field, is_digit, lemma_decimal_digits_value,
    lemma_decimal_field_of_digits,
};
use crate::resp::{
    crlf, crlf_at, lemma_line_end_is, lemma_line_end_some, lemma_parse_frame_used, line_end,
    minus_one, null_bulk, parse_blob, parse_frame, parse_frames, parse_stream, prepend, wire,
    wire_all, DecodeError, Frame, CR, DOLLAR, LF, PLUS, STAR,
};
use vstd::prelude::*;

verus! {

/// The text holds no line terminator.
pub open spec fn no_crlf(t: Seq<u8>) -> bool {
    forall|i: int| !crlf_at(t, i)
}

/// The frame is one that the decoder of frames can give back: it holds no
/// raw payload, no simple string in it holds a line terminator, and its
/// lengths fit in 64 bits.
pub open spec fn decodable(f: Frame) -> bool
    decreases f,
{
    match f {
        Frame::SimpleString(t) => no_crlf(t),
        Frame::BulkString(bytes) => bytes.len() <= u64::MAX,
        Frame::Rdb(_) => false,
        Frame::NullBulkString => true,
        Frame::Array(items) => items.len() <= u64::MAX && forall|i: int|
            0 <= i < items.len() ==> decodable(#[trigger] items[i]),
    }
}

/// Every frame of `frames` is decodable.
pub open spec fn all_decodable(frames: Seq<Frame>) -> bool {
    forall|i: int| 0 <= i < frames.len() ==> decodable(#[trigger] frames[i])
}

/// A header whose field is a number: the first line of it, and of whatever
/// follows, ends after the digits.
proof fn lemma_header_line(tag: u8, n: u64, tail: Seq<u8>)
    requires
        tag != CR,
    ensures
        line_end(seq![tag] + decimal_digits(n as nat) + crlf() + tail) == Some(
            1 + decimal_digits(n as nat).len() as int,
        ),
        (seq![tag] + decimal_digits(n as nat) + crlf() + tail).subrange(
            1,
            1 + decimal_digits(n as nat).len() as int,
        ) == decimal_digits(n as nat),
        decimal_field(decimal_digits(n as nat)) == Some(n),
        decimal_digits(n as nat) != minus_one(),
{
    let digits = decimal_digits(n as nat);
    let s = seq![tag] + digits + crlf() + tail;
    let e = 1 + digits.len() as int;
    lemma_decimal_digits_value(n as nat);
    lemma_decimal_field_of_digits(n);
    assert(s[e] == CR && s[e + 1] == LF);
    assert forall|j: int| 0 <= j < e implies !crlf_at(s, j) by {
        if j > 0 {
            assert(s[j] == digits[j - 1]);
            assert(is_digit(digits[j - 1]));
        }
    }
    lemma_line_end_is(s, e);
    assert(s.subrange(1, e) =~= digits);
    assert(is_digit(digits[0]));
}

/// Decoding undoes encoding: whatever follows the encoding of a decodable
/// frame, the decoder reads the frame, and takes exactly its encoding.
pub proof fn lemma_decode_encoded(f: Frame, rest: Seq<u8>)
    requires
        decodable(f),
    ensures
        parse_frame(wire(f) + rest) == Ok::<(Frame, int), DecodeError>((f, wire(f).len() as int)),
    decreases f, 1nat,
{
    let s = wire(f) + rest;
    match f {
        Frame::SimpleString(t) => {
            let e = 1 + t.len() as int;
            assert(s =~= seq![PLUS] + t + crlf() + rest);
            assert(s[e] == CR && s[e + 1] == LF);
            assert forall|j: int| 0 <= j < e implies !crlf_at(s, j) by {
                if j > 0 {
                    assert(s[j] == t[j - 1]);
                    if j < t.len() {
                        assert(s[j + 1] == t[j]);
                        assert(!crlf_at(t, j - 1));
                    }
                }
            }
            lemma_line_end_is(s, e);
            assert(s.subrange(1, e) =~= t);
        },
        Frame::BulkString(bytes) => {
            let n = bytes.len() as u64;
            let digits = decimal_digits(n as nat);
            let tail = bytes + crlf() + rest;
            assert(s =~= seq![DOLLAR] + digits + crlf() + tail);
            lemma_header_line(DOLLAR, n, tail);
            let body = 1 + digits.len() as int + 2;
            assert(s.subrange(body, body + n) =~= bytes);
            assert(crlf_at(s, body + n));
            assert(wire(f).len() == body + n + 2);
        },
        Frame::Rdb(_) => {},
        Frame::NullBulkString => {
            assert(s =~= null_bulk() + rest);
            assert(s[3] == CR && s[4] == LF);
            lemma_line_end_is(s, 3);
            assert(s.subrange(1, 3) =~= minus_one());
        },
        Frame::Array(items) => {
            let n = items.len() as u64;
            let digits = decimal_digits(n as nat);
            let tail = wire_all(items) + rest;
            assert(s =~= seq![STAR] + digits + crlf() + tail);
            lemma_header_line(STAR, n, tail);
            let body = 1 + digits.len() as int + 2;
            assert(s.skip(body) =~= tail);
            lemma_decode_all_encoded(items, rest);
            assert(wire(f).len() == body + wire_all(items).len());
        },
    }
}

/// Decoding undoes encoding, for several frames in a row.
pub proof fn lemma_decode_all_encoded(frames: Seq<Frame>, rest: Seq<u8>)
    requires
        all_decodable(frames),
    ensures
        parse_frames(wire_all(frames) + rest, frames.len()) == Ok::<
            (Seq<Frame>, int),
            DecodeError,
        >((frames, wire_all(frames).len() as int)),
    decreases frames, 0nat,
{
    if frames.len() > 0 {
        let first = frames[0];
        let later = frames.skip(1);
        let s = wire_all(frames) + rest;
        assert(decodable(first));
        assert(all_decodable(later)) by {
            assert forall|i: int| 0 <= i < later.len() implies decodable(#[trigger] later[i]) by {
                assert(later[i] == frames[i + 1]);
            }
        }
        assert(s =~= wire(first) + (wire_all(later) + rest));
        lemma_decode_encoded(first, wire_all(later) + rest);
        let used = wire(first).len() as int;
        lemma_parse_frame_used(s);
        assert(s.skip(used) =~= wire_all(later) + rest);
        lemma_decode_all_encoded(later, rest);
        assert(seq![first] + later =~= frames);
        assert(wire_all(frames).len() == used + wire_all(later).len());
        assert(parse_frames(s, frames.len()) == prepend(
            seq![first],
            used,
            parse_frames(s.skip(used), (frames.len() - 1) as nat),
        ));
    } else {
        assert(frames =~= Seq::<Frame>::empty());
        assert(wire_all(frames).len() == 0);
    }
}

/// Decoding undoes encoding for the raw payload too, with the decoder that
/// is meant for it.
pub proof fn lemma_decode_encoded_blob(bytes: Seq<u8>, rest: Seq<u8>)
    requires
        bytes.len() <= u64::MAX,
    ensures
        parse_blob(wire(Frame::Rdb(bytes)) + rest) == Ok::<(Frame, int), DecodeError>(
            (Frame::Rdb(bytes), wire(Frame::Rdb(bytes)).len() as int),
        ),
{
    let n = bytes.len() as u64;
    let digits = decimal_digits(n as nat);
    let s = wire(Frame::Rdb(bytes)) + rest;
    let tail = bytes + rest;
    assert(s =~= seq![DOLLAR] + digits + crlf() + tail);
    lemma_header_line(DOLLAR, n, tail);
    let body = 1 + digits.len() as int + 2;
    assert(s.subrange(body, body + n) =~= bytes);
}

/// Where the first line of `s` ends, it ends in `s` with more bytes after it.
proof fn lemma_line_end_extends(s: Seq<u8>, t: Seq<u8>)
    ensures
        line_end(s) matches Some(e) ==> line_end(s + t) == Some(e) && (e >= 1 ==> (s
            + t).subrange(1, e) == s.subrange(1, e)),
{
    lemma_line_end_some(s);
    if let Some(e) = line_end(s) {
        let st = s + t;
        assert(crlf_at(st, e));
        assert forall|j: int| 0 <= j < e implies !crlf_at(st, j) by {
            assert(!crlf_at(s, j));
            assert(st[j] == s[j] && st[j + 1] == s[j + 1]);
        }
        lemma_line_end_is(st, e);
        if e >= 1 {
            assert(st.subrange(1, e) =~= s.subrange(1, e));
        }
    }
}

/// What the decoder has made of the bytes is final, unless it asks for more:
/// a frame that is complete, and bytes that are no frame, stay what they are
/// when more bytes arrive.
pub proof fn lemma_frame_is_final(s: Seq<u8>, t: Seq<u8>)
    requires
        parse_frame(s) != Err::<(Frame, int), DecodeError>(DecodeError::NeedMore),
    ensures
        parse_frame(s + t) == parse_frame(s),
    decreases s.len(), 0nat,
{
    let st = s + t;
    assert(s.len() > 0);
    assert(st[0] == s[0]);
    if s[0] == PLUS || s[0] == DOLLAR || s[0] == STAR {
        lemma_line_end_some(s);
        lemma_line_end_extends(s, t);
        let e = line_end(s)->Some_0;
        let field = s.subrange(1, e);
        let body = e + 2;
        assert(e >= 1) by {
            assert(!crlf_at(s, 0));
        }
        if s[0] == PLUS {
        } else if s[0] == DOLLAR {
            if field != minus_one() {
                if let Some(n) = decimal_field(field) {
                    assert(st.subrange(body, body + n) =~= s.subrange(body, body + n));
                    assert(st[body + n] == s[body + n] && st[body + n + 1] == s[body + n + 1]);
                }
            }
        } else {
            if let Some(n) = decimal_field(field) {
                assert(st.skip(body) =~= s.skip(body) + t);
                lemma_frames_are_final(s.skip(body), n as nat, t);
            }
        }
    }
}

/// See [`lemma_frame_is_final`]: the same of several frames in a row.
pub proof fn lemma_frames_are_final(s: Seq<u8>, n: nat, t: Seq<u8>)
    requires
        parse_frames(s, n) != Err::<(Seq<Frame>, int), DecodeError>(DecodeError::NeedMore),
    ensures
        parse_frames(s + t, n) == parse_frames(s, n),
    decreases s.len(), n,
{
    if n > 0 {
        lemma_frame_is_final(s, t);
        if let Ok((f, used)) = parse_frame(s) {
            lemma_parse_frame_used(s);
            assert((s + t).skip(used) =~= s.skip(used) + t);
            lemma_frames_are_final(s.skip(used), (n - 1) as nat, t);
        }
    }
}

/// The frames that come out of a stream do not depend on where a read ends.
///
/// Decode what has come, `a`; keep what was not consumed; when `b` comes,
/// decode what was kept and `b`. The frames are those of decoding `a` and `b`
/// at once, in the same order, and so are the bytes consumed and the reason
/// for stopping.
pub proof fn lemma_split_stream(a: Seq<u8>, b: Seq<u8>)
    ensures
        ({
            let (first, used, _) = parse_stream(a);
            let (second, more, stop) = parse_stream(a.skip(used) + b);
            parse_stream(a + b) == (first + second, used + more, stop)
        }),
    decreases a.len(),
{
    match parse_frame(a) {
        Err(_) => {
            assert(a.skip(0) + b =~= a + b);
            let (second, more, stop) = parse_stream(a + b);
            assert(Seq::<Frame>::empty() + second =~= second);
        },
        Ok((f, n)) => {
            lemma_parse_frame_used(a);
            lemma_frame_is_final(a, b);
            let rest = a.skip(n);
            lemma_split_stream(rest, b);
            let (first, used, _) = parse_stream(rest);
            let (second, more, stop) = parse_stream(rest.skip(used) + b);
            lemma_stream_used(rest);
            assert((a + b).skip(n) =~= rest + b);
            assert(rest.skip(used) =~= a.skip(n + used));
            assert(seq![f] + (first + second) =~= seq![f] + first + second);
        },
    }
}

/// The decoder consumes no more than there is.
pub proof fn lemma_stream_used(s: Seq<u8>)
    ensures
        0 <= parse_stream(s).1 <= s.len(),
        parse_frame(s.skip(parse_stream(s).1)) == Err::<(Frame, int), DecodeError>(
            parse_stream(s).2,
        ),
    decreases s.len(),
{
    match parse_frame(s) {
        Err(_) => {
            assert(s.skip(0) =~= s);
        },
        Ok((f, n)) => {
            lemma_parse_frame_used(s);
            lemma_stream_used(s.skip(n));
            let more = parse_stream(s.skip(n)).1;
            assert(s.skip(n).skip(more) =~= s.skip(n + more));
        },
    }
}

/// Once the decoder has met bytes that are no frame, more bytes change
/// nothing of what it has decoded.
pub proof fn lemma_broken_stream_is_final(a: Seq<u8>, b: Seq<u8>)
    requires
        parse_stream(a).2 != DecodeError::NeedMore,
    ensures
        parse_stream(a + b) == parse_stream(a),
{
    lemma_split_stream(a, b);
    lemma_stream_used(a);
    let (first, used, stop) = parse_stream(a);
    lemma_frame_is_final(a.skip(used), b);
    assert(first + Seq::<Frame>::empty() =~= first);
}

/// What a connection has decoded so far: the frames, and the bytes that it
/// keeps for the next read.
pub open spec fn feed(pending: Seq<u8>, chunk: Seq<u8>) -> (Seq<Frame>, Seq<u8>) {
    let all = pending + chunk;
    (parse_stream(all).0, all.skip(parse_stream(all).1))
}

/// What a connection decodes from a series of reads, keeping after each what
/// was not consumed.
pub open spec fn feed_all(pending: Seq<u8>, chunks: Seq<Seq<u8>>) -> (Seq<Frame>, Seq<u8>)
    decreases chunks.len(),
{
    if chunks.len() == 0 {
        (Seq::empty(), pending)
    } else {
        let (frames, kept) = feed_all(pending, chunks.drop_last());
        let (more, left) = feed(kept, chunks.last());
        (frames + more, left)
    }
}

/// The bytes of a series of reads, one after the other.
pub open spec fn joined(chunks: Seq<Seq<u8>>) -> Seq<u8>
    decreases chunks.len(),
{
    if chunks.len() == 0 {
        Seq::empty()
    } else {
        joined(chunks.drop_last()) + chunks.last()
    }
}

/// However a stream is cut into reads, the frames that come out are those of
/// the stream decoded at once, and what is kept is what that leaves.
pub proof fn lemma_chunked_stream(chunks: Seq<Seq<u8>>)
    ensures
        feed_all(Seq::empty(), chunks) == feed(Seq::empty(), joined(chunks)),
    decreases chunks.len(),
{
    let none = Seq::<u8>::empty();
    if chunks.len() == 0 {
        assert(none + joined(chunks) =~= none);
        assert(parse_frame(none) is Err);
        assert(none.skip(0) =~= none);
    } else {
        let before = joined(chunks.drop_last());
        let last = chunks.last();
        lemma_chunked_stream(chunks.drop_last());
        lemma_split_stream(before, last);
        lemma_stream_used(before);
        let (first, used, _) = parse_stream(before);
        let kept = before.skip(used);
        let (second, more, _) = parse_stream(kept + last);
        lemma_stream_used(kept + last);
        assert(none + before =~= before);
        assert(none + joined(chunks) =~= before + last);
        assert((before + last).skip(used + more) =~= (kept + last).skip(more));
    }
}

/// The encodings of decodable frames, one after the other, decode to those
/// frames, with nothing left over.
pub proof fn lemma_decode_pipeline(frames: Seq<Frame>)
    requires
        all_decodable(frames),
    ensures
        parse_stream(wire_all(frames)) == (
            frames,
            wire_all(frames).len() as int,
            DecodeError::NeedMore,
        ),
    decreases frames.len(),
{
    if frames.len() == 0 {
        assert(frames =~= Seq::<Frame>::empty());
    } else {
        let first = frames[0];
        let later = frames.skip(1);
        let s = wire_all(frames);
        assert(decodable(first));
        assert forall|i: int| 0 <= i < later.len() implies decodable(#[trigger] later[i]) by {
            assert(later[i] == frames[i + 1]);
        }
        lemma_decode_encoded(first, wire_all(later));
        lemma_decode_pipeline(later);
        assert(s.skip(wire(first).len() as int) =~= wire_all(later));
        assert(seq![first] + later =~= frames);
    }
}

} // verus!
