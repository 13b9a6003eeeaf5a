//! Frames of the wire protocol: their byte encoding and the decoder for it.

use crate::bytes::{copy_bytes, push_bytes};
use crate::decimal::{decimal_digits, decimal_field, parse_decimal, push_decimal};
use vstd::slice::{slice_subrange, slice_to_vec};
use vstd::prelude::*;

verus! {

pub const CR: u8 = 13;

pub const LF: u8 = 10;

/// `+`, which opens a simple string.
pub const PLUS: u8 = 43;

/// `$`, which opens a bulk string.
pub const DOLLAR: u8 = 36;

/// `*`, which opens an array.
pub const STAR: u8 = 42;

/// `-`, the first byte of the field of the null bulk string.
pub const MINUS: u8 = 45;

/// `1`, the second byte of the field of the null bulk string.
pub const ONE: u8 = 49;

/// The mathematical value of a frame: what [`RespType`] is a view of.
pub enum Frame {
    SimpleString(Seq<u8>),
    BulkString(Seq<u8>),
    Rdb(Seq<u8>),
    NullBulkString,
    Array(Seq<Frame>),
}

/// One syntactic unit of the wire protocol.
///
/// `Rdb` is the raw snapshot payload that follows a `FULLRESYNC` line: a bulk
/// header and the bytes, with no line terminator after them.
#[derive(Debug, PartialEq, Eq)]
pub enum RespType {
    SimpleString(Vec<u8>),
    BulkString(Vec<u8>),
    Rdb(Vec<u8>),
    NullBulkString,
    Array(Vec<RespType>),
}

impl View for RespType {
    type V = Frame;

    open spec fn view(&self) -> Frame
        decreases self,
    {
        match self {
            RespType::SimpleString(text) => Frame::SimpleString(text@),
            RespType::BulkString(bytes) => Frame::BulkString(bytes@),
            RespType::Rdb(bytes) => Frame::Rdb(bytes@),
            RespType::NullBulkString => Frame::NullBulkString,
            RespType::Array(items) => Frame::Array(
                Seq::new(
                    items@.len(),
                    |i: int|
                        if 0 <= i < items@.len() {
                            items@[i]@
                        } else {
                            Frame::NullBulkString
                        },
                ),
            ),
        }
    }
}

impl RespType {
    /// A copy of the frame.
    pub fn copy(&self) -> (copy: RespType)
        ensures
            copy@ == self@,
        decreases self,
    {
        match self {
            RespType::SimpleString(text) => RespType::SimpleString(copy_bytes(text.as_slice())),
            RespType::BulkString(bytes) => RespType::BulkString(copy_bytes(bytes.as_slice())),
            RespType::Rdb(bytes) => RespType::Rdb(copy_bytes(bytes.as_slice())),
            RespType::NullBulkString => RespType::NullBulkString,
            RespType::Array(items) => {
                let mut copies: Vec<RespType> = Vec::new();
                let mut i: usize = 0;
                while i < items.len()
                    invariant
                        0 <= i <= items.len(),
                        self == RespType::Array(*items),
                        copies@.len() == i,
                        forall|j: int| 0 <= j < i ==> (#[trigger] copies@[j])@ == items@[j]@,
                    decreases items.len() - i,
                {
                    assert(self@->Array_0[i as int] == items@[i as int]@);
                    let item = items[i].copy();
                    copies.push(item);
                    i = i + 1;
                }
                let copy = RespType::Array(copies);
                assert(copy@->Array_0 =~= self@->Array_0);
                copy
            },
        }
    }
}

impl Clone for RespType {
    fn clone(&self) -> (copy: RespType)
        ensures
            copy@ == self@,
    {
        self.copy()
    }
}

/// The views of a vector of frames, in order.
pub open spec fn frames_view(items: Seq<RespType>) -> Seq<Frame> {
    Seq::new(items.len(), |i: int| items[i]@)
}

/// The line terminator.
pub open spec fn crlf() -> Seq<u8> {
    seq![CR, LF]
}

/// The field of the null bulk string, `-1`.
pub open spec fn minus_one() -> Seq<u8> {
    seq![MINUS, ONE]
}

/// The encoding of the null bulk string, `$-1` and a line terminator.
pub open spec fn null_bulk() -> Seq<u8> {
    seq![DOLLAR, MINUS, ONE, CR, LF]
}

/// The bytes that stand for a frame on the wire.
pub open spec fn wire(f: Frame) -> Seq<u8>
    decreases f,
{
    match f {
        Frame::SimpleString(text) => seq![PLUS] + text + crlf(),
        Frame::BulkString(bytes) => seq![DOLLAR] + decimal_digits(bytes.len()) + crlf() + bytes
            + crlf(),
        Frame::Rdb(bytes) => seq![DOLLAR] + decimal_digits(bytes.len()) + crlf() + bytes,
        Frame::NullBulkString => null_bulk(),
        Frame::Array(items) => seq![STAR] + decimal_digits(items.len()) + crlf() + wire_all(
            items,
        ),
    }
}

/// The encodings of several frames, one after the other.
pub open spec fn wire_all(frames: Seq<Frame>) -> Seq<u8>
    decreases frames,
{
    if frames.len() == 0 {
        Seq::empty()
    } else {
        wire(frames[0]) + wire_all(frames.skip(1))
    }
}

/// Encoding frames one after the other is the same as encoding all but the
/// last and then the last.
pub proof fn lemma_wire_all_push(frames: Seq<Frame>, f: Frame)
    ensures
        wire_all(frames.push(f)) == wire_all(frames) + wire(f),
    decreases frames.len(),
{
    let all = frames.push(f);
    if frames.len() == 0 {
        assert(all.skip(1) =~= Seq::<Frame>::empty());
        assert(wire_all(all.skip(1)) =~= Seq::<u8>::empty());
        assert(wire_all(all) =~= wire(f));
        assert(wire_all(frames) + wire(f) =~= wire(f));
    } else {
        lemma_wire_all_push(frames.skip(1), f);
        assert(all.skip(1) =~= frames.skip(1).push(f));
        assert(wire_all(all) =~= wire_all(frames) + wire(f));
    }
}

impl RespType {
    /// Appends the encoding of the frame to `out`.
    pub fn write_to(&self, out: &mut Vec<u8>)
        ensures
            final(out)@ == old(out)@ + wire(self@),
        decreases self,
    {
        match self {
            RespType::SimpleString(text) => {
                out.push(PLUS);
                push_bytes(out, text.as_slice());
                out.push(CR);
                out.push(LF);
                assert(final(out)@ =~= old(out)@ + wire(self@));
            },
            RespType::BulkString(bytes) => {
                out.push(DOLLAR);
                push_decimal(out, bytes.len() as u64);
                out.push(CR);
                out.push(LF);
                push_bytes(out, bytes.as_slice());
                out.push(CR);
                out.push(LF);
                assert(final(out)@ =~= old(out)@ + wire(self@));
            },
            RespType::Rdb(bytes) => {
                out.push(DOLLAR);
                push_decimal(out, bytes.len() as u64);
                out.push(CR);
                out.push(LF);
                push_bytes(out, bytes.as_slice());
                assert(final(out)@ =~= old(out)@ + wire(self@));
            },
            RespType::NullBulkString => {
                out.push(DOLLAR);
                out.push(MINUS);
                out.push(ONE);
                out.push(CR);
                out.push(LF);
                assert(final(out)@ =~= old(out)@ + wire(self@));
            },
            RespType::Array(items) => {
                out.push(STAR);
                push_decimal(out, items.len() as u64);
                out.push(CR);
                out.push(LF);
                let ghost head = out@;
                let ghost views = self@->Array_0;
                assert(head =~= old(out)@ + seq![STAR] + decimal_digits(views.len()) + crlf());
                let mut i: usize = 0;
                while i < items.len()
                    invariant
                        0 <= i <= items.len(),
                        self == RespType::Array(*items),
                        views == self@->Array_0,
                        views.len() == items.len(),
                        out@ == head + wire_all(views.take(i as int)),
                    decreases items.len() - i,
                {
                    let ghost before = out@;
                    items[i].write_to(out);
                    proof {
                        assert(views[i as int] == items@[i as int]@);
                        lemma_wire_all_push(views.take(i as int), views[i as int]);
                        assert(views.take(i as int).push(views[i as int]) =~= views.take(i + 1));
                        assert(out@ =~= head + wire_all(views.take(i + 1)));
                    }
                    i = i + 1;
                }
                assert(views.take(i as int) =~= views);
                assert(final(out)@ =~= old(out)@ + wire(self@));
            },
        }
    }

    /// The encoding of the frame.
    pub fn serialize(self) -> (out: Vec<u8>)
        ensures
            out@ == wire(self@),
    {
        let mut out: Vec<u8> = Vec::new();
        self.write_to(&mut out);
        assert(out@ =~= wire(self@));
        out
    }
}

/// Why the decoder stopped.
///
/// `NeedMore` is no protocol error: the bytes so far are the beginning of a
/// frame, and the caller is to wait for the rest.
#[derive(Debug, Clone, Copy, PartialEq, Eq, Structural)]
pub enum DecodeError {
    /// The first byte opens no frame, or a length is no decimal number.
    MalformedHeader,
    /// The bytes of a bulk string are not followed by a line terminator.
    LengthMismatch,
    /// The frame is not complete yet.
    NeedMore,
}

/// A line terminator stands at index `i` of `s`.
pub open spec fn crlf_at(s: Seq<u8>, i: int) -> bool {
    0 <= i && i + 1 < s.len() && s[i] == CR && s[i + 1] == LF
}

/// The first line terminator of `s` stands at index `i`.
pub open spec fn line_ends_at(s: Seq<u8>, i: int) -> bool {
    crlf_at(s, i) && forall|j: int| 0 <= j < i ==> !crlf_at(s, j)
}

/// Where the first line of `s` ends, if `s` holds a line terminator.
pub open spec fn line_end(s: Seq<u8>) -> Option<int> {
    if exists|i: int| line_ends_at(s, i) {
        Some(choose|i: int| line_ends_at(s, i))
    } else {
        None
    }
}

/// The first line terminator is unique.
pub proof fn lemma_line_end_is(s: Seq<u8>, i: int)
    requires
        line_ends_at(s, i),
    ensures
        line_end(s) == Some(i),
{
    let c = choose|c: int| line_ends_at(s, c);
    assert(line_ends_at(s, c));
    if c < i {
        assert(!crlf_at(s, c));
    }
    if i < c {
        assert(!crlf_at(s, i));
    }
}

/// Without a line terminator there is no first line.
pub proof fn lemma_line_end_none(s: Seq<u8>)
    requires
        forall|j: int| !crlf_at(s, j),
    ensures
        line_end(s) is None,
{
}

/// What `line_end` returns is the index of the first line terminator.
pub proof fn lemma_line_end_some(s: Seq<u8>)
    ensures
        line_end(s) matches Some(e) ==> line_ends_at(s, e) && 0 <= e && e + 2 <= s.len(),
{
}

/// `sub` joined to what came before it and to what follows.
pub open spec fn prepend(
    head: Seq<Frame>,
    used: int,
    sub: Result<(Seq<Frame>, int), DecodeError>,
) -> Result<(Seq<Frame>, int), DecodeError> {
    match sub {
        Ok((frames, n)) => Ok((head + frames, used + n)),
        Err(e) => Err(e),
    }
}

/// The array whose header takes `body` bytes and whose items are `sub`.
pub open spec fn array_of(body: int, sub: Result<(Seq<Frame>, int), DecodeError>) -> Result<
    (Frame, int),
    DecodeError,
> {
    match sub {
        Ok((items, used)) => Ok((Frame::Array(items), body + used)),
        Err(e) => Err(e),
    }
}

/// What the decoder reads at the start of `s`: a frame and the number of
/// bytes that it takes, or the reason why there is none.
///
/// A frame is a header line and, for a bulk string or an array, a body. The
/// header is the opening byte, a field, and a line terminator. The field of a
/// simple string is its text. The field of a bulk string is `-1` for the null
/// bulk string, or else the decimal number of bytes in the body, which a line
/// terminator follows. The field of an array is the decimal number of frames
/// in the body.
pub open spec fn parse_frame(s: Seq<u8>) -> Result<(Frame, int), DecodeError>
    decreases s.len(), 0nat,
{
    if s.len() == 0 {
        Err(DecodeError::NeedMore)
    } else if s[0] != PLUS && s[0] != DOLLAR && s[0] != STAR {
        Err(DecodeError::MalformedHeader)
    } else {
        match line_end(s) {
            None => Err(DecodeError::NeedMore),
            Some(e) => {
                let field = s.subrange(1, e);
                let body = e + 2;
                if s[0] == PLUS {
                    Ok((Frame::SimpleString(field), body))
                } else if s[0] == DOLLAR {
                    if field == minus_one() {
                        Ok((Frame::NullBulkString, body))
                    } else {
                        match decimal_field(field) {
                            None => Err(DecodeError::MalformedHeader),
                            Some(n) => {
                                if s.len() < body + n + 2 {
                                    Err(DecodeError::NeedMore)
                                } else if !crlf_at(s, body + n) {
                                    Err(DecodeError::LengthMismatch)
                                } else {
                                    Ok(
                                        (
                                            Frame::BulkString(s.subrange(body, body + n)),
                                            body + n + 2,
                                        ),
                                    )
                                }
                            },
                        }
                    }
                } else {
                    match decimal_field(field) {
                        None => Err(DecodeError::MalformedHeader),
                        Some(n) => {
                            proof {
                                lemma_line_end_some(s);
                            }
                            array_of(body, parse_frames(s.skip(body), n as nat))
                        },
                    }
                }
            },
        }
    }
}

/// What the decoder reads as `n` frames in a row at the start of `s`.
///
/// A frame takes at least one byte and no more than there are (see
/// [`lemma_parse_frame_used`]), so the last branch is never taken.
pub open spec fn parse_frames(s: Seq<u8>, n: nat) -> Result<(Seq<Frame>, int), DecodeError>
    decreases s.len(), n,
{
    if n == 0 {
        Ok((Seq::empty(), 0))
    } else {
        match parse_frame(s) {
            Err(e) => Err(e),
            Ok((f, used)) => {
                if 0 < used <= s.len() {
                    prepend(seq![f], used, parse_frames(s.skip(used), (n - 1) as nat))
                } else {
                    Err(DecodeError::NeedMore)
                }
            },
        }
    }
}

/// A decoded frame takes at least one byte of the input and no more than the
/// input holds; so do `n` frames, unless `n` is 0.
pub proof fn lemma_parse_frame_used(s: Seq<u8>)
    ensures
        parse_frame(s) matches Ok((_, used)) ==> 0 < used <= s.len(),
    decreases s.len(), 0nat,
{
    if s.len() > 0 && (s[0] == PLUS || s[0] == DOLLAR || s[0] == STAR) {
        lemma_line_end_some(s);
        if let Some(e) = line_end(s) {
            let field = s.subrange(1, e);
            let body = e + 2;
            if s[0] == STAR {
                if let Some(n) = decimal_field(field) {
                    lemma_parse_frames_used(s.skip(body), n as nat);
                }
            }
        }
    }
}

/// See [`lemma_parse_frame_used`].
pub proof fn lemma_parse_frames_used(s: Seq<u8>, n: nat)
    ensures
        parse_frames(s, n) matches Ok((items, used)) ==> 0 <= used <= s.len() && items.len() == n
            && (n > 0 ==> used > 0),
    decreases s.len(), n,
{
    if n > 0 {
        lemma_parse_frame_used(s);
        if let Ok((f, used)) = parse_frame(s) {
            lemma_parse_frames_used(s.skip(used), (n - 1) as nat);
        }
    }
}

/// The decoder's result `r` is what the grammar gives, `p`.
pub open spec fn decoded_as(
    r: Result<(RespType, usize), DecodeError>,
    p: Result<(Frame, int), DecodeError>,
) -> bool {
    match p {
        Ok((f, used)) => r matches Ok((t, n)) && t@ == f && n == used,
        Err(e) => r matches Err(x) && x == e,
    }
}

/// The index of the first line terminator of `s`.
pub fn find_crlf(s: &[u8]) -> (r: Option<usize>)
    ensures
        match r {
            Some(i) => line_end(s@) == Some(i as int),
            None => line_end(s@) is None,
        },
{
    if s.len() < 2 {
        proof {
            lemma_line_end_none(s@);
        }
        return None;
    }
    let mut i: usize = 0;
    while i < s.len() - 1
        invariant
            0 <= i <= s.len() - 1,
            forall|j: int| 0 <= j < i ==> !crlf_at(s@, j),
        decreases s.len() - i,
    {
        if s[i] == CR && s[i + 1] == LF {
            proof {
                lemma_line_end_is(s@, i as int);
            }
            return Some(i);
        }
        i = i + 1;
    }
    proof {
        lemma_line_end_none(s@);
    }
    None
}

/// Decodes the frame at the start of `buffer`.
///
/// Returns the frame and the number of bytes that it takes, or the reason why
/// there is none: as [`parse_frame`] says. Nothing is consumed of a frame that
/// is not complete.
pub fn parse_single_message(buffer: &[u8]) -> (r: Result<(RespType, usize), DecodeError>)
    ensures
        decoded_as(r, parse_frame(buffer@)),
    decreases buffer.len(),
{
    let ghost s = buffer@;
    if buffer.len() == 0 {
        return Err(DecodeError::NeedMore);
    }
    let tag: u8 = buffer[0];
    if tag != PLUS && tag != DOLLAR && tag != STAR {
        return Err(DecodeError::MalformedHeader);
    }
    let e: usize = match find_crlf(buffer) {
        None => {
            return Err(DecodeError::NeedMore);
        },
        Some(e) => e,
    };
    proof {
        lemma_line_end_some(s);
    }
    let body: usize = e + 2;
    let field = slice_subrange(buffer, 1, e);
    if tag == PLUS {
        let text = slice_to_vec(field);
        return Ok((RespType::SimpleString(text), body));
    }
    if tag == DOLLAR {
        if e == 3 && buffer[1] == MINUS && buffer[2] == ONE {
            assert(field@ =~= minus_one());
            return Ok((RespType::NullBulkString, body));
        }
        assert(field@ != minus_one()) by {
            if field@ == minus_one() {
                assert(field@.len() == 2);
                assert(field@[0] == MINUS && field@[1] == ONE);
            }
        }
        let n: u64 = match parse_decimal(field) {
            None => {
                return Err(DecodeError::MalformedHeader);
            },
            Some(n) => n,
        };
        let remaining: usize = buffer.len() - body;
        if remaining as u64 <= n || remaining as u64 - n < 2 {
            return Err(DecodeError::NeedMore);
        }
        let end: usize = body + n as usize;
        if buffer[end] != CR || buffer[end + 1] != LF {
            return Err(DecodeError::LengthMismatch);
        }
        let bytes = slice_to_vec(slice_subrange(buffer, body, end));
        return Ok((RespType::BulkString(bytes), end + 2));
    }
    let n: u64 = match parse_decimal(field) {
        None => {
            return Err(DecodeError::MalformedHeader);
        },
        Some(n) => n,
    };
    let mut items: Vec<RespType> = Vec::new();
    let mut pos: usize = body;
    let mut i: u64 = 0;
    assert(frames_view(items@) =~= Seq::<Frame>::empty());
    assert(s.skip(body as int).skip(0) =~= s.skip(body as int));
    while i < n
        invariant
            s == buffer@,
            0 < body <= pos <= buffer.len(),
            i <= n,
            items@.len() == i,
            parse_frame(s) == array_of(body as int, parse_frames(s.skip(body as int), n as nat)),
            parse_frames(s.skip(body as int), n as nat) == prepend(
                frames_view(items@),
                pos - body,
                parse_frames(s.skip(pos as int), (n - i) as nat),
            ),
        decreases n - i,
    {
        let rest = slice_subrange(buffer, pos, buffer.len());
        assert(rest@ =~= s.skip(pos as int));
        match parse_single_message(rest) {
            Err(e) => {
                proof {
                    assert(parse_frame(s.skip(pos as int)) == Err::<(Frame, int), DecodeError>(e));
                    assert(parse_frames(s.skip(pos as int), (n - i) as nat) == Err::<
                        (Seq<Frame>, int),
                        DecodeError,
                    >(e));
                }
                return Err(e);
            },
            Ok((item, used)) => {
                proof {
                    lemma_parse_frame_used(rest@);
                    assert(rest@.skip(used as int) =~= s.skip(pos + used));
                    assert(frames_view(items@.push(item)) =~= frames_view(items@) + seq![item@]);
                    let sub = parse_frames(s.skip(pos + used), (n - i - 1) as nat);
                    match sub {
                        Ok((later, m)) => {
                            assert(frames_view(items@) + (seq![item@] + later) =~= frames_view(
                                items@,
                            ) + seq![item@] + later);
                        },
                        Err(_) => {},
                    }
                }
                items.push(item);
                pos = pos + used;
                i = i + 1;
            },
        }
    }
    let frame = RespType::Array(items);
    proof {
        assert(frame@->Array_0 =~= frames_view(items@));
        assert(frames_view(items@) + Seq::<Frame>::empty() =~= frames_view(items@));
    }
    Ok((frame, pos))
}

/// What the decoder reads at the start of `s` where the snapshot payload is
/// expected: a bulk header and as many raw bytes as it declares, with no line
/// terminator after them.
pub open spec fn parse_blob(s: Seq<u8>) -> Result<(Frame, int), DecodeError> {
    if s.len() == 0 {
        Err(DecodeError::NeedMore)
    } else if s[0] != DOLLAR {
        Err(DecodeError::MalformedHeader)
    } else {
        match line_end(s) {
            None => Err(DecodeError::NeedMore),
            Some(e) => match decimal_field(s.subrange(1, e)) {
                None => Err(DecodeError::MalformedHeader),
                Some(n) => {
                    if s.len() < e + 2 + n {
                        Err(DecodeError::NeedMore)
                    } else {
                        Ok((Frame::Rdb(s.subrange(e + 2, e + 2 + n)), e + 2 + n))
                    }
                },
            },
        }
    }
}

/// Decodes the snapshot payload at the start of `buffer`, as [`parse_blob`]
/// says.
pub fn parse_rdb(buffer: &[u8]) -> (r: Result<(RespType, usize), DecodeError>)
    ensures
        decoded_as(r, parse_blob(buffer@)),
{
    if buffer.len() == 0 {
        return Err(DecodeError::NeedMore);
    }
    if buffer[0] != DOLLAR {
        return Err(DecodeError::MalformedHeader);
    }
    let e: usize = match find_crlf(buffer) {
        None => {
            return Err(DecodeError::NeedMore);
        },
        Some(e) => e,
    };
    proof {
        lemma_line_end_some(buffer@);
    }
    let body: usize = e + 2;
    let n: u64 = match parse_decimal(slice_subrange(buffer, 1, e)) {
        None => {
            return Err(DecodeError::MalformedHeader);
        },
        Some(n) => n,
    };
    let remaining: usize = buffer.len() - body;
    if (remaining as u64) < n {
        return Err(DecodeError::NeedMore);
    }
    let end: usize = body + n as usize;
    let bytes = slice_to_vec(slice_subrange(buffer, body, end));
    Ok((RespType::Rdb(bytes), end))
}

/// What the decoder makes of a buffer: the frames that are complete, the
/// number of bytes that they take, and why it stopped after them.
pub open spec fn parse_stream(s: Seq<u8>) -> (Seq<Frame>, int, DecodeError)
    decreases s.len(),
{
    match parse_frame(s) {
        Err(e) => (Seq::empty(), 0, e),
        Ok((f, used)) => {
            proof {
                lemma_parse_frame_used(s);
            }
            let (frames, more, stop) = parse_stream(s.skip(used));
            (seq![f] + frames, used + more, stop)
        },
    }
}

/// What [`parse_messages`] returns.
#[derive(Debug, PartialEq, Eq)]
pub struct Decoded {
    /// The frames that were complete, in the order in which they came.
    pub frames: Vec<RespType>,
    /// The index of the first byte that belongs to none of them.
    pub consumed: usize,
    /// Why the decoder read no frame at that index.
    pub stop: DecodeError,
}

/// Decodes every complete frame at the start of `buffer`.
///
/// The decoder stops at the first index where no frame can be read: the
/// buffer ends there or holds only the beginning of a frame (`NeedMore`), or
/// the bytes there are no frame (the two protocol errors). The bytes from
/// `consumed` on are left to the caller.
pub fn parse_messages(buffer: &[u8]) -> (r: Decoded)
    ensures
        frames_view(r.frames@) == parse_stream(buffer@).0,
        r.consumed == parse_stream(buffer@).1,
        r.stop == parse_stream(buffer@).2,
        r.consumed <= buffer@.len(),
{
    let ghost s = buffer@;
    let mut frames: Vec<RespType> = Vec::new();
    let mut pos: usize = 0;
    assert(s.skip(0) =~= s);
    assert(frames_view(frames@) + parse_stream(s).0 =~= parse_stream(s).0);
    loop
        invariant
            s == buffer@,
            0 <= pos <= buffer.len(),
            parse_stream(s).0 == frames_view(frames@) + parse_stream(s.skip(pos as int)).0,
            parse_stream(s).1 == pos + parse_stream(s.skip(pos as int)).1,
            parse_stream(s).2 == parse_stream(s.skip(pos as int)).2,
        decreases buffer.len() - pos,
    {
        let rest = slice_subrange(buffer, pos, buffer.len());
        assert(rest@ =~= s.skip(pos as int));
        match parse_single_message(rest) {
            Err(stop) => {
                proof {
                    assert(frames_view(frames@) + Seq::<Frame>::empty() =~= frames_view(frames@));
                }
                return Decoded { frames, consumed: pos, stop };
            },
            Ok((frame, used)) => {
                proof {
                    lemma_parse_frame_used(rest@);
                    assert(rest@.skip(used as int) =~= s.skip(pos + used));
                    assert(frames_view(frames@.push(frame)) =~= frames_view(frames@) + seq![
                        frame@,
                    ]);
                    let later = parse_stream(s.skip(pos + used)).0;
                    assert(frames_view(frames@) + (seq![frame@] + later) =~= frames_view(frames@)
                        + seq![frame@] + later);
                }
                frames.push(frame);
                pos = pos + used;
            },
        }
    }
}

} // verus!
