//! The handshake by which a secondary joins its primary.

use crate::bytes::{bytes_of, copy_bytes, push_bytes, same_word, text};
use crate::command::{
    bulk_array, command_of, command_of_words, ok_reply, propagated_set, respond, words_of,
    CommandView,
};
use crate::config::{Config, Role};
use crate::database::{distinct_keys, lemma_put, lookup, put, Entry, ItemView};
use crate::decimal::{decimal_digits, push_decimal};
use crate::framing::{decodable, lemma_decode_pipeline};
use crate::resp::{
    find_crlf, lemma_line_end_some, line_end, parse_blob, parse_rdb, parse_stream, wire,
    wire_all, DecodeError, Frame, RespType,
};
use crate::session::{serve, turn, writes_of, Served, SessionView, Status, WriteView};
use vstd::prelude::*;
use vstd::slice::slice_subrange;
use vstd::string::{is_ascii, is_ascii_spec_bytes};

verus! {

/// The reply that a secondary waits for.
#[derive(Debug, Clone, Copy, PartialEq, Eq, Structural)]
pub enum Stage {
    /// `+PONG`, to `PING`.
    AwaitPong,
    /// `+OK`, to `REPLCONF listening-port`.
    AwaitPortAck,
    /// `+OK`, to `REPLCONF capa psync2`.
    AwaitCapaAck,
    /// The `+FULLRESYNC` line, to `PSYNC`.
    AwaitFullResync,
    /// The snapshot, after the `+FULLRESYNC` line.
    AwaitSnapshot,
    /// None: the handshake is complete.
    Done,
    /// None: the handshake has failed.
    Failed,
}

/// Why a handshake failed.
#[derive(Debug, Clone, Copy, PartialEq, Eq, Structural)]
pub enum HandshakeError {
    /// The primary did not answer `PING` with `+PONG`.
    PingRefused,
    /// The primary did not acknowledge `REPLCONF listening-port`.
    ListeningPortRefused,
    /// The primary did not acknowledge `REPLCONF capa psync2`.
    CapaRefused,
    /// The primary did not answer `PSYNC` with a `+FULLRESYNC` line.
    ResyncRefused,
    /// What follows the `+FULLRESYNC` line is no snapshot payload.
    InvalidSnapshot,
    /// The handshake was over before this read.
    Over,
}

/// What the bytes received so far are, held against the line that is
/// expected.
#[derive(Debug, Clone, Copy, PartialEq, Eq, Structural)]
pub enum Verdict {
    /// The beginning of such a line, perhaps.
    Pending,
    /// Such a line, which takes this many bytes with its terminator.
    Accepted(usize),
    /// No such line, whatever follows.
    Rejected,
}

/// `bytes` and `expected` hold the same byte wherever both hold one.
pub open spec fn agrees(bytes: Seq<u8>, expected: Seq<u8>) -> bool {
    forall|i: int| 0 <= i < bytes.len() && i < expected.len() ==> bytes[i] == expected[i]
}

/// What `bytes` are, held against a line that starts with `expected`: no
/// such line as soon as one byte differs from `expected` or the line ends
/// before `expected` does; such a line once its terminator is there.
pub open spec fn reply_line(bytes: Seq<u8>, expected: Seq<u8>) -> Verdict {
    if !agrees(bytes, expected) {
        Verdict::Rejected
    } else {
        match line_end(bytes) {
            Some(e) => if e >= expected.len() {
                Verdict::Accepted((e + 2) as usize)
            } else {
                Verdict::Rejected
            },
            None => Verdict::Pending,
        }
    }
}

/// Holds the bytes received so far against a line that starts with
/// `expected`: see [`reply_line`].
pub fn check_reply(bytes: &[u8], expected: &str) -> (verdict: Verdict)
    ensures
        verdict == reply_line(bytes@, text(expected)),
{
    let want = expected.as_bytes();
    let mut i: usize = 0;
    while i < bytes.len() && i < want.len()
        invariant
            0 <= i <= bytes.len(),
            i <= want.len(),
            want@ == text(expected),
            forall|j: int| 0 <= j < i ==> bytes@[j] == want@[j],
        decreases bytes.len() - i,
    {
        if bytes[i] != want[i] {
            assert(!agrees(bytes@, want@)) by {
                assert(bytes@[i as int] != want@[i as int]);
            }
            return Verdict::Rejected;
        }
        i = i + 1;
    }
    assert(agrees(bytes@, want@));
    match find_crlf(bytes) {
        Some(e) => {
            proof {
                lemma_line_end_some(bytes@);
            }
            if e >= want.len() {
                Verdict::Accepted(e + 2)
            } else {
                Verdict::Rejected
            }
        },
        None => Verdict::Pending,
    }
}

/// The request `PING`.
pub open spec fn ping_request() -> Seq<u8> {
    wire(bulk_array(seq![text("PING")]))
}

/// The request `REPLCONF listening-port` with the port in decimal.
pub open spec fn listening_port_request(port: u32) -> Seq<u8> {
    wire(
        bulk_array(seq![text("REPLCONF"), text("listening-port"), decimal_digits(port as nat)]),
    )
}

/// The request `REPLCONF capa psync2`.
pub open spec fn capa_request() -> Seq<u8> {
    wire(bulk_array(seq![text("REPLCONF"), text("capa"), text("psync2")]))
}

/// The request `PSYNC ? -1`.
pub open spec fn psync_request() -> Seq<u8> {
    wire(bulk_array(seq![text("PSYNC"), text("?"), text("-1")]))
}

/// The encoding of the array of bulk strings that holds `words`.
fn request_of(words: Vec<Vec<u8>>) -> (bytes: Vec<u8>)
    ensures
        bytes@ == wire(bulk_array(Seq::new(words@.len(), |i: int| words@[i]@))),
{
    let ghost views = Seq::new(words@.len(), |i: int| words@[i]@);
    let mut items: Vec<RespType> = Vec::new();
    let mut i: usize = 0;
    while i < words.len()
        invariant
            0 <= i <= words.len(),
            items@.len() == i,
            views == Seq::new(words@.len(), |i: int| words@[i]@),
            forall|j: int| 0 <= j < i ==> (#[trigger] items@[j])@ == Frame::BulkString(views[j]),
        decreases words.len() - i,
    {
        items.push(RespType::BulkString(copy_bytes(words[i].as_slice())));
        i = i + 1;
    }
    let frame = RespType::Array(items);
    assert(frame@->Array_0 =~= bulk_array(views)->Array_0);
    frame.serialize()
}

/// The request that opens the handshake: see [`ping_request`].
pub fn send_ping() -> (request: Vec<u8>)
    ensures
        request@ == ping_request(),
{
    let words: Vec<Vec<u8>> = vec![bytes_of("PING")];
    assert(Seq::new(words@.len(), |i: int| words@[i]@) =~= seq![text("PING")]);
    request_of(words)
}

/// The request that tells the primary the port on which this server
/// listens: see [`listening_port_request`].
pub fn send_replconf_listening_port(port: u32) -> (request: Vec<u8>)
    ensures
        request@ == listening_port_request(port),
{
    let mut digits: Vec<u8> = Vec::new();
    push_decimal(&mut digits, port as u64);
    assert(digits@ =~= decimal_digits(port as nat));
    let words: Vec<Vec<u8>> = vec![bytes_of("REPLCONF"), bytes_of("listening-port"), digits];
    assert(Seq::new(words@.len(), |i: int| words@[i]@) =~= seq![
        text("REPLCONF"),
        text("listening-port"),
        decimal_digits(port as nat),
    ]);
    request_of(words)
}

/// The request that tells the primary what this server can do: see
/// [`capa_request`].
pub fn send_replconf_capa_psync2() -> (request: Vec<u8>)
    ensures
        request@ == capa_request(),
{
    let words: Vec<Vec<u8>> = vec![bytes_of("REPLCONF"), bytes_of("capa"), bytes_of("psync2")];
    assert(Seq::new(words@.len(), |i: int| words@[i]@) =~= seq![
        text("REPLCONF"),
        text("capa"),
        text("psync2"),
    ]);
    request_of(words)
}

/// The request for a full resynchronisation: see [`psync_request`].
pub fn send_psync() -> (request: Vec<u8>)
    ensures
        request@ == psync_request(),
{
    let words: Vec<Vec<u8>> = vec![bytes_of("PSYNC"), bytes_of("?"), bytes_of("-1")];
    assert(Seq::new(words@.len(), |i: int| words@[i]@) =~= seq![
        text("PSYNC"),
        text("?"),
        text("-1"),
    ]);
    request_of(words)
}

/// The mathematical value of a handshake: what [`Handshake`] is a view of.
pub struct HandshakeView {
    pub stage: Stage,
    pub buffer: Seq<u8>,
    pub port: u32,
}

/// The state of a handshake: the reply that is waited for, the bytes of it
/// that have come, and the port on which this server listens.
#[derive(Debug)]
pub struct Handshake {
    stage: Stage,
    buffer: Vec<u8>,
    port: u32,
}

impl View for Handshake {
    type V = HandshakeView;

    closed spec fn view(&self) -> HandshakeView {
        HandshakeView { stage: self.stage, buffer: self.buffer@, port: self.port }
    }
}

/// The mathematical value of a step: what [`Step`] is a view of.
pub enum StepView {
    Wait,
    Send(Seq<u8>),
    Done { snapshot: Seq<u8>, rest: Seq<u8> },
    Fail(HandshakeError),
}

/// What a secondary is to do next.
#[derive(Debug, PartialEq, Eq)]
pub enum Step {
    /// Read more.
    Wait,
    /// Send these bytes, then read.
    Send(Vec<u8>),
    /// Nothing more: the handshake is complete. `snapshot` is the payload
    /// that the primary sent, and `rest` what came after it on the
    /// connection, which is the beginning of the stream of writes.
    Done { snapshot: Vec<u8>, rest: Vec<u8> },
    /// Give up.
    Fail(HandshakeError),
}

impl View for Step {
    type V = StepView;

    open spec fn view(&self) -> StepView {
        match self {
            Step::Wait => StepView::Wait,
            Step::Send(bytes) => StepView::Send(bytes@),
            Step::Done { snapshot, rest } => StepView::Done { snapshot: snapshot@, rest: rest@ },
            Step::Fail(e) => StepView::Fail(*e),
        }
    }
}

/// The handshake after it has failed.
pub open spec fn failed(h: HandshakeView, e: HandshakeError) -> (HandshakeView, StepView) {
    (HandshakeView { stage: Stage::Failed, buffer: Seq::empty(), port: h.port }, StepView::Fail(e))
}

/// What a secondary makes of `bytes` where it waits for an acknowledgement:
/// a line that starts with `expected`, and nothing after it. It then sends
/// `request` and waits for the next reply.
pub open spec fn acknowledged(
    h: HandshakeView,
    bytes: Seq<u8>,
    expected: Seq<u8>,
    e: HandshakeError,
    next: Stage,
    request: Seq<u8>,
) -> (HandshakeView, StepView) {
    match reply_line(bytes, expected) {
        Verdict::Pending => (HandshakeView { buffer: bytes, ..h }, StepView::Wait),
        Verdict::Rejected => failed(h, e),
        Verdict::Accepted(n) => if n == bytes.len() {
            (
                HandshakeView { stage: next, buffer: Seq::empty(), port: h.port },
                StepView::Send(request),
            )
        } else {
            failed(h, e)
        },
    }
}

/// What a secondary makes of `bytes` where it waits for the snapshot: the
/// payload, and after it the beginning of the stream of writes.
pub open spec fn snapshot_received(h: HandshakeView, bytes: Seq<u8>) -> (HandshakeView, StepView) {
    match parse_blob(bytes) {
        Ok((frame, used)) => (
            HandshakeView { stage: Stage::Done, buffer: Seq::empty(), port: h.port },
            StepView::Done { snapshot: frame->Rdb_0, rest: bytes.skip(used) },
        ),
        Err(DecodeError::NeedMore) => (
            HandshakeView { stage: Stage::AwaitSnapshot, buffer: bytes, port: h.port },
            StepView::Wait,
        ),
        Err(_) => failed(h, HandshakeError::InvalidSnapshot),
    }
}

/// The error of a handshake that ends while it waits at `stage`.
pub open spec fn refusal(stage: Stage) -> HandshakeError {
    match stage {
        Stage::AwaitPong => HandshakeError::PingRefused,
        Stage::AwaitPortAck => HandshakeError::ListeningPortRefused,
        Stage::AwaitCapaAck => HandshakeError::CapaRefused,
        Stage::AwaitFullResync => HandshakeError::ResyncRefused,
        Stage::AwaitSnapshot => HandshakeError::InvalidSnapshot,
        Stage::Done => HandshakeError::Over,
        Stage::Failed => HandshakeError::Over,
    }
}

/// What a read of `chunk` makes of a handshake, and what the secondary is to
/// do next.
///
/// The sequence is strict. To `PING` the primary answers with a line that
/// starts with `+PONG`; to each `REPLCONF` with a line that starts with
/// `+OK`; to `PSYNC` with a line that starts with `+FULLRESYNC`, and after it
/// the snapshot as a raw payload. An empty read, which is the end of the
/// stream, and any other answer make the handshake fail, with the error of
/// the stage at which it stood.
pub open spec fn advance(h: HandshakeView, chunk: Seq<u8>) -> (HandshakeView, StepView) {
    let bytes = h.buffer + chunk;
    if h.stage == Stage::Done || h.stage == Stage::Failed {
        (h, StepView::Fail(HandshakeError::Over))
    } else if chunk.len() == 0 {
        failed(h, refusal(h.stage))
    } else {
        match h.stage {
            Stage::AwaitPong => acknowledged(
                h,
                bytes,
                text("+PONG"),
                HandshakeError::PingRefused,
                Stage::AwaitPortAck,
                listening_port_request(h.port),
            ),
            Stage::AwaitPortAck => acknowledged(
                h,
                bytes,
                text("+OK"),
                HandshakeError::ListeningPortRefused,
                Stage::AwaitCapaAck,
                capa_request(),
            ),
            Stage::AwaitCapaAck => acknowledged(
                h,
                bytes,
                text("+OK"),
                HandshakeError::CapaRefused,
                Stage::AwaitFullResync,
                psync_request(),
            ),
            Stage::AwaitFullResync => match reply_line(bytes, text("+FULLRESYNC")) {
                Verdict::Pending => (HandshakeView { buffer: bytes, ..h }, StepView::Wait),
                Verdict::Rejected => failed(h, HandshakeError::ResyncRefused),
                Verdict::Accepted(n) => snapshot_received(h, bytes.skip(n as int)),
            },
            _ => snapshot_received(h, bytes),
        }
    }
}

/// The handshake of a server that listens on `port`, before the first reply.
pub open spec fn opening(port: u32) -> HandshakeView {
    HandshakeView { stage: Stage::AwaitPong, buffer: Seq::empty(), port }
}

impl Handshake {
    /// Opens a handshake: returns its state and the first request to send.
    pub fn start(port: u32) -> (r: (Handshake, Vec<u8>))
        ensures
            r.0@ == opening(port),
            r.1@ == ping_request(),
    {
        (Handshake { stage: Stage::AwaitPong, buffer: Vec::new(), port }, send_ping())
    }

    /// The reply that the handshake waits for.
    pub fn stage(&self) -> (stage: Stage)
        ensures
            stage == self@.stage,
    {
        self.stage
    }

    /// Marks the handshake as failed.
    fn fail(&mut self, e: HandshakeError) -> (step: Step)
        ensures
            (final(self)@, step@) == failed(old(self)@, e),
    {
        self.stage = Stage::Failed;
        self.buffer = Vec::new();
        Step::Fail(e)
    }

    /// Takes an acknowledgement: see [`acknowledged`].
    fn take_ack(
        &mut self,
        expected: &str,
        e: HandshakeError,
        next: Stage,
        request: Vec<u8>,
    ) -> (step: Step)
        ensures
            (final(self)@, step@) == acknowledged(
                HandshakeView { buffer: Seq::empty(), ..old(self)@ },
                old(self)@.buffer,
                text(expected),
                e,
                next,
                request@,
            ),
    {
        match check_reply(self.buffer.as_slice(), expected) {
            Verdict::Pending => Step::Wait,
            Verdict::Rejected => self.fail(e),
            Verdict::Accepted(n) => {
                if n == self.buffer.len() {
                    self.stage = next;
                    self.buffer = Vec::new();
                    Step::Send(request)
                } else {
                    self.fail(e)
                }
            },
        }
    }

    /// Takes the snapshot from index `from` of what has come: see
    /// [`snapshot_received`].
    fn take_snapshot(&mut self, from: usize) -> (step: Step)
        requires
            from <= old(self)@.buffer.len(),
        ensures
            (final(self)@, step@) == snapshot_received(
                old(self)@,
                old(self)@.buffer.skip(from as int),
            ),
    {
        let bytes = slice_subrange(self.buffer.as_slice(), from, self.buffer.len());
        assert(bytes@ =~= self@.buffer.skip(from as int));
        match parse_rdb(bytes) {
            Ok((RespType::Rdb(snapshot), used)) => {
                let rest = copy_bytes(slice_subrange(bytes, used, bytes.len()));
                assert(rest@ =~= bytes@.skip(used as int));
                self.stage = Stage::Done;
                self.buffer = Vec::new();
                Step::Done { snapshot, rest }
            },
            Ok((_, _)) => {
                proof {
                    assert(false);
                }
                self.fail(HandshakeError::InvalidSnapshot)
            },
            Err(DecodeError::NeedMore) => {
                let kept = copy_bytes(bytes);
                self.stage = Stage::AwaitSnapshot;
                self.buffer = kept;
                Step::Wait
            },
            Err(_) => self.fail(HandshakeError::InvalidSnapshot),
        }
    }
}

/// Takes a read of `chunk` on the connection to the primary, and says what
/// the secondary is to do next: see [`advance`].
///
/// An empty `chunk` is the end of the stream.
pub fn handle_replica(handshake: &mut Handshake, chunk: &[u8]) -> (step: Step)
    ensures
        (final(handshake)@, step@) == advance(old(handshake)@, chunk@),
{
    match handshake.stage {
        Stage::Done => {
            return Step::Fail(HandshakeError::Over);
        },
        Stage::Failed => {
            return Step::Fail(HandshakeError::Over);
        },
        _ => {},
    }
    if chunk.len() == 0 {
        let e = match handshake.stage {
            Stage::AwaitPong => HandshakeError::PingRefused,
            Stage::AwaitPortAck => HandshakeError::ListeningPortRefused,
            Stage::AwaitCapaAck => HandshakeError::CapaRefused,
            Stage::AwaitFullResync => HandshakeError::ResyncRefused,
            _ => HandshakeError::InvalidSnapshot,
        };
        return handshake.fail(e);
    }
    push_bytes(&mut handshake.buffer, chunk);
    assert(handshake@.buffer.skip(0) =~= handshake@.buffer);
    match handshake.stage {
        Stage::AwaitPong => {
            let request = send_replconf_listening_port(handshake.port);
            handshake.take_ack("+PONG", HandshakeError::PingRefused, Stage::AwaitPortAck, request)
        },
        Stage::AwaitPortAck => {
            let request = send_replconf_capa_psync2();
            handshake.take_ack(
                "+OK",
                HandshakeError::ListeningPortRefused,
                Stage::AwaitCapaAck,
                request,
            )
        },
        Stage::AwaitCapaAck => {
            let request = send_psync();
            handshake.take_ack("+OK", HandshakeError::CapaRefused, Stage::AwaitFullResync, request)
        },
        Stage::AwaitFullResync => {
            match check_reply(handshake.buffer.as_slice(), "+FULLRESYNC") {
                Verdict::Pending => Step::Wait,
                Verdict::Rejected => handshake.fail(HandshakeError::ResyncRefused),
                Verdict::Accepted(n) => {
                    proof {
                        lemma_line_end_some(handshake@.buffer);
                    }
                    handshake.take_snapshot(n)
                },
            }
        },
        _ => handshake.take_snapshot(0),
    }
}

/// A primary that answers `PING` with anything but a line that starts with
/// `+PONG` makes the handshake fail: be the answer a whole line, or the end
/// of the stream.
pub proof fn lemma_ping_is_strict(port: u32, answer: Seq<u8>)
    requires
        answer.len() == 0 || line_end(answer) is Some,
        !text("+PONG").is_prefix_of(answer),
    ensures
        advance(opening(port), answer) == failed(opening(port), HandshakeError::PingRefused),
{
    let expected = text("+PONG");
    assert(Seq::<u8>::empty() + answer =~= answer);
    if answer.len() > 0 && agrees(answer, expected) {
        lemma_line_end_some(answer);
        let e = line_end(answer)->Some_0;
        if e >= expected.len() {
            assert(answer.subrange(0, expected.len() as int) =~= expected);
        }
    }
}

/// The request that a primary passes on for a write is read as that write.
pub proof fn lemma_propagated_set_is_set(key: Seq<u8>, value: Seq<u8>)
    ensures
        command_of(bulk_array(seq![text("SET"), key, value])) == (CommandView::SetValue {
            key,
            value,
            ttl: None,
        }),
{
    let words = seq![text("SET"), key, value];
    let frame = bulk_array(words);
    let items = frame->Array_0;
    assert(words_of(frame) == Some(Seq::new(items.len(), |i: int| items[i]->BulkString_0)));
    let w = words_of(frame)->Some_0;
    assert(w =~= words);
    reveal_strlit("SET");
    reveal_strlit("set");
    reveal_strlit("ping");
    reveal_strlit("echo");
    assert(is_ascii("SET") && is_ascii("set") && is_ascii("ping") && is_ascii("echo"));
    is_ascii_spec_bytes("SET");
    is_ascii_spec_bytes("set");
    is_ascii_spec_bytes("ping");
    is_ascii_spec_bytes("echo");
    assert(text("SET").len() == 3 && text("set").len() == 3);
    assert(text("ping").len() == 4 && text("echo").len() == 4);
    assert(same_word(text("SET"), text("set")));
    assert(command_of_words(w) == (CommandView::SetValue { key, value, ttl: None }));
}

/// What a primary passes on for a write decodes to one request, whole.
proof fn lemma_propagated_set_decodes(key: Seq<u8>, value: Seq<u8>)
    requires
        key.len() <= u64::MAX,
        value.len() <= u64::MAX,
    ensures
        parse_stream(propagated_set(key, value)) == (
            seq![bulk_array(seq![text("SET"), key, value])],
            propagated_set(key, value).len() as int,
            DecodeError::NeedMore,
        ),
        propagated_set(key, value).len() > 0,
{
    let frame = bulk_array(seq![text("SET"), key, value]);
    let frames = seq![frame];
    assert(decodable(frame)) by {
        reveal_strlit("SET");
        assert(is_ascii("SET"));
        is_ascii_spec_bytes("SET");
        assert(text("SET").len() == 3);
        let items = frame->Array_0;
        assert forall|i: int| 0 <= i < items.len() implies decodable(#[trigger] items[i]) by {}
    }
    lemma_decode_pipeline(frames);
    assert(wire_all(frames) =~= wire(frame)) by {
        assert(frames.skip(1) =~= Seq::<Frame>::empty());
        assert(wire_all(frames.skip(1)) =~= Seq::<u8>::empty());
    }
}

/// A secondary that is handed the request for a write on the connection to
/// its primary stores the value, and owes no write.
proof fn lemma_secondary_serves_set(
    entries: Seq<Entry>,
    config: Config,
    key: Seq<u8>,
    value: Seq<u8>,
    now: u64,
)
    requires
        config.role == Role::Slave,
    ensures
        serve(seq![bulk_array(seq![text("SET"), key, value])], entries, config, now, true) == (
            Served {
                entries: put(
                    entries,
                    key,
                    ItemView { value, expires: None, created: now },
                ),
                writes: Seq::empty(),
                last: Some(CommandView::SetValue { key, value, ttl: None }),
                promoted: false,
            }
        ),
{
    let frame = bulk_array(seq![text("SET"), key, value]);
    let frames = seq![frame];
    lemma_propagated_set_is_set(key, value);
    let command = CommandView::SetValue { key, value, ttl: None };
    assert(command_of(frames[0]) == command);
    let (next, outcome) = respond(entries, config, command, now);
    assert(outcome.propagate is None);
    assert(writes_of(outcome, true) =~= Seq::<WriteView>::empty());
    assert(frames.skip(1) =~= Seq::<Frame>::empty());
    let rest = serve(frames.skip(1), next, config, now, true);
    assert(rest.writes =~= Seq::<WriteView>::empty());
    assert(writes_of(outcome, true) + rest.writes =~= Seq::<WriteView>::empty());
}

/// A write that a primary serves reaches the store of a secondary: what the
/// primary passes on, read on the connection on which the secondary receives
/// the writes of its primary, stores the value under the key there, and the
/// secondary sends nothing back.
pub proof fn lemma_write_reaches_secondary(
    primary: Seq<Entry>,
    primary_config: Config,
    secondary: Seq<Entry>,
    secondary_config: Config,
    key: Seq<u8>,
    value: Seq<u8>,
    ttl: Option<u64>,
    served_at: u64,
    received_at: u64,
)
    requires
        primary_config.role == Role::Master,
        secondary_config.role == Role::Slave,
        distinct_keys(secondary),
        key.len() <= u64::MAX,
        value.len() <= u64::MAX,
    ensures
        ({
            let outcome = respond(
                primary,
                primary_config,
                CommandView::SetValue { key, value, ttl },
                served_at,
            ).1;
            let link = SessionView {
                buffer: Seq::empty(),
                last_command: CommandView::Unknown,
                silent: true,
                status: Status::Open,
            };
            let (after, store, writes) = turn(
                link,
                propagated_set(key, value),
                secondary,
                secondary_config,
                received_at,
            );
            &&& outcome.propagate == Some(propagated_set(key, value))
            &&& outcome.reply == Some(ok_reply())
            &&& lookup(store, key) == Some(
                ItemView { value, expires: None, created: received_at },
            )
            &&& distinct_keys(store)
            &&& writes == Seq::<WriteView>::empty()
            &&& after.status == Status::Open
            &&& after.buffer == Seq::<u8>::empty()
        }),
{
    let bytes = propagated_set(key, value);
    lemma_propagated_set_decodes(key, value);
    lemma_secondary_serves_set(secondary, secondary_config, key, value, received_at);
    lemma_put(secondary, key, ItemView { value, expires: None, created: received_at });
    assert(Seq::<u8>::empty() + bytes =~= bytes);
    assert(bytes.skip(bytes.len() as int) =~= Seq::<u8>::empty());
}

} // verus!
