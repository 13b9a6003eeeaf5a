//! A connection: what it has read and not yet decoded, and what the server
//! owes after each read.

use crate::bytes::{copy_bytes, push_bytes};
use crate::command::{
    command_of, handle_command, respond, Command, CommandView, Outcome, OutcomeView,
};
use crate::config::Config;
use crate::database::{Database, Entry};
use crate::framing::{lemma_broken_stream_is_final, lemma_split_stream, lemma_stream_used};
use crate::resp::{
    frames_view, parse_messages, parse_stream, DecodeError, Frame, RespType,
};
use vstd::prelude::*;
use vstd::slice::slice_subrange;

verus! {

/// Where a connection stands.
#[derive(Debug, Clone, Copy, PartialEq, Eq, Structural)]
pub enum Status {
    /// The connection is served.
    Open,
    /// The peer has closed the connection.
    Ended,
    /// The peer sent bytes that are no frame; the connection is to be closed.
    Broken(DecodeError),
    /// `PSYNC` was served: the connection is a replica's now, and belongs in
    /// the replica registry.
    Promoted,
}

/// The mathematical value of a write: what [`Write`] is a view of.
pub enum WriteView {
    Reply(Seq<u8>),
    Propagate(Seq<u8>),
}

/// Bytes that the server is to send.
#[derive(Debug, Clone, PartialEq, Eq)]
pub enum Write {
    /// To the peer of this connection.
    Reply(Vec<u8>),
    /// To every replica in the registry.
    Propagate(Vec<u8>),
}

impl View for Write {
    type V = WriteView;

    open spec fn view(&self) -> WriteView {
        match self {
            Write::Reply(bytes) => WriteView::Reply(bytes@),
            Write::Propagate(bytes) => WriteView::Propagate(bytes@),
        }
    }
}

/// The views of writes, in order.
pub open spec fn writes_view(writes: Seq<Write>) -> Seq<WriteView> {
    Seq::new(writes.len(), |i: int| writes[i]@)
}

/// The writes that an outcome asks for: first what goes to the replicas,
/// then the reply, which a silent connection does not send.
pub open spec fn writes_of(outcome: OutcomeView, silent: bool) -> Seq<WriteView> {
    (match outcome.propagate {
        Some(bytes) => seq![WriteView::Propagate(bytes)],
        None => Seq::empty(),
    }) + (match outcome.reply {
        Some(bytes) => if silent {
            Seq::empty()
        } else {
            seq![WriteView::Reply(bytes)]
        },
        None => Seq::empty(),
    })
}

/// What serving some frames comes to.
pub struct Served {
    /// The store after them.
    pub entries: Seq<Entry>,
    /// The writes that they ask for, in order.
    pub writes: Seq<WriteView>,
    /// The last command that was served, if any was.
    pub last: Option<CommandView>,
    /// `PSYNC` was served.
    pub promoted: bool,
}

/// `writes` and `last`, and after them what `rest` comes to.
pub open spec fn and_then(
    writes: Seq<WriteView>,
    last: Option<CommandView>,
    rest: Served,
) -> Served {
    Served {
        entries: rest.entries,
        writes: writes + rest.writes,
        last: if rest.last is Some {
            rest.last
        } else {
            last
        },
        promoted: rest.promoted,
    }
}

/// What serving `frames` in turn comes to, when the clock reads `now`. Each
/// frame is read as a command and served; nothing is served after `PSYNC`.
pub open spec fn serve(
    frames: Seq<Frame>,
    entries: Seq<Entry>,
    config: Config,
    now: u64,
    silent: bool,
) -> Served
    decreases frames.len(),
{
    if frames.len() == 0 {
        Served { entries, writes: Seq::empty(), last: None, promoted: false }
    } else {
        let command = command_of(frames[0]);
        let (next, outcome) = respond(entries, config, command, now);
        and_then(
            writes_of(outcome, silent),
            Some(command),
            if outcome.promote {
                Served { entries: next, writes: Seq::empty(), last: None, promoted: true }
            } else {
                serve(frames.skip(1), next, config, now, silent)
            },
        )
    }
}

/// The mathematical value of a session: what [`Session`] is a view of.
pub struct SessionView {
    pub buffer: Seq<u8>,
    pub last_command: CommandView,
    pub silent: bool,
    pub status: Status,
}

/// The state of a connection.
///
/// `buffer` holds the bytes that were read and belong to no complete frame
/// yet. A silent connection is the one on which a secondary receives the
/// writes of its primary: commands on it are served, and no reply is sent.
#[derive(Debug)]
pub struct Session {
    buffer: Vec<u8>,
    last_command: Command,
    silent: bool,
    status: Status,
}

impl View for Session {
    type V = SessionView;

    closed spec fn view(&self) -> SessionView {
        SessionView {
            buffer: self.buffer@,
            last_command: self.last_command@,
            silent: self.silent,
            status: self.status,
        }
    }
}

/// What a read of `chunk` makes of a session and of the store, and the writes
/// that the server owes after it.
///
/// A session that is not open stays as it is. An empty read ends it. Any
/// other read is decoded together with what the session had kept; the frames
/// that are complete are served; the session keeps what follows them. It is
/// promoted if `PSYNC` was served, broken if the bytes that follow are no
/// frame, and open otherwise.
pub open spec fn turn(
    session: SessionView,
    chunk: Seq<u8>,
    entries: Seq<Entry>,
    config: Config,
    now: u64,
) -> (SessionView, Seq<Entry>, Seq<WriteView>) {
    if session.status != Status::Open {
        (session, entries, Seq::empty())
    } else if chunk.len() == 0 {
        (SessionView { status: Status::Ended, ..session }, entries, Seq::empty())
    } else {
        let all = session.buffer + chunk;
        let (frames, used, stop) = parse_stream(all);
        let served = serve(frames, entries, config, now, session.silent);
        (
            SessionView {
                buffer: all.skip(used),
                last_command: match served.last {
                    Some(command) => command,
                    None => session.last_command,
                },
                silent: session.silent,
                status: if served.promoted {
                    Status::Promoted
                } else if stop != DecodeError::NeedMore {
                    Status::Broken(stop)
                } else {
                    Status::Open
                },
            },
            served.entries,
            served.writes,
        )
    }
}

impl Session {
    /// The session of a connection on which nothing was read yet, held by
    /// `kept` where bytes of it came with something else.
    pub fn new(kept: Vec<u8>, silent: bool) -> (session: Session)
        ensures
            session@ == (SessionView {
                buffer: kept@,
                last_command: CommandView::Unknown,
                silent,
                status: Status::Open,
            }),
    {
        Session { buffer: kept, last_command: Command::Unknown, silent, status: Status::Open }
    }

    /// Where the connection stands.
    pub fn status(&self) -> (status: Status)
        ensures
            status == self@.status,
    {
        self.status
    }

    /// The last command that was served on the connection.
    pub fn last_command(&self) -> (command: &Command)
        ensures
            command@ == self@.last_command,
    {
        &self.last_command
    }

    /// The number of bytes that the session keeps for the next read.
    pub fn pending(&self) -> (n: usize)
        ensures
            n == self@.buffer.len(),
    {
        self.buffer.len()
    }
}

/// Serves the frames in turn: see [`serve`]. Returns the writes, the last
/// command that was served, and whether `PSYNC` was.
fn serve_frames(frames: &Vec<RespType>, db: &mut Database, now: u64, silent: bool) -> (r: (
    Vec<Write>,
    Option<Command>,
    bool,
))
    ensures
        ({
            let served = serve(
                frames_view(frames@),
                old(db)@,
                old(db).settings(),
                now,
                silent,
            );
            &&& final(db)@ == served.entries
            &&& writes_view(r.0@) == served.writes
            &&& match served.last {
                Some(command) => r.1 matches Some(c) && c@ == command,
                None => r.1 is None,
            }
            &&& r.2 == served.promoted
        }),
        final(db).settings() == old(db).settings(),
{
    let ghost all = frames_view(frames@);
    let ghost config = db.settings();
    let ghost start = db@;
    let mut writes: Vec<Write> = Vec::new();
    let mut last: Option<Command> = None;
    let mut promoted = false;
    let mut i: usize = 0;
    proof {
        assert(all.skip(0) =~= all);
        assert(writes_view(writes@) =~= Seq::<WriteView>::empty());
        let rest = serve(all, start, config, now, silent);
        assert(Seq::<WriteView>::empty() + rest.writes =~= rest.writes);
    }
    while i < frames.len() && !promoted
        invariant
            0 <= i <= frames.len(),
            all == frames_view(frames@),
            db.settings() == config,
            serve(all, start, config, now, silent) == and_then(
                writes_view(writes@),
                match last {
                    Some(c) => Some(c@),
                    None => None,
                },
                if promoted {
                    Served { entries: db@, writes: Seq::empty(), last: None, promoted: true }
                } else {
                    serve(all.skip(i as int), db@, config, now, silent)
                },
            ),
        decreases frames.len() - i + if promoted { 0int } else { 1int },
    {
        let ghost before = db@;
        let ghost sent = writes_view(writes@);
        let command = Command::from_frame(&frames[i]);
        assert(all.skip(i as int)[0] == frames@[i as int]@);
        let Outcome { reply, propagate, promote } = handle_command(&command, db, now);
        let ghost outcome = respond(before, config, command@, now).1;
        match propagate {
            Some(bytes) => {
                writes.push(Write::Propagate(bytes));
            },
            None => {},
        }
        if !silent {
            match reply {
                Some(bytes) => {
                    writes.push(Write::Reply(bytes));
                },
                None => {},
            }
        }
        proof {
            assert(writes_view(writes@) =~= sent + writes_of(outcome, silent));
            assert(all.skip(i as int).skip(1) =~= all.skip(i + 1));
            let rest = if promote {
                Served { entries: db@, writes: Seq::empty(), last: None, promoted: true }
            } else {
                serve(all.skip(i + 1), db@, config, now, silent)
            };
            assert(sent + (writes_of(outcome, silent) + rest.writes) =~= sent + writes_of(
                outcome,
                silent,
            ) + rest.writes);
        }
        promoted = promote;
        last = Some(command);
        i = i + 1;
    }
    proof {
        assert(writes_view(writes@) + Seq::<WriteView>::empty() =~= writes_view(writes@));
        if !promoted {
            assert(all.skip(i as int) =~= Seq::<Frame>::empty());
        }
    }
    (writes, last, promoted)
}

/// Takes a read of `chunk` on a connection when the clock reads `now`, and
/// returns the writes that the server owes after it, in order: see [`turn`].
///
/// An empty `chunk` is the end of the stream.
pub fn handle_client(session: &mut Session, chunk: &[u8], db: &mut Database, now: u64) -> (writes:
    Vec<Write>)
    ensures
        (final(session)@, final(db)@, writes_view(writes@)) == turn(
            old(session)@,
            chunk@,
            old(db)@,
            old(db).settings(),
            now,
        ),
        final(db).settings() == old(db).settings(),
{
    match session.status {
        Status::Open => {},
        _ => {
            let writes: Vec<Write> = Vec::new();
            assert(writes_view(writes@) =~= Seq::<WriteView>::empty());
            return writes;
        },
    }
    if chunk.len() == 0 {
        session.status = Status::Ended;
        let writes: Vec<Write> = Vec::new();
        assert(writes_view(writes@) =~= Seq::<WriteView>::empty());
        return writes;
    }
    push_bytes(&mut session.buffer, chunk);
    let decoded = parse_messages(session.buffer.as_slice());
    let (writes, last, promoted) = serve_frames(&decoded.frames, db, now, session.silent);
    let kept = copy_bytes(
        slice_subrange(session.buffer.as_slice(), decoded.consumed, session.buffer.len()),
    );
    assert(kept@ =~= (old(session)@.buffer + chunk@).skip(decoded.consumed as int));
    session.buffer = kept;
    match last {
        Some(command) => {
            session.last_command = command;
        },
        None => {},
    }
    session.status = if promoted {
        Status::Promoted
    } else {
        match decoded.stop {
            DecodeError::NeedMore => Status::Open,
            _ => Status::Broken(decoded.stop),
        }
    };
    writes
}

/// Serving frames, and then more frames, is serving them all in a row, as
/// long as `PSYNC` is not among the first.
pub proof fn lemma_serve_in_two(
    first: Seq<Frame>,
    second: Seq<Frame>,
    entries: Seq<Entry>,
    config: Config,
    now: u64,
    silent: bool,
)
    ensures
        ({
            let served = serve(first, entries, config, now, silent);
            serve(first + second, entries, config, now, silent) == if served.promoted {
                served
            } else {
                and_then(
                    served.writes,
                    served.last,
                    serve(second, served.entries, config, now, silent),
                )
            }
        }),
    decreases first.len(),
{
    let all = first + second;
    if first.len() == 0 {
        assert(all =~= second);
        let rest = serve(second, entries, config, now, silent);
        assert(Seq::<WriteView>::empty() + rest.writes =~= rest.writes);
    } else {
        let command = command_of(first[0]);
        assert(all[0] == first[0]);
        assert(all.skip(1) =~= first.skip(1) + second);
        let (next, outcome) = respond(entries, config, command, now);
        if !outcome.promote {
            lemma_serve_in_two(first.skip(1), second, next, config, now, silent);
            let served = serve(first.skip(1), next, config, now, silent);
            if !served.promoted {
                let rest = serve(second, served.entries, config, now, silent);
                let w = writes_of(outcome, silent);
                assert(w + (served.writes + rest.writes) =~= (w + served.writes) + rest.writes);
            }
        }
    }
}

/// What the server does on a connection does not depend on where a read
/// ends: two reads in a row, at one reading of the clock, come to the same
/// store, the same writes in the same order and the same standing of the
/// connection as one read of the bytes of both; and a connection that is
/// still open keeps the same bytes.
pub proof fn lemma_turn_in_two(
    session: SessionView,
    a: Seq<u8>,
    b: Seq<u8>,
    entries: Seq<Entry>,
    config: Config,
    now: u64,
)
    requires
        a.len() > 0,
        b.len() > 0,
    ensures
        ({
            let (mid, stored, first) = turn(session, a, entries, config, now);
            let (after, left, second) = turn(mid, b, stored, config, now);
            let (once, at_once, writes) = turn(session, a + b, entries, config, now);
            &&& at_once == left
            &&& writes == first + second
            &&& once.status == after.status
            &&& once.last_command == after.last_command
            &&& once.silent == after.silent
            &&& once.status == Status::Open ==> once.buffer == after.buffer
        }),
{
    let (mid, stored, first) = turn(session, a, entries, config, now);
    let (after, left, second) = turn(mid, b, stored, config, now);
    if session.status != Status::Open {
        assert(first + second =~= Seq::<WriteView>::empty());
    } else {
        let kept = session.buffer;
        let all_a = kept + a;
        let all = kept + (a + b);
        assert(all =~= all_a + b);
        let (frames_a, used_a, stop_a) = parse_stream(all_a);
        let served_a = serve(frames_a, entries, config, now, session.silent);
        lemma_split_stream(all_a, b);
        lemma_stream_used(all_a);
        let (frames_b, used_b, stop_b) = parse_stream(all_a.skip(used_a) + b);
        lemma_serve_in_two(frames_a, frames_b, entries, config, now, session.silent);
        if served_a.promoted {
            assert(first + second =~= first);
        } else if stop_a != DecodeError::NeedMore {
            lemma_broken_stream_is_final(all_a, b);
            assert(first + second =~= first);
        } else {
            lemma_stream_used(all_a.skip(used_a) + b);
            assert(all.skip(used_a + used_b) =~= (all_a.skip(used_a) + b).skip(used_b));
        }
    }
}

} // verus!
