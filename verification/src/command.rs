//! The commands that the server understands, and how a frame is read as one.

use crate::bytes::{bytes_of, copy_bytes, is_text, is_word, push_bytes, same_word, text};
use crate::config::{Config, Role};
use crate::database::{fetch, keys_of, put, Database, Entry, Item, ItemView};
use crate::decimal::{decimal_field, parse_decimal};
use crate::resp::{frames_view, wire, Frame, RespType};
use crate::snapshot::{empty_rdb, empty_snapshot};
use vstd::prelude::*;

verus! {

/// The mathematical value of a command: what [`Command`] is a view of.
pub enum CommandView {
    Ping,
    Echo(Seq<u8>),
    SetValue { key: Seq<u8>, value: Seq<u8>, ttl: Option<u64> },
    Get(Seq<u8>),
    ConfigGet(Seq<u8>),
    Keys(Seq<u8>),
    Info,
    Unknown,
    ReplConf(Seq<u8>),
    PSync,
}

/// A request, as the interpreter understands it.
///
/// `ttl` is a time to live in milliseconds. `ReplConf` holds the option and
/// its value with one space between them. `Unknown` stands for every frame
/// that is none of the others.
#[derive(Debug, Clone, PartialEq, Eq)]
pub enum Command {
    Ping,
    Echo(Vec<u8>),
    SetValue { key: Vec<u8>, value: Vec<u8>, ttl: Option<u64> },
    Get(Vec<u8>),
    ConfigGet(Vec<u8>),
    Keys(Vec<u8>),
    Info,
    Unknown,
    ReplConf(Vec<u8>),
    PSync,
}

impl View for Command {
    type V = CommandView;

    open spec fn view(&self) -> CommandView {
        match self {
            Command::Ping => CommandView::Ping,
            Command::Echo(msg) => CommandView::Echo(msg@),
            Command::SetValue { key, value, ttl } => CommandView::SetValue {
                key: key@,
                value: value@,
                ttl: *ttl,
            },
            Command::Get(key) => CommandView::Get(key@),
            Command::ConfigGet(name) => CommandView::ConfigGet(name@),
            Command::Keys(pattern) => CommandView::Keys(pattern@),
            Command::Info => CommandView::Info,
            Command::Unknown => CommandView::Unknown,
            Command::ReplConf(option) => CommandView::ReplConf(option@),
            Command::PSync => CommandView::PSync,
        }
    }
}

/// Every item is a bulk string.
pub open spec fn all_bulk(items: Seq<Frame>) -> bool {
    forall|i: int| 0 <= i < items.len() ==> #[trigger] items[i] is BulkString
}

/// The words of a request: the contents of the bulk strings of which it is an
/// array. A frame of any other shape, the empty array too, has none.
pub open spec fn words_of(f: Frame) -> Option<Seq<Seq<u8>>> {
    match f {
        Frame::Array(items) => if items.len() > 0 && all_bulk(items) {
            Some(Seq::new(items.len(), |i: int| items[i]->BulkString_0))
        } else {
            None
        },
        _ => None,
    }
}

/// The command that a request of these words is, by its first word without
/// regard to case, the number of words, and their shape.
pub open spec fn command_of_words(w: Seq<Seq<u8>>) -> CommandView
    recommends
        w.len() > 0,
{
    let n = w.len();
    if same_word(w[0], text("ping")) {
        if n == 1 {
            CommandView::Ping
        } else {
            CommandView::Unknown
        }
    } else if same_word(w[0], text("echo")) {
        if n == 2 {
            CommandView::Echo(w[1])
        } else {
            CommandView::Unknown
        }
    } else if same_word(w[0], text("set")) {
        if n == 3 {
            CommandView::SetValue { key: w[1], value: w[2], ttl: None }
        } else if n == 5 && same_word(w[3], text("px")) && decimal_field(w[4]) is Some {
            CommandView::SetValue { key: w[1], value: w[2], ttl: decimal_field(w[4]) }
        } else {
            CommandView::Unknown
        }
    } else if same_word(w[0], text("get")) {
        if n == 2 {
            CommandView::Get(w[1])
        } else {
            CommandView::Unknown
        }
    } else if same_word(w[0], text("config")) {
        if n == 3 && same_word(w[1], text("get")) && (w[2] == text("dir") || w[2] == text(
            "dbfilename",
        )) {
            CommandView::ConfigGet(w[2])
        } else {
            CommandView::Unknown
        }
    } else if same_word(w[0], text("keys")) {
        if n == 2 {
            CommandView::Keys(w[1])
        } else {
            CommandView::Unknown
        }
    } else if same_word(w[0], text("info")) {
        if n == 1 || n == 2 {
            CommandView::Info
        } else {
            CommandView::Unknown
        }
    } else if same_word(w[0], text("replconf")) {
        if n == 3 && same_word(w[1], text("listening-port")) {
            CommandView::ReplConf(text("listening-port ") + w[2])
        } else if n == 3 && same_word(w[1], text("capa")) && same_word(w[2], text("psync2")) {
            CommandView::ReplConf(text("capa psync2"))
        } else {
            CommandView::Unknown
        }
    } else if same_word(w[0], text("psync")) {
        if n == 3 && w[1] == text("?") && w[2] == text("-1") {
            CommandView::PSync
        } else {
            CommandView::Unknown
        }
    } else {
        CommandView::Unknown
    }
}

/// The command that a frame is.
pub open spec fn command_of(f: Frame) -> CommandView {
    match words_of(f) {
        Some(w) => command_of_words(w),
        None => CommandView::Unknown,
    }
}

/// Whether every item is a bulk string.
fn items_all_bulk(items: &Vec<RespType>) -> (r: bool)
    ensures
        r == all_bulk(frames_view(items@)),
{
    let ghost views = frames_view(items@);
    let mut i: usize = 0;
    while i < items.len()
        invariant
            0 <= i <= items.len(),
            views == frames_view(items@),
            forall|j: int| 0 <= j < i ==> #[trigger] views[j] is BulkString,
        decreases items.len() - i,
    {
        match &items[i] {
            RespType::BulkString(_) => {},
            _ => {
                assert(!(views[i as int] is BulkString));
                return false;
            },
        }
        i = i + 1;
    }
    true
}

/// The contents of the bulk string at index `i`.
fn word_at(items: &Vec<RespType>, i: usize) -> (r: &[u8])
    requires
        i < items.len(),
        items@[i as int]@ is BulkString,
    ensures
        r@ == items@[i as int]@->BulkString_0,
{
    match &items[i] {
        RespType::BulkString(bytes) => bytes.as_slice(),
        _ => {
            proof {
                assert(false);
            }
            &[]
        },
    }
}

impl Command {
    /// Reads the first frame of `resp` as a command.
    ///
    /// The frame is a request if it is a non-empty array of bulk strings. Its
    /// first word names the command, in either case; the number of words and
    /// their shape must be those of that command. Whatever else comes, an
    /// empty `resp` too, is `Unknown`.
    pub fn from_resp(resp: Vec<RespType>) -> (command: Command)
        ensures
            command@ == if resp@.len() > 0 {
                command_of(resp@[0]@)
            } else {
                CommandView::Unknown
            },
    {
        if resp.len() == 0 {
            return Command::Unknown;
        }
        Command::from_frame(&resp[0])
    }

    /// Reads a frame as a command: see [`command_of`].
    pub fn from_frame(frame: &RespType) -> (command: Command)
        ensures
            command@ == command_of(frame@),
    {
        let items: &Vec<RespType> = match frame {
            RespType::Array(items) => items,
            _ => {
                return Command::Unknown;
            },
        };
        let ghost views = frame@->Array_0;
        assert(views =~= frames_view(items@));
        if items.len() == 0 || !items_all_bulk(items) {
            return Command::Unknown;
        }
        let ghost w = words_of(frame@)->Some_0;
        let n: usize = items.len();
        let name = word_at(items, 0);
        assert(name@ == w[0]);
        if is_word(name, "ping") {
            if n == 1 {
                Command::Ping
            } else {
                Command::Unknown
            }
        } else if is_word(name, "echo") {
            if n == 2 {
                Command::Echo(copy_bytes(word_at(items, 1)))
            } else {
                Command::Unknown
            }
        } else if is_word(name, "set") {
            if n == 3 {
                Command::SetValue {
                    key: copy_bytes(word_at(items, 1)),
                    value: copy_bytes(word_at(items, 2)),
                    ttl: None,
                }
            } else if n == 5 && is_word(word_at(items, 3), "px") {
                match parse_decimal(word_at(items, 4)) {
                    Some(ms) => Command::SetValue {
                        key: copy_bytes(word_at(items, 1)),
                        value: copy_bytes(word_at(items, 2)),
                        ttl: Some(ms),
                    },
                    None => Command::Unknown,
                }
            } else {
                Command::Unknown
            }
        } else if is_word(name, "get") {
            if n == 2 {
                Command::Get(copy_bytes(word_at(items, 1)))
            } else {
                Command::Unknown
            }
        } else if is_word(name, "config") {
            if n == 3 && is_word(word_at(items, 1), "get") && (is_text(word_at(items, 2), "dir")
                || is_text(word_at(items, 2), "dbfilename")) {
                Command::ConfigGet(copy_bytes(word_at(items, 2)))
            } else {
                Command::Unknown
            }
        } else if is_word(name, "keys") {
            if n == 2 {
                Command::Keys(copy_bytes(word_at(items, 1)))
            } else {
                Command::Unknown
            }
        } else if is_word(name, "info") {
            if n == 1 || n == 2 {
                Command::Info
            } else {
                Command::Unknown
            }
        } else if is_word(name, "replconf") {
            if n == 3 && is_word(word_at(items, 1), "listening-port") {
                let mut option = bytes_of("listening-port ");
                push_bytes(&mut option, word_at(items, 2));
                Command::ReplConf(option)
            } else if n == 3 && is_word(word_at(items, 1), "capa") && is_word(
                word_at(items, 2),
                "psync2",
            ) {
                Command::ReplConf(bytes_of("capa psync2"))
            } else {
                Command::Unknown
            }
        } else if is_word(name, "psync") {
            if n == 3 && is_text(word_at(items, 1), "?") && is_text(word_at(items, 2), "-1") {
                Command::PSync
            } else {
                Command::Unknown
            }
        } else {
            Command::Unknown
        }
    }
}

/// The mathematical value of an outcome: what [`Outcome`] is a view of.
pub struct OutcomeView {
    pub reply: Option<Seq<u8>>,
    pub propagate: Option<Seq<u8>>,
    pub promote: bool,
}

/// What the server owes after a command.
#[derive(Debug, PartialEq, Eq)]
pub struct Outcome {
    /// The bytes to write back on the connection that the command came on.
    pub reply: Option<Vec<u8>>,
    /// The bytes to write to every registered replica, before the reply.
    pub propagate: Option<Vec<u8>>,
    /// The connection leaves the client loop and joins the replica registry
    /// once the reply is written.
    pub promote: bool,
}

impl View for Outcome {
    type V = OutcomeView;

    open spec fn view(&self) -> OutcomeView {
        OutcomeView {
            reply: match self.reply {
                Some(bytes) => Some(bytes@),
                None => None,
            },
            propagate: match self.propagate {
                Some(bytes) => Some(bytes@),
                None => None,
            },
            promote: self.promote,
        }
    }
}

/// An outcome that is a reply and nothing else.
pub open spec fn only_reply(bytes: Seq<u8>) -> OutcomeView {
    OutcomeView { reply: Some(bytes), propagate: None, promote: false }
}

/// An outcome that is nothing at all.
pub open spec fn no_reply() -> OutcomeView {
    OutcomeView { reply: None, propagate: None, promote: false }
}

/// The reply `+OK`.
pub open spec fn ok_reply() -> Seq<u8> {
    wire(Frame::SimpleString(text("OK")))
}

/// The array of bulk strings that holds `words`.
pub open spec fn bulk_array(words: Seq<Seq<u8>>) -> Frame {
    Frame::Array(Seq::new(words.len(), |i: int| Frame::BulkString(words[i])))
}

/// The write that a primary passes on to its replicas: `SET`, the key and the
/// value, without the time to live.
pub open spec fn propagated_set(key: Seq<u8>, value: Seq<u8>) -> Seq<u8> {
    wire(bulk_array(seq![text("SET"), key, value]))
}

/// What `SET` does: the value is stored under the key as an item made at
/// `now`, a primary passes the write on, and the reply is `+OK`.
pub open spec fn set_outcome(
    entries: Seq<Entry>,
    role: Role,
    key: Seq<u8>,
    value: Seq<u8>,
    ttl: Option<u64>,
    now: u64,
) -> (Seq<Entry>, OutcomeView) {
    (
        put(entries, key, ItemView { value, expires: ttl, created: now }),
        OutcomeView {
            reply: Some(ok_reply()),
            propagate: if role == Role::Master {
                Some(propagated_set(key, value))
            } else {
                None
            },
            promote: false,
        },
    )
}

/// What `GET` does: the reply is the value as a bulk string, or the null bulk
/// string where the key has none or its value has outlived its time.
pub open spec fn get_outcome(entries: Seq<Entry>, key: Seq<u8>, now: u64) -> (
    Seq<Entry>,
    OutcomeView,
) {
    let (left, found) = fetch(entries, key, now);
    (
        left,
        only_reply(
            match found {
                Some(value) => wire(Frame::BulkString(value)),
                None => wire(Frame::NullBulkString),
            },
        ),
    )
}

/// What `CONFIG GET` does: the reply is the name and the value of the
/// setting. There is none where the setting has no value, or the name is
/// neither `dir` nor `dbfilename`.
pub open spec fn config_get_outcome(config: Config, name: Seq<u8>) -> OutcomeView {
    let setting = if name == text("dir") {
        config.dir
    } else if name == text("dbfilename") {
        config.dbfilename
    } else {
        None
    };
    match setting {
        Some(value) => only_reply(wire(bulk_array(seq![name, value@]))),
        None => no_reply(),
    }
}

/// What `KEYS` does: the reply holds every key of the store, in the order of
/// its entries.
pub open spec fn keys_outcome(entries: Seq<Entry>) -> OutcomeView {
    only_reply(wire(bulk_array(keys_of(entries))))
}

/// The body of the reply to `INFO`.
pub open spec fn info_text(config: Config) -> Seq<u8> {
    text("role:") + (if config.role == Role::Master {
        text("master")
    } else {
        text("slave")
    }) + text("\nmaster_replid:") + config.repl_id@ + text("\nmaster_repl_offset:0")
}

/// What `INFO` does: the reply tells the role, the replication id and the
/// replication offset, which is 0.
pub open spec fn info_outcome(config: Config) -> OutcomeView {
    only_reply(wire(Frame::BulkString(info_text(config))))
}

/// What `PSYNC` does: the reply is the `FULLRESYNC` line with the replication
/// id and the offset 0, and after it the empty snapshot as a raw payload; the
/// connection then joins the replica registry.
pub open spec fn psync_outcome(config: Config) -> OutcomeView {
    OutcomeView {
        reply: Some(
            wire(Frame::SimpleString(text("FULLRESYNC ") + config.repl_id@ + text(" 0"))) + wire(
                Frame::Rdb(empty_snapshot()),
            ),
        ),
        propagate: None,
        promote: true,
    }
}

/// What a command does to the store when the clock reads `now`, and what the
/// server owes after it.
pub open spec fn respond(entries: Seq<Entry>, config: Config, command: CommandView, now: u64) -> (
    Seq<Entry>,
    OutcomeView,
) {
    match command {
        CommandView::Ping => (entries, only_reply(wire(Frame::SimpleString(text("PONG"))))),
        CommandView::Echo(msg) => (entries, only_reply(wire(Frame::BulkString(msg)))),
        CommandView::SetValue { key, value, ttl } => set_outcome(
            entries,
            config.role,
            key,
            value,
            ttl,
            now,
        ),
        CommandView::Get(key) => get_outcome(entries, key, now),
        CommandView::ConfigGet(name) => (entries, config_get_outcome(config, name)),
        CommandView::Keys(_) => (entries, keys_outcome(entries)),
        CommandView::Info => (entries, info_outcome(config)),
        CommandView::ReplConf(_) => (entries, only_reply(ok_reply())),
        CommandView::PSync => (entries, psync_outcome(config)),
        CommandView::Unknown => (
            entries,
            only_reply(wire(Frame::SimpleString(text("-ERR Unknown command")))),
        ),
    }
}

/// An outcome that is the encoding of `frame` as a reply and nothing else.
fn reply_with(frame: RespType) -> (outcome: Outcome)
    ensures
        outcome@ == only_reply(wire(frame@)),
{
    Outcome { reply: Some(frame.serialize()), propagate: None, promote: false }
}

/// The array of bulk strings that holds `words`.
fn bulk_array_of(words: Vec<Vec<u8>>) -> (frame: RespType)
    ensures
        frame@ == bulk_array(Seq::new(words@.len(), |i: int| words@[i]@)),
{
    let ghost views = Seq::new(words@.len(), |i: int| words@[i]@);
    let mut items: Vec<RespType> = Vec::new();
    let mut words = words;
    let ghost all = words@;
    let mut i: usize = 0;
    let n: usize = words.len();
    while i < n
        invariant
            0 <= i <= n,
            n == all.len(),
            words@.len() == n,
            items@.len() == i,
            views == Seq::new(all.len(), |i: int| all[i]@),
            forall|j: int| i <= j < n ==> words@[j] == all[j],
            forall|j: int| 0 <= j < i ==> (#[trigger] items@[j])@ == Frame::BulkString(views[j]),
        decreases n - i,
    {
        let mut word: Vec<u8> = Vec::new();
        words.set_and_swap(i, &mut word);
        items.push(RespType::BulkString(word));
        i = i + 1;
    }
    let frame = RespType::Array(items);
    assert(frame@->Array_0 =~= bulk_array(views)->Array_0);
    frame
}

/// Serves `SET`: see [`set_outcome`].
pub fn handle_set(
    key: &Vec<u8>,
    value: &Vec<u8>,
    ttl: &Option<u64>,
    db: &mut Database,
    now: u64,
) -> (outcome: Outcome)
    ensures
        (final(db)@, outcome@) == set_outcome(
            old(db)@,
            old(db).settings().role,
            key@,
            value@,
            *ttl,
            now,
        ),
        final(db).settings() == old(db).settings(),
{
    let item = Item::new_at(copy_bytes(value.as_slice()), *ttl, now);
    db.insert(copy_bytes(key.as_slice()), item);
    let propagate = match db.config().role {
        Role::Master => {
            let words: Vec<Vec<u8>> = vec![
                bytes_of("SET"),
                copy_bytes(key.as_slice()),
                copy_bytes(value.as_slice()),
            ];
            let frame = bulk_array_of(words);
            assert(Seq::new(words@.len(), |i: int| words@[i]@) =~= seq![text("SET"), key@, value@]);
            Some(frame.serialize())
        },
        Role::Slave => None,
    };
    Outcome {
        reply: Some(RespType::SimpleString(bytes_of("OK")).serialize()),
        propagate,
        promote: false,
    }
}

/// Serves `GET`: see [`get_outcome`].
pub fn handle_get(key: &Vec<u8>, db: &mut Database, now: u64) -> (outcome: Outcome)
    ensures
        (final(db)@, outcome@) == get_outcome(old(db)@, key@, now),
        final(db).settings() == old(db).settings(),
{
    match db.get_at(key.as_slice(), now) {
        Some(value) => reply_with(RespType::BulkString(value)),
        None => reply_with(RespType::NullBulkString),
    }
}

/// Serves `CONFIG GET`: see [`config_get_outcome`].
pub fn handle_config_get(name: &Vec<u8>, db: &Database) -> (outcome: Outcome)
    ensures
        outcome@ == config_get_outcome(db.settings(), name@),
{
    let config = db.config();
    let setting: &Option<Vec<u8>> = if is_text(name.as_slice(), "dir") {
        &config.dir
    } else if is_text(name.as_slice(), "dbfilename") {
        &config.dbfilename
    } else {
        return Outcome { reply: None, propagate: None, promote: false };
    };
    match setting {
        Some(value) => {
            let words: Vec<Vec<u8>> = vec![
                copy_bytes(name.as_slice()),
                copy_bytes(value.as_slice()),
            ];
            let frame = bulk_array_of(words);
            assert(Seq::new(words@.len(), |i: int| words@[i]@) =~= seq![name@, value@]);
            reply_with(frame)
        },
        None => Outcome { reply: None, propagate: None, promote: false },
    }
}

/// Serves `KEYS`: see [`keys_outcome`].
pub fn handle_keys(db: &Database) -> (outcome: Outcome)
    ensures
        outcome@ == keys_outcome(db@),
{
    let keys = db.keys();
    let frame = bulk_array_of(keys);
    assert(Seq::new(keys@.len(), |i: int| keys@[i]@) =~= keys_of(db@));
    reply_with(frame)
}

/// Serves `INFO`: see [`info_outcome`].
pub fn handle_info(db: &Database) -> (outcome: Outcome)
    ensures
        outcome@ == info_outcome(db.settings()),
{
    let config = db.config();
    let mut body = bytes_of("role:");
    match config.role {
        Role::Master => push_bytes(&mut body, "master".as_bytes()),
        Role::Slave => push_bytes(&mut body, "slave".as_bytes()),
    }
    push_bytes(&mut body, "\nmaster_replid:".as_bytes());
    push_bytes(&mut body, config.repl_id.as_slice());
    push_bytes(&mut body, "\nmaster_repl_offset:0".as_bytes());
    reply_with(RespType::BulkString(body))
}

/// Serves `PSYNC`: see [`psync_outcome`].
pub fn handle_psync(db: &Database) -> (outcome: Outcome)
    ensures
        outcome@ == psync_outcome(db.settings()),
{
    let config = db.config();
    let mut line = bytes_of("FULLRESYNC ");
    push_bytes(&mut line, config.repl_id.as_slice());
    push_bytes(&mut line, " 0".as_bytes());
    let mut reply = RespType::SimpleString(line).serialize();
    RespType::Rdb(empty_rdb()).write_to(&mut reply);
    Outcome { reply: Some(reply), propagate: None, promote: true }
}

/// Serves a command when the clock reads `now`: see [`respond`].
pub fn handle_command(command: &Command, db: &mut Database, now: u64) -> (outcome: Outcome)
    ensures
        (final(db)@, outcome@) == respond(old(db)@, old(db).settings(), command@, now),
        final(db).settings() == old(db).settings(),
{
    match command {
        Command::Ping => reply_with(RespType::SimpleString(bytes_of("PONG"))),
        Command::Echo(msg) => reply_with(RespType::BulkString(copy_bytes(msg.as_slice()))),
        Command::SetValue { key, value, ttl } => handle_set(key, value, ttl, db, now),
        Command::Get(key) => handle_get(key, db, now),
        Command::ConfigGet(name) => handle_config_get(name, db),
        Command::Keys(_) => handle_keys(db),
        Command::Info => handle_info(db),
        Command::ReplConf(_) => reply_with(RespType::SimpleString(bytes_of("OK"))),
        Command::PSync => handle_psync(db),
        Command::Unknown => reply_with(
            RespType::SimpleString(bytes_of("-ERR Unknown command")),
        ),
    }
}

} // verus!
