use redis_kv::command::{
    handle_command, handle_config_get, handle_get, handle_info, handle_keys, handle_psync,
    handle_set, Command, Outcome,
};
use redis_kv::config::{Config, Role};
use redis_kv::database::Database;
use redis_kv::resp::{parse_messages, RespType};
use redis_kv::snapshot::empty_rdb;

fn b(s: &str) -> Vec<u8> {
    s.as_bytes().to_vec()
}

fn request(words: &[&str]) -> Vec<RespType> {
    vec![RespType::Array(words.iter().map(|w| RespType::BulkString(b(w))).collect())]
}

fn primary() -> Database {
    Database::new(Config::new(None, None, Role::Master, 6379, None).unwrap())
}

fn secondary() -> Database {
    Database::new(Config::new(None, None, Role::Slave, 6380, Some(b("localhost 6379"))).unwrap())
}

fn with_snapshot() -> Database {
    Database::new(
        Config::new(Some(b("/tmp/data")), Some(b("dump.rdb")), Role::Master, 6379, None).unwrap(),
    )
}

fn reply(bytes: &[u8]) -> Outcome {
    Outcome { reply: Some(bytes.to_vec()), propagate: None, promote: false }
}

fn command_from_wire(bytes: &[u8]) -> Command {
    let decoded = parse_messages(bytes);
    assert_eq!(decoded.consumed, bytes.len());
    assert_eq!(decoded.frames.len(), 1);
    Command::from_resp(decoded.frames)
}

#[test]
fn ping_is_read() {
    assert_eq!(Command::from_resp(request(&["PING"])), Command::Ping);
    assert_eq!(Command::from_resp(request(&["ping"])), Command::Ping);
    assert_eq!(Command::from_resp(request(&["PiNg"])), Command::Ping);
    assert_eq!(Command::from_resp(request(&["PING", "extra"])), Command::Unknown);
}

#[test]
fn echo_is_read() {
    assert_eq!(Command::from_resp(request(&["ECHO", "hey"])), Command::Echo(b("hey")));
    assert_eq!(Command::from_resp(request(&["ECHO"])), Command::Unknown);
    assert_eq!(Command::from_resp(request(&["ECHO", "a", "b"])), Command::Unknown);
}

#[test]
fn set_is_read() {
    assert_eq!(
        Command::from_resp(request(&["SET", "k", "v"])),
        Command::SetValue { key: b("k"), value: b("v"), ttl: None }
    );
    assert_eq!(
        Command::from_resp(request(&["set", "k", "v", "PX", "100"])),
        Command::SetValue { key: b("k"), value: b("v"), ttl: Some(100) }
    );
    assert_eq!(
        Command::from_resp(request(&["SET", "k", "v", "px", "0"])),
        Command::SetValue { key: b("k"), value: b("v"), ttl: Some(0) }
    );
    assert_eq!(
        Command::from_resp(request(&["SET", "k", "v", "PX", "18446744073709551615"])),
        Command::SetValue { key: b("k"), value: b("v"), ttl: Some(u64::MAX) }
    );
}

#[test]
fn set_of_a_wrong_shape_is_unknown() {
    assert_eq!(Command::from_resp(request(&["SET", "k"])), Command::Unknown);
    assert_eq!(Command::from_resp(request(&["SET"])), Command::Unknown);
    assert_eq!(Command::from_resp(request(&["SET", "k", "v", "PX"])), Command::Unknown);
    assert_eq!(Command::from_resp(request(&["SET", "k", "v", "EX", "100"])), Command::Unknown);
    assert_eq!(Command::from_resp(request(&["SET", "k", "v", "PX", "soon"])), Command::Unknown);
    assert_eq!(Command::from_resp(request(&["SET", "k", "v", "PX", "-5"])), Command::Unknown);
    assert_eq!(Command::from_resp(request(&["SET", "k", "v", "PX", ""])), Command::Unknown);
    assert_eq!(
        Command::from_resp(request(&["SET", "k", "v", "PX", "18446744073709551616"])),
        Command::Unknown
    );
    assert_eq!(
        Command::from_resp(request(&["SET", "k", "v", "PX", "1", "more"])),
        Command::Unknown
    );
}

#[test]
fn get_is_read() {
    assert_eq!(Command::from_resp(request(&["GET", "mykey"])), Command::Get(b("mykey")));
    assert_eq!(Command::from_resp(request(&["GET"])), Command::Unknown);
    assert_eq!(Command::from_resp(request(&["GET", "a", "b"])), Command::Unknown);
}

#[test]
fn config_get_is_read() {
    assert_eq!(
        Command::from_resp(request(&["CONFIG", "GET", "dir"])),
        Command::ConfigGet(b("dir"))
    );
    assert_eq!(
        Command::from_resp(request(&["config", "get", "dbfilename"])),
        Command::ConfigGet(b("dbfilename"))
    );
    assert_eq!(Command::from_resp(request(&["CONFIG", "GET", "port"])), Command::Unknown);
    assert_eq!(Command::from_resp(request(&["CONFIG", "GET", "DIR"])), Command::Unknown);
    assert_eq!(Command::from_resp(request(&["CONFIG", "SET", "dir"])), Command::Unknown);
    assert_eq!(Command::from_resp(request(&["CONFIG", "GET"])), Command::Unknown);
    assert_eq!(Command::from_resp(request(&["CONFIG"])), Command::Unknown);
}

#[test]
fn keys_is_read() {
    assert_eq!(Command::from_resp(request(&["KEYS", "*"])), Command::Keys(b("*")));
    assert_eq!(Command::from_resp(request(&["keys", "a?c"])), Command::Keys(b("a?c")));
    assert_eq!(Command::from_resp(request(&["KEYS"])), Command::Unknown);
}

#[test]
fn info_is_read() {
    assert_eq!(Command::from_resp(request(&["INFO"])), Command::Info);
    assert_eq!(Command::from_resp(request(&["INFO", "replication"])), Command::Info);
    assert_eq!(Command::from_resp(request(&["INFO", "a", "b"])), Command::Unknown);
}

#[test]
fn replconf_is_read() {
    assert_eq!(
        Command::from_resp(request(&["REPLCONF", "listening-port", "6380"])),
        Command::ReplConf(b("listening-port 6380"))
    );
    assert_eq!(
        Command::from_resp(request(&["replconf", "LISTENING-PORT", "1"])),
        Command::ReplConf(b("listening-port 1"))
    );
    assert_eq!(
        Command::from_resp(request(&["REPLCONF", "capa", "psync2"])),
        Command::ReplConf(b("capa psync2"))
    );
    assert_eq!(
        Command::from_resp(request(&["REPLCONF", "CAPA", "PSYNC2"])),
        Command::ReplConf(b("capa psync2"))
    );
    assert_eq!(Command::from_resp(request(&["REPLCONF", "capa", "eof"])), Command::Unknown);
    assert_eq!(Command::from_resp(request(&["REPLCONF", "getack", "*"])), Command::Unknown);
    assert_eq!(Command::from_resp(request(&["REPLCONF", "capa"])), Command::Unknown);
}

#[test]
fn psync_is_read() {
    assert_eq!(Command::from_resp(request(&["PSYNC", "?", "-1"])), Command::PSync);
    assert_eq!(Command::from_resp(request(&["psync", "?", "-1"])), Command::PSync);
    assert_eq!(Command::from_resp(request(&["PSYNC", "abc", "10"])), Command::Unknown);
    assert_eq!(Command::from_resp(request(&["PSYNC"])), Command::Unknown);
}

#[test]
fn what_is_no_request_is_unknown() {
    assert_eq!(Command::from_resp(vec![]), Command::Unknown);
    assert_eq!(Command::from_resp(vec![RespType::Array(vec![])]), Command::Unknown);
    assert_eq!(Command::from_resp(vec![RespType::BulkString(b("PING"))]), Command::Unknown);
    assert_eq!(Command::from_resp(vec![RespType::SimpleString(b("PING"))]), Command::Unknown);
    assert_eq!(Command::from_resp(vec![RespType::NullBulkString]), Command::Unknown);
    assert_eq!(
        Command::from_resp(vec![RespType::Array(vec![RespType::SimpleString(b("PING"))])]),
        Command::Unknown
    );
    assert_eq!(
        Command::from_resp(vec![RespType::Array(vec![
            RespType::BulkString(b("ECHO")),
            RespType::NullBulkString,
        ])]),
        Command::Unknown
    );
    assert_eq!(Command::from_resp(request(&["FLUSHALL"])), Command::Unknown);
    assert_eq!(Command::from_resp(request(&[""])), Command::Unknown);
    assert_eq!(Command::from_resp(request(&["PINGS"])), Command::Unknown);
}

#[test]
fn only_the_first_frame_is_read() {
    let mut frames = request(&["PING"]);
    frames.extend(request(&["GET", "k"]));
    assert_eq!(Command::from_resp(frames), Command::Ping);
}

#[test]
fn from_frame_reads_a_frame() {
    let frames = request(&["ECHO", "x"]);
    assert_eq!(Command::from_frame(&frames[0]), Command::Echo(b("x")));
}

#[test]
fn ping_over_the_wire() {
    let mut db = primary();
    let command = command_from_wire(b"*1\r\n$4\r\nPING\r\n");
    assert_eq!(handle_command(&command, &mut db, 0), reply(b"+PONG\r\n"));
}

#[test]
fn set_then_get_over_the_wire() {
    let mut db = primary();
    let set = command_from_wire(b"*3\r\n$3\r\nSET\r\n$5\r\nmykey\r\n$7\r\nmyvalue\r\n");
    let get = command_from_wire(b"*2\r\n$3\r\nGET\r\n$5\r\nmykey\r\n");
    let first = handle_command(&set, &mut db, 10);
    assert_eq!(first.reply, Some(b"+OK\r\n".to_vec()));
    assert_eq!(handle_command(&get, &mut db, 20), reply(b"$7\r\nmyvalue\r\n"));
    assert_eq!(handle_command(&get, &mut db, u64::MAX), reply(b"$7\r\nmyvalue\r\n"));
}

#[test]
fn set_with_expiry_over_the_wire() {
    let mut db = primary();
    let set = command_from_wire(b"*5\r\n$3\r\nSET\r\n$1\r\nk\r\n$1\r\nv\r\n$2\r\nPX\r\n$3\r\n100\r\n");
    let get = command_from_wire(b"*2\r\n$3\r\nGET\r\n$1\r\nk\r\n");
    assert_eq!(handle_command(&set, &mut db, 1_000).reply, Some(b"+OK\r\n".to_vec()));
    assert_eq!(handle_command(&get, &mut db, 1_050), reply(b"$1\r\nv\r\n"));
    assert_eq!(handle_command(&get, &mut db, 1_150), reply(b"$-1\r\n"));
}

#[test]
fn value_is_gone_exactly_when_its_time_is_up() {
    let mut db = primary();
    handle_set(&b("k"), &b("v"), &Some(100), &mut db, 1_000);
    assert_eq!(handle_get(&b("k"), &mut db, 1_000), reply(b"$1\r\nv\r\n"));
    assert_eq!(handle_get(&b("k"), &mut db, 1_099), reply(b"$1\r\nv\r\n"));
    assert_eq!(db.len(), 1);
    assert_eq!(handle_get(&b("k"), &mut db, 1_100), reply(b"$-1\r\n"));
    assert_eq!(db.len(), 0);
    assert_eq!(handle_get(&b("k"), &mut db, 1_050), reply(b"$-1\r\n"));
}

#[test]
fn info_on_primary() {
    let mut db = primary();
    let info = command_from_wire(b"*1\r\n$4\r\nINFO\r\n");
    let outcome = handle_command(&info, &mut db, 0);
    let bytes = outcome.reply.unwrap();
    let decoded = parse_messages(&bytes);
    assert_eq!(decoded.consumed, bytes.len());
    let body = match &decoded.frames[0] {
        RespType::BulkString(body) => String::from_utf8(body.clone()).unwrap(),
        _ => panic!("INFO replies with a bulk string"),
    };
    let id = "8371b4fb1155b71f4a04d3e1bc3e18c4a990aeeb";
    assert_eq!(body, format!("role:master\nmaster_replid:{}\nmaster_repl_offset:0", id));
    let lines: Vec<&str> = body.split('\n').collect();
    assert_eq!(lines.len(), 3);
    let replid = lines[1].strip_prefix("master_replid:").unwrap();
    assert_eq!(replid.len(), 40);
    assert!(replid.bytes().all(|c| c.is_ascii_hexdigit()));
}

#[test]
fn info_on_secondary() {
    let db = secondary();
    let id = "8371b4fb1155b71f4a04d3e1bc3e18c4a990aeeb";
    let body = format!("role:slave\nmaster_replid:{}\nmaster_repl_offset:0", id);
    let expected = format!("${}\r\n{}\r\n", body.len(), body);
    assert_eq!(handle_info(&db), reply(expected.as_bytes()));
}

#[test]
fn echo_replies_with_the_message() {
    let mut db = primary();
    assert_eq!(
        handle_command(&Command::Echo(b("hello")), &mut db, 0),
        reply(b"$5\r\nhello\r\n")
    );
}

#[test]
fn unknown_command_gets_an_error_and_nothing_else() {
    let mut db = primary();
    assert_eq!(
        handle_command(&Command::Unknown, &mut db, 0),
        reply(b"+-ERR Unknown command\r\n")
    );
    assert_eq!(db.len(), 0);
}

#[test]
fn replconf_is_acknowledged() {
    let mut db = primary();
    assert_eq!(
        handle_command(&Command::ReplConf(b("listening-port 6380")), &mut db, 0),
        reply(b"+OK\r\n")
    );
    assert_eq!(
        handle_command(&Command::ReplConf(b("capa psync2")), &mut db, 0),
        reply(b"+OK\r\n")
    );
}

#[test]
fn get_of_a_missing_key() {
    let mut db = primary();
    assert_eq!(handle_get(&b("nothing"), &mut db, 5), reply(b"$-1\r\n"));
}

#[test]
fn set_replaces_the_value_and_its_time() {
    let mut db = primary();
    handle_set(&b("k"), &b("old"), &Some(10), &mut db, 0);
    handle_set(&b("k"), &b("new"), &None, &mut db, 5);
    assert_eq!(handle_get(&b("k"), &mut db, 1_000_000), reply(b"$3\r\nnew\r\n"));
    assert_eq!(db.len(), 1);
}

#[test]
fn primary_passes_a_write_on_without_its_time_to_live() {
    let mut db = primary();
    let outcome = handle_set(&b("foo"), &b("bar"), &Some(100), &mut db, 0);
    assert_eq!(
        outcome,
        Outcome {
            reply: Some(b"+OK\r\n".to_vec()),
            propagate: Some(b"*3\r\n$3\r\nSET\r\n$3\r\nfoo\r\n$3\r\nbar\r\n".to_vec()),
            promote: false,
        }
    );
}

#[test]
fn secondary_passes_nothing_on() {
    let mut db = secondary();
    let outcome = handle_set(&b("foo"), &b("bar"), &None, &mut db, 0);
    assert_eq!(outcome, reply(b"+OK\r\n"));
    assert_eq!(handle_get(&b("foo"), &mut db, 1), reply(b"$3\r\nbar\r\n"));
}

#[test]
fn config_get_replies_with_name_and_value() {
    let db = with_snapshot();
    assert_eq!(
        handle_config_get(&b("dir"), &db),
        reply(b"*2\r\n$3\r\ndir\r\n$9\r\n/tmp/data\r\n")
    );
    assert_eq!(
        handle_config_get(&b("dbfilename"), &db),
        reply(b"*2\r\n$10\r\ndbfilename\r\n$8\r\ndump.rdb\r\n")
    );
}

#[test]
fn config_get_without_a_value_replies_nothing() {
    let none = Outcome { reply: None, propagate: None, promote: false };
    assert_eq!(handle_config_get(&b("dir"), &primary()), none);
    assert_eq!(handle_config_get(&b("dbfilename"), &primary()), none);
    assert_eq!(handle_config_get(&b("port"), &with_snapshot()), none);
}

#[test]
fn keys_lists_every_key() {
    let mut db = primary();
    assert_eq!(handle_keys(&db), reply(b"*0\r\n"));
    let names = ["delta", "alpha", "charlie", "bravo"];
    for name in names {
        handle_set(&b(name), &b("x"), &None, &mut db, 0);
    }
    handle_set(&b("alpha"), &b("y"), &None, &mut db, 1);
    let bytes = handle_command(&Command::Keys(b("*")), &mut db, 2).reply.unwrap();
    let decoded = parse_messages(&bytes);
    let mut listed: Vec<Vec<u8>> = match &decoded.frames[0] {
        RespType::Array(items) => items
            .iter()
            .map(|item| match item {
                RespType::BulkString(key) => key.clone(),
                _ => panic!("KEYS replies with bulk strings"),
            })
            .collect(),
        _ => panic!("KEYS replies with an array"),
    };
    assert_eq!(listed.len(), 4);
    listed.sort();
    assert_eq!(listed, vec![b("alpha"), b("bravo"), b("charlie"), b("delta")]);
    assert_eq!(
        handle_keys(&db),
        reply(b"*4\r\n$5\r\ndelta\r\n$5\r\nalpha\r\n$7\r\ncharlie\r\n$5\r\nbravo\r\n")
    );
}

#[test]
fn keys_ignores_the_pattern() {
    let mut db = primary();
    handle_set(&b("one"), &b("1"), &None, &mut db, 0);
    assert_eq!(
        handle_command(&Command::Keys(b("zzz*")), &mut db, 0),
        reply(b"*1\r\n$3\r\none\r\n")
    );
}

#[test]
fn psync_replies_with_the_snapshot_and_promotes() {
    let db = primary();
    let outcome = handle_psync(&db);
    let snapshot = empty_rdb();
    assert_eq!(snapshot.len(), 88);
    let mut expected = b"+FULLRESYNC 8371b4fb1155b71f4a04d3e1bc3e18c4a990aeeb 0\r\n$88\r\n".to_vec();
    expected.extend_from_slice(&snapshot);
    assert_eq!(outcome, Outcome { reply: Some(expected), propagate: None, promote: true });
    let bytes = outcome.reply.unwrap();
    assert_eq!(&bytes[bytes.len() - 88..bytes.len() - 79], b"REDIS0011");
    assert!(!bytes.ends_with(b"\r\n"));
}

#[test]
fn empty_snapshot_is_the_decoded_hexadecimal_text() {
    let snapshot = empty_rdb();
    assert_eq!(snapshot.len(), 88);
    assert_eq!(&snapshot[..9], b"REDIS0011");
    assert_eq!(snapshot[9], 0xfa);
    assert_eq!(snapshot[79], 0xff);
    assert_eq!(&snapshot[80..], &[0xf0, 0x6e, 0x3b, 0xfe, 0xc0, 0xff, 0x5a, 0xa2]);
}
