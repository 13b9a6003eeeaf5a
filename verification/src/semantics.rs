//! What holds of the commands: what a read finds after a write, when a value
//! is gone, and which keys the store lists.

use crate::command::{
    bulk_array, keys_outcome, only_reply, respond, CommandView,
};
use crate::config::Config;
use crate::database::{
    distinct_keys, elapsed, expired, has_key, key_at, keys_of, lemma_delete, lemma_put, lookup,
    put, Entry, ItemView,
};
use crate::resp::{wire, Frame};
use vstd::prelude::*;

verus! {

/// A command and the reading of the clock at which it is served.
pub struct Timed {
    pub command: CommandView,
    pub at: u64,
}

/// The store after the commands of `script` are served in turn.
pub open spec fn run(entries: Seq<Entry>, config: Config, script: Seq<Timed>) -> Seq<Entry>
    decreases script.len(),
{
    if script.len() == 0 {
        entries
    } else {
        respond(
            run(entries, config, script.drop_last()),
            config,
            script.last().command,
            script.last().at,
        ).0
    }
}

/// The command writes under `key`.
pub open spec fn writes_key(command: CommandView, key: Seq<u8>) -> bool {
    command matches CommandView::SetValue { key: k, .. } && k == key
}

/// No command of `script` writes under `key`.
pub open spec fn leaves_key(script: Seq<Timed>, key: Seq<u8>) -> bool {
    forall|i: int| 0 <= i < script.len() ==> !writes_key((#[trigger] script[i]).command, key)
}

/// No command of `script` is served later than `at`.
pub open spec fn all_by(script: Seq<Timed>, at: u64) -> bool {
    forall|i: int| 0 <= i < script.len() ==> (#[trigger] script[i]).at <= at
}

/// Serving a command keeps the keys of the store distinct.
pub proof fn lemma_respond_keeps_distinct(
    entries: Seq<Entry>,
    config: Config,
    command: CommandView,
    now: u64,
)
    requires
        distinct_keys(entries),
    ensures
        distinct_keys(respond(entries, config, command, now).0),
{
    match command {
        CommandView::SetValue { key, value, ttl } => {
            lemma_put(entries, key, ItemView { value, expires: ttl, created: now });
        },
        CommandView::Get(key) => {
            lemma_delete(entries, key);
        },
        _ => {},
    }
}

/// Serving commands keeps the keys of the store distinct.
pub proof fn lemma_run_keeps_distinct(entries: Seq<Entry>, config: Config, script: Seq<Timed>)
    requires
        distinct_keys(entries),
    ensures
        distinct_keys(run(entries, config, script)),
    decreases script.len(),
{
    if script.len() > 0 {
        lemma_run_keeps_distinct(entries, config, script.drop_last());
        lemma_respond_keeps_distinct(
            run(entries, config, script.drop_last()),
            config,
            script.last().command,
            script.last().at,
        );
    }
}

/// What is under `key` after commands that do not write under it: the item
/// that was there, or nothing if a read has found it gone; and the item, in
/// any case, if it is not gone by `until` and no command is served later.
proof fn lemma_item_stays(
    entries: Seq<Entry>,
    config: Config,
    key: Seq<u8>,
    item: ItemView,
    script: Seq<Timed>,
    until: u64,
)
    requires
        distinct_keys(entries),
        lookup(entries, key) == Some(item),
        leaves_key(script, key),
    ensures
        distinct_keys(run(entries, config, script)),
        lookup(run(entries, config, script), key) == Some(item) || lookup(
            run(entries, config, script),
            key,
        ) is None,
        item.expires is None || (all_by(script, until) && !expired(item, until)) ==> lookup(
            run(entries, config, script),
            key,
        ) == Some(item),
    decreases script.len(),
{
    if script.len() > 0 {
        let before = script.drop_last();
        let last = script.last();
        assert(leaves_key(before, key)) by {
            assert forall|i: int| 0 <= i < before.len() implies !writes_key(
                (#[trigger] before[i]).command,
                key,
            ) by {
                assert(before[i] == script[i]);
            }
        }
        if all_by(script, until) {
            assert(all_by(before, until)) by {
                assert forall|i: int| 0 <= i < before.len() implies (#[trigger] before[i]).at
                    <= until by {
                    assert(before[i] == script[i]);
                }
            }
        }
        lemma_item_stays(entries, config, key, item, before, until);
        let mid = run(entries, config, before);
        assert(!writes_key(last.command, key));
        match last.command {
            CommandView::SetValue { key: other, value, ttl } => {
                lemma_put(mid, other, ItemView { value, expires: ttl, created: last.at });
            },
            CommandView::Get(other) => {
                lemma_delete(mid, other);
                if other == key && lookup(mid, key) == Some(item) {
                    if item.expires is None {
                        assert(!expired(item, last.at));
                    } else if all_by(script, until) && !expired(item, until) {
                        assert(last.at <= until);
                        assert(elapsed(item.created, last.at) <= elapsed(item.created, until));
                        assert(!expired(item, last.at));
                    }
                }
            },
            _ => {},
        }
    }
}

/// After a write of `value` under `key` without a time to live, a read of
/// the key returns the value, whatever is served between the two, as long as
/// nothing else is written under the key.
pub proof fn lemma_read_after_write(
    entries: Seq<Entry>,
    config: Config,
    key: Seq<u8>,
    value: Seq<u8>,
    now: u64,
    between: Seq<Timed>,
    later: u64,
)
    requires
        distinct_keys(entries),
        leaves_key(between, key),
    ensures
        ({
            let written = respond(
                entries,
                config,
                CommandView::SetValue { key, value, ttl: None },
                now,
            ).0;
            respond(run(written, config, between), config, CommandView::Get(key), later).1
                == only_reply(wire(Frame::BulkString(value)))
        }),
{
    let item = ItemView { value, expires: None, created: now };
    lemma_put(entries, key, item);
    let written = put(entries, key, item);
    lemma_item_stays(written, config, key, item, between, later);
}

/// After a write of `value` under `key` with a time to live, a read of the
/// key returns the value while less than that time has passed since the
/// write, and the null bulk string from then on: whatever is served between
/// the two, as long as nothing else is written under the key and nothing is
/// served at a later reading of the clock than the read.
pub proof fn lemma_read_within_ttl(
    entries: Seq<Entry>,
    config: Config,
    key: Seq<u8>,
    value: Seq<u8>,
    ttl: u64,
    now: u64,
    between: Seq<Timed>,
    later: u64,
)
    requires
        distinct_keys(entries),
        leaves_key(between, key),
        all_by(between, later),
    ensures
        ({
            let written = respond(
                entries,
                config,
                CommandView::SetValue { key, value, ttl: Some(ttl) },
                now,
            ).0;
            respond(run(written, config, between), config, CommandView::Get(key), later).1
                == only_reply(
                if elapsed(now, later) < ttl {
                    wire(Frame::BulkString(value))
                } else {
                    wire(Frame::NullBulkString)
                },
            )
        }),
{
    let item = ItemView { value, expires: Some(ttl), created: now };
    lemma_put(entries, key, item);
    let written = put(entries, key, item);
    lemma_item_stays(written, config, key, item, between, later);
}

/// The writes of `values` under `keys`, one for each key, in order, each
/// with some time to live and served at some reading of the clock.
pub open spec fn is_writes_of(script: Seq<Timed>, keys: Seq<Seq<u8>>) -> bool {
    script.len() == keys.len() && forall|i: int|
        0 <= i < script.len() ==> writes_key((#[trigger] script[i]).command, keys[i])
}

/// After writes under keys that differ from each other, to a store that was
/// empty, the store lists exactly those keys, in the order of the writes.
pub proof fn lemma_keys_after_writes(config: Config, script: Seq<Timed>, keys: Seq<Seq<u8>>)
    requires
        is_writes_of(script, keys),
        keys.no_duplicates(),
    ensures
        keys_of(run(Seq::empty(), config, script)) == keys,
        keys_outcome(run(Seq::empty(), config, script)) == only_reply(wire(bulk_array(keys))),
        keys_of(run(Seq::empty(), config, script)).to_set() == keys.to_set(),
        distinct_keys(run(Seq::empty(), config, script)),
    decreases script.len(),
{
    let none = Seq::<Entry>::empty();
    if script.len() == 0 {
        assert(keys_of(none) =~= keys);
    } else {
        let before = script.drop_last();
        let first_keys = keys.drop_last();
        assert(is_writes_of(before, first_keys)) by {
            assert forall|i: int| 0 <= i < before.len() implies writes_key(
                (#[trigger] before[i]).command,
                first_keys[i],
            ) by {
                assert(before[i] == script[i]);
            }
        }
        lemma_keys_after_writes(config, before, first_keys);
        let mid = run(none, config, before);
        let last = script.last();
        let key = keys.last();
        assert(writes_key(last.command, key));
        if let CommandView::SetValue { key: k, value, ttl } = last.command {
            assert(!has_key(mid, key)) by {
                if has_key(mid, key) {
                    let p = choose|p: int| key_at(mid, key, p);
                    assert(keys_of(mid)[p] == key);
                    assert(keys[p] == keys[keys.len() - 1]);
                }
            }
            lemma_put(mid, key, ItemView { value, expires: ttl, created: last.at });
            assert(first_keys.push(key) =~= keys);
        }
    }
}

} // verus!
