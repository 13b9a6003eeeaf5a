//! The snapshot that a primary sends to a secondary that asks for a full
//! resynchronisation.

use crate::bytes::{text, DIGIT_0, DIGIT_9, LOWER_A, LOWER_F, UPPER_A, UPPER_F};
use crate::decimal::is_digit;
use crate::rdb::{
    has_magic, item_at, records_from, snapshot_records, string_width_at, RdbError, RecordView,
    OP_AUX, OP_EOF,
};
use vstd::prelude::*;
use vstd::string::{is_ascii, is_ascii_spec_bytes};

verus! {

/// The value of a hexadecimal digit, in either case.
pub open spec fn hex_digit(b: u8) -> Option<u8> {
    if DIGIT_0 <= b <= DIGIT_9 {
        Some((b - DIGIT_0) as u8)
    } else if LOWER_A <= b <= LOWER_F {
        Some((b - LOWER_A + 10) as u8)
    } else if UPPER_A <= b <= UPPER_F {
        Some((b - UPPER_A + 10) as u8)
    } else {
        None
    }
}

/// The text is an even number of hexadecimal digits.
pub open spec fn is_hex_text(t: Seq<u8>) -> bool {
    t.len() % 2 == 0 && forall|i: int| 0 <= i < t.len() ==> hex_digit(#[trigger] t[i]) is Some
}

/// The bytes that hexadecimal text stands for: one for each two digits, the
/// first of the two being the upper half.
pub open spec fn hex_bytes(t: Seq<u8>) -> Seq<u8> {
    Seq::new(
        t.len() / 2,
        |i: int| (hex_digit(t[2 * i])->Some_0 * 16 + hex_digit(t[2 * i + 1])->Some_0) as u8,
    )
}

/// `hex::decode`: the bytes that hexadecimal text stands for, or nothing where
/// the text has an odd length or holds a byte that is no hexadecimal digit.
#[verifier::external_body]
fn hex_decode(t: &[u8]) -> (r: Option<Vec<u8>>)
    ensures
        r is Some <==> is_hex_text(t@),
        r matches Some(bytes) ==> bytes@ == hex_bytes(t@),
{
    hex::decode(t).ok()
}

/// The empty snapshot, in hexadecimal.
pub const EMPTY_RDB_HEX: &'static str =
    "524544495330303131fa0972656469732d76657205372e322e30fa0a72656469732d62697473c040fa056374696d65c26d08bc65fa08757365642d6d656dc2b0c41000fa08616f662d62617365c000fff06e3bfec0ff5aa2";

/// The empty snapshot: the bytes that [`EMPTY_RDB_HEX`] stands for.
pub open spec fn empty_snapshot() -> Seq<u8> {
    hex_bytes(text(EMPTY_RDB_HEX))
}

/// The bytes of the empty snapshot at which its items begin and end.
proof fn lemma_empty_snapshot_bytes()
    ensures
        is_hex_text(text(EMPTY_RDB_HEX)),
        empty_snapshot().len() == 88,
        has_magic(empty_snapshot()),
        empty_snapshot().take(9) == text("REDIS0011"),
        empty_snapshot()[9] == OP_AUX && empty_snapshot()[10] == 9 && empty_snapshot()[20] == 5,
        empty_snapshot()[26] == OP_AUX && empty_snapshot()[27] == 10 && empty_snapshot()[38]
            == 0xc0,
        empty_snapshot()[40] == OP_AUX && empty_snapshot()[41] == 5 && empty_snapshot()[47]
            == 0xc2,
        empty_snapshot()[52] == OP_AUX && empty_snapshot()[53] == 8 && empty_snapshot()[62]
            == 0xc2,
        empty_snapshot()[67] == OP_AUX && empty_snapshot()[68] == 8 && empty_snapshot()[77]
            == 0xc0,
        empty_snapshot()[79] == OP_EOF,
{
    reveal_strlit(
        "524544495330303131fa0972656469732d76657205372e322e30fa0a72656469732d62697473c040fa056374696d65c26d08bc65fa08757365642d6d656dc2b0c41000fa08616f662d62617365c000fff06e3bfec0ff5aa2",
    );
    let hex = EMPTY_RDB_HEX;
    assert(hex@.len() == 176);
    assert(is_ascii(hex));
    is_ascii_spec_bytes(hex);
    let t = text(hex);
    assert forall|i: int| 0 <= i < 176 implies hex_digit(#[trigger] t[i]) is Some by {
        assert(t[i] == hex@[i] as u8);
    }
    let e = empty_snapshot();
    assert(e.len() == 88);
    reveal_strlit("REDIS0011");
    assert(is_ascii("REDIS0011"));
    is_ascii_spec_bytes("REDIS0011");
    assert(e.take(9) =~= text("REDIS0011"));
    reveal_strlit("REDIS");
    assert(is_ascii("REDIS"));
    is_ascii_spec_bytes("REDIS");
    assert(e.take(5) =~= text("REDIS"));
    assert forall|i: int| 5 <= i < 9 implies is_digit(#[trigger] e[i]) by {
        assert(t[2 * i] == hex@[2 * i] as u8);
    }
}

/// The empty snapshot is well written: 88 bytes that begin with the magic
/// `REDIS0011`, with the end-of-file mark nine bytes before the end.
pub proof fn lemma_empty_snapshot()
    ensures
        is_hex_text(text(EMPTY_RDB_HEX)),
        empty_snapshot().len() == 88,
        empty_snapshot().take(9) == text("REDIS0011"),
        empty_snapshot()[79] == OP_EOF,
{
    lemma_empty_snapshot_bytes();
}

/// The empty snapshot.
pub fn empty_rdb() -> (bytes: Vec<u8>)
    ensures
        bytes@ == empty_snapshot(),
{
    proof {
        lemma_empty_snapshot();
    }
    match hex_decode(EMPTY_RDB_HEX.as_bytes()) {
        Some(bytes) => bytes,
        // The text is hexadecimal, so this is never reached.
        None => Vec::new(),
    }
}

/// What an auxiliary field with a short key takes: the opcode, the length of
/// the key, the key, and the value.
proof fn lemma_aux_item(s: Seq<u8>, key_len: int, value_width: int)
    requires
        s.len() >= 2 + key_len,
        s[0] == OP_AUX,
        0 <= key_len < 64,
        s[1] == key_len,
        string_width_at(s.skip(2 + key_len)) == Ok::<int, RdbError>(value_width),
    ensures
        item_at(s) == Ok::<(Option<RecordView>, int), RdbError>(
            (None, 2 + key_len + value_width),
        ),
{
    reveal(item_at);
    let key = s.skip(1);
    assert(key[0] == s[1]);
    assert(string_width_at(key) == Ok::<int, RdbError>(1 + key_len));
    assert(s.skip(1 + (1 + key_len)) =~= s.skip(2 + key_len));
}

/// The empty snapshot is a snapshot file, and holds no record.
pub proof fn lemma_empty_snapshot_holds_nothing()
    ensures
        snapshot_records(empty_snapshot()) == Ok::<Seq<RecordView>, RdbError>(Seq::empty()),
{
    lemma_empty_snapshot_bytes();
    let e = empty_snapshot();
    let none = Ok::<Seq<RecordView>, RdbError>(Seq::empty());
    assert(records_from(e.skip(79)) == none) by {
        assert(e.skip(79)[0] == e[79]);
    }
    assert(records_from(e.skip(67)) == none) by {
        let s = e.skip(67);
        assert(s[0] == e[67] && s[1] == e[68]);
        assert(s.skip(10)[0] == e[77]);
        lemma_aux_item(s, 8, 2);
        assert(s.skip(12) =~= e.skip(79));
    }
    assert(records_from(e.skip(52)) == none) by {
        let s = e.skip(52);
        assert(s[0] == e[52] && s[1] == e[53]);
        assert(s.skip(10)[0] == e[62]);
        lemma_aux_item(s, 8, 5);
        assert(s.skip(15) =~= e.skip(67));
    }
    assert(records_from(e.skip(40)) == none) by {
        let s = e.skip(40);
        assert(s[0] == e[40] && s[1] == e[41]);
        assert(s.skip(7)[0] == e[47]);
        lemma_aux_item(s, 5, 5);
        assert(s.skip(12) =~= e.skip(52));
    }
    assert(records_from(e.skip(26)) == none) by {
        let s = e.skip(26);
        assert(s[0] == e[26] && s[1] == e[27]);
        assert(s.skip(12)[0] == e[38]);
        lemma_aux_item(s, 10, 2);
        assert(s.skip(14) =~= e.skip(40));
    }
    assert(records_from(e.skip(9)) == none) by {
        let s = e.skip(9);
        assert(s[0] == e[9] && s[1] == e[10]);
        assert(s.skip(11)[0] == e[20]);
        lemma_aux_item(s, 9, 6);
        assert(s.skip(17) =~= e.skip(26));
    }
}

} // verus!
