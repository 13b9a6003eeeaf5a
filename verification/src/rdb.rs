//! The snapshot file: its format, and how its records come into the store.

use crate::bytes::{copy_bytes, is_text, push_bytes, text, DIGIT_0, DIGIT_9};
use crate::clock::now_millis;
use crate::config::Config;
use crate::database::{put, Database, Entry, Item, ItemView};
use crate::decimal::is_digit;
use byteorder::{BigEndian, ByteOrder, LittleEndian};
use vstd::prelude::*;
use vstd::slice::slice_subrange;

verus! {

/// The opcode of an auxiliary field.
pub const OP_AUX: u8 = 0xFA;

/// The opcode that opens the section of a database.
pub const OP_SELECT_DB: u8 = 0xFE;

/// The opcode that declares the sizes of the hash tables.
pub const OP_RESIZE_DB: u8 = 0xFB;

/// The opcode of an expiry in seconds.
pub const OP_EXPIRE_SECONDS: u8 = 0xFD;

/// The opcode of an expiry in milliseconds.
pub const OP_EXPIRE_MILLIS: u8 = 0xFC;

/// The opcode that ends the file.
pub const OP_EOF: u8 = 0xFF;

/// The value type of a plain string.
pub const TYPE_STRING: u8 = 0x00;

/// Why a file is no snapshot that the loader reads.
#[derive(Debug, Clone, Copy, PartialEq, Eq, Structural)]
pub enum RdbError {
    /// The file does not begin with `REDIS` and four digits.
    BadMagic,
    /// The file ends inside an item, or before the end-of-file mark and the
    /// eight bytes after it.
    Truncated,
    /// A string or a length is written in a special encoding where a plain
    /// one is called for, or in a special encoding that is not an integer's.
    UnsupportedEncoding,
    /// An item begins with a byte that is neither an opcode nor the value
    /// type of a plain string.
    UnsupportedType,
}

/// The number that bytes stand for, least significant byte first.
pub open spec fn le_value(s: Seq<u8>) -> nat
    decreases s.len(),
{
    if s.len() == 0 {
        0
    } else {
        s[0] as nat + 256 * le_value(s.skip(1))
    }
}

/// The number that bytes stand for, most significant byte first.
pub open spec fn be_value(s: Seq<u8>) -> nat
    decreases s.len(),
{
    if s.len() == 0 {
        0
    } else {
        be_value(s.drop_last()) * 256 + s.last() as nat
    }
}

/// `byteorder::LittleEndian::read_u32`: the number that four bytes stand for,
/// least significant byte first.
#[verifier::external_body]
fn read_u32_le(buf: &[u8]) -> (r: u32)
    requires
        buf@.len() == 4,
    ensures
        r == le_value(buf@),
{
    LittleEndian::read_u32(buf)
}

/// `byteorder::LittleEndian::read_u64`: the number that eight bytes stand
/// for, least significant byte first.
#[verifier::external_body]
fn read_u64_le(buf: &[u8]) -> (r: u64)
    requires
        buf@.len() == 8,
    ensures
        r == le_value(buf@),
{
    LittleEndian::read_u64(buf)
}

/// `byteorder::BigEndian::read_u32`: the number that four bytes stand for,
/// most significant byte first.
#[verifier::external_body]
fn read_u32_be(buf: &[u8]) -> (r: u32)
    requires
        buf@.len() == 4,
    ensures
        r == be_value(buf@),
{
    BigEndian::read_u32(buf)
}

/// What a length field says: a number, or the format of a special encoding.
#[derive(Debug, Clone, Copy, PartialEq, Eq, Structural)]
pub enum Length {
    Plain(u64),
    Special(u8),
}

/// The length field at the start of `s`, and the number of bytes it takes.
///
/// The two upper bits of the first byte select the form: `00`, the length is
/// the six lower bits; `01`, the six lower bits and the next byte, upper part
/// first; `10`, the next four bytes, most significant first; `11`, no length
/// but a special encoding, whose format the six lower bits give.
pub open spec fn length_at(s: Seq<u8>) -> Result<(Length, int), RdbError> {
    if s.len() == 0 {
        Err(RdbError::Truncated)
    } else {
        let selector = s[0] / 64;
        let low = s[0] % 64;
        if selector == 0 {
            Ok((Length::Plain(low as u64), 1))
        } else if selector == 1 {
            if s.len() < 2 {
                Err(RdbError::Truncated)
            } else {
                Ok((Length::Plain((low * 256 + s[1]) as u64), 2))
            }
        } else if selector == 2 {
            if s.len() < 5 {
                Err(RdbError::Truncated)
            } else {
                Ok((Length::Plain(be_value(s.subrange(1, 5)) as u64), 5))
            }
        } else {
            Ok((Length::Special(low), 1))
        }
    }
}

/// The plain length at the start of `s`, and the number of bytes it takes.
pub open spec fn plain_length_at(s: Seq<u8>) -> Result<(u64, int), RdbError> {
    match length_at(s) {
        Ok((Length::Plain(n), used)) => Ok((n, used)),
        Ok((Length::Special(_), _)) => Err(RdbError::UnsupportedEncoding),
        Err(e) => Err(e),
    }
}

/// The plain string at the start of `s`, and the number of bytes it takes: a
/// plain length and as many bytes.
pub open spec fn string_at(s: Seq<u8>) -> Result<(Seq<u8>, int), RdbError> {
    match plain_length_at(s) {
        Ok((n, used)) => if s.len() < used + n {
            Err(RdbError::Truncated)
        } else {
            Ok((s.subrange(used, used + n), used + n))
        },
        Err(e) => Err(e),
    }
}

/// The number of bytes that an integer in the special encoding of this
/// format takes: one, two or four.
pub open spec fn special_width(format: u8) -> Option<int> {
    if format == 0 {
        Some(1)
    } else if format == 1 {
        Some(2)
    } else if format == 2 {
        Some(4)
    } else {
        None
    }
}

/// The number of bytes that the string at the start of `s` takes, be it a
/// plain one or an integer in a special encoding.
pub open spec fn string_width_at(s: Seq<u8>) -> Result<int, RdbError> {
    match length_at(s) {
        Ok((Length::Plain(n), used)) => if s.len() < used + n {
            Err(RdbError::Truncated)
        } else {
            Ok(used + n)
        },
        Ok((Length::Special(format), used)) => match special_width(format) {
            Some(width) => if s.len() < used + width {
                Err(RdbError::Truncated)
            } else {
                Ok(used + width)
            },
            None => Err(RdbError::UnsupportedEncoding),
        },
        Err(e) => Err(e),
    }
}

/// The mathematical value of a record: what [`Record`] is a view of.
pub struct RecordView {
    pub key: Seq<u8>,
    pub value: Seq<u8>,
    pub expiry: Option<u64>,
}

/// A record of a snapshot: a key, its value, and the time at which the value
/// is gone, in milliseconds since the Unix epoch.
#[derive(Debug, Clone, PartialEq, Eq)]
pub struct Record {
    pub key: Vec<u8>,
    pub value: Vec<u8>,
    pub expiry: Option<u64>,
}

impl View for Record {
    type V = RecordView;

    open spec fn view(&self) -> RecordView {
        RecordView { key: self.key@, value: self.value@, expiry: self.expiry }
    }
}

/// The key and the value at the start of `s`, and the number of bytes they
/// take: the value type of a plain string, and two plain strings.
pub open spec fn pair_at(s: Seq<u8>) -> Result<(Seq<u8>, Seq<u8>, int), RdbError> {
    if s.len() == 0 {
        Err(RdbError::Truncated)
    } else if s[0] != TYPE_STRING {
        Err(RdbError::UnsupportedType)
    } else {
        match string_at(s.skip(1)) {
            Err(e) => Err(e),
            Ok((key, used)) => match string_at(s.skip(1 + used)) {
                Err(e) => Err(e),
                Ok((value, more)) => Ok((key, value, 1 + used + more)),
            },
        }
    }
}

/// The item at the start of `s`, and the number of bytes it takes: a record,
/// or nothing for an item that the loader passes over.
///
/// An auxiliary field is its opcode and two strings. The opening of a
/// database is its opcode and a length. The sizes of the hash tables are
/// their opcode and two lengths. A record may begin with an expiry, which is
/// its opcode and four bytes of seconds or eight bytes of milliseconds, least
/// significant byte first; then come the key and the value.
#[verifier::opaque]
pub open spec fn item_at(s: Seq<u8>) -> Result<(Option<RecordView>, int), RdbError> {
    if s.len() == 0 {
        Err(RdbError::Truncated)
    } else if s[0] == OP_AUX {
        match string_width_at(s.skip(1)) {
            Err(e) => Err(e),
            Ok(used) => match string_width_at(s.skip(1 + used)) {
                Err(e) => Err(e),
                Ok(more) => Ok((None, 1 + used + more)),
            },
        }
    } else if s[0] == OP_SELECT_DB {
        match plain_length_at(s.skip(1)) {
            Err(e) => Err(e),
            Ok((_, used)) => Ok((None, 1 + used)),
        }
    } else if s[0] == OP_RESIZE_DB {
        match table_sizes_at(s.skip(1)) {
            Err(e) => Err(e),
            Ok((_, _, used)) => Ok((None, 1 + used)),
        }
    } else if s[0] == OP_EXPIRE_SECONDS {
        if s.len() < 5 {
            Err(RdbError::Truncated)
        } else {
            match pair_at(s.skip(5)) {
                Err(e) => Err(e),
                Ok((key, value, used)) => Ok(
                    (
                        Some(
                            RecordView {
                                key,
                                value,
                                expiry: Some((le_value(s.subrange(1, 5)) * 1000) as u64),
                            },
                        ),
                        5 + used,
                    ),
                ),
            }
        }
    } else if s[0] == OP_EXPIRE_MILLIS {
        if s.len() < 9 {
            Err(RdbError::Truncated)
        } else {
            match pair_at(s.skip(9)) {
                Err(e) => Err(e),
                Ok((key, value, used)) => Ok(
                    (
                        Some(
                            RecordView {
                                key,
                                value,
                                expiry: Some(le_value(s.subrange(1, 9)) as u64),
                            },
                        ),
                        9 + used,
                    ),
                ),
            }
        }
    } else {
        match pair_at(s) {
            Err(e) => Err(e),
            Ok((key, value, used)) => Ok((Some(RecordView { key, value, expiry: None }), used)),
        }
    }
}

/// The sizes of the hash table and of its part with expiries at the start of
/// `s`, and the number of bytes they take: two plain lengths.
pub open spec fn table_sizes_at(s: Seq<u8>) -> Result<(u64, u64, int), RdbError> {
    match plain_length_at(s) {
        Err(e) => Err(e),
        Ok((size, used)) => match plain_length_at(s.skip(used)) {
            Err(e) => Err(e),
            Ok((expires, more)) => Ok((size, expires, used + more)),
        },
    }
}

/// An item takes at least one byte and no more than there are.
pub proof fn lemma_item_at_used(s: Seq<u8>)
    ensures
        item_at(s) matches Ok((_, used)) ==> 0 < used <= s.len(),
{
    reveal(item_at);
}

/// The records of the items at the start of `s`, up to the end-of-file mark,
/// which eight bytes follow.
pub open spec fn records_from(s: Seq<u8>) -> Result<Seq<RecordView>, RdbError>
    decreases s.len(),
{
    if s.len() == 0 {
        Err(RdbError::Truncated)
    } else if s[0] == OP_EOF {
        if s.len() < 9 {
            Err(RdbError::Truncated)
        } else {
            Ok(Seq::empty())
        }
    } else {
        match item_at(s) {
            Err(e) => Err(e),
            Ok((item, used)) => {
                proof {
                    lemma_item_at_used(s);
                }
                match records_from(s.skip(used)) {
                    Err(e) => Err(e),
                    Ok(later) => Ok(
                        match item {
                            Some(record) => seq![record] + later,
                            None => later,
                        },
                    ),
                }
            },
        }
    }
}

/// The file begins with `REDIS` and the four digits of a version.
pub open spec fn has_magic(file: Seq<u8>) -> bool {
    &&& file.len() >= 9
    &&& file.take(5) == text("REDIS")
    &&& forall|i: int| 5 <= i < 9 ==> is_digit(#[trigger] file[i])
}

/// The records of a snapshot file: those of its items after the magic.
pub open spec fn snapshot_records(file: Seq<u8>) -> Result<Seq<RecordView>, RdbError> {
    if !has_magic(file) {
        Err(RdbError::BadMagic)
    } else {
        records_from(file.skip(9))
    }
}

/// A value that is gone at `expiry` is gone already when the clock reads
/// `now`. A value without an expiry never is.
pub open spec fn past(expiry: Option<u64>, now: u64) -> bool {
    match expiry {
        Some(at) => at < now,
        None => false,
    }
}

/// The entries after a record is loaded when the clock reads `now`: a record
/// whose value is gone already is dropped; any other is stored as an item
/// made at `now`, which lives for the time that is left until its expiry.
pub open spec fn load_one(entries: Seq<Entry>, record: RecordView, now: u64) -> Seq<Entry> {
    if past(record.expiry, now) {
        entries
    } else {
        put(
            entries,
            record.key,
            ItemView {
                value: record.value,
                expires: match record.expiry {
                    Some(at) => Some((at - now) as u64),
                    None => None,
                },
                created: now,
            },
        )
    }
}

/// The entries after the records are loaded, in their order.
pub open spec fn load_all(entries: Seq<Entry>, records: Seq<RecordView>, now: u64) -> Seq<Entry>
    decreases records.len(),
{
    if records.len() == 0 {
        entries
    } else {
        load_one(load_all(entries, records.drop_last(), now), records.last(), now)
    }
}

/// Reads the length field at the start of `s`: see [`length_at`].
pub fn read_length(s: &[u8]) -> (r: Result<(Length, usize), RdbError>)
    ensures
        match r {
            Ok((length, used)) => length_at(s@) == Ok::<(Length, int), RdbError>(
                (length, used as int),
            ),
            Err(e) => length_at(s@) == Err::<(Length, int), RdbError>(e),
        },
{
    if s.len() == 0 {
        return Err(RdbError::Truncated);
    }
    let first: u8 = s[0];
    let selector: u8 = first / 64;
    let low: u8 = first % 64;
    if selector == 0 {
        Ok((Length::Plain(low as u64), 1))
    } else if selector == 1 {
        if s.len() < 2 {
            Err(RdbError::Truncated)
        } else {
            Ok((Length::Plain(low as u64 * 256 + s[1] as u64), 2))
        }
    } else if selector == 2 {
        if s.len() < 5 {
            Err(RdbError::Truncated)
        } else {
            let n: u32 = read_u32_be(slice_subrange(s, 1, 5));
            Ok((Length::Plain(n as u64), 5))
        }
    } else {
        Ok((Length::Special(low), 1))
    }
}

/// Reads the plain length at the start of `s`: see [`plain_length_at`].
pub fn read_plain_length(s: &[u8]) -> (r: Result<(u64, usize), RdbError>)
    ensures
        match r {
            Ok((n, used)) => plain_length_at(s@) == Ok::<(u64, int), RdbError>((n, used as int)),
            Err(e) => plain_length_at(s@) == Err::<(u64, int), RdbError>(e),
        },
{
    match read_length(s) {
        Ok((Length::Plain(n), used)) => Ok((n, used)),
        Ok((Length::Special(_), _)) => Err(RdbError::UnsupportedEncoding),
        Err(e) => Err(e),
    }
}

/// Reads the plain string at the start of `s`: see [`string_at`].
pub fn read_string(s: &[u8]) -> (r: Result<(Vec<u8>, usize), RdbError>)
    ensures
        match r {
            Ok((bytes, used)) => string_at(s@) == Ok::<(Seq<u8>, int), RdbError>(
                (bytes@, used as int),
            ),
            Err(e) => string_at(s@) == Err::<(Seq<u8>, int), RdbError>(e),
        },
{
    let (n, used) = match read_plain_length(s) {
        Ok(found) => found,
        Err(e) => {
            return Err(e);
        },
    };
    if ((s.len() - used) as u64) < n {
        return Err(RdbError::Truncated);
    }
    let end: usize = used + n as usize;
    Ok((copy_bytes(slice_subrange(s, used, end)), end))
}

/// Passes over the string at the start of `s`, plain or an integer in a
/// special encoding, and returns the number of bytes it takes: see
/// [`string_width_at`].
pub fn skip_string(s: &[u8]) -> (r: Result<usize, RdbError>)
    ensures
        match r {
            Ok(used) => string_width_at(s@) == Ok::<int, RdbError>(used as int),
            Err(e) => string_width_at(s@) == Err::<int, RdbError>(e),
        },
{
    match read_length(s) {
        Ok((Length::Plain(n), used)) => {
            if ((s.len() - used) as u64) < n {
                Err(RdbError::Truncated)
            } else {
                Ok(used + n as usize)
            }
        },
        Ok((Length::Special(format), used)) => {
            let width: usize = if format == 0 {
                1
            } else if format == 1 {
                2
            } else if format == 2 {
                4
            } else {
                return Err(RdbError::UnsupportedEncoding);
            };
            if s.len() - used < width {
                Err(RdbError::Truncated)
            } else {
                Ok(used + width)
            }
        },
        Err(e) => Err(e),
    }
}

/// Reads the key and the value at the start of `s`: see [`pair_at`].
pub fn read_pair(s: &[u8]) -> (r: Result<(Vec<u8>, Vec<u8>, usize), RdbError>)
    ensures
        match r {
            Ok((key, value, used)) => pair_at(s@) == Ok::<(Seq<u8>, Seq<u8>, int), RdbError>(
                (key@, value@, used as int),
            ),
            Err(e) => pair_at(s@) == Err::<(Seq<u8>, Seq<u8>, int), RdbError>(e),
        },
{
    if s.len() == 0 {
        return Err(RdbError::Truncated);
    }
    if s[0] != TYPE_STRING {
        return Err(RdbError::UnsupportedType);
    }
    let after_type = slice_subrange(s, 1, s.len());
    assert(after_type@ =~= s@.skip(1));
    let (key, used) = match read_string(after_type) {
        Ok(found) => found,
        Err(e) => {
            return Err(e);
        },
    };
    let after_key = slice_subrange(s, 1 + used, s.len());
    assert(after_key@ =~= s@.skip(1 + used));
    let (value, more) = match read_string(after_key) {
        Ok(found) => found,
        Err(e) => {
            return Err(e);
        },
    };
    Ok((key, value, 1 + used + more))
}

/// Reads the sizes of the hash tables at the start of `s`: see
/// [`table_sizes_at`].
pub fn process_hash_table(s: &[u8]) -> (r: Result<(u64, u64, usize), RdbError>)
    ensures
        match r {
            Ok((size, expires, used)) => table_sizes_at(s@) == Ok::<(u64, u64, int), RdbError>(
                (size, expires, used as int),
            ),
            Err(e) => table_sizes_at(s@) == Err::<(u64, u64, int), RdbError>(e),
        },
{
    let (size, used) = match read_plain_length(s) {
        Ok(found) => found,
        Err(e) => {
            return Err(e);
        },
    };
    let rest = slice_subrange(s, used, s.len());
    assert(rest@ =~= s@.skip(used as int));
    let (expires, more) = match read_plain_length(rest) {
        Ok(found) => found,
        Err(e) => {
            return Err(e);
        },
    };
    Ok((size, expires, used + more))
}

/// The item that the reader's result `r` stands for.
pub open spec fn item_read(r: Result<(Option<Record>, usize), RdbError>) -> Result<
    (Option<RecordView>, int),
    RdbError,
> {
    match r {
        Ok((Some(record), used)) => Ok((Some(record@), used as int)),
        Ok((None, used)) => Ok((None, used as int)),
        Err(e) => Err(e),
    }
}

/// Reads the record that begins at index `body` of `s`, after its expiry.
fn read_record(s: &[u8], body: usize, expiry: Option<u64>) -> (r: Result<
    (Option<Record>, usize),
    RdbError,
>)
    requires
        body <= s@.len(),
    ensures
        item_read(r) == match pair_at(s@.skip(body as int)) {
            Err(e) => Err::<(Option<RecordView>, int), RdbError>(e),
            Ok((key, value, used)) => Ok((Some(RecordView { key, value, expiry }), body + used)),
        },
{
    let rest = slice_subrange(s, body, s.len());
    assert(rest@ =~= s@.skip(body as int));
    match read_pair(rest) {
        Ok((key, value, used)) => Ok((Some(Record { key, value, expiry }), body + used)),
        Err(e) => Err(e),
    }
}

/// Reads the item at the start of `s`: see [`item_at`].
pub fn read_item(s: &[u8]) -> (r: Result<(Option<Record>, usize), RdbError>)
    ensures
        item_read(r) == item_at(s@),
{
    reveal(item_at);
    if s.len() == 0 {
        return Err(RdbError::Truncated);
    }
    let op: u8 = s[0];
    if op == OP_AUX {
        let after_op = slice_subrange(s, 1, s.len());
        assert(after_op@ =~= s@.skip(1));
        let used = match skip_string(after_op) {
            Ok(used) => used,
            Err(e) => {
                return Err(e);
            },
        };
        let after_key = slice_subrange(s, 1 + used, s.len());
        assert(after_key@ =~= s@.skip(1 + used));
        match skip_string(after_key) {
            Ok(more) => Ok((None, 1 + used + more)),
            Err(e) => Err(e),
        }
    } else if op == OP_SELECT_DB {
        let after_op = slice_subrange(s, 1, s.len());
        assert(after_op@ =~= s@.skip(1));
        match read_plain_length(after_op) {
            Ok((_, used)) => Ok((None, 1 + used)),
            Err(e) => Err(e),
        }
    } else if op == OP_RESIZE_DB {
        let after_op = slice_subrange(s, 1, s.len());
        assert(after_op@ =~= s@.skip(1));
        match process_hash_table(after_op) {
            Ok((_, _, used)) => Ok((None, 1 + used)),
            Err(e) => Err(e),
        }
    } else if op == OP_EXPIRE_SECONDS {
        if s.len() < 5 {
            return Err(RdbError::Truncated);
        }
        let seconds: u32 = read_u32_le(slice_subrange(s, 1, 5));
        read_record(s, 5, Some(seconds as u64 * 1000))
    } else if op == OP_EXPIRE_MILLIS {
        if s.len() < 9 {
            return Err(RdbError::Truncated);
        }
        let millis: u64 = read_u64_le(slice_subrange(s, 1, 9));
        read_record(s, 9, Some(millis))
    } else {
        assert(s@.skip(0) =~= s@);
        read_record(s, 0, None)
    }
}

/// The views of records, in order.
pub open spec fn records_view(records: Seq<Record>) -> Seq<RecordView> {
    Seq::new(records.len(), |i: int| records[i]@)
}

/// The records `head` and, after them, `sub`.
pub open spec fn after_records(
    head: Seq<RecordView>,
    sub: Result<Seq<RecordView>, RdbError>,
) -> Result<Seq<RecordView>, RdbError> {
    match sub {
        Ok(later) => Ok(head + later),
        Err(e) => Err(e),
    }
}

/// The records that the reader's result `r` stands for.
pub open spec fn records_read(r: Result<Vec<Record>, RdbError>) -> Result<
    Seq<RecordView>,
    RdbError,
> {
    match r {
        Ok(records) => Ok(records_view(records@)),
        Err(e) => Err(e),
    }
}

/// Reads the records of the items at the start of `s`, one item at a time up
/// to the end-of-file mark: see [`records_from`].
pub fn parse_hash_table(s: &[u8]) -> (r: Result<Vec<Record>, RdbError>)
    ensures
        records_read(r) == records_from(s@),
{
    let mut records: Vec<Record> = Vec::new();
    let mut pos: usize = 0;
    assert(s@.skip(0) =~= s@);
    assert(records_view(records@) =~= Seq::<RecordView>::empty());
    proof {
        match records_from(s@) {
            Ok(all) => {
                assert(Seq::<RecordView>::empty() + all =~= all);
            },
            Err(_) => {},
        }
    }
    loop
        invariant
            0 <= pos <= s.len(),
            records_from(s@) == after_records(
                records_view(records@),
                records_from(s@.skip(pos as int)),
            ),
        decreases s.len() - pos,
    {
        let rest = slice_subrange(s, pos, s.len());
        assert(rest@ =~= s@.skip(pos as int));
        if rest.len() == 0 {
            return Err(RdbError::Truncated);
        }
        if rest[0] == OP_EOF {
            if rest.len() < 9 {
                return Err(RdbError::Truncated);
            }
            proof {
                assert(records_view(records@) + Seq::<RecordView>::empty() =~= records_view(
                    records@,
                ));
            }
            return Ok(records);
        }
        match read_item(rest) {
            Err(e) => {
                return Err(e);
            },
            Ok((item, used)) => {
                proof {
                    lemma_item_at_used(rest@);
                    assert(rest@.skip(used as int) =~= s@.skip(pos + used));
                    let head = records_view(records@);
                    if item is Some {
                        let record = item->Some_0;
                        assert(records_view(records@.push(record)) =~= head + seq![record@]);
                        if let Ok(later) = records_from(s@.skip(pos + used)) {
                            assert(head + (seq![record@] + later) =~= head + seq![record@]
                                + later);
                        }
                    }
                }
                match item {
                    Some(record) => {
                        records.push(record);
                    },
                    None => {},
                }
                pos = pos + used;
            },
        }
    }
}

/// Reads the records of a snapshot file: see [`snapshot_records`].
pub fn parse_snapshot(file: &[u8]) -> (r: Result<Vec<Record>, RdbError>)
    ensures
        records_read(r) == snapshot_records(file@),
{
    if file.len() < 9 {
        return Err(RdbError::BadMagic);
    }
    let word = slice_subrange(file, 0, 5);
    assert(word@ =~= file@.take(5));
    if !is_text(word, "REDIS") {
        return Err(RdbError::BadMagic);
    }
    let mut i: usize = 5;
    while i < 9
        invariant
            5 <= i <= 9,
            file@.len() >= 9,
            forall|j: int| 5 <= j < i ==> is_digit(#[trigger] file@[j]),
        decreases 9 - i,
    {
        let b: u8 = file[i];
        if b < DIGIT_0 || b > DIGIT_9 {
            assert(!is_digit(file@[i as int]));
            return Err(RdbError::BadMagic);
        }
        i = i + 1;
    }
    let rest = slice_subrange(file, 9, file.len());
    assert(rest@ =~= file@.skip(9));
    parse_hash_table(rest)
}

/// Whether a value that is gone at `expiry_timestamp_ms` is gone already when
/// the clock reads `now`.
pub fn is_expired_at(expiry_timestamp_ms: Option<u64>, now: u64) -> (r: bool)
    ensures
        r == past(expiry_timestamp_ms, now),
{
    match expiry_timestamp_ms {
        Some(at) => at < now,
        None => false,
    }
}

/// Whether a value that is gone at `expiry_timestamp_ms` is gone already now,
/// by [`now_millis`].
pub fn is_expired(expiry_timestamp_ms: Option<u64>) -> (r: bool)
    ensures
        exists|now: u64| r == #[trigger] past(expiry_timestamp_ms, now),
        expiry_timestamp_ms is None ==> !r,
{
    let now = now_millis();
    let r = is_expired_at(expiry_timestamp_ms, now);
    assert(r == past(expiry_timestamp_ms, now));
    r
}

/// Loads the records into the store when the clock reads `now`: see
/// [`load_all`].
pub fn load_records(db: &mut Database, records: Vec<Record>, now: u64)
    ensures
        final(db)@ == load_all(old(db)@, records_view(records@), now),
        final(db).settings() == old(db).settings(),
{
    let ghost all = records_view(records@);
    let mut i: usize = 0;
    while i < records.len()
        invariant
            0 <= i <= records.len(),
            all == records_view(records@),
            db.settings() == old(db).settings(),
            db@ == load_all(old(db)@, all.take(i as int), now),
        decreases records.len() - i,
    {
        let record = &records[i];
        proof {
            assert(all.take(i + 1).drop_last() =~= all.take(i as int));
            assert(all.take(i + 1).last() == record@);
        }
        if !is_expired_at(record.expiry, now) {
            let expires: Option<u64> = match record.expiry {
                Some(at) => Some(at - now),
                None => None,
            };
            let item = Item::new_at(copy_bytes(record.value.as_slice()), expires, now);
            db.insert(copy_bytes(record.key.as_slice()), item);
        }
        i = i + 1;
    }
    assert(all.take(i as int) =~= all);
}

/// Loads a snapshot file into the store when the clock reads `now`.
///
/// A file that is no snapshot is refused, and the store is left as it was.
/// Of a snapshot, every record is loaded whose value is not gone already: see
/// [`snapshot_records`] and [`load_all`].
pub fn load_rdb_to_database(db: &mut Database, file: &[u8], now: u64) -> (r: Result<(), RdbError>)
    ensures
        match snapshot_records(file@) {
            Ok(records) => r is Ok && final(db)@ == load_all(old(db)@, records, now),
            Err(e) => r == Err::<(), RdbError>(e) && final(db)@ == old(db)@,
        },
        final(db).settings() == old(db).settings(),
{
    match parse_snapshot(file) {
        Ok(records) => {
            load_records(db, records, now);
            Ok(())
        },
        Err(e) => Err(e),
    }
}

/// Where the snapshot file lies: the directory, a slash and the file name,
/// where the configuration names both.
pub open spec fn path_of(config: Config) -> Option<Seq<u8>> {
    match (config.dir, config.dbfilename) {
        (Some(dir), Some(name)) => Some(dir@ + text("/") + name@),
        _ => None,
    }
}

/// The path of the snapshot file, if the configuration names one: see
/// [`path_of`].
pub fn snapshot_path(config: &Config) -> (path: Option<Vec<u8>>)
    ensures
        match path_of(*config) {
            Some(bytes) => path matches Some(p) && p@ == bytes,
            None => path is None,
        },
{
    match (&config.dir, &config.dbfilename) {
        (Some(dir), Some(name)) => {
            let mut path = copy_bytes(dir.as_slice());
            push_bytes(&mut path, "/".as_bytes());
            push_bytes(&mut path, name.as_slice());
            Some(path)
        },
        _ => None,
    }
}

} // verus!
