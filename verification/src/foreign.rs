//! What this crate takes on trust: the functions of other crates and of the
//! standard library that it calls, and what is believed of each.

use data_encoding::BASE64;
use std::path::PathBuf;
use std::str::FromStr;
use std::time::{Duration, SystemTime, UNIX_EPOCH};
use vstd::prelude::*;
use vstd::utf8::*;

use crate::text;

verus! {

// ---------------------------------------------------------------------------
// the standard library
// ---------------------------------------------------------------------------

/// A place in the file system, carried and never looked into.
#[verifier::external_type_specification]
#[verifier::external_body]
pub struct ExPathBuf(PathBuf);

/// A reading of the system clock, carried and never looked into.
#[verifier::external_type_specification]
#[verifier::external_body]
pub struct ExSystemTime(SystemTime);

/// `SystemTime::now`: whatever the clock says. Nothing is believed of it.
pub assume_specification[ SystemTime::now ]() -> SystemTime
;

/// `SystemTime::duration_since` the Unix epoch, or nothing if the clock stands
/// before it. Nothing is believed of the span, since it depends on the clock
/// alone.
#[verifier::external_body]
pub(crate) fn since_epoch(t: SystemTime) -> (r: Option<Duration>) {
    t.duration_since(UNIX_EPOCH).ok()
}

/// `Duration::as_micros`: a span in whole microseconds. A span is opaque here, so
/// nothing is believed of the number.
pub assume_specification[ Duration::as_micros ](d: &Duration) -> u128
;

/// What `String::from_utf8_lossy` makes of bytes that are not UTF-8: every
/// maximal invalid piece becomes a replacement character.
pub uninterp spec fn repaired_utf8(bytes: Seq<u8>) -> Seq<char>;

/// What bytes read as when they are taken for UTF-8.
pub open spec fn lossy_text(bytes: Seq<u8>) -> Seq<char> {
    if valid_utf8(bytes) {
        decode_utf8(bytes)
    } else {
        repaired_utf8(bytes)
    }
}

/// `String::from_utf8_lossy`: UTF-8 is decoded as it stands. Anything else is
/// repaired, and what it is repaired to depends on the bytes alone.
#[verifier::external_body]
pub(crate) fn utf8_lossy(bytes: &[u8]) -> (r: String)
    ensures
        valid_utf8(bytes@) ==> r@ == decode_utf8(bytes@),
        !valid_utf8(bytes@) ==> r@ == repaired_utf8(bytes@),
{
    String::from_utf8_lossy(bytes).into_owned()
}

/// `String::push` appends the one character it is given.
pub assume_specification[ String::push ](s: &mut String, c: char)
    ensures
        final(s)@ == old(s)@.push(c),
;

/// `<[u64]>::sort_unstable`: the same items, in ascending order.
#[verifier::external_body]
pub(crate) fn sort_ascending(v: &mut Vec<u64>)
    ensures
        final(v)@.to_multiset() == old(v)@.to_multiset(),
        final(v)@.len() == old(v)@.len(),
        forall|i: int, j: int| 0 <= i <= j < final(v)@.len() ==> final(v)@[i] <= final(v)@[j],
{
    v.sort_unstable();
}

// ---------------------------------------------------------------------------
// data_encoding
// ---------------------------------------------------------------------------

/// What `BASE64.encode` makes of bytes.
pub uninterp spec fn base64_encoded(data: Seq<u8>) -> Seq<char>;

/// What `BASE64.decode` makes of bytes: the data, or what its error says.
pub uninterp spec fn base64_decoded(input: Seq<u8>) -> Result<Seq<u8>, Seq<char>>;

/// Whether a text decodes to the data.
pub open spec fn base64_reads(s: Seq<char>, data: Seq<u8>) -> bool {
    base64_decoded(encode_utf8(s)) == Ok::<Seq<u8>, Seq<char>>(data)
}

/// `data_encoding::BASE64.encode`, for as much data as it is documented not to
/// panic on: the text depends on the data alone, holds four characters of one
/// byte each for every three bytes begun, none of them white space, and decodes
/// to the data again.
#[verifier::external_body]
pub(crate) fn base64_encode(data: &[u8]) -> (r: String)
    requires
        data@.len() <= usize::MAX / 512,
    ensures
        r@ == base64_encoded(data@),
        encode_utf8(r@).len() == (data@.len() + 2) / 3 * 4,
        forall|i: int| 0 <= i < r@.len() ==> !text::is_space(#[trigger] r@[i]),
        base64_reads(r@, data@),
{
    BASE64.encode(data)
}

/// What a decoding came to.
pub open spec fn decoding(r: Result<Vec<u8>, String>) -> Result<Seq<u8>, Seq<char>> {
    match r {
        Ok(data) => Ok(data@),
        Err(why) => Err(why@),
    }
}

/// `data_encoding::BASE64.decode`, for as much input as it takes without a
/// panic: the data, or what the error says, either of which depends on the input
/// alone.
#[verifier::external_body]
pub(crate) fn base64_decode(input: &[u8]) -> (r: Result<Vec<u8>, String>)
    requires
        input@.len() <= usize::MAX / 8,
    ensures
        decoding(r) == base64_decoded(input@),
{
    BASE64.decode(input).map_err(|e| e.to_string())
}

// ---------------------------------------------------------------------------
// serde_json
// ---------------------------------------------------------------------------

/// A field of a JSON object, as far as this program reads or writes one.
pub enum JsonField {
    Text(String),
    Uint(u64),
    Flag(bool),
    Texts(Vec<String>),
    /// Anything else.
    Other,
}

/// What a field holds, over sequences.
pub enum Piece {
    Text(Seq<char>),
    Uint(u64),
    Flag(bool),
    Texts(Seq<Seq<char>>),
    Other,
}

impl View for JsonField {
    type V = Piece;

    open spec fn view(&self) -> Piece {
        match *self {
            JsonField::Text(s) => Piece::Text(s@),
            JsonField::Uint(n) => Piece::Uint(n),
            JsonField::Flag(b) => Piece::Flag(b),
            JsonField::Texts(v) => Piece::Texts(text::texts(v@)),
            JsonField::Other => Piece::Other,
        }
    }
}

/// What a list of named fields holds.
pub open spec fn pieces(v: Seq<(String, JsonField)>) -> Seq<(Seq<char>, Piece)> {
    v.map_values(|f: (String, JsonField)| (f.0@, f.1@))
}

/// Fields by their names. The last of several with one name counts.
pub open spec fn by_name(v: Seq<(Seq<char>, Piece)>) -> Map<Seq<char>, Piece>
    decreases v.len(),
{
    if v.len() == 0 {
        Map::empty()
    } else {
        by_name(v.drop_last()).insert(v.last().0, v.last().1)
    }
}

/// The fields of the object that the bytes are JSON for, if they are, with a
/// string as text, a number that is a `u64` as such, and a boolean as a flag.
pub uninterp spec fn json_object(bytes: Seq<u8>) -> Option<Map<Seq<char>, Piece>>;

/// The JSON for an object with these fields.
pub uninterp spec fn json_bytes(fields: Seq<(Seq<char>, Piece)>) -> Seq<u8>;

/// `serde_json::from_slice` into a `Value`: the fields of an object, or nothing
/// for any other value and for what is not JSON. Either depends on the bytes
/// alone. Nothing is said of the order in which the fields come.
#[verifier::external_body]
pub(crate) fn json_read(bytes: &[u8]) -> (r: Option<Vec<(String, JsonField)>>)
    ensures
        match r {
            Some(fields) => json_object(bytes@) == Some(by_name(pieces(fields@))),
            None => json_object(bytes@) is None,
        },
{
    let field = |v: serde_json::Value| match v {
        serde_json::Value::String(s) => JsonField::Text(s),
        serde_json::Value::Bool(b) => JsonField::Flag(b),
        serde_json::Value::Number(n) => n.as_u64().map_or(JsonField::Other, JsonField::Uint),
        serde_json::Value::Null => JsonField::Other,
        serde_json::Value::Array(_) => JsonField::Other,
        serde_json::Value::Object(_) => JsonField::Other,
    };
    match serde_json::from_slice::<serde_json::Value>(bytes) {
        Ok(serde_json::Value::Object(m)) => Some(
            m.into_iter().map(|(k, v)| (k, field(v))).collect(),
        ),
        _ => None,
    }
}

/// `serde_json::to_vec` of an object: the bytes depend on the fields alone, and
/// texts, numbers and flags read back as they were written.
#[verifier::external_body]
pub(crate) fn json_write(fields: Vec<(String, JsonField)>) -> (r: Vec<u8>)
    ensures
        r@ == json_bytes(pieces(fields@)),
        (forall|i: int|
            0 <= i < fields@.len() ==> ((#[trigger] fields@[i]).1 is Text || fields@[i].1 is Uint
                || fields@[i].1 is Flag)) ==> json_object(r@) == Some(by_name(pieces(fields@))),
{
    let value = |f: JsonField| match f {
        JsonField::Text(s) => serde_json::Value::from(s),
        JsonField::Uint(n) => serde_json::Value::from(n),
        JsonField::Flag(b) => serde_json::Value::from(b),
        JsonField::Texts(v) => serde_json::Value::from(v),
        JsonField::Other => serde_json::Value::Null,
    };
    let object: serde_json::Map<String, serde_json::Value> =
        fields.into_iter().map(|(k, f)| (k, value(f))).collect();
    serde_json::to_vec(&object).unwrap_or_default()
}

// ---------------------------------------------------------------------------
// veilid_core
// ---------------------------------------------------------------------------

/// What `RecordKey::from_str` makes of a text: nothing to complain of, or what
/// its error says.
pub uninterp spec fn record_key_reading(s: Seq<char>) -> Result<(), Seq<char>>;

/// What a reading came to.
pub open spec fn reading(r: Result<(), String>) -> Result<(), Seq<char>> {
    match r {
        Ok(_) => Ok(()),
        Err(why) => Err(why@),
    }
}

/// `veilid_core::RecordKey::from_str`, for as long a text as its decoder takes
/// without a panic: whether the text is a record key, and if not, what the error
/// says, either of which depends on the text alone.
#[verifier::external_body]
pub(crate) fn read_record_key(s: &str) -> (r: Result<(), String>)
    requires
        encode_utf8(s@).len() <= usize::MAX / 8,
    ensures
        reading(r) == record_key_reading(s@),
{
    veilid_core::RecordKey::from_str(s).map(|_| ()).map_err(|e| e.to_string())
}

/// Whether `KeyPair::from_str` takes a text.
pub uninterp spec fn key_pair_reads(s: Seq<char>) -> bool;

/// `veilid_core::KeyPair::from_str`, for as long a text as its decoder takes
/// without a panic: whether the text is a key pair, which depends on the text
/// alone.
#[verifier::external_body]
pub(crate) fn is_key_pair(s: &str) -> (r: bool)
    requires
        encode_utf8(s@).len() <= usize::MAX / 8,
    ensures
        r == key_pair_reads(s@),
{
    veilid_core::KeyPair::from_str(s).is_ok()
}

} // verus!
