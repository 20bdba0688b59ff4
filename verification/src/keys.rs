//! Record keys and the pairs that own them, as text.

use vstd::prelude::*;
use vstd::utf8::*;

use crate::foreign;
use crate::foreign::{is_key_pair, read_record_key};
use crate::social;
use crate::social::saved_identity;
use crate::text;

verus! {

/// What comes of reading a text as a record key. One that is longer than the
/// decoder takes is not read.
pub open spec fn key_reading(s: Seq<char>) -> Result<(), Seq<char>> {
    if encode_utf8(s).len() <= usize::MAX / 8 {
        foreign::record_key_reading(s)
    } else {
        Err("too long to be read"@)
    }
}

/// Whether a text is a record key.
pub open spec fn is_key(s: Seq<char>) -> bool {
    key_reading(s) is Ok
}

/// Whether a text is a key pair. One that is longer than the decoder takes is
/// none.
pub open spec fn is_pair(s: Seq<char>) -> bool {
    encode_utf8(s).len() <= usize::MAX / 8 && foreign::key_pair_reads(s)
}

/// Read a text as a record key.
fn read_key(s: &str) -> (r: Result<(), String>)
    ensures
        foreign::reading(r) == key_reading(s@),
{
    if s.as_bytes().len() <= usize::MAX / 8 {
        read_record_key(s)
    } else {
        Err("too long to be read".to_owned())
    }
}

/// Whether a text is a record key.
pub fn reads_as_key(s: &str) -> (r: bool)
    ensures
        r == is_key(s@),
{
    read_key(s).is_ok()
}

/// Whether a text is a key pair.
pub fn reads_as_pair(s: &str) -> (r: bool)
    ensures
        r == is_pair(s@),
{
    s.as_bytes().len() <= usize::MAX / 8 && is_key_pair(s)
}

/// What is complained of in a rendezvous key, given what came of reading it.
pub open spec fn rendezvous_complaint(reading: Result<(), Seq<char>>) -> Result<(), Seq<char>> {
    match reading {
        Ok(_) => Ok(()),
        Err(why) => Err(
            Seq::<char>::empty() + "that does not look like a rendezvous key: "@ + why,
        ),
    }
}

/// What is complained of in a rendezvous key, given what came of reading it.
pub fn rendezvous_or_reason(reading: Result<(), String>) -> (r: Result<(), String>)
    ensures
        foreign::reading(r) == rendezvous_complaint(foreign::reading(reading)),
{
    match reading {
        Ok(_) => Ok(()),
        Err(why) => {
            let mut out = String::new();
            out.append("that does not look like a rendezvous key: ");
            out.append(why.as_str());
            Err(out)
        },
    }
}

/// Check a rendezvous key before it is looked up.
pub fn check_rendezvous(key: &str) -> (r: Result<(), String>)
    ensures
        foreign::reading(r) == rendezvous_complaint(key_reading(key@)),
        r is Ok == is_key(key@),
{
    rendezvous_or_reason(read_key(key))
}

/// The saved key and pair, if both of them can be read.
pub open spec fn usable_in(saved: Seq<char>) -> Option<(Seq<char>, Seq<char>)> {
    match social::identity_in(saved) {
        Some((key, pair)) => if is_key(key) && is_pair(pair) {
            Some((key, pair))
        } else {
            None
        },
        None => None,
    }
}

/// A key and a pair, if both of them were found readable.
pub fn if_readable(key: String, pair: String, key_reads: bool, pair_reads: bool) -> (r: Option<
    (String, String),
>)
    ensures
        r == (if key_reads && pair_reads {
            Some((key, pair))
        } else {
            None
        }),
{
    if key_reads && pair_reads {
        Some((key, pair))
    } else {
        None
    }
}

/// Find the key and the pair in a saved file that can be used again. Without
/// them a new record is made, and the old key simply stops being answered.
pub fn usable_identity(saved: &str) -> (r: Option<(String, String)>)
    ensures
        match r {
            None => usable_in(saved@) is None,
            Some((key, pair)) => usable_in(saved@) == Some((key@, pair@)),
        },
{
    match saved_identity(saved) {
        Some((key, pair)) => {
            let key_reads = reads_as_key(key.as_str());
            let pair_reads = reads_as_pair(pair.as_str());
            if_readable(key, pair, key_reads, pair_reads)
        },
        None => None,
    }
}

/// An identity that is saved is the one that is used again, as long as its key
/// and its pair can be read.
pub proof fn law_a_saved_identity_is_used_again(key: Seq<char>, pair: Seq<char>)
    requires
        !key.contains('\n'),
        !pair.contains('\n'),
        key.len() > 0 ==> key.last() != '\r',
        pair.len() > 0 ==> pair.last() != '\r',
    ensures
        usable_in(social::identity_lines(key, pair)) == if is_key(key) && is_pair(pair) {
            Some((key, pair))
        } else {
            None
        },
{
    social::law_a_saved_identity_is_found_again(key, pair);
}

/// Every text that the decoder takes is read, as a key and as a pair, and a text
/// is complained of as a rendezvous key exactly if it is not a key, with the reason.
pub proof fn law_every_text_is_read_that_can_be(s: Seq<char>, why: Seq<char>)
    ensures
        encode_utf8(s).len() <= usize::MAX / 8 ==> key_reading(s) == foreign::record_key_reading(s),
        encode_utf8(s).len() <= usize::MAX / 8 ==> is_pair(s) == foreign::key_pair_reads(s),
        encode_utf8(s).len() > usize::MAX / 8 ==> !is_key(s) && !is_pair(s),
        rendezvous_complaint(Ok(())) == Ok::<(), Seq<char>>(()),
        rendezvous_complaint(Err(why)) == Err::<(), Seq<char>>(
            "that does not look like a rendezvous key: "@ + why,
        ),
{
    assert(Seq::<char>::empty() + "that does not look like a rendezvous key: "@ + why
        =~= "that does not look like a rendezvous key: "@ + why);
}

/// A saved file is used again exactly if its first line is a key and its second a
/// pair.
pub proof fn law_what_is_used_of_a_saved_file(saved: Seq<char>)
    ensures
        usable_in(saved) is Some <==> text::lines(saved).len() >= 2 && is_key(text::lines(saved)[0])
            && is_pair(text::lines(saved)[1]),
        usable_in(saved) matches Some((key, pair)) ==> key == text::lines(saved)[0] && pair
            == text::lines(saved)[1],
{
}

} // verus!
