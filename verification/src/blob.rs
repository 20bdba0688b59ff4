//! Route blobs as text, the way they are pasted and published.

use vstd::prelude::*;
use vstd::utf8::*;

use crate::bytes::copy_of;
use crate::foreign;
use crate::foreign::{base64_decode, base64_encode};
use crate::proto;
use crate::text;

verus! {

/// What a pasted blob reads as, given what came of decoding it.
pub open spec fn blob_or_complaint(decoded: Result<Seq<u8>, Seq<char>>) -> Result<
    Seq<u8>,
    Seq<char>,
> {
    match decoded {
        Ok(blob) => Ok(blob),
        Err(why) => Err(
            Seq::<char>::empty() + "that does not look like a route blob: "@ + why,
        ),
    }
}

/// What a pasted blob reads as. White space round it does not count.
pub open spec fn read_blob(connect: Seq<char>) -> Result<Seq<u8>, Seq<char>> {
    blob_or_complaint(decoded_text(encode_utf8(text::trimmed(connect))))
}

/// What comes of decoding a text. One that is longer than the decoder takes is
/// not decoded.
pub open spec fn decoded_text(input: Seq<u8>) -> Result<Seq<u8>, Seq<char>> {
    if input.len() <= usize::MAX / 8 {
        foreign::base64_decoded(input)
    } else {
        Err("too long to be read"@)
    }
}

/// Decode a text, unless it is longer than the decoder takes.
fn decode_text(input: &[u8]) -> (r: Result<Vec<u8>, String>)
    ensures
        foreign::decoding(r) == decoded_text(input@),
{
    if input.len() <= usize::MAX / 8 {
        base64_decode(input)
    } else {
        Err("too long to be read".to_owned())
    }
}

/// What a pasted blob reads as, given what came of decoding it.
pub fn blob_or_reason(decoded: Result<Vec<u8>, String>) -> (r: Result<Vec<u8>, String>)
    ensures
        foreign::decoding(r) == blob_or_complaint(foreign::decoding(decoded)),
{
    match decoded {
        Ok(blob) => Ok(blob),
        Err(why) => {
            let mut out = String::new();
            out.append("that does not look like a route blob: ");
            out.append(why.as_str());
            Err(out)
        },
    }
}

/// Read a pasted blob.
pub fn decode_blob(connect: &str) -> (r: Result<Vec<u8>, String>)
    ensures
        foreign::decoding(r) == read_blob(connect@),
{
    let bare = text::trim(connect);
    blob_or_reason(decode_text(bare.as_str().as_bytes()))
}

/// A blob as text, to be pasted: reading it gives the blob back, and so does
/// reading it with white space round it.
pub fn blob_text(blob: &[u8]) -> (r: String)
    requires
        blob@.len() <= usize::MAX / 512,
    ensures
        r@ == foreign::base64_encoded(blob@),
        read_blob(r@) matches Ok(back) && back == blob@,
        dialled(seq![r@]) == seq![blob@],
{
    let r = base64_encode(blob);
    proof {
        text::lemma_trim_start(r@, 0);
        assert(r@.skip(0) == r@);
        text::lemma_trim_end(r@, r@.len() as int);
        assert(r@.take(r@.len() as int) == r@);
        reveal_with_fuel(kept, 2);
        assert(decodings(seq![r@]) == seq![Ok::<Seq<u8>, Seq<char>>(blob@)]);
        assert(decodings(seq![r@]).drop_last() == Seq::<Result<Seq<u8>, Seq<char>>>::empty());
        assert(dialled(seq![r@]) == seq![blob@]);
    }
    r
}

/// What came of decoding each of the published routes.
pub open spec fn decodings(routes: Seq<Seq<char>>) -> Seq<Result<Seq<u8>, Seq<char>>> {
    routes.map_values(|s: Seq<char>| decoded_text(encode_utf8(s)))
}

/// The blobs among the decodings, in order.
pub open spec fn kept(decoded: Seq<Result<Seq<u8>, Seq<char>>>) -> Seq<Seq<u8>>
    decreases decoded.len(),
{
    if decoded.len() == 0 {
        Seq::empty()
    } else {
        match decoded.last() {
            Ok(blob) => kept(decoded.drop_last()).push(blob),
            Err(_) => kept(decoded.drop_last()),
        }
    }
}

/// The blobs of the published routes that can be read, in order.
pub open spec fn dialled(routes: Seq<Seq<char>>) -> Seq<Seq<u8>> {
    kept(decodings(routes))
}

/// What a list of decodings holds.
pub open spec fn outcomes(v: Seq<Result<Vec<u8>, String>>) -> Seq<Result<Seq<u8>, Seq<char>>> {
    v.map_values(|r: Result<Vec<u8>, String>| foreign::decoding(r))
}

/// The blobs among the decodings, in order.
pub fn keep_readable(decoded: Vec<Result<Vec<u8>, String>>) -> (r: Vec<Vec<u8>>)
    ensures
        proto::blob_list(r@) == kept(outcomes(decoded@)),
{
    let ghost all = outcomes(decoded@);
    let mut out: Vec<Vec<u8>> = Vec::new();
    let mut i: usize = 0;
    assert(all.take(0).len() == 0);
    while i < decoded.len()
        invariant
            i <= decoded@.len(),
            all == outcomes(decoded@),
            proto::blob_list(out@) == kept(all.take(i as int)),
        decreases decoded@.len() - i,
    {
        let ghost done = proto::blob_list(out@);
        assert(all.take(i + 1).drop_last() == all.take(i as int));
        assert(all.take(i + 1).last() == foreign::decoding(decoded@[i as int]));
        match &decoded[i] {
            Ok(blob) => {
                let copy = copy_of(blob.as_slice(), 0, blob.len());
                assert(copy@ == blob@);
                out.push(copy);
                assert(proto::blob_list(out@) == done.push(blob@));
            },
            Err(_) => {},
        }
        i = i + 1;
    }
    assert(all.take(i as int) == all);
    out
}

/// The blobs of the published routes that can be read, in order. One that
/// cannot is passed over: the peer publishes spares.
pub fn dialable(routes: &Vec<String>) -> (r: Vec<Vec<u8>>)
    ensures
        proto::blob_list(r@) == dialled(text::texts(routes@)),
{
    let ghost all = decodings(text::texts(routes@));
    let mut decoded: Vec<Result<Vec<u8>, String>> = Vec::new();
    let mut i: usize = 0;
    while i < routes.len()
        invariant
            i <= routes@.len(),
            all == decodings(text::texts(routes@)),
            outcomes(decoded@) == all.take(i as int),
        decreases routes@.len() - i,
    {
        let ghost done = outcomes(decoded@);
        let one = decode_text(routes[i].as_str().as_bytes());
        decoded.push(one);
        assert(outcomes(decoded@) == done.push(foreign::decoding(one)));
        assert(all[i as int] == foreign::decoding(one));
        assert(all.take(i + 1) == all.take(i as int).push(all[i as int]));
        i = i + 1;
    }
    assert(all.take(i as int) == all);
    keep_readable(decoded)
}

/// White space round a pasted blob does not count.
pub proof fn law_white_space_round_a_blob_does_not_count(
    lead: Seq<char>,
    connect: Seq<char>,
    lag: Seq<char>,
)
    requires
        forall|i: int| 0 <= i < lead.len() ==> text::is_space(#[trigger] lead[i]),
        forall|i: int| 0 <= i < lag.len() ==> text::is_space(#[trigger] lag[i]),
        connect.len() > 0,
        !text::is_space(connect[0]),
        !text::is_space(connect.last()),
    ensures
        read_blob(lead + connect + lag) == read_blob(connect),
{
    let s = lead + connect + lag;
    let n = lead.len() as int;
    let m = connect.len() as int;
    assert forall|i: int| 0 <= i < n implies text::is_space(#[trigger] s[i]) by {
        assert(s[i] == lead[i]);
    }
    assert(s[n] == connect[0]);
    text::lemma_trim_start(s, n);
    let t = s.skip(n);
    assert forall|i: int| m <= i < t.len() implies text::is_space(#[trigger] t[i]) by {
        assert(t[i] == lag[i - m]);
    }
    assert(t[m - 1] == connect.last());
    text::lemma_trim_end(t, m);
    assert(t.take(m) =~= connect);
    text::lemma_trim_start(connect, 0);
    assert(connect.skip(0) =~= connect);
    text::lemma_trim_end(connect, m);
    assert(connect.take(m) =~= connect);
}

/// What can be decoded is the blob, and of anything else it is said why not.
pub proof fn law_a_blob_is_what_was_decoded(blob: Seq<u8>, why: Seq<char>)
    ensures
        blob_or_complaint(Ok(blob)) == Ok::<Seq<u8>, Seq<char>>(blob),
        blob_or_complaint(Err(why)) == Err::<Seq<u8>, Seq<char>>(
            "that does not look like a route blob: "@ + why,
        ),
{
    assert(Seq::<char>::empty() + "that does not look like a route blob: "@ + why
        =~= "that does not look like a route blob: "@ + why);
}

/// Every blob that could be decoded is kept, in order, and nothing else is.
pub proof fn law_every_readable_blob_is_kept(
    a: Seq<Result<Seq<u8>, Seq<char>>>,
    b: Seq<Result<Seq<u8>, Seq<char>>>,
    blob: Seq<u8>,
    why: Seq<char>,
)
    ensures
        kept(a + b) == kept(a) + kept(b),
        kept(seq![Ok::<Seq<u8>, Seq<char>>(blob)]) == seq![blob],
        kept(seq![Err::<Seq<u8>, Seq<char>>(why)]).len() == 0,
    decreases b.len(),
{
    let one = seq![Ok::<Seq<u8>, Seq<char>>(blob)];
    let none = seq![Err::<Seq<u8>, Seq<char>>(why)];
    assert(one.drop_last() =~= Seq::<Result<Seq<u8>, Seq<char>>>::empty());
    assert(none.drop_last() =~= Seq::<Result<Seq<u8>, Seq<char>>>::empty());
    assert(kept(one.drop_last()) =~= Seq::<Seq<u8>>::empty());
    assert(kept(none.drop_last()) =~= Seq::<Seq<u8>>::empty());
    assert(kept(one) =~= seq![blob]);
    if b.len() == 0 {
        assert(a + b =~= a);
        assert(kept(a) + kept(b) =~= kept(a));
    } else {
        law_every_readable_blob_is_kept(a, b.drop_last(), blob, why);
        assert((a + b).drop_last() =~= a + b.drop_last());
        assert((a + b).last() == b.last());
        assert(kept(a + b) =~= kept(a) + kept(b));
    }
}

/// Every text that the decoder takes is decoded, and every route that can be is
/// dialled, in the order in which the routes are published.
pub proof fn law_every_text_is_decoded_that_can_be(input: Seq<u8>, routes: Seq<Seq<char>>)
    ensures
        input.len() <= usize::MAX / 8 ==> decoded_text(input) == foreign::base64_decoded(input),
        input.len() > usize::MAX / 8 ==> decoded_text(input) is Err,
        dialled(routes) == kept(routes.map_values(|s: Seq<char>| decoded_text(encode_utf8(s)))),
{
}

} // verus!
