//! What a very small HTTP/1.1 server needs, for one browser on one machine.
//!
//! This exists to hand a local page some JSON, so it knows only what that needs:
//! GET and POST, a fixed set of paths, no keep-alive, no chunked encoding. The
//! socket itself is held elsewhere, and bound to loopback only.

use vstd::prelude::*;
use vstd::utf8::*;

use crate::bytes::copy_of;
use crate::foreign;
use crate::foreign::{json_read, json_write, utf8_lossy, JsonField, Piece};
use crate::text;
use crate::text::{chars_of, find, lines_of, same, space, text_of};

verus! {

/// Bodies are small JSON; anything larger is a mistake or an attack.
pub const MAX_BODY: usize = 1048576;

/// Headers likewise.
pub const MAX_HEADERS: usize = 16384;

/// What JSON is sent as.
pub const JSON_TYPE: &'static str = "application/json; charset=utf-8";

/// The arguments of a query string.
pub struct Query {
    pub pairs: Vec<(String, String)>,
}

pub struct Request {
    pub method: String,
    pub path: String,
    pub query: Query,
    pub body: Vec<u8>,
}

pub struct Response {
    pub status: u16,
    pub content_type: &'static str,
    pub body: Vec<u8>,
}

// ---------------------------------------------------------------------------
// query strings
// ---------------------------------------------------------------------------

/// What a list of arguments says.
pub open spec fn pairs_of(v: Seq<(String, String)>) -> Seq<(Seq<char>, Seq<char>)> {
    v.map_values(|p: (String, String)| (p.0@, p.1@))
}

/// Arguments by their names. The last of several with one name counts.
pub open spec fn arguments(v: Seq<(Seq<char>, Seq<char>)>) -> Map<Seq<char>, Seq<char>>
    decreases v.len(),
{
    if v.len() == 0 {
        Map::empty()
    } else {
        arguments(v.drop_last()).insert(v.last().0, v.last().1)
    }
}

impl View for Query {
    type V = Map<Seq<char>, Seq<char>>;

    open spec fn view(&self) -> Map<Seq<char>, Seq<char>> {
        arguments(pairs_of(self.pairs@))
    }
}

/// The last argument of that name is the one that counts.
proof fn lemma_argument_is_the_last(v: Seq<(Seq<char>, Seq<char>)>, name: Seq<char>, at: int)
    requires
        -1 <= at < v.len(),
        at >= 0 ==> v[at].0 == name,
        forall|i: int| at < i < v.len() ==> (#[trigger] v[i]).0 != name,
    ensures
        arguments(v).contains_key(name) == (at >= 0),
        at >= 0 ==> arguments(v)[name] == v[at].1,
    decreases v.len(),
{
    if v.len() > 0 && at < v.len() - 1 {
        let front = v.drop_last();
        assert(v[v.len() - 1].0 != name);
        assert forall|i: int| at < i < front.len() implies (#[trigger] front[i]).0 != name by {
            assert(v[i].0 != name);
        }
        lemma_argument_is_the_last(front, name, at);
    }
}

impl Query {
    /// A query without arguments.
    pub fn new() -> (r: Query)
        ensures
            r@ == Map::<Seq<char>, Seq<char>>::empty(),
    {
        let r = Query { pairs: Vec::new() };
        assert(pairs_of(r.pairs@).len() == 0);
        r
    }

    /// The argument of that name, if there is one.
    pub fn get(&self, name: &str) -> (r: Option<&String>)
        ensures
            match r {
                None => !self@.contains_key(name@),
                Some(value) => self@.contains_key(name@) && self@[name@] == value@,
            },
    {
        let ghost all = pairs_of(self.pairs@);
        let mut i: usize = self.pairs.len();
        while i > 0
            invariant
                i <= self.pairs@.len(),
                all == pairs_of(self.pairs@),
                forall|j: int| i <= j < all.len() ==> (#[trigger] all[j]).0 != name@,
            decreases i,
        {
            i = i - 1;
            assert(all[i as int] == (self.pairs@[i as int].0@, self.pairs@[i as int].1@));
            if same(self.pairs[i].0.as_str(), name) {
                proof {
                    lemma_argument_is_the_last(all, name@, i as int);
                }
                return Some(&self.pairs[i].1);
            }
        }
        proof {
            lemma_argument_is_the_last(all, name@, -1);
        }
        None
    }
}

/// Whether a byte is a hexadecimal digit.
pub open spec fn is_hex(b: u8) -> bool {
    ||| 0x30 <= b <= 0x39
    ||| 0x41 <= b <= 0x46
    ||| 0x61 <= b <= 0x66
}

/// What a hexadecimal digit stands for.
pub open spec fn hex_value(b: u8) -> int {
    if b <= 0x39 {
        b - 0x30
    } else if b <= 0x46 {
        b - 0x41 + 10
    } else {
        b - 0x61 + 10
    }
}

/// `b` with its escapes replaced: a percent sign and two hexadecimal digits by
/// the byte they name, and a plus sign by a space. Anything else stays as it is.
pub open spec fn unescaped(b: Seq<u8>) -> Seq<u8>
    decreases b.len(),
{
    if b.len() == 0 {
        b
    } else if b[0] == 0x25 && b.len() > 2 && is_hex(b[1]) && is_hex(b[2]) {
        seq![(16 * hex_value(b[1]) + hex_value(b[2])) as u8] + unescaped(b.skip(3))
    } else if b[0] == 0x2b {
        seq![0x20u8] + unescaped(b.skip(1))
    } else {
        seq![b[0]] + unescaped(b.skip(1))
    }
}

/// What a piece of a query string stands for.
pub open spec fn percent_decoded(s: Seq<char>) -> Seq<char> {
    foreign::lossy_text(unescaped(encode_utf8(s)))
}

/// What a hexadecimal digit stands for, if it is one.
fn hex_digit(b: u8) -> (r: Option<u8>)
    ensures
        match r {
            None => !is_hex(b),
            Some(v) => is_hex(b) && v == hex_value(b) && v < 16,
        },
{
    if 0x30 <= b && b <= 0x39 {
        Some(b - 0x30)
    } else if 0x41 <= b && b <= 0x46 {
        Some(b - 0x41 + 10)
    } else if 0x61 <= b && b <= 0x66 {
        Some(b - 0x61 + 10)
    } else {
        None
    }
}

/// `b` with its escapes replaced.
fn unescape(b: &[u8]) -> (r: Vec<u8>)
    ensures
        r@ == unescaped(b@),
{
    let mut out: Vec<u8> = Vec::new();
    let mut i: usize = 0;
    let n: usize = b.len();
    assert(b@.skip(0) == b@);
    assert(out@ + unescaped(b@.skip(0)) == unescaped(b@));
    while i < n
        invariant
            n == b@.len(),
            i <= n,
            out@ + unescaped(b@.skip(i as int)) == unescaped(b@),
        decreases n - i,
    {
        let ghost rest = b@.skip(i as int);
        let ghost done = out@;
        let mut escaped: Option<u8> = None;
        if b[i] == 0x25 && n - i > 2 {
            match (hex_digit(b[i + 1]), hex_digit(b[i + 2])) {
                (Some(h), Some(l)) => {
                    escaped = Some(16 * h + l);
                },
                _ => {},
            }
        }
        assert(n - i > 2 ==> rest[1] == b@[i + 1] && rest[2] == b@[i + 2]);
        match escaped {
            Some(v) => {
                out.push(v);
                assert(rest.skip(3) == b@.skip(i + 3));
                assert(unescaped(rest) == seq![v] + unescaped(b@.skip(i + 3)));
                assert(out@ + unescaped(b@.skip(i + 3)) == done + unescaped(rest));
                i = i + 3;
            },
            None => {
                let v: u8 = if b[i] == 0x2b { 0x20 } else { b[i] };
                out.push(v);
                assert(rest.skip(1) == b@.skip(i + 1));
                assert(unescaped(rest) == seq![v] + unescaped(b@.skip(i + 1)));
                assert(out@ + unescaped(b@.skip(i + 1)) == done + unescaped(rest));
                i = i + 1;
            },
        }
    }
    assert(b@.skip(n as int).len() == 0);
    assert(out@ + unescaped(b@.skip(n as int)) == out@);
    out
}

/// Percent-decoding, for query strings. Invalid escapes are left as written
/// rather than dropped, so a stray `%` in a search box is not silently eaten.
pub fn percent_decode(s: &str) -> (r: String)
    ensures
        r@ == percent_decoded(s@),
{
    let raw = unescape(s.as_bytes());
    utf8_lossy(raw.as_slice())
}

/// One argument: its name and its value, of which the second may be missing.
pub open spec fn argument(part: Seq<char>) -> (Seq<char>, Seq<char>) {
    let n = text::before(part, '=');
    if n < part.len() {
        (percent_decoded(part.take(n)), percent_decoded(part.skip(n + 1)))
    } else {
        (percent_decoded(part), Seq::empty())
    }
}

/// The arguments of a query string in the order in which they stand there. An
/// empty one does not count.
pub open spec fn listed(s: Seq<char>) -> Seq<(Seq<char>, Seq<char>)>
    decreases s.len(),
{
    let n = text::before(s, '&');
    let part = if 0 <= n < s.len() {
        s.take(n)
    } else {
        s
    };
    let first = if part.len() == 0 {
        Seq::empty()
    } else {
        seq![argument(part)]
    };
    if 0 <= n < s.len() {
        first + listed(s.skip(n + 1))
    } else {
        first
    }
}

/// Read one argument of a query string.
fn read_argument(cs: &Vec<char>, from: usize, to: usize) -> (r: (String, String))
    requires
        from <= to <= cs@.len(),
    ensures
        (r.0@, r.1@) == argument(cs@.subrange(from as int, to as int)),
{
    let ghost part = cs@.subrange(from as int, to as int);
    let j = find(cs, from, to, '=');
    if j < to {
        let name = text_of(cs, from, j);
        let value = text_of(cs, j + 1, to);
        assert(name@ == part.take(j - from));
        assert(value@ == part.skip(j - from + 1));
        (percent_decode(name.as_str()), percent_decode(value.as_str()))
    } else {
        let name = text_of(cs, from, to);
        (percent_decode(name.as_str()), String::new())
    }
}

/// Read a query string.
pub fn parse_query(raw: &str) -> (r: Query)
    ensures
        pairs_of(r.pairs@) == listed(raw@),
        r@ == arguments(listed(raw@)),
{
    let cs = chars_of(raw);
    let n: usize = cs.len();
    let mut pairs: Vec<(String, String)> = Vec::new();
    let mut i: usize = 0;
    let mut more = true;
    assert(cs@.skip(0) == raw@);
    assert(pairs_of(pairs@) + listed(cs@.skip(0)) == listed(raw@));
    while more
        invariant
            n == cs@.len(),
            i <= n,
            more ==> pairs_of(pairs@) + listed(cs@.skip(i as int)) == listed(raw@),
            !more ==> pairs_of(pairs@) == listed(raw@),
        decreases (if more { n - i + 1 } else { 0 }),
    {
        let ghost rest = cs@.skip(i as int);
        let ghost done = pairs_of(pairs@);
        let j = find(&cs, i, n, '&');
        assert(rest == cs@.subrange(i as int, n as int));
        let ghost part = cs@.subrange(i as int, j as int);
        assert(j < n ==> part == rest.take(j - i));
        assert(j == n ==> part == rest);
        if i < j {
            let arg = read_argument(&cs, i, j);
            pairs.push(arg);
            assert(pairs_of(pairs@) == done.push(argument(part)));
            assert(pairs_of(pairs@) == done + seq![argument(part)]);
        }
        if j < n {
            assert(rest.skip(j - i + 1) == cs@.skip(j + 1));
            assert(pairs_of(pairs@) + listed(cs@.skip(j + 1)) == done + listed(rest));
            i = j + 1;
        } else {
            assert(pairs_of(pairs@) == done + listed(rest));
            more = false;
        }
    }
    Query { pairs }
}

// ---------------------------------------------------------------------------
// requests
// ---------------------------------------------------------------------------

/// A text field of a JSON object, trimmed. Missing reads as empty.
pub open spec fn field_of(object: Option<Map<Seq<char>, Piece>>, name: Seq<char>) -> Seq<char> {
    match text_piece(object, name) {
        Some(s) => text::trimmed(s),
        None => Seq::empty(),
    }
}

/// A text field of a JSON object, if there is one.
pub open spec fn text_piece(object: Option<Map<Seq<char>, Piece>>, name: Seq<char>) -> Option<
    Seq<char>,
> {
    match object {
        Some(fields) => if fields.contains_key(name) {
            match fields[name] {
                Piece::Text(s) => Some(s),
                _ => None,
            }
        } else {
            None
        },
        None => None,
    }
}

/// A number field of a JSON object, if there is one.
pub open spec fn number_piece(object: Option<Map<Seq<char>, Piece>>, name: Seq<char>) -> Option<
    u64,
> {
    match object {
        Some(fields) => if fields.contains_key(name) {
            match fields[name] {
                Piece::Uint(n) => Some(n),
                _ => None,
            }
        } else {
            None
        },
        None => None,
    }
}

/// What was read of a JSON object.
pub open spec fn object_in(read: Option<Vec<(String, JsonField)>>) -> Option<
    Map<Seq<char>, Piece>,
> {
    match read {
        Some(fields) => Some(foreign::by_name(foreign::pieces(fields@))),
        None => None,
    }
}

/// The last field of that name is the one that counts.
pub proof fn lemma_field_is_the_last(v: Seq<(Seq<char>, Piece)>, name: Seq<char>, at: int)
    requires
        -1 <= at < v.len(),
        at >= 0 ==> v[at].0 == name,
        forall|i: int| at < i < v.len() ==> (#[trigger] v[i]).0 != name,
    ensures
        foreign::by_name(v).contains_key(name) == (at >= 0),
        at >= 0 ==> foreign::by_name(v)[name] == v[at].1,
    decreases v.len(),
{
    if v.len() > 0 && at < v.len() - 1 {
        let front = v.drop_last();
        assert(v[v.len() - 1].0 != name);
        assert forall|i: int| at < i < front.len() implies (#[trigger] front[i]).0 != name by {
            assert(v[i].0 != name);
        }
        lemma_field_is_the_last(front, name, at);
    }
}

/// The place of the field of that name, or the number of fields if there is
/// none.
fn find_field(fields: &Vec<(String, JsonField)>, name: &str) -> (r: usize)
    ensures
        r <= fields@.len(),
        ({
            let object = foreign::by_name(foreign::pieces(fields@));
            &&& object.contains_key(name@) == (r < fields@.len())
            &&& r < fields@.len() ==> object[name@] == fields@[r as int].1@
        }),
{
    let ghost all = foreign::pieces(fields@);
    let mut i: usize = fields.len();
    while i > 0
        invariant
            i <= fields@.len(),
            all == foreign::pieces(fields@),
            forall|j: int| i <= j < all.len() ==> (#[trigger] all[j]).0 != name@,
        decreases i,
    {
        i = i - 1;
        assert(all[i as int] == (fields@[i as int].0@, fields@[i as int].1@));
        if same(fields[i].0.as_str(), name) {
            proof {
                lemma_field_is_the_last(all, name@, i as int);
            }
            return i;
        }
    }
    proof {
        lemma_field_is_the_last(all, name@, -1);
    }
    fields.len()
}

/// A text field of a JSON object, if there is one.
pub fn text_field(read: &Option<Vec<(String, JsonField)>>, name: &str) -> (r: Option<String>)
    ensures
        match r {
            None => text_piece(object_in(*read), name@) is None,
            Some(s) => text_piece(object_in(*read), name@) == Some(s@),
        },
{
    match read {
        None => None,
        Some(fields) => {
            let i = find_field(fields, name);
            if i < fields.len() {
                match &fields[i].1 {
                    JsonField::Text(s) => Some(s.as_str().to_owned()),
                    _ => None,
                }
            } else {
                None
            }
        },
    }
}

/// A number field of a JSON object, if there is one.
pub fn number_field(read: &Option<Vec<(String, JsonField)>>, name: &str) -> (r: Option<u64>)
    ensures
        r == number_piece(object_in(*read), name@),
{
    match read {
        None => None,
        Some(fields) => {
            let i = find_field(fields, name);
            if i < fields.len() {
                match &fields[i].1 {
                    JsonField::Uint(n) => Some(*n),
                    _ => None,
                }
            } else {
                None
            }
        },
    }
}

/// A text field of a JSON object, trimmed. Missing reads as empty.
pub fn trimmed_field(read: &Option<Vec<(String, JsonField)>>, name: &str) -> (r: String)
    ensures
        r@ == field_of(object_in(*read), name@),
{
    match text_field(read, name) {
        Some(s) => text::trim(s.as_str()),
        None => String::new(),
    }
}

impl Request {
    /// The body as a JSON object, if it is one.
    pub fn json(&self) -> (r: Option<Vec<(String, JsonField)>>)
        ensures
            object_in(r) == foreign::json_object(self.body@),
    {
        json_read(self.body.as_slice())
    }

    /// A string field from the JSON body, trimmed. Missing reads as empty,
    /// which every caller wants to treat the same as blank anyway.
    pub fn field(&self, name: &str) -> (r: String)
        ensures
            r@ == field_of(foreign::json_object(self.body@), name@),
    {
        trimmed_field(&self.json(), name)
    }
}

/// Where the blank line that ends the headers ends, if it is there.
pub open spec fn head_end_in(b: Seq<u8>) -> Option<int>
    decreases b.len(),
{
    if b.len() < 4 {
        None
    } else if b[0] == 0x0d && b[1] == 0x0a && b[2] == 0x0d && b[3] == 0x0a {
        Some(4)
    } else {
        match head_end_in(b.skip(1)) {
            Some(n) => Some(n + 1),
            None => None,
        }
    }
}

/// Where the blank line that ends the headers ends, if it is there.
pub fn head_end(buf: &[u8]) -> (r: Option<usize>)
    ensures
        match r {
            None => head_end_in(buf@) is None,
            Some(n) => head_end_in(buf@) == Some(n as int) && n <= buf@.len(),
        },
{
    let n: usize = buf.len();
    let mut i: usize = 0;
    assert(buf@.skip(0) == buf@);
    while n - i >= 4
        invariant
            n == buf@.len(),
            i <= n,
            match head_end_in(buf@.skip(i as int)) {
                Some(k) => head_end_in(buf@) == Some(k + i),
                None => head_end_in(buf@) is None,
            },
        decreases n - i,
    {
        let ghost rest = buf@.skip(i as int);
        assert(rest[0] == buf@[i as int] && rest[1] == buf@[i + 1] && rest[2] == buf@[i + 2]
            && rest[3] == buf@[i + 3]);
        if buf[i] == 0x0d && buf[i + 1] == 0x0a && buf[i + 2] == 0x0d && buf[i + 3] == 0x0a {
            return Some(i + 4);
        }
        assert(rest.skip(1) == buf@.skip(i + 1));
        i = i + 1;
    }
    None
}

/// What to do with what has come in of a request.
#[derive(Clone, Copy, PartialEq, Eq, Structural)]
pub enum Intake {
    /// Read on.
    More,
    /// The headers are too long.
    Reject,
    /// The headers end here.
    Head(usize),
}

/// What to do with what has come in of a request.
pub fn intake(buf: &[u8]) -> (r: Intake)
    ensures
        match head_end_in(buf@) {
            Some(n) => r == Intake::Head(n as usize) && 0 <= n <= buf@.len(),
            None => r == (if buf@.len() > MAX_HEADERS {
                Intake::Reject
            } else {
                Intake::More
            }),
        },
        r is Reject ==> buf@.len() > 16384,
        r is More ==> buf@.len() <= 16384,
        r is Head <==> head_end_in(buf@) is Some,
{
    match head_end(buf) {
        Some(n) => Intake::Head(n),
        None => if buf.len() > MAX_HEADERS {
            Intake::Reject
        } else {
            Intake::More
        },
    }
}

/// What the headers of a request say.
pub struct Head {
    pub method: String,
    pub path: String,
    pub query: Query,
    pub content_length: usize,
}

/// How many characters come before the first white space.
pub open spec fn word_len(s: Seq<char>) -> int
    decreases s.len(),
{
    if s.len() == 0 || text::is_space(s[0]) {
        0
    } else {
        1 + word_len(s.skip(1))
    }
}

/// The first word of a line, and what stands behind it.
pub open spec fn first_word(line: Seq<char>) -> Option<(Seq<char>, Seq<char>)> {
    let s = text::trim_start(line);
    if s.len() == 0 {
        None
    } else {
        Some((s.take(word_len(s)), s.skip(word_len(s))))
    }
}

/// `c` in lower case, if it is an ASCII letter.
pub open spec fn lower(c: char) -> char {
    if 'A' <= c <= 'Z' {
        ((c as int) + 32) as char
    } else {
        c
    }
}

/// Whether two texts are the same but for the case of ASCII letters.
pub open spec fn same_but_for_case(a: Seq<char>, b: Seq<char>) -> bool {
    a.len() == b.len() && forall|i: int|
        0 <= i < a.len() ==> lower(#[trigger] a[i]) == lower(b[i])
}

/// The number that a text spells out in decimal digits, however large.
pub open spec fn digits_value(s: Seq<char>) -> Option<int>
    decreases s.len(),
{
    if s.len() == 0 {
        Some(0)
    } else if !('0' <= s.last() <= '9') {
        None
    } else {
        match digits_value(s.drop_last()) {
            None => None,
            Some(n) => Some(10 * n + (s.last() as int - '0' as int)),
        }
    }
}

/// The number that a text spells out: decimal digits, at least one, with or
/// without a plus sign, and no more than the machine counts.
pub open spec fn number_in(s: Seq<char>) -> Option<usize> {
    let digits = if s.len() > 0 && s[0] == '+' {
        s.skip(1)
    } else {
        s
    };
    match digits_value(digits) {
        Some(n) => if digits.len() > 0 && n <= usize::MAX {
            Some(n as usize)
        } else {
            None
        },
        None => None,
    }
}

/// The content length that a header line gives, if it is one that does.
pub open spec fn length_in(line: Seq<char>) -> Option<usize> {
    let n = text::before(line, ':');
    if n >= line.len() {
        None
    } else if same_but_for_case(line.take(n), "content-length"@) {
        number_in(text::trimmed(line.skip(n + 1)))
    } else {
        None
    }
}

/// The first content length that any of the lines gives, or none at all.
pub open spec fn first_length(lines: Seq<Seq<char>>) -> usize
    decreases lines.len(),
{
    if lines.len() == 0 {
        0
    } else {
        match length_in(lines[0]) {
            Some(n) => n,
            None => first_length(lines.skip(1)),
        }
    }
}

/// What the headers of a request say, over sequences.
pub struct Heading {
    pub method: Seq<char>,
    pub path: Seq<char>,
    pub query: Map<Seq<char>, Seq<char>>,
    pub content_length: usize,
}

impl View for Head {
    type V = Heading;

    open spec fn view(&self) -> Heading {
        Heading {
            method: self.method@,
            path: self.path@,
            query: self.query@,
            content_length: self.content_length,
        }
    }
}

/// The path and the arguments in the target of a request.
pub open spec fn target_parts(target: Seq<char>) -> (Seq<char>, Map<Seq<char>, Seq<char>>) {
    let n = text::before(target, '?');
    if n < target.len() {
        (target.take(n), arguments(listed(target.skip(n + 1))))
    } else {
        (target, Map::empty())
    }
}

/// What the headers of a request say, if they make sense and announce no more
/// than is taken.
pub open spec fn heading_in(head: Seq<char>) -> Option<Heading> {
    let lines = text::lines(head);
    if lines.len() == 0 {
        None
    } else {
        match first_word(lines[0]) {
            None => None,
            Some((method, rest)) => match first_word(rest) {
                None => None,
                Some((target, _)) => if first_length(lines.skip(1)) > MAX_BODY {
                    None
                } else {
                    Some(
                        Heading {
                            method,
                            path: target_parts(target).0,
                            query: target_parts(target).1,
                            content_length: first_length(lines.skip(1)),
                        },
                    )
                },
            },
        }
    }
}

/// The one number that `word_len` can be.
proof fn lemma_word_len(s: Seq<char>, n: int)
    requires
        0 <= n <= s.len(),
        forall|i: int| 0 <= i < n ==> !text::is_space(#[trigger] s[i]),
        n < s.len() ==> text::is_space(s[n]),
    ensures
        word_len(s) == n,
    decreases n,
{
    if n > 0 {
        assert(!text::is_space(s[0]));
        assert forall|i: int| 0 <= i < n - 1 implies !text::is_space(#[trigger] s.skip(1)[i]) by {
            assert(!text::is_space(s[i + 1]));
        }
        lemma_word_len(s.skip(1), n - 1);
    }
}

/// The first word from `from` on, as the places where it begins and ends.
fn next_word(cs: &Vec<char>, from: usize) -> (r: Option<(usize, usize)>)
    requires
        from <= cs@.len(),
    ensures
        match r {
            None => first_word(cs@.skip(from as int)) is None,
            Some((a, b)) => {
                &&& from <= a <= b <= cs@.len()
                &&& first_word(cs@.skip(from as int)) == Some(
                    (cs@.subrange(a as int, b as int), cs@.skip(b as int)),
                )
            },
        },
{
    let n: usize = cs.len();
    let ghost rest = cs@.skip(from as int);
    let mut a: usize = from;
    while a < n && space(cs[a])
        invariant
            n == cs@.len(),
            from <= a <= n,
            forall|i: int| from <= i < a ==> text::is_space(#[trigger] cs@[i]),
        decreases n - a,
    {
        a = a + 1;
    }
    proof {
        text::lemma_trim_start(rest, a - from);
        assert(rest.skip(a - from) == cs@.skip(a as int));
    }
    if a == n {
        return None;
    }
    let ghost s = cs@.skip(a as int);
    let mut b: usize = a;
    while b < n && !space(cs[b])
        invariant
            n == cs@.len(),
            a <= b <= n,
            forall|i: int| a <= i < b ==> !text::is_space(#[trigger] cs@[i]),
        decreases n - b,
    {
        b = b + 1;
    }
    proof {
        lemma_word_len(s, b - a);
        assert(s.take(b - a) == cs@.subrange(a as int, b as int));
        assert(s.skip(b - a) == cs@.skip(b as int));
    }
    Some((a, b))
}

/// `c` in lower case, if it is an ASCII letter.
fn lowered(c: char) -> (r: u32)
    ensures
        r == lower(c) as u32,
{
    let v: u32 = c as u32;
    if 'A' <= c && c <= 'Z' {
        v + 32
    } else {
        v
    }
}

/// Whether two texts are the same but for the case of ASCII letters.
fn matches_case_blind(a: &str, b: &str) -> (r: bool)
    ensures
        r == same_but_for_case(a@, b@),
{
    let x = chars_of(a);
    let y = chars_of(b);
    if x.len() != y.len() {
        return false;
    }
    let mut i: usize = 0;
    while i < x.len()
        invariant
            i <= x@.len(),
            x@.len() == y@.len(),
            x@ == a@,
            y@ == b@,
            forall|j: int| 0 <= j < i ==> lower(#[trigger] x@[j]) == lower(y@[j]),
        decreases x@.len() - i,
    {
        if lowered(x[i]) != lowered(y[i]) {
            assert(lower(x@[i as int]) != lower(y@[i as int]));
            return false;
        }
        assert(lower(x@[i as int]) as u32 == lower(y@[i as int]) as u32);
        i = i + 1;
    }
    true
}

/// Digits that spell out too much spell out too much with more of them behind.
proof fn lemma_digits_grow(s: Seq<char>, n: int)
    requires
        0 <= n <= s.len(),
        digits_value(s) is Some,
    ensures
        digits_value(s.take(n)) is Some,
        0 <= digits_value(s.take(n))->Some_0 <= digits_value(s)->Some_0,
    decreases s.len(),
{
    if n < s.len() {
        lemma_digits_grow(s.drop_last(), n);
        assert(s.drop_last().take(n) == s.take(n));
    } else {
        assert(s.take(n) == s);
        if s.len() > 0 {
            lemma_digits_grow(s.drop_last(), 0);
        }
    }
}

/// The number that a text spells out.
fn read_number(s: &str) -> (r: Option<usize>)
    ensures
        r == number_in(s@),
{
    let cs = chars_of(s);
    let n: usize = cs.len();
    let start: usize = if n > 0 && cs[0] == '+' { 1 } else { 0 };
    let ghost digits = cs@.skip(start as int);
    assert(start == 0 ==> digits == s@);
    if start == n {
        assert(digits.len() == 0);
        return None;
    }
    let mut v: usize = 0;
    let mut i: usize = start;
    assert(digits.take(0).len() == 0);
    while i < n
        invariant
            n == cs@.len(),
            start <= i <= n,
            digits == cs@.skip(start as int),
            digits == (if s@.len() > 0 && s@[0] == '+' { s@.skip(1) } else { s@ }),
            digits_value(digits.take(i - start)) == Some(v as int),
        decreases n - i,
    {
        let c = cs[i];
        let ghost more = digits.take(i - start + 1);
        assert(more.drop_last() == digits.take(i - start));
        assert(more.last() == c);
        if !('0' <= c && c <= '9') {
            proof {
                if digits_value(digits) is Some {
                    lemma_digits_grow(digits, i - start + 1);
                }
            }
            return None;
        }
        let d: usize = (c as u32 - '0' as u32) as usize;
        match v.checked_mul(10) {
            Some(tens) => match tens.checked_add(d) {
                Some(sum) => {
                    v = sum;
                },
                None => {
                    proof {
                        if digits_value(digits) is Some {
                            lemma_digits_grow(digits, i - start + 1);
                        }
                    }
                    return None;
                },
            },
            None => {
                proof {
                    if digits_value(digits) is Some {
                        lemma_digits_grow(digits, i - start + 1);
                    }
                }
                return None;
            },
        }
        i = i + 1;
    }
    assert(digits.take(n - start) == digits);
    Some(v)
}

/// The content length that a header line gives, if it is one that does.
fn read_length(line: &str) -> (r: Option<usize>)
    ensures
        r == length_in(line@),
{
    let cs = chars_of(line);
    let n: usize = cs.len();
    let j = find(&cs, 0, n, ':');
    assert(cs@.subrange(0, n as int) == line@);
    if j >= n {
        return None;
    }
    let name = text_of(&cs, 0, j);
    assert(name@ == line@.take(j as int));
    if matches_case_blind(name.as_str(), "content-length") {
        let value = text_of(&cs, j + 1, n);
        assert(value@ == line@.skip(j + 1));
        let bare = text::trim(value.as_str());
        read_number(bare.as_str())
    } else {
        None
    }
}

/// The first content length that any line but the first gives.
fn read_first_length(lines: &Vec<String>) -> (r: usize)
    requires
        lines@.len() > 0,
    ensures
        r == first_length(text::texts(lines@).skip(1)),
{
    let ghost all = text::texts(lines@);
    let mut i: usize = 1;
    while i < lines.len()
        invariant
            1 <= i <= lines@.len(),
            all == text::texts(lines@),
            first_length(all.skip(1)) == first_length(all.skip(i as int)),
        decreases lines@.len() - i,
    {
        let ghost rest = all.skip(i as int);
        assert(rest[0] == lines@[i as int]@);
        assert(rest.skip(1) == all.skip(i + 1));
        match read_length(lines[i].as_str()) {
            Some(n) => {
                return n;
            },
            None => {},
        }
        i = i + 1;
    }
    assert(all.skip(i as int).len() == 0);
    0
}

/// Read the headers of a request. Nothing comes of headers that make no sense or
/// announce more than is taken.
pub fn parse_head(head: &[u8]) -> (r: Option<Head>)
    ensures
        match r {
            None => heading_in(foreign::lossy_text(head@)) is None,
            Some(h) => heading_in(foreign::lossy_text(head@)) == Some(h@) && h.content_length
                <= MAX_BODY,
        },
{
    let whole = utf8_lossy(head);
    let lines = lines_of(whole.as_str());
    if lines.len() == 0 {
        assert(text::texts(lines@).len() == 0);
        return None;
    }
    assert(text::texts(lines@)[0] == lines@[0]@);
    let first = chars_of(lines[0].as_str());
    assert(first@.skip(0) == first@);
    let (a, b) = match next_word(&first, 0) {
        None => {
            return None;
        },
        Some(span) => span,
    };
    let (c, d) = match next_word(&first, b) {
        None => {
            return None;
        },
        Some(span) => span,
    };
    let content_length: usize = read_first_length(&lines);
    if content_length > MAX_BODY {
        return None;
    }
    let method = text_of(&first, a, b);
    let ghost target = first@.subrange(c as int, d as int);
    let j = find(&first, c, d, '?');
    let path = text_of(&first, c, j);
    assert(j < d ==> path@ == target.take(j - c));
    assert(j == d ==> path@ == target);
    let query = if j < d {
        let raw = text_of(&first, j + 1, d);
        assert(raw@ == target.skip(j - c + 1));
        parse_query(raw.as_str())
    } else {
        Query::new()
    };
    assert(query@ == target_parts(target).1);
    Some(Head { method, path, query, content_length })
}

/// The request, once as much of its body is there as is going to come. What
/// comes behind the announced length is dropped.
pub fn finish_request(head: Head, body: &[u8]) -> (r: Request)
    ensures
        r.method == head.method,
        r.path == head.path,
        r.query == head.query,
        r.body@ == (if body@.len() <= head.content_length {
            body@
        } else {
            body@.take(head.content_length as int)
        }),
        r.body@.len() == if body@.len() < head.content_length {
            body@.len() as int
        } else {
            head.content_length as int
        },
        forall|i: int| 0 <= i < r.body@.len() ==> #[trigger] r.body@[i] == body@[i],
{
    let n: usize = if body.len() <= head.content_length { body.len() } else { head.content_length };
    let body_kept = copy_of(body, 0, n);
    assert(body@.subrange(0, n as int) == (if body@.len() <= head.content_length {
        body@
    } else {
        body@.take(head.content_length as int)
    }));
    Request { method: head.method, path: head.path, query: head.query, body: body_kept }
}

// ---------------------------------------------------------------------------
// responses
// ---------------------------------------------------------------------------

/// What a status is called.
pub open spec fn reason_text(status: u16) -> Seq<char> {
    if status == 400 {
        "Bad Request"@
    } else if status == 404 {
        "Not Found"@
    } else if status == 413 {
        "Payload Too Large"@
    } else if status == 500 {
        "Internal Server Error"@
    } else {
        "OK"@
    }
}

/// What a status is called.
pub fn reason(status: u16) -> (r: &'static str)
    ensures
        r@ == reason_text(status),
{
    if status == 400 {
        "Bad Request"
    } else if status == 404 {
        "Not Found"
    } else if status == 413 {
        "Payload Too Large"
    } else if status == 500 {
        "Internal Server Error"
    } else {
        "OK"
    }
}

/// What goes out in front of a body.
pub open spec fn head_text(status: u16, content_type: Seq<char>, len: int) -> Seq<char> {
    let s = Seq::<char>::empty()
        + "HTTP/1.1 "@
        + text::decimal(status as nat)
        + " "@
        + reason_text(status)
        + "\r\nContent-Type: "@
        + content_type
        + "\r\nContent-Length: "@
        + text::decimal(len as nat)
        + "\r\nConnection: close\r\nCache-Control: no-store\r\nX-Content-Type-Options: nosniff\r\n\r\n"@;
    s
}

/// The fields of an error.
pub open spec fn error_fields(message: Seq<char>) -> Seq<(Seq<char>, Piece)> {
    seq![("error"@, Piece::Text(message))]
}

/// What goes back to the browser, over sequences.
pub struct Sent {
    pub status: u16,
    pub content_type: Seq<char>,
    pub body: Seq<u8>,
}

impl View for Response {
    type V = Sent;

    open spec fn view(&self) -> Sent {
        Sent { status: self.status, content_type: self.content_type@, body: self.body@ }
    }
}

/// An object as JSON.
pub open spec fn json_reply(fields: Seq<(Seq<char>, Piece)>) -> Sent {
    Sent { status: 200, content_type: JSON_TYPE@, body: foreign::json_bytes(fields) }
}

/// What went wrong, as JSON.
pub open spec fn error_reply(status: u16, message: Seq<char>) -> Sent {
    Sent {
        status,
        content_type: JSON_TYPE@,
        body: foreign::json_bytes(error_fields(message)),
    }
}

/// A page.
pub open spec fn asset_reply(content_type: Seq<char>, body: Seq<char>) -> Sent {
    Sent { status: 200, content_type, body: encode_utf8(body) }
}

impl Response {
    /// An object as JSON.
    pub fn json(fields: Vec<(String, JsonField)>) -> (r: Response)
        ensures
            r@ == json_reply(foreign::pieces(fields@)),
    {
        Response { status: 200, content_type: JSON_TYPE, body: json_write(fields) }
    }

    /// A body that is JSON already.
    pub fn json_body(body: Vec<u8>) -> (r: Response)
        ensures
            r@ == (Sent { status: 200, content_type: JSON_TYPE@, body: body@ }),
    {
        Response { status: 200, content_type: JSON_TYPE, body }
    }

    /// What went wrong, as JSON.
    pub fn error(status: u16, message: &str) -> (r: Response)
        ensures
            r@ == error_reply(status, message@),
            field_of(foreign::json_object(r.body@), "error"@) == text::trimmed(message@),
    {
        let mut fields: Vec<(String, JsonField)> = Vec::new();
        fields.push(("error".to_owned(), JsonField::Text(message.to_owned())));
        proof {
            assert(foreign::pieces(fields@) == error_fields(message@));
            lemma_field_is_the_last(error_fields(message@), "error"@, 0);
        }
        Response { status, content_type: JSON_TYPE, body: json_write(fields) }
    }

    /// A page.
    pub fn asset(content_type: &'static str, body: &str) -> (r: Response)
        ensures
            r@ == asset_reply(content_type@, body@),
    {
        let raw = body.as_bytes();
        let whole = copy_of(raw, 0, raw.len());
        assert(whole@ == raw@);
        Response { status: 200, content_type, body: whole }
    }

    /// What goes out in front of the body.
    pub fn head(&self) -> (r: String)
        ensures
            r@ == head_text(self.status, self.content_type@, self.body@.len() as int),
    {
        let mut out = String::new();
        out.append("HTTP/1.1 ");
        text::put_decimal(&mut out, self.status as u64);
        out.append(" ");
        out.append(reason(self.status));
        out.append("\r\nContent-Type: ");
        out.append(self.content_type);
        out.append("\r\nContent-Length: ");
        text::put_decimal(&mut out, self.body.len() as u64);
        out.append("\r\nConnection: close\r\nCache-Control: no-store\r\nX-Content-Type-Options: nosniff\r\n\r\n");
        out
    }
}

// ---------------------------------------------------------------------------
// laws
// ---------------------------------------------------------------------------

/// Text without a percent sign or a plus sign stands for itself.
pub proof fn law_plain_bytes_are_kept(b: Seq<u8>)
    requires
        forall|i: int| 0 <= i < b.len() ==> #[trigger] b[i] != 0x25 && b[i] != 0x2b,
    ensures
        unescaped(b) == b,
    decreases b.len(),
{
    if b.len() > 0 {
        assert(b[0] != 0x25 && b[0] != 0x2b);
        assert forall|i: int| 0 <= i < b.skip(1).len() implies #[trigger] b.skip(1)[i] != 0x25
            && b.skip(1)[i] != 0x2b by {
            assert(b[i + 1] != 0x25);
        }
        law_plain_bytes_are_kept(b.skip(1));
        assert(seq![b[0]] + b.skip(1) == b);
    }
}

/// A stray percent sign is kept rather than swallowed: one that no two
/// hexadecimal digits follow is left as written.
pub proof fn law_a_stray_percent_is_kept(b: Seq<u8>)
    requires
        b.len() > 0,
        b[0] == 0x25,
        b.len() <= 2 || !is_hex(b[1]) || !is_hex(b[2]),
    ensures
        unescaped(b) == seq![0x25u8] + unescaped(b.skip(1)),
{
}

/// Decoding never lengthens anything.
pub proof fn law_unescaping_never_grows(b: Seq<u8>)
    ensures
        unescaped(b).len() <= b.len(),
    decreases b.len(),
{
    if b.len() > 0 {
        if b.len() > 2 {
            law_unescaping_never_grows(b.skip(3));
        }
        law_unescaping_never_grows(b.skip(1));
    }
}

/// Whether a blank line ends at `n`.
pub open spec fn blank_line_ends_at(b: Seq<u8>, n: int) -> bool {
    &&& 4 <= n <= b.len()
    &&& b[n - 4] == 0x0d
    &&& b[n - 3] == 0x0a
    &&& b[n - 2] == 0x0d
    &&& b[n - 1] == 0x0a
}

/// The headers end where a blank line ends, and at the first such place.
pub proof fn law_headers_end_at_the_first_blank_line(b: Seq<u8>)
    ensures
        match head_end_in(b) {
            Some(n) => blank_line_ends_at(b, n) && forall|k: int|
                k < n ==> !#[trigger] blank_line_ends_at(b, k),
            None => forall|k: int| !#[trigger] blank_line_ends_at(b, k),
        },
    decreases b.len(),
{
    if b.len() >= 4 {
        let rest = b.skip(1);
        law_headers_end_at_the_first_blank_line(rest);
        if !blank_line_ends_at(b, 4) {
            assert forall|k: int| #[trigger] blank_line_ends_at(b, k) implies blank_line_ends_at(
                rest,
                k - 1,
            ) by {
            }
            if let Some(n) = head_end_in(rest) {
                assert(blank_line_ends_at(rest, n));
                assert(blank_line_ends_at(b, n + 1));
            }
        }
    }
}

/// Fields are looked up by their name: a text is a text, a number is a number,
/// anything else is neither, and a field that is not there reads as empty. What
/// is read from a request is without the white space round it.
pub proof fn law_fields_are_looked_up_by_name(object: Map<Seq<char>, Piece>, name: Seq<char>)
    ensures
        object.contains_key(name) ==> match object[name] {
            Piece::Text(s) => text_piece(Some(object), name) == Some(s) && field_of(
                Some(object),
                name,
            ) == text::trimmed(s),
            _ => text_piece(Some(object), name) is None && field_of(Some(object), name).len() == 0,
        },
        object.contains_key(name) ==> match object[name] {
            Piece::Uint(n) => number_piece(Some(object), name) == Some(n),
            _ => number_piece(Some(object), name) is None,
        },
        !object.contains_key(name) ==> text_piece(Some(object), name) is None && number_piece(
            Some(object),
            name,
        ) is None && field_of(Some(object), name).len() == 0,
        field_of(None, name).len() == 0,
{
}

/// The hexadecimal digit for a number below sixteen, in upper or in lower case.
pub open spec fn hex_byte(d: int, upper: bool) -> u8 {
    if d < 10 {
        (0x30 + d) as u8
    } else if upper {
        (0x41 + d - 10) as u8
    } else {
        (0x61 + d - 10) as u8
    }
}

/// Every byte as a percent sign and two hexadecimal digits.
pub open spec fn all_escaped(b: Seq<u8>, upper: bool) -> Seq<u8>
    decreases b.len(),
{
    if b.len() == 0 {
        b
    } else {
        seq![0x25u8, hex_byte(b[0] as int / 16, upper), hex_byte(b[0] as int % 16, upper)]
            + all_escaped(b.skip(1), upper)
    }
}

/// Whatever is escaped comes back, in upper and in lower case.
pub proof fn law_escapes_come_back(b: Seq<u8>, upper: bool)
    ensures
        unescaped(all_escaped(b, upper)) == b,
    decreases b.len(),
{
    if b.len() > 0 {
        let rest = b.skip(1);
        law_escapes_come_back(rest, upper);
        let e = all_escaped(b, upper);
        assert(e.skip(3) =~= all_escaped(rest, upper));
        assert(seq![b[0]] + rest =~= b);
    }
}

/// A plus sign is a space, and what follows an escape or a plain byte is read as
/// if it stood alone.
pub proof fn law_a_plus_is_a_space(rest: Seq<u8>, plain: u8)
    requires
        plain != 0x25,
        plain != 0x2b,
    ensures
        unescaped(seq![0x2bu8] + rest) == seq![0x20u8] + unescaped(rest),
        unescaped(seq![plain] + rest) == seq![plain] + unescaped(rest),
{
    assert((seq![0x2bu8] + rest).skip(1) =~= rest);
    assert((seq![plain] + rest).skip(1) =~= rest);
}

/// The arguments of a query string stand between ampersands, and an empty one
/// does not count.
pub proof fn law_arguments_stand_between_ampersands(part: Seq<char>, rest: Seq<char>)
    requires
        !part.contains('&'),
    ensures
        listed(part + seq!['&'] + rest) == listed(part) + listed(rest),
        part.len() > 0 ==> listed(part) == seq![argument(part)],
        part.len() == 0 ==> listed(part).len() == 0,
{
    let s = part + seq!['&'] + rest;
    let n = part.len() as int;
    assert forall|i: int| 0 <= i < n implies #[trigger] part[i] != '&' by {
        assert(part.contains(part[i]));
    }
    assert forall|i: int| 0 <= i < n implies #[trigger] s[i] != '&' by {
        assert(s[i] == part[i]);
    }
    assert(s[n] == '&');
    text::lemma_before_is(s, '&', n);
    text::lemma_before_is(part, '&', n);
    assert(s.take(n) =~= part);
    assert(s.skip(n + 1) =~= rest);
}

/// The name of an argument ends at the first equals sign, and what follows is its
/// value. Without one there is no value.
pub proof fn law_a_name_ends_at_the_equals_sign(name: Seq<char>, value: Seq<char>)
    requires
        !name.contains('='),
    ensures
        argument(name + seq!['='] + value) == (percent_decoded(name), percent_decoded(value)),
        argument(name) == (percent_decoded(name), Seq::<char>::empty()),
{
    let s = name + seq!['='] + value;
    let n = name.len() as int;
    assert forall|i: int| 0 <= i < n implies #[trigger] name[i] != '=' by {
        assert(name.contains(name[i]));
    }
    assert forall|i: int| 0 <= i < n implies #[trigger] s[i] != '=' by {
        assert(s[i] == name[i]);
    }
    assert(s[n] == '=');
    text::lemma_before_is(s, '=', n);
    text::lemma_before_is(name, '=', n);
    assert(s.take(n) =~= name);
    assert(s.skip(n + 1) =~= value);
}

/// Of several arguments with one name the last counts, and none counts for
/// another name.
pub proof fn law_the_last_argument_counts(
    v: Seq<(Seq<char>, Seq<char>)>,
    name: Seq<char>,
    value: Seq<char>,
    other: Seq<char>,
)
    ensures
        ({
            let more = arguments(v.push((name, value)));
            &&& more.contains_key(name) && more[name] == value
            &&& other != name ==> more.contains_key(other) == arguments(v).contains_key(other)
                && (more.contains_key(other) ==> more[other] == arguments(v)[other])
        }),
        !arguments(Seq::empty()).contains_key(name),
{
    assert(v.push((name, value)).drop_last() =~= v);
}

/// A word is what stands between white space, and behind it stands the rest.
pub proof fn law_a_word_ends_at_white_space(
    lead: Seq<char>,
    word: Seq<char>,
    rest: Seq<char>,
)
    requires
        forall|i: int| 0 <= i < lead.len() ==> text::is_space(#[trigger] lead[i]),
        word.len() > 0,
        forall|i: int| 0 <= i < word.len() ==> !text::is_space(#[trigger] word[i]),
        rest.len() > 0 ==> text::is_space(rest[0]),
    ensures
        first_word(lead + word + rest) == Some((word, rest)),
        first_word(lead) is None,
{
    let line = lead + word + rest;
    let n = lead.len() as int;
    let m = word.len() as int;
    assert forall|i: int| 0 <= i < n implies text::is_space(#[trigger] line[i]) by {
        assert(line[i] == lead[i]);
    }
    assert(line[n] == word[0]);
    text::lemma_trim_start(line, n);
    text::lemma_trim_start(lead, n);
    let s = line.skip(n);
    assert forall|i: int| 0 <= i < m implies !text::is_space(#[trigger] s[i]) by {
        assert(s[i] == word[i]);
    }
    if rest.len() > 0 {
        assert(s[m] == rest[0]);
    }
    lemma_word_len(s, m);
    assert(s.take(m) =~= word);
    assert(s.skip(m) =~= rest);
}

/// The path ends at the first question mark, and what follows are the arguments.
/// Without one there are none.
pub proof fn law_the_path_ends_at_the_question_mark(path: Seq<char>, query: Seq<char>)
    requires
        !path.contains('?'),
    ensures
        target_parts(path + seq!['?'] + query) == (path, arguments(listed(query))),
        target_parts(path) == (path, Map::<Seq<char>, Seq<char>>::empty()),
{
    let s = path + seq!['?'] + query;
    let n = path.len() as int;
    assert forall|i: int| 0 <= i < n implies #[trigger] path[i] != '?' by {
        assert(path.contains(path[i]));
    }
    assert forall|i: int| 0 <= i < n implies #[trigger] s[i] != '?' by {
        assert(s[i] == path[i]);
    }
    assert(s[n] == '?');
    text::lemma_before_is(s, '?', n);
    text::lemma_before_is(path, '?', n);
    assert(s.take(n) =~= path);
    assert(s.skip(n + 1) =~= query);
}

/// A request begins with its method and its target, each a word of the first
/// line. It is taken if the lines behind that announce no more than 1048576
/// bytes.
pub proof fn law_a_request_begins_with_method_and_target(
    head: Seq<char>,
    method: Seq<char>,
    target: Seq<char>,
    rest: Seq<char>,
)
    requires
        text::lines(head).len() > 0,
        text::lines(head)[0] == method + (seq![' '] + target + rest),
        method.len() > 0,
        target.len() > 0,
        forall|i: int| 0 <= i < method.len() ==> !text::is_space(#[trigger] method[i]),
        forall|i: int| 0 <= i < target.len() ==> !text::is_space(#[trigger] target[i]),
        rest.len() > 0 ==> text::is_space(rest[0]),
    ensures
        ({
            let length = first_length(text::lines(head).skip(1));
            &&& heading_in(head) is Some <==> length <= 1048576
            &&& heading_in(head) matches Some(h) ==> {
                &&& h.method == method
                &&& h.path == target_parts(target).0
                &&& h.query == target_parts(target).1
                &&& h.content_length == length
            }
        }),
{
    let line = text::lines(head)[0];
    let tail = seq![' '] + target + rest;
    let none = Seq::<char>::empty();
    assert(none + method + tail =~= line);
    assert(tail[0] == ' ');
    law_a_word_ends_at_white_space(none, method, tail);
    law_a_word_ends_at_white_space(seq![' '], target, rest);
}

/// Letters are the same in upper and in lower case, and nothing else is.
pub proof fn law_only_letters_have_a_case(c: char)
    ensures
        65 <= c as int <= 90 ==> lower(c) as int == c as int + 32,
        !(65 <= c as int <= 90) ==> lower(c) == c,
{
}

/// A number that is written in decimal is read as that number.
pub proof fn law_a_written_number_is_read_back(n: nat)
    ensures
        digits_value(text::decimal(n)) == Some(n as int),
        text::decimal(n).len() > 0,
        text::decimal(n)[0] != '+',
        n <= usize::MAX ==> number_in(text::decimal(n)) == Some(n as usize),
        n > usize::MAX ==> number_in(text::decimal(n)) is None,
        n <= usize::MAX ==> number_in(seq!['+'] + text::decimal(n)) == Some(n as usize),
    decreases n,
{
    let s = text::decimal(n);
    if n < 10 {
        assert(s.drop_last() =~= Seq::<char>::empty());
        assert(digits_value(s.drop_last()) == Some(0int));
    } else {
        law_a_written_number_is_read_back(n / 10);
        assert(s.drop_last() =~= text::decimal(n / 10));
        assert(s[0] == text::decimal(n / 10)[0]);
    }
    assert((seq!['+'] + s).skip(1) =~= s);
}

/// A header gives the content length if that is its name, in whatever case, and
/// its value a number. A line without a colon gives none.
pub proof fn law_only_one_header_gives_the_length(name: Seq<char>, value: Seq<char>, n: usize)
    requires
        !name.contains(':'),
    ensures
        same_but_for_case(name, "content-length"@) && text::trimmed(value) == text::decimal(
            n as nat,
        ) ==> length_in(name + seq![':'] + value) == Some(n),
        !same_but_for_case(name, "content-length"@) ==> length_in(name + seq![':'] + value) is None,
        length_in(name) is None,
{
    let s = name + seq![':'] + value;
    let m = name.len() as int;
    assert forall|i: int| 0 <= i < m implies #[trigger] name[i] != ':' by {
        assert(name.contains(name[i]));
    }
    assert forall|i: int| 0 <= i < m implies #[trigger] s[i] != ':' by {
        assert(s[i] == name[i]);
    }
    assert(s[m] == ':');
    text::lemma_before_is(s, ':', m);
    text::lemma_before_is(name, ':', m);
    assert(s.take(m) =~= name);
    assert(s.skip(m + 1) =~= value);
    law_a_written_number_is_read_back(n as nat);
}

/// The first header that gives a length decides. Where none does, the length is
/// nothing.
pub proof fn law_the_first_length_decides(
    front: Seq<Seq<char>>,
    line: Seq<char>,
    back: Seq<Seq<char>>,
    n: usize,
)
    requires
        forall|i: int| 0 <= i < front.len() ==> length_in(#[trigger] front[i]) is None,
        length_in(line) == Some(n),
    ensures
        first_length(front + (seq![line] + back)) == n,
        first_length(front) == 0,
    decreases front.len(),
{
    let all = front + (seq![line] + back);
    if front.len() == 0 {
        assert(all[0] == line);
    } else {
        let rest = front.skip(1);
        assert forall|i: int| 0 <= i < rest.len() implies length_in(#[trigger] rest[i]) is None by {
            assert(rest[i] == front[i + 1]);
        }
        assert(length_in(front[0]) is None);
        law_the_first_length_decides(rest, line, back, n);
        assert(all[0] == front[0]);
        assert(all.skip(1) =~= rest + (seq![line] + back));
    }
}

/// What the statuses are called.
pub proof fn law_what_a_status_is_called(status: u16)
    ensures
        reason_text(400) == "Bad Request"@,
        reason_text(404) == "Not Found"@,
        reason_text(413) == "Payload Too Large"@,
        reason_text(500) == "Internal Server Error"@,
        status != 400 && status != 404 && status != 413 && status != 500 ==> reason_text(status)
            == "OK"@,
{
}

/// What is sent as JSON is a success and holds just those fields. An error has the
/// status it is given and its message, and a page is sent as it is.
pub proof fn law_what_a_reply_holds(
    fields: Seq<(Seq<char>, Piece)>,
    status: u16,
    message: Seq<char>,
    kind: Seq<char>,
    page: Seq<char>,
)
    ensures
        json_reply(fields).status == 200,
        json_reply(fields).body == foreign::json_bytes(fields),
        json_reply(fields).content_type == "application/json; charset=utf-8"@,
        error_reply(status, message).status == status,
        error_reply(status, message).content_type == "application/json; charset=utf-8"@,
        error_reply(status, message).body == foreign::json_bytes(
            seq![("error"@, Piece::Text(message))],
        ),
        asset_reply(kind, page).status == 200,
        asset_reply(kind, page).content_type == kind,
        asset_reply(kind, page).body == encode_utf8(page),
{
}

/// A piece of a query stands for the text that its bytes spell once the escapes are
/// replaced.
pub proof fn law_a_piece_stands_for_what_its_bytes_spell(s: Seq<char>, t: Seq<char>)
    requires
        unescaped(encode_utf8(s)) == encode_utf8(t),
    ensures
        percent_decoded(s) == t,
{
    encode_utf8_valid_utf8(t);
    encode_utf8_decode_utf8(t);
}

} // verus!
