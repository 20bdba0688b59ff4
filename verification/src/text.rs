//! Text as a sequence of characters: building it, trimming it, cutting it up.

use vstd::prelude::*;
use vstd::utf8::*;

verus! {

// ---------------------------------------------------------------------------
// between strings and vectors
// ---------------------------------------------------------------------------

/// The characters of `s`, in order.
pub fn chars_of(s: &str) -> (r: Vec<char>)
    ensures
        r@ == s@,
{
    let mut out: Vec<char> = Vec::new();
    for c in it: s.chars()
        invariant
            out@ == it.seq().take(it.index() as int),
            it.seq() == s@,
    {
        out.push(c);
    }
    assert(s@.take(s@.len() as int) == s@);
    out
}

/// The string that spells out `cs[from..to]`.
pub fn text_of(cs: &Vec<char>, from: usize, to: usize) -> (r: String)
    requires
        from <= to <= cs@.len(),
    ensures
        r@ == cs@.subrange(from as int, to as int),
{
    let mut out = String::new();
    let mut i: usize = from;
    while i < to
        invariant
            from <= i <= to <= cs@.len(),
            out@ == cs@.subrange(from as int, i as int),
        decreases to - i,
    {
        out.push(cs[i]);
        assert(cs@.subrange(from as int, i + 1) == cs@.subrange(from as int, i as int).push(
            cs@[i as int],
        ));
        i = i + 1;
    }
    out
}

/// Whether two strings spell the same thing.
pub fn same(a: &str, b: &str) -> (r: bool)
    ensures
        r == (a@ == b@),
{
    let x = a.as_bytes();
    let y = b.as_bytes();
    proof {
        encode_utf8_decode_utf8(a@);
        encode_utf8_decode_utf8(b@);
    }
    if x.len() != y.len() {
        return false;
    }
    let mut i: usize = 0;
    while i < x.len()
        invariant
            i <= x@.len(),
            x@.len() == y@.len(),
            x@ == encode_utf8(a@),
            y@ == encode_utf8(b@),
            forall|j: int| 0 <= j < i ==> x@[j] == y@[j],
        decreases x@.len() - i,
    {
        if x[i] != y[i] {
            return false;
        }
        i = i + 1;
    }
    assert(x@ == y@);
    true
}

/// Whether there is nothing in `s`.
pub fn empty(s: &str) -> (r: bool)
    ensures
        r == (s@.len() == 0),
{
    chars_of(s).len() == 0
}

// ---------------------------------------------------------------------------
// numbers
// ---------------------------------------------------------------------------

/// The character for a digit below sixteen.
pub open spec fn digit_char(d: int) -> char {
    if d < 10 {
        (('0' as int) + d) as char
    } else {
        (('a' as int) + (d - 10)) as char
    }
}

/// `n` in decimal, without leading zeros.
pub open spec fn decimal(n: nat) -> Seq<char>
    decreases n,
{
    if n < 10 {
        seq![digit_char(n as int)]
    } else {
        decimal(n / 10).push(digit_char((n % 10) as int))
    }
}

/// `n` in decimal, with a minus sign in front if it is negative.
pub open spec fn signed_decimal(n: int) -> Seq<char> {
    if n < 0 {
        seq!['-'] + decimal((-n) as nat)
    } else {
        decimal(n as nat)
    }
}

/// `n` as eight lower-case hexadecimal digits.
pub open spec fn hex8(n: u32) -> Seq<char> {
    seq![
        digit_char((n / 0x1000_0000) as int % 16),
        digit_char((n / 0x100_0000) as int % 16),
        digit_char((n / 0x10_0000) as int % 16),
        digit_char((n / 0x1_0000) as int % 16),
        digit_char((n / 0x1000) as int % 16),
        digit_char((n / 0x100) as int % 16),
        digit_char((n / 0x10) as int % 16),
        digit_char(n as int % 16),
    ]
}

/// The character for a digit below sixteen.
fn digit_of(d: u32) -> (r: char)
    requires
        d < 16,
    ensures
        r == digit_char(d as int),
{
    let b: u8 = if d < 10 { 48u8 + (d as u8) } else { 87u8 + (d as u8) };
    b as char
}

/// Append `n` in decimal.
pub fn put_decimal(out: &mut String, n: u64)
    ensures
        final(out)@ == old(out)@ + decimal(n as nat),
    decreases n,
{
    if n >= 10 {
        put_decimal(out, n / 10);
    }
    out.push(digit_of((n % 10) as u32));
    assert(out@ == old(out)@ + decimal(n as nat));
}

/// `n` in decimal.
pub fn decimal_text(n: u64) -> (r: String)
    ensures
        r@ == decimal(n as nat),
{
    let mut out = String::new();
    put_decimal(&mut out, n);
    assert(out@ == decimal(n as nat));
    out
}

/// Append `n` in decimal, with a minus sign if it is negative.
pub fn put_signed(out: &mut String, n: i64)
    ensures
        final(out)@ == old(out)@ + signed_decimal(n as int),
{
    if n < 0 {
        out.push('-');
        let m: u64 = if n == i64::MIN { 0x8000_0000_0000_0000u64 } else { (-n) as u64 };
        put_decimal(out, m);
        assert(out@ == old(out)@ + signed_decimal(n as int));
    } else {
        put_decimal(out, n as u64);
    }
}

/// Append `n` as eight hexadecimal digits.
pub fn put_hex8(out: &mut String, n: u32)
    ensures
        final(out)@ == old(out)@ + hex8(n),
{
    out.push(digit_of(n / 0x1000_0000 % 16));
    out.push(digit_of(n / 0x100_0000 % 16));
    out.push(digit_of(n / 0x10_0000 % 16));
    out.push(digit_of(n / 0x1_0000 % 16));
    out.push(digit_of(n / 0x1000 % 16));
    out.push(digit_of(n / 0x100 % 16));
    out.push(digit_of(n / 0x10 % 16));
    out.push(digit_of(n % 16));
    assert(out@ == old(out)@ + hex8(n));
}

// ---------------------------------------------------------------------------
// columns
// ---------------------------------------------------------------------------

/// A run of `n` spaces.
pub open spec fn spaces(n: int) -> Seq<char> {
    Seq::new(if n > 0 { n as nat } else { 0 }, |i: int| ' ')
}

/// `s` set flush left in a column `width` characters wide.
pub open spec fn flush_left(s: Seq<char>, width: int) -> Seq<char> {
    s + spaces(width - s.len())
}

/// `s` set flush right in a column `width` characters wide.
pub open spec fn flush_right(s: Seq<char>, width: int) -> Seq<char> {
    spaces(width - s.len()) + s
}

/// Append spaces until `have` columns have become `width`.
fn put_spaces(out: &mut String, have: usize, width: usize)
    ensures
        final(out)@ == old(out)@ + spaces(width - have),
{
    let mut i: usize = have;
    assert(out@ == old(out)@ + spaces(0));
    while i < width
        invariant
            have <= i,
            have < width ==> i <= width,
            width <= have ==> i == have,
            out@ == old(out)@ + spaces(i - have),
        decreases width - i,
    {
        out.push(' ');
        i = i + 1;
        assert(out@ == old(out)@ + spaces(i - have));
    }
    assert(out@ == old(out)@ + spaces(width - have));
}

/// Append `s` flush left in a column `width` wide.
pub fn put_left(out: &mut String, s: &str, width: usize)
    ensures
        final(out)@ == old(out)@ + flush_left(s@, width as int),
{
    out.append(s);
    let n = s.unicode_len();
    put_spaces(out, n, width);
    assert(out@ == old(out)@ + flush_left(s@, width as int));
}

/// Append `s` flush right in a column `width` wide.
pub fn put_right(out: &mut String, s: &str, width: usize)
    ensures
        final(out)@ == old(out)@ + flush_right(s@, width as int),
{
    let n = s.unicode_len();
    put_spaces(out, n, width);
    out.append(s);
    assert(out@ == old(out)@ + flush_right(s@, width as int));
}

// ---------------------------------------------------------------------------
// white space
// ---------------------------------------------------------------------------

/// The Unicode `White_Space` property.
pub open spec fn is_space(c: char) -> bool {
    ||| '\u{9}' <= c <= '\u{d}'
    ||| c == ' '
    ||| c == '\u{85}'
    ||| c == '\u{a0}'
    ||| c == '\u{1680}'
    ||| '\u{2000}' <= c <= '\u{200a}'
    ||| c == '\u{2028}'
    ||| c == '\u{2029}'
    ||| c == '\u{202f}'
    ||| c == '\u{205f}'
    ||| c == '\u{3000}'
}

/// The Unicode general category `Cc`.
pub open spec fn is_control(c: char) -> bool {
    c <= '\u{1f}' || '\u{7f}' <= c <= '\u{9f}'
}

/// Whether `c` is white space.
pub fn space(c: char) -> (r: bool)
    ensures
        r == is_space(c),
{
    ('\u{9}' <= c && c <= '\u{d}') || c == ' ' || c == '\u{85}' || c == '\u{a0}' || c == '\u{1680}'
        || ('\u{2000}' <= c && c <= '\u{200a}') || c == '\u{2028}' || c == '\u{2029}'
        || c == '\u{202f}' || c == '\u{205f}' || c == '\u{3000}'
}

/// Whether `c` is a control character.
pub fn control(c: char) -> (r: bool)
    ensures
        r == is_control(c),
{
    c <= '\u{1f}' || ('\u{7f}' <= c && c <= '\u{9f}')
}

/// `s` without the white space in front.
pub open spec fn trim_start(s: Seq<char>) -> Seq<char>
    decreases s.len(),
{
    if s.len() > 0 && is_space(s[0]) {
        trim_start(s.skip(1))
    } else {
        s
    }
}

/// `s` without the white space behind.
pub open spec fn trim_end(s: Seq<char>) -> Seq<char>
    decreases s.len(),
{
    if s.len() > 0 && is_space(s.last()) {
        trim_end(s.drop_last())
    } else {
        s
    }
}

/// `s` without the white space on either side.
pub open spec fn trimmed(s: Seq<char>) -> Seq<char> {
    trim_end(trim_start(s))
}

/// Dropping the white space in front is dropping everything up to the first
/// character that is not white space.
pub proof fn lemma_trim_start(s: Seq<char>, n: int)
    requires
        0 <= n <= s.len(),
        forall|i: int| 0 <= i < n ==> is_space(#[trigger] s[i]),
        n < s.len() ==> !is_space(s[n]),
    ensures
        trim_start(s) == s.skip(n),
    decreases n,
{
    if n > 0 {
        assert(is_space(s[0]));
        assert forall|i: int| 0 <= i < n - 1 implies is_space(#[trigger] s.skip(1)[i]) by {
            assert(is_space(s[i + 1]));
        }
        lemma_trim_start(s.skip(1), n - 1);
        assert(s.skip(1).skip(n - 1) == s.skip(n));
    } else {
        assert(s.skip(0) == s);
    }
}

/// Dropping the white space behind is keeping everything up to the last
/// character that is not white space.
pub proof fn lemma_trim_end(s: Seq<char>, n: int)
    requires
        0 <= n <= s.len(),
        forall|i: int| n <= i < s.len() ==> is_space(#[trigger] s[i]),
        n > 0 ==> !is_space(s[n - 1]),
    ensures
        trim_end(s) == s.take(n),
    decreases s.len() - n,
{
    if n < s.len() {
        assert(is_space(s[s.len() - 1]));
        assert forall|i: int| n <= i < s.drop_last().len() implies is_space(
            #[trigger] s.drop_last()[i],
        ) by {
            assert(is_space(s[i]));
        }
        lemma_trim_end(s.drop_last(), n);
        assert(s.drop_last().take(n) == s.take(n));
    } else {
        assert(s.take(n) == s);
    }
}

/// Where the characters of `cs[from..to]` that are not outer white space begin
/// and end.
pub fn trim_span(cs: &Vec<char>, from: usize, to: usize) -> (r: (usize, usize))
    requires
        from <= to <= cs@.len(),
    ensures
        from <= r.0 <= r.1 <= to,
        cs@.subrange(r.0 as int, r.1 as int) == trimmed(cs@.subrange(from as int, to as int)),
{
    let ghost whole = cs@.subrange(from as int, to as int);
    let mut a: usize = from;
    while a < to && space(cs[a])
        invariant
            from <= a <= to <= cs@.len(),
            forall|i: int| from <= i < a ==> is_space(#[trigger] cs@[i]),
        decreases to - a,
    {
        a = a + 1;
    }
    proof {
        lemma_trim_start(whole, a - from);
        assert(whole.skip(a - from) == cs@.subrange(a as int, to as int));
    }
    let ghost rest = cs@.subrange(a as int, to as int);
    let mut b: usize = to;
    while b > a && space(cs[b - 1])
        invariant
            a <= b <= to <= cs@.len(),
            forall|i: int| b <= i < to ==> is_space(#[trigger] cs@[i]),
        decreases b - a,
    {
        b = b - 1;
    }
    proof {
        lemma_trim_end(rest, b - a);
        assert(rest.take(b - a) == cs@.subrange(a as int, b as int));
    }
    (a, b)
}

/// `s` without the white space on either side.
pub fn trim(s: &str) -> (r: String)
    ensures
        r@ == trimmed(s@),
{
    let cs = chars_of(s);
    let n = cs.len();
    let (a, b) = trim_span(&cs, 0, n);
    assert(cs@.subrange(0, n as int) == s@);
    text_of(&cs, a, b)
}

// ---------------------------------------------------------------------------
// cutting
// ---------------------------------------------------------------------------

/// How many items come before the first `x`: all of them if there is none.
pub open spec fn before<T>(s: Seq<T>, x: T) -> int
    decreases s.len(),
{
    if s.len() == 0 || s[0] == x {
        0
    } else {
        1 + before(s.skip(1), x)
    }
}

/// What `before` counts.
pub proof fn lemma_before<T>(s: Seq<T>, x: T)
    ensures
        0 <= before(s, x) <= s.len(),
        forall|i: int| 0 <= i < before(s, x) ==> #[trigger] s[i] != x,
        before(s, x) < s.len() ==> s[before(s, x)] == x,
    decreases s.len(),
{
    if s.len() > 0 && s[0] != x {
        lemma_before(s.skip(1), x);
        assert forall|i: int| 0 <= i < before(s, x) implies #[trigger] s[i] != x by {
            if i > 0 {
                assert(s.skip(1)[i - 1] == s[i]);
            }
        }
    }
}

/// The one number that `before` can be.
pub proof fn lemma_before_is<T>(s: Seq<T>, x: T, n: int)
    requires
        0 <= n <= s.len(),
        forall|i: int| 0 <= i < n ==> #[trigger] s[i] != x,
        n < s.len() ==> s[n] == x,
    ensures
        before(s, x) == n,
{
    lemma_before(s, x);
    let m = before(s, x);
    if m < n {
        assert(s[m] != x);
    }
    if n < m {
        assert(s[n] != x);
    }
}

/// The index of the first `x` in `cs[from..to]`, or `to` if there is none.
pub fn find(cs: &Vec<char>, from: usize, to: usize, x: char) -> (r: usize)
    requires
        from <= to <= cs@.len(),
    ensures
        from <= r <= to,
        r - from == before(cs@.subrange(from as int, to as int), x),
        forall|i: int| from <= i < r ==> #[trigger] cs@[i] != x,
        r < to ==> cs@[r as int] == x,
{
    let mut i: usize = from;
    while i < to && cs[i] != x
        invariant
            from <= i <= to <= cs@.len(),
            forall|j: int| from <= j < i ==> #[trigger] cs@[j] != x,
        decreases to - i,
    {
        i = i + 1;
    }
    proof {
        lemma_before_is(cs@.subrange(from as int, to as int), x, i - from);
    }
    i
}

/// The lines of `s`. A line ends at a line feed, or at a carriage return and a
/// line feed; the last one may end with the text.
pub open spec fn lines(s: Seq<char>) -> Seq<Seq<char>>
    decreases s.len(),
{
    let n = before(s, '\n');
    if s.len() == 0 {
        Seq::empty()
    } else if n >= s.len() || n < 0 {
        seq![s]
    } else {
        seq![without_cr(s.take(n))] + lines(s.skip(n + 1))
    }
}

/// `line` without a carriage return at its end.
pub open spec fn without_cr(line: Seq<char>) -> Seq<char> {
    if line.len() > 0 && line.last() == '\r' {
        line.drop_last()
    } else {
        line
    }
}

/// What a vector of strings spells out.
pub open spec fn texts(v: Seq<String>) -> Seq<Seq<char>> {
    v.map_values(|s: String| s@)
}

/// The lines of `s`.
pub fn lines_of(s: &str) -> (r: Vec<String>)
    ensures
        texts(r@) == lines(s@),
{
    let cs = chars_of(s);
    let n = cs.len();
    let mut out: Vec<String> = Vec::new();
    let mut i: usize = 0;
    assert(cs@.skip(0) == s@);
    assert(texts(out@) + lines(cs@.skip(0)) == lines(s@));
    while i < n
        invariant
            n == cs@.len(),
            i <= n,
            texts(out@) + lines(cs@.skip(i as int)) == lines(s@),
        decreases n - i,
    {
        let j = find(&cs, i, n, '\n');
        let ghost rest = cs@.skip(i as int);
        let ghost done = texts(out@);
        assert(rest == cs@.subrange(i as int, n as int));
        if j >= n {
            let line = text_of(&cs, i, n);
            out.push(line);
            assert(texts(out@) == done.push(rest));
            assert(lines(rest) == seq![rest]);
            assert(cs@.skip(n as int).len() == 0);
            assert(lines(cs@.skip(n as int)) == Seq::<Seq<char>>::empty());
            assert(texts(out@) + lines(cs@.skip(n as int)) == done + lines(rest));
            i = n;
        } else {
            let ghost raw = rest.take(j - i);
            let end: usize = if j > i && cs[j - 1] == '\r' { j - 1 } else { j };
            let line = text_of(&cs, i, end);
            assert(line@ == without_cr(raw));
            out.push(line);
            assert(texts(out@) == done.push(without_cr(raw)));
            assert(rest.skip(j - i + 1) == cs@.skip(j + 1));
            assert(lines(rest) == seq![without_cr(raw)] + lines(cs@.skip(j + 1)));
            assert(texts(out@) + lines(cs@.skip(j + 1)) == done + lines(rest));
            i = j + 1;
        }
    }
    assert(cs@.skip(n as int).len() == 0);
    assert(texts(out@) + lines(cs@.skip(n as int)) == texts(out@));
    out
}

/// Whether `x` is among the texts in `list`.
pub fn holds(list: &Vec<String>, x: &str) -> (r: bool)
    ensures
        r == texts(list@).contains(x@),
{
    let mut i: usize = 0;
    while i < list.len()
        invariant
            i <= list@.len(),
            forall|j: int| 0 <= j < i ==> #[trigger] texts(list@)[j] != x@,
        decreases list@.len() - i,
    {
        assert(texts(list@)[i as int] == list@[i as int]@);
        if same(list[i].as_str(), x) {
            return true;
        }
        i = i + 1;
    }
    false
}

/// A copy of a list of texts.
pub fn copy_texts(list: &Vec<String>) -> (r: Vec<String>)
    ensures
        texts(r@) == texts(list@),
{
    let mut out: Vec<String> = Vec::new();
    let mut i: usize = 0;
    while i < list.len()
        invariant
            i <= list@.len(),
            texts(out@) == texts(list@).take(i as int),
        decreases list@.len() - i,
    {
        let ghost done = texts(out@);
        out.push(list[i].as_str().to_owned());
        assert(texts(out@) == done.push(list@[i as int]@));
        assert(texts(list@).take(i + 1) == texts(list@).take(i as int).push(list@[i as int]@));
        i = i + 1;
    }
    assert(texts(list@).take(i as int) == texts(list@));
    out
}

/// The first `max` characters of `s`, or all of them if there are fewer.
pub open spec fn first_chars(s: Seq<char>, max: int) -> Seq<char> {
    if s.len() <= max {
        s
    } else {
        s.take(max)
    }
}

// ---------------------------------------------------------------------------
// laws
// ---------------------------------------------------------------------------

/// Which characters are white space and which are control characters, by their
/// numbers.
pub proof fn law_white_space_and_controls_by_number(c: char)
    ensures
        ({
            let n = c as int;
            &&& is_space(c) <==> (9 <= n <= 13 || n == 32 || n == 133 || n == 160 || n == 5760
                || 8192 <= n <= 8202 || n == 8232 || n == 8233 || n == 8239 || n == 8287 || n
                == 12288)
            &&& is_control(c) <==> (n < 32 || 127 <= n < 160)
        }),
{
}

/// Trimming takes the white space off both ends and nothing else: what is left is
/// a stretch of the text with only white space before and behind it, and has none
/// at either end of itself.
pub proof fn law_trimming_takes_the_outer_white_space(s: Seq<char>)
    ensures
        exists|from: int, to: int|
            {
                &&& 0 <= from <= to <= s.len()
                &&& trimmed(s) == #[trigger] s.subrange(from, to)
                &&& forall|i: int| 0 <= i < from ==> is_space(#[trigger] s[i])
                &&& forall|i: int| to <= i < s.len() ==> is_space(#[trigger] s[i])
            },
        trimmed(s).len() > 0 ==> !is_space(trimmed(s)[0]) && !is_space(trimmed(s).last()),
        trimmed(trimmed(s)) == trimmed(s),
{
    let from = lead(s);
    lemma_lead(s);
    lemma_trim_start(s, from);
    let t = s.skip(from);
    let n = t.len() - lag(t);
    lemma_lag(t);
    lemma_trim_end(t, n);
    let to = from + n;
    assert(trimmed(s) =~= s.subrange(from, to));
    assert forall|i: int| to <= i < s.len() implies is_space(#[trigger] s[i]) by {
        assert(is_space(t[i - from]));
    }
    let r = trimmed(s);
    if r.len() > 0 {
        assert(r[0] == s[from]);
        assert(r.last() == t[n - 1]);
        lemma_trim_start(r, 0);
        lemma_trim_end(r, r.len() as int);
        assert(r.skip(0) == r && r.take(r.len() as int) == r);
    }
}

/// How many characters of white space stand in front.
spec fn lead(s: Seq<char>) -> int
    decreases s.len(),
{
    if s.len() > 0 && is_space(s[0]) {
        1 + lead(s.skip(1))
    } else {
        0
    }
}

/// How many characters of white space stand behind.
spec fn lag(s: Seq<char>) -> int
    decreases s.len(),
{
    if s.len() > 0 && is_space(s.last()) {
        1 + lag(s.drop_last())
    } else {
        0
    }
}

/// What `lead` counts.
proof fn lemma_lead(s: Seq<char>)
    ensures
        0 <= lead(s) <= s.len(),
        forall|i: int| 0 <= i < lead(s) ==> is_space(#[trigger] s[i]),
        lead(s) < s.len() ==> !is_space(s[lead(s)]),
    decreases s.len(),
{
    if s.len() > 0 && is_space(s[0]) {
        let rest = s.skip(1);
        lemma_lead(rest);
        assert forall|i: int| 0 <= i < lead(s) implies is_space(#[trigger] s[i]) by {
            if i > 0 {
                assert(is_space(rest[i - 1]));
            }
        }
    }
}

/// What `lag` counts.
proof fn lemma_lag(s: Seq<char>)
    ensures
        0 <= lag(s) <= s.len(),
        forall|i: int| s.len() - lag(s) <= i < s.len() ==> is_space(#[trigger] s[i]),
        lag(s) < s.len() ==> !is_space(s[s.len() - lag(s) - 1]),
    decreases s.len(),
{
    if s.len() > 0 && is_space(s.last()) {
        let rest = s.drop_last();
        lemma_lag(rest);
        assert forall|i: int| s.len() - lag(s) <= i < s.len() implies is_space(
            #[trigger] s[i],
        ) by {
            if i < rest.len() {
                assert(is_space(rest[i]));
            }
        }
    }
}

/// A number is written with its last digit last, and every number below ten with
/// one digit.
pub proof fn law_a_number_is_written_digit_by_digit(n: nat, d: nat)
    requires
        d < 10,
    ensures
        decimal(d).len() == 1,
        decimal(d)[0] as int == 48 + d,
        n > 0 ==> decimal(10 * n + d).len() == decimal(n).len() + 1,
        n > 0 ==> decimal(10 * n + d).last() as int == 48 + d,
        n > 0 ==> decimal(10 * n + d).drop_last() == decimal(n),
{
    if n > 0 {
        assert((10 * n + d) / 10 == n);
        assert((10 * n + d) % 10 == d);
        assert(decimal(10 * n + d).drop_last() =~= decimal(n));
    }
}

/// A negative number is its opposite behind a minus sign, and any other has none.
pub proof fn law_a_negative_number_has_a_minus_sign(n: nat)
    ensures
        signed_decimal(n as int) == decimal(n),
        n > 0 ==> signed_decimal(-(n as int)) == seq!['-'] + decimal(n),
{
}

/// What a hexadecimal digit in lower case counts.
pub open spec fn hex_digit_value(c: char) -> int {
    if 'a' <= c {
        c as int - 97 + 10
    } else {
        c as int - 48
    }
}

/// Eight hexadecimal digits spell out the number, the first counting most.
pub proof fn law_eight_digits_spell_the_number(n: u32)
    ensures
        hex8(n).len() == 8,
        n == 0x1000_0000 * hex_digit_value(hex8(n)[0]) + 0x100_0000 * hex_digit_value(hex8(n)[1])
            + 0x10_0000 * hex_digit_value(hex8(n)[2]) + 0x1_0000 * hex_digit_value(hex8(n)[3])
            + 0x1000 * hex_digit_value(hex8(n)[4]) + 0x100 * hex_digit_value(hex8(n)[5]) + 0x10
            * hex_digit_value(hex8(n)[6]) + hex_digit_value(hex8(n)[7]),
        forall|i: int|
            0 <= i < 8 ==> '0' <= (#[trigger] hex8(n)[i]) <= '9' || 'a' <= hex8(n)[i] <= 'f',
{
    lemma_digits_add_up(n);
    let h = hex8(n);
    lemma_hex_digit((n / 0x1000_0000) as int % 16);
    lemma_hex_digit((n / 0x100_0000) as int % 16);
    lemma_hex_digit((n / 0x10_0000) as int % 16);
    lemma_hex_digit((n / 0x1_0000) as int % 16);
    lemma_hex_digit((n / 0x1000) as int % 16);
    lemma_hex_digit((n / 0x100) as int % 16);
    lemma_hex_digit((n / 0x10) as int % 16);
    lemma_hex_digit(n as int % 16);
}

/// A hexadecimal digit counts what it stands for.
proof fn lemma_hex_digit(d: int)
    requires
        0 <= d < 16,
    ensures
        hex_digit_value(digit_char(d)) == d,
        '0' <= digit_char(d) <= '9' || 'a' <= digit_char(d) <= 'f',
{
}

/// A number is the sum of what its hexadecimal digits count.
proof fn lemma_digits_add_up(n: u32)
    ensures
        n == 0x1000_0000 * ((n / 0x1000_0000) as int % 16) + 0x100_0000 * ((n / 0x100_0000) as int
            % 16) + 0x10_0000 * ((n / 0x10_0000) as int % 16) + 0x1_0000 * ((n / 0x1_0000) as int
            % 16) + 0x1000 * ((n / 0x1000) as int % 16) + 0x100 * ((n / 0x100) as int % 16) + 0x10
            * ((n / 0x10) as int % 16) + n as int % 16,
{
    let a = n / 0x10;
    let b = n / 0x100;
    let c = n / 0x1000;
    let d = n / 0x1_0000;
    let e = n / 0x10_0000;
    let f = n / 0x100_0000;
    let g = n / 0x1000_0000;
    assert(b == a / 16 && c == b / 16 && d == c / 16 && e == d / 16 && f == e / 16 && g == f / 16
        && g < 16);
}

/// A column is as wide as it is to be, or as what stands in it needs, and holds
/// nothing but that and spaces.
pub proof fn law_a_column_is_filled_with_spaces(s: Seq<char>, width: int)
    ensures
        s.len() <= width ==> flush_left(s, width).len() == width && flush_right(s, width).len()
            == width,
        s.len() >= width ==> flush_left(s, width) == s && flush_right(s, width) == s,
        flush_left(s, width).take(s.len() as int) == s,
        flush_right(s, width).skip(flush_right(s, width).len() - s.len()) == s,
        forall|i: int|
            s.len() <= i < flush_left(s, width).len() ==> #[trigger] flush_left(s, width)[i] == ' ',
        forall|i: int|
            0 <= i < flush_right(s, width).len() - s.len() ==> #[trigger] flush_right(
                s,
                width,
            )[i] == ' ',
{
    assert(flush_left(s, width).take(s.len() as int) =~= s);
    assert(flush_right(s, width).skip(flush_right(s, width).len() - s.len()) =~= s);
    if s.len() >= width {
        assert(flush_left(s, width) =~= s);
        assert(flush_right(s, width) =~= s);
    }
}

/// What is kept of a text is its beginning, as much of it as there is room for.
pub proof fn law_what_is_kept_is_the_beginning(s: Seq<char>, max: int)
    requires
        0 <= max,
    ensures
        first_chars(s, max).len() == if s.len() < max { s.len() as int } else { max },
        forall|i: int| 0 <= i < first_chars(s, max).len() ==> #[trigger] first_chars(s, max)[i] == s[i],
{
}

/// A line ends at the first line feed, which is no part of it, and neither is a
/// carriage return just before. What follows are the lines of the rest; without
/// one, the whole text is a line, unless there is none.
pub proof fn law_a_line_ends_at_a_line_feed(line: Seq<char>, rest: Seq<char>)
    requires
        !line.contains('\n'),
    ensures
        line.len() == 0 || line.last() != '\r' ==> lines(line + seq!['\n'] + rest) == seq![line]
            + lines(rest),
        lines(line + seq!['\r', '\n'] + rest) == seq![line] + lines(rest),
        line.len() > 0 ==> lines(line) == seq![line],
        lines(Seq::empty()).len() == 0,
{
    assert forall|i: int| 0 <= i < line.len() implies #[trigger] line[i] != '\n' by {
        assert(line.contains(line[i]));
    }
    let n = line.len() as int;
    let a = line + seq!['\n'] + rest;
    assert forall|i: int| 0 <= i < n implies #[trigger] a[i] != '\n' by {
        assert(a[i] == line[i]);
    }
    assert(a[n] == '\n');
    lemma_before_is(a, '\n', n);
    assert(a.take(n) =~= line);
    assert(a.skip(n + 1) =~= rest);
    let b = line + seq!['\r', '\n'] + rest;
    assert forall|i: int| 0 <= i < n + 1 implies #[trigger] b[i] != '\n' by {
        if i < n {
            assert(b[i] == line[i]);
        } else {
            assert(b[i] == '\r');
        }
    }
    assert(b[n + 1] == '\n');
    lemma_before_is(b, '\n', n + 1);
    assert(b.take(n + 1) =~= line.push('\r'));
    assert(b.take(n + 1).drop_last() =~= line);
    assert(b.skip(n + 2) =~= rest);
    if n > 0 {
        lemma_before_is(line, '\n', n);
    }
}

/// Whether a text holds another one somewhere.
#[verifier::opaque]
pub open spec fn says(s: Seq<char>, part: Seq<char>) -> bool {
    exists|at: int|
        0 <= at && at + part.len() <= s.len() && #[trigger] s.subrange(at, at + part.len()) == part
}

/// Whether `s` is `t` with one more line put in somewhere.
#[verifier::opaque]
pub open spec fn has_added(s: Seq<char>, t: Seq<char>, line: Seq<char>) -> bool {
    exists|at: int| 0 <= at <= t.len() && s == #[trigger] t.take(at) + line + t.skip(at)
}

/// What is said in a part is said in the whole.
pub proof fn lemma_says_more(front: Seq<char>, s: Seq<char>, back: Seq<char>, part: Seq<char>)
    requires
        says(s, part),
    ensures
        says(front + s + back, part),
{
    reveal(says);
    let at = choose|at: int|
        0 <= at && at + part.len() <= s.len() && #[trigger] s.subrange(at, at + part.len()) == part;
    let t = front + s + back;
    let n = front.len() + at;
    assert(t.subrange(n, n + part.len()) =~= s.subrange(at, at + part.len()));
}

/// What is appended changes nothing about what is said.
pub proof fn lemma_says_on(s: Seq<char>, back: Seq<char>, part: Seq<char>)
    requires
        says(s, part),
    ensures
        says(s + back, part),
{
    reveal(says);
    let at = choose|at: int|
        0 <= at && at + part.len() <= s.len() && #[trigger] s.subrange(at, at + part.len()) == part;
    assert((s + back).subrange(at, at + part.len()) =~= s.subrange(at, at + part.len()));
}

/// What is put at the end is said.
pub proof fn lemma_says_last(s: Seq<char>, part: Seq<char>)
    ensures
        says(s + part, part),
{
    reveal(says);
    let t = s + part;
    let n = s.len() as int;
    assert(t.subrange(n, n + part.len()) =~= part);
}

/// What is appended to both makes no difference to what one has more.
pub proof fn lemma_added_on(s: Seq<char>, t: Seq<char>, line: Seq<char>, back: Seq<char>)
    requires
        has_added(s, t, line),
    ensures
        has_added(s + back, t + back, line),
{
    reveal(has_added);
    let at = choose|at: int|
        0 <= at <= t.len() && s == #[trigger] t.take(at) + line + t.skip(at);
    assert((t + back).take(at) =~= t.take(at));
    assert((t + back).skip(at) =~= t.skip(at) + back);
    assert(s + back =~= (t + back).take(at) + line + (t + back).skip(at));
}

/// A line that is put at the end is one more.
pub proof fn lemma_added_last(t: Seq<char>, line: Seq<char>)
    ensures
        has_added(t + line, t + Seq::<char>::empty(), line),
        t + Seq::<char>::empty() == t,
{
    reveal(has_added);
    let n = t.len() as int;
    assert(t + Seq::<char>::empty() =~= t);
    assert(t.take(n) =~= t);
    assert(t + line =~= t.take(n) + line + t.skip(n));
}

} // verus!
