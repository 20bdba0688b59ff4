//! File names: making a name from the wire safe, and never reusing one.

use vstd::prelude::*;

use crate::text;
use crate::text::{chars_of, control, decimal_text, space, text_of};

verus! {

/// How many names are tried before the clock is used for one.
pub const MAX_CANDIDATES: u64 = 10_000;

/// What a file is called when nothing of its name is left.
pub const FALLBACK_NAME: &'static str = "transfer.bin";

/// What separates directories, on any system.
pub open spec fn is_separator(c: char) -> bool {
    c == '/' || c == '\\'
}

/// What stands behind the last separator.
pub open spec fn last_part(s: Seq<char>) -> Seq<char>
    decreases s.len(),
{
    if s.len() == 0 || is_separator(s.last()) {
        Seq::empty()
    } else {
        last_part(s.drop_last()).push(s.last())
    }
}

/// `s` without its control characters.
pub open spec fn printable(s: Seq<char>) -> Seq<char>
    decreases s.len(),
{
    if s.len() == 0 {
        s
    } else if text::is_control(s.last()) {
        printable(s.drop_last())
    } else {
        printable(s.drop_last()).push(s.last())
    }
}

/// `s` without the dots and the white space in front.
pub open spec fn undotted(s: Seq<char>) -> Seq<char>
    decreases s.len(),
{
    if s.len() > 0 && (text::is_space(s[0]) || s[0] == '.') {
        undotted(s.skip(1))
    } else {
        s
    }
}

/// What a name from the wire is reduced to.
pub open spec fn safe(raw: Seq<char>) -> Seq<char> {
    let cleaned = text::trim_end(undotted(printable(last_part(raw))));
    if cleaned.len() == 0 {
        FALLBACK_NAME@
    } else {
        cleaned
    }
}

/// Dropping the dots in front is dropping everything up to the first character
/// that is neither a dot nor white space.
proof fn lemma_undotted(s: Seq<char>, n: int)
    requires
        0 <= n <= s.len(),
        forall|i: int| 0 <= i < n ==> text::is_space(#[trigger] s[i]) || s[i] == '.',
        n < s.len() ==> !text::is_space(s[n]) && s[n] != '.',
    ensures
        undotted(s) == s.skip(n),
    decreases n,
{
    if n > 0 {
        assert(text::is_space(s[0]) || s[0] == '.');
        assert forall|i: int| 0 <= i < n - 1 implies text::is_space(#[trigger] s.skip(1)[i])
            || s.skip(1)[i] == '.' by {
            assert(text::is_space(s[i + 1]) || s[i + 1] == '.');
        }
        lemma_undotted(s.skip(1), n - 1);
        assert(s.skip(1).skip(n - 1) == s.skip(n));
    } else {
        assert(s.skip(0) == s);
    }
}

/// What stands behind the last separator is everything from some place on that
/// follows a separator, or the whole.
proof fn lemma_last_part(s: Seq<char>, n: int)
    requires
        0 <= n <= s.len(),
        forall|i: int| n <= i < s.len() ==> !is_separator(#[trigger] s[i]),
        n > 0 ==> is_separator(s[n - 1]),
    ensures
        last_part(s) == s.skip(n),
    decreases s.len() - n,
{
    if n < s.len() {
        let front = s.drop_last();
        assert(!is_separator(s[s.len() - 1]));
        assert forall|i: int| n <= i < front.len() implies !is_separator(#[trigger] front[i]) by {
            assert(!is_separator(s[i]));
        }
        lemma_last_part(front, n);
        assert(front.skip(n).push(s.last()) == s.skip(n));
    } else {
        assert(s.skip(n) == Seq::<char>::empty());
    }
}

/// Where the last part of a name begins.
fn last_part_start(cs: &Vec<char>) -> (r: usize)
    ensures
        r <= cs@.len(),
        cs@.skip(r as int) == last_part(cs@),
{
    let mut n: usize = cs.len();
    while n > 0 && cs[n - 1] != '/' && cs[n - 1] != '\\'
        invariant
            n <= cs@.len(),
            forall|i: int| n <= i < cs@.len() ==> !is_separator(#[trigger] cs@[i]),
        decreases n,
    {
        n = n - 1;
    }
    proof {
        lemma_last_part(cs@, n as int);
    }
    n
}

/// The printable characters from `from` on.
fn keep_printable(cs: &Vec<char>, from: usize) -> (r: Vec<char>)
    requires
        from <= cs@.len(),
    ensures
        r@ == printable(cs@.skip(from as int)),
{
    let mut out: Vec<char> = Vec::new();
    let mut i: usize = from;
    let ghost tail = cs@.skip(from as int);
    assert(tail.take(0) == Seq::<char>::empty());
    while i < cs.len()
        invariant
            from <= i <= cs@.len(),
            tail == cs@.skip(from as int),
            out@ == printable(tail.take(i - from)),
        decreases cs@.len() - i,
    {
        proof {
            let more = tail.take(i - from + 1);
            assert(more.drop_last() == tail.take(i - from));
            assert(more.last() == cs@[i as int]);
        }
        if !control(cs[i]) {
            out.push(cs[i]);
        }
        i = i + 1;
    }
    assert(tail.take(tail.len() as int) == tail);
    out
}

/// Reduce a name from the wire to something that can only land inside the
/// output directory. The sender is whoever holds the blob, so this treats the
/// name as hostile: directory components are dropped, and so is anything that
/// could make the result start with a dot.
pub fn safe_name(raw: &str) -> (r: String)
    ensures
        r@ == safe(raw@),
{
    let cs = chars_of(raw);
    let start = last_part_start(&cs);
    let kept = keep_printable(&cs, start);
    let n = kept.len();
    let mut a: usize = 0;
    while a < n && (space(kept[a]) || kept[a] == '.')
        invariant
            a <= n,
            n == kept@.len(),
            forall|i: int|
                0 <= i < a ==> text::is_space(#[trigger] kept@[i]) || kept@[i] == '.',
        decreases n - a,
    {
        a = a + 1;
    }
    let mut b: usize = n;
    while b > a && space(kept[b - 1])
        invariant
            a <= b <= n,
            n == kept@.len(),
            forall|i: int| b <= i < n ==> text::is_space(#[trigger] kept@[i]),
        decreases b - a,
    {
        b = b - 1;
    }
    proof {
        lemma_undotted(kept@, a as int);
        let rest = kept@.skip(a as int);
        text::lemma_trim_end(rest, b - a);
        assert(rest.take(b - a) == kept@.subrange(a as int, b as int));
    }
    if a == b {
        FALLBACK_NAME.to_owned()
    } else {
        text_of(&kept, a, b)
    }
}

/// Where the last dot stands, or -1 if there is none.
pub open spec fn last_dot(s: Seq<char>) -> int
    decreases s.len(),
{
    if s.len() == 0 {
        -1
    } else if s.last() == '.' {
        s.len() - 1
    } else {
        last_dot(s.drop_last())
    }
}

/// The part of a name in front of its extension.
pub open spec fn stem(name: Seq<char>) -> Seq<char> {
    if last_dot(name) > 0 {
        name.take(last_dot(name))
    } else {
        name
    }
}

/// The extension of a name with its dot, if it has one.
pub open spec fn extension(name: Seq<char>) -> Seq<char> {
    if last_dot(name) > 0 {
        name.skip(last_dot(name))
    } else {
        Seq::empty()
    }
}

/// `name` with a number between its stem and its extension.
pub open spec fn numbered(name: Seq<char>, n: nat) -> Seq<char> {
    stem(name) + "-"@ + text::decimal(n) + extension(name)
}

/// What `last_dot` finds.
proof fn lemma_last_dot(s: Seq<char>, n: int)
    requires
        -1 <= n < s.len(),
        n >= 0 ==> s[n] == '.',
        forall|i: int| n < i < s.len() ==> #[trigger] s[i] != '.',
    ensures
        last_dot(s) == n,
    decreases s.len(),
{
    if s.len() > 0 && n < s.len() - 1 {
        assert(s[s.len() - 1] != '.');
        assert forall|i: int| n < i < s.drop_last().len() implies #[trigger] s.drop_last()[i]
            != '.' by {
            assert(s[i] != '.');
        }
        lemma_last_dot(s.drop_last(), n);
    }
}

/// `name` with a number in front of its extension: a second `cat.png` lands as
/// `cat-1.png`.
pub fn numbered_name(name: &str, n: u64) -> (r: String)
    ensures
        r@ == numbered(name@, n as nat),
{
    let cs = chars_of(name);
    let len = cs.len();
    let mut k: usize = len;
    while k > 0 && cs[k - 1] != '.'
        invariant
            k <= len,
            len == cs@.len(),
            forall|i: int| k <= i < len ==> #[trigger] cs@[i] != '.',
        decreases k,
    {
        k = k - 1;
    }
    proof {
        lemma_last_dot(cs@, k - 1);
    }
    let cut: usize = if k > 1 { k - 1 } else { len };
    let mut out = text_of(&cs, 0, cut);
    assert(out@ == stem(name@));
    out.append("-");
    out.append(decimal_text(n).as_str());
    let ext = text_of(&cs, cut, len);
    assert(ext@ == extension(name@));
    out.append(ext.as_str());
    out
}

/// The name to try next: the plain one first, then numbered ones.
pub fn candidate(name: &str, attempt: u64) -> (r: String)
    ensures
        r@ == candidate_of(name@, attempt),
{
    if attempt == 0 {
        name.to_owned()
    } else {
        numbered_name(name, attempt)
    }
}

/// What to do about the name that was just tried.
pub enum NameStep {
    /// Nobody has it: take it.
    Take(String),
    /// Somebody has it: try this one next.
    Try { attempt: u64, name: String },
    /// All of the names are taken: number the file by the clock.
    UseClock,
}

/// What to do about a name, over sequences.
pub enum Choice {
    Take(Seq<char>),
    Try { attempt: u64, name: Seq<char> },
    UseClock,
}

impl View for NameStep {
    type V = Choice;

    open spec fn view(&self) -> Choice {
        match *self {
            NameStep::Take(name) => Choice::Take(name@),
            NameStep::Try { attempt, name } => Choice::Try { attempt, name: name@ },
            NameStep::UseClock => Choice::UseClock,
        }
    }
}

/// The name that is tried at the given attempt.
pub open spec fn candidate_of(name: Seq<char>, attempt: u64) -> Seq<char> {
    if attempt == 0 {
        name
    } else {
        numbered(name, attempt as nat)
    }
}

/// What to do about the name that was tried at the given attempt.
pub open spec fn choice(name: Seq<char>, attempt: u64, taken: bool) -> Choice {
    if !taken {
        Choice::Take(candidate_of(name, attempt))
    } else if attempt + 1 < MAX_CANDIDATES {
        Choice::Try {
            attempt: (attempt + 1) as u64,
            name: candidate_of(name, (attempt + 1) as u64),
        }
    } else {
        Choice::UseClock
    }
}

/// Decide what to do about the name that was tried at the given attempt, which
/// may be taken.
pub fn next_name(name: &str, attempt: u64, taken: bool) -> (r: NameStep)
    ensures
        r@ == choice(name@, attempt, taken),
{
    if !taken {
        NameStep::Take(candidate(name, attempt))
    } else if attempt < MAX_CANDIDATES - 1 {
        NameStep::Try { attempt: attempt + 1, name: candidate(name, attempt + 1) }
    } else {
        NameStep::UseClock
    }
}

// ---------------------------------------------------------------------------
// laws
// ---------------------------------------------------------------------------

/// Whether a name can only land inside the directory it is put in: it names no
/// directory, holds no control character, and does not start with a dot.
pub open spec fn harmless(name: Seq<char>) -> bool {
    &&& name.len() > 0
    &&& name[0] != '.'
    &&& forall|i: int|
        0 <= i < name.len() ==> !is_separator(#[trigger] name[i]) && !text::is_control(name[i])
}

/// The characters of the last part are none of them separators.
proof fn lemma_last_part_holds(s: Seq<char>)
    ensures
        forall|i: int| 0 <= i < last_part(s).len() ==> !is_separator(#[trigger] last_part(s)[i]),
    decreases s.len(),
{
    if s.len() > 0 && !is_separator(s.last()) {
        let front = last_part(s.drop_last());
        lemma_last_part_holds(s.drop_last());
        assert forall|i: int| 0 <= i < last_part(s).len() implies !is_separator(
            #[trigger] last_part(s)[i],
        ) by {
            if i < front.len() {
                assert(!is_separator(front[i]));
            }
        }
    }
}

/// What is printable of a text without separators holds none, and no control
/// characters either.
proof fn lemma_printable_holds(s: Seq<char>)
    requires
        forall|i: int| 0 <= i < s.len() ==> !is_separator(#[trigger] s[i]),
    ensures
        forall|i: int|
            0 <= i < printable(s).len() ==> !is_separator(#[trigger] printable(s)[i])
                && !text::is_control(printable(s)[i]),
    decreases s.len(),
{
    if s.len() > 0 {
        assert forall|i: int| 0 <= i < s.drop_last().len() implies !is_separator(
            #[trigger] s.drop_last()[i],
        ) by {
            assert(!is_separator(s[i]));
        }
        lemma_printable_holds(s.drop_last());
        assert(!is_separator(s[s.len() - 1]));
        let front = printable(s.drop_last());
        assert forall|i: int| 0 <= i < printable(s).len() implies !is_separator(
            #[trigger] printable(s)[i],
        ) && !text::is_control(printable(s)[i]) by {
            if i < front.len() {
                assert(!is_separator(front[i]));
            }
        }
    }
}

/// Dropping from the front leaves a tail.
proof fn lemma_undotted_is_a_tail(s: Seq<char>) -> (n: int)
    ensures
        0 <= n <= s.len(),
        undotted(s) == s.skip(n),
        n < s.len() ==> !text::is_space(s[n]) && s[n] != '.',
    decreases s.len(),
{
    if s.len() > 0 && (text::is_space(s[0]) || s[0] == '.') {
        let m = lemma_undotted_is_a_tail(s.skip(1));
        assert(s.skip(1).skip(m) == s.skip(m + 1));
        m + 1
    } else {
        assert(s.skip(0) == s);
        0
    }
}

/// Dropping from the back leaves a head.
proof fn lemma_trim_end_is_a_head(s: Seq<char>) -> (n: int)
    ensures
        0 <= n <= s.len(),
        text::trim_end(s) == s.take(n),
        n > 0 ==> !text::is_space(s[n - 1]),
    decreases s.len(),
{
    if s.len() > 0 && text::is_space(s.last()) {
        let m = lemma_trim_end_is_a_head(s.drop_last());
        assert(s.drop_last().take(m) == s.take(m));
        m
    } else {
        assert(s.take(s.len() as int) == s);
        s.len() as int
    }
}

/// A hostile name cannot escape the output directory: whatever comes in, what
/// comes out is a plain, visible file name.
pub proof fn law_a_safe_name_is_harmless(raw: Seq<char>)
    ensures
        harmless(safe(raw)),
{
    let part = last_part(raw);
    lemma_last_part_holds(raw);
    lemma_printable_holds(part);
    let kept = printable(part);
    let a = lemma_undotted_is_a_tail(kept);
    let tail = undotted(kept);
    let b = lemma_trim_end_is_a_head(tail);
    let cleaned = text::trim_end(tail);
    if cleaned.len() == 0 {
        reveal_strlit("transfer.bin");
    } else {
        assert(cleaned[0] == kept[a]);
        assert forall|i: int| 0 <= i < cleaned.len() implies !is_separator(#[trigger] cleaned[i])
            && !text::is_control(cleaned[i]) by {
            assert(cleaned[i] == kept[a + i]);
        }
    }
}

/// A harmless name that neither begins nor ends with white space is kept as it
/// is, so that a name is made safe once and for all.
pub proof fn law_a_harmless_name_is_kept(name: Seq<char>)
    requires
        harmless(name),
        !text::is_space(name[0]),
        !text::is_space(name.last()),
    ensures
        safe(name) == name,
{
    lemma_last_part(name, 0);
    assert(name.skip(0) == name);
    lemma_printable_keeps(name);
    lemma_undotted(name, 0);
    text::lemma_trim_end(name, name.len() as int);
    assert(name.take(name.len() as int) == name);
}

/// A text without control characters is printable as it is.
proof fn lemma_printable_keeps(s: Seq<char>)
    requires
        forall|i: int| 0 <= i < s.len() ==> !text::is_control(#[trigger] s[i]),
    ensures
        printable(s) == s,
    decreases s.len(),
{
    if s.len() > 0 {
        assert forall|i: int| 0 <= i < s.drop_last().len() implies !text::is_control(
            #[trigger] s.drop_last()[i],
        ) by {
            assert(!text::is_control(s[i]));
        }
        lemma_printable_keeps(s.drop_last());
        assert(!text::is_control(s[s.len() - 1]));
        assert(s.drop_last().push(s.last()) == s);
    }
}

/// Where the last dot can stand.
proof fn lemma_last_dot_bounds(s: Seq<char>)
    ensures
        -1 <= last_dot(s) < s.len(),
        last_dot(s) >= 0 ==> s[last_dot(s)] == '.',
    decreases s.len(),
{
    if s.len() > 0 && s.last() != '.' {
        lemma_last_dot_bounds(s.drop_last());
    }
}

/// The digits of a number are digits.
proof fn lemma_decimal_is_digits(n: nat)
    ensures
        text::decimal(n).len() > 0,
        forall|i: int|
            0 <= i < text::decimal(n).len() ==> '0' <= #[trigger] text::decimal(n)[i] <= '9',
    decreases n,
{
    if n >= 10 {
        lemma_decimal_is_digits(n / 10);
    }
}

/// Two decimal digits that look the same are the same.
proof fn lemma_digit_char_is_one_to_one(c: int, d: int)
    requires
        0 <= c < 10,
        0 <= d < 10,
        text::digit_char(c) == text::digit_char(d),
    ensures
        c == d,
{
    assert(text::digit_char(c) as int == 48 + c);
    assert(text::digit_char(d) as int == 48 + d);
}

/// Two numbers that read the same are the same.
proof fn lemma_decimal_is_one_to_one(m: nat, n: nat)
    requires
        text::decimal(m) == text::decimal(n),
    ensures
        m == n,
    decreases m,
{
    lemma_decimal_is_digits(m / 10);
    lemma_decimal_is_digits(n / 10);
    let a = text::decimal(m);
    let b = text::decimal(n);
    if m >= 10 {
        assert(a == text::decimal(m / 10).push(text::digit_char((m % 10) as int)));
        assert(a.drop_last() == text::decimal(m / 10));
    } else {
        assert(a == seq![text::digit_char(m as int)]);
    }
    if n >= 10 {
        assert(b == text::decimal(n / 10).push(text::digit_char((n % 10) as int)));
        assert(b.drop_last() == text::decimal(n / 10));
    } else {
        assert(b == seq![text::digit_char(n as int)]);
    }
    assert(a.last() == text::digit_char((m % 10) as int));
    assert(b.last() == text::digit_char((n % 10) as int));
    lemma_digit_char_is_one_to_one((m % 10) as int, (n % 10) as int);
    if m >= 10 && n >= 10 {
        lemma_decimal_is_one_to_one(m / 10, n / 10);
    }
}

/// Numbering never gives the same name twice.
pub proof fn law_numbered_names_differ(name: Seq<char>, m: nat, n: nat)
    requires
        m != n,
    ensures
        numbered(name, m) != numbered(name, n),
{
    if numbered(name, m) == numbered(name, n) {
        let head = stem(name) + "-"@;
        let tail = extension(name);
        let a = text::decimal(m);
        let b = text::decimal(n);
        let x = numbered(name, m);
        let y = numbered(name, n);
        assert(x.len() == head.len() + a.len() + tail.len());
        assert(y.len() == head.len() + b.len() + tail.len());
        assert(x.subrange(head.len() as int, (head.len() + a.len()) as int) == a);
        assert(y.subrange(head.len() as int, (head.len() + b.len()) as int) == b);
        lemma_decimal_is_one_to_one(m, n);
    }
}

/// A harmless name stays harmless when it is numbered.
pub proof fn law_a_numbered_name_is_harmless(name: Seq<char>, n: nat)
    requires
        harmless(name),
    ensures
        harmless(numbered(name, n)),
{
    reveal_strlit("-");
    lemma_last_dot_bounds(name);
    lemma_decimal_is_digits(n);
    let s = stem(name);
    let d = text::decimal(n);
    let e = extension(name);
    let x = numbered(name, n);
    assert(s[0] == name[0]);
    assert(x[0] == s[0]);
    assert forall|i: int| 0 <= i < x.len() implies !is_separator(#[trigger] x[i])
        && !text::is_control(x[i]) by {
        if i < s.len() {
            assert(x[i] == name[i]);
        } else if i == s.len() {
            assert(x[i] == '-');
        } else if i < s.len() + 1 + d.len() {
            assert(x[i] == d[i - s.len() - 1]);
        } else {
            assert(x[i] == e[i - s.len() - 1 - d.len()]);
            assert(e[i - s.len() - 1 - d.len()] == name[last_dot(name) + i - s.len() - 1 - d.len()]);
        }
    }
}

/// The name that following the choices from the given attempt on leads to, or
/// nothing if the clock has to be used. `taken` says which names somebody has.
pub open spec fn chosen(
    name: Seq<char>,
    attempt: u64,
    taken: spec_fn(Seq<char>) -> bool,
) -> Option<Seq<char>>
    decreases MAX_CANDIDATES - attempt,
{
    match choice(name, attempt, taken(candidate_of(name, attempt))) {
        Choice::Take(free) => Some(free),
        Choice::Try { attempt: next, .. } => if attempt < next <= MAX_CANDIDATES {
            chosen(name, next, taken)
        } else {
            None
        },
        Choice::UseClock => None,
    }
}

/// Nothing is overwritten: the name that is chosen is one that nobody has, and
/// it is the first such. The clock is used only when all of them are taken.
pub proof fn law_the_first_free_name_is_chosen(
    name: Seq<char>,
    attempt: u64,
    taken: spec_fn(Seq<char>) -> bool,
)
    requires
        attempt < MAX_CANDIDATES,
    ensures
        match chosen(name, attempt, taken) {
            Some(free) => !taken(free) && exists|k: u64|
                attempt <= k < MAX_CANDIDATES && free == #[trigger] candidate_of(name, k)
                    && forall|j: u64|
                    attempt <= j < k ==> taken(#[trigger] candidate_of(name, j)),
            None => forall|j: u64|
                attempt <= j < MAX_CANDIDATES ==> taken(#[trigger] candidate_of(name, j)),
        },
    decreases MAX_CANDIDATES - attempt,
{
    if !taken(candidate_of(name, attempt)) {
        assert(chosen(name, attempt, taken) == Some(candidate_of(name, attempt)));
    } else if attempt + 1 < MAX_CANDIDATES {
        let next = (attempt + 1) as u64;
        law_the_first_free_name_is_chosen(name, next, taken);
        if let Some(free) = chosen(name, next, taken) {
            let k = choose|k: u64|
                next <= k < MAX_CANDIDATES && free == #[trigger] candidate_of(name, k) && forall|
                    j: u64,
                |
                    next <= j < k ==> taken(#[trigger] candidate_of(name, j));
            assert forall|j: u64| attempt <= j < k implies taken(
                #[trigger] candidate_of(name, j),
            ) by {
                if j > attempt {
                    assert(next <= j);
                }
            }
            assert(free == candidate_of(name, k));
        }
    }
}

/// What stands behind the last separator does not depend on what stands before
/// it.
proof fn lemma_last_part_of_a_path(dir: Seq<char>, c: char, name: Seq<char>)
    requires
        is_separator(c),
    ensures
        last_part(dir + seq![c] + name) == last_part(name),
    decreases name.len(),
{
    let s = dir + seq![c] + name;
    if name.len() == 0 {
        assert(s.last() == c);
    } else {
        assert(s.drop_last() =~= dir + seq![c] + name.drop_last());
        assert(s.last() == name.last());
        lemma_last_part_of_a_path(dir, c, name.drop_last());
    }
}

/// Directories are dropped, whichever way they are written: what a path comes to
/// is what stands behind its last separator.
pub proof fn law_directories_are_dropped(dir: Seq<char>, name: Seq<char>)
    ensures
        safe(dir + seq!['/'] + name) == safe(name),
        safe(dir + seq!['\\'] + name) == safe(name),
{
    lemma_last_part_of_a_path(dir, '/', name);
    lemma_last_part_of_a_path(dir, '\\', name);
}

/// A name that holds no directory loses its control characters, then the dots and
/// the white space in front and the white space behind, and nothing else. Where
/// that leaves nothing, the file is called `transfer.bin`.
pub proof fn law_what_a_name_loses(name: Seq<char>)
    requires
        forall|i: int| 0 <= i < name.len() ==> #[trigger] name[i] != '/' && name[i] != '\\',
    ensures
        ({
            let seen = name.filter(|c: char| !text::is_control(c));
            exists|from: int, to: int|
                {
                    &&& 0 <= from <= to <= seen.len()
                    &&& forall|i: int|
                        0 <= i < from ==> text::is_space(#[trigger] seen[i]) || seen[i] == '.'
                    &&& forall|i: int| to <= i < seen.len() ==> text::is_space(#[trigger] seen[i])
                    &&& from < to ==> !text::is_space(seen[from]) && seen[from] != '.'
                        && !text::is_space(seen[to - 1])
                    &&& safe(name) == if from < to {
                        #[trigger] seen.subrange(from, to)
                    } else {
                        "transfer.bin"@
                    }
                }
        }),
{
    lemma_last_part(name, 0);
    assert(name.skip(0) =~= name);
    lemma_printable_is_a_filter(name);
    let seen = name.filter(|c: char| !text::is_control(c));
    let from = lemma_undotted_is_a_tail(seen);
    lemma_undotted_drops(seen, from);
    let tail = seen.skip(from);
    let n = lemma_trim_end_is_a_head(tail);
    lemma_trim_end_drops(tail, n);
    let to = from + n;
    assert(tail.take(n) =~= seen.subrange(from, to));
    assert forall|i: int| to <= i < seen.len() implies text::is_space(#[trigger] seen[i]) by {
        assert(text::is_space(tail[i - from]));
    }
    if n > 0 {
        assert(tail[n - 1] == seen[to - 1]);
    }
}

/// What is printable is what is no control character.
proof fn lemma_printable_is_a_filter(s: Seq<char>)
    ensures
        printable(s) == s.filter(|c: char| !text::is_control(c)),
    decreases s.len(),
{
    reveal(Seq::filter);
    if s.len() > 0 {
        lemma_printable_is_a_filter(s.drop_last());
    }
}

/// What is dropped in front is dots and white space.
proof fn lemma_undotted_drops(s: Seq<char>, n: int)
    requires
        0 <= n <= s.len(),
        undotted(s) == s.skip(n),
    ensures
        forall|i: int| 0 <= i < n ==> text::is_space(#[trigger] s[i]) || s[i] == '.',
    decreases s.len(),
{
    if s.len() > 0 && (text::is_space(s[0]) || s[0] == '.') {
        if n > 0 {
            let rest = s.skip(1);
            assert(rest.skip(n - 1) =~= s.skip(n));
            lemma_undotted_drops(rest, n - 1);
            assert forall|i: int| 0 <= i < n implies text::is_space(#[trigger] s[i]) || s[i]
                == '.' by {
                if i > 0 {
                    assert(text::is_space(rest[i - 1]) || rest[i - 1] == '.');
                }
            }
        }
    } else {
        assert(s.len() == s.skip(n).len());
    }
}

/// What is dropped behind is white space.
proof fn lemma_trim_end_drops(s: Seq<char>, n: int)
    requires
        0 <= n <= s.len(),
        text::trim_end(s) == s.take(n),
    ensures
        forall|i: int| n <= i < s.len() ==> text::is_space(#[trigger] s[i]),
    decreases s.len(),
{
    if s.len() > 0 && text::is_space(s.last()) {
        if n < s.len() {
            let rest = s.drop_last();
            assert(rest.take(n) =~= s.take(n));
            lemma_trim_end_drops(rest, n);
            assert forall|i: int| n <= i < s.len() implies text::is_space(#[trigger] s[i]) by {
                if i < rest.len() {
                    assert(text::is_space(rest[i]));
                }
            }
        }
    } else {
        assert(s.len() == s.take(n).len());
    }
}

/// The number goes in front of the last dot and what follows it. A name without a
/// dot, or with none but at its very beginning, gets it at its end.
pub proof fn law_where_the_number_goes(front: Seq<char>, ext: Seq<char>, n: nat)
    requires
        !ext.contains('.'),
    ensures
        front.len() > 0 ==> numbered(front + seq!['.'] + ext, n) == front + "-"@ + text::decimal(n)
            + (seq!['.'] + ext),
        front.len() == 0 ==> numbered(front + seq!['.'] + ext, n) == front + seq!['.'] + ext + "-"@
            + text::decimal(n),
        numbered(ext, n) == ext + "-"@ + text::decimal(n),
{
    assert forall|i: int| 0 <= i < ext.len() implies #[trigger] ext[i] != '.' by {
        assert(ext.contains(ext[i]));
    }
    let name = front + seq!['.'] + ext;
    let k = front.len() as int;
    assert(name[k] == '.');
    assert forall|i: int| k < i < name.len() implies #[trigger] name[i] != '.' by {
        assert(name[i] == ext[i - k - 1]);
    }
    lemma_last_dot(name, k);
    lemma_last_dot(ext, -1);
    let d = text::decimal(n);
    if k > 0 {
        assert(name.take(k) =~= front);
        assert(name.skip(k) =~= seq!['.'] + ext);
    } else {
        assert(numbered(name, n) =~= name + "-"@ + d);
    }
    assert(numbered(ext, n) =~= ext + "-"@ + d);
}

/// The plain name is tried first, then the numbers from 1 to 9999, one after the
/// other. A name that is free is taken as it is, and the clock comes last.
pub proof fn law_the_names_are_tried_in_turn(name: Seq<char>, attempt: u64)
    ensures
        candidate_of(name, 0) == name,
        attempt > 0 ==> candidate_of(name, attempt) == numbered(name, attempt as nat),
        choice(name, attempt, false) == Choice::Take(candidate_of(name, attempt)),
        choice(name, attempt, true) is UseClock <==> attempt >= 9999,
        attempt < 9999 ==> choice(name, attempt, true) == (Choice::Try {
            attempt: (attempt + 1) as u64,
            name: numbered(name, (attempt + 1) as nat),
        }),
{
}

} // verus!
