//! What the receiver prints about a transfer.

use vstd::prelude::*;

use crate::crc;
use crate::crc::crc32;
use crate::incoming::{Incoming, Progress};
use crate::text;

verus! {

/// What the receipt for a finished transfer begins with: where the file went, or
/// why it could not be written, if `problem` says so.
#[verifier::opaque]
pub open spec fn place_lines(p: Progress, place: Seq<char>, problem: Option<Seq<char>>) -> Seq<char> {
    let s = Seq::<char>::empty() + "\n-- received "@ + p.name + " --\n"@;
    if problem is Some {
        s + "  COULD NOT WRITE        "@ + place + ": "@ + problem->Some_0 + "\n"@
    } else {
        s + "  written to             "@ + place + "\n"@
    }
}

/// The lines on how much there was and how long it took. The figures with a
/// decimal point are handed in as they are to be printed.
#[verifier::opaque]
pub open spec fn size_lines(p: Progress, elapsed: Seq<char>, kib_per_s: Seq<char>) -> Seq<char> {
    "  bytes                  "@ + text::decimal(p.total_len as nat)
        + "\n  elapsed                "@ + elapsed + "s  ("@ + kib_per_s
        + " KiB/s)\n  chunks                 "@ + text::decimal(p.chunk_count as nat) + " of "@
        + text::decimal(p.chunk_size as nat) + "\n"@
}

/// The line on what the first pass lost, if that was measured.
#[verifier::opaque]
pub open spec fn first_pass_line(p: Progress, lost_pct: Seq<char>) -> Seq<char> {
    if p.first_pass_missing is Some {
        "  lost on the first pass "@ + text::decimal(p.first_pass_missing->Some_0 as nat) + "  ("@
            + lost_pct + "% of chunks)\n"@
    } else {
        Seq::empty()
    }
}

/// The lines on repairs and duplicates, and the checksum of what arrived.
#[verifier::opaque]
pub open spec fn repair_lines(p: Progress) -> Seq<char> {
    "  repair rounds          "@ + text::decimal(p.repair_rounds as nat)
        + "\n  duplicate chunks       "@ + text::decimal(p.duplicates as nat)
        + "\n  crc32                  "@ + text::hex8(crc::crc_of(p.data))
}

/// The receipt for a finished transfer up to the checksum.
pub open spec fn receipt_front(
    p: Progress,
    place: Seq<char>,
    problem: Option<Seq<char>>,
    elapsed: Seq<char>,
    kib_per_s: Seq<char>,
    lost_pct: Seq<char>,
) -> Seq<char> {
    place_lines(p, place, problem) + size_lines(p, elapsed, kib_per_s) + first_pass_line(
        p,
        lost_pct,
    ) + repair_lines(p)
}

/// The receipt for a finished transfer.
pub open spec fn receipt_text(
    p: Progress,
    place: Seq<char>,
    problem: Option<Seq<char>>,
    elapsed: Seq<char>,
    kib_per_s: Seq<char>,
    lost_pct: Seq<char>,
) -> Seq<char> {
    let s = receipt_front(p, place, problem, elapsed, kib_per_s, lost_pct);
    let s = if crc::crc_of(p.data) == p.crc {
        s
            + "  matches the sender\n\n"@
    } else {
        s
            + "  DOES NOT MATCH sender's "@
            + text::hex8(p.crc)
            + "\n\n"@
    };
    s
}

/// What the receipt begins with.
fn place_section(inc: &Incoming, place: &str, problem: &Option<String>) -> (r: String)
    ensures
        r@ == place_lines(
            inc@,
            place@,
            match *problem {
                Some(why) => Some(why@),
                None => None,
            },
        ),
{
    reveal(place_lines);
    let mut out = String::new();
    out.append("\n-- received ");
    out.append(inc.name.as_str());
    out.append(" --\n");
    match problem {
        Some(why) => {
            out.append("  COULD NOT WRITE        ");
            out.append(place);
            out.append(": ");
            out.append(why.as_str());
            out.append("\n");
        },
        None => {
            out.append("  written to             ");
            out.append(place);
            out.append("\n");
        },
    }
    out
}

/// The lines on how much there was and how long it took.
fn size_section(inc: &Incoming, elapsed: &str, kib_per_s: &str) -> (r: String)
    ensures
        r@ == size_lines(inc@, elapsed@, kib_per_s@),
{
    reveal(size_lines);
    let mut out = "  bytes                  ".to_owned();
    text::put_decimal(&mut out, inc.total_len);
    out.append("\n  elapsed                ");
    out.append(elapsed);
    out.append("s  (");
    out.append(kib_per_s);
    out.append(" KiB/s)\n  chunks                 ");
    text::put_decimal(&mut out, inc.chunk_count as u64);
    out.append(" of ");
    text::put_decimal(&mut out, inc.chunk_size as u64);
    out.append("\n");
    out
}

/// Put in the line on what the first pass lost.
fn put_first_pass(out: &mut String, inc: &Incoming, lost_pct: &str)
    ensures
        final(out)@ == old(out)@ + first_pass_line(inc@, lost_pct@),
{
    reveal(first_pass_line);
    if let Some(lost) = inc.first_pass_missing {
        out.append("  lost on the first pass ");
        text::put_decimal(out, lost as u64);
        out.append("  (");
        out.append(lost_pct);
        out.append("% of chunks)\n");
    }
    assert(out@ == old(out)@ + first_pass_line(inc@, lost_pct@));
}

/// The lines on repairs and duplicates, and the checksum of what arrived.
fn repair_section(inc: &Incoming, got: u32) -> (r: String)
    requires
        got == crc::crc_of(inc@.data),
    ensures
        r@ == repair_lines(inc@),
{
    reveal(repair_lines);
    let mut out = "  repair rounds          ".to_owned();
    text::put_decimal(&mut out, inc.repair_rounds as u64);
    out.append("\n  duplicate chunks       ");
    text::put_decimal(&mut out, inc.duplicates as u64);
    out.append("\n  crc32                  ");
    text::put_hex8(&mut out, got);
    out
}

/// The receipt for a finished transfer: where it went, what it took, and
/// whether what arrived is what the sender meant.
pub fn receipt(
    inc: &Incoming,
    place: &str,
    problem: &Option<String>,
    elapsed: &str,
    kib_per_s: &str,
    lost_pct: &str,
) -> (r: String)
    ensures
        r@ == receipt_text(
            inc@,
            place@,
            match *problem {
                Some(why) => Some(why@),
                None => None,
            },
            elapsed@,
            kib_per_s@,
            lost_pct@,
        ),
{
    let got = crc32(inc.data.as_slice());
    let sizes = size_section(inc, elapsed, kib_per_s);
    let repairs = repair_section(inc, got);
    let mut out = place_section(inc, place, problem);
    out.append(sizes.as_str());
    put_first_pass(&mut out, inc, lost_pct);
    out.append(repairs.as_str());
    if got == inc.crc {
        out.append("  matches the sender\n\n");
    } else {
        out.append("  DOES NOT MATCH sender's ");
        text::put_hex8(&mut out, inc.crc);
        out.append("\n\n");
    }
    out
}

/// How far a transfer has come.
pub open spec fn progress_text(p: Progress) -> Seq<char> {
    let s = Seq::<char>::empty()
        + "  "@
        + p.name
        + " — "@
        + text::decimal(p.have_count as nat)
        + "/"@
        + text::decimal(p.chunk_count as nat)
        + " chunks"@;
    s
}

/// How far a transfer has come.
pub fn progress_line(inc: &Incoming) -> (r: String)
    ensures
        r@ == progress_text(inc@),
{
    let mut out = String::new();
    out.append("  ");
    out.append(inc.name.as_str());
    out.append(" — ");
    text::put_decimal(&mut out, inc.have_count as u64);
    out.append("/");
    text::put_decimal(&mut out, inc.chunk_count as u64);
    out.append(" chunks");
    out
}

// ---------------------------------------------------------------------------
// laws
// ---------------------------------------------------------------------------

/// The receipt ends with what has become of the file: it says that the checksum
/// matches exactly where that of the bytes that arrived is the one the sender
/// promised, and otherwise gives the one that was promised.
pub proof fn law_the_receipt_tells_a_match_from_a_mismatch(
    p: Progress,
    place: Seq<char>,
    problem: Option<Seq<char>>,
    elapsed: Seq<char>,
    kib_per_s: Seq<char>,
    lost_pct: Seq<char>,
)
    ensures
        ({
            let t = receipt_text(p, place, problem, elapsed, kib_per_s, lost_pct);
            let good = "  matches the sender\n\n"@;
            let bad = "  DOES NOT MATCH sender's "@ + text::hex8(p.crc) + "\n\n"@;
            &&& crc::crc_of(p.data) == p.crc ==> good.len() <= t.len() && t.skip(
                t.len() - good.len(),
            ) == good
            &&& crc::crc_of(p.data) != p.crc ==> bad.len() <= t.len() && t.skip(
                t.len() - bad.len(),
            ) == bad
        }),
{
    let s = receipt_front(p, place, problem, elapsed, kib_per_s, lost_pct);
    lemma_ends(s, "  matches the sender\n\n"@, Seq::empty(), Seq::empty());
    lemma_ends(s, "  DOES NOT MATCH sender's "@, text::hex8(p.crc), "\n\n"@);
}

/// What is put behind a text is what it ends with.
proof fn lemma_ends(s: Seq<char>, a: Seq<char>, b: Seq<char>, c: Seq<char>)
    ensures
        (s + a).skip(s.len() as int) == a,
        (s + a + b + c).skip(s.len() as int) == a + b + c,
{
    assert((s + a).skip(s.len() as int) =~= a);
    assert((s + a + b + c).skip(s.len() as int) =~= a + b + c);
}

/// The receipt says how many bytes there were in how many chunks of what size, how
/// often it took a repair, how many chunks came twice and which checksum came out.
pub proof fn law_the_receipt_gives_the_counts(
    p: Progress,
    place: Seq<char>,
    problem: Option<Seq<char>>,
    elapsed: Seq<char>,
    kib_per_s: Seq<char>,
    lost_pct: Seq<char>,
)
    ensures
        text::says(
            receipt_text(p, place, problem, elapsed, kib_per_s, lost_pct),
            "  bytes                  "@ + text::decimal(p.total_len as nat)
                + "\n  elapsed                "@ + elapsed + "s  ("@ + kib_per_s
                + " KiB/s)\n  chunks                 "@ + text::decimal(p.chunk_count as nat)
                + " of "@ + text::decimal(p.chunk_size as nat) + "\n"@,
        ),
        text::says(
            receipt_text(p, place, problem, elapsed, kib_per_s, lost_pct),
            "  repair rounds          "@ + text::decimal(p.repair_rounds as nat)
                + "\n  duplicate chunks       "@ + text::decimal(p.duplicates as nat)
                + "\n  crc32                  "@ + text::hex8(crc::crc_of(p.data)),
        ),
        p.first_pass_missing matches Some(lost) ==> text::says(
            receipt_text(p, place, problem, elapsed, kib_per_s, lost_pct),
            "  lost on the first pass "@ + text::decimal(lost as nat) + "  ("@ + lost_pct
                + "% of chunks)\n"@,
        ),
{
    reveal(size_lines);
    reveal(first_pass_line);
    reveal(repair_lines);
    let a = place_lines(p, place, problem);
    let b = size_lines(p, elapsed, kib_per_s);
    let c = first_pass_line(p, lost_pct);
    let d = repair_lines(p);
    text::lemma_says_last(a, b);
    text::lemma_says_on(a + b, c, b);
    text::lemma_says_on(a + b + c, d, b);
    text::lemma_says_last(a + b, c);
    text::lemma_says_on(a + b + c, d, c);
    text::lemma_says_last(a + b + c, d);
    lemma_says_to_the_end(a + b + c + d, b, p);
    lemma_says_to_the_end(a + b + c + d, c, p);
    lemma_says_to_the_end(a + b + c + d, d, p);
}

/// What is said up to the checksum is said in the end.
proof fn lemma_says_to_the_end(s: Seq<char>, part: Seq<char>, p: Progress)
    requires
        text::says(s, part),
    ensures
        text::says(s + "  matches the sender\n\n"@, part),
        text::says(s + "  DOES NOT MATCH sender's "@ + text::hex8(p.crc) + "\n\n"@, part),
{
    text::lemma_says_on(s, "  matches the sender\n\n"@, part);
    text::lemma_says_on(s, "  DOES NOT MATCH sender's "@, part);
    text::lemma_says_on(s + "  DOES NOT MATCH sender's "@, text::hex8(p.crc), part);
    text::lemma_says_on(
        s + "  DOES NOT MATCH sender's "@ + text::hex8(p.crc),
        "\n\n"@,
        part,
    );
}

/// The receipt begins with the name that the sender gave and with where the file
/// is, or with why it is not there.
pub proof fn law_the_receipt_says_where_the_file_is(
    p: Progress,
    place: Seq<char>,
    why: Seq<char>,
)
    ensures
        place_lines(p, place, None) == "\n-- received "@ + p.name + " --\n"@
            + "  written to             "@ + place + "\n"@,
        place_lines(p, place, Some(why)) == "\n-- received "@ + p.name + " --\n"@
            + "  COULD NOT WRITE        "@ + place + ": "@ + why + "\n"@,
{
    reveal(place_lines);
    assert(Seq::<char>::empty() + "\n-- received "@ =~= "\n-- received "@);
}

/// The progress of a transfer is how many of its chunks are there.
pub proof fn law_progress_is_what_is_there(p: Progress)
    ensures
        progress_text(p) == "  "@ + p.name + " — "@ + text::decimal(p.have_count as nat) + "/"@
            + text::decimal(p.chunk_count as nat) + " chunks"@,
{
    assert(Seq::<char>::empty() + "  "@ =~= "  "@);
}

} // verus!
