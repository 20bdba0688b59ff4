//! The end-of-run report.
//!
//! The counts and the layout are settled here. Figures with a decimal point are
//! handed in as they are to be printed.

use vstd::prelude::*;

use crate::stats;
use crate::stats::{Latency, RouteEvent, Run};
use crate::text;

verus! {

/// One distribution in milliseconds, each figure to one decimal.
pub struct LineFigures {
    pub min: String,
    pub p50: String,
    pub p90: String,
    pub p99: String,
    pub max: String,
    pub mean: String,
}

/// What the live line needs besides the counts.
pub struct TickFigures {
    pub elapsed: String,
    pub loss_pct: String,
    pub p50: String,
    pub p90: String,
    pub jitter: String,
}

/// What the prober's report needs besides the counts.
pub struct ProberFigures {
    pub elapsed: String,
    pub loss_pct: String,
    pub reordered_pct: String,
    pub rtt: LineFigures,
    pub forward: LineFigures,
    pub reverse: LineFigures,
    pub forward_jitter: String,
    pub reverse_jitter: String,
    /// The nearest rank of the ninetieth percentile of the round trips.
    pub p90_rank: usize,
    /// Half the p90 round trip, in whole milliseconds.
    pub owd_p90: String,
    /// What that leaves of the audio budget, in whole milliseconds.
    pub headroom: String,
    /// Whether the jitter alone would already spoil a call.
    pub shaky: bool,
}

/// What the responder's report needs besides the counts.
pub struct ResponderFigures {
    pub elapsed: String,
    pub loss_pct: String,
    pub reordered_pct: String,
    pub forward: LineFigures,
    pub forward_jitter: String,
}

// ---------------------------------------------------------------------------
// lines
// ---------------------------------------------------------------------------

/// One line of a distribution.
pub open spec fn line_text(samples: Seq<u64>, label: Seq<char>, f: LineFigures) -> Seq<char> {
    if samples.len() == 0 {
        let s = Seq::<char>::empty()
            + "  "@
            + text::flush_left(label, 26)
            + " (no samples)"@;
        s
    } else {
        let s = Seq::<char>::empty()
            + "  "@
            + text::flush_left(label, 26)
            + " min "@
            + text::flush_right(f.min@, 8)
            + "  p50 "@
            + text::flush_right(f.p50@, 8)
            + "  p90 "@
            + text::flush_right(f.p90@, 8)
            + "  p99 "@
            + text::flush_right(f.p99@, 8)
            + "  max "@
            + text::flush_right(f.max@, 9)
            + "  mean "@
            + text::flush_right(f.mean@, 8);
        s
    }
}

impl Latency {
    /// One line of the distribution, for the report.
    pub fn line(&self, label: &str, f: &LineFigures) -> (r: String)
        ensures
            r@ == line_text(self@, label@, *f),
    {
        let mut out = String::new();
        if self.is_empty() {
            out.append("  ");
            text::put_left(&mut out, label, 26);
            out.append(" (no samples)");
        } else {
            out.append("  ");
            text::put_left(&mut out, label, 26);
            out.append(" min ");
            text::put_right(&mut out, f.min.as_str(), 8);
            out.append("  p50 ");
            text::put_right(&mut out, f.p50.as_str(), 8);
            out.append("  p90 ");
            text::put_right(&mut out, f.p90.as_str(), 8);
            out.append("  p99 ");
            text::put_right(&mut out, f.p99.as_str(), 8);
            out.append("  max ");
            text::put_right(&mut out, f.max.as_str(), 9);
            out.append("  mean ");
            text::put_right(&mut out, f.mean.as_str(), 8);
        }
        out
    }
}

/// Probes that were sent and not answered.
pub open spec fn unanswered(run: Run) -> int {
    if run.sent >= run.rtt@.len() {
        run.sent - run.rtt@.len()
    } else {
        0
    }
}

/// Whether the loss alone would already spoil a call: more than one probe in ten
/// was not answered.
pub open spec fn lossy(run: Run) -> bool {
    10 * unanswered(run) > run.sent
}

/// Whether the loss alone would already spoil a call.
pub fn too_lossy(run: &Run) -> (r: bool)
    ensures
        r == lossy(*run),
{
    let echoed: u64 = run.rtt.count() as u64;
    let lost: u64 = if run.sent >= echoed { run.sent - echoed } else { 0 };
    10 * lost as u128 > run.sent as u128
}

/// The live line.
pub open spec fn tick_text(run: Run, f: TickFigures) -> Seq<char> {
    let s = Seq::<char>::empty()
        + "["@
        + text::flush_right(f.elapsed@, 6)
        + "s] sent "@
        + text::flush_right(text::decimal(run.sent as nat), 6)
        + "  echo "@
        + text::flush_right(text::decimal(run.rtt@.len()), 6)
        + "  loss "@
        + text::flush_right(f.loss_pct@, 5)
        + "%  rtt p50 "@
        + text::flush_right(f.p50@, 7)
        + "ms  p90 "@
        + text::flush_right(f.p90@, 7)
        + "ms  jit "@
        + text::flush_right(f.jitter@, 6)
        + "ms"@;
    s
}

/// What happened to the routes.
pub open spec fn routes_text(first_death: Option<String>, events: Seq<RouteEvent>) -> Seq<char> {
    let s = Seq::<char>::empty() + "\n-- routes --\n"@;
    let s = match first_death {
        Some(t) => s + "  first route death at       "@ + t@ + "s\n"@,
        None => s + "  no route deaths\n"@,
    };
    if events.len() == 0 {
        s + "  (no route churn during the run)\n"@
    } else {
        events_text(s, events)
    }
}

/// One line for each event, behind `front`.
pub open spec fn events_text(front: Seq<char>, events: Seq<RouteEvent>) -> Seq<char>
    decreases events.len(),
{
    if events.len() == 0 {
        front
    } else {
        events_text(front, events.drop_last())
            + "  "@
            + text::flush_right(events.last().at_secs@, 8)
            + "s  "@
            + events.last().what@
            + "\n"@
    }
}

/// How a run of round trips measures up to a call.
pub enum Verdict {
    /// Nothing came back.
    Silent,
    /// The transport alone spends the whole budget.
    Blown { owd: Seq<char>, headroom: Seq<char> },
    /// Hardly anything of the budget is left.
    Tight { owd: Seq<char>, headroom: Seq<char> },
    /// The delay would do; jitter and loss would not.
    Rough { owd: Seq<char>, headroom: Seq<char> },
    /// A call could work.
    Viable { owd: Seq<char>, headroom: Seq<char> },
}

/// Which verdict fits a p90 round trip. Conversational audio budgets 200 ms one
/// way; under 60 ms left of that is too little to build on.
pub open spec fn judged(p90_us: u64, rough: bool, owd: Seq<char>, headroom: Seq<char>) -> Verdict {
    if p90_us > 400_000 {
        Verdict::Blown { owd, headroom }
    } else if p90_us > 280_000 {
        Verdict::Tight { owd, headroom }
    } else if rough {
        Verdict::Rough { owd, headroom }
    } else {
        Verdict::Viable { owd, headroom }
    }
}

/// The two figures every verdict on a run that came back begins with.
pub open spec fn budget_text(owd: Seq<char>, headroom: Seq<char>) -> Seq<char> {
    let s = Seq::<char>::empty()
        + "\n-- what this means for a call --\n  p90 one-way transport delay is about "@
        + owd
        + " ms (half the p90 round trip).\n  Conversational audio budgets ~200 ms mouth to ear, so this leaves "@
        + headroom
        + " ms\n  for capture, encode, jitter buffer, decode and playout.\n"@;
    s
}

/// The distribution translated into the only question that matters for a call.
pub open spec fn verdict_text(v: Verdict) -> Seq<char> {
    match v {
        Verdict::Silent => Seq::<char>::empty() + "\n-- what this means for a call --\n  Nothing came back. Check that both ends attached and that the blob is current.\n"@,
        Verdict::Blown { owd, headroom } => budget_text(owd, headroom)
            + "  That budget is already blown by the transport alone. Media over app_message\n  is not viable on this path; use Veilid for signalling and carry media elsewhere.\n"@,
        Verdict::Tight { owd, headroom } => budget_text(owd, headroom)
            + "  That is too little to build on. Everything else in the pipeline costs more\n  than that combined.\n"@,
        Verdict::Rough { owd, headroom } => budget_text(owd, headroom)
            + "  The delay is survivable but the jitter and loss are not; a jitter buffer\n  deep enough to smooth this would spend the headroom you just measured.\n"@,
        Verdict::Viable { owd, headroom } => budget_text(owd, headroom)
            + "  This is within reach for audio. Re-run it at several times of day and on a\n  worse network before trusting it.\n"@,
    }
}

/// The verdict on these round trips: silence if there are none, else what their
/// p90 sample, the one at the given rank, comes to. Jitter or loss alone makes a
/// run rough.
pub open spec fn verdict_on(
    rtt: Seq<u64>,
    p90_rank: int,
    shaky: bool,
    lossy: bool,
    owd: Seq<char>,
    headroom: Seq<char>,
    v: Verdict,
) -> bool {
    if rtt.len() == 0 {
        v == Verdict::Silent
    } else {
        exists|p90: u64| #[trigger]
            stats::at_rank(
                rtt,
                stats::clamp_rank(p90_rank, rtt.len() as int),
                p90,
            ) && v == judged(p90, shaky || lossy, owd, headroom)
    }
}

/// Translate the distribution into the only question that matters for a call.
/// `shaky` and `lossy` say whether the jitter or the loss alone would already
/// spoil a call.
pub fn verdict(
    rtt: &Latency,
    p90_rank: usize,
    shaky: bool,
    lossy: bool,
    owd_p90: &str,
    headroom: &str,
) -> (r: String)
    ensures
        exists|v: Verdict| #[trigger]
            verdict_on(rtt@, p90_rank as int, shaky, lossy, owd_p90@, headroom@, v) && r@
                == verdict_text(v),
{
    let mut out = String::new();
    if rtt.is_empty() {
        out.append("\n-- what this means for a call --\n  Nothing came back. Check that both ends attached and that the blob is current.\n");
        assert(verdict_on(rtt@, p90_rank as int, shaky, lossy, owd_p90@, headroom@, Verdict::Silent));
        return out;
    }
    let p90 = rtt.rank_us(p90_rank);
    let ghost v = judged(p90, shaky || lossy, owd_p90@, headroom@);
    assert(verdict_on(rtt@, p90_rank as int, shaky, lossy, owd_p90@, headroom@, v));
    out.append("\n-- what this means for a call --\n  p90 one-way transport delay is about ");
    out.append(owd_p90);
    out.append(" ms (half the p90 round trip).\n  Conversational audio budgets ~200 ms mouth to ear, so this leaves ");
    out.append(headroom);
    out.append(" ms\n  for capture, encode, jitter buffer, decode and playout.\n");
    if p90 > 400_000 {
        out.append("  That budget is already blown by the transport alone. Media over app_message\n  is not viable on this path; use Veilid for signalling and carry media elsewhere.\n");
    } else if p90 > 280_000 {
        out.append("  That is too little to build on. Everything else in the pipeline costs more\n  than that combined.\n");
    } else if shaky || lossy {
        out.append("  The delay is survivable but the jitter and loss are not; a jitter buffer\n  deep enough to smooth this would spend the headroom you just measured.\n");
    } else {
        out.append("  This is within reach for audio. Re-run it at several times of day and on a\n  worse network before trusting it.\n");
    }
    out
}

// ---------------------------------------------------------------------------
// reports
// ---------------------------------------------------------------------------

/// What the prober's report begins with.
#[verifier::opaque]
pub open spec fn report_head(params: Seq<char>, f: ProberFigures) -> Seq<char> {
    Seq::<char>::empty() + "\n========== veilid-vc probe report ==========\n"@ + params
        + "\n  duration                   "@ + f.elapsed@ + "s\n\n-- delivery --\n"@
}

/// The line on probes that never left, if there were any.
#[verifier::opaque]
pub open spec fn scheduled_line(run: Run) -> Seq<char> {
    if run.scheduled > run.sent {
        "  probes scheduled           "@ + text::decimal(run.scheduled as nat) + "  ("@
            + text::decimal((run.scheduled - run.sent) as nat)
            + " never left; the node could not hold the rate)\n"@
    } else {
        Seq::empty()
    }
}

/// The lines on what was sent, what came back and what did not.
#[verifier::opaque]
pub open spec fn count_lines(run: Run, f: ProberFigures) -> Seq<char> {
    "  probes sent                "@ + text::decimal(run.sent as nat)
        + "\n  echoes received            "@ + text::decimal(run.rtt@.len() as nat)
        + "\n  unanswered                 "@ + text::decimal(unanswered(run) as nat) + "  ("@
        + f.loss_pct@ + "%)\n"@
}

/// The line on sends that failed, if any did.
#[verifier::opaque]
pub open spec fn errors_line(run: Run) -> Seq<char> {
    if run.send_errors > 0 {
        "  send errors                "@ + text::decimal(run.send_errors as nat) + "\n"@
    } else {
        Seq::empty()
    }
}

/// The line on sends that there was no room for, if there were any.
#[verifier::opaque]
pub open spec fn dropped_line(run: Run) -> Seq<char> {
    if run.send_dropped > 0 {
        "  never sent (backpressure)  "@ + text::decimal(run.send_dropped as nat)
            + "  <- the node could not keep up with --rate\n"@
    } else {
        Seq::empty()
    }
}

/// The line on echoes that came more than once, if any did.
#[verifier::opaque]
pub open spec fn duplicates_line(run: Run) -> Seq<char> {
    if run.arrivals.duplicates > 0 {
        "  duplicate echoes           "@ + text::decimal(run.arrivals.duplicates as nat) + "\n"@
    } else {
        Seq::empty()
    }
}

/// The line on echoes that came late, if any did.
#[verifier::opaque]
pub open spec fn reordered_line(run: Run, f: ProberFigures) -> Seq<char> {
    if run.arrivals.reordered > 0 {
        "  echoes out of order        "@ + text::decimal(run.arrivals.reordered as nat) + "  ("@
            + f.reordered_pct@ + "%)\n"@
    } else {
        Seq::empty()
    }
}

/// The lines on the round trip, the two ways and the jitter of each.
#[verifier::opaque]
pub open spec fn latency_lines(run: Run, f: ProberFigures) -> Seq<char> {
    "\n-- latency, milliseconds --\n"@ + line_text(run.rtt@, "round trip (clean)"@, f.rtt) + "\n"@
        + line_text(run.forward@, "forward one-way (skewed)"@, f.forward) + "\n"@ + line_text(
        run.reverse@,
        "reverse one-way (skewed)"@,
        f.reverse,
    ) + "\n\n  forward jitter             "@ + text::flush_right(f.forward_jitter@, 8)
        + " ms\n  reverse jitter             "@ + text::flush_right(f.reverse_jitter@, 8)
        + " ms\n\n"@
        + "  One-way figures cross two unsynchronised clocks, so their absolute values\n  include the offset between the machines. Their spread and the jitter figures\n  do not. Round trip is offset-free and is the number to design against.\n"@
}

/// The prober's report, with the verdict `v` at its end.
pub open spec fn prober_text(
    run: Run,
    params: Seq<char>,
    f: ProberFigures,
    v: Verdict,
) -> Seq<char> {
    report_head(params, f) + scheduled_line(run) + count_lines(run, f) + errors_line(run)
        + dropped_line(run) + duplicates_line(run) + reordered_line(run, f) + latency_lines(run, f)
        + routes_text(run.first_route_death, run.route_events@) + verdict_text(v)
}

/// What the responder's report begins with.
#[verifier::opaque]
pub open spec fn responder_head(params: Seq<char>, f: ResponderFigures) -> Seq<char> {
    Seq::<char>::empty() + "\n========== veilid-vc responder report ==========\n"@ + params
        + "\n  duration                   "@ + f.elapsed@
        + "s\n\n-- forward path, as seen from this end --\n"@
}

/// The lines on what has arrived, and on how much was echoed.
#[verifier::opaque]
pub open spec fn arrival_lines(run: Run, f: ResponderFigures) -> Seq<char> {
    "  probes received            "@ + text::decimal(run.arrivals.tally().seen.len() as nat)
        + "\n  inferred lost              "@ + text::decimal(
        (stats::span_of(run.arrivals.tally()) - run.arrivals.tally().seen.len()) as nat,
    ) + "  ("@ + f.loss_pct@ + "%)\n  duplicates                 "@ + text::decimal(
        run.arrivals.duplicates as nat,
    ) + "\n  out of order               "@ + text::decimal(run.arrivals.reordered as nat) + "  ("@
        + f.reordered_pct@ + "%)\n  echoes sent                "@ + text::decimal(run.sent as nat)
        + "\n"@
}

/// The line on echoes that could not be sent, if there were any.
#[verifier::opaque]
pub open spec fn echo_errors_line(run: Run) -> Seq<char> {
    if run.send_errors > 0 {
        "  echo send errors           "@ + text::decimal(run.send_errors as nat) + "\n"@
    } else {
        Seq::empty()
    }
}

/// The lines on the way here.
#[verifier::opaque]
pub open spec fn forward_lines(run: Run, f: ResponderFigures) -> Seq<char> {
    "\n"@ + line_text(run.forward@, "forward one-way (skewed)"@, f.forward)
        + "\n  forward jitter             "@ + text::flush_right(f.forward_jitter@, 8)
        + " ms\n\n"@
        + "  Loss here is inferred from gaps in the sequence numbers that did arrive,\n  so anything dropped after the last one to land is invisible. The prober's\n  own count is exact; compare the two.\n"@
}

/// The responder's report.
pub open spec fn responder_text(run: Run, params: Seq<char>, f: ResponderFigures) -> Seq<char> {
    responder_head(params, f) + arrival_lines(run, f) + echo_errors_line(run) + forward_lines(
        run,
        f,
    ) + routes_text(run.first_route_death, run.route_events@)
}

impl Run {
    /// Live one-liner, printed once a second so a long run is watchable.
    pub fn tick_line(&self, f: &TickFigures) -> (r: String)
        ensures
            r@ == tick_text(*self, *f),
    {
        let sent = text::decimal_text(self.sent);
        let echo = text::decimal_text(self.rtt.count() as u64);
        let mut out = String::new();
        out.append("[");
        text::put_right(&mut out, f.elapsed.as_str(), 6);
        out.append("s] sent ");
        text::put_right(&mut out, sent.as_str(), 6);
        out.append("  echo ");
        text::put_right(&mut out, echo.as_str(), 6);
        out.append("  loss ");
        text::put_right(&mut out, f.loss_pct.as_str(), 5);
        out.append("%  rtt p50 ");
        text::put_right(&mut out, f.p50.as_str(), 7);
        out.append("ms  p90 ");
        text::put_right(&mut out, f.p90.as_str(), 7);
        out.append("ms  jit ");
        text::put_right(&mut out, f.jitter.as_str(), 6);
        out.append("ms");
        out
    }

    /// Put in the line on probes that never left.
    fn put_scheduled(&self, out: &mut String)
        ensures
            final(out)@ == old(out)@ + scheduled_line(*self),
    {
        reveal(scheduled_line);
        if self.scheduled > self.sent {
            out.append("  probes scheduled           ");
            text::put_decimal(out, self.scheduled);
            out.append("  (");
            text::put_decimal(out, self.scheduled - self.sent);
            out.append(" never left; the node could not hold the rate)\n");
        }
        assert(out@ == old(out)@ + scheduled_line(*self));
    }

    /// Put in the lines on what was sent, what came back and what did not.
    fn put_counts(&self, out: &mut String, f: &ProberFigures)
        ensures
            final(out)@ == old(out)@ + count_lines(*self, *f),
    {
        reveal(count_lines);
        let echoed: u64 = self.rtt.count() as u64;
        let lost: u64 = if self.sent >= echoed { self.sent - echoed } else { 0 };
        out.append("  probes sent                ");
        text::put_decimal(out, self.sent);
        out.append("\n  echoes received            ");
        text::put_decimal(out, echoed);
        out.append("\n  unanswered                 ");
        text::put_decimal(out, lost);
        out.append("  (");
        out.append(f.loss_pct.as_str());
        out.append("%)\n");
        assert(out@ == old(out)@ + count_lines(*self, *f));
    }

    /// Put in the line on sends that failed.
    fn put_errors(&self, out: &mut String)
        ensures
            final(out)@ == old(out)@ + errors_line(*self),
    {
        reveal(errors_line);
        if self.send_errors > 0 {
            out.append("  send errors                ");
            text::put_decimal(out, self.send_errors);
            out.append("\n");
        }
        assert(out@ == old(out)@ + errors_line(*self));
    }

    /// Put in the line on sends that there was no room for.
    fn put_dropped(&self, out: &mut String)
        ensures
            final(out)@ == old(out)@ + dropped_line(*self),
    {
        reveal(dropped_line);
        if self.send_dropped > 0 {
            out.append("  never sent (backpressure)  ");
            text::put_decimal(out, self.send_dropped);
            out.append("  <- the node could not keep up with --rate\n");
        }
        assert(out@ == old(out)@ + dropped_line(*self));
    }

    /// Put in the line on echoes that came more than once.
    fn put_duplicates(&self, out: &mut String)
        ensures
            final(out)@ == old(out)@ + duplicates_line(*self),
    {
        reveal(duplicates_line);
        if self.arrivals.duplicates > 0 {
            out.append("  duplicate echoes           ");
            text::put_decimal(out, self.arrivals.duplicates);
            out.append("\n");
        }
        assert(out@ == old(out)@ + duplicates_line(*self));
    }

    /// Put in the line on echoes that came late.
    fn put_reordered(&self, out: &mut String, f: &ProberFigures)
        ensures
            final(out)@ == old(out)@ + reordered_line(*self, *f),
    {
        reveal(reordered_line);
        if self.arrivals.reordered > 0 {
            out.append("  echoes out of order        ");
            text::put_decimal(out, self.arrivals.reordered);
            out.append("  (");
            out.append(f.reordered_pct.as_str());
            out.append("%)\n");
        }
        assert(out@ == old(out)@ + reordered_line(*self, *f));
    }

    /// The lines on the round trip, the two ways and the jitter of each.
    fn latency_section(&self, f: &ProberFigures) -> (r: String)
        ensures
            r@ == latency_lines(*self, *f),
    {
        reveal(latency_lines);
        let rtt = self.rtt.line("round trip (clean)", &f.rtt);
        let forward = self.forward.line("forward one-way (skewed)", &f.forward);
        let reverse = self.reverse.line("reverse one-way (skewed)", &f.reverse);
        let mut out = "\n-- latency, milliseconds --\n".to_owned();
        out.append(rtt.as_str());
        out.append("\n");
        out.append(forward.as_str());
        out.append("\n");
        out.append(reverse.as_str());
        out.append("\n\n  forward jitter             ");
        text::put_right(&mut out, f.forward_jitter.as_str(), 8);
        out.append(" ms\n  reverse jitter             ");
        text::put_right(&mut out, f.reverse_jitter.as_str(), 8);
        out.append(" ms\n\n");
        out.append("  One-way figures cross two unsynchronised clocks, so their absolute values\n  include the offset between the machines. Their spread and the jitter figures\n  do not. Round trip is offset-free and is the number to design against.\n");
        out
    }

    /// What the report begins with.
    fn head_section(params: &str, f: &ProberFigures) -> (r: String)
        ensures
            r@ == report_head(params@, *f),
    {
        reveal(report_head);
        let mut out = String::new();
        out.append("\n========== veilid-vc probe report ==========\n");
        out.append(params);
        out.append("\n  duration                   ");
        out.append(f.elapsed.as_str());
        out.append("s\n\n-- delivery --\n");
        out
    }

    /// What the run came to, as the prober saw it.
    pub fn prober_report(&self, params: &str, f: &ProberFigures) -> (r: String)
        ensures
            exists|v: Verdict| #[trigger]
                verdict_on(
                    self.rtt@,
                    f.p90_rank as int,
                    f.shaky,
                    lossy(*self),
                    f.owd_p90@,
                    f.headroom@,
                    v,
                ) && r@ == prober_text(*self, params@, *f, v),
    {
        let latency = self.latency_section(f);
        let routes = self.route_section();
        let meaning = verdict(
            &self.rtt,
            f.p90_rank,
            f.shaky,
            too_lossy(self),
            f.owd_p90.as_str(),
            f.headroom.as_str(),
        );
        let mut out = Run::head_section(params, f);
        self.put_scheduled(&mut out);
        self.put_counts(&mut out, f);
        self.put_errors(&mut out);
        self.put_dropped(&mut out);
        self.put_duplicates(&mut out);
        self.put_reordered(&mut out, f);
        out.append(latency.as_str());
        out.append(routes.as_str());
        out.append(meaning.as_str());
        out
    }

    /// What the responder's report begins with.
    fn responder_head_section(params: &str, f: &ResponderFigures) -> (r: String)
        ensures
            r@ == responder_head(params@, *f),
    {
        reveal(responder_head);
        let mut out = String::new();
        out.append("\n========== veilid-vc responder report ==========\n");
        out.append(params);
        out.append("\n  duration                   ");
        out.append(f.elapsed.as_str());
        out.append("s\n\n-- forward path, as seen from this end --\n");
        out
    }

    /// The lines on what has arrived, and on how much was echoed.
    fn arrival_section(&self, f: &ResponderFigures) -> (r: String)
        requires
            self.arrivals.wf(),
            stats::span_of(self.arrivals.tally()) <= u64::MAX,
        ensures
            r@ == arrival_lines(*self, *f),
    {
        reveal(arrival_lines);
        let (lost, _) = self.arrivals.inferred_loss();
        let mut out = "  probes received            ".to_owned();
        text::put_decimal(&mut out, self.arrivals.unique());
        out.append("\n  inferred lost              ");
        text::put_decimal(&mut out, lost);
        out.append("  (");
        out.append(f.loss_pct.as_str());
        out.append("%)\n  duplicates                 ");
        text::put_decimal(&mut out, self.arrivals.duplicates);
        out.append("\n  out of order               ");
        text::put_decimal(&mut out, self.arrivals.reordered);
        out.append("  (");
        out.append(f.reordered_pct.as_str());
        out.append("%)\n  echoes sent                ");
        text::put_decimal(&mut out, self.sent);
        out.append("\n");
        out
    }

    /// Put in the line on echoes that could not be sent.
    fn put_echo_errors(&self, out: &mut String)
        ensures
            final(out)@ == old(out)@ + echo_errors_line(*self),
    {
        reveal(echo_errors_line);
        if self.send_errors > 0 {
            out.append("  echo send errors           ");
            text::put_decimal(out, self.send_errors);
            out.append("\n");
        }
        assert(out@ == old(out)@ + echo_errors_line(*self));
    }

    /// The lines on the way here.
    fn forward_section(&self, f: &ResponderFigures) -> (r: String)
        ensures
            r@ == forward_lines(*self, *f),
    {
        reveal(forward_lines);
        let forward = self.forward.line("forward one-way (skewed)", &f.forward);
        let mut out = "\n".to_owned();
        out.append(forward.as_str());
        out.append("\n  forward jitter             ");
        text::put_right(&mut out, f.forward_jitter.as_str(), 8);
        out.append(" ms\n\n");
        out.append("  Loss here is inferred from gaps in the sequence numbers that did arrive,\n  so anything dropped after the last one to land is invisible. The prober's\n  own count is exact; compare the two.\n");
        out
    }

    /// What the run came to, as the responder saw it.
    pub fn responder_report(&self, params: &str, f: &ResponderFigures) -> (r: String)
        requires
            self.arrivals.wf(),
            stats::span_of(self.arrivals.tally()) <= u64::MAX,
        ensures
            r@ == responder_text(*self, params@, *f),
    {
        let arrivals = self.arrival_section(f);
        let forward = self.forward_section(f);
        let routes = self.route_section();
        let mut out = Run::responder_head_section(params, f);
        out.append(arrivals.as_str());
        self.put_echo_errors(&mut out);
        out.append(forward.as_str());
        out.append(routes.as_str());
        out
    }

    /// What happened to the routes.
    pub fn route_section(&self) -> (r: String)
        ensures
            r@ == routes_text(self.first_route_death, self.route_events@),
    {
        let mut out = String::new();
        out.append("\n-- routes --\n");
        match &self.first_route_death {
            Some(t) => {
                out.append("  first route death at       ");
                out.append(t.as_str());
                out.append("s\n");
            },
            None => {
                out.append("  no route deaths\n");
            },
        }
        if self.route_events.is_empty() {
            out.append("  (no route churn during the run)\n");
        } else {
            let ghost front = out@;
            let mut i: usize = 0;
            assert(self.route_events@.take(0) == Seq::<RouteEvent>::empty());
            while i < self.route_events.len()
                invariant
                    i <= self.route_events@.len(),
                    out@ == events_text(front, self.route_events@.take(i as int)),
                decreases self.route_events@.len() - i,
            {
                proof {
                    let more = self.route_events@.take(i + 1);
                    assert(more.drop_last() == self.route_events@.take(i as int));
                    assert(more.last() == self.route_events@[i as int]);
                }
                let ev = &self.route_events[i];
                out.append("  ");
                text::put_right(&mut out, ev.at_secs.as_str(), 8);
                out.append("s  ");
                out.append(ev.what.as_str());
                out.append("\n");
                i = i + 1;
            }
            assert(self.route_events@.take(self.route_events@.len() as int) == self.route_events@);
        }
        out
    }
}

// ---------------------------------------------------------------------------
// laws
// ---------------------------------------------------------------------------

/// The verdict follows from what the audio budget leaves. Of 200 ms, half the p90
/// round trip is spent on the way. If that is more than there is, the budget is
/// blown; if less than 60 ms are left, it is tight; and otherwise jitter and loss
/// decide.
pub proof fn law_the_verdict_follows_the_headroom(
    p90_us: u64,
    rough: bool,
    owd: Seq<char>,
    headroom: Seq<char>,
)
    ensures
        ({
            let budget_us: int = 200_000;
            let least_us: int = 60_000;
            let twice_left: int = 2 * budget_us - p90_us;
            let v = judged(p90_us, rough, owd, headroom);
            &&& v is Blown <==> twice_left < 0
            &&& v is Tight <==> 0 <= twice_left < 2 * least_us
            &&& v is Rough <==> 2 * least_us <= twice_left && rough
            &&& v is Viable <==> 2 * least_us <= twice_left && !rough
        }),
{
}

/// The verdict hands the two figures on as they are.
pub proof fn law_the_verdict_keeps_its_figures(
    p90_us: u64,
    rough: bool,
    owd: Seq<char>,
    headroom: Seq<char>,
)
    ensures
        match judged(p90_us, rough, owd, headroom) {
            Verdict::Silent => false,
            Verdict::Blown { owd: a, headroom: b } => a == owd && b == headroom,
            Verdict::Tight { owd: a, headroom: b } => a == owd && b == headroom,
            Verdict::Rough { owd: a, headroom: b } => a == owd && b == headroom,
            Verdict::Viable { owd: a, headroom: b } => a == owd && b == headroom,
        },
{
}

/// A run is judged in one way. Silence stands for no round trip at all, nothing
/// with too much jitter or loss is viable, and nothing without is rough.
pub proof fn law_there_is_one_verdict(
    rtt: Seq<u64>,
    rank: int,
    shaky: bool,
    lossy: bool,
    owd: Seq<char>,
    headroom: Seq<char>,
    v: Verdict,
    w: Verdict,
)
    requires
        verdict_on(rtt, rank, shaky, lossy, owd, headroom, v),
        verdict_on(rtt, rank, shaky, lossy, owd, headroom, w),
    ensures
        v == w,
        v is Silent <==> rtt.len() == 0,
        v is Viable ==> !shaky && !lossy,
        v is Rough ==> shaky || lossy,
{
    if rtt.len() > 0 {
        let k = stats::clamp_rank(rank, rtt.len() as int);
        let p = choose|p90: u64| #[trigger]
            stats::at_rank(rtt, k, p90) && v == judged(p90, shaky || lossy, owd, headroom);
        let q = choose|p90: u64| #[trigger]
            stats::at_rank(rtt, k, p90) && w == judged(p90, shaky || lossy, owd, headroom);
        stats::law_a_rank_names_one_sample(rtt, k, p, q);
    }
}

/// A run is judged by the sample at the rank: its budget is blown from the first
/// microsecond over 400 ms of round trip on, and tight from the first over 280 ms
/// on.
pub proof fn law_the_verdict_is_on_the_sample_at_the_rank(
    rtt: Seq<u64>,
    rank: int,
    shaky: bool,
    lossy: bool,
    owd: Seq<char>,
    headroom: Seq<char>,
    v: Verdict,
    p90: u64,
)
    requires
        1 <= rank <= rtt.len(),
        stats::at_rank(rtt, rank, p90),
        verdict_on(rtt, rank, shaky, lossy, owd, headroom, v),
    ensures
        v is Blown <==> p90 > 2 * 200_000,
        v is Blown || v is Tight <==> p90 > 2 * (200_000 - 60_000),
{
    let q = choose|q: u64| #[trigger]
        stats::at_rank(rtt, stats::clamp_rank(rank, rtt.len() as int), q) && v == judged(
            q,
            shaky || lossy,
            owd,
            headroom,
        );
    stats::law_a_rank_names_one_sample(rtt, rank, p90, q);
}

/// What was sent is answered or unanswered, and nothing else: a run is lossy if
/// less than nine in ten of its probes came back.
pub proof fn law_what_is_not_answered_is_unanswered(run: Run)
    ensures
        run.rtt@.len() <= run.sent ==> unanswered(run) + run.rtt@.len() == run.sent,
        run.rtt@.len() >= run.sent ==> unanswered(run) == 0,
        lossy(run) <==> 9 * run.sent > 10 * run.rtt@.len(),
{
}

/// Every event gets one line, in the order in which they happened, behind what
/// stands before them.
pub proof fn law_every_event_gets_its_line(
    front: Seq<char>,
    a: Seq<RouteEvent>,
    b: Seq<RouteEvent>,
    e: RouteEvent,
)
    ensures
        events_text(front, a + b) == events_text(events_text(front, a), b),
        events_text(front, seq![e]) == front + ("  "@ + text::flush_right(e.at_secs@, 8) + "s  "@
            + e.what@ + "\n"@),
    decreases b.len(),
{
    assert(seq![e].drop_last() == Seq::<RouteEvent>::empty());
    assert(events_text(front, seq![e].drop_last()) == front);
    assert(events_text(front, seq![e]) =~= front + ("  "@ + text::flush_right(e.at_secs@, 8)
        + "s  "@ + e.what@ + "\n"@));
    if b.len() == 0 {
        assert(a + b == a);
    } else {
        law_every_event_gets_its_line(front, a, b.drop_last(), e);
        assert((a + b).drop_last() == a + b.drop_last());
        assert((a + b).last() == b.last());
    }
}

/// The lines that tell what was sent are part of the report.
pub proof fn law_the_report_gives_the_counts(
    run: Run,
    params: Seq<char>,
    f: ProberFigures,
    v: Verdict,
    lost: nat,
)
    requires
        lost + run.rtt@.len() == run.sent || (lost == 0 && run.rtt@.len() > run.sent),
    ensures
        text::says(
            prober_text(run, params, f, v),
            "  probes sent                "@ + text::decimal(run.sent as nat)
                + "\n  echoes received            "@ + text::decimal(run.rtt@.len())
                + "\n  unanswered                 "@ + text::decimal(lost) + "  ("@ + f.loss_pct@
                + "%)\n"@,
        ),
{
    let part = count_lines(run, f);
    assert(part == "  probes sent                "@ + text::decimal(run.sent as nat)
        + "\n  echoes received            "@ + text::decimal(run.rtt@.len())
        + "\n  unanswered                 "@ + text::decimal(lost) + "  ("@ + f.loss_pct@
        + "%)\n"@) by {
        reveal(count_lines);
    }
    let s = report_head(params, f) + scheduled_line(run);
    text::lemma_says_last(s, part);
    let s = s + part;
    text::lemma_says_on(s, errors_line(run), part);
    let s = s + errors_line(run);
    text::lemma_says_on(s, dropped_line(run), part);
    let s = s + dropped_line(run);
    text::lemma_says_on(s, duplicates_line(run), part);
    let s = s + duplicates_line(run);
    text::lemma_says_on(s, reordered_line(run, f), part);
    let s = s + reordered_line(run, f);
    text::lemma_says_on(s, latency_lines(run, f), part);
    let s = s + latency_lines(run, f);
    text::lemma_says_on(s, routes_text(run.first_route_death, run.route_events@), part);
    let s = s + routes_text(run.first_route_death, run.route_events@);
    text::lemma_says_on(s, verdict_text(v), part);
}

/// Whatever the lines on latency say, the report says.
proof fn lemma_report_says_latency(
    run: Run,
    params: Seq<char>,
    f: ProberFigures,
    v: Verdict,
    part: Seq<char>,
)
    requires
        text::says(latency_lines(run, f), part),
    ensures
        text::says(prober_text(run, params, f, v), part),
{
    let front = report_head(params, f) + scheduled_line(run) + count_lines(run, f) + errors_line(
        run,
    ) + dropped_line(run) + duplicates_line(run) + reordered_line(run, f);
    let lines = latency_lines(run, f);
    text::lemma_says_more(front, lines, Seq::empty(), part);
    assert(front + lines + Seq::<char>::empty() =~= front + lines);
    let s = front + lines;
    text::lemma_says_on(s, routes_text(run.first_route_death, run.route_events@), part);
    let s = s + routes_text(run.first_route_death, run.route_events@);
    text::lemma_says_on(s, verdict_text(v), part);
}

/// The report gives the figures of the round trip and of each way, and the jitter
/// of each way, beside their names.
pub proof fn law_the_report_gives_every_figure_its_name(
    run: Run,
    params: Seq<char>,
    f: ProberFigures,
    v: Verdict,
)
    ensures
        text::says(
            prober_text(run, params, f, v),
            line_text(run.rtt@, "round trip (clean)"@, f.rtt),
        ),
        text::says(
            prober_text(run, params, f, v),
            line_text(run.forward@, "forward one-way (skewed)"@, f.forward),
        ),
        text::says(
            prober_text(run, params, f, v),
            line_text(run.reverse@, "reverse one-way (skewed)"@, f.reverse),
        ),
        text::says(
            prober_text(run, params, f, v),
            "\n\n  forward jitter             "@ + text::flush_right(f.forward_jitter@, 8),
        ),
        text::says(
            prober_text(run, params, f, v),
            " ms\n  reverse jitter             "@ + text::flush_right(f.reverse_jitter@, 8),
        ),
{
    let rtt = line_text(run.rtt@, "round trip (clean)"@, f.rtt);
    let forward = line_text(run.forward@, "forward one-way (skewed)"@, f.forward);
    let reverse = line_text(run.reverse@, "reverse one-way (skewed)"@, f.reverse);
    let there = text::flush_right(f.forward_jitter@, 8);
    let back = text::flush_right(f.reverse_jitter@, 8);
    lemma_latency_says(
        "\n-- latency, milliseconds --\n"@,
        rtt,
        "\n"@,
        forward,
        "\n"@,
        reverse,
        "\n\n  forward jitter             "@,
        there,
        " ms\n  reverse jitter             "@,
        back,
        " ms\n\n"@,
        "  One-way figures cross two unsynchronised clocks, so their absolute values\n  include the offset between the machines. Their spread and the jitter figures\n  do not. Round trip is offset-free and is the number to design against.\n"@,
    );
    assert(text::says(latency_lines(run, f), rtt) && text::says(latency_lines(run, f), forward)
        && text::says(latency_lines(run, f), reverse) && text::says(
        latency_lines(run, f),
        "\n\n  forward jitter             "@ + there,
    ) && text::says(
        latency_lines(run, f),
        " ms\n  reverse jitter             "@ + back,
    )) by {
        reveal(latency_lines);
    }
    lemma_report_says_latency(run, params, f, v, rtt);
    lemma_report_says_latency(run, params, f, v, forward);
    lemma_report_says_latency(run, params, f, v, reverse);
    lemma_report_says_latency(
        run,
        params,
        f,
        v,
        "\n\n  forward jitter             "@ + there,
    );
    lemma_report_says_latency(
        run,
        params,
        f,
        v,
        " ms\n  reverse jitter             "@ + back,
    );
}

/// Twelve texts in a row say each of those that matter.
proof fn lemma_latency_says(
    a: Seq<char>,
    b: Seq<char>,
    c: Seq<char>,
    d: Seq<char>,
    e: Seq<char>,
    f: Seq<char>,
    g: Seq<char>,
    h: Seq<char>,
    i: Seq<char>,
    j: Seq<char>,
    k: Seq<char>,
    l: Seq<char>,
)
    ensures
        ({
            let all = a + b + c + d + e + f + g + h + i + j + k + l;
            &&& text::says(all, b)
            &&& text::says(all, d)
            &&& text::says(all, f)
            &&& text::says(all, g + h)
            &&& text::says(all, i + j)
        }),
{
    let s1 = a + b;
    let s2 = s1 + c;
    let s3 = s2 + d;
    let s4 = s3 + e;
    let s5 = s4 + f;
    let s6 = s5 + g + h;
    let s7 = s6 + i + j;
    text::lemma_says_last(a, b);
    text::lemma_says_on(s1, c, b);
    text::lemma_says_on(s2, d, b);
    text::lemma_says_on(s3, e, b);
    text::lemma_says_on(s4, f, b);
    text::lemma_says_last(s2, d);
    text::lemma_says_on(s3, e, d);
    text::lemma_says_on(s4, f, d);
    text::lemma_says_last(s4, f);
    text::lemma_says_last(s5, g + h);
    assert(s5 + (g + h) =~= s6);
    text::lemma_says_last(s6, i + j);
    assert(s6 + (i + j) =~= s7);
    lemma_says_pair(s5, g, h, b);
    lemma_says_pair(s5, g, h, d);
    lemma_says_pair(s5, g, h, f);
    lemma_says_pair(s6, i, j, b);
    lemma_says_pair(s6, i, j, d);
    lemma_says_pair(s6, i, j, f);
    lemma_says_pair(s6, i, j, g + h);
    lemma_says_pair(s7, k, l, b);
    lemma_says_pair(s7, k, l, d);
    lemma_says_pair(s7, k, l, f);
    lemma_says_pair(s7, k, l, g + h);
    lemma_says_pair(s7, k, l, i + j);
}

/// Two texts behind change nothing about what is said.
proof fn lemma_says_pair(s: Seq<char>, x: Seq<char>, y: Seq<char>, part: Seq<char>)
    requires
        text::says(s, part),
    ensures
        text::says(s + x + y, part),
{
    text::lemma_says_on(s, x, part);
    text::lemma_says_on(s + x, y, part);
}

/// What one report has more than another up to some place, it has more on the
/// whole, if they go on alike.
proof fn lemma_report_added(
    run: Run,
    f: ProberFigures,
    v: Verdict,
    s: Seq<char>,
    t: Seq<char>,
    line: Seq<char>,
)
    requires
        text::has_added(s, t, line),
    ensures
        ({
            let routes = routes_text(run.first_route_death, run.route_events@);
            text::has_added(
                s + latency_lines(run, f) + routes + verdict_text(v),
                t + latency_lines(run, f) + routes + verdict_text(v),
                line,
            )
        }),
{
    let routes = routes_text(run.first_route_death, run.route_events@);
    text::lemma_added_on(s, t, line, latency_lines(run, f));
    text::lemma_added_on(s + latency_lines(run, f), t + latency_lines(run, f), line, routes);
    text::lemma_added_on(
        s + latency_lines(run, f) + routes,
        t + latency_lines(run, f) + routes,
        line,
        verdict_text(v),
    );
}

/// The prober's report tells of probes that never left, of sends that failed and
/// of sends that there was no room for, each on a line of its own, where there
/// were any; and where there were none, it is the report without that line.
pub proof fn law_the_report_tells_what_went_wrong(
    run: Run,
    params: Seq<char>,
    f: ProberFigures,
    v: Verdict,
)
    ensures
        ({
            let t = prober_text(run, params, f, v);
            let on_time = prober_text(Run { scheduled: run.sent, ..run }, params, f, v);
            let no_errors = prober_text(Run { send_errors: 0, ..run }, params, f, v);
            let none_dropped = prober_text(Run { send_dropped: 0, ..run }, params, f, v);
            &&& run.scheduled > run.sent ==> text::has_added(
                t,
                on_time,
                "  probes scheduled           "@ + text::decimal(run.scheduled as nat) + "  ("@
                    + text::decimal((run.scheduled - run.sent) as nat)
                    + " never left; the node could not hold the rate)\n"@,
            )
            &&& run.scheduled <= run.sent ==> t == on_time
            &&& run.send_errors > 0 ==> text::has_added(
                t,
                no_errors,
                "  send errors                "@ + text::decimal(run.send_errors as nat) + "\n"@,
            )
            &&& run.send_dropped > 0 ==> text::has_added(
                t,
                none_dropped,
                "  never sent (backpressure)  "@ + text::decimal(run.send_dropped as nat)
                    + "  <- the node could not keep up with --rate\n"@,
            )
        }),
{
    reveal(scheduled_line);
    reveal(errors_line);
    reveal(dropped_line);
    reveal(duplicates_line);
    reveal(reordered_line);
    let none = Seq::<char>::empty();
    let on_time = Run { scheduled: run.sent, ..run };
    let no_errors = Run { send_errors: 0, ..run };
    let none_dropped = Run { send_dropped: 0, ..run };
    lemma_same_lines(run, on_time, f);
    lemma_same_lines(run, no_errors, f);
    lemma_same_lines(run, none_dropped, f);
    let h = report_head(params, f);
    let sc = scheduled_line(run);
    let c = count_lines(run, f);
    let e = errors_line(run);
    let d = dropped_line(run);
    let du = duplicates_line(run);
    let re = reordered_line(run, f);
    if run.scheduled > run.sent {
        text::lemma_added_last(h, sc);
        text::lemma_added_on(h + sc, h + none, sc, c);
        text::lemma_added_on(h + sc + c, h + none + c, sc, e);
        text::lemma_added_on(h + sc + c + e, h + none + c + e, sc, d);
        text::lemma_added_on(h + sc + c + e + d, h + none + c + e + d, sc, du);
        text::lemma_added_on(h + sc + c + e + d + du, h + none + c + e + d + du, sc, re);
        lemma_report_added(
            run,
            f,
            v,
            h + sc + c + e + d + du + re,
            h + none + c + e + d + du + re,
            sc,
        );
    }
    if run.send_errors > 0 {
        let p = h + sc + c;
        text::lemma_added_last(p, e);
        text::lemma_added_on(p + e, p + none, e, d);
        text::lemma_added_on(p + e + d, p + none + d, e, du);
        text::lemma_added_on(p + e + d + du, p + none + d + du, e, re);
        lemma_report_added(run, f, v, p + e + d + du + re, p + none + d + du + re, e);
    }
    if run.send_dropped > 0 {
        let p = h + sc + c + e;
        text::lemma_added_last(p, d);
        text::lemma_added_on(p + d, p + none, d, du);
        text::lemma_added_on(p + d + du, p + none + du, d, re);
        lemma_report_added(run, f, v, p + d + du + re, p + none + du + re, d);
    }
}

/// Runs that differ in what went wrong alone are told alike otherwise.
proof fn lemma_same_lines(run: Run, other: Run, f: ProberFigures)
    requires
        other == (Run {
            scheduled: other.scheduled,
            send_errors: other.send_errors,
            send_dropped: other.send_dropped,
            ..run
        }),
    ensures
        count_lines(other, f) == count_lines(run, f),
        duplicates_line(other) == duplicates_line(run),
        reordered_line(other, f) == reordered_line(run, f),
        latency_lines(other, f) == latency_lines(run, f),
{
    reveal(count_lines);
    reveal(duplicates_line);
    reveal(reordered_line);
    reveal(latency_lines);
}

/// Duplicates and late echoes are told on a line each, where there were any.
pub proof fn law_repeats_and_late_echoes_are_told(run: Run, f: ProberFigures)
    ensures
        duplicates_line(run) == if run.arrivals.duplicates >= 1 {
            "  duplicate echoes           "@ + text::decimal(run.arrivals.duplicates as nat)
                + "\n"@
        } else {
            Seq::<char>::empty()
        },
        reordered_line(run, f) == if run.arrivals.reordered >= 1 {
            "  echoes out of order        "@ + text::decimal(run.arrivals.reordered as nat)
                + "  ("@ + f.reordered_pct@ + "%)\n"@
        } else {
            Seq::<char>::empty()
        },
{
    reveal(duplicates_line);
    reveal(reordered_line);
}

/// The responder's report counts the probes that came, those missing between the
/// first and the last of them, those that came twice and those that came late, and
/// the echoes; and tells of echoes that could not be sent, where there were any.
pub proof fn law_the_responder_counts_what_came(
    run: Run,
    params: Seq<char>,
    f: ResponderFigures,
    lost: nat,
)
    requires
        lost + run.arrivals.tally().seen.len() == stats::span_of(run.arrivals.tally()),
    ensures
        text::says(
            responder_text(run, params, f),
            "  probes received            "@ + text::decimal(run.arrivals.tally().seen.len())
                + "\n  inferred lost              "@ + text::decimal(lost) + "  ("@ + f.loss_pct@
                + "%)\n  duplicates                 "@ + text::decimal(
                run.arrivals.duplicates as nat,
            ) + "\n  out of order               "@ + text::decimal(run.arrivals.reordered as nat)
                + "  ("@ + f.reordered_pct@ + "%)\n  echoes sent                "@ + text::decimal(
                run.sent as nat,
            ) + "\n"@,
        ),
        run.send_errors > 0 ==> text::has_added(
            responder_text(run, params, f),
            responder_text(Run { send_errors: 0, ..run }, params, f),
            "  echo send errors           "@ + text::decimal(run.send_errors as nat) + "\n"@,
        ),
{
    reveal(arrival_lines);
    reveal(echo_errors_line);
    reveal(forward_lines);
    let none = Seq::<char>::empty();
    let part = arrival_lines(run, f);
    let h = responder_head(params, f);
    let e = echo_errors_line(run);
    let w = forward_lines(run, f);
    let routes = routes_text(run.first_route_death, run.route_events@);
    text::lemma_says_last(h, part);
    text::lemma_says_on(h + part, e, part);
    text::lemma_says_on(h + part + e, w, part);
    text::lemma_says_on(h + part + e + w, routes, part);
    if run.send_errors > 0 {
        text::lemma_added_last(h + part, e);
        text::lemma_added_on(h + part + e, h + part + none, e, w);
        text::lemma_added_on(h + part + e + w, h + part + none + w, e, routes);
        let quiet = Run { send_errors: 0, ..run };
        assert(arrival_lines(quiet, f) == part);
        assert(forward_lines(quiet, f) == w);
    }
}

/// What happened to the routes begins with the first death or with that there was
/// none, and goes on with the events in order or with that there were none.
pub proof fn law_the_routes_are_told_from_the_first_death_on(
    first: String,
    events: Seq<RouteEvent>,
    e: RouteEvent,
)
    ensures
        routes_text(Some(first), Seq::empty()) == "\n-- routes --\n  first route death at       "@
            + first@ + "s\n  (no route churn during the run)\n"@,
        routes_text(None, Seq::empty())
            == "\n-- routes --\n  no route deaths\n  (no route churn during the run)\n"@,
        events.len() > 0 ==> routes_text(None, events.push(e)) == routes_text(None, events) + ("  "@
            + text::flush_right(e.at_secs@, 8) + "s  "@ + e.what@ + "\n"@),
        events.len() > 0 ==> routes_text(Some(first), events.push(e)) == routes_text(
            Some(first),
            events,
        ) + ("  "@ + text::flush_right(e.at_secs@, 8) + "s  "@ + e.what@ + "\n"@),
{
    reveal_strlit("\n-- routes --\n");
    reveal_strlit("\n-- routes --\n  first route death at       ");
    reveal_strlit("  first route death at       ");
    reveal_strlit("s\n");
    reveal_strlit("  (no route churn during the run)\n");
    reveal_strlit("s\n  (no route churn during the run)\n");
    reveal_strlit("  no route deaths\n");
    reveal_strlit("\n-- routes --\n  no route deaths\n  (no route churn during the run)\n");
    assert(events.push(e).drop_last() =~= events);
    assert(routes_text(Some(first), Seq::empty())
        =~= "\n-- routes --\n  first route death at       "@ + first@
        + "s\n  (no route churn during the run)\n"@);
    assert(routes_text(None, Seq::empty())
        =~= "\n-- routes --\n  no route deaths\n  (no route churn during the run)\n"@);
    if events.len() > 0 {
        assert(routes_text(None, events.push(e)) =~= routes_text(None, events) + ("  "@
            + text::flush_right(e.at_secs@, 8) + "s  "@ + e.what@ + "\n"@));
        assert(routes_text(Some(first), events.push(e)) =~= routes_text(Some(first), events) + (
        "  "@ + text::flush_right(e.at_secs@, 8) + "s  "@ + e.what@ + "\n"@));
    }
}

/// The live line counts the probes sent and the echoes, and a line of a
/// distribution gives each figure beside its name.
pub proof fn law_the_lines_give_each_figure_its_name(
    run: Run,
    t: TickFigures,
    samples: Seq<u64>,
    label: Seq<char>,
    f: LineFigures,
)
    ensures
        tick_text(run, t) == "["@ + text::flush_right(t.elapsed@, 6) + "s] sent "@
            + text::flush_right(text::decimal(run.sent as nat), 6) + "  echo "@
            + text::flush_right(text::decimal(run.rtt@.len()), 6) + "  loss "@ + text::flush_right(
            t.loss_pct@,
            5,
        ) + "%  rtt p50 "@ + text::flush_right(t.p50@, 7) + "ms  p90 "@ + text::flush_right(t.p90@, 7)
            + "ms  jit "@ + text::flush_right(t.jitter@, 6) + "ms"@,
        samples.len() > 0 ==> line_text(samples, label, f) == "  "@ + text::flush_left(label, 26)
            + " min "@ + text::flush_right(f.min@, 8) + "  p50 "@ + text::flush_right(f.p50@, 8)
            + "  p90 "@ + text::flush_right(f.p90@, 8) + "  p99 "@ + text::flush_right(f.p99@, 8)
            + "  max "@ + text::flush_right(f.max@, 9) + "  mean "@ + text::flush_right(f.mean@, 8),
        samples.len() == 0 ==> line_text(samples, label, f) == "  "@ + text::flush_left(label, 26)
            + " (no samples)"@,
{
    assert(Seq::<char>::empty() + "["@ =~= "["@);
    assert(Seq::<char>::empty() + "  "@ =~= "  "@);
}

} // verus!
