//! The two ends of the measurement.
//!
//! The responder echoes back everything it receives. The prober paces
//! timestamped packets at it. The echo is what makes the numbers honest:
//! `app_message` is one-way and unacknowledged, and bouncing each packet back off
//! the far end gives an exact delivery count and a round-trip time that does not
//! depend on the two machines agreeing about what time it is.

use std::path::PathBuf;
use vstd::prelude::*;

use crate::proto;
use crate::proto::{Packet, Said, MAX_APP_MESSAGE, PROBE_LEN};
use crate::stats;
use crate::stats::{RouteEvent, Run};
use crate::text;

verus! {

/// What a route is chosen for.
#[derive(Clone, Copy, Debug, PartialEq, Eq, Structural)]
pub enum Stability {
    LowLatency,
    Reliable,
}

/// Whether messages have to arrive in order.
#[derive(Clone, Copy, Debug, PartialEq, Eq, Structural)]
pub enum Sequencing {
    PreferUnordered,
    PreferOrdered,
    EnsureOrdered,
}

/// What a stability is called.
pub open spec fn stability_name(s: Stability) -> Seq<char> {
    match s {
        Stability::LowLatency => "LowLatency"@,
        Stability::Reliable => "Reliable"@,
    }
}

/// What a sequencing is called.
pub open spec fn sequencing_name(s: Sequencing) -> Seq<char> {
    match s {
        Sequencing::PreferUnordered => "PreferUnordered"@,
        Sequencing::PreferOrdered => "PreferOrdered"@,
        Sequencing::EnsureOrdered => "EnsureOrdered"@,
    }
}

impl Stability {
    pub fn name(&self) -> (r: &'static str)
        ensures
            r@ == stability_name(*self),
    {
        match self {
            Stability::LowLatency => "LowLatency",
            Stability::Reliable => "Reliable",
        }
    }
}

impl Sequencing {
    pub fn name(&self) -> (r: &'static str)
        ensures
            r@ == sequencing_name(*self),
    {
        match self {
            Sequencing::PreferUnordered => "PreferUnordered",
            Sequencing::PreferOrdered => "PreferOrdered",
            Sequencing::EnsureOrdered => "EnsureOrdered",
        }
    }
}

/// How the private routes and the safety route should be built.
#[derive(Clone)]
pub struct RouteParams {
    pub hops: Option<usize>,
    pub stability: Stability,
    pub sequencing: Sequencing,
    pub unsafe_routing: bool,
}

/// How a private route is asked for.
#[derive(Clone, Copy, PartialEq, Eq, Structural)]
pub enum RoutePlan {
    /// A custom route is the only way to pin the hop count, which is the single
    /// biggest lever on latency.
    Custom { hop_count: usize, stability: Stability, sequencing: Sequencing },
    /// Whatever the node does by itself.
    NodeDefault,
}

/// How messages leave this node.
#[derive(Clone, Copy, PartialEq, Eq, Structural)]
pub enum SafetyPlan {
    Unsafe { sequencing: Sequencing },
    Safe { hop_count: usize, stability: Stability, sequencing: Sequencing },
}

/// How many hops the safety route has.
pub open spec fn safety_hops(p: RouteParams) -> usize {
    match p.hops {
        Some(h) => h,
        None => 1,
    }
}

/// The routing settings, as the report shows them.
pub open spec fn params_text(p: RouteParams) -> Seq<char> {
    let s = Seq::<char>::empty()
        + "  safety                     "@;
    let s = if p.unsafe_routing {
        s
            + "unsafe (no safety route; the far end learns this node)"@
    } else {
        s
            + "safe, "@
            + text::decimal(safety_hops(p) as nat)
            + " hop(s)"@
    };
    let s = s
        + "\n  private route              "@;
    let s = if p.hops is Some {
        s
            + text::decimal(p.hops->Some_0 as nat)
            + " hop(s), custom"@
    } else {
        s
            + "node default"@
    };
    let s = s
        + "\n  stability / sequencing     "@
        + stability_name(p.stability)
        + " / "@
        + sequencing_name(p.sequencing);
    s
}

impl RouteParams {
    /// How many hops the safety route has.
    fn hops_or_one(&self) -> (r: usize)
        ensures
            r == safety_hops(*self),
    {
        match self.hops {
            Some(h) => h,
            None => 1,
        }
    }

    /// The routing settings, as the report shows them.
    pub fn describe(&self) -> (r: String)
        ensures
            r@ == params_text(*self),
    {
        let ghost p = *self;
        let safety_hops = self.hops_or_one();
        let mut out = String::new();
        out.append("  safety                     ");
        if self.unsafe_routing {
            out.append("unsafe (no safety route; the far end learns this node)");
        } else {
            out.append("safe, ");
            text::put_decimal(&mut out, safety_hops as u64);
            out.append(" hop(s)");
        }
        out.append("\n  private route              ");
        if self.hops.is_some() {
            text::put_decimal(&mut out, safety_hops as u64);
            out.append(" hop(s), custom");
        } else {
            out.append("node default");
        }
        out.append("\n  stability / sequencing     ");
        out.append(self.stability.name());
        out.append(" / ");
        out.append(self.sequencing.name());
        out
    }

    /// How a private route is asked for.
    pub fn route_plan(&self) -> (r: RoutePlan)
        ensures
            r == (match self.hops {
                Some(hop_count) => RoutePlan::Custom {
                    hop_count,
                    stability: self.stability,
                    sequencing: self.sequencing,
                },
                None => RoutePlan::NodeDefault,
            }),
    {
        match self.hops {
            Some(hop_count) => RoutePlan::Custom {
                hop_count,
                stability: self.stability,
                sequencing: self.sequencing,
            },
            None => RoutePlan::NodeDefault,
        }
    }

    /// How messages leave this node.
    pub fn safety_plan(&self) -> (r: SafetyPlan)
        ensures
            r == (if self.unsafe_routing {
                SafetyPlan::Unsafe { sequencing: self.sequencing }
            } else {
                SafetyPlan::Safe {
                    hop_count: safety_hops(*self),
                    stability: self.stability,
                    sequencing: self.sequencing,
                }
            }),
    {
        if self.unsafe_routing {
            SafetyPlan::Unsafe { sequencing: self.sequencing }
        } else {
            SafetyPlan::Safe {
                hop_count: self.hops_or_one(),
                stability: self.stability,
                sequencing: self.sequencing,
            }
        }
    }
}

/// Everything the prober needs that the responder does not.
pub struct ProbeConfig {
    pub rate: u64,
    pub size: usize,
    pub duration_secs: u64,
    pub csv: Option<PathBuf>,
}

impl ProbeConfig {
    /// How many seconds the run takes, if it ends by itself.
    pub fn runs_for(&self) -> (r: Option<u64>)
        ensures
            r == (if self.duration_secs > 0 {
                Some(self.duration_secs)
            } else {
                None
            }),
    {
        if self.duration_secs > 0 {
            Some(self.duration_secs)
        } else {
            None
        }
    }
}

/// Clamp `--size` into what a probe needs and what Veilid will carry.
pub fn clamp_size(requested: usize) -> (r: usize)
    ensures
        r == (if requested < PROBE_LEN {
            PROBE_LEN
        } else if requested > MAX_APP_MESSAGE {
            MAX_APP_MESSAGE
        } else {
            requested
        }),
        21 <= requested <= 32768 ==> r == requested,
        requested < 21 ==> r == 21,
        requested > 32768 ==> r == 32768,
{
    if requested < PROBE_LEN {
        PROBE_LEN
    } else if requested > MAX_APP_MESSAGE {
        MAX_APP_MESSAGE
    } else {
        requested
    }
}

/// The routing settings and the load, as the prober's report shows them.
pub open spec fn probe_params_text(p: RouteParams, rate: u64, size: usize) -> Seq<char> {
    let s = params_text(p);
    let s = s
        + "\n  rate / packet size         "@
        + text::decimal(rate as nat)
        + "/s / "@
        + text::decimal(size as nat)
        + " bytes"@;
    s
}

/// The routing settings and the load, as the prober's report shows them.
pub fn describe_probe(params: &RouteParams, rate: u64, size: usize) -> (r: String)
    ensures
        r@ == probe_params_text(*params, rate, size),
{
    let mut out = params.describe();
    out.append("\n  rate / packet size         ");
    text::put_decimal(&mut out, rate);
    out.append("/s / ");
    text::put_decimal(&mut out, size as u64);
    out.append(" bytes");
    out
}

// ---------------------------------------------------------------------------
// waiting for the network
// ---------------------------------------------------------------------------

/// How a call into the node came out.
#[derive(Clone, Copy, PartialEq, Eq, Structural)]
pub enum Outcome {
    Ready,
    /// The node is still finding its feet on the network.
    NotYet,
    Failed,
}

/// Someone who waits for the node to be ready.
pub struct Waiter {
    pub waiting: bool,
}

/// What is shown while waiting.
pub open spec fn waiting_text(waiting: bool, what: Seq<char>, outcome: Outcome) -> Seq<char> {
    match outcome {
        Outcome::Ready => if waiting {
            " ready.\n"@
        } else {
            Seq::empty()
        },
        Outcome::NotYet => if waiting {
            "."@
        } else {
            Seq::<char>::empty() + "Waiting for network ("@ + what + ")..."@
        },
        Outcome::Failed => if waiting {
            "\n"@
        } else {
            Seq::empty()
        },
    }
}

impl Waiter {
    pub fn new() -> (r: Waiter)
        ensures
            !r.waiting,
    {
        Waiter { waiting: false }
    }

    /// Take in how a call came out. Returns what to show, and whether to call
    /// again: only a node that is not ready yet is worth waiting for.
    pub fn hear(&mut self, what: &str, outcome: Outcome) -> (r: (String, bool))
        ensures
            r.0@ == waiting_text(old(self).waiting, what@, outcome),
            r.1 == (outcome == Outcome::NotYet),
            final(self).waiting == (old(self).waiting || outcome == Outcome::NotYet),
    {
        let mut out = String::new();
        match outcome {
            Outcome::Ready => {
                if self.waiting {
                    out = " ready.\n".to_owned();
                }
                (out, false)
            },
            Outcome::NotYet => {
                if self.waiting {
                    out = ".".to_owned();
                } else {
                    out.append("Waiting for network (");
                    out.append(what);
                    out.append(")...");
                    self.waiting = true;
                }
                (out, true)
            },
            Outcome::Failed => {
                if self.waiting {
                    out = "\n".to_owned();
                }
                (out, false)
            },
        }
    }
}

// ---------------------------------------------------------------------------
// timing
// ---------------------------------------------------------------------------

/// A timestamp as a signed reading of the clock.
pub open spec fn as_clock(t: u64) -> int {
    if t <= i64::MAX {
        t as int
    } else {
        t - 0x1_0000_0000_0000_0000
    }
}

/// How much later `b` reads than `a`, whichever clocks they were read from.
pub open spec fn transit(a: u64, b: u64) -> int {
    as_clock(b) - as_clock(a)
}

/// Whether a difference of two clock readings can be held.
pub open spec fn holdable(d: int) -> bool {
    i64::MIN <= d <= i64::MAX
}

/// What is left of `a` when `b` is taken away: nothing, if it is less.
pub open spec fn less(a: int, b: int) -> int {
    if a < b {
        0
    } else {
        a - b
    }
}

/// `d`, or zero if it is negative.
pub open spec fn at_least_zero(d: int) -> int {
    if d < 0 {
        0
    } else {
        d
    }
}

/// The round trip: the time between departure and return, less the time the far
/// end held on to the packet. Both differences stay on one clock.
pub open spec fn round_trip(t0: u64, t1: u64, t2: u64, t3: u64) -> int {
    less(less(t3 as int, t0 as int), less(t2 as int, t1 as int))
}

/// A timestamp as a signed reading of the clock.
fn clock_reading(t: u64) -> (r: i128)
    ensures
        r == as_clock(t),
{
    if t <= i64::MAX as u64 {
        t as i128
    } else {
        t as i128 - 0x1_0000_0000_0000_0000
    }
}

/// How much later `b` reads than `a`, if that can be held.
pub fn transit_us(a: u64, b: u64) -> (r: Option<i64>)
    ensures
        match r {
            None => !holdable(transit(a, b)),
            Some(d) => d == transit(a, b),
        },
{
    let d: i128 = clock_reading(b) - clock_reading(a);
    if d < i64::MIN as i128 || d > i64::MAX as i128 {
        None
    } else {
        Some(d as i64)
    }
}

/// The round trip.
pub fn round_trip_us(t0: u64, t1: u64, t2: u64, t3: u64) -> (r: u64)
    ensures
        r == round_trip(t0, t1, t2, t3),
{
    let elapsed: u64 = if t3 < t0 { 0 } else { t3 - t0 };
    let dwell: u64 = if t2 < t1 { 0 } else { t2 - t1 };
    if elapsed < dwell {
        0
    } else {
        elapsed - dwell
    }
}

/// `d`, or zero if it is negative.
fn no_less_than_zero(d: i64) -> (r: u64)
    ensures
        r == at_least_zero(d as int),
{
    if d < 0 {
        0
    } else {
        d as u64
    }
}

// ---------------------------------------------------------------------------
// responder
// ---------------------------------------------------------------------------

/// What the responder is asked to do.
pub enum Request {
    /// Echo back over this route from now on.
    Hello { return_route: Vec<u8> },
    /// Echo this probe. `step` is how far its transit is from the one before,
    /// if the probe is new and not the first.
    Probe { seq: u64, t0: u64, step: Option<u64> },
    /// Nothing.
    Other,
}

/// Whether a probe can be taken in: its transit can be held, and so can its
/// distance to the one before, if that is measured.
pub open spec fn probe_in_range(run: Run, message: Option<Said>, at_us: u64) -> bool {
    match message {
        Some(Said::Probe { seq, t0 }) => {
            &&& run.arrivals.wf()
            &&& run.arrivals.tally().received < u64::MAX
            &&& holdable(transit(t0, at_us))
            &&& !run.arrivals.tally().seen.contains(seq) ==> run.forward_jitter.takes(
                transit(t0, at_us) as i64,
            )
        },
        _ => true,
    }
}

/// How far a transit is from the one before, if there was one.
pub open spec fn step_from(last: Option<i64>, transit: int) -> Option<u64> {
    match last {
        None => None,
        Some(prev) => Some(stats::apart(transit, prev as int) as u64),
    }
}

/// Take in one message at the responder.
pub fn take_probe(run: &mut Run, message: &[u8], at_us: u64) -> (r: Request)
    requires
        probe_in_range(*old(run), proto::heard(message@), at_us),
    ensures
        *final(run) == (Run {
            arrivals: final(run).arrivals,
            forward: final(run).forward,
            forward_jitter: final(run).forward_jitter,
            ..*old(run)
        }),
        match proto::heard(message@) {
            Some(Said::Hello { return_route }) => {
                &&& r matches Request::Hello { return_route: blob } && blob@ == return_route
                &&& *final(run) == *old(run)
            },
            Some(Said::Probe { seq, t0 }) => {
                let fresh = !old(run).arrivals.tally().seen.contains(seq);
                let d = transit(t0, at_us);
                &&& final(run).arrivals.wf()
                &&& final(run).arrivals.tally() == stats::arrived(old(run).arrivals.tally(), seq)
                &&& final(run).forward@ == if fresh {
                    old(run).forward@.push(at_least_zero(d) as u64)
                } else {
                    old(run).forward@
                }
                &&& final(run).forward_jitter.last() == if fresh {
                    Some(d as i64)
                } else {
                    old(run).forward_jitter.last()
                }
                &&& r == (Request::Probe {
                    seq,
                    t0,
                    step: if fresh {
                        step_from(old(run).forward_jitter.last(), d)
                    } else {
                        None
                    },
                })
            },
            _ => r is Other && *final(run) == *old(run),
        },
        proto::heard(message@) matches Some(said) ==> (said matches Said::Probe { seq, t0 } ==> !old(
            run,
        ).arrivals.tally().seen.contains(seq) && t0 <= at_us <= i64::MAX ==> final(run).forward@
            == old(run).forward@.push((at_us - t0) as u64)),
        proto::heard(message@) matches Some(said) ==> (said matches Said::Probe { seq, .. }
            ==> final(run).forward@.len() == old(run).forward@.len() + if old(
            run,
        ).arrivals.tally().seen.contains(seq) {
            0int
        } else {
            1
        }),
{
    match Packet::decode(message) {
        Some(Packet::Hello { return_route }) => Request::Hello { return_route },
        Some(Packet::Probe { seq, t0 }) => {
            let fresh = run.arrivals.record(seq);
            let mut step: Option<u64> = None;
            if let Some(d) = transit_us(t0, at_us) {
                if fresh {
                    step = run.forward_jitter.update(d);
                    run.forward.push(no_less_than_zero(d));
                }
            }
            Request::Probe { seq, t0, step }
        },
        _ => Request::Other,
    }
}

/// Whether `take_probe` can take this message.
pub fn can_take_probe(run: &Run, message: &[u8], at_us: u64) -> (r: bool)
    requires
        run.arrivals.wf(),
    ensures
        r == probe_in_range(*run, proto::heard(message@), at_us),
{
    match Packet::decode(message) {
        Some(Packet::Probe { seq, t0 }) => match transit_us(t0, at_us) {
            None => false,
            Some(d) => run.arrivals.received < u64::MAX && (run.arrivals.seen.contains(&seq)
                || run.forward_jitter.can_take(d)),
        },
        _ => true,
    }
}

/// An echo, at the size of the probe it answers, so that the return leg carries
/// the same load as the forward one.
pub fn echo_packet(seq: u64, t0: u64, t1: u64, t2: u64, size: usize) -> (r: Vec<u8>)
    ensures
        r@ == proto::on_wire(Said::Echo { seq, t0, t1, t2 }, size as int),
{
    Packet::Echo { seq, t0, t1, t2 }.encode(size)
}

/// Count one echo that the responder has tried to send.
pub fn count_echo(run: &mut Run, ok: bool)
    requires
        old(run).sent < u64::MAX,
        !ok ==> old(run).send_errors < u64::MAX,
    ensures
        *final(run) == (Run {
            sent: (old(run).sent + 1) as u64,
            send_errors: (old(run).send_errors + (if ok { 0int } else { 1 })) as u64,
            ..*old(run)
        }),
{
    run.sent = run.sent + 1;
    if !ok {
        run.send_errors = run.send_errors + 1;
    }
}

/// Count one send that there was no room for.
pub fn count_dropped(run: &mut Run)
    requires
        old(run).send_dropped < u64::MAX,
    ensures
        *final(run) == (Run { send_dropped: (old(run).send_dropped + 1) as u64, ..*old(run) }),
{
    run.send_dropped = run.send_dropped + 1;
}

/// The responder's live line.
pub open spec fn listen_text(
    run: Run,
    elapsed: Seq<char>,
    loss_pct: Seq<char>,
    jitter: Seq<char>,
) -> Seq<char> {
    let s = Seq::<char>::empty()
        + "["@
        + text::flush_right(elapsed, 6)
        + "s] recv "@
        + text::flush_right(text::decimal(run.arrivals.tally().seen.len()), 6)
        + "  lost~"@
        + text::decimal((stats::span_of(run.arrivals.tally()) - run.arrivals.tally().seen.len()) as nat)
        + " ("@
        + loss_pct
        + "%)  echoed "@
        + text::flush_right(text::decimal(run.sent as nat), 6)
        + "  fwd jitter "@
        + text::flush_right(jitter, 6)
        + "ms"@;
    s
}

/// The responder's live line. The figures with a decimal point are handed in as
/// they are to be printed.
pub fn listen_line(run: &Run, elapsed: &str, loss_pct: &str, jitter: &str) -> (r: String)
    requires
        run.arrivals.wf(),
        stats::span_of(run.arrivals.tally()) <= u64::MAX,
    ensures
        r@ == listen_text(*run, elapsed@, loss_pct@, jitter@),
{
    let recv = text::decimal_text(run.arrivals.unique());
    let (lost, _) = run.arrivals.inferred_loss();
    let echoed = text::decimal_text(run.sent);
    let mut out = String::new();
    out.append("[");
    text::put_right(&mut out, elapsed, 6);
    out.append("s] recv ");
    text::put_right(&mut out, recv.as_str(), 6);
    out.append("  lost~");
    text::put_decimal(&mut out, lost);
    out.append(" (");
    out.append(loss_pct);
    out.append("%)  echoed ");
    text::put_right(&mut out, echoed.as_str(), 6);
    out.append("  fwd jitter ");
    text::put_right(&mut out, jitter, 6);
    out.append("ms");
    out
}

// ---------------------------------------------------------------------------
// prober
// ---------------------------------------------------------------------------

/// The message that tells the far end where to echo.
pub fn hello_packet(return_route: Vec<u8>) -> (r: Vec<u8>)
    ensures
        r@ == proto::on_wire(Said::Hello { return_route: return_route@ }, 0),
{
    Packet::Hello { return_route }.encode(0)
}

/// A probe, padded to the size under test.
pub fn probe_packet(seq: u64, t0: u64, size: usize) -> (r: Vec<u8>)
    ensures
        r@ == proto::on_wire(Said::Probe { seq, t0 }, size as int),
{
    Packet::Probe { seq, t0 }.encode(size)
}

/// Count one probe that the prober has tried to send.
pub fn count_probe(run: &mut Run, ok: bool)
    requires
        ok ==> old(run).sent < u64::MAX,
        !ok ==> old(run).send_errors < u64::MAX,
    ensures
        *final(run) == (if ok {
            Run { sent: (old(run).sent + 1) as u64, ..*old(run) }
        } else {
            Run { send_errors: (old(run).send_errors + 1) as u64, ..*old(run) }
        }),
{
    if ok {
        run.sent = run.sent + 1;
    } else {
        run.send_errors = run.send_errors + 1;
    }
}

/// The first line of the per-packet samples.
pub const CSV_HEADER: &'static str = "seq,t0_us,t1_us,t2_us,t3_us,rtt_us,fwd_us,rev_us";

/// One line of the per-packet samples.
pub open spec fn csv_text(seq: u64, t0: u64, t1: u64, t2: u64, t3: u64) -> Seq<char> {
    let rtt = round_trip(t0, t1, t2, t3);
    let fwd = transit(t0, t1);
    let rev = transit(t2, t3);
    let s = Seq::<char>::empty()
        + text::decimal(seq as nat)
        + ","@
        + text::decimal(t0 as nat)
        + ","@
        + text::decimal(t1 as nat)
        + ","@
        + text::decimal(t2 as nat)
        + ","@
        + text::decimal(t3 as nat)
        + ","@
        + text::decimal(rtt as nat)
        + ","@
        + text::signed_decimal(fwd as int)
        + ","@
        + text::signed_decimal(rev as int);
    s
}

/// What one echo adds to the measurement.
pub struct Sample {
    /// Its line of the per-packet samples.
    pub row: String,
    /// How far its forward transit is from the one before, if that is measured.
    pub forward_step: Option<u64>,
    /// How far its reverse transit is from the one before, if that is measured.
    pub reverse_step: Option<u64>,
}

/// Whether an echo can be taken in. While the run drains, no jitter is measured.
pub open spec fn echo_in_range(run: Run, message: Option<Said>, t3: u64, draining: bool) -> bool {
    match message {
        Some(Said::Echo { seq, t0, t1, t2 }) => {
            &&& run.arrivals.wf()
            &&& run.arrivals.tally().received < u64::MAX
            &&& !run.arrivals.tally().seen.contains(seq) ==> {
                &&& holdable(transit(t0, t1))
                &&& holdable(transit(t2, t3))
                &&& !draining ==> run.forward_jitter.takes(transit(t0, t1) as i64)
                &&& !draining ==> run.reverse_jitter.takes(transit(t2, t3) as i64)
            }
        },
        _ => true,
    }
}

/// Take in one message at the prober. The result is what a new echo adds; any
/// other message adds nothing.
pub fn take_echo(run: &mut Run, message: &[u8], t3: u64, draining: bool) -> (r: Option<Sample>)
    requires
        echo_in_range(*old(run), proto::heard(message@), t3, draining),
    ensures
        *final(run) == (Run {
            arrivals: final(run).arrivals,
            rtt: final(run).rtt,
            forward: final(run).forward,
            reverse: final(run).reverse,
            forward_jitter: final(run).forward_jitter,
            reverse_jitter: final(run).reverse_jitter,
            ..*old(run)
        }),
        match proto::heard(message@) {
            Some(Said::Echo { seq, t0, t1, t2 }) => {
                &&& final(run).arrivals.wf()
                &&& final(run).arrivals.tally() == stats::arrived(old(run).arrivals.tally(), seq)
                &&& if old(run).arrivals.tally().seen.contains(seq) {
                    &&& r is None
                    &&& *final(run) == (Run { arrivals: final(run).arrivals, ..*old(run) })
                } else {
                    let fwd = transit(t0, t1);
                    let rev = transit(t2, t3);
                    &&& final(run).rtt@ == old(run).rtt@.push(round_trip(t0, t1, t2, t3) as u64)
                    &&& final(run).forward@ == old(run).forward@.push(at_least_zero(fwd) as u64)
                    &&& final(run).reverse@ == old(run).reverse@.push(at_least_zero(rev) as u64)
                    &&& r is Some
                    &&& r->Some_0.row@ == csv_text(seq, t0, t1, t2, t3)
                    &&& if draining {
                        &&& final(run).forward_jitter == old(run).forward_jitter
                        &&& final(run).reverse_jitter == old(run).reverse_jitter
                        &&& r->Some_0.forward_step is None
                        &&& r->Some_0.reverse_step is None
                    } else {
                        &&& final(run).forward_jitter.last() == Some(fwd as i64)
                        &&& final(run).reverse_jitter.last() == Some(rev as i64)
                        &&& r->Some_0.forward_step == step_from(
                            old(run).forward_jitter.last(),
                            fwd,
                        )
                        &&& r->Some_0.reverse_step == step_from(
                            old(run).reverse_jitter.last(),
                            rev,
                        )
                    }
                }
            },
            _ => r is None && *final(run) == *old(run),
        },
        proto::heard(message@) matches Some(said) ==> (said matches Said::Echo { seq, t0, t1, t2 }
            ==> !old(run).arrivals.tally().seen.contains(seq) && t0 <= t1 <= t2 <= t3 <= i64::MAX
            ==> {
            &&& final(run).rtt@ == old(run).rtt@.push(((t1 - t0) + (t3 - t2)) as u64)
            &&& final(run).forward@ == old(run).forward@.push((t1 - t0) as u64)
            &&& final(run).reverse@ == old(run).reverse@.push((t3 - t2) as u64)
        }),
        proto::heard(message@) matches Some(said) ==> (said matches Said::Echo { seq, .. } ==> {
            let more = if old(run).arrivals.tally().seen.contains(seq) { 0int } else { 1 };
            &&& final(run).rtt@.len() == old(run).rtt@.len() + more
            &&& final(run).forward@.len() == old(run).forward@.len() + more
            &&& final(run).reverse@.len() == old(run).reverse@.len() + more
            &&& r is Some <==> more == 1
        }),
{
    let (seq, t0, t1, t2): (u64, u64, u64, u64) = match Packet::decode(message) {
        Some(Packet::Echo { seq, t0, t1, t2 }) => (seq, t0, t1, t2),
        _ => {
            return None;
        },
    };
    if !run.arrivals.record(seq) {
        return None;
    }
    match (transit_us(t0, t1), transit_us(t2, t3)) {
        (Some(fwd), Some(rev)) => {
            let rtt: u64 = round_trip_us(t0, t1, t2, t3);
            run.rtt.push(rtt);
            run.forward.push(no_less_than_zero(fwd));
            run.reverse.push(no_less_than_zero(rev));
            let mut forward_step: Option<u64> = None;
            let mut reverse_step: Option<u64> = None;
            if !draining {
                forward_step = run.forward_jitter.update(fwd);
                reverse_step = run.reverse_jitter.update(rev);
            }
            let mut out = String::new();
            text::put_decimal(&mut out, seq);
            out.append(",");
            text::put_decimal(&mut out, t0);
            out.append(",");
            text::put_decimal(&mut out, t1);
            out.append(",");
            text::put_decimal(&mut out, t2);
            out.append(",");
            text::put_decimal(&mut out, t3);
            out.append(",");
            text::put_decimal(&mut out, rtt);
            out.append(",");
            text::put_signed(&mut out, fwd);
            out.append(",");
            text::put_signed(&mut out, rev);
            Some(Sample { row: out, forward_step, reverse_step })
        },
        _ => None,
    }
}

/// Whether `take_echo` can take this message.
pub fn can_take_echo(run: &Run, message: &[u8], t3: u64, draining: bool) -> (r: bool)
    requires
        run.arrivals.wf(),
    ensures
        r == echo_in_range(*run, proto::heard(message@), t3, draining),
{
    match Packet::decode(message) {
        Some(Packet::Echo { seq, t0, t1, t2 }) => {
            if run.arrivals.received == u64::MAX {
                false
            } else if run.arrivals.seen.contains(&seq) {
                true
            } else {
                match (transit_us(t0, t1), transit_us(t2, t3)) {
                    (Some(fwd), Some(rev)) => draining || (run.forward_jitter.can_take(fwd)
                        && run.reverse_jitter.can_take(rev)),
                    _ => false,
                }
            }
        },
        _ => true,
    }
}

// ---------------------------------------------------------------------------
// route churn
// ---------------------------------------------------------------------------

/// What happened to a route, and when.
pub open spec fn event(at_secs: Seq<char>, what: Seq<char>) -> (Seq<char>, Seq<char>) {
    (at_secs, what)
}

/// What a list of events says.
pub open spec fn events(v: Seq<RouteEvent>) -> Seq<(Seq<char>, Seq<char>)> {
    v.map_values(|e: RouteEvent| event(e.at_secs@, e.what@))
}

/// What a change in the routes adds to the events of a run.
pub open spec fn churn(
    at_secs: Seq<char>,
    mine_died: bool,
    mine: Seq<char>,
    remote_died: bool,
    remote: Seq<char>,
) -> Seq<(Seq<char>, Seq<char>)> {
    let s = Seq::<(Seq<char>, Seq<char>)>::empty();
    let s = if mine_died {
        s.push(event(at_secs, Seq::<char>::empty() + "our route "@ + mine + " died"@))
    } else {
        s
    };
    if remote_died {
        s.push(event(at_secs, Seq::<char>::empty() + "remote route "@ + remote + " died"@))
    } else {
        s
    }
}

/// Whether the remote route is known and among the dead.
pub open spec fn lost_remote(dead_remote: Seq<Seq<char>>, remote: Option<Seq<char>>) -> bool {
    remote is Some && dead_remote.contains(remote->Some_0)
}

/// What an optional text says.
pub open spec fn text_in(s: Option<String>) -> Option<Seq<char>> {
    match s {
        Some(t) => Some(t@),
        None => None,
    }
}

/// Record route churn, and remember when the first death happened: the number
/// that decides whether a call could have survived this long.
pub fn note_route_change(
    run: &mut Run,
    at_secs: &str,
    dead: &Vec<String>,
    dead_remote: &Vec<String>,
    mine: &str,
    remote: &Option<String>,
)
    ensures
        ({
            let mine_died = text::texts(dead@).contains(mine@);
            let remote_died = lost_remote(text::texts(dead_remote@), text_in(*remote));
            &&& *final(run) == (Run {
                route_events: final(run).route_events,
                first_route_death: final(run).first_route_death,
                ..*old(run)
            })
            &&& events(final(run).route_events@) == events(old(run).route_events@) + churn(
                at_secs@,
                mine_died,
                mine@,
                remote_died,
                text_in(*remote)->Some_0,
            )
            &&& text_in(final(run).first_route_death) == if (mine_died || remote_died) && old(
                run,
            ).first_route_death is None {
                Some(at_secs@)
            } else {
                text_in(old(run).first_route_death)
            }
        }),
        old(run).first_route_death is Some ==> text_in(final(run).first_route_death) == text_in(
            old(run).first_route_death,
        ),
        old(run).first_route_death is None ==> (final(run).first_route_death is Some
            <==> final(run).route_events@.len() > old(run).route_events@.len()),
{
    let ghost start = events(run.route_events@);
    let mine_died = text::holds(dead, mine);
    if mine_died {
        let mut what = String::new();
        what.append("our route ");
        what.append(mine);
        what.append(" died");
        run.note_route_event(at_secs.to_owned(), what);
        assert(events(run.route_events@) == start.push(event(at_secs@, what@)));
    }
    let ghost middle = events(run.route_events@);
    let mut remote_died = false;
    if let Some(far) = remote {
        if text::holds(dead_remote, far.as_str()) {
            let mut what = String::new();
            what.append("remote route ");
            what.append(far.as_str());
            what.append(" died");
            run.note_route_event(at_secs.to_owned(), what);
            assert(events(run.route_events@) == middle.push(event(at_secs@, what@)));
            remote_died = true;
        }
    }
    if (mine_died || remote_died) && run.first_route_death.is_none() {
        run.first_route_death = Some(at_secs.to_owned());
    }
    proof {
        let added = churn(at_secs@, mine_died, mine@, remote_died, text_in(*remote)->Some_0);
        assert(events(run.route_events@) == start + added);
    }
}

/// What the prober does about a change in the routes.
#[derive(Clone, Copy, PartialEq, Eq, Structural)]
pub enum AfterChange {
    CarryOn,
    /// There is no way to get a fresh blob in-band, so the run ends.
    End,
    /// Our own return route can be replaced: build a new one and say hello
    /// again. This is exactly the recovery a real call would need.
    Rebuild,
}

/// What the prober does about a change in the routes.
pub fn after_change(
    dead: &Vec<String>,
    dead_remote: &Vec<String>,
    mine: &str,
    remote: &str,
) -> (r: AfterChange)
    ensures
        r == (if text::texts(dead_remote@).contains(remote@) {
            AfterChange::End
        } else if text::texts(dead@).contains(mine@) {
            AfterChange::Rebuild
        } else {
            AfterChange::CarryOn
        }),
{
    if text::holds(dead_remote, remote) {
        AfterChange::End
    } else if text::holds(dead, mine) {
        AfterChange::Rebuild
    } else {
        AfterChange::CarryOn
    }
}

// ---------------------------------------------------------------------------
// the two ends as a whole
// ---------------------------------------------------------------------------

/// The prober: what it has measured, and the routes it measures over.
pub struct Prober {
    pub run: Run,
    /// The number of the next probe.
    pub seq: u64,
    /// Our own route, for the far end to echo back on.
    pub mine: String,
    pub remote: String,
}

impl Prober {
    pub fn new(mine: String, remote: String) -> (r: Prober)
        ensures
            stats::nothing_yet(r.run),
            r.seq == 0,
            r.mine == mine,
            r.remote == remote,
    {
        Prober { run: Run::default(), seq: 0, mine, remote }
    }

    /// It is time for the next probe. Returns its number, or nothing if there is
    /// no room for it in the node: the number is spent either way, and the
    /// shortfall is counted.
    pub fn on_tick(&mut self, room: bool) -> (r: Option<u64>)
        requires
            old(self).seq < u64::MAX,
            !room ==> old(self).run.send_dropped < u64::MAX,
        ensures
            final(self).seq == old(self).seq + 1,
            final(self).mine == old(self).mine,
            final(self).remote == old(self).remote,
            r == (if room {
                Some(old(self).seq)
            } else {
                None
            }),
            final(self).run == (if room {
                old(self).run
            } else {
                Run {
                    send_dropped: (old(self).run.send_dropped + 1) as u64,
                    ..old(self).run
                }
            }),
    {
        let number: u64 = self.seq;
        self.seq = self.seq + 1;
        if room {
            Some(number)
        } else {
            count_dropped(&mut self.run);
            None
        }
    }

    /// Hear that routes have died: it is recorded, and what to do about it is
    /// decided.
    pub fn on_route_change(
        &mut self,
        at_secs: &str,
        dead: &Vec<String>,
        dead_remote: &Vec<String>,
    ) -> (r: AfterChange)
        ensures
            ({
                let mine_died = text::texts(dead@).contains(old(self).mine@);
                let remote_died = text::texts(dead_remote@).contains(old(self).remote@);
                &&& r == (if remote_died {
                    AfterChange::End
                } else if mine_died {
                    AfterChange::Rebuild
                } else {
                    AfterChange::CarryOn
                })
                &&& *final(self) == (Prober { run: final(self).run, ..*old(self) })
                &&& final(self).run == (Run {
                    route_events: final(self).run.route_events,
                    first_route_death: final(self).run.first_route_death,
                    ..old(self).run
                })
                &&& events(final(self).run.route_events@) == events(old(self).run.route_events@)
                    + churn(at_secs@, mine_died, old(self).mine@, remote_died, old(self).remote@)
                &&& text_in(final(self).run.first_route_death) == if (mine_died || remote_died)
                    && old(self).run.first_route_death is None {
                    Some(at_secs@)
                } else {
                    text_in(old(self).run.first_route_death)
                }
            }),
    {
        let remote = Some(self.remote.as_str().to_owned());
        assert(text_in(remote) == Some(self.remote@));
        note_route_change(
            &mut self.run,
            at_secs,
            dead,
            dead_remote,
            self.mine.as_str(),
            &remote,
        );
        after_change(dead, dead_remote, self.mine.as_str(), self.remote.as_str())
    }

    /// Our return route has been replaced. It is recorded if the far end could be
    /// told.
    pub fn rebuilt(&mut self, mine: String, at_secs: &str, told: bool)
        ensures
            *final(self) == (Prober { run: final(self).run, mine, ..*old(self) }),
            final(self).run == (Run {
                route_events: final(self).run.route_events,
                ..old(self).run
            }),
            events(final(self).run.route_events@) == (if told {
                events(old(self).run.route_events@).push(
                    event(at_secs@, Seq::<char>::empty() + "return route rebuilt as "@ + mine@),
                )
            } else {
                events(old(self).run.route_events@)
            }),
    {
        let ghost before = events(self.run.route_events@);
        if told {
            let mut what = String::new();
            what.append("return route rebuilt as ");
            what.append(mine.as_str());
            self.run.note_route_event(at_secs.to_owned(), what);
            assert(events(self.run.route_events@) == before.push(event(at_secs@, what@)));
        }
        self.mine = mine;
    }
}

/// The responder: what it has measured, and where it echoes to.
pub struct Responder {
    pub run: Run,
    pub mine: String,
    /// Where to echo to. Set by the prober's hello, replaced on every rotation.
    pub target: Option<String>,
}

/// What the responder does about a message.
pub enum Action {
    /// Import this route and echo over it from now on.
    Import { blob: Vec<u8> },
    /// Send an echo to the target. `step` is how far the probe's transit is from
    /// the one before, if that is measured.
    Echo { seq: u64, t0: u64, step: Option<u64> },
    /// Nothing can be sent, since nobody has said hello yet.
    Hold { step: Option<u64> },
    /// The message is none of ours.
    Ignore,
}

impl Responder {
    pub fn new(mine: String) -> (r: Responder)
        ensures
            stats::nothing_yet(r.run),
            r.mine == mine,
            r.target is None,
    {
        Responder { run: Run::default(), mine, target: None }
    }

    /// Take in one message.
    pub fn on_message(&mut self, message: &[u8], at_us: u64) -> (r: Action)
        requires
            probe_in_range(old(self).run, proto::heard(message@), at_us),
        ensures
            final(self).mine == old(self).mine,
            final(self).target == old(self).target,
            match proto::heard(message@) {
                Some(Said::Hello { return_route }) => {
                    &&& final(self).run == old(self).run
                    &&& r matches Action::Import { blob } && blob@ == return_route
                },
                Some(Said::Probe { seq, t0 }) => {
                    let run = old(self).run;
                    let fresh = !run.arrivals.tally().seen.contains(seq);
                    let d = transit(t0, at_us);
                    let step = if fresh {
                        step_from(run.forward_jitter.last(), d)
                    } else {
                        None
                    };
                    &&& final(self).run.arrivals.wf()
                    &&& final(self).run.arrivals.tally() == stats::arrived(
                        run.arrivals.tally(),
                        seq,
                    )
                    &&& final(self).run.forward@ == if fresh {
                        run.forward@.push(at_least_zero(d) as u64)
                    } else {
                        run.forward@
                    }
                    &&& final(self).run.forward_jitter.last() == if fresh {
                        Some(d as i64)
                    } else {
                        run.forward_jitter.last()
                    }
                    &&& final(self).run == (Run {
                        arrivals: final(self).run.arrivals,
                        forward: final(self).run.forward,
                        forward_jitter: final(self).run.forward_jitter,
                        ..run
                    })
                    &&& r == (if old(self).target is Some {
                        Action::Echo { seq, t0, step }
                    } else {
                        Action::Hold { step }
                    })
                },
                _ => r is Ignore && final(self).run == old(self).run,
            },
    {
        match take_probe(&mut self.run, message, at_us) {
            Request::Hello { return_route } => Action::Import { blob: return_route },
            Request::Probe { seq, t0, step } => if self.target.is_some() {
                Action::Echo { seq, t0, step }
            } else {
                Action::Hold { step }
            },
            Request::Other => Action::Ignore,
        }
    }

    /// The route that the prober named has been imported: echo over it from now
    /// on.
    pub fn imported(&mut self, id: String)
        ensures
            *final(self) == (Responder { target: Some(id), ..*old(self) }),
    {
        self.target = Some(id);
    }

    /// Hear that routes have died: it is recorded. Returns true if our own is
    /// among them, for the blob that was handed out is then stale.
    pub fn on_route_change(
        &mut self,
        at_secs: &str,
        dead: &Vec<String>,
        dead_remote: &Vec<String>,
    ) -> (r: bool)
        ensures
            ({
                let mine_died = text::texts(dead@).contains(old(self).mine@);
                let remote_died = lost_remote(
                    text::texts(dead_remote@),
                    text_in(old(self).target),
                );
                &&& r == mine_died
                &&& *final(self) == (Responder { run: final(self).run, ..*old(self) })
                &&& final(self).run == (Run {
                    route_events: final(self).run.route_events,
                    first_route_death: final(self).run.first_route_death,
                    ..old(self).run
                })
                &&& events(final(self).run.route_events@) == events(old(self).run.route_events@)
                    + churn(
                    at_secs@,
                    mine_died,
                    old(self).mine@,
                    remote_died,
                    text_in(old(self).target)->Some_0,
                )
                &&& text_in(final(self).run.first_route_death) == if (mine_died || remote_died)
                    && old(self).run.first_route_death is None {
                    Some(at_secs@)
                } else {
                    text_in(old(self).run.first_route_death)
                }
            }),
    {
        note_route_change(
            &mut self.run,
            at_secs,
            dead,
            dead_remote,
            self.mine.as_str(),
            &self.target,
        );
        text::holds(dead, self.mine.as_str())
    }
}

// ---------------------------------------------------------------------------
// laws
// ---------------------------------------------------------------------------

/// The round trip does not depend on the two machines agreeing about what time
/// it is: shifting the far end's clock by any amount leaves it as it is.
pub proof fn law_the_round_trip_ignores_the_clock_offset(
    t0: u64,
    t1: u64,
    t2: u64,
    t3: u64,
    skew: int,
)
    requires
        0 <= t1 + skew <= u64::MAX,
        0 <= t2 + skew <= u64::MAX,
    ensures
        round_trip(t0, (t1 + skew) as u64, (t2 + skew) as u64, t3) == round_trip(t0, t1, t2, t3),
{
}

/// The round trip is the time between departure and return, less the time the
/// far end held on to the packet.
pub proof fn law_the_round_trip_leaves_out_the_dwell(t0: u64, t1: u64, t2: u64, t3: u64)
    requires
        t0 <= t3,
        t1 <= t2,
        t2 - t1 <= t3 - t0,
    ensures
        round_trip(t0, t1, t2, t3) == (t3 - t0) - (t2 - t1),
{
}

/// The round trip is the time out and the time back, on clocks that agree.
pub proof fn law_the_round_trip_is_both_ways(t0: u64, t1: u64, t2: u64, t3: u64)
    requires
        t0 <= t1 <= t2 <= t3,
    ensures
        round_trip(t0, t1, t2, t3) == (t1 - t0) + (t3 - t2),
{
}

/// An echo of a probe reads back with the stamps it was given, whatever its
/// size.
pub proof fn law_an_echo_keeps_its_stamps(seq: u64, t0: u64, t1: u64, t2: u64, size: int)
    ensures
        proto::heard(proto::on_wire(Said::Probe { seq, t0 }, size)) == Some(Said::Probe { seq, t0 }),
        proto::heard(proto::on_wire(Said::Echo { seq, t0, t1, t2 }, size)) == Some(
            Said::Echo { seq, t0, t1, t2 },
        ),
{
    proto::law_decode_undoes_encode(Said::Probe { seq, t0 }, size);
    proto::law_decode_undoes_encode(Said::Echo { seq, t0, t1, t2 }, size);
}

/// A size that has been clamped is exactly the size of the probe.
pub proof fn law_a_probe_has_the_size_asked_for(seq: u64, t0: u64, size: int)
    requires
        PROBE_LEN <= size <= MAX_APP_MESSAGE,
    ensures
        proto::on_wire(Said::Probe { seq, t0 }, size).len() == size,
{
}

/// The round trip is never negative. Where the clock has gone back in between, or
/// the far end claims to have held on to the packet for longer than it was away,
/// it is nothing; and where the far end's clock has gone back, nothing is taken
/// off for the time it held on.
pub proof fn law_the_round_trip_is_never_negative(t0: u64, t1: u64, t2: u64, t3: u64)
    ensures
        0 <= round_trip(t0, t1, t2, t3) <= u64::MAX,
        t3 <= t0 ==> round_trip(t0, t1, t2, t3) == 0,
        t1 <= t2 && t3 - t0 <= t2 - t1 ==> round_trip(t0, t1, t2, t3) == 0,
        t2 <= t1 && t0 <= t3 ==> round_trip(t0, t1, t2, t3) == t3 - t0,
{
}

/// A transit is the later reading less the earlier one, and turns its sign when
/// the two change places. What the clocks disagree by is added to it and to
/// nothing else.
pub proof fn law_a_transit_is_a_difference(a: u64, b: u64, skew: int)
    requires
        a <= i64::MAX,
        b <= i64::MAX,
    ensures
        transit(a, b) == b - a,
        transit(b, a) == -transit(a, b),
        0 <= b + skew <= i64::MAX ==> transit(a, (b + skew) as u64) == transit(a, b) + skew,
{
}

/// Of a difference and its opposite, the one that is not negative is kept, and the
/// other counts as nothing.
pub proof fn law_what_is_negative_counts_as_nothing(d: int)
    ensures
        at_least_zero(d) >= 0,
        at_least_zero(-d) >= 0,
        at_least_zero(d) - at_least_zero(-d) == d,
        at_least_zero(d) == 0 || at_least_zero(-d) == 0,
{
}

/// A step is how far a transit lies from the one before, up or down. The first
/// transit makes none.
pub proof fn law_a_step_is_a_distance(prev: i64, next: i64)
    requires
        next - prev <= i64::MAX,
        prev - next <= i64::MAX,
    ensures
        step_from(None, next as int) is None,
        step_from(Some(prev), next as int) is Some,
        next >= prev ==> prev + step_from(Some(prev), next as int)->Some_0 == next,
        next <= prev ==> prev - step_from(Some(prev), next as int)->Some_0 == next,
        step_from(Some(prev), next as int) == step_from(Some(next), prev as int),
{
}

/// A row has the number of the probe, the four stamps in the order in which they
/// were taken, the round trip and the two ways, parted by commas.
pub proof fn law_a_row_has_eight_columns(seq: u64, t0: u64, t1: u64, t2: u64, t3: u64)
    ensures
        csv_text(seq, t0, t1, t2, t3) == text::decimal(seq as nat) + ","@ + text::decimal(t0 as nat)
            + ","@ + text::decimal(t1 as nat) + ","@ + text::decimal(t2 as nat) + ","@
            + text::decimal(t3 as nat) + ","@ + text::decimal(round_trip(t0, t1, t2, t3) as nat)
            + ","@ + text::signed_decimal(transit(t0, t1)) + ","@ + text::signed_decimal(
            transit(t2, t3),
        ),
{
    assert(Seq::<char>::empty() + text::decimal(seq as nat) =~= text::decimal(seq as nat));
}

/// On clocks that agree, the round trip of a row is the sum of its two ways.
pub proof fn law_a_row_has_the_stamps_and_the_times(seq: u64, t0: u64, t1: u64, t2: u64, t3: u64)
    requires
        t0 <= t1 <= t2 <= t3 <= i64::MAX,
    ensures
        csv_text(seq, t0, t1, t2, t3) == text::decimal(seq as nat) + ","@ + text::decimal(t0 as nat)
            + ","@ + text::decimal(t1 as nat) + ","@ + text::decimal(t2 as nat) + ","@
            + text::decimal(t3 as nat) + ","@ + text::decimal(((t1 - t0) + (t3 - t2)) as nat)
            + ","@ + text::decimal((t1 - t0) as nat) + ","@ + text::decimal((t3 - t2) as nat),
{
    assert(Seq::<char>::empty() + text::decimal(seq as nat) =~= text::decimal(seq as nat));
}

/// A way that seems to take less than no time is shown with a minus sign.
pub proof fn law_a_row_keeps_the_sign(seq: u64, t0: u64, t1: u64, t2: u64, t3: u64)
    requires
        t1 < t0 <= i64::MAX,
        t3 < t2 <= i64::MAX,
    ensures
        ({
            let row = csv_text(seq, t0, t1, t2, t3);
            let fwd = "-"@ + text::decimal((t0 - t1) as nat);
            let rev = "-"@ + text::decimal((t2 - t3) as nat);
            let tail = ","@ + fwd + ","@ + rev;
            row.skip(row.len() - tail.len()) == tail
        }),
{
    reveal_strlit("-");
    let row = csv_text(seq, t0, t1, t2, t3);
    let fwd = "-"@ + text::decimal((t0 - t1) as nat);
    let rev = "-"@ + text::decimal((t2 - t3) as nat);
    let tail = ","@ + fwd + ","@ + rev;
    assert("-"@ =~= seq!['-']);
    let front = Seq::<char>::empty() + text::decimal(seq as nat) + ","@ + text::decimal(t0 as nat)
        + ","@ + text::decimal(t1 as nat) + ","@ + text::decimal(t2 as nat) + ","@ + text::decimal(
        t3 as nat,
    ) + ","@ + text::decimal(round_trip(t0, t1, t2, t3) as nat);
    assert(row == front + ","@ + fwd + ","@ + rev);
    assert(row =~= front + tail);
    assert((front + tail).skip(front.len() as int) =~= tail);
}

/// Every route of the run that dies is told once, ours before the remote one, with
/// the time; where none dies, nothing is told. A remote route that is not known
/// cannot be lost.
pub proof fn law_every_death_is_told(
    at_secs: Seq<char>,
    mine_died: bool,
    mine: Seq<char>,
    remote_died: bool,
    remote: Seq<char>,
    dead: Seq<Seq<char>>,
)
    ensures
        ({
            let told = churn(at_secs, mine_died, mine, remote_died, remote);
            &&& told.len() == (if mine_died { 1int } else { 0 }) + (if remote_died { 1int } else { 0 })
            &&& mine_died ==> told.first() == (at_secs, "our route "@ + mine + " died"@)
            &&& remote_died ==> told.last() == (at_secs, "remote route "@ + remote + " died"@)
        }),
        !lost_remote(dead, None),
        lost_remote(dead, Some(remote)) <==> dead.contains(remote),
{
    assert(Seq::<char>::empty() + "our route "@ + mine + " died"@ =~= "our route "@ + mine
        + " died"@);
    assert(Seq::<char>::empty() + "remote route "@ + remote + " died"@ =~= "remote route "@
        + remote + " died"@);
}

/// The safety route has as many hops as the private one, or one if that is left to
/// the node.
pub proof fn law_both_routes_have_the_hops_asked_for(p: RouteParams, hops: usize)
    ensures
        safety_hops(RouteParams { hops: Some(hops), ..p }) == hops,
        safety_hops(RouteParams { hops: None, ..p }) == 1,
{
}

/// The wait for the network is announced once, goes on with a dot each time, and
/// is ended on its line; where there was none, nothing is shown.
pub proof fn law_a_wait_is_announced_once(what: Seq<char>)
    ensures
        waiting_text(false, what, Outcome::Ready).len() == 0,
        waiting_text(false, what, Outcome::Failed).len() == 0,
        waiting_text(false, what, Outcome::NotYet) == "Waiting for network ("@ + what + ")..."@,
        waiting_text(true, what, Outcome::NotYet) == "."@,
        waiting_text(true, what, Outcome::Ready) == " ready.\n"@,
        waiting_text(true, what, Outcome::Failed) == "\n"@,
{
    assert(Seq::<char>::empty() + "Waiting for network ("@ + what + ")..."@
        =~= "Waiting for network ("@ + what + ")..."@);
}

/// The first line of the per-packet samples names the columns in the order of the
/// rows.
pub proof fn law_the_columns_are_named_in_order()
    ensures
        CSV_HEADER@ == "seq,t0_us,t1_us,t2_us,t3_us,rtt_us,fwd_us,rev_us"@,
{
}

/// The responder's live line counts the probes that came, those missing between
/// the first and the last of them, and the echoes.
pub proof fn law_the_live_line_counts_what_came(
    run: Run,
    elapsed: Seq<char>,
    loss_pct: Seq<char>,
    jitter: Seq<char>,
    lost: nat,
)
    requires
        lost + run.arrivals.tally().seen.len() == stats::span_of(run.arrivals.tally()),
    ensures
        listen_text(run, elapsed, loss_pct, jitter) == "["@ + text::flush_right(elapsed, 6)
            + "s] recv "@ + text::flush_right(text::decimal(run.arrivals.tally().seen.len()), 6)
            + "  lost~"@ + text::decimal(lost) + " ("@ + loss_pct + "%)  echoed "@
            + text::flush_right(text::decimal(run.sent as nat), 6) + "  fwd jitter "@
            + text::flush_right(jitter, 6) + "ms"@,
{
    assert(Seq::<char>::empty() + "["@ =~= "["@);
}

} // verus!
