use veilid_vc::report::{too_lossy, verdict, LineFigures, ProberFigures, ResponderFigures, TickFigures};
use veilid_vc::stats::{Arrivals, Jitter, Latency, Run};

/// Nearest-rank percentile, in milliseconds.
fn pct_ms(l: &Latency, p: f64) -> f64 {
    let rank = (p * l.count() as f64).ceil() as usize;
    l.rank_us(rank) as f64 / 1000.0
}

fn mean_ms(l: &Latency) -> f64 {
    if l.is_empty() {
        0.0
    } else {
        (l.sum_us() as f64 / l.count() as f64) / 1000.0
    }
}

fn figures(l: &Latency) -> LineFigures {
    LineFigures {
        min: format!("{:.1}", l.min_us() as f64 / 1000.0),
        p50: format!("{:.1}", pct_ms(l, 0.50)),
        p90: format!("{:.1}", pct_ms(l, 0.90)),
        p99: format!("{:.1}", pct_ms(l, 0.99)),
        max: format!("{:.1}", l.max_us() as f64 / 1000.0),
        mean: format!("{:.1}", mean_ms(l)),
    }
}

/// The jitter as it is smoothed from one transit to the next, in milliseconds.
fn smoothed_ms(transits: &[i64]) -> f64 {
    let mut j = Jitter::default();
    let mut value = 0.0;
    for t in transits {
        if let Some(d) = j.update(*t) {
            value += (d as f64 - value) / 16.0;
        }
    }
    value / 1000.0
}

#[test]
fn percentiles_use_nearest_rank() {
    let mut l = Latency::default();
    for i in 1..=100u64 {
        l.push(i * 1000); // 1ms..100ms
    }
    assert_eq!(l.min_us() as f64 / 1000.0, 1.0);
    assert_eq!(l.max_us() as f64 / 1000.0, 100.0);
    assert_eq!(pct_ms(&l, 0.50), 50.0);
    assert_eq!(pct_ms(&l, 0.90), 90.0);
    assert_eq!(pct_ms(&l, 0.99), 99.0);
}

#[test]
fn empty_latency_does_not_panic() {
    let l = Latency::default();
    assert_eq!(pct_ms(&l, 0.5), 0.0);
    assert_eq!(mean_ms(&l), 0.0);
    assert!(l.line("x", &figures(&l)).contains("no samples"));
}

#[test]
fn jitter_ignores_a_constant_clock_offset() {
    // A fixed skew of one hour on top of a perfectly steady 100ms transit
    // must still read as zero jitter.
    let skew = 3_600_000_000i64;
    let ms = smoothed_ms(&[skew + 100_000; 50]);
    assert!(ms < 0.001, "jitter was {}", ms);
}

#[test]
fn jitter_responds_to_variation() {
    let transits: Vec<i64> =
        (0..200).map(|i| 100_000 + if i % 2 == 0 { 0 } else { 40_000 }).collect();
    let ms = smoothed_ms(&transits);
    assert!(ms > 20.0, "jitter was {}", ms);
}

#[test]
fn arrivals_track_loss_reorder_and_dupes() {
    let mut a = Arrivals::default();
    for seq in [0u64, 1, 2, 4, 3, 5, 5, 9] {
        a.record(seq);
    }
    assert_eq!(a.unique(), 7); // 0,1,2,3,4,5,9
    assert_eq!(a.duplicates, 1);
    assert_eq!(a.reordered, 1); // the 3 after the 4
    let (lost, span) = a.inferred_loss();
    assert_eq!(lost, 3); // 6,7,8 missing from the span 0..=9
    let pct = lost as f64 * 100.0 / span as f64;
    assert!((pct - 30.0).abs() < 0.01);
}

#[test]
fn inferred_loss_is_zero_with_nothing_received() {
    let a = Arrivals::default();
    let (lost, span) = a.inferred_loss();
    let pct = if span == 0 { 0.0 } else { lost as f64 * 100.0 / span as f64 };
    assert_eq!((lost, pct), (0, 0.0));
}

#[test]
fn verdict_handles_a_silent_run() {
    let out = verdict(&Latency::default(), 0, false, true, "0", "200");
    assert!(out.contains("Nothing came back"));
}

#[test]
fn verdict_follows_the_headroom() {
    let with_rtt = |us: u64| {
        let mut l = Latency::default();
        l.push(us);
        l
    };
    let blown = verdict(&with_rtt(500_000), 1, false, false, "250", "-50");
    assert!(blown.contains("is not viable on this path"));
    assert!(blown.contains("is about 250 ms"));
    assert!(blown.contains("leaves -50 ms"));
    let thin = verdict(&with_rtt(300_000), 1, false, false, "150", "50");
    assert!(thin.contains("That is too little to build on."));
    for (shaky, lossy) in [(true, false), (false, true), (true, true)] {
        let rough = verdict(&with_rtt(100_000), 1, shaky, lossy, "50", "150");
        assert!(rough.contains("the jitter and loss are not"));
    }
    let fine = verdict(&with_rtt(100_000), 1, false, false, "50", "150");
    assert!(fine.contains("This is within reach for audio."));
}

#[test]
fn samples_come_out_by_rank_whatever_order_they_went_in() {
    let mut l = Latency::default();
    for us in [30u64, 10, 20, 20] {
        l.push(us);
    }
    assert_eq!(l.rank_us(1), 10);
    assert_eq!(l.rank_us(2), 20);
    assert_eq!(l.rank_us(3), 20);
    assert_eq!(l.rank_us(4), 30);
    assert_eq!(l.rank_us(99), 30);
    assert_eq!(l.rank_us(0), 10);
    assert_eq!(l.sum_us(), 80);
    assert_eq!((l.min_us(), l.max_us()), (10, 30));
}

#[test]
fn a_line_lays_its_figures_out_in_columns() {
    let mut l = Latency::default();
    l.push(1000);
    assert_eq!(
        l.line("round trip", &figures(&l)),
        "  round trip                 min      1.0  p50      1.0  p90      1.0  p99      1.0  max       1.0  mean      1.0"
    );
}

#[test]
fn the_live_line_counts_what_was_sent_and_what_came_back() {
    let mut run = Run::default();
    run.sent = 12;
    run.rtt.push(2000);
    let f = TickFigures {
        elapsed: "3.0".into(),
        loss_pct: "91.7".into(),
        p50: "2.0".into(),
        p90: "2.0".into(),
        jitter: "0.0".into(),
    };
    assert_eq!(
        run.tick_line(&f),
        "[   3.0s] sent     12  echo      1  loss  91.7%  rtt p50     2.0ms  p90     2.0ms  jit    0.0ms"
    );
}

#[test]
fn the_reports_show_only_the_troubles_there_were() {
    let mut run = Run::default();
    run.sent = 10;
    run.rtt.push(2000);
    let f = |run: &Run| ProberFigures {
        elapsed: "5.0".into(),
        loss_pct: "90.0".into(),
        reordered_pct: "0.0".into(),
        rtt: figures(&run.rtt),
        forward: figures(&run.forward),
        reverse: figures(&run.reverse),
        forward_jitter: "0.0".into(),
        reverse_jitter: "0.0".into(),
        p90_rank: 1,
        owd_p90: "1".into(),
        headroom: "199".into(),
        shaky: false,
    };
    let quiet = run.prober_report("  params", &f(&run));
    assert!(quiet.starts_with("\n========== veilid-vc probe report ==========\n  params\n  duration                   5.0s\n\n-- delivery --\n  probes sent                10\n  echoes received            1\n  unanswered                 9  (90.0%)\n\n"));
    assert!(!quiet.contains("send errors"));
    // Nine in ten went unanswered, so the loss decides.
    assert!(quiet.contains("the jitter and loss are not"));
    run.sent = 1;
    assert!(run.prober_report("  params", &f(&run)).contains("This is within reach for audio."));
    run.sent = 10;
    assert!(quiet.contains("  (no route churn during the run)\n"));
    run.scheduled = 15;
    run.send_errors = 2;
    run.send_dropped = 3;
    run.first_route_death = Some("4.2".into());
    run.note_route_event("4.2".into(), "our route x died".into());
    let loud = run.prober_report("  params", &f(&run));
    assert!(loud.contains("  probes scheduled           15  (5 never left; the node could not hold the rate)\n"));
    assert!(loud.contains("  send errors                2\n"));
    assert!(loud.contains("  never sent (backpressure)  3  <- the node could not keep up with --rate\n"));
    assert!(loud.contains("  first route death at       4.2s\n"));
    assert!(loud.contains("       4.2s  our route x died\n"));
}

#[test]
fn the_responder_report_counts_the_gaps() {
    let mut run = Run::default();
    for seq in [1u64, 2, 5, 5] {
        run.arrivals.record(seq);
    }
    run.sent = 3;
    let f = ResponderFigures {
        elapsed: "5.0".into(),
        loss_pct: "40.0".into(),
        reordered_pct: "0.0".into(),
        forward: figures(&run.forward),
        forward_jitter: "0.0".into(),
    };
    assert!(run.arrivals.span_fits());
    let out = run.responder_report("  params", &f);
    assert!(out.contains("  probes received            3\n  inferred lost              2  (40.0%)\n  duplicates                 1\n"));
    assert!(out.contains("  echoes sent                3\n"));
}

#[test]
fn a_span_of_every_number_does_not_fit() {
    let mut a = Arrivals::default();
    a.record(0);
    assert!(a.span_fits());
    a.record(u64::MAX);
    assert!(!a.span_fits());
}

#[test]
fn a_transit_too_far_from_the_last_is_not_taken() {
    let mut j = Jitter::default();
    assert!(j.can_take(i64::MIN));
    assert_eq!(j.update(i64::MIN), None);
    assert!(!j.can_take(1));
    assert!(j.can_take(-2));
    assert_eq!(j.update(-2), Some(i64::MAX as u64 - 1));
}

#[test]
fn a_constant_offset_shifts_every_percentile_alike() {
    let (mut plain, mut skewed) = (Latency::default(), Latency::default());
    for us in [70u64, 10, 40, 30, 90] {
        plain.push(us);
        skewed.push(us + 3_600_000_000);
    }
    for rank in 1..=5 {
        assert_eq!(skewed.rank_us(rank) - plain.rank_us(rank), 3_600_000_000);
    }
}

#[test]
fn one_probe_in_ten_may_be_lost() {
    let mut run = Run::default();
    assert!(!too_lossy(&run));
    for us in 0..9 {
        run.rtt.push(us);
    }
    run.sent = 10;
    assert!(!too_lossy(&run), "exactly one in ten");
    run.sent = 11;
    assert!(too_lossy(&run));
    run.sent = 3;
    assert!(!too_lossy(&run), "more came back than was sent");
}
