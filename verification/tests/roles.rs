use veilid_vc::blob::{blob_or_reason, blob_text, decode_blob, dialable, keep_readable};
use veilid_vc::clock::{spent_us, stands_still, timestamp, MAX_SPINS};
use veilid_vc::proto::{now_us, Packet, MAX_APP_MESSAGE, PROBE_LEN};
use veilid_vc::roles::{
    after_change, can_take_echo, can_take_probe, clamp_size, count_dropped, count_echo, count_probe,
    describe_probe, echo_packet, hello_packet, listen_line, note_route_change, probe_packet,
    round_trip_us, take_echo, take_probe, transit_us, AfterChange, Outcome, ProbeConfig, Request, RouteParams,
    RoutePlan, SafetyPlan, Sequencing, Stability, Waiter, CSV_HEADER,
};
use veilid_vc::sender::RouteSource;
use veilid_vc::startup::{
    after_failed_start, pool_size, route_source, verbosity, Startup, Verbosity,
};
use veilid_vc::stats::Run;

#[test]
fn size_is_clamped_to_the_protocol() {
    assert_eq!(clamp_size(0), PROBE_LEN);
    assert_eq!(clamp_size(1_000_000), MAX_APP_MESSAGE);
    assert_eq!(clamp_size(1200), 1200);
}

fn params(hops: Option<usize>, unsafe_routing: bool) -> RouteParams {
    RouteParams {
        hops,
        stability: Stability::LowLatency,
        sequencing: Sequencing::PreferUnordered,
        unsafe_routing,
    }
}

#[test]
fn the_settings_are_described() {
    assert_eq!(
        params(None, false).describe(),
        "  safety                     safe, 1 hop(s)\n  private route              node default\n  stability / sequencing     LowLatency / PreferUnordered"
    );
    assert_eq!(
        params(Some(3), true).describe(),
        "  safety                     unsafe (no safety route; the far end learns this node)\n  private route              3 hop(s), custom\n  stability / sequencing     LowLatency / PreferUnordered"
    );
    assert!(params(Some(2), false).describe().contains("safe, 2 hop(s)"));
    assert!(describe_probe(&params(None, false), 50, 64)
        .ends_with("PreferUnordered\n  rate / packet size         50/s / 64 bytes"));
    assert_eq!(Stability::Reliable.name(), format!("{:?}", Stability::Reliable));
    assert_eq!(Sequencing::EnsureOrdered.name(), format!("{:?}", Sequencing::EnsureOrdered));
}

#[test]
fn hops_make_a_custom_route() {
    assert!(params(None, false).route_plan() == RoutePlan::NodeDefault);
    assert!(
        params(Some(2), false).route_plan()
            == RoutePlan::Custom {
                hop_count: 2,
                stability: Stability::LowLatency,
                sequencing: Sequencing::PreferUnordered,
            }
    );
    assert!(
        params(Some(2), true).safety_plan()
            == SafetyPlan::Unsafe { sequencing: Sequencing::PreferUnordered }
    );
    assert!(
        params(None, false).safety_plan()
            == SafetyPlan::Safe {
                hop_count: 1,
                stability: Stability::LowLatency,
                sequencing: Sequencing::PreferUnordered,
            }
    );
}

#[test]
fn waiting_is_shown_once_and_then_dotted() {
    let mut w = Waiter::new();
    assert_eq!(w.hear("x", Outcome::Ready), (String::new(), false));
    assert_eq!(w.hear("x", Outcome::Failed), (String::new(), false));
    assert_eq!(w.hear("x", Outcome::NotYet), ("Waiting for network (x)...".to_string(), true));
    assert_eq!(w.hear("x", Outcome::NotYet), (".".to_string(), true));
    assert_eq!(w.hear("x", Outcome::Ready), (" ready.\n".to_string(), false));
    assert_eq!(w.hear("x", Outcome::Failed), ("\n".to_string(), false));
}

#[test]
fn the_round_trip_leaves_out_the_dwell_and_the_offset() {
    assert_eq!(round_trip_us(100, 5_000, 5_030, 200), 70);
    // The far clock an hour ahead makes no difference.
    assert_eq!(round_trip_us(100, 3_600_005_000, 3_600_005_030, 200), 70);
    assert_eq!(round_trip_us(200, 0, 0, 100), 0);
    // On clocks that agree it is the way out and the way back.
    assert_eq!(round_trip_us(0, 10, 15, 25), (10 - 0) + (25 - 15));
    assert_eq!(round_trip_us(100, 0, 500, 200), 0);
}

#[test]
fn transits_are_signed_and_may_not_fit() {
    assert_eq!(transit_us(10, 4), Some(-6));
    assert_eq!(transit_us(4, 10), Some(6));
    assert_eq!(transit_us(u64::MAX, 0), Some(1));
    assert_eq!(transit_us(1 << 63, 1), None);
}

#[test]
fn an_echo_is_measured_once() {
    let mut run = Run::default();
    let echo = echo_packet(7, 1_000, 4_000, 4_100, 64);
    assert_eq!(echo.len(), 64);
    assert!(can_take_echo(&run, &echo, 1_500, false));
    let sample = take_echo(&mut run, &echo, 1_500, false).unwrap();
    assert_eq!(sample.row, "7,1000,4000,4100,1500,400,3000,-2600");
    assert_eq!((sample.forward_step, sample.reverse_step), (None, None));
    assert_eq!(run.rtt.max_us(), 400);
    assert_eq!(run.forward.max_us(), 3000);
    assert_eq!(run.reverse.max_us(), 0);
    assert!(take_echo(&mut run, &echo, 1_600, false).is_none());
    assert_eq!(run.rtt.count(), 1);
    assert_eq!(run.arrivals.duplicates, 1);
    let next = echo_packet(8, 2_000, 5_040, 5_100, 0);
    let sample = take_echo(&mut run, &next, 2_500, false).unwrap();
    assert_eq!((sample.forward_step, sample.reverse_step), (Some(40), Some(0)));
    assert!(take_echo(&mut run, b"noise", 0, false).is_none());
    assert_eq!(CSV_HEADER.split(',').count(), sample.row.split(',').count());
}

#[test]
fn an_echo_that_lands_while_draining_still_has_its_row() {
    let mut run = Run::default();
    let echo = echo_packet(1, 10, 20, 20, 0);
    let sample = take_echo(&mut run, &echo, 30, true).unwrap();
    assert_eq!(sample.row, "1,10,20,20,30,20,10,10");
    assert_eq!((sample.forward_step, sample.reverse_step), (None, None));
    assert_eq!(run.rtt.count(), 1);
    // No jitter was measured: the next one is the first.
    let sample = take_echo(&mut run, &echo_packet(2, 10, 25, 25, 0), 30, false).unwrap();
    assert_eq!(sample.forward_step, None);
}

#[test]
fn stamps_that_cannot_be_told_apart_are_told_apart_first() {
    let run = Run::default();
    assert!(!can_take_echo(&run, &echo_packet(1, 1 << 63, 1, 1, 0), 1, false));
    assert!(!can_take_probe(&run, &probe_packet(1, 1 << 63, 0), 1));
    assert!(can_take_probe(&run, b"noise", 1));
}

#[test]
fn the_responder_hears_hellos_and_probes() {
    let mut run = Run::default();
    match take_probe(&mut run, &hello_packet(vec![1, 2]), 5) {
        Request::Hello { return_route } => assert_eq!(return_route, vec![1, 2]),
        _ => panic!("no hello"),
    }
    let probe = probe_packet(3, 100, 1200);
    assert_eq!(probe.len(), 1200);
    match take_probe(&mut run, &probe, 150) {
        Request::Probe { seq, t0, step } => assert_eq!((seq, t0, step), (3, 100, None)),
        _ => panic!("no probe"),
    }
    match take_probe(&mut run, &probe_packet(4, 200, 0), 260) {
        Request::Probe { step, .. } => assert_eq!(step, Some(10)),
        _ => panic!("no probe"),
    }
    match take_probe(&mut run, &probe, 150) {
        Request::Probe { step, .. } => assert_eq!(step, None),
        _ => panic!("no probe"),
    }
    assert!(matches!(take_probe(&mut run, &Packet::Status { xfer: 1 }.encode(0), 0), Request::Other));
    assert_eq!(run.arrivals.unique(), 2);
    assert_eq!(run.arrivals.duplicates, 1);
    assert_eq!(run.forward.count(), 2);
    run.sent = 1;
    assert_eq!(
        listen_line(&run, "1.0", "0.0", "0.1"),
        "[   1.0s] recv      2  lost~0 (0.0%)  echoed      1  fwd jitter    0.1ms"
    );
}

#[test]
fn sends_are_counted_at_both_ends() {
    let mut run = Run::default();
    count_echo(&mut run, true);
    count_echo(&mut run, false);
    assert_eq!((run.sent, run.send_errors), (2, 1));
    let mut run = Run::default();
    count_probe(&mut run, true);
    count_probe(&mut run, false);
    count_dropped(&mut run);
    assert_eq!((run.sent, run.send_errors, run.send_dropped), (1, 1, 1));
}

#[test]
fn the_first_death_is_remembered() {
    let mut run = Run::default();
    let list = |s: &[&str]| s.iter().map(|x| x.to_string()).collect::<Vec<String>>();
    note_route_change(&mut run, "1.0", &list(&["x"]), &list(&["y"]), "me", &Some("far".into()));
    assert!(run.route_events.is_empty());
    assert!(run.first_route_death.is_none());
    note_route_change(&mut run, "2.0", &list(&["x", "me"]), &list(&["far"]), "me", &Some("far".into()));
    note_route_change(&mut run, "3.0", &list(&["me"]), &list(&[]), "me", &None);
    let said: Vec<&str> = run.route_events.iter().map(|e| e.what.as_str()).collect();
    assert_eq!(said, vec!["our route me died", "remote route far died", "our route me died"]);
    assert_eq!(run.first_route_death, Some("2.0".to_string()));
    assert!(after_change(&list(&["me"]), &list(&["far"]), "me", "far") == AfterChange::End);
    assert!(after_change(&list(&["me"]), &list(&[]), "me", "far") == AfterChange::Rebuild);
    assert!(after_change(&list(&["you"]), &list(&["me"]), "me", "far") == AfterChange::CarryOn);
}

#[test]
fn a_blob_survives_being_pasted() {
    let blob = b"Hello world".to_vec();
    assert_eq!(blob_text(&blob), "SGVsbG8gd29ybGQ=");
    assert_eq!(decode_blob(&format!("  {}\n", blob_text(&blob))), Ok(blob));
    assert!(decode_blob("not base64!")
        .unwrap_err()
        .starts_with("that does not look like a route blob: "));
    assert_eq!(blob_or_reason(Ok(vec![1])), Ok(vec![1]));
    assert_eq!(
        blob_or_reason(Err("bad symbol".into())),
        Err("that does not look like a route blob: bad symbol".to_string())
    );
}

#[test]
fn routes_that_do_not_decode_are_passed_over() {
    let routes = vec!["AQI=".to_string(), "?".to_string(), "Aw==".to_string()];
    assert_eq!(dialable(&routes), vec![vec![1u8, 2], vec![3u8]]);
    assert_eq!(keep_readable(vec![Err("x".into()), Ok(vec![4u8])]), vec![vec![4u8]]);
}

#[test]
fn a_rendezvous_key_counts_for_more_than_a_blob() {
    match route_source(&Some("AQI=".into()), Some("key".into())) {
        Ok(RouteSource::Rendezvous(k)) => assert_eq!(k, "key"),
        _ => panic!("no key"),
    }
    match route_source(&Some("AQI=".into()), None) {
        Ok(RouteSource::Blob(b)) => assert_eq!(b, vec![1, 2]),
        _ => panic!("no blob"),
    }
    assert!(route_source(&Some("?".into()), None).is_err());
    match route_source(&None, None) {
        Err(why) => assert_eq!(why, "need --connect or --rendezvous"),
        Ok(_) => panic!("a source from nowhere"),
    }
}

#[test]
fn only_a_held_keyring_is_waited_for() {
    assert!(matches!(after_failed_start("recv", "no network", 1, false), Startup::Fail));
    match after_failed_start("recv", "failed to create insecure keyring", 1, false) {
        Startup::Wait(note) => {
            assert_eq!(note, "Waiting for the previous recv node to release its keyring...")
        }
        _ => panic!("not waited for"),
    }
    match after_failed_start("recv", "keyring", 14, true) {
        Startup::Wait(note) => assert_eq!(note, "."),
        _ => panic!("not waited for"),
    }
    match after_failed_start("recv", "keyring", 15, true) {
        Startup::GiveUp(why) => {
            assert!(why.starts_with("could not open the protected store for `recv`. Another `veilid-vc recv` is probably"))
        }
        _ => panic!("not given up"),
    }
}

#[test]
fn settings_are_clamped() {
    assert_eq!((pool_size(0), pool_size(3), pool_size(99)), (1, 3, 8));
    assert!(verbosity(0) == Verbosity::Warn);
    assert!(verbosity(1) == Verbosity::Info);
    assert!(verbosity(2) == Verbosity::Debug);
    assert!(verbosity(9) == Verbosity::Trace);
}

#[test]
fn a_run_without_a_duration_does_not_end_by_itself() {
    let cfg = |duration_secs| ProbeConfig { rate: 1, size: 64, duration_secs, csv: None };
    assert_eq!(cfg(0).runs_for(), None);
    assert_eq!(cfg(60).runs_for(), Some(60));
}

#[test]
fn the_clock_is_past_the_epoch() {
    assert!(now_us() > 1_500_000_000_000_000);
}

#[test]
fn a_reading_is_held_back_until_the_clock_moves_on() {
    assert!(stands_still(7, 7, 0));
    assert!(!stands_still(7, 8, 0));
    assert!(!stands_still(7, 6, 0));
    assert!(!stands_still(7, 7, MAX_SPINS));
    assert_ne!(spent_us(), now_us());
}

#[test]
fn a_clock_before_the_epoch_reads_as_zero() {
    assert_eq!(timestamp(None), 0);
    assert_eq!(timestamp(Some(5)), 5);
    assert_eq!(timestamp(Some((1u128 << 64) + 5)), 5);
}
