use veilid_vc::pool::{AfterLoss, Entry, Pool};
use veilid_vc::proto::{crc32, Packet};
use veilid_vc::receiver::{Loss, Receiver};
use veilid_vc::roles::{
    echo_packet, hello_packet, probe_packet, take_echo, Action, AfterChange, Prober, Responder,
};
use veilid_vc::sender::{chunk_packet, plan, status_question, Courier, Failover};
use veilid_vc::transfer::RecvConfig;

fn entry(id: &str, created_us: u64) -> Entry {
    Entry { id: id.to_string(), blob: id.as_bytes().to_vec(), created_us }
}

fn list(s: &[&str]) -> Vec<String> {
    s.iter().map(|x| x.to_string()).collect()
}

fn config() -> RecvConfig {
    RecvConfig { out_dir: ".".into(), max_bytes: 1024, rendezvous_file: ".".into(), pool: 2, rotate_secs: 0 }
}

#[test]
fn a_receiver_hands_a_file_out_once() {
    let cfg = config();
    let mut end = Receiver::new(Pool::new(entry("a", 0), 1), true);
    let file = b"hello, world".to_vec();
    let plan = plan(5, "hi.txt", &file, 5).unwrap();
    assert!(end.can_take_call(&cfg, &plan.manifest));
    let (reply, finished) = end.on_call(&cfg, &plan.manifest, 1);
    assert!(reply.is_some());
    assert!(finished.is_empty());
    for i in [1u32, 0, 2, 0] {
        let wire = chunk_packet(5, &file, 5, i);
        assert!(end.can_take_message(&wire));
        let first = !end.transfers[&5].have[i as usize];
        assert_eq!(end.on_message(&wire), first);
    }
    let (_, finished) = end.on_call(&cfg, &status_question(5), 2);
    assert_eq!(finished.len(), 1);
    assert_eq!(finished[0].data, file);
    assert_eq!(crc32(&finished[0].data), finished[0].crc);
    assert!(end.transfers.is_empty());
    // Asked again, it still says "complete", and hands nothing out.
    let (reply, finished) = end.on_call(&cfg, &status_question(5), 3);
    match Packet::decode(&reply.unwrap()) {
        Some(Packet::StatusReply { state, .. }) => assert_eq!(state, 2),
        other => panic!("answered with {other:?}"),
    }
    assert!(finished.is_empty());
    let (reply, finished) = end.on_call(&cfg, b"noise", 3);
    assert!(reply.is_none() && finished.is_empty());
}

#[test]
fn an_empty_file_is_finished_as_soon_as_it_is_announced() {
    let cfg = config();
    let mut end = Receiver::new(Pool::new(entry("a", 0), 1), true);
    let plan = plan(5, "empty", &[], 5).unwrap();
    let (_, finished) = end.on_call(&cfg, &plan.manifest, 1);
    assert_eq!(finished.len(), 1);
    assert!(end.completed.contains(&5));
}

#[test]
fn a_receiver_survives_losing_a_route() {
    let mut pool = Pool::new(entry("a", 0), 2);
    pool.add(entry("b", 1));
    let mut end = Receiver::new(pool, true);
    assert!(matches!(end.on_dead_routes(&list(&["x"])), Loss::Nothing));
    match end.on_dead_routes(&list(&["x", "a"])) {
        Loss::Lost { dead, live } => assert_eq!((dead, live), (list(&["a"]), 1)),
        Loss::Nothing => panic!("not noticed"),
    }
    assert!(end.after_loss() == AfterLoss::Republish);
    end.recorded = false;
    assert!(end.after_loss() == AfterLoss::StopUnrecorded);
    end.on_dead_routes(&list(&["b"]));
    assert!(end.after_loss() == AfterLoss::Stop);
}

#[test]
fn rotation_is_skipped_without_a_record() {
    let mut end = Receiver::new(Pool::new(entry("a", 0), 1), false);
    let (over, replace) = end.on_rotation(10);
    assert!(over.is_empty());
    assert!(!replace);
    end.recorded = true;
    assert!(end.on_rotation(10).1);
    assert_eq!(end.replace_oldest(entry("b", 10), 10), ("a".to_string(), "b".to_string()));
    assert!(end.on_rotation(11).0.is_empty());
    assert_eq!(end.on_rotation(90_000_010).0, list(&["a"]));
}

#[test]
fn a_courier_gives_up_on_a_dead_receiver() {
    let mut c = Courier::new(2, true);
    let mut refreshes = 0;
    let mut deaths = 0;
    loop {
        deaths += 1;
        match c.route_died() {
            Failover::Spare(next) => assert_eq!(next, 1),
            Failover::Refresh(n) => {
                refreshes = n;
                c.refreshed(2);
            }
            Failover::Exhausted => break,
            Failover::Unrecorded => panic!("there is a record"),
        }
    }
    assert_eq!((refreshes, deaths), (3, 8));
    c.next_file();
    assert!(c.route_died() == Failover::Refresh(1));
    assert!(Courier::new(1, false).route_died() == Failover::Unrecorded);
}

#[test]
fn a_prober_numbers_its_probes_and_counts_what_it_could_not_send() {
    let mut end = Prober::new("mine".into(), "far".into());
    assert_eq!((end.run.sent, end.run.send_errors, end.run.rtt.count()), (0, 0, 0));
    assert!(end.run.route_events.is_empty());
    assert_eq!(end.on_tick(true), Some(0));
    assert_eq!(end.on_tick(false), None);
    assert_eq!(end.on_tick(true), Some(2));
    assert_eq!(end.run.send_dropped, 1);
    assert!(take_echo(&mut end.run, &echo_packet(0, 1, 2, 3, 0), 9, false).is_some());
}

#[test]
fn a_prober_rebuilds_its_own_route_but_not_the_far_one() {
    let mut end = Prober::new("mine".into(), "far".into());
    assert!(end.on_route_change("0.5", &list(&["x"]), &list(&[])) == AfterChange::CarryOn);
    assert!(end.on_route_change("1.0", &list(&["mine"]), &list(&[])) == AfterChange::Rebuild);
    end.rebuilt("new".into(), "1.5", false);
    assert_eq!(end.run.route_events.len(), 1);
    end.rebuilt("newer".into(), "2.0", true);
    assert_eq!(end.mine, "newer");
    assert_eq!(end.run.route_events[1].what, "return route rebuilt as newer");
    assert!(end.on_route_change("3.0", &list(&["newer"]), &list(&["far"])) == AfterChange::End);
    assert_eq!(end.run.first_route_death, Some("1.0".to_string()));
    assert_eq!(end.run.route_events.len(), 4);
}

#[test]
fn a_responder_echoes_once_it_knows_where_to() {
    let mut end = Responder::new("mine".into());
    let probe = probe_packet(1, 10, 0);
    assert!(matches!(end.on_message(&probe, 15), Action::Hold { step: None }));
    match end.on_message(&hello_packet(vec![7]), 16) {
        Action::Import { blob } => assert_eq!(blob, vec![7]),
        _ => panic!("no hello"),
    }
    end.imported("far".into());
    assert_eq!(end.target.as_deref(), Some("far"));
    match end.on_message(&probe_packet(2, 20, 0), 27) {
        Action::Echo { seq, t0, step } => assert_eq!((seq, t0, step), (2, 20, Some(2))),
        _ => panic!("no echo"),
    }
    assert!(matches!(end.on_message(b"noise", 30), Action::Ignore));
    assert!(!end.on_route_change("1.0", &list(&["x"]), &list(&["far"])));
    assert!(end.on_route_change("2.0", &list(&["mine"]), &list(&[])));
    assert_eq!(end.run.first_route_death, Some("1.0".to_string()));
}
