use std::collections::{HashMap, HashSet};

use veilid_vc::incoming::Incoming;
use veilid_vc::names::safe_name;
use veilid_vc::proto::{
    crc32, Packet, MAX_CHUNK_DATA, MAX_MISSING_LISTED, XFER_COMPLETE, XFER_IN_PROGRESS, XFER_UNKNOWN,
};
use veilid_vc::sender::{
    after_failed_call, after_import, call_failed, call_pause_ms, chunk_packet, fail_over, in_file, look_up, opened, pass_notice, plan,
    published_blobs, report_file, routes_value, spacing_us, status_question, xfer_id, xfer_id_at,
    Attempt, CallStep, Failover, FileStats, Import, Lookup, Next, RouteSource, SendError, Tally,
};
use veilid_vc::transfer::{
    answer, answerable, deliver, deliverable, finish_completed, rule_on, RecvConfig, Ruling,
};


fn incoming(total_len: u64, chunk_size: u32) -> Incoming {
    let count = total_len.div_ceil(chunk_size as u64) as u32;
    Incoming::new("x.bin".into(), total_len, chunk_size, count, 0, 0)
}

#[test]
fn a_file_reassembles_out_of_order() {
    let mut inc = incoming(2500, 1000);
    assert_eq!(inc.chunk_count, 3);
    assert!(inc.store(2, &[3u8; 500])); // the short last chunk
    assert!(inc.store(0, &[1u8; 1000]));
    assert!(!inc.complete());
    assert!(inc.store(1, &[2u8; 1000]));
    assert!(inc.complete());
    assert_eq!(inc.data[0], 1);
    assert_eq!(inc.data[1000], 2);
    assert_eq!(inc.data[2000], 3);
}

#[test]
fn a_chunk_of_the_wrong_length_is_dropped() {
    let mut inc = incoming(2500, 1000);
    // The last chunk is 500 bytes; a full-size one there would run past
    // the end of the file.
    assert!(!inc.store(2, &[9u8; 1000]));
    assert!(!inc.store(0, &[9u8; 999]));
    assert_eq!(inc.have_count, 0);
}

#[test]
fn a_chunk_past_the_end_is_dropped() {
    let mut inc = incoming(2500, 1000);
    assert!(!inc.store(3, &[9u8; 1000]));
    assert!(!inc.store(u32::MAX, &[9u8; 1000]));
    assert_eq!(inc.have_count, 0);
}

#[test]
fn duplicates_are_counted_not_stored_twice() {
    let mut inc = incoming(2000, 1000);
    assert!(inc.store(0, &[1u8; 1000]));
    assert!(!inc.store(0, &[2u8; 1000]));
    assert_eq!(inc.duplicates, 1);
    assert_eq!(inc.have_count, 1);
    assert_eq!(inc.data[0], 1, "the duplicate must not overwrite what arrived first");
}

#[test]
fn missing_names_the_gaps() {
    let mut inc = incoming(5000, 1000);
    inc.store(0, &[0u8; 1000]);
    inc.store(2, &[0u8; 1000]);
    inc.store(4, &[0u8; 1000]);
    assert_eq!(inc.missing(), (2, vec![1, 3]));
}

#[test]
fn missing_lists_no_more_than_one_answer_holds() {
    let count = MAX_MISSING_LISTED as u64 + 100;
    let inc = incoming(count, 1);
    let (total, listed) = inc.missing();
    assert_eq!(total as u64, count);
    assert_eq!(listed.len(), MAX_MISSING_LISTED);
}

#[test]
fn an_empty_file_is_complete_on_arrival() {
    let inc = Incoming::new("empty".into(), 0, 1000, 0, crc32(b""), 0);
    assert!(inc.complete());
    assert_eq!(inc.missing(), (0, vec![]));
}

#[test]
fn a_hostile_name_cannot_escape_the_output_directory() {
    assert_eq!(safe_name("../../etc/passwd"), "passwd");
    assert_eq!(safe_name("/etc/shadow"), "shadow");
    assert_eq!(safe_name(r"..\..\windows\system32\cmd.exe"), "cmd.exe");
    assert_eq!(safe_name(".."), "transfer.bin");
    assert_eq!(safe_name(""), "transfer.bin");
    assert_eq!(safe_name("   "), "transfer.bin");
    assert_eq!(safe_name(".bashrc"), "bashrc");
    assert_eq!(safe_name("ok\u{0}nul.png"), "oknul.png");
    assert_eq!(safe_name("cat.png"), "cat.png");
}

#[test]
fn the_manifest_and_the_chunking_have_to_agree() {
    let mut transfers = HashMap::new();
    let cfg = RecvConfig { out_dir: ".".into(), max_bytes: 1024, rendezvous_file: ".".into(), pool: 1, rotate_secs: 0 };
    let ask = |total_len: u64, chunk_size: u32, chunk_count: u32| {
        Packet::Manifest {
            xfer: 1,
            total_len,
            chunk_size,
            chunk_count,
            crc32: 0,
            name: "x".into(),
        }
        .encode(0)
    };
    let accepted = |msg: &[u8], transfers: &mut HashMap<u64, Incoming>| {
        match Packet::decode(&answer(transfers, &HashSet::new(), &cfg, msg, 0).unwrap()) {
            Some(Packet::ManifestOk { accepted, .. }) => accepted,
            other => panic!("answered with {other:?}"),
        }
    };

    // 100 bytes in 10-byte chunks is 10 chunks, not 9.
    assert!(!accepted(&ask(100, 10, 9), &mut transfers));
    // Over --max-bytes.
    assert!(!accepted(&ask(2048, 10, 205), &mut transfers));
    // A chunk that could never fit one app_message.
    assert!(!accepted(&ask(100, u32::MAX, 1), &mut transfers));
    assert!(transfers.is_empty());
    // And the one that adds up.
    assert!(accepted(&ask(100, 10, 10), &mut transfers));
    assert_eq!(transfers.len(), 1);
}

#[test]
fn an_unknown_transfer_says_so_rather_than_lying_about_progress() {
    let mut transfers = HashMap::new();
    let cfg = RecvConfig { out_dir: ".".into(), max_bytes: 1024, rendezvous_file: ".".into(), pool: 1, rotate_secs: 0 };
    let reply = answer(&mut transfers, &HashSet::new(), &cfg, &Packet::Status { xfer: 7 }.encode(0), 0).unwrap();
    match Packet::decode(&reply) {
        Some(Packet::StatusReply { state, .. }) => assert_eq!(state, XFER_UNKNOWN),
        other => panic!("answered with {other:?}"),
    }
}

#[test]
fn a_retried_manifest_keeps_the_progress_already_made() {
    let mut transfers = HashMap::new();
    let cfg = RecvConfig { out_dir: ".".into(), max_bytes: 1024, rendezvous_file: ".".into(), pool: 1, rotate_secs: 0 };
    let manifest =
        Packet::Manifest { xfer: 1, total_len: 100, chunk_size: 10, chunk_count: 10, crc32: 0, name: "x".into() }
            .encode(0);
    answer(&mut transfers, &HashSet::new(), &cfg, &manifest, 0).unwrap();
    transfers.get_mut(&1).unwrap().store(0, &[1u8; 10]);
    answer(&mut transfers, &HashSet::new(), &cfg, &manifest, 0).unwrap();
    assert_eq!(transfers.get(&1).unwrap().have_count, 1);
}

#[test]
fn status_records_the_first_pass_loss_once() {
    let mut transfers = HashMap::new();
    let cfg = RecvConfig { out_dir: ".".into(), max_bytes: 1024, rendezvous_file: ".".into(), pool: 1, rotate_secs: 0 };
    let manifest =
        Packet::Manifest { xfer: 1, total_len: 100, chunk_size: 10, chunk_count: 10, crc32: 0, name: "x".into() }
            .encode(0);
    answer(&mut transfers, &HashSet::new(), &cfg, &manifest, 0).unwrap();
    for i in 0..8 {
        transfers.get_mut(&1).unwrap().store(i, &[0u8; 10]);
    }
    let status = Packet::Status { xfer: 1 }.encode(0);
    answer(&mut transfers, &HashSet::new(), &cfg, &status, 0).unwrap();
    // Two more arrive, and the sender asks again.
    transfers.get_mut(&1).unwrap().store(8, &[0u8; 10]);
    transfers.get_mut(&1).unwrap().store(9, &[0u8; 10]);
    let reply = answer(&mut transfers, &HashSet::new(), &cfg, &status, 0).unwrap();
    match Packet::decode(&reply) {
        Some(Packet::StatusReply { state, missing_total, .. }) => {
            assert_eq!(state, XFER_COMPLETE);
            assert_eq!(missing_total, 0);
        }
        other => panic!("answered with {other:?}"),
    }
    let inc = transfers.get(&1).unwrap();
    assert_eq!(inc.first_pass_missing, Some(2), "the first answer is what the first pass lost");
    assert_eq!(inc.repair_rounds, 1);
}

#[test]
fn a_finished_transfer_is_not_forgotten_the_moment_it_is_written() {
    // The sender's status call can time out after we have answered it. It
    // asks again; if that answer were "never heard of it" the sender would
    // send the whole file a second time.
    let mut transfers = HashMap::new();
    let mut completed = HashSet::new();
    completed.insert(1u64);
    let cfg = RecvConfig { out_dir: ".".into(), max_bytes: 1024, rendezvous_file: ".".into(), pool: 1, rotate_secs: 0 };
    let reply =
        answer(&mut transfers, &completed, &cfg, &Packet::Status { xfer: 1 }.encode(0), 0).unwrap();
    match Packet::decode(&reply) {
        Some(Packet::StatusReply { state, missing_total, .. }) => {
            assert_eq!(state, XFER_COMPLETE);
            assert_eq!(missing_total, 0);
        }
        other => panic!("answered with {other:?}"),
    }
    // And a re-opened manifest for it does not start the file again.
    let manifest = Packet::Manifest {
        xfer: 1,
        total_len: 100,
        chunk_size: 10,
        chunk_count: 10,
        crc32: 0,
        name: "x".into(),
    }
    .encode(0);
    answer(&mut transfers, &completed, &cfg, &manifest, 0).unwrap();
    assert!(transfers.is_empty());
}

#[test]
fn xfer_ids_differ_between_runs_of_the_same_file() {
    assert_ne!(xfer_id("cat.png"), xfer_id("cat.png"));
    assert_ne!(xfer_id("cat.png"), xfer_id("dog.png"));
}

fn config(max_bytes: u64) -> RecvConfig {
    RecvConfig { out_dir: ".".into(), max_bytes, rendezvous_file: ".".into(), pool: 1, rotate_secs: 0 }
}

#[test]
fn a_file_gets_across_in_reverse_and_with_repeats() {
    let file: Vec<u8> = (0..2500u32).map(|i| (i * 7 % 251) as u8).collect();
    let cfg = config(1 << 20);
    let mut transfers = HashMap::new();
    let mut completed = HashSet::new();
    let plan = plan(9, "x.bin", &file, 1000).unwrap();
    assert_eq!((plan.chunk_size, plan.chunk_count, plan.total_len), (1000, 3, 2500));
    assert_eq!(plan.crc, crc32(&file));
    let reply = answer(&mut transfers, &completed, &cfg, &plan.manifest, 7).unwrap();
    assert!(opened("x.bin", &reply).is_ok());

    let mut stats = FileStats::new();
    let mut attempt = Attempt::new("x.bin", 20, &mut stats);
    assert_eq!(stats.attempts, 1);
    let reply = answer(&mut transfers, &completed, &cfg, &status_question(9), 7).unwrap();
    let missing = match attempt.on_status(&reply, &mut stats) {
        Next::Send { missing_total, missing } => {
            assert_eq!(missing_total, 3);
            missing
        }
        _ => panic!("nothing to send"),
    };
    assert_eq!(missing, vec![0, 1, 2]);
    assert_eq!(stats.first_pass_missing, None);
    for i in [2u32, 1, 1, 2] {
        assert!(in_file(file.len(), 1000, i));
        let wire = chunk_packet(9, &file, 1000, i);
        assert!(deliverable(&transfers, &wire));
        deliver(&mut transfers, &wire);
    }
    attempt.passed(3, 0, &mut stats);
    assert!(finish_completed(&mut transfers, &mut completed).is_empty());

    let reply = answer(&mut transfers, &completed, &cfg, &status_question(9), 7).unwrap();
    match attempt.on_status(&reply, &mut stats) {
        Next::Send { missing, .. } => assert_eq!(missing, vec![0]),
        _ => panic!("one chunk is missing"),
    }
    assert_eq!(stats.first_pass_missing, Some(1));
    assert!(deliver(&mut transfers, &chunk_packet(9, &file, 1000, 0)));
    attempt.passed(1, 0, &mut stats);

    let reply = answer(&mut transfers, &completed, &cfg, &status_question(9), 7).unwrap();
    assert!(matches!(attempt.on_status(&reply, &mut stats), Next::Done));
    attempt.done(&plan, &mut stats);
    assert_eq!((stats.total_chunks, stats.bytes), (3, 2500));
    assert_eq!((stats.chunk_sends, stats.repairs, stats.send_errors), (4, 1, 0));
    let done = finish_completed(&mut transfers, &mut completed);
    assert_eq!(done.len(), 1);
    assert_eq!(done[0].data, file);
    assert_eq!(done[0].duplicates, 2);
    assert_eq!(done[0].started_us, 7);
    assert!(transfers.is_empty());
    assert!(completed.contains(&9));
}

#[test]
fn only_finished_transfers_are_taken_out() {
    let mut transfers = HashMap::new();
    let mut completed = HashSet::new();
    completed.insert(77);
    for id in 0..10u64 {
        let count = if id % 2 == 0 { 0 } else { 1 };
        transfers.insert(id, Incoming::new(format!("{id}"), count, 10, count as u32, 0, 0));
    }
    let mut names: Vec<String> =
        finish_completed(&mut transfers, &mut completed).into_iter().map(|i| i.name).collect();
    names.sort();
    assert_eq!(names, vec!["0", "2", "4", "6", "8"]);
    assert_eq!(transfers.len(), 5);
    assert_eq!(completed.len(), 6);
}

#[test]
fn each_refusal_gives_its_reason() {
    let cfg = config(1024);
    let refusal = |total_len: u64, chunk_size: u32, chunk_count: u32| {
        let manifest = Packet::Manifest {
            xfer: 1,
            total_len,
            chunk_size,
            chunk_count,
            crc32: 0,
            name: "x".into(),
        };
        let reply =
            answer(&mut HashMap::new(), &HashSet::new(), &cfg, &manifest.encode(0), 0).unwrap();
        match opened("x", &reply) {
            Err(SendError::Fatal(why)) => why,
            _ => panic!("taken"),
        }
    };
    assert_eq!(
        refusal(2048, 10, 205),
        "x: the receiver refused it — over the receiver's --max-bytes limit"
    );
    assert_eq!(
        refusal(100, 0, 1),
        "x: the receiver refused it — chunk size will not fit an app_message"
    );
    assert_eq!(
        refusal(100, MAX_CHUNK_DATA as u32 + 1, 1),
        "x: the receiver refused it — chunk size will not fit an app_message"
    );
    assert_eq!(
        refusal(100, 10, 9),
        "x: the receiver refused it — chunk count does not match the length and chunk size"
    );
}

#[test]
fn every_ruling_has_its_manifest() {
    let cfg = config(1024);
    let mut transfers = HashMap::new();
    transfers.insert(1u64, Incoming::new("a".into(), 10, 10, 1, 0, 0));
    let mut completed = HashSet::new();
    completed.insert(2u64);
    assert!(rule_on(&transfers, &completed, &cfg, 2, 10, 10, 1) == Ruling::AlreadyDone);
    assert!(rule_on(&transfers, &completed, &cfg, 1, 10, 10, 1) == Ruling::Resume);
    assert!(rule_on(&transfers, &completed, &cfg, 3, 1025, 10, 103) == Ruling::TooBig);
    assert!(rule_on(&transfers, &completed, &cfg, 3, 10, 0, 1) == Ruling::BadChunkSize);
    assert!(rule_on(&transfers, &completed, &cfg, 3, 11, 10, 1) == Ruling::BadChunkCount);
    assert!(rule_on(&transfers, &completed, &cfg, 3, 11, 10, 2) == Ruling::Open);
}

#[test]
fn a_call_that_is_not_for_us_goes_unanswered() {
    let mut transfers = HashMap::new();
    let completed = HashSet::new();
    let cfg = config(1024);
    assert_eq!(answer(&mut transfers, &completed, &cfg, b"hello", 0), None);
    let probe = Packet::Probe { seq: 1, t0: 1 }.encode(0);
    assert_eq!(answer(&mut transfers, &completed, &cfg, &probe, 0), None);
    assert!(!deliver(&mut transfers, &probe));
    assert!(!deliver(&mut transfers, &Packet::Chunk { xfer: 1, index: 0, data: vec![] }.encode(0)));
}

#[test]
fn what_cannot_be_held_is_told_apart() {
    let cfg = config(u64::MAX);
    let huge = Packet::Manifest {
        xfer: 1,
        total_len: u64::MAX - 1,
        chunk_size: 32751,
        chunk_count: 1,
        crc32: 0,
        name: "x".into(),
    };
    // Refused for its chunk count before anything is allocated.
    assert!(answerable(&HashMap::new(), &HashSet::new(), &cfg, &huge.encode(0)));
    let mut transfers = HashMap::new();
    let mut inc = Incoming::new("x".into(), 10, 10, 1, 0, 0);
    inc.first_pass_missing = Some(1);
    inc.repair_rounds = u32::MAX;
    inc.duplicates = u32::MAX;
    transfers.insert(1u64, inc);
    assert!(!answerable(&transfers, &HashSet::new(), &cfg, &status_question(1)));
    assert!(answerable(&transfers, &HashSet::new(), &cfg, &status_question(2)));
    let chunk = Packet::Chunk { xfer: 1, index: 0, data: vec![0; 10] }.encode(0);
    assert!(deliverable(&transfers, &chunk), "a new chunk is no duplicate");
    transfers.get_mut(&1).unwrap().store(0, &[0; 10]);
    assert!(!deliverable(&transfers, &chunk));
}

#[test]
fn a_plan_clamps_its_chunks() {
    let file = vec![1u8; 10];
    assert_eq!(plan(1, "a", &file, 0).unwrap().chunk_count, 10);
    assert_eq!(plan(1, "a", &file, usize::MAX).unwrap().chunk_size, MAX_CHUNK_DATA as u32);
    assert_eq!(plan(1, "a", &[], 5).unwrap().chunk_count, 0);
}

#[test]
fn a_chunk_past_the_file_is_told_apart() {
    assert!(in_file(10, 4, 2));
    assert!(in_file(8, 4, 2));
    assert!(!in_file(7, 4, 2));
    assert!(!in_file(usize::MAX, usize::MAX, 2));
    match Packet::decode(&chunk_packet(3, b"abcdefghij", 4, 2)) {
        Some(Packet::Chunk { xfer, index, data }) => {
            assert_eq!((xfer, index), (3, 2));
            assert_eq!(data, b"ij");
        }
        other => panic!("decoded as {other:?}"),
    }
}

#[test]
fn answers_that_make_no_sense_are_fatal() {
    match opened("f", &status_question(1)) {
        Err(SendError::Fatal(why)) => {
            assert_eq!(why, "f: the receiver answered the manifest with something else")
        }
        _ => panic!("taken"),
    }
    let mut stats = FileStats::new();
    let attempt = Attempt::new("f", 1, &mut stats);
    match attempt.on_status(b"??", &mut stats) {
        Next::Fail(why) => {
            assert_eq!(why, "f: the receiver answered a status query with something else")
        }
        _ => panic!("taken"),
    }
    let none_named = Packet::StatusReply {
        xfer: 1,
        state: XFER_IN_PROGRESS,
        missing_total: 4,
        missing: vec![],
    };
    match attempt.on_status(&none_named.encode(0), &mut stats) {
        Next::Fail(why) => {
            assert_eq!(why, "f: the receiver is 4 chunk(s) short but named none of them")
        }
        _ => panic!("taken"),
    }
}

#[test]
fn a_receiver_that_forgets_is_given_up() {
    let mut stats = FileStats::new();
    let mut attempt = Attempt::new("f", 1, &mut stats);
    let unknown =
        Packet::StatusReply { xfer: 1, state: XFER_UNKNOWN, missing_total: 0, missing: vec![] };
    assert!(matches!(attempt.on_status(&unknown.encode(0), &mut stats), Next::Reopen));
    assert_eq!(attempt.reopened(), None);
    assert_eq!(
        attempt.reopened(),
        Some("f: the receiver keeps forgetting this transfer".to_string())
    );
}

fn short_of(missing: Vec<u32>) -> Vec<u8> {
    let state = if missing.is_empty() { XFER_COMPLETE } else { XFER_IN_PROGRESS };
    Packet::StatusReply { xfer: 1, state, missing_total: missing.len() as u32, missing }.encode(0)
}

#[test]
fn passes_run_out() {
    let mut stats = FileStats::new();
    let mut attempt = Attempt::new("f", 1, &mut stats);
    attempt.passed(4, 1, &mut stats);
    match attempt.on_status(&short_of(vec![3, 5]), &mut stats) {
        Next::Send { missing, .. } => assert_eq!(missing, vec![3, 5]),
        _ => panic!("one repair pass is left"),
    }
    attempt.passed(2, 0, &mut stats);
    match attempt.on_status(&short_of(vec![5]), &mut stats) {
        Next::Fail(why) => assert_eq!(
            why,
            "f: still 1 chunk(s) short after 1 repair pass(es); try a lower --rate or a smaller --chunk"
        ),
        _ => panic!("the passes are used up"),
    }
    assert_eq!((stats.chunk_sends, stats.send_errors, stats.repairs), (7, 1, 1));
}

#[test]
fn a_file_completed_by_its_last_pass_is_not_given_up() {
    for max_rounds in [0u32, 1, 5] {
        let mut stats = FileStats::new();
        let mut attempt = Attempt::new("f", max_rounds, &mut stats);
        for _ in 0..=max_rounds {
            assert!(matches!(attempt.on_status(&short_of(vec![0]), &mut stats), Next::Send { .. }));
            attempt.passed(1, 0, &mut stats);
        }
        assert!(matches!(attempt.on_status(&short_of(vec![]), &mut stats), Next::Done));
        assert!(matches!(attempt.on_status(&short_of(vec![0]), &mut stats), Next::Fail(_)));
        assert_eq!(stats.repairs, max_rounds);
    }
}

#[test]
fn a_call_is_tried_a_bounded_number_of_times() {
    assert!(after_failed_call(1) == CallStep::Retry { pause_ms: 500 });
    assert!(after_failed_call(4) == CallStep::Retry { pause_ms: 2000 });
    assert!(after_failed_call(5) == CallStep::GiveUp { pause_ms: 2500 });
}

#[test]
fn every_repetition_is_counted() {
    let file = [1u8, 2, 3, 4, 5];
    let mut inc = incoming(5, 2);
    let order = [2u32, 2, 0, 2, 1, 0];
    let mut new = Vec::new();
    for i in order {
        let start = i as usize * 2;
        assert_eq!(inc.complete(), new.iter().filter(|n| **n).count() == 3);
        new.push(inc.store(i, &file[start..(start + 2).min(5)]));
    }
    assert_eq!(new, vec![true, false, true, false, true, false]);
    assert!(inc.complete());
    assert_eq!(inc.data, file);
    assert_eq!(inc.duplicates, 3);
}

#[test]
fn a_pass_is_announced() {
    assert_eq!(
        pass_notice(0, 10, 4, 4, 20),
        "  resuming: 6 of 10 chunk(s) already there\n  sending 4 chunk(s) at 20/s\n"
    );
    assert_eq!(pass_notice(0, 10, 10, 10, 20), "  sending 10 chunk(s) at 20/s\n");
    assert_eq!(pass_notice(2, 10, 1, 1, 20), "  repair pass 2: resending 1 chunk(s)\n");
}

#[test]
fn failover_tries_spares_then_the_record_then_gives_up() {
    assert!(fail_over(0, 3, false, 0) == Failover::Spare(1));
    assert!(fail_over(1, 3, true, 9) == Failover::Spare(2));
    assert!(fail_over(2, 3, false, 0) == Failover::Unrecorded);
    assert!(fail_over(2, 3, true, 0) == Failover::Refresh(1));
    assert!(fail_over(2, 3, true, 2) == Failover::Refresh(3));
    assert!(fail_over(2, 3, true, 3) == Failover::Exhausted);
}

#[test]
fn a_published_pool_reads_back() {
    let blobs = vec![vec![1u8; 20], vec![], vec![3u8; 7]];
    assert_eq!(published_blobs(&routes_value(blobs.clone())), blobs);
    // A bare blob is no list, and stands for itself.
    assert_eq!(published_blobs(b"raw blob"), vec![b"raw blob".to_vec()]);
}

#[test]
fn the_same_clock_gives_the_same_id() {
    assert_eq!(xfer_id_at("", 0), 0xcbf2_9ce4_8422_2325);
    assert_eq!(xfer_id_at("a", 0), 0xaf63_dc4c_8601_ec8c);
    assert_eq!(xfer_id_at("", 1), 0xcbf2_9ce4_8422_2325 ^ (1 << 17));
    assert_eq!(xfer_id_at("", 1 << 47), 0xcbf2_9ce4_8422_2325 ^ 1);
    assert_ne!(xfer_id_at("cat.png", 5), xfer_id_at("cat.png", 6));
}

#[test]
fn sends_are_spaced_and_counted() {
    assert_eq!(spacing_us(50), 20_000);
    assert_eq!(spacing_us(0), 1_000_000);
    assert_eq!(call_pause_ms(3), 1500);
    assert_eq!(call_failed("status", "timeout"), "status failed after 5 attempts: timeout");
    let mut tally = Tally::new();
    for sent in [true, false, true] {
        tally.count(sent);
    }
    assert_eq!((tally.ok, tally.failed), (2, 1));
}

#[test]
fn the_file_report_names_only_what_went_wrong() {
    let mut stats = FileStats::new();
    stats.chunk_sends = 12;
    stats.total_chunks = 10;
    stats.attempts = 1;
    assert_eq!(
        report_file(&stats, "2.0", "5.0", "0.0"),
        "  delivered in 2.0s  (5.0 KiB/s)\n  12 chunk send(s) for 10 chunk(s); first pass lost 0 (0.0%), 0 repair pass(es)\n"
    );
    stats.first_pass_missing = Some(2);
    stats.repairs = 1;
    stats.attempts = 3;
    stats.send_errors = 4;
    assert_eq!(
        report_file(&stats, "2.0", "5.0", "20.0"),
        "  delivered in 2.0s  (5.0 KiB/s)\n  12 chunk send(s) for 10 chunk(s); first pass lost 2 (20.0%), 1 repair pass(es)\n  took 3 attempts across 3 route(s)\n  4 chunk(s) never left the node\n"
    );
}

#[test]
fn nothing_can_make_a_name_start_with_a_dot() {
    assert_eq!(safe_name(". .x"), "x");
    assert_eq!(safe_name(". .."), "transfer.bin");
    assert_eq!(safe_name(" . \u{3000}.a b. "), "a b.");
    assert_eq!(safe_name("dir/"), "transfer.bin");
    assert_eq!(safe_name(".\u{85}.x"), "x");
    assert_eq!(safe_name(&safe_name("../.a/.b")), "b");
}

#[test]
fn routes_are_looked_up_where_they_are() {
    match look_up(&RouteSource::Blob(vec![1, 2]), false) {
        Lookup::Known(blobs) => assert_eq!(blobs, vec![vec![1, 2]]),
        _ => panic!("a pasted blob is known"),
    }
    let key = RouteSource::Rendezvous("key".into());
    assert!(matches!(look_up(&key, true), Lookup::ReadRecord));
    assert!(matches!(look_up(&key, false), Lookup::NeverOpened));
    assert!(matches!(after_import(&vec![vec![1]], 1), Import::Ready));
    assert!(matches!(after_import(&vec![], 0), Import::NonePublished));
    match after_import(&vec![vec![1], vec![2]], 0) {
        Import::Retry(first) => assert_eq!(first, vec![1]),
        _ => panic!("the first is tried again"),
    }
}
