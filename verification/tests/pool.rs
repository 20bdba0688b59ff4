use veilid_vc::incoming::Incoming;
use veilid_vc::names::{candidate, next_name, numbered_name, NameStep, MAX_CANDIDATES};
use veilid_vc::pool::{after_loss, rotate_every, AfterLoss, Entry, Pool, ROTATION_GRACE_US};
use veilid_vc::proto::crc32;
use veilid_vc::receipts::{progress_line, receipt};

fn entry(id: &str, created_us: u64) -> Entry {
    Entry { id: id.to_string(), blob: id.as_bytes().to_vec(), created_us }
}

fn ids(pool: &Pool) -> Vec<String> {
    pool.routes.iter().map(|e| e.id.clone()).collect()
}

#[test]
fn rotation_makes_before_it_breaks() {
    let mut pool = Pool::new(entry("a", 10), 3);
    assert!(pool.wants_more());
    pool.add(entry("b", 5));
    pool.add(entry("c", 7));
    assert!(!pool.wants_more());
    let (gone, fresh) = pool.rotate(entry("d", 20), 25);
    assert_eq!((gone.as_str(), fresh.as_str()), ("b", "d"));
    assert_eq!(ids(&pool), vec!["a", "c", "d"]);
    assert_eq!(pool.blobs(), vec![b"a".to_vec(), b"c".to_vec(), b"d".to_vec()]);
    assert_eq!(pool.oldest_age(30), 23);
    assert!(pool.holds("c"));
    assert!(!pool.holds("b"));
    // Still answered for its grace, then released.
    assert!(pool.reap(25 + ROTATION_GRACE_US - 1).is_empty());
    assert_eq!(pool.reap(25 + ROTATION_GRACE_US), vec!["b"]);
    assert!(pool.reap(u64::MAX).is_empty());
}

#[test]
fn the_foremost_of_equally_old_routes_goes_first() {
    let mut pool = Pool::new(entry("a", 1), 2);
    pool.add(entry("b", 1));
    assert_eq!(pool.rotate(entry("c", 1), 2).0, "a");
    assert_eq!(ids(&pool), vec!["b", "c"]);
}

#[test]
fn only_the_dead_are_dropped() {
    let mut pool = Pool::new(entry("a", 1), 3);
    pool.add(entry("b", 2));
    pool.add(entry("c", 3));
    pool.rotate(entry("d", 4), 5);
    let reported = vec!["x".to_string(), "c".to_string(), "a".to_string()];
    assert_eq!(pool.ours(&reported), vec!["c"]);
    assert_eq!(pool.drop_dead(&reported), 1);
    assert_eq!(ids(&pool), vec!["b", "d"]);
    // "a" was standing down, and is dead as well.
    assert!(pool.reap(u64::MAX).is_empty());
    assert!(pool.wants_more());
}

#[test]
fn a_loss_is_survived_with_a_route_and_a_record() {
    let mut pool = Pool::new(entry("a", 1), 1);
    assert!(after_loss(&pool, true) == AfterLoss::Republish);
    assert!(after_loss(&pool, false) == AfterLoss::StopUnrecorded);
    pool.drop_dead(&vec!["a".to_string()]);
    assert!(after_loss(&pool, true) == AfterLoss::Stop);
    assert_eq!(pool.oldest_age(100), 0);
}

#[test]
fn rotations_are_staggered_over_the_pool() {
    assert_eq!(rotate_every(0, 3), None);
    assert_eq!(rotate_every(600, 3), Some(200));
    assert_eq!(rotate_every(600, 0), Some(600));
    assert_eq!(rotate_every(30, 3), Some(10));
    assert_eq!(rotate_every(60, 8), Some(7));
    assert_eq!(rotate_every(5, 8), Some(1));
}

#[test]
fn a_second_file_gets_a_number() {
    assert_eq!(candidate("cat.png", 0), "cat.png");
    assert_eq!(candidate("cat.png", 1), "cat-1.png");
    assert_eq!(numbered_name("archive.tar.gz", 12), "archive.tar-12.gz");
    assert_eq!(numbered_name("noext", 3), "noext-3");
    assert_eq!(numbered_name(".hidden", 3), ".hidden-3");
    assert_eq!(numbered_name("dot.", 3), "dot-3.");
}

#[test]
fn the_first_free_name_is_taken() {
    let there = ["cat.png", "cat-1.png"];
    let mut attempt = 0;
    let mut tried = candidate("cat.png", 0);
    let free = loop {
        match next_name("cat.png", attempt, there.contains(&tried.as_str())) {
            NameStep::Take(name) => break name,
            NameStep::Try { attempt: next, name } => {
                attempt = next;
                tried = name;
            }
            NameStep::UseClock => panic!("there are names left"),
        }
    };
    assert_eq!((free.as_str(), attempt), ("cat-2.png", 2));
    assert!(matches!(next_name("cat.png", MAX_CANDIDATES - 1, true), NameStep::UseClock));
    assert!(matches!(next_name("cat.png", MAX_CANDIDATES - 1, false), NameStep::Take(_)));
    assert!(matches!(next_name("cat.png", u64::MAX, true), NameStep::UseClock));
}

#[test]
fn a_receipt_says_whether_the_checksum_matches() {
    let mut inc = Incoming::new("cat.png".into(), 3, 2, 2, crc32(b"abc"), 0);
    inc.store(0, b"ab");
    assert_eq!(progress_line(&inc), "  cat.png — 1/2 chunks");
    inc.store(1, b"c");
    inc.first_pass_missing = Some(1);
    let out = receipt(&inc, "inbox/cat.png", &None, "0.5", "0.0", "50.0");
    assert_eq!(
        out,
        "\n-- received cat.png --\n  written to             inbox/cat.png\n  bytes                  3\n  elapsed                0.5s  (0.0 KiB/s)\n  chunks                 2 of 2\n  lost on the first pass 1  (50.0% of chunks)\n  repair rounds          0\n  duplicate chunks       0\n  crc32                  352441c2  matches the sender\n\n"
    );
    inc.crc = 1;
    let bad = receipt(&inc, "inbox/cat.png", &Some("disk full".into()), "0.5", "0.0", "50.0");
    assert!(bad.contains("  COULD NOT WRITE        inbox/cat.png: disk full\n"));
    assert!(bad.contains("  crc32                  352441c2  DOES NOT MATCH sender's 00000001\n\n"));
}

#[test]
fn as_many_rotations_as_routes_replace_them_all() {
    let mut pool = Pool::new(entry("a", 3), 3);
    pool.add(entry("b", 1));
    pool.add(entry("c", 2));
    let gone: Vec<String> =
        [("d", 10), ("e", 11), ("f", 12)].iter().map(|(id, t)| pool.rotate(entry(id, *t), *t).0).collect();
    assert_eq!(gone, vec!["b", "c", "a"]);
    assert_eq!(ids(&pool), vec!["d", "e", "f"]);
}
