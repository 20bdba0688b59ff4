use veilid_vc::social::{
    identity_text, live_seqs, post_if_current, post_value, profile_value, saved_identity, slot_for,
    truncate_chars, Post, Profile, MAX_VALUE_LEN, POST_SLOTS, PROFILE_SUBKEY, WALL_SUBKEYS,
};


#[test]
fn posts_land_in_distinct_ring_slots() {
    let slots: Vec<u32> = (0..POST_SLOTS as u64).map(slot_for).collect();
    let unique: std::collections::HashSet<_> = slots.iter().collect();
    assert_eq!(unique.len(), POST_SLOTS as usize, "a full ring uses every slot once");
    assert!(slots.iter().all(|s| *s != PROFILE_SUBKEY), "posts never overwrite the profile");
    assert!(slots.iter().all(|s| (*s as u16) < WALL_SUBKEYS), "slots stay inside the schema");
}

#[test]
fn the_ring_wraps_onto_itself() {
    assert_eq!(slot_for(0), slot_for(POST_SLOTS as u64));
    assert_eq!(slot_for(1), slot_for(POST_SLOTS as u64 + 1));
}

#[test]
fn live_seqs_are_newest_first_and_bounded_by_the_ring() {
    assert_eq!(live_seqs(0), Vec::<u64>::new());
    assert_eq!(live_seqs(3), vec![2, 1, 0]);
    let many = live_seqs(1000);
    assert_eq!(many.len(), POST_SLOTS as usize, "only a ring's worth survives");
    assert_eq!(many[0], 999, "newest first");
    assert_eq!(*many.last().unwrap(), 1000 - POST_SLOTS as u64);
}

#[test]
fn truncation_counts_characters_not_bytes() {
    // A byte-based cut would split these and produce invalid UTF-8.
    assert_eq!(truncate_chars("héllo wörld", 5).chars().count(), 5);
    assert_eq!(truncate_chars("abc", 99), "abc");
    assert_eq!(truncate_chars("", 5), "");
}

#[test]
fn what_is_too_large_is_not_stored() {
    assert_eq!(profile_value(&vec![0; MAX_VALUE_LEN]), Ok(PROFILE_SUBKEY));
    assert_eq!(
        profile_value(&vec![0; MAX_VALUE_LEN + 1]),
        Err("profile is too large for one DHT value".to_string())
    );
    assert_eq!(post_value(64, &vec![0; 10]), Ok(2));
    assert_eq!(
        post_value(64, &vec![0; MAX_VALUE_LEN + 1]),
        Err("post is too large for one DHT value".to_string())
    );
}

#[test]
fn an_aged_out_post_is_not_mistaken_for_the_one_asked_for() {
    let post = |seq: u64| Post { seq, ts_us: 1, text: "hi".into(), attachment: None };
    assert!(post_if_current(post(64), 1).is_none());
    assert_eq!(post_if_current(post(64), 64).unwrap().text, "hi");
}

#[test]
fn a_saved_identity_is_found_again() {
    let saved = identity_text("VLD0:key", "VLD0:pub:secret");
    assert_eq!(saved, "VLD0:key\nVLD0:pub:secret\n");
    assert_eq!(
        saved_identity(&saved),
        Some(("VLD0:key".to_string(), "VLD0:pub:secret".to_string()))
    );
    assert_eq!(
        saved_identity("k\r\np"),
        Some(("k".to_string(), "p".to_string()))
    );
    assert_eq!(saved_identity("only one line\n"), None);
    assert_eq!(saved_identity(""), None);
}

#[test]
fn a_blank_profile_has_nothing_in_it() {
    let p = Profile::default();
    assert_eq!((p.name.as_str(), p.bio.as_str(), p.next_seq), ("", "", 0));
    assert!(p.routes.is_empty());
}
