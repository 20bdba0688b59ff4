use veilid_vc::foreign::JsonField;
use veilid_vc::node::{
    check_recipient, dm_line, dm_payload, dm_sent, endpoint, follows_text, initial_profile, keep_marked, parse_follows, published,
    read_dm, seqs_to_read, shown_name, Dialled, Dialling, DmFailure, DmStep, Endpoint, FollowedWall, ServeConfig, State, Step, OK_REPLY,
    UNKNOWN_REPLY,
};
use veilid_vc::keys::{check_rendezvous, if_readable, reads_as_key, reads_as_pair, rendezvous_or_reason, usable_identity};
use veilid_vc::proto::Packet;
use veilid_vc::social::{Post, Profile};
use veilid_vc::web::{Query, Request, Response};

fn state() -> State {
    State::new(Profile::default(), vec![], vec![])
}

fn request(method: &str, path: &str, body: &str) -> Request {
    Request {
        method: method.into(),
        path: path.into(),
        query: Query::new(),
        body: body.as_bytes().to_vec(),
    }
}

fn json(r: &Response) -> serde_json::Value {
    serde_json::from_slice(&r.body).unwrap()
}

fn reply(step: Step) -> Response {
    match step {
        Step::Reply(r) => r,
        _ => panic!("not a plain reply"),
    }
}

fn social(reply: &[u8]) -> Vec<u8> {
    match Packet::decode(reply) {
        Some(Packet::Social { json }) => json,
        other => panic!("replied with {other:?}"),
    }
}

#[test]
fn a_private_message_arrives_as_it_was_sent() {
    let mut st = state();
    let wire = dm_payload("VLD0:abc", "ada", "hello \"you\"\n\u{1F600}", 42);
    let answer = st.handle_social(&wire, 99);
    assert_eq!(social(&answer), OK_REPLY.as_bytes());
    assert_eq!(st.inbox.len(), 1);
    let dm = &st.inbox[0];
    assert_eq!((dm.from_key.as_str(), dm.from_name.as_str(), dm.ts_us), ("VLD0:abc", "ada", 42));
    assert_eq!(dm.text, "hello \"you\"\n\u{1F600}");
    assert_eq!(dm_line(dm), "message from ada: hello \"you\"\n\u{1F600}");
}

#[test]
fn a_message_without_its_parts_is_filled_in() {
    let mut st = state();
    let wire = Packet::Social { json: br#"{"t":"dm","from":"k","ts":-1}"#.to_vec() }.encode(0);
    st.handle_social(&wire, 99);
    let dm = &st.inbox[0];
    assert_eq!((dm.from_name.as_str(), dm.text.as_str(), dm.ts_us), ("", "", 99));
    assert_eq!(dm_line(dm), "message from k: ");
}

#[test]
fn anything_else_is_unknown() {
    let mut st = state();
    for wire in [
        b"noise".to_vec(),
        Packet::Status { xfer: 1 }.encode(0),
        Packet::Social { json: b"not json".to_vec() }.encode(0),
        Packet::Social { json: br#"{"t":"poke"}"#.to_vec() }.encode(0),
        Packet::Social { json: br#"{"t":5}"#.to_vec() }.encode(0),
    ] {
        assert_eq!(social(&st.handle_social(&wire, 0)), UNKNOWN_REPLY.as_bytes());
    }
    assert!(st.inbox.is_empty());
    assert!(read_dm(&None, 0).is_none());
    let fields = vec![("t".to_string(), JsonField::Text("dm".into()))];
    assert_eq!(read_dm(&Some(fields), 7).unwrap().ts_us, 7);
}

#[test]
fn a_long_message_is_cut() {
    let mut st = state();
    st.handle_social(&dm_payload("k", "n", &"é".repeat(9000), 1), 0);
    assert_eq!(st.inbox[0].text.chars().count(), 8000);
}

#[test]
fn every_endpoint_is_found() {
    assert!(endpoint("GET", "/") == Endpoint::Page);
    assert!(endpoint("GET", "/api/me") == Endpoint::Me);
    assert!(endpoint("POST", "/api/profile") == Endpoint::SetProfile);
    assert!(endpoint("POST", "/api/post") == Endpoint::AddPost);
    assert!(endpoint("GET", "/api/feed") == Endpoint::Feed);
    assert!(endpoint("GET", "/api/inbox") == Endpoint::Inbox);
    assert!(endpoint("POST", "/api/follow") == Endpoint::Follow);
    assert!(endpoint("POST", "/api/unfollow") == Endpoint::Unfollow);
    assert!(endpoint("POST", "/api/dm") == Endpoint::SendDm);
    assert!(endpoint("get", "/") == Endpoint::Unknown);
    assert!(endpoint("POST", "/api/me") == Endpoint::Unknown);
}

#[test]
fn the_page_and_the_node_are_shown() {
    let mut st = state();
    let page = reply(st.route_request("me", "<html>", &request("GET", "/", ""), 0));
    assert_eq!((page.status, page.content_type), (200, "text/html; charset=utf-8"));
    assert_eq!(page.body, b"<html>");
    st.follows.push("k".into());
    let me = json(&reply(st.route_request("me", "", &request("GET", "/api/me", ""), 0)));
    assert_eq!(me["key"], "me");
    assert_eq!(me["posts"], 0);
    assert_eq!(me["routes"], 0);
    assert_eq!(me["unread"], 0);
    assert_eq!(me["follows"][0], "k");
    let lost = reply(st.route_request("me", "", &request("GET", "/x", ""), 0));
    assert_eq!(lost.status, 404);
    assert!(matches!(st.route_request("me", "", &request("GET", "/api/feed", ""), 0), Step::ShowFeed));
    assert!(matches!(st.route_request("me", "", &request("GET", "/api/inbox", ""), 0), Step::ShowInbox));
}

#[test]
fn a_profile_is_trimmed_and_cut() {
    let mut st = state();
    let body = format!(r#"{{"name":"  {}  ","bio":" b "}}"#, "n".repeat(70));
    assert!(matches!(
        st.route_request("me", "", &request("POST", "/api/profile", &body), 0),
        Step::Publish
    ));
    assert_eq!(st.profile.name, "n".repeat(64));
    assert_eq!(st.profile.bio, "b");
    let shown = st.stamp(5);
    assert_eq!((shown.name.as_str(), shown.updated_us), (st.profile.name.as_str(), 5));
    assert_eq!(st.profile.updated_us, 5);
}

#[test]
fn posts_are_numbered_and_kept_newest_first() {
    let mut st = state();
    for (n, text) in ["one", "two"].iter().enumerate() {
        let body = format!(r#"{{"text":" {text} "}}"#);
        match st.route_request("me", "", &request("POST", "/api/post", &body), 10 + n as u64) {
            Step::PutPost(p) => {
                assert_eq!((p.seq, p.ts_us, p.text.as_str()), (n as u64, 10 + n as u64, *text));
                assert!(p.attachment.is_none());
            }
            _ => panic!("not posted"),
        }
    }
    assert_eq!(st.profile.next_seq, 2);
    assert_eq!(st.posts[0].text, "two");
    let empty = reply(st.route_request("me", "", &request("POST", "/api/post", r#"{"text":"  "}"#), 0));
    assert_eq!((empty.status, json(&empty)["error"].as_str()), (400, Some("a post needs some text")));
    assert_eq!(st.profile.next_seq, 2);
}

#[test]
fn follows_are_checked_and_listed_once() {
    let mut st = state();
    let follow = |st: &mut State, key: &str| {
        let body = format!(r#"{{"key":"{key}"}}"#);
        st.route_request("VLD0:bWU", "", &request("POST", "/api/follow", &body), 0)
    };
    let bad = reply(follow(&mut st, "VLD0:not base64!"));
    assert_eq!(json(&bad)["error"], "that does not look like a node key");
    let own = reply(follow(&mut st, " VLD0:bWU "));
    assert_eq!(json(&own)["error"], "you are already yourself");
    for _ in 0..2 {
        match follow(&mut st, "VLD0:eW91") {
            Step::SaveFollows(r) => assert_eq!(json(&r)["follows"].as_array().unwrap().len(), 1),
            _ => panic!("not followed"),
        }
    }
    assert_eq!(st.follows, vec!["VLD0:eW91"]);
    let body = r#"{"key":"VLD0:eW91"}"#;
    match st.route_request("me", "", &request("POST", "/api/unfollow", body), 0) {
        Step::SaveFollows(r) => assert!(json(&r)["follows"].as_array().unwrap().is_empty()),
        _ => panic!("not unfollowed"),
    }
    assert!(st.follows.is_empty());
}

#[test]
fn a_message_needs_some_text() {
    let mut st = state();
    let empty = reply(st.route_request("me", "", &request("POST", "/api/dm", r#"{"to":"x"}"#), 0));
    assert_eq!(json(&empty)["error"], "a message needs some text");
    let body = r#"{"to":" x ","text":"hi"}"#;
    match st.route_request("me", "", &request("POST", "/api/dm", body), 0) {
        Step::Deliver { to, text } => assert_eq!((to.as_str(), text.as_str()), ("x", "hi")),
        _ => panic!("not delivered"),
    }
}

#[test]
fn outcomes_are_reported() {
    assert_eq!(json(&published(&Ok(()), None)), json(&dm_sent(&Ok(()))));
    let done = json(&published(&Ok(()), Some(3)));
    assert_eq!((done["ok"].as_bool(), done["seq"].as_u64()), (Some(true), Some(3)));
    let failed = published(&Err("no DHT".into()), Some(3));
    assert_eq!((failed.status, json(&failed)["error"].as_str()), (500, Some("no DHT")));
    assert_eq!(dm_sent(&Err("x".into())).status, 400);
    assert_eq!(DmFailure::BadKey.describe(), "that does not look like a node key");
    assert_eq!(DmFailure::NoNode.describe(), "no node is published under that key");
    assert_eq!(
        DmFailure::NoRoutes.describe(),
        "that node has published no route to receive messages on"
    );
    assert_eq!(
        DmFailure::Unreachable("timeout".into()).describe(),
        "could not reach that node on any of its routes: timeout"
    );
}

fn post(seq: u64, ts_us: u64, text: &str) -> Post {
    Post { seq, ts_us, text: text.into(), attachment: None }
}

#[test]
fn a_feed_is_newest_first_and_keeps_ties_in_order() {
    let mut st = state();
    st.profile.name = "me".into();
    st.posts = vec![post(1, 20, "mine"), post(0, 5, "old")];
    let walls = vec![
        FollowedWall {
            key: "VLD0:abcdefghijkl".into(),
            name: String::new(),
            posts: vec![post(3, 20, "tie"), post(2, 30, "new")],
        },
        FollowedWall { key: "k".into(), name: "bob".into(), posts: vec![post(0, 20, "late tie")] },
    ];
    let feed = st.feed("mykey", &walls);
    let texts: Vec<&str> = feed.iter().map(|i| i.post.text.as_str()).collect();
    assert_eq!(texts, vec!["new", "mine", "tie", "late tie", "old"]);
    assert_eq!(feed[0].author_name, "VLD0:abcdefg");
    assert_eq!(feed[1].author_key, "mykey");
    assert_eq!(feed[3].author_name, "bob");
    assert_eq!(shown_name("", "short"), "short");
    assert_eq!(seqs_to_read(100).len(), 20);
    assert_eq!(seqs_to_read(100)[0], 99);
    assert_eq!(seqs_to_read(2), vec![1, 0]);
}

#[test]
fn follows_survive_a_restart() {
    let follows = vec!["VLD0:a".to_string(), "VLD0:b".to_string(), "c d".to_string()];
    assert_eq!(follows_text(&follows), "VLD0:a\nVLD0:b\nc d");
    assert_eq!(parse_follows(&follows_text(&follows)), follows);
    assert_eq!(follows_text(&vec![]), "");
    assert!(parse_follows("").is_empty());
    assert_eq!(parse_follows(" a \r\n\n  \nb"), vec!["a", "b"]);
}

#[test]
fn dead_routes_are_replaced_with_their_blobs() {
    let mut st = state();
    let list = |s: &[&str]| s.iter().map(|x| x.to_string()).collect::<Vec<String>>();
    st.set_routes(list(&["A", "B", "C"]), list(&["a", "b", "c"]));
    assert_eq!(st.ours(&list(&["x", "b"])), vec!["b"]);
    let (ids, blobs) = st.survivors(&list(&["b"]));
    assert_eq!((ids, blobs), (list(&["a", "c"]), list(&["A", "C"])));
    st.set_routes(list(&["A"]), list(&["a", "b"]));
    assert_eq!(st.survivors(&vec![]), (list(&["a"]), list(&["A"])));
}

#[test]
fn a_profile_is_taken_up_again() {
    let old = Profile {
        name: "ada".into(),
        bio: "b".into(),
        routes: vec!["stale".into()],
        next_seq: 7,
        updated_us: 1,
    };
    let p = initial_profile(Some(old), vec!["fresh".into()], 9);
    assert_eq!((p.name.as_str(), p.next_seq, p.updated_us), ("ada", 7, 9));
    assert_eq!(p.routes, vec!["fresh"]);
    let blank = initial_profile(None, vec![], 9);
    assert_eq!((blank.name.as_str(), blank.next_seq), ("", 0));
}

#[test]
fn only_keys_are_read_and_written_to() {
    assert!(check_recipient("VLD0:eW91").is_ok());
    assert!(matches!(check_recipient("VLD0:not base64!"), Err(DmFailure::BadKey)));
    let mut st = state();
    st.follows = vec!["VLD0:eW91".to_string(), "a:b:c:d".to_string(), "VLD0:bWU".to_string()];
    assert_eq!(st.walls_to_read(), vec!["VLD0:eW91", "VLD0:bWU"]);
    assert_eq!(keep_marked(&st.follows, &vec![false, true, false]), vec!["a:b:c:d"]);
}

#[test]
fn every_route_is_dialled_before_giving_up() {
    let mut d = Dialling::new(3);
    assert!(matches!(d.next(), DmStep::Dial(0)));
    assert!(matches!(d.on_dialled(Dialled::Failed("busy".into())), DmStep::Dial(1)));
    assert!(matches!(d.on_dialled(Dialled::NotImported), DmStep::Dial(2)));
    match d.on_dialled(Dialled::NotImported) {
        DmStep::Unreachable(f) => {
            assert_eq!(f.describe(), "could not reach that node on any of its routes: busy")
        }
        _ => panic!("there is no route left"),
    }
    let mut d = Dialling::new(1);
    assert!(matches!(d.on_dialled(Dialled::Delivered), DmStep::Delivered));
    match Dialling::new(0).next() {
        DmStep::Unreachable(f) => assert_eq!(
            f.describe(),
            "could not reach that node on any of its routes: no routes could be imported"
        ),
        _ => panic!("there is no route"),
    }
}

#[test]
fn a_node_wants_at_least_one_route() {
    let cfg = |pool| ServeConfig { port: 1, identity_file: ".".into(), follows_file: ".".into(), pool };
    assert!(cfg(0).wants_more(0));
    assert!(!cfg(0).wants_more(1));
    assert!(cfg(2).wants_more(1));
    assert!(!cfg(2).wants_more(2));
}

#[test]
fn the_last_number_is_not_given_out_but_an_empty_post_is_still_refused() {
    let mut st = state();
    st.profile.next_seq = u64::MAX;
    let post = |text: &str| request("POST", "/api/post", &format!(r#"{{"text":"{text}"}}"#));
    assert!(st.try_request("me", "", &post("hi"), 0).is_none());
    let refused = reply(st.try_request("me", "", &post(" "), 0).unwrap());
    assert_eq!(json(&refused)["error"], "a post needs some text");
    assert!(matches!(st.try_request("me", "", &request("GET", "/api/feed", ""), 0), Some(Step::ShowFeed)));
    st.profile.next_seq = 3;
    assert!(matches!(st.try_request("me", "", &post("hi"), 0), Some(Step::PutPost(_))));
}

#[test]
fn keys_and_pairs_are_checked_before_they_are_used() {
    assert!(reads_as_key("VLD0:eW91"));
    assert!(!reads_as_key("a:b:c:d"));
    assert!(reads_as_pair("VLD0:eW91:bWU"));
    assert!(!reads_as_pair("VLD0:eW91"));
    assert_eq!(check_rendezvous("VLD0:eW91"), Ok(()));
    assert!(check_rendezvous("VLD0:not base64!")
        .unwrap_err()
        .starts_with("that does not look like a rendezvous key: "));
    assert_eq!(
        rendezvous_or_reason(Err("bad".into())),
        Err("that does not look like a rendezvous key: bad".to_string())
    );
    assert_eq!(
        usable_identity("VLD0:eW91\nVLD0:eW91:bWU\n"),
        Some(("VLD0:eW91".to_string(), "VLD0:eW91:bWU".to_string()))
    );
    assert_eq!(usable_identity("VLD0:eW91\nVLD0:eW91\n"), None);
    assert_eq!(usable_identity("a:b:c:d\nVLD0:eW91:bWU\n"), None);
    assert_eq!(usable_identity("VLD0:eW91"), None);
    let kept = |key, pair| if_readable("k".into(), "p".into(), key, pair);
    assert_eq!(kept(true, true), Some(("k".to_string(), "p".to_string())));
    assert_eq!(kept(true, false), None);
    assert_eq!(kept(false, true), None);
}
