//! The running social node: a wall in the DHT, a private route for messages,
//! and a local page to drive both.
//!
//! Everything the node decides is decided here, over the state it keeps. Reading
//! and writing the DHT, the routes and the page's socket are left to the caller.

use std::path::PathBuf;
use vstd::prelude::*;
use vstd::utf8::*;

use crate::bytes::copy_of;
use crate::counting;
use crate::foreign;
use crate::foreign::{json_read, json_write, JsonField, Piece};
use crate::keys;
use crate::keys::reads_as_key;
use crate::proto;
use crate::proto::{Packet, Said};
use crate::social;
use crate::social::{
    live_seqs, truncate_chars, Dm, Entry, Face, FeedItem, Letter, Post, Profile, Words,
    MAX_BIO_CHARS, MAX_NAME_CHARS, MAX_POST_CHARS,
};
use crate::text;
use crate::text::{copy_texts, holds, lines_of, same};
use crate::web;
use crate::web::{number_field, text_field, trimmed_field, Request, Response, Sent};

verus! {

/// How many of a followed wall's posts are read for the feed.
pub const FEED_POSTS: usize = 20;

/// How much of a key stands for someone who has given no name.
pub const KEY_CHARS: usize = 12;

/// What the page is sent as.
pub const PAGE_TYPE: &'static str = "text/html; charset=utf-8";

pub struct ServeConfig {
    pub port: u16,
    pub identity_file: PathBuf,
    pub follows_file: PathBuf,
    pub pool: usize,
}

impl ServeConfig {
    /// Whether more routes are wanted than there are.
    pub fn wants_more(&self, routes: usize) -> (r: bool)
        ensures
            r == (routes < if self.pool > 1 { self.pool } else { 1 }),
    {
        routes < if self.pool > 1 { self.pool } else { 1 }
    }
}

/// What the node keeps.
pub struct State {
    pub profile: Profile,
    /// Our own posts, mirrored locally so the feed does not have to read our
    /// own record back out of the DHT.
    pub posts: Vec<Post>,
    pub follows: Vec<String>,
    pub inbox: Vec<Dm>,
    /// The ids of the live routes, in the order of the profile's blobs.
    pub routes: Vec<String>,
}

/// What the node keeps, over sequences.
pub struct Standing {
    pub profile: Face,
    pub posts: Seq<Words>,
    pub follows: Seq<Seq<char>>,
    pub inbox: Seq<Letter>,
    pub routes: Seq<Seq<char>>,
}

/// What a list of posts says.
pub open spec fn words_of(v: Seq<Post>) -> Seq<Words> {
    v.map_values(|p: Post| p@)
}

/// What a list of private messages says.
pub open spec fn letters(v: Seq<Dm>) -> Seq<Letter> {
    v.map_values(|m: Dm| m@)
}

/// What a feed says.
pub open spec fn entries(v: Seq<FeedItem>) -> Seq<Entry> {
    v.map_values(|i: FeedItem| i@)
}

impl View for State {
    type V = Standing;

    open spec fn view(&self) -> Standing {
        Standing {
            profile: self.profile@,
            posts: words_of(self.posts@),
            follows: text::texts(self.follows@),
            inbox: letters(self.inbox@),
            routes: text::texts(self.routes@),
        }
    }
}

// ---------------------------------------------------------------------------
// starting up
// ---------------------------------------------------------------------------

/// The profile to start with: what is already published of it, with the routes
/// of this run.
pub open spec fn first_profile(
    existing: Option<Face>,
    routes: Seq<Seq<char>>,
    now_us: u64,
) -> Face {
    match existing {
        Some(p) => Face { routes, updated_us: now_us, ..p },
        None => Face {
            name: Seq::empty(),
            bio: Seq::empty(),
            routes,
            next_seq: 0,
            updated_us: now_us,
        },
    }
}

/// The profile to start with.
pub fn initial_profile(existing: Option<Profile>, routes: Vec<String>, now_us: u64) -> (r: Profile)
    ensures
        r@ == first_profile(
            match existing {
                Some(p) => Some(p@),
                None => None,
            },
            text::texts(routes@),
            now_us,
        ),
        existing matches Some(p) ==> r.name@ == p.name@ && r.bio@ == p.bio@ && r.next_seq
            == p.next_seq,
        existing is None ==> r.name@.len() == 0 && r.bio@.len() == 0 && r.next_seq == 0,
        r.routes@ == routes@,
        r.updated_us == now_us,
{
    match existing {
        Some(p) => Profile {
            name: p.name,
            bio: p.bio,
            routes,
            next_seq: p.next_seq,
            updated_us: now_us,
        },
        None => Profile {
            name: String::new(),
            bio: String::new(),
            routes,
            next_seq: 0,
            updated_us: now_us,
        },
    }
}

impl State {
    /// The state to start with.
    pub fn new(profile: Profile, follows: Vec<String>, routes: Vec<String>) -> (r: State)
        ensures
            r@ == (Standing {
                profile: profile@,
                posts: Seq::empty(),
                follows: text::texts(follows@),
                inbox: Seq::empty(),
                routes: text::texts(routes@),
            }),
    {
        let r = State { profile, posts: Vec::new(), follows, inbox: Vec::new(), routes };
        assert(words_of(r.posts@) == Seq::<Words>::empty());
        assert(letters(r.inbox@) == Seq::<Letter>::empty());
        r
    }

    /// The profile as it is to be published now.
    pub fn stamp(&mut self, now_us: u64) -> (r: Profile)
        ensures
            r@ == (Face { updated_us: now_us, ..old(self)@.profile }),
            final(self)@ == (Standing { profile: r@, ..old(self)@ }),
    {
        self.profile.updated_us = now_us;
        Profile {
            name: self.profile.name.as_str().to_owned(),
            bio: self.profile.bio.as_str().to_owned(),
            routes: copy_texts(&self.profile.routes),
            next_seq: self.profile.next_seq,
            updated_us: now_us,
        }
    }

    /// Take on a new set of routes.
    pub fn set_routes(&mut self, blobs: Vec<String>, ids: Vec<String>)
        ensures
            final(self)@ == (Standing {
                profile: Face { routes: text::texts(blobs@), ..old(self)@.profile },
                routes: text::texts(ids@),
                ..old(self)@
            }),
    {
        self.profile.routes = blobs;
        self.routes = ids;
    }

    /// Those of the reported routes that are ours.
    pub fn ours(&self, reported: &Vec<String>) -> (r: Vec<String>)
        ensures
            text::texts(r@) == among(self@.routes, text::texts(reported@)),
            forall|id: Seq<char>| #[trigger]
                text::texts(r@).contains(id) <==> text::texts(reported@).contains(id)
                    && self@.routes.contains(id),
    {
        proof {
            law_ours_are_the_reported_ones_we_have(self@.routes, text::texts(reported@));
        }
        let ghost all = text::texts(reported@);
        let mut out: Vec<String> = Vec::new();
        let mut i: usize = 0;
        assert(all.take(0).len() == 0);
        while i < reported.len()
            invariant
                i <= reported@.len(),
                all == text::texts(reported@),
                text::texts(out@) == among(self@.routes, all.take(i as int)),
            decreases reported@.len() - i,
        {
            let ghost done = text::texts(out@);
            assert(all.take(i + 1).drop_last() == all.take(i as int));
            assert(all.take(i + 1).last() == reported@[i as int]@);
            if holds(&self.routes, reported[i].as_str()) {
                out.push(reported[i].as_str().to_owned());
                assert(text::texts(out@) == done.push(reported@[i as int]@));
            }
            i = i + 1;
        }
        assert(all.take(i as int) == all);
        out
    }

    /// The routes that are not among the dead, as ids and as blobs.
    pub fn survivors(&self, dead: &Vec<String>) -> (r: (Vec<String>, Vec<String>))
        ensures
            text::texts(r.0@) == surviving(self@.routes, self@.profile.routes, text::texts(dead@)).0,
            text::texts(r.1@) == surviving(self@.routes, self@.profile.routes, text::texts(dead@)).1,
    {
        let ghost ids = self@.routes;
        let ghost blobs = self@.profile.routes;
        let ghost gone = text::texts(dead@);
        let n: usize = if self.routes.len() < self.profile.routes.len() {
            self.routes.len()
        } else {
            self.profile.routes.len()
        };
        let mut kept_ids: Vec<String> = Vec::new();
        let mut kept_blobs: Vec<String> = Vec::new();
        let mut i: usize = 0;
        proof {
            assert(text::texts(kept_ids@) == Seq::<Seq<char>>::empty());
            assert(text::texts(kept_blobs@) == Seq::<Seq<char>>::empty());
        }
        while i < n
            invariant
                i <= n,
                n <= self.routes@.len(),
                n <= self.profile.routes@.len(),
                ids == self@.routes,
                blobs == self@.profile.routes,
                gone == text::texts(dead@),
                text::texts(kept_ids@) == surviving(ids.take(i as int), blobs.take(i as int), gone).0,
                text::texts(kept_blobs@) == surviving(
                    ids.take(i as int),
                    blobs.take(i as int),
                    gone,
                ).1,
            decreases n - i,
        {
            let ghost a = text::texts(kept_ids@);
            let ghost b = text::texts(kept_blobs@);
            proof {
                assert(ids.take(i + 1).drop_last() == ids.take(i as int));
                assert(blobs.take(i + 1).drop_last() == blobs.take(i as int));
                assert(ids.take(i + 1).last() == self.routes@[i as int]@);
                assert(blobs.take(i + 1).last() == self.profile.routes@[i as int]@);
            }
            if !holds(dead, self.routes[i].as_str()) {
                kept_ids.push(self.routes[i].as_str().to_owned());
                kept_blobs.push(self.profile.routes[i].as_str().to_owned());
                assert(text::texts(kept_ids@) == a.push(self.routes@[i as int]@));
                assert(text::texts(kept_blobs@) == b.push(self.profile.routes@[i as int]@));
            }
            i = i + 1;
        }
        proof {
            lemma_surviving_pairs(ids, blobs, gone, n as int);
        }
        (kept_ids, kept_blobs)
    }
}

/// Those of the reported routes that are among the known ones.
pub open spec fn among(known: Seq<Seq<char>>, reported: Seq<Seq<char>>) -> Seq<Seq<char>>
    decreases reported.len(),
{
    if reported.len() == 0 {
        Seq::empty()
    } else if known.contains(reported.last()) {
        among(known, reported.drop_last()).push(reported.last())
    } else {
        among(known, reported.drop_last())
    }
}

/// The routes that are not among the dead, as ids and as blobs. An id without a
/// blob, or a blob without an id, does not count.
pub open spec fn surviving(
    ids: Seq<Seq<char>>,
    blobs: Seq<Seq<char>>,
    dead: Seq<Seq<char>>,
) -> (Seq<Seq<char>>, Seq<Seq<char>>)
    decreases ids.len() + blobs.len(),
{
    if ids.len() > blobs.len() {
        surviving(ids.drop_last(), blobs, dead)
    } else if blobs.len() > ids.len() {
        surviving(ids, blobs.drop_last(), dead)
    } else if ids.len() == 0 {
        (Seq::empty(), Seq::empty())
    } else {
        let (a, b) = surviving(ids.drop_last(), blobs.drop_last(), dead);
        if dead.contains(ids.last()) {
            (a, b)
        } else {
            (a.push(ids.last()), b.push(blobs.last()))
        }
    }
}

/// Only what stands in both lists counts.
proof fn lemma_surviving_pairs(
    ids: Seq<Seq<char>>,
    blobs: Seq<Seq<char>>,
    dead: Seq<Seq<char>>,
    n: int,
)
    requires
        n <= ids.len(),
        n <= blobs.len(),
        n == ids.len() || n == blobs.len(),
    ensures
        surviving(ids, blobs, dead) == surviving(ids.take(n), blobs.take(n), dead),
    decreases ids.len() + blobs.len(),
{
    if ids.len() > n {
        lemma_surviving_pairs(ids.drop_last(), blobs, dead, n);
        assert(ids.drop_last().take(n) == ids.take(n));
    } else if blobs.len() > n {
        lemma_surviving_pairs(ids, blobs.drop_last(), dead, n);
        assert(blobs.drop_last().take(n) == blobs.take(n));
    } else {
        assert(ids.take(n) == ids);
        assert(blobs.take(n) == blobs);
    }
}

// ---------------------------------------------------------------------------
// the follows file
// ---------------------------------------------------------------------------

/// The keys that are followed, a line each.
pub open spec fn follow_lines(follows: Seq<Seq<char>>) -> Seq<char>
    decreases follows.len(),
{
    if follows.len() == 0 {
        Seq::empty()
    } else if follows.len() == 1 {
        follows[0]
    } else {
        follow_lines(follows.drop_last()) + "\n"@ + follows.last()
    }
}

/// The lines that say something, without the white space round it.
pub open spec fn told(lines: Seq<Seq<char>>) -> Seq<Seq<char>>
    decreases lines.len(),
{
    if lines.len() == 0 {
        Seq::empty()
    } else if text::trimmed(lines.last()).len() == 0 {
        told(lines.drop_last())
    } else {
        told(lines.drop_last()).push(text::trimmed(lines.last()))
    }
}

/// What is written to the follows file.
pub fn follows_text(follows: &Vec<String>) -> (r: String)
    ensures
        r@ == follow_lines(text::texts(follows@)),
{
    let ghost all = text::texts(follows@);
    let mut out = String::new();
    let mut i: usize = 0;
    assert(all.take(0).len() == 0);
    while i < follows.len()
        invariant
            i <= follows@.len(),
            all == text::texts(follows@),
            out@ == follow_lines(all.take(i as int)),
        decreases follows@.len() - i,
    {
        let ghost more = all.take(i + 1);
        assert(more.drop_last() == all.take(i as int));
        assert(more.last() == follows@[i as int]@);
        if i > 0 {
            out.append("\n");
        } else {
            assert(more[0] == more.last());
            assert(Seq::<char>::empty() + follows@[0]@ == follows@[0]@);
        }
        out.append(follows[i].as_str());
        i = i + 1;
    }
    assert(all.take(i as int) == all);
    out
}

/// What the follows file says.
pub fn parse_follows(saved: &str) -> (r: Vec<String>)
    ensures
        text::texts(r@) == told(text::lines(saved@)),
{
    let lines = lines_of(saved);
    let ghost all = text::texts(lines@);
    let mut out: Vec<String> = Vec::new();
    let mut i: usize = 0;
    assert(all.take(0).len() == 0);
    while i < lines.len()
        invariant
            i <= lines@.len(),
            all == text::texts(lines@),
            text::texts(out@) == told(all.take(i as int)),
        decreases lines@.len() - i,
    {
        let ghost done = text::texts(out@);
        assert(all.take(i + 1).drop_last() == all.take(i as int));
        assert(all.take(i + 1).last() == lines@[i as int]@);
        let key = text::trim(lines[i].as_str());
        if !text::empty(key.as_str()) {
            out.push(key);
            assert(text::texts(out@) == done.push(key@));
        }
        i = i + 1;
    }
    assert(all.take(i as int) == all);
    out
}

// ---------------------------------------------------------------------------
// the feed
// ---------------------------------------------------------------------------

/// What has been read of a wall that is followed.
pub struct FollowedWall {
    pub key: String,
    /// The name in its profile, which may be empty.
    pub name: String,
    pub posts: Vec<Post>,
}

/// What has been read of a wall that is followed, over sequences.
pub struct Seen {
    pub key: Seq<char>,
    pub name: Seq<char>,
    pub posts: Seq<Words>,
}

impl View for FollowedWall {
    type V = Seen;

    open spec fn view(&self) -> Seen {
        Seen { key: self.key@, name: self.name@, posts: words_of(self.posts@) }
    }
}

/// What a list of walls says.
pub open spec fn walls_of(v: Seq<FollowedWall>) -> Seq<Seen> {
    v.map_values(|w: FollowedWall| w@)
}

/// What someone is called: by their name, or by the beginning of their key if
/// they have given none.
pub open spec fn called(name: Seq<char>, key: Seq<char>) -> Seq<char> {
    if name.len() == 0 {
        text::first_chars(key, KEY_CHARS as int)
    } else {
        name
    }
}

/// The posts of one author as items of a feed.
pub open spec fn items_by(key: Seq<char>, name: Seq<char>, posts: Seq<Words>) -> Seq<Entry> {
    posts.map_values(|post: Words| Entry { author_key: key, author_name: name, post })
}

/// The posts of all the walls that are followed, one wall after the other.
pub open spec fn gathered(walls: Seq<Seen>) -> Seq<Entry>
    decreases walls.len(),
{
    if walls.len() == 0 {
        Seq::empty()
    } else {
        let last = walls.last();
        gathered(walls.drop_last()) + items_by(last.key, called(last.name, last.key), last.posts)
    }
}

/// The keys that are marked, in order.
pub open spec fn marked(keys: Seq<Seq<char>>, marks: Seq<bool>) -> Seq<Seq<char>>
    decreases keys.len(),
{
    if keys.len() == 0 {
        keys
    } else if marks[keys.len() - 1] {
        marked(keys.drop_last(), marks).push(keys.last())
    } else {
        marked(keys.drop_last(), marks)
    }
}

/// Which of the texts are record keys.
pub open spec fn readings(keys: Seq<Seq<char>>) -> Seq<bool> {
    keys.map_values(|key: Seq<char>| keys::is_key(key))
}

/// Keep the keys that are marked.
pub fn keep_marked(keys: &Vec<String>, marks: &Vec<bool>) -> (r: Vec<String>)
    requires
        marks@.len() == keys@.len(),
    ensures
        text::texts(r@) == marked(text::texts(keys@), marks@),
{
    let ghost all = text::texts(keys@);
    let mut out: Vec<String> = Vec::new();
    let mut i: usize = 0;
    assert(all.take(0).len() == 0);
    while i < keys.len()
        invariant
            i <= keys@.len(),
            marks@.len() == keys@.len(),
            all == text::texts(keys@),
            text::texts(out@) == marked(all.take(i as int), marks@),
        decreases keys@.len() - i,
    {
        let ghost done = text::texts(out@);
        assert(all.take(i + 1).drop_last() == all.take(i as int));
        assert(all.take(i + 1).last() == keys@[i as int]@);
        if marks[i] {
            out.push(keys[i].as_str().to_owned());
            assert(text::texts(out@) == done.push(keys@[i as int]@));
        }
        i = i + 1;
    }
    assert(all.take(i as int) == all);
    out
}

/// Where an item goes in a feed: behind everything that is no older.
pub open spec fn place_for(feed: Seq<Entry>, ts_us: u64) -> int
    decreases feed.len(),
{
    if feed.len() == 0 || feed.last().post.ts_us >= ts_us {
        feed.len() as int
    } else {
        place_for(feed.drop_last(), ts_us)
    }
}

/// The items in the order of a feed: newest first, and those of one time in the
/// order in which they came.
pub open spec fn newest_first(items: Seq<Entry>) -> Seq<Entry>
    decreases items.len(),
{
    if items.len() == 0 {
        items
    } else {
        let sorted = newest_first(items.drop_last());
        sorted.insert(place_for(sorted, items.last().post.ts_us), items.last())
    }
}

/// Everything that can be seen, newest first.
pub open spec fn feed_of(st: Standing, me: Seq<char>, walls: Seq<Seen>) -> Seq<Entry> {
    newest_first(items_by(me, st.profile.name, st.posts) + gathered(walls))
}

/// What someone is called.
pub fn shown_name(name: &str, key: &str) -> (r: String)
    ensures
        r@ == called(name@, key@),
{
    if text::empty(name) {
        truncate_chars(key, KEY_CHARS)
    } else {
        name.to_owned()
    }
}

/// Which posts of a followed wall are read: the newest that are still there.
pub fn seqs_to_read(next_seq: u64) -> (r: Vec<u64>)
    ensures
        r@ == proto::at_most(social::live(next_seq as int), FEED_POSTS as int),
        r@.len() == if next_seq < 20 { next_seq as int } else { 20 },
        forall|i: int| 0 <= i < r@.len() ==> #[trigger] r@[i] + i + 1 == next_seq,
{
    proof {
        social::law_a_wall_shows_its_newest_posts(next_seq);
    }
    let mut all = live_seqs(next_seq);
    if all.len() > FEED_POSTS {
        all.truncate(FEED_POSTS);
        assert(all@ == social::live(next_seq as int).take(FEED_POSTS as int));
    }
    all
}

/// What is behind the place of an item makes no difference to where it goes.
proof fn lemma_place_from_behind(feed: Seq<Entry>, ts_us: u64, k: int)
    requires
        0 <= k <= feed.len(),
        forall|i: int| k <= i < feed.len() ==> (#[trigger] feed[i]).post.ts_us < ts_us,
    ensures
        place_for(feed, ts_us) == place_for(feed.take(k), ts_us),
    decreases feed.len() - k,
{
    if k < feed.len() {
        let front = feed.drop_last();
        assert(feed[feed.len() - 1].post.ts_us < ts_us);
        assert forall|i: int| k <= i < front.len() implies (#[trigger] front[i]).post.ts_us
            < ts_us by {
            assert(feed[i].post.ts_us < ts_us);
        }
        lemma_place_from_behind(front, ts_us, k);
        assert(front.take(k) == feed.take(k));
    } else {
        assert(feed.take(k) == feed);
    }
}

/// Put one more item into a feed.
fn put_in(feed: &mut Vec<FeedItem>, item: FeedItem)
    ensures
        entries(final(feed)@) == entries(old(feed)@).insert(
            place_for(entries(old(feed)@), item@.post.ts_us),
            item@,
        ),
{
    let ghost all = entries(feed@);
    let ts_us: u64 = item.post.ts_us;
    let mut k: usize = feed.len();
    while k > 0 && feed[k - 1].post.ts_us < ts_us
        invariant
            k <= feed@.len(),
            feed@ == old(feed)@,
            all == entries(feed@),
            forall|i: int| k <= i < all.len() ==> (#[trigger] all[i]).post.ts_us < ts_us,
        decreases k,
    {
        assert(all[k - 1] == feed@[k - 1]@);
        k = k - 1;
    }
    proof {
        lemma_place_from_behind(all, ts_us, k as int);
        if k > 0 {
            assert(all.take(k as int).last() == feed@[k - 1]@);
        }
    }
    feed.insert(k, item);
    assert(entries(feed@) == all.insert(k as int, item@));
}

/// Put the posts of one author into a feed, one after the other.
fn put_all_in(
    feed: &mut Vec<FeedItem>,
    key: &str,
    name: &str,
    posts: &Vec<Post>,
    Ghost(so_far): Ghost<Seq<Entry>>,
)
    requires
        entries(old(feed)@) == newest_first(so_far),
    ensures
        entries(final(feed)@) == newest_first(so_far + items_by(key@, name@, words_of(posts@))),
{
    let ghost more = items_by(key@, name@, words_of(posts@));
    let mut i: usize = 0;
    assert(so_far + more.take(0) == so_far);
    while i < posts.len()
        invariant
            i <= posts@.len(),
            more == items_by(key@, name@, words_of(posts@)),
            entries(feed@) == newest_first(so_far + more.take(i as int)),
        decreases posts@.len() - i,
    {
        let item = FeedItem {
            author_key: key.to_owned(),
            author_name: name.to_owned(),
            post: posts[i].copied(),
        };
        let ghost longer = so_far + more.take(i + 1);
        assert(more[i as int] == item@);
        assert(longer.drop_last() == so_far + more.take(i as int));
        assert(longer.last() == item@);
        put_in(feed, item);
        i = i + 1;
    }
    assert(more.take(i as int) == more);
}

impl State {
    /// The walls to read for the feed: those of the follows that are keys. One
    /// that is none is passed over.
    pub fn walls_to_read(&self) -> (r: Vec<String>)
        ensures
            text::texts(r@) == marked(self@.follows, readings(self@.follows)),
    {
        let mut marks: Vec<bool> = Vec::new();
        let mut i: usize = 0;
        while i < self.follows.len()
            invariant
                i <= self.follows@.len(),
                marks@ == readings(self@.follows).take(i as int),
            decreases self.follows@.len() - i,
        {
            marks.push(reads_as_key(self.follows[i].as_str()));
            assert(self@.follows[i as int] == self.follows@[i as int]@);
            assert(readings(self@.follows).take(i + 1) == readings(self@.follows).take(
                i as int,
            ).push(marks@[i as int]));
            i = i + 1;
        }
        assert(readings(self@.follows).take(i as int) == readings(self@.follows));
        keep_marked(&self.follows, &marks)
    }

    /// Everything we can see, newest first: our own posts and those of the
    /// people we follow.
    pub fn feed(&self, me: &str, walls: &Vec<FollowedWall>) -> (r: Vec<FeedItem>)
        ensures
            entries(r@) == feed_of(self@, me@, walls_of(walls@)),
    {
        let ghost mine = items_by(me@, self@.profile.name, self@.posts);
        let ghost all = walls_of(walls@);
        let mut out: Vec<FeedItem> = Vec::new();
        assert(entries(out@) == newest_first(Seq::<Entry>::empty()));
        put_all_in(
            &mut out,
            me,
            self.profile.name.as_str(),
            &self.posts,
            Ghost(Seq::<Entry>::empty()),
        );
        assert(Seq::<Entry>::empty() + mine == mine);
        let mut i: usize = 0;
        assert(all.take(0).len() == 0);
        assert(mine + gathered(all.take(0)) == mine);
        while i < walls.len()
            invariant
                i <= walls@.len(),
                all == walls_of(walls@),
                entries(out@) == newest_first(mine + gathered(all.take(i as int))),
            decreases walls@.len() - i,
        {
            let name = shown_name(walls[i].name.as_str(), walls[i].key.as_str());
            let ghost before = mine + gathered(all.take(i as int));
            let ghost this = walls@[i as int]@;
            assert(all.take(i + 1).drop_last() == all.take(i as int));
            assert(all.take(i + 1).last() == this);
            put_all_in(
                &mut out,
                walls[i].key.as_str(),
                name.as_str(),
                &walls[i].posts,
                Ghost(before),
            );
            assert(before + items_by(this.key, name@, this.posts) == mine + gathered(
                all.take(i + 1),
            ));
            i = i + 1;
        }
        assert(all.take(i as int) == all);
        out
    }
}

// ---------------------------------------------------------------------------
// private messages
// ---------------------------------------------------------------------------

/// What a private message is sent as.
pub open spec fn dm_fields(
    me: Seq<char>,
    name: Seq<char>,
    text: Seq<char>,
    ts_us: u64,
) -> Seq<(Seq<char>, Piece)> {
    seq![
        ("t"@, Piece::Text("dm"@)),
        ("from"@, Piece::Text(me)),
        ("name"@, Piece::Text(name)),
        ("text"@, Piece::Text(text)),
        ("ts"@, Piece::Uint(ts_us)),
    ]
}

/// A private message, ready to go out. Its JSON says what `dm_fields` lists.
pub fn dm_payload(me: &str, name: &str, text: &str, ts_us: u64) -> (r: Vec<u8>)
    ensures
        ({
            let json = foreign::json_bytes(dm_fields(me@, name@, text@, ts_us));
            &&& r@ == proto::on_wire(Said::Social { json }, 0)
            &&& foreign::json_object(json) == Some(
                foreign::by_name(dm_fields(me@, name@, text@, ts_us)),
            )
        }),
{
    let mut fields: Vec<(String, JsonField)> = Vec::new();
    fields.push(("t".to_owned(), JsonField::Text("dm".to_owned())));
    fields.push(("from".to_owned(), JsonField::Text(me.to_owned())));
    fields.push(("name".to_owned(), JsonField::Text(name.to_owned())));
    fields.push(("text".to_owned(), JsonField::Text(text.to_owned())));
    fields.push(("ts".to_owned(), JsonField::Uint(ts_us)));
    assert(foreign::pieces(fields@) == dm_fields(me@, name@, text@, ts_us));
    let json = json_write(fields);
    Packet::Social { json }.encode(0)
}

/// A text, or nothing.
pub open spec fn or_empty(s: Option<Seq<char>>) -> Seq<char> {
    match s {
        Some(t) => t,
        None => Seq::empty(),
    }
}

/// The private message in a JSON object, if it is one. Without a time of its
/// own it is taken to be from now.
pub open spec fn letter_in(object: Option<Map<Seq<char>, Piece>>, now_us: u64) -> Option<Letter> {
    if web::text_piece(object, "t"@) == Some("dm"@) {
        Some(
            Letter {
                from_key: or_empty(web::text_piece(object, "from"@)),
                from_name: or_empty(web::text_piece(object, "name"@)),
                ts_us: match web::number_piece(object, "ts"@) {
                    Some(t) => t,
                    None => now_us,
                },
                text: text::first_chars(
                    or_empty(web::text_piece(object, "text"@)),
                    MAX_POST_CHARS as int,
                ),
            },
        )
    } else {
        None
    }
}

/// A text field, or nothing.
fn text_or_empty(read: &Option<Vec<(String, JsonField)>>, name: &str) -> (r: String)
    ensures
        r@ == or_empty(web::text_piece(web::object_in(*read), name@)),
{
    match text_field(read, name) {
        Some(s) => s,
        None => String::new(),
    }
}

/// The private message in a JSON object, if it is one.
pub fn read_dm(read: &Option<Vec<(String, JsonField)>>, now_us: u64) -> (r: Option<Dm>)
    ensures
        match r {
            None => letter_in(web::object_in(*read), now_us) is None,
            Some(dm) => letter_in(web::object_in(*read), now_us) == Some(dm@),
        },
{
    let is_dm = match text_field(read, "t") {
        Some(kind) => same(kind.as_str(), "dm"),
        None => false,
    };
    if !is_dm {
        return None;
    }
    let body = text_or_empty(read, "text");
    Some(
        Dm {
            from_key: text_or_empty(read, "from"),
            from_name: text_or_empty(read, "name"),
            ts_us: match number_field(read, "ts") {
                Some(t) => t,
                None => now_us,
            },
            text: truncate_chars(body.as_str(), MAX_POST_CHARS),
        },
    )
}

/// The reply to a message that is not understood.
pub const UNKNOWN_REPLY: &'static str = "{\"t\":\"unknown\"}";

/// The reply to a message that has been taken in.
pub const OK_REPLY: &'static str = "{\"t\":\"ok\"}";

/// A reply, as it goes on the wire.
pub open spec fn social_reply(json: Seq<char>) -> Seq<u8> {
    proto::on_wire(Said::Social { json: encode_utf8(json) }, 0)
}

/// A reply, as it goes on the wire.
fn reply_with(json: &str) -> (r: Vec<u8>)
    ensures
        r@ == social_reply(json@),
{
    let raw = json.as_bytes();
    let whole = copy_of(raw, 0, raw.len());
    assert(whole@ == raw@);
    Packet::Social { json: whole }.encode(0)
}

/// The private message in a call, if it is one.
pub open spec fn letter_heard(message: Seq<u8>, now_us: u64) -> Option<Letter> {
    match proto::heard(message) {
        Some(Said::Social { json }) => letter_in(foreign::json_object(json), now_us),
        _ => None,
    }
}

impl State {
    /// Take in a message that has been read, or find that it is none. Returns
    /// the reply.
    pub fn take_dm(&mut self, dm: Option<Dm>) -> (r: Vec<u8>)
        ensures
            match dm {
                Some(m) => {
                    &&& final(self)@ == (Standing {
                        inbox: old(self)@.inbox.push(m@),
                        ..old(self)@
                    })
                    &&& r@ == social_reply(OK_REPLY@)
                },
                None => final(self)@ == old(self)@ && r@ == social_reply(UNKNOWN_REPLY@),
            },
    {
        match dm {
            Some(m) => {
                self.inbox.push(m);
                assert(letters(self.inbox@) == letters(old(self).inbox@).push(m@));
                reply_with(OK_REPLY)
            },
            None => reply_with(UNKNOWN_REPLY),
        }
    }

    /// Answer an inbound social message. Only direct messages for now; the kind
    /// is carried in the JSON so more can be added without a wire change.
    pub fn handle_social(&mut self, message: &[u8], now_us: u64) -> (r: Vec<u8>)
        ensures
            match letter_heard(message@, now_us) {
                Some(letter) => {
                    &&& final(self)@ == (Standing {
                        inbox: old(self)@.inbox.push(letter),
                        ..old(self)@
                    })
                    &&& r@ == social_reply(OK_REPLY@)
                },
                None => final(self)@ == old(self)@ && r@ == social_reply(UNKNOWN_REPLY@),
            },
    {
        let dm = match Packet::decode(message) {
            Some(Packet::Social { json }) => read_dm(&json_read(json.as_slice()), now_us),
            _ => None,
        };
        self.take_dm(dm)
    }
}

/// What is shown of a private message that has come in.
pub fn dm_line(dm: &Dm) -> (r: String)
    ensures
        r@ == Seq::<char>::empty() + "message from "@ + (if dm.from_name@.len() == 0 {
            dm.from_key@
        } else {
            dm.from_name@
        }) + ": "@ + dm.text@,
{
    let mut out = String::new();
    out.append("message from ");
    if text::empty(dm.from_name.as_str()) {
        out.append(dm.from_key.as_str());
    } else {
        out.append(dm.from_name.as_str());
    }
    out.append(": ");
    out.append(dm.text.as_str());
    out
}

/// Why a private message could not be sent.
pub enum DmFailure {
    /// The text is no key.
    BadKey,
    /// A key that reads well can still be nonsense.
    NoNode,
    /// The peer has published no routes.
    NoRoutes,
    /// None of the peer's routes answered; this is what the last one said.
    Unreachable(String),
}

/// What is said of a private message that could not be sent.
pub open spec fn dm_failure_text(f: DmFailure) -> Seq<char> {
    match f {
        DmFailure::BadKey => "that does not look like a node key"@,
        DmFailure::NoNode => "no node is published under that key"@,
        DmFailure::NoRoutes => "that node has published no route to receive messages on"@,
        DmFailure::Unreachable(last) => Seq::<char>::empty()
            + "could not reach that node on any of its routes: "@ + last@,
    }
}

/// Check whom a private message is for, before anything is sent.
pub fn check_recipient(to: &str) -> (r: Result<(), DmFailure>)
    ensures
        match r {
            Ok(_) => keys::is_key(to@),
            Err(f) => !keys::is_key(to@) && f is BadKey,
        },
{
    if reads_as_key(to) {
        Ok(())
    } else {
        Err(DmFailure::BadKey)
    }
}

/// What the last route said when no route could even be tried.
pub const NOTHING_IMPORTED: &'static str = "no routes could be imported";

/// How dialling one of the peer's routes came out.
pub enum Dialled {
    /// The route could not be imported.
    NotImported,
    /// The peer has answered.
    Delivered,
    /// The call failed, and this is what was said.
    Failed(String),
}

/// What is done next about a private message.
pub enum DmStep {
    /// It is there.
    Delivered,
    /// Dial this one of the peer's routes.
    Dial(usize),
    /// There is no route left to dial.
    Unreachable(DmFailure),
}

/// How far a private message has come through the peer's routes. Each is tried
/// before giving up: the peer publishes spares precisely so a dead one costs
/// nothing.
pub struct Dialling {
    /// How many routes there are.
    pub routes: usize,
    /// How many of them have been tried.
    pub tried: usize,
    /// What the last call that failed said.
    pub last: String,
}

/// Whether this is the step from where a message has come to.
pub open spec fn is_next_step(step: DmStep, routes: usize, tried: int, last: Seq<char>) -> bool {
    if tried < routes {
        step matches DmStep::Dial(k) && k == tried
    } else {
        step matches DmStep::Unreachable(f) && f matches DmFailure::Unreachable(why) && why@ == last
    }
}

/// What is said of a message that did not get through: what the last call that
/// failed said, or that no route could be imported.
pub open spec fn last_said(outcomes: Seq<Dialled>) -> Seq<char>
    decreases outcomes.len(),
{
    if outcomes.len() == 0 {
        NOTHING_IMPORTED@
    } else {
        match outcomes.last() {
            Dialled::Failed(why) => why@,
            _ => last_said(outcomes.drop_last()),
        }
    }
}

/// A message gives up once each of the routes has been dialled, and not before,
/// and says what the last failure among them said.
pub proof fn law_every_route_is_dialled_before_giving_up(
    d: Dialling,
    outcomes: Seq<Dialled>,
    step: DmStep,
)
    requires
        d.has_seen(outcomes),
        is_next_step(step, d.routes, d.tried as int, d.last@),
    ensures
        step is Unreachable <==> outcomes.len() >= d.routes,
        step matches DmStep::Dial(k) ==> k == outcomes.len(),
        step matches DmStep::Unreachable(f) ==> (f matches DmFailure::Unreachable(why) && why@
            == last_said(outcomes)),
{
}

impl Dialling {
    /// Whether these are the outcomes so far, one for each route from the first.
    pub open spec fn has_seen(self, outcomes: Seq<Dialled>) -> bool {
        &&& self.tried == outcomes.len()
        &&& self.last@ == last_said(outcomes)
    }

    /// A message that no route has been tried for.
    pub fn new(routes: usize) -> (r: Dialling)
        ensures
            r.has_seen(Seq::empty()),
            r.routes == routes,
            r.tried == 0,
            r.last@ == NOTHING_IMPORTED@,
    {
        Dialling { routes, tried: 0, last: NOTHING_IMPORTED.to_owned() }
    }

    /// What is done next.
    pub fn next(&self) -> (r: DmStep)
        ensures
            is_next_step(r, self.routes, self.tried as int, self.last@),
    {
        if self.tried < self.routes {
            DmStep::Dial(self.tried)
        } else {
            DmStep::Unreachable(DmFailure::Unreachable(self.last.as_str().to_owned()))
        }
    }

    /// A route has been dialled. Returns what is done next. A route that cannot
    /// be imported says nothing that would be worth passing on.
    pub fn on_dialled(&mut self, outcome: Dialled) -> (r: DmStep)
        requires
            old(self).tried < old(self).routes,
        ensures
            forall|before: Seq<Dialled>| #[trigger]
                old(self).has_seen(before) ==> final(self).has_seen(before.push(outcome)),
            final(self).routes == old(self).routes,
            final(self).tried == old(self).tried + 1,
            final(self).last@ == (match outcome {
                Dialled::Failed(why) => why@,
                _ => old(self).last@,
            }),
            match outcome {
                Dialled::Delivered => r is Delivered,
                _ => is_next_step(
                    r,
                    final(self).routes,
                    final(self).tried as int,
                    final(self).last@,
                ),
            },
    {
        assert forall|before: Seq<Dialled>| #[trigger] self.has_seen(before) implies last_said(
            before.push(outcome),
        ) == (match outcome {
            Dialled::Failed(why) => why@,
            _ => self.last@,
        }) by {
            assert(before.push(outcome).drop_last() == before);
        }
        self.tried = self.tried + 1;
        match outcome {
            Dialled::Delivered => DmStep::Delivered,
            Dialled::NotImported => self.next(),
            Dialled::Failed(why) => {
                self.last = why;
                self.next()
            },
        }
    }
}

impl DmFailure {
    /// What is said of a private message that could not be sent.
    pub fn describe(&self) -> (r: String)
        ensures
            r@ == dm_failure_text(*self),
    {
        match self {
            DmFailure::BadKey => "that does not look like a node key".to_owned(),
            DmFailure::NoNode => "no node is published under that key".to_owned(),
            DmFailure::NoRoutes =>
                "that node has published no route to receive messages on".to_owned(),
            DmFailure::Unreachable(last) => {
                let mut out = String::new();
                out.append("could not reach that node on any of its routes: ");
                out.append(last.as_str());
                out
            },
        }
    }
}

// ---------------------------------------------------------------------------
// the page's requests
// ---------------------------------------------------------------------------

/// What the page can ask for.
#[derive(Clone, Copy, PartialEq, Eq, Structural)]
pub enum Endpoint {
    Page,
    Me,
    SetProfile,
    AddPost,
    Feed,
    Inbox,
    Follow,
    Unfollow,
    SendDm,
    Unknown,
}

/// What a request asks for.
pub open spec fn endpoint_of(method: Seq<char>, path: Seq<char>) -> Endpoint {
    if method == "GET"@ && path == "/"@ {
        Endpoint::Page
    } else if method == "GET"@ && path == "/api/me"@ {
        Endpoint::Me
    } else if method == "POST"@ && path == "/api/profile"@ {
        Endpoint::SetProfile
    } else if method == "POST"@ && path == "/api/post"@ {
        Endpoint::AddPost
    } else if method == "GET"@ && path == "/api/feed"@ {
        Endpoint::Feed
    } else if method == "GET"@ && path == "/api/inbox"@ {
        Endpoint::Inbox
    } else if method == "POST"@ && path == "/api/follow"@ {
        Endpoint::Follow
    } else if method == "POST"@ && path == "/api/unfollow"@ {
        Endpoint::Unfollow
    } else if method == "POST"@ && path == "/api/dm"@ {
        Endpoint::SendDm
    } else {
        Endpoint::Unknown
    }
}

/// What a request asks for.
pub fn endpoint(method: &str, path: &str) -> (r: Endpoint)
    ensures
        r == endpoint_of(method@, path@),
{
    let get = same(method, "GET");
    let post = same(method, "POST");
    if get && same(path, "/") {
        Endpoint::Page
    } else if get && same(path, "/api/me") {
        Endpoint::Me
    } else if post && same(path, "/api/profile") {
        Endpoint::SetProfile
    } else if post && same(path, "/api/post") {
        Endpoint::AddPost
    } else if get && same(path, "/api/feed") {
        Endpoint::Feed
    } else if get && same(path, "/api/inbox") {
        Endpoint::Inbox
    } else if post && same(path, "/api/follow") {
        Endpoint::Follow
    } else if post && same(path, "/api/unfollow") {
        Endpoint::Unfollow
    } else if post && same(path, "/api/dm") {
        Endpoint::SendDm
    } else {
        Endpoint::Unknown
    }
}

/// What is to be done about a request.
pub enum Step {
    /// Nothing but this reply.
    Reply(Response),
    /// Publish the profile, and reply with how that went.
    Publish,
    /// Put the post into the record, then publish the profile, and reply with
    /// how that went. The post goes in first: a profile advertising a post that
    /// is not there yet reads as a gap to anyone refreshing at that moment.
    PutPost(Post),
    /// Reply with the feed.
    ShowFeed,
    /// Reply with the inbox.
    ShowInbox,
    /// Save the follows, and reply with this.
    SaveFollows(Response),
    /// Send the private message, and reply with how that went.
    Deliver { to: String, text: String },
}

/// What is to be done about a request, over sequences.
pub enum Deed {
    Reply(Sent),
    Publish,
    PutPost(Words),
    ShowFeed,
    ShowInbox,
    SaveFollows(Sent),
    Deliver { to: Seq<char>, text: Seq<char> },
}

impl View for Step {
    type V = Deed;

    open spec fn view(&self) -> Deed {
        match *self {
            Step::Reply(r) => Deed::Reply(r@),
            Step::Publish => Deed::Publish,
            Step::PutPost(p) => Deed::PutPost(p@),
            Step::ShowFeed => Deed::ShowFeed,
            Step::ShowInbox => Deed::ShowInbox,
            Step::SaveFollows(r) => Deed::SaveFollows(r@),
            Step::Deliver { to, text } => Deed::Deliver { to: to@, text: text@ },
        }
    }
}

/// What the page is told about this node.
pub open spec fn me_fields(st: Standing, me: Seq<char>) -> Seq<(Seq<char>, Piece)> {
    seq![
        ("key"@, Piece::Text(me)),
        ("name"@, Piece::Text(st.profile.name)),
        ("bio"@, Piece::Text(st.profile.bio)),
        ("posts"@, Piece::Uint(st.profile.next_seq)),
        ("routes"@, Piece::Uint(st.profile.routes.len() as u64)),
        ("follows"@, Piece::Texts(st.follows)),
        ("unread"@, Piece::Uint(st.inbox.len() as u64)),
    ]
}

/// What the page is told about the follows.
pub open spec fn follows_fields(follows: Seq<Seq<char>>) -> Seq<(Seq<char>, Piece)> {
    seq![("follows"@, Piece::Texts(follows))]
}

/// The follows with one more, which may be there already.
pub open spec fn with_follow(follows: Seq<Seq<char>>, key: Seq<char>) -> Seq<Seq<char>> {
    if follows.contains(key) {
        follows
    } else {
        follows.push(key)
    }
}

/// The follows without one.
pub open spec fn without_follow(follows: Seq<Seq<char>>, key: Seq<char>) -> Seq<Seq<char>>
    decreases follows.len(),
{
    if follows.len() == 0 {
        follows
    } else if follows.last() == key {
        without_follow(follows.drop_last(), key)
    } else {
        without_follow(follows.drop_last(), key).push(follows.last())
    }
}

/// A field of the body, cut to what is kept of it.
pub open spec fn kept_field(
    object: Option<Map<Seq<char>, Piece>>,
    name: Seq<char>,
    max: usize,
) -> Seq<char> {
    text::first_chars(web::field_of(object, name), max as int)
}

/// What is to be done about a request, and the state afterwards. `object` is the
/// body, and `key_reads` says whether its key is one.
pub open spec fn acted(
    st: Standing,
    me: Seq<char>,
    page: Seq<char>,
    endpoint: Endpoint,
    object: Option<Map<Seq<char>, Piece>>,
    key_reads: bool,
    now_us: u64,
) -> (Deed, Standing) {
    match endpoint {
        Endpoint::Page => (Deed::Reply(web::asset_reply(PAGE_TYPE@, page)), st),
        Endpoint::Me => (Deed::Reply(web::json_reply(me_fields(st, me))), st),
        Endpoint::SetProfile => {
            let profile = Face {
                name: kept_field(object, "name"@, MAX_NAME_CHARS),
                bio: kept_field(object, "bio"@, MAX_BIO_CHARS),
                ..st.profile
            };
            (Deed::Publish, Standing { profile, ..st })
        },
        Endpoint::AddPost => {
            let text = kept_field(object, "text"@, MAX_POST_CHARS);
            if text.len() == 0 {
                (Deed::Reply(web::error_reply(400, "a post needs some text"@)), st)
            } else {
                let post = Words { seq: st.profile.next_seq, ts_us: now_us, text, attachment: None };
                let profile = Face { next_seq: (st.profile.next_seq + 1) as u64, ..st.profile };
                (
                    Deed::PutPost(post),
                    Standing { profile, posts: seq![post] + st.posts, ..st },
                )
            }
        },
        Endpoint::Feed => (Deed::ShowFeed, st),
        Endpoint::Inbox => (Deed::ShowInbox, st),
        Endpoint::Follow => {
            let key = web::field_of(object, "key"@);
            if !key_reads {
                (Deed::Reply(web::error_reply(400, "that does not look like a node key"@)), st)
            } else if key == me {
                (Deed::Reply(web::error_reply(400, "you are already yourself"@)), st)
            } else {
                let follows = with_follow(st.follows, key);
                (
                    Deed::SaveFollows(web::json_reply(follows_fields(follows))),
                    Standing { follows, ..st },
                )
            }
        },
        Endpoint::Unfollow => {
            let follows = without_follow(st.follows, web::field_of(object, "key"@));
            (
                Deed::SaveFollows(web::json_reply(follows_fields(follows))),
                Standing { follows, ..st },
            )
        },
        Endpoint::SendDm => {
            let text = kept_field(object, "text"@, MAX_POST_CHARS);
            if text.len() == 0 {
                (Deed::Reply(web::error_reply(400, "a message needs some text"@)), st)
            } else {
                (Deed::Deliver { to: web::field_of(object, "to"@), text }, st)
            }
        },
        Endpoint::Unknown => (Deed::Reply(web::error_reply(404, "no such endpoint"@)), st),
    }
}

/// A field of the body, cut to what is kept of it.
fn cut_field(read: &Option<Vec<(String, JsonField)>>, name: &str, max: usize) -> (r: String)
    ensures
        r@ == kept_field(web::object_in(*read), name@, max),
{
    let whole = trimmed_field(read, name);
    truncate_chars(whole.as_str(), max)
}

/// The reply that lists the follows.
fn follows_response(follows: &Vec<String>) -> (r: Response)
    ensures
        r@ == web::json_reply(follows_fields(text::texts(follows@))),
{
    let mut fields: Vec<(String, JsonField)> = Vec::new();
    fields.push(("follows".to_owned(), JsonField::Texts(copy_texts(follows))));
    assert(foreign::pieces(fields@) == follows_fields(text::texts(follows@)));
    Response::json(fields)
}

impl State {
    /// The reply that tells the page about this node.
    fn me_response(&self, me: &str) -> (r: Response)
        ensures
            r@ == web::json_reply(me_fields(self@, me@)),
    {
        let mut fields: Vec<(String, JsonField)> = Vec::new();
        fields.push(("key".to_owned(), JsonField::Text(me.to_owned())));
        fields.push(("name".to_owned(), JsonField::Text(self.profile.name.as_str().to_owned())));
        fields.push(("bio".to_owned(), JsonField::Text(self.profile.bio.as_str().to_owned())));
        fields.push(("posts".to_owned(), JsonField::Uint(self.profile.next_seq)));
        fields.push(("routes".to_owned(), JsonField::Uint(self.profile.routes.len() as u64)));
        fields.push(("follows".to_owned(), JsonField::Texts(copy_texts(&self.follows))));
        fields.push(("unread".to_owned(), JsonField::Uint(self.inbox.len() as u64)));
        assert(foreign::pieces(fields@) == me_fields(self@, me@));
        Response::json(fields)
    }

    /// Stop following a key.
    fn unfollow(&mut self, key: &str)
        ensures
            final(self)@ == (Standing {
                follows: without_follow(old(self)@.follows, key@),
                ..old(self)@
            }),
    {
        let ghost all = text::texts(self.follows@);
        let mut kept: Vec<String> = Vec::new();
        let mut i: usize = 0;
        assert(all.take(0).len() == 0);
        while i < self.follows.len()
            invariant
                i <= self.follows@.len(),
                *self == *old(self),
                all == text::texts(self.follows@),
                text::texts(kept@) == without_follow(all.take(i as int), key@),
            decreases self.follows@.len() - i,
        {
            let ghost done = text::texts(kept@);
            assert(all.take(i + 1).drop_last() == all.take(i as int));
            assert(all.take(i + 1).last() == self.follows@[i as int]@);
            if !same(self.follows[i].as_str(), key) {
                kept.push(self.follows[i].as_str().to_owned());
                assert(text::texts(kept@) == done.push(self.follows@[i as int]@));
            }
            i = i + 1;
        }
        assert(all.take(i as int) == all);
        self.follows = kept;
    }

    /// Start following a key, unless that is done already.
    fn follow(&mut self, key: String)
        ensures
            final(self)@ == (Standing {
                follows: with_follow(old(self)@.follows, key@),
                ..old(self)@
            }),
    {
        if !holds(&self.follows, key.as_str()) {
            self.follows.push(key);
            assert(text::texts(self.follows@) == text::texts(old(self).follows@).push(key@));
        }
    }

    /// Take on a new post.
    fn add_post(&mut self, text: String, now_us: u64) -> (r: Post)
        requires
            old(self)@.profile.next_seq < u64::MAX,
        ensures
            ({
                let st = old(self)@;
                let post = Words {
                    seq: st.profile.next_seq,
                    ts_us: now_us,
                    text: text@,
                    attachment: None,
                };
                &&& r@ == post
                &&& final(self)@ == (Standing {
                    profile: Face { next_seq: (st.profile.next_seq + 1) as u64, ..st.profile },
                    posts: seq![post] + st.posts,
                    ..st
                })
            }),
    {
        let post = Post { seq: self.profile.next_seq, ts_us: now_us, text, attachment: None };
        let copy = post.copied();
        self.profile.next_seq = self.profile.next_seq + 1;
        self.posts.insert(0, post);
        assert(words_of(self.posts@) == seq![post@] + words_of(old(self).posts@));
        copy
    }

    /// Decide what is to be done about a request that has been read.
    pub fn act_on(
        &mut self,
        me: &str,
        page: &str,
        endpoint: Endpoint,
        object: &Option<Vec<(String, JsonField)>>,
        key_reads: bool,
        now_us: u64,
    ) -> (r: Step)
        requires
            endpoint == Endpoint::AddPost && kept_field(
                web::object_in(*object),
                "text"@,
                MAX_POST_CHARS,
            ).len() > 0 ==> old(self)@.profile.next_seq < u64::MAX,
        ensures
            (r@, final(self)@) == acted(
                old(self)@,
                me@,
                page@,
                endpoint,
                web::object_in(*object),
                key_reads,
                now_us,
            ),
    {
        match endpoint {
            Endpoint::Page => Step::Reply(Response::asset(PAGE_TYPE, page)),
            Endpoint::Me => Step::Reply(self.me_response(me)),
            Endpoint::SetProfile => {
                self.profile.name = cut_field(object, "name", MAX_NAME_CHARS);
                self.profile.bio = cut_field(object, "bio", MAX_BIO_CHARS);
                Step::Publish
            },
            Endpoint::AddPost => {
                let text = cut_field(object, "text", MAX_POST_CHARS);
                if text::empty(text.as_str()) {
                    Step::Reply(Response::error(400, "a post needs some text"))
                } else {
                    Step::PutPost(self.add_post(text, now_us))
                }
            },
            Endpoint::Feed => Step::ShowFeed,
            Endpoint::Inbox => Step::ShowInbox,
            Endpoint::Follow => {
                let key = trimmed_field(object, "key");
                if !key_reads {
                    Step::Reply(Response::error(400, "that does not look like a node key"))
                } else if same(key.as_str(), me) {
                    Step::Reply(Response::error(400, "you are already yourself"))
                } else {
                    self.follow(key);
                    Step::SaveFollows(follows_response(&self.follows))
                }
            },
            Endpoint::Unfollow => {
                let key = trimmed_field(object, "key");
                self.unfollow(key.as_str());
                Step::SaveFollows(follows_response(&self.follows))
            },
            Endpoint::SendDm => {
                let text = cut_field(object, "text", MAX_POST_CHARS);
                if text::empty(text.as_str()) {
                    Step::Reply(Response::error(400, "a message needs some text"))
                } else {
                    Step::Deliver { to: trimmed_field(object, "to"), text }
                }
            },
            Endpoint::Unknown => Step::Reply(Response::error(404, "no such endpoint")),
        }
    }

    /// Decide what is to be done about a request.
    pub fn route_request(&mut self, me: &str, page: &str, req: &Request, now_us: u64) -> (r: Step)
        requires
            !overfull(old(self)@, *req),
        ensures
            ({
                let object = foreign::json_object(req.body@);
                (r@, final(self)@) == acted(
                    old(self)@,
                    me@,
                    page@,
                    endpoint_of(req.method@, req.path@),
                    object,
                    keys::is_key(web::field_of(object, "key"@)),
                    now_us,
                )
            }),
    {
        let object = req.json();
        let key = trimmed_field(&object, "key");
        let key_reads = reads_as_key(key.as_str());
        let asked = endpoint(req.method.as_str(), req.path.as_str());
        self.act_on(me, page, asked, &object, key_reads, now_us)
    }

    /// Decide what is to be done about a request, unless it is one for a post
    /// that there is no number left for. Then there is nothing to decide, and the
    /// state is as it was.
    pub fn try_request(&mut self, me: &str, page: &str, req: &Request, now_us: u64) -> (r: Option<
        Step,
    >)
        ensures
            overfull(old(self)@, *req) ==> r is None && final(self)@ == old(self)@,
            !overfull(old(self)@, *req) ==> ({
                let object = foreign::json_object(req.body@);
                &&& r is Some
                &&& (r->Some_0@, final(self)@) == acted(
                    old(self)@,
                    me@,
                    page@,
                    endpoint_of(req.method@, req.path@),
                    object,
                    keys::is_key(web::field_of(object, "key"@)),
                    now_us,
                )
            }),
    {
        if endpoint(req.method.as_str(), req.path.as_str()) == Endpoint::AddPost
            && self.profile.next_seq == u64::MAX {
            let text = cut_field(&req.json(), "text", MAX_POST_CHARS);
            if !text::empty(text.as_str()) {
                return None;
            }
        }
        Some(self.route_request(me, page, req, now_us))
    }
}

/// Whether a request is one for a post that there is no number left for.
pub open spec fn overfull(st: Standing, req: Request) -> bool {
    &&& endpoint_of(req.method@, req.path@) == Endpoint::AddPost
    &&& kept_field(foreign::json_object(req.body@), "text"@, MAX_POST_CHARS).len() > 0
    &&& st.profile.next_seq == u64::MAX
}

/// What the page is told when a thing has been done.
pub open spec fn done_fields(seq: Option<u64>) -> Seq<(Seq<char>, Piece)> {
    match seq {
        Some(n) => seq![("ok"@, Piece::Flag(true)), ("seq"@, Piece::Uint(n))],
        None => seq![("ok"@, Piece::Flag(true))],
    }
}

/// What the page is told once a thing has been tried: that it is done, or what
/// went wrong.
pub open spec fn outcome_reply(
    outcome: Result<(), String>,
    seq: Option<u64>,
    failed_status: u16,
) -> Sent {
    match outcome {
        Ok(_) => web::json_reply(done_fields(seq)),
        Err(why) => web::error_reply(failed_status, why@),
    }
}

/// What the page is told once a thing has been tried.
fn outcome_response(outcome: &Result<(), String>, seq: Option<u64>, failed_status: u16) -> (r:
    Response)
    ensures
        r@ == outcome_reply(*outcome, seq, failed_status),
{
    match outcome {
        Ok(_) => {
            let mut fields: Vec<(String, JsonField)> = Vec::new();
            fields.push(("ok".to_owned(), JsonField::Flag(true)));
            if let Some(n) = seq {
                fields.push(("seq".to_owned(), JsonField::Uint(n)));
            }
            assert(foreign::pieces(fields@) == done_fields(seq));
            Response::json(fields)
        },
        Err(why) => Response::error(failed_status, why.as_str()),
    }
}

/// What the page is told once the profile, and with it perhaps a post, has been
/// published or not.
pub fn published(outcome: &Result<(), String>, seq: Option<u64>) -> (r: Response)
    ensures
        r@ == outcome_reply(*outcome, seq, 500),
{
    outcome_response(outcome, seq, 500)
}

/// What the page is told once a private message has been sent or not.
pub fn dm_sent(outcome: &Result<(), String>) -> (r: Response)
    ensures
        r@ == outcome_reply(*outcome, None, 400),
{
    outcome_response(outcome, None, 400)
}

// ---------------------------------------------------------------------------
// laws
// ---------------------------------------------------------------------------

/// A private message reads back as it was written, less what is over the length
/// that is kept.
pub proof fn law_a_private_message_reads_back(
    me: Seq<char>,
    name: Seq<char>,
    text: Seq<char>,
    ts_us: u64,
    now_us: u64,
)
    ensures
        letter_in(Some(foreign::by_name(dm_fields(me, name, text, ts_us))), now_us) == Some(
            Letter {
                from_key: me,
                from_name: name,
                ts_us,
                text: text::first_chars(text, MAX_POST_CHARS as int),
            },
        ),
{
    let f = dm_fields(me, name, text, ts_us);
    reveal_strlit("t");
    reveal_strlit("from");
    reveal_strlit("name");
    reveal_strlit("text");
    reveal_strlit("ts");
    assert("name"@[0] == 'n' && "text"@[0] == 't');
    assert("t"@.len() == 1 && "ts"@.len() == 2 && "from"@.len() == 4 && "from"@[0] == 'f');
    web::lemma_field_is_the_last(f, "t"@, 0);
    web::lemma_field_is_the_last(f, "from"@, 1);
    web::lemma_field_is_the_last(f, "name"@, 2);
    web::lemma_field_is_the_last(f, "text"@, 3);
    web::lemma_field_is_the_last(f, "ts"@, 4);
}

/// A private message that fits one call is heard as it was sent.
pub proof fn law_a_private_message_is_heard(json: Seq<u8>, now_us: u64)
    requires
        json.len() <= proto::MAX_APP_MESSAGE - proto::HEADER_LEN,
    ensures
        letter_heard(proto::on_wire(Said::Social { json }, 0), now_us) == letter_in(
            foreign::json_object(json),
            now_us,
        ),
{
    let said = Said::Social { json };
    proto::law_decode_undoes_encode(said, 0);
    proto::law_what_fits_is_carried_whole(said);
}

/// A request that is only replied to leaves the node as it was: nothing refused
/// changes anything.
pub proof fn law_a_plain_reply_changes_nothing(
    st: Standing,
    me: Seq<char>,
    page: Seq<char>,
    endpoint: Endpoint,
    object: Option<Map<Seq<char>, Piece>>,
    key_reads: bool,
    now_us: u64,
)
    requires
        acted(st, me, page, endpoint, object, key_reads, now_us).0 is Reply,
    ensures
        acted(st, me, page, endpoint, object, key_reads, now_us).1 == st,
{
}

/// A new post is the newest that is live, and the first of our own.
pub proof fn law_a_new_post_is_the_newest(
    st: Standing,
    me: Seq<char>,
    page: Seq<char>,
    object: Option<Map<Seq<char>, Piece>>,
    key_reads: bool,
    now_us: u64,
)
    requires
        st.profile.next_seq < u64::MAX,
        acted(st, me, page, Endpoint::AddPost, object, key_reads, now_us).0 is PutPost,
    ensures
        ({
            let (deed, after) = acted(
                st,
                me,
                page,
                Endpoint::AddPost,
                object,
                key_reads,
                now_us,
            );
            &&& social::live(after.profile.next_seq as int)[0] == deed->PutPost_0.seq
            &&& after.posts[0] == deed->PutPost_0
            &&& after.posts.skip(1) == st.posts
            &&& after.profile.next_seq == st.profile.next_seq + 1
        }),
{
    let (deed, after) = acted(st, me, page, Endpoint::AddPost, object, key_reads, now_us);
    assert(after.posts.skip(1) == st.posts);
}

/// Whoever has been unfollowed is not followed any more, and nobody else is
/// affected.
pub proof fn law_unfollowing_drops_one_key(
    follows: Seq<Seq<char>>,
    key: Seq<char>,
    other: Seq<char>,
)
    ensures
        without_follow(follows, key).contains(other) == (follows.contains(other) && other != key),
    decreases follows.len(),
{
    if follows.len() > 0 {
        let front = follows.drop_last();
        let a = without_follow(front, key);
        let b = without_follow(follows, key);
        law_unfollowing_drops_one_key(front, key, other);
        assert(follows == front.push(follows.last()));
        counting::lemma_contains_push(front, follows.last(), other);
        counting::lemma_contains_push(a, follows.last(), other);
    }
}

/// Following someone twice is following them once, and unfollowing someone new
/// undoes following them.
pub proof fn law_following_is_undone_by_unfollowing(follows: Seq<Seq<char>>, key: Seq<char>)
    ensures
        with_follow(with_follow(follows, key), key) == with_follow(follows, key),
        !follows.contains(key) ==> without_follow(with_follow(follows, key), key) == follows,
{
    counting::lemma_contains_push(follows, key, key);
    if !follows.contains(key) {
        assert(follows.push(key).drop_last() == follows);
        lemma_without_a_stranger(follows, key);
    }
}

/// Dropping a key that is not there drops nothing.
proof fn lemma_without_a_stranger(follows: Seq<Seq<char>>, key: Seq<char>)
    requires
        !follows.contains(key),
    ensures
        without_follow(follows, key) == follows,
    decreases follows.len(),
{
    if follows.len() > 0 {
        let front = follows.drop_last();
        assert(follows == front.push(follows.last()));
        counting::lemma_contains_push(front, follows.last(), key);
        lemma_without_a_stranger(front, key);
    }
}

/// Whether a key can stand on a line of its own: it says something, and neither
/// begins nor ends with white space.
pub open spec fn on_one_line(key: Seq<char>) -> bool {
    key.len() > 0 && !key.contains('\n') && !text::is_space(key[0]) && !text::is_space(key.last())
}

/// The follows survive a restart: what is written to the file is what is read
/// from it.
pub proof fn law_follows_survive_a_restart(follows: Seq<Seq<char>>)
    requires
        forall|i: int| 0 <= i < follows.len() ==> on_one_line(#[trigger] follows[i]),
    ensures
        told(text::lines(follow_lines(follows))) == follows,
{
    if follows.len() == 0 {
        assert(text::lines(Seq::<char>::empty()) == Seq::<Seq<char>>::empty());
    } else {
        lemma_lines_of_follows(follows);
        lemma_told_as_they_are(follows);
    }
}

/// Keys that stand on lines of their own are told as they are.
proof fn lemma_told_as_they_are(keys: Seq<Seq<char>>)
    requires
        forall|i: int| 0 <= i < keys.len() ==> on_one_line(#[trigger] keys[i]),
    ensures
        told(keys) == keys,
    decreases keys.len(),
{
    if keys.len() > 0 {
        let front = keys.drop_last();
        let last = keys.last();
        assert forall|i: int| 0 <= i < front.len() implies on_one_line(#[trigger] front[i]) by {
            assert(on_one_line(keys[i]));
        }
        lemma_told_as_they_are(front);
        assert(on_one_line(keys[keys.len() - 1]));
        text::lemma_trim_start(last, 0);
        assert(last.skip(0) == last);
        text::lemma_trim_end(last, last.len() as int);
        assert(last.take(last.len() as int) == last);
        assert(front.push(last) == keys);
    } else {
        assert(keys == Seq::<Seq<char>>::empty());
    }
}

/// The lines of a text that continues behind a line feed are the lines in front
/// of it and the lines behind it.
proof fn lemma_lines_join(head: Seq<char>, tail: Seq<char>)
    requires
        head.len() > 0,
        head.last() != '\r',
        head.last() != '\n',
    ensures
        text::lines(head + seq!['\n'] + tail) == text::lines(head) + text::lines(tail),
    decreases head.len(),
{
    let whole = head + seq!['\n'] + tail;
    let n = text::before(head, '\n');
    text::lemma_before(head, '\n');
    if n >= head.len() {
        let m = head.len() as int;
        assert forall|i: int| 0 <= i < m implies #[trigger] whole[i] != '\n' by {
            assert(whole[i] == head[i]);
        }
        assert(whole[m] == '\n');
        text::lemma_before_is(whole, '\n', m);
        assert(whole.take(m) == head);
        assert(whole.skip(m + 1) == tail);
        assert(text::lines(head) == seq![head]);
        assert(text::lines(whole) == seq![head] + text::lines(tail));
    } else {
        assert forall|i: int| 0 <= i < n implies #[trigger] whole[i] != '\n' by {
            assert(whole[i] == head[i]);
        }
        assert(whole[n] == '\n');
        text::lemma_before_is(whole, '\n', n);
        let rest = head.skip(n + 1);
        assert(n < head.len() - 1) by {
            assert(head[n] == '\n');
        }
        assert(rest.last() == head.last());
        lemma_lines_join(rest, tail);
        assert(whole.take(n) == head.take(n));
        assert(whole.skip(n + 1) == rest + seq!['\n'] + tail);
        let first = text::without_cr(head.take(n));
        assert(text::lines(head) == seq![first] + text::lines(rest));
        assert(text::lines(whole) == seq![first] + (text::lines(rest) + text::lines(tail)));
        assert(text::lines(whole) == text::lines(head) + text::lines(tail));
    }
}

/// The lines of the follows file are the follows.
proof fn lemma_lines_of_follows(follows: Seq<Seq<char>>)
    requires
        follows.len() > 0,
        forall|i: int| 0 <= i < follows.len() ==> on_one_line(#[trigger] follows[i]),
    ensures
        text::lines(follow_lines(follows)) == follows,
        follow_lines(follows).len() > 0,
        follow_lines(follows).last() == follows.last().last(),
    decreases follows.len(),
{
    let last = follows.last();
    assert(on_one_line(follows[follows.len() - 1]));
    assert(text::lines(last) == seq![last]) by {
        assert forall|i: int| 0 <= i < last.len() implies #[trigger] last[i] != '\n' by {
            assert(last.contains(last[i]));
        }
        text::lemma_before_is(last, '\n', last.len() as int);
    }
    if follows.len() == 1 {
        assert(follows == seq![last]);
    } else {
        reveal_strlit("\n");
        let front = follows.drop_last();
        assert forall|i: int| 0 <= i < front.len() implies on_one_line(#[trigger] front[i]) by {
            assert(on_one_line(follows[i]));
        }
        lemma_lines_of_follows(front);
        assert(on_one_line(front[front.len() - 1]));
        let head = follow_lines(front);
        assert("\n"@ == seq!['\n']);
        lemma_lines_join(head, last);
        assert(follow_lines(follows) == head + seq!['\n'] + last);
        assert(front + seq![last] == follows);
    }
}

/// A feed is newest first, and holds exactly the items that went into it.
pub proof fn law_a_feed_is_newest_first(items: Seq<Entry>)
    ensures
        newest_first(items).to_multiset() == items.to_multiset(),
        forall|i: int, j: int|
            0 <= i < j < newest_first(items).len() ==> (#[trigger] newest_first(
                items,
            )[i]).post.ts_us >= (#[trigger] newest_first(items)[j]).post.ts_us,
    decreases items.len(),
{
    broadcast use vstd::seq_lib::group_to_multiset_ensures;

    if items.len() > 0 {
        let front = items.drop_last();
        let last = items.last();
        law_a_feed_is_newest_first(front);
        let sorted = newest_first(front);
        let k = place_for(sorted, last.post.ts_us);
        lemma_place_divides(sorted, last.post.ts_us);
        let all = sorted.insert(k, last);
        vstd::seq_lib::to_multiset_insert(sorted, k, last);
        assert(items == front.push(last));
        assert forall|i: int, j: int| 0 <= i < j < all.len() implies (#[trigger] all[i]).post.ts_us
            >= (#[trigger] all[j]).post.ts_us by {
            if i < k {
                assert(all[i] == sorted[i]);
            } else if i > k {
                assert(all[i] == sorted[i - 1]);
            }
            if j < k {
                assert(all[j] == sorted[j]);
            } else if j > k {
                assert(all[j] == sorted[j - 1]);
            }
        }
    }
}

/// In a feed that is newest first, everything in front of the place of an item
/// is no older, and everything behind it is.
proof fn lemma_place_divides(feed: Seq<Entry>, ts_us: u64)
    requires
        forall|i: int, j: int|
            0 <= i < j < feed.len() ==> (#[trigger] feed[i]).post.ts_us >= (
            #[trigger] feed[j]).post.ts_us,
    ensures
        0 <= place_for(feed, ts_us) <= feed.len(),
        forall|i: int|
            0 <= i < place_for(feed, ts_us) ==> (#[trigger] feed[i]).post.ts_us >= ts_us,
        forall|i: int|
            place_for(feed, ts_us) <= i < feed.len() ==> (#[trigger] feed[i]).post.ts_us < ts_us,
    decreases feed.len(),
{
    if feed.len() > 0 && feed.last().post.ts_us < ts_us {
        let front = feed.drop_last();
        assert forall|i: int, j: int| 0 <= i < j < front.len() implies (
        #[trigger] front[i]).post.ts_us >= (#[trigger] front[j]).post.ts_us by {
            assert(feed[i].post.ts_us >= feed[j].post.ts_us);
        }
        lemma_place_divides(front, ts_us);
        let k = place_for(front, ts_us);
        assert forall|i: int| 0 <= i < k implies (#[trigger] feed[i]).post.ts_us >= ts_us by {
            assert(front[i].post.ts_us >= ts_us);
        }
        assert forall|i: int| k <= i < feed.len() implies (#[trigger] feed[i]).post.ts_us
            < ts_us by {
            if i < front.len() {
                assert(front[i].post.ts_us < ts_us);
            }
        }
    } else if feed.len() > 0 {
        assert forall|i: int| 0 <= i < feed.len() implies (#[trigger] feed[i]).post.ts_us
            >= ts_us by {
            if i < feed.len() - 1 {
                assert(feed[i].post.ts_us >= feed[feed.len() - 1].post.ts_us);
            }
        }
    }
}

/// The items of one time, in order.
pub open spec fn at_time(items: Seq<Entry>, ts_us: u64) -> Seq<Entry>
    decreases items.len(),
{
    if items.len() == 0 {
        items
    } else if items.last().post.ts_us == ts_us {
        at_time(items.drop_last(), ts_us).push(items.last())
    } else {
        at_time(items.drop_last(), ts_us)
    }
}

/// Putting an item in front of older ones puts it behind all others of its
/// time.
proof fn lemma_at_time_insert(feed: Seq<Entry>, k: int, item: Entry, ts_us: u64)
    requires
        0 <= k <= feed.len(),
        forall|i: int|
            k <= i < feed.len() ==> (#[trigger] feed[i]).post.ts_us < item.post.ts_us,
    ensures
        at_time(feed.insert(k, item), ts_us) == if item.post.ts_us == ts_us {
            at_time(feed, ts_us).push(item)
        } else {
            at_time(feed, ts_us)
        },
    decreases feed.len() - k,
{
    let all = feed.insert(k, item);
    if k == feed.len() {
        assert(all.drop_last() == feed);
    } else {
        let front = feed.drop_last();
        assert forall|i: int| k <= i < front.len() implies (#[trigger] front[i]).post.ts_us
            < item.post.ts_us by {
            assert(feed[i].post.ts_us < item.post.ts_us);
        }
        lemma_at_time_insert(front, k, item, ts_us);
        assert(all.drop_last() == front.insert(k, item));
        assert(all.last() == feed[feed.len() - 1]);
    }
}

/// Items of one time keep the order in which they came.
pub proof fn law_a_feed_keeps_ties_in_order(items: Seq<Entry>, ts_us: u64)
    ensures
        at_time(newest_first(items), ts_us) == at_time(items, ts_us),
    decreases items.len(),
{
    if items.len() > 0 {
        let front = items.drop_last();
        let last = items.last();
        law_a_feed_keeps_ties_in_order(front, ts_us);
        law_a_feed_is_newest_first(front);
        let sorted = newest_first(front);
        lemma_place_divides(sorted, last.post.ts_us);
        lemma_at_time_insert(sorted, place_for(sorted, last.post.ts_us), last, ts_us);
    }
}

/// When routes die, exactly the others stay, each with its own blob.
pub proof fn law_only_live_routes_survive(
    ids: Seq<Seq<char>>,
    blobs: Seq<Seq<char>>,
    dead: Seq<Seq<char>>,
)
    requires
        ids.len() == blobs.len(),
    ensures
        ({
            let (a, b) = surviving(ids, blobs, dead);
            &&& a.len() == b.len()
            &&& forall|i: int|
                0 <= i < a.len() ==> !dead.contains(#[trigger] a[i]) && exists|j: int|
                    0 <= j < ids.len() && ids[j] == a[i] && blobs[j] == b[i]
            &&& forall|j: int|
                0 <= j < ids.len() && !dead.contains(#[trigger] ids[j]) ==> a.contains(ids[j])
        }),
    decreases ids.len(),
{
    if ids.len() > 0 {
        let ids0 = ids.drop_last();
        let blobs0 = blobs.drop_last();
        law_only_live_routes_survive(ids0, blobs0, dead);
        let (a0, b0) = surviving(ids0, blobs0, dead);
        let (a, b) = surviving(ids, blobs, dead);
        let n = ids.len() - 1;
        assert forall|i: int| 0 <= i < a.len() implies !dead.contains(#[trigger] a[i]) && exists|
            j: int,
        | 0 <= j < ids.len() && ids[j] == a[i] && blobs[j] == b[i] by {
            if i < a0.len() {
                assert(a[i] == a0[i] && b[i] == b0[i]);
                assert(!dead.contains(a0[i]));
                let j = choose|j: int|
                    0 <= j < ids0.len() && ids0[j] == a0[i] && blobs0[j] == b0[i];
                assert(ids[j] == a[i] && blobs[j] == b[i]);
            } else {
                assert(ids[n] == a[i] && blobs[n] == b[i]);
            }
        }
        assert forall|j: int| 0 <= j < ids.len() && !dead.contains(#[trigger] ids[j]) implies
            a.contains(ids[j]) by {
            if j < n {
                assert(ids0[j] == ids[j]);
                assert(a0.contains(ids[j]));
                let i = choose|i: int| 0 <= i < a0.len() && a0[i] == ids[j];
                assert(a[i] == ids[j]);
            } else {
                assert(a[a0.len() as int] == ids[j]);
            }
        }
    }
}

/// A profile survives a restart: the name, the bio and the number of the next
/// post are those that were published, and only the routes and the time are new.
/// Where nothing was published, it begins with nothing.
pub proof fn law_a_profile_survives_a_restart(p: Face, routes: Seq<Seq<char>>, now_us: u64)
    ensures
        ({
            let again = first_profile(Some(p), routes, now_us);
            let first = first_profile(None, routes, now_us);
            &&& again.name == p.name
            &&& again.bio == p.bio
            &&& again.next_seq == p.next_seq
            &&& again.routes == routes
            &&& again.updated_us == now_us
            &&& first.name.len() == 0
            &&& first.bio.len() == 0
            &&& first.next_seq == 0
            &&& first.routes == routes
            &&& first.updated_us == now_us
        }),
        first_profile(Some(first_profile(Some(p), routes, now_us)), p.routes, p.updated_us) == p,
{
}

/// Of the routes that are reported, ours are those that we have: all of these and
/// no others, as often as they were reported and in that order.
pub proof fn law_ours_are_the_reported_ones_we_have(
    known: Seq<Seq<char>>,
    reported: Seq<Seq<char>>,
)
    ensures
        among(known, reported) == reported.filter(|id: Seq<char>| known.contains(id)),
        forall|id: Seq<char>| #[trigger]
            among(known, reported).contains(id) <==> reported.contains(id) && known.contains(id),
    decreases reported.len(),
{
    reveal(Seq::filter);
    if reported.len() > 0 {
        let front = reported.drop_last();
        let last = reported.last();
        law_ours_are_the_reported_ones_we_have(known, front);
        assert(reported == front.push(last));
        assert forall|id: Seq<char>| #[trigger]
            among(known, reported).contains(id) <==> reported.contains(id) && known.contains(
            id,
        ) by {
            counting::lemma_contains_push(front, last, id);
            counting::lemma_contains_push(among(known, front), last, id);
        }
    }
}

/// The routes that survive keep their order.
pub proof fn law_survivors_keep_their_order(
    ids: Seq<Seq<char>>,
    blobs: Seq<Seq<char>>,
    dead: Seq<Seq<char>>,
)
    requires
        ids.len() == blobs.len(),
    ensures
        surviving(ids, blobs, dead).0 == ids.filter(|id: Seq<char>| !dead.contains(id)),
    decreases ids.len(),
{
    reveal(Seq::filter);
    if ids.len() > 0 {
        law_survivors_keep_their_order(ids.drop_last(), blobs.drop_last(), dead);
    }
}

/// Whoever is followed newly comes last, and whoever was followed before stays
/// where they were. Unfollowing takes out the one key, and leaves the others in
/// their order.
pub proof fn law_follows_keep_their_order(follows: Seq<Seq<char>>, key: Seq<char>)
    ensures
        with_follow(follows, key).contains(key),
        with_follow(follows, key).take(follows.len() as int) == follows,
        follows.contains(key) ==> with_follow(follows, key).len() == follows.len(),
        !follows.contains(key) ==> with_follow(follows, key).len() == follows.len() + 1
            && with_follow(follows, key).last() == key,
        without_follow(follows, key) == follows.filter(|k: Seq<char>| k != key),
    decreases follows.len(),
{
    reveal(Seq::filter);
    counting::lemma_contains_push(follows, key, key);
    assert(with_follow(follows, key).take(follows.len() as int) =~= follows);
    if follows.len() > 0 {
        law_follows_keep_their_order(follows.drop_last(), key);
    }
}

/// Every line that says something is told, without the white space round it, in
/// the order of the lines; a blank one is passed over.
pub proof fn law_blank_lines_are_passed_over(lines: Seq<Seq<char>>)
    ensures
        told(lines) == lines.map_values(|l: Seq<char>| text::trimmed(l)).filter(
            |l: Seq<char>| l.len() > 0,
        ),
    decreases lines.len(),
{
    reveal(Seq::filter);
    let all = lines.map_values(|l: Seq<char>| text::trimmed(l));
    if lines.len() > 0 {
        law_blank_lines_are_passed_over(lines.drop_last());
        assert(all.drop_last() =~= lines.drop_last().map_values(|l: Seq<char>| text::trimmed(l)));
    }
}

/// Somebody with a name is called by it. Somebody without is called by the first
/// twelve characters of their key.
pub proof fn law_what_someone_is_called(name: Seq<char>, key: Seq<char>)
    ensures
        name.len() > 0 ==> called(name, key) == name,
        name.len() == 0 && key.len() <= 12 ==> called(name, key) == key,
        name.len() == 0 && key.len() > 12 ==> called(name, key) == key.take(12),
{
}

/// Of the follows, the walls that are read are those whose key is one.
pub proof fn law_every_key_is_read(follows: Seq<Seq<char>>)
    ensures
        marked(follows, readings(follows)) == follows.filter(|key: Seq<char>| keys::is_key(key)),
{
    lemma_marked_by(follows, readings(follows), |key: Seq<char>| keys::is_key(key));
}

/// Keeping what is marked is keeping what has the property that the marks are
/// for.
proof fn lemma_marked_by(keys: Seq<Seq<char>>, marks: Seq<bool>, p: spec_fn(Seq<char>) -> bool)
    requires
        keys.len() <= marks.len(),
        forall|i: int| 0 <= i < keys.len() ==> #[trigger] marks[i] == p(keys[i]),
    ensures
        marked(keys, marks) == keys.filter(p),
    decreases keys.len(),
{
    reveal(Seq::filter);
    if keys.len() > 0 {
        let front = keys.drop_last();
        assert forall|i: int| 0 <= i < front.len() implies #[trigger] marks[i] == p(front[i]) by {
            assert(front[i] == keys[i]);
        }
        lemma_marked_by(front, marks, p);
        assert(marks[keys.len() - 1] == p(keys[keys.len() - 1]));
    }
}

/// The posts of one wall after the other are gathered, each with the key of the
/// wall that it is from and with what its author is called.
pub proof fn law_every_wall_is_gathered(a: Seq<Seen>, b: Seq<Seen>, wall: Seen, i: int)
    ensures
        gathered(a + b) == gathered(a) + gathered(b),
        gathered(seq![wall]).len() == wall.posts.len(),
        0 <= i < wall.posts.len() ==> gathered(seq![wall])[i] == (Entry {
            author_key: wall.key,
            author_name: called(wall.name, wall.key),
            post: wall.posts[i],
        }),
    decreases b.len(),
{
    assert(seq![wall].drop_last() == Seq::<Seen>::empty());
    assert(gathered(seq![wall].drop_last()) == Seq::<Entry>::empty());
    if b.len() == 0 {
        assert(a + b == a);
        assert(gathered(a) + gathered(b) =~= gathered(a));
    } else {
        law_every_wall_is_gathered(a, b.drop_last(), wall, i);
        assert((a + b).drop_last() == a + b.drop_last());
        assert((a + b).last() == b.last());
        let last = b.last();
        let tail = items_by(last.key, called(last.name, last.key), last.posts);
        assert(gathered(a + b) =~= gathered(a) + (gathered(b.drop_last()) + tail));
    }
}

/// The feed shows every post of ours, under our key and name, and every post of
/// every wall that was read, each once and nothing else, newest first.
pub proof fn law_the_feed_shows_every_post(
    st: Standing,
    me: Seq<char>,
    walls: Seq<Seen>,
    i: int,
    w: int,
    k: int,
)
    ensures
        feed_of(st, me, walls).len() == st.posts.len() + gathered(walls).len(),
        0 <= i < st.posts.len() ==> feed_of(st, me, walls).contains(
            (Entry { author_key: me, author_name: st.profile.name, post: st.posts[i] }),
        ),
        0 <= w < walls.len() && 0 <= k < walls[w].posts.len() ==> feed_of(
            st,
            me,
            walls,
        ).contains(
            (Entry {
                author_key: walls[w].key,
                author_name: called(walls[w].name, walls[w].key),
                post: walls[w].posts[k],
            }),
        ),
        forall|a: int, b: int|
            0 <= a < b < feed_of(st, me, walls).len() ==> (#[trigger] feed_of(
                st,
                me,
                walls,
            )[a]).post.ts_us >= (#[trigger] feed_of(st, me, walls)[b]).post.ts_us,
{
    broadcast use vstd::seq_lib::group_to_multiset_ensures;

    let mine = items_by(me, st.profile.name, st.posts);
    let all = mine + gathered(walls);
    let feed = feed_of(st, me, walls);
    law_a_feed_is_newest_first(all);
    assert(feed.len() == all.len()) by {
        assert(feed.to_multiset().len() == all.to_multiset().len());
    }
    if 0 <= i < st.posts.len() {
        let e = Entry { author_key: me, author_name: st.profile.name, post: st.posts[i] };
        assert(all[i] == e);
        assert(all.contains(e));
        assert(feed.to_multiset().count(e) > 0);
    }
    if 0 <= w < walls.len() && 0 <= k < walls[w].posts.len() {
        let wall = walls[w];
        let e = Entry {
            author_key: wall.key,
            author_name: called(wall.name, wall.key),
            post: wall.posts[k],
        };
        let head = walls.take(w);
        let tail = walls.skip(w + 1);
        assert(walls == head + (seq![wall] + tail));
        law_every_wall_is_gathered(head, seq![wall] + tail, wall, k);
        law_every_wall_is_gathered(seq![wall], tail, wall, k);
        let at = mine.len() + gathered(head).len() + k;
        assert(all[at as int] == e);
        assert(all.contains(e));
        assert(feed.to_multiset().count(e) > 0);
    }
}

/// A private message travels as an object with a kind, a sender, the sender's
/// name, a text and a time.
pub proof fn law_what_a_private_message_is_made_of(
    me: Seq<char>,
    name: Seq<char>,
    text: Seq<char>,
    ts_us: u64,
)
    ensures
        ({
            let object = foreign::by_name(dm_fields(me, name, text, ts_us));
            &&& object["t"@] == Piece::Text("dm"@)
            &&& object["from"@] == Piece::Text(me)
            &&& object["name"@] == Piece::Text(name)
            &&& object["text"@] == Piece::Text(text)
            &&& object["ts"@] == Piece::Uint(ts_us)
        }),
{
    let f = dm_fields(me, name, text, ts_us);
    reveal_strlit("t");
    reveal_strlit("from");
    reveal_strlit("name");
    reveal_strlit("text");
    reveal_strlit("ts");
    assert("name"@[0] == 'n' && "text"@[0] == 't');
    assert("t"@.len() == 1 && "ts"@.len() == 2 && "from"@.len() == 4 && "from"@[0] == 'f');
    web::lemma_field_is_the_last(f, "t"@, 0);
    web::lemma_field_is_the_last(f, "from"@, 1);
    web::lemma_field_is_the_last(f, "name"@, 2);
    web::lemma_field_is_the_last(f, "text"@, 3);
    web::lemma_field_is_the_last(f, "ts"@, 4);
}

/// Only an object whose kind is that of a private message is one. What it leaves
/// out is empty, a time that it leaves out is now, and of its text no more than
/// 8000 characters are kept.
pub proof fn law_what_is_read_as_a_private_message(object: Map<Seq<char>, Piece>, now_us: u64)
    ensures
        letter_in(None, now_us) is None,
        letter_in(Some(object), now_us) is Some <==> object.contains_key("t"@) && object["t"@]
            == Piece::Text("dm"@),
        letter_in(Some(object), now_us) matches Some(l) ==> {
            &&& object.contains_key("from"@) ==> (object["from"@] matches Piece::Text(s)
                ==> l.from_key == s)
            &&& !object.contains_key("from"@) ==> l.from_key.len() == 0
            &&& object.contains_key("name"@) ==> (object["name"@] matches Piece::Text(s)
                ==> l.from_name == s)
            &&& !object.contains_key("name"@) ==> l.from_name.len() == 0
            &&& object.contains_key("ts"@) ==> (object["ts"@] matches Piece::Uint(n) ==> l.ts_us
                == n)
            &&& !object.contains_key("ts"@) ==> l.ts_us == now_us
            &&& object.contains_key("text"@) ==> (object["text"@] matches Piece::Text(s) ==> l.text
                == if s.len() > 8000 { s.take(8000) } else { s })
            &&& !object.contains_key("text"@) ==> l.text.len() == 0
        },
{
}

/// Asking with `GET` only ever looks: whatever is asked for, the node stays as it
/// was, and nothing is published, saved or sent.
pub proof fn law_a_get_only_looks(
    st: Standing,
    me: Seq<char>,
    page: Seq<char>,
    path: Seq<char>,
    object: Option<Map<Seq<char>, Piece>>,
    key_reads: bool,
    now_us: u64,
)
    ensures
        ({
            let (deed, after) = acted(
                st,
                me,
                page,
                endpoint_of("GET"@, path),
                object,
                key_reads,
                now_us,
            );
            after == st && (deed is Reply || deed is ShowFeed || deed is ShowInbox)
        }),
{
    reveal_strlit("GET");
    reveal_strlit("POST");
    assert("GET"@.len() == 3 && "POST"@.len() == 4);
}

/// Every endpoint answers to one method and one path, and whatever else is asked
/// for is not there.
pub proof fn law_every_endpoint_has_its_request(method: Seq<char>, path: Seq<char>)
    ensures
        endpoint_of(method, path) == Endpoint::Page <==> method == "GET"@ && path == "/"@,
        endpoint_of(method, path) == Endpoint::Me <==> method == "GET"@ && path == "/api/me"@,
        endpoint_of(method, path) == Endpoint::Feed <==> method == "GET"@ && path == "/api/feed"@,
        endpoint_of(method, path) == Endpoint::Inbox <==> method == "GET"@ && path
            == "/api/inbox"@,
        endpoint_of(method, path) == Endpoint::SetProfile <==> method == "POST"@ && path
            == "/api/profile"@,
        endpoint_of(method, path) == Endpoint::AddPost <==> method == "POST"@ && path
            == "/api/post"@,
        endpoint_of(method, path) == Endpoint::Follow <==> method == "POST"@ && path
            == "/api/follow"@,
        endpoint_of(method, path) == Endpoint::Unfollow <==> method == "POST"@ && path
            == "/api/unfollow"@,
        endpoint_of(method, path) == Endpoint::SendDm <==> method == "POST"@ && path
            == "/api/dm"@,
{
    reveal_strlit("GET");
    reveal_strlit("POST");
    reveal_strlit("/");
    reveal_strlit("/api/me");
    reveal_strlit("/api/feed");
    reveal_strlit("/api/inbox");
    reveal_strlit("/api/profile");
    reveal_strlit("/api/post");
    reveal_strlit("/api/follow");
    reveal_strlit("/api/unfollow");
    reveal_strlit("/api/dm");
    assert("GET"@.len() == 3 && "POST"@.len() == 4 && "/"@.len() == 1);
    assert("/api/me"@.len() == 7 && "/api/dm"@.len() == 7 && "/api/me"@[5] != "/api/dm"@[5]);
    assert("/api/feed"@.len() == 9 && "/api/post"@.len() == 9 && "/api/feed"@[5]
        != "/api/post"@[5]);
    assert("/api/inbox"@.len() == 10 && "/api/follow"@.len() == 11);
    assert("/api/profile"@.len() == 12 && "/api/unfollow"@.len() == 13);
}

/// Setting the profile changes the name and the bio to what was asked for, cut to
/// 64 and 500 characters, and nothing else.
pub proof fn law_setting_the_profile_sets_name_and_bio(
    st: Standing,
    me: Seq<char>,
    page: Seq<char>,
    object: Option<Map<Seq<char>, Piece>>,
    key_reads: bool,
    now_us: u64,
)
    ensures
        ({
            let (deed, after) = acted(
                st,
                me,
                page,
                Endpoint::SetProfile,
                object,
                key_reads,
                now_us,
            );
            let name = web::field_of(object, "name"@);
            let bio = web::field_of(object, "bio"@);
            &&& deed is Publish
            &&& after.profile.name == if name.len() > 64 { name.take(64) } else { name }
            &&& after.profile.bio == if bio.len() > 500 { bio.take(500) } else { bio }
            &&& after.profile.routes == st.profile.routes
            &&& after.profile.next_seq == st.profile.next_seq
            &&& after.profile.updated_us == st.profile.updated_us
            &&& after.posts == st.posts && after.follows == st.follows
            &&& after.inbox == st.inbox && after.routes == st.routes
        }),
{
}

/// A post with a text is put into the record under the next number, with the time
/// and the text, of which 8000 characters are kept. One without is refused. Either
/// way nothing but the posts and their number can change.
pub proof fn law_what_a_post_becomes(
    st: Standing,
    me: Seq<char>,
    page: Seq<char>,
    object: Option<Map<Seq<char>, Piece>>,
    key_reads: bool,
    now_us: u64,
)
    ensures
        ({
            let (deed, after) = acted(
                st,
                me,
                page,
                Endpoint::AddPost,
                object,
                key_reads,
                now_us,
            );
            let text = web::field_of(object, "text"@);
            &&& deed is PutPost <==> text.len() > 0
            &&& text.len() == 0 ==> after == st && deed == Deed::Reply(
                web::error_reply(400, "a post needs some text"@),
            )
            &&& deed matches Deed::PutPost(post) ==> {
                &&& post.seq == st.profile.next_seq
                &&& post.ts_us == now_us
                &&& post.text == if text.len() > 8000 { text.take(8000) } else { text }
                &&& post.attachment is None
                &&& after.posts == seq![post] + st.posts
            }
            &&& after.profile.name == st.profile.name && after.profile.bio == st.profile.bio
            &&& after.profile.routes == st.profile.routes
            &&& after.profile.updated_us == st.profile.updated_us
            &&& after.follows == st.follows && after.inbox == st.inbox && after.routes == st.routes
        }),
{
}

/// A key that is one, and not our own, is followed; any other is refused with the
/// reason. Unfollowing is never refused. Either way the page is told whom we
/// follow then, and nothing else changes.
pub proof fn law_whom_a_request_makes_us_follow(
    st: Standing,
    me: Seq<char>,
    page: Seq<char>,
    object: Option<Map<Seq<char>, Piece>>,
    key_reads: bool,
    now_us: u64,
    other: Seq<char>,
)
    ensures
        ({
            let key = web::field_of(object, "key"@);
            let (deed, after) = acted(
                st,
                me,
                page,
                Endpoint::Follow,
                object,
                key_reads,
                now_us,
            );
            let (undone, without) = acted(
                st,
                me,
                page,
                Endpoint::Unfollow,
                object,
                key_reads,
                now_us,
            );
            &&& !key_reads ==> after == st && deed == Deed::Reply(
                web::error_reply(400, "that does not look like a node key"@),
            )
            &&& key_reads && key == me ==> after == st && deed == Deed::Reply(
                web::error_reply(400, "you are already yourself"@),
            )
            &&& key_reads && key != me ==> {
                &&& after.follows.contains(other) <==> st.follows.contains(other) || other == key
                &&& deed == Deed::SaveFollows(
                    web::json_reply(seq![("follows"@, Piece::Texts(after.follows))]),
                )
            }
            &&& without.follows.contains(other) <==> st.follows.contains(other) && other != key
            &&& undone == Deed::SaveFollows(
                web::json_reply(seq![("follows"@, Piece::Texts(without.follows))]),
            )
            &&& after.profile == st.profile && after.posts == st.posts && after.inbox == st.inbox
                && after.routes == st.routes
            &&& without.profile == st.profile && without.posts == st.posts && without.inbox
                == st.inbox && without.routes == st.routes
        }),
{
    let key = web::field_of(object, "key"@);
    counting::lemma_contains_push(st.follows, key, other);
    law_unfollowing_drops_one_key(st.follows, key, other);
}

/// A private message with a text is sent to whom it is for, with as much of the
/// text as is kept. One without is refused. Neither changes the node.
pub proof fn law_whom_a_message_is_sent_to(
    st: Standing,
    me: Seq<char>,
    page: Seq<char>,
    object: Option<Map<Seq<char>, Piece>>,
    key_reads: bool,
    now_us: u64,
)
    ensures
        ({
            let (deed, after) = acted(
                st,
                me,
                page,
                Endpoint::SendDm,
                object,
                key_reads,
                now_us,
            );
            let whole = web::field_of(object, "text"@);
            &&& after == st
            &&& whole.len() == 0 ==> deed == Deed::Reply(
                web::error_reply(400, "a message needs some text"@),
            )
            &&& whole.len() > 0 ==> (deed matches Deed::Deliver { to, text } && to
                == web::field_of(object, "to"@) && text == if whole.len() > 8000 {
                whole.take(8000)
            } else {
                whole
            })
        }),
{
}

/// What the page is told about the node is what the node is: its key, its name
/// and bio, how many posts it has made, on how many routes it can be reached, whom
/// it follows and how many messages have come in.
pub proof fn law_the_page_is_told_the_truth(st: Standing, me: Seq<char>)
    requires
        st.profile.routes.len() <= u64::MAX,
        st.inbox.len() <= u64::MAX,
    ensures
        ({
            let told = foreign::by_name(me_fields(st, me));
            &&& told["key"@] == Piece::Text(me)
            &&& told["name"@] == Piece::Text(st.profile.name)
            &&& told["bio"@] == Piece::Text(st.profile.bio)
            &&& told["posts"@] == Piece::Uint(st.profile.next_seq)
            &&& told["routes"@] matches Piece::Uint(n) && n == st.profile.routes.len()
            &&& told["follows"@] == Piece::Texts(st.follows)
            &&& told["unread"@] matches Piece::Uint(n) && n == st.inbox.len()
        }),
{
    let f = me_fields(st, me);
    reveal_strlit("key");
    reveal_strlit("name");
    reveal_strlit("bio");
    reveal_strlit("posts");
    reveal_strlit("routes");
    reveal_strlit("follows");
    reveal_strlit("unread");
    assert("key"@.len() == 3 && "bio"@.len() == 3 && "key"@[0] != "bio"@[0]);
    assert("name"@.len() == 4 && "posts"@.len() == 5 && "follows"@.len() == 7);
    assert("routes"@.len() == 6 && "unread"@.len() == 6 && "routes"@[0] != "unread"@[0]);
    web::lemma_field_is_the_last(f, "key"@, 0);
    web::lemma_field_is_the_last(f, "name"@, 1);
    web::lemma_field_is_the_last(f, "bio"@, 2);
    web::lemma_field_is_the_last(f, "posts"@, 3);
    web::lemma_field_is_the_last(f, "routes"@, 4);
    web::lemma_field_is_the_last(f, "follows"@, 5);
    web::lemma_field_is_the_last(f, "unread"@, 6);
}

/// What has been done is told with a plain 200, and with the number of the post if
/// there is one; what has failed, with the status for it and with the reason.
pub proof fn law_what_the_page_is_told_of_an_outcome(why: String, seq: u64, status: u16)
    ensures
        outcome_reply(Ok(()), None, status) == (Sent {
            status: 200,
            content_type: web::JSON_TYPE@,
            body: foreign::json_bytes(seq![("ok"@, Piece::Flag(true))]),
        }),
        outcome_reply(Ok(()), Some(seq), status) == (Sent {
            status: 200,
            content_type: web::JSON_TYPE@,
            body: foreign::json_bytes(
                seq![("ok"@, Piece::Flag(true)), ("seq"@, Piece::Uint(seq))],
            ),
        }),
        outcome_reply(Err(why), Some(seq), status) == outcome_reply(Err(why), None, status),
        outcome_reply(Err(why), None, status) == (Sent {
            status,
            content_type: web::JSON_TYPE@,
            body: foreign::json_bytes(seq![("error"@, Piece::Text(why@))]),
        }),
{
}

/// Only a social message can be a private one, and its JSON alone says whether it
/// is.
pub proof fn law_only_a_social_message_can_be_private(message: Seq<u8>, now_us: u64)
    ensures
        !(proto::heard(message) matches Some(said) && said is Social) ==> letter_heard(
            message,
            now_us,
        ) is None,
        proto::heard(message) matches Some(said) ==> (said matches Said::Social { json }
            ==> letter_heard(message, now_us) == letter_in(foreign::json_object(json), now_us)),
{
}

/// What is said of a private message that could not be sent gives the reason.
pub proof fn law_a_failed_message_says_why(last: String)
    ensures
        dm_failure_text(DmFailure::BadKey) == "that does not look like a node key"@,
        dm_failure_text(DmFailure::NoNode) == "no node is published under that key"@,
        dm_failure_text(DmFailure::NoRoutes)
            == "that node has published no route to receive messages on"@,
        dm_failure_text(DmFailure::Unreachable(last))
            == "could not reach that node on any of its routes: "@ + last@,
{
    assert(Seq::<char>::empty() + "could not reach that node on any of its routes: "@ + last@
        =~= "could not reach that node on any of its routes: "@ + last@);
}

/// A private message that is taken in is answered with an ok, and anything else
/// with that it is not known.
pub proof fn law_what_a_private_message_is_answered()
    ensures
        social_reply(OK_REPLY@) == proto::on_wire(
            Said::Social { json: encode_utf8("{\"t\":\"ok\"}"@) },
            0,
        ),
        social_reply(UNKNOWN_REPLY@) == proto::on_wire(
            Said::Social { json: encode_utf8("{\"t\":\"unknown\"}"@) },
            0,
        ),
{
}

/// The page itself is sent as it is, as HTML, and nothing changes by it.
pub proof fn law_the_page_is_sent_as_it_is(
    st: Standing,
    me: Seq<char>,
    page: Seq<char>,
    object: Option<Map<Seq<char>, Piece>>,
    key_reads: bool,
    now_us: u64,
)
    ensures
        acted(st, me, page, endpoint_of("GET"@, "/"@), object, key_reads, now_us) == (
            Deed::Reply(
                Sent {
                    status: 200,
                    content_type: "text/html; charset=utf-8"@,
                    body: encode_utf8(page),
                },
            ),
            st,
        ),
        acted(st, me, page, Endpoint::Unknown, object, key_reads, now_us) == (
            Deed::Reply(web::error_reply(404, "no such endpoint"@)),
            st,
        ),
        acted(st, me, page, Endpoint::Feed, object, key_reads, now_us) == (Deed::ShowFeed, st),
        acted(st, me, page, Endpoint::Inbox, object, key_reads, now_us) == (Deed::ShowInbox, st),
        acted(st, me, page, Endpoint::Me, object, key_reads, now_us) == (
            Deed::Reply(web::json_reply(me_fields(st, me))),
            st,
        ),
{
}

} // verus!
