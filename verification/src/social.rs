//! A social node: one DHT record is your wall, and everything else reads it.
//!
//! A record has subkeys; subkey 0 holds the profile and subkeys 1.. hold posts
//! in a ring. Following someone is remembering their record key; reading their
//! feed is reading their subkeys. There is no server anywhere holding a copy.

use vstd::prelude::*;

use crate::text;
use crate::text::{chars_of, lines_of, text_of};

verus! {

/// Subkey 0 is the profile; the rest are posts.
pub const PROFILE_SUBKEY: u32 = 0;

/// How many posts a wall keeps. Older ones fall out of the ring.
pub const POST_SLOTS: u32 = 63;

/// Profile + posts.
pub const WALL_SUBKEYS: u16 = 64;

/// Values are capped at 32768 bytes, and a post has to fit in one with room
/// for its JSON envelope.
pub const MAX_POST_CHARS: usize = 8000;

pub const MAX_NAME_CHARS: usize = 64;

pub const MAX_BIO_CHARS: usize = 500;

/// The most bytes that one value of a record holds.
pub const MAX_VALUE_LEN: usize = 32768;

/// Subkey 0. Carries the routes as well as the display fields, so a reader of
/// your wall already knows how to send you a private message.
#[derive(Debug, Clone)]
pub struct Profile {
    pub name: String,
    pub bio: String,
    /// Base64 route blobs, most-preferred first. A spare costs nothing and saves
    /// a round trip when one dies.
    pub routes: Vec<String>,
    /// Sequence number of the next post, so a reader knows which ring slots
    /// are live and in what order.
    pub next_seq: u64,
    pub updated_us: u64,
}

#[derive(Debug, Clone)]
pub struct Post {
    pub seq: u64,
    pub ts_us: u64,
    pub text: String,
    /// Set when the post announces a file the author will send on request.
    pub attachment: Option<Attachment>,
}

#[derive(Debug, Clone)]
pub struct Attachment {
    pub name: String,
    pub bytes: u64,
    pub crc32: u32,
}

/// A post as shown in a feed: the post plus who wrote it.
#[derive(Debug, Clone)]
pub struct FeedItem {
    pub author_key: String,
    pub author_name: String,
    pub post: Post,
}

/// A private message. Never touches the DHT: it goes over a private route as
/// an `app_call`, so it is not sitting in a distributed hash table for anyone
/// who learns the key.
#[derive(Debug, Clone)]
pub struct Dm {
    pub from_key: String,
    pub from_name: String,
    pub ts_us: u64,
    pub text: String,
}

/// What a profile says, over sequences.
pub struct Face {
    pub name: Seq<char>,
    pub bio: Seq<char>,
    pub routes: Seq<Seq<char>>,
    pub next_seq: u64,
    pub updated_us: u64,
}

/// What a post says, over sequences.
pub struct Words {
    pub seq: u64,
    pub ts_us: u64,
    pub text: Seq<char>,
    pub attachment: Option<Parcel>,
}

/// What an attachment says, over sequences.
pub struct Parcel {
    pub name: Seq<char>,
    pub bytes: u64,
    pub crc32: u32,
}

/// What an item of a feed says, over sequences.
pub struct Entry {
    pub author_key: Seq<char>,
    pub author_name: Seq<char>,
    pub post: Words,
}

/// What a private message says, over sequences.
pub struct Letter {
    pub from_key: Seq<char>,
    pub from_name: Seq<char>,
    pub ts_us: u64,
    pub text: Seq<char>,
}

impl View for Profile {
    type V = Face;

    open spec fn view(&self) -> Face {
        Face {
            name: self.name@,
            bio: self.bio@,
            routes: text::texts(self.routes@),
            next_seq: self.next_seq,
            updated_us: self.updated_us,
        }
    }
}

impl View for Attachment {
    type V = Parcel;

    open spec fn view(&self) -> Parcel {
        Parcel { name: self.name@, bytes: self.bytes, crc32: self.crc32 }
    }
}

impl View for Post {
    type V = Words;

    open spec fn view(&self) -> Words {
        Words {
            seq: self.seq,
            ts_us: self.ts_us,
            text: self.text@,
            attachment: match self.attachment {
                Some(a) => Some(a@),
                None => None,
            },
        }
    }
}

impl View for FeedItem {
    type V = Entry;

    open spec fn view(&self) -> Entry {
        Entry {
            author_key: self.author_key@,
            author_name: self.author_name@,
            post: self.post@,
        }
    }
}

impl View for Dm {
    type V = Letter;

    open spec fn view(&self) -> Letter {
        Letter {
            from_key: self.from_key@,
            from_name: self.from_name@,
            ts_us: self.ts_us,
            text: self.text@,
        }
    }
}

impl Default for Profile {
    fn default() -> (r: Profile)
        ensures
            r@ == (Face {
                name: Seq::empty(),
                bio: Seq::empty(),
                routes: Seq::empty(),
                next_seq: 0,
                updated_us: 0,
            }),
    {
        let r = Profile {
            name: String::new(),
            bio: String::new(),
            routes: Vec::new(),
            next_seq: 0,
            updated_us: 0,
        };
        assert(text::texts(r.routes@) == Seq::<Seq<char>>::empty());
        r
    }
}

impl Post {
    /// The same post once more.
    pub fn copied(&self) -> (r: Post)
        ensures
            r@ == self@,
    {
        let attachment = match &self.attachment {
            Some(a) => Some(
                Attachment { name: a.name.as_str().to_owned(), bytes: a.bytes, crc32: a.crc32 },
            ),
            None => None,
        };
        Post {
            seq: self.seq,
            ts_us: self.ts_us,
            text: self.text.as_str().to_owned(),
            attachment,
        }
    }
}

// ---------------------------------------------------------------------------
// the ring
// ---------------------------------------------------------------------------

/// The ring slot of a post.
pub open spec fn slot_of(seq: int) -> int {
    PROFILE_SUBKEY + 1 + seq % (POST_SLOTS as int)
}

/// The sequence numbers still readable on a wall, newest first.
pub open spec fn live(next_seq: int) -> Seq<u64> {
    let count = if next_seq < POST_SLOTS {
        next_seq
    } else {
        POST_SLOTS as int
    };
    Seq::new(count as nat, |i: int| (next_seq - 1 - i) as u64)
}

/// Which ring slot a post sequence number lives in.
pub fn slot_for(seq: u64) -> (r: u32)
    ensures
        r == slot_of(seq as int),
{
    PROFILE_SUBKEY + 1 + (seq % POST_SLOTS as u64) as u32
}

/// The sequence numbers still readable on a wall, newest first.
pub fn live_seqs(next_seq: u64) -> (r: Vec<u64>)
    ensures
        r@ == live(next_seq as int),
{
    let count: u64 = if next_seq < POST_SLOTS as u64 { next_seq } else { POST_SLOTS as u64 };
    let mut out: Vec<u64> = Vec::new();
    let mut i: u64 = 0;
    while i < count
        invariant
            i <= count <= next_seq,
            count == live(next_seq as int).len(),
            out@ == live(next_seq as int).take(i as int),
        decreases count - i,
    {
        out.push(next_seq - 1 - i);
        assert(live(next_seq as int).take(i + 1) == live(next_seq as int).take(i as int).push(
            (next_seq - 1 - i) as u64,
        ));
        i = i + 1;
    }
    assert(live(next_seq as int).take(count as int) == live(next_seq as int));
    out
}

/// The first `max` characters of `s`.
pub fn truncate_chars(s: &str, max: usize) -> (r: String)
    ensures
        r@ == text::first_chars(s@, max as int),
{
    let cs = chars_of(s);
    if cs.len() <= max {
        s.to_owned()
    } else {
        let r = text_of(&cs, 0, max);
        assert(s@.subrange(0, max as int) == s@.take(max as int));
        r
    }
}

// ---------------------------------------------------------------------------
// what goes into the record
// ---------------------------------------------------------------------------

/// Where a profile goes, or why it does not: `json` is the profile as it would
/// be stored.
pub fn profile_value(json: &Vec<u8>) -> (r: Result<u32, String>)
    ensures
        match r {
            Ok(subkey) => json@.len() <= MAX_VALUE_LEN && subkey == PROFILE_SUBKEY,
            Err(why) => json@.len() > MAX_VALUE_LEN && why@
                == "profile is too large for one DHT value"@,
        },
        r is Ok <==> json@.len() <= 32768,
        r matches Ok(subkey) ==> subkey == 0,
{
    if json.len() > MAX_VALUE_LEN {
        Err("profile is too large for one DHT value".to_owned())
    } else {
        Ok(PROFILE_SUBKEY)
    }
}

/// Where a post goes, or why it does not: `json` is the post as it would be
/// stored.
pub fn post_value(seq: u64, json: &Vec<u8>) -> (r: Result<u32, String>)
    ensures
        match r {
            Ok(subkey) => json@.len() <= MAX_VALUE_LEN && subkey == slot_of(seq as int),
            Err(why) => json@.len() > MAX_VALUE_LEN && why@
                == "post is too large for one DHT value"@,
        },
        r is Ok <==> json@.len() <= 32768,
        r matches Ok(subkey) ==> 1 <= subkey <= 63 && (seq - (subkey - 1)) % 63 == 0,
{
    if json.len() > MAX_VALUE_LEN {
        Err("post is too large for one DHT value".to_owned())
    } else {
        Ok(slot_for(seq))
    }
}

/// The post that was asked for, if the slot still holds it. The ring means a
/// slot may hold a newer post than the one asked for; that is not corruption, it
/// is the old one having aged out.
pub fn post_if_current(post: Post, seq: u64) -> (r: Option<Post>)
    ensures
        r == (if post.seq == seq {
            Some(post)
        } else {
            None
        }),
{
    if post.seq == seq {
        Some(post)
    } else {
        None
    }
}

// ---------------------------------------------------------------------------
// the saved identity
// ---------------------------------------------------------------------------

/// What is kept on disk: a key and the pair that owns it, a line each.
pub open spec fn identity_lines(key: Seq<char>, pair: Seq<char>) -> Seq<char> {
    Seq::<char>::empty() + key + "\n"@ + pair + "\n"@
}

/// The key and the pair in a saved file: its first two lines.
pub open spec fn identity_in(saved: Seq<char>) -> Option<(Seq<char>, Seq<char>)> {
    let all = text::lines(saved);
    if all.len() < 2 {
        None
    } else {
        Some((all[0], all[1]))
    }
}

/// What is kept on disk, so that the key survives a restart.
pub fn identity_text(key: &str, pair: &str) -> (r: String)
    ensures
        r@ == identity_lines(key@, pair@),
{
    let mut out = String::new();
    out.append(key);
    out.append("\n");
    out.append(pair);
    out.append("\n");
    out
}

/// The key and the pair in a saved file.
pub fn saved_identity(saved: &str) -> (r: Option<(String, String)>)
    ensures
        match r {
            None => identity_in(saved@) is None,
            Some((key, pair)) => identity_in(saved@) == Some((key@, pair@)),
        },
{
    let all = lines_of(saved);
    if all.len() < 2 {
        None
    } else {
        assert(text::texts(all@)[0] == all@[0]@);
        assert(text::texts(all@)[1] == all@[1]@);
        Some((all[0].as_str().to_owned(), all[1].as_str().to_owned()))
    }
}

// ---------------------------------------------------------------------------
// laws
// ---------------------------------------------------------------------------

/// Posts never overwrite the profile, and their slots stay inside the schema.
pub proof fn law_posts_stay_clear_of_the_profile(seq: u64)
    ensures
        slot_of(seq as int) != PROFILE_SUBKEY,
        0 < slot_of(seq as int) < WALL_SUBKEYS,
{
}

/// Two posts share a slot exactly when a whole number of rings lies between
/// them: a full ring uses every slot once, and then wraps onto itself.
pub proof fn law_the_ring_wraps_onto_itself(a: u64, b: u64)
    ensures
        (slot_of(a as int) == slot_of(b as int)) == ((a - b) % (POST_SLOTS as int) == 0),
{
}

/// What is live is what has not been overwritten: the live numbers lie below
/// the next one, run down from it without a gap, and no two of them share a
/// slot.
pub proof fn law_live_posts_have_slots_of_their_own(next_seq: u64, i: int, j: int)
    requires
        0 <= i < j < live(next_seq as int).len(),
    ensures
        live(next_seq as int)[i] == next_seq - 1 - i,
        live(next_seq as int)[i] > live(next_seq as int)[j],
        slot_of(live(next_seq as int)[i] as int) != slot_of(live(next_seq as int)[j] as int),
{
}

/// A post is live exactly when no newer one has taken its slot.
pub proof fn law_a_post_lives_until_its_slot_is_taken(next_seq: u64, seq: u64)
    ensures
        live(next_seq as int).contains(seq) == (seq < next_seq && seq + POST_SLOTS >= next_seq),
        live(next_seq as int).contains(seq) == (seq < next_seq && forall|newer: u64|
            seq < newer < next_seq ==> #[trigger] slot_of(newer as int) != slot_of(seq as int)),
{
    let all = live(next_seq as int);
    if seq < next_seq && seq + POST_SLOTS >= next_seq {
        assert(all[next_seq - 1 - seq] == seq);
        assert forall|newer: u64| seq < newer < next_seq implies #[trigger] slot_of(newer as int)
            != slot_of(seq as int) by {
            law_the_ring_wraps_onto_itself(newer, seq);
        }
    } else if seq < next_seq {
        let newer = (seq + POST_SLOTS) as u64;
        law_the_ring_wraps_onto_itself(newer, seq);
        assert(slot_of(newer as int) == slot_of(seq as int));
    }
}

/// An identity that is saved is the one that is found again.
pub proof fn law_a_saved_identity_is_found_again(key: Seq<char>, pair: Seq<char>)
    requires
        !key.contains('\n'),
        !pair.contains('\n'),
        key.len() > 0 ==> key.last() != '\r',
        pair.len() > 0 ==> pair.last() != '\r',
    ensures
        identity_in(identity_lines(key, pair)) == Some((key, pair)),
{
    reveal_strlit("\n");
    let s = identity_lines(key, pair);
    let rest = pair + "\n"@;
    let n = key.len() as int;
    let m = pair.len() as int;
    assert forall|i: int| 0 <= i < n implies #[trigger] s[i] != '\n' by {
        assert(s[i] == key[i]);
        assert(key.contains(key[i]));
    }
    assert(s[n] == '\n');
    text::lemma_before_is(s, '\n', n);
    assert(s.take(n) == key);
    assert(s.skip(n + 1) == rest);
    assert forall|i: int| 0 <= i < m implies #[trigger] rest[i] != '\n' by {
        assert(rest[i] == pair[i]);
        assert(pair.contains(pair[i]));
    }
    assert(rest[m] == '\n');
    text::lemma_before_is(rest, '\n', m);
    assert(rest.take(m) == pair);
    assert(text::without_cr(key) == key);
    assert(text::without_cr(pair) == pair);
    assert(text::lines(s) == seq![key] + text::lines(rest));
    assert(text::lines(rest) == seq![pair] + text::lines(rest.skip(m + 1)));
    assert(text::lines(s)[0] == key);
    assert(text::lines(s)[1] == pair);
}

/// The ring has 63 slots, from 1 to 63: the first post takes slot 1, each post
/// the next one, and after slot 63 comes slot 1 again.
pub proof fn law_each_post_takes_the_next_slot(seq: u64)
    ensures
        1 <= slot_of(seq as int) <= 63,
        slot_of(0) == 1,
        slot_of(seq as int) < 63 ==> slot_of(seq + 1) == slot_of(seq as int) + 1,
        slot_of(seq as int) == 63 ==> slot_of(seq + 1) == 1,
        WALL_SUBKEYS == 64,
{
}

/// A wall shows its newest 63 posts, or all of them while there are fewer, and
/// runs down from the newest without a gap.
pub proof fn law_a_wall_shows_its_newest_posts(next_seq: u64)
    ensures
        live(next_seq as int).len() == if next_seq < 63 { next_seq as int } else { 63 },
        forall|i: int|
            0 <= i < live(next_seq as int).len() ==> #[trigger] live(next_seq as int)[i] + i + 1
                == next_seq,
{
}

} // verus!
