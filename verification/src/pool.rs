//! The receiver's live routes. Every one of them reaches this node, so the pool
//! is purely about how many ways in are published at once.

use vstd::prelude::*;

use crate::bytes::copy_of;
use crate::counting;
use crate::proto;
use crate::text;

verus! {

/// How long a rotated-out route is kept alive after its replacement has been
/// published. A sender that read the record just before the rotation still
/// holds the old route, and dropping it immediately would strand exactly the
/// sender the rotation was meant to protect.
pub const ROTATION_GRACE_US: u64 = 90_000_000;

/// One live route.
pub struct Entry {
    pub id: String,
    pub blob: Vec<u8>,
    /// The clock when the route was made, in microseconds.
    pub created_us: u64,
}

/// What a live route is, over sequences.
pub struct Way {
    pub id: Seq<char>,
    pub blob: Seq<u8>,
    pub created_us: u64,
}

impl View for Entry {
    type V = Way;

    open spec fn view(&self) -> Way {
        Way { id: self.id@, blob: self.blob@, created_us: self.created_us }
    }
}

/// A route that rotation has replaced, kept alive until its grace expires.
pub struct Retired {
    pub id: String,
    pub since_us: u64,
}

/// What a replaced route is, over sequences.
pub struct StoodDown {
    pub id: Seq<char>,
    pub since_us: u64,
}

impl View for Retired {
    type V = StoodDown;

    open spec fn view(&self) -> StoodDown {
        StoodDown { id: self.id@, since_us: self.since_us }
    }
}

pub struct Pool {
    pub routes: Vec<Entry>,
    /// Routes replaced by rotation, kept alive until their grace expires.
    pub retiring: Vec<Retired>,
    pub want: usize,
}

/// What a list of entries holds.
pub open spec fn ways(v: Seq<Entry>) -> Seq<Way> {
    v.map_values(|e: Entry| e@)
}

/// What a list of replaced routes holds.
pub open spec fn stood_down(v: Seq<Retired>) -> Seq<StoodDown> {
    v.map_values(|e: Retired| e@)
}

/// The blobs of the routes, most-preferred first.
pub open spec fn way_blobs(v: Seq<Way>) -> Seq<Seq<u8>> {
    v.map_values(|w: Way| w.blob)
}

/// Whether one of the routes has that id.
pub open spec fn has_way(v: Seq<Way>, id: Seq<char>) -> bool {
    exists|i: int| 0 <= i < v.len() && (#[trigger] v[i]).id == id
}

/// How long ago that was: nothing, if the clock has gone back since.
pub open spec fn age(now_us: u64, then_us: u64) -> int {
    if now_us < then_us {
        0
    } else {
        now_us - then_us
    }
}

/// The age of the oldest route, or nothing if there is none.
pub open spec fn greatest_age(v: Seq<Way>, now_us: u64) -> int
    decreases v.len(),
{
    if v.len() == 0 {
        0
    } else {
        let rest = greatest_age(v.drop_last(), now_us);
        let last = age(now_us, v.last().created_us);
        if last > rest {
            last
        } else {
            rest
        }
    }
}

/// The index of the route that was made first; the foremost, if several were.
pub open spec fn oldest(v: Seq<Way>) -> int
    decreases v.len(),
{
    if v.len() <= 1 {
        0
    } else {
        let k = oldest(v.drop_last());
        if v.last().created_us < v[k].created_us {
            v.len() - 1
        } else {
            k
        }
    }
}

/// Whether the grace of a replaced route is still running.
pub open spec fn in_grace(r: StoodDown, now_us: u64) -> bool {
    age(now_us, r.since_us) < ROTATION_GRACE_US
}

/// The replaced routes whose grace is still running.
pub open spec fn graced(v: Seq<StoodDown>, now_us: u64) -> Seq<StoodDown>
    decreases v.len(),
{
    if v.len() == 0 {
        v
    } else if in_grace(v.last(), now_us) {
        graced(v.drop_last(), now_us).push(v.last())
    } else {
        graced(v.drop_last(), now_us)
    }
}

/// The ids of the replaced routes whose grace has run out.
pub open spec fn expired(v: Seq<StoodDown>, now_us: u64) -> Seq<Seq<char>>
    decreases v.len(),
{
    if v.len() == 0 {
        Seq::empty()
    } else if in_grace(v.last(), now_us) {
        expired(v.drop_last(), now_us)
    } else {
        expired(v.drop_last(), now_us).push(v.last().id)
    }
}

/// The routes that are not among the dead.
pub open spec fn alive(v: Seq<Way>, dead: Seq<Seq<char>>) -> Seq<Way>
    decreases v.len(),
{
    if v.len() == 0 {
        v
    } else if dead.contains(v.last().id) {
        alive(v.drop_last(), dead)
    } else {
        alive(v.drop_last(), dead).push(v.last())
    }
}

/// The replaced routes that are not among the dead.
pub open spec fn still_standing_down(v: Seq<StoodDown>, dead: Seq<Seq<char>>) -> Seq<StoodDown>
    decreases v.len(),
{
    if v.len() == 0 {
        v
    } else if dead.contains(v.last().id) {
        still_standing_down(v.drop_last(), dead)
    } else {
        still_standing_down(v.drop_last(), dead).push(v.last())
    }
}

/// Those of the reported routes that are in the pool.
pub open spec fn ours_among(v: Seq<Way>, reported: Seq<Seq<char>>) -> Seq<Seq<char>>
    decreases reported.len(),
{
    if reported.len() == 0 {
        Seq::empty()
    } else if has_way(v, reported.last()) {
        ours_among(v, reported.drop_last()).push(reported.last())
    } else {
        ours_among(v, reported.drop_last())
    }
}

/// What `oldest` finds.
proof fn lemma_oldest(v: Seq<Way>)
    requires
        v.len() > 0,
    ensures
        0 <= oldest(v) < v.len(),
        forall|i: int| 0 <= i < v.len() ==> v[oldest(v)].created_us <= (#[trigger] v[i]).created_us,
    decreases v.len(),
{
    if v.len() > 1 {
        let front = v.drop_last();
        lemma_oldest(front);
        assert forall|i: int| 0 <= i < v.len() implies v[oldest(v)].created_us <= (
        #[trigger] v[i]).created_us by {
            if i < front.len() {
                assert(front[oldest(front)].created_us <= front[i].created_us);
            }
        }
    }
}

/// How long ago that was.
fn age_us(now_us: u64, then_us: u64) -> (r: u64)
    ensures
        r == age(now_us, then_us),
{
    if now_us < then_us {
        0
    } else {
        now_us - then_us
    }
}

impl Pool {
    /// A pool with the one route it cannot do without.
    pub fn new(first: Entry, want: usize) -> (r: Pool)
        ensures
            ways(r.routes@) == seq![first@],
            r.retiring@.len() == 0,
            r.want == if want > 1 { want } else { 1 },
            want >= 1 ==> r.want == want,
            want == 0 ==> r.want == 1,
    {
        let mut routes: Vec<Entry> = Vec::new();
        routes.push(first);
        assert(ways(routes@) == seq![first@]);
        Pool { routes, retiring: Vec::new(), want: if want > 1 { want } else { 1 } }
    }

    /// Whether the pool is short of routes.
    pub fn wants_more(&self) -> (r: bool)
        ensures
            r == (self.routes@.len() < self.want),
    {
        self.routes.len() < self.want
    }

    /// Take one more route into the pool.
    pub fn add(&mut self, entry: Entry)
        ensures
            ways(final(self).routes@) == ways(old(self).routes@).push(entry@),
            final(self).retiring@ == old(self).retiring@,
            final(self).want == old(self).want,
    {
        self.routes.push(entry);
        assert(ways(self.routes@) == ways(old(self).routes@).push(entry@));
    }

    /// The blobs of the routes, most-preferred first.
    pub fn blobs(&self) -> (r: Vec<Vec<u8>>)
        ensures
            proto::blob_list(r@) == way_blobs(ways(self.routes@)),
    {
        let ghost all = way_blobs(ways(self.routes@));
        let mut out: Vec<Vec<u8>> = Vec::new();
        let mut i: usize = 0;
        while i < self.routes.len()
            invariant
                i <= self.routes@.len(),
                all == way_blobs(ways(self.routes@)),
                proto::blob_list(out@) == all.take(i as int),
            decreases self.routes@.len() - i,
        {
            let ghost done = proto::blob_list(out@);
            let blob = copy_of(self.routes[i].blob.as_slice(), 0, self.routes[i].blob.len());
            assert(blob@ == self.routes@[i as int].blob@);
            out.push(blob);
            assert(proto::blob_list(out@) == done.push(blob@));
            assert(all[i as int] == blob@);
            assert(all.take(i + 1) == all.take(i as int).push(all[i as int]));
            i = i + 1;
        }
        assert(all.take(i as int) == all);
        out
    }

    /// Whether one of the routes has that id.
    pub fn holds(&self, id: &str) -> (r: bool)
        ensures
            r == has_way(ways(self.routes@), id@),
    {
        let mut i: usize = 0;
        while i < self.routes.len()
            invariant
                i <= self.routes@.len(),
                forall|j: int| 0 <= j < i ==> (#[trigger] ways(self.routes@)[j]).id != id@,
            decreases self.routes@.len() - i,
        {
            assert(ways(self.routes@)[i as int].id == self.routes@[i as int].id@);
            if text::same(self.routes[i].id.as_str(), id) {
                return true;
            }
            i = i + 1;
        }
        false
    }

    /// How old the oldest route is, in microseconds.
    pub fn oldest_age(&self, now_us: u64) -> (r: u64)
        ensures
            r == greatest_age(ways(self.routes@), now_us),
    {
        let ghost all = ways(self.routes@);
        let mut best: u64 = 0;
        let mut i: usize = 0;
        assert(all.take(0).len() == 0);
        while i < self.routes.len()
            invariant
                i <= self.routes@.len(),
                all == ways(self.routes@),
                best == greatest_age(all.take(i as int), now_us),
            decreases self.routes@.len() - i,
        {
            assert(all.take(i + 1).drop_last() == all.take(i as int));
            assert(all.take(i + 1).last() == self.routes@[i as int]@);
            let a = age_us(now_us, self.routes[i].created_us);
            if a > best {
                best = a;
            }
            i = i + 1;
        }
        assert(all.take(i as int) == all);
        best
    }

    /// Take in a replacement, then stand the oldest route down. In that order:
    /// the new route is there before the old one stops being answered, so there
    /// is never a moment with fewer live routes than advertised. Returns the id
    /// that was stood down and the one that replaced it.
    pub fn rotate(&mut self, fresh: Entry, now_us: u64) -> (r: (String, String))
        ensures
            ({
                let all = ways(old(self).routes@).push(fresh@);
                &&& ways(final(self).routes@) == all.remove(oldest(all))
                &&& stood_down(final(self).retiring@) == stood_down(old(self).retiring@).push(
                    (StoodDown { id: all[oldest(all)].id, since_us: now_us }),
                )
                &&& r.0@ == all[oldest(all)].id
                &&& r.1@ == fresh@.id
            }),
            final(self).want == old(self).want,
            final(self).routes@.len() == old(self).routes@.len(),
            final(self).retiring@.len() == old(self).retiring@.len() + 1,
            final(self).retiring@.last().id@ == r.0@,
            final(self).retiring@.last().since_us == now_us,
            forall|i: int|
                0 <= i < old(self).retiring@.len() ==> (#[trigger] final(self).retiring@[i])@ == old(
                    self,
                ).retiring@[i]@,
    {
        let ghost all = ways(self.routes@).push(fresh@);
        proof {
            lemma_oldest(all);
        }
        let fresh_id = fresh.id.as_str().to_owned();
        self.routes.push(fresh);
        assert(ways(self.routes@) == all);
        let mut k: usize = 0;
        let mut i: usize = 1;
        while i < self.routes.len()
            invariant
                1 <= i <= self.routes@.len(),
                k < i,
                ways(self.routes@) == all,
                k == oldest(all.take(i as int)),
                self.retiring@ == old(self).retiring@,
                self.want == old(self).want,
            decreases self.routes@.len() - i,
        {
            let ghost more = all.take(i + 1);
            assert(more.drop_last() == all.take(i as int));
            assert(more.last() == self.routes@[i as int]@);
            assert(more[k as int] == self.routes@[k as int]@);
            if self.routes[i].created_us < self.routes[k].created_us {
                k = i;
            }
            i = i + 1;
        }
        assert(all.take(i as int) == all);
        assert(all[k as int] == self.routes@[k as int]@);
        let gone = self.routes.remove(k);
        assert(ways(self.routes@) == all.remove(k as int));
        let gone_id = gone.id.as_str().to_owned();
        self.retiring.push(Retired { id: gone.id, since_us: now_us });
        assert(stood_down(self.retiring@) == stood_down(old(self).retiring@).push(
            (StoodDown { id: all[k as int].id, since_us: now_us }),
        ));
        (gone_id, fresh_id)
    }

    /// Forget the routes whose grace period has run out. Returns their ids, for
    /// them to be released.
    pub fn reap(&mut self, now_us: u64) -> (r: Vec<String>)
        ensures
            text::texts(r@) == expired(stood_down(old(self).retiring@), now_us),
            stood_down(final(self).retiring@) == graced(stood_down(old(self).retiring@), now_us),
            final(self).routes@ == old(self).routes@,
            final(self).want == old(self).want,
    {
        let ghost all = stood_down(self.retiring@);
        let mut out: Vec<String> = Vec::new();
        let mut kept: Vec<Retired> = Vec::new();
        let mut i: usize = 0;
        assert(all.take(0).len() == 0);
        while i < self.retiring.len()
            invariant
                i <= self.retiring@.len(),
                self.retiring@ == old(self).retiring@,
                self.routes@ == old(self).routes@,
                self.want == old(self).want,
                all == stood_down(self.retiring@),
                text::texts(out@) == expired(all.take(i as int), now_us),
                stood_down(kept@) == graced(all.take(i as int), now_us),
            decreases self.retiring@.len() - i,
        {
            let ghost done = text::texts(out@);
            let ghost left = stood_down(kept@);
            let ghost this = self.retiring@[i as int]@;
            assert(all.take(i + 1).drop_last() == all.take(i as int));
            assert(all.take(i + 1).last() == this);
            let id = self.retiring[i].id.as_str().to_owned();
            let since_us = self.retiring[i].since_us;
            if age_us(now_us, since_us) < ROTATION_GRACE_US {
                kept.push(Retired { id, since_us });
                assert(stood_down(kept@) == left.push(this));
            } else {
                out.push(id);
                assert(text::texts(out@) == done.push(this.id));
            }
            i = i + 1;
        }
        assert(all.take(i as int) == all);
        self.retiring = kept;
        out
    }

    /// Those of the reported routes that are in the pool.
    pub fn ours(&self, reported: &Vec<String>) -> (r: Vec<String>)
        ensures
            text::texts(r@) == ours_among(ways(self.routes@), text::texts(reported@)),
            forall|id: Seq<char>| #[trigger]
                text::texts(r@).contains(id) <==> text::texts(reported@).contains(id) && has_way(
                    ways(self.routes@),
                    id,
                ),
    {
        proof {
            law_ours_are_the_reported_ones_in_the_pool(
                ways(self.routes@),
                text::texts(reported@),
            );
        }
        let ghost all = text::texts(reported@);
        let mut out: Vec<String> = Vec::new();
        let mut i: usize = 0;
        assert(all.take(0).len() == 0);
        while i < reported.len()
            invariant
                i <= reported@.len(),
                all == text::texts(reported@),
                text::texts(out@) == ours_among(ways(self.routes@), all.take(i as int)),
            decreases reported@.len() - i,
        {
            let ghost done = text::texts(out@);
            assert(all.take(i + 1).drop_last() == all.take(i as int));
            assert(all.take(i + 1).last() == reported@[i as int]@);
            if self.holds(reported[i].as_str()) {
                out.push(reported[i].as_str().to_owned());
                assert(text::texts(out@) == done.push(reported@[i as int]@));
            }
            i = i + 1;
        }
        assert(all.take(i as int) == all);
        out
    }

    /// Drop the routes that just died, live and replaced ones. Returns how many
    /// live ones were lost.
    pub fn drop_dead(&mut self, dead: &Vec<String>) -> (r: usize)
        ensures
            ways(final(self).routes@) == alive(ways(old(self).routes@), text::texts(dead@)),
            stood_down(final(self).retiring@) == still_standing_down(
                stood_down(old(self).retiring@),
                text::texts(dead@),
            ),
            final(self).want == old(self).want,
            r == old(self).routes@.len() - final(self).routes@.len(),
    {
        let before: usize = self.routes.len();
        let ghost all = ways(self.routes@);
        let ghost gone = text::texts(dead@);
        let mut i: usize = 0;
        let ghost mut seen: int = 0;
        assert(all.take(0).len() == 0);
        assert(ways(self.routes@).take(0) == alive(all.take(0), gone));
        assert(all.skip(0) == all);
        while i < self.routes.len()
            invariant
                i <= seen <= all.len() <= before,
                i <= self.routes@.len(),
                self.routes@.len() - i == all.len() - seen,
                gone == text::texts(dead@),
                ways(self.routes@).take(i as int) == alive(all.take(seen), gone),
                ways(self.routes@).skip(i as int) == all.skip(seen),
                self.retiring@ == old(self).retiring@,
                self.want == old(self).want,
            decreases self.routes@.len() - i,
        {
            let ghost now = ways(self.routes@);
            let ghost this = self.routes@[i as int]@;
            proof {
                assert(now.skip(i as int)[0] == this);
                assert(all.skip(seen)[0] == all[seen]);
                assert(all.take(seen + 1).drop_last() == all.take(seen));
                assert(all.take(seen + 1).last() == this);
                assert(all.skip(seen + 1) == all.skip(seen).skip(1));
            }
            if text::holds(dead, self.routes[i].id.as_str()) {
                self.routes.remove(i);
                assert(ways(self.routes@) == now.remove(i as int));
                assert(ways(self.routes@).take(i as int) == now.take(i as int));
                assert(ways(self.routes@).skip(i as int) == now.skip(i as int).skip(1));
            } else {
                assert(now.take(i + 1) == now.take(i as int).push(this));
                assert(now.skip(i + 1) == now.skip(i as int).skip(1));
                i = i + 1;
            }
            proof {
                seen = seen + 1;
            }
        }
        assert(ways(self.routes@).take(i as int) == ways(self.routes@));
        assert(all.take(seen) == all);
        self.drop_dead_retired(dead);
        before - self.routes.len()
    }

    /// Drop the replaced routes that just died.
    fn drop_dead_retired(&mut self, dead: &Vec<String>)
        ensures
            final(self).routes@ == old(self).routes@,
            stood_down(final(self).retiring@) == still_standing_down(
                stood_down(old(self).retiring@),
                text::texts(dead@),
            ),
            final(self).want == old(self).want,
    {
        let ghost all = stood_down(self.retiring@);
        let ghost gone = text::texts(dead@);
        let mut kept: Vec<Retired> = Vec::new();
        let mut i: usize = 0;
        assert(all.take(0).len() == 0);
        while i < self.retiring.len()
            invariant
                i <= self.retiring@.len(),
                self.retiring@ == old(self).retiring@,
                self.routes@ == old(self).routes@,
                self.want == old(self).want,
                all == stood_down(self.retiring@),
                gone == text::texts(dead@),
                stood_down(kept@) == still_standing_down(all.take(i as int), gone),
            decreases self.retiring@.len() - i,
        {
            let ghost left = stood_down(kept@);
            let ghost this = self.retiring@[i as int]@;
            assert(all.take(i + 1).drop_last() == all.take(i as int));
            assert(all.take(i + 1).last() == this);
            if !text::holds(dead, self.retiring[i].id.as_str()) {
                let id = self.retiring[i].id.as_str().to_owned();
                let since_us = self.retiring[i].since_us;
                kept.push(Retired { id, since_us });
                assert(stood_down(kept@) == left.push(this));
            }
            i = i + 1;
        }
        assert(all.take(i as int) == all);
        self.retiring = kept;
    }
}

/// How often one route is replaced, in seconds, if at all. One goes every
/// `rotate_secs / pool`, so each lives about `rotate_secs` and the replacements
/// stagger themselves out instead of the whole pool ageing out together. What
/// comes to less than a second is a second.
pub fn rotate_every(rotate_secs: u64, pool: usize) -> (r: Option<u64>)
    ensures
        match r {
            None => rotate_secs == 0,
            Some(secs) => {
                let ways = if pool > 1 { pool as int } else { 1 };
                &&& rotate_secs > 0
                &&& secs == if rotate_secs as int / ways > 0 {
                    rotate_secs as int / ways
                } else {
                    1
                }
            },
        },
        rotate_secs == 0 ==> r is None,
        r matches Some(secs) ==> {
            let ways = if pool > 1 { pool as int } else { 1 };
            &&& secs >= 1
            &&& secs * ways <= rotate_secs || secs == 1
            &&& rotate_secs < (secs + 1) * ways
        },
{
    if rotate_secs == 0 {
        None
    } else {
        let ways: u64 = if pool > 1 { pool as u64 } else { 1 };
        let each: u64 = rotate_secs / ways;
        proof {
            vstd::arithmetic::div_mod::lemma_fundamental_div_mod(rotate_secs as int, ways as int);
            vstd::arithmetic::div_mod::lemma_mod_bound(rotate_secs as int, ways as int);
            let (e, w, s) = (each as int, ways as int, rotate_secs as int);
            assert(e * w <= s && s < (e + 1) * w) by (nonlinear_arith)
                requires
                    s == w * e + s % w,
                    0 <= s % w < w,
            ;
            if e == 0 {
                assert(s < (1 + 1) * w) by (nonlinear_arith)
                    requires
                        s < (e + 1) * w,
                        e == 0,
                        w > 0,
                ;
            }
        }
        Some(if each > 0 { each } else { 1 })
    }
}

/// What the receiver does once it has lost routes and topped the pool up again.
#[derive(Clone, Copy, PartialEq, Eq, Structural)]
pub enum AfterLoss {
    /// No routes left and none could be rebuilt.
    Stop,
    /// The blob already handed out is stale and there is no record to put the
    /// new one into.
    StopUnrecorded,
    /// The record is rewritten, and the transfers in flight carry on.
    Republish,
}

/// What the receiver does once it has lost routes.
pub fn after_loss(pool: &Pool, recorded: bool) -> (r: AfterLoss)
    ensures
        r == (if pool.routes@.len() == 0 {
            AfterLoss::Stop
        } else if !recorded {
            AfterLoss::StopUnrecorded
        } else {
            AfterLoss::Republish
        }),
{
    if pool.routes.len() == 0 {
        AfterLoss::Stop
    } else if !recorded {
        AfterLoss::StopUnrecorded
    } else {
        AfterLoss::Republish
    }
}

// ---------------------------------------------------------------------------
// laws
// ---------------------------------------------------------------------------

/// Make before break: a replacement made no earlier than the routes it joins
/// leaves as many live routes as there were, itself the last of them.
pub proof fn law_rotation_never_shrinks_the_pool(routes: Seq<Way>, fresh: Way)
    requires
        routes.len() > 0,
        forall|i: int| 0 <= i < routes.len() ==> (#[trigger] routes[i]).created_us
            <= fresh.created_us,
    ensures
        ({
            let all = routes.push(fresh);
            let after = all.remove(oldest(all));
            after.len() == routes.len() && after.last() == fresh
        }),
{
    let all = routes.push(fresh);
    lemma_oldest(routes);
    lemma_oldest(all);
    assert(all.drop_last() == routes);
    assert(routes[oldest(routes)].created_us <= fresh.created_us);
}

/// The route that is stood down is the oldest: none that stays was made before
/// it.
pub proof fn law_rotation_retires_the_oldest(routes: Seq<Way>, fresh: Way)
    ensures
        ({
            let all = routes.push(fresh);
            let after = all.remove(oldest(all));
            forall|i: int|
                0 <= i < after.len() ==> all[oldest(all)].created_us <= (
                #[trigger] after[i]).created_us
        }),
{
    let all = routes.push(fresh);
    lemma_oldest(all);
    let k = oldest(all);
    let after = all.remove(k);
    assert forall|i: int| 0 <= i < after.len() implies all[k].created_us <= (
    #[trigger] after[i]).created_us by {
        if i < k {
            assert(after[i] == all[i]);
        } else {
            assert(after[i] == all[i + 1]);
        }
    }
}

/// A route that has been stood down is not released before its grace is over.
pub proof fn law_a_retired_route_keeps_its_grace(
    retiring: Seq<StoodDown>,
    at: int,
    now_us: u64,
)
    requires
        0 <= at < retiring.len(),
        now_us < retiring[at].since_us + ROTATION_GRACE_US,
    ensures
        graced(retiring, now_us).contains(retiring[at]),
    decreases retiring.len(),
{
    let front = retiring.drop_last();
    if at == retiring.len() - 1 {
        let g = graced(front, now_us);
        assert(g.push(retiring.last())[g.len() as int] == retiring[at]);
    } else {
        assert(front[at] == retiring[at]);
        law_a_retired_route_keeps_its_grace(front, at, now_us);
        let g = graced(front, now_us);
        let i = choose|i: int| 0 <= i < g.len() && g[i] == retiring[at];
        assert(graced(retiring, now_us)[i] == retiring[at]);
    }
}

/// Every replaced route is either kept or released, never both and never lost.
pub proof fn law_reaping_loses_nothing(retiring: Seq<StoodDown>, now_us: u64)
    ensures
        graced(retiring, now_us).len() + expired(retiring, now_us).len() == retiring.len(),
        forall|i: int|
            0 <= i < graced(retiring, now_us).len() ==> in_grace(
                #[trigger] graced(retiring, now_us)[i],
                now_us,
            ),
    decreases retiring.len(),
{
    if retiring.len() > 0 {
        let front = retiring.drop_last();
        law_reaping_loses_nothing(front, now_us);
        let g = graced(front, now_us);
        assert forall|i: int| 0 <= i < graced(retiring, now_us).len() implies in_grace(
            #[trigger] graced(retiring, now_us)[i],
            now_us,
        ) by {
            if i < g.len() {
                assert(in_grace(g[i], now_us));
            }
        }
    }
}

/// No dead route stays in the pool, and no live one is dropped from it.
pub proof fn law_only_the_dead_are_dropped(routes: Seq<Way>, dead: Seq<Seq<char>>, id: Seq<char>)
    ensures
        has_way(alive(routes, dead), id) == (has_way(routes, id) && !dead.contains(id)),
    decreases routes.len(),
{
    if routes.len() > 0 {
        let front = routes.drop_last();
        law_only_the_dead_are_dropped(front, dead, id);
        let a = alive(front, dead);
        let b = alive(routes, dead);
        if has_way(front, id) {
            let i = choose|i: int| 0 <= i < front.len() && (#[trigger] front[i]).id == id;
            assert(routes[i].id == id);
        }
        if has_way(routes, id) {
            let i = choose|i: int| 0 <= i < routes.len() && (#[trigger] routes[i]).id == id;
            if i < front.len() {
                assert(front[i].id == id);
            } else {
                assert(routes.last().id == id);
                if !dead.contains(id) {
                    assert(b[a.len() as int].id == id);
                }
            }
        }
        if has_way(a, id) {
            let i = choose|i: int| 0 <= i < a.len() && (#[trigger] a[i]).id == id;
            assert(b[i].id == id);
        }
        if has_way(b, id) {
            let i = choose|i: int| 0 <= i < b.len() && (#[trigger] b[i]).id == id;
            if i < a.len() {
                assert(a[i].id == id);
            } else {
                assert(routes[routes.len() - 1].id == id);
            }
        }
    }
}

/// The routes after one rotation after the other.
pub open spec fn rotated(routes: Seq<Way>, fresh: Seq<Way>) -> Seq<Way>
    decreases fresh.len(),
{
    if fresh.len() == 0 {
        routes
    } else {
        let all = rotated(routes, fresh.drop_last()).push(fresh.last());
        all.remove(oldest(all))
    }
}

/// Rotation leaves the new routes behind those of the old ones that are left.
proof fn lemma_rotated(routes: Seq<Way>, fresh: Seq<Way>, then_us: u64)
    requires
        fresh.len() <= routes.len(),
        forall|i: int| 0 <= i < routes.len() ==> (#[trigger] routes[i]).created_us <= then_us,
        forall|i: int| 0 <= i < fresh.len() ==> then_us < (#[trigger] fresh[i]).created_us,
    ensures
        rotated(routes, fresh).len() == routes.len(),
        rotated(routes, fresh).skip(routes.len() - fresh.len()) == fresh,
        forall|i: int|
            0 <= i < routes.len() - fresh.len() ==> (#[trigger] rotated(
                routes,
                fresh,
            )[i]).created_us <= then_us,
    decreases fresh.len(),
{
    let n = routes.len();
    if fresh.len() == 0 {
        assert(routes.skip(n as int) == fresh);
    } else {
        let front = fresh.drop_last();
        assert forall|i: int| 0 <= i < front.len() implies then_us < (
        #[trigger] front[i]).created_us by {
            assert(then_us < fresh[i].created_us);
        }
        lemma_rotated(routes, front, then_us);
        let before = rotated(routes, front);
        let all = before.push(fresh.last());
        let left = n - front.len();
        let k = oldest(all);
        lemma_oldest(all);
        // The oldest is one of the old ones, since every new one is younger.
        assert(k < left) by {
            assert(all[0].created_us <= then_us) by {
                assert(before[0].created_us <= then_us);
            }
            if k >= left {
                if k < n {
                    assert(all[k] == before.skip(left)[k - left]);
                    assert(then_us < front[k - left].created_us);
                } else {
                    assert(all[k] == fresh[fresh.len() - 1]);
                }
                assert(all[k].created_us <= all[0].created_us);
            }
        }
        let after = all.remove(k);
        assert forall|i: int| 0 <= i < n - fresh.len() implies (#[trigger] after[i]).created_us
            <= then_us by {
            if i < k {
                assert(after[i] == before[i]);
            } else {
                assert(after[i] == before[i + 1]);
            }
        }
        assert(after.skip(n - fresh.len()) == fresh) by {
            assert forall|i: int| 0 <= i < fresh.len() implies after.skip(n - fresh.len())[i]
                == fresh[i] by {
                if i < front.len() {
                    assert(after[n - fresh.len() + i] == before[left + i]);
                    assert(before.skip(left)[i] == front[i]);
                }
            }
        }
    }
}

/// No route lives on for ever: as many rotations as there are routes replace
/// every one of them, in order.
pub proof fn law_rotation_replaces_every_route(routes: Seq<Way>, fresh: Seq<Way>, then_us: u64)
    requires
        fresh.len() == routes.len(),
        forall|i: int| 0 <= i < routes.len() ==> (#[trigger] routes[i]).created_us <= then_us,
        forall|i: int| 0 <= i < fresh.len() ==> then_us < (#[trigger] fresh[i]).created_us,
    ensures
        rotated(routes, fresh) == fresh,
{
    lemma_rotated(routes, fresh, then_us);
    assert(rotated(routes, fresh).skip(0) == rotated(routes, fresh));
}

/// Of the routes that are reported, ours are those that a route of the pool has
/// the id of: all of these and no others, as often as they were reported and in
/// that order.
pub proof fn law_ours_are_the_reported_ones_in_the_pool(v: Seq<Way>, reported: Seq<Seq<char>>)
    ensures
        ours_among(v, reported) == reported.filter(|id: Seq<char>| v.map_values(|w: Way| w.id).contains(id)),
        forall|id: Seq<char>| #[trigger]
            ours_among(v, reported).contains(id) <==> reported.contains(id) && exists|i: int|
                0 <= i < v.len() && (#[trigger] v[i]).id == id,
    decreases reported.len(),
{
    reveal(Seq::filter);
    let ids = v.map_values(|w: Way| w.id);
    if reported.len() > 0 {
        let front = reported.drop_last();
        let last = reported.last();
        law_ours_are_the_reported_ones_in_the_pool(v, front);
        assert(has_way(v, last) == ids.contains(last)) by {
            if has_way(v, last) {
                let i = choose|i: int| 0 <= i < v.len() && (#[trigger] v[i]).id == last;
                assert(ids[i] == last);
            }
            if ids.contains(last) {
                let i = choose|i: int| 0 <= i < ids.len() && ids[i] == last;
                assert(v[i].id == last);
            }
        }
        assert(reported == front.push(last));
        assert forall|id: Seq<char>| #[trigger]
            ours_among(v, reported).contains(id) <==> reported.contains(id) && exists|i: int|
                0 <= i < v.len() && (#[trigger] v[i]).id == id by {
            counting::lemma_contains_push(front, last, id);
            counting::lemma_contains_push(ours_among(v, front), last, id);
        }
    }
}

/// Once the routes of ours that were reported are dropped, no route that is left
/// has a reported id, and every other one is left where it was.
pub proof fn law_no_reported_route_stays(routes: Seq<Way>, reported: Seq<Seq<char>>)
    ensures
        alive(routes, ours_among(routes, reported)) == routes.filter(
            |w: Way| !reported.contains(w.id),
        ),
        forall|i: int|
            0 <= i < alive(routes, ours_among(routes, reported)).len() ==> !reported.contains(
                (#[trigger] alive(routes, ours_among(routes, reported))[i]).id,
            ),
{
    let ours = ours_among(routes, reported);
    law_ours_are_the_reported_ones_in_the_pool(routes, reported);
    law_the_rest_of_the_pool_stays(routes, ours);
    let p = |w: Way| !ours.contains(w.id);
    let q = |w: Way| !reported.contains(w.id);
    assert forall|i: int| 0 <= i < routes.len() implies p(#[trigger] routes[i]) == q(routes[i]) by {
        assert(ours.contains(routes[i].id) == reported.contains(routes[i].id));
    }
    lemma_filter_alike(routes, p, q);
    assert forall|i: int| 0 <= i < alive(routes, ours).len() implies !reported.contains(
        (#[trigger] alive(routes, ours)[i]).id,
    ) by {
        routes.lemma_filter_pred(q, i);
    }
}

/// Two properties that agree on every item keep the same items.
proof fn lemma_filter_alike<T>(s: Seq<T>, p: spec_fn(T) -> bool, q: spec_fn(T) -> bool)
    requires
        forall|i: int| 0 <= i < s.len() ==> p(#[trigger] s[i]) == q(s[i]),
    ensures
        s.filter(p) == s.filter(q),
    decreases s.len(),
{
    reveal(Seq::filter);
    if s.len() > 0 {
        let front = s.drop_last();
        assert forall|i: int| 0 <= i < front.len() implies p(#[trigger] front[i]) == q(
            front[i],
        ) by {
            assert(front[i] == s[i]);
        }
        lemma_filter_alike(front, p, q);
        assert(p(s[s.len() - 1]) == q(s[s.len() - 1]));
    }
}

/// Dropping the dead leaves the other live routes as they were and in their
/// order.
pub proof fn law_the_rest_of_the_pool_stays(routes: Seq<Way>, dead: Seq<Seq<char>>)
    ensures
        alive(routes, dead) == routes.filter(|w: Way| !dead.contains(w.id)),
    decreases routes.len(),
{
    reveal(Seq::filter);
    if routes.len() > 0 {
        law_the_rest_of_the_pool_stays(routes.drop_last(), dead);
    }
}

/// Dropping the dead leaves the other replaced routes as they were and in their
/// order.
pub proof fn law_the_rest_of_the_replaced_stay(retiring: Seq<StoodDown>, dead: Seq<Seq<char>>)
    ensures
        still_standing_down(retiring, dead) == retiring.filter(
            |r: StoodDown| !dead.contains(r.id),
        ),
    decreases retiring.len(),
{
    reveal(Seq::filter);
    if retiring.len() > 0 {
        law_the_rest_of_the_replaced_stay(retiring.drop_last(), dead);
    }
}

/// Where nothing has died, nothing is dropped.
pub proof fn lemma_nothing_is_dropped(routes: Seq<Way>)
    ensures
        alive(routes, Seq::empty()) == routes,
    decreases routes.len(),
{
    if routes.len() > 0 {
        lemma_nothing_is_dropped(routes.drop_last());
        assert(routes.drop_last().push(routes.last()) == routes);
    }
}

/// Reaping parts the replaced routes by the clock: those stood down less than
/// ninety seconds ago are kept, the others are released, each in the order in
/// which they were.
pub proof fn law_the_grace_is_ninety_seconds(retiring: Seq<StoodDown>, now_us: u64)
    ensures
        graced(retiring, now_us) == retiring.filter(
            |r: StoodDown| now_us < r.since_us + 90 * 1_000_000,
        ),
        expired(retiring, now_us) == retiring.filter(
            |r: StoodDown| now_us >= r.since_us + 90 * 1_000_000,
        ).map_values(|r: StoodDown| r.id),
    decreases retiring.len(),
{
    reveal(Seq::filter);
    if retiring.len() == 0 {
        assert(expired(retiring, now_us) =~= retiring.filter(
            |r: StoodDown| now_us >= r.since_us + 90 * 1_000_000,
        ).map_values(|r: StoodDown| r.id));
    } else {
        law_the_grace_is_ninety_seconds(retiring.drop_last(), now_us);
        let over = retiring.drop_last().filter(
            |r: StoodDown| now_us >= r.since_us + 90 * 1_000_000,
        );
        assert(over.push(retiring.last()).map_values(|r: StoodDown| r.id) =~= over.map_values(
            |r: StoodDown| r.id,
        ).push(retiring.last().id));
    }
}

/// The greatest age is the time since the earliest route was made: no route was
/// made longer ago, and one was made just that long ago. A route that is from the
/// future has no age.
pub proof fn law_the_greatest_age_is_that_of_the_earliest(v: Seq<Way>, now_us: u64)
    ensures
        greatest_age(v, now_us) >= 0,
        forall|i: int| 0 <= i < v.len() ==> now_us - greatest_age(v, now_us) <= (
        #[trigger] v[i]).created_us,
        greatest_age(v, now_us) > 0 ==> exists|i: int|
            0 <= i < v.len() && (#[trigger] v[i]).created_us == now_us - greatest_age(v, now_us),
    decreases v.len(),
{
    if v.len() > 0 {
        let front = v.drop_last();
        law_the_greatest_age_is_that_of_the_earliest(front, now_us);
        assert forall|i: int| 0 <= i < v.len() implies now_us - greatest_age(v, now_us) <= (
        #[trigger] v[i]).created_us by {
            if i < front.len() {
                assert(front[i] == v[i]);
            }
        }
        if greatest_age(v, now_us) > 0 {
            if greatest_age(v, now_us) == greatest_age(front, now_us) {
                let i = choose|i: int|
                    0 <= i < front.len() && (#[trigger] front[i]).created_us == now_us
                        - greatest_age(front, now_us);
                assert(v[i].created_us == now_us - greatest_age(v, now_us));
            } else {
                assert(v[v.len() - 1].created_us == now_us - greatest_age(v, now_us));
            }
        }
    }
}

/// The route that is stood down is the first of the oldest: every route before it
/// was made later, and every one behind it no earlier. All the others stay, in
/// their order.
pub proof fn law_rotation_takes_out_just_the_first_of_the_oldest(routes: Seq<Way>, fresh: Way)
    ensures
        ({
            let all = routes.push(fresh);
            let k = oldest(all);
            &&& 0 <= k < all.len()
            &&& forall|i: int| 0 <= i < k ==> (#[trigger] all[i]).created_us > all[k].created_us
            &&& forall|i: int|
                k <= i < all.len() ==> (#[trigger] all[i]).created_us >= all[k].created_us
        }),
{
    lemma_oldest(routes.push(fresh));
    lemma_oldest_is_foremost(routes.push(fresh));
}

/// Every route before the oldest was made later.
proof fn lemma_oldest_is_foremost(v: Seq<Way>)
    requires
        v.len() > 0,
    ensures
        0 <= oldest(v) < v.len(),
        forall|i: int| 0 <= i < oldest(v) ==> (#[trigger] v[i]).created_us > v[oldest(
            v,
        )].created_us,
    decreases v.len(),
{
    if v.len() > 1 {
        let front = v.drop_last();
        lemma_oldest(front);
        lemma_oldest_is_foremost(front);
        assert forall|i: int| 0 <= i < oldest(v) implies (#[trigger] v[i]).created_us > v[oldest(
            v,
        )].created_us by {
            assert(front[i] == v[i]);
        }
    }
}

/// Every route is published, in the order of the pool.
pub proof fn law_every_route_is_published(v: Seq<Way>)
    ensures
        way_blobs(v).len() == v.len(),
        forall|i: int| 0 <= i < v.len() ==> #[trigger] way_blobs(v)[i] == v[i].blob,
{
}

} // verus!
