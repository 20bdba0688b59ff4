//! The receiving end as a whole: the transfers it has open, those it has
//! finished, and the routes it can be reached on.

use std::collections::{HashMap, HashSet};
use vstd::prelude::*;

use crate::incoming;
use crate::incoming::{Incoming, Progress};
use crate::pool;
use crate::pool::{after_loss, AfterLoss, Entry, Pool, StoodDown, Way};
use crate::proto;
use crate::proto::Said;
use crate::text;
use crate::transfer;
use crate::transfer::{answer, answerable, deliver, deliverable, finish_completed, RecvConfig};

verus! {

/// What the receiver keeps.
pub struct Receiver {
    pub transfers: HashMap<u64, Incoming>,
    /// Transfer ids that are already written out. A `complete` answer can be
    /// lost like anything else, and the sender will ask again; without this the
    /// second question answers "never heard of it" and it sends the whole file
    /// a second time.
    pub completed: HashSet<u64>,
    pub pool: Pool,
    /// Whether the pool is published in a rendezvous record.
    pub recorded: bool,
}

/// What the receiver keeps, over maps and sequences.
pub struct Desk {
    pub open: Map<u64, Progress>,
    pub completed: Set<u64>,
    pub routes: Seq<Way>,
    pub retiring: Seq<StoodDown>,
    pub want: usize,
    pub recorded: bool,
}

impl View for Receiver {
    type V = Desk;

    open spec fn view(&self) -> Desk {
        Desk {
            open: transfer::table(self.transfers@),
            completed: self.completed@,
            routes: pool::ways(self.pool.routes@),
            retiring: pool::stood_down(self.pool.retiring@),
            want: self.pool.want,
            recorded: self.recorded,
        }
    }
}

/// Whether the receiver is in order: every open transfer is one that a manifest
/// opened, and none that is open is finished as well.
pub open spec fn in_order(d: Desk) -> bool {
    &&& transfer::table_wf(d.open)
    &&& forall|id: u64| #[trigger] d.open.contains_key(id) ==> !d.completed.contains(id)
}

/// The open transfers once those that have all of their chunks are taken out.
pub open spec fn cleared(open: Map<u64, Progress>) -> Map<u64, Progress> {
    open.remove_keys(transfer::finished_ids(open))
}

/// Whether `done` holds every transfer of the table that has all of its chunks,
/// each once.
pub open spec fn all_finished(open: Map<u64, Progress>, done: Seq<Incoming>) -> bool {
    exists|ids: Seq<u64>|
        #![trigger transfer::lists_finished(open, ids)]
        {
            &&& transfer::lists_finished(open, ids)
            &&& done.len() == ids.len()
            &&& forall|i: int| 0 <= i < ids.len() ==> (#[trigger] done[i])@ == open[ids[i]]
        }
}

/// What comes of routes dying.
pub enum Loss {
    /// None of them was ours.
    Nothing,
    /// These were ours, and this many of them were live.
    Lost { dead: Vec<String>, live: usize },
}

impl Receiver {
    /// A receiver that nothing has reached yet.
    pub fn new(pool: Pool, recorded: bool) -> (r: Receiver)
        ensures
            in_order(r@),
            r@ == (Desk {
                open: Map::empty(),
                completed: Set::empty(),
                routes: pool::ways(pool.routes@),
                retiring: pool::stood_down(pool.retiring@),
                want: pool.want,
                recorded,
            }),
    {
        let r = Receiver { transfers: HashMap::new(), completed: HashSet::new(), pool, recorded };
        assert(transfer::table(r.transfers@) == Map::<u64, Progress>::empty());
        r
    }

    /// Whether `on_call` can take this message within the machine's limits.
    pub fn can_take_call(&self, cfg: &RecvConfig, message: &[u8]) -> (r: bool)
        ensures
            r == (match proto::heard(message@) {
                Some(said) => transfer::within_limits(
                    self@.open,
                    self@.completed,
                    cfg.max_bytes,
                    said,
                ),
                None => true,
            }),
    {
        answerable(&self.transfers, &self.completed, cfg, message)
    }

    /// Whether `on_message` can take this message within the machine's limits.
    pub fn can_take_message(&self, message: &[u8]) -> (r: bool)
        requires
            in_order(self@),
        ensures
            r == transfer::delivery_within_limits(self@.open, proto::heard(message@)),
    {
        deliverable(&self.transfers, message)
    }

    /// Take a call. Returns the answer, if the call was for us, and the
    /// transfers that turn out to be finished: answering a question is the
    /// moment for that, because the last chunk may have landed while we were
    /// idle.
    pub fn on_call(&mut self, cfg: &RecvConfig, message: &[u8], now_us: u64) -> (r: (
        Option<Vec<u8>>,
        Vec<Incoming>,
    ))
        requires
            in_order(old(self)@),
            proto::heard(message@) matches Some(said) ==> transfer::within_limits(
                old(self)@.open,
                old(self)@.completed,
                cfg.max_bytes,
                said,
            ),
        ensures
            in_order(final(self)@),
            ({
                let (reply, after) = match proto::heard(message@) {
                    Some(said) => transfer::answered(
                        old(self)@.open,
                        old(self)@.completed,
                        cfg.max_bytes,
                        now_us,
                        said,
                    ),
                    None => (None, old(self)@.open),
                };
                match reply {
                    None => r.0 is None && r.1@.len() == 0 && final(self)@ == old(self)@,
                    Some(packet) => {
                        &&& r.0 is Some
                        &&& r.0->Some_0@ == proto::on_wire(packet, 0)
                        &&& all_finished(after, r.1@)
                        &&& final(self)@ == (Desk {
                            open: cleared(after),
                            completed: old(self)@.completed + transfer::finished_ids(after),
                            ..old(self)@
                        })
                    },
                }
            }),
            r.0 is Some ==> forall|id: u64| #[trigger]
                final(self)@.open.contains_key(id) ==> final(self)@.open[id].have_count
                    != final(self)@.open[id].chunk_count,
            forall|id: u64|
                old(self)@.completed.contains(id) ==> #[trigger] final(self)@.completed.contains(id),
            final(self)@.routes == old(self)@.routes,
            final(self)@.retiring == old(self)@.retiring,
    {
        let ghost before = self@;
        let reply = answer(&mut self.transfers, &self.completed, cfg, message, now_us);
        let ghost after = self@.open;
        assert forall|id: u64| #[trigger] after.contains_key(id) implies !before.completed.contains(
            id,
        ) by {
            assert(before.open.contains_key(id) || !before.completed.contains(id));
        }
        match reply {
            None => {
                assert(self@ == before);
                (None, Vec::new())
            },
            Some(wire) => {
                let done = finish_completed(&mut self.transfers, &mut self.completed);
                assert(all_finished(after, done@));
                (Some(wire), done)
            },
        }
    }

    /// Take a message. Returns true if it held a chunk that was new.
    pub fn on_message(&mut self, message: &[u8]) -> (r: bool)
        requires
            in_order(old(self)@),
            transfer::delivery_within_limits(old(self)@.open, proto::heard(message@)),
        ensures
            in_order(final(self)@),
            final(self)@ == (Desk {
                open: transfer::delivered(old(self)@.open, proto::heard(message@)),
                ..old(self)@
            }),
            r == (match proto::heard(message@) {
                Some(Said::Chunk { xfer, index, data }) => {
                    let open = old(self)@.open;
                    &&& open.contains_key(xfer)
                    &&& incoming::belongs(open[xfer], index, data.len() as int)
                    &&& !open[xfer].have[index as int]
                },
                _ => false,
            }),
    {
        let ghost before = self@;
        let new = deliver(&mut self.transfers, message);
        assert forall|id: u64| #[trigger] self@.open.contains_key(id) implies !self@.completed.contains(
            id,
        ) by {
            assert(before.open.contains_key(id));
        }
        new
    }

    /// Hear that routes have died. Those of ours are dropped, for the caller to
    /// release and to replace.
    pub fn on_dead_routes(&mut self, reported: &Vec<String>) -> (r: Loss)
        requires
            in_order(old(self)@),
        ensures
            in_order(final(self)@),
            ({
                let ours = pool::ours_among(old(self)@.routes, text::texts(reported@));
                if ours.len() == 0 {
                    r is Nothing && final(self)@ == old(self)@
                } else {
                    &&& r matches Loss::Lost { dead, live } && {
                        &&& text::texts(dead@) == ours
                        &&& live == old(self)@.routes.len() - final(self)@.routes.len()
                    }
                    &&& final(self)@ == (Desk {
                        routes: pool::alive(old(self)@.routes, ours),
                        retiring: pool::still_standing_down(old(self)@.retiring, ours),
                        ..old(self)@
                    })
                }
            }),
            forall|i: int|
                0 <= i < final(self)@.routes.len() ==> !text::texts(reported@).contains(
                    (#[trigger] final(self)@.routes[i]).id,
                ),
    {
        proof {
            let reported = text::texts(reported@);
            pool::law_no_reported_route_stays(self@.routes, reported);
            if pool::ours_among(self@.routes, reported).len() == 0 {
                pool::lemma_nothing_is_dropped(self@.routes);
                assert(pool::ours_among(self@.routes, reported) == Seq::<Seq<char>>::empty());
            }
        }
        let dead = self.pool.ours(reported);
        assert(text::texts(dead@).len() == dead@.len());
        if dead.len() == 0 {
            return Loss::Nothing;
        }
        let live = self.pool.drop_dead(&dead);
        Loss::Lost { dead, live }
    }

    /// What to do now that routes have been lost and replaced as far as they
    /// could be.
    pub fn after_loss(&self) -> (r: AfterLoss)
        ensures
            r == (if self@.routes.len() == 0 {
                AfterLoss::Stop
            } else if !self@.recorded {
                AfterLoss::StopUnrecorded
            } else {
                AfterLoss::Republish
            }),
    {
        assert(self@.routes.len() == self.pool.routes@.len());
        after_loss(&self.pool, self.recorded)
    }

    /// It is time to rotate. Returns the routes whose grace is over, for the
    /// caller to release, and whether to replace one: without a record nobody
    /// can learn the new route, so rotating would only throw away the one they
    /// have.
    pub fn on_rotation(&mut self, now_us: u64) -> (r: (Vec<String>, bool))
        requires
            in_order(old(self)@),
        ensures
            in_order(final(self)@),
            text::texts(r.0@) == pool::expired(old(self)@.retiring, now_us),
            r.1 == old(self)@.recorded,
            final(self)@ == (Desk {
                retiring: pool::graced(old(self)@.retiring, now_us),
                ..old(self)@
            }),
    {
        let over = self.pool.reap(now_us);
        (over, self.recorded)
    }

    /// Take in the route that replaces the oldest. Returns the id that was stood
    /// down and the one that replaced it.
    pub fn replace_oldest(&mut self, fresh: Entry, now_us: u64) -> (r: (String, String))
        requires
            in_order(old(self)@),
        ensures
            in_order(final(self)@),
            ({
                let all = old(self)@.routes.push(fresh@);
                let gone = all[pool::oldest(all)].id;
                &&& r.0@ == gone
                &&& r.1@ == fresh@.id
                &&& final(self)@ == (Desk {
                    routes: all.remove(pool::oldest(all)),
                    retiring: old(self)@.retiring.push(
                        (StoodDown { id: gone, since_us: now_us }),
                    ),
                    ..old(self)@
                })
            }),
    {
        self.pool.rotate(fresh, now_us)
    }
}

/// Once the finished transfers are taken out, the open ones are those of which
/// something is missing, each as it was.
pub proof fn law_only_the_unfinished_stay_open(open: Map<u64, Progress>, id: u64)
    requires
        transfer::table_wf(open),
    ensures
        cleared(open).contains_key(id) <==> open.contains_key(id) && (exists|i: int|
            0 <= i < open[id].chunk_count && !#[trigger] open[id].have[i]),
        cleared(open).contains_key(id) ==> cleared(open)[id] == open[id],
{
    transfer::law_finished_means_nothing_is_missing(open, id);
}

} // verus!
