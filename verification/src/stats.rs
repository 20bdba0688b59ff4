//! Accumulators for one run.
//!
//! Two things are worth understanding before reading the numbers these produce:
//!
//! * **Round-trip time is trustworthy.** `rtt = (t3 - t0) - (t2 - t1)` subtracts
//!   the responder's own dwell time, and both halves of each subtraction come
//!   from a single clock, so the offset between the two hosts cancels exactly.
//! * **One-way delay is not.** `t1 - t0` crosses clocks, so it carries whatever
//!   the two machines disagree by. Its *variation* is still meaningful: skew is
//!   constant over a short run, so it drops out of jitter.
//!
//! Everything is kept in whole microseconds. Turning them into milliseconds and
//! percentages is left to whoever prints them.

use std::collections::HashSet;
use vstd::prelude::*;

use crate::counting;
use crate::foreign::sort_ascending;

verus! {

/// A pile of microsecond samples we can take percentiles over.
pub struct Latency {
    samples: Vec<u64>,
}

impl View for Latency {
    type V = Seq<u64>;

    closed spec fn view(&self) -> Seq<u64> {
        self.samples@
    }
}

/// The sum of all samples.
pub open spec fn total(s: Seq<u64>) -> nat
    decreases s.len(),
{
    if s.len() == 0 {
        0
    } else {
        total(s.drop_last()) + s.last() as nat
    }
}

/// Whether `v` is the sample at nearest rank `k`: fewer than `k` samples are
/// below it, and at least `k` are no greater.
pub open spec fn at_rank(s: Seq<u64>, k: int, v: u64) -> bool {
    &&& s.contains(v)
    &&& counting::count_where(s, |x: u64| x < v) < k
    &&& k <= counting::count_where(s, |x: u64| x <= v)
}

/// `rank` brought into `1..=n`.
pub open spec fn clamp_rank(rank: int, n: int) -> int {
    if rank < 1 {
        1
    } else if rank > n {
        n
    } else {
        rank
    }
}

impl Default for Latency {
    fn default() -> (r: Latency)
        ensures
            r@ == Seq::<u64>::empty(),
    {
        Latency { samples: Vec::new() }
    }
}

impl Latency {
    /// Add a sample.
    pub fn push(&mut self, us: u64)
        ensures
            final(self)@ == old(self)@.push(us),
    {
        self.samples.push(us);
    }

    /// How many samples there are.
    pub fn count(&self) -> (r: usize)
        ensures
            r == self@.len(),
    {
        self.samples.len()
    }

    /// Whether there are none.
    pub fn is_empty(&self) -> (r: bool)
        ensures
            r == (self@.len() == 0),
    {
        self.samples.is_empty()
    }

    /// The sum of the samples, from which the mean is taken.
    pub fn sum_us(&self) -> (r: u128)
        ensures
            r == total(self@),
    {
        let mut sum: u128 = 0;
        let mut i: usize = 0;
        while i < self.samples.len()
            invariant
                i <= self.samples@.len(),
                sum == total(self.samples@.take(i as int)),
                sum <= i * 0xffff_ffff_ffff_ffff,
            decreases self.samples@.len() - i,
        {
            assert(self.samples@.take(i + 1).drop_last() == self.samples@.take(i as int));
            assert(i * 0xffff_ffff_ffff_ffff <= 0xffff_ffff_ffff_ffff * 0xffff_ffff_ffff_ffff)
                by (nonlinear_arith)
                requires
                    0 <= i <= 0xffff_ffff_ffff_ffff,
            ;
            sum = sum + self.samples[i] as u128;
            i = i + 1;
        }
        assert(self.samples@.take(self.samples@.len() as int) == self.samples@);
        sum
    }

    /// Nearest-rank percentile: the sample at `rank`, counted from one in
    /// ascending order. A rank outside the samples is brought inside; no samples
    /// at all read as zero.
    pub fn rank_us(&self, rank: usize) -> (r: u64)
        ensures
            self@.len() == 0 ==> r == 0,
            self@.len() > 0 ==> at_rank(self@, clamp_rank(rank as int, self@.len() as int), r),
    {
        if self.samples.is_empty() {
            return 0;
        }
        let mut sorted: Vec<u64> = Vec::new();
        let mut i: usize = 0;
        while i < self.samples.len()
            invariant
                i <= self.samples@.len(),
                sorted@ == self.samples@.take(i as int),
            decreases self.samples@.len() - i,
        {
            sorted.push(self.samples[i]);
            i = i + 1;
        }
        assert(sorted@ == self.samples@);
        sort_ascending(&mut sorted);
        let n = sorted.len();
        let k: usize = if rank < 1 {
            1
        } else if rank > n {
            n
        } else {
            rank
        };
        let v = sorted[k - 1];
        proof {
            broadcast use vstd::seq_lib::group_to_multiset_ensures;

            let lower = |x: u64| x < v;
            let upper = |x: u64| x <= v;
            counting::lemma_count_at_most(sorted@, lower, k - 1);
            counting::lemma_count_at_least(sorted@, upper, k as int);
            counting::lemma_count_by_multiset(sorted@, lower);
            counting::lemma_count_by_multiset(sorted@, upper);
            counting::lemma_count_by_multiset(self@, lower);
            counting::lemma_count_by_multiset(self@, upper);
            assert(sorted@.contains(v));
            assert(sorted@.to_multiset().count(v) > 0);
            assert(self@.contains(v));
        }
        v
    }

    /// The smallest sample, or zero if there are none.
    pub fn min_us(&self) -> (r: u64)
        ensures
            self@.len() == 0 ==> r == 0,
            self@.len() > 0 ==> self@.contains(r) && forall|i: int|
                0 <= i < self@.len() ==> r <= #[trigger] self@[i],
    {
        if self.samples.is_empty() {
            return 0;
        }
        let mut best: u64 = self.samples[0];
        let mut i: usize = 1;
        assert(self@[0] == best);
        while i < self.samples.len()
            invariant
                1 <= i <= self.samples@.len(),
                self.samples@.contains(best),
                forall|k: int| 0 <= k < i ==> best <= #[trigger] self.samples@[k],
            decreases self.samples@.len() - i,
        {
            if self.samples[i] < best {
                best = self.samples[i];
            }
            i = i + 1;
        }
        best
    }

    /// The largest sample, or zero if there are none.
    pub fn max_us(&self) -> (r: u64)
        ensures
            self@.len() == 0 ==> r == 0,
            self@.len() > 0 ==> self@.contains(r) && forall|i: int|
                0 <= i < self@.len() ==> r >= #[trigger] self@[i],
    {
        if self.samples.is_empty() {
            return 0;
        }
        let mut best: u64 = self.samples[0];
        let mut i: usize = 1;
        assert(self@[0] == best);
        while i < self.samples.len()
            invariant
                1 <= i <= self.samples@.len(),
                self.samples@.contains(best),
                forall|k: int| 0 <= k < i ==> best >= #[trigger] self.samples@[k],
            decreases self.samples@.len() - i,
        {
            if self.samples[i] > best {
                best = self.samples[i];
            }
            i = i + 1;
        }
        best
    }
}

/// Interarrival jitter, fed the *transit* value (arrival clock minus departure
/// clock), which may be wildly wrong in absolute terms across two unsynced
/// hosts. Only successive differences are used, so the constant offset cancels.
pub struct Jitter {
    last_transit: Option<i64>,
}

/// How far apart two transits are.
pub open spec fn apart(a: int, b: int) -> int {
    if a >= b {
        a - b
    } else {
        b - a
    }
}

impl Default for Jitter {
    fn default() -> (r: Jitter)
        ensures
            r.last() is None,
    {
        Jitter { last_transit: None }
    }
}

impl Jitter {
    /// The transit seen last.
    pub closed spec fn last(&self) -> Option<i64> {
        self.last_transit
    }

    /// Whether the difference to the transit seen last can be taken.
    pub open spec fn takes(&self, transit_us: i64) -> bool {
        self.last() matches Some(prev) ==> apart(transit_us as int, prev as int) <= i64::MAX
    }

    /// Whether the difference to the transit seen last can be taken.
    pub fn can_take(&self, transit_us: i64) -> (r: bool)
        ensures
            r == self.takes(transit_us),
    {
        match self.last_transit {
            None => true,
            Some(prev) => {
                let d: i128 = transit_us as i128 - prev as i128;
                -0x7fff_ffff_ffff_ffff <= d && d <= 0x7fff_ffff_ffff_ffff
            },
        }
    }

    /// Take in the next transit. The result is its distance to the one before,
    /// which is what the smoothed jitter is made of; the first has none.
    pub fn update(&mut self, transit_us: i64) -> (r: Option<u64>)
        requires
            old(self).takes(transit_us),
        ensures
            final(self).last() == Some(transit_us),
            match old(self).last() {
                None => r is None,
                Some(prev) => r is Some && r->0 == apart(transit_us as int, prev as int),
            },
            old(self).last() matches Some(prev) ==> (r->0 == transit_us - prev || r->0 == prev
                - transit_us),
    {
        let d: Option<u64> = match self.last_transit {
            None => None,
            Some(prev) => if transit_us >= prev {
                Some((transit_us - prev) as u64)
            } else {
                Some((prev - transit_us) as u64)
            },
        };
        self.last_transit = Some(transit_us);
        d
    }
}

/// Sequence-number bookkeeping: what arrived, what didn't, what arrived twice
/// or out of order.
pub struct Arrivals {
    pub seen: HashSet<u64>,
    pub lowest: Option<u64>,
    pub highest: Option<u64>,
    pub received: u64,
    pub duplicates: u64,
    pub reordered: u64,
}

/// What has arrived so far.
pub struct Tally {
    pub seen: Set<u64>,
    pub lowest: Option<u64>,
    pub highest: Option<u64>,
    pub received: int,
    pub duplicates: int,
    pub reordered: int,
}

/// Nothing has arrived.
pub open spec fn no_arrivals() -> Tally {
    Tally {
        seen: Set::empty(),
        lowest: None,
        highest: None,
        received: 0,
        duplicates: 0,
        reordered: 0,
    }
}

/// `t` after `seq` has arrived as well.
pub open spec fn arrived(t: Tally, seq: u64) -> Tally {
    if t.seen.contains(seq) {
        Tally { received: t.received + 1, duplicates: t.duplicates + 1, ..t }
    } else {
        let late = t.highest matches Some(h) && seq < h;
        Tally {
            seen: t.seen.insert(seq),
            lowest: if t.lowest matches Some(l) && l <= seq {
                t.lowest
            } else {
                Some(seq)
            },
            highest: if late {
                t.highest
            } else {
                Some(seq)
            },
            received: t.received + 1,
            duplicates: t.duplicates,
            reordered: t.reordered + if late {
                1int
            } else {
                0int
            },
        }
    }
}

/// What holds of every tally: the two ends are the ends of what was seen, and
/// every arrival is either new or a duplicate.
pub open spec fn tally_wf(t: Tally) -> bool {
    &&& t.seen.finite()
    &&& t.received == t.seen.len() + t.duplicates
    &&& 0 <= t.duplicates
    &&& 0 <= t.reordered <= t.seen.len()
    &&& t.lowest is Some == t.highest is Some
    &&& t.lowest is None ==> t.seen.len() == 0
    &&& t.lowest matches Some(lo) ==> {
        &&& t.seen.contains(lo)
        &&& forall|s: u64| #[trigger] t.seen.contains(s) ==> lo <= s
    }
    &&& t.highest matches Some(hi) ==> {
        &&& t.seen.contains(hi)
        &&& forall|s: u64| #[trigger] t.seen.contains(s) ==> s <= hi
    }
}

/// How many sequence numbers lie between the lowest and the highest seen.
pub open spec fn span_of(t: Tally) -> int {
    match (t.lowest, t.highest) {
        (Some(lo), Some(hi)) => hi - lo + 1,
        _ => 0,
    }
}

impl Default for Arrivals {
    fn default() -> (r: Arrivals)
        ensures
            r.tally() == no_arrivals(),
            r.wf(),
    {
        let r = Arrivals {
            seen: HashSet::new(),
            lowest: None,
            highest: None,
            received: 0,
            duplicates: 0,
            reordered: 0,
        };
        r
    }
}

impl Arrivals {
    /// What has arrived so far.
    pub open spec fn tally(&self) -> Tally {
        Tally {
            seen: self.seen@,
            lowest: self.lowest,
            highest: self.highest,
            received: self.received as int,
            duplicates: self.duplicates as int,
            reordered: self.reordered as int,
        }
    }

    /// Whether the books balance.
    pub open spec fn wf(&self) -> bool {
        tally_wf(self.tally())
    }

    /// Returns false if this sequence number has been seen before.
    pub fn record(&mut self, seq: u64) -> (r: bool)
        requires
            old(self).wf(),
            old(self).tally().received < u64::MAX,
        ensures
            final(self).wf(),
            final(self).tally() == arrived(old(self).tally(), seq),
            r == !old(self).tally().seen.contains(seq),
    {
        proof {
            lemma_arrived_wf(self.tally(), seq);
        }
        self.received = self.received + 1;
        if !self.seen.insert(seq) {
            self.duplicates = self.duplicates + 1;
            assert(self.seen@ == old(self).seen@);
            return false;
        }
        match self.lowest {
            Some(l) => if seq < l {
                self.lowest = Some(seq);
            },
            None => {
                self.lowest = Some(seq);
            },
        }
        match self.highest {
            Some(h) => if seq < h {
                self.reordered = self.reordered + 1;
            } else {
                self.highest = Some(seq);
            },
            None => {
                self.highest = Some(seq);
            },
        }
        true
    }

    /// Whether the span of the numbers seen can be counted.
    pub fn span_fits(&self) -> (r: bool)
        requires
            self.wf(),
        ensures
            r == (span_of(self.tally()) <= u64::MAX),
    {
        match (self.lowest, self.highest) {
            (Some(l), Some(h)) => h - l < u64::MAX,
            _ => true,
        }
    }

    /// How many different sequence numbers have arrived.
    pub fn unique(&self) -> (r: u64)
        requires
            self.wf(),
        ensures
            r == self.tally().seen.len(),
    {
        self.seen.len() as u64
    }

    /// Loss inferred from the sequence range actually observed, and the length
    /// of that range. Only an estimate: anything lost past the last packet to
    /// arrive is invisible.
    pub fn inferred_loss(&self) -> (r: (u64, u64))
        requires
            self.wf(),
            span_of(self.tally()) <= u64::MAX,
        ensures
            r.1 == span_of(self.tally()),
            r.0 == span_of(self.tally()) - self.tally().seen.len(),
    {
        match (self.lowest, self.highest) {
            (Some(lo), Some(hi)) => {
                proof {
                    lemma_seen_within_span(self.tally());
                    assert(self.tally().seen.contains(lo));
                }
                let span: u64 = hi - lo + 1;
                (span - self.unique(), span)
            },
            _ => (0, 0),
        }
    }
}

/// The books still balance after one more arrival.
proof fn lemma_arrived_wf(t: Tally, seq: u64)
    requires
        tally_wf(t),
    ensures
        tally_wf(arrived(t, seq)),
{
}

/// The sequence numbers from `lo` to `hi`.
pub open spec fn numbers(lo: u64, hi: u64) -> Set<u64> {
    Set::new(|s: u64| lo <= s <= hi)
}

/// There are `hi - lo + 1` of them.
proof fn lemma_numbers_len(lo: u64, hi: u64)
    requires
        lo <= hi,
    ensures
        numbers(lo, hi).finite(),
        numbers(lo, hi).len() == hi - lo + 1,
    decreases hi - lo,
{
    if lo == hi {
        assert(numbers(lo, hi) == Set::<u64>::empty().insert(lo));
    } else {
        let less = (hi - 1) as u64;
        lemma_numbers_len(lo, less);
        assert(numbers(lo, hi) == numbers(lo, less).insert(hi));
    }
}

/// No more is seen than the span holds.
proof fn lemma_seen_within_span(t: Tally)
    requires
        tally_wf(t),
    ensures
        t.seen.len() <= span_of(t),
{
    if let (Some(lo), Some(hi)) = (t.lowest, t.highest) {
        assert(t.seen.contains(hi));
        lemma_numbers_len(lo, hi);
        assert(t.seen.subset_of(numbers(lo, hi)));
        vstd::set_lib::lemma_len_subset(t.seen, numbers(lo, hi));
    }
}

// ---------------------------------------------------------------------------
// laws
// ---------------------------------------------------------------------------

/// The tally after a whole run of arrivals.
pub open spec fn arrived_all(seqs: Seq<u64>) -> Tally
    decreases seqs.len(),
{
    if seqs.len() == 0 {
        no_arrivals()
    } else {
        arrived(arrived_all(seqs.drop_last()), seqs.last())
    }
}

/// Whatever arrives, in whatever order: every arrival is received, the ones seen
/// are the ones that arrived, and whatever is not the first of its number is a
/// duplicate.
pub proof fn law_every_arrival_is_accounted_for(seqs: Seq<u64>)
    ensures
        tally_wf(arrived_all(seqs)),
        arrived_all(seqs).received == seqs.len(),
        arrived_all(seqs).seen == seqs.to_set(),
        arrived_all(seqs).duplicates == seqs.len() - seqs.to_set().len(),
    decreases seqs.len(),
{
    if seqs.len() == 0 {
        assert(seqs.to_set() == Set::<u64>::empty());
    } else {
        let front = seqs.drop_last();
        law_every_arrival_is_accounted_for(front);
        lemma_arrived_wf(arrived_all(front), seqs.last());
        assert(seqs == front.push(seqs.last()));
        assert(seqs.to_set() == front.to_set().insert(seqs.last())) by {
            assert forall|s: u64| seqs.to_set().contains(s) == front.to_set().insert(
                seqs.last(),
            ).contains(s) by {
                if front.contains(s) {
                    let i = choose|i: int| 0 <= i < front.len() && front[i] == s;
                    assert(seqs[i] == s);
                }
                if seqs.contains(s) {
                    let i = choose|i: int| 0 <= i < seqs.len() && seqs[i] == s;
                    if i < front.len() {
                        assert(front[i] == s);
                    }
                }
                if s == seqs.last() {
                    assert(seqs[seqs.len() - 1] == s);
                }
            }
        }
        assert(arrived_all(seqs).seen == seqs.to_set());
    }
}

/// The inferred loss is the number of sequence numbers between the lowest and
/// the highest seen that were not seen themselves.
pub proof fn law_loss_is_what_is_missing_from_the_span(t: Tally)
    requires
        tally_wf(t),
        t.lowest is Some,
    ensures
        span_of(t) - t.seen.len() == numbers(t.lowest->0, t.highest->0).difference(t.seen).len(),
{
    let all = numbers(t.lowest->0, t.highest->0);
    assert(t.seen.contains(t.lowest->0));
    lemma_numbers_len(t.lowest->0, t.highest->0);
    assert(t.seen.subset_of(all));
    let rest = all.difference(t.seen);
    assert(rest.finite());
    assert(rest + t.seen == all);
    assert(rest.disjoint(t.seen));
    vstd::set_lib::lemma_set_disjoint_lens(rest, t.seen);
}

/// Only one value sits at a given rank.
pub proof fn law_a_rank_names_one_sample(s: Seq<u64>, k: int, v: u64, w: u64)
    requires
        at_rank(s, k, v),
        at_rank(s, k, w),
    ensures
        v == w,
{
    if v < w {
        lemma_count_monotone(s, |x: u64| x <= v, |x: u64| x < w);
    }
    if w < v {
        lemma_count_monotone(s, |x: u64| x <= w, |x: u64| x < v);
    }
}

/// A weaker property is had by no fewer items.
proof fn lemma_count_monotone(s: Seq<u64>, p: spec_fn(u64) -> bool, q: spec_fn(u64) -> bool)
    requires
        forall|i: int| 0 <= i < s.len() && p(#[trigger] s[i]) ==> q(s[i]),
    ensures
        counting::count_where(s, p) <= counting::count_where(s, q),
    decreases s.len(),
{
    if s.len() > 0 {
        let front = s.drop_last();
        assert forall|i: int| 0 <= i < front.len() && p(#[trigger] front[i]) implies q(front[i]) by {
            assert(front[i] == s[i]);
        }
        assert(s.last() == s[s.len() - 1]);
        lemma_count_monotone(front, p, q);
    }
}

/// A constant clock offset drops out of the spread between percentiles: when
/// every sample is shifted by the same amount, so is every percentile.
pub proof fn law_the_spread_ignores_a_constant_offset(
    s: Seq<u64>,
    shifted: Seq<u64>,
    skew: int,
    k: int,
    v: u64,
)
    requires
        shifted.len() == s.len(),
        forall|i: int| 0 <= i < s.len() ==> #[trigger] shifted[i] == s[i] + skew,
        at_rank(s, k, v),
    ensures
        0 <= v + skew <= u64::MAX,
        at_rank(shifted, k, (v + skew) as u64),
{
    let at = choose|i: int| 0 <= i < s.len() && s[i] == v;
    assert(shifted[at] == v + skew);
    let w = (v + skew) as u64;
    lemma_same_count(s, |x: u64| x < v, shifted, |x: u64| x < w);
    lemma_same_count(s, |x: u64| x <= v, shifted, |x: u64| x <= w);
}

/// Items that have a property in the same places are the same in number.
proof fn lemma_same_count(
    s: Seq<u64>,
    p: spec_fn(u64) -> bool,
    t: Seq<u64>,
    q: spec_fn(u64) -> bool,
)
    requires
        s.len() == t.len(),
        forall|i: int| 0 <= i < s.len() ==> p(#[trigger] s[i]) == q(t[i]),
    ensures
        counting::count_where(s, p) == counting::count_where(t, q),
    decreases s.len(),
{
    if s.len() > 0 {
        let a = s.drop_last();
        let b = t.drop_last();
        assert forall|i: int| 0 <= i < a.len() implies p(#[trigger] a[i]) == q(b[i]) by {
            assert(p(s[i]) == q(t[i]));
        }
        lemma_same_count(a, p, b, q);
        assert(p(s[s.len() - 1]) == q(t[t.len() - 1]));
    }
}

/// How far apart neighbouring transits are: what `Jitter::update` hands out when
/// it is fed one transit after the other.
pub open spec fn differences(transits: Seq<int>) -> Seq<int> {
    Seq::new(
        if transits.len() > 0 {
            (transits.len() - 1) as nat
        } else {
            0
        },
        |i: int| apart(transits[i + 1], transits[i]),
    )
}

/// A constant clock offset drops out of jitter: a run of transits that are all
/// shifted by the same amount has the differences it had before.
pub proof fn law_jitter_ignores_a_constant_offset(transits: Seq<int>, skew: int)
    ensures
        differences(transits.map_values(|t: int| t + skew)) == differences(transits),
{
}

/// What a run of transits is smoothed to: `step` takes the value so far and the
/// next difference to the value after it.
pub open spec fn smoothed<S>(
    start: S,
    step: spec_fn(S, int) -> S,
    transits: Seq<int>,
) -> S {
    differences(transits).fold_left(start, step)
}

/// The jitter that RFC 3550 defines, over the differences so far: it starts at
/// nothing, and each difference takes J to J + (d - J) / 16. The value is exact,
/// as a whole number of 16^-n microseconds for n differences.
pub open spec fn scaled_jitter(differences: Seq<int>) -> int
    decreases differences.len(),
{
    if differences.len() == 0 {
        0
    } else {
        15 * scaled_jitter(differences.drop_last()) + differences.last() * sixteens(
            (differences.len() - 1) as nat,
        )
    }
}

/// 16^n.
pub open spec fn sixteens(n: nat) -> int
    decreases n,
{
    if n == 0 {
        1
    } else {
        16 * sixteens((n - 1) as nat)
    }
}

/// The jitter that RFC 3550 defines is unaffected by a constant clock offset, and
/// nothing at all for a steady transit.
pub proof fn law_rfc3550_jitter_ignores_a_constant_offset(transits: Seq<int>, skew: int)
    ensures
        scaled_jitter(differences(transits.map_values(|t: int| t + skew))) == scaled_jitter(
            differences(transits),
        ),
        (forall|i: int, j: int|
            0 <= i < transits.len() && 0 <= j < transits.len() ==> transits[i] == transits[j])
            ==> scaled_jitter(differences(transits)) == 0,
{
    law_jitter_ignores_a_constant_offset(transits, skew);
    if forall|i: int, j: int|
        0 <= i < transits.len() && 0 <= j < transits.len() ==> transits[i] == transits[j] {
        law_a_steady_transit_has_no_jitter(transits);
        lemma_zeros_make_no_jitter(differences(transits));
    }
}

/// Each difference moves the jitter a sixteenth of the way towards it: with
/// values in 16^-n microseconds, 16 * (J' - J) == d - J.
pub proof fn law_jitter_moves_a_sixteenth_of_the_way(before: Seq<int>, d: int)
    ensures
        ({
            let n = before.len();
            let old_j = 16 * scaled_jitter(before);
            let new_j = scaled_jitter(before.push(d));
            16 * (new_j - old_j) == d * sixteens(n + 1) - old_j
        }),
{
    assert(before.push(d).drop_last() == before);
    let s = sixteens(before.len());
    assert(sixteens(before.len() + 1) == 16 * s);
    assert(d * (16 * s) == 16 * (d * s)) by (nonlinear_arith);
}

/// Differences of nothing make no jitter.
proof fn lemma_zeros_make_no_jitter(d: Seq<int>)
    requires
        forall|i: int| 0 <= i < d.len() ==> #[trigger] d[i] == 0,
    ensures
        scaled_jitter(d) == 0,
    decreases d.len(),
{
    if d.len() > 0 {
        let front = d.drop_last();
        assert forall|i: int| 0 <= i < front.len() implies #[trigger] front[i] == 0 by {
            assert(d[i] == 0);
        }
        lemma_zeros_make_no_jitter(front);
        assert(d[d.len() - 1] == 0);
        assert(0 * sixteens((d.len() - 1) as nat) == 0) by (nonlinear_arith);
    }
}

/// Whatever way the differences are smoothed, a constant clock offset drops out
/// of the result.
pub proof fn law_smoothed_jitter_ignores_a_constant_offset<S>(
    start: S,
    step: spec_fn(S, int) -> S,
    transits: Seq<int>,
    skew: int,
)
    ensures
        smoothed(start, step, transits.map_values(|t: int| t + skew)) == smoothed(
            start,
            step,
            transits,
        ),
{
    law_jitter_ignores_a_constant_offset(transits, skew);
}

/// A way of smoothing that stays where it is when nothing changes stays at its
/// start for a steady transit.
pub proof fn law_a_steady_transit_smooths_to_the_start<S>(
    start: S,
    step: spec_fn(S, int) -> S,
    transits: Seq<int>,
)
    requires
        step(start, 0) == start,
        forall|i: int, j: int| 0 <= i < transits.len() && 0 <= j < transits.len() ==> transits[i]
            == transits[j],
    ensures
        smoothed(start, step, transits) == start,
{
    law_a_steady_transit_has_no_jitter(transits);
    lemma_zeros_fold_away(start, step, differences(transits));
}

/// Differences of nothing leave the start as it is.
proof fn lemma_zeros_fold_away<S>(start: S, step: spec_fn(S, int) -> S, d: Seq<int>)
    requires
        step(start, 0) == start,
        forall|i: int| 0 <= i < d.len() ==> #[trigger] d[i] == 0,
    ensures
        d.fold_left(start, step) == start,
    decreases d.len(),
{
    if d.len() > 0 {
        let front = d.drop_last();
        assert forall|i: int| 0 <= i < front.len() implies #[trigger] front[i] == 0 by {
            assert(d[i] == 0);
        }
        lemma_zeros_fold_away(start, step, front);
        assert(d[d.len() - 1] == 0);
    }
}

/// A steady transit has no jitter, whatever it is.
pub proof fn law_a_steady_transit_has_no_jitter(transits: Seq<int>)
    requires
        forall|i: int, j: int| 0 <= i < transits.len() && 0 <= j < transits.len() ==> transits[i]
            == transits[j],
    ensures
        forall|i: int| 0 <= i < differences(transits).len() ==> differences(transits)[i] == 0,
{
}

/// The distance of two transits is their absolute difference: it is the same
/// either way round, what lies between them added to the lower one makes the
/// upper one, it is nothing only where they are equal, and it is never shorter to
/// go by way of a third.
pub proof fn law_the_distance_of_transits_is_absolute(a: int, b: int, c: int)
    ensures
        apart(a, b) >= 0,
        apart(a, b) == apart(b, a),
        apart(a, b) == a - b || apart(a, b) == b - a,
        c >= 0 ==> apart(b + c, b) == c && apart(b, b + c) == c,
        apart(a, b) == 0 <==> a == b,
        apart(a, c) <= apart(a, b) + apart(b, c),
{
}

/// There is one difference for each transit but the first, and it says how far
/// that transit rose above the one before it or fell below it. Going through the
/// transits backwards gives the same differences backwards.
pub proof fn law_rises_and_falls_count_alike(transits: Seq<int>, i: int)
    requires
        0 < i < transits.len(),
    ensures
        differences(transits).len() + 1 == transits.len(),
        transits[i] >= transits[i - 1] ==> transits[i] == transits[i - 1] + differences(
            transits,
        )[i - 1],
        transits[i] <= transits[i - 1] ==> transits[i] == transits[i - 1] - differences(
            transits,
        )[i - 1],
        differences(transits.reverse()) == differences(transits).reverse(),
{
    let back = transits.reverse();
    assert forall|k: int| 0 <= k < transits.len() - 1 implies #[trigger] differences(back)[k]
        == differences(transits).reverse()[k] by {
        assert(back[k] == transits[transits.len() - 1 - k]);
        assert(back[k + 1] == transits[transits.len() - 2 - k]);
    }
    assert(differences(back) =~= differences(transits).reverse());
}

/// The sum of the samples is made of each of them once.
pub proof fn law_the_sum_adds_up(s: Seq<u64>, t: Seq<u64>, x: u64)
    ensures
        total(Seq::<u64>::empty()) == 0,
        total(seq![x]) == x,
        total(s + t) == total(s) + total(t),
    decreases t.len(),
{
    assert(seq![x].drop_last() == Seq::<u64>::empty());
    assert(total(seq![x].drop_last()) == 0);
    if t.len() == 0 {
        assert(s + t == s);
    } else {
        law_the_sum_adds_up(s, t.drop_last(), x);
        assert((s + t).drop_last() == s + t.drop_last());
        assert((s + t).last() == t.last());
    }
}

/// In samples that ascend, the one at a rank is the one that many places in.
pub proof fn law_a_rank_counts_from_the_smallest(s: Seq<u64>, k: int, v: u64)
    requires
        1 <= k <= s.len(),
        forall|i: int, j: int| 0 <= i <= j < s.len() ==> s[i] <= s[j],
    ensures
        at_rank(s, k, v) <==> v == s[k - 1],
{
    let w = s[k - 1];
    counting::lemma_count_at_most(s, |x: u64| x < w, k - 1);
    counting::lemma_count_at_least(s, |x: u64| x <= w, k);
    assert(at_rank(s, k, w));
    if at_rank(s, k, v) {
        law_a_rank_names_one_sample(s, k, v, w);
    }
}

/// A rank within the samples is taken as it is. One below them names the smallest
/// sample, one above them the largest.
pub proof fn law_a_rank_is_brought_inside(s: Seq<u64>, rank: int, v: u64)
    requires
        s.len() > 0,
        at_rank(s, clamp_rank(rank, s.len() as int), v),
    ensures
        1 <= rank <= s.len() ==> at_rank(s, rank, v),
        rank <= 1 ==> forall|i: int| 0 <= i < s.len() ==> v <= #[trigger] s[i],
        rank >= s.len() ==> forall|i: int| 0 <= i < s.len() ==> #[trigger] s[i] <= v,
{
    let below = |x: u64| x < v;
    let upto = |x: u64| x <= v;
    if rank <= 1 {
        assert forall|i: int| 0 <= i < s.len() implies v <= #[trigger] s[i] by {
            if s[i] < v {
                lemma_count_of_one(s, below, i);
            }
        }
    }
    if rank >= s.len() {
        assert forall|i: int| 0 <= i < s.len() implies #[trigger] s[i] <= v by {
            if s[i] > v {
                lemma_count_without_one(s, upto, i);
            }
        }
    }
}

/// One item with the property makes the count more than nothing.
proof fn lemma_count_of_one(s: Seq<u64>, p: spec_fn(u64) -> bool, i: int)
    requires
        0 <= i < s.len(),
        p(s[i]),
    ensures
        counting::count_where(s, p) > 0,
    decreases s.len(),
{
    if i < s.len() - 1 {
        lemma_count_of_one(s.drop_last(), p, i);
    }
}

/// One item without the property makes the count less than all.
proof fn lemma_count_without_one(s: Seq<u64>, p: spec_fn(u64) -> bool, i: int)
    requires
        0 <= i < s.len(),
        !p(s[i]),
    ensures
        counting::count_where(s, p) < s.len(),
    decreases s.len(),
{
    if i < s.len() - 1 {
        lemma_count_without_one(s.drop_last(), p, i);
    } else {
        counting::lemma_count_bounds(s.drop_last(), p);
    }
}

/// Whether the arrival at a place is the first of its number and comes after a
/// higher one.
pub open spec fn comes_late(seqs: Seq<u64>, at: int) -> bool {
    &&& forall|j: int| 0 <= j < at ==> #[trigger] seqs[j] != seqs[at]
    &&& exists|j: int| 0 <= j < at && #[trigger] seqs[j] > seqs[at]
}

/// Which arrivals come late, place by place.
pub open spec fn lateness(seqs: Seq<u64>) -> Seq<bool> {
    Seq::new(seqs.len(), |i: int| comes_late(seqs, i))
}

/// Whatever arrives, in whatever order: the lowest and the highest number are
/// those of the arrivals, and an arrival is reordered if it is new and a higher
/// one came before it.
pub proof fn law_the_ends_and_the_late_ones_are_those_that_arrived(seqs: Seq<u64>)
    ensures
        seqs.len() == 0 ==> arrived_all(seqs).lowest is None && arrived_all(seqs).highest is None,
        seqs.len() > 0 ==> {
            &&& arrived_all(seqs).lowest matches Some(lo) && seqs.contains(lo) && forall|i: int|
                0 <= i < seqs.len() ==> lo <= #[trigger] seqs[i]
            &&& arrived_all(seqs).highest matches Some(hi) && seqs.contains(hi) && forall|i: int|
                0 <= i < seqs.len() ==> #[trigger] seqs[i] <= hi
        },
        arrived_all(seqs).reordered == counting::count_where(lateness(seqs), |late: bool| late),
    decreases seqs.len(),
{
    law_every_arrival_is_accounted_for(seqs);
    let t = arrived_all(seqs);
    assert forall|i: int| 0 <= i < seqs.len() implies t.seen.contains(#[trigger] seqs[i]) by {
        assert(seqs.to_set().contains(seqs[i]));
    }
    if seqs.len() > 0 {
        let front = seqs.drop_last();
        let x = seqs.last();
        law_the_ends_and_the_late_ones_are_those_that_arrived(front);
        law_every_arrival_is_accounted_for(front);
        let before = arrived_all(front);
        assert(seqs.to_set().contains(x)) by {
            assert(seqs[seqs.len() - 1] == x);
        }
        assert(t.lowest is Some);
        let at = seqs.len() - 1;
        assert(lateness(seqs).drop_last() =~= lateness(front)) by {
            assert forall|i: int| 0 <= i < front.len() implies comes_late(seqs, i) == comes_late(
                front,
                i,
            ) by {
                if comes_late(seqs, i) {
                    let j = choose|j: int| 0 <= j < i && #[trigger] seqs[j] > seqs[i];
                    assert(front[j] > front[i]);
                    assert forall|j: int| 0 <= j < i implies #[trigger] front[j] != front[i] by {
                        assert(seqs[j] != seqs[i]);
                    }
                }
                if comes_late(front, i) {
                    let j = choose|j: int| 0 <= j < i && #[trigger] front[j] > front[i];
                    assert(seqs[j] > seqs[i]);
                    assert forall|j: int| 0 <= j < i implies #[trigger] seqs[j] != seqs[i] by {
                        assert(front[j] != front[i]);
                    }
                }
            }
        }
        assert(before.seen.contains(x) == front.contains(x));
        let late = !before.seen.contains(x) && before.highest is Some && x < before.highest->0;
        if late {
            let h = before.highest->0;
            let j = choose|j: int| 0 <= j < front.len() && front[j] == h;
            assert(seqs[j] > seqs[at]);
            assert forall|k: int| 0 <= k < at implies #[trigger] seqs[k] != seqs[at] by {
                assert(front[k] == seqs[k]);
            }
            assert(comes_late(seqs, at));
        }
        if comes_late(seqs, at) {
            let j = choose|j: int| 0 <= j < at && #[trigger] seqs[j] > seqs[at];
            assert(front[j] > x);
            if front.contains(x) {
                let k = choose|k: int| 0 <= k < front.len() && front[k] == x;
                assert(seqs[k] != seqs[at]);
            }
            assert(late);
        }
        assert(lateness(seqs).last() == late);
    }
}

// ---------------------------------------------------------------------------
// one run
// ---------------------------------------------------------------------------

/// Something the network did to our routes while we were measuring.
pub struct RouteEvent {
    /// Seconds into the run, as they are to be printed.
    pub at_secs: String,
    pub what: String,
}

/// Everything one run produced.
pub struct Run {
    pub sent: u64,
    /// How many probes the pacing loop should have fired in the elapsed time.
    /// A shortfall against `sent` means the node could not keep up with the rate.
    pub scheduled: u64,
    pub send_errors: u64,
    pub send_dropped: u64,
    pub rtt: Latency,
    pub forward: Latency,
    pub reverse: Latency,
    pub forward_jitter: Jitter,
    pub reverse_jitter: Jitter,
    pub arrivals: Arrivals,
    pub route_events: Vec<RouteEvent>,
    /// Seconds from route creation to the first death of a route we were using,
    /// as they are to be printed.
    pub first_route_death: Option<String>,
}

/// Whether nothing has been sent or measured yet.
pub open spec fn nothing_yet(run: Run) -> bool {
    &&& run.sent == 0 && run.scheduled == 0 && run.send_errors == 0 && run.send_dropped == 0
    &&& run.rtt@.len() == 0 && run.forward@.len() == 0 && run.reverse@.len() == 0
    &&& run.forward_jitter.last() is None
    &&& run.reverse_jitter.last() is None
    &&& run.arrivals.wf()
    &&& run.arrivals.tally() == no_arrivals()
    &&& run.route_events@.len() == 0
    &&& run.first_route_death is None
}

impl Default for Run {
    fn default() -> (r: Run)
        ensures
            nothing_yet(r),
    {
        Run {
            sent: 0,
            scheduled: 0,
            send_errors: 0,
            send_dropped: 0,
            rtt: Latency::default(),
            forward: Latency::default(),
            reverse: Latency::default(),
            forward_jitter: Jitter::default(),
            reverse_jitter: Jitter::default(),
            arrivals: Arrivals::default(),
            route_events: Vec::new(),
            first_route_death: None,
        }
    }
}

impl Run {
    /// Remember something that happened to a route.
    pub fn note_route_event(&mut self, at_secs: String, what: String)
        ensures
            *final(self) == (Run { route_events: final(self).route_events, ..*old(self) }),
            final(self).route_events@ == old(self).route_events@.push(RouteEvent { at_secs, what }),
    {
        self.route_events.push(RouteEvent { at_secs, what });
    }
}

} // verus!
