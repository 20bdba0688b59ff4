//! A transfer in progress: the file being assembled and what is still missing.

use vstd::prelude::*;

use crate::counting;
use crate::proto;
use crate::proto::MAX_MISSING_LISTED;

verus! {

/// A transfer in progress.
pub struct Incoming {
    pub name: String,
    pub total_len: u64,
    pub chunk_size: u32,
    pub chunk_count: u32,
    pub crc: u32,
    pub data: Vec<u8>,
    pub have: Vec<bool>,
    pub have_count: u32,
    /// The clock when the transfer was opened, in microseconds.
    pub started_us: u64,
    pub duplicates: u32,
    /// How many chunks were still missing the first time the sender asked.
    pub first_pass_missing: Option<u32>,
    pub repair_rounds: u32,
}

/// What a transfer holds, over sequences.
pub struct Progress {
    pub name: Seq<char>,
    pub total_len: u64,
    pub chunk_size: u32,
    pub chunk_count: u32,
    pub crc: u32,
    pub data: Seq<u8>,
    pub have: Seq<bool>,
    pub have_count: u32,
    pub started_us: u64,
    pub duplicates: u32,
    pub first_pass_missing: Option<u32>,
    pub repair_rounds: u32,
}

impl View for Incoming {
    type V = Progress;

    open spec fn view(&self) -> Progress {
        Progress {
            name: self.name@,
            total_len: self.total_len,
            chunk_size: self.chunk_size,
            chunk_count: self.chunk_count,
            crc: self.crc,
            data: self.data@,
            have: self.have@,
            have_count: self.have_count,
            started_us: self.started_us,
            duplicates: self.duplicates,
            first_pass_missing: self.first_pass_missing,
            repair_rounds: self.repair_rounds,
        }
    }
}

/// How many of the chunks are there.
pub open spec fn chunks_had(have: Seq<bool>) -> nat {
    counting::count_where(have, |b: bool| b)
}

/// Whether the parts of a transfer fit together.
pub open spec fn progress_wf(p: Progress) -> bool {
    &&& p.data.len() == p.total_len
    &&& p.have.len() == p.chunk_count
    &&& p.have_count == chunks_had(p.have)
}

/// Whether every chunk begins inside the file.
pub open spec fn chunks_in_file(p: Progress) -> bool {
    p.chunk_count == 0 || (p.chunk_count - 1) * p.chunk_size <= p.total_len
}

/// How many chunks of `chunk_size` bytes a file of `total_len` bytes takes.
pub open spec fn chunks_needed(total_len: int, chunk_size: int) -> int {
    if total_len % chunk_size == 0 {
        total_len / chunk_size
    } else {
        total_len / chunk_size + 1
    }
}

/// How many chunks a file takes.
pub fn chunks_for(total_len: u64, chunk_size: u64) -> (r: u64)
    requires
        chunk_size > 0,
    ensures
        r == chunks_needed(total_len as int, chunk_size as int),
{
    let whole: u64 = total_len / chunk_size;
    if total_len % chunk_size == 0 {
        whole
    } else {
        assert(whole < u64::MAX) by (nonlinear_arith)
            requires
                whole == total_len / chunk_size,
                total_len % chunk_size != 0,
                chunk_size > 0,
                total_len <= u64::MAX,
        ;
        whole + 1
    }
}

/// Whether length, chunk size and chunk count describe one file.
pub open spec fn chunking_agrees(total_len: int, chunk_size: int, chunk_count: int) -> bool {
    chunk_size > 0 && chunks_needed(total_len, chunk_size) == chunk_count
}

/// Where chunk `index` begins.
pub open spec fn chunk_start(chunk_size: int, index: int) -> int {
    index * chunk_size
}

/// Where chunk `index` ends: a chunk further on, or with the file.
pub open spec fn chunk_end(total_len: int, chunk_size: int, index: int) -> int {
    if index * chunk_size + chunk_size <= total_len {
        index * chunk_size + chunk_size
    } else {
        total_len
    }
}

/// Whether a chunk with this index and this many bytes belongs to the file.
pub open spec fn belongs(p: Progress, index: u32, len: int) -> bool {
    &&& index < p.chunk_count
    &&& len == chunk_end(p.total_len as int, p.chunk_size as int, index as int) - chunk_start(
        p.chunk_size as int,
        index as int,
    )
}

/// `s` with `part` written over it from `at` on.
pub open spec fn overwritten(s: Seq<u8>, at: int, part: Seq<u8>) -> Seq<u8> {
    s.take(at) + part + s.skip(at + part.len())
}

/// A transfer after a chunk has come in. One that does not belong is dropped,
/// one that is already there is only counted.
pub open spec fn stored(p: Progress, index: u32, part: Seq<u8>) -> Progress {
    if !belongs(p, index, part.len() as int) {
        p
    } else if p.have[index as int] {
        Progress { duplicates: (p.duplicates + 1) as u32, ..p }
    } else {
        Progress {
            data: overwritten(p.data, chunk_start(p.chunk_size as int, index as int), part),
            have: p.have.update(index as int, true),
            have_count: (p.have_count + 1) as u32,
            ..p
        }
    }
}

/// The indices that are not there yet, in ascending order.
pub open spec fn gaps(have: Seq<bool>) -> Seq<u32>
    decreases have.len(),
{
    if have.len() == 0 {
        Seq::empty()
    } else if have.last() {
        gaps(have.drop_last())
    } else {
        gaps(have.drop_last()).push((have.len() - 1) as u32)
    }
}

/// A transfer of which nothing has arrived.
pub open spec fn fresh(
    name: Seq<char>,
    total_len: u64,
    chunk_size: u32,
    chunk_count: u32,
    crc: u32,
    now_us: u64,
) -> Progress {
    Progress {
        name,
        total_len,
        chunk_size,
        chunk_count,
        crc,
        data: Seq::new(total_len as nat, |i: int| 0u8),
        have: Seq::new(chunk_count as nat, |i: int| false),
        have_count: 0,
        started_us: now_us,
        duplicates: 0,
        first_pass_missing: None,
        repair_rounds: 0,
    }
}

/// Nothing is there at first.
pub proof fn lemma_none_had(n: nat)
    ensures
        chunks_had(Seq::new(n, |i: int| false)) == 0,
{
    counting::lemma_count_at_most(Seq::new(n, |i: int| false), |b: bool| b, 0);
}

/// A chunk that begins inside the file has its end behind its beginning.
pub proof fn lemma_chunk_in_file(p: Progress, index: int)
    requires
        chunks_in_file(p),
        0 <= index < p.chunk_count,
    ensures
        0 <= chunk_start(p.chunk_size as int, index) <= chunk_end(
            p.total_len as int,
            p.chunk_size as int,
            index,
        ) <= p.total_len,
{
    let cs = p.chunk_size as int;
    let n = p.chunk_count as int;
    assert(0 <= index * cs <= (n - 1) * cs) by (nonlinear_arith)
        requires
            0 <= index <= n - 1,
            cs >= 0,
    ;
}

impl Incoming {
    /// Open a transfer.
    pub fn new(
        name: String,
        total_len: u64,
        chunk_size: u32,
        chunk_count: u32,
        crc: u32,
        now_us: u64,
    ) -> (r: Incoming)
        requires
            total_len <= isize::MAX,
            chunk_count <= isize::MAX,
        ensures
            r@ == fresh(name@, total_len, chunk_size, chunk_count, crc, now_us),
            progress_wf(r@),
    {
        let data: Vec<u8> = vec![0u8; total_len as usize];
        let have: Vec<bool> = vec![false; chunk_count as usize];
        proof {
            lemma_none_had(chunk_count as nat);
            assert(data@ == Seq::new(total_len as nat, |i: int| 0u8));
            assert(have@ == Seq::new(chunk_count as nat, |i: int| false));
        }
        Incoming {
            name,
            total_len,
            chunk_size,
            chunk_count,
            crc,
            data,
            have,
            have_count: 0,
            started_us: now_us,
            duplicates: 0,
            first_pass_missing: None,
            repair_rounds: 0,
        }
    }

    /// Whether every chunk is there.
    pub fn complete(&self) -> (r: bool)
        ensures
            r == (self@.have_count == self@.chunk_count),
    {
        self.have_count == self.chunk_count
    }

    /// Where chunk `index` belongs, or None if it is not a chunk of this file.
    pub fn span(&self, index: u32) -> (r: Option<(u64, u64)>)
        ensures
            match r {
                None => index >= self@.chunk_count,
                Some((start, end)) => {
                    &&& index < self@.chunk_count
                    &&& start == chunk_start(self@.chunk_size as int, index as int)
                    &&& end == chunk_end(
                        self@.total_len as int,
                        self@.chunk_size as int,
                        index as int,
                    )
                },
            },
    {
        if index >= self.chunk_count {
            return None;
        }
        assert(0 <= index * self.chunk_size <= 0xffff_ffff * 0xffff_ffff) by (nonlinear_arith)
            requires
                0 <= index <= 0xffff_ffff,
                0 <= self.chunk_size <= 0xffff_ffff,
        ;
        let start: u64 = index as u64 * self.chunk_size as u64;
        let full: u64 = start + self.chunk_size as u64;
        let end: u64 = if full < self.total_len { full } else { self.total_len };
        Some((start, end))
    }

    /// Whether a chunk with this index and this many bytes is one that is there
    /// already.
    pub fn repeats(&self, index: u32, len: usize) -> (r: bool)
        requires
            progress_wf(self@),
        ensures
            r == (belongs(self@, index, len as int) && self@.have[index as int]),
    {
        match self.span(index) {
            None => false,
            Some((start, end)) => start <= end && len as u64 == end - start
                && self.have[index as usize],
        }
    }

    /// Returns true if this chunk was new. A chunk whose length disagrees with
    /// the manifest is dropped: the sender promised a shape and this is not it.
    pub fn store(&mut self, index: u32, data: &[u8]) -> (r: bool)
        requires
            progress_wf(old(self)@),
            chunks_in_file(old(self)@),
            belongs(old(self)@, index, data@.len() as int) && old(self)@.have[index as int]
                ==> old(self)@.duplicates < u32::MAX,
        ensures
            final(self)@ == stored(old(self)@, index, data@),
            progress_wf(final(self)@),
            chunks_in_file(final(self)@),
            r == (belongs(old(self)@, index, data@.len() as int) && !old(self)@.have[index as int]),
    {
        let ghost before = self@;
        let (start, end) = match self.span(index) {
            None => {
                return false;
            },
            Some(s) => s,
        };
        proof {
            lemma_chunk_in_file(self@, index as int);
        }
        if data.len() as u64 != end - start {
            return false;
        }
        if self.have[index as usize] {
            self.duplicates = self.duplicates + 1;
            return false;
        }
        assert(self.data@.len() == self.data.len());
        let from: usize = start as usize;
        let mut i: usize = 0;
        let ghost target = overwritten(before.data, start as int, data@);
        assert(self.data@ == before.data);
        while i < data.len()
            invariant
                i <= data@.len(),
                from == start,
                from + data@.len() <= before.data.len(),
                before.data.len() <= usize::MAX,
                self.data@.len() == before.data.len(),
                target == overwritten(before.data, start as int, data@),
                target.len() == before.data.len(),
                forall|k: int|
                    0 <= k < from + i ==> #[trigger] self.data@[k] == target[k],
                forall|k: int|
                    from + i <= k < before.data.len() ==> #[trigger] self.data@[k]
                        == before.data[k],
                self@ == (Progress { data: self.data@, ..before }),
            decreases data@.len() - i,
        {
            self.data.set(from + i, data[i]);
            i = i + 1;
        }
        assert(self.data@ == target);
        proof {
            let yes = |b: bool| b;
            counting::lemma_count_update(before.have, index as int, true, yes);
            counting::lemma_count_bounds(before.have.update(index as int, true), yes);
        }
        self.have.set(index as usize, true);
        self.have_count = self.have_count + 1;
        true
    }

    /// The chunks still wanted: the honest total, and as many indices as one
    /// answer can name.
    pub fn missing(&self) -> (r: (u32, Vec<u32>))
        requires
            progress_wf(self@),
        ensures
            r.0 == self@.chunk_count - self@.have_count,
            r.0 == gaps(self@.have).len(),
            r.1@ == proto::at_most(gaps(self@.have), MAX_MISSING_LISTED as int),
    {
        let mut listed: Vec<u32> = Vec::new();
        let mut i: usize = 0;
        proof {
            counting::lemma_count_bounds(self.have@, |b: bool| b);
            lemma_gaps_len(self.have@);
            assert(self.have@.take(0) == Seq::<bool>::empty());
        }
        while i < self.have.len()
            invariant
                i <= self.have@.len(),
                self.have@.len() <= u32::MAX,
                listed@ == proto::at_most(
                    gaps(self.have@.take(i as int)),
                    MAX_MISSING_LISTED as int,
                ),
            decreases self.have@.len() - i,
        {
            let ghost so_far = gaps(self.have@.take(i as int));
            proof {
                let more = self.have@.take(i + 1);
                assert(more.drop_last() == self.have@.take(i as int));
                assert(more.last() == self.have@[i as int]);
            }
            if !self.have[i] {
                if listed.len() < MAX_MISSING_LISTED {
                    listed.push(i as u32);
                }
                assert(listed@ == proto::at_most(so_far.push(i as u32), MAX_MISSING_LISTED as int));
            }
            i = i + 1;
        }
        assert(self.have@.take(self.have@.len() as int) == self.have@);
        (self.chunk_count - self.have_count, listed)
    }
}

/// There are as many gaps as there are chunks that are not there.
pub proof fn lemma_gaps_len(have: Seq<bool>)
    ensures
        gaps(have).len() + chunks_had(have) == have.len(),
    decreases have.len(),
{
    if have.len() > 0 {
        lemma_gaps_len(have.drop_last());
    }
}

// ---------------------------------------------------------------------------
// laws
// ---------------------------------------------------------------------------

/// The gaps are exactly the indices that are not there.
pub proof fn law_gaps_name_what_is_missing(have: Seq<bool>, index: u32)
    requires
        have.len() <= u32::MAX,
    ensures
        gaps(have).contains(index) == (index < have.len() && !have[index as int]),
    decreases have.len(),
{
    if have.len() > 0 {
        let front = have.drop_last();
        law_gaps_name_what_is_missing(front, index);
        let g = gaps(front);
        let last = (have.len() - 1) as u32;
        if have.last() {
            if index < have.len() && index != last {
                assert(front[index as int] == have[index as int]);
            }
        } else {
            assert(gaps(have) == g.push(last));
            if g.contains(index) {
                let i = choose|i: int| 0 <= i < g.len() && g[i] == index;
                assert(gaps(have)[i] == index);
            }
            assert(gaps(have)[g.len() as int] == last);
            if gaps(have).contains(index) {
                let i = choose|i: int| 0 <= i < gaps(have).len() && gaps(have)[i] == index;
                if i < g.len() {
                    assert(g[i] == index);
                }
            }
            if index < have.len() && index != last {
                assert(front[index as int] == have[index as int]);
            }
        }
    }
}

/// A transfer is complete exactly when it has no gaps.
pub proof fn law_complete_means_no_gaps(p: Progress)
    requires
        progress_wf(p),
    ensures
        (p.have_count == p.chunk_count) == (gaps(p.have).len() == 0),
{
    lemma_gaps_len(p.have);
}

/// Chunk `index` of `file`.
pub open spec fn chunk_of(file: Seq<u8>, chunk_size: int, index: int) -> Seq<u8> {
    file.subrange(
        chunk_start(chunk_size, index),
        chunk_end(file.len() as int, chunk_size, index),
    )
}

/// Whether every chunk that is there is the one that belongs there.
pub open spec fn agrees_with(p: Progress, file: Seq<u8>) -> bool {
    &&& progress_wf(p)
    &&& file.len() == p.total_len
    &&& chunking_agrees(p.total_len as int, p.chunk_size as int, p.chunk_count as int)
    &&& forall|i: int, k: int|
        0 <= i < p.chunk_count && p.have[i] && chunk_start(p.chunk_size as int, i) <= k
            < chunk_end(p.total_len as int, p.chunk_size as int, i) ==> #[trigger] p.data[k]
            == file[k] || !#[trigger] p.have[i]
}

/// When the numbers agree, every chunk begins inside the file, and every byte of
/// the file lies in the chunk that its offset divided by the chunk size names.
pub proof fn law_chunking_covers_the_file(total_len: int, chunk_size: int, chunk_count: int, k: int)
    requires
        chunking_agrees(total_len, chunk_size, chunk_count),
        0 <= k < total_len,
    ensures
        0 <= k / chunk_size < chunk_count,
        chunk_start(chunk_size, k / chunk_size) <= k < chunk_end(
            total_len,
            chunk_size,
            k / chunk_size,
        ),
{
    let q = k / chunk_size;
    vstd::arithmetic::div_mod::lemma_fundamental_div_mod(k, chunk_size);
    vstd::arithmetic::div_mod::lemma_fundamental_div_mod(total_len, chunk_size);
    vstd::arithmetic::div_mod::lemma_mod_bound(k, chunk_size);
    vstd::arithmetic::div_mod::lemma_mod_bound(total_len, chunk_size);
    let n = total_len / chunk_size;
    assert(chunk_size * q == q * chunk_size) by (nonlinear_arith);
    assert(0 <= q) by (nonlinear_arith)
        requires
            k == chunk_size * q + k % chunk_size,
            0 <= k % chunk_size < chunk_size,
            0 <= k,
    ;
    if total_len % chunk_size == 0 {
        assert(q < n) by (nonlinear_arith)
            requires
                k < total_len,
                k == chunk_size * q + k % chunk_size,
                0 <= k % chunk_size < chunk_size,
                total_len == chunk_size * n,
        ;
    } else {
        assert(q < n + 1) by (nonlinear_arith)
            requires
                k < total_len,
                k == chunk_size * q + k % chunk_size,
                0 <= k % chunk_size < chunk_size,
                total_len == chunk_size * n + total_len % chunk_size,
                0 <= total_len % chunk_size < chunk_size,
        ;
    }
}

/// When the numbers agree, every chunk begins inside the file.
pub proof fn lemma_agreeing_chunks_in_file(p: Progress)
    requires
        chunking_agrees(p.total_len as int, p.chunk_size as int, p.chunk_count as int),
    ensures
        chunks_in_file(p),
        p.chunk_count <= p.total_len,
{
    let t = p.total_len as int;
    let c = p.chunk_size as int;
    let n = t / c;
    vstd::arithmetic::div_mod::lemma_fundamental_div_mod(t, c);
    vstd::arithmetic::div_mod::lemma_mod_bound(t, c);
    assert(n >= 0) by (nonlinear_arith)
        requires
            t == c * n + t % c,
            0 <= t % c < c,
            0 <= t,
    ;
    assert(n <= c * n && c * n == n * c) by (nonlinear_arith)
        requires
            c >= 1,
            n >= 0,
    ;
    if t % c == 0 {
        assert((n - 1) * c <= n * c) by (nonlinear_arith)
            requires
                c >= 1,
        ;
    }
}

/// Two different chunks of one file share no byte.
proof fn lemma_chunks_are_disjoint(total_len: int, chunk_size: int, i: int, j: int, k: int)
    requires
        chunk_size > 0,
        i != j,
        chunk_start(chunk_size, i) <= k < chunk_end(total_len, chunk_size, i),
    ensures
        !(chunk_start(chunk_size, j) <= k < chunk_end(total_len, chunk_size, j)),
{
    assert(i < j ==> i * chunk_size + chunk_size <= j * chunk_size) by (nonlinear_arith)
        requires
            chunk_size > 0,
    ;
    assert(j < i ==> j * chunk_size + chunk_size <= i * chunk_size) by (nonlinear_arith)
        requires
            chunk_size > 0,
    ;
}

/// Storing the right bytes for a chunk keeps a transfer in agreement with the
/// file, whatever has arrived before and in whatever order.
pub proof fn law_storing_a_chunk_keeps_agreement(p: Progress, file: Seq<u8>, index: u32)
    requires
        agrees_with(p, file),
        index < p.chunk_count,
        p.have[index as int] ==> p.duplicates < u32::MAX,
    ensures
        agrees_with(stored(p, index, chunk_of(file, p.chunk_size as int, index as int)), file),
        stored(p, index, chunk_of(file, p.chunk_size as int, index as int)).have[index as int],
        forall|i: int|
            0 <= i < p.chunk_count && p.have[i] ==> #[trigger] stored(
                p,
                index,
                chunk_of(file, p.chunk_size as int, index as int),
            ).have[i],
{
    let cs = p.chunk_size as int;
    let total = p.total_len as int;
    let part = chunk_of(file, cs, index as int);
    let start = chunk_start(cs, index as int);
    let end = chunk_end(total, cs, index as int);
    lemma_agreeing_chunks_in_file(p);
    lemma_chunk_in_file(p, index as int);
    assert(part.len() == end - start);
    let after = stored(p, index, part);
    if !p.have[index as int] {
        let yes = |b: bool| b;
        counting::lemma_count_update(p.have, index as int, true, yes);
        counting::lemma_count_bounds(after.have, yes);
        assert(after.data.len() == p.data.len());
        assert forall|i: int, k: int|
            0 <= i < after.chunk_count && after.have[i] && chunk_start(cs, i) <= k < chunk_end(
                total,
                cs,
                i,
            ) implies #[trigger] after.data[k] == file[k] || !#[trigger] after.have[i] by {
            lemma_chunk_in_file(p, i);
            if i == index {
                assert(after.data[k] == part[k - start]);
            } else {
                lemma_chunks_are_disjoint(total, cs, i, index as int, k);
                assert(p.have[i]);
                assert(after.data[k] == p.data[k]);
                assert(p.data[k] == file[k]);
            }
        }
    }
}

/// A complete transfer that agrees with a file is that file.
pub proof fn law_a_complete_transfer_is_the_file(p: Progress, file: Seq<u8>)
    requires
        agrees_with(p, file),
        p.have_count == p.chunk_count,
    ensures
        p.data == file,
{
    counting::lemma_count_all(p.have, |b: bool| b);
    let yes = |b: bool| b;
    assert forall|k: int| 0 <= k < file.len() implies p.data[k] == file[k] by {
        law_chunking_covers_the_file(
            p.total_len as int,
            p.chunk_size as int,
            p.chunk_count as int,
            k,
        );
        let i = k / (p.chunk_size as int);
        assert(yes(p.have[i]));
    }
    assert(p.data == file);
}

/// A transfer after the chunks of `file` have come in, in the given order.
pub open spec fn received_in_order(p: Progress, file: Seq<u8>, order: Seq<u32>) -> Progress
    decreases order.len(),
{
    if order.len() == 0 {
        p
    } else {
        let before = received_in_order(p, file, order.drop_last());
        stored(before, order.last(), chunk_of(file, p.chunk_size as int, order.last() as int))
    }
}

/// How many of the chunks are there already when they come in: each that was
/// there to begin with, and each that has come in before.
pub open spec fn repeats(have: Seq<bool>, order: Seq<u32>) -> nat
    decreases order.len(),
{
    if order.len() == 0 {
        0
    } else {
        let front = order.drop_last();
        repeats(have, front) + if have[order.last() as int] || front.contains(order.last()) {
            1nat
        } else {
            0nat
        }
    }
}

/// What `received_in_order` keeps, what it fills in and what it counts.
pub proof fn lemma_received_in_order(p: Progress, file: Seq<u8>, order: Seq<u32>)
    requires
        agrees_with(p, file),
        p.duplicates + repeats(p.have, order) <= u32::MAX,
        forall|i: int| 0 <= i < order.len() ==> #[trigger] order[i] < p.chunk_count,
    ensures
        agrees_with(received_in_order(p, file, order), file),
        received_in_order(p, file, order).chunk_count == p.chunk_count,
        received_in_order(p, file, order).chunk_size == p.chunk_size,
        received_in_order(p, file, order).crc == p.crc,
        received_in_order(p, file, order).duplicates == p.duplicates + repeats(p.have, order),
        received_in_order(p, file, order).have_count == p.have_count + order.len() - repeats(
            p.have,
            order,
        ),
        forall|k: int|
            0 <= k < p.chunk_count ==> #[trigger] received_in_order(p, file, order).have[k] == (
            p.have[k] || order.contains(k as u32)),
    decreases order.len(),
{
    if order.len() > 0 {
        let front = order.drop_last();
        let last = order.last();
        assert forall|i: int| 0 <= i < front.len() implies #[trigger] front[i] < p.chunk_count by {
            assert(front[i] == order[i]);
        }
        lemma_received_in_order(p, file, front);
        let before = received_in_order(p, file, front);
        assert(order[order.len() - 1] < p.chunk_count);
        assert(before.have[last as int] == (p.have[last as int] || front.contains(last)));
        law_storing_a_chunk_keeps_agreement(before, file, last);
        let after = received_in_order(p, file, order);
        lemma_agreeing_chunks_in_file(before);
        lemma_chunk_in_file(before, last as int);
        let yes = |b: bool| b;
        counting::lemma_count_update(before.have, last as int, true, yes);
        counting::lemma_count_bounds(before.have.update(last as int, true), yes);
        assert(order == front.push(last));
        assert forall|k: int| 0 <= k < p.chunk_count implies #[trigger] after.have[k] == (p.have[k]
            || order.contains(k as u32)) by {
            counting::lemma_contains_push(front, last, k as u32);
            assert(before.have[k] == (p.have[k] || front.contains(k as u32)));
        }
    }
}

/// A chunk is there exactly when it has come in, so that storing it is new the
/// first time and a duplicate every other time; and the transfer is complete
/// exactly when every chunk has come in, and not before.
pub proof fn law_a_chunk_is_new_once(
    name: Seq<char>,
    file: Seq<u8>,
    chunk_size: u32,
    chunk_count: u32,
    crc: u32,
    now_us: u64,
    order: Seq<u32>,
    index: u32,
)
    requires
        file.len() <= u64::MAX,
        chunking_agrees(file.len() as int, chunk_size as int, chunk_count as int),
        repeats(
            fresh(name, file.len() as u64, chunk_size, chunk_count, crc, now_us).have,
            order,
        ) <= u32::MAX,
        forall|i: int| 0 <= i < order.len() ==> #[trigger] order[i] < chunk_count,
        index < chunk_count,
    ensures
        ({
            let p = fresh(name, file.len() as u64, chunk_size, chunk_count, crc, now_us);
            let so_far = received_in_order(p, file, order);
            &&& belongs(so_far, index, chunk_of(file, chunk_size as int, index as int).len() as int)
            &&& so_far.have[index as int] == order.contains(index)
            &&& (so_far.have_count == so_far.chunk_count) == (forall|i: u32|
                i < chunk_count ==> #[trigger] order.contains(i))
        }),
{
    let p = fresh(name, file.len() as u64, chunk_size, chunk_count, crc, now_us);
    lemma_none_had(chunk_count as nat);
    lemma_received_in_order(p, file, order);
    let so_far = received_in_order(p, file, order);
    lemma_agreeing_chunks_in_file(so_far);
    lemma_chunk_in_file(so_far, index as int);
    let yes = |b: bool| b;
    if so_far.have_count == so_far.chunk_count {
        counting::lemma_count_all(so_far.have, yes);
        assert forall|i: u32| i < chunk_count implies #[trigger] order.contains(i) by {
            assert(yes(so_far.have[i as int]));
        }
    }
    if forall|i: u32| i < chunk_count ==> #[trigger] order.contains(i) {
        assert forall|k: int| 0 <= k < so_far.have.len() implies yes(#[trigger] so_far.have[k]) by {
            assert(order.contains(k as u32));
        }
        counting::lemma_count_all(so_far.have, yes);
    }
}

/// A file reassembles from its chunks in any order and with any repetitions: as
/// soon as every index has come in at least once, the transfer is complete and
/// holds exactly the file, and every repetition has been counted.
pub proof fn law_a_file_reassembles_in_any_order(
    name: Seq<char>,
    file: Seq<u8>,
    chunk_size: u32,
    chunk_count: u32,
    crc: u32,
    now_us: u64,
    order: Seq<u32>,
)
    requires
        file.len() <= u64::MAX,
        chunking_agrees(file.len() as int, chunk_size as int, chunk_count as int),
        repeats(
            fresh(name, file.len() as u64, chunk_size, chunk_count, crc, now_us).have,
            order,
        ) <= u32::MAX,
        forall|i: int| 0 <= i < order.len() ==> #[trigger] order[i] < chunk_count,
        forall|index: u32| index < chunk_count ==> #[trigger] order.contains(index),
    ensures
        ({
            let p = fresh(name, file.len() as u64, chunk_size, chunk_count, crc, now_us);
            let done = received_in_order(p, file, order);
            &&& done.have_count == done.chunk_count
            &&& done.data == file
            &&& done.duplicates == order.len() - chunk_count
        }),
{
    let p = fresh(name, file.len() as u64, chunk_size, chunk_count, crc, now_us);
    lemma_none_had(chunk_count as nat);
    lemma_received_in_order(p, file, order);
    let done = received_in_order(p, file, order);
    let yes = |b: bool| b;
    assert forall|k: int| 0 <= k < done.have.len() implies yes(#[trigger] done.have[k]) by {
        assert(order.contains(k as u32));
    }
    counting::lemma_count_all(done.have, yes);
    law_a_complete_transfer_is_the_file(done, file);
}

/// A chunk that is already there changes nothing but the count of duplicates.
pub proof fn law_a_duplicate_overwrites_nothing(p: Progress, index: u32, part: Seq<u8>)
    requires
        index < p.chunk_count,
        p.have[index as int],
    ensures
        stored(p, index, part).data == p.data,
        stored(p, index, part).have == p.have,
        stored(p, index, part).have_count == p.have_count,
{
}

/// The gaps come in ascending order.
proof fn lemma_gaps_ascend(have: Seq<bool>)
    requires
        have.len() <= u32::MAX,
    ensures
        forall|i: int, j: int|
            0 <= i < j < gaps(have).len() ==> #[trigger] gaps(have)[i] < #[trigger] gaps(have)[j],
        forall|i: int| 0 <= i < gaps(have).len() ==> #[trigger] gaps(have)[i] < have.len(),
    decreases have.len(),
{
    if have.len() > 0 {
        let front = have.drop_last();
        lemma_gaps_ascend(front);
        let g = gaps(front);
        let all = gaps(have);
        assert forall|i: int| 0 <= i < all.len() implies #[trigger] all[i] < have.len() by {
            if i < g.len() {
                assert(all[i] == g[i]);
            }
        }
        assert forall|i: int, j: int| 0 <= i < j < all.len() implies #[trigger] all[i]
            < #[trigger] all[j] by {
            assert(all[i] == g[i]);
            if j < g.len() {
                assert(all[j] == g[j]);
            }
        }
    }
}

/// Chunks that were not there and come in once each are none of them repeats.
proof fn lemma_no_repeats(have: Seq<bool>, order: Seq<u32>)
    requires
        forall|i: int| 0 <= i < order.len() ==> !have[#[trigger] order[i] as int],
        order.no_duplicates(),
    ensures
        repeats(have, order) == 0,
    decreases order.len(),
{
    if order.len() > 0 {
        let front = order.drop_last();
        let n = order.len() - 1;
        assert forall|i: int| 0 <= i < front.len() implies !have[#[trigger] front[i] as int] by {
            assert(front[i] == order[i]);
        }
        lemma_no_repeats(have, front);
        assert(!have[order[n] as int]);
        if front.contains(order.last()) {
            let j = choose|j: int| 0 <= j < front.len() && front[j] == order.last();
            assert(order[j] == order[n]);
        }
    }
}

/// A pass that loses nothing fills exactly the gaps it was sent for: once every
/// chunk that an answer named has come in, there are that many gaps fewer.
pub proof fn law_a_lossless_pass_fills_what_was_named(p: Progress, file: Seq<u8>)
    requires
        agrees_with(p, file),
    ensures
        ({
            let named = proto::at_most(gaps(p.have), MAX_MISSING_LISTED as int);
            let after = received_in_order(p, file, named);
            &&& agrees_with(after, file)
            &&& gaps(after.have).len() == gaps(p.have).len() - named.len()
            &&& after.duplicates == p.duplicates
        }),
{
    let named = proto::at_most(gaps(p.have), MAX_MISSING_LISTED as int);
    lemma_gaps_ascend(p.have);
    assert forall|i: int| 0 <= i < named.len() implies #[trigger] named[i] < p.chunk_count
        && !p.have[named[i] as int] by {
        assert(named[i] == gaps(p.have)[i]);
        law_gaps_name_what_is_missing(p.have, named[i]);
        assert(gaps(p.have).contains(named[i]));
    }
    assert(named.no_duplicates()) by {
        assert forall|i: int, j: int| 0 <= i < j < named.len() implies named[i] != named[j] by {
            assert(gaps(p.have)[i] < gaps(p.have)[j]);
        }
    }
    lemma_no_repeats(p.have, named);
    lemma_received_in_order(p, file, named);
    let after = received_in_order(p, file, named);
    lemma_gaps_len(p.have);
    lemma_gaps_len(after.have);
}

/// A file is cut into as few chunks as will do: together they hold it, and
/// without the last they would not.
pub proof fn law_as_few_chunks_as_will_do(total_len: int, chunk_size: int)
    requires
        0 <= total_len,
        0 < chunk_size,
    ensures
        0 <= chunks_needed(total_len, chunk_size),
        total_len <= chunks_needed(total_len, chunk_size) * chunk_size,
        total_len > 0 ==> (chunks_needed(total_len, chunk_size) - 1) * chunk_size < total_len,
        total_len == 0 ==> chunks_needed(total_len, chunk_size) == 0,
{
    let q = total_len / chunk_size;
    let m = total_len % chunk_size;
    vstd::arithmetic::div_mod::lemma_fundamental_div_mod(total_len, chunk_size);
    vstd::arithmetic::div_mod::lemma_mod_bound(total_len, chunk_size);
    assert(0 <= q && total_len == q * chunk_size + m && (q + 1) * chunk_size == q * chunk_size
        + chunk_size && (q - 1) * chunk_size == q * chunk_size - chunk_size) by (nonlinear_arith)
        requires
            total_len == chunk_size * q + m,
            0 <= m < chunk_size,
            0 <= total_len,
    ;
    if total_len == 0 {
        assert(q == 0) by (nonlinear_arith)
            requires
                0 == q * chunk_size + m,
                0 <= m,
                0 <= q,
                0 < chunk_size,
        ;
    }
}

/// Every chunk but the last has the full size, and the last has what is left,
/// which is never nothing. A chunk begins where the ones before it end, and byte
/// `k` of it is byte `index * chunk_size + k` of the file.
pub proof fn law_every_chunk_but_the_last_is_full(file: Seq<u8>, chunk_size: int, index: int)
    requires
        0 < chunk_size,
        0 <= index < chunks_needed(file.len() as int, chunk_size),
    ensures
        ({
            let part = chunk_of(file, chunk_size, index);
            let n = chunks_needed(file.len() as int, chunk_size);
            &&& index + 1 < n ==> part.len() == chunk_size
            &&& index + 1 == n ==> part.len() == file.len() - index * chunk_size
            &&& 0 < part.len() <= chunk_size
            &&& forall|k: int|
                0 <= k < part.len() ==> #[trigger] part[k] == file[index * chunk_size + k]
        }),
{
    let n = chunks_needed(file.len() as int, chunk_size);
    law_as_few_chunks_as_will_do(file.len() as int, chunk_size);
    assert(n * chunk_size == (n - 1) * chunk_size + chunk_size) by (nonlinear_arith);
    if index + 1 < n {
        assert(0 <= index * chunk_size && index * chunk_size + chunk_size <= (n - 1) * chunk_size)
            by (nonlinear_arith)
            requires
                0 <= index,
                index + 1 <= n - 1,
                0 < chunk_size,
        ;
    } else {
        assert(index == n - 1);
        assert(0 <= index * chunk_size) by (nonlinear_arith)
            requires
                0 <= index,
                0 < chunk_size,
        ;
    }
}

/// A new chunk is written where it belongs and changes nothing else: the bytes
/// from `index * chunk_size` on are its bytes, all others are as they were, and
/// of the chunks only this one has become one that is there.
pub proof fn law_a_new_chunk_lands_where_it_belongs(p: Progress, index: u32, part: Seq<u8>)
    requires
        progress_wf(p),
        index < p.chunk_count,
        !p.have[index as int],
        index * p.chunk_size <= p.total_len,
        part.len() == p.chunk_size || part.len() == p.total_len - index * p.chunk_size,
        part.len() <= p.chunk_size,
        part.len() <= p.total_len - index * p.chunk_size,
    ensures
        ({
            let after = stored(p, index, part);
            let start = index * p.chunk_size;
            &&& after.data.len() == p.data.len()
            &&& forall|k: int|
                0 <= k < p.data.len() ==> #[trigger] after.data[k] == if start <= k < start
                    + part.len() {
                    part[k - start]
                } else {
                    p.data[k]
                }
            &&& forall|i: int|
                0 <= i < p.chunk_count ==> #[trigger] after.have[i] == (p.have[i] || i == index)
            &&& after.have.len() == p.have.len()
            &&& after.have_count == p.have_count + 1
            &&& after.name == p.name && after.total_len == p.total_len
            &&& after.chunk_size == p.chunk_size && after.chunk_count == p.chunk_count
            &&& after.crc == p.crc && after.started_us == p.started_us
            &&& after.duplicates == p.duplicates && after.repair_rounds == p.repair_rounds
            &&& after.first_pass_missing == p.first_pass_missing
        }),
{
    let yes = |b: bool| b;
    assert(0 <= index * p.chunk_size) by (nonlinear_arith)
        requires
            0 <= index,
            0 <= p.chunk_size,
    ;
    counting::lemma_count_update(p.have, index as int, true, yes);
    counting::lemma_count_bounds(p.have.update(index as int, true), yes);
}

/// A chunk that is not one of the file, or has more or fewer bytes than the file
/// has room for there, is dropped without a trace.
pub proof fn law_a_chunk_of_the_wrong_shape_is_dropped(p: Progress, index: u32, part: Seq<u8>)
    ensures
        index >= p.chunk_count ==> stored(p, index, part) == p,
        (index + 1) * p.chunk_size <= p.total_len && part.len() != p.chunk_size ==> stored(
            p,
            index,
            part,
        ) == p,
        (index + 1) * p.chunk_size > p.total_len && part.len() != p.total_len - index
            * p.chunk_size ==> stored(p, index, part) == p,
{
    assert((index + 1) * p.chunk_size == index * p.chunk_size + p.chunk_size) by (nonlinear_arith);
}

/// A chunk that is there already is counted as a duplicate once more, and that is
/// all that comes of it.
pub proof fn law_a_duplicate_is_counted(p: Progress, index: u32)
    requires
        progress_wf(p),
        chunks_in_file(p),
        index < p.chunk_count,
        p.have[index as int],
        p.duplicates < u32::MAX,
    ensures
        ({
            let part = chunk_of(p.data, p.chunk_size as int, index as int);
            let after = stored(p, index, part);
            after.duplicates == p.duplicates + 1 && after == (Progress {
                duplicates: after.duplicates,
                ..p
            })
        }),
{
    lemma_chunk_in_file(p, index as int);
}

/// The gaps are named in ascending order, each once, and in a transfer of which
/// nothing has arrived they are all of the chunks.
pub proof fn law_gaps_ascend(have: Seq<bool>)
    requires
        have.len() <= u32::MAX,
    ensures
        forall|i: int, j: int|
            0 <= i < j < gaps(have).len() ==> #[trigger] gaps(have)[i] < #[trigger] gaps(have)[j],
        (forall|i: int| 0 <= i < have.len() ==> !#[trigger] have[i]) ==> gaps(have).len()
            == have.len(),
{
    lemma_gaps_ascend(have);
    lemma_gaps_len(have);
    if forall|i: int| 0 <= i < have.len() ==> !#[trigger] have[i] {
        counting::lemma_count_at_most(have, |b: bool| b, 0);
    }
}

/// An opened transfer is what its manifest says, and nothing of it is there.
pub proof fn law_nothing_is_there_at_first(
    name: Seq<char>,
    total_len: u64,
    chunk_size: u32,
    chunk_count: u32,
    crc: u32,
    now_us: u64,
)
    ensures
        ({
            let p = fresh(name, total_len, chunk_size, chunk_count, crc, now_us);
            &&& p.name == name && p.total_len == total_len && p.crc == crc
            &&& p.chunk_size == chunk_size && p.chunk_count == chunk_count
            &&& p.started_us == now_us
            &&& p.data.len() == total_len
            &&& p.have.len() == chunk_count
            &&& forall|i: int| 0 <= i < p.have.len() ==> !#[trigger] p.have[i]
            &&& gaps(p.have).len() == chunk_count
            &&& p.have_count == 0 && p.duplicates == 0 && p.repair_rounds == 0
            &&& p.first_pass_missing is None
        }),
{
    let p = fresh(name, total_len, chunk_size, chunk_count, crc, now_us);
    lemma_none_had(chunk_count as nat);
    lemma_gaps_len(p.have);
}

} // verus!
