//! Moving whole files over a private route: the receiving end.
//!
//! `app_message` is fire-and-forget and capped, so a file is a pile of chunks
//! and some of them will not arrive. `app_call` is request and response. The
//! manifest and the status questions go over calls, the chunks over messages:
//!
//! 1. **Manifest**: both ends agree on what "complete" means before a byte is
//!    sent.
//! 2. **Chunks**: paced, many in flight, and lossy.
//! 3. **Status**: "what are you still missing?", until the answer is nothing.

use std::collections::{HashMap, HashSet};
use std::path::PathBuf;
use vstd::prelude::*;

use crate::counting;
use crate::incoming;
use crate::incoming::{chunks_for, Incoming, Progress};
use crate::proto;
use crate::proto::{
    Packet, Said, MAX_CHUNK_DATA, MAX_MISSING_LISTED, XFER_COMPLETE, XFER_IN_PROGRESS, XFER_UNKNOWN,
};

verus! {

pub struct RecvConfig {
    pub out_dir: PathBuf,
    /// Refuse any transfer claiming to be larger than this. The receiver
    /// allocates the whole file up front, and anyone holding the blob can open
    /// a transfer.
    pub max_bytes: u64,
    /// Where the rendezvous record's key and owner keypair are kept, so the
    /// same DHT key survives restarts and only has to be shared once.
    pub rendezvous_file: PathBuf,
    /// How many private routes to keep published at once.
    pub pool: usize,
    /// Roughly how long any one route is allowed to live before it is replaced.
    /// Zero disables rotation, leaving the pool purely reactive.
    pub rotate_secs: u64,
}

/// What the receiver makes of a manifest.
#[derive(Clone, Copy, PartialEq, Eq, Structural)]
pub enum Ruling {
    /// The file has been written out already.
    AlreadyDone,
    /// The transfer is open, and keeps the progress it has.
    Resume,
    /// The file is larger than this receiver takes.
    TooBig,
    /// No `app_message` holds a chunk of that size.
    BadChunkSize,
    /// Length, chunk size and chunk count describe different files.
    BadChunkCount,
    /// A new transfer.
    Open,
}

/// The transfers in progress, by id.
pub open spec fn table(m: Map<u64, Incoming>) -> Map<u64, Progress> {
    m.map_values(|inc: Incoming| inc@)
}

/// Whether every transfer in the table is one that a manifest opened.
pub open spec fn table_wf(t: Map<u64, Progress>) -> bool {
    forall|id: u64| #[trigger]
        t.contains_key(id) ==> incoming::progress_wf(t[id]) && incoming::chunking_agrees(
            t[id].total_len as int,
            t[id].chunk_size as int,
            t[id].chunk_count as int,
        )
}

/// What is made of a manifest, given the transfers that are open, those that
/// are done, and the largest file that is taken.
pub open spec fn ruling_on(
    open: Map<u64, Progress>,
    completed: Set<u64>,
    max_bytes: u64,
    xfer: u64,
    total_len: u64,
    chunk_size: u32,
    chunk_count: u32,
) -> Ruling {
    if completed.contains(xfer) {
        Ruling::AlreadyDone
    } else if open.contains_key(xfer) {
        Ruling::Resume
    } else if total_len > max_bytes {
        Ruling::TooBig
    } else if chunk_size == 0 || chunk_size > MAX_CHUNK_DATA {
        Ruling::BadChunkSize
    } else if incoming::chunks_needed(total_len as int, chunk_size as int) != chunk_count {
        Ruling::BadChunkCount
    } else {
        Ruling::Open
    }
}

/// The answer to a manifest.
pub open spec fn manifest_reply(xfer: u64, ruling: Ruling) -> Said {
    match ruling {
        Ruling::TooBig => Said::ManifestOk {
            xfer,
            accepted: false,
            message: "over the receiver's --max-bytes limit"@,
        },
        Ruling::BadChunkSize => Said::ManifestOk {
            xfer,
            accepted: false,
            message: "chunk size will not fit an app_message"@,
        },
        Ruling::BadChunkCount => Said::ManifestOk {
            xfer,
            accepted: false,
            message: "chunk count does not match the length and chunk size"@,
        },
        _ => Said::ManifestOk { xfer, accepted: true, message: Seq::empty() },
    }
}

/// A transfer after the sender has asked about it. The first question measures
/// what was missing then; every later one is a repair round.
pub open spec fn questioned(p: Progress) -> Progress {
    match p.first_pass_missing {
        None => Progress {
            first_pass_missing: Some((p.chunk_count - p.have_count) as u32),
            ..p
        },
        Some(_) => Progress { repair_rounds: (p.repair_rounds + 1) as u32, ..p },
    }
}

/// What an open transfer answers to a status question.
pub open spec fn status_reply(xfer: u64, p: Progress) -> Said {
    Said::StatusReply {
        xfer,
        state: if p.have_count == p.chunk_count {
            XFER_COMPLETE
        } else {
            XFER_IN_PROGRESS
        },
        missing_total: (p.chunk_count - p.have_count) as u32,
        missing: proto::at_most(incoming::gaps(p.have), MAX_MISSING_LISTED as int),
    }
}

/// What is answered to a status question about a transfer that is not open.
pub open spec fn status_of_absent(xfer: u64, done: bool) -> Said {
    Said::StatusReply {
        xfer,
        state: if done {
            XFER_COMPLETE
        } else {
            XFER_UNKNOWN
        },
        missing_total: 0,
        missing: Seq::empty(),
    }
}

/// The answer to one call, if it was for us, and the open transfers afterwards.
pub open spec fn answered(
    open: Map<u64, Progress>,
    completed: Set<u64>,
    max_bytes: u64,
    now_us: u64,
    said: Said,
) -> (Option<Said>, Map<u64, Progress>) {
    match said {
        Said::Manifest { xfer, total_len, chunk_size, chunk_count, crc32, name } => {
            let ruling = ruling_on(
                open,
                completed,
                max_bytes,
                xfer,
                total_len,
                chunk_size,
                chunk_count,
            );
            let after = if ruling == Ruling::Open {
                open.insert(
                    xfer,
                    incoming::fresh(name, total_len, chunk_size, chunk_count, crc32, now_us),
                )
            } else {
                open
            };
            (Some(manifest_reply(xfer, ruling)), after)
        },
        Said::Status { xfer } => if open.contains_key(xfer) {
            (Some(status_reply(xfer, open[xfer])), open.insert(xfer, questioned(open[xfer])))
        } else {
            (Some(status_of_absent(xfer, completed.contains(xfer))), open)
        },
        _ => (None, open),
    }
}

/// Whether a call stays within what the machine can hold: a file that is
/// opened can be allocated, and a round that is counted can be counted.
pub open spec fn within_limits(
    open: Map<u64, Progress>,
    completed: Set<u64>,
    max_bytes: u64,
    said: Said,
) -> bool {
    match said {
        Said::Manifest { xfer, total_len, chunk_size, chunk_count, crc32, name } => ruling_on(
            open,
            completed,
            max_bytes,
            xfer,
            total_len,
            chunk_size,
            chunk_count,
        ) == Ruling::Open ==> total_len <= isize::MAX,
        Said::Status { xfer } => open.contains_key(xfer) && open[xfer].first_pass_missing is Some
            ==> open[xfer].repair_rounds < u32::MAX,
        _ => true,
    }
}

/// What is made of a manifest.
pub fn rule_on(
    transfers: &HashMap<u64, Incoming>,
    completed: &HashSet<u64>,
    cfg: &RecvConfig,
    xfer: u64,
    total_len: u64,
    chunk_size: u32,
    chunk_count: u32,
) -> (r: Ruling)
    ensures
        r == ruling_on(
            table(transfers@),
            completed@,
            cfg.max_bytes,
            xfer,
            total_len,
            chunk_size,
            chunk_count,
        ),
{
    if completed.contains(&xfer) {
        // Accepting costs the sender one wasted pass, which the next status
        // query cuts short; refusing would look like a failure for a file that
        // arrived intact.
        Ruling::AlreadyDone
    } else if transfers.contains_key(&xfer) {
        // A retried manifest, because the first answer did not make it back.
        Ruling::Resume
    } else if total_len > cfg.max_bytes {
        Ruling::TooBig
    } else if chunk_size == 0 || chunk_size as usize > MAX_CHUNK_DATA {
        Ruling::BadChunkSize
    } else if chunks_for(total_len, chunk_size as u64) != chunk_count as u64 {
        Ruling::BadChunkCount
    } else {
        Ruling::Open
    }
}

/// Whether `answer` can take this message within the machine's limits.
pub fn answerable(
    transfers: &HashMap<u64, Incoming>,
    completed: &HashSet<u64>,
    cfg: &RecvConfig,
    message: &[u8],
) -> (r: bool)
    ensures
        r == (match proto::heard(message@) {
            Some(said) => within_limits(table(transfers@), completed@, cfg.max_bytes, said),
            None => true,
        }),
{
    match Packet::decode(message) {
        Some(Packet::Manifest { xfer, total_len, chunk_size, chunk_count, .. }) => {
            rule_on(transfers, completed, cfg, xfer, total_len, chunk_size, chunk_count)
                != Ruling::Open || total_len <= isize::MAX as u64
        },
        Some(Packet::Status { xfer }) => match transfers.get(&xfer) {
            Some(inc) => inc.first_pass_missing.is_none() || inc.repair_rounds < u32::MAX,
            None => true,
        },
        _ => true,
    }
}

/// The packet that answers a manifest.
fn manifest_answer(xfer: u64, ruling: Ruling) -> (r: Packet)
    ensures
        r@ == manifest_reply(xfer, ruling),
{
    match ruling {
        Ruling::TooBig => Packet::ManifestOk {
            xfer,
            accepted: false,
            message: "over the receiver's --max-bytes limit".to_owned(),
        },
        Ruling::BadChunkSize => Packet::ManifestOk {
            xfer,
            accepted: false,
            message: "chunk size will not fit an app_message".to_owned(),
        },
        Ruling::BadChunkCount => Packet::ManifestOk {
            xfer,
            accepted: false,
            message: "chunk count does not match the length and chunk size".to_owned(),
        },
        _ => Packet::ManifestOk { xfer, accepted: true, message: String::new() },
    }
}

/// Build the answer to one `app_call`, or None if it was not for us.
pub fn answer(
    transfers: &mut HashMap<u64, Incoming>,
    completed: &HashSet<u64>,
    cfg: &RecvConfig,
    message: &[u8],
    now_us: u64,
) -> (r: Option<Vec<u8>>)
    requires
        table_wf(table(old(transfers)@)),
        proto::heard(message@) matches Some(said) ==> within_limits(
            table(old(transfers)@),
            completed@,
            cfg.max_bytes,
            said,
        ),
    ensures
        table_wf(table(final(transfers)@)),
        match proto::heard(message@) {
            None => r is None && final(transfers)@ == old(transfers)@,
            Some(said) => {
                let (reply, after) = answered(
                    table(old(transfers)@),
                    completed@,
                    cfg.max_bytes,
                    now_us,
                    said,
                );
                &&& table(final(transfers)@) == after
                &&& match reply {
                    None => r is None,
                    Some(packet) => r is Some && r->Some_0@ == proto::on_wire(packet, 0),
                }
            },
        },
{
    let ghost open = table(transfers@);
    let packet = match Packet::decode(message) {
        None => {
            return None;
        },
        Some(p) => p,
    };
    match packet {
        Packet::Manifest { xfer, total_len, chunk_size, chunk_count, crc32, name } => {
            let ruling = rule_on(
                transfers,
                completed,
                cfg,
                xfer,
                total_len,
                chunk_size,
                chunk_count,
            );
            if ruling == Ruling::Open {
                proof {
                    let p = incoming::fresh(
                        name@,
                        total_len,
                        chunk_size,
                        chunk_count,
                        crc32,
                        now_us,
                    );
                    incoming::lemma_agreeing_chunks_in_file(p);
                }
                let inc = Incoming::new(name, total_len, chunk_size, chunk_count, crc32, now_us);
                transfers.insert(xfer, inc);
                assert(table(transfers@) == open.insert(xfer, inc@));
            }
            Some(manifest_answer(xfer, ruling).encode(0))
        },
        Packet::Status { xfer } => {
            match transfers.remove(&xfer) {
                None => {
                    assert(transfers@ == old(transfers)@);
                    let state: u8 = if completed.contains(&xfer) {
                        XFER_COMPLETE
                    } else {
                        XFER_UNKNOWN
                    };
                    let reply = Packet::StatusReply {
                        xfer,
                        state,
                        missing_total: 0,
                        missing: Vec::new(),
                    };
                    assert(reply@ == status_of_absent(xfer, completed@.contains(xfer)));
                    Some(reply.encode(0))
                },
                Some(mut inc) => {
                    let ghost p = inc@;
                    assert(open.contains_key(xfer) && open[xfer] == p);
                    let (missing_total, missing) = inc.missing();
                    if inc.first_pass_missing.is_none() {
                        inc.first_pass_missing = Some(missing_total);
                    } else {
                        inc.repair_rounds = inc.repair_rounds + 1;
                    }
                    assert(inc@ == questioned(p));
                    let state: u8 = if inc.complete() { XFER_COMPLETE } else { XFER_IN_PROGRESS };
                    transfers.insert(xfer, inc);
                    assert(table(transfers@) == open.insert(xfer, questioned(p)));
                    let reply = Packet::StatusReply { xfer, state, missing_total, missing };
                    assert(reply@ == status_reply(xfer, p));
                    Some(reply.encode(0))
                },
            }
        },
        _ => None,
    }
}

/// The open transfers after a message has come in. A chunk goes to the transfer
/// it names; anything else, and a chunk of no open transfer, changes nothing.
pub open spec fn delivered(open: Map<u64, Progress>, message: Option<Said>) -> Map<u64, Progress> {
    match message {
        Some(Said::Chunk { xfer, index, data }) if open.contains_key(xfer) => open.insert(
            xfer,
            incoming::stored(open[xfer], index, data),
        ),
        _ => open,
    }
}

/// Whether a duplicate that is counted can be counted.
pub open spec fn delivery_within_limits(
    open: Map<u64, Progress>,
    message: Option<Said>,
) -> bool {
    match message {
        Some(Said::Chunk { xfer, index, data }) => open.contains_key(xfer) && incoming::belongs(
            open[xfer],
            index,
            data.len() as int,
        ) && open[xfer].have[index as int] ==> open[xfer].duplicates < u32::MAX,
        _ => true,
    }
}

/// Whether `deliver` can take this message within the machine's limits.
pub fn deliverable(transfers: &HashMap<u64, Incoming>, message: &[u8]) -> (r: bool)
    requires
        table_wf(table(transfers@)),
    ensures
        r == delivery_within_limits(table(transfers@), proto::heard(message@)),
{
    match Packet::decode(message) {
        Some(Packet::Chunk { xfer, index, data }) => match transfers.get(&xfer) {
            Some(inc) => {
                assert(table(transfers@).contains_key(xfer));
                !inc.repeats(index, data.len()) || inc.duplicates < u32::MAX
            },
            None => true,
        },
        _ => true,
    }
}

/// Take one `app_message`. Returns true if it held a chunk that was new.
pub fn deliver(transfers: &mut HashMap<u64, Incoming>, message: &[u8]) -> (r: bool)
    requires
        table_wf(table(old(transfers)@)),
        delivery_within_limits(table(old(transfers)@), proto::heard(message@)),
    ensures
        table_wf(table(final(transfers)@)),
        table(final(transfers)@) == delivered(table(old(transfers)@), proto::heard(message@)),
        r == (match proto::heard(message@) {
            Some(Said::Chunk { xfer, index, data }) => {
                let open = table(old(transfers)@);
                &&& open.contains_key(xfer)
                &&& incoming::belongs(open[xfer], index, data.len() as int)
                &&& !open[xfer].have[index as int]
            },
            _ => false,
        }),
{
    let ghost open = table(transfers@);
    match Packet::decode(message) {
        Some(Packet::Chunk { xfer, index, data }) => match transfers.remove(&xfer) {
            None => {
                assert(transfers@ == old(transfers)@);
                false
            },
            Some(mut inc) => {
                let ghost p = inc@;
                proof {
                    assert(open.contains_key(xfer) && open[xfer] == p);
                    incoming::lemma_agreeing_chunks_in_file(p);
                }
                let new = inc.store(index, data.as_slice());
                transfers.insert(xfer, inc);
                assert(table(transfers@) == open.insert(
                    xfer,
                    incoming::stored(p, index, data@),
                ));
                new
            },
        },
        _ => false,
    }
}

/// The ids of the transfers that have all of their chunks.
pub open spec fn finished_ids(open: Map<u64, Progress>) -> Set<u64> {
    open.dom().filter(|id: u64| open[id].have_count == open[id].chunk_count)
}

/// Whether `ids` names every finished transfer once.
pub open spec fn lists_finished(open: Map<u64, Progress>, ids: Seq<u64>) -> bool {
    &&& ids.no_duplicates()
    &&& forall|id: u64| #[trigger] ids.contains(id) <==> finished_ids(open).contains(id)
}

/// The ids of the finished transfers, in the order in which the map is walked.
fn list_finished(transfers: &HashMap<u64, Incoming>) -> (r: Vec<u64>)
    ensures
        lists_finished(table(transfers@), r@),
{
    let ghost open = table(transfers@);
    let mut out: Vec<u64> = Vec::new();
    for id in it: transfers.keys()
        invariant
            open == table(transfers@),
            it.seq().unref().no_duplicates(),
            it.seq().unref().to_set() == transfers@.dom(),
            out@.no_duplicates(),
            forall|x: u64| #[trigger]
                out@.contains(x) <==> finished_ids(open).contains(x) && it.seq().unref().take(
                    it.index() as int,
                ).contains(x),
            it.index() == it.seq().len() ==> lists_finished(open, out@),
    {
        let ghost keys = it.seq().unref();
        let ghost n = it.index() as int;
        let ghost before = out@;
        assert(keys[n] == *id);
        proof {
            assert(keys.to_set().contains(*id));
            assert(transfers@.dom().contains(*id));
            assert(keys.take(n + 1) == keys.take(n).push(*id));
            assert(!keys.take(n).contains(*id)) by {
                if keys.take(n).contains(*id) {
                    let j = choose|j: int| 0 <= j < n && keys.take(n)[j] == *id;
                    assert(keys[j] == keys[n]);
                }
            }
        }
        match transfers.get(id) {
            Some(inc) => {
                assert(open.contains_key(*id) && open[*id] == inc@);
                if inc.complete() {
                    out.push(*id);
                    assert(!before.contains(*id));
                    assert(out@ == before.push(*id));
                }
            },
            None => {},
        }
        assert forall|x: u64| #[trigger] out@.contains(x) <==> finished_ids(open).contains(x)
            && keys.take(n + 1).contains(x) by {
            counting::lemma_contains_push(before, *id, x);
            counting::lemma_contains_push(keys.take(n), *id, x);
            assert(before.contains(x) <==> finished_ids(open).contains(x) && keys.take(
                n,
            ).contains(x));
        }
        assert(n + 1 == keys.len() ==> lists_finished(open, out@)) by {
            assert(n + 1 == keys.len() ==> keys.take(n + 1) == keys);
            assert forall|x: u64|
                n + 1 == keys.len() implies #[trigger] out@.contains(x) == finished_ids(
                open,
            ).contains(x) by {
                if finished_ids(open).contains(x) {
                    assert(transfers@.dom().contains(x));
                    assert(keys.to_set().contains(x));
                }
            }
        }
    }
    out
}

/// Take out every transfer that has all of its chunks, and remember its id. The
/// order in which they come out is the map's own.
pub fn finish_completed(
    transfers: &mut HashMap<u64, Incoming>,
    completed: &mut HashSet<u64>,
) -> (r: Vec<Incoming>)
    ensures
        final(completed)@ == old(completed)@ + finished_ids(table(old(transfers)@)),
        table(final(transfers)@) == table(old(transfers)@).remove_keys(
            finished_ids(table(old(transfers)@)),
        ),
        exists|ids: Seq<u64>|
            #![trigger lists_finished(table(old(transfers)@), ids)]
            {
                &&& lists_finished(table(old(transfers)@), ids)
                &&& r@.len() == ids.len()
                &&& forall|i: int|
                    0 <= i < ids.len() ==> (#[trigger] r@[i])@ == table(old(transfers)@)[ids[i]]
            },
        table_wf(table(old(transfers)@)) ==> table_wf(table(final(transfers)@)),
{
    let ghost open = table(transfers@);
    let ids = list_finished(transfers);
    let mut out: Vec<Incoming> = Vec::new();
    let mut i: usize = 0;
    assert(open.remove_keys(ids@.take(0).to_set()) == open);
    assert(completed@ == old(completed)@ + ids@.take(0).to_set());
    while i < ids.len()
        invariant
            i <= ids@.len(),
            open == table(old(transfers)@),
            lists_finished(open, ids@),
            table(transfers@) == open.remove_keys(ids@.take(i as int).to_set()),
            completed@ == old(completed)@ + ids@.take(i as int).to_set(),
            out@.len() == i,
            forall|k: int| 0 <= k < i ==> (#[trigger] out@[k])@ == open[ids@[k]],
        decreases ids@.len() - i,
    {
        let id: u64 = ids[i];
        let ghost done = ids@.take(i as int);
        let ghost t = table(transfers@);
        proof {
            assert(ids@.contains(id));
            assert(finished_ids(open).contains(id));
            assert(!done.contains(id)) by {
                if done.contains(id) {
                    let j = choose|j: int| 0 <= j < i && done[j] == id;
                    assert(ids@[j] == ids@[i as int]);
                }
            }
            assert(ids@.take(i + 1) == done.push(id));
            assert forall|x: u64| done.push(id).contains(x) <==> done.contains(x) || x == id by {
                counting::lemma_contains_push(done, id, x);
            }
            assert(done.push(id).to_set() == done.to_set().insert(id));
            assert(t.contains_key(id));
            assert(transfers@.contains_key(id));
        }
        match transfers.remove(&id) {
            Some(inc) => {
                assert(inc@ == t[id]);
                out.push(inc);
            },
            None => {},
        }
        completed.insert(id);
        assert(table(transfers@) == t.remove(id));
        assert(table(transfers@) == open.remove_keys(ids@.take(i + 1).to_set()));
        assert(completed@ == old(completed)@ + ids@.take(i + 1).to_set());
        i = i + 1;
    }
    proof {
        assert(ids@.take(ids@.len() as int) == ids@);
        assert(ids@.to_set() == finished_ids(open));
    }
    out
}

// ---------------------------------------------------------------------------
// laws
// ---------------------------------------------------------------------------

/// A refused manifest opens nothing and disturbs nothing.
pub proof fn law_a_refusal_changes_nothing(
    open: Map<u64, Progress>,
    completed: Set<u64>,
    max_bytes: u64,
    now_us: u64,
    said: Said,
)
    requires
        answered(open, completed, max_bytes, now_us, said).0 matches Some(reply)
            && reply matches Said::ManifestOk { accepted, .. } && !accepted,
    ensures
        answered(open, completed, max_bytes, now_us, said).1 == open,
{
}

/// A manifest is accepted for a file that is done, for one that is open, and
/// for a new one exactly when it is within the limit, its chunks fit a message
/// and its three numbers agree.
pub proof fn law_what_a_manifest_is_accepted_for(
    open: Map<u64, Progress>,
    completed: Set<u64>,
    max_bytes: u64,
    now_us: u64,
    xfer: u64,
    total_len: u64,
    chunk_size: u32,
    chunk_count: u32,
    crc32: u32,
    name: Seq<char>,
)
    ensures
        ({
            let said = Said::Manifest { xfer, total_len, chunk_size, chunk_count, crc32, name };
            let reply = answered(open, completed, max_bytes, now_us, said).0;
            &&& reply is Some
            &&& reply->Some_0 is ManifestOk
            &&& reply->Some_0->ManifestOk_xfer == xfer
            &&& reply->Some_0->accepted == (completed.contains(xfer) || open.contains_key(xfer) || (
            total_len <= max_bytes && 0 < chunk_size <= MAX_CHUNK_DATA && incoming::chunks_needed(
                total_len as int,
                chunk_size as int,
            ) == chunk_count))
        }),
{
}

/// A retried manifest keeps the progress already made.
pub proof fn law_a_retried_manifest_keeps_progress(
    open: Map<u64, Progress>,
    completed: Set<u64>,
    max_bytes: u64,
    now_us: u64,
    xfer: u64,
    total_len: u64,
    chunk_size: u32,
    chunk_count: u32,
    crc32: u32,
    name: Seq<char>,
)
    requires
        open.contains_key(xfer),
    ensures
        ({
            let said = Said::Manifest { xfer, total_len, chunk_size, chunk_count, crc32, name };
            answered(open, completed, max_bytes, now_us, said) == (
                Some(Said::ManifestOk { xfer, accepted: true, message: Seq::empty() }),
                open,
            )
        }),
{
}

/// A finished transfer is not forgotten once it is written: it goes on
/// answering "complete", and a manifest for it does not start the file again.
pub proof fn law_a_finished_transfer_is_remembered(
    open: Map<u64, Progress>,
    completed: Set<u64>,
    max_bytes: u64,
    now_us: u64,
    xfer: u64,
    total_len: u64,
    chunk_size: u32,
    chunk_count: u32,
    crc32: u32,
    name: Seq<char>,
)
    requires
        completed.contains(xfer),
        !open.contains_key(xfer),
    ensures
        answered(open, completed, max_bytes, now_us, Said::Status { xfer }) == (
            Some(
                Said::StatusReply {
                    xfer,
                    state: XFER_COMPLETE,
                    missing_total: 0,
                    missing: Seq::empty(),
                },
            ),
            open,
        ),
        ({
            let said = Said::Manifest { xfer, total_len, chunk_size, chunk_count, crc32, name };
            answered(open, completed, max_bytes, now_us, said) == (
                Some(Said::ManifestOk { xfer, accepted: true, message: Seq::empty() }),
                open,
            )
        }),
{
}

/// What the first pass lost is recorded once: every later question is counted
/// as a repair round and leaves the record alone.
pub proof fn law_first_pass_loss_is_recorded_once(p: Progress)
    requires
        p.repair_rounds + 2 <= u32::MAX,
    ensures
        questioned(p).first_pass_missing is Some,
        questioned(questioned(p)).first_pass_missing == questioned(p).first_pass_missing,
        questioned(questioned(p)).repair_rounds == questioned(p).repair_rounds + 1,
        p.first_pass_missing is None ==> questioned(p).first_pass_missing == Some(
            (p.chunk_count - p.have_count) as u32,
        ) && questioned(p).repair_rounds == p.repair_rounds,
{
}

/// A status reply says "complete" exactly when nothing is missing, counts what
/// is missing honestly, and names a missing chunk whenever there is one.
pub proof fn law_status_is_honest(xfer: u64, p: Progress)
    requires
        incoming::progress_wf(p),
    ensures
        ({
            let said = status_reply(xfer, p);
            &&& said->state == XFER_COMPLETE <==> said->missing_total == 0
            &&& said->missing_total == incoming::gaps(p.have).len()
            &&& said->missing.len() == 0 <==> said->missing_total == 0
        }),
{
    incoming::law_complete_means_no_gaps(p);
    incoming::lemma_gaps_len(p.have);
}

/// Messages of one transfer never touch another.
pub proof fn law_transfers_are_independent(
    open: Map<u64, Progress>,
    completed: Set<u64>,
    max_bytes: u64,
    now_us: u64,
    said: Said,
    other: u64,
)
    requires
        said matches Said::Manifest { xfer, .. } ==> xfer != other,
        said matches Said::Status { xfer } ==> xfer != other,
        said matches Said::Chunk { xfer, .. } ==> xfer != other,
    ensures
        ({
            let after = answered(open, completed, max_bytes, now_us, said).1;
            after.contains_key(other) == open.contains_key(other) && (open.contains_key(other)
                ==> after[other] == open[other])
        }),
        ({
            let after = delivered(open, Some(said));
            after.contains_key(other) == open.contains_key(other) && (open.contains_key(other)
                ==> after[other] == open[other])
        }),
{
}

/// A transfer that nobody has opened or finished says so, rather than lying
/// about its progress.
pub proof fn law_an_unknown_transfer_says_so(
    open: Map<u64, Progress>,
    completed: Set<u64>,
    max_bytes: u64,
    now_us: u64,
    xfer: u64,
)
    requires
        !open.contains_key(xfer),
        !completed.contains(xfer),
    ensures
        answered(open, completed, max_bytes, now_us, Said::Status { xfer }) == (
            Some(
                Said::StatusReply {
                    xfer,
                    state: XFER_UNKNOWN,
                    missing_total: 0,
                    missing: Seq::empty(),
                },
            ),
            open,
        ),
{
}

/// A refusal says which of the three promises the manifest breaks: a file over
/// the limit first, then a chunk size of nothing or of more than 32751 bytes,
/// then a count that is not the number of chunks such a file has.
pub proof fn law_a_refusal_says_why(
    open: Map<u64, Progress>,
    completed: Set<u64>,
    max_bytes: u64,
    now_us: u64,
    xfer: u64,
    total_len: u64,
    chunk_size: u32,
    chunk_count: u32,
    crc32: u32,
    name: Seq<char>,
)
    requires
        !completed.contains(xfer),
        !open.contains_key(xfer),
    ensures
        ({
            let said = Said::Manifest { xfer, total_len, chunk_size, chunk_count, crc32, name };
            let (reply, after) = answered(open, completed, max_bytes, now_us, said);
            let size_fits = 1 <= chunk_size <= 32751;
            let count_fits = total_len <= chunk_count * chunk_size && (chunk_count == 0 || (
            chunk_count - 1) * chunk_size < total_len);
            &&& total_len > max_bytes ==> after == open && reply == Some(
                Said::ManifestOk {
                    xfer,
                    accepted: false,
                    message: "over the receiver's --max-bytes limit"@,
                },
            )
            &&& total_len <= max_bytes && !size_fits ==> after == open && reply == Some(
                Said::ManifestOk {
                    xfer,
                    accepted: false,
                    message: "chunk size will not fit an app_message"@,
                },
            )
            &&& total_len <= max_bytes && size_fits && !count_fits ==> after == open && reply
                == Some(
                Said::ManifestOk {
                    xfer,
                    accepted: false,
                    message: "chunk count does not match the length and chunk size"@,
                },
            )
            &&& total_len <= max_bytes && size_fits && count_fits ==> {
                &&& reply == Some(Said::ManifestOk { xfer, accepted: true, message: Seq::empty() })
                &&& after.dom() == open.dom().insert(xfer)
                &&& after[xfer].name == name && after[xfer].total_len == total_len
                &&& after[xfer].chunk_size == chunk_size && after[xfer].chunk_count == chunk_count
                &&& after[xfer].crc == crc32 && after[xfer].started_us == now_us
                &&& after[xfer].have_count == 0 && incoming::gaps(after[xfer].have).len()
                    == chunk_count
            }
        }),
{
    if 1 <= chunk_size {
        let (t, s, c) = (total_len as int, chunk_size as int, chunk_count as int);
        let n = incoming::chunks_needed(t, s);
        incoming::law_as_few_chunks_as_will_do(t, s);
        if n != c {
            if c < n {
                assert(c * s <= (n - 1) * s) by (nonlinear_arith)
                    requires
                        c <= n - 1,
                        s >= 1,
                ;
            } else {
                assert((c - 1) * s >= n * s) by (nonlinear_arith)
                    requires
                        c - 1 >= n,
                        s >= 1,
                ;
            }
            assert(!(t <= c * s && (c == 0 || (c - 1) * s < t))) by {
                if t == 0 {
                    assert(c >= 1);
                }
            }
        }
    }
    incoming::law_nothing_is_there_at_first(
        name,
        total_len,
        chunk_size,
        chunk_count,
        crc32,
        now_us,
    );
}

/// Asking about a transfer leaves the file that is being put together alone.
pub proof fn law_a_question_touches_no_chunk(
    open: Map<u64, Progress>,
    completed: Set<u64>,
    max_bytes: u64,
    now_us: u64,
    xfer: u64,
)
    requires
        open.contains_key(xfer),
    ensures
        ({
            let after = answered(open, completed, max_bytes, now_us, Said::Status { xfer }).1;
            &&& after.dom() == open.dom()
            &&& after[xfer].data == open[xfer].data
            &&& after[xfer].have == open[xfer].have
            &&& after[xfer].have_count == open[xfer].have_count
            &&& after[xfer].duplicates == open[xfer].duplicates
            &&& after[xfer].name == open[xfer].name
            &&& after[xfer].total_len == open[xfer].total_len
            &&& after[xfer].chunk_size == open[xfer].chunk_size
            &&& after[xfer].chunk_count == open[xfer].chunk_count
            &&& after[xfer].crc == open[xfer].crc
            &&& after[xfer].started_us == open[xfer].started_us
        }),
{
    let after = answered(open, completed, max_bytes, now_us, Said::Status { xfer }).1;
    assert(after.dom() =~= open.dom());
}

/// A status reply names the lowest of the missing chunks in ascending order: all
/// of them, or the first 8186 where there are more.
pub proof fn law_status_names_the_lowest_missing(xfer: u64, p: Progress, index: u32)
    requires
        incoming::progress_wf(p),
    ensures
        ({
            let said = status_reply(xfer, p);
            let named = said->missing;
            &&& said->StatusReply_xfer == xfer
            &&& said->state == if incoming::gaps(p.have).len() == 0 { 2u8 } else { 1u8 }
            &&& named.len() == if said->missing_total < 8186 {
                said->missing_total as int
            } else {
                8186
            }
            &&& forall|i: int, j: int|
                0 <= i < j < named.len() ==> #[trigger] named[i] < #[trigger] named[j]
            &&& named.contains(index) ==> index < p.chunk_count && !p.have[index as int]
            &&& index < p.chunk_count && !p.have[index as int] && !named.contains(index)
                ==> named.len() == 8186 && forall|i: int|
                0 <= i < named.len() ==> #[trigger] named[i] < index
        }),
{
    let all = incoming::gaps(p.have);
    let named = status_reply(xfer, p)->missing;
    incoming::lemma_gaps_len(p.have);
    incoming::law_gaps_ascend(p.have);
    incoming::law_complete_means_no_gaps(p);
    incoming::law_gaps_name_what_is_missing(p.have, index);
    assert forall|i: int, j: int| 0 <= i < j < named.len() implies #[trigger] named[i]
        < #[trigger] named[j] by {
        assert(all[i] < all[j]);
    }
    if named.contains(index) {
        let i = choose|i: int| 0 <= i < named.len() && named[i] == index;
        assert(all[i] == index);
    }
    if index < p.chunk_count && !p.have[index as int] && !named.contains(index) {
        let at = choose|i: int| 0 <= i < all.len() && all[i] == index;
        if at < named.len() {
            assert(named[at] == index);
        }
        assert forall|i: int| 0 <= i < named.len() implies #[trigger] named[i] < index by {
            assert(all[i] < all[at]);
        }
    }
}

/// Chunks come in as messages and nothing else does: a chunk goes to the transfer
/// it names, if that is open; any other message, and a call for a chunk, changes
/// nothing and is not answered.
pub proof fn law_only_chunks_are_delivered(
    open: Map<u64, Progress>,
    completed: Set<u64>,
    max_bytes: u64,
    now_us: u64,
    xfer: u64,
    index: u32,
    data: Seq<u8>,
    said: Said,
)
    ensures
        ({
            let chunk = Said::Chunk { xfer, index, data };
            &&& open.contains_key(xfer) ==> delivered(open, Some(chunk)).dom() == open.dom()
                && delivered(open, Some(chunk))[xfer] == incoming::stored(open[xfer], index, data)
            &&& !open.contains_key(xfer) ==> delivered(open, Some(chunk)) == open
        }),
        !(said is Chunk) ==> delivered(open, Some(said)) == open,
        delivered(open, None) == open,
        !(said is Manifest) && !(said is Status) ==> answered(
            open,
            completed,
            max_bytes,
            now_us,
            said,
        ) == (None::<Said>, open),
{
    let chunk = Said::Chunk { xfer, index, data };
    if open.contains_key(xfer) {
        assert(delivered(open, Some(chunk)).dom() =~= open.dom());
    }
}

/// A transfer is finished exactly when it is open and none of its chunks is
/// missing.
pub proof fn law_finished_means_nothing_is_missing(open: Map<u64, Progress>, id: u64)
    requires
        table_wf(open),
    ensures
        finished_ids(open).contains(id) <==> open.contains_key(id) && (forall|i: int|
            0 <= i < open[id].chunk_count ==> #[trigger] open[id].have[i]),
{
    if open.contains_key(id) {
        let p = open[id];
        let yes = |b: bool| b;
        if p.have_count == p.chunk_count {
            counting::lemma_count_all(p.have, yes);
            assert forall|i: int| 0 <= i < p.chunk_count implies #[trigger] p.have[i] by {
                assert(yes(p.have[i]));
            }
        }
        if forall|i: int| 0 <= i < p.chunk_count ==> #[trigger] p.have[i] {
            counting::lemma_count_at_least(p.have, yes, p.have.len() as int);
            counting::lemma_count_bounds(p.have, yes);
        }
    }
}

} // verus!
