//! Moving whole files over a private route: the sending end.
//!
//! The calls themselves are made outside. What is decided here is what goes into
//! each call, what is made of each answer, and what comes next.

use std::path::PathBuf;
use vstd::prelude::*;
use vstd::utf8::*;

use crate::bytes::copy_of;
use crate::clock::spent_us;
use crate::crc;
use crate::crc::crc32;
use crate::incoming;
use crate::incoming::{chunks_for, Progress};
use crate::proto;
use crate::proto::{Packet, Said, MAX_CHUNK_DATA, XFER_COMPLETE, XFER_UNKNOWN};
use crate::text;
use crate::transfer;
use crate::transfer::Ruling;

verus! {

/// How many chunk sends may be in the node at once. Past this the pacing loop
/// waits, so a stalled network applies backpressure instead of growing a pile
/// of tasks.
pub const MAX_INFLIGHT: usize = 32;

/// How many times to go back to the rendezvous record after burning through
/// every route it named. Without a bound a permanently dead receiver spins
/// forever: the record still holds its last, now-useless list, so each refresh
/// hands back the same dead routes.
pub const MAX_POOL_REFRESHES: u32 = 3;

/// How often a call is tried before its route is given up.
pub const CALL_ATTEMPTS: u32 = 5;

/// How much longer each pause between two tries is than the one before.
pub const CALL_PAUSE_MS: u64 = 500;

/// Why a run without a record ends when its route dies.
pub const UNRECORDED: &'static str = "the remote route died mid-transfer and there is no rendezvous record, so there is no way to learn its replacement. Restart the receiver for a fresh blob, or use --rendezvous.";

/// Where the sender gets the receiver's route from.
pub enum RouteSource {
    /// A blob pasted on the command line. Perishable: it names one route, and
    /// when that route dies there is no way to learn its replacement.
    Blob(Vec<u8>),
    /// A DHT record the receiver rewrites on every rotation. The key is stable,
    /// so a dead route becomes a re-read rather than the end of the run.
    Rendezvous(String),
}

pub struct SendConfig {
    pub files: Vec<PathBuf>,
    pub chunk: usize,
    pub rate: u64,
    pub settle_ms: u64,
    pub max_rounds: u32,
}

/// Per-file totals, accumulated across however many attempts and routes it
/// took. A retry after a failover is still the same file, and timing it from
/// the retry's start reports a throughput that never happened.
pub struct FileStats {
    pub chunk_sends: u64,
    pub send_errors: u64,
    pub repairs: u32,
    pub first_pass_missing: Option<u32>,
    pub attempts: u32,
    pub total_chunks: u32,
    pub bytes: u64,
}

/// Why a transfer attempt stopped.
///
/// The distinction is what makes a pool useful. Veilid only reports a route as
/// dead when it decides to; long before that, control calls on it start failing.
/// Treating that as fatal throws away perfectly good spares, so it is reported
/// separately and retried on the next route.
pub enum SendError {
    RouteUnusable(String),
    Fatal(String),
}

/// What the first pass lost, as far as it has been measured.
pub open spec fn lost_of(stats: FileStats) -> u32 {
    match stats.first_pass_missing {
        Some(n) => n,
        None => 0,
    }
}

impl FileStats {
    pub fn new() -> (r: FileStats)
        ensures
            r == (FileStats {
                chunk_sends: 0,
                send_errors: 0,
                repairs: 0,
                first_pass_missing: None,
                attempts: 0,
                total_chunks: 0,
                bytes: 0,
            }),
    {
        FileStats {
            chunk_sends: 0,
            send_errors: 0,
            repairs: 0,
            first_pass_missing: None,
            attempts: 0,
            total_chunks: 0,
            bytes: 0,
        }
    }

    /// What the first pass lost, as far as it has been measured.
    pub fn lost(&self) -> (r: u32)
        ensures
            r == lost_of(*self),
    {
        match self.first_pass_missing {
            Some(n) => n,
            None => 0,
        }
    }
}

// ---------------------------------------------------------------------------
// what is said
// ---------------------------------------------------------------------------

/// Why a file cannot be sent at all.
pub open spec fn too_many_chunks_text(name: Seq<char>) -> Seq<char> {
    let s = Seq::<char>::empty()
        + name
        + ": too many chunks; use a larger --chunk"@;
    s
}

/// Why a file cannot be sent at all.
fn too_many_chunks(name: &str) -> (r: String)
    ensures
        r@ == too_many_chunks_text(name@),
{
    let mut out = String::new();
    out.append(name);
    out.append(": too many chunks; use a larger --chunk");
    out
}

/// The receiver would not take the file.
pub open spec fn refused_text(name: Seq<char>, why: Seq<char>) -> Seq<char> {
    let s = Seq::<char>::empty()
        + name
        + ": the receiver refused it — "@
        + why;
    s
}

/// The receiver would not take the file.
fn refused(name: &str, why: &str) -> (r: String)
    ensures
        r@ == refused_text(name@, why@),
{
    let mut out = String::new();
    out.append(name);
    out.append(": the receiver refused it — ");
    out.append(why);
    out
}

/// The manifest got no answer that makes sense.
pub open spec fn odd_manifest_answer_text(name: Seq<char>) -> Seq<char> {
    let s = Seq::<char>::empty()
        + name
        + ": the receiver answered the manifest with something else"@;
    s
}

/// The manifest got no answer that makes sense.
fn odd_manifest_answer(name: &str) -> (r: String)
    ensures
        r@ == odd_manifest_answer_text(name@),
{
    let mut out = String::new();
    out.append(name);
    out.append(": the receiver answered the manifest with something else");
    out
}

/// A status question got no answer that makes sense.
pub open spec fn odd_status_answer_text(name: Seq<char>) -> Seq<char> {
    let s = Seq::<char>::empty()
        + name
        + ": the receiver answered a status query with something else"@;
    s
}

/// A status question got no answer that makes sense.
fn odd_status_answer(name: &str) -> (r: String)
    ensures
        r@ == odd_status_answer_text(name@),
{
    let mut out = String::new();
    out.append(name);
    out.append(": the receiver answered a status query with something else");
    out
}

/// The receiver will not keep the transfer open.
pub open spec fn forgetful_text(name: Seq<char>) -> Seq<char> {
    let s = Seq::<char>::empty()
        + name
        + ": the receiver keeps forgetting this transfer"@;
    s
}

/// The receiver will not keep the transfer open.
fn forgetful(name: &str) -> (r: String)
    ensures
        r@ == forgetful_text(name@),
{
    let mut out = String::new();
    out.append(name);
    out.append(": the receiver keeps forgetting this transfer");
    out
}

/// The receiver wants chunks and does not say which.
pub open spec fn named_none_text(name: Seq<char>, missing_total: u32) -> Seq<char> {
    let s = Seq::<char>::empty()
        + name
        + ": the receiver is "@
        + text::decimal(missing_total as nat)
        + " chunk(s) short but named none of them"@;
    s
}

/// The receiver wants chunks and does not say which.
fn named_none(name: &str, missing_total: u32) -> (r: String)
    ensures
        r@ == named_none_text(name@, missing_total),
{
    let mut out = String::new();
    out.append(name);
    out.append(": the receiver is ");
    text::put_decimal(&mut out, missing_total as u64);
    out.append(" chunk(s) short but named none of them");
    out
}

/// The file is not there and the passes are used up.
pub open spec fn out_of_passes_text(
    name: Seq<char>,
    missing_total: u32,
    max_rounds: u32,
) -> Seq<char> {
    let s = Seq::<char>::empty()
        + name
        + ": still "@
        + text::decimal(missing_total as nat)
        + " chunk(s) short after "@
        + text::decimal(max_rounds as nat)
        + " repair pass(es); try a lower --rate or a smaller --chunk"@;
    s
}

/// The file is not there and the passes are used up.
fn out_of_passes(name: &str, missing_total: u32, max_rounds: u32) -> (r: String)
    ensures
        r@ == out_of_passes_text(name@, missing_total, max_rounds),
{
    let mut out = String::new();
    out.append(name);
    out.append(": still ");
    text::put_decimal(&mut out, missing_total as u64);
    out.append(" chunk(s) short after ");
    text::put_decimal(&mut out, max_rounds as u64);
    out.append(" repair pass(es); try a lower --rate or a smaller --chunk");
    out
}

/// Every route in the record has failed too often.
pub open spec fn all_routes_failed_text(name: Seq<char>) -> Seq<char> {
    let s = Seq::<char>::empty()
        + name
        + ": every route in the rendezvous record has failed "@
        + text::decimal(MAX_POOL_REFRESHES as nat)
        + " refreshes running. The receiver is most likely gone -- it would have republished by now if it were alive."@;
    s
}

/// Every route in the record has failed too often.
pub fn all_routes_failed(name: &str) -> (r: String)
    ensures
        r@ == all_routes_failed_text(name@),
{
    let mut out = String::new();
    out.append(name);
    out.append(": every route in the rendezvous record has failed ");
    text::put_decimal(&mut out, MAX_POOL_REFRESHES as u64);
    out.append(" refreshes running. The receiver is most likely gone -- it would have republished by now if it were alive.");
    out
}

/// A call did not get through.
pub open spec fn call_failed_text(what: Seq<char>, last: Seq<char>) -> Seq<char> {
    let s = Seq::<char>::empty()
        + what
        + " failed after "@
        + text::decimal(CALL_ATTEMPTS as nat)
        + " attempts: "@
        + last;
    s
}

/// A call did not get through.
pub fn call_failed(what: &str, last: &str) -> (r: String)
    ensures
        r@ == call_failed_text(what@, last@),
{
    let mut out = String::new();
    out.append(what);
    out.append(" failed after ");
    text::put_decimal(&mut out, CALL_ATTEMPTS as u64);
    out.append(" attempts: ");
    out.append(last);
    out
}

/// What is about to be sent.
pub open spec fn file_line_text(
    name: Seq<char>,
    len: u64,
    chunk_count: u32,
    chunk_size: u32,
    crc: u32,
) -> Seq<char> {
    let s = Seq::<char>::empty()
        + "\n"@
        + name
        + ": "@
        + text::decimal(len as nat)
        + " bytes, "@
        + text::decimal(chunk_count as nat)
        + " chunk(s) of "@
        + text::decimal(chunk_size as nat)
        + ", crc32 "@
        + text::hex8(crc)
        + "\n"@;
    s
}

/// What is about to be sent.
pub fn file_line(name: &str, len: u64, chunk_count: u32, chunk_size: u32, crc: u32) -> (r: String)
    ensures
        r@ == file_line_text(name@, len, chunk_count, chunk_size, crc),
{
    let mut out = String::new();
    out.append("\n");
    out.append(name);
    out.append(": ");
    text::put_decimal(&mut out, len);
    out.append(" bytes, ");
    text::put_decimal(&mut out, chunk_count as u64);
    out.append(" chunk(s) of ");
    text::put_decimal(&mut out, chunk_size as u64);
    out.append(", crc32 ");
    text::put_hex8(&mut out, crc);
    out.append("\n");
    out
}

/// What a pass is announced with.
pub open spec fn pass_text(
    round: u32,
    chunk_count: u32,
    missing_total: u32,
    listed: int,
    rate: u64,
) -> Seq<char> {
    if round == 0 {
        let s = Seq::<char>::empty();
        let s = if chunk_count > missing_total {
            s
                + "  resuming: "@
                + text::decimal((chunk_count - missing_total) as nat)
                + " of "@
                + text::decimal(chunk_count as nat)
                + " chunk(s) already there\n"@
        } else {
            s
        };
        let s = s
            + "  sending "@
            + text::decimal(listed as nat)
            + " chunk(s) at "@
            + text::decimal(rate as nat)
            + "/s\n"@;
        s
    } else {
        let s = Seq::<char>::empty()
            + "  repair pass "@
            + text::decimal(round as nat)
            + ": resending "@
            + text::decimal(listed as nat)
            + " chunk(s)\n"@;
        s
    }
}

/// What a pass is announced with. The receiver cannot be short of more chunks
/// than the file has.
pub fn pass_notice(
    round: u32,
    chunk_count: u32,
    missing_total: u32,
    listed: usize,
    rate: u64,
) -> (r: String)
    requires
        round == 0 ==> missing_total <= chunk_count,
    ensures
        r@ == pass_text(round, chunk_count, missing_total, listed as int, rate),
{
    let mut out = String::new();
    if round == 0 {
        let already: u32 = chunk_count - missing_total;
        if already > 0 {
            out.append("  resuming: ");
            text::put_decimal(&mut out, already as u64);
            out.append(" of ");
            text::put_decimal(&mut out, chunk_count as u64);
            out.append(" chunk(s) already there\n");
        }
        out.append("  sending ");
        text::put_decimal(&mut out, listed as u64);
        out.append(" chunk(s) at ");
        text::put_decimal(&mut out, rate);
        out.append("/s\n");
    } else {
        out.append("  repair pass ");
        text::put_decimal(&mut out, round as u64);
        out.append(": resending ");
        text::put_decimal(&mut out, listed as u64);
        out.append(" chunk(s)\n");
    }
    out
}

/// The per-file summary. The figures with a decimal point are handed in as they
/// are to be printed.
pub open spec fn file_report_text(
    stats: FileStats,
    elapsed: Seq<char>,
    kib_per_s: Seq<char>,
    lost_pct: Seq<char>,
) -> Seq<char> {
    let s = Seq::<char>::empty()
        + "  delivered in "@
        + elapsed
        + "s  ("@
        + kib_per_s
        + " KiB/s)\n  "@
        + text::decimal(stats.chunk_sends as nat)
        + " chunk send(s) for "@
        + text::decimal(stats.total_chunks as nat)
        + " chunk(s); first pass lost "@
        + text::decimal(lost_of(stats) as nat)
        + " ("@
        + lost_pct
        + "%), "@
        + text::decimal(stats.repairs as nat)
        + " repair pass(es)\n"@;
    let s = if stats.attempts > 1 {
        s
            + "  took "@
            + text::decimal(stats.attempts as nat)
            + " attempts across "@
            + text::decimal(stats.attempts as nat)
            + " route(s)\n"@
    } else {
        s
    };
    let s = if stats.send_errors > 0 {
        s
            + "  "@
            + text::decimal(stats.send_errors as nat)
            + " chunk(s) never left the node\n"@
    } else {
        s
    };
    s
}

/// The per-file summary, printed once the file is actually complete -- timed
/// from when the file was first attempted, not from the attempt that happened
/// to finish it.
pub fn report_file(stats: &FileStats, elapsed: &str, kib_per_s: &str, lost_pct: &str) -> (r: String)
    ensures
        r@ == file_report_text(*stats, elapsed@, kib_per_s@, lost_pct@),
{
    let mut out = String::new();
    out.append("  delivered in ");
    out.append(elapsed);
    out.append("s  (");
    out.append(kib_per_s);
    out.append(" KiB/s)\n  ");
    text::put_decimal(&mut out, stats.chunk_sends);
    out.append(" chunk send(s) for ");
    text::put_decimal(&mut out, stats.total_chunks as u64);
    out.append(" chunk(s); first pass lost ");
    text::put_decimal(&mut out, stats.lost() as u64);
    out.append(" (");
    out.append(lost_pct);
    out.append("%), ");
    text::put_decimal(&mut out, stats.repairs as u64);
    out.append(" repair pass(es)\n");
    if stats.attempts > 1 {
        out.append("  took ");
        text::put_decimal(&mut out, stats.attempts as u64);
        out.append(" attempts across ");
        text::put_decimal(&mut out, stats.attempts as u64);
        out.append(" route(s)\n");
    }
    if stats.send_errors > 0 {
        out.append("  ");
        text::put_decimal(&mut out, stats.send_errors);
        out.append(" chunk(s) never left the node\n");
    }
    out
}

// ---------------------------------------------------------------------------
// what is sent
// ---------------------------------------------------------------------------

/// How a file is going to be sent.
pub struct Plan {
    pub chunk_size: u32,
    pub chunk_count: u32,
    pub crc: u32,
    pub total_len: u64,
    /// The question that opens the transfer, ready to go out.
    pub manifest: Vec<u8>,
}

/// The chunk size that is used when `chunk` is asked for.
pub open spec fn chunk_size_for(chunk: usize) -> int {
    if chunk < 1 {
        1
    } else if chunk > MAX_CHUNK_DATA {
        MAX_CHUNK_DATA as int
    } else {
        chunk as int
    }
}

/// The manifest of a file.
pub open spec fn manifest_of(xfer: u64, name: Seq<char>, file: Seq<u8>, chunk_size: int) -> Said {
    Said::Manifest {
        xfer,
        total_len: file.len() as u64,
        chunk_size: chunk_size as u32,
        chunk_count: incoming::chunks_needed(file.len() as int, chunk_size) as u32,
        crc32: crc::crc_of(file),
        name,
    }
}

/// Settle how a file is sent, or say why it cannot be.
pub fn plan(xfer: u64, name: &str, file: &[u8], chunk: usize) -> (r: Result<Plan, String>)
    ensures
        ({
            let size = chunk_size_for(chunk);
            let count = incoming::chunks_needed(file@.len() as int, size);
            match r {
                Err(why) => count > u32::MAX && why@ == too_many_chunks_text(name@),
                Ok(p) => {
                    &&& count <= u32::MAX
                    &&& p.chunk_size == size
                    &&& p.chunk_count == count
                    &&& p.crc == crc::crc_of(file@)
                    &&& p.total_len == file@.len()
                    &&& p.manifest@ == proto::on_wire(manifest_of(xfer, name@, file@, size), 0)
                },
            }
        }),
        r matches Ok(p) ==> {
            &&& 1 <= chunk <= MAX_CHUNK_DATA ==> p.chunk_size == chunk
            &&& chunk < 1 ==> p.chunk_size == 1
            &&& chunk > MAX_CHUNK_DATA ==> p.chunk_size == MAX_CHUNK_DATA
            &&& file@.len() <= p.chunk_count * p.chunk_size
            &&& file@.len() > 0 ==> (p.chunk_count - 1) * p.chunk_size < file@.len()
        },
{
    let chunk_size: usize = if chunk < 1 {
        1
    } else if chunk > MAX_CHUNK_DATA {
        MAX_CHUNK_DATA
    } else {
        chunk
    };
    let total_len: u64 = file.len() as u64;
    proof {
        incoming::law_as_few_chunks_as_will_do(total_len as int, chunk_size as int);
    }
    let count: u64 = chunks_for(total_len, chunk_size as u64);
    if count > u32::MAX as u64 {
        return Err(too_many_chunks(name));
    }
    let crc = crc32(file);
    let packet = Packet::Manifest {
        xfer,
        total_len,
        chunk_size: chunk_size as u32,
        chunk_count: count as u32,
        crc32: crc,
        name: name.to_owned(),
    };
    assert(packet@ == manifest_of(xfer, name@, file@, chunk_size as int));
    Ok(
        Plan {
            chunk_size: chunk_size as u32,
            chunk_count: count as u32,
            crc,
            total_len,
            manifest: packet.encode(0),
        },
    )
}

/// Whether chunk `index` begins inside a file of `len` bytes.
pub fn in_file(len: usize, chunk_size: usize, index: u32) -> (r: bool)
    ensures
        r == (incoming::chunk_start(chunk_size as int, index as int) <= len),
{
    assert(0 <= index * chunk_size <= 0xffff_ffff * 0xffff_ffff_ffff_ffff) by (nonlinear_arith)
        requires
            0 <= index <= 0xffff_ffff,
            0 <= chunk_size <= 0xffff_ffff_ffff_ffff,
    ;
    index as u128 * chunk_size as u128 <= len as u128
}

/// One chunk of the file, ready to go out.
pub fn chunk_packet(xfer: u64, file: &[u8], chunk_size: usize, index: u32) -> (r: Vec<u8>)
    requires
        incoming::chunk_start(chunk_size as int, index as int) <= file@.len(),
    ensures
        r@ == proto::on_wire(
            Said::Chunk {
                xfer,
                index,
                data: incoming::chunk_of(file@, chunk_size as int, index as int),
            },
            0,
        ),
{
    assert(0 <= index * chunk_size) by (nonlinear_arith)
        requires
            0 <= index,
            0 <= chunk_size,
    ;
    let len: usize = file.len();
    let start: usize = index as usize * chunk_size;
    let end: usize = if chunk_size <= len - start { start + chunk_size } else { len };
    let data = copy_of(file, start, end);
    let packet = Packet::Chunk { xfer, index, data };
    packet.encode(0)
}

/// The question "what are you still missing?", ready to go out.
pub fn status_question(xfer: u64) -> (r: Vec<u8>)
    ensures
        r@ == proto::on_wire(Said::Status { xfer }, 0),
{
    Packet::Status { xfer }.encode(0)
}

/// The list of routes that goes into the rendezvous record.
pub fn routes_value(blobs: Vec<Vec<u8>>) -> (r: Vec<u8>)
    ensures
        r@ == proto::on_wire(Said::Routes { blobs: proto::blob_list(blobs@) }, 0),
{
    Packet::Routes { blobs }.encode(0)
}

/// The time between two sends, in microseconds.
pub fn spacing_us(rate: u64) -> (r: u64)
    ensures
        r == 1_000_000int / (if rate > 1 { rate as int } else { 1 }),
        rate <= 1 ==> r == 1_000_000,
        rate >= 1 ==> r * rate <= 1_000_000 < (r + 1) * rate,
{
    proof {
        if rate >= 1 {
            let (w, s) = (rate as int, 1_000_000int);
            let e = s / w;
            vstd::arithmetic::div_mod::lemma_fundamental_div_mod(s, w);
            vstd::arithmetic::div_mod::lemma_mod_bound(s, w);
            assert(e * w <= s && s < (e + 1) * w) by (nonlinear_arith)
                requires
                    s == w * e + s % w,
                    0 <= s % w < w,
            ;
        }
    }
    1_000_000 / (if rate > 1 { rate } else { 1 })
}

/// The hash that a transfer id starts from, after `data` has gone into it.
pub open spec fn fnv(h: u64, data: Seq<u8>) -> u64
    decreases data.len(),
{
    if data.len() == 0 {
        h
    } else {
        (((fnv(h, data.drop_last()) ^ (data.last() as u64)) * 0x0000_0100_0000_01b3)
            % 0x1_0000_0000_0000_0000) as u64
    }
}

/// The id of a transfer that is opened when the clock reads `now_us`.
pub open spec fn transfer_id(name: Seq<char>, now_us: u64) -> u64 {
    fnv(0xcbf2_9ce4_8422_2325, encode_utf8(name)) ^ ((now_us << 17) | (now_us >> 47))
}

/// The id of a transfer that is opened when the clock reads `now_us`.
pub fn xfer_id_at(name: &str, now_us: u64) -> (r: u64)
    ensures
        r == transfer_id(name@, now_us),
{
    let raw = name.as_bytes();
    let mut h: u64 = 0xcbf2_9ce4_8422_2325;
    let mut i: usize = 0;
    assert(raw@.take(0).len() == 0);
    while i < raw.len()
        invariant
            i <= raw@.len(),
            h == fnv(0xcbf2_9ce4_8422_2325, raw@.take(i as int)),
        decreases raw@.len() - i,
    {
        assert(raw@.take(i + 1).drop_last() == raw@.take(i as int));
        assert(raw@.take(i + 1).last() == raw@[i as int]);
        h = (h ^ (raw[i] as u64)).wrapping_mul(0x0000_0100_0000_01b3);
        i = i + 1;
    }
    assert(raw@.take(i as int) == raw@);
    h ^ ((now_us << 17) | (now_us >> 47))
}

/// A per-transfer id, so two runs against the same receiver never collide and
/// a restarted sender does not resume into a stale half-file. Which id it is, is
/// left open to the clock: every number is the id of the name at some reading.
pub fn xfer_id(name: &str) -> (r: u64)
    ensures
        exists|now_us: u64| r == #[trigger] transfer_id(name@, now_us),
{
    let now_us: u64 = spent_us();
    xfer_id_at(name, now_us)
}

// ---------------------------------------------------------------------------
// what is made of the answers
// ---------------------------------------------------------------------------

/// What the receiver's answer to a manifest comes to: nothing, or why the file
/// cannot be sent.
pub open spec fn manifest_verdict(name: Seq<char>, reply: Option<Said>) -> Option<Seq<char>> {
    match reply {
        Some(Said::ManifestOk { accepted, message, .. }) => if accepted {
            None
        } else {
            Some(refused_text(name, message))
        },
        _ => Some(odd_manifest_answer_text(name)),
    }
}

/// Read the receiver's answer to a manifest. A refusal is the receiver's
/// considered answer, not a broken path: another route would be refused in
/// exactly the same way.
pub fn opened(name: &str, reply: &[u8]) -> (r: Result<(), SendError>)
    ensures
        match manifest_verdict(name@, proto::heard(reply@)) {
            None => r is Ok,
            Some(why) => r matches Err(SendError::Fatal(e)) && e@ == why,
        },
{
    match Packet::decode(reply) {
        Some(Packet::ManifestOk { accepted, message, .. }) => if accepted {
            Ok(())
        } else {
            Err(SendError::Fatal(refused(name, message.as_str())))
        },
        _ => Err(SendError::Fatal(odd_manifest_answer(name))),
    }
}

/// One attempt to get a file across one route.
pub struct Attempt {
    pub name: String,
    pub max_rounds: u32,
    /// How many rounds are over. Round 0 starts from what the receiver already
    /// has; every later one repairs.
    pub round: u32,
}

/// What the sender does once the receiver has answered a status question.
pub enum Next {
    /// The receiver has every chunk.
    Done,
    /// The receiver restarted, or never got the manifest at all.
    Reopen,
    /// Send these chunks, and ask again.
    Send { missing_total: u32, missing: Vec<u32> },
    /// There is no point in going on.
    Fail(String),
}

/// What the sender does next, over sequences.
pub enum Move {
    Done,
    Reopen,
    Send { missing_total: u32, missing: Seq<u32> },
    Fail(Seq<char>),
}

impl View for Next {
    type V = Move;

    open spec fn view(&self) -> Move {
        match *self {
            Next::Done => Move::Done,
            Next::Reopen => Move::Reopen,
            Next::Send { missing_total, missing } => Move::Send { missing_total, missing: missing@ },
            Next::Fail(why) => Move::Fail(why@),
        }
    }
}

/// What follows from an answer to a status question once `round` passes are
/// over. The first pass and `max_rounds` repair passes are made before the file
/// is given up, and only while chunks are still missing.
pub open spec fn next_move(
    name: Seq<char>,
    round: u32,
    max_rounds: u32,
    reply: Option<Said>,
) -> Move {
    match reply {
        Some(Said::StatusReply { state, missing_total, missing, .. }) => {
            if state == XFER_COMPLETE {
                Move::Done
            } else if state == XFER_UNKNOWN {
                Move::Reopen
            } else if missing.len() == 0 {
                Move::Fail(named_none_text(name, missing_total))
            } else if round <= max_rounds {
                Move::Send { missing_total, missing }
            } else {
                Move::Fail(out_of_passes_text(name, missing_total, max_rounds))
            }
        },
        _ => Move::Fail(odd_status_answer_text(name)),
    }
}

/// The totals after an answer to a status question. Round 0's answer is the
/// starting position, not a loss measurement: the first pass's loss is what is
/// still missing after it.
pub open spec fn stats_after_status(
    stats: FileStats,
    round: u32,
    reply: Option<Said>,
) -> FileStats {
    match reply {
        Some(Said::StatusReply { missing_total, .. }) if round == 1
            && stats.first_pass_missing is None => FileStats {
            first_pass_missing: Some(missing_total),
            ..stats
        },
        _ => stats,
    }
}

/// The totals after a pass.
pub open spec fn stats_after_pass(stats: FileStats, round: u32, ok: u64, failed: u64) -> FileStats {
    FileStats {
        chunk_sends: (stats.chunk_sends + ok + failed) as u64,
        send_errors: (stats.send_errors + failed) as u64,
        repairs: if round > 0 {
            (stats.repairs + 1) as u32
        } else {
            stats.repairs
        },
        ..stats
    }
}

impl Attempt {
    /// An attempt that has just been opened.
    pub fn new(name: &str, max_rounds: u32, stats: &mut FileStats) -> (r: Attempt)
        requires
            old(stats).attempts < u32::MAX,
        ensures
            r.name@ == name@,
            r.max_rounds == max_rounds,
            r.round == 0,
            *final(stats) == (FileStats {
                attempts: (old(stats).attempts + 1) as u32,
                ..*old(stats)
            }),
    {
        stats.attempts = stats.attempts + 1;
        Attempt { name: name.to_owned(), max_rounds, round: 0 }
    }

    /// Read the answer to a status question.
    pub fn on_status(&self, reply: &[u8], stats: &mut FileStats) -> (r: Next)
        ensures
            r@ == next_move(self.name@, self.round, self.max_rounds, proto::heard(reply@)),
            *final(stats) == stats_after_status(*old(stats), self.round, proto::heard(reply@)),
    {
        match Packet::decode(reply) {
            Some(Packet::StatusReply { state, missing_total, missing, .. }) => {
                if self.round == 1 && stats.first_pass_missing.is_none() {
                    stats.first_pass_missing = Some(missing_total);
                }
                if state == XFER_COMPLETE {
                    Next::Done
                } else if state == XFER_UNKNOWN {
                    Next::Reopen
                } else if missing.len() == 0 {
                    Next::Fail(named_none(self.name.as_str(), missing_total))
                } else if self.round <= self.max_rounds {
                    Next::Send { missing_total, missing }
                } else {
                    Next::Fail(out_of_passes(self.name.as_str(), missing_total, self.max_rounds))
                }
            },
            _ => Next::Fail(odd_status_answer(self.name.as_str())),
        }
    }

    /// The transfer has been opened again. Gives the reason to stop, if the
    /// receiver has forgotten it too often.
    pub fn reopened(&mut self) -> (r: Option<String>)
        requires
            old(self).round < u32::MAX,
        ensures
            final(self).round == old(self).round + 1,
            final(self).name == old(self).name,
            final(self).max_rounds == old(self).max_rounds,
            match r {
                None => final(self).round <= old(self).max_rounds,
                Some(why) => final(self).round > old(self).max_rounds && why@ == forgetful_text(
                    old(self).name@,
                ),
            },
            r is None <==> old(self).round < old(self).max_rounds,
    {
        self.round = self.round + 1;
        if self.round > self.max_rounds {
            Some(forgetful(self.name.as_str()))
        } else {
            None
        }
    }

    /// A pass is over, with `ok` chunks accepted by the node and `failed`
    /// refused. What it came to is for the receiver's next answer to say.
    pub fn passed(&mut self, ok: u64, failed: u64, stats: &mut FileStats)
        requires
            old(self).round < u32::MAX,
            old(stats).chunk_sends + ok + failed <= u64::MAX,
            old(stats).send_errors + failed <= u64::MAX,
            old(self).round > 0 ==> old(stats).repairs < u32::MAX,
        ensures
            final(self).round == old(self).round + 1,
            final(self).name == old(self).name,
            final(self).max_rounds == old(self).max_rounds,
            *final(stats) == stats_after_pass(*old(stats), old(self).round, ok, failed),
    {
        stats.chunk_sends = stats.chunk_sends + (ok + failed);
        stats.send_errors = stats.send_errors + failed;
        if self.round > 0 {
            stats.repairs = stats.repairs + 1;
        }
        self.round = self.round + 1;
    }

    /// The file is complete.
    pub fn done(&self, plan: &Plan, stats: &mut FileStats)
        ensures
            *final(stats) == (FileStats {
                total_chunks: plan.chunk_count,
                bytes: plan.total_len,
                ..*old(stats)
            }),
    {
        stats.total_chunks = plan.chunk_count;
        stats.bytes = plan.total_len;
    }
}

/// How many of a pass's chunks the node has accepted and how many refused.
pub struct Tally {
    pub ok: u64,
    pub failed: u64,
}

impl Tally {
    pub fn new() -> (r: Tally)
        ensures
            r.ok == 0,
            r.failed == 0,
    {
        Tally { ok: 0, failed: 0 }
    }

    /// Count one send.
    pub fn count(&mut self, sent: bool)
        requires
            sent ==> old(self).ok < u64::MAX,
            !sent ==> old(self).failed < u64::MAX,
        ensures
            final(self).ok == old(self).ok + (if sent { 1int } else { 0 }),
            final(self).failed == old(self).failed + (if sent { 0int } else { 1 }),
    {
        if sent {
            self.ok = self.ok + 1;
        } else {
            self.failed = self.failed + 1;
        }
    }
}

/// What the sender does once the route it was using is gone.
#[derive(Clone, Copy, PartialEq, Eq, Structural)]
pub enum Failover {
    /// A spare from the published pool costs nothing to try.
    Spare(usize),
    /// The spares are used up and there is no record to read.
    Unrecorded,
    /// The record has been read again too often.
    Exhausted,
    /// Read the record again, for this many-th time.
    Refresh(u32),
}

/// What the sender does once route `current` of `routes` is gone.
pub open spec fn failover_of(
    current: usize,
    routes: usize,
    recorded: bool,
    refreshes: u32,
) -> Failover {
    if current + 1 < routes {
        Failover::Spare((current + 1) as usize)
    } else if !recorded {
        Failover::Unrecorded
    } else if refreshes >= MAX_POOL_REFRESHES {
        Failover::Exhausted
    } else {
        Failover::Refresh((refreshes + 1) as u32)
    }
}

/// What the sender does once route `current` of `routes` is gone.
pub fn fail_over(current: usize, routes: usize, recorded: bool, refreshes: u32) -> (r: Failover)
    requires
        current < routes,
    ensures
        r == failover_of(current, routes, recorded, refreshes),
{
    let next: usize = current + 1;
    if next < routes {
        Failover::Spare(next)
    } else if !recorded {
        Failover::Unrecorded
    } else if refreshes >= MAX_POOL_REFRESHES {
        Failover::Exhausted
    } else {
        Failover::Refresh(refreshes + 1)
    }
}

/// Which of the receiver's routes the sender is on.
pub struct Courier {
    pub current: usize,
    /// How many routes there are.
    pub routes: usize,
    /// Whether there is a record to learn new ones from.
    pub recorded: bool,
    /// How often the record has been read again for this file.
    pub refreshes: u32,
}

impl Courier {
    /// Whether the route is one of those there are.
    pub open spec fn wf(&self) -> bool {
        self.current < self.routes
    }

    /// A sender that starts on the first of its routes.
    pub fn new(routes: usize, recorded: bool) -> (r: Courier)
        requires
            routes > 0,
        ensures
            r == (Courier { current: 0, routes, recorded, refreshes: 0 }),
            r.wf(),
    {
        Courier { current: 0, routes, recorded, refreshes: 0 }
    }

    /// Turn to the next file, on the route that the last one went over.
    pub fn next_file(&mut self)
        requires
            old(self).wf(),
        ensures
            *final(self) == (Courier { refreshes: 0, ..*old(self) }),
            final(self).wf(),
    {
        self.refreshes = 0;
    }

    /// The route is gone. Returns what to do about it.
    pub fn route_died(&mut self) -> (r: Failover)
        requires
            old(self).wf(),
        ensures
            final(self).wf(),
            r == failover_of(
                old(self).current,
                old(self).routes,
                old(self).recorded,
                old(self).refreshes,
            ),
            *final(self) == (match r {
                Failover::Spare(next) => Courier { current: next, ..*old(self) },
                Failover::Refresh(n) => Courier { refreshes: n, ..*old(self) },
                _ => *old(self),
            }),
    {
        let r = fail_over(self.current, self.routes, self.recorded, self.refreshes);
        match r {
            Failover::Spare(next) => {
                self.current = next;
            },
            Failover::Refresh(n) => {
                self.refreshes = n;
            },
            _ => {},
        }
        r
    }

    /// The record has been read again, and names so many routes.
    pub fn refreshed(&mut self, routes: usize)
        requires
            routes > 0,
        ensures
            *final(self) == (Courier { current: 0, routes, ..*old(self) }),
            final(self).wf(),
    {
        self.current = 0;
        self.routes = routes;
    }
}

/// What follows on a call that has failed. There is a growing pause either way.
#[derive(Clone, Copy, PartialEq, Eq, Structural)]
pub enum CallStep {
    /// Wait so long, and try again.
    Retry { pause_ms: u64 },
    /// Wait so long, and give the route up.
    GiveUp { pause_ms: u64 },
}

/// What follows on a call that has failed for the `attempt`-th time.
pub fn after_failed_call(attempt: u32) -> (r: CallStep)
    ensures
        r == (if attempt < CALL_ATTEMPTS {
            CallStep::Retry { pause_ms: (CALL_PAUSE_MS * attempt) as u64 }
        } else {
            CallStep::GiveUp { pause_ms: (CALL_PAUSE_MS * attempt) as u64 }
        }),
        r is Retry <==> attempt < 5,
        r matches CallStep::Retry { pause_ms } ==> pause_ms == 500 * attempt,
        r matches CallStep::GiveUp { pause_ms } ==> pause_ms == 500 * attempt,
{
    let pause_ms: u64 = call_pause_ms(attempt);
    if attempt < CALL_ATTEMPTS {
        CallStep::Retry { pause_ms }
    } else {
        CallStep::GiveUp { pause_ms }
    }
}

/// How long to wait after a call has failed for the `attempt`-th time.
pub fn call_pause_ms(attempt: u32) -> (r: u64)
    ensures
        r == CALL_PAUSE_MS * attempt,
{
    CALL_PAUSE_MS * attempt as u64
}

/// What the rendezvous record names. A value that is no list is one bare blob:
/// it carries no magic, so it cannot be confused for a list.
pub open spec fn published(value: Seq<u8>) -> Seq<Seq<u8>> {
    match proto::heard(value) {
        Some(Said::Routes { blobs }) => blobs,
        _ => seq![value],
    }
}

/// The routes that the rendezvous record names.
pub fn published_blobs(value: &[u8]) -> (r: Vec<Vec<u8>>)
    ensures
        proto::blob_list(r@) == published(value@),
{
    match Packet::decode(value) {
        Some(Packet::Routes { blobs }) => blobs,
        _ => {
            let mut one: Vec<Vec<u8>> = Vec::new();
            let blob = copy_of(value, 0, value.len());
            assert(blob@ == value@);
            one.push(blob);
            assert(proto::blob_list(one@) == seq![value@]);
            one
        },
    }
}

/// Where the receiver's routes are to be found.
pub enum Lookup {
    /// They are known: a blob was pasted.
    Known(Vec<Vec<u8>>),
    /// The record has to be read. A cached value would be the one there was last
    /// time, so it is read afresh.
    ReadRecord,
    /// There is a record, and it was never opened.
    NeverOpened,
}

/// Settle where the receiver's routes are to be found.
pub fn look_up(source: &RouteSource, opened: bool) -> (r: Lookup)
    ensures
        match *source {
            RouteSource::Blob(blob) => r matches Lookup::Known(blobs) && proto::blob_list(blobs@)
                == seq![blob@],
            RouteSource::Rendezvous(_) => if opened {
                r is ReadRecord
            } else {
                r is NeverOpened
            },
        },
{
    match source {
        RouteSource::Blob(blob) => {
            let mut one: Vec<Vec<u8>> = Vec::new();
            let copy = copy_of(blob.as_slice(), 0, blob.len());
            assert(copy@ == blob@);
            one.push(copy);
            assert(proto::blob_list(one@) == seq![blob@]);
            Lookup::Known(one)
        },
        RouteSource::Rendezvous(_) => if opened {
            Lookup::ReadRecord
        } else {
            Lookup::NeverOpened
        },
    }
}

/// What the sender does once it has tried to import every route.
pub enum Import {
    /// At least one can be used.
    Ready,
    /// None can. The first is tried again patiently, since the usual cause is the
    /// node not being ready rather than a bad blob.
    Retry(Vec<u8>),
    /// There was none to begin with.
    NonePublished,
}

/// What the sender does once it has imported so many of the blobs.
pub fn after_import(blobs: &Vec<Vec<u8>>, imported: usize) -> (r: Import)
    ensures
        if imported > 0 {
            r is Ready
        } else if blobs@.len() == 0 {
            r is NonePublished
        } else {
            r matches Import::Retry(first) && first@ == blobs@[0]@
        },
{
    if imported > 0 {
        Import::Ready
    } else if blobs.len() == 0 {
        Import::NonePublished
    } else {
        let first = copy_of(blobs[0].as_slice(), 0, blobs[0].len());
        assert(first@ == blobs@[0]@);
        Import::Retry(first)
    }
}

// ---------------------------------------------------------------------------
// laws
// ---------------------------------------------------------------------------

/// What the receiver publishes is what the sender finds: every blob, in order.
pub proof fn law_a_published_pool_reads_back(blobs: Seq<Seq<u8>>)
    requires
        blobs.len() <= proto::MAX_PREFIXED,
        forall|i: int| 0 <= i < blobs.len() ==> #[trigger] blobs[i].len() <= proto::MAX_PREFIXED,
    ensures
        published(proto::on_wire(Said::Routes { blobs }, 0)) == blobs,
{
    let p = Said::Routes { blobs };
    proto::law_decode_undoes_encode(p, 0);
    proto::law_what_fits_is_carried_whole(p);
}

/// Two runs of the same file never get the same id unless the clock reads the
/// same for both.
pub proof fn law_transfer_ids_differ_between_runs(name: Seq<char>, t: u64, u: u64)
    requires
        t != u,
    ensures
        transfer_id(name, t) != transfer_id(name, u),
{
    let h = fnv(0xcbf2_9ce4_8422_2325, encode_utf8(name));
    assert(h ^ ((t << 17) | (t >> 47)) != h ^ ((u << 17) | (u >> 47))) by (bit_vector)
        requires
            t != u,
    ;
}

/// A receiver that takes files of that size and does not know the transfer
/// opens it, for every file that can be planned.
pub proof fn law_a_planned_file_is_accepted(
    open: Map<u64, Progress>,
    completed: Set<u64>,
    max_bytes: u64,
    now_us: u64,
    xfer: u64,
    name: Seq<char>,
    file: Seq<u8>,
    chunk: usize,
)
    requires
        file.len() <= max_bytes,
        incoming::chunks_needed(file.len() as int, chunk_size_for(chunk)) <= u32::MAX,
        !open.contains_key(xfer),
        !completed.contains(xfer),
    ensures
        ({
            let size = chunk_size_for(chunk);
            let count = incoming::chunks_needed(file.len() as int, size);
            let said = proto::carried(manifest_of(xfer, name, file, size));
            let (reply, after) = transfer::answered(open, completed, max_bytes, now_us, said);
            &&& reply == Some(Said::ManifestOk { xfer, accepted: true, message: Seq::empty() })
            &&& after == open.insert(
                xfer,
                incoming::fresh(
                    proto::carried_text(name),
                    file.len() as u64,
                    size as u32,
                    count as u32,
                    crc::crc_of(file),
                    now_us,
                ),
            )
        }),
{
    let size = chunk_size_for(chunk);
    let count = incoming::chunks_needed(file.len() as int, size);
    vstd::arithmetic::div_mod::lemma_div_pos_is_pos(file.len() as int, size);
    assert(transfer::ruling_on(
        open,
        completed,
        max_bytes,
        xfer,
        file.len() as u64,
        size as u32,
        count as u32,
    ) == Ruling::Open);
}

/// The chunk messages that carry the given chunks of a file, in that order.
pub open spec fn chunk_wires(
    xfer: u64,
    file: Seq<u8>,
    chunk_size: int,
    order: Seq<u32>,
) -> Seq<Seq<u8>> {
    order.map_values(
        |index: u32|
            proto::on_wire(
                Said::Chunk {
                    xfer,
                    index,
                    data: incoming::chunk_of(file, chunk_size, index as int),
                },
                0,
            ),
    )
}

/// The open transfers after the given messages have come in, in that order.
pub open spec fn all_delivered(open: Map<u64, Progress>, wires: Seq<Seq<u8>>) -> Map<u64, Progress>
    decreases wires.len(),
{
    if wires.len() == 0 {
        open
    } else {
        transfer::delivered(
            all_delivered(open, wires.drop_last()),
            proto::heard(wires.last()),
        )
    }
}

/// Chunk messages reach the transfer they name as the chunks they carry.
proof fn lemma_wires_are_received(
    open: Map<u64, Progress>,
    xfer: u64,
    file: Seq<u8>,
    order: Seq<u32>,
)
    requires
        open.contains_key(xfer),
        open[xfer].chunk_size <= MAX_CHUNK_DATA,
        incoming::agrees_with(open[xfer], file),
        forall|i: int| 0 <= i < order.len() ==> #[trigger] order[i] < open[xfer].chunk_count,
    ensures
        ({
            let wires = chunk_wires(xfer, file, open[xfer].chunk_size as int, order);
            all_delivered(open, wires) == open.insert(
                xfer,
                incoming::received_in_order(open[xfer], file, order),
            )
        }),
    decreases order.len(),
{
    let p = open[xfer];
    let size = p.chunk_size as int;
    let wires = chunk_wires(xfer, file, size, order);
    if order.len() == 0 {
        assert(open.insert(xfer, p) == open);
    } else {
        let front = order.drop_last();
        assert(wires.drop_last() == chunk_wires(xfer, file, size, front));
        assert forall|i: int| 0 <= i < front.len() implies #[trigger] front[i] < p.chunk_count by {
            assert(front[i] == order[i]);
        }
        lemma_wires_are_received(open, xfer, file, front);
        let before = incoming::received_in_order(p, file, front);
        let index = order.last();
        assert(order[order.len() - 1] < p.chunk_count);
        incoming::lemma_agreeing_chunks_in_file(p);
        incoming::lemma_chunk_in_file(p, index as int);
        let data = incoming::chunk_of(file, size, index as int);
        assert(data.len() <= size);
        let said = Said::Chunk { xfer, index, data };
        proto::law_decode_undoes_encode(said, 0);
        proto::law_what_fits_is_carried_whole(said);
        assert(wires.last() == proto::on_wire(said, 0));
        let t = open.insert(xfer, before);
        assert(t.insert(xfer, incoming::stored(before, index, data)) == open.insert(
            xfer,
            incoming::stored(before, index, data),
        ));
    }
}

/// A file gets across whole. Once its manifest has been taken, the chunk
/// messages may come in any order and any number of times; as soon as each has
/// come in once, the receiver holds exactly the file, byte for byte, and its
/// checksum is the one the manifest promised.
pub proof fn law_a_file_gets_across(
    open: Map<u64, Progress>,
    completed: Set<u64>,
    max_bytes: u64,
    now_us: u64,
    xfer: u64,
    name: Seq<char>,
    file: Seq<u8>,
    chunk: usize,
    order: Seq<u32>,
)
    requires
        file.len() <= max_bytes,
        incoming::chunks_needed(file.len() as int, chunk_size_for(chunk)) <= u32::MAX,
        !open.contains_key(xfer),
        !completed.contains(xfer),
        incoming::repeats(
            incoming::fresh(
                proto::carried_text(name),
                file.len() as u64,
                chunk_size_for(chunk) as u32,
                incoming::chunks_needed(file.len() as int, chunk_size_for(chunk)) as u32,
                crc::crc_of(file),
                now_us,
            ).have,
            order,
        ) <= u32::MAX,
        forall|i: int|
            0 <= i < order.len() ==> #[trigger] order[i] < incoming::chunks_needed(
                file.len() as int,
                chunk_size_for(chunk),
            ),
        forall|index: u32|
            index < incoming::chunks_needed(file.len() as int, chunk_size_for(chunk))
                ==> #[trigger] order.contains(index),
    ensures
        ({
            let size = chunk_size_for(chunk);
            let said = proto::carried(manifest_of(xfer, name, file, size));
            let opened = transfer::answered(open, completed, max_bytes, now_us, said).1;
            let after = all_delivered(opened, chunk_wires(xfer, file, size, order));
            &&& after.contains_key(xfer)
            &&& after[xfer].have_count == after[xfer].chunk_count
            &&& after[xfer].data == file
            &&& crc::crc_of(after[xfer].data) == after[xfer].crc
        }),
{
    let size = chunk_size_for(chunk);
    let count = incoming::chunks_needed(file.len() as int, size);
    law_a_planned_file_is_accepted(open, completed, max_bytes, now_us, xfer, name, file, chunk);
    let p = incoming::fresh(
        proto::carried_text(name),
        file.len() as u64,
        size as u32,
        count as u32,
        crc::crc_of(file),
        now_us,
    );
    vstd::arithmetic::div_mod::lemma_div_pos_is_pos(file.len() as int, size);
    incoming::lemma_none_had(count as nat);
    let opened = open.insert(xfer, p);
    lemma_wires_are_received(opened, xfer, file, order);
    incoming::lemma_received_in_order(p, file, order);
    incoming::law_a_file_reassembles_in_any_order(
        p.name,
        file,
        size as u32,
        count as u32,
        p.crc,
        now_us,
        order,
    );
}

/// The receiver's answer drives the sender exactly: it is done when nothing is
/// missing, however many passes that took; otherwise it sends what the answer
/// names, and gives up only when chunks are still missing after the first pass
/// and all of the repair passes.
pub proof fn law_the_sender_follows_the_receiver(
    name: Seq<char>,
    round: u32,
    max_rounds: u32,
    xfer: u64,
    p: Progress,
)
    requires
        incoming::progress_wf(p),
    ensures
        ({
            let missing = incoming::gaps(p.have);
            let reply = Some(transfer::status_reply(xfer, p));
            next_move(name, round, max_rounds, reply) == if missing.len() == 0 {
                Move::Done
            } else if round <= max_rounds {
                Move::Send {
                    missing_total: missing.len() as u32,
                    missing: proto::at_most(missing, proto::MAX_MISSING_LISTED as int),
                }
            } else {
                Move::Fail(out_of_passes_text(name, missing.len() as u32, max_rounds))
            }
        }),
{
    incoming::lemma_gaps_len(p.have);
}

/// Nothing already delivered is sent twice: every chunk that the sender sends
/// is one that the receiver did not have when it was asked.
pub proof fn law_nothing_delivered_is_sent_twice(
    name: Seq<char>,
    round: u32,
    max_rounds: u32,
    xfer: u64,
    p: Progress,
    index: u32,
)
    requires
        incoming::progress_wf(p),
        next_move(
            name,
            round,
            max_rounds,
            Some(transfer::status_reply(xfer, p)),
        ) matches Move::Send { missing, .. }
            && missing.contains(index),
    ensures
        index < p.chunk_count,
        !p.have[index as int],
{
    let missing = incoming::gaps(p.have);
    let listed = proto::at_most(missing, proto::MAX_MISSING_LISTED as int);
    let i = choose|i: int| 0 <= i < listed.len() && listed[i] == index;
    assert(missing[i] == index);
    incoming::law_gaps_name_what_is_missing(p.have, index);
}

/// The receiver's answer crosses the wire unchanged, so the sender reads what
/// was meant.
pub proof fn law_status_crosses_the_wire(xfer: u64, p: Progress)
    ensures
        proto::heard(proto::on_wire(transfer::status_reply(xfer, p), 0)) == Some(
            transfer::status_reply(xfer, p),
        ),
{
    let said = transfer::status_reply(xfer, p);
    proto::law_decode_undoes_encode(said, 0);
    proto::law_what_fits_is_carried_whole(said);
}

/// Failing over comes to an end: every spare is tried once, and the record is
/// read again a bounded number of times, whatever it names each time.
pub proof fn law_failing_over_comes_to_an_end(
    current: usize,
    routes: usize,
    recorded: bool,
    refreshes: u32,
)
    requires
        current < routes,
    ensures
        match failover_of(current, routes, recorded, refreshes) {
            Failover::Spare(next) => current < next < routes,
            Failover::Refresh(n) => recorded && current + 1 == routes && refreshes < n
                <= MAX_POOL_REFRESHES,
            Failover::Unrecorded => !recorded && current + 1 == routes,
            Failover::Exhausted => recorded && current + 1 == routes && refreshes
                >= MAX_POOL_REFRESHES,
        },
{
}

/// A value without the magic cannot be confused for a list: it stands for the
/// one route that it is.
pub proof fn law_a_bare_blob_stands_for_itself(value: Seq<u8>)
    requires
        value.len() < proto::HEADER_LEN || value.take(4) != proto::MAGIC@,
    ensures
        published(value) == seq![value],
{
    proto::law_foreign_messages_are_rejected(value);
}

/// A chunk size that one message can carry is used as it is asked for. Less than
/// one byte is one byte, and more than 32751 bytes are 32751.
pub proof fn law_the_chunk_size_asked_for_is_used(chunk: usize, more: usize)
    ensures
        1 <= chunk <= 32751 ==> chunk_size_for(chunk) == chunk,
        chunk == 0 ==> chunk_size_for(chunk) == 1,
        chunk >= 32751 ==> chunk_size_for(chunk) == 32751,
        chunk <= more ==> chunk_size_for(chunk) <= chunk_size_for(more),
{
}

/// The manifest tells the truth about the file: its id, its length, its checksum
/// and its name, and the size and the number of the chunks that it comes in.
pub proof fn law_the_manifest_describes_the_file(
    xfer: u64,
    name: Seq<char>,
    file: Seq<u8>,
    chunk: usize,
    count: u32,
)
    requires
        file.len() <= u64::MAX,
        1 <= chunk <= 32751,
        file.len() <= count * chunk,
        count == 0 || (count - 1) * chunk < file.len(),
    ensures
        manifest_of(xfer, name, file, chunk_size_for(chunk)) == (Said::Manifest {
            xfer,
            total_len: file.len() as u64,
            chunk_size: chunk as u32,
            chunk_count: count,
            crc32: crc::crc_of(file),
            name,
        }),
{
    let (t, s, c) = (file.len() as int, chunk as int, count as int);
    let n = incoming::chunks_needed(t, s);
    incoming::law_as_few_chunks_as_will_do(t, s);
    if c < n {
        assert(c * s <= (n - 1) * s) by (nonlinear_arith)
            requires
                c <= n - 1,
                s >= 1,
        ;
    }
    if c > n {
        assert((c - 1) * s >= n * s) by (nonlinear_arith)
            requires
                c - 1 >= n,
                s >= 1,
        ;
    }
}

/// Only an answer that accepts opens a transfer. A refusal is reported with the
/// file it is about and the reason that the receiver gave.
pub proof fn law_only_acceptance_opens(name: Seq<char>, reply: Option<Said>)
    ensures
        manifest_verdict(name, reply) is None <==> (reply matches Some(said)
            && said matches Said::ManifestOk { accepted, .. } && accepted),
        reply matches Some(said) ==> (said matches Said::ManifestOk { accepted, message, .. }
            ==> !accepted ==> manifest_verdict(name, reply) == Some(
            name + ": the receiver refused it — "@ + message,
        )),
{
    if let Some(Said::ManifestOk { accepted, message, .. }) = reply {
        assert(refused_text(name, message) =~= name + ": the receiver refused it — "@ + message);
    }
}

/// Whatever the receiver answers: "complete" ends the transfer, "never heard of
/// it" opens it again, and chunks are sent just as they are named, as long as
/// passes are left. No answer that names chunks is passed over, and no chunk is
/// sent that was not named.
pub proof fn law_every_status_has_its_move(
    name: Seq<char>,
    round: u32,
    max_rounds: u32,
    xfer: u64,
    state: u8,
    missing_total: u32,
    missing: Seq<u32>,
)
    ensures
        ({
            let reply = Some(Said::StatusReply { xfer, state, missing_total, missing });
            let next = next_move(name, round, max_rounds, reply);
            &&& next is Done <==> state == 2
            &&& next is Reopen <==> state == 0
            &&& next is Send <==> state != 0 && state != 2 && missing.len() > 0 && round
                <= max_rounds
            &&& next matches Move::Send { missing_total: t, missing: m } ==> t == missing_total && m
                == missing
        }),
        forall|said: Said|
            !(said is StatusReply) ==> #[trigger] next_move(name, round, max_rounds, Some(said)) is Fail,
        next_move(name, round, max_rounds, None) is Fail,
{
}

/// With nothing but losses, the first pass and each of the repair passes is made,
/// and then no more.
pub proof fn law_one_first_pass_and_every_repair_pass(
    name: Seq<char>,
    round: u32,
    max_rounds: u32,
    xfer: u64,
    p: Progress,
)
    requires
        incoming::progress_wf(p),
        incoming::gaps(p.have).len() > 0,
    ensures
        next_move(name, round, max_rounds, Some(transfer::status_reply(xfer, p))) is Send <==> round
            < max_rounds + 1,
        next_move(name, round, max_rounds, Some(transfer::status_reply(xfer, p))) is Fail <==> round
            >= max_rounds + 1,
{
    law_the_sender_follows_the_receiver(name, round, max_rounds, xfer, p);
}

/// The loss of the first pass is what the answer after it says is missing: the
/// answer before it is no measure, none of the later ones changes it, and no
/// answer changes anything else.
pub proof fn law_only_the_first_pass_is_measured(
    stats: FileStats,
    round: u32,
    xfer: u64,
    state: u8,
    missing_total: u32,
    missing: Seq<u32>,
)
    ensures
        ({
            let reply = Some(Said::StatusReply { xfer, state, missing_total, missing });
            let after = stats_after_status(stats, round, reply);
            &&& round == 1 && stats.first_pass_missing is None ==> after.first_pass_missing == Some(
                missing_total,
            ) && lost_of(after) == missing_total
            &&& round != 1 || stats.first_pass_missing is Some ==> after == stats
            &&& after.chunk_sends == stats.chunk_sends && after.send_errors == stats.send_errors
            &&& after.repairs == stats.repairs && after.attempts == stats.attempts
            &&& after.total_chunks == stats.total_chunks && after.bytes == stats.bytes
        }),
        stats_after_status(stats, round, None) == stats,
        stats.first_pass_missing is None ==> lost_of(stats) == 0,
{
}

/// Every chunk of a pass counts as sent, whether the node took it or not, and as
/// an error if it did not. Every pass but the first is a repair.
pub proof fn law_every_send_of_a_pass_is_counted(
    stats: FileStats,
    round: u32,
    ok: u64,
    failed: u64,
)
    requires
        stats.chunk_sends + ok + failed <= u64::MAX,
        stats.send_errors + failed <= u64::MAX,
        stats.repairs < u32::MAX,
    ensures
        ({
            let after = stats_after_pass(stats, round, ok, failed);
            &&& after.chunk_sends - stats.chunk_sends == ok + failed
            &&& after.send_errors - stats.send_errors == failed
            &&& after.repairs - stats.repairs == if round == 0 { 0int } else { 1 }
            &&& after.first_pass_missing == stats.first_pass_missing
            &&& after.attempts == stats.attempts
            &&& after.total_chunks == stats.total_chunks && after.bytes == stats.bytes
        }),
{
}

/// Spares are taken one after the other, none left out, before the record is read
/// again; and that happens three times for a file, and no more.
pub proof fn law_every_spare_is_tried_in_turn(
    current: usize,
    routes: usize,
    recorded: bool,
    refreshes: u32,
)
    requires
        current < routes,
    ensures
        ({
            let next = failover_of(current, routes, recorded, refreshes);
            &&& next is Spare <==> current < routes - 1
            &&& next matches Failover::Spare(k) ==> k == current + 1
            &&& current == routes - 1 ==> {
                &&& next is Unrecorded <==> !recorded
                &&& next is Refresh <==> recorded && refreshes < 3
                &&& next matches Failover::Refresh(n) ==> n == refreshes + 1
                &&& next is Exhausted <==> recorded && refreshes >= 3
            }
        }),
{
}

/// A value that is not a list of routes stands for the one route that it is, and
/// one that is a list for just the routes on it.
pub proof fn law_a_record_names_what_is_in_it(value: Seq<u8>)
    ensures
        proto::heard(value) matches Some(said) ==> (said matches Said::Routes { blobs }
            ==> published(value) == blobs),
        !(proto::heard(value) matches Some(said) && said is Routes) ==> published(value).len() == 1
            && published(value)[0] == value,
{
}

/// The hash of a transfer id takes in one byte after the other: first this, then
/// that, is both in a row.
pub proof fn law_the_id_takes_in_the_whole_name(h: u64, front: Seq<u8>, back: Seq<u8>)
    ensures
        fnv(h, front + back) == fnv(fnv(h, front), back),
    decreases back.len(),
{
    if back.len() == 0 {
        assert(front + back == front);
    } else {
        assert((front + back).drop_last() == front + back.drop_last());
        assert((front + back).last() == back.last());
        law_the_id_takes_in_the_whole_name(h, front, back.drop_last());
    }
}

/// A step of the hash can be undone.
proof fn lemma_hash_step_is_one_to_one(x: u64, y: u64)
    requires
        (x * 0x0000_0100_0000_01b3) % 0x1_0000_0000_0000_0000 == (y * 0x0000_0100_0000_01b3)
            % 0x1_0000_0000_0000_0000,
    ensures
        x == y,
{
    let p: int = 0x0000_0100_0000_01b3;
    let q: int = 0xce96_5057_aff6_957b;
    let m: int = 0x1_0000_0000_0000_0000;
    assert(p * q == m * 887285111055 + 1);
    assert forall|z: u64| #[trigger] ((z * p) * q) % m == z by {
        let v = z as int;
        assert((v * p) * q == m * (v * 887285111055) + v) by (nonlinear_arith)
            requires
                p * q == m * 887285111055 + 1,
        ;
        vstd::arithmetic::div_mod::lemma_mod_multiples_vanish(v * 887285111055, v, m);
        vstd::arithmetic::div_mod::lemma_small_mod(z as nat, m as nat);
    }
    vstd::arithmetic::div_mod::lemma_mul_mod_noop_left(x * p, q, m);
    vstd::arithmetic::div_mod::lemma_mul_mod_noop_left(y * p, q, m);
    assert(((x * p) * q) % m == x);
    assert(((y * p) * q) % m == y);
}

/// Where the hash differs, it goes on differing.
proof fn lemma_hash_is_one_to_one(g: u64, h: u64, data: Seq<u8>)
    requires
        g != h,
    ensures
        fnv(g, data) != fnv(h, data),
    decreases data.len(),
{
    if data.len() > 0 {
        lemma_hash_is_one_to_one(g, h, data.drop_last());
        let x = fnv(g, data.drop_last());
        let y = fnv(h, data.drop_last());
        let b = data.last() as u64;
        assert(x != y ==> x ^ b != y ^ b) by (bit_vector);
        if fnv(g, data) == fnv(h, data) {
            lemma_hash_step_is_one_to_one(x ^ b, y ^ b);
        }
    }
}

/// Two names that differ in just one byte never start from the same hash.
pub proof fn law_one_byte_of_the_name_changes_the_id(h: u64, data: Seq<u8>, at: int, other: u8)
    requires
        0 <= at < data.len(),
        other != data[at],
    ensures
        fnv(h, data.update(at, other)) != fnv(h, data),
{
    let front = data.take(at);
    let back = data.skip(at + 1);
    let one = data[at];
    let c = fnv(h, front);
    assert(data == front.push(one) + back);
    assert(data.update(at, other) == front.push(other) + back);
    law_the_id_takes_in_the_whole_name(h, front.push(one), back);
    law_the_id_takes_in_the_whole_name(h, front.push(other), back);
    assert(front.push(one).drop_last() == front);
    assert(front.push(other).drop_last() == front);
    assert(one != other ==> c ^ (one as u64) != c ^ (other as u64)) by (bit_vector);
    if fnv(h, front.push(one)) == fnv(h, front.push(other)) {
        lemma_hash_step_is_one_to_one(c ^ (one as u64), c ^ (other as u64));
    }
    lemma_hash_is_one_to_one(fnv(h, front.push(one)), fnv(h, front.push(other)), back);
}

/// A first pass over a transfer that has begun says so on a line of its own
/// before everything else that it says anyway.
pub proof fn law_resuming_is_announced(
    chunk_count: u32,
    missing_total: u32,
    listed: int,
    rate: u64,
)
    requires
        missing_total <= chunk_count,
    ensures
        pass_text(0, chunk_count, missing_total, listed, rate) == if missing_total < chunk_count {
            "  resuming: "@ + text::decimal((chunk_count - missing_total) as nat) + " of "@
                + text::decimal(chunk_count as nat) + " chunk(s) already there\n"@
        } else {
            Seq::empty()
        } + pass_text(0, chunk_count, chunk_count, listed, rate),
{
    let plain = pass_text(0, chunk_count, chunk_count, listed, rate);
    if missing_total < chunk_count {
        assert(pass_text(0, chunk_count, missing_total, listed, rate) =~= "  resuming: "@
            + text::decimal((chunk_count - missing_total) as nat) + " of "@ + text::decimal(
            chunk_count as nat,
        ) + " chunk(s) already there\n"@ + plain);
    } else {
        assert(Seq::<char>::empty() + plain =~= plain);
    }
}

/// Failovers and chunks that never left are told on lines of their own, where
/// there were any.
pub proof fn law_the_summary_tells_of_trouble(
    stats: FileStats,
    elapsed: Seq<char>,
    kib_per_s: Seq<char>,
    lost_pct: Seq<char>,
)
    ensures
        ({
            let smooth = FileStats { attempts: 1, send_errors: 0, ..stats };
            let first = if stats.attempts >= 2 {
                "  took "@ + text::decimal(stats.attempts as nat) + " attempts across "@
                    + text::decimal(stats.attempts as nat) + " route(s)\n"@
            } else {
                Seq::empty()
            };
            let second = if stats.send_errors >= 1 {
                "  "@ + text::decimal(stats.send_errors as nat)
                    + " chunk(s) never left the node\n"@
            } else {
                Seq::empty()
            };
            file_report_text(stats, elapsed, kib_per_s, lost_pct) == file_report_text(
                smooth,
                elapsed,
                kib_per_s,
                lost_pct,
            ) + first + second
        }),
{
    let smooth = FileStats { attempts: 1, send_errors: 0, ..stats };
    let s = file_report_text(smooth, elapsed, kib_per_s, lost_pct);
    assert(lost_of(smooth) == lost_of(stats));
    let n = text::decimal(stats.attempts as nat);
    let e = text::decimal(stats.send_errors as nat);
    let t = if stats.attempts >= 2 {
        s + "  took "@ + n + " attempts across "@ + n + " route(s)\n"@
    } else {
        s
    };
    let first = if stats.attempts >= 2 {
        "  took "@ + n + " attempts across "@ + n + " route(s)\n"@
    } else {
        Seq::empty()
    };
    assert(t =~= s + first);
    if stats.send_errors >= 1 {
        assert(t + "  "@ + e + " chunk(s) never left the node\n"@ =~= t + ("  "@ + e
            + " chunk(s) never left the node\n"@));
    } else {
        assert(t =~= t + Seq::<char>::empty());
    }
}

/// What is about to be sent is announced with its name, its length, the number and
/// the size of its chunks and its checksum, in that order.
pub proof fn law_a_file_is_announced_as_it_is(
    name: Seq<char>,
    len: u64,
    chunk_count: u32,
    chunk_size: u32,
    crc: u32,
)
    ensures
        file_line_text(name, len, chunk_count, chunk_size, crc) == "\n"@ + name + ": "@
            + text::decimal(len as nat) + " bytes, "@ + text::decimal(chunk_count as nat)
            + " chunk(s) of "@ + text::decimal(chunk_size as nat) + ", crc32 "@ + text::hex8(crc)
            + "\n"@,
{
    assert(Seq::<char>::empty() + "\n"@ =~= "\n"@);
}

/// Giving up says of which file, how much is missing and after how many passes,
/// and after how many tries of a call or readings of the record.
pub proof fn law_giving_up_says_after_how_much(
    name: Seq<char>,
    missing_total: u32,
    max_rounds: u32,
    what: Seq<char>,
    last: Seq<char>,
)
    ensures
        out_of_passes_text(name, missing_total, max_rounds) == name + ": still "@ + text::decimal(
            missing_total as nat,
        ) + " chunk(s) short after "@ + text::decimal(max_rounds as nat)
            + " repair pass(es); try a lower --rate or a smaller --chunk"@,
        named_none_text(name, missing_total) == name + ": the receiver is "@ + text::decimal(
            missing_total as nat,
        ) + " chunk(s) short but named none of them"@,
        all_routes_failed_text(name) == name + ": every route in the rendezvous record has failed "@
            + text::decimal(3)
            + " refreshes running. The receiver is most likely gone -- it would have republished by now if it were alive."@,
        call_failed_text(what, last) == what + " failed after "@ + text::decimal(5) + " attempts: "@
            + last,
{
    assert(Seq::<char>::empty() + name =~= name);
    assert(Seq::<char>::empty() + what =~= what);
}

/// How far a sender goes: it has 32 chunks under way at once, tries a call five
/// times, pausing half a second longer each time, and reads the record three times
/// more.
pub proof fn law_how_far_a_sender_goes()
    ensures
        MAX_INFLIGHT == 32,
        CALL_ATTEMPTS == 5,
        CALL_PAUSE_MS == 500,
        MAX_POOL_REFRESHES == 3,
{
}

/// The summary gives the time and the speed, how many sends it took for how many
/// chunks, what the first pass lost, and how many repairs there were.
pub proof fn law_the_summary_gives_the_counts(
    stats: FileStats,
    elapsed: Seq<char>,
    kib_per_s: Seq<char>,
    lost_pct: Seq<char>,
)
    requires
        stats.attempts <= 1,
        stats.send_errors == 0,
    ensures
        file_report_text(stats, elapsed, kib_per_s, lost_pct) == "  delivered in "@ + elapsed
            + "s  ("@ + kib_per_s + " KiB/s)\n  "@ + text::decimal(stats.chunk_sends as nat)
            + " chunk send(s) for "@ + text::decimal(stats.total_chunks as nat)
            + " chunk(s); first pass lost "@ + text::decimal(
            match stats.first_pass_missing {
                Some(n) => n as nat,
                None => 0,
            },
        ) + " ("@ + lost_pct + "%), "@ + text::decimal(stats.repairs as nat)
            + " repair pass(es)\n"@,
{
    assert(Seq::<char>::empty() + "  delivered in "@ =~= "  delivered in "@);
}

} // verus!
