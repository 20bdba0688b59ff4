//! Wire format for harness packets.
//!
//! Everything is little-endian at fixed offsets. There is no framing: Veilid
//! delivers a whole `app_message` or nothing at all, so a packet is a message.
//!
//! Timestamps are microseconds since the Unix epoch, taken as close to the
//! actual send or receive as the API allows. The two ends do not share a clock,
//! so only differences taken on a single host are trustworthy on their own.
//!
//! Two protocols share this format and this magic. The latency probe
//! (`Hello`, `Probe`, `Echo`) measures the path; the file transfer
//! (`Manifest`, `Chunk`, `Status`) moves bytes over it.

use vstd::prelude::*;
use vstd::utf8::*;

use crate::bytes;
use crate::bytes::{copy_of, get_u16, get_u32, get_u64, put_bytes, put_u16, put_u32, put_u64};
use crate::foreign;
use crate::foreign::utf8_lossy;

pub use crate::clock::now_us;
pub use crate::crc::crc32;

verus! {

/// Magic prefix, so a stray message from something else is dropped rather than
/// parsed into nonsense.
pub const MAGIC: [u8; 4] = [0x56, 0x56, 0x43, 0x30];

pub const KIND_HELLO: u8 = 1;

pub const KIND_PROBE: u8 = 2;

pub const KIND_ECHO: u8 = 3;

pub const KIND_MANIFEST: u8 = 4;

pub const KIND_MANIFEST_OK: u8 = 5;

pub const KIND_CHUNK: u8 = 6;

pub const KIND_STATUS: u8 = 7;

pub const KIND_STATUS_REPLY: u8 = 8;

pub const KIND_ROUTES: u8 = 9;

pub const KIND_SOCIAL: u8 = 10;

/// magic + kind
pub const HEADER_LEN: usize = 5;

/// header + seq + t0
pub const PROBE_LEN: usize = HEADER_LEN + 8 + 8;

/// header + seq + t0 + t1 + t2
pub const ECHO_LEN: usize = HEADER_LEN + 8 + 8 + 8 + 8;

/// Veilid's own cap on an `app_message` payload. `app_call` applies the same
/// cap to both the question and the answer.
pub const MAX_APP_MESSAGE: usize = 32768;

/// header + transfer id + chunk index; everything after this is payload.
pub const CHUNK_HEADER_LEN: usize = HEADER_LEN + 8 + 4;

/// The most payload one chunk can carry and still fit a single `app_message`.
pub const MAX_CHUNK_DATA: usize = MAX_APP_MESSAGE - CHUNK_HEADER_LEN;

/// The receiver has never heard of the transfer id it was asked about.
pub const XFER_UNKNOWN: u8 = 0;

/// The receiver is still missing chunks.
pub const XFER_IN_PROGRESS: u8 = 1;

/// The receiver has every chunk.
pub const XFER_COMPLETE: u8 = 2;

/// header + xfer + state + missing_total + listed
pub const STATUS_REPLY_HEADER_LEN: usize = HEADER_LEN + 8 + 1 + 4 + 4;

/// How many missing indices one `StatusReply` can name. Anything past this is
/// still counted in `missing_total` and picked up on the next round.
pub const MAX_MISSING_LISTED: usize = (MAX_APP_MESSAGE - STATUS_REPLY_HEADER_LEN) / 4;

/// The most bytes a length-prefixed piece of a packet can hold.
pub const MAX_PREFIXED: usize = 65535;

#[derive(Debug, Clone)]
pub enum Packet {
    /// Prober tells the responder which route to echo back on. Sent on every
    /// route rotation, so the responder always holds the live one.
    Hello { return_route: Vec<u8> },
    /// Prober to responder. `t0` is the prober's clock at send.
    Probe { seq: u64, t0: u64 },
    /// Responder back to prober. `t1` is receipt, `t2` is echo send, both on
    /// the responder's clock.
    Echo { seq: u64, t0: u64, t1: u64, t2: u64 },
    /// Opens a transfer. Sent as an `app_call`, so the sender knows the
    /// receiver has it before a single chunk goes out.
    Manifest {
        xfer: u64,
        total_len: u64,
        chunk_size: u32,
        chunk_count: u32,
        crc32: u32,
        name: String,
    },
    /// The answer to a `Manifest`. A refusal carries its reason.
    ManifestOk { xfer: u64, accepted: bool, message: String },
    /// One piece of the file, sent fire-and-forget. `index` is what puts it
    /// back in the right place, so arrival order does not matter.
    Chunk { xfer: u64, index: u32, data: Vec<u8> },
    /// "What are you still missing?", sent as an `app_call` between passes.
    Status { xfer: u64 },
    /// The answer to a `Status`. `missing` is truncated to what fits one
    /// message; `missing_total` is the honest count.
    StatusReply { xfer: u64, state: u8, missing_total: u32, missing: Vec<u32> },
    /// A social-layer message: JSON over a private route, used for anything
    /// that must not sit in the DHT.
    Social { json: Vec<u8> },
    /// The value published in the rendezvous record: every route the receiver
    /// currently has, most-preferred first. This never travels over a route; it
    /// is what a DHT subkey holds.
    Routes { blobs: Vec<Vec<u8>> },
}

/// What a packet says, over sequences.
pub enum Said {
    Hello { return_route: Seq<u8> },
    Probe { seq: u64, t0: u64 },
    Echo { seq: u64, t0: u64, t1: u64, t2: u64 },
    Manifest {
        xfer: u64,
        total_len: u64,
        chunk_size: u32,
        chunk_count: u32,
        crc32: u32,
        name: Seq<char>,
    },
    ManifestOk { xfer: u64, accepted: bool, message: Seq<char> },
    Chunk { xfer: u64, index: u32, data: Seq<u8> },
    Status { xfer: u64 },
    StatusReply { xfer: u64, state: u8, missing_total: u32, missing: Seq<u32> },
    Social { json: Seq<u8> },
    Routes { blobs: Seq<Seq<u8>> },
}

/// What a list of blobs holds.
pub open spec fn blob_list(v: Seq<Vec<u8>>) -> Seq<Seq<u8>> {
    v.map_values(|b: Vec<u8>| b@)
}

impl View for Packet {
    type V = Said;

    open spec fn view(&self) -> Said {
        match *self {
            Packet::Hello { return_route } => Said::Hello { return_route: return_route@ },
            Packet::Probe { seq, t0 } => Said::Probe { seq, t0 },
            Packet::Echo { seq, t0, t1, t2 } => Said::Echo { seq, t0, t1, t2 },
            Packet::Manifest { xfer, total_len, chunk_size, chunk_count, crc32, name } =>
                Said::Manifest { xfer, total_len, chunk_size, chunk_count, crc32, name: name@ },
            Packet::ManifestOk { xfer, accepted, message } =>
                Said::ManifestOk { xfer, accepted, message: message@ },
            Packet::Chunk { xfer, index, data } => Said::Chunk { xfer, index, data: data@ },
            Packet::Status { xfer } => Said::Status { xfer },
            Packet::StatusReply { xfer, state, missing_total, missing } =>
                Said::StatusReply { xfer, state, missing_total, missing: missing@ },
            Packet::Social { json } => Said::Social { json: json@ },
            Packet::Routes { blobs } => Said::Routes { blobs: blob_list(blobs@) },
        }
    }
}

// ---------------------------------------------------------------------------
// what goes on the wire
// ---------------------------------------------------------------------------

/// The first `n` items of `s`, or all of them if there are fewer.
pub open spec fn at_most<T>(s: Seq<T>, n: int) -> Seq<T> {
    if s.len() <= n {
        s
    } else {
        s.take(n)
    }
}

/// A two-byte length and that many bytes. What does not fit the length is cut.
pub open spec fn prefixed(b: Seq<u8>) -> Seq<u8> {
    let kept = at_most(b, MAX_PREFIXED as int);
    bytes::le16(kept.len() as u16) + kept
}

/// One blob after the other, each with its length in front.
pub open spec fn prefixed_all(blobs: Seq<Seq<u8>>) -> Seq<u8>
    decreases blobs.len(),
{
    if blobs.len() == 0 {
        Seq::empty()
    } else {
        prefixed(blobs[0]) + prefixed_all(blobs.skip(1))
    }
}

/// Four bytes for each index.
pub open spec fn words(m: Seq<u32>) -> Seq<u8> {
    Seq::new(4 * m.len(), |i: int| bytes::le32(m[i / 4])[i % 4])
}

/// The magic and the kind.
pub open spec fn header(kind: u8) -> Seq<u8> {
    seq![0x56u8, 0x56, 0x43, 0x30, kind]
}

/// `s` filled up with zeros to `n` bytes.
pub open spec fn zero_filled(s: Seq<u8>, n: int) -> Seq<u8> {
    if s.len() < n {
        s + Seq::new((n - s.len()) as nat, |i: int| 0u8)
    } else {
        s
    }
}

/// A packet as it goes on the wire. Only `Probe` and `Echo` are padded, and
/// never past what one `app_message` holds.
pub open spec fn on_wire(p: Said, pad_to: int) -> Seq<u8> {
    let fill = if pad_to < MAX_APP_MESSAGE {
        pad_to
    } else {
        MAX_APP_MESSAGE as int
    };
    match p {
        Said::Hello { return_route } =>
            header(KIND_HELLO) + bytes::le64(return_route.len() as u64) + return_route,
        Said::Probe { seq, t0 } =>
            zero_filled(header(KIND_PROBE) + bytes::le64(seq) + bytes::le64(t0), fill),
        Said::Echo { seq, t0, t1, t2 } => zero_filled(
            header(KIND_ECHO) + bytes::le64(seq) + bytes::le64(t0) + bytes::le64(t1)
                + bytes::le64(t2),
            fill,
        ),
        Said::Manifest { xfer, total_len, chunk_size, chunk_count, crc32, name } =>
            header(KIND_MANIFEST) + bytes::le64(xfer) + bytes::le64(total_len)
                + bytes::le32(chunk_size) + bytes::le32(chunk_count) + bytes::le32(crc32)
                + prefixed(encode_utf8(name)),
        Said::ManifestOk { xfer, accepted, message } =>
            header(KIND_MANIFEST_OK) + bytes::le64(xfer) + seq![if accepted { 1u8 } else { 0u8 }]
                + prefixed(encode_utf8(message)),
        Said::Chunk { xfer, index, data } =>
            header(KIND_CHUNK) + bytes::le64(xfer) + bytes::le32(index)
                + at_most(data, MAX_CHUNK_DATA as int),
        Said::Status { xfer } => header(KIND_STATUS) + bytes::le64(xfer),
        Said::StatusReply { xfer, state, missing_total, missing } => {
            let listed = at_most(missing, MAX_MISSING_LISTED as int);
            header(KIND_STATUS_REPLY) + bytes::le64(xfer) + seq![state]
                + bytes::le32(missing_total) + bytes::le32(listed.len() as u32) + words(listed)
        },
        Said::Social { json } =>
            header(KIND_SOCIAL) + at_most(json, MAX_APP_MESSAGE - HEADER_LEN),
        Said::Routes { blobs } => {
            let kept = at_most(blobs, MAX_PREFIXED as int);
            header(KIND_ROUTES) + bytes::le16(kept.len() as u16) + prefixed_all(kept)
        },
    }
}

// ---------------------------------------------------------------------------
// what a message reads as
// ---------------------------------------------------------------------------

/// The length-prefixed bytes at `off`, if they are all there.
pub open spec fn prefixed_at(b: Seq<u8>, off: int) -> Option<Seq<u8>> {
    if b.len() < off + 2 || b.len() < off + 2 + bytes::at16(b, off) {
        None
    } else {
        Some(b.subrange(off + 2, off + 2 + bytes::at16(b, off)))
    }
}

/// The length-prefixed text at `off`.
pub open spec fn text_at(b: Seq<u8>, off: int) -> Option<Seq<char>> {
    match prefixed_at(b, off) {
        Some(raw) => Some(foreign::lossy_text(raw)),
        None => None,
    }
}

/// `n` length-prefixed blobs, one after the other from `off` on.
pub open spec fn blobs_at(b: Seq<u8>, off: int, n: nat) -> Option<Seq<Seq<u8>>>
    decreases n,
{
    if n == 0 {
        Some(Seq::empty())
    } else {
        match prefixed_at(b, off) {
            None => None,
            Some(first) => match blobs_at(b, off + 2 + first.len(), (n - 1) as nat) {
                None => None,
                Some(rest) => Some(seq![first] + rest),
            },
        }
    }
}

/// What the message `b` says, or nothing if it is not a packet.
pub open spec fn heard(b: Seq<u8>) -> Option<Said> {
    if b.len() < HEADER_LEN || b.take(4) != MAGIC@ {
        None
    } else if b[4] == KIND_HELLO {
        if b.len() < 13 || b.len() < 13 + bytes::at64(b, 5) {
            None
        } else {
            Some(Said::Hello { return_route: b.subrange(13, 13 + bytes::at64(b, 5)) })
        }
    } else if b[4] == KIND_PROBE {
        if b.len() < PROBE_LEN {
            None
        } else {
            Some(Said::Probe { seq: bytes::at64(b, 5), t0: bytes::at64(b, 13) })
        }
    } else if b[4] == KIND_ECHO {
        if b.len() < ECHO_LEN {
            None
        } else {
            Some(
                Said::Echo {
                    seq: bytes::at64(b, 5),
                    t0: bytes::at64(b, 13),
                    t1: bytes::at64(b, 21),
                    t2: bytes::at64(b, 29),
                },
            )
        }
    } else if b[4] == KIND_MANIFEST {
        match text_at(b, 33) {
            None => None,
            Some(name) => Some(
                Said::Manifest {
                    xfer: bytes::at64(b, 5),
                    total_len: bytes::at64(b, 13),
                    chunk_size: bytes::at32(b, 21),
                    chunk_count: bytes::at32(b, 25),
                    crc32: bytes::at32(b, 29),
                    name,
                },
            ),
        }
    } else if b[4] == KIND_MANIFEST_OK {
        match text_at(b, 14) {
            None => None,
            Some(message) => Some(
                Said::ManifestOk { xfer: bytes::at64(b, 5), accepted: b[13] != 0, message },
            ),
        }
    } else if b[4] == KIND_CHUNK {
        if b.len() < CHUNK_HEADER_LEN {
            None
        } else {
            Some(
                Said::Chunk { xfer: bytes::at64(b, 5), index: bytes::at32(b, 13), data: b.skip(17) },
            )
        }
    } else if b[4] == KIND_STATUS {
        if b.len() < 13 {
            None
        } else {
            Some(Said::Status { xfer: bytes::at64(b, 5) })
        }
    } else if b[4] == KIND_SOCIAL {
        Some(Said::Social { json: b.skip(5) })
    } else if b[4] == KIND_ROUTES {
        if b.len() < 7 {
            None
        } else {
            match blobs_at(b, 7, bytes::at16(b, 5) as nat) {
                None => None,
                Some(blobs) => Some(Said::Routes { blobs }),
            }
        }
    } else if b[4] == KIND_STATUS_REPLY {
        if b.len() < STATUS_REPLY_HEADER_LEN || b.len() < 22 + 4 * bytes::at32(b, 18) {
            None
        } else {
            Some(
                Said::StatusReply {
                    xfer: bytes::at64(b, 5),
                    state: b[13],
                    missing_total: bytes::at32(b, 14),
                    missing: Seq::new(
                        bytes::at32(b, 18) as nat,
                        |i: int| bytes::at32(b, 22 + 4 * i),
                    ),
                },
            )
        }
    } else {
        None
    }
}

// ---------------------------------------------------------------------------
// encoding
// ---------------------------------------------------------------------------

/// The last blob goes on the wire behind all the others.
proof fn lemma_prefixed_all_push(blobs: Seq<Seq<u8>>, last: Seq<u8>)
    ensures
        prefixed_all(blobs.push(last)) == prefixed_all(blobs) + prefixed(last),
    decreases blobs.len(),
{
    let all = blobs.push(last);
    if blobs.len() == 0 {
        assert(all.skip(1) == Seq::<Seq<u8>>::empty());
        assert(prefixed_all(all.skip(1)) == Seq::<u8>::empty());
        assert(prefixed_all(all) == prefixed(last) + Seq::<u8>::empty());
        assert(prefixed_all(all) == Seq::<u8>::empty() + prefixed(last));
    } else {
        assert(all.skip(1) == blobs.skip(1).push(last));
        assert(all[0] == blobs[0]);
        lemma_prefixed_all_push(blobs.skip(1), last);
        assert(prefixed_all(all) == prefixed(blobs[0]) + prefixed_all(blobs.skip(1).push(last)));
        assert(prefixed_all(all) == prefixed_all(blobs) + prefixed(last));
    }
}

/// Append a two-byte length and that many bytes.
fn put_prefixed(buf: &mut Vec<u8>, raw: &[u8])
    ensures
        final(buf)@ == old(buf)@ + prefixed(raw@),
{
    let len: usize = if raw.len() < MAX_PREFIXED { raw.len() } else { MAX_PREFIXED };
    put_u16(buf, len as u16);
    put_bytes(buf, vstd::slice::slice_subrange(raw, 0, len));
    assert(raw@.subrange(0, len as int) == at_most(raw@, MAX_PREFIXED as int));
    assert(buf@ == old(buf)@ + prefixed(raw@));
}

/// A length-prefixed string. Two bytes of length is plenty for a file name and
/// keeps a hostile prefix from asking for a large allocation.
pub fn put_str(buf: &mut Vec<u8>, s: &str)
    ensures
        final(buf)@ == old(buf)@ + prefixed(encode_utf8(s@)),
{
    put_prefixed(buf, s.as_bytes());
}

/// Append each blob with its length in front, up to `n` of them.
fn put_blobs(buf: &mut Vec<u8>, blobs: &Vec<Vec<u8>>, n: usize)
    requires
        n <= blobs@.len(),
    ensures
        final(buf)@ == old(buf)@ + prefixed_all(blob_list(blobs@).take(n as int)),
{
    let ghost list = blob_list(blobs@);
    let mut i: usize = 0;
    assert(list.take(0) == Seq::<Seq<u8>>::empty());
    assert(buf@ == old(buf)@ + prefixed_all(list.take(0)));
    while i < n
        invariant
            i <= n <= blobs@.len(),
            list == blob_list(blobs@),
            buf@ == old(buf)@ + prefixed_all(list.take(i as int)),
        decreases n - i,
    {
        let ghost before = buf@;
        put_prefixed(buf, blobs[i].as_slice());
        proof {
            assert(list.take(i + 1) == list.take(i as int).push(list[i as int]));
            lemma_prefixed_all_push(list.take(i as int), list[i as int]);
            assert(buf@ == before + prefixed(list[i as int]));
            assert(buf@ == old(buf)@ + prefixed_all(list.take(i + 1)));
        }
        i = i + 1;
    }
}

/// Append four bytes for each of the first `n` indices.
fn put_words(buf: &mut Vec<u8>, m: &Vec<u32>, n: usize)
    requires
        n <= m@.len(),
    ensures
        final(buf)@ == old(buf)@ + words(m@.take(n as int)),
{
    let mut i: usize = 0;
    assert(buf@ == old(buf)@ + words(m@.take(0)));
    while i < n
        invariant
            i <= n <= m@.len(),
            buf@ == old(buf)@ + words(m@.take(i as int)),
        decreases n - i,
    {
        let ghost before = buf@;
        put_u32(buf, m[i]);
        proof {
            let now = words(m@.take(i + 1));
            assert(buf@ == before + bytes::le32(m@[i as int]));
            assert(now == words(m@.take(i as int)) + bytes::le32(m@[i as int])) by {
                assert forall|k: int| 0 <= k < now.len() implies #[trigger] now[k] == (words(
                    m@.take(i as int),
                ) + bytes::le32(m@[i as int]))[k] by {
                    if k < 4 * i {
                        assert(k / 4 < i);
                    } else {
                        assert(k / 4 == i && k % 4 == k - 4 * i);
                    }
                }
            }
            assert(buf@ == old(buf)@ + now);
        }
        i = i + 1;
    }
}

/// Append zeros until there are `n` bytes.
fn fill_zeros(buf: &mut Vec<u8>, n: usize)
    ensures
        final(buf)@ == zero_filled(old(buf)@, n as int),
{
    let ghost start = buf@;
    let from: usize = buf.len();
    if from < n {
        buf.resize(n, 0);
        assert(buf@.take(from as int) == start);
        assert forall|i: int| 0 <= i < n implies buf@[i] == zero_filled(start, n as int)[i] by {
            if i < from {
                assert(buf@[i] == buf@.subrange(0, from as int)[i]);
            } else {
                assert(cloned::<u8>(0u8, buf@[i]));
            }
        }
        assert(buf@ == zero_filled(start, n as int));
    }
}

impl Packet {
    /// Encode, padded with zeros to `pad_to` bytes. Padding is what lets a probe
    /// stand in for a real media frame; the trailing bytes are never read.
    ///
    /// Only `Probe` and `Echo` are padded. Everything else carries a payload
    /// whose length is the message length, so padding would be indistinguishable
    /// from data.
    pub fn encode(&self, pad_to: usize) -> (r: Vec<u8>)
        ensures
            r@ == on_wire(self@, pad_to as int),
    {
        // Clamp once, up front: a caller-supplied size must never be able to
        // ask for an allocation, only for padding Veilid would actually carry.
        let fill: usize = if pad_to < MAX_APP_MESSAGE { pad_to } else { MAX_APP_MESSAGE };
        let room: usize = if fill > ECHO_LEN { fill } else { ECHO_LEN };
        let mut buf: Vec<u8> = Vec::with_capacity(room);
        buf.push(MAGIC[0]);
        buf.push(MAGIC[1]);
        buf.push(MAGIC[2]);
        buf.push(MAGIC[3]);
        match self {
            Packet::Hello { return_route } => {
                buf.push(KIND_HELLO);
                assert(buf@ == header(KIND_HELLO));
                put_u64(&mut buf, return_route.len() as u64);
                put_bytes(&mut buf, return_route.as_slice());
            },
            Packet::Probe { seq, t0 } => {
                buf.push(KIND_PROBE);
                assert(buf@ == header(KIND_PROBE));
                put_u64(&mut buf, *seq);
                put_u64(&mut buf, *t0);
                fill_zeros(&mut buf, fill);
            },
            Packet::Echo { seq, t0, t1, t2 } => {
                buf.push(KIND_ECHO);
                assert(buf@ == header(KIND_ECHO));
                put_u64(&mut buf, *seq);
                put_u64(&mut buf, *t0);
                put_u64(&mut buf, *t1);
                put_u64(&mut buf, *t2);
                fill_zeros(&mut buf, fill);
            },
            Packet::Manifest { xfer, total_len, chunk_size, chunk_count, crc32, name } => {
                buf.push(KIND_MANIFEST);
                assert(buf@ == header(KIND_MANIFEST));
                put_u64(&mut buf, *xfer);
                put_u64(&mut buf, *total_len);
                put_u32(&mut buf, *chunk_size);
                put_u32(&mut buf, *chunk_count);
                put_u32(&mut buf, *crc32);
                put_str(&mut buf, name.as_str());
            },
            Packet::ManifestOk { xfer, accepted, message } => {
                buf.push(KIND_MANIFEST_OK);
                assert(buf@ == header(KIND_MANIFEST_OK));
                put_u64(&mut buf, *xfer);
                let ghost so_far = buf@;
                buf.push(if *accepted { 1u8 } else { 0u8 });
                assert(buf@ == so_far + seq![if *accepted { 1u8 } else { 0u8 }]);
                put_str(&mut buf, message.as_str());
            },
            Packet::Chunk { xfer, index, data } => {
                buf.push(KIND_CHUNK);
                assert(buf@ == header(KIND_CHUNK));
                put_u64(&mut buf, *xfer);
                put_u32(&mut buf, *index);
                // Truncated rather than rejected: a chunk longer than one
                // message could not be sent anyway, and the receiver checks
                // every chunk's length against the manifest.
                let take: usize = if data.len() < MAX_CHUNK_DATA { data.len() } else { MAX_CHUNK_DATA };
                put_bytes(&mut buf, vstd::slice::slice_subrange(data.as_slice(), 0, take));
                assert(data@.subrange(0, take as int) == at_most(data@, MAX_CHUNK_DATA as int));
            },
            Packet::Status { xfer } => {
                buf.push(KIND_STATUS);
                assert(buf@ == header(KIND_STATUS));
                put_u64(&mut buf, *xfer);
            },
            Packet::Social { json } => {
                buf.push(KIND_SOCIAL);
                assert(buf@ == header(KIND_SOCIAL));
                let cap: usize = MAX_APP_MESSAGE - HEADER_LEN;
                let take: usize = if json.len() < cap { json.len() } else { cap };
                put_bytes(&mut buf, vstd::slice::slice_subrange(json.as_slice(), 0, take));
                assert(json@.subrange(0, take as int) == at_most(json@, cap as int));
            },
            Packet::Routes { blobs } => {
                buf.push(KIND_ROUTES);
                assert(buf@ == header(KIND_ROUTES));
                let n: usize = if blobs.len() < MAX_PREFIXED { blobs.len() } else { MAX_PREFIXED };
                put_u16(&mut buf, n as u16);
                put_blobs(&mut buf, blobs, n);
                assert(blob_list(blobs@).take(n as int) == at_most(
                    blob_list(blobs@),
                    MAX_PREFIXED as int,
                ));
            },
            Packet::StatusReply { xfer, state, missing_total, missing } => {
                buf.push(KIND_STATUS_REPLY);
                assert(buf@ == header(KIND_STATUS_REPLY));
                put_u64(&mut buf, *xfer);
                let ghost so_far = buf@;
                buf.push(*state);
                assert(buf@ == so_far + seq![*state]);
                put_u32(&mut buf, *missing_total);
                let listed: usize = if missing.len() < MAX_MISSING_LISTED {
                    missing.len()
                } else {
                    MAX_MISSING_LISTED
                };
                put_u32(&mut buf, listed as u32);
                put_words(&mut buf, missing, listed);
                assert(missing@.take(listed as int) == at_most(missing@, MAX_MISSING_LISTED as int));
            },
        }
        buf
    }
}

// ---------------------------------------------------------------------------
// decoding
// ---------------------------------------------------------------------------

/// The length-prefixed bytes at `off`, and where they end.
fn get_prefixed(buf: &[u8], off: usize) -> (r: Option<(usize, usize)>)
    requires
        off <= buf@.len(),
    ensures
        match r {
            None => prefixed_at(buf@, off as int) is None,
            Some((start, end)) => {
                &&& start == off + 2
                &&& start <= end <= buf@.len()
                &&& prefixed_at(buf@, off as int) == Some(buf@.subrange(start as int, end as int))
            },
        },
{
    if buf.len() - off < 2 {
        return None;
    }
    let len: usize = get_u16(buf, off) as usize;
    let start: usize = off + 2;
    if buf.len() - start < len {
        return None;
    }
    Some((start, start + len))
}

/// The length-prefixed text at `off`, and where it ends.
pub fn get_str(buf: &[u8], off: usize) -> (r: Option<(String, usize)>)
    ensures
        match r {
            None => text_at(buf@, off as int) is None,
            Some((s, end)) => {
                &&& text_at(buf@, off as int) == Some(s@)
                &&& end == off + 2 + bytes::at16(buf@, off as int)
                &&& end <= buf@.len()
            },
        },
{
    if off > buf.len() {
        return None;
    }
    match get_prefixed(buf, off) {
        None => None,
        Some((start, end)) => Some(
            (utf8_lossy(vstd::slice::slice_subrange(buf, start, end)), end),
        ),
    }
}

/// What was read so far, and what is still to be read, is the whole list.
pub open spec fn joined(done: Seq<Seq<u8>>, rest: Option<Seq<Seq<u8>>>) -> Option<Seq<Seq<u8>>> {
    match rest {
        None => None,
        Some(r) => Some(done + r),
    }
}

/// `n` length-prefixed blobs from `from` on.
fn get_blobs(buf: &[u8], from: usize, n: usize) -> (r: Option<Vec<Vec<u8>>>)
    requires
        from <= buf@.len(),
    ensures
        match r {
            None => blobs_at(buf@, from as int, n as nat) is None,
            Some(v) => blobs_at(buf@, from as int, n as nat) == Some(blob_list(v@)),
        },
{
    let mut blobs: Vec<Vec<u8>> = Vec::new();
    let mut off: usize = from;
    let mut left: usize = n;
    let ghost whole = blobs_at(buf@, from as int, n as nat);
    proof {
        if let Some(r) = whole {
            assert(blob_list(blobs@) + r == r);
        }
    }
    while left > 0
        invariant
            off <= buf@.len(),
            whole == blobs_at(buf@, from as int, n as nat),
            whole == joined(blob_list(blobs@), blobs_at(buf@, off as int, left as nat)),
        decreases left,
    {
        let ghost done = blob_list(blobs@);
        match get_prefixed(buf, off) {
            None => {
                return None;
            },
            Some((start, end)) => {
                let blob = copy_of(buf, start, end);
                let ghost first = blob@;
                blobs.push(blob);
                proof {
                    assert(blob_list(blobs@) == done.push(first));
                    let later = blobs_at(buf@, end as int, (left - 1) as nat);
                    if let Some(r) = later {
                        assert(done + (seq![first] + r) == done.push(first) + r);
                    }
                }
                off = end;
                left = left - 1;
            },
        }
    }
    assert(blob_list(blobs@) + Seq::<Seq<u8>>::empty() == blob_list(blobs@));
    Some(blobs)
}

/// `n` four-byte integers from `from` on.
fn get_words(buf: &[u8], from: usize, n: usize) -> (r: Vec<u32>)
    requires
        from + 4 * n <= buf@.len(),
    ensures
        r@ == Seq::new(n as nat, |i: int| bytes::at32(buf@, from + 4 * i)),
{
    assert(from + 4 * n <= buf.len());
    let mut out: Vec<u32> = Vec::new();
    let mut i: usize = 0;
    while i < n
        invariant
            i <= n,
            from + 4 * n <= buf@.len(),
            from + 4 * n <= usize::MAX,
            out@ == Seq::new(i as nat, |k: int| bytes::at32(buf@, from + 4 * k)),
        decreases n - i,
    {
        out.push(get_u32(buf, from + 4 * i));
        i = i + 1;
    }
    out
}

impl Packet {
    /// Read a message. Anything that is not a whole packet of this protocol
    /// reads as nothing.
    pub fn decode(buf: &[u8]) -> (r: Option<Packet>)
        ensures
            match r {
                None => heard(buf@) is None,
                Some(p) => heard(buf@) == Some(p@),
            },
    {
        if buf.len() < HEADER_LEN {
            return None;
        }
        let ours: bool = buf[0] == MAGIC[0] && buf[1] == MAGIC[1] && buf[2] == MAGIC[2] && buf[3]
            == MAGIC[3];
        if !ours {
            assert(buf@.take(4) != MAGIC@) by {
                assert(buf@.take(4)[0] == buf@[0]);
                assert(buf@.take(4)[1] == buf@[1]);
                assert(buf@.take(4)[2] == buf@[2]);
                assert(buf@.take(4)[3] == buf@[3]);
            }
            return None;
        }
        assert(buf@.take(4) == MAGIC@);
        let kind: u8 = buf[4];
        if kind == KIND_HELLO {
            if buf.len() < HEADER_LEN + 8 {
                return None;
            }
            let len: u64 = get_u64(buf, HEADER_LEN);
            let start: usize = HEADER_LEN + 8;
            if ((buf.len() - start) as u64) < len {
                return None;
            }
            Some(Packet::Hello { return_route: copy_of(buf, start, start + len as usize) })
        } else if kind == KIND_PROBE {
            if buf.len() < PROBE_LEN {
                return None;
            }
            Some(Packet::Probe { seq: get_u64(buf, HEADER_LEN), t0: get_u64(buf, HEADER_LEN + 8) })
        } else if kind == KIND_ECHO {
            if buf.len() < ECHO_LEN {
                return None;
            }
            Some(
                Packet::Echo {
                    seq: get_u64(buf, HEADER_LEN),
                    t0: get_u64(buf, HEADER_LEN + 8),
                    t1: get_u64(buf, HEADER_LEN + 16),
                    t2: get_u64(buf, HEADER_LEN + 24),
                },
            )
        } else if kind == KIND_MANIFEST {
            if buf.len() < HEADER_LEN + 28 {
                return None;
            }
            match get_str(buf, HEADER_LEN + 28) {
                None => None,
                Some((name, _)) => Some(
                    Packet::Manifest {
                        xfer: get_u64(buf, HEADER_LEN),
                        total_len: get_u64(buf, HEADER_LEN + 8),
                        chunk_size: get_u32(buf, HEADER_LEN + 16),
                        chunk_count: get_u32(buf, HEADER_LEN + 20),
                        crc32: get_u32(buf, HEADER_LEN + 24),
                        name,
                    },
                ),
            }
        } else if kind == KIND_MANIFEST_OK {
            if buf.len() < HEADER_LEN + 9 {
                return None;
            }
            match get_str(buf, HEADER_LEN + 9) {
                None => None,
                Some((message, _)) => Some(
                    Packet::ManifestOk {
                        xfer: get_u64(buf, HEADER_LEN),
                        accepted: buf[HEADER_LEN + 8] != 0,
                        message,
                    },
                ),
            }
        } else if kind == KIND_CHUNK {
            if buf.len() < CHUNK_HEADER_LEN {
                return None;
            }
            Some(
                Packet::Chunk {
                    xfer: get_u64(buf, HEADER_LEN),
                    index: get_u32(buf, HEADER_LEN + 8),
                    data: copy_of(buf, CHUNK_HEADER_LEN, buf.len()),
                },
            )
        } else if kind == KIND_STATUS {
            if buf.len() < HEADER_LEN + 8 {
                return None;
            }
            Some(Packet::Status { xfer: get_u64(buf, HEADER_LEN) })
        } else if kind == KIND_SOCIAL {
            Some(Packet::Social { json: copy_of(buf, HEADER_LEN, buf.len()) })
        } else if kind == KIND_ROUTES {
            if buf.len() < HEADER_LEN + 2 {
                return None;
            }
            let n: usize = get_u16(buf, HEADER_LEN) as usize;
            match get_blobs(buf, HEADER_LEN + 2, n) {
                None => None,
                Some(blobs) => Some(Packet::Routes { blobs }),
            }
        } else if kind == KIND_STATUS_REPLY {
            if buf.len() < STATUS_REPLY_HEADER_LEN {
                return None;
            }
            let listed: u32 = get_u32(buf, HEADER_LEN + 13);
            let start: usize = STATUS_REPLY_HEADER_LEN;
            if (((buf.len() - start) / 4) as u64) < listed as u64 {
                return None;
            }
            Some(
                Packet::StatusReply {
                    xfer: get_u64(buf, HEADER_LEN),
                    state: buf[HEADER_LEN + 8],
                    missing_total: get_u32(buf, HEADER_LEN + 9),
                    missing: get_words(buf, start, listed as usize),
                },
            )
        } else {
            None
        }
    }
}

// ---------------------------------------------------------------------------
// laws
// ---------------------------------------------------------------------------

/// What is left of a text once its bytes have been cut to what two bytes of
/// length can count.
pub open spec fn carried_text(s: Seq<char>) -> Seq<char> {
    foreign::lossy_text(at_most(encode_utf8(s), MAX_PREFIXED as int))
}

/// What is left of a packet once it has crossed the wire.
pub open spec fn carried(p: Said) -> Said {
    match p {
        Said::Manifest { xfer, total_len, chunk_size, chunk_count, crc32, name } => Said::Manifest {
            xfer,
            total_len,
            chunk_size,
            chunk_count,
            crc32,
            name: carried_text(name),
        },
        Said::ManifestOk { xfer, accepted, message } => Said::ManifestOk {
            xfer,
            accepted,
            message: carried_text(message),
        },
        Said::Chunk { xfer, index, data } => Said::Chunk {
            xfer,
            index,
            data: at_most(data, MAX_CHUNK_DATA as int),
        },
        Said::StatusReply { xfer, state, missing_total, missing } => Said::StatusReply {
            xfer,
            state,
            missing_total,
            missing: at_most(missing, MAX_MISSING_LISTED as int),
        },
        Said::Social { json } => Said::Social { json: at_most(json, MAX_APP_MESSAGE - HEADER_LEN) },
        Said::Routes { blobs } => Said::Routes {
            blobs: at_most(blobs, MAX_PREFIXED as int).map_values(
                |b: Seq<u8>| at_most(b, MAX_PREFIXED as int),
            ),
        },
        other => other,
    }
}

/// Whether every part of a packet is short enough to cross the wire whole.
pub open spec fn fits_whole(p: Said) -> bool {
    match p {
        Said::Manifest { name, .. } => encode_utf8(name).len() <= MAX_PREFIXED,
        Said::ManifestOk { message, .. } => encode_utf8(message).len() <= MAX_PREFIXED,
        Said::Chunk { data, .. } => data.len() <= MAX_CHUNK_DATA,
        Said::StatusReply { missing, .. } => missing.len() <= MAX_MISSING_LISTED,
        Said::Social { json } => json.len() <= MAX_APP_MESSAGE - HEADER_LEN,
        Said::Routes { blobs } => blobs.len() <= MAX_PREFIXED && forall|i: int|
            0 <= i < blobs.len() ==> #[trigger] blobs[i].len() <= MAX_PREFIXED,
        _ => true,
    }
}

/// A length-prefixed piece reads back as what was kept of it.
proof fn lemma_prefixed_reads_back(w: Seq<u8>, off: int, raw: Seq<u8>)
    requires
        bytes::stands_at(w, off, prefixed(raw)),
    ensures
        prefixed_at(w, off) == Some(at_most(raw, MAX_PREFIXED as int)),
{
    let kept = at_most(raw, MAX_PREFIXED as int);
    let part = prefixed(raw);
    let here = w.subrange(off, off + part.len());
    assert(part.len() == 2 + kept.len());
    assert(w.subrange(off, off + 2) == here.take(2));
    assert(part.take(2) == bytes::le16(kept.len() as u16));
    bytes::lemma_at16(w, off, kept.len() as u16);
    assert(w.subrange(off + 2, off + 2 + kept.len()) == here.skip(2));
    assert(part.skip(2) == kept);
}

/// A run of length-prefixed blobs reads back as what was kept of each.
proof fn lemma_blobs_read_back(w: Seq<u8>, off: int, blobs: Seq<Seq<u8>>)
    requires
        bytes::stands_at(w, off, prefixed_all(blobs)),
    ensures
        blobs_at(w, off, blobs.len()) == Some(
            blobs.map_values(|b: Seq<u8>| at_most(b, MAX_PREFIXED as int)),
        ),
    decreases blobs.len(),
{
    let cut = |b: Seq<u8>| at_most(b, MAX_PREFIXED as int);
    if blobs.len() == 0 {
        assert(blobs.map_values(cut) == Seq::<Seq<u8>>::empty());
    } else {
        let first = prefixed(blobs[0]);
        let later = prefixed_all(blobs.skip(1));
        let here = w.subrange(off, off + prefixed_all(blobs).len());
        assert(w.subrange(off, off + first.len()) == here.take(first.len() as int));
        assert(here.take(first.len() as int) == first);
        lemma_prefixed_reads_back(w, off, blobs[0]);
        let next = off + first.len();
        assert(w.subrange(next, next + later.len()) == here.skip(first.len() as int));
        assert(here.skip(first.len() as int) == later);
        lemma_blobs_read_back(w, next, blobs.skip(1));
        assert(blobs.map_values(cut) == seq![cut(blobs[0])] + blobs.skip(1).map_values(cut));
    }
}

/// A list of indices reads back index by index.
proof fn lemma_words_read_back(w: Seq<u8>, off: int, m: Seq<u32>)
    requires
        bytes::stands_at(w, off, words(m)),
    ensures
        Seq::new(m.len(), |i: int| bytes::at32(w, off + 4 * i)) == m,
{
    let part = w.subrange(off, off + words(m).len());
    assert forall|i: int| 0 <= i < m.len() implies bytes::at32(w, off + 4 * i) == m[i] by {
        let here = w.subrange(off + 4 * i, off + 4 * i + 4);
        assert forall|k: int| 0 <= k < 4 implies #[trigger] here[k] == bytes::le32(m[i])[k] by {
            assert(here[k] == part[4 * i + k]);
            assert((4 * i + k) / 4 == i && (4 * i + k) % 4 == k);
        }
        assert(here == bytes::le32(m[i]));
        bytes::lemma_at32(w, off + 4 * i, m[i]);
    }
    assert(Seq::new(m.len(), |i: int| bytes::at32(w, off + 4 * i)) == m);
}

/// Every packet begins with the magic and its kind.
proof fn lemma_header(w: Seq<u8>, kind: u8)
    requires
        w.len() >= 5,
        w.take(5) == header(kind),
    ensures
        w.take(4) == MAGIC@,
        w[4] == kind,
{
    assert(w.take(4) == w.take(5).take(4));
    assert(header(kind).take(4) == MAGIC@);
    assert(w.take(5)[4] == kind);
}

#[verifier::spinoff_prover]
proof fn lemma_hello_reads_back(p: Said, pad_to: int)
    requires
        p is Hello,
        p->Hello_return_route.len() <= u64::MAX,
    ensures
        heard(on_wire(p, pad_to)) == Some(carried(p)),
{
    let w = on_wire(p, pad_to);
    if let Said::Hello { return_route } = p {
        let n = return_route.len() as u64;
        assert(w.take(5) == header(KIND_HELLO));
        lemma_header(w, KIND_HELLO);
        assert(w.subrange(5, 13) == bytes::le64(n));
        bytes::lemma_at64(w, 5, n);
        assert(w.subrange(13, 13 + n) == return_route);
    }
}

#[verifier::spinoff_prover]
proof fn lemma_probe_reads_back(p: Said, pad_to: int)
    requires
        p is Probe,
    ensures
        heard(on_wire(p, pad_to)) == Some(carried(p)),
{
    let w = on_wire(p, pad_to);
    if let Said::Probe { seq, t0 } = p {
        assert(w.take(5) == header(KIND_PROBE));
        lemma_header(w, KIND_PROBE);
        assert(w.subrange(5, 13) == bytes::le64(seq));
        bytes::lemma_at64(w, 5, seq);
        assert(w.subrange(13, 21) == bytes::le64(t0));
        bytes::lemma_at64(w, 13, t0);
    }
}

#[verifier::spinoff_prover]
proof fn lemma_echo_reads_back(p: Said, pad_to: int)
    requires
        p is Echo,
    ensures
        heard(on_wire(p, pad_to)) == Some(carried(p)),
{
    let w = on_wire(p, pad_to);
    if let Said::Echo { seq, t0, t1, t2 } = p {
        assert(w.take(5) == header(KIND_ECHO));
        lemma_header(w, KIND_ECHO);
        assert(w.subrange(5, 13) == bytes::le64(seq));
        bytes::lemma_at64(w, 5, seq);
        assert(w.subrange(13, 21) == bytes::le64(t0));
        bytes::lemma_at64(w, 13, t0);
        assert(w.subrange(21, 29) == bytes::le64(t1));
        bytes::lemma_at64(w, 21, t1);
        assert(w.subrange(29, 37) == bytes::le64(t2));
        bytes::lemma_at64(w, 29, t2);
    }
}

/// Where the numbers of a manifest stand.
#[verifier::spinoff_prover]
proof fn lemma_manifest_numbers(p: Said, pad_to: int)
    requires
        p is Manifest,
    ensures
        ({
            let w = on_wire(p, pad_to);
            &&& w.len() >= 33
            &&& w.take(5) == header(KIND_MANIFEST)
            &&& bytes::at64(w, 5) == p->Manifest_xfer
            &&& bytes::at64(w, 13) == p->total_len
            &&& bytes::at32(w, 21) == p->chunk_size
            &&& bytes::at32(w, 25) == p->chunk_count
            &&& bytes::at32(w, 29) == p->crc32
        }),
{
    let w = on_wire(p, pad_to);
    if let Said::Manifest { xfer, total_len, chunk_size, chunk_count, crc32, name } = p {
        assert(w.take(5) == header(KIND_MANIFEST));
        assert(bytes::at64(w, 5) == xfer) by {
            assert(w.subrange(5, 13) == bytes::le64(xfer));
            bytes::lemma_at64(w, 5, xfer);
        }
        assert(bytes::at64(w, 13) == total_len) by {
            assert(w.subrange(13, 21) == bytes::le64(total_len));
            bytes::lemma_at64(w, 13, total_len);
        }
        assert(bytes::at32(w, 21) == chunk_size) by {
            assert(w.subrange(21, 25) == bytes::le32(chunk_size));
            bytes::lemma_at32(w, 21, chunk_size);
        }
        assert(bytes::at32(w, 25) == chunk_count) by {
            assert(w.subrange(25, 29) == bytes::le32(chunk_count));
            bytes::lemma_at32(w, 25, chunk_count);
        }
        assert(bytes::at32(w, 29) == crc32) by {
            assert(w.subrange(29, 33) == bytes::le32(crc32));
            bytes::lemma_at32(w, 29, crc32);
        }
    }
}

/// Where the name of a manifest stands.
#[verifier::spinoff_prover]
proof fn lemma_manifest_name(p: Said, pad_to: int)
    requires
        p is Manifest,
    ensures
        prefixed_at(on_wire(p, pad_to), 33) == Some(
            at_most(encode_utf8(p->name), MAX_PREFIXED as int),
        ),
{
    let w = on_wire(p, pad_to);
    let raw = encode_utf8(p->name);
    assert(w.subrange(33, 33int + prefixed(raw).len()) == prefixed(raw));
    lemma_prefixed_reads_back(w, 33, raw);
}

#[verifier::spinoff_prover]
proof fn lemma_manifest_reads_back(p: Said, pad_to: int)
    requires
        p is Manifest,
    ensures
        heard(on_wire(p, pad_to)) == Some(carried(p)),
{
    let w = on_wire(p, pad_to);
    lemma_manifest_numbers(p, pad_to);
    lemma_manifest_name(p, pad_to);
    lemma_header(w, KIND_MANIFEST);
}

#[verifier::spinoff_prover]
proof fn lemma_manifest_ok_reads_back(p: Said, pad_to: int)
    requires
        p is ManifestOk,
    ensures
        heard(on_wire(p, pad_to)) == Some(carried(p)),
{
    let w = on_wire(p, pad_to);
    if let Said::ManifestOk { xfer, accepted, message } = p {
        let raw = encode_utf8(message);
        assert(w.take(5) == header(KIND_MANIFEST_OK));
        lemma_header(w, KIND_MANIFEST_OK);
        assert(w.subrange(5, 13) == bytes::le64(xfer));
        bytes::lemma_at64(w, 5, xfer);
        assert(w[13] == if accepted { 1u8 } else { 0u8 });
        assert(w.subrange(14, 14int + prefixed(raw).len()) == prefixed(raw));
        lemma_prefixed_reads_back(w, 14, raw);
    }
}

#[verifier::spinoff_prover]
proof fn lemma_chunk_reads_back(p: Said, pad_to: int)
    requires
        p is Chunk,
    ensures
        heard(on_wire(p, pad_to)) == Some(carried(p)),
{
    let w = on_wire(p, pad_to);
    if let Said::Chunk { xfer, index, data } = p {
        assert(w.take(5) == header(KIND_CHUNK));
        lemma_header(w, KIND_CHUNK);
        assert(w.subrange(5, 13) == bytes::le64(xfer));
        bytes::lemma_at64(w, 5, xfer);
        assert(w.subrange(13, 17) == bytes::le32(index));
        bytes::lemma_at32(w, 13, index);
        assert(w.skip(17) == at_most(data, MAX_CHUNK_DATA as int));
    }
}

#[verifier::spinoff_prover]
proof fn lemma_status_reads_back(p: Said, pad_to: int)
    requires
        p is Status,
    ensures
        heard(on_wire(p, pad_to)) == Some(carried(p)),
{
    let w = on_wire(p, pad_to);
    if let Said::Status { xfer } = p {
        assert(w.take(5) == header(KIND_STATUS));
        lemma_header(w, KIND_STATUS);
        assert(w.subrange(5, 13) == bytes::le64(xfer));
        bytes::lemma_at64(w, 5, xfer);
    }
}

#[verifier::spinoff_prover]
proof fn lemma_status_reply_reads_back(p: Said, pad_to: int)
    requires
        p is StatusReply,
    ensures
        heard(on_wire(p, pad_to)) == Some(carried(p)),
{
    let w = on_wire(p, pad_to);
    if let Said::StatusReply { xfer, state, missing_total, missing } = p {
        let listed = at_most(missing, MAX_MISSING_LISTED as int);
        let n = listed.len() as u32;
        assert(w.take(5) == header(KIND_STATUS_REPLY));
        lemma_header(w, KIND_STATUS_REPLY);
        assert(w.subrange(5, 13) == bytes::le64(xfer));
        bytes::lemma_at64(w, 5, xfer);
        assert(w[13] == state);
        assert(w.subrange(14, 18) == bytes::le32(missing_total));
        bytes::lemma_at32(w, 14, missing_total);
        assert(w.subrange(18, 22) == bytes::le32(n));
        bytes::lemma_at32(w, 18, n);
        assert(w.subrange(22, 22int + words(listed).len()) == words(listed));
        lemma_words_read_back(w, 22, listed);
    }
}

#[verifier::spinoff_prover]
proof fn lemma_social_reads_back(p: Said, pad_to: int)
    requires
        p is Social,
    ensures
        heard(on_wire(p, pad_to)) == Some(carried(p)),
{
    let w = on_wire(p, pad_to);
    if let Said::Social { json } = p {
        assert(w.take(5) == header(KIND_SOCIAL));
        lemma_header(w, KIND_SOCIAL);
        assert(w.skip(5) == at_most(json, MAX_APP_MESSAGE - HEADER_LEN));
    }
}

#[verifier::spinoff_prover]
proof fn lemma_routes_reads_back(p: Said, pad_to: int)
    requires
        p is Routes,
    ensures
        heard(on_wire(p, pad_to)) == Some(carried(p)),
{
    let w = on_wire(p, pad_to);
    if let Said::Routes { blobs } = p {
        let kept = at_most(blobs, MAX_PREFIXED as int);
        let n = kept.len() as u16;
        assert(w.take(5) == header(KIND_ROUTES));
        lemma_header(w, KIND_ROUTES);
        assert(w.subrange(5, 7) == bytes::le16(n));
        bytes::lemma_at16(w, 5, n);
        assert(w.subrange(7, 7int + prefixed_all(kept).len()) == prefixed_all(kept));
        lemma_blobs_read_back(w, 7, kept);
    }
}

/// What is decoded is what was encoded, less only what a message cannot carry:
/// for every packet and every amount of padding.
pub proof fn law_decode_undoes_encode(p: Said, pad_to: int)
    requires
        p matches Said::Hello { return_route } ==> return_route.len() <= u64::MAX,
    ensures
        heard(on_wire(p, pad_to)) == Some(carried(p)),
{
    match p {
        Said::Hello { .. } => lemma_hello_reads_back(p, pad_to),
        Said::Probe { .. } => lemma_probe_reads_back(p, pad_to),
        Said::Echo { .. } => lemma_echo_reads_back(p, pad_to),
        Said::Manifest { .. } => lemma_manifest_reads_back(p, pad_to),
        Said::ManifestOk { .. } => lemma_manifest_ok_reads_back(p, pad_to),
        Said::Chunk { .. } => lemma_chunk_reads_back(p, pad_to),
        Said::Status { .. } => lemma_status_reads_back(p, pad_to),
        Said::StatusReply { .. } => lemma_status_reply_reads_back(p, pad_to),
        Said::Social { .. } => lemma_social_reads_back(p, pad_to),
        Said::Routes { .. } => lemma_routes_reads_back(p, pad_to),
    }
}

/// Length-prefixed bytes read back from where they were put, whatever stands
/// round them.
#[verifier::spinoff_prover]
proof fn lemma_prefixed_reads_back_inside(front: Seq<u8>, raw: Seq<u8>, back: Seq<u8>)
    ensures
        prefixed_at(front + prefixed(raw) + back, front.len() as int) == Some(
            at_most(raw, MAX_PREFIXED as int),
        ),
        bytes::at16(front + prefixed(raw) + back, front.len() as int) == at_most(
            raw,
            MAX_PREFIXED as int,
        ).len(),
{
    let b = front + prefixed(raw) + back;
    let off = front.len() as int;
    assert(b.subrange(off, off + prefixed(raw).len()) == prefixed(raw));
    lemma_prefixed_reads_back(b, off, raw);
}

/// A text reads back from where it was put, whatever stands round it: whole, if
/// two bytes can count its length, and as what is left of it otherwise. It ends
/// where what was put ends.
#[verifier::spinoff_prover]
pub proof fn law_a_text_reads_back(front: Seq<u8>, s: Seq<char>, back: Seq<u8>)
    ensures
        ({
            let b = front + prefixed(encode_utf8(s)) + back;
            let off = front.len() as int;
            &&& text_at(b, off) == Some(carried_text(s))
            &&& encode_utf8(s).len() <= MAX_PREFIXED ==> text_at(b, off) == Some(s)
            &&& off + 2 + bytes::at16(b, off) == front.len() + prefixed(encode_utf8(s)).len()
        }),
{
    lemma_prefixed_reads_back_inside(front, encode_utf8(s), back);
    encode_utf8_valid_utf8(s);
    encode_utf8_decode_utf8(s);
}

/// A packet whose parts all fit crosses the wire unchanged.
pub proof fn law_what_fits_is_carried_whole(p: Said)
    requires
        fits_whole(p),
    ensures
        carried(p) == p,
{
    match p {
        Said::Manifest { name, .. } => {
            encode_utf8_valid_utf8(name);
            encode_utf8_decode_utf8(name);
        },
        Said::ManifestOk { message, .. } => {
            encode_utf8_valid_utf8(message);
            encode_utf8_decode_utf8(message);
        },
        Said::Routes { blobs } => {
            assert(blobs.map_values(|b: Seq<u8>| at_most(b, MAX_PREFIXED as int)) == blobs);
        },
        _ => {},
    }
}

/// A chunk, a status question, a status answer, a social message, a probe and
/// an echo each fit one `app_message`, whatever they are made to carry and
/// however much padding is asked for.
pub proof fn law_fits_one_app_message(p: Said, pad_to: int)
    requires
        p is Probe || p is Echo || p is Chunk || p is Status || p is StatusReply || p is Social,
    ensures
        on_wire(p, pad_to).len() <= MAX_APP_MESSAGE,
{
}

/// A probe and an echo are padded to exactly the size asked for, as long as
/// that is enough to hold them and no more than Veilid carries.
pub proof fn law_padding_is_exact(p: Said, pad_to: int)
    requires
        p is Probe || p is Echo,
        ECHO_LEN <= pad_to <= MAX_APP_MESSAGE,
    ensures
        on_wire(p, pad_to).len() == pad_to,
{
}

/// A message that does not begin with the magic is not a packet, and neither is
/// one that is too short to have a kind.
pub proof fn law_foreign_messages_are_rejected(b: Seq<u8>)
    requires
        b.len() < HEADER_LEN || b.take(4) != MAGIC@,
    ensures
        heard(b) is None,
{
}

/// A list that claims more than the message holds is not a packet.
pub proof fn law_lying_lengths_are_rejected(b: Seq<u8>)
    requires
        ({
            ||| b[4] == KIND_STATUS_REPLY && b.len() < 22 + 4 * bytes::at32(b, 18)
            ||| b[4] == KIND_HELLO && b.len() < 13 + bytes::at64(b, 5)
            ||| b[4] == KIND_ROUTES && bytes::at16(b, 5) > 0 && b.len() < 9 + bytes::at16(b, 7)
        }),
    ensures
        heard(b) is None,
{
}

/// How many bytes it takes to say this much.
pub open spec fn least_len(p: Said) -> int {
    match p {
        Said::Hello { return_route } => 13int + return_route.len(),
        Said::Probe { .. } => PROBE_LEN as int,
        Said::Echo { .. } => ECHO_LEN as int,
        Said::Manifest { .. } => 35,
        Said::ManifestOk { .. } => 16,
        Said::Chunk { data, .. } => CHUNK_HEADER_LEN + data.len(),
        Said::Status { .. } => 13,
        Said::StatusReply { missing, .. } => STATUS_REPLY_HEADER_LEN + 4 * missing.len(),
        Said::Social { json } => HEADER_LEN + json.len(),
        Said::Routes { blobs } => 7int + blobs_len(blobs),
    }
}

/// How many bytes a list of blobs takes, each with its length in front.
pub open spec fn blobs_len(blobs: Seq<Seq<u8>>) -> int
    decreases blobs.len(),
{
    if blobs.len() == 0 {
        0
    } else {
        2int + blobs[0].len() + blobs_len(blobs.skip(1))
    }
}

/// A run of blobs that reads well lies inside the message.
proof fn lemma_blobs_inside(b: Seq<u8>, off: int, n: nat)
    requires
        0 <= off <= b.len(),
        blobs_at(b, off, n) is Some,
    ensures
        off + blobs_len(blobs_at(b, off, n)->Some_0) <= b.len(),
    decreases n,
{
    if n > 0 {
        let first = prefixed_at(b, off)->Some_0;
        let next = off + 2 + first.len();
        lemma_blobs_inside(b, next, (n - 1) as nat);
        let rest = blobs_at(b, next, (n - 1) as nat)->Some_0;
        let all = blobs_at(b, off, n)->Some_0;
        assert(all == seq![first] + rest);
        assert(all.skip(1) == rest);
    }
}

/// Nothing is read past the end of a message: whatever a length claims, what is
/// heard is no longer than what came in.
pub proof fn law_nothing_is_read_past_the_end(b: Seq<u8>)
    requires
        heard(b) is Some,
    ensures
        least_len(heard(b)->Some_0) <= b.len(),
{
    if b[4] == KIND_ROUTES {
        lemma_blobs_inside(b, 7, bytes::at16(b, 5) as nat);
    }
}

/// How much one message holds: 32751 bytes of a chunk, 8186 missing chunks, and
/// 32763 bytes of a social message. A name, a reason and a route may take 65535
/// bytes, and there may be as many routes. What is within that is never cut.
pub proof fn law_what_a_message_holds(p: Said)
    requires
        match p {
            Said::Manifest { name, .. } => encode_utf8(name).len() <= 65535,
            Said::ManifestOk { message, .. } => encode_utf8(message).len() <= 65535,
            Said::Chunk { data, .. } => data.len() <= 32751,
            Said::StatusReply { missing, .. } => missing.len() <= 8186,
            Said::Social { json } => json.len() <= 32763,
            Said::Routes { blobs } => blobs.len() <= 65535 && forall|i: int|
                0 <= i < blobs.len() ==> #[trigger] blobs[i].len() <= 65535,
            _ => true,
        },
    ensures
        carried(p) == p,
{
    law_what_fits_is_carried_whole(p);
}

/// What is too long for a message loses its end and nothing else.
pub proof fn law_what_is_cut_is_cut_at_the_end<T>(s: Seq<T>, n: int)
    requires
        0 <= n,
    ensures
        at_most(s, n).len() == if s.len() < n { s.len() as int } else { n },
        forall|i: int| 0 <= i < at_most(s, n).len() ==> #[trigger] at_most(s, n)[i] == s[i],
{
}

/// Where everything stands in a measuring packet: the magic `VVC0`, the kind, and
/// then each number in eight bytes, low byte first.
#[verifier::spinoff_prover]
pub proof fn law_where_the_stamps_stand(seq: u64, t0: u64, t1: u64, t2: u64, pad_to: int)
    ensures
        ({
            let probe = on_wire(Said::Probe { seq, t0 }, pad_to);
            let echo = on_wire(Said::Echo { seq, t0, t1, t2 }, pad_to);
            &&& probe.take(5) == seq![0x56u8, 0x56, 0x43, 0x30, 2]
            &&& echo.take(5) == seq![0x56u8, 0x56, 0x43, 0x30, 3]
            &&& bytes::at64(probe, 5) == seq && bytes::at64(echo, 5) == seq
            &&& bytes::at64(probe, 13) == t0 && bytes::at64(echo, 13) == t0
            &&& bytes::at64(echo, 21) == t1
            &&& bytes::at64(echo, 29) == t2
            &&& pad_to <= 21 ==> probe.len() == 21
            &&& pad_to <= 37 ==> echo.len() == 37
            &&& 21 <= pad_to <= 32768 ==> probe.len() == pad_to
            &&& 37 <= pad_to <= 32768 ==> echo.len() == pad_to
            &&& 32768 <= pad_to ==> probe.len() == 32768 && echo.len() == 32768
            &&& forall|i: int| 21 <= i < probe.len() ==> #[trigger] probe[i] == 0
            &&& forall|i: int| 37 <= i < echo.len() ==> #[trigger] echo[i] == 0
        }),
{
    let probe = on_wire(Said::Probe { seq, t0 }, pad_to);
    let echo = on_wire(Said::Echo { seq, t0, t1, t2 }, pad_to);
    assert(probe.take(5) =~= seq![0x56u8, 0x56, 0x43, 0x30, 2]);
    assert(echo.take(5) =~= seq![0x56u8, 0x56, 0x43, 0x30, 3]);
    assert(probe.subrange(5, 13) == bytes::le64(seq));
    assert(probe.subrange(13, 21) == bytes::le64(t0));
    assert(echo.subrange(5, 13) == bytes::le64(seq));
    assert(echo.subrange(13, 21) == bytes::le64(t0));
    assert(echo.subrange(21, 29) == bytes::le64(t1));
    assert(echo.subrange(29, 37) == bytes::le64(t2));
    bytes::lemma_at64(probe, 5, seq);
    bytes::lemma_at64(probe, 13, t0);
    bytes::lemma_at64(echo, 5, seq);
    bytes::lemma_at64(echo, 13, t0);
    bytes::lemma_at64(echo, 21, t1);
    bytes::lemma_at64(echo, 29, t2);
}

/// Where everything stands in a manifest.
#[verifier::spinoff_prover]
pub proof fn law_where_a_manifest_has_its_numbers(
    xfer: u64,
    total_len: u64,
    chunk_size: u32,
    chunk_count: u32,
    crc32: u32,
    name: Seq<char>,
    pad_to: int,
)
    requires
        encode_utf8(name).len() <= 65535,
    ensures
        ({
            let w = on_wire(
                Said::Manifest { xfer, total_len, chunk_size, chunk_count, crc32, name },
                pad_to,
            );
            &&& w.take(5) == seq![0x56u8, 0x56, 0x43, 0x30, 4]
            &&& bytes::at64(w, 5) == xfer
            &&& bytes::at64(w, 13) == total_len
            &&& bytes::at32(w, 21) == chunk_size
            &&& bytes::at32(w, 25) == chunk_count
            &&& bytes::at32(w, 29) == crc32
            &&& bytes::at16(w, 33) == encode_utf8(name).len()
            &&& w.skip(35) == encode_utf8(name)
        }),
{
    let p = Said::Manifest { xfer, total_len, chunk_size, chunk_count, crc32, name };
    lemma_manifest_numbers(p, pad_to);
    lemma_manifest_tail(p, pad_to);
}

/// What stands behind the numbers of a manifest.
#[verifier::spinoff_prover]
proof fn lemma_manifest_tail(p: Said, pad_to: int)
    requires
        p is Manifest,
        encode_utf8(p->name).len() <= 65535,
    ensures
        bytes::at16(on_wire(p, pad_to), 33) == encode_utf8(p->name).len(),
        on_wire(p, pad_to).skip(35) == encode_utf8(p->name),
{
    if let Said::Manifest { xfer, total_len, chunk_size, chunk_count, crc32, name } = p {
        let raw = encode_utf8(name);
        let front = header(KIND_MANIFEST) + bytes::le64(xfer) + bytes::le64(total_len)
            + bytes::le32(chunk_size) + bytes::le32(chunk_count) + bytes::le32(crc32);
        assert(front.len() == 33);
        lemma_tail_of_prefixed(front, raw);
    }
}

/// What stands in length-prefixed bytes that end a message.
proof fn lemma_tail_of_prefixed(front: Seq<u8>, raw: Seq<u8>)
    requires
        raw.len() <= 65535,
    ensures
        bytes::at16(front + prefixed(raw), front.len() as int) == raw.len(),
        (front + prefixed(raw)).skip(front.len() as int + 2) == raw,
{
    let w = front + prefixed(raw);
    let n = front.len() as int;
    assert(w.subrange(n, n + 2) == bytes::le16(raw.len() as u16));
    bytes::lemma_at16(w, n, raw.len() as u16);
    assert(w.skip(n + 2) =~= raw);
}

/// Where everything stands in the other packets of a transfer.
#[verifier::spinoff_prover]
pub proof fn law_where_a_transfer_has_its_numbers(
    xfer: u64,
    index: u32,
    data: Seq<u8>,
    state: u8,
    missing_total: u32,
    missing: Seq<u32>,
    accepted: bool,
    message: Seq<char>,
    pad_to: int,
)
    requires
        data.len() <= 32751,
        missing.len() <= 8186,
        encode_utf8(message).len() <= 65535,
    ensures
        ({
            let chunk = on_wire(Said::Chunk { xfer, index, data }, pad_to);
            let status = on_wire(Said::Status { xfer }, pad_to);
            let reply = on_wire(
                Said::StatusReply { xfer, state, missing_total, missing },
                pad_to,
            );
            let ok = on_wire(Said::ManifestOk { xfer, accepted, message }, pad_to);
            &&& ok.take(5) == seq![0x56u8, 0x56, 0x43, 0x30, 5]
            &&& ok.subrange(5, 13) == bytes::le64(xfer)
            &&& ok[13] == if accepted { 1u8 } else { 0u8 }
            &&& ok.subrange(14, 16) == bytes::le16(encode_utf8(message).len() as u16)
            &&& ok.skip(16) == encode_utf8(message)
            &&& chunk.take(5) == seq![0x56u8, 0x56, 0x43, 0x30, 6]
            &&& chunk.subrange(5, 13) == bytes::le64(xfer)
            &&& chunk.subrange(13, 17) == bytes::le32(index)
            &&& chunk.skip(17) == data
            &&& status.take(5) == seq![0x56u8, 0x56, 0x43, 0x30, 7]
            &&& status.skip(5) == bytes::le64(xfer)
            &&& reply.take(5) == seq![0x56u8, 0x56, 0x43, 0x30, 8]
            &&& reply.subrange(5, 13) == bytes::le64(xfer)
            &&& reply[13] == state
            &&& reply.subrange(14, 18) == bytes::le32(missing_total)
            &&& reply.subrange(18, 22) == bytes::le32(missing.len() as u32)
            &&& reply.len() == 22 + 4 * missing.len()
            &&& forall|i: int|
                0 <= i < missing.len() ==> reply.subrange(22 + 4 * i, 26 + 4 * i) == bytes::le32(
                    #[trigger] missing[i],
                )
        }),
{
    let chunk = on_wire(Said::Chunk { xfer, index, data }, pad_to);
    let status = on_wire(Said::Status { xfer }, pad_to);
    let reply = on_wire(Said::StatusReply { xfer, state, missing_total, missing }, pad_to);
    let ok = on_wire(Said::ManifestOk { xfer, accepted, message }, pad_to);
    assert(ok.take(5) =~= seq![0x56u8, 0x56, 0x43, 0x30, 5]);
    assert(ok.subrange(5, 13) =~= bytes::le64(xfer));
    assert(ok.subrange(14, 16) =~= bytes::le16(encode_utf8(message).len() as u16));
    assert(ok.skip(16) =~= encode_utf8(message));
    assert(chunk.take(5) =~= seq![0x56u8, 0x56, 0x43, 0x30, 6]);
    assert(chunk.subrange(5, 13) =~= bytes::le64(xfer));
    assert(chunk.subrange(13, 17) =~= bytes::le32(index));
    assert(chunk.skip(17) =~= data);
    assert(status.take(5) =~= seq![0x56u8, 0x56, 0x43, 0x30, 7]);
    assert(status.skip(5) =~= bytes::le64(xfer));
    assert(reply.take(5) =~= seq![0x56u8, 0x56, 0x43, 0x30, 8]);
    assert(reply.subrange(5, 13) =~= bytes::le64(xfer));
    assert(reply.subrange(14, 18) =~= bytes::le32(missing_total));
    assert(reply.subrange(18, 22) =~= bytes::le32(missing.len() as u32));
    assert forall|i: int| 0 <= i < missing.len() implies reply.subrange(22 + 4 * i, 26 + 4 * i)
        == bytes::le32(#[trigger] missing[i]) by {
        let part = reply.subrange(22 + 4 * i, 26 + 4 * i);
        assert forall|k: int| 0 <= k < 4 implies #[trigger] part[k] == bytes::le32(
            missing[i],
        )[k] by {
            assert((4 * i + k) / 4 == i && (4 * i + k) % 4 == k);
            assert(reply[22 + 4 * i + k] == words(missing)[4 * i + k]);
        }
        assert(part =~= bytes::le32(missing[i]));
    }
}

/// Where everything stands in a greeting and in a social message, and that a list
/// of routes is the routes one after the other, each behind its length.
#[verifier::spinoff_prover]
pub proof fn law_where_the_payload_stands(
    return_route: Seq<u8>,
    json: Seq<u8>,
    blobs: Seq<Seq<u8>>,
    last: Seq<u8>,
    pad_to: int,
)
    requires
        json.len() <= 32763,
        blobs.len() < 65535,
        last.len() <= 65535,
    ensures
        ({
            let hello = on_wire(Said::Hello { return_route }, pad_to);
            let social = on_wire(Said::Social { json }, pad_to);
            let routes = on_wire(Said::Routes { blobs }, pad_to);
            let more = on_wire(Said::Routes { blobs: blobs.push(last) }, pad_to);
            &&& hello.take(5) == seq![0x56u8, 0x56, 0x43, 0x30, 1]
            &&& hello.subrange(5, 13) == bytes::le64(return_route.len() as u64)
            &&& hello.skip(13) == return_route
            &&& social.take(5) == seq![0x56u8, 0x56, 0x43, 0x30, 10]
            &&& social.skip(5) == json
            &&& routes.take(5) == seq![0x56u8, 0x56, 0x43, 0x30, 9]
            &&& routes.subrange(5, 7) == bytes::le16(blobs.len() as u16)
            &&& blobs.len() == 0 ==> routes.len() == 7
            &&& more.subrange(5, 7) == bytes::le16((blobs.len() + 1) as u16)
            &&& more.skip(7) == routes.skip(7) + bytes::le16(last.len() as u16) + last
        }),
{
    let hello = on_wire(Said::Hello { return_route }, pad_to);
    let social = on_wire(Said::Social { json }, pad_to);
    let routes = on_wire(Said::Routes { blobs }, pad_to);
    let more = on_wire(Said::Routes { blobs: blobs.push(last) }, pad_to);
    assert(hello.take(5) =~= seq![0x56u8, 0x56, 0x43, 0x30, 1]);
    assert(hello.subrange(5, 13) =~= bytes::le64(return_route.len() as u64));
    assert(hello.skip(13) =~= return_route);
    assert(social.take(5) =~= seq![0x56u8, 0x56, 0x43, 0x30, 10]);
    assert(social.skip(5) =~= json);
    assert(routes.take(5) =~= seq![0x56u8, 0x56, 0x43, 0x30, 9]);
    assert(routes.subrange(5, 7) =~= bytes::le16(blobs.len() as u16));
    assert(more.subrange(5, 7) =~= bytes::le16((blobs.len() + 1) as u16));
    lemma_prefixed_all_push(blobs, last);
    assert(routes.skip(7) =~= prefixed_all(blobs));
    assert(more.skip(7) =~= prefixed_all(blobs) + (bytes::le16(last.len() as u16) + last));
    assert(more.skip(7) =~= routes.skip(7) + bytes::le16(last.len() as u16) + last);
}

/// What a message says depends on what stands at fixed places in it: the stamps
/// of a probe and of an echo, whatever padding follows, and the answer to a
/// manifest, which accepts with any byte but zero. A kind that is none of the ten
/// says nothing.
pub proof fn law_what_is_read_where(b: Seq<u8>)
    requires
        b.len() >= 5,
        b.take(4) == seq![0x56u8, 0x56, 0x43, 0x30],
    ensures
        b[4] == 0 || b[4] > 10 ==> heard(b) is None,
        b[4] == 2 ==> heard(b) == if b.len() >= 21 {
            Some(Said::Probe { seq: bytes::at64(b, 5), t0: bytes::at64(b, 13) })
        } else {
            None
        },
        b[4] == 3 ==> heard(b) == if b.len() >= 37 {
            Some(
                Said::Echo {
                    seq: bytes::at64(b, 5),
                    t0: bytes::at64(b, 13),
                    t1: bytes::at64(b, 21),
                    t2: bytes::at64(b, 29),
                },
            )
        } else {
            None
        },
        b[4] == 5 && heard(b) is Some ==> heard(b)->Some_0->accepted == (b[13] != 0),
        b[4] == 6 ==> heard(b) == if b.len() >= 17 {
            Some(
                Said::Chunk {
                    xfer: bytes::at64(b, 5),
                    index: bytes::at32(b, 13),
                    data: b.subrange(17, b.len() as int),
                },
            )
        } else {
            None
        },
        b[4] == 7 ==> heard(b) == if b.len() >= 13 {
            Some(Said::Status { xfer: bytes::at64(b, 5) })
        } else {
            None
        },
        b[4] == 10 ==> heard(b) == Some(Said::Social { json: b.subrange(5, b.len() as int) }),
{
    assert(MAGIC@ =~= seq![0x56u8, 0x56, 0x43, 0x30]);
    if b.len() >= 17 {
        assert(b.skip(17) =~= b.subrange(17, b.len() as int));
    }
    assert(b.skip(5) =~= b.subrange(5, b.len() as int));
}

} // verus!
