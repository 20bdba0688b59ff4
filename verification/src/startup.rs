//! What is settled before a role starts: where its routes come from, how many it
//! keeps, and whether a node that would not start is worth waiting for.

use vstd::prelude::*;

use crate::blob;
use crate::blob::decode_blob;
use crate::sender::RouteSource;
use crate::text;
use crate::text::chars_of;

verus! {

/// How often the node is started before it is given up.
pub const START_ATTEMPTS: u32 = 15;

/// How long to wait between two starts.
pub const START_PAUSE_MS: u64 = 700;

/// The most routes that are kept published at once.
pub const MAX_POOL: usize = 8;

/// How much is logged.
#[derive(Clone, Copy, Debug, PartialEq, Eq, Structural)]
pub enum Verbosity {
    Warn,
    Info,
    Debug,
    Trace,
}

/// How much is logged when it was asked for more so many times.
pub fn verbosity(asked: u8) -> (r: Verbosity)
    ensures
        r == (if asked == 0 {
            Verbosity::Warn
        } else if asked == 1 {
            Verbosity::Info
        } else if asked == 2 {
            Verbosity::Debug
        } else {
            Verbosity::Trace
        }),
{
    if asked == 0 {
        Verbosity::Warn
    } else if asked == 1 {
        Verbosity::Info
    } else if asked == 2 {
        Verbosity::Debug
    } else {
        Verbosity::Trace
    }
}

/// How many routes are kept published when `requested` are asked for.
pub fn pool_size(requested: usize) -> (r: usize)
    ensures
        r == (if requested < 1 {
            1
        } else if requested > MAX_POOL {
            MAX_POOL
        } else {
            requested
        }),
        1 <= requested <= 8 ==> r == requested,
        requested == 0 ==> r == 1,
        requested > 8 ==> r == 8,
{
    if requested < 1 {
        1
    } else if requested > MAX_POOL {
        MAX_POOL
    } else {
        requested
    }
}

/// Settle where the sender gets the receiver's route from. A rendezvous key
/// counts for more than a blob.
pub fn route_source(connect: &Option<String>, rendezvous: Option<String>) -> (r: Result<
    RouteSource,
    String,
>)
    ensures
        match (*connect, rendezvous) {
            (_, Some(key)) => r matches Ok(RouteSource::Rendezvous(k)) && k == key,
            (Some(pasted), None) => match blob::read_blob(pasted@) {
                Ok(data) => r matches Ok(RouteSource::Blob(b)) && b@ == data,
                Err(why) => r matches Err(e) && e@ == why,
            },
            (None, None) => r matches Err(e) && e@ == "need --connect or --rendezvous"@,
        },
{
    match (connect, rendezvous) {
        (_, Some(key)) => Ok(RouteSource::Rendezvous(key)),
        (Some(pasted), None) => match decode_blob(pasted.as_str()) {
            Ok(data) => Ok(RouteSource::Blob(data)),
            Err(why) => Err(why),
        },
        (None, None) => Err("need --connect or --rendezvous".to_owned()),
    }
}

/// Whether `part` stands at `at` in `s`.
pub open spec fn stands_at(s: Seq<char>, part: Seq<char>, at: int) -> bool {
    0 <= at && at + part.len() <= s.len() && s.subrange(at, at + part.len()) == part
}

/// Whether `part` stands anywhere in `s`.
pub open spec fn mentions(s: Seq<char>, part: Seq<char>) -> bool {
    exists|at: int| stands_at(s, part, at)
}

/// Whether `part` stands anywhere in `s`.
fn mentioned(s: &str, part: &str) -> (r: bool)
    ensures
        r == mentions(s@, part@),
{
    let a = chars_of(s);
    let b = chars_of(part);
    let n: usize = a.len();
    let m: usize = b.len();
    if m > n {
        return false;
    }
    let mut i: usize = 0;
    while i <= n - m
        invariant
            n == a@.len(),
            m == b@.len(),
            m <= n,
            i <= n - m + 1,
            a@ == s@,
            b@ == part@,
            forall|at: int| 0 <= at < i ==> !stands_at(s@, part@, at),
        decreases n - m + 1 - i,
    {
        let mut j: usize = 0;
        while j < m && a[i + j] == b[j]
            invariant
                n == a@.len(),
                m == b@.len(),
                m <= n,
                i <= n - m,
                j <= m,
                forall|k: int| 0 <= k < j ==> a@[i + k] == b@[k],
            decreases m - j,
        {
            j = j + 1;
        }
        if j == m {
            assert(s@.subrange(i as int, i + part@.len()) == part@);
            assert(stands_at(s@, part@, i as int));
            return true;
        }
        proof {
            if stands_at(s@, part@, i as int) {
                assert(s@.subrange(i as int, i + part@.len())[j as int] == part@[j as int]);
            }
        }
        i = i + 1;
    }
    false
}

/// What to do about a node that would not start.
pub enum Startup {
    /// The failure is the answer.
    Fail,
    /// Somebody else holds the keyring and does not let go.
    GiveUp(String),
    /// Show this, wait, and try again.
    Wait(String),
}

/// What is said when the keyring is held for too long.
pub open spec fn busy_text(namespace: Seq<char>) -> Seq<char> {
    let s = Seq::<char>::empty()
        + "could not open the protected store for `"@
        + namespace
        + "`. Another `veilid-vc "@
        + namespace
        + "` is probably still running -- each subcommand keeps its own keyring, so two of the same one collide. Find it with `ps -eo pid,args | grep veilid-vc` and stop it with `kill -INT <pid>`."@;
    s
}

/// What is shown while the keyring is waited for.
pub open spec fn keyring_text(namespace: Seq<char>, waited: bool) -> Seq<char> {
    if waited {
        "."@
    } else {
        let s = Seq::<char>::empty()
            + "Waiting for the previous "@
            + namespace
            + " node to release its keyring..."@;
        s
    }
}

/// Decide what to do about a node that would not start. A keyring that is held
/// by a node that was just stopped is worth waiting for; nothing else is.
pub fn after_failed_start(
    namespace: &str,
    problem: &str,
    attempt: u32,
    waited: bool,
) -> (r: Startup)
    ensures
        if !mentions(problem@, "keyring"@) {
            r is Fail
        } else if attempt >= START_ATTEMPTS {
            r matches Startup::GiveUp(why) && why@ == busy_text(namespace@)
        } else {
            r matches Startup::Wait(note) && note@ == keyring_text(namespace@, waited)
        },
        r is Fail <==> !mentions(problem@, "keyring"@),
        r is Wait <==> mentions(problem@, "keyring"@) && attempt < 15,
{
    if !mentioned(problem, "keyring") {
        Startup::Fail
    } else if attempt >= START_ATTEMPTS {
        let mut out = String::new();
        out.append("could not open the protected store for `");
        out.append(namespace);
        out.append("`. Another `veilid-vc ");
        out.append(namespace);
        out.append("` is probably still running -- each subcommand keeps its own keyring, so two of the same one collide. Find it with `ps -eo pid,args | grep veilid-vc` and stop it with `kill -INT <pid>`.");
        Startup::GiveUp(out)
    } else if waited {
        Startup::Wait(".".to_owned())
    } else {
        let mut out = String::new();
        out.append("Waiting for the previous ");
        out.append(namespace);
        out.append(" node to release its keyring...");
        Startup::Wait(out)
    }
}

/// A text is mentioned wherever it stands, and only where it stands.
pub proof fn law_what_stands_somewhere_is_mentioned(
    front: Seq<char>,
    part: Seq<char>,
    back: Seq<char>,
    s: Seq<char>,
)
    ensures
        mentions(front + part + back, part),
        mentions(s, part) ==> part.len() <= s.len(),
        mentions(s, part) ==> exists|at: int|
            0 <= at && at + part.len() <= s.len() && #[trigger] s.subrange(at, at + part.len())
                == part,
{
    let t = front + part + back;
    let n = front.len() as int;
    assert(t.subrange(n, n + part.len()) =~= part);
    assert(stands_at(t, part, n));
}

/// The keyring that is waited for is named once, and each time after that there is
/// a dot.
pub proof fn law_the_keyring_is_named_once(namespace: Seq<char>)
    ensures
        keyring_text(namespace, false) == "Waiting for the previous "@ + namespace
            + " node to release its keyring..."@,
        keyring_text(namespace, true) == "."@,
{
    assert(keyring_text(namespace, false) =~= "Waiting for the previous "@ + namespace
        + " node to release its keyring..."@);
}

/// How long a node that will not start is waited for: fifteen starts, with 700 ms
/// between them.
pub proof fn law_how_long_a_start_is_waited_for()
    ensures
        START_ATTEMPTS == 15,
        START_PAUSE_MS == 700,
{
}

} // verus!
