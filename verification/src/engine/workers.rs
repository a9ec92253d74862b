//! Errors of the engine's API, the runs handed to workers, and the status
//! of connected workers.

use vstd::prelude::*;
use crate::json::{key_less, key_lt};
use crate::text::{decimal_i64, push_str, signed_decimal, str_eq};

verus! {

/// How recently (seconds) a worker must have been seen to count as online:
/// a few of its poll cycles.
pub const WORKER_ONLINE_WITHIN_SECS: i64 = 15;

/// A worker unseen for this many seconds is dropped from the registry.
pub const WORKER_STALE_AFTER_SECS: i64 = 90;

/// Errors returned by the engine's API.
#[derive(Debug)]
pub enum EngineError {
    /// No flow with this id exists.
    UnknownFlow(String),
    /// No run with this id exists.
    UnknownRun(i64),
    /// Provided inputs failed validation, one message per problem.
    InvalidInput(Vec<String>),
    /// The run is not `queued` (already started, finished, or active).
    NotQueued(i64),
    /// A stored flow definition failed to parse.
    BadDefinition(String),
    /// Database failure, with its message.
    Db(String),
    /// Secret store failure, with its message.
    Secrets(String),
}

/// Messages joined with `sep` between them.
pub open spec fn joined(items: Seq<Seq<char>>, sep: Seq<char>) -> Seq<char>
    decreases items.len(),
{
    if items.len() == 0 {
        seq![]
    } else if items.len() == 1 {
        items[0]
    } else {
        joined(items.drop_last(), sep) + sep + items.last()
    }
}

/// Strings as sequences.
pub open spec fn texts(v: Seq<String>) -> Seq<Seq<char>> {
    v.map_values(|x: String| x@)
}

/// The message of an engine error.
pub open spec fn engine_error_text(e: EngineError) -> Seq<char> {
    match e {
        EngineError::UnknownFlow(id) => "unknown flow \""@ + id@ + "\""@,
        EngineError::UnknownRun(id) => "unknown run "@ + signed_decimal(id as int),
        EngineError::InvalidInput(errors) => "invalid inputs: "@ + joined(texts(errors@), "; "@),
        EngineError::NotQueued(id) => "run "@ + signed_decimal(id as int) + " is not queued"@,
        EngineError::BadDefinition(m) => "bad flow definition: "@ + m@,
        EngineError::Db(m) => "database error: "@ + m@,
        EngineError::Secrets(m) => "secrets error: "@ + m@,
    }
}

impl EngineError {
    /// The error's message.
    pub fn to_string(&self) -> (s: String)
        ensures
            s@ == engine_error_text(*self),
    {
        let mut s = String::new();
        match self {
            EngineError::UnknownFlow(id) => {
                push_str(&mut s, "unknown flow \"");
                push_str(&mut s, id.as_str());
                push_str(&mut s, "\"");
            },
            EngineError::UnknownRun(id) => {
                push_str(&mut s, "unknown run ");
                push_str(&mut s, decimal_i64(*id).as_str());
            },
            EngineError::InvalidInput(errors) => {
                push_str(&mut s, "invalid inputs: ");
                let ghost base = s@;
                let mut i: usize = 0;
                while i < errors.len()
                    invariant
                        i <= errors@.len(),
                        s@ == base + joined(texts(errors@).take(i as int), "; "@),
                    decreases errors@.len() - i,
                {
                    proof {
                        assert(texts(errors@).take(i + 1).drop_last() =~= texts(errors@).take(i as int));
                        assert(texts(errors@).take(i + 1).last() == errors@[i as int]@);
                    }
                    if i > 0 {
                        push_str(&mut s, "; ");
                    } else {
                        assert(texts(errors@).take(1) =~= seq![errors@[0]@]);
                    }
                    push_str(&mut s, errors[i].as_str());
                    i = i + 1;
                }
                proof {
                    assert(texts(errors@).take(errors@.len() as int) =~= texts(errors@));
                }
            },
            EngineError::NotQueued(id) => {
                push_str(&mut s, "run ");
                push_str(&mut s, decimal_i64(*id).as_str());
                push_str(&mut s, " is not queued");
            },
            EngineError::BadDefinition(m) => {
                push_str(&mut s, "bad flow definition: ");
                push_str(&mut s, m.as_str());
            },
            EngineError::Db(m) => {
                push_str(&mut s, "database error: ");
                push_str(&mut s, m.as_str());
            },
            EngineError::Secrets(m) => {
                push_str(&mut s, "secrets error: ");
                push_str(&mut s, m.as_str());
            },
        }
        s
    }
}

/// A run handed to a worker: everything its engine needs to run the flow
/// (the definition and inputs travel; secrets do not).
#[derive(Debug, Clone, PartialEq, Eq)]
pub struct Assignment {
    /// The server's run id; every reported update is tagged with it.
    pub run_id: i64,
    pub flow_id: String,
    pub flow_rev: i64,
    pub trigger: String,
    pub queue: String,
    /// The run's stored inputs (JSON object text).
    pub inputs: String,
    /// The flow definition JSON the run executes against.
    pub definition: String,
}

/// A worker's status: what the registry knows of it, its in-flight count,
/// and whether it was seen recently.
#[derive(Debug, Clone)]
pub struct WorkerStatus {
    pub worker_id: String,
    pub queues: Vec<String>,
    pub capacity: u32,
    /// Runs the worker holds (`leased`/`running`).
    pub in_flight: u64,
    /// RFC 3339 time of its last claim or heartbeat.
    pub last_seen: String,
    /// Seen within [`WORKER_ONLINE_WITHIN_SECS`].
    pub online: bool,
}

/// Whether a worker last seen `age` seconds ago counts as online.
pub fn is_online(age: i64) -> (b: bool)
    ensures
        b == (age < WORKER_ONLINE_WITHIN_SECS),
{
    age < WORKER_ONLINE_WITHIN_SECS
}

/// Whether a worker last seen `age` seconds ago stays in the registry.
pub fn is_fresh(age: i64) -> (b: bool)
    ensures
        b == (age < WORKER_STALE_AFTER_SECS),
{
    age < WORKER_STALE_AFTER_SECS
}

/// The worker ids of statuses.
pub open spec fn ids(v: Seq<WorkerStatus>) -> Seq<Seq<char>> {
    v.map_values(|w: WorkerStatus| w.worker_id@)
}

/// Whether worker ids are in order (each not after the next).
pub open spec fn sorted_ids(v: Seq<WorkerStatus>) -> bool {
    forall|i: int, j: int| 0 <= i < j < v.len() ==> !key_lt(#[trigger] v[j].worker_id@, #[trigger] v[i].worker_id@)
}

proof fn lemma_key_lt_irreflexive(a: Seq<char>)
    ensures
        !key_lt(a, a),
    decreases a.len(),
{
    if a.len() > 0 {
        lemma_key_lt_irreflexive(a.drop_first());
    }
}

proof fn lemma_key_lt_total(a: Seq<char>, b: Seq<char>)
    ensures
        a != b ==> key_lt(a, b) || key_lt(b, a),
        !(key_lt(a, b) && key_lt(b, a)),
        !key_lt(a, a),
    decreases a.len(),
{
    lemma_key_lt_irreflexive(a);
    if a.len() > 0 && b.len() > 0 && a[0] == b[0] {
        lemma_key_lt_total(a.drop_first(), b.drop_first());
        if a != b {
            assert(a =~= seq![a[0]] + a.drop_first());
            assert(b =~= seq![b[0]] + b.drop_first());
        }
    } else if a.len() == 0 && b.len() == 0 {
        assert(a =~= b);
    }
}

proof fn lemma_key_lt_trans(a: Seq<char>, b: Seq<char>, c: Seq<char>)
    requires
        !key_lt(b, a),
        !key_lt(c, b),
    ensures
        !key_lt(c, a),
    decreases a.len(),
{
    lemma_key_lt_total(a, b);
    lemma_key_lt_total(b, c);
    lemma_key_lt_total(a, c);
    if a.len() > 0 && b.len() > 0 && c.len() > 0 && a[0] == b[0] && b[0] == c[0] {
        lemma_key_lt_trans(a.drop_first(), b.drop_first(), c.drop_first());
    }
}

/// Sorts statuses by worker id, keeping the relative order of equal ids.
pub fn sort_by_worker_id(v: Vec<WorkerStatus>) -> (r: Vec<WorkerStatus>)
    ensures
        r@.to_multiset() == v@.to_multiset(),
        sorted_ids(r@),
{
    broadcast use vstd::seq_lib::group_to_multiset_ensures, vstd::multiset::group_multiset_axioms;
    let mut r: Vec<WorkerStatus> = Vec::new();
    let mut v = v;
    let ghost all = v@.to_multiset();
    proof {
        assert(r@.to_multiset().add(v@.to_multiset()) =~= all);
    }
    while v.len() > 0
        invariant
            r@.to_multiset().add(v@.to_multiset()) == all,
            sorted_ids(r@),
        decreases v@.len(),
    {
        let ghost v0 = v@;
        let w = v.remove(0);
        proof {
            assert(v0.remove(0) == v@);
            assert(v0[0] == w);
            vstd::seq_lib::to_multiset_remove(v0, 0);
        }
        let mut i: usize = r.len();
        while i > 0 && key_less(w.worker_id.as_str(), r[i - 1].worker_id.as_str())
            invariant
                i <= r@.len(),
                forall|k: int| i <= k < r@.len() ==> key_lt(w.worker_id@, #[trigger] r@[k].worker_id@),
            decreases i,
        {
            i = i - 1;
        }
        let ghost before = r@;
        r.insert(i, w);
        proof {
            assert(r@ == before.insert(i as int, w));
            vstd::seq_lib::to_multiset_insert(before, i as int, w);
            assert(v0[0] == w);
            assert(v0.contains(w));
            vstd::seq_lib::to_multiset_contains(v0, w);
            assert(v0.to_multiset().contains(w));
            assert(r@.to_multiset().add(v@.to_multiset()) =~= all);
            assert forall|a: int, b: int| 0 <= a < b < r@.len() implies !key_lt(#[trigger] r@[b].worker_id@, #[trigger] r@[a].worker_id@) by {
                if b < i {
                    assert(r@[a] == before[a] && r@[b] == before[b]);
                } else if a > i {
                    assert(r@[a] == before[a - 1] && r@[b] == before[b - 1]);
                } else if a < i && b > i {
                    assert(r@[a] == before[a] && r@[b] == before[b - 1]);
                } else if a == i {
                    assert(r@[b] == before[b - 1]);
                    lemma_key_lt_total(w.worker_id@, before[b - 1].worker_id@);
                } else {
                    assert(b == i && a < i);
                    assert(r@[a] == before[a]);
                    assert(!key_lt(w.worker_id@, before[i - 1].worker_id@));
                    if a < i - 1 {
                        lemma_key_lt_trans(before[a].worker_id@, before[i - 1].worker_id@, w.worker_id@);
                    }
                }
            }
        }
    }
    proof {
        assert(v@.to_multiset() =~= vstd::multiset::Multiset::empty());
        assert(r@.to_multiset() =~= all);
    }
    r
}

#[verifier::external_type_specification]
#[verifier::external_body]
pub struct ExPathBuf(std::path::PathBuf);

/// How a worker is set up: the server it dials, its credentials and
/// identity, the queues it serves, its capacity, and its local files.
#[derive(Debug)]
pub struct WorkerConfig {
    /// Control-plane base URL, e.g. `http://127.0.0.1:4400`.
    pub server_url: String,
    /// Bearer token presented on every request.
    pub token: String,
    /// Stable id identifying the worker to the server (lease owner).
    pub worker_id: String,
    /// Queues the worker serves.
    pub queues: Vec<String>,
    /// Maximum runs executed concurrently.
    pub capacity: u32,
    /// Scratch database path.
    pub db_path: std::path::PathBuf,
    /// The worker's own secrets key file.
    pub key_path: std::path::PathBuf,
    /// Directory of external plugin bundles.
    pub plugins_dir: std::path::PathBuf,
}


/// Which of a remote run's updates are applied: each carries a sequence
/// number, and one is applied only when its number is above every number
/// applied before, so a replayed or stale update changes nothing.
#[derive(Debug, Clone, Copy, PartialEq, Eq, Structural)]
pub struct ReplayGuard {
    /// The number of the last update applied; 0 before any.
    pub last_seq: i64,
}

impl ReplayGuard {
    /// A run that has applied no update yet.
    pub fn new() -> (g: ReplayGuard)
        ensures
            g.last_seq == 0,
    {
        ReplayGuard { last_seq: 0 }
    }

    /// Decides whether the update numbered `seq` is applied, and records it
    /// when it is.
    pub fn accept(&mut self, seq: i64) -> (applied: bool)
        ensures
            applied == (old(self).last_seq < seq),
            final(self).last_seq == (if applied { seq } else { old(self).last_seq }),
    {
        if self.last_seq < seq {
            self.last_seq = seq;
            true
        } else {
            false
        }
    }
}

/// Feeding updates numbered `seqs` to a guard that last applied `last`: the
/// number it ends with, and the numbers applied, in order.
pub open spec fn replayed(last: i64, seqs: Seq<i64>) -> (i64, Seq<i64>)
    decreases seqs.len(),
{
    if seqs.len() == 0 {
        (last, seq![])
    } else {
        let (l, applied) = replayed(last, seqs.drop_last());
        if l < seqs.last() {
            (seqs.last(), applied.push(seqs.last()))
        } else {
            (l, applied)
        }
    }
}

/// However updates arrive (repeated, out of order), the ones applied have
/// strictly increasing numbers above the starting one, so none is applied
/// twice, and the guard ends at the last one applied.
pub proof fn lemma_replay_applies_once(last: i64, seqs: Seq<i64>)
    ensures
        forall|i: int, j: int| 0 <= i < j < replayed(last, seqs).1.len()
            ==> #[trigger] replayed(last, seqs).1[i] < #[trigger] replayed(last, seqs).1[j],
        forall|i: int| 0 <= i < replayed(last, seqs).1.len() ==> last < #[trigger] replayed(last, seqs).1[i],
        replayed(last, seqs).1.len() == 0 ==> replayed(last, seqs).0 == last,
        replayed(last, seqs).1.len() > 0 ==> replayed(last, seqs).0 == replayed(last, seqs).1.last(),
    decreases seqs.len(),
{
    if seqs.len() > 0 {
        lemma_replay_applies_once(last, seqs.drop_last());
    }
}

/// Whether a run status ends the run.
pub open spec fn terminal_status(status: Seq<char>) -> bool {
    status == "success"@ || status == "failed"@ || status == "canceled"@
}

/// Whether a run status ends the run (and with it the run's live channel).
pub fn is_terminal_status(status: &str) -> (b: bool)
    ensures
        b == terminal_status(status@),
{
    str_eq(status, "success") || str_eq(status, "failed") || str_eq(status, "canceled")
}
} // verus!
