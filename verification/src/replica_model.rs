//! The replica side of a node as a mathematical model: what a replica
//! knows of each transaction, and how each message changes it.
use crate::protocol::{Accept, AccordError, Apply, Commit, KeyWrite, PreAccept, Read, TxKind};
use crate::timestamp::{Key, NodeId, Timestamp, TxId};
use vstd::prelude::*;

verus! {

/// How far a transaction has come on a replica.
#[derive(Clone, Copy, Debug, PartialEq, Eq, Structural)]
pub enum TxStatus {
    PreAccepted,
    Accepted,
    Committed,
    Applied,
}

impl TxStatus {
    /// The position of the status in the lifecycle.
    pub open spec fn rank(self) -> int {
        match self {
            TxStatus::PreAccepted => 0,
            TxStatus::Accepted => 1,
            TxStatus::Committed => 2,
            TxStatus::Applied => 3,
        }
    }

    /// Whether the status is `other` or a later one.
    pub fn at_least(&self, other: TxStatus) -> (r: bool)
        ensures
            r == (self.rank() >= other.rank()),
    {
        match (*self, other) {
            (_, TxStatus::PreAccepted) => true,
            (TxStatus::PreAccepted, _) => false,
            (_, TxStatus::Accepted) => true,
            (TxStatus::Accepted, _) => false,
            (_, TxStatus::Committed) => true,
            (TxStatus::Committed, _) => false,
            (TxStatus::Applied, TxStatus::Applied) => true,
        }
    }
}

/// One record of the log: a transaction reached a status.
#[derive(Clone, Copy, Debug, PartialEq, Eq, Structural)]
pub struct LogEntry {
    pub id: TxId,
    pub status: TxStatus,
}

/// A piece of work that waits for its dependencies: the read or the apply
/// of one transaction.
#[derive(Clone, Copy, Debug, PartialEq, Eq, Structural)]
pub struct Task {
    pub id: TxId,
    pub apply: bool,
}

/// What a replica holds of one transaction.
pub struct RecordView {
    pub keys: Seq<Key>,
    pub kind: TxKind,
    pub t0: Timestamp,
    pub tx: Timestamp,
    pub deps: Set<TxId>,
    pub status: TxStatus,
    /// The keys of a read request that has not been executed yet.
    pub read_keys: Option<Seq<Key>>,
    /// The writes of the apply request, once one has arrived; they stay
    /// when they are applied.
    pub apply_writes: Option<Seq<KeyWrite>>,
}

/// What the log holds with an entry: what the transaction's record took
/// on with the status.
pub enum LogPayloadView {
    /// With `PreAccepted`: the proposal and how it was witnessed.
    Proposal { keys: Seq<Key>, kind: TxKind, t0: Timestamp, tx: Timestamp, deps: Set<TxId> },
    /// With `Accepted` and `Committed`: the coordinator's choice.
    Choice { tx: Timestamp, deps: Set<TxId> },
    /// With `Applied`: the writes that were applied.
    Writes { writes: Seq<KeyWrite> },
}

/// The state of a replica.
pub struct ReplicaView {
    pub node: NodeId,
    pub clock: u64,
    pub records: Map<TxId, RecordView>,
    /// The status that each transaction reached, in the order in which it
    /// happened, as far as this replica logged it.
    pub log: Seq<LogEntry>,
    /// The payload of each entry of the log, entry by entry.
    pub payloads: Seq<LogPayloadView>,
}

/// Two key lists have a key in common.
pub open spec fn keys_overlap(a: Seq<Key>, b: Seq<Key>) -> bool {
    exists|k: Key| a.contains(k) && b.contains(k)
}

/// Two transactions on a common key must be ordered: unless both only read.
pub open spec fn kinds_conflict(a: TxKind, b: TxKind) -> bool {
    a == TxKind::Write || b == TxKind::Write
}

/// The log holds the entry `(id, status)` at a position below `before`.
pub open spec fn logged(log: Seq<LogEntry>, id: TxId, status: TxStatus, before: int) -> bool {
    exists|i: int| 0 <= i < before && i < log.len() && #[trigger] log[i] == (LogEntry { id, status })
}

/// A recorded transaction must be ordered before one on `keys` of kind
/// `kind` that is timed at `tx`: they share a key, not both only read, and
/// the recorded one is timed earlier.
pub open spec fn conflicts_before(r: RecordView, keys: Seq<Key>, kind: TxKind, tx: Timestamp) -> bool {
    keys_overlap(r.keys, keys) && kinds_conflict(r.kind, kind) && r.tx.spec_lt(tx)
}

impl ReplicaView {
    /// A replica that has seen nothing.
    pub open spec fn init(node: NodeId) -> ReplicaView {
        ReplicaView {
            node,
            clock: 0,
            records: Map::empty(),
            log: Seq::empty(),
            payloads: Seq::empty(),
        }
    }

    /// The logical time after the clock's, as far as the machine counts.
    pub open spec fn next_logical(self) -> u64 {
        if self.clock < u64::MAX {
            (self.clock + 1) as u64
        } else {
            u64::MAX
        }
    }

    /// The time at which the replica witnesses a transaction born at `t0`:
    /// the later of `t0` and the tick after the local clock.
    pub open spec fn witness(self, t0: Timestamp) -> Timestamp {
        Timestamp {
            logical: if t0.logical >= self.next_logical() {
                t0.logical
            } else {
                self.next_logical()
            },
            node: t0.node,
        }
    }

    /// The recorded transactions that conflict with one on `keys` of kind
    /// `kind` and are timed before `tx`.
    pub open spec fn deps_before(self, keys: Seq<Key>, kind: TxKind, tx: Timestamp) -> Set<TxId> {
        Set::new(
            |u: TxId|
                self.records.contains_key(u) && conflicts_before(self.records[u], keys, kind, tx),
        )
    }

    /// The state after a proposal: a transaction seen for the first time is
    /// witnessed and recorded; one that is already recorded changes nothing.
    pub open spec fn preaccept(self, msg: PreAccept) -> ReplicaView {
        if self.records.contains_key(msg.id) {
            self
        } else {
            let tx = self.witness(msg.t0);
            ReplicaView {
                node: self.node,
                clock: tx.logical,
                records: self.records.insert(
                    msg.id,
                    RecordView {
                        keys: msg.keys@,
                        kind: msg.kind,
                        t0: msg.t0,
                        tx,
                        deps: self.deps_before(msg.keys@, msg.kind, tx),
                        status: TxStatus::PreAccepted,
                        read_keys: None,
                        apply_writes: None,
                    },
                ),
                log: self.log.push(LogEntry { id: msg.id, status: TxStatus::PreAccepted }),
                payloads: self.payloads.push(
                    LogPayloadView::Proposal {
                        keys: msg.keys@,
                        kind: msg.kind,
                        t0: msg.t0,
                        tx,
                        deps: self.deps_before(msg.keys@, msg.kind, tx),
                    },
                ),
            }
        }
    }

    /// Whether an `Accept` changes the record of its transaction: the
    /// transaction is recorded, not yet committed, and the chosen time is
    /// not before its birth.
    pub open spec fn accepts(self, msg: Accept) -> bool {
        &&& self.records.contains_key(msg.id)
        &&& self.records[msg.id].status.rank() < TxStatus::Committed.rank()
        &&& self.records[msg.id].t0.spec_le(msg.tx)
    }

    /// The state after an `Accept`.
    pub open spec fn accept(self, msg: Accept) -> ReplicaView {
        if self.accepts(msg) {
            let rec = self.records[msg.id];
            ReplicaView {
                node: self.node,
                clock: self.clock,
                records: self.records.insert(
                    msg.id,
                    RecordView { tx: msg.tx, deps: msg.deps@, status: TxStatus::Accepted, ..rec },
                ),
                log: if rec.status == TxStatus::PreAccepted {
                    self.log.push(LogEntry { id: msg.id, status: TxStatus::Accepted })
                } else {
                    self.log
                },
                payloads: if rec.status == TxStatus::PreAccepted {
                    self.payloads.push(LogPayloadView::Choice { tx: msg.tx, deps: msg.deps@ })
                } else {
                    self.payloads
                },
            }
        } else {
            self
        }
    }

    /// What a `Commit` meets: an unknown transaction is a protocol error; a
    /// committed one must be committed to the same time and dependencies;
    /// the time must not be before the transaction's birth.
    pub open spec fn commit_outcome(self, msg: Commit) -> Result<(), AccordError> {
        if !self.records.contains_key(msg.id) {
            Err(AccordError::Protocol)
        } else if self.records[msg.id].status.rank() >= TxStatus::Committed.rank() {
            if self.records[msg.id].tx == msg.tx && self.records[msg.id].deps == msg.deps@ {
                Ok(())
            } else {
                Err(AccordError::Internal)
            }
        } else if !self.records[msg.id].t0.spec_le(msg.tx) {
            Err(AccordError::Internal)
        } else {
            Ok(())
        }
    }

    /// The state after a `Commit`.
    pub open spec fn commit(self, msg: Commit) -> ReplicaView {
        if self.commit_outcome(msg) is Ok && self.records[msg.id].status.rank()
            < TxStatus::Committed.rank() {
            let rec = self.records[msg.id];
            ReplicaView {
                node: self.node,
                clock: self.clock,
                records: self.records.insert(
                    msg.id,
                    RecordView { tx: msg.tx, deps: msg.deps@, status: TxStatus::Committed, ..rec },
                ),
                log: self.log.push(LogEntry { id: msg.id, status: TxStatus::Committed }),
                payloads: self.payloads.push(LogPayloadView::Choice { tx: msg.tx, deps: msg.deps@ }),
            }
        } else {
            self
        }
    }

    /// The replica holds transaction `id` as committed (or applied) at time
    /// `tx` with dependencies `deps`.
    pub open spec fn holds_committed(self, id: TxId, tx: Timestamp, deps: Set<TxId>) -> bool {
        &&& self.records.contains_key(id)
        &&& self.records[id].status.rank() >= TxStatus::Committed.rank()
        &&& self.records[id].tx == tx
        &&& self.records[id].deps == deps
    }

    /// The state once a read request is noted in the transaction's record.
    pub open spec fn defer_read(self, msg: Read) -> ReplicaView {
        if self.holds_committed(msg.id, msg.tx, msg.deps@) {
            let rec = self.records[msg.id];
            ReplicaView {
                records: self.records.insert(
                    msg.id,
                    RecordView { read_keys: Some(msg.keys@), ..rec },
                ),
                ..self
            }
        } else {
            self
        }
    }

    /// The state once an apply request is noted in the transaction's
    /// record; a transaction that is applied already takes no note.
    pub open spec fn defer_apply(self, msg: Apply) -> ReplicaView {
        if self.holds_committed(msg.id, msg.tx, msg.deps@) && self.records[msg.id].status
            == TxStatus::Committed {
            let rec = self.records[msg.id];
            ReplicaView {
                records: self.records.insert(
                    msg.id,
                    RecordView { apply_writes: Some(msg.writes@), ..rec },
                ),
                ..self
            }
        } else {
            self
        }
    }

    /// Every transaction of `deps` is recorded with `status` or a later one.
    pub open spec fn deps_at_least(self, deps: Set<TxId>, status: TxStatus) -> bool {
        forall|u: TxId|
            deps.contains(u) ==> self.records.contains_key(u) && (#[trigger] self.records[u]).status.rank()
                >= status.rank()
    }

    /// Whether a task can run now. A read runs once every dependency is
    /// committed; an apply once every dependency is applied.
    pub open spec fn ready(self, t: Task) -> bool {
        &&& self.records.contains_key(t.id)
        &&& if t.apply {
            &&& self.records[t.id].apply_writes is Some
            &&& self.records[t.id].status == TxStatus::Committed
            &&& self.deps_at_least(self.records[t.id].deps, TxStatus::Applied)
        } else {
            &&& self.records[t.id].read_keys is Some
            &&& self.records[t.id].status.rank() >= TxStatus::Committed.rank()
            &&& self.deps_at_least(self.records[t.id].deps, TxStatus::Committed)
        }
    }

    /// The order in which tasks that are ready run: by execution time, then
    /// by transaction, a read before an apply.
    pub open spec fn task_le(self, a: Task, b: Task) -> bool {
        let ta = self.records[a.id].tx;
        let tb = self.records[b.id].tx;
        ta.spec_lt(tb) || (ta == tb && (a.id.spec_lt(b.id) || (a.id == b.id && (!a.apply
            || b.apply))))
    }

    /// `a` runs strictly before `b`.
    pub open spec fn task_lt(self, a: Task, b: Task) -> bool {
        let ta = self.records[a.id].tx;
        let tb = self.records[b.id].tx;
        ta.spec_lt(tb) || (ta == tb && (a.id.spec_lt(b.id) || (a.id == b.id && !a.apply
            && b.apply)))
    }

    /// `t` is the first of the tasks that are ready.
    pub open spec fn is_next(self, t: Task) -> bool {
        self.ready(t) && forall|o: Task| #[trigger] self.ready(o) ==> self.task_le(t, o)
    }

    /// The task to run next, if any is ready.
    pub open spec fn next_ready(self) -> Option<Task> {
        if exists|t: Task| self.is_next(t) {
            Some(choose|t: Task| self.is_next(t))
        } else {
            None
        }
    }

    /// The state after task `t` has run successfully: a read is no longer
    /// noted; an applied transaction is `Applied` and logged.
    pub open spec fn complete(self, t: Task) -> ReplicaView {
        let rec = self.records[t.id];
        if t.apply {
            ReplicaView {
                node: self.node,
                clock: self.clock,
                records: self.records.insert(
                    t.id,
                    RecordView { status: TxStatus::Applied, ..rec },
                ),
                log: self.log.push(LogEntry { id: t.id, status: TxStatus::Applied }),
                payloads: self.payloads.push(
                    LogPayloadView::Writes {
                        writes: match rec.apply_writes {
                            Some(w) => w,
                            None => Seq::empty(),
                        },
                    },
                ),
            }
        } else {
            ReplicaView {
                records: self.records.insert(t.id, RecordView { read_keys: None, ..rec }),
                ..self
            }
        }
    }

    /// The state after the first `n` tasks have run, each the next that was
    /// ready when its turn came.
    pub open spec fn advance(self, n: nat) -> ReplicaView
        decreases n,
    {
        if n == 0 {
            self
        } else {
            let before = self.advance((n - 1) as nat);
            match before.next_ready() {
                Some(t) => before.complete(t),
                None => before,
            }
        }
    }

    /// No task is ready.
    pub open spec fn idle(self) -> bool {
        forall|t: Task| !self.ready(t)
    }

    /// What holds of every state that a replica reaches.
    pub open spec fn inv(self) -> bool {
        &&& forall|id: TxId| #[trigger]
            self.records.contains_key(id) ==> {
                &&& self.records[id].t0.spec_le(self.records[id].tx)
                &&& self.records[id].status.rank() >= TxStatus::Committed.rank() ==> logged(
                    self.log,
                    id,
                    TxStatus::Committed,
                    self.log.len() as int,
                )
                &&& self.records[id].status == TxStatus::Applied ==> logged(
                    self.log,
                    id,
                    TxStatus::Applied,
                    self.log.len() as int,
                )
            }
        &&& forall|j: int|
            0 <= j < self.log.len() && (#[trigger] self.log[j]).status == TxStatus::Applied ==> {
                &&& self.records.contains_key(self.log[j].id)
                &&& self.records[self.log[j].id].status == TxStatus::Applied
                &&& logged(self.log, self.log[j].id, TxStatus::Committed, j)
                &&& forall|u: TxId| #[trigger]
                    self.records[self.log[j].id].deps.contains(u) ==> logged(
                        self.log,
                        u,
                        TxStatus::Applied,
                        j,
                    )
            }
    }
}

/// The order of tasks is total.
pub proof fn lemma_task_order(s: ReplicaView, a: Task, b: Task, c: Task)
    ensures
        s.task_le(a, b) || s.task_le(b, a),
        s.task_le(a, b) && s.task_le(b, a) ==> a == b,
        s.task_le(a, b) && s.task_le(b, c) ==> s.task_le(a, c),
        s.task_lt(a, b) <==> !s.task_le(b, a),
        s.task_le(a, a),
{
}

/// At most one task is the next.
pub proof fn lemma_next_unique(s: ReplicaView, t: Task)
    requires
        s.is_next(t),
    ensures
        s.next_ready() == Some(t),
{
    let c = choose|c: Task| s.is_next(c);
    lemma_task_order(s, t, c, c);
}

/// Where no task is ready, none is next.
pub proof fn lemma_idle_none(s: ReplicaView)
    requires
        s.idle(),
    ensures
        s.next_ready() is None,
{
    if exists|t: Task| s.is_next(t) {
        let c = choose|c: Task| s.is_next(c);
        assert(s.ready(c));
    }
}

} // verus!
