//! What holds of every replica: the invariant that each step keeps, the
//! order of execution, the edges of the status lifecycle, and that a message
//! delivered twice changes nothing the second time.
use crate::protocol::{Accept, Apply, Commit, PreAccept, Read};
use crate::replica_model::{logged, LogEntry, ReplicaView, Task, TxStatus};
use crate::timestamp::{NodeId, TxId};
use vstd::prelude::*;

verus! {

/// The status that a replica holds for a transaction, if it holds any.
pub open spec fn status_in(s: ReplicaView, id: TxId) -> Option<TxStatus> {
    if s.records.contains_key(id) {
        Some(s.records[id].status)
    } else {
        None
    }
}

/// The edges of the lifecycle: a transaction appears as `PreAccepted`, may be
/// `Accepted`, is `Committed` from either, and `Applied` from `Committed`
/// alone. Staying in place is allowed.
pub open spec fn allowed_edge(before: Option<TxStatus>, after: Option<TxStatus>) -> bool {
    ||| before == after
    ||| before is None && after == Some(TxStatus::PreAccepted)
    ||| before == Some(TxStatus::PreAccepted) && after == Some(TxStatus::Accepted)
    ||| before == Some(TxStatus::PreAccepted) && after == Some(TxStatus::Committed)
    ||| before == Some(TxStatus::Accepted) && after == Some(TxStatus::Committed)
    ||| before == Some(TxStatus::Committed) && after == Some(TxStatus::Applied)
}

/// One step of a replica: what a message or the completion of a task does
/// to its state.
pub open spec fn replica_step(s: ReplicaView, next: ReplicaView) -> bool {
    ||| exists|m: PreAccept| next == s.preaccept(m)
    ||| exists|m: Accept| next == s.accept(m)
    ||| exists|m: Commit| next == s.commit(m)
    ||| exists|m: Read| next == s.defer_read(m)
    ||| exists|m: Apply| next == s.defer_apply(m)
    ||| exists|t: Task| s.ready(t) && next == s.complete(t)
}

proof fn lemma_logged_push(log: Seq<LogEntry>, e: LogEntry, id: TxId, status: TxStatus, before: int)
    requires
        logged(log, id, status, before),
    ensures
        logged(log.push(e), id, status, before),
        logged(log.push(e), id, status, log.len() as int + 1),
{
    let i = choose|i: int| 0 <= i < before && i < log.len() && #[trigger] log[i] == (LogEntry { id, status });
    assert(log.push(e)[i] == (LogEntry { id, status }));
}

proof fn lemma_logged_last(log: Seq<LogEntry>, e: LogEntry)
    ensures
        logged(log.push(e), e.id, e.status, log.len() as int + 1),
{
    assert(log.push(e)[log.len() as int] == (LogEntry { id: e.id, status: e.status }));
}

/// The invariant carries over when the log grows by an entry that is not
/// `Applied` and the records keep, for every transaction that was recorded,
/// birth, dependencies of applied ones, and a status that only the new
/// entry can have raised.
proof fn lemma_inv_extend(s: ReplicaView, next: ReplicaView, id: TxId)
    requires
        s.inv(),
        next.log == s.log || (next.log == s.log.push(
            LogEntry { id, status: next.records[id].status },
        ) && next.records[id].status != TxStatus::Applied),
        next.records.dom() == s.records.dom().insert(id),
        forall|o: TxId| o != id && s.records.contains_key(o) ==> next.records[o] == s.records[o],
        next.records[id].t0.spec_le(next.records[id].tx),
        s.records.contains_key(id) ==> s.records[id].status != TxStatus::Applied,
        next.log == s.log ==> s.records.contains_key(id) && (next.records[id].status
            == s.records[id].status || next.records[id].status.rank()
            < TxStatus::Committed.rank()),
        next.records[id].status != TxStatus::Applied,
    ensures
        next.inv(),
{
    let e = LogEntry { id, status: next.records[id].status };
    assert forall|o: TxId| #[trigger] next.records.contains_key(o) implies {
        &&& next.records[o].t0.spec_le(next.records[o].tx)
        &&& next.records[o].status.rank() >= TxStatus::Committed.rank() ==> logged(
            next.log,
            o,
            TxStatus::Committed,
            next.log.len() as int,
        )
        &&& next.records[o].status == TxStatus::Applied ==> logged(
            next.log,
            o,
            TxStatus::Applied,
            next.log.len() as int,
        )
    } by {
        if o != id {
            assert(s.records.dom().insert(id).contains(o));
            assert(s.records.contains_key(o));
            if next.log != s.log {
                if s.records[o].status.rank() >= TxStatus::Committed.rank() {
                    lemma_logged_push(s.log, e, o, TxStatus::Committed, s.log.len() as int);
                }
                if s.records[o].status == TxStatus::Applied {
                    lemma_logged_push(s.log, e, o, TxStatus::Applied, s.log.len() as int);
                }
            }
        } else {
            if next.log == s.log {
                assert(s.records.contains_key(id));
            } else {
                lemma_logged_last(s.log, e);
            }
        }
    }
    assert forall|j: int|
        0 <= j < next.log.len() && (#[trigger] next.log[j]).status == TxStatus::Applied implies {
        &&& next.records.contains_key(next.log[j].id)
        &&& next.records[next.log[j].id].status == TxStatus::Applied
        &&& logged(next.log, next.log[j].id, TxStatus::Committed, j)
        &&& forall|u: TxId| #[trigger]
            next.records[next.log[j].id].deps.contains(u) ==> logged(
                next.log,
                u,
                TxStatus::Applied,
                j,
            )
    } by {
        assert(j < s.log.len());
        assert(s.log[j] == next.log[j]);
        let o = s.log[j].id;
        assert(s.records.contains_key(o));
        assert(o != id);
        assert(s.records.dom().insert(id).contains(o));
        if next.log != s.log {
            lemma_logged_push(s.log, e, o, TxStatus::Committed, j);
            assert forall|u: TxId| #[trigger] next.records[o].deps.contains(u) implies logged(
                next.log,
                u,
                TxStatus::Applied,
                j,
            ) by {
                assert(s.records[o].deps.contains(u));
                lemma_logged_push(s.log, e, u, TxStatus::Applied, j);
            }
        }
    }
}

/// A replica that has seen nothing meets the invariant.
pub proof fn lemma_init_inv(node: NodeId)
    ensures
        ReplicaView::init(node).inv(),
{
}

/// A proposal keeps the invariant.
pub proof fn lemma_preaccept_inv(s: ReplicaView, msg: PreAccept)
    requires
        s.inv(),
    ensures
        s.preaccept(msg).inv(),
{
    if !s.records.contains_key(msg.id) {
        let next = s.preaccept(msg);
        assert(next.records.dom() =~= s.records.dom().insert(msg.id));
        assert(next.log.len() == s.log.len() + 1);
        lemma_inv_extend(s, next, msg.id);
    }
}

/// An `Accept` keeps the invariant.
pub proof fn lemma_accept_inv(s: ReplicaView, msg: Accept)
    requires
        s.inv(),
    ensures
        s.accept(msg).inv(),
{
    if s.accepts(msg) {
        let next = s.accept(msg);
        assert(next.records.dom() =~= s.records.dom().insert(msg.id));
        if s.records[msg.id].status == TxStatus::PreAccepted {
            assert(next.log.len() == s.log.len() + 1);
        }
        lemma_inv_extend(s, next, msg.id);
    }
}

/// A `Commit` keeps the invariant.
pub proof fn lemma_commit_inv(s: ReplicaView, msg: Commit)
    requires
        s.inv(),
    ensures
        s.commit(msg).inv(),
{
    let next = s.commit(msg);
    if s.commit_outcome(msg) is Ok && s.records[msg.id].status.rank() < TxStatus::Committed.rank() {
        assert(next.records.dom() =~= s.records.dom().insert(msg.id));
        assert(next.log.len() == s.log.len() + 1);
        lemma_inv_extend(s, next, msg.id);
    }
}

/// Noting a read request keeps the invariant.
pub proof fn lemma_defer_read_inv(s: ReplicaView, msg: Read)
    requires
        s.inv(),
    ensures
        s.defer_read(msg).inv(),
{
    assert(s.defer_read(msg).records.dom() =~= s.records.dom());
    lemma_pending_inv(s, s.defer_read(msg), msg.id);
}

/// Noting an apply request keeps the invariant.
pub proof fn lemma_defer_apply_inv(s: ReplicaView, msg: Apply)
    requires
        s.inv(),
    ensures
        s.defer_apply(msg).inv(),
{
    assert(s.defer_apply(msg).records.dom() =~= s.records.dom());
    lemma_pending_inv(s, s.defer_apply(msg), msg.id);
}

/// The invariant does not depend on which requests are pending.
proof fn lemma_pending_inv(s: ReplicaView, next: ReplicaView, id: TxId)
    requires
        s.inv(),
        next.log == s.log,
        next.records.dom() == s.records.dom(),
        forall|o: TxId| o != id && s.records.contains_key(o) ==> next.records[o] == s.records[o],
        s.records.contains_key(id) ==> {
            &&& next.records[id].t0 == s.records[id].t0
            &&& next.records[id].tx == s.records[id].tx
            &&& next.records[id].deps == s.records[id].deps
            &&& next.records[id].status == s.records[id].status
        },
    ensures
        next.inv(),
{
    assert forall|o: TxId| #[trigger] next.records.contains_key(o) implies {
        &&& next.records[o].t0.spec_le(next.records[o].tx)
        &&& next.records[o].status.rank() >= TxStatus::Committed.rank() ==> logged(
            next.log,
            o,
            TxStatus::Committed,
            next.log.len() as int,
        )
        &&& next.records[o].status == TxStatus::Applied ==> logged(
            next.log,
            o,
            TxStatus::Applied,
            next.log.len() as int,
        )
    } by {
        assert(s.records.contains_key(o));
    }
    assert forall|j: int|
        0 <= j < next.log.len() && (#[trigger] next.log[j]).status == TxStatus::Applied implies {
        &&& next.records.contains_key(next.log[j].id)
        &&& next.records[next.log[j].id].status == TxStatus::Applied
        &&& logged(next.log, next.log[j].id, TxStatus::Committed, j)
        &&& forall|u: TxId| #[trigger]
            next.records[next.log[j].id].deps.contains(u) ==> logged(
                next.log,
                u,
                TxStatus::Applied,
                j,
            )
    } by {
        let o = s.log[j].id;
        assert(s.records.contains_key(o));
        assert forall|u: TxId| #[trigger] next.records[o].deps.contains(u) implies logged(
            next.log,
            u,
            TxStatus::Applied,
            j,
        ) by {
            assert(s.records[o].deps.contains(u));
        }
    }
}

/// Completing a task that is ready keeps the invariant.
pub proof fn lemma_complete_inv(s: ReplicaView, t: Task)
    requires
        s.inv(),
        s.ready(t),
    ensures
        s.complete(t).inv(),
{
    let next = s.complete(t);
    assert(next.records.dom() =~= s.records.dom());
    if !t.apply {
        lemma_pending_inv(s, next, t.id);
    } else {
        let e = LogEntry { id: t.id, status: TxStatus::Applied };
        let n = s.log.len() as int;
        assert(s.records.contains_key(t.id));
        assert forall|o: TxId| #[trigger] next.records.contains_key(o) implies {
            &&& next.records[o].t0.spec_le(next.records[o].tx)
            &&& next.records[o].status.rank() >= TxStatus::Committed.rank() ==> logged(
                next.log,
                o,
                TxStatus::Committed,
                next.log.len() as int,
            )
            &&& next.records[o].status == TxStatus::Applied ==> logged(
                next.log,
                o,
                TxStatus::Applied,
                next.log.len() as int,
            )
        } by {
            assert(s.records.contains_key(o));
            if o != t.id {
                if s.records[o].status.rank() >= TxStatus::Committed.rank() {
                    lemma_logged_push(s.log, e, o, TxStatus::Committed, n);
                }
                if s.records[o].status == TxStatus::Applied {
                    lemma_logged_push(s.log, e, o, TxStatus::Applied, n);
                }
            } else {
                lemma_logged_push(s.log, e, o, TxStatus::Committed, n);
                lemma_logged_last(s.log, e);
            }
        }
        assert forall|j: int|
            0 <= j < next.log.len() && (#[trigger] next.log[j]).status
                == TxStatus::Applied implies {
            &&& next.records.contains_key(next.log[j].id)
            &&& next.records[next.log[j].id].status == TxStatus::Applied
            &&& logged(next.log, next.log[j].id, TxStatus::Committed, j)
            &&& forall|u: TxId| #[trigger]
                next.records[next.log[j].id].deps.contains(u) ==> logged(
                    next.log,
                    u,
                    TxStatus::Applied,
                    j,
                )
        } by {
            if j < n {
                assert(s.log[j] == next.log[j]);
                let o = s.log[j].id;
                assert(s.records.contains_key(o));
                assert(o != t.id);
                lemma_logged_push(s.log, e, o, TxStatus::Committed, j);
                assert forall|u: TxId| #[trigger] next.records[o].deps.contains(u) implies logged(
                    next.log,
                    u,
                    TxStatus::Applied,
                    j,
                ) by {
                    assert(s.records[o].deps.contains(u));
                    lemma_logged_push(s.log, e, u, TxStatus::Applied, j);
                }
            } else {
                assert(next.log[j] == e);
                lemma_logged_push(s.log, e, t.id, TxStatus::Committed, n);
                assert forall|u: TxId| #[trigger]
                    next.records[t.id].deps.contains(u) implies logged(
                    next.log,
                    u,
                    TxStatus::Applied,
                    j,
                ) by {
                    assert(s.records[t.id].deps.contains(u));
                    assert(s.records.contains_key(u) && s.records[u].status.rank()
                        >= TxStatus::Applied.rank());
                    lemma_logged_push(s.log, e, u, TxStatus::Applied, n);
                }
            }
        }
    }
}

/// Running the tasks that are ready keeps the invariant.
pub proof fn lemma_advance_inv(s: ReplicaView, n: nat)
    requires
        s.inv(),
    ensures
        s.advance(n).inv(),
    decreases n,
{
    if n > 0 {
        lemma_advance_inv(s, (n - 1) as nat);
        let before = s.advance((n - 1) as nat);
        if before.next_ready() is Some {
            let t = before.next_ready()->0;
            assert(before.is_next(t));
            lemma_complete_inv(before, t);
        }
    }
}

/// Every step keeps the invariant.
pub proof fn lemma_step_inv(s: ReplicaView, next: ReplicaView)
    requires
        s.inv(),
        replica_step(s, next),
    ensures
        next.inv(),
{
    if exists|m: PreAccept| next == s.preaccept(m) {
        let m = choose|m: PreAccept| next == s.preaccept(m);
        lemma_preaccept_inv(s, m);
    } else if exists|m: Accept| next == s.accept(m) {
        let m = choose|m: Accept| next == s.accept(m);
        lemma_accept_inv(s, m);
    } else if exists|m: Commit| next == s.commit(m) {
        let m = choose|m: Commit| next == s.commit(m);
        lemma_commit_inv(s, m);
    } else if exists|m: Read| next == s.defer_read(m) {
        let m = choose|m: Read| next == s.defer_read(m);
        lemma_defer_read_inv(s, m);
    } else if exists|m: Apply| next == s.defer_apply(m) {
        let m = choose|m: Apply| next == s.defer_apply(m);
        lemma_defer_apply_inv(s, m);
    } else {
        let t = choose|t: Task| s.ready(t) && next == s.complete(t);
        lemma_complete_inv(s, t);
    }
}

/// Execution order: where a transaction is applied, each of its
/// dependencies was applied before it. The log shows both, the dependency
/// at the earlier position.
pub proof fn lemma_execution_order(s: ReplicaView, t: TxId, u: TxId)
    requires
        s.inv(),
        s.records.contains_key(t),
        s.records[t].status == TxStatus::Applied,
        s.records[t].deps.contains(u),
    ensures
        exists|i: int, j: int|
            0 <= i < j < s.log.len() && #[trigger] s.log[i] == (LogEntry {
                id: u,
                status: TxStatus::Applied,
            }) && #[trigger] s.log[j] == (LogEntry { id: t, status: TxStatus::Applied }),
        s.records.contains_key(u) && s.records[u].status == TxStatus::Applied,
{
    let j = choose|j: int|
        0 <= j < s.log.len() && j < s.log.len() && #[trigger] s.log[j] == (LogEntry {
            id: t,
            status: TxStatus::Applied,
        });
    assert(s.log[j].status == TxStatus::Applied);
    assert(s.records[s.log[j].id].deps.contains(u));
    assert(logged(s.log, u, TxStatus::Applied, j));
    let i = choose|i: int|
        0 <= i < j && i < s.log.len() && #[trigger] s.log[i] == (LogEntry {
            id: u,
            status: TxStatus::Applied,
        });
    assert(s.log[i].status == TxStatus::Applied);
}

/// No gap in status: a step moves the status of each transaction along an
/// edge of the lifecycle or leaves it, and never takes an entry from the log.
pub proof fn lemma_step_edges(s: ReplicaView, next: ReplicaView, id: TxId)
    requires
        replica_step(s, next),
    ensures
        allowed_edge(status_in(s, id), status_in(next, id)),
        s.log.len() <= next.log.len(),
        next.log.subrange(0, s.log.len() as int) == s.log,
{
    assert(next.log.subrange(0, s.log.len() as int) =~= s.log);
}

/// No transaction is logged as applied that was not logged as committed
/// before.
pub proof fn lemma_applied_after_committed(s: ReplicaView, j: int)
    requires
        s.inv(),
        0 <= j < s.log.len(),
        s.log[j].status == TxStatus::Applied,
    ensures
        exists|i: int|
            0 <= i < j && #[trigger] s.log[i] == (LogEntry {
                id: s.log[j].id,
                status: TxStatus::Committed,
            }),
{
    assert(logged(s.log, s.log[j].id, TxStatus::Committed, j));
    let i = choose|i: int|
        0 <= i < j && i < s.log.len() && #[trigger] s.log[i] == (LogEntry {
            id: s.log[j].id,
            status: TxStatus::Committed,
        });
    assert(s.log[i] == (LogEntry { id: s.log[j].id, status: TxStatus::Committed }));
}

/// What running tasks leaves of a record: everything but the status, which
/// may go from `Committed` to `Applied`, and the read request, which is
/// gone once it ran: only where every dependency is committed.
pub open spec fn evolved(a: ReplicaView, b: ReplicaView) -> bool {
    &&& b.node == a.node
    &&& b.clock == a.clock
    &&& b.records.dom() == a.records.dom()
    &&& forall|id: TxId| #[trigger]
        a.records.contains_key(id) ==> {
            let r = a.records[id];
            let q = b.records[id];
            &&& q.keys == r.keys
            &&& q.kind == r.kind
            &&& q.t0 == r.t0
            &&& q.tx == r.tx
            &&& q.deps == r.deps
            &&& (q.status == r.status || (r.status == TxStatus::Committed && q.status
                == TxStatus::Applied))
            &&& q.apply_writes == r.apply_writes
            &&& (q.read_keys == r.read_keys || (q.read_keys is None && b.deps_at_least(
                r.deps,
                TxStatus::Committed,
            )))
        }
}

proof fn lemma_complete_evolved(a: ReplicaView, b: ReplicaView, t: Task)
    requires
        evolved(a, b),
        b.ready(t),
    ensures
        evolved(a, b.complete(t)),
{
    let c = b.complete(t);
    assert(c.records.dom() =~= a.records.dom());
    assert forall|id: TxId| #[trigger] a.records.contains_key(id) implies {
        let r = a.records[id];
        let q = c.records[id];
        &&& q.keys == r.keys
        &&& q.kind == r.kind
        &&& q.t0 == r.t0
        &&& q.tx == r.tx
        &&& q.deps == r.deps
        &&& (q.status == r.status || (r.status == TxStatus::Committed && q.status
            == TxStatus::Applied))
        &&& q.apply_writes == r.apply_writes
        &&& (q.read_keys == r.read_keys || (q.read_keys is None && c.deps_at_least(
            r.deps,
            TxStatus::Committed,
        )))
    } by {
        let r = a.records[id];
        let m = b.records[id];
        let q = c.records[id];
        if m.read_keys != r.read_keys || (id == t.id && !t.apply) {
            assert(b.deps_at_least(r.deps, TxStatus::Committed));
            assert forall|u: TxId| r.deps.contains(u) implies c.records.contains_key(u) && (
            #[trigger] c.records[u]).status.rank() >= TxStatus::Committed.rank() by {
                assert(b.records.contains_key(u) && b.records[u].status.rank()
                    >= TxStatus::Committed.rank());
            }
        }
    }
}

/// Running tasks changes of each record only what `evolved` allows.
pub proof fn lemma_advance_evolved(s: ReplicaView, n: nat)
    ensures
        evolved(s, s.advance(n)),
    decreases n,
{
    if n > 0 {
        lemma_advance_evolved(s, (n - 1) as nat);
        let before = s.advance((n - 1) as nat);
        if before.next_ready() is Some {
            let t = before.next_ready()->0;
            assert(before.is_next(t));
            lemma_complete_evolved(s, before, t);
        }
    }
}

/// Where no task is ready, running tasks changes nothing.
pub proof fn lemma_advance_idle(s: ReplicaView, n: nat)
    requires
        s.idle(),
    ensures
        s.advance(n) == s,
    decreases n,
{
    if n > 0 {
        lemma_advance_idle(s, (n - 1) as nat);
        if s.next_ready() is Some {
            let t = s.next_ready()->0;
            assert(s.is_next(t));
        }
    }
}

/// Nothing waits without cause: where no task is ready, an apply that is
/// noted for a committed transaction waits for a dependency that is not
/// applied, and a read that is noted waits for a dependency that is not
/// committed. So a run that ends with no task ready has applied every
/// transaction downstream of those that it applied.
pub proof fn lemma_idle_waits_for_dependency(s: ReplicaView, t: TxId)
    requires
        s.idle(),
        s.records.contains_key(t),
    ensures
        s.records[t].apply_writes is Some && s.records[t].status == TxStatus::Committed
            ==> exists|u: TxId|
            s.records[t].deps.contains(u) && !(s.records.contains_key(u) && (
            #[trigger] s.records[u]).status == TxStatus::Applied),
        s.records[t].read_keys is Some && s.records[t].status.rank() >= TxStatus::Committed.rank()
            ==> exists|u: TxId|
            s.records[t].deps.contains(u) && !(s.records.contains_key(u) && (
            #[trigger] s.records[u]).status.rank() >= TxStatus::Committed.rank()),
{
    assert(!s.ready(Task { id: t, apply: true }));
    assert(!s.ready(Task { id: t, apply: false }));
    if s.records[t].apply_writes is Some && s.records[t].status == TxStatus::Committed {
        assert(!s.deps_at_least(s.records[t].deps, TxStatus::Applied));
        let u = choose|u: TxId|
            s.records[t].deps.contains(u) && !(s.records.contains_key(u) && (
            #[trigger] s.records[u]).status.rank() >= TxStatus::Applied.rank());
        assert(s.records[t].deps.contains(u) && !(s.records.contains_key(u) && s.records[u].status
            == TxStatus::Applied));
    }
    if s.records[t].read_keys is Some && s.records[t].status.rank() >= TxStatus::Committed.rank() {
        assert(!s.deps_at_least(s.records[t].deps, TxStatus::Committed));
    }
}

/// A task does not run before its dependencies: a transaction that has a
/// dependency which is not applied does not have its apply ready, and one
/// that has a dependency which is not committed does not have its read
/// ready.
pub proof fn lemma_not_ready_before_dependency(s: ReplicaView, t: TxId, u: TxId)
    requires
        s.records.contains_key(t),
        s.records[t].deps.contains(u),
    ensures
        !(s.records.contains_key(u) && s.records[u].status == TxStatus::Applied) ==> !s.ready(
            Task { id: t, apply: true },
        ),
        !(s.records.contains_key(u) && s.records[u].status.rank() >= TxStatus::Committed.rank())
            ==> !s.ready(Task { id: t, apply: false }),
{
    if s.ready(Task { id: t, apply: true }) {
        assert(s.records.contains_key(u) && s.records[u].status.rank() >= TxStatus::Applied.rank());
    }
    if s.ready(Task { id: t, apply: false }) {
        assert(s.records.contains_key(u) && s.records[u].status.rank()
            >= TxStatus::Committed.rank());
    }
}

/// Idempotence of a proposal: delivered again, it leaves the state as the
/// first delivery left it, and the replica answers as before.
pub proof fn lemma_preaccept_idempotent(s: ReplicaView, msg: PreAccept)
    ensures
        s.preaccept(msg).preaccept(msg) == s.preaccept(msg),
        s.preaccept(msg).records.contains_key(msg.id),
{
}

/// Idempotence of an `Accept`.
pub proof fn lemma_accept_idempotent(s: ReplicaView, msg: Accept)
    ensures
        s.accept(msg).accept(msg) == s.accept(msg),
{
    let a = s.accept(msg);
    assert(a.accept(msg).records =~= a.records);
}

/// Idempotence of a `Commit`: delivered again, it changes nothing and is
/// accepted again.
pub proof fn lemma_commit_idempotent(s: ReplicaView, msg: Commit)
    ensures
        s.commit(msg).commit(msg) == s.commit(msg),
        s.commit_outcome(msg) is Ok ==> s.commit(msg).commit_outcome(msg) is Ok,
        s.commit_outcome(msg) is Ok ==> s.commit(msg).holds_committed(msg.id, msg.tx, msg.deps@),
{
}

/// Idempotence of a read request. The first delivery notes the request and
/// runs `n1` tasks, the second runs `n2`; where each delivery ran until no
/// task was ready, the second leaves the state as the first left it.
pub proof fn lemma_read_idempotent(s: ReplicaView, msg: Read, n1: nat, n2: nat)
    requires
        s.defer_read(msg).advance(n1).idle(),
        s.defer_read(msg).advance(n1).defer_read(msg).advance(n2).idle(),
    ensures
        s.defer_read(msg).advance(n1).defer_read(msg).advance(n2) == s.defer_read(msg).advance(n1),
{
    let d = s.defer_read(msg);
    let s1 = d.advance(n1);
    let d2 = s1.defer_read(msg);
    lemma_advance_evolved(d, n1);
    if s.holds_committed(msg.id, msg.tx, msg.deps@) {
        assert(d.records.contains_key(msg.id));
        assert(s1.records.dom().contains(msg.id));
        assert(s1.holds_committed(msg.id, msg.tx, msg.deps@));
        if s1.records[msg.id].read_keys == Some(msg.keys@) {
            assert(d2.records =~= s1.records);
            assert(d2 == s1);
            lemma_advance_idle(s1, n2);
        } else {
            let t = Task { id: msg.id, apply: false };
            assert(s1.deps_at_least(msg.deps@, TxStatus::Committed));
            assert forall|u: TxId| msg.deps@.contains(u) implies d2.records.contains_key(u) && (
            #[trigger] d2.records[u]).status.rank() >= TxStatus::Committed.rank() by {
                assert(s1.records.contains_key(u) && s1.records[u].status.rank()
                    >= TxStatus::Committed.rank());
            }
            assert(d2.ready(t));
            assert forall|o: Task| #[trigger] d2.ready(o) implies o == t by {
                if o != t {
                    assert(d2.records[o.id].deps == s1.records[o.id].deps);
                    if o.apply {
                        assert forall|u: TxId|
                            s1.records[o.id].deps.contains(u) implies s1.records.contains_key(u)
                            && (#[trigger] s1.records[u]).status.rank()
                            >= TxStatus::Applied.rank() by {
                            assert(d2.records.contains_key(u) && d2.records[u].status.rank()
                                >= TxStatus::Applied.rank());
                        }
                    } else {
                        assert forall|u: TxId|
                            s1.records[o.id].deps.contains(u) implies s1.records.contains_key(u)
                            && (#[trigger] s1.records[u]).status.rank()
                            >= TxStatus::Committed.rank() by {
                            assert(d2.records.contains_key(u) && d2.records[u].status.rank()
                                >= TxStatus::Committed.rank());
                        }
                    }
                    assert(s1.ready(o));
                }
            }
            assert(d2.is_next(t));
            let c = d2.next_ready()->0;
            assert(d2.is_next(c));
            assert(c == t);
            assert(d2.complete(t).records =~= s1.records);
            assert(d2.complete(t) == s1);
            if n2 == 0 {
                assert(d2.advance(0) == d2);
                assert(false);
            } else {
                lemma_advance_from(d2, n2);
                assert(d2.advance(0) == d2);
                assert(d2.advance(1) == s1);
                lemma_advance_idle(s1, (n2 - 1) as nat);
            }
        }
    } else {
        assert(!s1.holds_committed(msg.id, msg.tx, msg.deps@)) by {
            if s1.records.contains_key(msg.id) {
                assert(d.records.contains_key(msg.id));
            }
        }
        assert(d2 == s1);
        lemma_advance_idle(s1, n2);
    }
}

/// Running `n` tasks is running the first and then the others.
proof fn lemma_advance_from(s: ReplicaView, n: nat)
    requires
        n > 0,
    ensures
        s.advance(n) == s.advance(1).advance((n - 1) as nat),
    decreases n,
{
    if n == 1 {
        assert(s.advance(1).advance(0) == s.advance(1));
    } else {
        lemma_advance_from(s, (n - 1) as nat);
        assert(s.advance(1) == match s.advance(0).next_ready() {
            Some(t) => s.advance(0).complete(t),
            None => s.advance(0),
        });
    }
}

/// Idempotence of an apply request, as for a read request. A transaction
/// that the first delivery applied is not run again.
pub proof fn lemma_apply_idempotent(s: ReplicaView, msg: Apply, n1: nat, n2: nat)
    requires
        s.defer_apply(msg).advance(n1).idle(),
    ensures
        s.defer_apply(msg).advance(n1).defer_apply(msg).advance(n2) == s.defer_apply(msg).advance(
            n1,
        ),
{
    let d = s.defer_apply(msg);
    let s1 = d.advance(n1);
    let d2 = s1.defer_apply(msg);
    lemma_advance_evolved(d, n1);
    if s1.holds_committed(msg.id, msg.tx, msg.deps@) && s1.records[msg.id].status
        == TxStatus::Committed {
        assert(d.records.contains_key(msg.id));
        assert(s.holds_committed(msg.id, msg.tx, msg.deps@));
        assert(d.records[msg.id].apply_writes == Some(msg.writes@));
        assert(d2.records =~= s1.records);
    }
    lemma_advance_idle(s1, n2);
}

} // verus!
