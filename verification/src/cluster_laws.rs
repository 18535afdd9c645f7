//! What holds after every run of a cluster: replicas that hold a
//! transaction as committed hold it alike; a fast-path commit rests on what
//! the replicas answered; a transaction is applied after its dependencies;
//! and what a node applied is found in its store.
use crate::cluster_model::{answers_cover, AnswerFact, ClusterEvent, ClusterView, CommitFact};
use crate::coordinator_laws::{
    lemma_begin_inv, lemma_fast_path, lemma_store_accept_ok_inv, lemma_store_apply_ok_inv,
    lemma_store_proposal_inv, lemma_store_read_ok_inv,
};
use crate::coordinator_model::{
    agreeing, answered_at, distinct_peers, CoordinatorView, Decision, ProposalView,
};
use crate::protocol::PreAcceptOk;
use crate::replica_laws::{
    lemma_accept_inv, lemma_commit_inv, lemma_complete_inv, lemma_defer_apply_inv,
    lemma_defer_read_inv, lemma_execution_order, lemma_preaccept_inv,
};
use crate::replica_model::{LogEntry, ReplicaView, Task, TxStatus};
use crate::store::{last_write, lemma_no_lost_writes, read_of};
use crate::timestamp::{Key, NodeId, TxId};
use vstd::prelude::*;

verus! {

/// A cluster in which nothing has happened meets the invariant.
pub proof fn lemma_cluster_init(nodes: Set<NodeId>, fast_quorum: nat, slow_quorum: nat)
    requires
        fast_quorum >= 1,
        slow_quorum >= 1,
    ensures
        ClusterView::init(nodes, fast_quorum, slow_quorum).inv(),
{
}

proof fn lemma_cover_now(c: ClusterView, node: NodeId)
    requires
        c.inv(),
        c.coordinators.contains_key(node),
    ensures
        answers_cover(c.answers, c.coordinators[node]),
{
    let s = c.coordinators[node];
    assert forall|id: TxId, i: int|
        s.tallies.contains_key(id) && 0 <= i < s.tallies[id].proposals.len() implies c.answers.contains(
        AnswerFact {
            peer: (#[trigger] s.tallies[id].proposals[i]).peer,
            id,
            tx: s.tallies[id].proposals[i].tx,
            deps: s.tallies[id].proposals[i].deps,
        },
    ) by {
        assert(c.answers.contains(c.tallied(node, id, i)));
    }
}

proof fn lemma_cover_kept(answers: Set<AnswerFact>, s: CoordinatorView, next: CoordinatorView)
    requires
        answers_cover(answers, s),
        forall|id: TxId| #[trigger]
            next.tallies.contains_key(id) ==> next.tallies[id].proposals.len() == 0 || (
            s.tallies.contains_key(id) && next.tallies[id].proposals == s.tallies[id].proposals),
    ensures
        answers_cover(answers, next),
{
    assert forall|id: TxId, i: int|
        next.tallies.contains_key(id) && 0 <= i < next.tallies[id].proposals.len() implies answers.contains(
        AnswerFact {
            peer: (#[trigger] next.tallies[id].proposals[i]).peer,
            id,
            tx: next.tallies[id].proposals[i].tx,
            deps: next.tallies[id].proposals[i].deps,
        },
    ) by {
        assert(s.tallies.contains_key(id));
        let p = s.tallies[id].proposals[i];
    }
}

proof fn lemma_cover_proposal(answers: Set<AnswerFact>, s: CoordinatorView, from: NodeId, msg: PreAcceptOk)
    requires
        answers_cover(answers, s),
        answers.contains(AnswerFact { peer: from, id: msg.id, tx: msg.proposed_tx, deps: msg.deps@ }),
    ensures
        answers_cover(answers, s.store_proposal(from, msg)),
{
    let next = s.store_proposal(from, msg);
    assert forall|id: TxId, i: int|
        next.tallies.contains_key(id) && 0 <= i < next.tallies[id].proposals.len() implies answers.contains(
        AnswerFact {
            peer: (#[trigger] next.tallies[id].proposals[i]).peer,
            id,
            tx: next.tallies[id].proposals[i].tx,
            deps: next.tallies[id].proposals[i].deps,
        },
    ) by {
        assert(s.tallies.contains_key(id));
        if s.counts_proposal(msg.id) && id == msg.id {
            let ps = s.tallies[id].proposals;
            let p = ProposalView { peer: from, tx: msg.proposed_tx, deps: msg.deps@ };
            if exists|k: int| answered_at(ps, p.peer, k) {
                let k = choose|k: int| answered_at(ps, p.peer, k);
                if i != k {
                    let q = ps[i];
                }
            } else {
                if i < ps.len() {
                    let q = ps[i];
                }
            }
        } else {
            let q = s.tallies[id].proposals[i];
        }
    }
}

proof fn lemma_coordinator_moves(c: ClusterView, node: NodeId, next: CoordinatorView, sent: Option<
    CommitFact,
>)
    requires
        c.inv(),
        c.coordinators.contains_key(node),
        next.inv(),
        next.node == node,
        forall|id: TxId| #[trigger]
            c.coordinators[node].tallies.contains_key(id) && c.coordinators[node].tallies[id].phase.committed()
                ==> next.tallies.contains_key(id) && next.tallies[id].phase.committed()
                && next.tallies[id].tx == c.coordinators[node].tallies[id].tx
                && next.tallies[id].deps == c.coordinators[node].tallies[id].deps,
        sent matches Some(f) ==> next.tallies.contains_key(f.id) && next.tallies[f.id].phase.committed()
            && next.tallies[f.id].tx == f.tx && next.tallies[f.id].deps == f.deps,
        answers_cover(c.answers, next),
    ensures
        c.with_coordinator(node, next, sent).inv(),
{
    let after = c.with_coordinator(node, next, sent);
    assert forall|n: NodeId, id: TxId, i: int|
        after.coordinators.contains_key(n) && after.coordinators[n].tallies.contains_key(id) && 0
            <= i < after.coordinators[n].tallies[id].proposals.len() implies after.answers.contains(
        #[trigger] after.tallied(n, id, i),
    ) by {
        if n != node {
            assert(c.answers.contains(c.tallied(n, id, i)));
        } else {
            let p = next.tallies[id].proposals[i];
        }
    }
    assert forall|f: CommitFact| #[trigger] after.commits.contains(f) implies after.decided(f) by {
        if c.commits.contains(f) {
            assert(c.decided(f));
            if f.id.origin == node {
                assert(c.coordinators[node].tallies.contains_key(f.id));
            }
        } else {
            assert(sent == Some(f));
            assert(next.tallies.contains_key(f.id));
        }
    }
    assert forall|n: NodeId, id: TxId|
        after.replicas.contains_key(n) && #[trigger] after.replicas[n].records.contains_key(id)
            && after.replicas[n].records[id].status.rank()
            >= TxStatus::Committed.rank() implies after.commits.contains(
        CommitFact {
            id,
            tx: after.replicas[n].records[id].tx,
            deps: after.replicas[n].records[id].deps,
        },
    ) by {
        assert(c.replicas[n].records.contains_key(id));
    }
}

proof fn lemma_replica_moves(c: ClusterView, node: NodeId, next: ReplicaView)
    requires
        c.inv(),
        c.replicas.contains_key(node),
        next.inv(),
        next.node == node,
        forall|id: TxId| #[trigger]
            next.records.contains_key(id) && next.records[id].status.rank()
                >= TxStatus::Committed.rank() ==> c.commits.contains(
                CommitFact { id, tx: next.records[id].tx, deps: next.records[id].deps },
            ),
    ensures
        c.with_replica(node, next).inv(),
{
    let after = c.with_replica(node, next);
    assert forall|n: NodeId, id: TxId, i: int|
        after.coordinators.contains_key(n) && after.coordinators[n].tallies.contains_key(id) && 0
            <= i < after.coordinators[n].tallies[id].proposals.len() implies after.answers.contains(
        #[trigger] after.tallied(n, id, i),
    ) by {
        assert(c.answers.contains(c.tallied(n, id, i)));
    }
    assert forall|f: CommitFact| #[trigger] after.commits.contains(f) implies after.decided(f) by {
        assert(c.decided(f));
    }
    assert forall|n: NodeId, id: TxId|
        after.replicas.contains_key(n) && #[trigger] after.replicas[n].records.contains_key(id)
            && after.replicas[n].records[id].status.rank()
            >= TxStatus::Committed.rank() implies after.commits.contains(
        CommitFact {
            id,
            tx: after.replicas[n].records[id].tx,
            deps: after.replicas[n].records[id].deps,
        },
    ) by {
        if n != node {
            assert(c.replicas[n].records.contains_key(id));
        }
    }
}

proof fn lemma_answer_sent(c: ClusterView, a: AnswerFact)
    requires
        c.inv(),
    ensures
        c.with_answer(a).inv(),
{
    let more = c.with_answer(a);
    assert forall|n: NodeId, id: TxId, i: int|
        more.coordinators.contains_key(n) && more.coordinators[n].tallies.contains_key(id) && 0
            <= i < more.coordinators[n].tallies[id].proposals.len() implies more.answers.contains(
        #[trigger] more.tallied(n, id, i),
    ) by {
        assert(c.answers.contains(c.tallied(n, id, i)));
    }
    assert forall|f: CommitFact| #[trigger] more.commits.contains(f) implies more.decided(f) by {
        assert(c.decided(f));
    }
}

proof fn lemma_replica_keeps(c: ClusterView, node: NodeId, next: ReplicaView)
    requires
        c.inv(),
        c.replicas.contains_key(node),
        next.inv(),
        next.node == node,
        forall|id: TxId| #[trigger]
            next.records.contains_key(id) && next.records[id].status.rank()
                >= TxStatus::Committed.rank() ==> c.replicas[node].records.contains_key(id)
                && c.replicas[node].records[id].status.rank() >= TxStatus::Committed.rank()
                && c.replicas[node].records[id].tx == next.records[id].tx
                && c.replicas[node].records[id].deps == next.records[id].deps,
    ensures
        c.with_replica(node, next).inv(),
{
    assert forall|id: TxId| #[trigger]
        next.records.contains_key(id) && next.records[id].status.rank()
            >= TxStatus::Committed.rank() implies c.commits.contains(
        CommitFact { id, tx: next.records[id].tx, deps: next.records[id].deps },
    ) by {
        assert(c.replicas[node].records.contains_key(id));
    }
    lemma_replica_moves(c, node, next);
}

/// Every event keeps the invariant.
pub proof fn lemma_cluster_step(c: ClusterView, e: ClusterEvent)
    requires
        c.inv(),
        c.enabled(e),
    ensures
        c.step(e).inv(),
{
    match e {
        ClusterEvent::Begin { node, keys, kind, command } => {
            let s = c.coordinators[node];
            lemma_begin_inv(s, keys, kind, command);
            lemma_cover_now(c, node);
            lemma_cover_kept(c.answers, s, s.begin(keys, kind, command));
            lemma_coordinator_moves(c, node, s.begin(keys, kind, command), None);
        },
        ClusterEvent::Proposal { node, from, msg } => {
            let s = c.coordinators[node];
            lemma_store_proposal_inv(s, from, msg);
            let sent = if s.proposal_decision(from, msg) == Decision::Commit {
                Some(CommitFact { id: msg.id, tx: msg.proposed_tx, deps: msg.deps@ })
            } else {
                None
            };
            lemma_cover_now(c, node);
            lemma_cover_proposal(c.answers, s, from, msg);
            lemma_coordinator_moves(c, node, s.store_proposal(from, msg), sent);
        },
        ClusterEvent::AcceptAck { node, from, msg } => {
            let s = c.coordinators[node];
            lemma_store_accept_ok_inv(s, from, msg);
            let sent = if s.accept_commits(from, msg) {
                Some(
                    CommitFact { id: msg.id, tx: s.tallies[msg.id].tx, deps: s.tallies[msg.id].deps },
                )
            } else {
                None
            };
            lemma_cover_now(c, node);
            lemma_cover_kept(c.answers, s, s.store_accept_ok(from, msg));
            lemma_coordinator_moves(c, node, s.store_accept_ok(from, msg), sent);
        },
        ClusterEvent::ReadPayload { node, from, msg } => {
            let s = c.coordinators[node];
            lemma_store_read_ok_inv(s, from, msg);
            lemma_cover_now(c, node);
            lemma_cover_kept(c.answers, s, s.store_read_ok(from, msg));
            lemma_coordinator_moves(c, node, s.store_read_ok(from, msg), None);
        },
        ClusterEvent::ApplyAck { node, from, msg } => {
            let s = c.coordinators[node];
            lemma_store_apply_ok_inv(s, from, msg);
            lemma_cover_now(c, node);
            lemma_cover_kept(c.answers, s, s.store_apply_ok(from, msg));
            lemma_coordinator_moves(c, node, s.store_apply_ok(from, msg), None);
        },
        ClusterEvent::PreAccept { node, msg } => {
            let s = c.replicas[node];
            lemma_preaccept_inv(s, msg);
            let next = s.preaccept(msg);
            lemma_replica_keeps(c, node, next);
            lemma_answer_sent(
                c.with_replica(node, next),
                AnswerFact {
                    peer: node,
                    id: msg.id,
                    tx: next.records[msg.id].tx,
                    deps: next.records[msg.id].deps,
                },
            );
        },
        ClusterEvent::Accept { node, msg } => {
            let s = c.replicas[node];
            lemma_accept_inv(s, msg);
            lemma_replica_keeps(c, node, s.accept(msg));
        },
        ClusterEvent::Commit { node, msg } => {
            let s = c.replicas[node];
            lemma_commit_inv(s, msg);
            let next = s.commit(msg);
            assert forall|id: TxId| #[trigger]
                next.records.contains_key(id) && next.records[id].status.rank()
                    >= TxStatus::Committed.rank() implies c.commits.contains(
                CommitFact { id, tx: next.records[id].tx, deps: next.records[id].deps },
            ) by {
                if id != msg.id || next == s {
                    assert(s.records.contains_key(id));
                }
            }
            lemma_replica_moves(c, node, next);
        },
        ClusterEvent::ReadRequest { node, msg } => {
            let s = c.replicas[node];
            lemma_defer_read_inv(s, msg);
            lemma_replica_keeps(c, node, s.defer_read(msg));
        },
        ClusterEvent::ApplyRequest { node, msg } => {
            let s = c.replicas[node];
            lemma_defer_apply_inv(s, msg);
            lemma_replica_keeps(c, node, s.defer_apply(msg));
        },
        ClusterEvent::TaskDone { node, task } => {
            let s = c.replicas[node];
            lemma_complete_inv(s, task);
            lemma_replica_keeps(c, node, s.complete(task));
            lemma_inv_same(c.with_replica(node, s.complete(task)), c.step(e));
        },
    }
}

/// Every run from a state that meets the invariant ends in one that does.
pub proof fn lemma_cluster_run(c: ClusterView, events: Seq<ClusterEvent>)
    requires
        c.inv(),
    ensures
        c.run(events).inv(),
    decreases events.len(),
{
    if events.len() > 0 {
        lemma_cluster_run(c, events.drop_last());
        let before = c.run(events.drop_last());
        if before.enabled(events.last()) {
            lemma_cluster_step(before, events.last());
        }
    }
}

/// Commit agreement: after any run of a cluster, two replicas that hold a
/// transaction as committed or applied hold the same execution time and
/// the same dependencies for it: those that its coordinator decided.
pub proof fn lemma_commit_agreement(
    nodes: Set<NodeId>,
    fast_quorum: nat,
    slow_quorum: nat,
    events: Seq<ClusterEvent>,
    a: NodeId,
    b: NodeId,
    id: TxId,
)
    requires
        fast_quorum >= 1,
        slow_quorum >= 1,
        ({
            let c = ClusterView::init(nodes, fast_quorum, slow_quorum).run(events);
            &&& c.replicas.contains_key(a)
            &&& c.replicas.contains_key(b)
            &&& c.replicas[a].records.contains_key(id)
            &&& c.replicas[b].records.contains_key(id)
            &&& c.replicas[a].records[id].status.rank() >= TxStatus::Committed.rank()
            &&& c.replicas[b].records[id].status.rank() >= TxStatus::Committed.rank()
        }),
    ensures
        ({
            let c = ClusterView::init(nodes, fast_quorum, slow_quorum).run(events);
            &&& c.replicas[a].records[id].tx == c.replicas[b].records[id].tx
            &&& c.replicas[a].records[id].deps == c.replicas[b].records[id].deps
            &&& c.coordinators.contains_key(id.origin)
            &&& c.coordinators[id.origin].tallies.contains_key(id)
            &&& c.coordinators[id.origin].tallies[id].tx == c.replicas[a].records[id].tx
            &&& c.coordinators[id.origin].tallies[id].deps == c.replicas[a].records[id].deps
        }),
{
    let start = ClusterView::init(nodes, fast_quorum, slow_quorum);
    lemma_cluster_init(nodes, fast_quorum, slow_quorum);
    lemma_cluster_run(start, events);
    let c = start.run(events);
    let fa = CommitFact { id, tx: c.replicas[a].records[id].tx, deps: c.replicas[a].records[id].deps };
    let fb = CommitFact { id, tx: c.replicas[b].records[id].tx, deps: c.replicas[b].records[id].deps };
    assert(c.commits.contains(fa));
    assert(c.commits.contains(fb));
    assert(c.decided(fa));
    assert(c.decided(fb));
}

/// Whether every applied write is reflected depends on the replicas and
/// the stores alone.
proof fn lemma_stores_same(a: ClusterView, b: ClusterView)
    requires
        a.stores_inv(),
        a.replicas == b.replicas,
        a.stores == b.stores,
    ensures
        b.stores_inv(),
{
    assert forall|n: NodeId, j: int, key: Key|
        b.replicas.contains_key(n) && 0 <= j < b.replicas[n].log.len() && b.replicas[n].log[j].status
            == TxStatus::Applied && (#[trigger] b.wrote(n, j, key)) is Some implies b.reflected(
        n,
        j,
        key,
    ) by {
        assert(a.wrote(n, j, key) is Some);
        assert(a.reflected(n, j, key));
        let later = choose|later: int|
            j <= later < a.replicas[n].log.len() && a.wrote(n, later, key) == read_of(
                a.stores[n],
                key,
            ).value && (#[trigger] a.replicas[n].log[later]).status == TxStatus::Applied
                && a.wrote(n, later, key) is Some;
        assert(b.replicas[n].log[later].status == TxStatus::Applied);
        assert(b.wrote(n, later, key) == a.wrote(n, later, key));
    }
}

/// The invariant does not depend on the stores.
proof fn lemma_inv_same(a: ClusterView, b: ClusterView)
    requires
        a.inv(),
        a.replicas == b.replicas,
        a.coordinators == b.coordinators,
        a.commits == b.commits,
        a.answers == b.answers,
    ensures
        b.inv(),
{
    assert forall|n: NodeId, id: TxId, i: int|
        b.coordinators.contains_key(n) && b.coordinators[n].tallies.contains_key(id) && 0 <= i
            < b.coordinators[n].tallies[id].proposals.len() implies b.answers.contains(
        #[trigger] b.tallied(n, id, i),
    ) by {
        assert(a.answers.contains(a.tallied(n, id, i)));
    }
    assert forall|f: CommitFact| #[trigger] b.commits.contains(f) implies b.decided(f) by {
        assert(a.decided(f));
    }
}

/// The replica of `node` moves to `next` without applying anything: the
/// log grows by entries that are not `Applied` at most, and the writes of
/// applied transactions stay as they are.
proof fn lemma_stores_kept(c: ClusterView, node: NodeId, next: ReplicaView)
    requires
        c.inv(),
        c.stores_inv(),
        c.replicas.contains_key(node),
        c.replicas[node].log.len() <= next.log.len(),
        forall|j: int| 0 <= j < c.replicas[node].log.len() ==> next.log[j] == c.replicas[node].log[j],
        forall|j: int|
            c.replicas[node].log.len() <= j < next.log.len() ==> (#[trigger] next.log[j]).status
                != TxStatus::Applied,
        forall|id: TxId| #[trigger]
            c.replicas[node].records.contains_key(id) && c.replicas[node].records[id].status
                == TxStatus::Applied ==> next.records.contains_key(id)
                && next.records[id].apply_writes == c.replicas[node].records[id].apply_writes,
    ensures
        c.with_replica(node, next).stores_inv(),
{
    let after = c.with_replica(node, next);
    let s = c.replicas[node];
    assert(after.stores.dom() =~= after.replicas.dom());
    assert forall|n: NodeId, j: int, key: Key|
        after.replicas.contains_key(n) && 0 <= j < after.replicas[n].log.len()
            && after.replicas[n].log[j].status == TxStatus::Applied && (#[trigger] after.wrote(
            n,
            j,
            key,
        )) is Some implies after.reflected(n, j, key) by {
        if n != node {
            assert(c.wrote(n, j, key) is Some);
            assert(c.reflected(n, j, key));
            let later = choose|later: int|
                j <= later < c.replicas[n].log.len() && c.wrote(n, later, key) == read_of(
                    c.stores[n],
                    key,
                ).value && (#[trigger] c.replicas[n].log[later]).status == TxStatus::Applied
                    && c.wrote(n, later, key) is Some;
            assert(after.replicas[n].log[later].status == TxStatus::Applied);
        } else {
            assert(j < s.log.len());
            assert(s.log[j] == next.log[j]);
            assert(s.records.contains_key(s.log[j].id));
            assert(c.wrote(n, j, key) is Some);
            assert(c.reflected(n, j, key));
            let later = choose|later: int|
                j <= later < s.log.len() && c.wrote(n, later, key) == read_of(
                    c.stores[n],
                    key,
                ).value && (#[trigger] s.log[later]).status == TxStatus::Applied && c.wrote(
                    n,
                    later,
                    key,
                ) is Some;
            assert(next.log[later] == s.log[later]);
            assert(s.records.contains_key(s.log[later].id));
            assert(after.replicas[n].log[later].status == TxStatus::Applied);
            assert(after.wrote(n, later, key) == c.wrote(n, later, key));
        }
    }
}

/// Applying a transaction keeps every applied write reflected.
proof fn lemma_stores_applied(c: ClusterView, node: NodeId, task: Task)
    requires
        c.inv(),
        c.stores_inv(),
        c.replicas.contains_key(node),
        c.replicas[node].ready(task),
        task.apply,
    ensures
        c.step(ClusterEvent::TaskDone { node, task }).stores_inv(),
{
    let after = c.step(ClusterEvent::TaskDone { node, task });
    let s = c.replicas[node];
    let w = s.records[task.id].apply_writes->0;
    let last = s.log.len() as int;
    assert(after.stores.dom() =~= after.replicas.dom());
    assert(after.replicas[node].log[last] == (LogEntry { id: task.id, status: TxStatus::Applied }));
    assert forall|n: NodeId, j: int, key: Key|
        after.replicas.contains_key(n) && 0 <= j < after.replicas[n].log.len()
            && after.replicas[n].log[j].status == TxStatus::Applied && (#[trigger] after.wrote(
            n,
            j,
            key,
        )) is Some implies after.reflected(n, j, key) by {
        if n != node {
            assert(c.wrote(n, j, key) is Some);
            assert(c.reflected(n, j, key));
            let later = choose|later: int|
                j <= later < c.replicas[n].log.len() && c.wrote(n, later, key) == read_of(
                    c.stores[n],
                    key,
                ).value && (#[trigger] c.replicas[n].log[later]).status == TxStatus::Applied
                    && c.wrote(n, later, key) is Some;
            assert(after.replicas[n].log[later].status == TxStatus::Applied);
        } else {
            lemma_no_lost_writes(c.stores[node], w, key);
            assert(after.wrote(node, last, key) == last_write(w, key));
            if last_write(w, key) is Some {
                assert(after.replicas[node].log[last].status == TxStatus::Applied);
                assert(after.reflected(node, j, key));
            } else {
                assert(j < last);
                assert(s.log[j].status == TxStatus::Applied);
                assert(s.records.contains_key(s.log[j].id));
                assert(s.log[j].id != task.id);
                assert(c.wrote(node, j, key) is Some);
                assert(c.reflected(node, j, key));
                let later = choose|later: int|
                    j <= later < s.log.len() && c.wrote(node, later, key) == read_of(
                        c.stores[node],
                        key,
                    ).value && (#[trigger] s.log[later]).status == TxStatus::Applied && c.wrote(
                        node,
                        later,
                        key,
                    ) is Some;
                assert(s.records.contains_key(s.log[later].id));
                assert(s.log[later].id != task.id);
                assert(after.replicas[node].log[later] == s.log[later]);
                assert(after.replicas[node].log[later].status == TxStatus::Applied);
                assert(after.wrote(node, later, key) == c.wrote(node, later, key));
            }
        }
    }
}

/// Every event keeps every applied write reflected.
pub proof fn lemma_stores_step(c: ClusterView, e: ClusterEvent)
    requires
        c.inv(),
        c.stores_inv(),
        c.enabled(e),
    ensures
        c.step(e).stores_inv(),
{
    match e {
        ClusterEvent::PreAccept { node, msg } => {
            let next = c.replicas[node].preaccept(msg);
            lemma_stores_kept(c, node, next);
            lemma_stores_same(c.with_replica(node, next), c.step(e));
        },
        ClusterEvent::Accept { node, msg } => {
            lemma_stores_kept(c, node, c.replicas[node].accept(msg));
        },
        ClusterEvent::Commit { node, msg } => {
            lemma_stores_kept(c, node, c.replicas[node].commit(msg));
        },
        ClusterEvent::ReadRequest { node, msg } => {
            lemma_stores_kept(c, node, c.replicas[node].defer_read(msg));
        },
        ClusterEvent::ApplyRequest { node, msg } => {
            lemma_stores_kept(c, node, c.replicas[node].defer_apply(msg));
        },
        ClusterEvent::TaskDone { node, task } => {
            if task.apply {
                lemma_stores_applied(c, node, task);
            } else {
                lemma_stores_kept(c, node, c.replicas[node].complete(task));
            }
        },
        _ => {
            lemma_stores_same(c, c.step(e));
        },
    }
}

/// Every run from a state in which every applied write is reflected ends
/// in one.
pub proof fn lemma_stores_run(c: ClusterView, events: Seq<ClusterEvent>)
    requires
        c.inv(),
        c.stores_inv(),
    ensures
        c.run(events).inv(),
        c.run(events).stores_inv(),
    decreases events.len(),
{
    if events.len() > 0 {
        lemma_stores_run(c, events.drop_last());
        let before = c.run(events.drop_last());
        if before.enabled(events.last()) {
            lemma_cluster_step(before, events.last());
            lemma_stores_step(before, events.last());
        }
    }
}

/// No lost writes: after any run of a cluster, where a replica holds a
/// transaction as applied, a read of a key that the transaction wrote finds
/// in the node's store what that transaction wrote, or what a transaction
/// wrote that the node applied after it. Here `j` is the place in the
/// node's log where the transaction was applied.
pub proof fn lemma_cluster_no_lost_writes(
    nodes: Set<NodeId>,
    fast_quorum: nat,
    slow_quorum: nat,
    events: Seq<ClusterEvent>,
    n: NodeId,
    j: int,
    key: Key,
)
    requires
        fast_quorum >= 1,
        slow_quorum >= 1,
        ({
            let c = ClusterView::init(nodes, fast_quorum, slow_quorum).run(events);
            &&& c.replicas.contains_key(n)
            &&& 0 <= j < c.replicas[n].log.len()
            &&& c.replicas[n].log[j].status == TxStatus::Applied
            &&& c.wrote(n, j, key) is Some
        }),
    ensures
        ({
            let c = ClusterView::init(nodes, fast_quorum, slow_quorum).run(events);
            exists|later: int|
                j <= later < c.replicas[n].log.len() && (#[trigger] c.replicas[n].log[later]).status
                    == TxStatus::Applied && c.wrote(n, later, key) is Some && read_of(
                    c.stores[n],
                    key,
                ).value == c.wrote(n, later, key)
        }),
{
    let start = ClusterView::init(nodes, fast_quorum, slow_quorum);
    lemma_cluster_init(nodes, fast_quorum, slow_quorum);
    assert(start.stores.dom() =~= start.replicas.dom());
    lemma_stores_run(start, events);
    let c = start.run(events);
    assert(c.reflected(n, j, key));
    let later = choose|later: int|
        j <= later < c.replicas[n].log.len() && c.wrote(n, later, key) == read_of(
            c.stores[n],
            key,
        ).value && (#[trigger] c.replicas[n].log[later]).status == TxStatus::Applied && c.wrote(
            n,
            later,
            key,
        ) is Some;
    assert(c.replicas[n].log[later].status == TxStatus::Applied);
}

/// Execution order: after any run of a cluster, where a replica holds a
/// transaction as applied, it applied each of the transaction's
/// dependencies before it: its log shows both, the dependency first.
pub proof fn lemma_cluster_execution_order(
    nodes: Set<NodeId>,
    fast_quorum: nat,
    slow_quorum: nat,
    events: Seq<ClusterEvent>,
    n: NodeId,
    t: TxId,
    u: TxId,
)
    requires
        fast_quorum >= 1,
        slow_quorum >= 1,
        ({
            let c = ClusterView::init(nodes, fast_quorum, slow_quorum).run(events);
            &&& c.replicas.contains_key(n)
            &&& c.replicas[n].records.contains_key(t)
            &&& c.replicas[n].records[t].status == TxStatus::Applied
            &&& c.replicas[n].records[t].deps.contains(u)
        }),
    ensures
        ({
            let log = ClusterView::init(nodes, fast_quorum, slow_quorum).run(events).replicas[n].log;
            exists|i: int, j: int|
                0 <= i < j < log.len() && #[trigger] log[i] == (LogEntry {
                    id: u,
                    status: TxStatus::Applied,
                }) && #[trigger] log[j] == (LogEntry { id: t, status: TxStatus::Applied })
        }),
{
    let start = ClusterView::init(nodes, fast_quorum, slow_quorum);
    lemma_cluster_init(nodes, fast_quorum, slow_quorum);
    lemma_cluster_run(start, events);
    lemma_execution_order(start.run(events).replicas[n], t, u);
}

/// Fast-path correctness: where, after any run of a cluster, a coordinator
/// commits a transaction on an answer to its proposal, at least a fast
/// quorum of the answers in its tally are exactly the committed time and
/// dependencies, each from another replica, and each of them is what that
/// replica answered to the proposal. Here `i` is any place in the tally.
pub proof fn lemma_fast_path_agreement(
    nodes: Set<NodeId>,
    fast_quorum: nat,
    slow_quorum: nat,
    events: Seq<ClusterEvent>,
    node: NodeId,
    from: NodeId,
    msg: PreAcceptOk,
    i: int,
)
    requires
        fast_quorum >= 1,
        slow_quorum >= 1,
        ({
            let c = ClusterView::init(nodes, fast_quorum, slow_quorum).run(events);
            &&& c.enabled(ClusterEvent::Proposal { node, from, msg })
            &&& c.coordinators[node].proposal_decision(from, msg) == Decision::Commit
            &&& 0 <= i < c.coordinators[node].proposals_with(from, msg).len()
        }),
    ensures
        ({
            let c = ClusterView::init(nodes, fast_quorum, slow_quorum).run(events);
            let after = c.step(ClusterEvent::Proposal { node, from, msg });
            let t = after.coordinators[node].tallies[msg.id];
            &&& after.commits.contains(CommitFact { id: msg.id, tx: t.tx, deps: t.deps })
            &&& t.tx == msg.proposed_tx
            &&& t.deps == msg.deps@
            &&& t.proposals == c.coordinators[node].proposals_with(from, msg)
            &&& distinct_peers(t.proposals)
            &&& agreeing(t.proposals, t.tx, t.deps) >= fast_quorum
            &&& t.proposals[i].tx == t.tx && t.proposals[i].deps == t.deps ==> after.answers.contains(
                AnswerFact { peer: t.proposals[i].peer, id: msg.id, tx: t.tx, deps: t.deps },
            )
        }),
{
    let start = ClusterView::init(nodes, fast_quorum, slow_quorum);
    lemma_cluster_init(nodes, fast_quorum, slow_quorum);
    lemma_cluster_run(start, events);
    let c = start.run(events);
    let e = ClusterEvent::Proposal { node, from, msg };
    lemma_cluster_step(c, e);
    let after = c.step(e);
    lemma_fast_path(c.coordinators[node], from, msg);
    assert(after.coordinators.contains_key(node));
    assert(after.coordinators[node].tallies.contains_key(msg.id));
    assert(after.answers.contains(after.tallied(node, msg.id, i)));
    lemma_quorums_kept(start, events, node);
}

/// A run adds no coordinator and changes no coordinator's quorum sizes.
proof fn lemma_quorums_kept(c: ClusterView, events: Seq<ClusterEvent>, node: NodeId)
    ensures
        c.run(events).coordinators.contains_key(node) == c.coordinators.contains_key(node),
        c.coordinators.contains_key(node) ==> c.run(events).coordinators[node].fast_quorum
            == c.coordinators[node].fast_quorum && c.run(events).coordinators[node].slow_quorum
            == c.coordinators[node].slow_quorum,
    decreases events.len(),
{
    if events.len() > 0 {
        lemma_quorums_kept(c, events.drop_last(), node);
    }
}

} // verus!
