//! A cluster as a mathematical model: the two sides of every node, the
//! store of every node, and what the nodes have sent.
use crate::coordinator_model::{CoordinatorView, Decision};
use crate::protocol::{
    Accept, AcceptOk, Apply, ApplyOk, Commit, KeyWrite, PreAccept, PreAcceptOk, Read, ReadOk, TxKind,
};
use crate::replica_model::{ReplicaView, Task, TxStatus};
use crate::store::{applied, last_write, read_of};
use crate::timestamp::{Key, NodeId, Timestamp, TxId};
use vstd::prelude::*;

verus! {


/// What a `Commit` message says.
pub struct CommitFact {
    pub id: TxId,
    pub tx: Timestamp,
    pub deps: Set<TxId>,
}

/// What a replica answered to a proposal.
pub struct AnswerFact {
    pub peer: NodeId,
    pub id: TxId,
    pub tx: Timestamp,
    pub deps: Set<TxId>,
}

/// The state of a cluster.
pub struct ClusterView {
    pub replicas: Map<NodeId, ReplicaView>,
    pub coordinators: Map<NodeId, CoordinatorView>,
    /// The commits that coordinators have sent so far.
    pub commits: Set<CommitFact>,
    /// The answers to proposals that replicas have sent so far.
    pub answers: Set<AnswerFact>,
    /// The store of each node: what its executor holds under each key.
    pub stores: Map<NodeId, Map<Key, u64>>,
}

/// What happens in a cluster, one event at a time. The executor of every
/// node is a store that applies the writes it is handed and never fails. A
/// replica may be handed
/// any proposal, `Accept` or request, and a coordinator any
/// acknowledgement or payload, whoever made it up. A replica is handed only
/// a `Commit` that a coordinator has sent, and a coordinator only an answer
/// to a proposal that the replica named as its sender has sent.
#[allow(inconsistent_fields)]
pub enum ClusterEvent {
    Begin { node: NodeId, keys: Seq<Key>, kind: TxKind, command: Seq<KeyWrite> },
    Proposal { node: NodeId, from: NodeId, msg: PreAcceptOk },
    AcceptAck { node: NodeId, from: NodeId, msg: AcceptOk },
    ReadPayload { node: NodeId, from: NodeId, msg: ReadOk },
    ApplyAck { node: NodeId, from: NodeId, msg: ApplyOk },
    PreAccept { node: NodeId, msg: PreAccept },
    Accept { node: NodeId, msg: Accept },
    Commit { node: NodeId, msg: Commit },
    ReadRequest { node: NodeId, msg: Read },
    ApplyRequest { node: NodeId, msg: Apply },
    TaskDone { node: NodeId, task: Task },
}

impl ClusterView {
    /// A cluster of the nodes `nodes` in which nothing has happened.
    pub open spec fn init(nodes: Set<NodeId>, fast_quorum: nat, slow_quorum: nat) -> ClusterView {
        ClusterView {
            replicas: Map::new(|n: NodeId| nodes.contains(n), |n: NodeId| ReplicaView::init(n)),
            coordinators: Map::new(
                |n: NodeId| nodes.contains(n),
                |n: NodeId| CoordinatorView::init(n, fast_quorum, slow_quorum),
            ),
            commits: Set::empty(),
            answers: Set::empty(),
            stores: Map::new(|n: NodeId| nodes.contains(n), |n: NodeId| Map::empty()),
        }
    }

    /// Whether the event can happen: its node is in the cluster; a
    /// transaction is born only while the node's counter has room; a task
    /// is done only if it was ready; a `Commit` is delivered only if a
    /// coordinator has sent it, and an answer to a proposal only if the
    /// replica has sent it.
    pub open spec fn enabled(self, e: ClusterEvent) -> bool {
        match e {
            ClusterEvent::Begin { node, .. } => self.coordinators.contains_key(node)
                && self.coordinators[node].counter < u64::MAX,
            ClusterEvent::Proposal { node, from, msg } => self.coordinators.contains_key(node)
                && self.answers.contains(
                AnswerFact { peer: from, id: msg.id, tx: msg.proposed_tx, deps: msg.deps@ },
            ),
            ClusterEvent::AcceptAck { node, .. } => self.coordinators.contains_key(node),
            ClusterEvent::ReadPayload { node, .. } => self.coordinators.contains_key(node),
            ClusterEvent::ApplyAck { node, .. } => self.coordinators.contains_key(node),
            ClusterEvent::PreAccept { node, .. } => self.replicas.contains_key(node),
            ClusterEvent::Accept { node, .. } => self.replicas.contains_key(node),
            ClusterEvent::Commit { node, msg } => self.replicas.contains_key(node)
                && self.commits.contains(CommitFact { id: msg.id, tx: msg.tx, deps: msg.deps@ }),
            ClusterEvent::ReadRequest { node, .. } => self.replicas.contains_key(node),
            ClusterEvent::ApplyRequest { node, .. } => self.replicas.contains_key(node),
            ClusterEvent::TaskDone { node, task } => self.replicas.contains_key(node)
                && self.replicas[node].ready(task),
        }
    }

    /// The cluster with the coordinator of `node` in state `next`, and with
    /// the commit `sent` among those sent, if there is one.
    pub open spec fn with_coordinator(self, node: NodeId, next: CoordinatorView, sent: Option<
        CommitFact,
    >) -> ClusterView {
        ClusterView {
            coordinators: self.coordinators.insert(node, next),
            commits: match sent {
                Some(f) => self.commits.insert(f),
                None => self.commits,
            },
            ..self
        }
    }

    /// The cluster with the answer `a` among those sent.
    pub open spec fn with_answer(self, a: AnswerFact) -> ClusterView {
        ClusterView { answers: self.answers.insert(a), ..self }
    }

    /// The cluster with the replica of `node` in state `next`.
    pub open spec fn with_replica(self, node: NodeId, next: ReplicaView) -> ClusterView {
        ClusterView { replicas: self.replicas.insert(node, next), ..self }
    }

    /// The state after the event.
    pub open spec fn step(self, e: ClusterEvent) -> ClusterView {
        match e {
            ClusterEvent::Begin { node, keys, kind, command } => self.with_coordinator(
                node,
                self.coordinators[node].begin(keys, kind, command),
                None,
            ),
            ClusterEvent::Proposal { node, from, msg } => {
                let c = self.coordinators[node];
                self.with_coordinator(
                    node,
                    c.store_proposal(from, msg),
                    if c.proposal_decision(from, msg) == Decision::Commit {
                        Some(CommitFact { id: msg.id, tx: msg.proposed_tx, deps: msg.deps@ })
                    } else {
                        None
                    },
                )
            },
            ClusterEvent::AcceptAck { node, from, msg } => {
                let c = self.coordinators[node];
                self.with_coordinator(
                    node,
                    c.store_accept_ok(from, msg),
                    if c.accept_commits(from, msg) {
                        Some(
                            CommitFact {
                                id: msg.id,
                                tx: c.tallies[msg.id].tx,
                                deps: c.tallies[msg.id].deps,
                            },
                        )
                    } else {
                        None
                    },
                )
            },
            ClusterEvent::ReadPayload { node, from, msg } => self.with_coordinator(
                node,
                self.coordinators[node].store_read_ok(from, msg),
                None,
            ),
            ClusterEvent::ApplyAck { node, from, msg } => self.with_coordinator(
                node,
                self.coordinators[node].store_apply_ok(from, msg),
                None,
            ),
            ClusterEvent::PreAccept { node, msg } => {
                let next = self.replicas[node].preaccept(msg);
                self.with_replica(node, next).with_answer(
                    AnswerFact {
                        peer: node,
                        id: msg.id,
                        tx: next.records[msg.id].tx,
                        deps: next.records[msg.id].deps,
                    },
                )
            },
            ClusterEvent::Accept { node, msg } => self.with_replica(
                node,
                self.replicas[node].accept(msg),
            ),
            ClusterEvent::Commit { node, msg } => self.with_replica(
                node,
                self.replicas[node].commit(msg),
            ),
            ClusterEvent::ReadRequest { node, msg } => self.with_replica(
                node,
                self.replicas[node].defer_read(msg),
            ),
            ClusterEvent::ApplyRequest { node, msg } => self.with_replica(
                node,
                self.replicas[node].defer_apply(msg),
            ),
            ClusterEvent::TaskDone { node, task } => {
                let done = self.with_replica(node, self.replicas[node].complete(task));
                if task.apply {
                    ClusterView {
                        stores: self.stores.insert(
                            node,
                            applied(
                                self.stores[node],
                                self.replicas[node].records[task.id].apply_writes->0,
                            ),
                        ),
                        ..done
                    }
                } else {
                    done
                }
            },
        }
    }

    /// The state after the events, one after the other. An event that
    /// cannot happen changes nothing.
    pub open spec fn run(self, events: Seq<ClusterEvent>) -> ClusterView
        decreases events.len(),
    {
        if events.len() == 0 {
            self
        } else {
            let before = self.run(events.drop_last());
            if before.enabled(events.last()) {
                before.step(events.last())
            } else {
                before
            }
        }
    }

    /// The coordinator of transaction `f.id` holds it as committed at the
    /// time and with the dependencies that `f` says.
    pub open spec fn decided(self, f: CommitFact) -> bool {
        &&& self.coordinators.contains_key(f.id.origin)
        &&& self.coordinators[f.id.origin].tallies.contains_key(f.id)
        &&& self.coordinators[f.id.origin].tallies[f.id].phase.committed()
        &&& self.coordinators[f.id.origin].tallies[f.id].tx == f.tx
        &&& self.coordinators[f.id.origin].tallies[f.id].deps == f.deps
    }

    /// The answer number `i` in the tally of transaction `id` at node `n`.
    pub open spec fn tallied(self, n: NodeId, id: TxId, i: int) -> AnswerFact {
        let p = self.coordinators[n].tallies[id].proposals[i];
        AnswerFact { peer: p.peer, id, tx: p.tx, deps: p.deps }
    }

    /// What holds of every state that a cluster reaches: each side meets
    /// its own invariant and knows its node; every commit that was sent is what the
    /// transaction's coordinator decided; whatever a replica holds as
    /// committed was sent as a commit; and every answer in a tally was sent
    /// by the replica that it is tallied for.
    pub open spec fn inv(self) -> bool {
        &&& forall|n: NodeId, id: TxId, i: int|
            self.coordinators.contains_key(n) && self.coordinators[n].tallies.contains_key(id) && 0
                <= i < self.coordinators[n].tallies[id].proposals.len() ==> self.answers.contains(
                #[trigger] self.tallied(n, id, i),
            )
        &&& forall|n: NodeId| #[trigger]
            self.coordinators.contains_key(n) ==> self.coordinators[n].inv()
                && self.coordinators[n].node == n
        &&& forall|n: NodeId| #[trigger]
            self.replicas.contains_key(n) ==> self.replicas[n].inv() && self.replicas[n].node == n
        &&& forall|f: CommitFact| #[trigger] self.commits.contains(f) ==> self.decided(f)
        &&& forall|n: NodeId, id: TxId|
            self.replicas.contains_key(n) && #[trigger] self.replicas[n].records.contains_key(id)
                && self.replicas[n].records[id].status.rank() >= TxStatus::Committed.rank()
                ==> self.commits.contains(
                CommitFact {
                    id,
                    tx: self.replicas[n].records[id].tx,
                    deps: self.replicas[n].records[id].deps,
                },
            )
    }
}

/// Every answer in a tally of the coordinator `s` is among `answers`.
pub open spec fn answers_cover(answers: Set<AnswerFact>, s: CoordinatorView) -> bool {
    forall|id: TxId, i: int|
        s.tallies.contains_key(id) && 0 <= i < s.tallies[id].proposals.len() ==> answers.contains(
            AnswerFact {
                peer: (#[trigger] s.tallies[id].proposals[i]).peer,
                id,
                tx: s.tallies[id].proposals[i].tx,
                deps: s.tallies[id].proposals[i].deps,
            },
        )
}

impl ClusterView {
    /// The store of node `n` holds under `key` what a transaction wrote
    /// that the node applied at position `j` of its log or later.
    pub open spec fn reflected(self, n: NodeId, j: int, key: Key) -> bool {
        exists|later: int|
            j <= later < self.replicas[n].log.len() && self.wrote(n, later, key) == read_of(
                self.stores[n],
                key,
            ).value && (#[trigger] self.replicas[n].log[later]).status == TxStatus::Applied
                && self.wrote(n, later, key) is Some
    }

    /// The value that the transaction at position `j` of the log of node
    /// `n` writes under `key`, if it writes one.
    pub open spec fn wrote(self, n: NodeId, j: int, key: Key) -> Option<u64> {
        let r = self.replicas[n].records[self.replicas[n].log[j].id];
        match r.apply_writes {
            Some(w) => last_write(w, key),
            None => None,
        }
    }

    /// Every write that a node applied is reflected in its store: under
    /// each key that an applied transaction wrote, the store holds what it
    /// or a transaction applied later wrote.
    pub open spec fn stores_inv(self) -> bool {
        &&& self.stores.dom() == self.replicas.dom()
        &&& forall|n: NodeId, j: int, key: Key|
            self.replicas.contains_key(n) && 0 <= j < self.replicas[n].log.len()
                && self.replicas[n].log[j].status == TxStatus::Applied && (#[trigger] self.wrote(
                n,
                j,
                key,
            )) is Some ==> self.reflected(n, j, key)
    }
}

} // verus!
