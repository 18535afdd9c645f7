//! The coordinator side of a node as a mathematical model: the tally of
//! each transaction that the node drives, and the decisions taken from it.
use crate::protocol::{AcceptOk, ApplyOk, KeyRead, KeyWrite, PreAcceptOk, ReadOk, TxKind};
use crate::timestamp::{Key, NodeId, Timestamp, TxId};
use vstd::prelude::*;

verus! {

/// What the coordinator of a transaction waits for.
#[derive(Clone, Copy, Debug, PartialEq, Eq, Structural)]
pub enum Phase {
    AwaitingPreAccept,
    AwaitingAccept,
    AwaitingRead,
    Completed,
}

impl Phase {
    /// Whether the transaction's execution time and dependencies are final.
    pub open spec fn committed(self) -> bool {
        self == Phase::AwaitingRead || self == Phase::Completed
    }
}

/// What the coordinator does on an answer to its proposal.
#[derive(Clone, Copy, Debug, PartialEq, Eq, Structural)]
pub enum Decision {
    /// Too few answers yet.
    Wait,
    /// The answers diverge: ask the replicas to accept the latest time and
    /// all dependencies.
    Accept,
    /// Enough answers agree: commit at once.
    Commit,
}

/// One replica's answer to a proposal.
pub struct ProposalView {
    pub peer: NodeId,
    pub tx: Timestamp,
    pub deps: Set<TxId>,
}

/// What one replica read for a transaction.
pub struct ReadView {
    pub peer: NodeId,
    pub payload: Seq<KeyRead>,
}

/// The tally of one transaction.
pub struct TallyView {
    pub keys: Seq<Key>,
    pub kind: TxKind,
    pub command: Seq<KeyWrite>,
    pub phase: Phase,
    /// The answers to the proposal, one for each replica that answered.
    pub proposals: Seq<ProposalView>,
    /// The replicas that acknowledged the `Accept`.
    pub accepts: Seq<NodeId>,
    /// What the replicas read, one payload for each replica that answered.
    pub reads: Seq<ReadView>,
    /// The replicas that acknowledged the `Apply`.
    pub applies: Seq<NodeId>,
    /// The execution time; final once the phase is `AwaitingRead`.
    pub tx: Timestamp,
    /// The dependencies; final once the phase is `AwaitingRead`.
    pub deps: Set<TxId>,
}

/// The state of a coordinator.
pub struct CoordinatorView {
    pub node: NodeId,
    /// The logical time of the transaction born last.
    pub counter: u64,
    pub fast_quorum: nat,
    pub slow_quorum: nat,
    pub tallies: Map<TxId, TallyView>,
}

/// The position of the answer of `peer`.
pub open spec fn answered_at(ps: Seq<ProposalView>, peer: NodeId, i: int) -> bool {
    0 <= i < ps.len() && ps[i].peer == peer
}

/// No replica has two answers in the list.
pub open spec fn distinct_peers(ps: Seq<ProposalView>) -> bool {
    forall|i: int, j: int| 0 <= i < j < ps.len() ==> ps[i].peer != ps[j].peer
}

/// The list with the answer `p` in it: in the place of an earlier answer
/// of the same replica, or at the end.
pub open spec fn with_proposal(ps: Seq<ProposalView>, p: ProposalView) -> Seq<ProposalView> {
    if exists|i: int| answered_at(ps, p.peer, i) {
        ps.update(choose|i: int| answered_at(ps, p.peer, i), p)
    } else {
        ps.push(p)
    }
}

/// The number of answers that are exactly `(tx, deps)`.
pub open spec fn agreeing(ps: Seq<ProposalView>, tx: Timestamp, deps: Set<TxId>) -> nat
    decreases ps.len(),
{
    if ps.len() == 0 {
        0
    } else {
        agreeing(ps.drop_last(), tx, deps) + if ps.last().tx == tx && ps.last().deps == deps {
            1nat
        } else {
            0nat
        }
    }
}

/// The latest of the proposed times.
pub open spec fn max_tx(ps: Seq<ProposalView>) -> Timestamp
    decreases ps.len(),
{
    if ps.len() == 0 {
        Timestamp { logical: 0, node: 0 }
    } else {
        max_tx(ps.drop_last()).spec_max(ps.last().tx)
    }
}

/// The dependencies of all answers together.
pub open spec fn union_deps(ps: Seq<ProposalView>) -> Set<TxId>
    decreases ps.len(),
{
    if ps.len() == 0 {
        Set::empty()
    } else {
        union_deps(ps.drop_last()).union(ps.last().deps)
    }
}

/// The decision on a list of answers whose newest is `(tx, deps)`. The
/// fast path is taken where at least `fast` answers are exactly that pair;
/// else the slow path where at least `slow` answers are in.
pub open spec fn decide(ps: Seq<ProposalView>, tx: Timestamp, deps: Set<TxId>, fast: nat, slow: nat) -> Decision {
    if agreeing(ps, tx, deps) >= fast {
        Decision::Commit
    } else if ps.len() >= slow {
        Decision::Accept
    } else {
        Decision::Wait
    }
}

/// The position of the payload of `peer`.
pub open spec fn read_at(rs: Seq<ReadView>, peer: NodeId, i: int) -> bool {
    0 <= i < rs.len() && rs[i].peer == peer
}

/// No replica has two payloads in the list.
pub open spec fn distinct_readers(rs: Seq<ReadView>) -> bool {
    forall|i: int, j: int| 0 <= i < j < rs.len() ==> rs[i].peer != rs[j].peer
}

/// The list with the payload `r` in it: in the place of an earlier payload
/// of the same replica, or at the end.
pub open spec fn with_read(rs: Seq<ReadView>, r: ReadView) -> Seq<ReadView> {
    if exists|i: int| read_at(rs, r.peer, i) {
        rs.update(choose|i: int| read_at(rs, r.peer, i), r)
    } else {
        rs.push(r)
    }
}

/// The list of acknowledging replicas with `peer` in it, once.
pub open spec fn with_peer(acks: Seq<NodeId>, peer: NodeId) -> Seq<NodeId> {
    if acks.contains(peer) {
        acks
    } else {
        acks.push(peer)
    }
}

/// The writes that a transaction applies: its command where it writes,
/// nothing where it reads.
pub open spec fn write_effect(kind: TxKind, command: Seq<KeyWrite>) -> Seq<KeyWrite> {
    if kind == TxKind::Write {
        command
    } else {
        Seq::empty()
    }
}

impl CoordinatorView {
    /// A coordinator that drives no transaction.
    pub open spec fn init(node: NodeId, fast_quorum: nat, slow_quorum: nat) -> CoordinatorView {
        CoordinatorView { node, counter: 0, fast_quorum, slow_quorum, tallies: Map::empty() }
    }

    /// The identifier of the transaction born next.
    pub open spec fn next_id(self) -> TxId {
        TxId { logical: (self.counter + 1) as u64, origin: self.node }
    }

    /// The state after a transaction on `keys` is born.
    pub open spec fn begin(self, keys: Seq<Key>, kind: TxKind, command: Seq<KeyWrite>) -> CoordinatorView {
        CoordinatorView {
            counter: (self.counter + 1) as u64,
            tallies: self.tallies.insert(
                self.next_id(),
                TallyView {
                    keys,
                    kind,
                    command,
                    phase: Phase::AwaitingPreAccept,
                    proposals: Seq::empty(),
                    accepts: Seq::empty(),
                    reads: Seq::empty(),
                    applies: Seq::empty(),
                    tx: self.next_id().spec_t0(),
                    deps: Set::empty(),
                },
            ),
            ..self
        }
    }

    /// Whether an answer to a proposal is counted: the transaction is driven
    /// here and still waits for such answers.
    pub open spec fn counts_proposal(self, id: TxId) -> bool {
        self.tallies.contains_key(id) && self.tallies[id].phase == Phase::AwaitingPreAccept
    }

    /// The answers of transaction `msg.id` with the one of `from` in it.
    pub open spec fn proposals_with(self, from: NodeId, msg: PreAcceptOk) -> Seq<ProposalView> {
        with_proposal(
            self.tallies[msg.id].proposals,
            ProposalView { peer: from, tx: msg.proposed_tx, deps: msg.deps@ },
        )
    }

    /// The decision on the answer of `from`; `Wait` where it is not counted.
    pub open spec fn proposal_decision(self, from: NodeId, msg: PreAcceptOk) -> Decision {
        if self.counts_proposal(msg.id) {
            decide(
                self.proposals_with(from, msg),
                msg.proposed_tx,
                msg.deps@,
                self.fast_quorum,
                self.slow_quorum,
            )
        } else {
            Decision::Wait
        }
    }

    /// The state after the answer of `from` to a proposal. A counted answer
    /// is tallied. On the fast path the transaction is committed at the
    /// answer's time and dependencies; on the slow path the latest time and
    /// all dependencies are chosen and the replicas are asked to accept them.
    pub open spec fn store_proposal(self, from: NodeId, msg: PreAcceptOk) -> CoordinatorView {
        if self.counts_proposal(msg.id) {
            let t = self.tallies[msg.id];
            let ps = self.proposals_with(from, msg);
            let next = match self.proposal_decision(from, msg) {
                Decision::Commit => TallyView {
                    proposals: ps,
                    phase: Phase::AwaitingRead,
                    tx: msg.proposed_tx,
                    deps: msg.deps@,
                    ..t
                },
                Decision::Accept => TallyView {
                    proposals: ps,
                    phase: Phase::AwaitingAccept,
                    tx: max_tx(ps),
                    deps: union_deps(ps),
                    ..t
                },
                Decision::Wait => TallyView { proposals: ps, ..t },
            };
            CoordinatorView { tallies: self.tallies.insert(msg.id, next), ..self }
        } else {
            self
        }
    }

    /// Whether an acknowledgement of an `Accept` is counted.
    pub open spec fn counts_accept(self, id: TxId) -> bool {
        self.tallies.contains_key(id) && self.tallies[id].phase == Phase::AwaitingAccept
    }

    /// Whether the acknowledgement of `from` completes the slow quorum.
    pub open spec fn accept_commits(self, from: NodeId, msg: AcceptOk) -> bool {
        self.counts_accept(msg.id) && with_peer(self.tallies[msg.id].accepts, from).len()
            >= self.slow_quorum
    }

    /// The state after the acknowledgement of `from` of an `Accept`.
    pub open spec fn store_accept_ok(self, from: NodeId, msg: AcceptOk) -> CoordinatorView {
        if self.counts_accept(msg.id) {
            let t = self.tallies[msg.id];
            let next = TallyView {
                accepts: with_peer(t.accepts, from),
                phase: if self.accept_commits(from, msg) {
                    Phase::AwaitingRead
                } else {
                    Phase::AwaitingAccept
                },
                ..t
            };
            CoordinatorView { tallies: self.tallies.insert(msg.id, next), ..self }
        } else {
            self
        }
    }

    /// Whether the read phase of transaction `id` can begin or is under way.
    pub open spec fn can_execute(self, id: TxId) -> bool {
        self.tallies.contains_key(id) && self.tallies[id].phase == Phase::AwaitingRead
    }

    /// The payloads of transaction `msg.id` with the one of `from` in it.
    pub open spec fn reads_with(self, from: NodeId, msg: ReadOk) -> Seq<ReadView> {
        with_read(self.tallies[msg.id].reads, ReadView { peer: from, payload: msg.payload@ })
    }

    /// Whether the payload of `from` completes the read quorum: a slow
    /// quorum of replicas have answered.
    pub open spec fn read_applies(self, from: NodeId, msg: ReadOk) -> bool {
        self.can_execute(msg.id) && self.reads_with(from, msg).len() >= self.slow_quorum
    }

    /// The state after the read payload of `from`.
    pub open spec fn store_read_ok(self, from: NodeId, msg: ReadOk) -> CoordinatorView {
        if self.can_execute(msg.id) {
            let t = self.tallies[msg.id];
            let next = TallyView {
                reads: self.reads_with(from, msg),
                phase: if self.read_applies(from, msg) {
                    Phase::Completed
                } else {
                    Phase::AwaitingRead
                },
                ..t
            };
            CoordinatorView { tallies: self.tallies.insert(msg.id, next), ..self }
        } else {
            self
        }
    }

    /// The state after the acknowledgement of `from` of an `Apply`.
    pub open spec fn store_apply_ok(self, from: NodeId, msg: ApplyOk) -> CoordinatorView {
        if self.tallies.contains_key(msg.id) && self.tallies[msg.id].phase == Phase::Completed {
            let t = self.tallies[msg.id];
            CoordinatorView {
                tallies: self.tallies.insert(
                    msg.id,
                    TallyView { applies: with_peer(t.applies, from), ..t },
                ),
                ..self
            }
        } else {
            self
        }
    }

    /// What holds of every state that a coordinator reaches: each quorum
    /// needs at least one replica; the coordinator drives only transactions
    /// that it gave birth to; no replica is tallied twice; and while a
    /// transaction waits for answers to its proposal, neither quorum is
    /// reached yet.
    pub open spec fn inv(self) -> bool {
        &&& self.fast_quorum >= 1
        &&& self.slow_quorum >= 1
        &&& forall|id: TxId| #[trigger]
            self.tallies.contains_key(id) ==> {
                &&& id.origin == self.node
                &&& 1 <= id.logical <= self.counter
                &&& distinct_peers(self.tallies[id].proposals)
                &&& distinct_readers(self.tallies[id].reads)
                &&& self.tallies[id].accepts.no_duplicates()
                &&& self.tallies[id].applies.no_duplicates()
                &&& self.tallies[id].phase == Phase::AwaitingPreAccept ==> undecided(
                    self.tallies[id].proposals,
                    self.fast_quorum,
                    self.slow_quorum,
                )
            }
    }
}

/// Neither quorum is reached: fewer than `slow` answers are in, and no
/// time and dependencies are proposed by `fast` of them.
pub open spec fn undecided(ps: Seq<ProposalView>, fast: nat, slow: nat) -> bool {
    &&& ps.len() < slow
    &&& forall|tx: Timestamp, deps: Set<TxId>| #[trigger] agreeing(ps, tx, deps) < fast
}

} // verus!
