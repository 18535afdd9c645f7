//! What holds of every coordinator: the invariant that each step keeps,
//! what a fast-path and a slow-path decision rest on, and that a
//! transaction is committed once and for all.
use crate::coordinator_model::{
    agreeing, answered_at, distinct_peers, distinct_readers, max_tx, read_at, undecided, union_deps,
    with_peer, with_proposal, with_read, CoordinatorView, Decision, Phase, ProposalView, ReadView,
};
use crate::protocol::{AcceptOk, ApplyOk, KeyWrite, PreAcceptOk, ReadOk, TxKind};
use crate::timestamp::{lemma_timestamp_total_order, Key, NodeId, Timestamp, TxId};
use vstd::prelude::*;

verus! {

/// Tallying an answer keeps one answer for each replica.
pub proof fn lemma_with_proposal_distinct(ps: Seq<ProposalView>, p: ProposalView)
    requires
        distinct_peers(ps),
    ensures
        distinct_peers(with_proposal(ps, p)),
        exists|i: int| answered_at(with_proposal(ps, p), p.peer, i) && with_proposal(ps, p)[i] == p,
{
    let next = with_proposal(ps, p);
    if exists|i: int| answered_at(ps, p.peer, i) {
        let k = choose|i: int| answered_at(ps, p.peer, i);
        assert(answered_at(next, p.peer, k) && next[k] == p);
    } else {
        assert forall|i: int, j: int| 0 <= i < j < next.len() implies next[i].peer
            != next[j].peer by {
            if j == ps.len() {
                assert(!answered_at(ps, p.peer, i));
            }
        }
        assert(answered_at(next, p.peer, ps.len() as int) && next[ps.len() as int] == p);
    }
}

/// Noting an acknowledgement keeps each replica noted once.
pub proof fn lemma_with_peer_no_duplicates(acks: Seq<NodeId>, peer: NodeId)
    requires
        acks.no_duplicates(),
    ensures
        with_peer(acks, peer).no_duplicates(),
        with_peer(acks, peer).contains(peer),
{
    if !acks.contains(peer) {
        let next = acks.push(peer);
        assert forall|i: int, j: int| 0 <= i < next.len() && 0 <= j < next.len() && i
            != j implies next[i] != next[j] by {
            if i == acks.len() {
                assert(acks.contains(acks[j]));
            }
            if j == acks.len() {
                assert(acks.contains(acks[i]));
            }
        }
        assert(next[acks.len() as int] == peer);
    }
}

/// No more answers agree than there are, and where all do, each answer is
/// exactly the pair.
pub proof fn lemma_agreeing_bound(ps: Seq<ProposalView>, tx: Timestamp, deps: Set<TxId>)
    ensures
        agreeing(ps, tx, deps) <= ps.len(),
        agreeing(ps, tx, deps) == ps.len() ==> forall|i: int|
            0 <= i < ps.len() ==> (#[trigger] ps[i]).tx == tx && ps[i].deps == deps,
    decreases ps.len(),
{
    if ps.len() > 0 {
        lemma_agreeing_bound(ps.drop_last(), tx, deps);
        if agreeing(ps, tx, deps) == ps.len() {
            assert forall|i: int| 0 <= i < ps.len() implies (#[trigger] ps[i]).tx == tx
                && ps[i].deps == deps by {
                if i < ps.len() - 1 {
                    assert(ps.drop_last()[i] == ps[i]);
                }
            }
        }
    }
}

/// The latest proposed time is not before any answer's, and the union of
/// the dependencies holds every answer's.
pub proof fn lemma_max_union(ps: Seq<ProposalView>, i: int)
    requires
        0 <= i < ps.len(),
    ensures
        ps[i].tx.spec_le(max_tx(ps)),
        ps[i].deps.subset_of(union_deps(ps)),
    decreases ps.len(),
{
    let m = max_tx(ps.drop_last());
    lemma_timestamp_total_order(m, ps.last().tx, m);
    if i < ps.len() - 1 {
        lemma_max_union(ps.drop_last(), i);
        assert(ps.drop_last()[i] == ps[i]);
        lemma_timestamp_total_order(ps[i].tx, m, max_tx(ps));
    }
}

/// The birth of a transaction keeps the invariant, and its identifier is
/// fresh.
pub proof fn lemma_begin_inv(s: CoordinatorView, keys: Seq<Key>, kind: TxKind, command: Seq<KeyWrite>)
    requires
        s.inv(),
        s.counter < u64::MAX,
    ensures
        s.begin(keys, kind, command).inv(),
        !s.tallies.contains_key(s.next_id()),
{
    let next = s.begin(keys, kind, command);
    assert forall|id: TxId| #[trigger] next.tallies.contains_key(id) implies {
        &&& id.origin == next.node
        &&& 1 <= id.logical <= next.counter
        &&& distinct_peers(next.tallies[id].proposals)
        &&& distinct_readers(next.tallies[id].reads)
        &&& next.tallies[id].accepts.no_duplicates()
        &&& next.tallies[id].applies.no_duplicates()
        &&& next.tallies[id].phase == Phase::AwaitingPreAccept ==> undecided(
            next.tallies[id].proposals,
            next.fast_quorum,
            next.slow_quorum,
        )
    } by {
        if id != s.next_id() {
            assert(s.tallies.contains_key(id));
        } else {
            assert forall|tx: Timestamp, deps: Set<TxId>| #[trigger]
                agreeing(Seq::<ProposalView>::empty(), tx, deps) < next.fast_quorum by {}
        }
    }
}

/// The identifier of the transaction born next is this node's and later
/// than that of every transaction that the coordinator has given birth to.
pub proof fn lemma_next_id_is_later(s: CoordinatorView, id: TxId)
    requires
        s.inv(),
        s.counter < u64::MAX,
        s.tallies.contains_key(id),
    ensures
        id.spec_lt(s.next_id()),
        s.next_id().origin == s.node,
        s.next_id().spec_t0().logical == s.next_id().logical,
{
}

/// An answer to a proposal keeps the invariant.
pub proof fn lemma_store_proposal_inv(s: CoordinatorView, from: NodeId, msg: PreAcceptOk)
    requires
        s.inv(),
    ensures
        s.store_proposal(from, msg).inv(),
{
    let next = s.store_proposal(from, msg);
    if s.counts_proposal(msg.id) {
        lemma_with_proposal_distinct(
            s.tallies[msg.id].proposals,
            ProposalView { peer: from, tx: msg.proposed_tx, deps: msg.deps@ },
        );
        assert forall|id: TxId| #[trigger] next.tallies.contains_key(id) implies {
            &&& id.origin == next.node
            &&& 1 <= id.logical <= next.counter
            &&& distinct_peers(next.tallies[id].proposals)
            &&& distinct_readers(next.tallies[id].reads)
            &&& next.tallies[id].accepts.no_duplicates()
            &&& next.tallies[id].applies.no_duplicates()
            &&& next.tallies[id].phase == Phase::AwaitingPreAccept ==> undecided(
                next.tallies[id].proposals,
                next.fast_quorum,
                next.slow_quorum,
            )
        } by {
            assert(s.tallies.contains_key(id));
            if id == msg.id && next.tallies[id].phase == Phase::AwaitingPreAccept {
                let p = ProposalView { peer: from, tx: msg.proposed_tx, deps: msg.deps@ };
                let ps = s.tallies[msg.id].proposals;
                assert forall|tx: Timestamp, deps: Set<TxId>| #[trigger]
                    agreeing(with_proposal(ps, p), tx, deps) < next.fast_quorum by {
                    if tx != p.tx || deps != p.deps {
                        lemma_agreeing_other(ps, p, tx, deps);
                        assert(agreeing(ps, tx, deps) < s.fast_quorum);
                    }
                }
            }
        }
    }
}

/// An answer that is not `(tx, deps)` does not add to the answers that are,
/// wherever it is tallied.
pub proof fn lemma_agreeing_other(ps: Seq<ProposalView>, p: ProposalView, tx: Timestamp, deps: Set<TxId>)
    requires
        p.tx != tx || p.deps != deps,
    ensures
        agreeing(with_proposal(ps, p), tx, deps) <= agreeing(ps, tx, deps),
{
    if exists|i: int| answered_at(ps, p.peer, i) {
        let k = choose|i: int| answered_at(ps, p.peer, i);
        lemma_agreeing_update(ps, k, p, tx, deps);
    } else {
        assert(ps.push(p).drop_last() =~= ps);
    }
}

proof fn lemma_agreeing_update(ps: Seq<ProposalView>, k: int, p: ProposalView, tx: Timestamp, deps: Set<TxId>)
    requires
        0 <= k < ps.len(),
        p.tx != tx || p.deps != deps,
    ensures
        agreeing(ps.update(k, p), tx, deps) <= agreeing(ps, tx, deps),
    decreases ps.len(),
{
    let next = ps.update(k, p);
    if k == ps.len() - 1 {
        assert(next.drop_last() =~= ps.drop_last());
    } else {
        assert(next.drop_last() =~= ps.drop_last().update(k, p));
        lemma_agreeing_update(ps.drop_last(), k, p, tx, deps);
    }
}

/// The fast path is taken exactly where a fast quorum of answers agree:
/// where at least a fast quorum of the tallied answers are one and the same
/// time and dependencies, they are those of the newest answer, and the
/// coordinator commits.
pub proof fn lemma_fast_path_complete(
    s: CoordinatorView,
    from: NodeId,
    msg: PreAcceptOk,
    tx: Timestamp,
    deps: Set<TxId>,
)
    requires
        s.inv(),
        s.counts_proposal(msg.id),
        agreeing(s.proposals_with(from, msg), tx, deps) >= s.fast_quorum,
    ensures
        tx == msg.proposed_tx,
        deps == msg.deps@,
        s.proposal_decision(from, msg) == Decision::Commit,
{
    let p = ProposalView { peer: from, tx: msg.proposed_tx, deps: msg.deps@ };
    let ps = s.tallies[msg.id].proposals;
    if tx != p.tx || deps != p.deps {
        lemma_agreeing_other(ps, p, tx, deps);
        assert(agreeing(ps, tx, deps) < s.fast_quorum);
    }
}

/// An acknowledgement of an `Accept` keeps the invariant.
pub proof fn lemma_store_accept_ok_inv(s: CoordinatorView, from: NodeId, msg: AcceptOk)
    requires
        s.inv(),
    ensures
        s.store_accept_ok(from, msg).inv(),
{
    let next = s.store_accept_ok(from, msg);
    if s.counts_accept(msg.id) {
        lemma_with_peer_no_duplicates(s.tallies[msg.id].accepts, from);
        assert forall|id: TxId| #[trigger] next.tallies.contains_key(id) implies {
            &&& id.origin == next.node
            &&& 1 <= id.logical <= next.counter
            &&& distinct_peers(next.tallies[id].proposals)
            &&& distinct_readers(next.tallies[id].reads)
            &&& next.tallies[id].accepts.no_duplicates()
            &&& next.tallies[id].applies.no_duplicates()
            &&& next.tallies[id].phase == Phase::AwaitingPreAccept ==> undecided(
                next.tallies[id].proposals,
                next.fast_quorum,
                next.slow_quorum,
            )
        } by {
            assert(s.tallies.contains_key(id));
        }
    }
}

/// Keeping a payload keeps one payload for each replica.
pub proof fn lemma_with_read_distinct(rs: Seq<ReadView>, r: ReadView)
    requires
        distinct_readers(rs),
    ensures
        distinct_readers(with_read(rs, r)),
        with_read(rs, r).len() >= 1,
        rs.len() >= 1 ==> with_read(rs, r)[0].peer == rs[0].peer,
{
    let next = with_read(rs, r);
    if exists|i: int| read_at(rs, r.peer, i) {
        let k = choose|i: int| read_at(rs, r.peer, i);
    } else {
        assert forall|i: int, j: int| 0 <= i < j < next.len() implies next[i].peer
            != next[j].peer by {
            if j == rs.len() {
                assert(!read_at(rs, r.peer, i));
            }
        }
    }
}

/// A read payload keeps the invariant.
pub proof fn lemma_store_read_ok_inv(s: CoordinatorView, from: NodeId, msg: ReadOk)
    requires
        s.inv(),
    ensures
        s.store_read_ok(from, msg).inv(),
{
    let next = s.store_read_ok(from, msg);
    if s.can_execute(msg.id) {
        lemma_with_read_distinct(
            s.tallies[msg.id].reads,
            ReadView { peer: from, payload: msg.payload@ },
        );
        assert forall|id: TxId| #[trigger] next.tallies.contains_key(id) implies {
            &&& id.origin == next.node
            &&& 1 <= id.logical <= next.counter
            &&& distinct_peers(next.tallies[id].proposals)
            &&& distinct_readers(next.tallies[id].reads)
            &&& next.tallies[id].accepts.no_duplicates()
            &&& next.tallies[id].applies.no_duplicates()
            &&& next.tallies[id].phase == Phase::AwaitingPreAccept ==> undecided(
                next.tallies[id].proposals,
                next.fast_quorum,
                next.slow_quorum,
            )
        } by {
            assert(s.tallies.contains_key(id));
        }
    }
}

/// An acknowledgement of an `Apply` keeps the invariant.
pub proof fn lemma_store_apply_ok_inv(s: CoordinatorView, from: NodeId, msg: ApplyOk)
    requires
        s.inv(),
    ensures
        s.store_apply_ok(from, msg).inv(),
{
    let next = s.store_apply_ok(from, msg);
    if s.tallies.contains_key(msg.id) && s.tallies[msg.id].phase == Phase::Completed {
        lemma_with_peer_no_duplicates(s.tallies[msg.id].applies, from);
        assert forall|id: TxId| #[trigger] next.tallies.contains_key(id) implies {
            &&& id.origin == next.node
            &&& 1 <= id.logical <= next.counter
            &&& distinct_peers(next.tallies[id].proposals)
            &&& distinct_readers(next.tallies[id].reads)
            &&& next.tallies[id].accepts.no_duplicates()
            &&& next.tallies[id].applies.no_duplicates()
            &&& next.tallies[id].phase == Phase::AwaitingPreAccept ==> undecided(
                next.tallies[id].proposals,
                next.fast_quorum,
                next.slow_quorum,
            )
        } by {
            assert(s.tallies.contains_key(id));
        }
    }
}

/// Fast-path correctness: where the coordinator commits on an answer to
/// its proposal, at least a fast quorum of replicas, each counted once,
/// proposed exactly the committed time and dependencies. Where the fast
/// quorum is all the answers there are, every answer is that pair.
pub proof fn lemma_fast_path(s: CoordinatorView, from: NodeId, msg: PreAcceptOk)
    requires
        s.inv(),
        s.proposal_decision(from, msg) == Decision::Commit,
    ensures
        ({
            let t = s.store_proposal(from, msg).tallies[msg.id];
            &&& t.phase == Phase::AwaitingRead
            &&& t.tx == msg.proposed_tx
            &&& t.deps == msg.deps@
            &&& distinct_peers(t.proposals)
            &&& agreeing(t.proposals, t.tx, t.deps) >= s.fast_quorum
            &&& s.fast_quorum <= t.proposals.len()
            &&& s.fast_quorum == t.proposals.len() ==> forall|i: int|
                0 <= i < t.proposals.len() ==> (#[trigger] t.proposals[i]).tx == t.tx
                    && t.proposals[i].deps == t.deps
        }),
{
    let t = s.store_proposal(from, msg).tallies[msg.id];
    lemma_with_proposal_distinct(
        s.tallies[msg.id].proposals,
        ProposalView { peer: from, tx: msg.proposed_tx, deps: msg.deps@ },
    );
    lemma_agreeing_bound(t.proposals, t.tx, t.deps);
}

/// The fast path is open only where the fast quorum is no larger than the
/// slow one: a transaction waits for answers only while fewer than a slow
/// quorum are in, so the answer that commits is at most the one that
/// completes a slow quorum.
pub proof fn lemma_fast_path_bound(s: CoordinatorView, from: NodeId, msg: PreAcceptOk)
    requires
        s.inv(),
        s.proposal_decision(from, msg) == Decision::Commit,
    ensures
        s.fast_quorum <= s.proposals_with(from, msg).len() <= s.slow_quorum,
{
    let ps = s.tallies[msg.id].proposals;
    let p = ProposalView { peer: from, tx: msg.proposed_tx, deps: msg.deps@ };
    lemma_agreeing_bound(with_proposal(ps, p), msg.proposed_tx, msg.deps@);
}

/// Slow-path choice: where the coordinator asks the replicas to accept, the
/// chosen time is not before any answer's and the chosen dependencies hold
/// every answer's.
pub proof fn lemma_slow_path(s: CoordinatorView, from: NodeId, msg: PreAcceptOk, i: int)
    requires
        s.proposal_decision(from, msg) == Decision::Accept,
        0 <= i < s.proposals_with(from, msg).len(),
    ensures
        ({
            let t = s.store_proposal(from, msg).tallies[msg.id];
            &&& t.phase == Phase::AwaitingAccept
            &&& t.proposals == s.proposals_with(from, msg)
            &&& t.proposals.len() >= s.slow_quorum
            &&& t.proposals[i].tx.spec_le(t.tx)
            &&& t.proposals[i].deps.subset_of(t.deps)
        }),
{
    lemma_max_union(s.proposals_with(from, msg), i);
}

/// One step of a coordinator.
pub open spec fn coordinator_step(s: CoordinatorView, next: CoordinatorView) -> bool {
    ||| exists|keys: Seq<Key>, kind: TxKind, command: Seq<KeyWrite>|
        s.counter < u64::MAX && next == s.begin(keys, kind, command)
    ||| exists|from: NodeId, m: PreAcceptOk| next == s.store_proposal(from, m)
    ||| exists|from: NodeId, m: AcceptOk| next == s.store_accept_ok(from, m)
    ||| exists|from: NodeId, m: ReadOk| next == s.store_read_ok(from, m)
    ||| exists|from: NodeId, m: ApplyOk| next == s.store_apply_ok(from, m)
}

/// Every step keeps the invariant.
pub proof fn lemma_coordinator_step_inv(s: CoordinatorView, next: CoordinatorView)
    requires
        s.inv(),
        coordinator_step(s, next),
    ensures
        next.inv(),
{
    if exists|keys: Seq<Key>, kind: TxKind, command: Seq<KeyWrite>|
        s.counter < u64::MAX && next == s.begin(keys, kind, command) {
        let (keys, kind, command) = choose|keys: Seq<Key>, kind: TxKind, command: Seq<KeyWrite>|
            s.counter < u64::MAX && next == s.begin(keys, kind, command);
        lemma_begin_inv(s, keys, kind, command);
    } else if exists|from: NodeId, m: PreAcceptOk| next == s.store_proposal(from, m) {
        let (from, m) = choose|from: NodeId, m: PreAcceptOk| next == s.store_proposal(from, m);
        lemma_store_proposal_inv(s, from, m);
    } else if exists|from: NodeId, m: AcceptOk| next == s.store_accept_ok(from, m) {
        let (from, m) = choose|from: NodeId, m: AcceptOk| next == s.store_accept_ok(from, m);
        lemma_store_accept_ok_inv(s, from, m);
    } else if exists|from: NodeId, m: ReadOk| next == s.store_read_ok(from, m) {
        let (from, m) = choose|from: NodeId, m: ReadOk| next == s.store_read_ok(from, m);
        lemma_store_read_ok_inv(s, from, m);
    } else {
        let (from, m) = choose|from: NodeId, m: ApplyOk| next == s.store_apply_ok(from, m);
        lemma_store_apply_ok_inv(s, from, m);
    }
}

/// Committed once and for all: a step takes no transaction back from the
/// committed phases and changes neither its execution time nor its
/// dependencies once it is there.
pub proof fn lemma_commit_is_final(s: CoordinatorView, next: CoordinatorView, id: TxId)
    requires
        s.inv(),
        coordinator_step(s, next),
        s.tallies.contains_key(id),
        s.tallies[id].phase.committed(),
    ensures
        next.tallies.contains_key(id),
        next.tallies[id].phase.committed(),
        next.tallies[id].tx == s.tallies[id].tx,
        next.tallies[id].deps == s.tallies[id].deps,
{
    if exists|keys: Seq<Key>, kind: TxKind, command: Seq<KeyWrite>|
        s.counter < u64::MAX && next == s.begin(keys, kind, command) {
        let (keys, kind, command) = choose|keys: Seq<Key>, kind: TxKind, command: Seq<KeyWrite>|
            s.counter < u64::MAX && next == s.begin(keys, kind, command);
        lemma_begin_inv(s, keys, kind, command);
    }
}

} // verus!
