//! The coordinator side of a node: it gives birth to transactions, tallies
//! what the replicas answer, and decides from the tallies.
use crate::coordinator_laws::{
    lemma_begin_inv, lemma_store_accept_ok_inv, lemma_store_apply_ok_inv, lemma_store_proposal_inv,
    lemma_store_read_ok_inv, lemma_with_read_distinct,
};
use crate::coordinator_model::{
    agreeing, answered_at, distinct_peers, distinct_readers, max_tx, read_at, union_deps, with_peer,
    with_proposal, with_read, write_effect, CoordinatorView, Decision, Phase, ProposalView, ReadView,
    TallyView,
};
use crate::deps::DepSet;
use crate::protocol::{
    copy_vec, Accept, AcceptOk, AccordError, Apply, ApplyOk, Commit, KeyRead, KeyWrite, PreAccept,
    PreAcceptOk, Read, ReadOk, StartExecuteInternal, TxKind,
};
use crate::timestamp::{Key, NodeId, Timestamp, TxId};
use crate::topology::{is_peer, Topology};
use vstd::prelude::*;

verus! {

/// What the coordinator sends after an answer to its proposal.
#[derive(Clone, Debug)]
pub enum AcceptOrCommit {
    Accept(Accept),
    Commit(Commit),
}

/// What the coordinator returns for a decision: nothing while it waits, an
/// `Accept` or a `Commit` for transaction `id` with the tally's time and
/// dependencies otherwise.
pub open spec fn reply_matches(
    out: Option<AcceptOrCommit>,
    decision: Decision,
    id: TxId,
    tx: Timestamp,
    deps: Set<TxId>,
) -> bool {
    match decision {
        Decision::Wait => out is None,
        Decision::Accept => out matches Some(AcceptOrCommit::Accept(a)) && a.id == id && a.tx == tx
            && a.deps@ == deps,
        Decision::Commit => out matches Some(AcceptOrCommit::Commit(c)) && c.id == id && c.tx == tx
            && c.deps@ == deps,
    }
}

/// One replica's answer to a proposal.
struct Proposal {
    peer: NodeId,
    tx: Timestamp,
    deps: DepSet,
}

impl Proposal {
    spec fn view(&self) -> ProposalView {
        ProposalView { peer: self.peer, tx: self.tx, deps: self.deps@ }
    }
}

/// The tally of one transaction.
struct Tally {
    id: TxId,
    keys: Vec<Key>,
    kind: TxKind,
    command: Vec<KeyWrite>,
    phase: Phase,
    proposals: Vec<Proposal>,
    accepts: Vec<NodeId>,
    reads: Vec<ReadAnswer>,
    applies: Vec<NodeId>,
    tx: Timestamp,
    deps: DepSet,
}

spec fn proposals_view(ps: Seq<Proposal>) -> Seq<ProposalView> {
    ps.map_values(|p: Proposal| p@)
}

/// What one replica read for a transaction.
struct ReadAnswer {
    peer: NodeId,
    payload: Vec<KeyRead>,
}

impl ReadAnswer {
    spec fn view(&self) -> ReadView {
        ReadView { peer: self.peer, payload: self.payload@ }
    }
}

spec fn reads_view(rs: Seq<ReadAnswer>) -> Seq<ReadView> {
    rs.map_values(|r: ReadAnswer| r@)
}

impl Tally {
    spec fn view(&self) -> TallyView {
        TallyView {
            keys: self.keys@,
            kind: self.kind,
            command: self.command@,
            phase: self.phase,
            proposals: proposals_view(self.proposals@),
            accepts: self.accepts@,
            reads: reads_view(self.reads@),
            applies: self.applies@,
            tx: self.tx,
            deps: self.deps@,
        }
    }

    fn add_proposal(&mut self, from: NodeId, tx: Timestamp, deps: DepSet)
        requires
            distinct_peers(old(self)@.proposals),
        ensures
            final(self)@ == (TallyView {
                proposals: with_proposal(
                    old(self)@.proposals,
                    ProposalView { peer: from, tx, deps: deps@ },
                ),
                ..old(self)@
            }),
            final(self).id == old(self).id,
    {
        let ghost ps = self@.proposals;
        let ghost p = ProposalView { peer: from, tx, deps: deps@ };
        let mut i: usize = 0;
        while i < self.proposals.len()
            invariant
                i <= self.proposals.len(),
                *self == *old(self),
                ps == self@.proposals,
                ps == old(self)@.proposals,
                p == (ProposalView { peer: from, tx, deps: deps@ }),
                distinct_peers(ps),
                forall|j: int| 0 <= j < i ==> !answered_at(ps, from, j),
            decreases self.proposals.len() - i,
        {
            if self.proposals[i].peer == from {
                assert(answered_at(ps, p.peer, i as int));
                let ghost k = choose|k: int| answered_at(ps, p.peer, k);
                assert(k == i);
                self.proposals[i] = Proposal { peer: from, tx, deps };
                assert(self.proposals@[i as int]@ == p);
                assert(proposals_view(self.proposals@) =~= ps.update(i as int, p));
                return ;
            }
            i += 1;
        }
        assert(!exists|k: int| answered_at(ps, p.peer, k));
        self.proposals.push(Proposal { peer: from, tx, deps });
        assert(proposals_view(self.proposals@) =~= ps.push(p));
    }

    fn add_read(&mut self, from: NodeId, payload: Vec<KeyRead>)
        requires
            distinct_readers(old(self)@.reads),
        ensures
            final(self)@ == (TallyView {
                reads: with_read(old(self)@.reads, ReadView { peer: from, payload: payload@ }),
                ..old(self)@
            }),
            final(self).id == old(self).id,
    {
        let ghost rs = self@.reads;
        let ghost r = ReadView { peer: from, payload: payload@ };
        let mut i: usize = 0;
        while i < self.reads.len()
            invariant
                i <= self.reads.len(),
                *self == *old(self),
                rs == self@.reads,
                rs == old(self)@.reads,
                r == (ReadView { peer: from, payload: payload@ }),
                distinct_readers(rs),
                forall|j: int| 0 <= j < i ==> !read_at(rs, from, j),
            decreases self.reads.len() - i,
        {
            if self.reads[i].peer == from {
                assert(read_at(rs, r.peer, i as int));
                let ghost k = choose|k: int| read_at(rs, r.peer, k);
                assert(k == i);
                self.reads[i] = ReadAnswer { peer: from, payload };
                assert(self.reads@[i as int]@ == r);
                assert(reads_view(self.reads@) =~= rs.update(i as int, r));
                return ;
            }
            i += 1;
        }
        assert(!exists|k: int| read_at(rs, r.peer, k));
        self.reads.push(ReadAnswer { peer: from, payload });
        assert(reads_view(self.reads@) =~= rs.push(r));
    }

    fn count_agreeing(&self, tx: Timestamp, deps: &DepSet) -> (r: usize)
        ensures
            r == agreeing(self@.proposals, tx, deps@),
    {
        let ghost ps = self@.proposals;
        let mut count: usize = 0;
        let mut i: usize = 0;
        while i < self.proposals.len()
            invariant
                i <= self.proposals.len(),
                ps == proposals_view(self.proposals@),
                count <= i,
                count == agreeing(ps.subrange(0, i as int), tx, deps@),
            decreases self.proposals.len() - i,
        {
            assert(ps.subrange(0, i + 1).drop_last() =~= ps.subrange(0, i as int));
            assert(ps.subrange(0, i + 1).last() == ps[i as int]);
            if self.proposals[i].tx == tx && self.proposals[i].deps.set_eq(deps) {
                count += 1;
            }
            i += 1;
        }
        assert(ps.subrange(0, i as int) =~= ps);
        count
    }

    fn latest(&self) -> (r: Timestamp)
        ensures
            r == max_tx(self@.proposals),
    {
        let ghost ps = self@.proposals;
        let mut best = Timestamp { logical: 0, node: 0 };
        let mut i: usize = 0;
        while i < self.proposals.len()
            invariant
                i <= self.proposals.len(),
                ps == proposals_view(self.proposals@),
                best == max_tx(ps.subrange(0, i as int)),
            decreases self.proposals.len() - i,
        {
            assert(ps.subrange(0, i + 1).drop_last() =~= ps.subrange(0, i as int));
            assert(ps.subrange(0, i + 1).last() == ps[i as int]);
            best = best.max(self.proposals[i].tx);
            i += 1;
        }
        assert(ps.subrange(0, i as int) =~= ps);
        best
    }

    fn all_deps(&self) -> (r: DepSet)
        ensures
            r@ == union_deps(self@.proposals),
    {
        let ghost ps = self@.proposals;
        let mut all = DepSet::new();
        let mut i: usize = 0;
        while i < self.proposals.len()
            invariant
                i <= self.proposals.len(),
                ps == proposals_view(self.proposals@),
                all@ == union_deps(ps.subrange(0, i as int)),
            decreases self.proposals.len() - i,
        {
            assert(ps.subrange(0, i + 1).drop_last() =~= ps.subrange(0, i as int));
            assert(ps.subrange(0, i + 1).last() == ps[i as int]);
            all.union_with(&self.proposals[i].deps);
            i += 1;
        }
        assert(ps.subrange(0, i as int) =~= ps);
        all
    }
}

/// Notes `peer` in a list of acknowledging replicas, once.
fn note_peer(acks: &mut Vec<NodeId>, peer: NodeId)
    ensures
        final(acks)@ == with_peer(old(acks)@, peer),
{
    if !is_peer(acks, peer) {
        acks.push(peer);
    }
}

spec fn distinct(ts: Seq<Tally>) -> bool {
    forall|i: int, j: int| 0 <= i < j < ts.len() ==> ts[i].id != ts[j].id
}

spec fn has_id(ts: Seq<Tally>, id: TxId) -> bool {
    exists|i: int| 0 <= i < ts.len() && ts[i].id == id
}

spec fn index_of(ts: Seq<Tally>, id: TxId) -> int {
    choose|i: int| 0 <= i < ts.len() && ts[i].id == id
}

spec fn tallies_map(ts: Seq<Tally>) -> Map<TxId, TallyView> {
    Map::new(|id: TxId| has_id(ts, id), |id: TxId| ts[index_of(ts, id)]@)
}

proof fn lemma_index(ts: Seq<Tally>, i: int)
    requires
        distinct(ts),
        0 <= i < ts.len(),
    ensures
        has_id(ts, ts[i].id),
        index_of(ts, ts[i].id) == i,
        tallies_map(ts).contains_key(ts[i].id),
        tallies_map(ts)[ts[i].id] == ts[i]@,
{
}

proof fn lemma_push(ts: Seq<Tally>, t: Tally)
    requires
        distinct(ts),
        !has_id(ts, t.id),
    ensures
        distinct(ts.push(t)),
        tallies_map(ts.push(t)) == tallies_map(ts).insert(t.id, t@),
{
    let next = ts.push(t);
    assert(distinct(next)) by {
        assert forall|i: int, j: int| 0 <= i < j < next.len() implies next[i].id != next[j].id by {
            if j == ts.len() {
                assert(ts[i].id != t.id);
            }
        }
    }
    assert forall|id: TxId| has_id(next, id) <==> (has_id(ts, id) || id == t.id) by {
        if has_id(ts, id) {
            let i = index_of(ts, id);
            assert(next[i].id == id);
        }
        if id == t.id {
            assert(next[ts.len() as int].id == id);
        }
    }
    assert forall|id: TxId| has_id(next, id) implies #[trigger] tallies_map(next)[id]
        == tallies_map(ts).insert(t.id, t@)[id] by {
        if id == t.id {
            lemma_index(next, ts.len() as int);
        } else {
            let i = index_of(ts, id);
            assert(next[i] == ts[i]);
            lemma_index(next, i);
        }
    }
    assert(tallies_map(next) =~= tallies_map(ts).insert(t.id, t@));
}

proof fn lemma_update(ts: Seq<Tally>, i: int, t: Tally)
    requires
        distinct(ts),
        0 <= i < ts.len(),
        t.id == ts[i].id,
    ensures
        distinct(ts.update(i, t)),
        tallies_map(ts.update(i, t)) == tallies_map(ts).insert(t.id, t@),
{
    let next = ts.update(i, t);
    assert(distinct(next));
    assert forall|id: TxId| has_id(next, id) <==> has_id(ts, id) by {
        if has_id(ts, id) {
            let j = index_of(ts, id);
            assert(next[j].id == id);
        }
        if has_id(next, id) {
            let j = index_of(next, id);
            assert(ts[j].id == id);
        }
    }
    lemma_index(ts, i);
    assert forall|id: TxId| has_id(next, id) implies #[trigger] tallies_map(next)[id]
        == tallies_map(ts).insert(t.id, t@)[id] by {
        let j = index_of(ts, id);
        lemma_index(next, j);
        lemma_index(ts, j);
    }
    assert(tallies_map(next) =~= tallies_map(ts).insert(t.id, t@));
}

/// The coordinator side of a node.
pub struct CoordinatorState {
    node: NodeId,
    counter: u64,
    fast_quorum: usize,
    slow_quorum: usize,
    tallies: Vec<Tally>,
}

impl View for CoordinatorState {
    type V = CoordinatorView;

    closed spec fn view(&self) -> CoordinatorView {
        CoordinatorView {
            node: self.node,
            counter: self.counter,
            fast_quorum: self.fast_quorum as nat,
            slow_quorum: self.slow_quorum as nat,
            tallies: tallies_map(self.tallies@),
        }
    }
}

impl CoordinatorState {
    /// The invariant of the coordinator: no transaction is tallied twice,
    /// and the state is one that a coordinator can reach.
    pub closed spec fn inv(&self) -> bool {
        distinct(self.tallies@) && self@.inv()
    }

    /// The state of a coordinator that meets its invariant is one that the
    /// model allows: what is proved of such states holds of it.
    pub proof fn lemma_view_inv(&self)
        requires
            self.inv(),
        ensures
            self@.inv(),
    {
    }

    /// A coordinator for `node` that drives no transaction and takes its
    /// quorum sizes from `tm`.
    pub fn new(tm: &Topology, node: NodeId) -> (r: CoordinatorState)
        ensures
            r.inv(),
            r@ == CoordinatorView::init(node, tm@.fast_quorum, tm@.slow_quorum),
    {
        let r = CoordinatorState {
            node,
            counter: 0,
            fast_quorum: tm.fast_quorum(),
            slow_quorum: tm.slow_quorum(),
            tallies: Vec::new(),
        };
        assert(tallies_map(r.tallies@) =~= Map::<TxId, TallyView>::empty());
        r
    }

    /// The node that this coordinator belongs to.
    pub fn get_node_id(&self) -> (r: NodeId)
        ensures
            r == self@.node,
    {
        self.node
    }

    /// Whether another transaction can be born: the counter has not reached
    /// the end of its range.
    pub fn can_begin(&self) -> (r: bool)
        ensures
            r == (self@.counter < u64::MAX),
    {
        self.counter < u64::MAX
    }

    fn find(&self, id: &TxId) -> (r: Option<usize>)
        requires
            distinct(self.tallies@),
        ensures
            match r {
                Some(i) => i < self.tallies.len() && self.tallies@[i as int].id == *id
                    && self@.tallies.contains_key(*id) && self@.tallies[*id]
                    == self.tallies@[i as int]@,
                None => !self@.tallies.contains_key(*id),
            },
    {
        let mut i: usize = 0;
        while i < self.tallies.len()
            invariant
                i <= self.tallies.len(),
                distinct(self.tallies@),
                forall|j: int| 0 <= j < i ==> self.tallies@[j].id != *id,
            decreases self.tallies.len() - i,
        {
            if self.tallies[i].id == *id {
                proof {
                    lemma_index(self.tallies@, i as int);
                }
                return Some(i);
            }
            i += 1;
        }
        None
    }

    /// The phase of transaction `id`, if this coordinator drives it.
    pub fn phase_of(&self, id: &TxId) -> (r: Option<Phase>)
        requires
            self.inv(),
        ensures
            r == if self@.tallies.contains_key(*id) {
                Some(self@.tallies[*id].phase)
            } else {
                None
            },
    {
        match self.find(id) {
            Some(i) => Some(self.tallies[i].phase),
            None => None,
        }
    }

    fn begin(&mut self, keys: Vec<Key>, kind: TxKind, command: Vec<KeyWrite>) -> (r: PreAccept)
        requires
            old(self).inv(),
            old(self)@.counter < u64::MAX,
        ensures
            final(self).inv(),
            final(self)@ == old(self)@.begin(keys@, kind, command@),
            r.id == old(self)@.next_id(),
            r.t0 == r.id.spec_t0(),
            r.keys@ == keys@,
            r.kind == kind,
            r.command@ == command@,
    {
        proof {
            lemma_begin_inv(self@, keys@, kind, command@);
        }
        let id = TxId { logical: self.counter + 1, origin: self.node };
        let msg = PreAccept {
            id,
            t0: id.t0(),
            keys: copy_vec(&keys),
            kind,
            command: copy_vec(&command),
        };
        let tally = Tally {
            id,
            keys,
            kind,
            command,
            phase: Phase::AwaitingPreAccept,
            proposals: Vec::new(),
            accepts: Vec::new(),
            reads: Vec::new(),
            applies: Vec::new(),
            tx: id.t0(),
            deps: DepSet::new(),
        };
        proof {
            assert(proposals_view(tally.proposals@) =~= Seq::<ProposalView>::empty());
            assert(reads_view(tally.reads@) =~= Seq::<ReadView>::empty());
            lemma_push(self.tallies@, tally);
        }
        self.tallies.push(tally);
        self.counter = self.counter + 1;
        msg
    }

    /// A read transaction on `keys` is born: it gets the next identifier of
    /// this node and an empty tally, and the proposal to send is returned.
    pub fn new_read_tx(&mut self, keys: Vec<Key>, command: Vec<KeyWrite>) -> (r: PreAccept)
        requires
            old(self).inv(),
            old(self)@.counter < u64::MAX,
        ensures
            final(self).inv(),
            final(self)@ == old(self)@.begin(keys@, TxKind::Read, command@),
            r.id == old(self)@.next_id(),
            r.t0 == r.id.spec_t0(),
            r.keys@ == keys@,
            r.kind == TxKind::Read,
            r.command@ == command@,
    {
        self.begin(keys, TxKind::Read, command)
    }

    /// A write transaction on `keys` is born, as a read transaction is.
    pub fn new_write_tx(&mut self, keys: Vec<Key>, command: Vec<KeyWrite>) -> (r: PreAccept)
        requires
            old(self).inv(),
            old(self)@.counter < u64::MAX,
        ensures
            final(self).inv(),
            final(self)@ == old(self)@.begin(keys@, TxKind::Write, command@),
            r.id == old(self)@.next_id(),
            r.t0 == r.id.spec_t0(),
            r.keys@ == keys@,
            r.kind == TxKind::Write,
            r.command@ == command@,
    {
        self.begin(keys, TxKind::Write, command)
    }

    /// The answer of `from` to a proposal arrives. For a transaction that
    /// this coordinator does not drive it is a protocol error. Where the
    /// transaction still waits for such answers, the answer is tallied, in
    /// the place of an earlier one of the same replica if there is one.
    /// Then, where at least a fast quorum of answers are exactly this
    /// answer's time and dependencies, the transaction is committed with
    /// them; else, where at least a slow quorum of answers are in, the
    /// latest time and the union of the dependencies are chosen and an
    /// `Accept` goes out; else nothing goes out. A transaction past that
    /// phase ignores the answer.
    pub fn store_proposal(&mut self, from: NodeId, msg: PreAcceptOk) -> (r: Result<
        Option<AcceptOrCommit>,
        AccordError,
    >)
        requires
            old(self).inv(),
        ensures
            final(self).inv(),
            final(self)@ == old(self)@.store_proposal(from, msg),
            match r {
                Err(e) => e == AccordError::Protocol && !old(self)@.tallies.contains_key(msg.id),
                Ok(out) => old(self)@.tallies.contains_key(msg.id) && reply_matches(
                    out,
                    old(self)@.proposal_decision(from, msg),
                    msg.id,
                    final(self)@.tallies[msg.id].tx,
                    final(self)@.tallies[msg.id].deps,
                ),
            },
    {
        proof {
            lemma_store_proposal_inv(self@, from, msg);
        }
        let id = msg.id;
        let tx = msg.proposed_tx;
        let i = match self.find(&id) {
            None => {
                return Err(AccordError::Protocol);
            },
            Some(i) => i,
        };
        if self.tallies[i].phase != Phase::AwaitingPreAccept {
            return Ok(None);
        }
        let deps = msg.deps.duplicate();
        self.tallies[i].add_proposal(from, tx, msg.deps);
        let agree = self.tallies[i].count_agreeing(tx, &deps);
        let out = if agree >= self.fast_quorum {
            self.tallies[i].phase = Phase::AwaitingRead;
            self.tallies[i].tx = tx;
            self.tallies[i].deps = deps.duplicate();
            Some(AcceptOrCommit::Commit(Commit { id, tx, deps }))
        } else if self.tallies[i].proposals.len() >= self.slow_quorum {
            let latest = self.tallies[i].latest();
            let all = self.tallies[i].all_deps();
            self.tallies[i].phase = Phase::AwaitingAccept;
            self.tallies[i].tx = latest;
            self.tallies[i].deps = all.duplicate();
            Some(AcceptOrCommit::Accept(Accept { id, tx: latest, deps: all }))
        } else {
            None
        };
        proof {
            assert(self.tallies@ =~= old(self).tallies@.update(i as int, self.tallies@[i as int]));
            lemma_update(old(self).tallies@, i as int, self.tallies@[i as int]);
        }
        Ok(out)
    }

    /// The acknowledgement of `from` of an `Accept` arrives. For a
    /// transaction that this coordinator does not drive it is a protocol
    /// error. Where the transaction waits for such acknowledgements, the
    /// replica is noted, once; with a slow quorum of them the transaction
    /// is committed at the chosen time and dependencies. Otherwise nothing
    /// goes out.
    pub fn store_accept_ok(&mut self, from: NodeId, msg: AcceptOk) -> (r: Result<
        Option<Commit>,
        AccordError,
    >)
        requires
            old(self).inv(),
        ensures
            final(self).inv(),
            final(self)@ == old(self)@.store_accept_ok(from, msg),
            match r {
                Err(e) => e == AccordError::Protocol && !old(self)@.tallies.contains_key(msg.id),
                Ok(out) => {
                    &&& old(self)@.tallies.contains_key(msg.id)
                    &&& out is Some <==> old(self)@.accept_commits(from, msg)
                    &&& out matches Some(c) ==> c.id == msg.id && c.tx == old(self)@.tallies[msg.id].tx
                        && c.deps@ == old(self)@.tallies[msg.id].deps
                },
            },
    {
        proof {
            lemma_store_accept_ok_inv(self@, from, msg);
        }
        let id = msg.id;
        let i = match self.find(&id) {
            None => {
                return Err(AccordError::Protocol);
            },
            Some(i) => i,
        };
        if self.tallies[i].phase != Phase::AwaitingAccept {
            return Ok(None);
        }
        note_peer(&mut self.tallies[i].accepts, from);
        let out = if self.tallies[i].accepts.len() >= self.slow_quorum {
            self.tallies[i].phase = Phase::AwaitingRead;
            Some(Commit { id, tx: self.tallies[i].tx, deps: self.tallies[i].deps.duplicate() })
        } else {
            None
        };
        proof {
            assert(self.tallies@ =~= old(self).tallies@.update(i as int, self.tallies@[i as int]));
            lemma_update(old(self).tallies@, i as int, self.tallies@[i as int]);
        }
        Ok(out)
    }

    /// The node's note that a transaction is committed arrives: the read
    /// request for it is returned, with the final time and dependencies and
    /// the transaction's keys. For a transaction that is not in its read
    /// phase this is a protocol error.
    pub fn start_execute(&self, msg: StartExecuteInternal) -> (r: Result<Read, AccordError>)
        requires
            self.inv(),
        ensures
            match r {
                Err(e) => e == AccordError::Protocol && !self@.can_execute(msg.tx),
                Ok(read) => self@.can_execute(msg.tx) && read.id == msg.tx && read.tx
                    == self@.tallies[msg.tx].tx && read.deps@ == self@.tallies[msg.tx].deps
                    && read.keys@ == self@.tallies[msg.tx].keys,
            },
    {
        match self.find(&msg.tx) {
            None => Err(AccordError::Protocol),
            Some(i) => {
                if self.tallies[i].phase != Phase::AwaitingRead {
                    return Err(AccordError::Protocol);
                }
                Ok(
                    Read {
                        id: msg.tx,
                        tx: self.tallies[i].tx,
                        deps: self.tallies[i].deps.duplicate(),
                        keys: copy_vec(&self.tallies[i].keys),
                    },
                )
            },
        }
    }

    /// What the replica `from` read arrives. For a transaction that this
    /// coordinator does not drive it is a protocol error. Where the
    /// transaction is in its read phase, the payload is kept, in the place
    /// of an earlier one of the same replica if there is one; with the
    /// payloads of a slow quorum of replicas the `Apply` goes out: it
    /// carries the final time and dependencies, the payload of the replica
    /// that answered first as the result, and the command's writes where
    /// the transaction writes. Otherwise nothing goes out.
    pub fn store_read_ok(&mut self, from: NodeId, msg: ReadOk) -> (r: Result<
        Option<Apply>,
        AccordError,
    >)
        requires
            old(self).inv(),
        ensures
            final(self).inv(),
            final(self)@ == old(self)@.store_read_ok(from, msg),
            match r {
                Err(e) => e == AccordError::Protocol && !old(self)@.tallies.contains_key(msg.id),
                Ok(out) => {
                    &&& old(self)@.tallies.contains_key(msg.id)
                    &&& out is Some <==> old(self)@.read_applies(from, msg)
                    &&& out matches Some(a) ==> {
                        let t = final(self)@.tallies[msg.id];
                        &&& a.id == msg.id
                        &&& a.tx == t.tx
                        &&& a.deps@ == t.deps
                        &&& a.result@ == t.reads[0].payload
                        &&& a.writes@ == write_effect(t.kind, t.command)
                    }
                },
            },
    {
        proof {
            lemma_store_read_ok_inv(self@, from, msg);
            self.lemma_view_inv();
        }
        let id = msg.id;
        let i = match self.find(&id) {
            None => {
                return Err(AccordError::Protocol);
            },
            Some(i) => i,
        };
        if self.tallies[i].phase != Phase::AwaitingRead {
            return Ok(None);
        }
        proof {
            lemma_with_read_distinct(
                self@.tallies[id].reads,
                ReadView { peer: from, payload: msg.payload@ },
            );
        }
        self.tallies[i].add_read(from, msg.payload);
        let out = if self.tallies[i].reads.len() >= self.slow_quorum {
            self.tallies[i].phase = Phase::Completed;
            let writes = match self.tallies[i].kind {
                TxKind::Write => copy_vec(&self.tallies[i].command),
                TxKind::Read => Vec::new(),
            };
            Some(
                Apply {
                    id,
                    tx: self.tallies[i].tx,
                    deps: self.tallies[i].deps.duplicate(),
                    result: copy_vec(&self.tallies[i].reads[0].payload),
                    writes,
                },
            )
        } else {
            None
        };
        proof {
            assert(self.tallies@ =~= old(self).tallies@.update(i as int, self.tallies@[i as int]));
            lemma_update(old(self).tallies@, i as int, self.tallies@[i as int]);
        }
        Ok(out)
    }

    /// The acknowledgement of `from` of an `Apply` arrives. For a
    /// transaction that this coordinator does not drive it is a protocol
    /// error. Where the `Apply` went out, the replica is noted, once, and
    /// the result says whether a slow quorum of replicas have applied the
    /// transaction. Nothing goes out.
    pub fn store_apply_ok(&mut self, from: NodeId, msg: ApplyOk) -> (r: Result<bool, AccordError>)
        requires
            old(self).inv(),
        ensures
            final(self).inv(),
            final(self)@ == old(self)@.store_apply_ok(from, msg),
            match r {
                Err(e) => e == AccordError::Protocol && !old(self)@.tallies.contains_key(msg.id),
                Ok(done) => {
                    let t = final(self)@.tallies[msg.id];
                    &&& old(self)@.tallies.contains_key(msg.id)
                    &&& done == (t.phase == Phase::Completed && t.applies.len()
                        >= old(self)@.slow_quorum)
                },
            },
    {
        proof {
            lemma_store_apply_ok_inv(self@, from, msg);
        }
        let id = msg.id;
        let i = match self.find(&id) {
            None => {
                return Err(AccordError::Protocol);
            },
            Some(i) => i,
        };
        if self.tallies[i].phase != Phase::Completed {
            return Ok(false);
        }
        note_peer(&mut self.tallies[i].applies, from);
        proof {
            assert(self.tallies@ =~= old(self).tallies@.update(i as int, self.tallies@[i as int]));
            lemma_update(old(self).tallies@, i as int, self.tallies@[i as int]);
        }
        Ok(self.tallies[i].applies.len() >= self.slow_quorum)
    }
}

} // verus!
