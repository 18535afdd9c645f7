//! The replica side of a node: it witnesses proposals, keeps the order of
//! transactions on each key, and runs reads and applies once the
//! transactions before them are done.
use crate::deps::DepSet;
use crate::protocol::{
    copy_vec, Accept, AcceptOk, AccordError, Apply, ApplyOk, Commit, Executor, ExecutorError,
    KeyRead, KeyWrite, PreAccept, PreAcceptOk, Read, ReadOk, TxKind,
};
use crate::replica_laws::{
    lemma_accept_inv, lemma_apply_idempotent, lemma_commit_inv, lemma_complete_inv,
    lemma_defer_apply_inv, lemma_defer_read_inv, lemma_init_inv, lemma_preaccept_inv,
    lemma_read_idempotent,
};
use crate::replica_model::{
    conflicts_before, keys_overlap, lemma_idle_none, lemma_next_unique, lemma_task_order, LogEntry,
    LogPayloadView, RecordView, ReplicaView, Task, TxStatus,
};
use crate::timestamp::{Key, NodeId, Timestamp, TxId};
use vstd::pervasive::unreached;
use vstd::prelude::*;

verus! {

/// What the log holds with an entry: what the transaction's record took on
/// with the status.
#[derive(Debug)]
pub enum LogPayload {
    /// With `PreAccepted`: the proposal and how it was witnessed.
    Proposal { keys: Vec<Key>, kind: TxKind, t0: Timestamp, tx: Timestamp, deps: DepSet },
    /// With `Accepted` and `Committed`: the coordinator's choice.
    Choice { tx: Timestamp, deps: DepSet },
    /// With `Applied`: the writes that were applied.
    Writes { writes: Vec<KeyWrite> },
}

impl View for LogPayload {
    type V = LogPayloadView;

    open spec fn view(&self) -> LogPayloadView {
        match *self {
            LogPayload::Proposal { keys, kind, t0, tx, deps } => LogPayloadView::Proposal {
                keys: keys@,
                kind,
                t0,
                tx,
                deps: deps@,
            },
            LogPayload::Choice { tx, deps } => LogPayloadView::Choice { tx, deps: deps@ },
            LogPayload::Writes { writes } => LogPayloadView::Writes { writes: writes@ },
        }
    }
}

/// One record of the log: a transaction reached a status, with the payload
/// that came with it.
#[derive(Debug)]
pub struct LogRecord {
    pub entry: LogEntry,
    pub payload: LogPayload,
}

/// The append-only record of the status that each transaction reached, in
/// the order in which it happened, each with its payload. Its view is the
/// sequence of the entries; `payloads` is that of their payloads.
#[derive(Debug)]
pub struct Log {
    entries: Vec<LogRecord>,
}

impl View for Log {
    type V = Seq<LogEntry>;

    closed spec fn view(&self) -> Seq<LogEntry> {
        self.entries@.map_values(|r: LogRecord| r.entry)
    }
}

impl Log {
    /// The payloads of the entries, entry by entry.
    pub closed spec fn payloads(&self) -> Seq<LogPayloadView> {
        self.entries@.map_values(|r: LogRecord| r.payload@)
    }

    /// The empty log.
    pub fn new() -> (r: Log)
        ensures
            r@ == Seq::<LogEntry>::empty(),
            r.payloads() == Seq::<LogPayloadView>::empty(),
    {
        let r = Log { entries: Vec::new() };
        assert(r@ =~= Seq::<LogEntry>::empty());
        assert(r.payloads() =~= Seq::<LogPayloadView>::empty());
        r
    }

    /// Adds an entry with its payload at the end.
    pub fn append(&mut self, entry: LogEntry, payload: LogPayload)
        ensures
            final(self)@ == old(self)@.push(entry),
            final(self).payloads() == old(self).payloads().push(payload@),
    {
        self.entries.push(LogRecord { entry, payload });
        assert(self@ =~= old(self)@.push(entry));
        assert(self.payloads() =~= old(self).payloads().push(payload@));
    }

    /// The number of entries.
    pub fn len(&self) -> (r: usize)
        ensures
            r == self@.len(),
            r == self.payloads().len(),
    {
        self.entries.len()
    }

    /// The entry at position `i`.
    pub fn entry(&self, i: usize) -> (r: Option<LogEntry>)
        ensures
            r == if i < self@.len() {
                Some(self@[i as int])
            } else {
                None
            },
    {
        if i < self.entries.len() {
            Some(self.entries[i].entry)
        } else {
            None
        }
    }

    /// The record at position `i`: the entry with its payload.
    pub fn record(&self, i: usize) -> (r: Option<&LogRecord>)
        ensures
            r is Some <==> i < self@.len(),
            r matches Some(rec) ==> rec.entry == self@[i as int] && rec.payload@
                == self.payloads()[i as int],
    {
        if i < self.entries.len() {
            Some(&self.entries[i])
        } else {
            None
        }
    }

    /// The position of the entry `(id, status)`, the first if there are
    /// several.
    pub fn position(&self, id: TxId, status: TxStatus) -> (r: Option<usize>)
        ensures
            match r {
                Some(i) => i < self@.len() && self@[i as int] == (LogEntry { id, status })
                    && forall|j: int| 0 <= j < i ==> self@[j] != (LogEntry { id, status }),
                None => forall|j: int| 0 <= j < self@.len() ==> self@[j] != (LogEntry { id, status }),
            },
    {
        let mut i: usize = 0;
        while i < self.entries.len()
            invariant
                i <= self.entries.len(),
                forall|j: int| 0 <= j < i ==> self@[j] != (LogEntry { id, status }),
            decreases self.entries.len() - i,
        {
            let e = self.entries[i].entry;
            if e.id == id && e.status == status {
                return Some(i);
            }
            i += 1;
        }
        None
    }
}

/// What came of a read or an apply that the replica ran.
#[derive(Clone, Debug)]
pub enum ExecutionActionOk {
    ReadOk(ReadOk),
    ApplyOk(ApplyOk),
}

/// The task that an action reports as done.
pub open spec fn action_task(a: ExecutionActionOk) -> Task {
    match a {
        ExecutionActionOk::ReadOk(m) => Task { id: m.id, apply: false },
        ExecutionActionOk::ApplyOk(m) => Task { id: m.id, apply: true },
    }
}

/// What the replica holds of one transaction.
struct TxnRecord {
    id: TxId,
    keys: Vec<Key>,
    kind: TxKind,
    t0: Timestamp,
    tx: Timestamp,
    deps: DepSet,
    status: TxStatus,
    read_keys: Option<Vec<Key>>,
    apply_writes: Option<Vec<KeyWrite>>,
}

spec fn opt_seq<T>(o: Option<Vec<T>>) -> Option<Seq<T>> {
    match o {
        Some(v) => Some(v@),
        None => None,
    }
}

impl TxnRecord {
    spec fn view(&self) -> RecordView {
        RecordView {
            keys: self.keys@,
            kind: self.kind,
            t0: self.t0,
            tx: self.tx,
            deps: self.deps@,
            status: self.status,
            read_keys: opt_seq(self.read_keys),
            apply_writes: opt_seq(self.apply_writes),
        }
    }

    spec fn pending(&self) -> nat {
        (if self.read_keys is Some {
            1nat
        } else {
            0nat
        }) + (if self.apply_writes is Some && self.status != TxStatus::Applied {
            1nat
        } else {
            0nat
        })
    }
}

spec fn distinct(rs: Seq<TxnRecord>) -> bool {
    forall|i: int, j: int| 0 <= i < j < rs.len() ==> rs[i].id != rs[j].id
}

spec fn has_id(rs: Seq<TxnRecord>, id: TxId) -> bool {
    exists|i: int| 0 <= i < rs.len() && rs[i].id == id
}

spec fn index_of(rs: Seq<TxnRecord>, id: TxId) -> int {
    choose|i: int| 0 <= i < rs.len() && rs[i].id == id
}

spec fn records_map(rs: Seq<TxnRecord>) -> Map<TxId, RecordView> {
    Map::new(|id: TxId| has_id(rs, id), |id: TxId| rs[index_of(rs, id)]@)
}

spec fn dep_at(rs: Seq<TxnRecord>, keys: Seq<Key>, kind: TxKind, tx: Timestamp, u: TxId, j: int) -> bool {
    rs[j].id == u && conflicts_before(rs[j]@, keys, kind, tx)
}

spec fn task_at(rs: Seq<TxnRecord>, j: int, apply: bool) -> Task {
    Task { id: rs[j].id, apply }
}

spec fn pending_count(rs: Seq<TxnRecord>) -> nat
    decreases rs.len(),
{
    if rs.len() == 0 {
        0
    } else {
        pending_count(rs.drop_last()) + rs.last().pending()
    }
}

proof fn lemma_index(rs: Seq<TxnRecord>, i: int)
    requires
        distinct(rs),
        0 <= i < rs.len(),
    ensures
        has_id(rs, rs[i].id),
        index_of(rs, rs[i].id) == i,
        records_map(rs).contains_key(rs[i].id),
        records_map(rs)[rs[i].id] == rs[i]@,
{
}

proof fn lemma_push(rs: Seq<TxnRecord>, r: TxnRecord)
    requires
        distinct(rs),
        !has_id(rs, r.id),
    ensures
        distinct(rs.push(r)),
        records_map(rs.push(r)) == records_map(rs).insert(r.id, r@),
{
    let next = rs.push(r);
    assert(distinct(next)) by {
        assert forall|i: int, j: int| 0 <= i < j < next.len() implies next[i].id != next[j].id by {
            if j == rs.len() {
                assert(rs[i].id != r.id);
            }
        }
    }
    assert forall|id: TxId| has_id(next, id) <==> (has_id(rs, id) || id == r.id) by {
        if has_id(rs, id) {
            let i = index_of(rs, id);
            assert(next[i].id == id);
        }
        if id == r.id {
            assert(next[rs.len() as int].id == id);
        }
    }
    assert forall|id: TxId| has_id(next, id) implies #[trigger] records_map(next)[id]
        == records_map(rs).insert(r.id, r@)[id] by {
        if id == r.id {
            lemma_index(next, rs.len() as int);
        } else {
            let i = index_of(rs, id);
            assert(next[i] == rs[i]);
            lemma_index(next, i);
        }
    }
    assert(records_map(next) =~= records_map(rs).insert(r.id, r@));
}

proof fn lemma_update(rs: Seq<TxnRecord>, i: int, r: TxnRecord)
    requires
        distinct(rs),
        0 <= i < rs.len(),
        r.id == rs[i].id,
    ensures
        distinct(rs.update(i, r)),
        records_map(rs.update(i, r)) == records_map(rs).insert(r.id, r@),
{
    let next = rs.update(i, r);
    assert(distinct(next));
    assert forall|id: TxId| has_id(next, id) <==> has_id(rs, id) by {
        if has_id(rs, id) {
            let j = index_of(rs, id);
            assert(next[j].id == id);
        }
        if has_id(next, id) {
            let j = index_of(next, id);
            assert(rs[j].id == id);
        }
    }
    lemma_index(rs, i);
    assert forall|id: TxId| has_id(next, id) implies #[trigger] records_map(next)[id]
        == records_map(rs).insert(r.id, r@)[id] by {
        let j = index_of(rs, id);
        lemma_index(next, j);
        lemma_index(rs, j);
    }
    assert(records_map(next) =~= records_map(rs).insert(r.id, r@));
}

proof fn lemma_pending_update(rs: Seq<TxnRecord>, i: int, r: TxnRecord)
    requires
        0 <= i < rs.len(),
    ensures
        pending_count(rs.update(i, r)) + rs[i].pending() == pending_count(rs) + r.pending(),
    decreases rs.len(),
{
    let next = rs.update(i, r);
    if i == rs.len() - 1 {
        assert(next.drop_last() =~= rs.drop_last());
    } else {
        assert(next.drop_last() =~= rs.drop_last().update(i, r));
        lemma_pending_update(rs.drop_last(), i, r);
    }
}

/// The replica side of a node. It writes to the log that it was given and
/// speaks of the entries that it wrote itself: those after `base`.
pub struct ReplicaState {
    node: NodeId,
    clock: u64,
    records: Vec<TxnRecord>,
    log: Log,
    base: usize,
}

impl View for ReplicaState {
    type V = ReplicaView;

    closed spec fn view(&self) -> ReplicaView {
        ReplicaView {
            node: self.node,
            clock: self.clock,
            records: records_map(self.records@),
            log: self.log@.skip(self.base as int),
            payloads: self.log.payloads().skip(self.base as int),
        }
    }
}

/// Whether two key lists have a key in common.
pub fn overlaps(a: &Vec<Key>, b: &Vec<Key>) -> (r: bool)
    ensures
        r == keys_overlap(a@, b@),
{
    let mut i: usize = 0;
    while i < a.len()
        invariant
            i <= a.len(),
            forall|x: int, y: int| 0 <= x < i && 0 <= y < b.len() ==> a@[x] != b@[y],
        decreases a.len() - i,
    {
        let mut j: usize = 0;
        while j < b.len()
            invariant
                i < a.len(),
                j <= b.len(),
                forall|y: int| 0 <= y < j ==> a@[i as int] != b@[y],
            decreases b.len() - j,
        {
            if a[i] == b[j] {
                assert(a@.contains(a@[i as int]) && b@.contains(b@[j as int]));
                return true;
            }
            j += 1;
        }
        i += 1;
    }
    assert(!keys_overlap(a@, b@)) by {
        if keys_overlap(a@, b@) {
            let k = choose|k: Key| a@.contains(k) && b@.contains(k);
            let x = choose|x: int| 0 <= x < a@.len() && a@[x] == k;
            let y = choose|y: int| 0 <= y < b@.len() && b@[y] == k;
            assert(a@[x] != b@[y]);
        }
    }
    false
}

impl ReplicaState {
    /// The invariant of the replica: no transaction is recorded twice, and
    /// the state is one that a replica can reach.
    pub closed spec fn inv(&self) -> bool {
        distinct(self.records@) && self@.inv() && self.base <= self.log@.len()
    }

    /// The number of entries that the log held when the replica was given
    /// it.
    pub closed spec fn logged_before(&self) -> nat {
        self.base as nat
    }

    /// The number of requests that are noted and have not run.
    pub closed spec fn pending(&self) -> nat {
        pending_count(self.records@)
    }

    /// The state of a replica that meets its invariant is one that the
    /// model allows: what is proved of such states holds of it.
    pub proof fn lemma_view_inv(&self)
        requires
            self.inv(),
        ensures
            self@.inv(),
    {
    }

    /// A replica of `node` that has seen nothing and writes to `log`,
    /// after the entries that the log holds already.
    pub fn new(log: Log, node: NodeId) -> (r: ReplicaState)
        ensures
            r.inv(),
            r@ == ReplicaView::init(node),
            r.logged_before() == log@.len(),
    {
        let base = log.len();
        let r = ReplicaState { node, clock: 0, records: Vec::new(), log, base };
        proof {
            assert(records_map(r.records@) =~= Map::<TxId, RecordView>::empty());
            assert(r.log@.skip(base as int) =~= Seq::<LogEntry>::empty());
            assert(r.log.payloads().skip(base as int) =~= Seq::<LogPayloadView>::empty());
            lemma_init_inv(node);
        }
        r
    }

    /// The node that this replica belongs to.
    pub fn get_node_id(&self) -> (r: NodeId)
        ensures
            r == self@.node,
    {
        self.node
    }

    /// The local logical clock.
    pub fn clock(&self) -> (r: u64)
        ensures
            r == self@.clock,
    {
        self.clock
    }

    /// The log: the entries that it held when the replica was given it,
    /// and after them those that the replica wrote.
    pub fn log(&self) -> (r: &Log)
        requires
            self.inv(),
        ensures
            self.logged_before() <= r@.len(),
            r@.skip(self.logged_before() as int) == self@.log,
            r.payloads().skip(self.logged_before() as int) == self@.payloads,
    {
        &self.log
    }

    fn log_append(&mut self, entry: LogEntry, payload: LogPayload)
        requires
            old(self).base <= old(self).log@.len(),
        ensures
            final(self).node == old(self).node,
            final(self).clock == old(self).clock,
            final(self).records == old(self).records,
            final(self).base == old(self).base,
            final(self).base <= final(self).log@.len(),
            final(self).log@.skip(final(self).base as int) == old(self).log@.skip(
                old(self).base as int,
            ).push(entry),
            final(self).log.payloads().skip(final(self).base as int) == old(self).log.payloads().skip(
                old(self).base as int,
            ).push(payload@),
    {
        let ghost n = self.log@.len();
        let ghost before = self.log@;
        let ghost loads = self.log.payloads();
        self.log.append(entry, payload);
        proof {
            assert(loads.len() == n);
            assert(self.log@.skip(self.base as int) =~= before.skip(self.base as int).push(entry));
            assert(self.log.payloads().skip(self.base as int) =~= loads.skip(
                self.base as int,
            ).push(payload@));
        }
    }

    fn find(&self, id: &TxId) -> (r: Option<usize>)
        requires
            distinct(self.records@),
        ensures
            match r {
                Some(i) => i < self.records.len() && self.records@[i as int].id == *id
                    && self@.records.contains_key(*id) && self@.records[*id]
                    == self.records@[i as int]@,
                None => !self@.records.contains_key(*id),
            },
    {
        let mut i: usize = 0;
        while i < self.records.len()
            invariant
                i <= self.records.len(),
                distinct(self.records@),
                forall|j: int| 0 <= j < i ==> self.records@[j].id != *id,
            decreases self.records.len() - i,
        {
            if self.records[i].id == *id {
                proof {
                    lemma_index(self.records@, i as int);
                }
                return Some(i);
            }
            i += 1;
        }
        None
    }

    /// The status of transaction `id`, if the replica has recorded it.
    pub fn status_of(&self, id: &TxId) -> (r: Option<TxStatus>)
        requires
            self.inv(),
        ensures
            r == if self@.records.contains_key(*id) {
                Some(self@.records[*id].status)
            } else {
                None
            },
    {
        match self.find(id) {
            Some(i) => Some(self.records[i].status),
            None => None,
        }
    }

    /// The execution time that the replica holds for transaction `id`.
    pub fn execute_at(&self, id: &TxId) -> (r: Option<Timestamp>)
        requires
            self.inv(),
        ensures
            r == if self@.records.contains_key(*id) {
                Some(self@.records[*id].tx)
            } else {
                None
            },
    {
        match self.find(id) {
            Some(i) => Some(self.records[i].tx),
            None => None,
        }
    }

    /// The dependencies that the replica holds for transaction `id`.
    pub fn deps_of(&self, id: &TxId) -> (r: Option<DepSet>)
        requires
            self.inv(),
        ensures
            r is Some == self@.records.contains_key(*id),
            r matches Some(d) ==> d@ == self@.records[*id].deps,
    {
        match self.find(id) {
            Some(i) => Some(self.records[i].deps.duplicate()),
            None => None,
        }
    }

    fn deps_before(&self, keys: &Vec<Key>, kind: TxKind, tx: Timestamp) -> (r: DepSet)
        requires
            distinct(self.records@),
        ensures
            r@ == self@.deps_before(keys@, kind, tx),
    {
        let mut out = DepSet::new();
        let mut i: usize = 0;
        while i < self.records.len()
            invariant
                i <= self.records.len(),
                distinct(self.records@),
                forall|u: TxId|
                    out@.contains(u) <==> exists|j: int|
                        0 <= j < i && dep_at(self.records@, keys@, kind, tx, u, j),
            decreases self.records.len() - i,
        {
            let ghost prev = out@;
            let rec = &self.records[i];
            let conflict = match (rec.kind, kind) {
                (TxKind::Read, TxKind::Read) => false,
                _ => true,
            };
            if conflict && rec.tx.lt(&tx) && overlaps(&rec.keys, keys) {
                out.insert(rec.id);
            }
            proof {
                let rs = self.records@;
                assert forall|u: TxId|
                    out@.contains(u) <==> exists|j: int|
                        0 <= j < i + 1 && dep_at(rs, keys@, kind, tx, u, j) by {
                    if exists|j: int| 0 <= j < i + 1 && dep_at(rs, keys@, kind, tx, u, j) {
                        let j = choose|j: int| 0 <= j < i + 1 && dep_at(rs, keys@, kind, tx, u, j);
                        if j < i {
                            assert(prev.contains(u));
                        }
                    }
                    if out@.contains(u) {
                        if prev.contains(u) {
                            let j = choose|j: int| 0 <= j < i && dep_at(rs, keys@, kind, tx, u, j);
                            assert(dep_at(rs, keys@, kind, tx, u, j));
                        } else {
                            assert(dep_at(rs, keys@, kind, tx, u, i as int));
                        }
                    }
                }
            }
            i += 1;
        }
        proof {
            let rs = self.records@;
            let want = self@.deps_before(keys@, kind, tx);
            assert forall|u: TxId| out@.contains(u) <==> want.contains(u) by {
                if out@.contains(u) {
                    let j = choose|j: int| 0 <= j < i && dep_at(rs, keys@, kind, tx, u, j);
                    lemma_index(rs, j);
                }
                if want.contains(u) {
                    let j = index_of(rs, u);
                    lemma_index(rs, j);
                    assert(dep_at(rs, keys@, kind, tx, u, j));
                }
            }
            assert(out@ =~= want);
        }
        out
    }

    /// A proposal arrives. A transaction seen for the first time is
    /// witnessed at the later of its birth and the tick after the local
    /// clock, the clock moves there, and the transaction is recorded as
    /// `PreAccepted` with the conflicting transactions timed before it as
    /// its dependencies. One that is recorded already changes nothing. The
    /// answer carries what the record holds.
    pub fn receive_preaccept(&mut self, msg: PreAccept) -> (r: PreAcceptOk)
        requires
            old(self).inv(),
        ensures
            final(self).inv(),
            final(self)@ == old(self)@.preaccept(msg),
            r.id == msg.id,
            r.proposed_tx == final(self)@.records[msg.id].tx,
            r.deps@ == final(self)@.records[msg.id].deps,
    {
        proof {
            lemma_preaccept_inv(self@, msg);
        }
        match self.find(&msg.id) {
            Some(i) => PreAcceptOk {
                id: msg.id,
                proposed_tx: self.records[i].tx,
                deps: self.records[i].deps.duplicate(),
            },
            None => {
                let next: u64 = if self.clock < u64::MAX {
                    self.clock + 1
                } else {
                    u64::MAX
                };
                let logical: u64 = if msg.t0.logical >= next {
                    msg.t0.logical
                } else {
                    next
                };
                let tx = Timestamp { logical, node: msg.t0.node };
                let deps = self.deps_before(&msg.keys, msg.kind, tx);
                let logged = deps.duplicate();
                let reply = PreAcceptOk { id: msg.id, proposed_tx: tx, deps: deps.duplicate() };
                let rec = TxnRecord {
                    id: msg.id,
                    keys: copy_vec(&msg.keys),
                    kind: msg.kind,
                    t0: msg.t0,
                    tx,
                    deps,
                    status: TxStatus::PreAccepted,
                    read_keys: None,
                    apply_writes: None,
                };
                proof {
                    lemma_push(self.records@, rec);
                }
                self.records.push(rec);
                self.clock = logical;
                self.log_append(
                    LogEntry { id: msg.id, status: TxStatus::PreAccepted },
                    LogPayload::Proposal { keys: msg.keys, kind: msg.kind, t0: msg.t0, tx, deps: logged },
                );
                reply
            },
        }
    }

    /// An `Accept` arrives. Where the transaction is recorded and not yet
    /// committed, and the chosen time is not before its birth, the record
    /// takes the coordinator's time and dependencies and is `Accepted`;
    /// otherwise nothing changes. The acknowledgement names the
    /// transaction.
    pub fn receive_accept(&mut self, msg: Accept) -> (r: AcceptOk)
        requires
            old(self).inv(),
        ensures
            final(self).inv(),
            final(self)@ == old(self)@.accept(msg),
            r.id == msg.id,
    {
        proof {
            lemma_accept_inv(self@, msg);
        }
        let id = msg.id;
        match self.find(&id) {
            Some(i) => {
                if !self.records[i].status.at_least(TxStatus::Committed) && self.records[i].t0.le(
                    &msg.tx,
                ) {
                    let was = self.records[i].status;
                    let logged = msg.deps.duplicate();
                    self.records[i].tx = msg.tx;
                    self.records[i].deps = msg.deps;
                    self.records[i].status = TxStatus::Accepted;
                    proof {
                        lemma_update(old(self).records@, i as int, self.records@[i as int]);
                        assert(self.records@ =~= old(self).records@.update(
                            i as int,
                            self.records@[i as int],
                        ));
                    }
                    if was == TxStatus::PreAccepted {
                        self.log_append(
                            LogEntry { id, status: TxStatus::Accepted },
                            LogPayload::Choice { tx: msg.tx, deps: logged },
                        );
                    }
                }
            },
            None => {},
        }
        AcceptOk { id }
    }

    /// A `Commit` arrives. For a transaction that is recorded and not yet
    /// committed, the record takes the final time and dependencies and is
    /// `Committed`. A transaction that the replica never saw proposed is a
    /// protocol error; a second commit to another time or other
    /// dependencies, or a time before the transaction's birth, is an
    /// internal error. An error changes nothing.
    pub fn receive_commit(&mut self, msg: Commit) -> (r: Result<(), AccordError>)
        requires
            old(self).inv(),
        ensures
            final(self).inv(),
            final(self)@ == old(self)@.commit(msg),
            r == old(self)@.commit_outcome(msg),
    {
        proof {
            lemma_commit_inv(self@, msg);
        }
        let id = msg.id;
        match self.find(&id) {
            None => Err(AccordError::Protocol),
            Some(i) => {
                if self.records[i].status.at_least(TxStatus::Committed) {
                    if self.records[i].tx == msg.tx && self.records[i].deps.set_eq(&msg.deps) {
                        Ok(())
                    } else {
                        Err(AccordError::Internal)
                    }
                } else if !self.records[i].t0.le(&msg.tx) {
                    Err(AccordError::Internal)
                } else {
                    let logged = msg.deps.duplicate();
                    self.records[i].tx = msg.tx;
                    self.records[i].deps = msg.deps;
                    self.records[i].status = TxStatus::Committed;
                    proof {
                        lemma_update(old(self).records@, i as int, self.records@[i as int]);
                        assert(self.records@ =~= old(self).records@.update(
                            i as int,
                            self.records@[i as int],
                        ));
                    }
                    self.log_append(
                        LogEntry { id, status: TxStatus::Committed },
                        LogPayload::Choice { tx: msg.tx, deps: logged },
                    );
                    Ok(())
                }
            },
        }
    }

    fn deps_reached(&self, deps: &DepSet, status: TxStatus) -> (r: bool)
        requires
            distinct(self.records@),
        ensures
            r == self@.deps_at_least(deps@, status),
    {
        let ids = deps.to_vec();
        let mut i: usize = 0;
        while i < ids.len()
            invariant
                i <= ids.len(),
                distinct(self.records@),
                ids@.to_set() == deps@,
                forall|j: int|
                    0 <= j < i ==> self@.records.contains_key(ids@[j]) && (
                    #[trigger] self@.records[ids@[j]]).status.rank() >= status.rank(),
            decreases ids.len() - i,
        {
            assert(ids@.contains(ids@[i as int]));
            assert(deps@.contains(ids@[i as int]));
            match self.find(&ids[i]) {
                None => {
                    return false;
                },
                Some(k) => {
                    if !self.records[k].status.at_least(status) {
                        return false;
                    }
                },
            }
            i += 1;
        }
        proof {
            assert forall|u: TxId| deps@.contains(u) implies self@.records.contains_key(u) && (
            #[trigger] self@.records[u]).status.rank() >= status.rank() by {
                assert(ids@.contains(u));
                let j = choose|j: int| 0 <= j < ids@.len() && ids@[j] == u;
                assert(self@.records[ids@[j]].status.rank() >= status.rank());
            }
        }
        true
    }

    fn is_ready(&self, i: usize, apply: bool) -> (r: bool)
        requires
            distinct(self.records@),
            i < self.records.len(),
        ensures
            r == self@.ready(task_at(self.records@, i as int, apply)),
    {
        proof {
            lemma_index(self.records@, i as int);
        }
        let rec = &self.records[i];
        if apply {
            rec.apply_writes.is_some() && rec.status == TxStatus::Committed && self.deps_reached(
                &rec.deps,
                TxStatus::Applied,
            )
        } else {
            rec.read_keys.is_some() && rec.status.at_least(TxStatus::Committed)
                && self.deps_reached(&rec.deps, TxStatus::Committed)
        }
    }

    fn runs_before(&self, i: usize, ai: bool, j: usize, aj: bool) -> (r: bool)
        requires
            distinct(self.records@),
            i < self.records.len(),
            j < self.records.len(),
        ensures
            r == self@.task_lt(
                task_at(self.records@, i as int, ai),
                task_at(self.records@, j as int, aj),
            ),
    {
        proof {
            lemma_index(self.records@, i as int);
            lemma_index(self.records@, j as int);
        }
        let a = &self.records[i];
        let b = &self.records[j];
        a.tx.lt(&b.tx) || (a.tx == b.tx && (a.id.lt(&b.id) || (a.id == b.id && !ai && aj)))
    }

    fn consider(&self, best: Option<(usize, bool)>, i: usize, ap: bool) -> (r: Option<(usize, bool)>)
        requires
            distinct(self.records@),
            i < self.records.len(),
            best matches Some((bi, ba)) ==> bi < self.records.len() && self@.ready(
                task_at(self.records@, bi as int, ba),
            ),
        ensures
            r matches Some((ri, ra)) ==> {
                &&& ri < self.records.len()
                &&& self@.ready(task_at(self.records@, ri as int, ra))
                &&& best matches Some((bi, ba)) ==> self@.task_le(
                    task_at(self.records@, ri as int, ra),
                    task_at(self.records@, bi as int, ba),
                )
                &&& self@.ready(task_at(self.records@, i as int, ap)) ==> self@.task_le(
                    task_at(self.records@, ri as int, ra),
                    task_at(self.records@, i as int, ap),
                )
            },
            r is None ==> best is None && !self@.ready(task_at(self.records@, i as int, ap)),
    {
        if !self.is_ready(i, ap) {
            proof {
                if let Some((bi, ba)) = best {
                    let t = task_at(self.records@, bi as int, ba);
                    lemma_task_order(self@, t, t, t);
                }
            }
            return best;
        }
        match best {
            None => {
                proof {
                    let t = task_at(self.records@, i as int, ap);
                    lemma_task_order(self@, t, t, t);
                }
                Some((i, ap))
            },
            Some((bi, ba)) => {
                proof {
                    let t = task_at(self.records@, i as int, ap);
                    let b = task_at(self.records@, bi as int, ba);
                    lemma_task_order(self@, t, b, t);
                    lemma_task_order(self@, b, t, b);
                }
                if self.runs_before(i, ap, bi, ba) {
                    Some((i, ap))
                } else {
                    Some((bi, ba))
                }
            },
        }
    }

    fn next_ready_index(&self) -> (r: Option<(usize, bool)>)
        requires
            distinct(self.records@),
        ensures
            match r {
                Some((i, ap)) => i < self.records.len() && self@.is_next(
                    task_at(self.records@, i as int, ap),
                ),
                None => self@.idle(),
            },
    {
        let mut best: Option<(usize, bool)> = None;
        let mut i: usize = 0;
        while i < self.records.len()
            invariant
                i <= self.records.len(),
                distinct(self.records@),
                best matches Some((bi, ba)) ==> {
                    &&& bi < self.records.len()
                    &&& self@.ready(task_at(self.records@, bi as int, ba))
                    &&& forall|j: int, f: bool|
                        0 <= j < i && #[trigger] self@.ready(task_at(self.records@, j, f))
                            ==> self@.task_le(
                            task_at(self.records@, bi as int, ba),
                            task_at(self.records@, j, f),
                        )
                },
                best is None ==> forall|j: int, f: bool|
                    0 <= j < i ==> !#[trigger] self@.ready(task_at(self.records@, j, f)),
            decreases self.records.len() - i,
        {
            let first = self.consider(best, i, false);
            let second = self.consider(first, i, true);
            proof {
                let rs = self.records@;
                if let Some((ri, ra)) = second {
                    let t = task_at(rs, ri as int, ra);
                    assert forall|j: int, f: bool|
                        0 <= j < i + 1 && #[trigger] self@.ready(task_at(rs, j, f)) implies self@.task_le(
                        t,
                        task_at(rs, j, f),
                    ) by {
                        let o = task_at(rs, j, f);
                        if j < i {
                            let (bi, ba) = best->0;
                            let b = task_at(rs, bi as int, ba);
                            let (fi, fa) = first->0;
                            let m = task_at(rs, fi as int, fa);
                            lemma_task_order(self@, t, m, b);
                            lemma_task_order(self@, t, b, o);
                        } else {
                            if f {
                            } else {
                                let (fi, fa) = first->0;
                                let m = task_at(rs, fi as int, fa);
                                lemma_task_order(self@, t, m, o);
                            }
                        }
                    }
                } else {
                    assert forall|j: int, f: bool| 0 <= j < i + 1 implies !#[trigger] self@.ready(
                        task_at(rs, j, f),
                    ) by {
                        if j == i {
                            if f {
                            } else {
                            }
                        }
                    }
                }
            }
            best = second;
            i += 1;
        }
        proof {
            let rs = self.records@;
            match best {
                Some((bi, ba)) => {
                    let t = task_at(rs, bi as int, ba);
                    assert forall|o: Task| #[trigger] self@.ready(o) implies self@.task_le(t, o) by {
                        let j = index_of(rs, o.id);
                        lemma_index(rs, j);
                        assert(o == task_at(rs, j, o.apply));
                    }
                },
                None => {
                    assert forall|o: Task| !self@.ready(o) by {
                        if self@.ready(o) {
                            let j = index_of(rs, o.id);
                            lemma_index(rs, j);
                            assert(o == task_at(rs, j, o.apply));
                        }
                    }
                },
            }
        }
        best
    }

    /// The task that runs next: of the reads and applies that are noted and
    /// whose dependencies are done, the first by execution time, then by
    /// transaction, a read before an apply. `None` when no task is ready.
    pub fn next_ready(&self) -> (r: Option<Task>)
        requires
            self.inv(),
        ensures
            r == self@.next_ready(),
            r is None <==> self@.idle(),
            r matches Some(t) ==> self@.is_next(t),
    {
        match self.next_ready_index() {
            Some((i, ap)) => {
                let t = Task { id: self.records[i].id, apply: ap };
                proof {
                    lemma_next_unique(self@, t);
                }
                Some(t)
            },
            None => {
                proof {
                    lemma_idle_none(self@);
                }
                None
            },
        }
    }

    /// The keys that the executor is handed for the read of transaction
    /// `id`: those of the read request that is noted for it, if one is.
    pub fn read_request(&self, id: &TxId) -> (r: Option<Vec<Key>>)
        requires
            self.inv(),
        ensures
            match r {
                Some(keys) => self@.records.contains_key(*id) && self@.records[*id].read_keys
                    == Some(keys@),
                None => !self@.records.contains_key(*id) || self@.records[*id].read_keys is None,
            },
    {
        match self.find(id) {
            None => None,
            Some(i) => match &self.records[i].read_keys {
                Some(keys) => Some(copy_vec(keys)),
                None => None,
            },
        }
    }

    /// The writes that the executor is handed for the apply of transaction
    /// `id`: those of the apply request that is noted for it, if one is.
    /// They stay noted when they are applied.
    pub fn apply_request(&self, id: &TxId) -> (r: Option<Vec<KeyWrite>>)
        requires
            self.inv(),
        ensures
            match r {
                Some(writes) => self@.records.contains_key(*id) && self@.records[*id].apply_writes
                    == Some(writes@),
                None => !self@.records.contains_key(*id) || self@.records[*id].apply_writes is None,
            },
    {
        match self.find(id) {
            None => None,
            Some(i) => match &self.records[i].apply_writes {
                Some(writes) => Some(copy_vec(writes)),
                None => None,
            },
        }
    }

    fn finish_read(&mut self, i: usize)
        requires
            old(self).inv(),
            i < old(self).records.len(),
            old(self)@.ready(task_at(old(self).records@, i as int, false)),
        ensures
            final(self).inv(),
            final(self)@ == old(self)@.complete(task_at(old(self).records@, i as int, false)),
            pending_count(final(self).records@) < pending_count(old(self).records@),
    {
        proof {
            lemma_index(self.records@, i as int);
            lemma_complete_inv(self@, task_at(self.records@, i as int, false));
        }
        self.records[i].read_keys = None;
        proof {
            assert(self.records@ =~= old(self).records@.update(i as int, self.records@[i as int]));
            lemma_update(old(self).records@, i as int, self.records@[i as int]);
            lemma_pending_update(old(self).records@, i as int, self.records@[i as int]);
        }
    }

    fn finish_apply(&mut self, i: usize)
        requires
            old(self).inv(),
            i < old(self).records.len(),
            old(self)@.ready(task_at(old(self).records@, i as int, true)),
        ensures
            final(self).inv(),
            final(self)@ == old(self)@.complete(task_at(old(self).records@, i as int, true)),
            pending_count(final(self).records@) < pending_count(old(self).records@),
    {
        proof {
            lemma_index(self.records@, i as int);
            lemma_complete_inv(self@, task_at(self.records@, i as int, true));
        }
        let id = self.records[i].id;
        self.records[i].status = TxStatus::Applied;
        proof {
            assert(self.records@ =~= old(self).records@.update(i as int, self.records@[i as int]));
            lemma_update(old(self).records@, i as int, self.records@[i as int]);
            lemma_pending_update(old(self).records@, i as int, self.records@[i as int]);
        }
        let writes = match &self.records[i].apply_writes {
            Some(w) => copy_vec(w),
            None => Vec::new(),
        };
        self.log_append(LogEntry { id, status: TxStatus::Applied }, LogPayload::Writes { writes });
    }

    /// The outcome of the read of transaction `id` is in. Where the read
    /// was ready and the executor succeeded, the request is no longer
    /// pending and the answer carries what was read. Where the executor
    /// failed, the request stays pending. A read that was not ready is a
    /// protocol error. An error changes nothing.
    pub fn complete_read(&mut self, id: TxId, outcome: Result<Vec<KeyRead>, ExecutorError>) -> (r:
        Result<ReadOk, AccordError>)
        requires
            old(self).inv(),
        ensures
            final(self).inv(),
            r is Err ==> final(self).pending() == old(self).pending(),
            !old(self)@.ready(Task { id, apply: false }) ==> r is Err && r->Err_0
                == AccordError::Protocol && final(self)@ == old(self)@,
            old(self)@.ready(Task { id, apply: false }) ==> match outcome {
                Ok(payload) => r is Ok && r->Ok_0.id == id && r->Ok_0.payload@ == payload@
                    && final(self)@ == old(self)@.complete(Task { id, apply: false })
                    && final(self).pending() < old(self).pending(),
                Err(_) => r is Err && r->Err_0 == AccordError::Executor && final(self)@ == old(self)@,
            },
    {
        match self.find(&id) {
            None => Err(AccordError::Protocol),
            Some(i) => {
                if !self.is_ready(i, false) {
                    return Err(AccordError::Protocol);
                }
                match outcome {
                    Ok(payload) => {
                        self.finish_read(i);
                        Ok(ReadOk { id, payload })
                    },
                    Err(_) => Err(AccordError::Executor),
                }
            },
        }
    }

    /// The outcome of the apply of transaction `id` is in. Where the apply
    /// was ready and the executor succeeded, the transaction is `Applied`
    /// and logged. Where the executor failed, the transaction keeps its
    /// status and the request stays pending. An apply that was not ready is
    /// a protocol error. An error changes nothing.
    pub fn complete_apply(&mut self, id: TxId, outcome: Result<(), ExecutorError>) -> (r: Result<
        ApplyOk,
        AccordError,
    >)
        requires
            old(self).inv(),
        ensures
            final(self).inv(),
            r is Err ==> final(self).pending() == old(self).pending(),
            !old(self)@.ready(Task { id, apply: true }) ==> r == Err::<ApplyOk, AccordError>(
                AccordError::Protocol,
            ) && final(self)@ == old(self)@,
            old(self)@.ready(Task { id, apply: true }) ==> match outcome {
                Ok(_) => {
                    &&& r == Ok::<ApplyOk, AccordError>(ApplyOk { id })
                    &&& final(self)@ == old(self)@.complete(Task { id, apply: true })
                    &&& final(self).pending() < old(self).pending()
                },
                Err(_) => r == Err::<ApplyOk, AccordError>(AccordError::Executor) && final(self)@
                    == old(self)@,
            },
    {
        match self.find(&id) {
            None => Err(AccordError::Protocol),
            Some(i) => {
                if !self.is_ready(i, true) {
                    return Err(AccordError::Protocol);
                }
                match outcome {
                    Ok(_) => {
                        self.finish_apply(i);
                        Ok(ApplyOk { id })
                    },
                    Err(_) => Err(AccordError::Executor),
                }
            },
        }
    }

    /// Runs tasks on the executor's outcomes, which are given in the order
    /// in which the executor was asked: the task that is next takes the
    /// first outcome, the task that is next after it the second, and so on.
    /// Tasks run as long as a task is ready, an outcome is there for it,
    /// and the outcome is a success; the run ends with the first task that
    /// lacks one of the three. One action reports each task that ran, in
    /// their order; that of a read carries the payload of its outcome. The
    /// payload of an apply's outcome is not looked at.
    pub fn run_outcomes(&mut self, outcomes: Vec<TaskOutcome>) -> (r: Vec<ExecutionActionOk>)
        requires
            old(self).inv(),
        ensures
            final(self).inv(),
            ran_on(old(self)@, final(self)@, outcomes@, r@),
            final(self).pending() + r@.len() <= old(self).pending(),
    {
        let ghost start = self@;
        let ghost all = outcomes@;
        let mut rest = outcomes;
        let mut actions: Vec<ExecutionActionOk> = Vec::new();
        let mut go = true;
        while go
            invariant
                self.inv(),
                start == old(self)@,
                all == outcomes@,
                actions@.len() <= all.len(),
                rest@ == all.subrange(actions@.len() as int, all.len() as int),
                self@ == start.advance(actions@.len()),
                self.pending() + actions@.len() <= old(self).pending(),
                forall|j: int|
                    0 <= j < actions@.len() ==> (#[trigger] all[j]) is Ok && start.advance(
                        j as nat,
                    ).next_ready() == Some(action_task(actions@[j])) && (
                    actions@[j] matches ExecutionActionOk::ReadOk(m) ==> m.payload@
                        == all[j]->Ok_0@),
                !go ==> actions@.len() == all.len() || all[actions@.len() as int] is Err
                    || self@.idle(),
            decreases
                    rest@.len() + if go {
                        1nat
                    } else {
                        0nat
                    },
        {
            let ghost k = actions@.len();
            let ghost before = self@;
            let ghost done = actions@;
            if rest.len() == 0 {
                go = false;
            } else {
                assert(rest@[0] == all[k as int]);
                match self.next_ready() {
                    None => {
                        go = false;
                    },
                    Some(t) => {
                        proof {
                            lemma_next_unique(before, t);
                        }
                        if rest[0].is_err() {
                            go = false;
                        } else {
                            let outcome = rest.remove(0);
                            assert(rest@ =~= all.subrange(k as int + 1, all.len() as int));
                            let action = if t.apply {
                                match self.complete_apply(t.id, Ok(())) {
                                    Ok(ok) => ExecutionActionOk::ApplyOk(ok),
                                    Err(_) => unreached(),
                                }
                            } else {
                                match self.complete_read(t.id, outcome) {
                                    Ok(ok) => ExecutionActionOk::ReadOk(ok),
                                    Err(_) => unreached(),
                                }
                            };
                            actions.push(action);
                            proof {
                                assert(start.advance((k + 1) as nat) == before.complete(t));
                                assert forall|j: int| 0 <= j < actions@.len() implies (
                                #[trigger] all[j]) is Ok && start.advance(j as nat).next_ready()
                                    == Some(action_task(actions@[j])) && (
                                actions@[j] matches ExecutionActionOk::ReadOk(m) ==> m.payload@
                                    == all[j]->Ok_0@) by {
                                    if j < k {
                                        assert(actions@[j] == done[j]);
                                    }
                                }
                            }
                        }
                    },
                }
            }
        }
        actions
    }

    /// Runs the tasks that are ready, asking the executor for each: the
    /// keys of the read request or the writes of the apply request go to
    /// the executor, and its outcome goes to `run_outcomes`, one task at a
    /// time, until no task is ready or the executor fails.
    fn run_ready<E: Executor>(&mut self, executor: &mut E, actions: &mut Vec<ExecutionActionOk>) -> (failed:
        bool)
        requires
            old(self).inv(),
        ensures
            final(self).inv(),
            final(actions)@.len() >= old(actions)@.len(),
            final(actions)@.subrange(0, old(actions)@.len() as int) == old(actions)@,
            final(self)@ == old(self)@.advance((final(actions)@.len() - old(actions)@.len()) as nat),
            forall|j: int|
                0 <= j < final(actions)@.len() - old(actions)@.len() ==> old(self)@.advance(
                    j as nat,
                ).next_ready() == Some(
                    action_task(#[trigger] final(actions)@[old(actions)@.len() + j]),
                ),
            failed == !final(self)@.idle(),
    {
        let ghost start = self@;
        let ghost base = actions@.len() as int;
        let mut failed = false;
        let mut go = true;
        while go
            invariant
                self.inv(),
                actions@.len() >= base,
                base == old(actions)@.len(),
                start == old(self)@,
                actions@.subrange(0, base) == old(actions)@,
                self@ == start.advance((actions@.len() - base) as nat),
                forall|j: int|
                    0 <= j < actions@.len() - base ==> start.advance(j as nat).next_ready() == Some(
                        action_task(#[trigger] actions@[base + j]),
                    ),
                go ==> !failed,
                !go ==> failed == !self@.idle(),
            decreases
                    self.pending() + if go {
                        1nat
                    } else {
                        0nat
                    },
        {
            let ghost before = self@;
            let ghost done = actions@;
            match self.next_ready() {
                None => {
                    go = false;
                },
                Some(t) => {
                    let outcome = if t.apply {
                        match self.apply_request(&t.id) {
                            Some(writes) => match executor.apply(t.id, &writes) {
                                Ok(_) => Ok(Vec::new()),
                                Err(e) => Err(e),
                            },
                            None => unreached(),
                        }
                    } else {
                        match self.read_request(&t.id) {
                            Some(keys) => executor.read(t.id, &keys),
                            None => unreached(),
                        }
                    };
                    let mut one: Vec<TaskOutcome> = Vec::new();
                    one.push(outcome);
                    let mut ran = self.run_outcomes(one);
                    proof {
                        assert(before.advance(0) == before);
                        lemma_next_unique(before, t);
                    }
                    if ran.len() == 0 {
                        failed = true;
                        go = false;
                        assert(before.ready(t));
                    } else {
                        let ghost first = ran@[0];
                        assert(one@[0] is Ok && before.next_ready() == Some(action_task(first)));
                        let a = ran.remove(0);
                        actions.push(a);
                        proof {
                            let k = (done.len() - base) as nat;
                            assert(actions@[base + k] == first);
                            assert(actions@.subrange(0, base) =~= done.subrange(0, base));
                            assert(before.advance(1) == before.complete(t));
                            assert(start.advance(k + 1) == before.complete(t));
                            assert forall|j: int|
                                0 <= j < actions@.len() - base implies start.advance(
                                j as nat,
                            ).next_ready() == Some(action_task(#[trigger] actions@[base + j])) by {
                                if j < k {
                                    assert(actions@[base + j] == done[base + j]);
                                }
                            }
                        }
                    }
                },
            }
        }
        failed
    }

    /// A read request arrives. Where the replica holds the transaction as
    /// committed at the request's time and dependencies, it notes the
    /// request; otherwise the request is a protocol error and nothing
    /// changes. Then the tasks that are ready run in their order, the
    /// executor called for each, until none is ready or the executor fails;
    /// a task that failed stays pending. Each task that ran is reported by
    /// one action, in the order in which they ran. Where the executor
    /// failed before any task was done, the result is an executor error.
    pub fn receive_read<E: Executor>(&mut self, executor: &mut E, msg: Read) -> (r: Result<
        Vec<ExecutionActionOk>,
        AccordError,
    >)
        requires
            old(self).inv(),
        ensures
            final(self).inv(),
            !old(self)@.holds_committed(msg.id, msg.tx, msg.deps@) ==> r is Err && r->Err_0
                == AccordError::Protocol && final(self)@ == old(self)@,
            old(self)@.holds_committed(msg.id, msg.tx, msg.deps@) ==> ran(
                old(self)@.defer_read(msg),
                final(self)@,
                r,
                0,
            ),
    {
        proof {
            lemma_defer_read_inv(self@, msg);
        }
        let id = msg.id;
        match self.find(&id) {
            None => {
                return Err(AccordError::Protocol);
            },
            Some(i) => {
                if !(self.records[i].status.at_least(TxStatus::Committed) && self.records[i].tx
                    == msg.tx && self.records[i].deps.set_eq(&msg.deps)) {
                    return Err(AccordError::Protocol);
                }
                self.records[i].read_keys = Some(msg.keys);
                proof {
                    assert(self.records@ =~= old(self).records@.update(
                        i as int,
                        self.records@[i as int],
                    ));
                    lemma_update(old(self).records@, i as int, self.records@[i as int]);
                }
            },
        }
        let mut actions: Vec<ExecutionActionOk> = Vec::new();
        let failed = self.run_ready(executor, &mut actions);
        if failed && actions.len() == 0 {
            Err(AccordError::Executor)
        } else {
            Ok(actions)
        }
    }

    /// An apply request arrives. Where the replica holds the transaction as
    /// committed at the request's time and dependencies, it notes the
    /// request; where the transaction is applied already, it acknowledges at
    /// once, as the first action, and runs nothing for it; otherwise the
    /// request is a protocol error and nothing changes. Then the tasks that
    /// are ready run as for a read request: applying a transaction may make
    /// those ready that waited for it.
    pub fn receive_apply<E: Executor>(&mut self, executor: &mut E, msg: Apply) -> (r: Result<
        Vec<ExecutionActionOk>,
        AccordError,
    >)
        requires
            old(self).inv(),
        ensures
            final(self).inv(),
            !old(self)@.holds_committed(msg.id, msg.tx, msg.deps@) ==> r is Err && r->Err_0
                == AccordError::Protocol && final(self)@ == old(self)@,
            old(self)@.holds_committed(msg.id, msg.tx, msg.deps@) ==> ran(
                old(self)@.defer_apply(msg),
                final(self)@,
                r,
                if old(self)@.records[msg.id].status == TxStatus::Applied {
                    1
                } else {
                    0
                },
            ),
            old(self)@.holds_committed(msg.id, msg.tx, msg.deps@) && old(self)@.records[msg.id].status
                == TxStatus::Applied ==> r is Ok && r->Ok_0@[0] == ExecutionActionOk::ApplyOk(
                ApplyOk { id: msg.id },
            ),
    {
        proof {
            lemma_defer_apply_inv(self@, msg);
        }
        let id = msg.id;
        let mut actions: Vec<ExecutionActionOk> = Vec::new();
        match self.find(&id) {
            None => {
                return Err(AccordError::Protocol);
            },
            Some(i) => {
                if !(self.records[i].status.at_least(TxStatus::Committed) && self.records[i].tx
                    == msg.tx && self.records[i].deps.set_eq(&msg.deps)) {
                    return Err(AccordError::Protocol);
                }
                if self.records[i].status == TxStatus::Applied {
                    actions.push(ExecutionActionOk::ApplyOk(ApplyOk { id }));
                } else {
                    self.records[i].apply_writes = Some(msg.writes);
                    proof {
                        assert(self.records@ =~= old(self).records@.update(
                            i as int,
                            self.records@[i as int],
                        ));
                        lemma_update(old(self).records@, i as int, self.records@[i as int]);
                    }
                }
            },
        }
        let ghost first = actions@;
        let failed = self.run_ready(executor, &mut actions);
        proof {
            if first.len() > 0 {
                assert(actions@.subrange(0, 1)[0] == first[0]);
            }
        }
        if failed && actions.len() == 0 {
            Err(AccordError::Executor)
        } else {
            Ok(actions)
        }
    }
}

/// What the executor made of one task: the payload that it read, or its
/// failure. Of an apply there is no payload to speak of.
pub type TaskOutcome = Result<Vec<KeyRead>, ExecutorError>;

/// How a run on the executor's outcomes that began in state `start` ended
/// in state `end` with `actions`. As many tasks ran as there are actions:
/// each had a successful outcome and was the task that was next when its
/// turn came, and a read's action carries the payload of its outcome. The
/// run went on as long as it could: after the last action the outcomes are
/// used up, or the next one is a failure, or no task is ready.
pub open spec fn ran_on(
    start: ReplicaView,
    end: ReplicaView,
    outcomes: Seq<TaskOutcome>,
    actions: Seq<ExecutionActionOk>,
) -> bool {
    let n = actions.len();
    &&& n <= outcomes.len()
    &&& end == start.advance(n)
    &&& forall|j: int|
        0 <= j < n ==> (#[trigger] outcomes[j]) is Ok && start.advance(j as nat).next_ready()
            == Some(action_task(actions[j])) && (actions[j] matches ExecutionActionOk::ReadOk(m)
            ==> m.payload@ == outcomes[j]->Ok_0@)
    &&& n == outcomes.len() || outcomes[n as int] is Err || end.idle()
}

/// Every outcome is a success, and there are more outcomes than `actions`:
/// the executor never failed, and the run did not end for want of an
/// outcome.
pub open spec fn succeeded(outcomes: Seq<TaskOutcome>, actions: Seq<ExecutionActionOk>) -> bool {
    actions.len() < outcomes.len() && forall|j: int|
        0 <= j < outcomes.len() ==> (#[trigger] outcomes[j]) is Ok
}

/// A run is fixed by its outcomes: two runs from one state on the same
/// outcomes run the same number of tasks and end in the same state.
pub proof fn lemma_run_is_fixed(
    start: ReplicaView,
    outcomes: Seq<TaskOutcome>,
    end: ReplicaView,
    actions: Seq<ExecutionActionOk>,
    other_end: ReplicaView,
    other_actions: Seq<ExecutionActionOk>,
)
    requires
        ran_on(start, end, outcomes, actions),
        ran_on(start, other_end, outcomes, other_actions),
    ensures
        actions.len() == other_actions.len(),
        end == other_end,
{
    let n = actions.len() as int;
    let m = other_actions.len() as int;
    if n < m {
        assert(outcomes[n] is Ok);
        lemma_idle_none(end);
    }
    if m < n {
        assert(outcomes[m] is Ok);
        lemma_idle_none(other_end);
    }
}

/// Nothing runs before its dependencies: in a run, the apply of a
/// transaction is reported only where each of its dependencies was applied
/// when its turn came, and a read only where each was committed. So an
/// apply request whose transaction has a dependency that is not applied
/// runs nothing for the transaction until the dependency has been applied,
/// in the same run or in an earlier one.
pub proof fn lemma_run_follows_dependencies(
    start: ReplicaView,
    end: ReplicaView,
    outcomes: Seq<TaskOutcome>,
    actions: Seq<ExecutionActionOk>,
    j: int,
    u: TxId,
)
    requires
        ran_on(start, end, outcomes, actions),
        0 <= j < actions.len(),
        start.advance(j as nat).records[action_task(actions[j]).id].deps.contains(u),
    ensures
        ({
            let then = start.advance(j as nat);
            &&& then.records.contains_key(u)
            &&& action_task(actions[j]).apply ==> then.records[u].status == TxStatus::Applied
            &&& then.records[u].status.rank() >= TxStatus::Committed.rank()
        }),
{
    let then = start.advance(j as nat);
    let t = action_task(actions[j]);
    assert(outcomes[j] is Ok);
    assert(then.next_ready() == Some(t));
    assert(then.is_next(t));
    assert(then.records[u].status.rank() >= TxStatus::Committed.rank());
}

/// Idempotence of a read request over runs: where the executor succeeds
/// whenever it is asked, a read request that is delivered a second time
/// leaves the replica in the state in which the first delivery left it.
pub proof fn lemma_read_delivered_twice(
    s: ReplicaView,
    msg: Read,
    first: Seq<TaskOutcome>,
    first_actions: Seq<ExecutionActionOk>,
    once: ReplicaView,
    second: Seq<TaskOutcome>,
    second_actions: Seq<ExecutionActionOk>,
    twice: ReplicaView,
)
    requires
        ran_on(s.defer_read(msg), once, first, first_actions),
        succeeded(first, first_actions),
        ran_on(once.defer_read(msg), twice, second, second_actions),
        succeeded(second, second_actions),
    ensures
        twice == once,
{
    lemma_read_idempotent(s, msg, first_actions.len(), second_actions.len());
}

/// Idempotence of an apply request over runs, as for a read request; the
/// second delivery runs nothing for the transaction.
pub proof fn lemma_apply_delivered_twice(
    s: ReplicaView,
    msg: Apply,
    first: Seq<TaskOutcome>,
    first_actions: Seq<ExecutionActionOk>,
    once: ReplicaView,
    second: Seq<TaskOutcome>,
    second_actions: Seq<ExecutionActionOk>,
    twice: ReplicaView,
)
    requires
        ran_on(s.defer_apply(msg), once, first, first_actions),
        succeeded(first, first_actions),
        ran_on(once.defer_apply(msg), twice, second, second_actions),
    ensures
        twice == once,
        second_actions.len() == 0,
{
    lemma_apply_idempotent(s, msg, first_actions.len(), second_actions.len());
    if second_actions.len() > 0 {
        let again = once.defer_apply(msg);
        lemma_apply_idempotent(s, msg, first_actions.len(), 0);
        assert(again.advance(0) == again);
        assert(again == once);
        lemma_idle_none(once);
        assert(second[0] is Ok);
    }
}

/// How a delivery that began in state `d` ended in state `end` with result
/// `r`. The actions after the first `skip` report the tasks that ran, each
/// the one that was next when its turn came, and `end` is the state after
/// them. With no action at all and no error, no task was ready. An error
/// is the executor's: the first task failed and nothing has changed.
pub open spec fn ran(
    d: ReplicaView,
    end: ReplicaView,
    r: Result<Vec<ExecutionActionOk>, AccordError>,
    skip: nat,
) -> bool {
    match r {
        Ok(actions) => {
            &&& actions@.len() >= skip
            &&& end == d.advance((actions@.len() - skip) as nat)
            &&& forall|j: int|
                0 <= j < actions@.len() - skip ==> d.advance(j as nat).next_ready() == Some(
                    action_task(#[trigger] actions@[skip + j]),
                )
            &&& actions@.len() == 0 ==> end.idle()
        },
        Err(e) => e == AccordError::Executor && end == d && !d.idle(),
    }
}

} // verus!
