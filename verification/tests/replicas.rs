use diststore::deps::DepSet;
use diststore::protocol::{
    Accept, AccordError, Apply, Commit, Executor, ExecutorError, KeyRead, KeyWrite, PreAccept, Read,
    TxKind,
};
use diststore::replica::{overlaps, ExecutionActionOk, Log, LogPayload, ReplicaState};
use diststore::replica_model::{LogEntry, Task, TxStatus};
use diststore::store::MemoryStore;
use diststore::timestamp::{Timestamp, TxId};

fn tx(logical: u64, origin: u64) -> TxId {
    TxId { logical, origin }
}

fn ts(logical: u64, node: u64) -> Timestamp {
    Timestamp { logical, node }
}

fn deps(ids: &[TxId]) -> DepSet {
    DepSet::from_vec(ids.to_vec())
}

fn propose(id: TxId, keys: &[u64], kind: TxKind) -> PreAccept {
    let command = match kind {
        TxKind::Write => keys.iter().map(|k| KeyWrite { key: *k, value: id.logical * 100 + id.origin }).collect(),
        TxKind::Read => vec![],
    };
    PreAccept { id, t0: id.t0(), keys: keys.to_vec(), kind, command }
}

fn commit(id: TxId, at: Timestamp, after: &[TxId]) -> Commit {
    Commit { id, tx: at, deps: deps(after) }
}

fn read(id: TxId, at: Timestamp, after: &[TxId], keys: &[u64]) -> Read {
    Read { id, tx: at, deps: deps(after), keys: keys.to_vec() }
}

fn apply(id: TxId, at: Timestamp, after: &[TxId], writes: &[(u64, u64)]) -> Apply {
    Apply {
        id,
        tx: at,
        deps: deps(after),
        result: vec![],
        writes: writes.iter().map(|(key, value)| KeyWrite { key: *key, value: *value }).collect(),
    }
}

fn tasks(actions: &[ExecutionActionOk]) -> Vec<(TxId, bool)> {
    actions
        .iter()
        .map(|a| match a {
            ExecutionActionOk::ReadOk(m) => (m.id, false),
            ExecutionActionOk::ApplyOk(m) => (m.id, true),
        })
        .collect()
}

/// An executor that counts its calls and fails on demand.
struct Counting {
    store: MemoryStore,
    reads: usize,
    applies: usize,
    fail_reads: bool,
    fail_applies: bool,
}

impl Counting {
    fn new() -> Counting {
        Counting { store: MemoryStore::new(), reads: 0, applies: 0, fail_reads: false, fail_applies: false }
    }
}

impl Executor for Counting {
    fn read(&mut self, id: TxId, keys: &Vec<u64>) -> Result<Vec<KeyRead>, ExecutorError> {
        self.reads += 1;
        if self.fail_reads {
            return Err(ExecutorError { code: 7 });
        }
        self.store.read(id, keys)
    }

    fn apply(&mut self, id: TxId, writes: &Vec<KeyWrite>) -> Result<(), ExecutorError> {
        self.applies += 1;
        if self.fail_applies {
            return Err(ExecutorError { code: 8 });
        }
        self.store.apply(id, writes)
    }
}

#[test]
fn fresh_replica_is_empty() {
    let r = ReplicaState::new(Log::new(), 4);
    assert_eq!(r.get_node_id(), 4);
    assert_eq!(r.clock(), 0);
    assert_eq!(r.log().len(), 0);
    assert_eq!(r.status_of(&tx(1, 1)), None);
    assert_eq!(r.execute_at(&tx(1, 1)), None);
    assert!(r.deps_of(&tx(1, 1)).is_none());
    assert_eq!(r.next_ready(), None);
}

#[test]
fn preaccept_witnesses_at_birth_when_the_clock_is_behind() {
    let mut r = ReplicaState::new(Log::new(), 2);
    let ok = r.receive_preaccept(propose(tx(5, 1), &[1], TxKind::Write));
    assert_eq!(ok.id, tx(5, 1));
    assert_eq!(ok.proposed_tx, ts(5, 1));
    assert!(ok.deps.is_empty());
    assert_eq!(r.clock(), 5);
    assert_eq!(r.status_of(&tx(5, 1)), Some(TxStatus::PreAccepted));
    assert_eq!(r.log().entry(0), Some(LogEntry { id: tx(5, 1), status: TxStatus::PreAccepted }));
}

#[test]
fn preaccept_witnesses_after_the_clock_when_born_earlier() {
    let mut r = ReplicaState::new(Log::new(), 2);
    r.receive_preaccept(propose(tx(5, 1), &[1], TxKind::Write));
    let ok = r.receive_preaccept(propose(tx(2, 3), &[1], TxKind::Write));
    // The later of birth (2) and the tick after the clock (6), at the
    // transaction's own node.
    assert_eq!(ok.proposed_tx, ts(6, 3));
    assert_eq!(ok.deps.to_vec(), vec![tx(5, 1)]);
    assert_eq!(r.clock(), 6);
}

#[test]
fn preaccept_at_the_end_of_the_clock_range() {
    let mut r = ReplicaState::new(Log::new(), 2);
    r.receive_preaccept(propose(tx(u64::MAX, 1), &[1], TxKind::Write));
    assert_eq!(r.clock(), u64::MAX);
    let ok = r.receive_preaccept(propose(tx(3, 3), &[1], TxKind::Write));
    assert_eq!(ok.proposed_tx, ts(u64::MAX, 3));
    assert_eq!(r.clock(), u64::MAX);
    // Timed at the same logical time, the earlier node comes first.
    assert_eq!(ok.deps.to_vec(), vec![tx(u64::MAX, 1)]);
}

#[test]
fn dependencies_are_the_conflicting_transactions_before() {
    let mut r = ReplicaState::new(Log::new(), 2);
    r.receive_preaccept(propose(tx(1, 1), &[1, 2], TxKind::Write));
    r.receive_preaccept(propose(tx(1, 3), &[3], TxKind::Write));
    r.receive_preaccept(propose(tx(2, 1), &[2], TxKind::Read));

    // A read depends on the writes on its keys, not on reads.
    let ok = r.receive_preaccept(propose(tx(2, 3), &[2, 9], TxKind::Read));
    assert_eq!(ok.deps.to_vec(), vec![tx(1, 1)]);

    // A write depends on reads and writes on its keys.
    let ok = r.receive_preaccept(propose(tx(3, 1), &[2], TxKind::Write));
    assert!(ok.deps.set_eq(&deps(&[tx(1, 1), tx(2, 1), tx(2, 3)])));

    // Nothing in common, nothing before.
    let ok = r.receive_preaccept(propose(tx(3, 3), &[7], TxKind::Write));
    assert!(ok.deps.is_empty());
}

#[test]
fn overlapping_key_lists() {
    assert!(overlaps(&vec![1, 2, 3], &vec![9, 3]));
    assert!(!overlaps(&vec![1, 2, 3], &vec![9, 8]));
    assert!(!overlaps(&vec![], &vec![1]));
    assert!(!overlaps(&vec![1], &vec![]));
}

#[test]
fn accept_takes_the_coordinators_choice() {
    let mut r = ReplicaState::new(Log::new(), 2);
    r.receive_preaccept(propose(tx(1, 1), &[1], TxKind::Write));
    let ok = r.receive_accept(Accept { id: tx(1, 1), tx: ts(4, 3), deps: deps(&[tx(1, 3)]) });
    assert_eq!(ok.id, tx(1, 1));
    assert_eq!(r.status_of(&tx(1, 1)), Some(TxStatus::Accepted));
    assert_eq!(r.execute_at(&tx(1, 1)), Some(ts(4, 3)));
    assert_eq!(r.deps_of(&tx(1, 1)).unwrap().to_vec(), vec![tx(1, 3)]);
    assert_eq!(r.log().entry(1), Some(LogEntry { id: tx(1, 1), status: TxStatus::Accepted }));
    // The clock is the replica's own.
    assert_eq!(r.clock(), 1);
}

#[test]
fn accept_is_idempotent() {
    let mut r = ReplicaState::new(Log::new(), 2);
    r.receive_preaccept(propose(tx(1, 1), &[1], TxKind::Write));
    let msg = Accept { id: tx(1, 1), tx: ts(4, 3), deps: deps(&[tx(1, 3)]) };
    r.receive_accept(msg.clone());
    let entries = r.log().len();
    let ok = r.receive_accept(msg);
    assert_eq!(ok.id, tx(1, 1));
    assert_eq!(r.log().len(), entries);
    assert_eq!(r.status_of(&tx(1, 1)), Some(TxStatus::Accepted));
    assert_eq!(r.execute_at(&tx(1, 1)), Some(ts(4, 3)));
}

#[test]
fn accept_for_an_unknown_transaction_records_nothing() {
    let mut r = ReplicaState::new(Log::new(), 2);
    let ok = r.receive_accept(Accept { id: tx(1, 1), tx: ts(4, 3), deps: deps(&[]) });
    assert_eq!(ok.id, tx(1, 1));
    assert_eq!(r.status_of(&tx(1, 1)), None);
    assert_eq!(r.log().len(), 0);
}

#[test]
fn accept_before_birth_changes_nothing() {
    let mut r = ReplicaState::new(Log::new(), 2);
    r.receive_preaccept(propose(tx(5, 1), &[1], TxKind::Write));
    r.receive_accept(Accept { id: tx(5, 1), tx: ts(4, 9), deps: deps(&[tx(1, 3)]) });
    assert_eq!(r.status_of(&tx(5, 1)), Some(TxStatus::PreAccepted));
    assert_eq!(r.execute_at(&tx(5, 1)), Some(ts(5, 1)));
}

#[test]
fn late_accept_is_a_no_op() {
    let mut r = ReplicaState::new(Log::new(), 2);
    r.receive_preaccept(propose(tx(1, 1), &[1], TxKind::Write));
    assert_eq!(r.receive_commit(commit(tx(1, 1), ts(1, 1), &[])), Ok(()));
    let entries = r.log().len();
    r.receive_accept(Accept { id: tx(1, 1), tx: ts(4, 3), deps: deps(&[tx(1, 3)]) });
    assert_eq!(r.status_of(&tx(1, 1)), Some(TxStatus::Committed));
    assert_eq!(r.execute_at(&tx(1, 1)), Some(ts(1, 1)));
    assert!(r.deps_of(&tx(1, 1)).unwrap().is_empty());
    assert_eq!(r.log().len(), entries);
}

#[test]
fn commit_from_preaccepted_and_from_accepted() {
    let mut r = ReplicaState::new(Log::new(), 2);
    r.receive_preaccept(propose(tx(1, 1), &[1], TxKind::Write));
    r.receive_preaccept(propose(tx(1, 3), &[1], TxKind::Write));
    assert_eq!(r.receive_commit(commit(tx(1, 1), ts(1, 1), &[])), Ok(()));
    r.receive_accept(Accept { id: tx(1, 3), tx: ts(3, 3), deps: deps(&[tx(1, 1)]) });
    assert_eq!(r.receive_commit(commit(tx(1, 3), ts(3, 3), &[tx(1, 1)])), Ok(()));
    assert_eq!(r.status_of(&tx(1, 1)), Some(TxStatus::Committed));
    assert_eq!(r.status_of(&tx(1, 3)), Some(TxStatus::Committed));
    assert_eq!(r.execute_at(&tx(1, 3)), Some(ts(3, 3)));
    assert_eq!(r.log().position(tx(1, 3), TxStatus::Committed), Some(4));
}

#[test]
fn commit_may_be_earlier_than_the_replicas_own_proposal() {
    let mut r = ReplicaState::new(Log::new(), 2);
    r.receive_preaccept(propose(tx(4, 3), &[1], TxKind::Write));
    let ok = r.receive_preaccept(propose(tx(1, 1), &[1], TxKind::Write));
    assert_eq!(ok.proposed_tx, ts(5, 1));
    assert_eq!(r.receive_commit(commit(tx(1, 1), ts(1, 1), &[])), Ok(()));
    assert_eq!(r.execute_at(&tx(1, 1)), Some(ts(1, 1)));
    assert!(r.deps_of(&tx(1, 1)).unwrap().is_empty());
}

#[test]
fn commit_errors() {
    let mut r = ReplicaState::new(Log::new(), 2);
    // Never proposed here.
    assert_eq!(r.receive_commit(commit(tx(1, 1), ts(1, 1), &[])), Err(AccordError::Protocol));
    assert_eq!(r.status_of(&tx(1, 1)), None);

    // Before the transaction's birth.
    r.receive_preaccept(propose(tx(5, 1), &[1], TxKind::Write));
    assert_eq!(r.receive_commit(commit(tx(5, 1), ts(4, 9), &[])), Err(AccordError::Internal));
    assert_eq!(r.status_of(&tx(5, 1)), Some(TxStatus::PreAccepted));

    // Committed twice, differently.
    assert_eq!(r.receive_commit(commit(tx(5, 1), ts(5, 1), &[])), Ok(()));
    assert_eq!(r.receive_commit(commit(tx(5, 1), ts(6, 1), &[])), Err(AccordError::Internal));
    assert_eq!(r.receive_commit(commit(tx(5, 1), ts(5, 1), &[tx(1, 3)])), Err(AccordError::Internal));
    assert_eq!(r.execute_at(&tx(5, 1)), Some(ts(5, 1)));
    assert!(r.deps_of(&tx(5, 1)).unwrap().is_empty());
}

#[test]
fn commit_is_idempotent() {
    let mut r = ReplicaState::new(Log::new(), 2);
    r.receive_preaccept(propose(tx(1, 1), &[1], TxKind::Write));
    assert_eq!(r.receive_commit(commit(tx(1, 1), ts(1, 1), &[])), Ok(()));
    let entries = r.log().len();
    assert_eq!(r.receive_commit(commit(tx(1, 1), ts(1, 1), &[])), Ok(()));
    assert_eq!(r.log().len(), entries);
    assert_eq!(r.status_of(&tx(1, 1)), Some(TxStatus::Committed));
}

#[test]
fn read_of_an_uncommitted_transaction_is_a_protocol_error() {
    let mut r = ReplicaState::new(Log::new(), 2);
    let mut ex = Counting::new();
    assert!(matches!(r.receive_read(&mut ex, read(tx(1, 1), ts(1, 1), &[], &[1])), Err(AccordError::Protocol)));
    r.receive_preaccept(propose(tx(1, 1), &[1], TxKind::Write));
    assert!(matches!(r.receive_read(&mut ex, read(tx(1, 1), ts(1, 1), &[], &[1])), Err(AccordError::Protocol)));
    r.receive_commit(commit(tx(1, 1), ts(1, 1), &[])).unwrap();
    // Committed, but not at this time or not with these dependencies.
    assert!(matches!(r.receive_read(&mut ex, read(tx(1, 1), ts(2, 1), &[], &[1])), Err(AccordError::Protocol)));
    assert!(matches!(r.receive_read(&mut ex, read(tx(1, 1), ts(1, 1), &[tx(9, 9)], &[1])), Err(AccordError::Protocol)));
    assert_eq!(ex.reads, 0);
    assert_eq!(r.next_ready(), None);
}

#[test]
fn read_runs_at_once_when_nothing_is_before() {
    let mut r = ReplicaState::new(Log::new(), 2);
    let mut ex = Counting::new();
    ex.store.set(1, 11);
    r.receive_preaccept(propose(tx(1, 1), &[1, 2], TxKind::Read));
    r.receive_commit(commit(tx(1, 1), ts(1, 1), &[])).unwrap();
    let actions = r.receive_read(&mut ex, read(tx(1, 1), ts(1, 1), &[], &[1, 2])).unwrap();
    assert_eq!(actions.len(), 1);
    match &actions[0] {
        ExecutionActionOk::ReadOk(ok) => {
            assert_eq!(ok.id, tx(1, 1));
            assert_eq!(ok.payload, vec![KeyRead { key: 1, value: Some(11) }, KeyRead { key: 2, value: None }]);
        }
        _ => panic!("a read was asked for"),
    }
    assert_eq!(ex.reads, 1);
    assert_eq!(r.status_of(&tx(1, 1)), Some(TxStatus::Committed));
}

#[test]
fn read_waits_until_its_dependencies_are_committed() {
    let mut r = ReplicaState::new(Log::new(), 2);
    let mut ex = Counting::new();
    let w = tx(1, 1);
    let rd = tx(1, 3);
    r.receive_preaccept(propose(w, &[1], TxKind::Write));
    r.receive_preaccept(propose(rd, &[1], TxKind::Read));
    r.receive_commit(commit(rd, ts(2, 3), &[w])).unwrap();

    let actions = r.receive_read(&mut ex, read(rd, ts(2, 3), &[w], &[1])).unwrap();
    assert!(actions.is_empty());
    assert_eq!(ex.reads, 0);
    assert_eq!(r.next_ready(), None);

    r.receive_commit(commit(w, ts(1, 1), &[])).unwrap();
    assert_eq!(r.next_ready(), Some(Task { id: rd, apply: false }));

    // The read runs with the next request that arrives.
    let actions = r.receive_read(&mut ex, read(rd, ts(2, 3), &[w], &[1])).unwrap();
    assert_eq!(tasks(&actions), vec![(rd, false)]);
    assert_eq!(ex.reads, 1);
    assert_eq!(r.next_ready(), None);
}

#[test]
fn read_delivered_twice_leaves_the_same_state() {
    let mut r = ReplicaState::new(Log::new(), 2);
    let mut ex = Counting::new();
    r.receive_preaccept(propose(tx(1, 1), &[1], TxKind::Read));
    r.receive_commit(commit(tx(1, 1), ts(1, 1), &[])).unwrap();
    let first = r.receive_read(&mut ex, read(tx(1, 1), ts(1, 1), &[], &[1])).unwrap();
    let entries = r.log().len();
    let second = r.receive_read(&mut ex, read(tx(1, 1), ts(1, 1), &[], &[1])).unwrap();
    assert_eq!(tasks(&first), tasks(&second));
    assert_eq!(r.log().len(), entries);
    assert_eq!(r.status_of(&tx(1, 1)), Some(TxStatus::Committed));
    assert_eq!(r.next_ready(), None);
}

#[test]
fn apply_waits_until_its_dependencies_are_applied() {
    let mut r = ReplicaState::new(Log::new(), 2);
    let mut ex = Counting::new();
    let first = tx(1, 1);
    let second = tx(1, 3);
    r.receive_preaccept(propose(first, &[1], TxKind::Write));
    r.receive_preaccept(propose(second, &[1], TxKind::Write));
    r.receive_commit(commit(first, ts(1, 1), &[])).unwrap();
    r.receive_commit(commit(second, ts(2, 3), &[first])).unwrap();

    // The dependency is committed, not applied: the apply waits.
    let actions = r.receive_apply(&mut ex, apply(second, ts(2, 3), &[first], &[(1, 2)])).unwrap();
    assert!(actions.is_empty());
    assert_eq!(ex.applies, 0);
    assert_eq!(r.status_of(&second), Some(TxStatus::Committed));

    let actions = r.receive_apply(&mut ex, apply(first, ts(1, 1), &[], &[(1, 1)])).unwrap();
    assert_eq!(tasks(&actions), vec![(first, true), (second, true)]);
    assert_eq!(ex.applies, 2);
    assert_eq!(ex.store.get(1), Some(2));
    assert_eq!(r.status_of(&first), Some(TxStatus::Applied));
    assert_eq!(r.status_of(&second), Some(TxStatus::Applied));
    let a = r.log().position(first, TxStatus::Applied).unwrap();
    let b = r.log().position(second, TxStatus::Applied).unwrap();
    assert!(a < b);
    assert!(r.log().position(first, TxStatus::Committed).unwrap() < a);
}

#[test]
fn apply_waits_for_a_dependency_that_is_unknown() {
    let mut r = ReplicaState::new(Log::new(), 2);
    let mut ex = Counting::new();
    r.receive_preaccept(propose(tx(2, 1), &[1], TxKind::Write));
    r.receive_commit(commit(tx(2, 1), ts(2, 1), &[tx(1, 3)])).unwrap();
    let actions = r.receive_apply(&mut ex, apply(tx(2, 1), ts(2, 1), &[tx(1, 3)], &[(1, 1)])).unwrap();
    assert!(actions.is_empty());
    assert_eq!(r.status_of(&tx(2, 1)), Some(TxStatus::Committed));
}

#[test]
fn ready_tasks_run_by_time_then_transaction_reads_first() {
    let mut r = ReplicaState::new(Log::new(), 2);
    let mut ex = Counting::new();
    let root = tx(1, 1);
    let a = tx(2, 1);
    let b = tx(2, 3);
    let c = tx(3, 1);
    r.receive_preaccept(propose(root, &[1], TxKind::Write));
    for id in [a, b, c] {
        r.receive_preaccept(propose(id, &[1], TxKind::Write));
    }
    r.receive_commit(commit(root, ts(1, 1), &[])).unwrap();
    r.receive_commit(commit(c, ts(5, 1), &[root])).unwrap();
    r.receive_commit(commit(b, ts(4, 9), &[root])).unwrap();
    r.receive_commit(commit(a, ts(4, 9), &[root])).unwrap();
    for (id, at) in [(c, ts(5, 1)), (b, ts(4, 9)), (a, ts(4, 9))] {
        assert!(r.receive_apply(&mut ex, apply(id, at, &[root], &[(1, id.logical)])).unwrap().is_empty());
    }
    let actions = r.receive_read(&mut ex, read(root, ts(1, 1), &[], &[1])).unwrap();
    assert_eq!(tasks(&actions), vec![(root, false)]);
    let actions = r.receive_apply(&mut ex, apply(root, ts(1, 1), &[], &[(1, 1)])).unwrap();
    assert_eq!(tasks(&actions), vec![(root, true), (a, true), (b, true), (c, true)]);
    assert_eq!(ex.store.get(1), Some(3));
}

#[test]
fn apply_delivered_twice_runs_once() {
    let mut r = ReplicaState::new(Log::new(), 2);
    let mut ex = Counting::new();
    r.receive_preaccept(propose(tx(1, 1), &[1], TxKind::Write));
    r.receive_commit(commit(tx(1, 1), ts(1, 1), &[])).unwrap();
    let first = r.receive_apply(&mut ex, apply(tx(1, 1), ts(1, 1), &[], &[(1, 5)])).unwrap();
    assert_eq!(tasks(&first), vec![(tx(1, 1), true)]);
    let entries = r.log().len();
    let second = r.receive_apply(&mut ex, apply(tx(1, 1), ts(1, 1), &[], &[(1, 5)])).unwrap();
    assert_eq!(tasks(&second), vec![(tx(1, 1), true)]);
    assert_eq!(ex.applies, 1);
    assert_eq!(r.log().len(), entries);
    assert_eq!(r.status_of(&tx(1, 1)), Some(TxStatus::Applied));
}

#[test]
fn apply_of_an_uncommitted_transaction_is_a_protocol_error() {
    let mut r = ReplicaState::new(Log::new(), 2);
    let mut ex = Counting::new();
    assert!(matches!(r.receive_apply(&mut ex, apply(tx(1, 1), ts(1, 1), &[], &[])), Err(AccordError::Protocol)));
    r.receive_preaccept(propose(tx(1, 1), &[1], TxKind::Write));
    assert!(matches!(r.receive_apply(&mut ex, apply(tx(1, 1), ts(1, 1), &[], &[])), Err(AccordError::Protocol)));
    assert_eq!(r.status_of(&tx(1, 1)), Some(TxStatus::PreAccepted));
    assert_eq!(ex.applies, 0);
}

#[test]
fn executor_failure_keeps_the_status_and_a_retry_succeeds() {
    let mut r = ReplicaState::new(Log::new(), 2);
    let mut ex = Counting::new();
    r.receive_preaccept(propose(tx(1, 1), &[1], TxKind::Write));
    r.receive_commit(commit(tx(1, 1), ts(1, 1), &[])).unwrap();

    ex.fail_applies = true;
    let failed = r.receive_apply(&mut ex, apply(tx(1, 1), ts(1, 1), &[], &[(1, 5)]));
    assert!(matches!(failed, Err(AccordError::Executor)));
    assert_eq!(r.status_of(&tx(1, 1)), Some(TxStatus::Committed));
    assert_eq!(r.log().position(tx(1, 1), TxStatus::Applied), None);
    assert_eq!(r.next_ready(), Some(Task { id: tx(1, 1), apply: true }));

    ex.fail_applies = false;
    let done = r.receive_apply(&mut ex, apply(tx(1, 1), ts(1, 1), &[], &[(1, 5)])).unwrap();
    assert_eq!(tasks(&done), vec![(tx(1, 1), true)]);
    assert_eq!(r.status_of(&tx(1, 1)), Some(TxStatus::Applied));
    assert_eq!(ex.store.get(1), Some(5));

    ex.fail_reads = true;
    let failed = r.receive_read(&mut ex, read(tx(1, 1), ts(1, 1), &[], &[1]));
    assert!(matches!(failed, Err(AccordError::Executor)));
    ex.fail_reads = false;
    let done = r.receive_read(&mut ex, read(tx(1, 1), ts(1, 1), &[], &[1])).unwrap();
    assert_eq!(tasks(&done), vec![(tx(1, 1), false)]);
}

#[test]
fn executor_failure_after_a_task_reports_what_was_done() {
    let mut r = ReplicaState::new(Log::new(), 2);
    let mut ex = Counting::new();
    let w = tx(1, 1);
    let rd = tx(1, 3);
    r.receive_preaccept(propose(w, &[1], TxKind::Write));
    r.receive_preaccept(propose(rd, &[1], TxKind::Read));
    r.receive_commit(commit(rd, ts(2, 3), &[w])).unwrap();
    assert!(r.receive_read(&mut ex, read(rd, ts(2, 3), &[w], &[1])).unwrap().is_empty());
    r.receive_commit(commit(w, ts(1, 1), &[])).unwrap();
    ex.fail_reads = true;
    // The apply runs, the read that follows fails and stays pending.
    let actions = r.receive_apply(&mut ex, apply(w, ts(1, 1), &[], &[(1, 5)])).unwrap();
    assert_eq!(tasks(&actions), vec![(w, true)]);
    assert_eq!(r.next_ready(), Some(Task { id: rd, apply: false }));
}

#[test]
fn completing_tasks_by_hand() {
    let mut r = ReplicaState::new(Log::new(), 2);
    let mut ex = Counting::new();
    ex.fail_applies = true;
    ex.fail_reads = true;
    let id = tx(1, 1);
    r.receive_preaccept(propose(id, &[1], TxKind::Write));
    r.receive_commit(commit(id, ts(1, 1), &[])).unwrap();

    // Nothing is pending yet.
    assert!(matches!(r.complete_read(id, Ok(vec![])), Err(AccordError::Protocol)));
    assert_eq!(r.complete_apply(id, Ok(())), Err(AccordError::Protocol));

    assert!(r.receive_read(&mut ex, read(id, ts(1, 1), &[], &[1])).is_err());
    assert!(r.receive_apply(&mut ex, apply(id, ts(1, 1), &[], &[(1, 5)])).is_err());

    assert!(matches!(r.complete_read(id, Err(ExecutorError { code: 1 })), Err(AccordError::Executor)));
    let ok = r.complete_read(id, Ok(vec![KeyRead { key: 1, value: Some(3) }])).unwrap();
    assert_eq!(ok.id, id);
    assert_eq!(ok.payload, vec![KeyRead { key: 1, value: Some(3) }]);
    assert!(matches!(r.complete_read(id, Ok(vec![])), Err(AccordError::Protocol)));

    assert_eq!(r.complete_apply(id, Err(ExecutorError { code: 1 })), Err(AccordError::Executor));
    assert_eq!(r.status_of(&id), Some(TxStatus::Committed));
    assert_eq!(r.complete_apply(id, Ok(())).map(|ok| ok.id), Ok(id));
    assert_eq!(r.status_of(&id), Some(TxStatus::Applied));
    assert_eq!(r.complete_apply(id, Ok(())), Err(AccordError::Protocol));
}

#[test]
fn status_ranks() {
    let all = [TxStatus::PreAccepted, TxStatus::Accepted, TxStatus::Committed, TxStatus::Applied];
    for (i, a) in all.iter().enumerate() {
        for (j, b) in all.iter().enumerate() {
            assert_eq!(a.at_least(*b), i >= j);
        }
    }
}

#[test]
fn log_is_append_only() {
    let mut log = Log::new();
    assert_eq!(log.len(), 0);
    assert_eq!(log.entry(0), None);
    assert!(log.record(0).is_none());
    let a = LogEntry { id: tx(1, 1), status: TxStatus::PreAccepted };
    let b = LogEntry { id: tx(1, 1), status: TxStatus::Committed };
    log.append(a, LogPayload::Writes { writes: vec![] });
    log.append(b, LogPayload::Choice { tx: ts(1, 1), deps: deps(&[]) });
    log.append(a, LogPayload::Writes { writes: vec![KeyWrite { key: 1, value: 2 }] });
    assert_eq!(log.len(), 3);
    assert_eq!(log.entry(0), Some(a));
    assert_eq!(log.entry(1), Some(b));
    assert_eq!(log.entry(3), None);
    assert_eq!(log.record(1).unwrap().entry, b);
    assert!(matches!(&log.record(2).unwrap().payload, LogPayload::Writes { writes } if writes.len() == 1));
    assert!(log.record(3).is_none());
    assert_eq!(log.position(tx(1, 1), TxStatus::PreAccepted), Some(0));
    assert_eq!(log.position(tx(1, 1), TxStatus::Committed), Some(1));
    assert_eq!(log.position(tx(1, 1), TxStatus::Applied), None);
}

#[test]
fn every_status_is_logged_with_its_payload() {
    let mut r = ReplicaState::new(Log::new(), 2);
    let mut ex = Counting::new();
    let (first, second) = (tx(1, 1), tx(1, 3));
    r.receive_preaccept(propose(first, &[7], TxKind::Write));
    r.receive_preaccept(propose(second, &[7, 8], TxKind::Read));
    r.receive_accept(Accept { id: second, tx: ts(5, 3), deps: deps(&[first]) });
    r.receive_commit(commit(first, ts(1, 1), &[])).unwrap();
    r.receive_commit(commit(second, ts(5, 3), &[first])).unwrap();
    r.receive_apply(&mut ex, apply(first, ts(1, 1), &[], &[(7, 70)])).unwrap();

    let log = r.log();
    assert_eq!(log.len(), 6);
    let entries: Vec<LogEntry> = (0..6).map(|i| log.entry(i).unwrap()).collect();
    assert_eq!(
        entries,
        vec![
            LogEntry { id: first, status: TxStatus::PreAccepted },
            LogEntry { id: second, status: TxStatus::PreAccepted },
            LogEntry { id: second, status: TxStatus::Accepted },
            LogEntry { id: first, status: TxStatus::Committed },
            LogEntry { id: second, status: TxStatus::Committed },
            LogEntry { id: first, status: TxStatus::Applied },
        ]
    );
    match &log.record(1).unwrap().payload {
        LogPayload::Proposal { keys, kind, t0, tx, deps } => {
            assert_eq!((keys.clone(), *kind, *t0, *tx), (vec![7, 8], TxKind::Read, ts(1, 3), ts(2, 3)));
            assert_eq!(deps.to_vec(), vec![first]);
        }
        _ => panic!("a proposal is logged with what was proposed"),
    }
    for i in [2usize, 4] {
        match &log.record(i).unwrap().payload {
            LogPayload::Choice { tx, deps } => {
                assert_eq!(*tx, ts(5, 3));
                assert_eq!(deps.to_vec(), vec![first]);
            }
            _ => panic!("an accept and a commit are logged with the choice"),
        }
    }
    assert!(matches!(&log.record(3).unwrap().payload, LogPayload::Choice { tx, deps } if *tx == ts(1, 1) && deps.is_empty()));
    assert!(matches!(&log.record(5).unwrap().payload, LogPayload::Writes { writes } if *writes == vec![KeyWrite { key: 7, value: 70 }]));
}

#[test]
fn replica_writes_after_what_the_log_holds() {
    let mut log = Log::new();
    log.append(LogEntry { id: tx(9, 9), status: TxStatus::Applied }, LogPayload::Writes { writes: vec![] });
    let mut r = ReplicaState::new(log, 2);
    assert_eq!(r.status_of(&tx(9, 9)), None);
    r.receive_preaccept(propose(tx(1, 1), &[1], TxKind::Write));
    assert_eq!(r.log().len(), 2);
    assert_eq!(r.log().entry(0), Some(LogEntry { id: tx(9, 9), status: TxStatus::Applied }));
    assert_eq!(r.log().entry(1), Some(LogEntry { id: tx(1, 1), status: TxStatus::PreAccepted }));
}

#[test]
fn tasks_run_while_outcomes_are_ok_and_a_task_is_ready() {
    let chain = |r: &mut ReplicaState| {
        let (t1, t2, t3) = (tx(1, 1), tx(2, 1), tx(3, 1));
        for id in [t1, t2, t3] {
            r.receive_preaccept(propose(id, &[1], TxKind::Write));
        }
        r.receive_commit(commit(t1, ts(1, 1), &[])).unwrap();
        r.receive_commit(commit(t2, ts(2, 1), &[t1])).unwrap();
        r.receive_commit(commit(t3, ts(3, 1), &[t1, t2])).unwrap();
        let mut never = Counting::new();
        never.fail_applies = true;
        // The executor fails for each request: all three stay noted.
        assert!(r.receive_apply(&mut never, apply(t3, ts(3, 1), &[t1, t2], &[(1, 3)])).unwrap().is_empty());
        assert!(r.receive_apply(&mut never, apply(t2, ts(2, 1), &[t1], &[(1, 2)])).unwrap().is_empty());
        assert!(r.receive_apply(&mut never, apply(t1, ts(1, 1), &[], &[(1, 1)])).is_err());
        (t1, t2, t3)
    };

    // Three successes: the whole chain runs, in its order.
    let mut r = ReplicaState::new(Log::new(), 2);
    let (t1, t2, t3) = chain(&mut r);
    let done = r.run_outcomes(vec![Ok(vec![]), Ok(vec![]), Ok(vec![])]);
    assert_eq!(tasks(&done), vec![(t1, true), (t2, true), (t3, true)]);
    assert_eq!(r.status_of(&t3), Some(TxStatus::Applied));
    assert_eq!(r.next_ready(), None);

    // More outcomes than tasks: the run ends when no task is ready.
    let mut r = ReplicaState::new(Log::new(), 2);
    chain(&mut r);
    assert_eq!(r.run_outcomes(vec![Ok(vec![]); 5]).len(), 3);

    // A failure ends the run; what ran before it stays done.
    let mut r = ReplicaState::new(Log::new(), 2);
    let (t1, t2, t3) = chain(&mut r);
    let done = r.run_outcomes(vec![Ok(vec![]), Err(ExecutorError { code: 1 }), Ok(vec![])]);
    assert_eq!(tasks(&done), vec![(t1, true)]);
    assert_eq!(r.status_of(&t2), Some(TxStatus::Committed));
    assert_eq!(r.status_of(&t3), Some(TxStatus::Committed));
    assert_eq!(r.next_ready(), Some(Task { id: t2, apply: true }));

    // No outcome, no task.
    assert!(r.run_outcomes(vec![]).is_empty());
    assert_eq!(r.next_ready(), Some(Task { id: t2, apply: true }));

    // A read's action carries the payload of its outcome.
    assert!(r.receive_read(&mut Counting { fail_reads: true, ..Counting::new() }, read(t1, ts(1, 1), &[], &[1])).is_err());
    let payload = vec![KeyRead { key: 1, value: Some(1) }];
    let done = r.run_outcomes(vec![Ok(payload.clone())]);
    match &done[..] {
        [ExecutionActionOk::ReadOk(ok)] => assert_eq!((ok.id, ok.payload.clone()), (t1, payload)),
        _ => panic!("the read of the first transaction runs before the apply of the second"),
    }
}
