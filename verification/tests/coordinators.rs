use diststore::coordinator::{AcceptOrCommit, CoordinatorState};
use diststore::coordinator_model::Phase;
use diststore::deps::DepSet;
use diststore::protocol::{
    AcceptOk, AccordError, ApplyOk, KeyRead, KeyWrite, PreAcceptOk, ReadOk, StartExecuteInternal, TxKind,
};
use diststore::timestamp::{Timestamp, TxId};
use diststore::topology::Topology;

fn tx(logical: u64, origin: u64) -> TxId {
    TxId { logical, origin }
}

fn ts(logical: u64, node: u64) -> Timestamp {
    Timestamp { logical, node }
}

fn coordinator(fast: usize, slow: usize) -> CoordinatorState {
    let tm = Topology::new(1, vec![2, 3, 4, 5], fast, slow).unwrap();
    CoordinatorState::new(&tm, 1)
}

fn answer(id: TxId, at: Timestamp, after: &[TxId]) -> PreAcceptOk {
    PreAcceptOk { id, proposed_tx: at, deps: DepSet::from_vec(after.to_vec()) }
}

fn write(c: &mut CoordinatorState) -> TxId {
    c.new_write_tx(vec![1], vec![KeyWrite { key: 1, value: 5 }]).id
}

#[test]
fn transactions_are_born_with_fresh_identifiers() {
    let mut c = coordinator(3, 3);
    assert_eq!(c.get_node_id(), 1);
    assert!(c.can_begin());
    let a = c.new_write_tx(vec![1, 2], vec![KeyWrite { key: 1, value: 5 }]);
    assert_eq!(a.id, tx(1, 1));
    assert_eq!(a.t0, ts(1, 1));
    assert_eq!(a.keys, vec![1, 2]);
    assert_eq!(a.kind, TxKind::Write);
    assert_eq!(a.command, vec![KeyWrite { key: 1, value: 5 }]);
    let b = c.new_read_tx(vec![3], vec![]);
    assert_eq!(b.id, tx(2, 1));
    assert_eq!(b.t0, ts(2, 1));
    assert_eq!(b.kind, TxKind::Read);
    assert!(b.command.is_empty());
    assert_eq!(c.phase_of(&a.id), Some(Phase::AwaitingPreAccept));
    assert_eq!(c.phase_of(&b.id), Some(Phase::AwaitingPreAccept));
    assert_eq!(c.phase_of(&tx(3, 1)), None);
}

#[test]
fn answer_for_an_unknown_transaction_is_a_protocol_error() {
    let mut c = coordinator(3, 3);
    assert!(matches!(c.store_proposal(2, answer(tx(1, 1), ts(1, 1), &[])), Err(AccordError::Protocol)));
    assert!(matches!(c.store_accept_ok(2, AcceptOk { id: tx(1, 1) }), Err(AccordError::Protocol)));
    assert!(matches!(c.store_read_ok(2, ReadOk { id: tx(1, 1), payload: vec![] }), Err(AccordError::Protocol)));
    assert_eq!(c.store_apply_ok(2, ApplyOk { id: tx(1, 1) }), Err(AccordError::Protocol));
    assert!(matches!(c.start_execute(StartExecuteInternal { tx: tx(1, 1) }), Err(AccordError::Protocol)));
}

#[test]
fn fast_path_when_a_fast_quorum_agrees() {
    let mut c = coordinator(3, 3);
    let id = write(&mut c);
    assert!(c.store_proposal(2, answer(id, ts(1, 1), &[])).unwrap().is_none());
    assert!(c.store_proposal(3, answer(id, ts(1, 1), &[])).unwrap().is_none());
    match c.store_proposal(4, answer(id, ts(1, 1), &[])).unwrap() {
        Some(AcceptOrCommit::Commit(commit)) => {
            assert_eq!(commit.id, id);
            assert_eq!(commit.tx, ts(1, 1));
            assert!(commit.deps.is_empty());
        }
        _ => panic!("three answers agree"),
    }
    assert_eq!(c.phase_of(&id), Some(Phase::AwaitingRead));
}

#[test]
fn slow_path_takes_the_latest_time_and_all_dependencies() {
    let mut c = coordinator(3, 3);
    let id = write(&mut c);
    let (u, v) = (tx(1, 2), tx(1, 3));
    assert!(c.store_proposal(2, answer(id, ts(4, 1), &[u])).unwrap().is_none());
    assert!(c.store_proposal(3, answer(id, ts(4, 2), &[v])).unwrap().is_none());
    match c.store_proposal(4, answer(id, ts(1, 1), &[])).unwrap() {
        Some(AcceptOrCommit::Accept(accept)) => {
            assert_eq!(accept.id, id);
            assert_eq!(accept.tx, ts(4, 2));
            assert!(accept.deps.set_eq(&DepSet::from_vec(vec![u, v])));
        }
        _ => panic!("the answers diverge"),
    }
    assert_eq!(c.phase_of(&id), Some(Phase::AwaitingAccept));
}

#[test]
fn answers_that_differ_only_in_dependencies_diverge() {
    let mut c = coordinator(2, 2);
    let id = write(&mut c);
    assert!(c.store_proposal(2, answer(id, ts(1, 1), &[])).unwrap().is_none());
    match c.store_proposal(3, answer(id, ts(1, 1), &[tx(1, 2)])).unwrap() {
        Some(AcceptOrCommit::Accept(accept)) => {
            assert_eq!(accept.tx, ts(1, 1));
            assert_eq!(accept.deps.to_vec(), vec![tx(1, 2)]);
        }
        _ => panic!("the dependencies differ"),
    }
}

#[test]
fn dependencies_agree_as_sets() {
    let mut c = coordinator(2, 2);
    let id = write(&mut c);
    let (u, v) = (tx(1, 2), tx(1, 3));
    assert!(c.store_proposal(2, answer(id, ts(2, 1), &[u, v])).unwrap().is_none());
    match c.store_proposal(3, answer(id, ts(2, 1), &[v, u, v])).unwrap() {
        Some(AcceptOrCommit::Commit(commit)) => assert!(commit.deps.set_eq(&DepSet::from_vec(vec![u, v]))),
        _ => panic!("the same set in another order"),
    }
}

#[test]
fn fast_quorum_smaller_than_slow_quorum() {
    let mut c = coordinator(1, 3);
    let id = write(&mut c);
    match c.store_proposal(2, answer(id, ts(3, 1), &[])).unwrap() {
        Some(AcceptOrCommit::Commit(commit)) => assert_eq!(commit.tx, ts(3, 1)),
        _ => panic!("one answer is a fast quorum of one"),
    }
}

#[test]
fn a_replica_is_tallied_once() {
    let mut c = coordinator(2, 3);
    let id = write(&mut c);
    assert!(c.store_proposal(2, answer(id, ts(1, 1), &[])).unwrap().is_none());
    // The same replica again: its answer takes the place of the first.
    assert!(c.store_proposal(2, answer(id, ts(1, 1), &[])).unwrap().is_none());
    assert!(c.store_proposal(2, answer(id, ts(2, 1), &[])).unwrap().is_none());
    assert!(c.store_proposal(3, answer(id, ts(1, 1), &[])).unwrap().is_none());
    match c.store_proposal(4, answer(id, ts(2, 1), &[])).unwrap() {
        Some(AcceptOrCommit::Commit(commit)) => assert_eq!(commit.tx, ts(2, 1)),
        _ => panic!("nodes 2 and 4 agree"),
    }
}

#[test]
fn late_answers_are_ignored() {
    let mut c = coordinator(1, 1);
    let id = write(&mut c);
    assert!(c.store_proposal(2, answer(id, ts(1, 1), &[])).unwrap().is_some());
    assert!(c.store_proposal(3, answer(id, ts(9, 1), &[tx(1, 2)])).unwrap().is_none());
    assert_eq!(c.phase_of(&id), Some(Phase::AwaitingRead));
    let read = c.start_execute(StartExecuteInternal { tx: id }).unwrap();
    assert_eq!(read.tx, ts(1, 1));
    assert!(read.deps.is_empty());
}

#[test]
fn accept_acknowledgements_commit_with_a_slow_quorum() {
    let mut c = coordinator(4, 2);
    let id = write(&mut c);
    assert!(c.store_accept_ok(2, AcceptOk { id }).unwrap().is_none());
    assert_eq!(c.phase_of(&id), Some(Phase::AwaitingPreAccept));
    c.store_proposal(2, answer(id, ts(1, 1), &[])).unwrap();
    let accept = c.store_proposal(3, answer(id, ts(3, 3), &[tx(1, 3)])).unwrap();
    assert!(matches!(accept, Some(AcceptOrCommit::Accept(_))));

    assert!(c.store_accept_ok(2, AcceptOk { id }).unwrap().is_none());
    // The same replica again does not make a quorum.
    assert!(c.store_accept_ok(2, AcceptOk { id }).unwrap().is_none());
    let commit = c.store_accept_ok(3, AcceptOk { id }).unwrap().unwrap();
    assert_eq!(commit.id, id);
    assert_eq!(commit.tx, ts(3, 3));
    assert_eq!(commit.deps.to_vec(), vec![tx(1, 3)]);
    assert_eq!(c.phase_of(&id), Some(Phase::AwaitingRead));
    assert!(c.store_accept_ok(4, AcceptOk { id }).unwrap().is_none());
}

#[test]
fn start_execute_asks_for_the_transactions_keys() {
    let mut c = coordinator(1, 2);
    let p = c.new_write_tx(vec![7, 8], vec![KeyWrite { key: 7, value: 1 }]);
    assert!(matches!(c.start_execute(StartExecuteInternal { tx: p.id }), Err(AccordError::Protocol)));
    c.store_proposal(2, answer(p.id, ts(2, 1), &[tx(1, 3)])).unwrap();
    let read = c.start_execute(StartExecuteInternal { tx: p.id }).unwrap();
    assert_eq!(read.id, p.id);
    assert_eq!(read.tx, ts(2, 1));
    assert_eq!(read.deps.to_vec(), vec![tx(1, 3)]);
    assert_eq!(read.keys, vec![7, 8]);
}

#[test]
fn read_payloads_lead_to_the_apply() {
    let mut c = coordinator(1, 2);
    let p = c.new_write_tx(vec![7], vec![KeyWrite { key: 7, value: 1 }]);
    assert!(c.store_read_ok(2, ReadOk { id: p.id, payload: vec![] }).unwrap().is_none());
    c.store_proposal(2, answer(p.id, ts(2, 1), &[tx(1, 3)])).unwrap();

    let first = vec![KeyRead { key: 7, value: Some(4) }];
    let second = vec![KeyRead { key: 7, value: None }];
    assert!(c.store_read_ok(2, ReadOk { id: p.id, payload: vec![] }).unwrap().is_none());
    // The same replica again: its payload takes the place of the first,
    // and one replica is no quorum of two.
    assert!(c.store_read_ok(2, ReadOk { id: p.id, payload: first.clone() }).unwrap().is_none());
    let apply = c.store_read_ok(3, ReadOk { id: p.id, payload: second }).unwrap().unwrap();
    assert_eq!(apply.id, p.id);
    assert_eq!(apply.tx, ts(2, 1));
    assert_eq!(apply.deps.to_vec(), vec![tx(1, 3)]);
    assert_eq!(apply.result, first);
    assert_eq!(apply.writes, vec![KeyWrite { key: 7, value: 1 }]);
    assert_eq!(c.phase_of(&p.id), Some(Phase::Completed));
    assert!(c.store_read_ok(4, ReadOk { id: p.id, payload: vec![] }).unwrap().is_none());
    assert!(matches!(c.start_execute(StartExecuteInternal { tx: p.id }), Err(AccordError::Protocol)));
}

#[test]
fn a_read_transaction_applies_no_writes() {
    let mut c = coordinator(1, 1);
    let p = c.new_read_tx(vec![7], vec![KeyWrite { key: 7, value: 1 }]);
    c.store_proposal(2, answer(p.id, ts(1, 1), &[])).unwrap();
    let apply = c.store_read_ok(2, ReadOk { id: p.id, payload: vec![KeyRead { key: 7, value: Some(2) }] }).unwrap().unwrap();
    assert!(apply.writes.is_empty());
    assert_eq!(apply.result, vec![KeyRead { key: 7, value: Some(2) }]);
}

#[test]
fn apply_acknowledgements_are_counted_once_per_replica() {
    let mut c = coordinator(1, 2);
    let id = write(&mut c);
    assert_eq!(c.store_apply_ok(2, ApplyOk { id }), Ok(false));
    c.store_proposal(2, answer(id, ts(1, 1), &[])).unwrap();
    c.store_read_ok(2, ReadOk { id, payload: vec![] }).unwrap();
    c.store_read_ok(3, ReadOk { id, payload: vec![] }).unwrap();
    assert_eq!(c.phase_of(&id), Some(Phase::Completed));
    assert_eq!(c.store_apply_ok(2, ApplyOk { id }), Ok(false));
    assert_eq!(c.store_apply_ok(2, ApplyOk { id }), Ok(false));
    assert_eq!(c.store_apply_ok(3, ApplyOk { id }), Ok(true));
    assert_eq!(c.store_apply_ok(4, ApplyOk { id }), Ok(true));
    assert_eq!(c.phase_of(&id), Some(Phase::Completed));
}
