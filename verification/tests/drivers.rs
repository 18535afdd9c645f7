use diststore::coordinator::CoordinatorState;
use diststore::deps::DepSet;
use diststore::node::{ends_driver, outbound_result, Node, StateDriver};
use diststore::protocol::{
    Accept, AcceptOk, AccordError, Address, Apply, ApplyOk, Commit, KeyRead, KeyWrite, Message,
    PreAccept, PreAcceptOk, ProtocolMessage, Read, ReadOk, StartExecuteInternal, TxKind,
};
use diststore::replica::{ExecutionActionOk, Log, ReplicaState};
use diststore::replica_model::TxStatus;
use diststore::store::MemoryStore;
use diststore::timestamp::{Timestamp, TxId};
use diststore::topology::Topology;
use tokio::sync::mpsc::error::SendError;
use tokio::sync::mpsc::{unbounded_channel, UnboundedReceiver};

fn tx(logical: u64, origin: u64) -> TxId {
    TxId { logical, origin }
}

fn ts(logical: u64, node: u64) -> Timestamp {
    Timestamp { logical, node }
}

fn driver(node: u64, fast: usize, slow: usize) -> StateDriver {
    let peers: Vec<u64> = (1..=4u64).filter(|p| *p != node).collect();
    let tm = Topology::new(node, peers, fast, slow).unwrap();
    let (outbound, _) = unbounded_channel();
    StateDriver::new(CoordinatorState::new(&tm, node), ReplicaState::new(Log::new(), node), outbound)
}

fn wired(node: u64) -> (StateDriver, UnboundedReceiver<Message>) {
    let peers: Vec<u64> = (1..=3u64).filter(|p| *p != node).collect();
    let tm = Topology::with_standard_quorums(node, peers).unwrap();
    let (outbound, inbound) = unbounded_channel();
    (StateDriver::new(CoordinatorState::new(&tm, node), ReplicaState::new(Log::new(), node), outbound), inbound)
}

fn from(sender: u64, proto_msg: ProtocolMessage) -> Message {
    Message { from: sender, to: Address::Peers, proto_msg }
}

fn addresses(out: &[Message]) -> Vec<(u64, Address)> {
    out.iter().map(|m| (m.from, m.to)).collect()
}

#[test]
fn node_handle() {
    assert_eq!(Node::new(7).id(), 7);
}

#[test]
fn begin_broadcasts_the_proposal() {
    let mut d = driver(2, 2, 2);
    let mut store = MemoryStore::new();
    for (i, write) in [true, false].iter().enumerate() {
        let begin = if *write {
            ProtocolMessage::BeginWrite { keys: vec![5], command: vec![KeyWrite { key: 5, value: 1 }] }
        } else {
            ProtocolMessage::BeginRead { keys: vec![5], command: vec![] }
        };
        let out = d.decide(&mut store, from(2, begin)).unwrap();
        // One proposal, to the peers.
        assert_eq!(addresses(&out), vec![(2, Address::Peers)]);
        for m in out.iter() {
            match &m.proto_msg {
                ProtocolMessage::PreAccept(p) => {
                    assert_eq!(p.id, tx(i as u64 + 1, 2));
                    assert_eq!(p.t0, ts(i as u64 + 1, 2));
                    assert_eq!(p.keys, vec![5]);
                    assert_eq!(p.kind, if *write { TxKind::Write } else { TxKind::Read });
                    assert_eq!(p.command.len(), if *write { 1 } else { 0 });
                }
                _ => panic!("a proposal goes out"),
            }
        }
    }
    // The replica of the node has seen nothing yet.
    assert_eq!(d.replica().status_of(&tx(1, 2)), None);
}

#[test]
fn proposals_and_accepts_are_answered_to_the_sender() {
    let mut d = driver(2, 2, 2);
    let mut store = MemoryStore::new();
    let id = tx(1, 3);
    let p = PreAccept { id, t0: id.t0(), keys: vec![5], kind: TxKind::Write, command: vec![] };
    let out = d.decide(&mut store, from(3, ProtocolMessage::PreAccept(p))).unwrap();
    assert_eq!(addresses(&out), vec![(2, Address::Peer(3))]);
    match &out[0].proto_msg {
        ProtocolMessage::PreAcceptOk(ok) => {
            assert_eq!((ok.id, ok.proposed_tx), (id, ts(1, 3)));
            assert!(ok.deps.is_empty());
        }
        _ => panic!("an answer to the proposal goes out"),
    }
    let a = Accept { id, tx: ts(2, 3), deps: DepSet::new() };
    let out = d.decide(&mut store, from(1, ProtocolMessage::Accept(a))).unwrap();
    assert_eq!(addresses(&out), vec![(2, Address::Peer(1))]);
    assert!(matches!(&out[0].proto_msg, ProtocolMessage::AcceptOk(AcceptOk { id: x }) if *x == id));
    assert_eq!(d.replica().status_of(&id), Some(TxStatus::Accepted));
}

#[test]
fn commit_sends_nothing() {
    let mut d = driver(2, 2, 2);
    let mut store = MemoryStore::new();
    let id = tx(1, 3);
    let c = Commit { id, tx: ts(1, 3), deps: DepSet::new() };
    assert_eq!(d.decide(&mut store, from(3, ProtocolMessage::Commit(c.clone()))).map(|o| o.len()), Err(AccordError::Protocol));
    let p = PreAccept { id, t0: id.t0(), keys: vec![5], kind: TxKind::Write, command: vec![] };
    d.decide(&mut store, from(3, ProtocolMessage::PreAccept(p))).unwrap();
    assert!(d.decide(&mut store, from(3, ProtocolMessage::Commit(c))).unwrap().is_empty());
    assert_eq!(d.replica().status_of(&id), Some(TxStatus::Committed));
    let other = Commit { id, tx: ts(2, 3), deps: DepSet::new() };
    assert_eq!(d.decide(&mut store, from(3, ProtocolMessage::Commit(other))).map(|o| o.len()), Err(AccordError::Internal));
}

#[test]
fn slow_path_through_the_driver() {
    let mut d = driver(1, 3, 2);
    let mut store = MemoryStore::new();
    d.decide(&mut store, from(1, ProtocolMessage::BeginWrite { keys: vec![5], command: vec![KeyWrite { key: 5, value: 1 }] })).unwrap();
    let id = tx(1, 1);
    let answer = |at: Timestamp, deps: Vec<TxId>| ProtocolMessage::PreAcceptOk(PreAcceptOk { id, proposed_tx: at, deps: DepSet::from_vec(deps) });

    assert!(d.decide(&mut store, from(2, answer(ts(1, 1), vec![]))).unwrap().is_empty());
    let out = d.decide(&mut store, from(3, answer(ts(2, 1), vec![tx(1, 3)]))).unwrap();
    // One accept, to the peers; no commit and no note to the node itself.
    assert_eq!(addresses(&out), vec![(1, Address::Peers)]);
    for m in out.iter() {
        match &m.proto_msg {
            ProtocolMessage::Accept(a) => {
                assert_eq!((a.id, a.tx), (id, ts(2, 1)));
                assert_eq!(a.deps.to_vec(), vec![tx(1, 3)]);
            }
            _ => panic!("an accept goes out"),
        }
    }

    assert!(d.decide(&mut store, from(2, ProtocolMessage::AcceptOk(AcceptOk { id }))).unwrap().is_empty());
    let out = d.decide(&mut store, from(3, ProtocolMessage::AcceptOk(AcceptOk { id }))).unwrap();
    assert_eq!(addresses(&out), vec![(1, Address::Peers), (1, Address::Local)]);
    match &out[0].proto_msg {
        ProtocolMessage::Commit(c) => {
            assert_eq!((c.id, c.tx), (id, ts(2, 1)));
            assert_eq!(c.deps.to_vec(), vec![tx(1, 3)]);
        }
        _ => panic!("a commit goes out first"),
    }
    assert!(matches!(&out[1].proto_msg, ProtocolMessage::StartExecute(StartExecuteInternal { tx: x }) if *x == id));

    let out = d.decide(&mut store, from(1, ProtocolMessage::StartExecute(StartExecuteInternal { tx: id }))).unwrap();
    assert_eq!(addresses(&out), vec![(1, Address::Peers)]);
    for m in out.iter() {
        match &m.proto_msg {
            ProtocolMessage::Read(r) => {
                assert_eq!((r.id, r.tx, r.keys.clone()), (id, ts(2, 1), vec![5]));
                assert_eq!(r.deps.to_vec(), vec![tx(1, 3)]);
            }
            _ => panic!("a read request goes out"),
        }
    }

    let payload = vec![KeyRead { key: 5, value: None }];
    assert!(d.decide(&mut store, from(2, ProtocolMessage::ReadOk(ReadOk { id, payload: payload.clone() }))).unwrap().is_empty());
    let out = d.decide(&mut store, from(3, ProtocolMessage::ReadOk(ReadOk { id, payload: payload.clone() }))).unwrap();
    assert_eq!(addresses(&out), vec![(1, Address::Peers)]);
    for m in out.iter() {
        match &m.proto_msg {
            ProtocolMessage::Apply(a) => {
                assert_eq!((a.id, a.tx), (id, ts(2, 1)));
                assert_eq!(a.result, payload);
                assert_eq!(a.writes, vec![KeyWrite { key: 5, value: 1 }]);
            }
            _ => panic!("an apply goes out"),
        }
    }
    assert!(d.decide(&mut store, from(2, ProtocolMessage::ApplyOk(ApplyOk { id }))).unwrap().is_empty());
}

#[test]
fn messages_for_unknown_transactions_are_protocol_errors() {
    let mut d = driver(1, 2, 2);
    let mut store = MemoryStore::new();
    let id = tx(9, 1);
    let unknown = vec![
        ProtocolMessage::StartExecute(StartExecuteInternal { tx: id }),
        ProtocolMessage::PreAcceptOk(PreAcceptOk { id, proposed_tx: ts(1, 1), deps: DepSet::new() }),
        ProtocolMessage::AcceptOk(AcceptOk { id }),
        ProtocolMessage::Commit(Commit { id, tx: ts(9, 1), deps: DepSet::new() }),
        ProtocolMessage::Read(Read { id, tx: ts(9, 1), deps: DepSet::new(), keys: vec![] }),
        ProtocolMessage::ReadOk(ReadOk { id, payload: vec![] }),
        ProtocolMessage::Apply(Apply { id, tx: ts(9, 1), deps: DepSet::new(), result: vec![], writes: vec![] }),
        ProtocolMessage::ApplyOk(ApplyOk { id }),
    ];
    for m in unknown {
        assert_eq!(d.decide(&mut store, from(2, m)).map(|o| o.len()), Err(AccordError::Protocol));
    }
    assert_eq!(d.replica().log().len(), 0);
    assert_eq!(d.coordinator().phase_of(&id), None);
}

#[test]
fn read_and_apply_are_answered_to_the_sender() {
    let mut d = driver(2, 2, 2);
    let mut store = MemoryStore::new();
    store.set(5, 4);
    let id = tx(1, 3);
    let p = PreAccept { id, t0: id.t0(), keys: vec![5], kind: TxKind::Write, command: vec![] };
    d.decide(&mut store, from(3, ProtocolMessage::PreAccept(p))).unwrap();
    d.decide(&mut store, from(3, ProtocolMessage::Commit(Commit { id, tx: ts(1, 3), deps: DepSet::new() }))).unwrap();

    let read = Read { id, tx: ts(1, 3), deps: DepSet::new(), keys: vec![5] };
    let out = d.decide(&mut store, from(3, ProtocolMessage::Read(read))).unwrap();
    assert_eq!(addresses(&out), vec![(2, Address::Peer(3))]);
    assert!(matches!(&out[0].proto_msg, ProtocolMessage::ReadOk(ok) if ok.id == id && ok.payload == vec![KeyRead { key: 5, value: Some(4) }]));

    let apply = Apply { id, tx: ts(1, 3), deps: DepSet::new(), result: vec![], writes: vec![KeyWrite { key: 5, value: 6 }] };
    let out = d.decide(&mut store, from(3, ProtocolMessage::Apply(apply.clone()))).unwrap();
    assert_eq!(addresses(&out), vec![(2, Address::Peer(3))]);
    assert!(matches!(&out[0].proto_msg, ProtocolMessage::ApplyOk(ok) if ok.id == id));
    assert_eq!(store.get(5), Some(6));

    // Applied already: acknowledged again, not run again.
    store.set(5, 7);
    let out = d.decide(&mut store, from(1, ProtocolMessage::Apply(apply))).unwrap();
    assert_eq!(addresses(&out), vec![(2, Address::Peer(1))]);
    assert_eq!(store.get(5), Some(7));
}

#[test]
fn outbound_messages_carry_the_nodes_name() {
    let (d, mut wire) = wired(3);
    let enveloped = d.envelope(Address::Peers, ProtocolMessage::AcceptOk(AcceptOk { id: tx(1, 1) }));
    assert_eq!((enveloped.from, enveloped.to), (3, Address::Peers));
    assert!(matches!(enveloped.proto_msg, ProtocolMessage::AcceptOk(m) if m.id == tx(1, 1)));

    assert_eq!(d.send_outbound(Address::Peer(1), ProtocolMessage::AcceptOk(AcceptOk { id: tx(1, 1) })), Ok(()));
    assert_eq!(d.send_outbound(Address::Local, ProtocolMessage::StartExecute(StartExecuteInternal { tx: tx(1, 3) })), Ok(()));
    let actions = vec![
        ExecutionActionOk::ApplyOk(ApplyOk { id: tx(1, 1) }),
        ExecutionActionOk::ReadOk(ReadOk { id: tx(2, 1), payload: vec![KeyRead { key: 1, value: None }] }),
        ExecutionActionOk::ApplyOk(ApplyOk { id: tx(3, 1) }),
    ];
    assert_eq!(d.send_execution_actions(Address::Peer(2), actions), Ok(()));
    assert_eq!(d.send_execution_actions(Address::Peers, vec![]), Ok(()));

    let mut out = Vec::new();
    while let Ok(m) = wire.try_recv() {
        out.push(m);
    }
    assert_eq!(
        addresses(&out),
        vec![(3, Address::Peer(1)), (3, Address::Local), (3, Address::Peer(2)), (3, Address::Peer(2)), (3, Address::Peer(2))]
    );
    assert!(matches!(&out[0].proto_msg, ProtocolMessage::AcceptOk(m) if m.id == tx(1, 1)));
    assert!(matches!(&out[1].proto_msg, ProtocolMessage::StartExecute(m) if m.tx == tx(1, 3)));
    assert!(matches!(&out[2].proto_msg, ProtocolMessage::ApplyOk(m) if m.id == tx(1, 1)));
    assert!(matches!(&out[3].proto_msg, ProtocolMessage::ReadOk(m) if m.id == tx(2, 1) && m.payload.len() == 1));
    assert!(matches!(&out[4].proto_msg, ProtocolMessage::ApplyOk(m) if m.id == tx(3, 1)));

    drop(wire);
    assert_eq!(d.send_outbound(Address::Peers, ProtocolMessage::AcceptOk(AcceptOk { id: tx(1, 1) })), Err(AccordError::OutboundSend));
    assert_eq!(d.send_execution_actions(Address::Peers, vec![ExecutionActionOk::ApplyOk(ApplyOk { id: tx(1, 1) })]), Err(AccordError::OutboundSend));
    assert_eq!(d.send_execution_actions(Address::Peers, vec![]), Ok(()));
}

#[test]
fn handled_messages_go_out_on_the_channel_in_their_order() {
    let (mut d, mut wire) = wired(1);
    let mut store = MemoryStore::new();
    let begin = ProtocolMessage::BeginWrite { keys: vec![5], command: vec![KeyWrite { key: 5, value: 1 }] };
    assert_eq!(d.handle_msg(&mut store, from(1, begin)), Ok(()));
    // Exactly one proposal is on the channel, to the peers.
    let first = wire.try_recv().unwrap();
    assert!(wire.try_recv().is_err());
    assert_eq!((first.from, first.to), (1, Address::Peers));
    assert!(matches!(&first.proto_msg, ProtocolMessage::PreAccept(p) if p.id == tx(1, 1)));
    assert_eq!(d.replica().status_of(&tx(1, 1)), None);

    let id = tx(1, 1);
    let answer = |sender: u64| from(sender, ProtocolMessage::PreAcceptOk(PreAcceptOk { id, proposed_tx: ts(1, 1), deps: DepSet::new() }));
    assert_eq!(d.handle_msg(&mut store, answer(2)), Ok(()));
    assert!(wire.try_recv().is_err());
    assert_eq!(d.handle_msg(&mut store, answer(3)), Ok(()));
    let mut out = Vec::new();
    while let Ok(m) = wire.try_recv() {
        out.push(m);
    }
    // The commit to the peers, then the node's note to itself.
    assert_eq!(addresses(&out), vec![(1, Address::Peers), (1, Address::Local)]);
    assert!(matches!(&out[0].proto_msg, ProtocolMessage::Commit(c) if c.id == id && c.tx == ts(1, 1) && c.deps.is_empty()));
    assert!(matches!(&out[1].proto_msg, ProtocolMessage::StartExecute(s) if s.tx == id));

    // An error of the handling is the result, and nothing goes out.
    let unknown = from(2, ProtocolMessage::AcceptOk(AcceptOk { id: tx(9, 1) }));
    assert_eq!(d.handle_msg(&mut store, unknown), Err(AccordError::Protocol));
    assert!(wire.try_recv().is_err());
}

#[test]
fn closed_channel_is_an_outbound_error() {
    let (mut d, wire) = wired(2);
    drop(wire);
    let mut store = MemoryStore::new();
    let id = tx(1, 3);
    let p = PreAccept { id, t0: id.t0(), keys: vec![5], kind: TxKind::Write, command: vec![] };
    assert_eq!(d.handle_msg(&mut store, from(3, ProtocolMessage::PreAccept(p))), Err(AccordError::OutboundSend));
    // What the message did to the node stays done.
    assert_eq!(d.replica().status_of(&id), Some(TxStatus::PreAccepted));
    // With nothing to send, a closed channel is not noticed.
    let c = Commit { id, tx: ts(1, 3), deps: DepSet::new() };
    assert_eq!(d.handle_msg(&mut store, from(3, ProtocolMessage::Commit(c))), Ok(()));
    assert_eq!(d.replica().status_of(&id), Some(TxStatus::Committed));
}

#[test]
fn handled_requests_are_answered_on_the_channel() {
    let (mut d, mut wire) = wired(2);
    let mut store = MemoryStore::new();
    store.set(5, 4);
    let id = tx(1, 3);
    let p = PreAccept { id, t0: id.t0(), keys: vec![5], kind: TxKind::Write, command: vec![] };
    assert_eq!(d.handle_msg(&mut store, from(3, ProtocolMessage::PreAccept(p))), Ok(()));
    assert_eq!(d.handle_msg(&mut store, from(3, ProtocolMessage::Commit(Commit { id, tx: ts(1, 3), deps: DepSet::new() }))), Ok(()));
    let read = Read { id, tx: ts(1, 3), deps: DepSet::new(), keys: vec![5] };
    assert_eq!(d.handle_msg(&mut store, from(3, ProtocolMessage::Read(read))), Ok(()));
    let apply = Apply { id, tx: ts(1, 3), deps: DepSet::new(), result: vec![], writes: vec![KeyWrite { key: 5, value: 6 }] };
    assert_eq!(d.handle_msg(&mut store, from(1, ProtocolMessage::Apply(apply.clone()))), Ok(()));
    let unknown = Apply { id: tx(9, 9), ..apply };
    assert_eq!(d.handle_msg(&mut store, from(1, ProtocolMessage::Apply(unknown))), Err(AccordError::Protocol));

    let mut out = Vec::new();
    while let Ok(m) = wire.try_recv() {
        out.push(m);
    }
    assert_eq!(addresses(&out), vec![(2, Address::Peer(3)), (2, Address::Peer(3)), (2, Address::Peer(1))]);
    assert!(matches!(&out[0].proto_msg, ProtocolMessage::PreAcceptOk(m) if m.id == id));
    assert!(matches!(&out[1].proto_msg, ProtocolMessage::ReadOk(m) if m.payload == vec![KeyRead { key: 5, value: Some(4) }]));
    assert!(matches!(&out[2].proto_msg, ProtocolMessage::ApplyOk(m) if m.id == id));
    assert_eq!(store.get(5), Some(6));
}

#[test]
fn refused_message_is_an_outbound_error() {
    assert_eq!(outbound_result(Ok(())), Ok(()));
    let refused = from(1, ProtocolMessage::AcceptOk(AcceptOk { id: tx(1, 1) }));
    assert_eq!(outbound_result(Err(SendError(refused))), Err(AccordError::OutboundSend));
}

#[test]
fn dropped_message_changes_nothing_and_the_driver_goes_on() {
    let (mut d, mut wire) = wired(1);
    let mut store = MemoryStore::new();
    let unknown = from(2, ProtocolMessage::ReadOk(ReadOk { id: tx(7, 1), payload: vec![KeyRead { key: 5, value: None }] }));
    let dropped = d.handle_msg(&mut store, unknown);
    assert_eq!(dropped, Err(AccordError::Protocol));
    assert_eq!(ends_driver(dropped), None);
    assert!(wire.try_recv().is_err());
    assert_eq!(d.coordinator().phase_of(&tx(7, 1)), None);
    assert_eq!(d.replica().log().len(), 0);

    let begin = ProtocolMessage::BeginWrite { keys: vec![5], command: vec![KeyWrite { key: 5, value: 1 }] };
    let begun = d.handle_msg(&mut store, from(1, begin));
    assert_eq!(ends_driver(begun), None);
    let only = wire.try_recv().unwrap();
    assert!(wire.try_recv().is_err());
    assert_eq!((only.from, only.to), (1, Address::Peers));
    assert!(matches!(&only.proto_msg, ProtocolMessage::PreAccept(p) if p.id == tx(1, 1) && p.keys == vec![5]));
}

#[test]
fn which_results_end_the_driver() {
    assert_eq!(ends_driver(Ok(())), None);
    assert_eq!(ends_driver(Err(AccordError::Protocol)), None);
    assert_eq!(ends_driver(Err(AccordError::Executor)), None);
    assert_eq!(ends_driver(Err(AccordError::OutboundSend)), Some(AccordError::OutboundSend));
    assert_eq!(ends_driver(Err(AccordError::Internal)), Some(AccordError::Internal));
}
