//! The messages that nodes exchange, and how they are addressed.
use crate::deps::DepSet;
use crate::timestamp::{Key, NodeId, Timestamp, TxId};
use vstd::prelude::*;

verus! {

/// Whether a transaction only reads its keys or writes them.
#[derive(Clone, Copy, Debug, PartialEq, Eq, Structural)]
pub enum TxKind {
    Read,
    Write,
}

/// One assignment of a write transaction.
#[derive(Clone, Copy, Debug, PartialEq, Eq, Structural)]
pub struct KeyWrite {
    pub key: Key,
    pub value: u64,
}

/// What a replica read under one key; `None` where the key holds nothing.
#[derive(Clone, Copy, Debug, PartialEq, Eq)]
pub struct KeyRead {
    pub key: Key,
    pub value: Option<u64>,
}

/// A coordinator's proposal of a new transaction.
#[derive(Clone, Debug)]
pub struct PreAccept {
    pub id: TxId,
    pub t0: Timestamp,
    pub keys: Vec<Key>,
    pub kind: TxKind,
    pub command: Vec<KeyWrite>,
}

/// A replica's answer to a proposal: the time at which it witnessed the
/// transaction and the transactions it found before it.
#[derive(Clone, Debug)]
pub struct PreAcceptOk {
    pub id: TxId,
    pub proposed_tx: Timestamp,
    pub deps: DepSet,
}

/// The coordinator's choice after diverging answers.
#[derive(Clone, Debug)]
pub struct Accept {
    pub id: TxId,
    pub tx: Timestamp,
    pub deps: DepSet,
}

/// A replica's acknowledgement of an `Accept`.
#[derive(Clone, Copy, Debug, PartialEq, Eq, Structural)]
pub struct AcceptOk {
    pub id: TxId,
}

/// The final execution time and dependencies of a transaction.
#[derive(Clone, Debug)]
pub struct Commit {
    pub id: TxId,
    pub tx: Timestamp,
    pub deps: DepSet,
}

/// A request to read the keys of a committed transaction.
#[derive(Clone, Debug)]
pub struct Read {
    pub id: TxId,
    pub tx: Timestamp,
    pub deps: DepSet,
    pub keys: Vec<Key>,
}

/// What a replica read for a transaction.
#[derive(Clone, Debug)]
pub struct ReadOk {
    pub id: TxId,
    pub payload: Vec<KeyRead>,
}

/// A request to apply the writes of a committed transaction; `result` is
/// what the coordinator read for it.
#[derive(Clone, Debug)]
pub struct Apply {
    pub id: TxId,
    pub tx: Timestamp,
    pub deps: DepSet,
    pub result: Vec<KeyRead>,
    pub writes: Vec<KeyWrite>,
}

/// A replica's acknowledgement that a transaction is applied.
#[derive(Clone, Copy, Debug, PartialEq, Eq, Structural)]
pub struct ApplyOk {
    pub id: TxId,
}

/// A node's note to itself that a transaction it coordinates is committed
/// and its read phase can begin.
#[derive(Clone, Copy, Debug, PartialEq, Eq, Structural)]
pub struct StartExecuteInternal {
    pub tx: TxId,
}

/// The closed set of protocol messages.
#[derive(Clone, Debug)]
pub enum ProtocolMessage {
    BeginRead { keys: Vec<Key>, command: Vec<KeyWrite> },
    BeginWrite { keys: Vec<Key>, command: Vec<KeyWrite> },
    StartExecute(StartExecuteInternal),
    PreAccept(PreAccept),
    PreAcceptOk(PreAcceptOk),
    Accept(Accept),
    AcceptOk(AcceptOk),
    Commit(Commit),
    Read(Read),
    ReadOk(ReadOk),
    Apply(Apply),
    ApplyOk(ApplyOk),
}

/// Where a message goes: back into the sending node, to one node, or to
/// every node of the topology but the sender.
#[derive(Clone, Copy, Debug, PartialEq, Eq, Structural)]
pub enum Address {
    Local,
    Peer(NodeId),
    Peers,
}

/// A protocol message with its sender and destination.
#[derive(Clone, Debug)]
pub struct Message {
    pub from: NodeId,
    pub to: Address,
    pub proto_msg: ProtocolMessage,
}

/// What a protocol message says, as a mathematical value: key lists and
/// payloads as sequences, dependencies as sets.
#[allow(inconsistent_fields)]
pub enum MessageBody {
    BeginRead { keys: Seq<Key>, command: Seq<KeyWrite> },
    BeginWrite { keys: Seq<Key>, command: Seq<KeyWrite> },
    StartExecute { tx: TxId },
    PreAccept { id: TxId, t0: Timestamp, keys: Seq<Key>, kind: TxKind, command: Seq<KeyWrite> },
    PreAcceptOk { id: TxId, proposed_tx: Timestamp, deps: Set<TxId> },
    Accept { id: TxId, tx: Timestamp, deps: Set<TxId> },
    AcceptOk { id: TxId },
    Commit { id: TxId, tx: Timestamp, deps: Set<TxId> },
    Read { id: TxId, tx: Timestamp, deps: Set<TxId>, keys: Seq<Key> },
    ReadOk { id: TxId, payload: Seq<KeyRead> },
    Apply {
        id: TxId,
        tx: Timestamp,
        deps: Set<TxId>,
        result: Seq<KeyRead>,
        writes: Seq<KeyWrite>,
    },
    ApplyOk { id: TxId },
}

/// A message as a mathematical value.
pub struct MessageView {
    pub from: NodeId,
    pub to: Address,
    pub body: MessageBody,
}

impl View for PreAccept {
    type V = MessageBody;

    open spec fn view(&self) -> MessageBody {
        MessageBody::PreAccept {
            id: self.id,
            t0: self.t0,
            keys: self.keys@,
            kind: self.kind,
            command: self.command@,
        }
    }
}

impl View for PreAcceptOk {
    type V = MessageBody;

    open spec fn view(&self) -> MessageBody {
        MessageBody::PreAcceptOk { id: self.id, proposed_tx: self.proposed_tx, deps: self.deps@ }
    }
}

impl View for Accept {
    type V = MessageBody;

    open spec fn view(&self) -> MessageBody {
        MessageBody::Accept { id: self.id, tx: self.tx, deps: self.deps@ }
    }
}

impl View for Commit {
    type V = MessageBody;

    open spec fn view(&self) -> MessageBody {
        MessageBody::Commit { id: self.id, tx: self.tx, deps: self.deps@ }
    }
}

impl View for Read {
    type V = MessageBody;

    open spec fn view(&self) -> MessageBody {
        MessageBody::Read { id: self.id, tx: self.tx, deps: self.deps@, keys: self.keys@ }
    }
}

impl View for ReadOk {
    type V = MessageBody;

    open spec fn view(&self) -> MessageBody {
        MessageBody::ReadOk { id: self.id, payload: self.payload@ }
    }
}

impl View for Apply {
    type V = MessageBody;

    open spec fn view(&self) -> MessageBody {
        MessageBody::Apply {
            id: self.id,
            tx: self.tx,
            deps: self.deps@,
            result: self.result@,
            writes: self.writes@,
        }
    }
}

impl View for ProtocolMessage {
    type V = MessageBody;

    open spec fn view(&self) -> MessageBody {
        match *self {
            ProtocolMessage::BeginRead { keys, command } => MessageBody::BeginRead {
                keys: keys@,
                command: command@,
            },
            ProtocolMessage::BeginWrite { keys, command } => MessageBody::BeginWrite {
                keys: keys@,
                command: command@,
            },
            ProtocolMessage::StartExecute(m) => MessageBody::StartExecute { tx: m.tx },
            ProtocolMessage::PreAccept(m) => m@,
            ProtocolMessage::PreAcceptOk(m) => m@,
            ProtocolMessage::Accept(m) => m@,
            ProtocolMessage::AcceptOk(m) => MessageBody::AcceptOk { id: m.id },
            ProtocolMessage::Commit(m) => m@,
            ProtocolMessage::Read(m) => m@,
            ProtocolMessage::ReadOk(m) => m@,
            ProtocolMessage::Apply(m) => m@,
            ProtocolMessage::ApplyOk(m) => MessageBody::ApplyOk { id: m.id },
        }
    }
}

impl View for Message {
    type V = MessageView;

    open spec fn view(&self) -> MessageView {
        MessageView { from: self.from, to: self.to, body: self.proto_msg@ }
    }
}

/// The messages of a list as mathematical values.
pub open spec fn message_views(out: Seq<Message>) -> Seq<MessageView> {
    out.map_values(|m: Message| m@)
}

/// What went wrong while a message was handled.
#[derive(Clone, Copy, Debug, PartialEq, Eq, Structural)]
pub enum AccordError {
    /// The message does not fit the state of its transaction; it is dropped.
    Protocol,
    /// The outbound channel refused a message; fatal to the driver.
    OutboundSend,
    /// The executor failed; the transaction keeps its status.
    Executor,
    /// An invariant of the protocol is violated.
    Internal,
}

/// A failure reported by an executor.
#[derive(Clone, Copy, Debug, PartialEq, Eq, Structural)]
pub struct ExecutorError {
    pub code: u64,
}

/// The interpreter of committed commands against a node's store. It is
/// called inline, one call at a time.
pub trait Executor {
    /// Reads `keys` on behalf of transaction `id`.
    fn read(&mut self, id: TxId, keys: &Vec<Key>) -> Result<Vec<KeyRead>, ExecutorError>;

    /// Applies `writes` on behalf of transaction `id`.
    fn apply(&mut self, id: TxId, writes: &Vec<KeyWrite>) -> Result<(), ExecutorError>;
}

/// A vector with the same elements in the same order.
pub fn copy_vec<T: Copy>(v: &Vec<T>) -> (r: Vec<T>)
    ensures
        r@ == v@,
{
    let mut out: Vec<T> = Vec::new();
    let mut i: usize = 0;
    while i < v.len()
        invariant
            i <= v.len(),
            out@ == v@.subrange(0, i as int),
        decreases v.len() - i,
    {
        out.push(v[i]);
        assert(out@ =~= v@.subrange(0, i + 1));
        i += 1;
    }
    assert(out@ =~= v@);
    out
}

} // verus!
