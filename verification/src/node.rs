//! The driver of a node: the single owner of its coordinator and replica
//! sides. It takes one inbound message at a time, hands it to the side that
//! it concerns, and sends what that leads to on the outbound channel.
use crate::coordinator::{AcceptOrCommit, CoordinatorState};
use crate::coordinator_model::{write_effect, CoordinatorView, Decision};
use crate::protocol::{
    message_views, AccordError, Address, Commit, Executor, KeyWrite, Message, MessageBody,
    MessageView, ProtocolMessage, StartExecuteInternal, TxKind,
};
use crate::replica::{action_task, ran, ExecutionActionOk, ReplicaState};
use crate::replica_laws::lemma_advance_evolved;
use crate::replica_model::{ReplicaView, Task, TxStatus};
use crate::timestamp::{Key, NodeId, Timestamp, TxId};
use tokio::sync::mpsc::error::SendError;
use tokio::sync::mpsc::UnboundedSender;
use vstd::prelude::*;

verus! {

/// The sending half of tokio's unbounded channel; nothing of what it holds
/// is known here.
#[verifier::external_type_specification]
#[verifier::external_body]
#[verifier::reject_recursive_types(T)]
pub struct ExUnboundedSender<T>(tokio::sync::mpsc::UnboundedSender<T>);

/// The error of tokio's unbounded channel: the message that was not sent.
#[verifier::external_type_specification]
#[verifier::external_body]
#[verifier::reject_recursive_types(T)]
pub struct ExSendError<T>(tokio::sync::mpsc::error::SendError<T>);

/// Calls `UnboundedSender::send`, which hands the message to the channel
/// without waiting, or fails where the receiving half is closed. Nothing is
/// claimed of the result: whether the channel is open is not the sender's
/// to know.
#[verifier::external_body]
fn channel_send(outbound: &UnboundedSender<Message>, msg: Message) -> (r: Result<
    (),
    SendError<Message>,
>) {
    outbound.send(msg)
}

/// The handle of a running node.
#[derive(Debug)]
pub struct Node {
    node: NodeId,
}

impl Node {
    /// The handle of the node `node`.
    pub fn new(node: NodeId) -> (r: Node)
        ensures
            r.spec_id() == node,
    {
        Node { node }
    }

    /// The identifier of the node.
    pub closed spec fn spec_id(&self) -> NodeId {
        self.node
    }

    /// The identifier of the node.
    pub fn id(&self) -> (r: NodeId)
        ensures
            r == self.spec_id(),
    {
        self.node
    }
}

/// The state of a node: its two sides.
pub struct NodeView {
    pub replica: ReplicaView,
    pub coordinator: CoordinatorView,
}

/// A broadcast: one message to the peers, which are the nodes of the
/// topology but the sender.
pub open spec fn to_all(node: NodeId, body: MessageBody) -> Seq<MessageView> {
    seq![MessageView { from: node, to: Address::Peers, body }]
}

/// One message to one node.
pub open spec fn to_one(node: NodeId, peer: NodeId, body: MessageBody) -> Seq<MessageView> {
    seq![MessageView { from: node, to: Address::Peer(peer), body }]
}

/// The broadcast of a commit, and after it the node's note to itself that
/// the read phase can begin.
pub open spec fn commit_and_execute(node: NodeId, id: TxId, tx: Timestamp, deps: Set<TxId>) -> Seq<
    MessageView,
> {
    to_all(node, MessageBody::Commit { id, tx, deps }).push(
        MessageView { from: node, to: Address::Local, body: MessageBody::StartExecute { tx: id } },
    )
}

/// The message that reports an action.
pub open spec fn action_message(a: ExecutionActionOk) -> ProtocolMessage {
    match a {
        ExecutionActionOk::ReadOk(m) => ProtocolMessage::ReadOk(m),
        ExecutionActionOk::ApplyOk(m) => ProtocolMessage::ApplyOk(m),
    }
}

/// The task that a message reports as done, if it reports one.
pub open spec fn reply_task(m: Message) -> Option<Task> {
    match m.proto_msg {
        ProtocolMessage::ReadOk(x) => Some(Task { id: x.id, apply: false }),
        ProtocolMessage::ApplyOk(x) => Some(Task { id: x.id, apply: true }),
        _ => None,
    }
}

/// How the delivery of a read or apply request that began in replica state
/// `d` ended in `end` with result `r`. Every message goes from `node` to
/// `to` and reports a task. The messages after the first `skip` report the
/// tasks that ran, each the one that was next when its turn came, and `end`
/// is the state after them. With no message and no error, no task was
/// ready. An error is the executor's: the first task failed and nothing has
/// changed.
pub open spec fn executed(
    d: ReplicaView,
    end: ReplicaView,
    r: Result<Seq<Message>, AccordError>,
    skip: nat,
    node: NodeId,
    to: NodeId,
) -> bool {
    match r {
        Ok(out) => {
            &&& out.len() >= skip
            &&& end == d.advance((out.len() - skip) as nat)
            &&& forall|k: int|
                0 <= k < out.len() ==> (#[trigger] out[k]).from == node && out[k].to
                    == Address::Peer(to) && reply_task(out[k]) is Some
            &&& forall|j: int|
                0 <= j < out.len() - skip ==> d.advance(j as nat).next_ready() == reply_task(
                    #[trigger] out[skip + j],
                )
            &&& out.len() == 0 ==> end.idle()
        },
        Err(e) => e == AccordError::Executor && end == d && !d.idle(),
    }
}

/// The messages that go out on a decision of the coordinator.
pub open spec fn decision_messages(
    node: NodeId,
    decision: Decision,
    id: TxId,
    tx: Timestamp,
    deps: Set<TxId>,
) -> Seq<MessageView> {
    match decision {
        Decision::Wait => Seq::empty(),
        Decision::Accept => to_all(node, MessageBody::Accept { id, tx, deps }),
        Decision::Commit => commit_and_execute(node, id, tx, deps),
    }
}

/// `r` is the success that sends exactly the messages `want`.
pub open spec fn sends(r: Result<Seq<Message>, AccordError>, want: Seq<MessageView>) -> bool {
    r matches Ok(out) && message_views(out) == want
}

/// `r` is the error `e`.
pub open spec fn fails(r: Result<Seq<Message>, AccordError>, e: AccordError) -> bool {
    r matches Err(x) && x == e
}

/// What handling the message `msg` in state `pre` comes to: the state
/// `post` and the result `r`, row by row of the dispatch table.
pub open spec fn handled(pre: NodeView, msg: Message, post: NodeView, r: Result<
    Seq<Message>,
    AccordError,
>) -> bool {
    let node = pre.replica.node;
    let c = pre.coordinator;
    match msg.proto_msg {
        ProtocolMessage::BeginRead { keys, command } => begun(
            pre,
            keys@,
            TxKind::Read,
            command@,
            post,
            r,
        ),
        ProtocolMessage::BeginWrite { keys, command } => begun(
            pre,
            keys@,
            TxKind::Write,
            command@,
            post,
            r,
        ),
        ProtocolMessage::StartExecute(m) => post == pre && if c.can_execute(m.tx) {
            sends(
                r,
                to_all(
                    node,
                    MessageBody::Read {
                        id: m.tx,
                        tx: c.tallies[m.tx].tx,
                        deps: c.tallies[m.tx].deps,
                        keys: c.tallies[m.tx].keys,
                    },
                ),
            )
        } else {
            fails(r, AccordError::Protocol)
        },
        ProtocolMessage::PreAccept(m) => {
            &&& post == NodeView { replica: pre.replica.preaccept(m), ..pre }
            &&& sends(
                r,
                to_one(
                    node,
                    msg.from,
                    MessageBody::PreAcceptOk {
                        id: m.id,
                        proposed_tx: post.replica.records[m.id].tx,
                        deps: post.replica.records[m.id].deps,
                    },
                ),
            )
        },
        ProtocolMessage::PreAcceptOk(m) => {
            &&& post == NodeView { coordinator: c.store_proposal(msg.from, m), ..pre }
            &&& if c.tallies.contains_key(m.id) {
                sends(
                    r,
                    decision_messages(
                        node,
                        c.proposal_decision(msg.from, m),
                        m.id,
                        post.coordinator.tallies[m.id].tx,
                        post.coordinator.tallies[m.id].deps,
                    ),
                )
            } else {
                fails(r, AccordError::Protocol)
            }
        },
        ProtocolMessage::Accept(m) => {
            &&& post == NodeView { replica: pre.replica.accept(m), ..pre }
            &&& sends(r, to_one(node, msg.from, MessageBody::AcceptOk { id: m.id }))
        },
        ProtocolMessage::AcceptOk(m) => {
            &&& post == NodeView { coordinator: c.store_accept_ok(msg.from, m), ..pre }
            &&& if !c.tallies.contains_key(m.id) {
                fails(r, AccordError::Protocol)
            } else if c.accept_commits(msg.from, m) {
                sends(r, commit_and_execute(node, m.id, c.tallies[m.id].tx, c.tallies[m.id].deps))
            } else {
                sends(r, Seq::empty())
            }
        },
        ProtocolMessage::Commit(m) => {
            &&& post == NodeView { replica: pre.replica.commit(m), ..pre }
            &&& match pre.replica.commit_outcome(m) {
                Ok(_) => sends(r, Seq::empty()),
                Err(e) => fails(r, e),
            }
        },
        ProtocolMessage::Read(m) => post.coordinator == c && if pre.replica.holds_committed(
            m.id,
            m.tx,
            m.deps@,
        ) {
            executed(pre.replica.defer_read(m), post.replica, r, 0, node, msg.from)
        } else {
            fails(r, AccordError::Protocol) && post == pre
        },
        ProtocolMessage::ReadOk(m) => {
            &&& post == NodeView { coordinator: c.store_read_ok(msg.from, m), ..pre }
            &&& if !c.tallies.contains_key(m.id) {
                fails(r, AccordError::Protocol)
            } else if c.read_applies(msg.from, m) {
                let t = post.coordinator.tallies[m.id];
                sends(
                    r,
                    to_all(
                        node,
                        MessageBody::Apply {
                            id: m.id,
                            tx: t.tx,
                            deps: t.deps,
                            result: t.reads[0].payload,
                            writes: write_effect(t.kind, t.command),
                        },
                    ),
                )
            } else {
                sends(r, Seq::empty())
            }
        },
        ProtocolMessage::Apply(m) => post.coordinator == c && if pre.replica.holds_committed(
            m.id,
            m.tx,
            m.deps@,
        ) {
            let acked = pre.replica.records[m.id].status == TxStatus::Applied;
            &&& executed(
                pre.replica.defer_apply(m),
                post.replica,
                r,
                if acked {
                    1
                } else {
                    0
                },
                node,
                msg.from,
            )
            &&& acked ==> (r matches Ok(out) && reply_task(out[0]) == Some(
                Task { id: m.id, apply: true },
            ))
        } else {
            fails(r, AccordError::Protocol) && post == pre
        },
        ProtocolMessage::ApplyOk(m) => {
            &&& post == NodeView { coordinator: c.store_apply_ok(msg.from, m), ..pre }
            &&& if c.tallies.contains_key(m.id) {
                sends(r, Seq::empty())
            } else {
                fails(r, AccordError::Protocol)
            }
        },
    }
}

/// What the birth of a transaction comes to: the coordinator tallies it and
/// its proposal is broadcast. Where the node's counter is at the end of its
/// range, nothing changes and the result is an internal error.
pub open spec fn begun(
    pre: NodeView,
    keys: Seq<Key>,
    kind: TxKind,
    command: Seq<KeyWrite>,
    post: NodeView,
    r: Result<Seq<Message>, AccordError>,
) -> bool {
    let c = pre.coordinator;
    if c.counter < u64::MAX {
        &&& post == NodeView { coordinator: c.begin(keys, kind, command), ..pre }
        &&& sends(
            r,
            to_all(
                pre.replica.node,
                MessageBody::PreAccept {
                    id: c.next_id(),
                    t0: c.next_id().spec_t0(),
                    keys,
                    kind,
                    command,
                },
            ),
        )
    } else {
        post == pre && fails(r, AccordError::Internal)
    }
}

/// How the sending of what a message led to ended, where handling the
/// message came to `decided`: an error of the handling is the result; with
/// nothing to send the result is success; otherwise it is success, or
/// `OutboundSend` where the channel refused a message.
pub open spec fn delivered(decided: Result<Seq<Message>, AccordError>, r: Result<(), AccordError>) -> bool {
    match decided {
        Err(e) => r == Err::<(), AccordError>(e),
        Ok(out) => r is Ok || (out.len() > 0 && r == Err::<(), AccordError>(
            AccordError::OutboundSend,
        )),
    }
}

/// A result with its messages as a sequence.
pub open spec fn as_seq(r: Result<Vec<Message>, AccordError>) -> Result<Seq<Message>, AccordError> {
    match r {
        Ok(out) => Ok(out@),
        Err(e) => Err(e),
    }
}

/// The messages that report `actions` from `node` to `to`, in their order.
pub open spec fn action_messages(node: NodeId, to: Address, actions: Seq<ExecutionActionOk>) -> Seq<
    Message,
> {
    actions.map_values(
        |a: ExecutionActionOk| Message { from: node, to, proto_msg: action_message(a) },
    )
}

/// What the driver reports of what a replica ran: an error as it is, each
/// action as a message from `node` to `to`.
pub open spec fn reported(
    node: NodeId,
    to: NodeId,
    actions: Result<Vec<ExecutionActionOk>, AccordError>,
) -> Result<Seq<Message>, AccordError> {
    match actions {
        Ok(list) => Ok(action_messages(node, Address::Peer(to), list@)),
        Err(e) => Err(e),
    }
}

/// What a replica ran is what the driver reports of it.
proof fn lemma_reported(
    d: ReplicaView,
    end: ReplicaView,
    actions: Result<Vec<ExecutionActionOk>, AccordError>,
    skip: nat,
    node: NodeId,
    to: NodeId,
)
    requires
        ran(d, end, actions, skip),
    ensures
        executed(d, end, reported(node, to, actions), skip, node, to),
{
    if let Ok(list) = actions {
        let out = action_messages(node, Address::Peer(to), list@);
        assert forall|k: int| 0 <= k < out.len() implies (#[trigger] out[k]).from == node && out[k].to
            == Address::Peer(to) && reply_task(out[k]) == Some(action_task(list@[k])) by {
            assert(out[k].proto_msg == action_message(list@[k]));
        }
    }
}

/// The single owner of a node's coordinator and replica, and of the
/// sending half of the node's outbound channel.
pub struct StateDriver {
    outbound: UnboundedSender<Message>,
    replica: ReplicaState,
    coordinator: CoordinatorState,
}

impl View for StateDriver {
    type V = NodeView;

    closed spec fn view(&self) -> NodeView {
        NodeView { replica: self.replica@, coordinator: self.coordinator@ }
    }
}

impl StateDriver {
    /// The invariant of the driver: that of each side.
    pub closed spec fn inv(&self) -> bool {
        self.replica.inv() && self.coordinator.inv() && self.replica@.node == self.coordinator@.node
    }

    /// The two sides of a driver that meets its invariant are in states
    /// that their models allow.
    pub proof fn lemma_view_inv(&self)
        requires
            self.inv(),
        ensures
            self@.replica.inv(),
            self@.coordinator.inv(),
            self@.replica.node == self@.coordinator.node,
    {
        self.replica.lemma_view_inv();
        self.coordinator.lemma_view_inv();
    }

    /// A driver that owns the two sides of one node and sends on
    /// `outbound`.
    pub fn new(
        coordinator: CoordinatorState,
        replica: ReplicaState,
        outbound: UnboundedSender<Message>,
    ) -> (r: StateDriver)
        requires
            coordinator.inv(),
            replica.inv(),
            coordinator@.node == replica@.node,
        ensures
            r.inv(),
            r@ == (NodeView { replica: replica@, coordinator: coordinator@ }),
    {
        StateDriver { outbound, replica, coordinator }
    }

    /// The replica side.
    pub fn replica(&self) -> (r: &ReplicaState)
        requires
            self.inv(),
        ensures
            r.inv(),
            r@ == self@.replica,
    {
        &self.replica
    }

    /// The coordinator side.
    pub fn coordinator(&self) -> (r: &CoordinatorState)
        requires
            self.inv(),
        ensures
            r.inv(),
            r@ == self@.coordinator,
    {
        &self.coordinator
    }

    /// The message `msg` addressed to `to`, with this node as its sender:
    /// what the outbound channel is handed.
    pub fn envelope(&self, to: Address, msg: ProtocolMessage) -> (r: Message)
        ensures
            r == (Message { from: self@.replica.node, to, proto_msg: msg }),
    {
        Message { from: self.replica.get_node_id(), to, proto_msg: msg }
    }

    /// Sends `msg` to `to` with this node as its sender: the message in its
    /// envelope is handed to the outbound channel. Where the channel refuses
    /// it, the error is `OutboundSend`.
    pub fn send_outbound(&self, to: Address, msg: ProtocolMessage) -> (r: Result<(), AccordError>)
        ensures
            r is Ok || r == Err::<(), AccordError>(AccordError::OutboundSend),
    {
        let m = self.envelope(to, msg);
        outbound_result(channel_send(&self.outbound, m))
    }

    /// Sends one message for each action to `to`, in their order: a
    /// `ReadOk` for a read that ran, an `ApplyOk` for an apply. The first
    /// message that the channel refuses ends the sending with the error
    /// `OutboundSend`; with no action there is nothing to refuse.
    pub fn send_execution_actions(&self, to: Address, actions: Vec<ExecutionActionOk>) -> (r: Result<
        (),
        AccordError,
    >)
        ensures
            r is Ok || (actions@.len() > 0 && r == Err::<(), AccordError>(AccordError::OutboundSend)),
    {
        let mut queue: Vec<Message> = Vec::new();
        self.enqueue_actions(&mut queue, to, actions);
        self.send_all(queue)
    }

    fn enqueue(&self, queue: &mut Vec<Message>, to: Address, msg: ProtocolMessage)
        ensures
            final(queue)@ == old(queue)@.push(
                Message { from: self@.replica.node, to, proto_msg: msg },
            ),
    {
        let m = self.envelope(to, msg);
        queue.push(m);
    }

    fn enqueue_actions(&self, queue: &mut Vec<Message>, to: Address, actions: Vec<ExecutionActionOk>)
        ensures
            final(queue)@ == old(queue)@ + action_messages(self@.replica.node, to, actions@),
    {
        let ghost all = actions@;
        let ghost want = action_messages(self@.replica.node, to, all);
        for action in it: actions
            invariant
                it.seq() == all,
                want == action_messages(self@.replica.node, to, all),
                queue@ == old(queue)@ + want.subrange(0, it.index() as int),
        {
            let ghost k = it.index() as int;
            let msg = match action {
                ExecutionActionOk::ReadOk(m) => ProtocolMessage::ReadOk(m),
                ExecutionActionOk::ApplyOk(m) => ProtocolMessage::ApplyOk(m),
            };
            self.enqueue(queue, to, msg);
            assert(queue@ =~= old(queue)@ + want.subrange(0, k + 1));
        }
        assert(want.subrange(0, all.len() as int) =~= want);
    }

    fn broadcast(&self, queue: &mut Vec<Message>, msg: ProtocolMessage)
        ensures
            message_views(final(queue)@) == message_views(old(queue)@) + to_all(
                self@.replica.node,
                msg@,
            ),
    {
        self.enqueue(queue, Address::Peers, msg);
        assert(message_views(queue@) =~= message_views(old(queue)@) + to_all(
            self@.replica.node,
            msg@,
        ));
    }

    fn commit_and_execute(&self, queue: &mut Vec<Message>, commit: Commit)
        requires
            old(queue)@.len() == 0,
        ensures
            message_views(final(queue)@) == commit_and_execute(
                self@.replica.node,
                commit.id,
                commit.tx,
                commit.deps@,
            ),
    {
        let id = commit.id;
        self.broadcast(queue, ProtocolMessage::Commit(commit));
        let ghost sent = queue@;
        self.enqueue(
            queue,
            Address::Local,
            ProtocolMessage::StartExecute(StartExecuteInternal { tx: id }),
        );
        assert(message_views(sent) =~= to_all(self@.replica.node, commit@));
        assert(message_views(queue@) =~= commit_and_execute(
            self@.replica.node,
            commit.id,
            commit.tx,
            commit.deps@,
        ));
    }

    fn reply(&self, to: NodeId, actions: Result<Vec<ExecutionActionOk>, AccordError>) -> (r: Result<
        Vec<Message>,
        AccordError,
    >)
        ensures
            as_seq(r) == reported(self@.replica.node, to, actions),
    {
        match actions {
            Err(e) => Err(e),
            Ok(list) => {
                let mut out: Vec<Message> = Vec::new();
                self.enqueue_actions(&mut out, Address::Peer(to), list);
                assert(out@ =~= action_messages(self@.replica.node, Address::Peer(to), list@));
                Ok(out)
            },
        }
    }

    /// Handles one inbound message: decides on it as `decide` does, then
    /// sends the messages that this led to on the outbound channel, in
    /// their order. The first message that the channel refuses ends the
    /// sending with the error `OutboundSend`; what the message did to the
    /// node stays done.
    pub fn handle_msg<E: Executor>(&mut self, executor: &mut E, msg: Message) -> (r: Result<
        (),
        AccordError,
    >)
        requires
            old(self).inv(),
        ensures
            final(self).inv(),
            exists|decided: Result<Seq<Message>, AccordError>| #[trigger]
                handled(old(self)@, msg, final(self)@, decided) && delivered(decided, r),
    {
        let decided = self.decide(executor, msg);
        let ghost witness = as_seq(decided);
        let r = match decided {
            Err(e) => Err(e),
            Ok(out) => self.send_all(out),
        };
        assert(handled(old(self)@, msg, self@, witness) && delivered(witness, r));
        r
    }

    /// Sends each of `out`, in their order, until the channel refuses one.
    fn send_all(&self, out: Vec<Message>) -> (r: Result<(), AccordError>)
        ensures
            r is Ok || (out@.len() > 0 && r == Err::<(), AccordError>(AccordError::OutboundSend)),
    {
        for m in it: out
            invariant
                it.seq() == out@,
        {
            match self.send_outbound(m.to, m.proto_msg) {
                Ok(_) => {},
                Err(e) => {
                    return Err(e);
                },
            }
        }
        Ok(())
    }

    /// Decides on one inbound message and returns the messages to send, in
    /// the order in which they are to go out. The message goes to the side
    /// that its kind concerns. A broadcast is one message to the peers. An
    /// answer goes to the sender of the message; so does every action of a
    /// read or apply request, also that of a task that had waited for it. A
    /// commit is broadcast before the node notes to itself that the read
    /// phase can begin. An error sends nothing.
    pub fn decide<E: Executor>(&mut self, executor: &mut E, msg: Message) -> (r: Result<
        Vec<Message>,
        AccordError,
    >)
        requires
            old(self).inv(),
        ensures
            final(self).inv(),
            handled(old(self)@, msg, final(self)@, as_seq(r)),
    {
        let from = msg.from;
        let mut out: Vec<Message> = Vec::new();
        assert(message_views(out@) =~= Seq::<MessageView>::empty());
        match msg.proto_msg {
            ProtocolMessage::BeginRead { keys, command } => {
                if !self.coordinator.can_begin() {
                    return Err(AccordError::Internal);
                }
                let m = self.coordinator.new_read_tx(keys, command);
                self.broadcast(&mut out, ProtocolMessage::PreAccept(m));
                assert(message_views(out@) =~= to_all(self@.replica.node, m@));
            },
            ProtocolMessage::BeginWrite { keys, command } => {
                if !self.coordinator.can_begin() {
                    return Err(AccordError::Internal);
                }
                let m = self.coordinator.new_write_tx(keys, command);
                self.broadcast(&mut out, ProtocolMessage::PreAccept(m));
                assert(message_views(out@) =~= to_all(self@.replica.node, m@));
            },
            ProtocolMessage::StartExecute(m) => {
                match self.coordinator.start_execute(m) {
                    Err(e) => {
                        return Err(e);
                    },
                    Ok(read) => {
                        self.broadcast(&mut out, ProtocolMessage::Read(read));
                        assert(message_views(out@) =~= to_all(self@.replica.node, read@));
                    },
                }
            },
            ProtocolMessage::PreAccept(m) => {
                let ok = self.replica.receive_preaccept(m);
                self.enqueue(&mut out, Address::Peer(from), ProtocolMessage::PreAcceptOk(ok));
                assert(message_views(out@) =~= to_one(self@.replica.node, from, ok@));
            },
            ProtocolMessage::PreAcceptOk(m) => {
                match self.coordinator.store_proposal(from, m) {
                    Err(e) => {
                        return Err(e);
                    },
                    Ok(None) => {},
                    Ok(Some(AcceptOrCommit::Accept(accept))) => {
                        self.broadcast(&mut out, ProtocolMessage::Accept(accept));
                        assert(message_views(out@) =~= to_all(self@.replica.node, accept@));
                    },
                    Ok(Some(AcceptOrCommit::Commit(commit))) => {
                        self.commit_and_execute(&mut out, commit);
                    },
                }
            },
            ProtocolMessage::Accept(m) => {
                let ok = self.replica.receive_accept(m);
                self.enqueue(&mut out, Address::Peer(from), ProtocolMessage::AcceptOk(ok));
                assert(message_views(out@) =~= to_one(
                    self@.replica.node,
                    from,
                    MessageBody::AcceptOk { id: m.id },
                ));
            },
            ProtocolMessage::AcceptOk(m) => {
                match self.coordinator.store_accept_ok(from, m) {
                    Err(e) => {
                        return Err(e);
                    },
                    Ok(None) => {},
                    Ok(Some(commit)) => {
                        self.commit_and_execute(&mut out, commit);
                    },
                }
            },
            ProtocolMessage::Commit(m) => {
                match self.replica.receive_commit(m) {
                    Err(e) => {
                        return Err(e);
                    },
                    Ok(_) => {},
                }
            },
            ProtocolMessage::Read(m) => {
                let actions = self.replica.receive_read(executor, m);
                proof {
                    if old(self)@.replica.holds_committed(m.id, m.tx, m.deps@) {
                        lemma_reported(
                            old(self)@.replica.defer_read(m),
                            self@.replica,
                            actions,
                            0,
                            old(self)@.replica.node,
                            from,
                        );
                        if actions is Ok {
                            lemma_advance_evolved(
                                old(self)@.replica.defer_read(m),
                                actions->Ok_0@.len(),
                            );
                        }
                    }
                }
                return self.reply(from, actions);
            },
            ProtocolMessage::ReadOk(m) => {
                match self.coordinator.store_read_ok(from, m) {
                    Err(e) => {
                        return Err(e);
                    },
                    Ok(None) => {},
                    Ok(Some(apply)) => {
                        self.broadcast(&mut out, ProtocolMessage::Apply(apply));
                        assert(message_views(out@) =~= to_all(self@.replica.node, apply@));
                    },
                }
            },
            ProtocolMessage::Apply(m) => {
                let actions = self.replica.receive_apply(executor, m);
                proof {
                    if old(self)@.replica.holds_committed(m.id, m.tx, m.deps@) {
                        let skip: nat = if old(self)@.replica.records[m.id].status
                            == TxStatus::Applied {
                            1
                        } else {
                            0
                        };
                        lemma_reported(
                            old(self)@.replica.defer_apply(m),
                            self@.replica,
                            actions,
                            skip,
                            old(self)@.replica.node,
                            from,
                        );
                        if actions is Ok {
                            lemma_advance_evolved(
                                old(self)@.replica.defer_apply(m),
                                (actions->Ok_0@.len() - skip) as nat,
                            );
                            if skip == 1 {
                                let out = action_messages(
                                    old(self)@.replica.node,
                                    Address::Peer(from),
                                    actions->Ok_0@,
                                );
                                assert(out[0].proto_msg == action_message(actions->Ok_0@[0]));
                            }
                        }
                    }
                }
                return self.reply(from, actions);
            },
            ProtocolMessage::ApplyOk(m) => {
                match self.coordinator.store_apply_ok(from, m) {
                    Err(e) => {
                        return Err(e);
                    },
                    Ok(_) => {},
                }
            },
        }
        Ok(out)
    }
}

/// What the driver makes of the channel's word on a message: a message that
/// the channel took is sent; one that it refused is the error
/// `OutboundSend`, whatever the message was.
pub fn outbound_result(sent: Result<(), SendError<Message>>) -> (r: Result<(), AccordError>)
    ensures
        r == match sent {
            Ok(_) => Ok::<(), AccordError>(()),
            Err(_) => Err::<(), AccordError>(AccordError::OutboundSend),
        },
{
    match sent {
        Ok(_) => Ok(()),
        Err(_) => Err(AccordError::OutboundSend),
    }
}

/// Whether the result of handling a message ends the driver, and with which
/// error. A message that did not fit the state of its transaction is
/// dropped, and a failure of the executor leaves its transaction to be tried
/// again: the driver goes on. A message that the outbound channel refused
/// and a violated invariant end it.
pub fn ends_driver(r: Result<(), AccordError>) -> (stop: Option<AccordError>)
    ensures
        stop == match r {
            Ok(_) | Err(AccordError::Protocol) | Err(AccordError::Executor) => None::<AccordError>,
            Err(e) => Some(e),
        },
{
    match r {
        Ok(_) => None,
        Err(AccordError::Protocol) => None,
        Err(AccordError::Executor) => None,
        Err(e) => Some(e),
    }
}

} // verus!
