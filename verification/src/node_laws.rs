//! What a driver does with a message is a run of the cluster: a sequence of
//! events at its node. So whatever holds after every run of a cluster holds
//! of nodes that handle the messages they are sent.
use crate::cluster_model::{AnswerFact, ClusterEvent, ClusterView, CommitFact};
use crate::node::{begun, executed, handled, reply_task, NodeView};
use crate::protocol::{
    message_views, AccordError, KeyWrite, Message, MessageBody, MessageView, ProtocolMessage, TxKind,
};
use crate::replica_model::{ReplicaView, TxStatus};
use crate::timestamp::{Key, NodeId};
use vstd::prelude::*;

verus! {

/// The two sides of node `n`.
pub open spec fn node_of(c: ClusterView, n: NodeId) -> NodeView {
    NodeView { replica: c.replicas[n], coordinator: c.coordinators[n] }
}

/// Each event can happen when its turn comes.
pub open spec fn all_enabled(c: ClusterView, events: Seq<ClusterEvent>) -> bool
    decreases events.len(),
{
    events.len() == 0 || (all_enabled(c, events.drop_last()) && c.run(
        events.drop_last(),
    ).enabled(events.last()))
}

/// Whether the cluster has sent what the message says: a `Commit` was sent
/// by a coordinator, an answer to a proposal by the replica that the
/// message names as its sender. Any other message may come from anywhere.
pub open spec fn deliverable(c: ClusterView, msg: Message) -> bool {
    match msg.proto_msg {
        ProtocolMessage::Commit(m) => c.commits.contains(
            CommitFact { id: m.id, tx: m.tx, deps: m.deps@ },
        ),
        ProtocolMessage::PreAcceptOk(m) => c.answers.contains(
            AnswerFact { peer: msg.from, id: m.id, tx: m.proposed_tx, deps: m.deps@ },
        ),
        _ => true,
    }
}

/// Whether the cluster has sent what a message with the view `v` says.
pub open spec fn view_deliverable(c: ClusterView, v: MessageView) -> bool {
    match v.body {
        MessageBody::Commit { id, tx, deps } => c.commits.contains(CommitFact { id, tx, deps }),
        MessageBody::PreAcceptOk { id, proposed_tx, deps } => c.answers.contains(
            AnswerFact { peer: v.from, id, tx: proposed_tx, deps },
        ),
        _ => true,
    }
}

proof fn lemma_deliverable_view(c: ClusterView, msg: Message)
    ensures
        deliverable(c, msg) == view_deliverable(c, msg@),
{
}

proof fn lemma_sent_views(c: ClusterView, out: Seq<Message>, want: Seq<MessageView>)
    requires
        message_views(out) == want,
        forall|i: int| 0 <= i < want.len() ==> view_deliverable(c, #[trigger] want[i]),
    ensures
        all_sent(c, out),
{
    assert forall|i: int| 0 <= i < out.len() implies deliverable(c, #[trigger] out[i]) by {
        assert(message_views(out)[i] == out[i]@);
        lemma_deliverable_view(c, out[i]);
    }
}

/// Whether the cluster has sent each commit and each answer to a proposal
/// among the messages `out`.
pub open spec fn all_sent(c: ClusterView, out: Seq<Message>) -> bool {
    forall|i: int| 0 <= i < out.len() ==> deliverable(c, #[trigger] out[i])
}

/// The events of the first `k` tasks that run in replica state `d` at node
/// `n`, each the task that is next when its turn comes.
pub open spec fn task_events(n: NodeId, d: ReplicaView, k: nat) -> Seq<ClusterEvent>
    decreases k,
{
    if k == 0 {
        Seq::empty()
    } else {
        task_events(n, d, (k - 1) as nat).push(
            ClusterEvent::TaskDone { node: n, task: d.advance((k - 1) as nat).next_ready()->0 },
        )
    }
}

/// What a run of `events` that only concerns node `n` leaves: the other
/// nodes as they were, and nothing taken from what was sent.
pub open spec fn local_run(c: ClusterView, n: NodeId, events: Seq<ClusterEvent>) -> bool {
    let after = c.run(events);
    &&& all_enabled(c, events)
    &&& after.replicas.dom() == c.replicas.dom()
    &&& after.coordinators.dom() == c.coordinators.dom()
    &&& forall|o: NodeId| o != n && c.replicas.contains_key(o) ==> after.replicas[o] == c.replicas[o]
    &&& forall|o: NodeId|
        o != n && c.coordinators.contains_key(o) ==> after.coordinators[o] == c.coordinators[o]
    &&& c.commits.subset_of(after.commits)
    &&& c.answers.subset_of(after.answers)
}

proof fn lemma_one_event(c: ClusterView, n: NodeId, e: ClusterEvent) -> (events: Seq<ClusterEvent>)
    requires
        c.enabled(e),
        c.replicas.contains_key(n),
        c.coordinators.contains_key(n),
        c.step(e).replicas.dom() == c.replicas.dom(),
        c.step(e).coordinators.dom() == c.coordinators.dom(),
        forall|o: NodeId| o != n && c.replicas.contains_key(o) ==> c.step(e).replicas[o] == c.replicas[o],
        forall|o: NodeId|
            o != n && c.coordinators.contains_key(o) ==> c.step(e).coordinators[o]
                == c.coordinators[o],
        c.commits.subset_of(c.step(e).commits),
        c.answers.subset_of(c.step(e).answers),
    ensures
        events == seq![e],
        c.run(events) == c.step(e),
        local_run(c, n, events),
{
    let events = seq![e];
    assert(events.drop_last() =~= Seq::<ClusterEvent>::empty());
    assert(events.last() == e);
    assert(c.run(events.drop_last()) == c);
    assert(all_enabled(c, events.drop_last()));
    events
}

proof fn lemma_no_event(c: ClusterView, n: NodeId) -> (events: Seq<ClusterEvent>)
    ensures
        events == Seq::<ClusterEvent>::empty(),
        c.run(events) == c,
        local_run(c, n, events),
{
    Seq::<ClusterEvent>::empty()
}

/// The tasks that ran are a run of the cluster at node `n`.
proof fn lemma_tasks_run(c: ClusterView, n: NodeId, k: nat)
    requires
        c.replicas.contains_key(n),
        c.coordinators.contains_key(n),
        forall|j: nat| j < k ==> (#[trigger] c.replicas[n].advance(j)).next_ready() is Some,
    ensures
        local_run(c, n, task_events(n, c.replicas[n], k)),
        c.run(task_events(n, c.replicas[n], k)).replicas[n] == c.replicas[n].advance(k),
        c.run(task_events(n, c.replicas[n], k)).coordinators == c.coordinators,
        c.run(task_events(n, c.replicas[n], k)).commits == c.commits,
        c.run(task_events(n, c.replicas[n], k)).answers == c.answers,
    decreases k,
{
    let d = c.replicas[n];
    let events = task_events(n, d, k);
    if k > 0 {
        lemma_tasks_run(c, n, (k - 1) as nat);
        let front = task_events(n, d, (k - 1) as nat);
        assert(events.drop_last() =~= front);
        let before = c.run(front);
        let t = d.advance((k - 1) as nat).next_ready()->0;
        assert(d.advance((k - 1) as nat).next_ready() is Some);
        assert(d.advance((k - 1) as nat).is_next(t));
        assert(before.enabled(events.last()));
        let after = before.step(events.last());
        assert(after.replicas.dom() =~= c.replicas.dom());
        assert(c.run(events) == after);
    }
}

/// Handling a message is a run of the cluster. Where the driver of node
/// `n` handles a message that the cluster has sent, in the state that the
/// cluster holds for the node, there is a run of events at that node after
/// which the cluster holds the state that the driver is left in and has
/// sent each commit and each answer to a proposal that the driver sends.
pub proof fn lemma_handling_is_a_run(
    c: ClusterView,
    n: NodeId,
    msg: Message,
    post: NodeView,
    r: Result<Seq<Message>, AccordError>,
) -> (events: Seq<ClusterEvent>)
    requires
        c.replicas.contains_key(n),
        c.coordinators.contains_key(n),
        c.replicas[n].node == n,
        deliverable(c, msg),
        handled(node_of(c, n), msg, post, r),
    ensures
        local_run(c, n, events),
        node_of(c.run(events), n) == post,
        r matches Ok(out) ==> all_sent(c.run(events), out),
{
    let pre = node_of(c, n);
    match msg.proto_msg {
        ProtocolMessage::BeginRead { keys, command } => lemma_begun(
            c,
            n,
            keys@,
            TxKind::Read,
            command@,
            post,
            r,
        ),
        ProtocolMessage::BeginWrite { keys, command } => lemma_begun(
            c,
            n,
            keys@,
            TxKind::Write,
            command@,
            post,
            r,
        ),
        ProtocolMessage::StartExecute(m) => {
            let events = lemma_no_event(c, n);
            if r is Ok {
                lemma_sent_views(c, r->Ok_0, message_views(r->Ok_0));
            }
            events
        },
        ProtocolMessage::PreAccept(m) => {
            let e = ClusterEvent::PreAccept { node: n, msg: m };
            assert(c.step(e).replicas.dom() =~= c.replicas.dom());
            let events = lemma_one_event(c, n, e);
            let after = c.step(e);
            let out = r->Ok_0;
            lemma_sent_views(after, out, message_views(out));
            events
        },
        ProtocolMessage::PreAcceptOk(m) => {
            let e = ClusterEvent::Proposal { node: n, from: msg.from, msg: m };
            assert(c.step(e).coordinators.dom() =~= c.coordinators.dom());
            let events = lemma_one_event(c, n, e);
            let after = c.step(e);
            if r is Ok {
                let out = r->Ok_0;
                lemma_sent_views(after, out, message_views(out));
            }
            events
        },
        ProtocolMessage::Accept(m) => {
            let e = ClusterEvent::Accept { node: n, msg: m };
            assert(c.step(e).replicas.dom() =~= c.replicas.dom());
            let events = lemma_one_event(c, n, e);
            lemma_sent_views(c.step(e), r->Ok_0, message_views(r->Ok_0));
            events
        },
        ProtocolMessage::AcceptOk(m) => {
            let e = ClusterEvent::AcceptAck { node: n, from: msg.from, msg: m };
            assert(c.step(e).coordinators.dom() =~= c.coordinators.dom());
            let events = lemma_one_event(c, n, e);
            let after = c.step(e);
            if r is Ok {
                let out = r->Ok_0;
                lemma_sent_views(after, out, message_views(out));
            }
            events
        },
        ProtocolMessage::Commit(m) => {
            let e = ClusterEvent::Commit { node: n, msg: m };
            assert(c.step(e).replicas.dom() =~= c.replicas.dom());
            let events = lemma_one_event(c, n, e);
            if r is Ok {
                lemma_sent_views(c.step(e), r->Ok_0, message_views(r->Ok_0));
            }
            events
        },
        ProtocolMessage::Read(m) => {
            if pre.replica.holds_committed(m.id, m.tx, m.deps@) {
                let e = ClusterEvent::ReadRequest { node: n, msg: m };
                lemma_requested(c, n, e, pre.replica.defer_read(m), post, r, 0, msg.from)
            } else {
                lemma_no_event(c, n)
            }
        },
        ProtocolMessage::ReadOk(m) => {
            let e = ClusterEvent::ReadPayload { node: n, from: msg.from, msg: m };
            assert(c.step(e).coordinators.dom() =~= c.coordinators.dom());
            let events = lemma_one_event(c, n, e);
            if r is Ok {
                lemma_sent_views(c.step(e), r->Ok_0, message_views(r->Ok_0));
            }
            events
        },
        ProtocolMessage::Apply(m) => {
            if pre.replica.holds_committed(m.id, m.tx, m.deps@) {
                let e = ClusterEvent::ApplyRequest { node: n, msg: m };
                let skip: nat = if pre.replica.records[m.id].status == TxStatus::Applied {
                    1
                } else {
                    0
                };
                lemma_requested(c, n, e, pre.replica.defer_apply(m), post, r, skip, msg.from)
            } else {
                lemma_no_event(c, n)
            }
        },
        ProtocolMessage::ApplyOk(m) => {
            let e = ClusterEvent::ApplyAck { node: n, from: msg.from, msg: m };
            assert(c.step(e).coordinators.dom() =~= c.coordinators.dom());
            let events = lemma_one_event(c, n, e);
            if r is Ok {
                lemma_sent_views(c.step(e), r->Ok_0, message_views(r->Ok_0));
            }
            events
        },
    }
}

/// Messages that are neither commits nor answers to proposals need not
/// have been sent before.
proof fn lemma_send_none(c: ClusterView, out: Seq<Message>)
    requires
        forall|i: int|
            0 <= i < out.len() ==> !((#[trigger] out[i]).proto_msg is Commit)
                && !(out[i].proto_msg is PreAcceptOk),
    ensures
        all_sent(c, out),
{
}

proof fn lemma_begun(
    c: ClusterView,
    n: NodeId,
    keys: Seq<Key>,
    kind: TxKind,
    command: Seq<KeyWrite>,
    post: NodeView,
    r: Result<Seq<Message>, AccordError>,
) -> (events: Seq<ClusterEvent>)
    requires
        c.replicas.contains_key(n),
        c.coordinators.contains_key(n),
        begun(node_of(c, n), keys, kind, command, post, r),
    ensures
        local_run(c, n, events),
        node_of(c.run(events), n) == post,
        r matches Ok(out) ==> all_sent(c.run(events), out),
{
    if c.coordinators[n].counter < u64::MAX {
        let e = ClusterEvent::Begin { node: n, keys, kind, command };
        assert(c.step(e).coordinators.dom() =~= c.coordinators.dom());
        let events = lemma_one_event(c, n, e);
        let out = r->Ok_0;
        lemma_sent_views(c.step(e), out, message_views(out));
        events
    } else {
        lemma_no_event(c, n)
    }
}

proof fn lemma_requested(
    c: ClusterView,
    n: NodeId,
    e: ClusterEvent,
    d: ReplicaView,
    post: NodeView,
    r: Result<Seq<Message>, AccordError>,
    skip: nat,
    to: NodeId,
) -> (events: Seq<ClusterEvent>)
    requires
        c.replicas.contains_key(n),
        c.coordinators.contains_key(n),
        e is ReadRequest || e is ApplyRequest,
        c.enabled(e),
        c.step(e) == c.with_replica(n, d),
        post.coordinator == c.coordinators[n],
        executed(d, post.replica, r, skip, c.replicas[n].node, to),
    ensures
        local_run(c, n, events),
        node_of(c.run(events), n) == post,
        r matches Ok(out) ==> all_sent(c.run(events), out),
{
    let first = c.step(e);
    assert(first.replicas.dom() =~= c.replicas.dom());
    let head = lemma_one_event(c, n, e);
    match r {
        Ok(out) => {
            let k = (out.len() - skip) as nat;
            assert forall|j: nat| j < k implies (#[trigger] d.advance(j)).next_ready() is Some by {
                assert(reply_task(out[skip + j as int]) is Some);
            }
            lemma_tasks_run(first, n, k);
            let tail = task_events(n, d, k);
            lemma_runs_join(c, n, head, tail);
            assert forall|i: int| 0 <= i < out.len() implies !((#[trigger] out[i]).proto_msg is Commit)
                && !(out[i].proto_msg is PreAcceptOk) by {
                assert(reply_task(out[i]) is Some);
            }
            lemma_send_none(c.run(head + tail), out);
            head + tail
        },
        Err(_) => head,
    }
}

/// A run of one sequence of events after another is the run of the second
/// from where the first ends.
proof fn lemma_run_concat(c: ClusterView, a: Seq<ClusterEvent>, b: Seq<ClusterEvent>)
    ensures
        c.run(a + b) == c.run(a).run(b),
    decreases b.len(),
{
    if b.len() == 0 {
        assert(a + b =~= a);
    } else {
        assert((a + b).drop_last() =~= a + b.drop_last());
        assert((a + b).last() == b.last());
        lemma_run_concat(c, a, b.drop_last());
    }
}

proof fn lemma_enabled_concat(c: ClusterView, a: Seq<ClusterEvent>, b: Seq<ClusterEvent>)
    requires
        all_enabled(c, a),
        all_enabled(c.run(a), b),
    ensures
        all_enabled(c, a + b),
    decreases b.len(),
{
    if b.len() == 0 {
        assert(a + b =~= a);
    } else {
        assert((a + b).drop_last() =~= a + b.drop_last());
        assert((a + b).last() == b.last());
        lemma_enabled_concat(c, a, b.drop_last());
        lemma_run_concat(c, a, b.drop_last());
    }
}

/// Two runs at node `n`, one after the other, are one run at node `n`.
proof fn lemma_runs_join(c: ClusterView, n: NodeId, a: Seq<ClusterEvent>, b: Seq<ClusterEvent>)
    requires
        local_run(c, n, a),
        local_run(c.run(a), n, b),
    ensures
        c.run(a + b) == c.run(a).run(b),
        local_run(c, n, a + b),
{
    lemma_run_concat(c, a, b);
    lemma_enabled_concat(c, a, b);
}

} // verus!
