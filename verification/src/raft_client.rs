//! The client of a consensus cluster: which request goes where, and how the
//! client follows the leader when a node forwards it.
use vstd::prelude::*;

verus! {

/// The body of a request that carries nothing.
#[derive(Clone, Copy, Debug, PartialEq, Eq, Structural)]
pub struct Empty;

/// The requests that a client makes.
#[derive(Clone, Copy, Debug, PartialEq, Eq, Structural)]
pub enum Endpoint {
    Write,
    Read,
    ConsistentRead,
    Init,
    AddLearner,
    ChangeMembership,
    Metrics,
}

impl Endpoint {
    /// The path of the request below the node's address.
    pub open spec fn spec_uri(self) -> Seq<char> {
        match self {
            Endpoint::Write => "api/write"@,
            Endpoint::Read => "api/read"@,
            Endpoint::ConsistentRead => "api/consistent_read"@,
            Endpoint::Init => "cluster/init"@,
            Endpoint::AddLearner => "cluster/add-learner"@,
            Endpoint::ChangeMembership => "cluster/change-membership"@,
            Endpoint::Metrics => "cluster/metrics"@,
        }
    }

    /// The path of the request below the node's address.
    pub fn uri(&self) -> (r: &'static str)
        ensures
            r@ == self.spec_uri(),
    {
        match self {
            Endpoint::Write => "api/write",
            Endpoint::Read => "api/read",
            Endpoint::ConsistentRead => "api/consistent_read",
            Endpoint::Init => "cluster/init",
            Endpoint::AddLearner => "cluster/add-learner",
            Endpoint::ChangeMembership => "cluster/change-membership",
            Endpoint::Metrics => "cluster/metrics",
        }
    }

    /// Whether the client sends the request again to the leader that a node
    /// forwards it to: it does for what changes the cluster.
    pub fn follows_leader(&self) -> (r: bool)
        ensures
            r == (*self == Endpoint::Write || *self == Endpoint::AddLearner || *self
                == Endpoint::ChangeMembership),
    {
        match self {
            Endpoint::Write | Endpoint::AddLearner | Endpoint::ChangeMembership => true,
            _ => false,
        }
    }

    /// Whether the request carries a body; one without is a plain fetch.
    pub fn has_body(&self) -> (r: bool)
        ensures
            r == (*self != Endpoint::Metrics),
    {
        match self {
            Endpoint::Metrics => false,
            _ => true,
        }
    }
}

/// A node's word that another node leads; either part may be missing.
#[derive(Debug)]
pub struct ForwardToLeader {
    pub leader_id: Option<u64>,
    pub leader_addr: Option<String>,
}

/// How a request failed.
#[derive(Debug)]
pub enum RpcFailure {
    /// The node could not be reached or its reply not be read.
    Network,
    /// The node answered with an error; `Some` where the error forwards
    /// the client to the leader.
    Remote(Option<ForwardToLeader>),
}

/// The number of times a request is sent at most.
pub const MAX_ATTEMPTS: u8 = 3;

/// The leader as the client knows it, and how often the request at hand may
/// still be sent.
#[derive(Debug)]
pub struct LeaderRetry {
    leader_id: u64,
    leader_addr: String,
    attempts_left: u8,
}

/// What a `LeaderRetry` holds.
pub struct LeaderRetryView {
    pub leader_id: u64,
    pub leader_addr: Seq<char>,
    pub attempts_left: u8,
}

/// The leader that a failure names, if it names one in full.
pub open spec fn forwarded(failure: RpcFailure) -> Option<(u64, Seq<char>)> {
    match failure {
        RpcFailure::Remote(Some(f)) => match (f.leader_id, f.leader_addr) {
            (Some(id), Some(addr)) => Some((id, addr@)),
            _ => None,
        },
        _ => None,
    }
}

impl LeaderRetryView {
    /// The state after a failure: where it names the leader in full, the
    /// client turns to that leader and one attempt is used up.
    pub open spec fn after(self, failure: RpcFailure) -> LeaderRetryView {
        match forwarded(failure) {
            Some((id, addr)) => LeaderRetryView {
                leader_id: id,
                leader_addr: addr,
                attempts_left: if self.attempts_left > 0 {
                    (self.attempts_left - 1) as u8
                } else {
                    0
                },
            },
            None => self,
        }
    }

    /// Whether the request is sent again after a failure: only where the
    /// failure names the leader in full and an attempt is left.
    pub open spec fn sends_again(self, failure: RpcFailure) -> bool {
        forwarded(failure) is Some && self.after(failure).attempts_left > 0
    }

    /// The state after the failures, one after the other.
    pub open spec fn after_all(self, failures: Seq<RpcFailure>) -> LeaderRetryView
        decreases failures.len(),
    {
        if failures.len() == 0 {
            self
        } else {
            self.after_all(failures.drop_last()).after(failures.last())
        }
    }
}

/// A request is sent three times at most: once it has failed three times,
/// each time forwarded to a leader, it is not sent again.
pub proof fn lemma_attempts_are_bounded(start: LeaderRetryView, failures: Seq<RpcFailure>)
    requires
        start.attempts_left == MAX_ATTEMPTS,
        failures.len() >= MAX_ATTEMPTS,
        forall|i: int| 0 <= i < failures.len() ==> forwarded(#[trigger] failures[i]) is Some,
    ensures
        start.after_all(failures).attempts_left == 0,
        !start.after_all(failures.drop_last()).sends_again(failures.last()),
{
    lemma_attempts_left(start, failures);
    lemma_attempts_left(start, failures.drop_last());
}

proof fn lemma_attempts_left(start: LeaderRetryView, failures: Seq<RpcFailure>)
    requires
        forall|i: int| 0 <= i < failures.len() ==> forwarded(#[trigger] failures[i]) is Some,
    ensures
        start.after_all(failures).attempts_left == if failures.len() <= start.attempts_left {
            start.attempts_left - failures.len()
        } else {
            0
        },
    decreases failures.len(),
{
    if failures.len() > 0 {
        let front = failures.drop_last();
        assert forall|i: int| 0 <= i < front.len() implies forwarded(#[trigger] front[i]) is Some by {
            assert(front[i] == failures[i]);
        }
        lemma_attempts_left(start, front);
        assert(forwarded(failures[failures.len() - 1]) is Some);
    }
}

impl View for LeaderRetry {
    type V = LeaderRetryView;

    closed spec fn view(&self) -> LeaderRetryView {
        LeaderRetryView {
            leader_id: self.leader_id,
            leader_addr: self.leader_addr@,
            attempts_left: self.attempts_left,
        }
    }
}

impl LeaderRetry {
    /// A request that is about to be sent to the leader for the first
    /// time.
    pub fn new(leader_id: u64, leader_addr: String) -> (r: LeaderRetry)
        ensures
            r@ == (LeaderRetryView {
                leader_id,
                leader_addr: leader_addr@,
                attempts_left: MAX_ATTEMPTS,
            }),
    {
        LeaderRetry { leader_id, leader_addr, attempts_left: MAX_ATTEMPTS }
    }

    /// The leader's identifier.
    pub fn leader_id(&self) -> (r: u64)
        ensures
            r == self@.leader_id,
    {
        self.leader_id
    }

    /// The leader's address.
    pub fn leader_addr(&self) -> (r: &String)
        ensures
            r@ == self@.leader_addr,
    {
        &self.leader_addr
    }

    /// The request failed. Where the failure forwards the client to a
    /// leader, naming its identifier and its address, the client turns to
    /// that leader and uses up an attempt. The result says whether to send
    /// the request again.
    pub fn on_failure(&mut self, failure: &RpcFailure) -> (again: bool)
        ensures
            final(self)@ == old(self)@.after(*failure),
            again == old(self)@.sends_again(*failure),
    {
        match failure {
            RpcFailure::Remote(Some(f)) => match (&f.leader_id, &f.leader_addr) {
                (Some(id), Some(addr)) => {
                    self.leader_id = *id;
                    self.leader_addr = addr.clone();
                    if self.attempts_left > 0 {
                        self.attempts_left = self.attempts_left - 1;
                    }
                    self.attempts_left > 0
                },
                _ => false,
            },
            _ => false,
        }
    }
}

} // verus!
