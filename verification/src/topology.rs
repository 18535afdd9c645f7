//! The members of the cluster as one node sees them, and the sizes of the
//! quorums that its coordinator waits for.
use crate::timestamp::NodeId;
use vstd::prelude::*;

verus! {

/// The fast-path quorum of `n` replicas: three quarters of them, rounded up.
pub open spec fn spec_fast_quorum_size(n: nat) -> nat {
    (3 * n + 3) / 4
}

/// The slow-path quorum of `n` replicas: a simple majority.
pub open spec fn spec_slow_quorum_size(n: nat) -> nat {
    n / 2 + 1
}

/// The fast-path quorum of `n` replicas.
pub fn fast_quorum_size(n: usize) -> (r: usize)
    ensures
        r == spec_fast_quorum_size(n as nat),
{
    n - n / 4
}

/// The slow-path quorum of `n` replicas.
pub fn slow_quorum_size(n: usize) -> (r: usize)
    ensures
        r == spec_slow_quorum_size(n as nat),
{
    n / 2 + 1
}

/// How the two quorum sizes relate. Both lie between one and the number of
/// replicas; the slow quorum is never the larger; two slow quorums share a
/// replica, and so do a slow and a fast one. The fast quorum is strictly
/// larger from three replicas on, four excepted, and two fast quorums share
/// at least a slow quorum unless the number of replicas is a multiple of
/// four.
pub proof fn lemma_quorum_sizes(n: nat)
    requires
        n >= 1,
    ensures
        1 <= spec_slow_quorum_size(n) <= spec_fast_quorum_size(n) <= n,
        2 * spec_slow_quorum_size(n) > n,
        spec_slow_quorum_size(n) + spec_fast_quorum_size(n) > n,
        n >= 3 && n != 4 ==> spec_fast_quorum_size(n) > spec_slow_quorum_size(n),
        n % 4 != 0 ==> 2 * spec_fast_quorum_size(n) - n >= spec_slow_quorum_size(n),
{
}

/// What a topology holds.
pub struct TopologyView {
    pub node: NodeId,
    pub peers: Seq<NodeId>,
    pub fast_quorum: nat,
    pub slow_quorum: nat,
}

impl TopologyView {
    /// The number of replicas that answer the node: its peers. A broadcast
    /// reaches them and not the node itself.
    pub open spec fn size(self) -> nat {
        self.peers.len()
    }

    /// The node is no peer of itself, and each quorum needs at least one
    /// replica and at most all.
    pub open spec fn valid(self) -> bool {
        &&& !self.peers.contains(self.node)
        &&& 1 <= self.fast_quorum <= self.size()
        &&& 1 <= self.slow_quorum <= self.size()
    }
}

/// A snapshot of the cluster: the node, its peers, and the quorum sizes.
#[derive(Debug)]
pub struct Topology {
    node: NodeId,
    peers: Vec<NodeId>,
    fast_quorum: usize,
    slow_quorum: usize,
}

impl View for Topology {
    type V = TopologyView;

    closed spec fn view(&self) -> TopologyView {
        TopologyView {
            node: self.node,
            peers: self.peers@,
            fast_quorum: self.fast_quorum as nat,
            slow_quorum: self.slow_quorum as nat,
        }
    }
}

/// Whether `node` is one of `peers`.
pub fn is_peer(peers: &Vec<NodeId>, node: NodeId) -> (r: bool)
    ensures
        r == peers@.contains(node),
{
    let mut i: usize = 0;
    while i < peers.len()
        invariant
            i <= peers.len(),
            forall|j: int| 0 <= j < i ==> peers@[j] != node,
        decreases peers.len() - i,
    {
        if peers[i] == node {
            return true;
        }
        i += 1;
    }
    false
}

impl Topology {
    #[verifier::type_invariant]
    spec fn well_formed(self) -> bool {
        self@.valid()
    }

    /// A topology with the given quorum sizes; `None` where the node is
    /// among its peers or a quorum size is zero or more than the number of
    /// replicas.
    pub fn new(node: NodeId, peers: Vec<NodeId>, fast_quorum: usize, slow_quorum: usize) -> (r:
        Option<Topology>)
        ensures
            r is Some <==> (TopologyView {
                node,
                peers: peers@,
                fast_quorum: fast_quorum as nat,
                slow_quorum: slow_quorum as nat,
            }).valid(),
            r matches Some(t) ==> t@ == (TopologyView {
                node,
                peers: peers@,
                fast_quorum: fast_quorum as nat,
                slow_quorum: slow_quorum as nat,
            }),
    {
        if is_peer(&peers, node) {
            return None;
        }
        let n = peers.len();
        if fast_quorum < 1 || slow_quorum < 1 || fast_quorum > n || slow_quorum > n {
            return None;
        }
        Some(Topology { node, peers, fast_quorum, slow_quorum })
    }

    /// A topology whose quorums are three quarters and a simple majority
    /// of the replicas that answer the node; `None` where the node is among
    /// its peers or has none.
    pub fn with_standard_quorums(node: NodeId, peers: Vec<NodeId>) -> (r: Option<Topology>)
        ensures
            r is Some <==> !peers@.contains(node) && peers@.len() > 0,
            r matches Some(t) ==> t@ == (TopologyView {
                node,
                peers: peers@,
                fast_quorum: spec_fast_quorum_size(peers@.len()),
                slow_quorum: spec_slow_quorum_size(peers@.len()),
            }) && t@.valid(),
    {
        if is_peer(&peers, node) {
            return None;
        }
        if peers.len() == 0 {
            return None;
        }
        let n = peers.len();
        proof {
            lemma_quorum_sizes(n as nat);
        }
        Some(
            Topology {
                node,
                peers,
                fast_quorum: fast_quorum_size(n),
                slow_quorum: slow_quorum_size(n),
            },
        )
    }

    /// The node that holds this topology.
    pub fn node(&self) -> (r: NodeId)
        ensures
            r == self@.node,
    {
        self.node
    }

    /// The other nodes.
    pub fn peers(&self) -> (r: &Vec<NodeId>)
        ensures
            r@ == self@.peers,
    {
        &self.peers
    }

    /// The size of the fast-path quorum: at least one replica, at most
    /// all.
    pub fn fast_quorum(&self) -> (r: usize)
        ensures
            r == self@.fast_quorum,
            self@.valid(),
    {
        proof {
            use_type_invariant(self);
        }
        self.fast_quorum
    }

    /// The size of the slow-path quorum: at least one replica, at most
    /// all.
    pub fn slow_quorum(&self) -> (r: usize)
        ensures
            r == self@.slow_quorum,
            self@.valid(),
    {
        proof {
            use_type_invariant(self);
        }
        self.slow_quorum
    }
}

} // verus!
