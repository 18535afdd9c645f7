//! Node identifiers, transaction identifiers and execution timestamps.
use vstd::prelude::*;

verus! {

/// Identifier of a node; stable for the lifetime of the cluster.
pub type NodeId = u64;

/// Identifier of a key of the replicated store.
pub type Key = u64;

/// A logical time paired with a node. Timestamps are totally ordered: by
/// logical time first, by node second.
#[derive(Clone, Copy, Debug, PartialEq, Eq, Structural)]
pub struct Timestamp {
    pub logical: u64,
    pub node: NodeId,
}

/// Identifier of a transaction: the value of the originating node's counter
/// when the transaction was born, and that node. It never changes.
#[derive(Clone, Copy, Debug, PartialEq, Eq, Structural)]
pub struct TxId {
    pub logical: u64,
    pub origin: NodeId,
}

impl Timestamp {
    /// Strict lexicographic order on `(logical, node)`.
    pub open spec fn spec_lt(self, other: Timestamp) -> bool {
        self.logical < other.logical || (self.logical == other.logical && self.node < other.node)
    }

    /// Lexicographic order on `(logical, node)`.
    pub open spec fn spec_le(self, other: Timestamp) -> bool {
        self == other || self.spec_lt(other)
    }

    /// The later of two timestamps.
    pub open spec fn spec_max(self, other: Timestamp) -> Timestamp {
        if self.spec_lt(other) {
            other
        } else {
            self
        }
    }

    /// `self` is ordered strictly before `other`.
    pub fn lt(&self, other: &Timestamp) -> (r: bool)
        ensures
            r == self.spec_lt(*other),
    {
        self.logical < other.logical || (self.logical == other.logical && self.node < other.node)
    }

    /// `self` is ordered before `other` or equal to it.
    pub fn le(&self, other: &Timestamp) -> (r: bool)
        ensures
            r == self.spec_le(*other),
    {
        !other.lt(self)
    }

    /// The later of two timestamps.
    pub fn max(self, other: Timestamp) -> (r: Timestamp)
        ensures
            r == self.spec_max(other),
    {
        if self.lt(&other) {
            other
        } else {
            self
        }
    }
}

impl TxId {
    /// Strict lexicographic order on `(logical, origin)`.
    pub open spec fn spec_lt(self, other: TxId) -> bool {
        self.logical < other.logical || (self.logical == other.logical && self.origin
            < other.origin)
    }

    /// The time of the transaction's birth: its identifier read as a
    /// timestamp.
    pub open spec fn spec_t0(self) -> Timestamp {
        Timestamp { logical: self.logical, node: self.origin }
    }

    /// `self` is ordered strictly before `other`.
    pub fn lt(&self, other: &TxId) -> (r: bool)
        ensures
            r == self.spec_lt(*other),
    {
        self.logical < other.logical || (self.logical == other.logical && self.origin
            < other.origin)
    }

    /// The time of the transaction's birth.
    pub fn t0(&self) -> (r: Timestamp)
        ensures
            r == self.spec_t0(),
    {
        Timestamp { logical: self.logical, node: self.origin }
    }
}

/// The order on timestamps is total: of two timestamps exactly one of
/// "before", "equal" and "after" holds, and "before" is transitive.
pub proof fn lemma_timestamp_total_order(a: Timestamp, b: Timestamp, c: Timestamp)
    ensures
        a.spec_lt(b) || a == b || b.spec_lt(a),
        !(a.spec_lt(b) && b.spec_lt(a)),
        !a.spec_lt(a),
        a.spec_lt(b) && b.spec_lt(c) ==> a.spec_lt(c),
        a.spec_le(b) && b.spec_le(c) ==> a.spec_le(c),
        a.spec_le(a.spec_max(b)) && b.spec_le(a.spec_max(b)),
{
}

/// The order on transaction identifiers is total.
pub proof fn lemma_txid_total_order(a: TxId, b: TxId, c: TxId)
    ensures
        a.spec_lt(b) || a == b || b.spec_lt(a),
        !(a.spec_lt(b) && b.spec_lt(a)),
        a.spec_lt(b) && b.spec_lt(c) ==> a.spec_lt(c),
{
}

} // verus!
