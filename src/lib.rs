use vstd::prelude::*;

pub mod graph;
pub mod graph_helper;

verus! {

/// Index of a node in the node sequence.
pub type NodeId = usize;

/// Index of an edge in the edge sequence.
pub type EdgeId = usize;

/// A directed, weighted edge of the road network.
#[derive(Clone, Copy, Debug, PartialEq, Eq)]
pub struct Way {
    pub source: NodeId,
    pub target: NodeId,
    pub weight: usize,
    pub kind: usize,
}

/// The ids `lo, lo + 1, ..., hi - 1`; empty where `hi <= lo`.
pub open spec fn id_range(lo: int, hi: int) -> Seq<usize> {
    Seq::new(if lo < hi { (hi - lo) as nat } else { 0 }, |i: int| (lo + i) as usize)
}

/// Every element is smaller than every later one.
pub open spec fn strictly_ascending(s: Seq<usize>) -> bool {
    forall|i: int, j: int| 0 <= i < j < s.len() ==> s[i] < s[j]
}

} // verus!
