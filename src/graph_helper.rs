use vstd::prelude::*;
use crate::{EdgeId, NodeId, Way, id_range, strictly_ascending};

verus! {

/// Ids of the edges that leave `node` in a forward offset array.
pub open spec fn up_ids(node: int, up_offset: Seq<usize>) -> Seq<usize> {
    id_range(up_offset[node] as int, up_offset[node + 1] as int)
}

/// Ids of the edges that enter `node`, through a reverse offset array and its index map.
pub open spec fn down_ids(node: int, down_offset: Seq<usize>, down_index: Seq<usize>) -> Seq<usize> {
    id_range(down_offset[node] as int, down_offset[node + 1] as int).map_values(
        |x: usize| down_index[x as int],
    )
}

/// `node` has a range in the forward offset array.
pub open spec fn up_ok(node: int, up_offset: Seq<usize>) -> bool {
    0 <= node && node + 1 < up_offset.len()
}

/// `node` has a range in the reverse offset array, and the range lies inside the index map.
pub open spec fn down_ok(node: int, down_offset: Seq<usize>, down_index: Seq<usize>) -> bool {
    &&& 0 <= node && node + 1 < down_offset.len()
    &&& down_offset[node] < down_offset[node + 1] ==> down_offset[node + 1] <= down_index.len()
}

/// Every id names an edge.
pub open spec fn ids_in(ids: Seq<usize>, len: int) -> bool {
    forall|i: int| 0 <= i < ids.len() ==> ids[i] < len
}

/// The targets of the edges with the given ids.
pub open spec fn targets_of(ids: Seq<usize>, edges: Seq<Way>) -> Seq<usize> {
    ids.map_values(|e: usize| edges[e as int].target)
}

/// The sources of the edges with the given ids.
pub open spec fn sources_of(ids: Seq<usize>, edges: Seq<Way>) -> Seq<usize> {
    ids.map_values(|e: usize| edges[e as int].source)
}

/// `r` holds each value of `s` once, in ascending order, and nothing else.
pub open spec fn sorted_distinct_of(r: Seq<usize>, s: Seq<usize>) -> bool {
    &&& strictly_ascending(r)
    &&& forall|x: usize| r.contains(x) <==> s.contains(x)
}

/// The edges with the given ids, in the order of the ids.
pub fn get_edges_from_id(ids: Vec<EdgeId>, edges: &Vec<Way>) -> (r: Vec<Way>)
    requires
        ids_in(ids@, edges@.len() as int),
    ensures
        r@ == ids@.map_values(|e: usize| edges@[e as int]),
{
    let mut r: Vec<Way> = Vec::with_capacity(ids.len());
    let mut i: usize = 0;
    while i < ids.len()
        invariant
            i <= ids@.len(),
            ids_in(ids@, edges@.len() as int),
            r@ == ids@.subrange(0, i as int).map_values(|e: usize| edges@[e as int]),
        decreases ids@.len() - i,
    {
        r.push(edges[ids[i]]);
        i = i + 1;
        assert(ids@.subrange(0, i as int) == ids@.subrange(0, i - 1).push(ids@[i - 1]));
    }
    assert(ids@.subrange(0, i as int) == ids@);
    r
}

/// The ids of the edges that leave `node`.
pub fn get_up_edge_ids(node: NodeId, up_offset: &Vec<EdgeId>) -> (r: Vec<EdgeId>)
    requires
        up_ok(node as int, up_offset@),
    ensures
        r@ == up_ids(node as int, up_offset@),
{
    let _len = up_offset.len();
    let lo = up_offset[node];
    let hi = up_offset[node + 1];
    let mut r: Vec<EdgeId> = Vec::new();
    if lo < hi {
        let mut i: usize = lo;
        while i < hi
            invariant
                lo <= i <= hi,
                r@ == id_range(lo as int, i as int),
            decreases hi - i,
        {
            r.push(i);
            i = i + 1;
            assert(r@ == id_range(lo as int, i as int));
        }
    } else {
        assert(r@ == id_range(lo as int, hi as int));
    }
    r
}

/// The ids of the edges that enter `node`, read through the reverse index map.
pub fn get_down_edge_ids(node: NodeId, down_offset: &Vec<EdgeId>, down_index: &Vec<EdgeId>) -> (r:
    Vec<EdgeId>)
    requires
        down_ok(node as int, down_offset@, down_index@),
    ensures
        r@ == down_ids(node as int, down_offset@, down_index@),
{
    let _len = down_offset.len();
    let lo = down_offset[node];
    let hi = down_offset[node + 1];
    let mut r: Vec<EdgeId> = Vec::new();
    if lo < hi {
        let mut i: usize = lo;
        while i < hi
            invariant
                lo <= i <= hi,
                hi <= down_index@.len(),
                r@ == id_range(lo as int, i as int).map_values(|x: usize| down_index@[x as int]),
            decreases hi - i,
        {
            r.push(down_index[i]);
            i = i + 1;
            assert(r@ == id_range(lo as int, i as int).map_values(|x: usize| down_index@[x as int]));
        }
    } else {
        assert(r@ == id_range(lo as int, hi as int).map_values(|x: usize| down_index@[x as int]));
    }
    r
}

/// The ids of the edges that leave `node` and of those that enter it.
pub fn get_edge_ids(
    node: NodeId,
    up_offset: &Vec<EdgeId>,
    down_offset: &Vec<EdgeId>,
    down_index: &Vec<EdgeId>,
) -> (r: (Vec<EdgeId>, Vec<EdgeId>))
    requires
        up_ok(node as int, up_offset@),
        down_ok(node as int, down_offset@, down_index@),
    ensures
        r.0@ == up_ids(node as int, up_offset@),
        r.1@ == down_ids(node as int, down_offset@, down_index@),
{
    let outgoing = get_up_edge_ids(node, up_offset);
    let incoming = get_down_edge_ids(node, down_offset, down_index);
    (outgoing, incoming)
}

/// The ids of the edges that leave `node`, followed by those that enter it.
pub fn get_all_edge_ids(
    node: NodeId,
    up_offset: &Vec<EdgeId>,
    down_offset: &Vec<EdgeId>,
    down_index: &Vec<EdgeId>,
) -> (r: Vec<EdgeId>)
    requires
        up_ok(node as int, up_offset@),
        down_ok(node as int, down_offset@, down_index@),
    ensures
        r@ == up_ids(node as int, up_offset@) + down_ids(node as int, down_offset@, down_index@),
{
    let (outgoing, incoming) = get_edge_ids(node, up_offset, down_offset, down_index);
    let mut connected = outgoing;
    let mut incoming = incoming;
    connected.append(&mut incoming);
    connected
}

/// Adds `x` to an ascending sequence of distinct values, unless it is there already.
fn insert_sorted(v: &mut Vec<usize>, x: usize)
    requires
        strictly_ascending(old(v)@),
    ensures
        strictly_ascending(final(v)@),
        forall|y: usize| final(v)@.contains(y) <==> (old(v)@.contains(y) || y == x),
{
    let mut i: usize = 0;
    while i < v.len() && v[i] < x
        invariant
            i <= v@.len(),
            forall|k: int| 0 <= k < i ==> v@[k] < x,
        decreases v@.len() - i,
    {
        i = i + 1;
    }
    if i < v.len() && v[i] == x {
        assert(v@[i as int] == x);
        return;
    }
    let ghost before = v@;
    v.insert(i, x);
    proof {
        let after = v@;
        assert(after.len() == before.len() + 1);
        assert forall|j: int| 0 <= j < after.len() implies after[j] == (if j < i {
            before[j]
        } else if j == i {
            x
        } else {
            before[j - 1]
        }) by {}
        assert forall|y: usize| after.contains(y) <==> (before.contains(y) || y == x) by {
            if after.contains(y) {
                let j = choose|j: int| 0 <= j < after.len() && after[j] == y;
                if j < i {
                    assert(before[j] == y);
                } else if j > i {
                    assert(before[j - 1] == y);
                }
            }
            if before.contains(y) {
                let j = choose|j: int| 0 <= j < before.len() && before[j] == y;
                if j < i {
                    assert(after[j] == y);
                } else {
                    assert(after[j + 1] == y);
                }
            }
            if y == x {
                assert(after[i as int] == x);
            }
        }
    }
}

/// The targets of the edges that leave `node`, each once, in ascending order.
pub fn get_up_neighbors(node: NodeId, edges: &Vec<Way>, up_offset: &Vec<EdgeId>) -> (r: Vec<NodeId>)
    requires
        up_ok(node as int, up_offset@),
        ids_in(up_ids(node as int, up_offset@), edges@.len() as int),
    ensures
        sorted_distinct_of(r@, targets_of(up_ids(node as int, up_offset@), edges@)),
{
    let next = get_up_edge_ids(node, up_offset);
    let mut r: Vec<NodeId> = Vec::new();
    let mut i: usize = 0;
    while i < next.len()
        invariant
            i <= next@.len(),
            ids_in(next@, edges@.len() as int),
            sorted_distinct_of(r@, targets_of(next@.subrange(0, i as int), edges@)),
        decreases next@.len() - i,
    {
        let t = edges[next[i]].target;
        insert_sorted(&mut r, t);
        proof {
            let s0 = targets_of(next@.subrange(0, i as int), edges@);
            let s1 = targets_of(next@.subrange(0, i + 1), edges@);
            assert(s1 == s0.push(t));
            assert forall|x: usize| s1.contains(x) <==> (s0.contains(x) || x == t) by {
                if s1.contains(x) {
                    let j = choose|j: int| 0 <= j < s1.len() && s1[j] == x;
                    if j < s0.len() {
                        assert(s0[j] == x);
                    }
                }
                if s0.contains(x) {
                    let j = choose|j: int| 0 <= j < s0.len() && s0[j] == x;
                    assert(s1[j] == x);
                }
                if x == t {
                    assert(s1[s0.len() as int] == x);
                }
            }
        }
        i = i + 1;
    }
    assert(next@.subrange(0, i as int) == next@);
    r
}

/// The sources of the edges that enter `node`, each once, in ascending order.
pub fn get_down_neighbors(
    node: NodeId,
    edges: &Vec<Way>,
    down_offset: &Vec<EdgeId>,
    down_index: &Vec<EdgeId>,
) -> (r: Vec<NodeId>)
    requires
        down_ok(node as int, down_offset@, down_index@),
        ids_in(down_ids(node as int, down_offset@, down_index@), edges@.len() as int),
    ensures
        sorted_distinct_of(r@, sources_of(down_ids(node as int, down_offset@, down_index@), edges@)),
{
    let prev = get_down_edge_ids(node, down_offset, down_index);
    let mut r: Vec<NodeId> = Vec::new();
    let mut i: usize = 0;
    while i < prev.len()
        invariant
            i <= prev@.len(),
            ids_in(prev@, edges@.len() as int),
            sorted_distinct_of(r@, sources_of(prev@.subrange(0, i as int), edges@)),
        decreases prev@.len() - i,
    {
        let t = edges[prev[i]].source;
        insert_sorted(&mut r, t);
        proof {
            let s0 = sources_of(prev@.subrange(0, i as int), edges@);
            let s1 = sources_of(prev@.subrange(0, i + 1), edges@);
            assert(s1 == s0.push(t));
            assert forall|x: usize| s1.contains(x) <==> (s0.contains(x) || x == t) by {
                if s1.contains(x) {
                    let j = choose|j: int| 0 <= j < s1.len() && s1[j] == x;
                    if j < s0.len() {
                        assert(s0[j] == x);
                    }
                }
                if s0.contains(x) {
                    let j = choose|j: int| 0 <= j < s0.len() && s0[j] == x;
                    assert(s1[j] == x);
                }
                if x == t {
                    assert(s1[s0.len() as int] == x);
                }
            }
        }
        i = i + 1;
    }
    assert(prev@.subrange(0, i as int) == prev@);
    r
}

/// The neighbours that `node` reaches by one edge, and those that reach it by one.
pub fn get_neighbours(
    node: NodeId,
    edges: &Vec<Way>,
    up_offset: &Vec<EdgeId>,
    down_offset: &Vec<EdgeId>,
    down_index: &Vec<EdgeId>,
) -> (r: (Vec<NodeId>, Vec<NodeId>))
    requires
        up_ok(node as int, up_offset@),
        ids_in(up_ids(node as int, up_offset@), edges@.len() as int),
        down_ok(node as int, down_offset@, down_index@),
        ids_in(down_ids(node as int, down_offset@, down_index@), edges@.len() as int),
    ensures
        sorted_distinct_of(r.0@, targets_of(up_ids(node as int, up_offset@), edges@)),
        sorted_distinct_of(r.1@, sources_of(down_ids(node as int, down_offset@, down_index@), edges@)),
{
    let targets = get_up_neighbors(node, edges, up_offset);
    let sources = get_down_neighbors(node, edges, down_offset, down_index);
    (targets, sources)
}

/// The neighbours that `node` reaches by one edge, followed by those that reach it by one.
pub fn get_all_neighbours(
    node: NodeId,
    edges: &Vec<Way>,
    up_offset: &Vec<EdgeId>,
    down_offset: &Vec<EdgeId>,
    down_index: &Vec<EdgeId>,
) -> (r: Vec<NodeId>)
    requires
        up_ok(node as int, up_offset@),
        ids_in(up_ids(node as int, up_offset@), edges@.len() as int),
        down_ok(node as int, down_offset@, down_index@),
        ids_in(down_ids(node as int, down_offset@, down_index@), edges@.len() as int),
    ensures
        exists|t: Seq<usize>, s: Seq<usize>|
            {
                &&& sorted_distinct_of(t, targets_of(up_ids(node as int, up_offset@), edges@))
                &&& sorted_distinct_of(s, sources_of(down_ids(node as int, down_offset@, down_index@), edges@))
                &&& r@ == t + s
            },
{
    let (targets, sources) = get_neighbours(node, edges, up_offset, down_offset, down_index);
    let ghost t = targets@;
    let ghost s = sources@;
    let mut neighbours = targets;
    let mut sources = sources;
    neighbours.append(&mut sources);
    assert(neighbours@ == t + s);
    neighbours
}

} // verus!
