use vstd::prelude::*;
use crate::{NodeId, Way};

verus! {

/// Marks a node that no edge has reached yet.
pub const UNREACHED: usize = usize::MAX;

/// The offset array has one entry per node and one more, starts at 0, ends at the
/// number of edges, and never decreases.
pub open spec fn offsets_ok(n: int, m: int, offset: Seq<usize>) -> bool {
    &&& offset.len() == n + 1
    &&& offset[0] == 0
    &&& offset[n] == m
    &&& forall|v: int| 0 <= v < n ==> offset[v] <= #[trigger] offset[v + 1] <= m
}

/// Each edge in the range of node `v` leaves `v` and ends at a node.
pub open spec fn endpoints_ok(n: int, ways: Seq<Way>, offset: Seq<usize>) -> bool {
    forall|v: int, e: int|
        #![trigger ways[e], offset[v]]
        0 <= v < n && offset[v] <= e < offset[v + 1] ==> ways[e].source == v && ways[e].target < n
}

/// Edge `e` leaves node `v` and ends at one of the `n` nodes.
pub open spec fn edge_fits(ways: Seq<Way>, e: int, v: int, n: int) -> bool {
    ways[e].source == v && ways[e].target < n
}

/// Nodes, edges and offsets form a compressed adjacency structure.
pub open spec fn valid_graph(n: int, ways: Seq<Way>, offset: Seq<usize>) -> bool {
    offsets_ok(n, ways.len() as int, offset) && endpoints_ok(n, ways, offset)
}

/// `path` walks along `edges`, one edge per step.
pub open spec fn is_route(ways: Seq<Way>, path: Seq<usize>, edges: Seq<usize>) -> bool {
    &&& path.len() == edges.len() + 1
    &&& forall|i: int|
        0 <= i < edges.len() ==> {
            &&& #[trigger] edges[i] < ways.len()
            &&& ways[edges[i] as int].source == path[i]
            &&& ways[edges[i] as int].target == path[i + 1]
        }
}

/// The summed weights of the edges.
pub open spec fn route_cost(ways: Seq<Way>, edges: Seq<usize>) -> int
    decreases edges.len(),
{
    if edges.len() == 0 {
        0
    } else {
        ways[edges[0] as int].weight + route_cost(ways, edges.drop_first())
    }
}

/// `path` goes from `s` to `d` over existing edges whose weights sum to `cost`.
pub open spec fn is_path_with_cost(ways: Seq<Way>, path: Seq<usize>, s: int, d: int, cost: int) -> bool {
    exists|edges: Seq<usize>|
        {
            &&& is_route(ways, path, edges)
            &&& path[0] == s
            &&& path.last() == d
            &&& route_cost(ways, edges) == cost
        }
}

/// Why a graph could not be built.
#[derive(Clone, Copy, Debug, PartialEq, Eq)]
pub enum ConstructionError {
    /// The offset array does not fit the node and edge counts.
    BadOffsets,
    /// An edge lies in the range of a node it does not leave, or ends outside the nodes.
    BadEndpoint,
}

/// A road network: nodes carrying coordinates of type `N`, and directed weighted
/// edges grouped by source through an offset array.
pub struct Graph<N> {
    nodes: Vec<N>,
    ways: Vec<Way>,
    offset: Vec<usize>,
}

impl<N> Graph<N> {
    /// The nodes, in index order.
    pub closed spec fn nodes_view(&self) -> Seq<N> {
        self.nodes@
    }

    /// The edges, grouped by source.
    pub closed spec fn ways_view(&self) -> Seq<Way> {
        self.ways@
    }

    /// Where each node's outgoing edges start in the edge sequence.
    pub closed spec fn offset_view(&self) -> Seq<usize> {
        self.offset@
    }

    /// The graph's arrays form a compressed adjacency structure.
    pub open spec fn well_formed(&self) -> bool {
        valid_graph(self.nodes_view().len() as int, self.ways_view(), self.offset_view())
    }

    /// Builds a graph, after checking that the offsets and edge endpoints fit the nodes.
    pub fn new(nodes: Vec<N>, ways: Vec<Way>, offset: Vec<usize>) -> (r: Result<Self, ConstructionError>)
        ensures
            r is Ok <==> valid_graph(nodes@.len() as int, ways@, offset@),
            r matches Ok(g) ==> g.nodes_view() == nodes@ && g.ways_view() == ways@
                && g.offset_view() == offset@,
            r == Err::<Self, ConstructionError>(ConstructionError::BadOffsets) <==> !offsets_ok(
                nodes@.len() as int,
                ways@.len() as int,
                offset@,
            ),
    {
        let n = nodes.len();
        let m = ways.len();
        if offset.len() == 0 || offset.len() - 1 != n || offset[0] != 0 || offset[n] != m {
            return Err(ConstructionError::BadOffsets);
        }
        let mut v: usize = 0;
        while v < n
            invariant
                v <= n,
                n == nodes@.len(),
                m == ways@.len(),
                offset@.len() == n + 1,
                forall|u: int| 0 <= u < v ==> offset@[u] <= #[trigger] offset@[u + 1] <= m,
            decreases n - v,
        {
            if offset[v] > offset[v + 1] || offset[v + 1] > m {
                assert(!(offset@[v as int] <= offset@[v + 1] <= m));
                return Err(ConstructionError::BadOffsets);
            }
            v = v + 1;
        }
        assert(offsets_ok(n as int, m as int, offset@));
        let mut v: usize = 0;
        while v < n
            invariant
                v <= n,
                n == nodes@.len(),
                offsets_ok(n as int, m as int, offset@),
                m == ways@.len(),
                forall|u: int, e: int|
                    #![trigger ways@[e], offset@[u]]
                    0 <= u < v && offset@[u] <= e < offset@[u + 1] ==> ways@[e].source == u
                        && ways@[e].target < n,
            decreases n - v,
        {
            let hi = offset[v + 1];
            let mut e: usize = offset[v];
            while e < hi
                invariant
                    v < n,
                    n == nodes@.len(),
                    offsets_ok(n as int, m as int, offset@),
                    offset@[v as int] <= e,
                    hi == offset@[v + 1],
                    hi <= m,
                    m == ways@.len(),
                    forall|k: int| offset@[v as int] <= k < e ==> edge_fits(ways@, k, v as int, n as int),
                decreases hi - e,
            {
                if ways[e].source != v || ways[e].target >= n {
                    assert(offset@[v as int] <= e < offset@[v + 1]);
                    assert(!(ways@[e as int].source == v && ways@[e as int].target < n));
                    assert(!endpoints_ok(n as int, ways@, offset@));
                    return Err(ConstructionError::BadEndpoint);
                }
                let ghost e0 = e as int;
                assert(ways@[e0].source == v && ways@[e0].target < n);
                e = e + 1;
                assert(edge_fits(ways@, e0, v as int, n as int));
            }
            assert forall|u: int, e: int|
                #![trigger ways@[e], offset@[u]]
                0 <= u < v + 1 && offset@[u] <= e < offset@[u + 1] implies ways@[e].source == u
                    && ways@[e].target < n by {
                if u == v {
                    assert(edge_fits(ways@, e, v as int, n as int));
                }
            }
            v = v + 1;
        }
        Ok(Graph { nodes, ways, offset })
    }

    /// The nodes, in index order.
    pub fn get_nodes(&self) -> (r: &Vec<N>)
        ensures
            r@ == self.nodes_view(),
    {
        &self.nodes
    }

    /// The half-open range of the ids of the edges that leave `node`.
    pub fn outgoing_range(&self, node: NodeId) -> (r: (usize, usize))
        requires
            self.well_formed(),
            node < self.nodes_view().len(),
        ensures
            r.0 == self.offset_view()[node as int],
            r.1 == self.offset_view()[node + 1],
            r.0 <= r.1 <= self.ways_view().len(),
    {
        let _len = self.offset.len();
        (self.offset[node], self.offset[node + 1])
    }

    /// Weight of the first edge from `source` to `target`, or `None` where there is
    /// no direct edge.
    pub fn get_edge_weight(&self, source: NodeId, target: NodeId) -> (r: Option<usize>)
        requires
            self.well_formed(),
            source < self.nodes_view().len(),
        ensures
            r is None <==> forall|e: int|
                self.offset_view()[source as int] <= e < self.offset_view()[source + 1]
                    ==> #[trigger] self.ways_view()[e].target != target,
            r matches Some(w) ==> exists|e: int|
                {
                    &&& self.offset_view()[source as int] <= e < self.offset_view()[source + 1]
                    &&& #[trigger] self.ways_view()[e].target == target
                    &&& self.ways_view()[e].weight == w
                    &&& forall|k: int|
                        self.offset_view()[source as int] <= k < e
                            ==> #[trigger] self.ways_view()[k].target != target
                },
    {
        let (first_edge, last_edge) = self.outgoing_range(source);
        let mut i: usize = first_edge;
        while i < last_edge
            invariant
                self.well_formed(),
                source < self.nodes@.len(),
                first_edge == self.offset@[source as int],
                last_edge == self.offset@[source + 1],
                first_edge <= i <= last_edge,
                forall|k: int| first_edge <= k < i ==> #[trigger] self.ways@[k].target != target,
            decreases last_edge - i,
        {
            if self.ways[i].target == target {
                return Some(self.ways[i].weight);
            }
            i = i + 1;
        }
        None
    }
}

impl<N> Graph<N> {
    /// Index of the closest node, given for each node a key that orders as its distance
    /// to the query point; ties go to the lowest index, and an empty graph gives 0.
    pub fn get_point_id(&self, distance_keys: &Vec<u32>) -> (r: NodeId)
        requires
            distance_keys@.len() == self.nodes_view().len(),
        ensures
            distance_keys@.len() == 0 ==> r == 0,
            distance_keys@.len() > 0 ==> is_first_min(distance_keys@, r as int),
    {
        let mut min_id: usize = 0;
        let mut i: usize = 1;
        if distance_keys.len() == 0 {
            return 0;
        }
        while i < distance_keys.len()
            invariant
                1 <= i <= distance_keys@.len(),
                min_id < i,
                forall|j: int| 0 <= j < i ==> distance_keys@[min_id as int] <= #[trigger] distance_keys@[j],
                forall|j: int| 0 <= j < min_id ==> distance_keys@[min_id as int] < #[trigger] distance_keys@[j],
            decreases distance_keys@.len() - i,
        {
            if distance_keys[i] < distance_keys[min_id] {
                min_id = i;
            }
            i = i + 1;
        }
        min_id
    }
}

/// `r` holds the smallest key, and no earlier index holds one as small.
pub open spec fn is_first_min(keys: Seq<u32>, r: int) -> bool {
    &&& 0 <= r < keys.len()
    &&& forall|j: int| 0 <= j < keys.len() ==> keys[r] <= #[trigger] keys[j]
    &&& forall|j: int| 0 <= j < r ==> keys[r] < #[trigger] keys[j]
}

/// A node at distance zero from the query point, with no earlier node at distance
/// zero, is the one chosen.
pub proof fn lemma_exact_node_is_chosen(keys: Seq<u32>, v: int, r: int)
    requires
        0 <= v < keys.len(),
        keys[v] == 0,
        forall|j: int| 0 <= j < v ==> #[trigger] keys[j] > 0,
        is_first_min(keys, r),
    ensures
        r == v,
{
    assert(keys[r] <= keys[v]);
    if r > v {
        assert(keys[r] < keys[v]);
    } else if r < v {
        assert(keys[r] > 0);
    }
}

impl<N: Copy> Graph<N> {
    /// The coordinates of the nodes along `path`, in order; `None` where an index
    /// names no node.
    pub fn get_coordinates(&self, path: Vec<NodeId>) -> (r: Option<Vec<N>>)
        ensures
            r is None <==> exists|i: int| 0 <= i < path@.len() && #[trigger] path@[i] >= self.nodes_view().len(),
            r matches Some(c) ==> c@ == path@.map_values(|v: usize| self.nodes_view()[v as int]),
    {
        let mut result: Vec<N> = Vec::with_capacity(path.len());
        let mut i: usize = 0;
        while i < path.len()
            invariant
                i <= path@.len(),
                forall|j: int| 0 <= j < i ==> #[trigger] path@[j] < self.nodes@.len(),
                result@ == path@.subrange(0, i as int).map_values(|v: usize| self.nodes@[v as int]),
            decreases path@.len() - i,
        {
            let v = path[i];
            if v >= self.nodes.len() {
                return None;
            }
            result.push(self.nodes[v]);
            i = i + 1;
            assert(path@.subrange(0, i as int) == path@.subrange(0, i - 1).push(v));
        }
        assert(path@.subrange(0, i as int) == path@);
        Some(result)
    }
}

/// Cost of travelling along `way` under the routing profile given by `kind` and
/// `use_distance`. No profile is differentiated yet: each uses the stored weight.
pub fn edge_cost(way: &Way, kind: usize, use_distance: bool) -> (r: usize)
    ensures
        r == way.weight,
{
    way.weight
}

/// Sum of the values.
spec fn total(s: Seq<usize>) -> int
    decreases s.len(),
{
    if s.len() == 0 {
        0
    } else {
        total(s.drop_last()) + s.last()
    }
}

proof fn lemma_total_update(s: Seq<usize>, i: int, x: usize)
    requires
        0 <= i < s.len(),
    ensures
        total(s.update(i, x)) == total(s) - s[i] + x,
    decreases s.len(),
{
    if i == s.len() - 1 {
        assert(s.update(i, x).drop_last() == s.drop_last());
    } else {
        lemma_total_update(s.drop_last(), i, x);
        assert(s.update(i, x).drop_last() == s.drop_last().update(i, x));
    }
}

proof fn lemma_total_nonneg(s: Seq<usize>)
    ensures
        total(s) >= 0,
    decreases s.len(),
{
    if s.len() > 0 {
        lemma_total_nonneg(s.drop_last());
    }
}

/// Every frontier entry names a node, costs less than `UNREACHED`, and costs at least
/// the node's recorded distance.
spec fn frontier_ok(frontier: Seq<(usize, usize)>, dist: Seq<usize>) -> bool {
    forall|x: (usize, usize)|
        #[trigger] frontier.contains(x) ==> x.1 < dist.len() && x.0 < UNREACHED && dist[x.1 as int] <= x.0
}

/// A reached node other than the start records the edge it was last reached by; the
/// edge's source plus its weight costs at most the node's distance, and strictly less
/// unless the source was stamped earlier.
spec fn pred_ok(
    ways: Seq<Way>,
    dist: Seq<usize>,
    pred: Seq<Option<usize>>,
    stamp: Seq<nat>,
    start: int,
    v: int,
) -> bool {
    v != start && dist[v] < UNREACHED ==> match pred[v] {
        Some(e) => {
            &&& e < ways.len()
            &&& ways[e as int].target == v
            &&& 0 <= ways[e as int].source < dist.len()
            &&& dist[ways[e as int].source as int] + ways[e as int].weight <= dist[v]
            &&& (dist[ways[e as int].source as int] + ways[e as int].weight < dist[v]
                || stamp[ways[e as int].source as int] < stamp[v])
        },
        None => false,
    }
}

/// What holds of the distance and predecessor tables throughout a search from `start`.
spec fn tables_ok(
    ways: Seq<Way>,
    n: int,
    start: int,
    dist: Seq<usize>,
    pred: Seq<Option<usize>>,
    stamp: Seq<nat>,
    clock: nat,
) -> bool {
    &&& dist.len() == n
    &&& pred.len() == n
    &&& stamp.len() == n
    &&& 0 <= start < n
    &&& dist[start] == 0
    &&& pred[start] is None
    &&& forall|v: int| 0 <= v < n ==> #[trigger] pred_ok(ways, dist, pred, stamp, start, v)
    &&& forall|v: int| 0 <= v < n ==> #[trigger] stamp[v] < clock
}

/// `path` goes from `s` to `d` along `edges`.
pub open spec fn is_route_between(ways: Seq<Way>, path: Seq<usize>, edges: Seq<usize>, s: int, d: int) -> bool {
    is_route(ways, path, edges) && path[0] == s && path.last() == d
}

/// Every edge that leaves `u` and whose cost from `u` stays below `UNREACHED` has
/// been relaxed: its target costs no more than through `u`.
spec fn relaxed(ways: Seq<Way>, dist: Seq<usize>, u: int) -> bool {
    forall|e: int|
        0 <= e < ways.len() && #[trigger] ways[e].source == u && dist[u] + ways[e].weight < UNREACHED
            ==> dist[ways[e].target as int] <= dist[u] + ways[e].weight
}

/// Settled nodes are reached and relaxed; reached nodes that are not settled wait in
/// the frontier at their distance.
spec fn progress_ok(
    ways: Seq<Way>,
    n: int,
    dist: Seq<usize>,
    settled: Seq<bool>,
    frontier: Seq<(usize, usize)>,
) -> bool {
    &&& settled.len() == n
    &&& forall|u: int| 0 <= u < n && #[trigger] settled[u] ==> dist[u] < UNREACHED && relaxed(ways, dist, u)
    &&& forall|u: int|
        0 <= u < n && dist[u] < UNREACHED && !settled[u] ==> #[trigger] frontier.contains((dist[u], u as usize))
}

proof fn lemma_route_cost_nonneg(ways: Seq<Way>, edges: Seq<usize>)
    ensures
        route_cost(ways, edges) >= 0,
    decreases edges.len(),
{
    if edges.len() > 0 {
        lemma_route_cost_nonneg(ways, edges.drop_first());
    }
}

proof fn lemma_in_some_range(n: int, m: int, offset: Seq<usize>, e: int, k: int)
    requires
        offsets_ok(n, m, offset),
        0 <= k < n,
        offset[k] <= e < m,
    ensures
        exists|v: int| k <= v < n && offset[v] <= e < #[trigger] offset[v + 1],
    decreases n - k,
{
    assert(offset[k] <= offset[k + 1] <= m);
    if e >= offset[k + 1] {
        lemma_in_some_range(n, m, offset, e, k + 1);
    }
}

/// In a valid graph an edge lies in the range of its own source.
proof fn lemma_edge_in_source_range(n: int, ways: Seq<Way>, offset: Seq<usize>, e: int)
    requires
        valid_graph(n, ways, offset),
        0 <= n,
        0 <= e < ways.len(),
    ensures
        0 <= ways[e].source < n,
        ways[e].target < n,
        offset[ways[e].source as int] <= e < offset[ways[e].source + 1],
{
    assert(n > 0) by {
        if n == 0 {
            assert(offset[n] == offset[0]);
        }
    }
    lemma_in_some_range(n, ways.len() as int, offset, e, 0);
    let v = choose|v: int| 0 <= v < n && offset[v] <= e < #[trigger] offset[v + 1];
    assert(edge_fits(ways, e, v, n));
}

/// While `end` is not settled, a route from a node reached at cost at most `base` to
/// `end` passes a frontier entry that costs at most `base` plus the route's cost.
proof fn lemma_frontier_bound(
    ways: Seq<Way>,
    n: int,
    offset: Seq<usize>,
    dist: Seq<usize>,
    settled: Seq<bool>,
    frontier: Seq<(usize, usize)>,
    end: int,
    path: Seq<usize>,
    edges: Seq<usize>,
    base: int,
)
    requires
        valid_graph(n, ways, offset),
        dist.len() == n,
        progress_ok(ways, n, dist, settled, frontier),
        0 <= end < n,
        !settled[end],
        is_route(ways, path, edges),
        0 <= path[0] < n,
        path.last() == end,
        dist[path[0] as int] <= base,
        base + route_cost(ways, edges) < UNREACHED,
    ensures
        exists|x: (usize, usize)| #[trigger] frontier.contains(x) && x.0 <= base + route_cost(ways, edges),
    decreases edges.len(),
{
    let u = path[0] as int;
    lemma_route_cost_nonneg(ways, edges);
    if !settled[u] {
        assert(frontier.contains((dist[u], u as usize)));
    } else {
        if edges.len() == 0 {
            assert(path.last() == path[0]);
        } else {
            let e = edges[0] as int;
            assert(edges[0] < ways.len() && ways[e].source == path[0] && ways[e].target == path[1]);
            lemma_edge_in_source_range(n, ways, offset, e);
            lemma_route_cost_nonneg(ways, edges.drop_first());
            assert(relaxed(ways, dist, u));
            assert(dist[ways[e].target as int] <= dist[u] + ways[e].weight);
            let rest_p = path.drop_first();
            let rest_e = edges.drop_first();
            assert(is_route(ways, rest_p, rest_e)) by {
                assert forall|i: int| 0 <= i < rest_e.len() implies {
                    &&& #[trigger] rest_e[i] < ways.len()
                    &&& ways[rest_e[i] as int].source == rest_p[i]
                    &&& ways[rest_e[i] as int].target == rest_p[i + 1]
                } by {
                    assert(rest_e[i] == edges[i + 1]);
                    assert(edges[i + 1] < ways.len());
                }
            }
            lemma_frontier_bound(
                ways,
                n,
                offset,
                dist,
                settled,
                frontier,
                end,
                rest_p,
                rest_e,
                base + ways[e].weight,
            );
        }
    }
}

/// What holds while the edges of `node`, reached at `cost`, are relaxed, the ids
/// from `lo` up to `e` done.
spec fn relax_state_ok(
    ways: Seq<Way>,
    n: int,
    start: int,
    end: int,
    node: int,
    cost: int,
    lo: int,
    e: int,
    dist: Seq<usize>,
    pred: Seq<Option<usize>>,
    stamp: Seq<nat>,
    clock: nat,
    frontier: Seq<(usize, usize)>,
    settled: Seq<bool>,
) -> bool {
    &&& tables_ok(ways, n, start, dist, pred, stamp, clock)
    &&& frontier_ok(frontier, dist)
    &&& settled.len() == n
    &&& 0 <= node < n
    &&& 0 <= end < n
    &&& !settled[node]
    &&& !settled[end]
    &&& dist[node] == cost
    &&& cost < UNREACHED
    &&& forall|u: int| 0 <= u < n && #[trigger] settled[u] ==> dist[u] < UNREACHED && relaxed(ways, dist, u)
    &&& forall|u: int|
        0 <= u < n && dist[u] < UNREACHED && !settled[u] && u != node ==> #[trigger] frontier.contains(
            (dist[u], u as usize),
        )
    &&& forall|k: int|
        lo <= k < e && cost + #[trigger] ways[k].weight < UNREACHED ==> dist[ways[k].target as int] <= cost
            + ways[k].weight
}

/// An edge whose target is left as it was keeps the relaxation state.
proof fn lemma_skip(
    ways: Seq<Way>,
    n: int,
    start: int,
    end: int,
    node: int,
    cost: int,
    lo: int,
    e: int,
    dist: Seq<usize>,
    pred: Seq<Option<usize>>,
    stamp: Seq<nat>,
    clock: nat,
    frontier: Seq<(usize, usize)>,
    settled: Seq<bool>,
)
    requires
        relax_state_ok(ways, n, start, end, node, cost, lo, e, dist, pred, stamp, clock, frontier, settled),
        0 <= e < ways.len(),
        0 <= ways[e].target < n,
        cost + ways[e].weight >= dist[ways[e].target as int],
    ensures
        relax_state_ok(ways, n, start, end, node, cost, lo, e + 1, dist, pred, stamp, clock, frontier, settled),
{
}

/// Lowering the distance of the target of edge `e` keeps the relaxation state.
proof fn lemma_relax(
    ways: Seq<Way>,
    n: int,
    start: int,
    end: int,
    node: int,
    cost: int,
    lo: int,
    e: int,
    c: usize,
    offset: Seq<usize>,
    dist: Seq<usize>,
    pred: Seq<Option<usize>>,
    stamp: Seq<nat>,
    clock: nat,
    frontier: Seq<(usize, usize)>,
    settled: Seq<bool>,
)
    requires
        relax_state_ok(ways, n, start, end, node, cost, lo, e, dist, pred, stamp, clock, frontier, settled),
        valid_graph(n, ways, offset),
        0 <= lo <= e < ways.len(),
        ways[e].source == node,
        0 <= ways[e].target < n,
        c == cost + ways[e].weight,
        c < dist[ways[e].target as int],
    ensures
        ({
            let v = ways[e].target as int;
            relax_state_ok(
                ways,
                n,
                start,
                end,
                node,
                cost,
                lo,
                e + 1,
                dist.update(v, c),
                pred.update(v, Some(e as usize)),
                stamp.update(v, clock),
                clock + 1,
                frontier.push((c, v as usize)),
                settled.update(v, false),
            )
        }),
{
    let v = ways[e].target as int;
    let d2 = dist.update(v, c);
    let p2 = pred.update(v, Some(e as usize));
    let s2 = stamp.update(v, clock);
    let f2 = frontier.push((c, v as usize));
    let t2 = settled.update(v, false);
    assert(v != node);
    assert(v != start);
    assert forall|x: int| 0 <= x < n implies #[trigger] pred_ok(ways, d2, p2, s2, start, x) by {
        assert(pred_ok(ways, dist, pred, stamp, start, x));
        assert(stamp[node] < clock);
        if x != v && x != start && dist[x] < UNREACHED {
            let f = pred[x]->0 as int;
            let u = ways[f].source as int;
            assert(p2[x] == pred[x]);
            assert(d2[x] == dist[x]);
            if u == v {
                assert(d2[u] + ways[f].weight < dist[x]);
            } else {
                assert(d2[u] == dist[u]);
                assert(s2[u] == stamp[u]);
            }
        }
    }
    assert forall|y: int| 0 <= y < n implies #[trigger] s2[y] < clock + 1 by {
        if y != v {
            assert(stamp[y] < clock);
        }
    }
    assert forall|x: (usize, usize)| #[trigger] f2.contains(x) implies x.1 < d2.len() && x.0 < UNREACHED
        && d2[x.1 as int] <= x.0 by {
        let k = choose|k: int| 0 <= k < f2.len() && f2[k] == x;
        if k < frontier.len() {
            assert(frontier[k] == x);
            assert(frontier.contains(x));
        }
    }
    assert forall|u: int| 0 <= u < n && #[trigger] t2[u] implies d2[u] < UNREACHED && relaxed(ways, d2, u) by {
        assert(settled[u]);
        assert(relaxed(ways, dist, u));
        assert forall|k: int|
            0 <= k < ways.len() && #[trigger] ways[k].source == u && d2[u] + ways[k].weight < UNREACHED
                implies d2[ways[k].target as int] <= d2[u] + ways[k].weight by {
            lemma_edge_in_source_range(n, ways, offset, k);
            assert(dist[ways[k].target as int] <= dist[u] + ways[k].weight);
        }
    }
    assert forall|u: int| 0 <= u < n && d2[u] < UNREACHED && !t2[u] && u != node implies #[trigger] f2.contains(
        (d2[u], u as usize),
    ) by {
        if u == v {
            assert(f2[frontier.len() as int] == (c, v as usize));
        } else {
            assert(frontier.contains((dist[u], u as usize)));
            let k = choose|k: int| 0 <= k < frontier.len() && frontier[k] == (dist[u], u as usize);
            assert(f2[k] == (d2[u], u as usize));
        }
    }
    assert forall|k: int| lo <= k < e + 1 && cost + #[trigger] ways[k].weight < UNREACHED implies d2[ways[k].target
        as int] <= cost + ways[k].weight by {
        if k < e {
            lemma_edge_in_source_range(n, ways, offset, k);
            assert(dist[ways[k].target as int] <= cost + ways[k].weight);
        }
    }
}

/// Removes and returns an entry of least cost.
fn pop_min(frontier: &mut Vec<(usize, usize)>) -> (r: (usize, usize))
    requires
        old(frontier)@.len() > 0,
    ensures
        final(frontier)@.len() == old(frontier)@.len() - 1,
        old(frontier)@.contains(r),
        forall|x: (usize, usize)| #[trigger] final(frontier)@.contains(x) ==> old(frontier)@.contains(x),
        forall|x: (usize, usize)|
            old(frontier)@.contains(x) && x != r ==> #[trigger] final(frontier)@.contains(x),
        forall|k: int| 0 <= k < old(frontier)@.len() ==> r.0 <= #[trigger] old(frontier)@[k].0,
        old(frontier)@.len() == 1 ==> r == old(frontier)@[0],
{
    let mut best: usize = 0;
    let mut i: usize = 1;
    while i < frontier.len()
        invariant
            1 <= i <= frontier@.len(),
            best < i,
            forall|k: int| 0 <= k < i ==> frontier@[best as int].0 <= #[trigger] frontier@[k].0,
        decreases frontier@.len() - i,
    {
        if frontier[i].0 < frontier[best].0 {
            best = i;
        }
        i = i + 1;
    }
    let ghost before = frontier@;
    let r = frontier.remove(best);
    proof {
        before.remove_ensures(best as int);
        assert forall|x: (usize, usize)| #[trigger] frontier@.contains(x) implies before.contains(x) by {
            let k = choose|k: int| 0 <= k < frontier@.len() && frontier@[k] == x;
            if k < best {
                assert(before[k] == x);
            } else {
                assert(before[k + 1] == x);
            }
        }
        assert(before[best as int] == r);
        assert forall|x: (usize, usize)| before.contains(x) && x != r implies #[trigger] frontier@.contains(x) by {
            let k = choose|k: int| 0 <= k < before.len() && before[k] == x;
            if k < best {
                assert(frontier@[k] == x);
            } else {
                assert(k != best);
                assert(frontier@[k - 1] == x);
            }
        }
    }
    r
}

impl<N> Graph<N> {
    /// Walks the predecessor edges back from `end` to `start`; returns the nodes from
    /// `start` to `end` and the summed weight of the edges walked.
    fn trace_back(
        &self,
        dist: &Vec<usize>,
        pred: &Vec<Option<usize>>,
        Ghost(stamp): Ghost<Seq<nat>>,
        Ghost(clock): Ghost<nat>,
        start: NodeId,
        end: NodeId,
    ) -> (r: (Vec<NodeId>, usize))
        requires
            tables_ok(self.ways_view(), self.nodes_view().len() as int, start as int, dist@, pred@, stamp, clock),
            end < self.nodes_view().len(),
            dist@[end as int] < UNREACHED,
        ensures
            is_path_with_cost(self.ways_view(), r.0@, start as int, end as int, r.1 as int),
            start == end ==> r.0@ == seq![start] && r.1 == 0,
            r.1 <= dist@[end as int],
    {
        let n = self.nodes.len();
        let mut rev: Vec<NodeId> = Vec::new();
        rev.push(end);
        let mut sum: usize = 0;
        let mut cur: usize = end;
        let ghost mut gp: Seq<usize> = seq![end];
        let ghost mut ge: Seq<usize> = Seq::empty();
        while cur != start
            invariant
                n == self.nodes@.len(),
                tables_ok(self.ways@, n as int, start as int, dist@, pred@, stamp, clock),
                cur < n,
                dist@[cur as int] < UNREACHED,
                sum + dist@[cur as int] <= dist@[end as int],
                dist@[end as int] < UNREACHED,
                is_route(self.ways@, gp, ge),
                gp[0] == cur,
                gp.last() == end,
                route_cost(self.ways@, ge) == sum,
                start == end ==> gp == seq![end] && sum == 0,
                rev@.len() == gp.len(),
                forall|i: int| 0 <= i < gp.len() ==> #[trigger] rev@[i] == gp[gp.len() - 1 - i],
            decreases dist@[cur as int], stamp[cur as int],
        {
            assert(pred_ok(self.ways@, dist@, pred@, stamp, start as int, cur as int));
            let e = match pred[cur] {
                Some(e) => e,
                None => {
                    assert(false);
                    0
                },
            };
            let u = self.ways[e].source;
            let w = self.ways[e].weight;
            sum = sum + w;
            rev.push(u);
            proof {
                let ge2 = seq![e] + ge;
                let gp2 = seq![u] + gp;
                assert(ge2.drop_first() == ge);
                assert forall|i: int| 0 <= i < ge2.len() implies {
                    &&& #[trigger] ge2[i] < self.ways@.len()
                    &&& self.ways@[ge2[i] as int].source == gp2[i]
                    &&& self.ways@[ge2[i] as int].target == gp2[i + 1]
                } by {
                    if i > 0 {
                        assert(ge2[i] == ge[i - 1]);
                        assert(gp2[i] == gp[i - 1]);
                        assert(gp2[i + 1] == gp[i]);
                    }
                }
                assert(gp2.last() == gp.last());
                ge = ge2;
                gp = gp2;
                assert forall|i: int| 0 <= i < gp.len() implies #[trigger] rev@[i] == gp[gp.len() - 1 - i] by {
                    if i < gp.len() - 1 {
                        assert(gp[gp.len() - 1 - i] == gp[gp.len() - 2 - i + 1]);
                    }
                }
            }
            cur = u;
        }
        let mut path: Vec<NodeId> = Vec::new();
        let mut j: usize = rev.len();
        while j > 0
            invariant
                j <= rev@.len(),
                rev@.len() == gp.len(),
                forall|i: int| 0 <= i < gp.len() ==> #[trigger] rev@[i] == gp[gp.len() - 1 - i],
                path@ == gp.subrange(0, gp.len() - j),
            decreases j,
        {
            j = j - 1;
            path.push(rev[j]);
            assert(path@ == gp.subrange(0, gp.len() - j));
        }
        assert(path@ == gp);
        assert(is_route(self.ways@, path@, ge) && path@[0] == start && path@.last() == end
            && route_cost(self.ways@, ge) == sum);
        proof {
            if start == end {
                assert(path@ == seq![start]);
            }
        }
        (path, sum)
    }
}

impl<N> Graph<N> {
    /// Dijkstra's search from `start` to `end`: the nodes of a cheapest route and its
    /// cost, or `None` where no route to `end` costs less than `UNREACHED`. Each edge
    /// is costed by `edge_cost` under the profile that `kind` and `use_distance` give.
    pub fn find_path(&self, start: NodeId, end: NodeId, kind: usize, use_distance: bool) -> (r: Option<
        (Vec<NodeId>, usize),
    >)
        requires
            self.well_formed(),
            start < self.nodes_view().len(),
            end < self.nodes_view().len(),
        ensures
            r matches Some((path, cost)) ==> is_path_with_cost(
                self.ways_view(),
                path@,
                start as int,
                end as int,
                cost as int,
            ),
            r matches Some((path, cost)) ==> forall|p: Seq<usize>, e: Seq<usize>|
                #[trigger] is_route_between(self.ways_view(), p, e, start as int, end as int) ==> cost
                    <= route_cost(self.ways_view(), e),
            r is None ==> forall|p: Seq<usize>, e: Seq<usize>|
                is_route_between(self.ways_view(), p, e, start as int, end as int)
                    ==> route_cost(self.ways_view(), e) >= UNREACHED,
            start == end ==> (r matches Some((path, cost)) && path@ == seq![start] && cost == 0),
    {
        let n = self.nodes.len();
        let _len = self.offset.len();
        let mut dist: Vec<usize> = Vec::new();
        let mut pred: Vec<Option<usize>> = Vec::new();
        let mut i: usize = 0;
        while i < n
            invariant
                i <= n,
                dist@.len() == i,
                pred@.len() == i,
                forall|v: int| 0 <= v < i ==> #[trigger] dist@[v] == UNREACHED,
                forall|v: int| 0 <= v < i ==> #[trigger] pred@[v] is None,
            decreases n - i,
        {
            dist.push(UNREACHED);
            pred.push(None);
            i = i + 1;
        }
        dist.set(start, 0);
        let ghost mut stamp: Seq<nat> = Seq::new(n as nat, |v: int| 0nat);
        let ghost mut clock: nat = 1;
        let ghost mut settled: Seq<bool> = Seq::new(n as nat, |v: int| false);
        let mut frontier: Vec<(usize, usize)> = Vec::new();
        frontier.push((0, start));
        proof {
            assert forall|v: int| 0 <= v < n implies #[trigger] pred_ok(
                self.ways@,
                dist@,
                pred@,
                stamp,
                start as int,
                v,
            ) by {
                if v != start {
                    assert(dist@[v] == UNREACHED);
                }
            }
            assert forall|x: (usize, usize)| #[trigger] frontier@.contains(x) implies x.1 < dist@.len()
                && x.0 < UNREACHED && dist@[x.1 as int] <= x.0 by {
                assert(frontier@[0] == x);
            }
            assert forall|v: int| 0 <= v < n implies #[trigger] stamp[v] < clock by {}
            assert(pred@[start as int] is None);
            assert(dist@[start as int] == 0);
            assert forall|u: int|
                0 <= u < n && dist@[u] < UNREACHED && !settled[u] implies #[trigger] frontier@.contains(
                (dist@[u], u as usize),
            ) by {
                if u != start {
                    assert(dist@[u] == UNREACHED);
                }
                assert(frontier@[0] == (dist@[u], u as usize));
            }
        }
        while frontier.len() > 0
            invariant
                n == self.nodes@.len(),
                self.well_formed(),
                end < n,
                tables_ok(self.ways@, n as int, start as int, dist@, pred@, stamp, clock),
                frontier_ok(frontier@, dist@),
                progress_ok(self.ways@, n as int, dist@, settled, frontier@),
                !settled[end as int],
                start == end ==> frontier@ == seq![(0usize, start)],
            decreases 2 * total(dist@) + frontier@.len(),
        {
            let ghost measure = 2 * total(dist@) + frontier@.len();
            let ghost before = frontier@;
            let (cost, node) = pop_min(&mut frontier);
            assert(before.contains((cost, node)));
            if node == end {
                let (path, sum) = self.trace_back(&dist, &pred, Ghost(stamp), Ghost(clock), start, end);
                proof {
                    assert forall|p: Seq<usize>, e: Seq<usize>|
                        #[trigger] is_route_between(self.ways@, p, e, start as int, end as int) implies sum
                            <= route_cost(self.ways@, e) by {
                        if route_cost(self.ways@, e) < UNREACHED {
                            lemma_frontier_bound(
                                self.ways@,
                                n as int,
                                self.offset@,
                                dist@,
                                settled,
                                before,
                                end as int,
                                p,
                                e,
                                0,
                            );
                            let x = choose|x: (usize, usize)| #[trigger] before.contains(x) && x.0
                                <= route_cost(self.ways@, e);
                            let k = choose|k: int| 0 <= k < before.len() && before[k] == x;
                            assert(cost <= before[k].0);
                        }
                    }
                }
                return Some((path, sum));
            }
            proof {
                assert forall|u: int|
                    0 <= u < n && dist@[u] < UNREACHED && !settled[u] && (u != node || dist@[u]
                        != cost) implies #[trigger] frontier@.contains((dist@[u], u as usize)) by {
                    assert(before.contains((dist@[u], u as usize)));
                }
            }
            if cost <= dist[node] {
                proof {
                    settled = settled.update(node as int, false);
                }
                let (lo, hi) = self.outgoing_range(node);
                let mut e: usize = lo;
                while e < hi
                    invariant
                        n == self.nodes@.len(),
                        self.well_formed(),
                        end < n,
                        node < n,
                        start != end,
                        lo == self.offset@[node as int],
                        hi == self.offset@[node + 1],
                        lo <= e <= hi,
                        hi <= self.ways@.len(),
                        relax_state_ok(
                            self.ways@,
                            n as int,
                            start as int,
                            end as int,
                            node as int,
                            cost as int,
                            lo as int,
                            e as int,
                            dist@,
                            pred@,
                            stamp,
                            clock,
                            frontier@,
                            settled,
                        ),
                        2 * total(dist@) + frontier@.len() < measure,
                    decreases hi - e,
                {
                    let way = self.ways[e];
                    let v = way.target;
                    assert(edge_fits(self.ways@, e as int, node as int, n as int));
                    match cost.checked_add(edge_cost(&way, kind, use_distance)) {
                        Some(c) => {
                            if c < dist[v] {
                                let ghost old_dist = dist@;
                                let ghost old_pred = pred@;
                                let ghost old_stamp = stamp;
                                let ghost old_frontier = frontier@;
                                let ghost old_settled = settled;
                                let ghost old_clock = clock;
                                proof {
                                    lemma_total_update(dist@, v as int, c);
                                }
                                dist.set(v, c);
                                pred.set(v, Some(e));
                                proof {
                                    stamp = stamp.update(v as int, clock);
                                    clock = clock + 1;
                                    settled = settled.update(v as int, false);
                                }
                                frontier.push((c, v));
                                proof {
                                    lemma_relax(
                                        self.ways@,
                                        n as int,
                                        start as int,
                                        end as int,
                                        node as int,
                                        cost as int,
                                        lo as int,
                                        e as int,
                                        c,
                                        self.offset@,
                                        old_dist,
                                        old_pred,
                                        old_stamp,
                                        old_clock,
                                        old_frontier,
                                        old_settled,
                                    );
                                }
                            } else {
                                proof {
                                    lemma_skip(self.ways@, n as int, start as int, end as int, node as int,
                                        cost as int, lo as int, e as int, dist@, pred@, stamp, clock,
                                        frontier@, settled);
                                }
                            }
                        },
                        None => {
                            proof {
                                lemma_skip(self.ways@, n as int, start as int, end as int, node as int,
                                    cost as int, lo as int, e as int, dist@, pred@, stamp, clock,
                                    frontier@, settled);
                            }
                        },
                    }
                    e = e + 1;
                }
                proof {
                    assert forall|k: int|
                        0 <= k < self.ways@.len() && #[trigger] self.ways@[k].source == node && dist@[node as int]
                            + self.ways@[k].weight < UNREACHED implies dist@[self.ways@[k].target as int]
                        <= dist@[node as int] + self.ways@[k].weight by {
                        lemma_edge_in_source_range(n as int, self.ways@, self.offset@, k);
                    }
                    assert(relaxed(self.ways@, dist@, node as int));
                    settled = settled.update(node as int, true);
                }
            }
            proof {
                lemma_total_nonneg(dist@);
            }
        }
        proof {
            assert forall|p: Seq<usize>, e: Seq<usize>|
                is_route_between(self.ways@, p, e, start as int, end as int)
                    implies route_cost(self.ways@, e) >= UNREACHED by {
                if route_cost(self.ways@, e) < UNREACHED {
                    lemma_frontier_bound(
                        self.ways@,
                        n as int,
                        self.offset@,
                        dist@,
                        settled,
                        frontier@,
                        end as int,
                        p,
                        e,
                        0,
                    );
                    let x = choose|x: (usize, usize)| #[trigger] frontier@.contains(x) && x.0
                        <= route_cost(self.ways@, e);
                }
            }
        }
        None
    }
}

} // verus!
