use vstd::prelude::*;

use std::collections::HashMap;

use crate::error::AnalysisError;
use crate::grouping::IntersectionNode;

verus! {

broadcast use vstd::std_specs::hash::group_hash_axioms;

/// Intersection nodes and, for each node id that has neighbors, the ids of
/// the nodes within the distance threshold of it.
#[derive(Debug)]
pub struct CrashGraph {
    pub nodes: Vec<IntersectionNode>,
    pub adjacency: HashMap<usize, Vec<usize>>,
}

impl CrashGraph {
    /// Node ids are distinct, and the adjacency is symmetric and has no
    /// self-loops.
    pub open spec fn well_formed(self) -> bool {
        &&& ids_distinct(self.nodes@)
        &&& forall|a: usize, b: usize| #[trigger]
            adjacency_list(self.adjacency@, a).contains(b) ==> adjacency_list(self.adjacency@, b).contains(a)
        &&& forall|a: usize| !(#[trigger] adjacency_list(self.adjacency@, a)).contains(a)
    }
}

/// `(x1, y1)` and `(x2, y2)` lie at Euclidean distance at most `d` (`d >= 0`).
pub open spec fn close(x1: int, y1: int, x2: int, y2: int, d: int) -> bool {
    (x1 - x2) * (x1 - x2) + (y1 - y2) * (y1 - y2) <= d * d
}

/// The centers of two nodes lie at distance at most `d`.
pub open spec fn within(a: IntersectionNode, c: IntersectionNode, d: int) -> bool {
    close(a.x as int, a.y as int, c.x as int, c.y as int, d)
}

/// No two nodes share an id.
pub open spec fn ids_distinct(nodes: Seq<IntersectionNode>) -> bool {
    forall|s: int, t: int| 0 <= s < nodes.len() && 0 <= t < nodes.len() && s != t ==> nodes[s].id != nodes[t].id
}

/// Ids of the nodes among the first `m` that are within `d` of node `k`,
/// other than `k` itself, in node order.
pub open spec fn neighbors_upto(nodes: Seq<IntersectionNode>, d: int, k: int, m: int) -> Seq<usize>
    decreases m,
{
    if m <= 0 {
        Seq::empty()
    } else {
        let prev = neighbors_upto(nodes, d, k, m - 1);
        if m - 1 != k && within(nodes[k], nodes[m - 1], d) {
            prev.push(nodes[m - 1].id)
        } else {
            prev
        }
    }
}

/// Ids of all the other nodes within `d` of node `k`, in node order.
pub open spec fn neighbors(nodes: Seq<IntersectionNode>, d: int, k: int) -> Seq<usize> {
    neighbors_upto(nodes, d, k, nodes.len() as int)
}

/// The neighbor list of `id`; an absent entry is an empty list.
pub open spec fn adjacency_list(adjacency: Map<usize, Vec<usize>>, id: usize) -> Seq<usize> {
    if adjacency.contains_key(id) {
        adjacency[id]@
    } else {
        Seq::empty()
    }
}

/// Number of neighbors of node `id` in `g`.
pub open spec fn degree(g: CrashGraph, id: usize) -> nat {
    adjacency_list(g.adjacency@, id).len()
}

/// `g` is the proximity graph of `nodes` at distance threshold `d`: it keeps
/// the nodes, lists for each node the other nodes within `d` in node order,
/// and has an entry only for nodes with at least one neighbor.
pub open spec fn built_from(g: CrashGraph, nodes: Seq<IntersectionNode>, d: int) -> bool {
    &&& g.nodes@ == nodes
    &&& forall|k: int|
        0 <= k < nodes.len() ==> adjacency_list(g.adjacency@, (#[trigger] nodes[k]).id) == neighbors(
            nodes,
            d,
            k,
        )
    &&& forall|id: usize| #[trigger]
        g.adjacency@.contains_key(id) ==> exists|k: int|
            0 <= k < nodes.len() && nodes[k].id == id && neighbors(nodes, d, k).len() > 0
}

/// Closeness does not depend on the order of the two points.
pub proof fn lemma_close_symmetric(x1: int, y1: int, x2: int, y2: int, d: int)
    ensures
        close(x1, y1, x2, y2, d) == close(x2, y2, x1, y1, d),
{
    assert((x1 - x2) * (x1 - x2) == (x2 - x1) * (x2 - x1)) by (nonlinear_arith);
    assert((y1 - y2) * (y1 - y2) == (y2 - y1) * (y2 - y1)) by (nonlinear_arith);
}

/// Whether `(x1, y1)` and `(x2, y2)` lie at Euclidean distance at most
/// `max_distance`, compared exactly on squares.
pub fn within_distance(x1: i64, y1: i64, x2: i64, y2: i64, max_distance: i64) -> (r: bool)
    requires
        max_distance >= 0,
    ensures
        r == close(x1 as int, y1 as int, x2 as int, y2 as int, max_distance as int),
{
    let dx: i128 = x1 as i128 - x2 as i128;
    let dy: i128 = y1 as i128 - y2 as i128;
    let adx: i128 = if dx < 0 { -dx } else { dx };
    let ady: i128 = if dy < 0 { -dy } else { dy };
    let d: i128 = max_distance as i128;
    assert(dx * dx == adx * adx && dy * dy == ady * ady) by (nonlinear_arith)
        requires
            adx == dx || adx == -dx,
            ady == dy || ady == -dy,
    ;
    if adx > d || ady > d {
        assert(dx * dx + dy * dy > d * d) by (nonlinear_arith)
            requires
                adx > d || ady > d,
                d >= 0,
                adx >= 0,
                ady >= 0,
                dx * dx == adx * adx,
                dy * dy == ady * ady,
        ;
        false
    } else {
        assert(0 <= adx * adx <= d * d && 0 <= ady * ady <= d * d && d * d <= 0x3fff_ffff_ffff_ffff_0000_0000_0000_0001)
            by (nonlinear_arith)
            requires
                0 <= adx <= d,
                0 <= ady <= d,
                d <= 0x7fff_ffff_ffff_ffff,
        ;
        adx * adx + ady * ady <= d * d
    }
}

/// Appends `neighbor` to the list of `id`, creating the entry if needed.
fn push_neighbor(adjacency: &mut HashMap<usize, Vec<usize>>, id: usize, neighbor: usize)
    ensures
        final(adjacency)@.contains_key(id),
        adjacency_list(final(adjacency)@, id) == adjacency_list(old(adjacency)@, id).push(neighbor),
        forall|other: usize|
            other != id ==> (#[trigger] final(adjacency)@.contains_key(other)
                == old(adjacency)@.contains_key(other)),
        forall|other: usize|
            other != id && #[trigger] old(adjacency)@.contains_key(other)
                ==> final(adjacency)@[other] == old(adjacency)@[other],
{
    match adjacency.remove(&id) {
        Some(mut list) => {
            list.push(neighbor);
            adjacency.insert(id, list);
        },
        None => {
            let mut list: Vec<usize> = Vec::new();
            list.push(neighbor);
            adjacency.insert(id, list);
            assert(list@ =~= Seq::<usize>::empty().push(neighbor));
        },
    }
}

/// How far the pair scan has got for node `k` while at pair `(i, j)`: the
/// neighbor list of `k` covers the nodes before this index.
spec fn scanned(k: int, i: int, j: int, n: int) -> int {
    if k < i {
        n
    } else if k == i {
        j
    } else if k < j {
        i + 1
    } else {
        i
    }
}

/// Connects every pair of distinct nodes whose centers lie at distance at
/// most `max_distance`.
pub fn build_crashgraph(nodes: Vec<IntersectionNode>, max_distance: i64) -> (r: Result<
    CrashGraph,
    AnalysisError,
>)
    requires
        ids_distinct(nodes@),
    ensures
        max_distance < 0 <==> r is Err,
        r is Err ==> r == Err::<CrashGraph, AnalysisError>(AnalysisError::InvalidParameter),
        r is Ok ==> built_from(r->Ok_0, nodes@, max_distance as int),
        r is Ok ==> r->Ok_0.well_formed(),
{
    if max_distance < 0 {
        return Err(AnalysisError::InvalidParameter);
    }
    let ghost d = max_distance as int;
    let ghost ns = nodes@;
    let n = nodes.len();
    let mut adjacency: HashMap<usize, Vec<usize>> = HashMap::new();
    let mut i: usize = 0;
    while i < n
        invariant
            ns == nodes@,
            n == ns.len(),
            d == max_distance as int,
            d >= 0,
            ids_distinct(ns),
            0 <= i <= n,
            forall|k: int|
                0 <= k < n ==> adjacency_list(adjacency@, (#[trigger] ns[k]).id) == neighbors_upto(
                    ns,
                    d,
                    k,
                    if k < i { n as int } else { i as int },
                ),
            forall|id: usize| #[trigger]
                adjacency@.contains_key(id) ==> exists|k: int|
                    0 <= k < n && ns[k].id == id && adjacency@[id]@.len() > 0,
        decreases n - i,
    {
        assert(neighbors_upto(ns, d, i as int, i as int + 1) == neighbors_upto(ns, d, i as int, i as int));
        let mut j: usize = i + 1;
        while j < n
            invariant
                ns == nodes@,
                n == ns.len(),
                d == max_distance as int,
                d >= 0,
                ids_distinct(ns),
                0 <= i < n,
                i + 1 <= j <= n,
                forall|k: int|
                    0 <= k < n ==> adjacency_list(adjacency@, (#[trigger] ns[k]).id)
                        == neighbors_upto(ns, d, k, scanned(k, i as int, j as int, n as int)),
                forall|id: usize| #[trigger]
                    adjacency@.contains_key(id) ==> exists|k: int|
                        0 <= k < n && ns[k].id == id && adjacency@[id]@.len() > 0,
            decreases n - j,
        {
            let a = &nodes[i];
            let c = &nodes[j];
            let near = within_distance(a.x, a.y, c.x, c.y, max_distance);
            proof {
                lemma_close_symmetric(a.x as int, a.y as int, c.x as int, c.y as int, d);
            }
            let ghost before = adjacency@;
            if near {
                push_neighbor(&mut adjacency, a.id, c.id);
                push_neighbor(&mut adjacency, c.id, a.id);
            }
            assert forall|k: int| 0 <= k < n implies adjacency_list(adjacency@, (#[trigger] ns[k]).id)
                == neighbors_upto(ns, d, k, scanned(k, i as int, j as int + 1, n as int)) by {
                if k != i && k != j {
                    assert(ns[k].id != ns[i as int].id);
                    assert(ns[k].id != ns[j as int].id);
                    assert(adjacency_list(adjacency@, ns[k].id) == adjacency_list(before, ns[k].id));
                }
            }
            assert forall|id: usize| #[trigger] adjacency@.contains_key(id) implies exists|k: int|
                0 <= k < n && ns[k].id == id && adjacency@[id]@.len() > 0 by {
                if near && id == ns[i as int].id {
                    assert(adjacency@[id]@ == adjacency_list(adjacency@, ns[i as int].id));
                } else if near && id == ns[j as int].id {
                    assert(adjacency@[id]@ == adjacency_list(adjacency@, ns[j as int].id));
                } else {
                    assert(before.contains_key(id));
                }
            }
            j += 1;
        }
        i += 1;
    }
    let g = CrashGraph { nodes, adjacency };
    assert forall|id: usize| #[trigger] g.adjacency@.contains_key(id) implies exists|k: int|
        0 <= k < ns.len() && ns[k].id == id && neighbors(ns, d, k).len() > 0 by {
        let k = choose|k: int| 0 <= k < n && ns[k].id == id && adjacency@[id]@.len() > 0;
        assert(adjacency_list(g.adjacency@, ns[k].id) == neighbors(ns, d, k));
    }
    assert forall|a: usize, b: usize| #[trigger] adjacency_list(g.adjacency@, a).contains(b)
        implies adjacency_list(g.adjacency@, b).contains(a) by {
        lemma_adjacency_symmetric(g, ns, d, a, b);
    }
    assert forall|a: usize| !(#[trigger] adjacency_list(g.adjacency@, a)).contains(a) by {
        lemma_no_self_loops(g, ns, d, a);
    }
    Ok(g)
}

/// Degree of node `id`: the length of its adjacency entry, 0 without one.
pub(crate) fn degree_of(graph: &CrashGraph, id: usize) -> (r: usize)
    ensures
        r == degree(*graph, id),
{
    match graph.adjacency.get(&id) {
        Some(list) => list.len(),
        None => 0,
    }
}

/// Maps the id of every node of the graph to its number of neighbors; a node
/// without an adjacency entry has degree 0.
pub fn compute_degree_distribution(graph: &CrashGraph) -> (r: HashMap<usize, usize>)
    ensures
        forall|id: usize| #[trigger]
            r@.contains_key(id) <==> exists|k: int|
                0 <= k < graph.nodes@.len() && graph.nodes@[k].id == id,
        forall|id: usize| #[trigger] r@.contains_key(id) ==> r@[id] == degree(*graph, id),
{
    let mut degrees: HashMap<usize, usize> = HashMap::new();
    let mut i: usize = 0;
    while i < graph.nodes.len()
        invariant
            0 <= i <= graph.nodes@.len(),
            forall|id: usize| #[trigger]
                degrees@.contains_key(id) <==> exists|k: int|
                    0 <= k < i && graph.nodes@[k].id == id,
            forall|id: usize| #[trigger] degrees@.contains_key(id) ==> degrees@[id] == degree(*graph, id),
        decreases graph.nodes@.len() - i,
    {
        let id = graph.nodes[i].id;
        let deg = degree_of(graph, id);
        degrees.insert(id, deg);
        assert forall|other: usize| #[trigger] degrees@.contains_key(other) <==> exists|k: int|
            0 <= k < i + 1 && graph.nodes@[k].id == other by {
            if other == id {
                assert(graph.nodes@[i as int].id == other);
            }
        }
        i += 1;
    }
    degrees
}

/// Number of edges of the graph: half the sum of the degrees of its nodes.
pub fn edge_count(graph: &CrashGraph) -> (r: u128)
    ensures
        r == degree_total(*graph) / 2,
{
    let mut total: u128 = 0;
    let mut i: usize = 0;
    while i < graph.nodes.len()
        invariant
            0 <= i <= graph.nodes@.len(),
            total == degree_total_upto(*graph, i as int),
            total <= i * 0xffff_ffff_ffff_ffff,
        decreases graph.nodes@.len() - i,
    {
        let deg = degree_of(graph, graph.nodes[i].id);
        assert(total + deg <= (i + 1) * 0xffff_ffff_ffff_ffff) by (nonlinear_arith)
            requires
                total <= i * 0xffff_ffff_ffff_ffff,
                deg <= 0xffff_ffff_ffff_ffff,
        ;
        assert((i + 1) * 0xffff_ffff_ffff_ffff <= 0xffff_ffff_ffff_ffff * 0xffff_ffff_ffff_ffff) by (nonlinear_arith)
            requires
                i < 0xffff_ffff_ffff_ffff,
        ;
        total = total + deg as u128;
        i += 1;
    }
    total / 2
}

/// Number of the nodes among the first `m` that are within `d` of node `k`
/// (node `k` itself counts if it lies among them).
pub open spec fn close_count(nodes: Seq<IntersectionNode>, d: int, k: int, m: int) -> nat
    decreases m,
{
    if m <= 0 {
        0
    } else {
        close_count(nodes, d, k, m - 1) + if within(nodes[m - 1], nodes[k], d) { 1nat } else { 0nat }
    }
}

/// Number of unordered pairs of distinct nodes among the first `m` that are
/// within `d` of each other.
pub open spec fn pairs_upto(nodes: Seq<IntersectionNode>, d: int, m: int) -> nat
    decreases m,
{
    if m <= 0 {
        0
    } else {
        pairs_upto(nodes, d, m - 1) + close_count(nodes, d, m - 1, m - 1)
    }
}

/// Number of unordered pairs of distinct nodes within `d` of each other.
pub open spec fn connected_pairs(nodes: Seq<IntersectionNode>, d: int) -> nat {
    pairs_upto(nodes, d, nodes.len() as int)
}

/// Sum of the degrees in `g` of its first `m` nodes.
pub open spec fn degree_total_upto(g: CrashGraph, m: int) -> nat
    decreases m,
{
    if m <= 0 {
        0
    } else {
        degree_total_upto(g, m - 1) + degree(g, g.nodes@[m - 1].id)
    }
}

/// Sum of the degrees of all the nodes of `g`.
pub open spec fn degree_total(g: CrashGraph) -> nat {
    degree_total_upto(g, g.nodes@.len() as int)
}

/// Sum over the first `m` nodes of the lengths of their neighbor lists
/// restricted to the first `lim` nodes.
spec fn neighbor_count_sum(nodes: Seq<IntersectionNode>, d: int, m: int, lim: int) -> nat
    decreases m,
{
    if m <= 0 {
        0
    } else {
        neighbor_count_sum(nodes, d, m - 1, lim) + neighbors_upto(nodes, d, m - 1, lim).len()
    }
}

/// What a neighbor list holds: the ids of the other nodes within `d`.
proof fn lemma_neighbors_upto_contains(nodes: Seq<IntersectionNode>, d: int, k: int, m: int, id: usize)
    requires
        0 <= k < nodes.len(),
        0 <= m <= nodes.len(),
    ensures
        neighbors_upto(nodes, d, k, m).contains(id) <==> exists|j: int|
            0 <= j < m && j != k && within(nodes[k], nodes[j], d) && nodes[j].id == id,
    decreases m,
{
    if m > 0 {
        lemma_neighbors_upto_contains(nodes, d, k, m - 1, id);
        let prev = neighbors_upto(nodes, d, k, m - 1);
        if neighbors_upto(nodes, d, k, m).contains(id) {
            if !prev.contains(id) {
                let t = choose|t: int| 0 <= t < neighbors_upto(nodes, d, k, m).len() && neighbors_upto(nodes, d, k, m)[t] == id;
                assert(t == prev.len());
            }
        }
        if exists|j: int| 0 <= j < m && j != k && within(nodes[k], nodes[j], d) && nodes[j].id == id {
            let j = choose|j: int| 0 <= j < m && j != k && within(nodes[k], nodes[j], d) && nodes[j].id == id;
            if j == m - 1 {
                assert(neighbors_upto(nodes, d, k, m)[prev.len() as int] == id);
            } else {
                let t = choose|t: int| 0 <= t < prev.len() && prev[t] == id;
                assert(neighbors_upto(nodes, d, k, m)[t] == id);
            }
        }
    }
}

/// An adjacency entry of a built graph belongs to a node.
proof fn lemma_entry_is_node(g: CrashGraph, nodes: Seq<IntersectionNode>, d: int, a: usize)
    requires
        built_from(g, nodes, d),
        adjacency_list(g.adjacency@, a).len() > 0,
    ensures
        exists|k: int| 0 <= k < nodes.len() && nodes[k].id == a,
{
    assert(g.adjacency@.contains_key(a));
}

/// In a graph built from nodes with distinct ids, `b` is a neighbor of `a`
/// exactly when `a` is a neighbor of `b`.
pub proof fn lemma_adjacency_symmetric(g: CrashGraph, nodes: Seq<IntersectionNode>, d: int, a: usize, b: usize)
    requires
        built_from(g, nodes, d),
        ids_distinct(nodes),
    ensures
        adjacency_list(g.adjacency@, a).contains(b) <==> adjacency_list(g.adjacency@, b).contains(a),
{
    assert forall|p: usize, q: usize| #[trigger] adjacency_list(g.adjacency@, p).contains(q)
        implies adjacency_list(g.adjacency@, q).contains(p) by {
        lemma_entry_is_node(g, nodes, d, p);
        let kp = choose|k: int| 0 <= k < nodes.len() && nodes[k].id == p;
        assert(adjacency_list(g.adjacency@, nodes[kp].id) == neighbors(nodes, d, kp));
        lemma_neighbors_upto_contains(nodes, d, kp, nodes.len() as int, q);
        let kq = choose|j: int| 0 <= j < nodes.len() && j != kp && within(nodes[kp], nodes[j], d) && nodes[j].id == q;
        lemma_close_symmetric(nodes[kp].x as int, nodes[kp].y as int, nodes[kq].x as int, nodes[kq].y as int, d);
        assert(adjacency_list(g.adjacency@, nodes[kq].id) == neighbors(nodes, d, kq));
        lemma_neighbors_upto_contains(nodes, d, kq, nodes.len() as int, p);
    }
}

/// In a graph built from nodes with distinct ids, no node is its own neighbor.
pub proof fn lemma_no_self_loops(g: CrashGraph, nodes: Seq<IntersectionNode>, d: int, a: usize)
    requires
        built_from(g, nodes, d),
        ids_distinct(nodes),
    ensures
        !adjacency_list(g.adjacency@, a).contains(a),
{
    if adjacency_list(g.adjacency@, a).contains(a) {
        lemma_entry_is_node(g, nodes, d, a);
        let ka = choose|k: int| 0 <= k < nodes.len() && nodes[k].id == a;
        assert(adjacency_list(g.adjacency@, nodes[ka].id) == neighbors(nodes, d, ka));
        lemma_neighbors_upto_contains(nodes, d, ka, nodes.len() as int, a);
    }
}

/// Extending the restriction by node `m` adds, over the first `mm <= m`
/// nodes, one for each of them within `d` of node `m`.
proof fn lemma_sum_extend(nodes: Seq<IntersectionNode>, d: int, mm: int, m: int)
    requires
        0 <= mm <= m,
    ensures
        neighbor_count_sum(nodes, d, mm, m + 1) == neighbor_count_sum(nodes, d, mm, m) + close_count(nodes, d, m, mm),
    decreases mm,
{
    if mm > 0 {
        lemma_sum_extend(nodes, d, mm - 1, m);
    }
}

/// A neighbor list restricted to nodes before `k` counts those within `d`.
proof fn lemma_earlier_neighbors_len(nodes: Seq<IntersectionNode>, d: int, k: int, lim: int)
    requires
        0 <= lim <= k,
    ensures
        neighbors_upto(nodes, d, k, lim).len() == close_count(nodes, d, k, lim),
    decreases lim,
{
    if lim > 0 {
        lemma_earlier_neighbors_len(nodes, d, k, lim - 1);
        lemma_close_symmetric(nodes[k].x as int, nodes[k].y as int, nodes[lim - 1].x as int, nodes[lim - 1].y as int, d);
    }
}

/// Among the first `m` nodes, the neighbor counts add up to twice the pairs.
proof fn lemma_handshake_upto(nodes: Seq<IntersectionNode>, d: int, m: int)
    requires
        0 <= m,
    ensures
        neighbor_count_sum(nodes, d, m, m) == 2 * pairs_upto(nodes, d, m),
    decreases m,
{
    if m > 0 {
        let p = m - 1;
        lemma_handshake_upto(nodes, d, p);
        lemma_sum_extend(nodes, d, p, p);
        lemma_earlier_neighbors_len(nodes, d, p, p);
        assert(neighbors_upto(nodes, d, p, m) == neighbors_upto(nodes, d, p, p));
    }
}

/// The degrees in a built graph are the lengths of the neighbor lists.
proof fn lemma_degree_total_is_sum(g: CrashGraph, nodes: Seq<IntersectionNode>, d: int, m: int)
    requires
        built_from(g, nodes, d),
        0 <= m <= nodes.len(),
    ensures
        degree_total_upto(g, m) == neighbor_count_sum(nodes, d, m, nodes.len() as int),
    decreases m,
{
    if m > 0 {
        lemma_degree_total_is_sum(g, nodes, d, m - 1);
        assert(adjacency_list(g.adjacency@, nodes[m - 1].id) == neighbors(nodes, d, m - 1));
    }
}

/// In a graph built from any nodes, the degrees add up to twice the number of
/// connected pairs: each pair is counted once from each end.
pub proof fn lemma_degree_sum(g: CrashGraph, nodes: Seq<IntersectionNode>, d: int)
    requires
        built_from(g, nodes, d),
    ensures
        degree_total(g) == 2 * connected_pairs(nodes, d),
{
    lemma_degree_total_is_sum(g, nodes, d, nodes.len() as int);
    lemma_handshake_upto(nodes, d, nodes.len() as int);
}

} // verus!
