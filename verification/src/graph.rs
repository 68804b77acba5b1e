//! Directed graphs over integer node ids, stored in `petgraph`'s `GraphMap`.
//!
//! The graph's contents are modelled by two sets: its nodes and its edges.
//! Everything the analyses prove about graphs is stated over these sets and
//! over paths through them.

use petgraph::graphmap::GraphMap;
use petgraph::visit::Dfs;
use petgraph::visit::DfsPostOrder;
use petgraph::visit::Walker;
use petgraph::Directed;
use petgraph::Direction;
use std::collections::hash_map::RandomState;
use vstd::prelude::*;

verus! {

#[verifier::external_type_specification]
#[verifier::external_body]
#[verifier::reject_recursive_types(N)]
#[verifier::reject_recursive_types(E)]
#[verifier::reject_recursive_types(Ty)]
#[verifier::reject_recursive_types(S)]
pub struct ExGraphMap<N, E, Ty, S: core::hash::BuildHasher>(GraphMap<N, E, Ty, S>);

#[verifier::external_type_specification]
#[verifier::external_body]
pub struct ExDirected(Directed);

#[verifier::external_type_specification]
pub struct ExDirection(Direction);

/// A directed graph without parallel edges; self loops are allowed.
pub type DiGraph = GraphMap<usize, (), Directed, RandomState>;

/// The nodes that a graph holds.
pub uninterp spec fn nodes_of(g: GraphMap<usize, (), Directed, RandomState>) -> Set<usize>;

/// The edges that a graph holds, each as (source, target).
pub uninterp spec fn edges_of(g: GraphMap<usize, (), Directed, RandomState>) -> Set<(usize, usize)>;

/// `GraphMap::new`: a graph without nodes or edges.
#[verifier::external_body]
pub(crate) fn new_graph() -> (g: DiGraph)
    ensures
        nodes_of(g) == Set::<usize>::empty(),
        edges_of(g) == Set::<(usize, usize)>::empty(),
{
    GraphMap::new()
}

/// `GraphMap::add_node`: the node joins the node set; the edges stay.
#[verifier::external_body]
pub(crate) fn add_node(g: &mut DiGraph, n: usize)
    ensures
        nodes_of(*final(g)) == nodes_of(*old(g)).insert(n),
        edges_of(*final(g)) == edges_of(*old(g)),
{
    g.add_node(n);
}

/// `GraphMap::add_edge`: the edge joins the edge set (once, however often it
/// is added) and both of its ends join the node set.
#[verifier::external_body]
pub(crate) fn add_edge(g: &mut DiGraph, a: usize, b: usize)
    ensures
        nodes_of(*final(g)) == nodes_of(*old(g)).insert(a).insert(b),
        edges_of(*final(g)) == edges_of(*old(g)).insert((a, b)),
{
    g.add_edge(a, b, ());
}

/// `GraphMap::neighbors_directed`: the nodes at the other end of the edges
/// that leave `a` (`Outgoing`) or that enter `a` (`Incoming`), each once, in
/// no stated order.
#[verifier::external_body]
pub(crate) fn neighbors_directed(g: &DiGraph, a: usize, dir: Direction) -> (out: Vec<usize>)
    ensures
        out@.no_duplicates(),
        forall|b: usize|
            out@.contains(b) <==> match dir {
                Direction::Outgoing => edges_of(*g).contains((a, b)),
                Direction::Incoming => edges_of(*g).contains((b, a)),
            },
{
    g.neighbors_directed(a, dir).collect()
}

/// The targets of the edges that leave `a`, each once.
pub(crate) fn successors(g: &DiGraph, a: usize) -> (out: Vec<usize>)
    ensures
        out@.no_duplicates(),
        forall|b: usize| out@.contains(b) <==> edges_of(*g).contains((a, b)),
{
    neighbors_directed(g, a, Direction::Outgoing)
}

/// The sources of the edges that enter `a`, each once.
pub(crate) fn predecessors(g: &DiGraph, a: usize) -> (out: Vec<usize>)
    ensures
        out@.no_duplicates(),
        forall|b: usize| out@.contains(b) <==> edges_of(*g).contains((b, a)),
{
    neighbors_directed(g, a, Direction::Incoming)
}

/// `GraphMap::all_edges`: every edge of the graph once, in no stated order.
#[verifier::external_body]
pub(crate) fn all_edges(g: &DiGraph) -> (out: Vec<(usize, usize)>)
    ensures
        out@.no_duplicates(),
        forall|e: (usize, usize)| out@.contains(e) <==> edges_of(*g).contains(e),
{
    g.all_edges().map(|(a, b, _)| (a, b)).collect()
}

/// Whether the edges hold an edge from the node at position `i` of the list
/// to the node after it.
pub open spec fn is_step<T>(edges: Set<(T, T)>, p: Seq<T>, i: int) -> bool {
    edges.contains((p[i], p[i + 1]))
}

/// Whether `p` is a walk along the edges: a non-empty list of nodes in which
/// each node has an edge to the next.
pub open spec fn is_path<T>(edges: Set<(T, T)>, p: Seq<T>) -> bool {
    &&& p.len() >= 1
    &&& forall|i: int| 0 <= i < p.len() - 1 ==> #[trigger] is_step(edges, p, i)
}

/// Whether `p` is a walk along the edges that starts at `a` and ends at `b`.
pub open spec fn is_path_from_to<T>(edges: Set<(T, T)>, p: Seq<T>, a: T, b: T) -> bool {
    is_path(edges, p) && p[0] == a && p[p.len() - 1] == b
}

/// Whether a walk of zero or more edges leads from `a` to `b`.
pub open spec fn reaches<T>(edges: Set<(T, T)>, a: T, b: T) -> bool {
    exists|p: Seq<T>| is_path_from_to(edges, p, a, b)
}

/// Whether the node at position `i` of the list has an edge from a node at
/// an earlier position.
pub open spec fn follows_earlier(edges: Set<(usize, usize)>, order: Seq<usize>, i: int) -> bool {
    exists|j: int| 0 <= j < i && edges.contains((#[trigger] order[j], order[i]))
}

/// `Dfs::new` and the nodes that its walker yields, collected in order: a
/// depth-first preorder from `start`. It begins with `start`, lists no node
/// twice, lists each later node after one of its predecessors, and lists
/// every successor of a node that it lists.
#[verifier::external_body]
pub(crate) fn dfs_preorder(g: &DiGraph, start: usize) -> (order: Vec<usize>)
    ensures
        order@.len() >= 1,
        order@[0] == start,
        order@.no_duplicates(),
        forall|i: int| 1 <= i < order@.len() ==> #[trigger] follows_earlier(edges_of(*g), order@, i),
        forall|a: usize, b: usize|
            order@.contains(a) && #[trigger] edges_of(*g).contains((a, b)) ==> order@.contains(b),
{
    Dfs::new(g, start).iter(g).collect()
}

/// `DfsPostOrder::new` and the nodes that its walker yields, collected in
/// order: a depth-first postorder from `start`. It ends with `start`, lists
/// no node twice, lists only nodes that `start` reaches, and lists every
/// successor of a node that it lists. A successor that comes after the node
/// it succeeds leads back to that node.
#[verifier::external_body]
pub(crate) fn dfs_postorder(g: &DiGraph, start: usize) -> (order: Vec<usize>)
    ensures
        order@.len() >= 1,
        order@[order@.len() - 1] == start,
        order@.no_duplicates(),
        forall|i: int| 0 <= i < order@.len() ==> reaches(edges_of(*g), start, #[trigger] order@[i]),
        forall|a: usize, b: usize|
            order@.contains(a) && #[trigger] edges_of(*g).contains((a, b)) ==> order@.contains(b),
        forall|i: int, j: int|
            0 <= i < j < order@.len() && edges_of(*g).contains((#[trigger] order@[i], #[trigger] order@[j]))
                ==> reaches(edges_of(*g), order@[j], order@[i]),
{
    DfsPostOrder::new(g, start).iter(g).collect()
}

/// `petgraph::algo::has_path_connecting`: whether a walk of zero or more
/// edges leads from `a` to `b`.
#[verifier::external_body]
pub(crate) fn has_path(g: &DiGraph, a: usize, b: usize) -> (r: bool)
    ensures
        r == reaches(edges_of(*g), a, b),
{
    petgraph::algo::has_path_connecting(g, a, b, None)
}

/// A walk can be extended by one edge.
pub proof fn lemma_path_push<T>(edges: Set<(T, T)>, p: Seq<T>, a: T, b: T, c: T)
    requires
        is_path_from_to(edges, p, a, b),
        edges.contains((b, c)),
    ensures
        is_path_from_to(edges, p.push(c), a, c),
{
    let q = p.push(c);
    assert forall|i: int| 0 <= i < q.len() - 1 implies #[trigger] is_step(edges, q, i) by {
        if i < p.len() - 1 {
            assert(is_step(edges, p, i));
            assert(q[i] == p[i] && q[i + 1] == p[i + 1]);
        }
    }
}

/// Every node reaches itself.
pub proof fn lemma_reaches_self<T>(edges: Set<(T, T)>, a: T)
    ensures
        reaches(edges, a, a),
{
    assert(is_path_from_to(edges, seq![a], a, a));
}

/// Reaching a node and taking one more edge reaches that edge's target.
pub proof fn lemma_reaches_step<T>(edges: Set<(T, T)>, a: T, b: T, c: T)
    requires
        reaches(edges, a, b),
        edges.contains((b, c)),
    ensures
        reaches(edges, a, c),
{
    let p = choose|p: Seq<T>| is_path_from_to(edges, p, a, b);
    lemma_path_push(edges, p, a, b, c);
}

/// Whether a walk of one or more edges leads from `a` to `b`.
#[verifier::opaque]
pub open spec fn reaches_plus<T>(edges: Set<(T, T)>, a: T, b: T) -> bool {
    exists|s: T| edges.contains((a, s)) && reaches(edges, s, b)
}

/// The edges, each turned around.
pub open spec fn flipped<T>(edges: Set<(T, T)>) -> Set<(T, T)> {
    Set::new(|e: (T, T)| edges.contains((e.1, e.0)))
}

/// An edge followed by a walk is a walk of one or more edges, and the other
/// way round.
pub proof fn lemma_reaches_plus<T>(edges: Set<(T, T)>, a: T, b: T)
    ensures
        reaches_plus(edges, a, b) == exists|s: T|
            edges.contains((a, s)) && reaches(edges, s, b),
{
    reveal(reaches_plus);
}

/// A walk that does not end where it starts begins with an edge.
pub proof fn lemma_reaches_first<T>(edges: Set<(T, T)>, a: T, b: T)
    requires
        reaches(edges, a, b),
        a != b,
    ensures
        reaches_plus(edges, a, b),
{
    reveal(reaches_plus);
    let p = choose|p: Seq<T>| is_path_from_to(edges, p, a, b);
    assert(p.len() >= 2);
    let q = p.subrange(1, p.len() as int);
    assert(is_step(edges, p, 0int));
    assert forall|i: int| 0 <= i < q.len() - 1 implies #[trigger] is_step(edges, q, i) by {
        assert(is_step(edges, p, i + 1));
    }
    assert(is_path_from_to(edges, q, p[1], b));
    assert(edges.contains((a, p[1])) && reaches(edges, p[1], b));
}

/// An edge followed by a walk is a walk.
pub proof fn lemma_reaches_prepend<T>(edges: Set<(T, T)>, a: T, s: T, b: T)
    requires
        edges.contains((a, s)),
        reaches(edges, s, b),
    ensures
        reaches(edges, a, b),
{
    let p = choose|p: Seq<T>| is_path_from_to(edges, p, s, b);
    let q = seq![a] + p;
    assert forall|i: int| 0 <= i < q.len() - 1 implies #[trigger] is_step(edges, q, i) by {
        if i > 0 {
            assert(is_step(edges, p, i - 1));
        }
    }
    assert(is_path_from_to(edges, q, a, b));
}

/// A set of nodes that holds every successor of its nodes holds every node
/// that its nodes reach.
pub proof fn lemma_closed_reaches<T>(
    edges: Set<(T, T)>,
    closed: Set<T>,
    p: Seq<T>,
    a: T,
    b: T,
)
    requires
        forall|x: T, y: T| closed.contains(x) && #[trigger] edges.contains((x, y)) ==> closed.contains(y),
        closed.contains(a),
        is_path_from_to(edges, p, a, b),
    ensures
        closed.contains(b),
    decreases p.len(),
{
    if p.len() > 1 {
        let q = p.drop_last();
        assert forall|i: int| 0 <= i < q.len() - 1 implies #[trigger] is_step(edges, q, i) by {
            assert(is_step(edges, p, i));
        }
        lemma_closed_reaches(edges, closed, q, a, q[q.len() - 1]);
        assert(is_step(edges, p, p.len() - 2));
    }
}

/// A walk of one or more edges ends with an edge.
pub proof fn lemma_reaches_plus_last<T>(edges: Set<(T, T)>, a: T, b: T)
    requires
        reaches_plus(edges, a, b),
    ensures
        exists|x: T| edges.contains((x, b)),
{
    lemma_reaches_plus(edges, a, b);
    let s = choose|s: T| edges.contains((a, s)) && reaches(edges, s, b);
    let p = choose|p: Seq<T>| is_path_from_to(edges, p, s, b);
    if p.len() >= 2 {
        assert(is_step(edges, p, p.len() - 2));
    }
}

/// A walk followed by an edge is a walk of one or more edges.
pub proof fn lemma_reaches_plus_step<T>(edges: Set<(T, T)>, a: T, s: T, b: T)
    requires
        reaches(edges, a, s),
        edges.contains((s, b)),
    ensures
        reaches_plus(edges, a, b),
{
    if a == s {
        lemma_reaches_self(edges, b);
        lemma_reaches_plus(edges, a, b);
    } else {
        lemma_reaches_first(edges, a, s);
        lemma_reaches_plus(edges, a, s);
        let t = choose|t: T| edges.contains((a, t)) && reaches(edges, t, s);
        lemma_reaches_step(edges, t, s, b);
        lemma_reaches_plus(edges, a, b);
    }
}

/// A walk along the edges, read backwards, is a walk along the edges turned
/// around.
pub proof fn lemma_flipped_path<T>(edges: Set<(T, T)>, p: Seq<T>, a: T, b: T)
    requires
        is_path_from_to(edges, p, a, b),
    ensures
        is_path_from_to(flipped(edges), p.reverse(), b, a),
{
    let q = p.reverse();
    let n = p.len() as int;
    assert(q.len() == n);
    assert forall|i: int| 0 <= i < n implies q[i] == p[n - 1 - i] by {}
    assert forall|i: int| 0 <= i < q.len() - 1 implies #[trigger] is_step(flipped(edges), q, i) by {
        let k = n - 2 - i;
        assert(q[i] == p[k + 1]);
        assert(q[i + 1] == p[k]);
        assert(is_step(edges, p, k));
    }
    assert(q[0] == p[n - 1]);
    assert(q[n - 1] == p[0]);
}

/// A walk of one or more edges along the edges turned around is such a walk
/// along the edges, the other way.
pub proof fn lemma_flipped_reaches_plus<T>(edges: Set<(T, T)>, a: T, b: T)
    ensures
        reaches_plus(flipped(edges), a, b) == reaches_plus(edges, b, a),
{
    let back = flipped(edges);
    assert(flipped(back) =~= edges);
    if reaches_plus(back, a, b) {
        lemma_reaches_plus(back, a, b);
        let s = choose|s: T| back.contains((a, s)) && reaches(back, s, b);
        let p = choose|p: Seq<T>| is_path_from_to(back, p, s, b);
        lemma_flipped_path(back, p, s, b);
        assert(reaches(edges, b, s));
        lemma_reaches_plus_step(edges, b, s, a);
    }
    if reaches_plus(edges, b, a) {
        lemma_reaches_plus(edges, b, a);
        let s = choose|s: T| edges.contains((b, s)) && reaches(edges, s, a);
        let p = choose|p: Seq<T>| is_path_from_to(edges, p, s, a);
        lemma_flipped_path(edges, p, s, a);
        assert(reaches(back, a, s));
        assert(back.contains((s, b)));
        lemma_reaches_plus_step(back, a, s, b);
    }
}

/// Whether every walk from `entry` to `n` passes through `d`.
pub open spec fn dominated<T>(edges: Set<(T, T)>, entry: T, d: T, n: T) -> bool {
    forall|p: Seq<T>| #[trigger] is_path_from_to(edges, p, entry, n) ==> p.contains(d)
}

/// What lies on every walk to a node, and is not the node, lies on every
/// walk to each of its predecessors.
pub proof fn lemma_dominated_pred<T>(edges: Set<(T, T)>, entry: T, d: T, pred: T, n: T)
    requires
        edges.contains((pred, n)),
        dominated(edges, entry, d, n),
        d != n,
    ensures
        dominated(edges, entry, d, pred),
{
    assert forall|p: Seq<T>| #[trigger] is_path_from_to(edges, p, entry, pred) implies p.contains(
        d,
    ) by {
        lemma_path_push(edges, p, entry, pred, n);
        let q = p.push(n);
        assert(q.contains(d));
        let i = choose|i: int| 0 <= i < q.len() && q[i] == d;
        assert(p[i] == d);
    }
}

/// A walk without its last node is a walk to the node before the last.
pub proof fn lemma_path_drop_last<T>(edges: Set<(T, T)>, p: Seq<T>, a: T, b: T)
    requires
        is_path_from_to(edges, p, a, b),
        p.len() >= 2,
    ensures
        is_path_from_to(edges, p.drop_last(), a, p[p.len() - 2]),
        edges.contains((p[p.len() - 2], b)),
{
    let q = p.drop_last();
    assert forall|i: int| 0 <= i < q.len() - 1 implies #[trigger] is_step(edges, q, i) by {
        assert(is_step(edges, p, i));
    }
    assert(is_step(edges, p, p.len() - 2));
}

/// Whether every walk from `n` to `exit` passes through `d`.
pub open spec fn postdominated<T>(edges: Set<(T, T)>, exit: T, d: T, n: T) -> bool {
    forall|p: Seq<T>| #[trigger] is_path_from_to(edges, p, n, exit) ==> p.contains(d)
}

/// What lies on every walk from the exit along the edges turned around lies
/// on every walk to the exit along the edges, and the other way round.
pub proof fn lemma_flipped_dominated<T>(edges: Set<(T, T)>, exit: T, d: T, n: T)
    ensures
        dominated(flipped(edges), exit, d, n) == postdominated(edges, exit, d, n),
{
    let back = flipped(edges);
    assert(flipped(back) =~= edges);
    if dominated(back, exit, d, n) {
        assert forall|p: Seq<T>| #[trigger] is_path_from_to(edges, p, n, exit) implies p.contains(
            d,
        ) by {
            lemma_flipped_path(edges, p, n, exit);
            let q = p.reverse();
            assert(q.contains(d));
            let i = choose|i: int| 0 <= i < q.len() && q[i] == d;
            assert(p[p.len() - 1 - i] == d);
        }
    }
    if postdominated(edges, exit, d, n) {
        assert forall|q: Seq<T>| #[trigger] is_path_from_to(back, q, exit, n) implies q.contains(
            d,
        ) by {
            lemma_flipped_path(back, q, exit, n);
            let p = q.reverse();
            assert(p.contains(d));
            let i = choose|i: int| 0 <= i < p.len() && p[i] == d;
            assert(q[q.len() - 1 - i] == d);
        }
    }
}

/// A node reaches another along the edges turned around exactly when the
/// other reaches it along the edges.
pub proof fn lemma_flipped_reaches<T>(edges: Set<(T, T)>, a: T, b: T)
    ensures
        reaches(flipped(edges), a, b) == reaches(edges, b, a),
{
    let back = flipped(edges);
    assert(flipped(back) =~= edges);
    if reaches(back, a, b) {
        let p = choose|p: Seq<T>| is_path_from_to(back, p, a, b);
        lemma_flipped_path(back, p, a, b);
    }
    if reaches(edges, b, a) {
        let p = choose|p: Seq<T>| is_path_from_to(edges, p, b, a);
        lemma_flipped_path(edges, p, b, a);
    }
}

} // verus!
