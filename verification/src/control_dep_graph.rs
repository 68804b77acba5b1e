//! The control dependence graph of a function.

use crate::control_flow_graph::ControlFlowGraph;
use crate::dominance::anc;
use crate::dominance::frontier_local;
use crate::dominance::frontier_up;
use crate::dominance::in_frontier;
use crate::dominance::is_fixed;
use crate::dominance::is_preorder;
use crate::dominance::lemma_anc_entry;
use crate::dominance::lemma_anc_num;
use crate::dominance::lemma_edge_parent;
use crate::dominance::lemma_frontier;
use crate::dominance::lemma_tree_reach;
use crate::dominance::parent_in;
use crate::dominance::tree_edges;
use crate::dominance::tree_ok;
use crate::dominator_tree::lemma_same_table;
use crate::dominator_tree::same_table;
use crate::dominator_tree::PostDominatorTree;
use crate::error::AnalysisError;
use crate::graph::add_edge;
use crate::graph::dfs_postorder;
use crate::graph::edges_of;
use crate::graph::has_path;
use crate::graph::new_graph;
use crate::graph::predecessors;
use crate::graph::reaches;
use crate::graph::reaches_plus;
use crate::graph::flipped;
use crate::graph::is_path_from_to;
use crate::graph::lemma_closed_reaches;
use crate::graph::lemma_reaches_first;
use crate::graph::lemma_reaches_plus;
use crate::graph::lemma_reaches_plus_last;
use crate::graph::lemma_flipped_reaches_plus;
use crate::dominance::frontier_by;
use crate::graph::lemma_reaches_prepend;
use crate::graph::lemma_reaches_self;
use crate::graph::lemma_reaches_step;
use crate::graph::successors;
use crate::graph::DiGraph;
use crate::ir::name_views;
use crate::ir::Name;
use crate::ir::NameView;
use crate::node_table::node_views;
use crate::node_table::CFGNode;
use crate::node_table::NodeTable;
use crate::node_table::NodeView;
use vstd::prelude::*;

verus! {

broadcast use vstd::seq_lib::lemma_seq_contains_after_push;

/// The control dependence graph for a particular function.
///
/// An edge from one block to another says that the first has an immediate
/// control dependence on the second. A path from one block to another says
/// that the first has a control dependence on the second.
pub struct ControlDependenceGraph {
    /// The ids of the nodes
    pub(crate) table: NodeTable,
    /// The graph itself, over the ids
    pub(crate) graph: DiGraph,
    /// Entry node for the function
    pub(crate) entry_node: usize,
    /// Each node's immediate postdominator
    pub(crate) par: Ghost<Map<usize, Option<usize>>>,
    /// Each node's number in the postdominator tree
    pub(crate) num: Ghost<Map<usize, usize>>,
    /// The edges of the control flow graph, reversed
    pub(crate) flow: Ghost<Set<(usize, usize)>>,
}

/// Whether the parent is the given node.
fn is_parent(parent: Option<usize>, x: usize) -> (r: bool)
    ensures
        r == (parent == Some(x)),
{
    match parent {
        Some(p) => p == x,
        None => false,
    }
}

/// Every node of the tree is listed in a postorder of the tree from its
/// entry.
proof fn lemma_postorder_covers(
    par: Map<usize, Option<usize>>,
    num: Map<usize, usize>,
    entry: usize,
    post: Seq<usize>,
    x: usize,
)
    requires
        tree_ok(par, num, entry),
        post.contains(entry),
        forall|a: usize, b: usize|
            post.contains(a) && #[trigger] tree_edges(par).contains((a, b)) ==> post.contains(b),
        par.dom().contains(x),
    ensures
        post.contains(x),
    decreases num[x],
{
    if x != entry {
        let r = par[x].unwrap();
        lemma_postorder_covers(par, num, entry, post, r);
        assert(tree_edges(par).contains((r, x)));
    }
}

/// The number of nodes that a walk has not come to yet.
pub open spec fn unvisited(visited: Seq<bool>) -> nat
    decreases visited.len(),
{
    if visited.len() == 0 {
        0
    } else {
        unvisited(visited.drop_last()) + if visited.last() {
            0nat
        } else {
            1nat
        }
    }
}

/// Coming to a node for the first time leaves one node fewer to come to.
proof fn lemma_visit(visited: Seq<bool>, i: int)
    requires
        0 <= i < visited.len(),
        !visited[i],
    ensures
        unvisited(visited.update(i, true)) + 1 == unvisited(visited),
    decreases visited.len(),
{
    let after = visited.update(i, true);
    if i == visited.len() - 1 {
        assert(after.drop_last() =~= visited.drop_last());
    } else {
        assert(after.drop_last() =~= visited.drop_last().update(i, true));
        lemma_visit(visited.drop_last(), i);
    }
}

/// The edges that a walk follows: the graph's own, or the graph's turned
/// around.
pub open spec fn walk_edges(g: DiGraph, incoming: bool) -> Set<(usize, usize)> {
    if incoming {
        flipped(edges_of(g))
    } else {
        edges_of(g)
    }
}

/// The nodes next to the given node: the sources of the edges that enter
/// it, or the targets of the edges that leave it.
fn neighbors(graph: &DiGraph, node: usize, incoming: bool) -> (r: Vec<usize>)
    ensures
        r@.no_duplicates(),
        forall|s: usize| r@.contains(s) <==> walk_edges(*graph, incoming).contains((node, s)),
{
    if incoming {
        predecessors(graph, node)
    } else {
        successors(graph, node)
    }
}

/// What holds while the nodes that a start node reaches are collected: the
/// nodes come to so far and the nodes still to look at are reached by the
/// start, and every neighbor of the start, and of a node come to, is come to
/// or still to look at.
spec fn collecting(
    edges: Set<(usize, usize)>,
    start: usize,
    limit: usize,
    visited: Seq<bool>,
    worklist: Seq<usize>,
    deps: Seq<usize>,
) -> bool {
    &&& visited.len() == limit + 1
    &&& forall|a: usize, b: usize| #[trigger] edges.contains((a, b)) ==> a <= limit && b <= limit
    &&& forall|y: usize| y <= limit && #[trigger] visited[y as int] ==> reaches_plus(edges, start, y)
    &&& forall|i: int|
        0 <= i < worklist.len() ==> #[trigger] worklist[i] <= limit && reaches_plus(
            edges,
            start,
            worklist[i],
        )
    &&& forall|y: usize, s: usize|
        y <= limit && visited[y as int] && #[trigger] edges.contains((y, s)) ==> visited[s as int]
            || worklist.contains(s)
    &&& forall|s: usize| #[trigger]
        edges.contains((start, s)) ==> visited[s as int] || worklist.contains(s)
    &&& deps.no_duplicates()
    &&& forall|y: usize| deps.contains(y) <==> y <= limit && visited[y as int]
}

/// The collection starts with nothing come to and the start's neighbors to
/// look at.
proof fn lemma_collect_init(
    edges: Set<(usize, usize)>,
    start: usize,
    limit: usize,
    visited: Seq<bool>,
    worklist: Seq<usize>,
)
    requires
        visited.len() == limit + 1,
        forall|k: int| 0 <= k < visited.len() ==> !visited[k],
        forall|a: usize, b: usize| #[trigger] edges.contains((a, b)) ==> a <= limit && b <= limit,
        forall|s: usize| worklist.contains(s) <==> edges.contains((start, s)),
    ensures
        collecting(edges, start, limit, visited, worklist, Seq::<usize>::empty()),
{
    assert forall|i: int| 0 <= i < worklist.len() implies #[trigger] worklist[i] <= limit
        && reaches_plus(edges, start, worklist[i]) by {
        assert(worklist.contains(worklist[i]));
        lemma_reaches_self(edges, worklist[i]);
        lemma_reaches_plus(edges, start, worklist[i]);
    }
}

/// Looking at a node that was come to before changes nothing but the list
/// of nodes to look at.
proof fn lemma_collect_skip(
    edges: Set<(usize, usize)>,
    start: usize,
    limit: usize,
    visited: Seq<bool>,
    worklist: Seq<usize>,
    deps: Seq<usize>,
)
    requires
        collecting(edges, start, limit, visited, worklist, deps),
        worklist.len() > 0,
        visited[worklist.last() as int],
    ensures
        collecting(edges, start, limit, visited, worklist.drop_last(), deps),
{
    let rest = worklist.drop_last();
    assert forall|s: usize| worklist.contains(s) implies s == worklist.last() || rest.contains(
        s,
    ) by {
        let k = choose|k: int| 0 <= k < worklist.len() && worklist[k] == s;
        if k < worklist.len() - 1 {
            assert(rest[k] == s);
        }
    }
    assert forall|i: int| 0 <= i < rest.len() implies #[trigger] rest[i] <= limit && reaches_plus(
        edges,
        start,
        rest[i],
    ) by {
        assert(rest[i] == worklist[i]);
    }
}

/// Coming to a node for the first time adds it to the nodes come to and its
/// neighbors to the nodes to look at.
proof fn lemma_collect_visit(
    edges: Set<(usize, usize)>,
    start: usize,
    limit: usize,
    visited: Seq<bool>,
    worklist: Seq<usize>,
    deps: Seq<usize>,
    next: Seq<usize>,
)
    requires
        collecting(edges, start, limit, visited, worklist, deps),
        worklist.len() > 0,
        !visited[worklist.last() as int],
        forall|s: usize| next.contains(s) <==> edges.contains((worklist.last(), s)),
    ensures
        collecting(
            edges,
            start,
            limit,
            visited.update(worklist.last() as int, true),
            worklist.drop_last() + next,
            deps.push(worklist.last()),
        ),
{
    let block = worklist.last();
    let rest = worklist.drop_last();
    let visited2 = visited.update(block as int, true);
    let worklist2 = rest + next;
    let deps2 = deps.push(block);
    assert(worklist[worklist.len() - 1] == block);
    assert forall|s: usize| worklist.contains(s) implies s == block || worklist2.contains(s) by {
        let k = choose|k: int| 0 <= k < worklist.len() && worklist[k] == s;
        if k < worklist.len() - 1 {
            assert(worklist2[k] == s);
        }
    }
    assert forall|s: usize| next.contains(s) implies worklist2.contains(s) by {
        let k = choose|k: int| 0 <= k < next.len() && next[k] == s;
        assert(worklist2[rest.len() + k] == s);
    }
    lemma_reaches_plus(edges, start, block);
    let s0 = choose|s: usize| edges.contains((start, s)) && reaches(edges, s, block);
    assert forall|i: int| 0 <= i < worklist2.len() implies #[trigger] worklist2[i] <= limit
        && reaches_plus(edges, start, worklist2[i]) by {
        if i < rest.len() {
            assert(worklist2[i] == worklist[i]);
        } else {
            let s = next[i - rest.len()];
            assert(next.contains(s));
            lemma_reaches_step(edges, s0, block, s);
            lemma_reaches_plus(edges, start, s);
        }
    }
    assert(!deps.contains(block));
    assert forall|y: usize| deps2.contains(y) <==> y <= limit && visited2[y as int] by {
        if deps2.contains(y) {
            let k = choose|k: int| 0 <= k < deps2.len() && deps2[k] == y;
            if k < deps.len() {
                assert(deps[k] == y);
                assert(deps.contains(y));
            }
        }
        if y <= limit && visited2[y as int] {
            if y == block {
                assert(deps2[deps.len() as int] == y);
            } else {
                assert(deps.contains(y));
                let k = choose|k: int| 0 <= k < deps.len() && deps[k] == y;
                assert(deps2[k] == y);
            }
        }
    }
    assert(deps2.no_duplicates()) by {
        assert forall|i: int, j: int| 0 <= i < j < deps2.len() implies deps2[i] != deps2[j] by {
            if j == deps.len() {
                assert(deps.contains(deps[i]));
            }
        }
    }
    assert forall|y: usize, s: usize|
        y <= limit && visited2[y as int] && #[trigger] edges.contains((y, s)) implies visited2[s as int]
        || worklist2.contains(s) by {
        if y == block {
            assert(next.contains(s));
        } else {
            assert(visited[y as int]);
        }
    }
}

/// When no node is left to look at, the nodes come to are all that the
/// start reaches.
proof fn lemma_collect_done(
    edges: Set<(usize, usize)>,
    start: usize,
    limit: usize,
    visited: Seq<bool>,
    deps: Seq<usize>,
)
    requires
        collecting(edges, start, limit, visited, Seq::<usize>::empty(), deps),
    ensures
        forall|y: usize| deps.contains(y) <==> reaches_plus(edges, start, y),
{
    let empty = Seq::<usize>::empty();
    let closed = Set::new(|y: usize| y <= limit && visited[y as int]);
    assert forall|a: usize, b: usize|
        closed.contains(a) && #[trigger] edges.contains((a, b)) implies closed.contains(b) by {
        assert(!empty.contains(b));
    }
    assert forall|y: usize| reaches_plus(edges, start, y) implies deps.contains(y) by {
        lemma_reaches_plus(edges, start, y);
        let s = choose|s: usize| edges.contains((start, s)) && reaches(edges, s, y);
        let p = choose|p: Seq<usize>| is_path_from_to(edges, p, s, y);
        assert(!empty.contains(s));
        lemma_closed_reaches(edges, closed, p, s, y);
    }
}

/// A mark for each node up to `limit`, none of them set.
fn fresh_marks(limit: usize) -> (marks: Vec<bool>)
    ensures
        marks@.len() == limit + 1,
        forall|k: int| 0 <= k < marks@.len() ==> !marks@[k],
{
    let mut marks: Vec<bool> = Vec::new();
    marks.push(false);
    let mut i: usize = 0;
    while i < limit
        invariant
            i <= limit,
            marks@.len() == i + 1,
            forall|k: int| 0 <= k < marks@.len() ==> !marks@[k],
        decreases limit - i,
    {
        marks.push(false);
        i += 1;
    }
    marks
}

/// Appends the nodes of `more` to `list`.
fn append_all(list: &mut Vec<usize>, more: &Vec<usize>)
    ensures
        final(list)@ == old(list)@ + more@,
{
    let mut j: usize = 0;
    while j < more.len()
        invariant
            j <= more@.len(),
            list@ == old(list)@ + more@.take(j as int),
        decreases more@.len() - j,
    {
        assert(more@.take(j + 1) =~= more@.take(j as int).push(more@[j as int]));
        list.push(more[j]);
        assert(list@ =~= old(list)@ + more@.take(j + 1));
        j += 1;
    }
    assert(more@.take(more@.len() as int) =~= more@);
}

/// The nodes that a walk of one or more edges from `start` leads to, each
/// once: found by looking at the neighbors of `start`, then at the neighbors
/// of each node found, until none is left to look at.
fn transitive_neighbors(graph: &DiGraph, start: usize, incoming: bool, limit: usize) -> (deps: Vec<
    usize,
>)
    requires
        forall|a: usize, b: usize| #[trigger]
            edges_of(*graph).contains((a, b)) ==> a <= limit && b <= limit,
    ensures
        deps@.no_duplicates(),
        forall|y: usize|
            deps@.contains(y) <==> reaches_plus(walk_edges(*graph, incoming), start, y),
{
    let ghost edges = walk_edges(*graph, incoming);
    assert forall|a: usize, b: usize| #[trigger] edges.contains((a, b)) implies a <= limit && b
        <= limit by {
        if incoming {
            assert(edges_of(*graph).contains((b, a)));
        }
    }
    let mut visited = fresh_marks(limit);
    let mut worklist = neighbors(graph, start, incoming);
    let mut deps: Vec<usize> = Vec::new();
    proof {
        lemma_collect_init(edges, start, limit, visited@, worklist@);
    }
    while worklist.len() > 0
        invariant
            edges == walk_edges(*graph, incoming),
            collecting(edges, start, limit, visited@, worklist@, deps@),
        decreases unvisited(visited@), worklist@.len(),
    {
        let ghost worklist0 = worklist@;
        let ghost visited0 = visited@;
        let ghost deps0 = deps@;
        let block = worklist.pop().unwrap();
        assert(worklist0.last() == block);
        assert(worklist@ == worklist0.drop_last());
        assert(block <= limit);
        if !visited[block] {
            visited.set(block, true);
            deps.push(block);
            let next = neighbors(graph, block, incoming);
            append_all(&mut worklist, &next);
            proof {
                lemma_visit(visited0, block as int);
                lemma_collect_visit(edges, start, limit, visited0, worklist0, deps0, next@);
            }
        } else {
            proof {
                lemma_collect_skip(edges, start, limit, visited0, worklist0, deps0);
            }
        }
    }
    proof {
        assert(worklist@ =~= Seq::<usize>::empty());
        lemma_collect_done(edges, start, limit, visited@, deps@);
    }
    deps
}

/// Whether `x` has an immediate control dependence on `y`: whether the
/// function can return from `x`, `x` postdominates a successor of `y`, and
/// `x` does not strictly postdominate `y`.
pub open spec fn depends_immediately(
    cfg: ControlFlowGraph,
    tree: PostDominatorTree,
    x: NodeView,
    y: NodeView,
) -> bool {
    &&& tree.reaches(x)
    &&& exists|s: NodeView| #[trigger]
        cfg.edges().contains((y, s)) && tree.postdominates_spec(x, s)
    &&& !tree.strictly_postdominates_spec(x, y)
}

impl ControlDependenceGraph {
    /// The graph holds an edge from each node of the postdominator tree to
    /// each node of its postdominance frontier.
    #[verifier::type_invariant]
    pub open(crate) spec fn wf(&self) -> bool {
        &&& self.table.wf()
        &&& self.table.block_count >= 1
        &&& self.entry_node == 1
        &&& forall|a: usize, b: usize| #[trigger]
            self.flow@.contains((a, b)) ==> self.table.is_id(a) && self.table.is_block_id(b)
        &&& forall|x: usize| #[trigger] self.par@.dom().contains(x) ==> self.table.is_id(x)
        &&& forall|x: usize, y: usize| #[trigger]
            edges_of(self.graph).contains((x, y)) <==> self.par@.dom().contains(x)
                && in_frontier(self.par@, self.num@, self.flow@, x, y)
    }

    /// Whether this is the control dependence graph of the given control flow
    /// graph and its postdominator tree.
    pub open(crate) spec fn is_for(&self, cfg: ControlFlowGraph, tree: PostDominatorTree) -> bool {
        &&& same_table(self.table, cfg.table)
        &&& self.par@ == tree.tree.par@
        &&& self.num@ == tree.tree.num@
        &&& self.flow@ == tree.tree.edges@
    }

    /// Whether the function has a block of the given name.
    pub open(crate) spec fn has_block(&self, name: NameView) -> bool {
        self.table.has_block(name)
    }

    /// The edges of the graph: one from each node to each node that it has
    /// an immediate control dependence on.
    pub open(crate) spec fn edges(&self) -> Set<(NodeView, NodeView)> {
        self.table.edge_views(edges_of(self.graph))
    }

    /// The name of the function's entry block.
    pub open(crate) spec fn entry_name(&self) -> NameView {
        self.table.names@[0]@
    }

    /// Builds the control dependence graph: each node of the postdominator
    /// tree, taken after its children in the tree, gets an edge to each node
    /// of its postdominance frontier.
    pub(crate) fn new(cfg: &ControlFlowGraph, postdomtree: &PostDominatorTree) -> (g: Self)
        requires
            cfg.wf(),
            postdomtree.wf(),
            postdomtree.is_for(*cfg),
        ensures
            g.wf(),
            g.is_for(*cfg, *postdomtree),
    {
        let ghost t = postdomtree.tree;
        let ghost par = t.par@;
        let ghost num = t.num@;
        let ghost flow = t.edges@;
        let mut graph = new_graph();
        let post = dfs_postorder(&postdomtree.tree.graph, 0);
        proof {
            assert(t.order@.contains(t.order@[0]));
            assert(par.dom().contains(0));
            assert forall|i: int| 0 <= i < post@.len() implies par.dom().contains(
                #[trigger] post@[i],
            ) by {
                lemma_tree_reach(par, num, 0, 0, post@[i]);
            }
            assert(post@.contains(post@[post@.len() - 1]));
            assert forall|i: int, z: usize|
                0 <= i < post@.len() && parent_in(par, z) == Some(
                    #[trigger] post@[i],
                ) implies #[trigger] post@.take(i).contains(z) by {
                let x = post@[i];
                assert(post@.contains(x));
                assert(tree_edges(par).contains((x, z)));
                assert(post@.contains(z));
                let i1 = choose|i1: int| 0 <= i1 < post@.len() && post@[i1] == z;
                if i1 > i {
                    assert(edges_of(t.graph).contains((post@[i], post@[i1])));
                    lemma_tree_reach(par, num, 0, z, x);
                    lemma_anc_num(par, num, z, x);
                }
                assert(post@.take(i)[i1] == z);
            }
        }
        let mut k: usize = 0;
        assert(post@.take(0) =~= Seq::<usize>::empty());
        while k < post.len()
            invariant
                cfg.wf(),
                postdomtree.wf(),
                postdomtree.is_for(*cfg),
                t == postdomtree.tree,
                par == t.par@,
                num == t.num@,
                flow == t.edges@,
                k <= post@.len(),
                forall|i: int| 0 <= i < post@.len() ==> par.dom().contains(#[trigger] post@[i]),
                forall|i: int, z: usize|
                    0 <= i < post@.len() && parent_in(par, z) == Some(#[trigger] post@[i])
                        ==> #[trigger] post@.take(i).contains(z),
                forall|x: usize, y: usize| #[trigger]
                    edges_of(graph).contains((x, y)) <==> post@.take(k as int).contains(x)
                        && in_frontier(par, num, flow, x, y),
            decreases post@.len() - k,
        {
            let block_x = post[k];
            proof {
                assert forall|z: usize, y: usize|
                    postdomtree.tree.parent_of(z) == Some(block_x) implies (#[trigger] edges_of(
                        graph,
                    ).contains((z, y)) <==> in_frontier(par, num, flow, z, y)) by {
                    assert(post@.take(k as int).contains(z));
                }
            }
            let frontier = Self::frontier_of(cfg, postdomtree, &graph, block_x);
            let ghost before = edges_of(graph);
            let mut j: usize = 0;
            assert(frontier@.take(0) =~= Seq::<usize>::empty());
            while j < frontier.len()
                invariant
                    j <= frontier@.len(),
                    forall|a: usize, b: usize| #[trigger]
                        edges_of(graph).contains((a, b)) <==> before.contains((a, b)) || (a
                            == block_x && frontier@.take(j as int).contains(b)),
                decreases frontier@.len() - j,
            {
                assert(frontier@.take(j + 1) =~= frontier@.take(j as int).push(frontier@[j as int]));
                add_edge(&mut graph, block_x, frontier[j]);
                j += 1;
            }
            proof {
                assert(frontier@.take(frontier@.len() as int) =~= frontier@);
                assert(post@.take(k + 1) =~= post@.take(k as int).push(block_x));
            }
            k += 1;
        }
        proof {
            assert(post@.take(post@.len() as int) =~= post@);
            assert forall|x: usize| par.dom().contains(x) implies post@.contains(x) by {
                assert forall|a: usize, b: usize|
                    post@.contains(a) && #[trigger] tree_edges(par).contains(
                        (a, b),
                    ) implies post@.contains(b) by {
                    assert(edges_of(t.graph).contains((a, b)));
                }
                lemma_postorder_covers(par, num, 0, post@, x);
            }
            assert forall|x: usize| #[trigger] par.dom().contains(x) implies cfg.table.is_id(
                x,
            ) by {
                postdomtree.lemma_tree_nodes(x);
            }
        }
        ControlDependenceGraph {
            table: cfg.table.duplicate(),
            graph,
            entry_node: cfg.entry_node,
            par: Ghost(par),
            num: Ghost(num),
            flow: Ghost(flow),
        }
    }

    /// Whether `a` has a control dependence on `b`: whether a walk of one or
    /// more edges leads from `a` to `b`.
    pub open(crate) spec fn depends_on(&self, a: NodeView, b: NodeView) -> bool {
        self.table.knows(a) && self.table.knows(b) && reaches_plus(
            edges_of(self.graph),
            self.table.id_of(a),
            self.table.id_of(b),
        )
    }

    /// A node has an immediate control dependence on another exactly when
    /// the function can return from it, it postdominates a successor of the
    /// other, and it does not strictly postdominate the other.
    pub proof fn lemma_edges(
        &self,
        cfg: ControlFlowGraph,
        tree: PostDominatorTree,
        x: NodeView,
        y: NodeView,
    )
        requires
            self.wf(),
            cfg.wf(),
            tree.wf(),
            tree.is_for(cfg),
            self.is_for(cfg, tree),
        ensures
            self.edges().contains((x, y)) == depends_immediately(cfg, tree, x, y),
    {
        let t = tree.tree;
        let par = t.par@;
        let num = t.num@;
        let flow = t.edges@;
        lemma_same_table(self.table, cfg.table);
        lemma_same_table(tree.table, cfg.table);
        if self.edges().contains((x, y)) {
            let (a, b) = choose|a: usize, b: usize| #[trigger]
                edges_of(self.graph).contains((a, b)) && (x, y) == (
                    self.table.view_of(a),
                    self.table.view_of(b),
                );
            self.lemma_edge_ends(a, b);
            let p = choose|p: usize| frontier_by(par, num, flow, a, b, p);
            assert(flow.contains((p, b)));
            assert(edges_of(cfg.graph).contains((b, p)));
            tree.table.lemma_id_of(a);
            tree.table.lemma_id_of(b);
            tree.table.lemma_id_of(p);
            let s = cfg.table.view_of(p);
            assert(cfg.edges().contains((y, s)));
            assert(tree.postdominates_spec(x, s));
            if x != y {
                assert(a != b);
            }
            assert(depends_immediately(cfg, tree, x, y));
        }
        if depends_immediately(cfg, tree, x, y) {
            let s = choose|s: NodeView| #[trigger]
                cfg.edges().contains((y, s)) && tree.postdominates_spec(x, s);
            cfg.table.lemma_edge_ids(edges_of(cfg.graph), y, s);
            let a = tree.table.id_of(x);
            let b = cfg.table.id_of(y);
            let p = cfg.table.id_of(s);
            assert(flow.contains((p, b)));
            if x == s {
                assert(anc(par, num, a, a));
                tree.table.lemma_ids_distinct(a, p);
            }
            assert(anc(par, num, a, p));
            if a != b && anc(par, num, a, b) {
                if x == y {
                    tree.table.lemma_ids_distinct(a, b);
                }
            }
            assert(frontier_by(par, num, flow, a, b, p));
            assert(edges_of(self.graph).contains((a, b)));
        }
    }

    /// Every edge leads from a node of the table to a block.
    proof fn lemma_edge_ends(&self, x: usize, y: usize)
        requires
            self.wf(),
            edges_of(self.graph).contains((x, y)),
        ensures
            self.table.is_id(x),
            self.table.is_block_id(y),
    {
        let p = choose|p: usize| frontier_by(self.par@, self.num@, self.flow@, x, y, p);
        assert(self.flow@.contains((p, y)));
    }

    /// Get the blocks that `block` has an immediate control dependency on,
    /// each once. Fails with `NotFound` exactly when the function has no
    /// block of that name.
    pub fn get_imm_control_dependencies(&self, block: &Name) -> (r: Result<
        Vec<Name>,
        AnalysisError,
    >)
        ensures
            r.is_ok() == self.has_block(block@),
            r matches Err(e) ==> e == AnalysisError::NotFound,
            r matches Ok(v) ==> {
                &&& name_views(v@).no_duplicates()
                &&& forall|n: NameView|
                    name_views(v@).contains(n) <==> self.edges().contains(
                        (NodeView::Block(block@), NodeView::Block(n)),
                    )
            },
    {
        proof {
            use_type_invariant(self);
        }
        match self.table.find_block(block) {
            Some(id) => Ok(self.get_imm_control_dependencies_of_cfgnode(id)),
            None => Err(AnalysisError::NotFound),
        }
    }

    /// The blocks that the node with the given id has an immediate control
    /// dependency on, each once.
    pub(crate) fn get_imm_control_dependencies_of_cfgnode(&self, id: usize) -> (v: Vec<Name>)
        requires
            self.wf(),
            self.table.is_id(id),
        ensures
            name_views(v@).no_duplicates(),
            forall|n: NameView|
                name_views(v@).contains(n) <==> self.edges().contains(
                    (self.table.view_of(id), NodeView::Block(n)),
                ),
    {
        let ids = successors(&self.graph, id);
        assert forall|k: int| 0 <= k < ids@.len() implies 1 <= #[trigger] ids@[k]
            <= self.table.names@.len() by {
            assert(ids@.contains(ids@[k]));
            self.lemma_edge_ends(id, ids@[k]);
        }
        let v = self.table.names_of_ids(&ids);
        proof {
            let views = name_views(v@);
            assert forall|i: int, j: int| 0 <= i < j < views.len() implies views[i]
                != views[j] by {
                if views[i] == views[j] {
                    self.table.lemma_ids_distinct(ids@[i], ids@[j]);
                }
            }
            assert forall|n: NameView| views.contains(n) implies self.edges().contains(
                (self.table.view_of(id), NodeView::Block(n)),
            ) by {
                let k = choose|k: int| 0 <= k < views.len() && views[k] == n;
                assert(ids@.contains(ids@[k]));
                assert(edges_of(self.graph).contains((id, ids@[k])));
            }
            assert forall|n: NameView|
                self.edges().contains(
                    (self.table.view_of(id), NodeView::Block(n)),
                ) implies views.contains(n) by {
                let (a, b) = choose|a: usize, b: usize| #[trigger]
                    edges_of(self.graph).contains((a, b)) && (
                        self.table.view_of(id),
                        NodeView::Block(n),
                    ) == (self.table.view_of(a), self.table.view_of(b));
                self.lemma_edge_ends(a, b);
                self.table.lemma_ids_distinct(a, id);
                assert(ids@.contains(b));
                let k = choose|k: int| 0 <= k < ids@.len() && ids@[k] == b;
                assert(views[k] == n);
            }
        }
        v
    }

    /// Get the blocks that `block` has a control dependency on (including
    /// transitively), each once.
    ///
    /// This is the block's immediate control dependencies, along with all the
    /// control dependencies of those dependencies, and so on recursively.
    /// Fails with `NotFound` exactly when the function has no block of that
    /// name.
    pub fn get_control_dependencies(&self, block: &Name) -> (r: Result<Vec<Name>, AnalysisError>)
        ensures
            r.is_ok() == self.has_block(block@),
            r matches Err(e) ==> e == AnalysisError::NotFound,
            r matches Ok(v) ==> {
                &&& name_views(v@).no_duplicates()
                &&& forall|n: NameView|
                    name_views(v@).contains(n) <==> self.depends_on(
                        NodeView::Block(block@),
                        NodeView::Block(n),
                    )
            },
    {
        proof {
            use_type_invariant(self);
        }
        let id = match self.table.find_block(block) {
            Some(id) => id,
            None => {
                return Err(AnalysisError::NotFound);
            },
        };
        proof {
            self.table.lemma_id_of(id);
            assert forall|a: usize, b: usize| #[trigger]
                edges_of(self.graph).contains((a, b)) implies a <= self.table.names@.len() && b
                <= self.table.names@.len() by {
                self.lemma_edge_ends(a, b);
            }
        }
        let ids = transitive_neighbors(&self.graph, id, false, self.table.names.len());
        assert forall|k: int| 0 <= k < ids@.len() implies 1 <= #[trigger] ids@[k]
            <= self.table.names@.len() by {
            assert(ids@.contains(ids@[k]));
            lemma_reaches_plus_last(edges_of(self.graph), id, ids@[k]);
            let x = choose|x: usize| edges_of(self.graph).contains((x, ids@[k]));
            self.lemma_edge_ends(x, ids@[k]);
        }
        let v = self.table.names_of_ids(&ids);
        proof {
            let views = name_views(v@);
            assert forall|i: int, j: int| 0 <= i < j < views.len() implies views[i]
                != views[j] by {
                if views[i] == views[j] {
                    self.table.lemma_ids_distinct(ids@[i], ids@[j]);
                }
            }
            assert forall|n: NameView| views.contains(n) implies self.depends_on(
                NodeView::Block(block@),
                NodeView::Block(n),
            ) by {
                let k = choose|k: int| 0 <= k < views.len() && views[k] == n;
                assert(ids@.contains(ids@[k]));
                self.table.lemma_id_of(ids@[k]);
            }
            assert forall|n: NameView|
                self.depends_on(
                    NodeView::Block(block@),
                    NodeView::Block(n),
                ) implies views.contains(n) by {
                let b = self.table.id_of(NodeView::Block(n));
                assert(ids@.contains(b));
                let k = choose|k: int| 0 <= k < ids@.len() && ids@[k] == b;
                assert(views[k] == n);
            }
        }
        Ok(v)
    }

    /// Get the nodes that have an immediate control dependency on `block`,
    /// each once. Fails with `NotFound` exactly when the function has no
    /// block of that name.
    pub fn get_imm_control_dependents(&self, block: &Name) -> (r: Result<
        Vec<CFGNode>,
        AnalysisError,
    >)
        ensures
            r.is_ok() == self.has_block(block@),
            r matches Err(e) ==> e == AnalysisError::NotFound,
            r matches Ok(v) ==> {
                &&& node_views(v@).no_duplicates()
                &&& forall|n: NodeView|
                    node_views(v@).contains(n) <==> self.edges().contains(
                        (n, NodeView::Block(block@)),
                    )
            },
    {
        proof {
            use_type_invariant(self);
        }
        match self.table.find_block(block) {
            Some(id) => Ok(self.get_imm_control_dependents_of_cfgnode(id)),
            None => Err(AnalysisError::NotFound),
        }
    }

    /// The nodes that have an immediate control dependency on the node with
    /// the given id, each once.
    pub(crate) fn get_imm_control_dependents_of_cfgnode(&self, id: usize) -> (v: Vec<CFGNode>)
        requires
            self.wf(),
            self.table.is_id(id),
        ensures
            node_views(v@).no_duplicates(),
            forall|n: NodeView|
                node_views(v@).contains(n) <==> self.edges().contains(
                    (n, self.table.view_of(id)),
                ),
    {
        let ids = predecessors(&self.graph, id);
        assert forall|k: int| 0 <= k < ids@.len() implies self.table.is_id(ids@[k]) by {
            assert(ids@.contains(ids@[k]));
            self.lemma_edge_ends(ids@[k], id);
        }
        let v = self.table.nodes_of_ids(&ids);
        proof {
            let views = node_views(v@);
            assert forall|i: int, j: int| 0 <= i < j < views.len() implies views[i]
                != views[j] by {
                if views[i] == views[j] {
                    self.table.lemma_ids_distinct(ids@[i], ids@[j]);
                }
            }
            assert forall|n: NodeView| views.contains(n) implies self.edges().contains(
                (n, self.table.view_of(id)),
            ) by {
                let k = choose|k: int| 0 <= k < views.len() && views[k] == n;
                assert(ids@.contains(ids@[k]));
                assert(edges_of(self.graph).contains((ids@[k], id)));
            }
            assert forall|n: NodeView|
                self.edges().contains((n, self.table.view_of(id))) implies views.contains(n) by {
                let (a, b) = choose|a: usize, b: usize| #[trigger]
                    edges_of(self.graph).contains((a, b)) && (n, self.table.view_of(id)) == (
                        self.table.view_of(a),
                        self.table.view_of(b),
                    );
                self.lemma_edge_ends(a, b);
                self.table.lemma_ids_distinct(b, id);
                assert(ids@.contains(a));
                let k = choose|k: int| 0 <= k < ids@.len() && ids@[k] == a;
                assert(views[k] == n);
            }
        }
        v
    }

    /// Get the nodes that have a control dependency on `block` (including
    /// transitively), each once.
    ///
    /// This is the block's immediate control dependents, along with all the
    /// control dependents of those dependents, and so on recursively. Fails
    /// with `NotFound` exactly when the function has no block of that name.
    pub fn get_control_dependents(&self, block: &Name) -> (r: Result<Vec<CFGNode>, AnalysisError>)
        ensures
            r.is_ok() == self.has_block(block@),
            r matches Err(e) ==> e == AnalysisError::NotFound,
            r matches Ok(v) ==> {
                &&& node_views(v@).no_duplicates()
                &&& forall|n: NodeView|
                    node_views(v@).contains(n) <==> self.depends_on(n, NodeView::Block(block@))
            },
    {
        proof {
            use_type_invariant(self);
        }
        let id = match self.table.find_block(block) {
            Some(id) => id,
            None => {
                return Err(AnalysisError::NotFound);
            },
        };
        let ghost edges = edges_of(self.graph);
        proof {
            self.table.lemma_id_of(id);
            assert forall|a: usize, b: usize| #[trigger] edges.contains((a, b)) implies a
                <= self.table.names@.len() && b <= self.table.names@.len() by {
                self.lemma_edge_ends(a, b);
            }
        }
        let ids = transitive_neighbors(&self.graph, id, true, self.table.names.len());
        assert forall|k: int| 0 <= k < ids@.len() implies self.table.is_id(ids@[k]) by {
            assert(ids@.contains(ids@[k]));
            lemma_reaches_plus_last(flipped(edges), id, ids@[k]);
            let x = choose|x: usize| flipped(edges).contains((x, ids@[k]));
            self.lemma_edge_ends(ids@[k], x);
        }
        let v = self.table.nodes_of_ids(&ids);
        proof {
            let views = node_views(v@);
            assert forall|i: int, j: int| 0 <= i < j < views.len() implies views[i]
                != views[j] by {
                if views[i] == views[j] {
                    self.table.lemma_ids_distinct(ids@[i], ids@[j]);
                }
            }
            assert forall|n: NodeView| views.contains(n) implies self.depends_on(
                n,
                NodeView::Block(block@),
            ) by {
                let k = choose|k: int| 0 <= k < views.len() && views[k] == n;
                assert(ids@.contains(ids@[k]));
                self.table.lemma_id_of(ids@[k]);
                lemma_flipped_reaches_plus(edges, id, ids@[k]);
            }
            assert forall|n: NodeView|
                self.depends_on(n, NodeView::Block(block@)) implies views.contains(n) by {
                let a = self.table.id_of(n);
                lemma_flipped_reaches_plus(edges, id, a);
                assert(ids@.contains(a));
                let k = choose|k: int| 0 <= k < ids@.len() && ids@[k] == a;
                assert(views[k] == n);
            }
        }
        Ok(v)
    }

    /// Does `block_a` have a control dependency on `block_b`?
    ///
    /// A block has a control dependency on itself only where a walk of one
    /// or more edges leads from it back to it.
    pub fn is_control_dependent(&self, block_a: &Name, block_b: &Name) -> (r: bool)
        ensures
            r == self.depends_on(NodeView::Block(block_a@), NodeView::Block(block_b@)),
    {
        proof {
            use_type_invariant(self);
        }
        let a = match self.table.lookup(&CFGNode::Block(block_a.duplicate())) {
            Some(a) => a,
            None => {
                return false;
            },
        };
        let b = match self.table.lookup(&CFGNode::Block(block_b.duplicate())) {
            Some(b) => b,
            None => {
                return false;
            },
        };
        let ghost edges = edges_of(self.graph);
        if a != b {
            // the simple case: a walk of no edges cannot lead from one block
            // to another
            proof {
                if reaches(edges, a, b) {
                    lemma_reaches_first(edges, a, b);
                }
                if reaches_plus(edges, a, b) {
                    lemma_reaches_plus(edges, a, b);
                    let s = choose|s: usize| edges.contains((a, s)) && reaches(edges, s, b);
                    lemma_reaches_prepend(edges, a, s, b);
                }
            }
            has_path(&self.graph, a, b)
        } else {
            // more complicated: we want to know if there is a nonzero-length
            // path from the block to itself. We check if there is a path
            // from any of the block's successors to the block.
            let succs = successors(&self.graph, a);
            let mut i: usize = 0;
            while i < succs.len()
                invariant
                    edges == edges_of(self.graph),
                    self.depends_on(NodeView::Block(block_a@), NodeView::Block(block_b@))
                        == reaches_plus(edges, a, a),
                    forall|s: usize| succs@.contains(s) <==> edges.contains((a, s)),
                    i <= succs@.len(),
                    forall|k: int| 0 <= k < i ==> !reaches(edges, #[trigger] succs@[k], a),
                decreases succs@.len() - i,
            {
                if has_path(&self.graph, succs[i], a) {
                    proof {
                        assert(succs@.contains(succs@[i as int]));
                        lemma_reaches_plus(edges, a, a);
                    }
                    return true;
                }
                i += 1;
            }
            proof {
                lemma_reaches_plus(edges, a, a);
                if reaches_plus(edges, a, a) {
                    let s = choose|s: usize| edges.contains((a, s)) && reaches(edges, s, a);
                    assert(succs@.contains(s));
                    let k = choose|k: int| 0 <= k < succs@.len() && succs@[k] == s;
                    assert(!reaches(edges, succs@[k], a));
                }
            }
            false
        }
    }

    /// Get the `Name` of the entry block for the function
    pub fn entry(&self) -> (name: &Name)
        ensures
            name@ == self.entry_name(),
            self.has_block(name@),
    {
        proof {
            use_type_invariant(self);
        }
        &self.table.names[0]
    }

    /// Appends to the frontier of `block_x` each of the candidates whose
    /// immediate postdominator is not `block_x`.
    fn extend_frontier(
        postdomtree: &PostDominatorTree,
        frontier: &mut Vec<usize>,
        candidates: &Vec<usize>,
        block_x: usize,
    )
        requires
            postdomtree.wf(),
        ensures
            forall|y: usize|
                final(frontier)@.contains(y) <==> (old(frontier)@.contains(y) || (
                candidates@.contains(y) && postdomtree.tree.parent_of(y) != Some(block_x))),
    {
        let mut i: usize = 0;
        assert(candidates@.take(0) =~= Seq::<usize>::empty());
        while i < candidates.len()
            invariant
                postdomtree.wf(),
                i <= candidates@.len(),
                forall|y: usize|
                    frontier@.contains(y) <==> (old(frontier)@.contains(y) || (candidates@.take(
                        i as int,
                    ).contains(y) && postdomtree.tree.parent_of(y) != Some(block_x))),
            decreases candidates@.len() - i,
        {
            let block_y = candidates[i];
            assert(candidates@.take(i + 1) =~= candidates@.take(i as int).push(block_y));
            if !is_parent(postdomtree.ipostdom_of_cfgnode(block_y), block_x) {
                frontier.push(block_y);
            }
            i += 1;
        }
        assert(candidates@.take(candidates@.len() as int) =~= candidates@);
    }

    /// The postdominance frontier of `block_x`, given the graph that holds
    /// the frontiers of its children in the postdominator tree.
    fn frontier_of(
        cfg: &ControlFlowGraph,
        postdomtree: &PostDominatorTree,
        graph: &DiGraph,
        block_x: usize,
    ) -> (frontier: Vec<usize>)
        requires
            cfg.wf(),
            postdomtree.wf(),
            postdomtree.is_for(*cfg),
            postdomtree.tree.holds(block_x),
            forall|z: usize, y: usize|
                postdomtree.tree.parent_of(z) == Some(block_x) ==> (#[trigger] edges_of(
                    *graph,
                ).contains((z, y)) <==> in_frontier(
                    postdomtree.tree.par@,
                    postdomtree.tree.num@,
                    postdomtree.tree.edges@,
                    z,
                    y,
                )),
        ensures
            forall|y: usize|
                frontier@.contains(y) <==> in_frontier(
                    postdomtree.tree.par@,
                    postdomtree.tree.num@,
                    postdomtree.tree.edges@,
                    block_x,
                    y,
                ),
    {
        let ghost par = postdomtree.tree.par@;
        let ghost num = postdomtree.tree.num@;
        let ghost flow = postdomtree.tree.edges@;
        let mut frontier: Vec<usize> = Vec::new();
        let ghost empty = frontier@;
        let preds = cfg.preds_as_nodes(block_x);
        Self::extend_frontier(postdomtree, &mut frontier, &preds, block_x);
        proof {
            assert forall|y: usize| frontier@.contains(y) <==> frontier_local(
                par,
                flow,
                block_x,
                y,
            ) by {
                assert(!empty.contains(y));
                assert(flow.contains((block_x, y)) == edges_of(cfg.graph).contains((y, block_x)));
                assert(preds@.contains(y) == edges_of(cfg.graph).contains((y, block_x)));
            }
        }
        let children = postdomtree.children_of_cfgnode(block_x);
        let mut c: usize = 0;
        while c < children.len()
            invariant
                postdomtree.wf(),
                par == postdomtree.tree.par@,
                num == postdomtree.tree.num@,
                flow == postdomtree.tree.edges@,
                c <= children@.len(),
                forall|z: usize| children@.contains(z) <==> parent_in(par, z) == Some(block_x),
                forall|z: usize, y: usize|
                    parent_in(par, z) == Some(block_x) ==> (#[trigger] edges_of(*graph).contains(
                        (z, y),
                    ) <==> in_frontier(par, num, flow, z, y)),
                forall|y: usize|
                    frontier@.contains(y) <==> (frontier_local(par, flow, block_x, y) || exists|
                        j: int,
                    |
                        0 <= j < c && frontier_up(par, num, flow, block_x, y, children@[j])),
            decreases children@.len() - c,
        {
            let block_z = children[c];
            assert(children@.contains(block_z));
            // we should have already computed all of the outgoing edges from
            // block_z
            let succs = successors(graph, block_z);
            let ghost outer = frontier@;
            Self::extend_frontier(postdomtree, &mut frontier, &succs, block_x);
            proof {
                assert forall|y: usize|
                    frontier@.contains(y) <==> (frontier_local(par, flow, block_x, y) || exists|
                        j: int,
                    |
                        0 <= j < c + 1 && frontier_up(
                            par,
                            num,
                            flow,
                            block_x,
                            y,
                            children@[j],
                        )) by {
                    assert(succs@.contains(y) == edges_of(*graph).contains((block_z, y)));
                    if frontier@.contains(y) && !outer.contains(y) {
                        assert(frontier_up(par, num, flow, block_x, y, children@[c as int]));
                    }
                    if outer.contains(y) && !frontier_local(par, flow, block_x, y) {
                        let j = choose|j: int|
                            0 <= j < c && frontier_up(par, num, flow, block_x, y, children@[j]);
                        assert(0 <= j < c + 1 && frontier_up(
                            par,
                            num,
                            flow,
                            block_x,
                            y,
                            children@[j],
                        ));
                    }
                    if exists|j: int|
                        0 <= j < c + 1 && frontier_up(par, num, flow, block_x, y, children@[j]) {
                        let j = choose|j: int|
                            0 <= j < c + 1 && frontier_up(
                                par,
                                num,
                                flow,
                                block_x,
                                y,
                                children@[j],
                            );
                        if j < c {
                            assert(outer.contains(y));
                        }
                    }
                }
            }
            c += 1;
        }
        proof {
            let t = postdomtree.tree;
            assert forall|y: usize| frontier@.contains(y) <==> in_frontier(
                par,
                num,
                flow,
                block_x,
                y,
            ) by {
                lemma_frontier(par, num, flow, t.entry, t.order@, block_x, y);
                if exists|z: usize| frontier_up(par, num, flow, block_x, y, z) {
                    let z = choose|z: usize| frontier_up(par, num, flow, block_x, y, z);
                    assert(children@.contains(z));
                    let j = choose|j: int| 0 <= j < children@.len() && children@[j] == z;
                    assert(0 <= j < c && frontier_up(par, num, flow, block_x, y, children@[j]));
                }
            }
        }
        frontier
    }
}

} // verus!
