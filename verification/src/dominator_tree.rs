//! Dominator and postdominator trees.

use crate::control_flow_graph::ControlFlowGraph;
use crate::dominance::anc;
use crate::dominance::common_anc;
use crate::dominance::is_fixed;
use crate::dominance::is_nca;
use crate::dominance::keeps_dominators;
use crate::dominance::lemma_keeps_step;
use crate::dominance::lemma_preorder_reaches;
use crate::dominance::lemma_tree_is_exact;
use crate::graph::dominated;
use crate::graph::flipped;
use crate::graph::lemma_flipped_dominated;
use crate::graph::lemma_flipped_reaches;
use crate::graph::postdominated;
use crate::graph::reaches;
use crate::dominance::above_nca;
use crate::dominance::has_witness;
use crate::graph::follows_earlier;
use crate::dominance::is_preorder;
use crate::dominance::common_upto;
use crate::dominance::tree_edges;
use crate::dominance::lemma_anc_chain;
use crate::dominance::lemma_anc_in_tree;
use crate::dominance::lemma_anc_num;
use crate::dominance::lemma_anc_trans;
use crate::dominance::lemma_first_step;
use crate::dominance::lemma_numbered_at;
use crate::dominance::lemma_numbered_push;
use crate::dominance::lemma_numbered_distinct;
use crate::dominance::lemma_potential_update;
use crate::dominance::lemma_sweep_step;
use crate::dominance::numbered;
use crate::dominance::parent_num;
use crate::dominance::potential;
use crate::dominance::sweep_ok;
use crate::dominance::tree_ok;
use crate::graph::add_edge;
use crate::graph::dfs_preorder;
use crate::graph::edges_of;
use crate::graph::new_graph;
use crate::graph::predecessors;
use crate::graph::successors;
use crate::graph::has_path;
use crate::dominance::lemma_tree_reach;
use crate::graph::DiGraph;
use crate::dominance::lemma_sink_is_leaf;
use crate::dominance::lemma_tree_node_is_target;
use crate::error::AnalysisError;
use crate::ir::Name;
use crate::ir::NameView;
use crate::ir::name_views;
use crate::node_table::node_views;
use crate::node_table::CFGNode;
use crate::node_table::NodeTable;
use crate::node_table::NodeView;
use std::collections::HashMap;
use vstd::prelude::*;

verus! {

broadcast use vstd::std_specs::hash::group_hash_axioms;

/// Contains state used when constructing the `DominatorTree` or
/// `PostDominatorTree`
struct DomTreeBuilder<'a> {
    /// The graph we're working from
    graph: &'a DiGraph,
    /// The node from which every walk starts
    entry: usize,
    /// The nodes that the entry reaches, in depth-first preorder
    order: Vec<usize>,
    /// Map from node to its number in the order, counted from 1.
    ///
    /// Unreachable nodes are not in this map.
    rpo_numbers: HashMap<usize, usize>,
    /// Map from node to the current estimate for its immediate dominator
    /// (the entry node maps to `None`).
    ///
    /// Unreachable nodes are not in this map.
    idoms: HashMap<usize, Option<usize>>,
}

impl<'a> DomTreeBuilder<'a> {
    /// The order is a depth-first preorder of the graph from the entry, and
    /// the numbers are those of the order.
    spec fn base_ok(&self) -> bool {
        &&& is_preorder(edges_of(*self.graph), self.entry, self.order@)
        &&& numbered(self.order@, self.rpo_numbers@)
    }

    /// The estimates form a tree.
    spec fn tree_ok(&self) -> bool {
        tree_ok(self.idoms@, self.rpo_numbers@, self.entry)
    }

    /// Construct a new `DomTreeBuilder`.
    ///
    /// This will have no estimates for the immediate dominators.
    fn new(graph: &'a DiGraph, entry: usize) -> (b: Self)
        ensures
            b.base_ok(),
            b.graph == graph,
            b.entry == entry,
            b.idoms@ == Map::<usize, Option<usize>>::empty(),
    {
        let order = dfs_preorder(graph, entry);
        let mut rpo_numbers: HashMap<usize, usize> = HashMap::new();
        let mut i: usize = 0;
        assert(numbered(order@.take(0), rpo_numbers@)) by {
            assert(order@.take(0) =~= Seq::<usize>::empty());
        }
        while i < order.len()
            invariant
                i <= order@.len(),
                order@.no_duplicates(),
                numbered(order@.take(i as int), rpo_numbers@),
            decreases order@.len() - i,
        {
            proof {
                lemma_numbered_push(order@, rpo_numbers@, i as int);
            }
            rpo_numbers.insert(order[i], i + 1);
            i += 1;
        }
        assert(order@.take(order@.len() as int) =~= order@);
        Self { graph, entry, order, rpo_numbers, idoms: HashMap::new() }
    }

    /// Build the dominator tree: the estimates are first made for each node
    /// in turn from the nodes before it, and then made again from all nodes,
    /// pass after pass, until a pass changes none.
    fn build(self) -> (r: (
        DiGraph,
        Ghost<Map<usize, Option<usize>>>,
        Ghost<Map<usize, usize>>,
        Ghost<Seq<usize>>,
    ))
        requires
            self.base_ok(),
            self.idoms@ == Map::<usize, Option<usize>>::empty(),
        ensures
            is_preorder(edges_of(*self.graph), self.entry, r.3@),
            is_fixed(r.1@, r.2@, edges_of(*self.graph), self.entry, r.3@),
            keeps_dominators(r.1@, edges_of(*self.graph), self.entry),
            edges_of(r.0) == tree_edges(r.1@),
    {
        let mut builder = self;
        let ghost edges = edges_of(*builder.graph);
        let ghost entry = builder.entry;
        let ghost order = builder.order@;
        let ghost num = builder.rpo_numbers@;
        let n = builder.order.len();
        proof {
            lemma_numbered_distinct(order, num);
        }

        // first compute initial (preliminary) estimates for the immediate
        // dominator of each block
        let mut i: usize = 0;
        while i < n
            invariant
                builder.base_ok(),
                builder.tree_ok(),
                edges == edges_of(*builder.graph),
                entry == builder.entry,
                order == builder.order@,
                num == builder.rpo_numbers@,
                n == order.len(),
                i <= n,
                forall|y: usize|
                    builder.idoms@.dom().contains(y) <==> exists|j: int|
                        0 <= j < i && order[j] == y,
                sweep_ok(builder.idoms@, num, edges, entry, n as int),
                keeps_dominators(builder.idoms@, edges, entry),
            decreases n - i,
        {
            let block = builder.order[i];
            let idom = builder.compute_idom(block);
            let ghost par = builder.idoms@;
            proof {
                assert(order.contains(block));
                assert(!par.dom().contains(block)) by {
                    if par.dom().contains(block) {
                        let j = choose|j: int| 0 <= j < i && order[j] == block;
                        assert(order[j] == order[i as int]);
                    }
                }
                assert forall|y: usize| num.dom().contains(y) implies num[y] <= n by {
                    lemma_numbered_at(order, num, y);
                }
                if i == 0 {
                    assert(par.dom() =~= Set::<usize>::empty());
                    assert(par.insert(block, idom).dom() =~= set![block]);
                } else {
                    assert(follows_earlier(edges, order, i as int));
                    let j = choose|j: int|
                        0 <= j < i && edges.contains((#[trigger] order[j], order[i as int]));
                    let q0 = order[j];
                    assert(par.dom().contains(q0));
                    assert(block != entry);
                    let m = idom.unwrap();
                    assert(common_anc(par, num, edges, m, block));
                    lemma_anc_num(par, num, m, q0);
                    assert(num[order[j]] == j + 1);
                    assert(num[order[i as int]] == i + 1);
                    lemma_first_step(par, num, edges, entry, n as int, block, m, q0);
                    lemma_keeps_step(par, num, edges, entry, block, m, q0);
                }
            }
            builder.idoms.insert(block, idom);
            proof {
                assert forall|y: usize|
                    builder.idoms@.dom().contains(y) <==> exists|j: int|
                        0 <= j < i + 1 && order[j] == y by {
                    if par.dom().contains(y) {
                        let j = choose|j: int| 0 <= j < i && order[j] == y;
                        assert(0 <= j < i + 1 && order[j] == y);
                    }
                    if exists|j: int| 0 <= j < i + 1 && order[j] == y {
                        let j = choose|j: int| 0 <= j < i + 1 && order[j] == y;
                        if j < i {
                            assert(par.dom().contains(y));
                        }
                    }
                }
            }
            i += 1;
        }
        proof {
            assert(builder.idoms@.dom() =~= num.dom()) by {
                assert forall|y: usize| builder.idoms@.dom().contains(y) <==> num.dom().contains(
                    y,
                ) by {
                    if num.dom().contains(y) {
                        assert(order.contains(y));
                    }
                }
            }
        }

        loop
            invariant_except_break
                builder.base_ok(),
                builder.tree_ok(),
                edges == edges_of(*builder.graph),
                entry == builder.entry,
                order == builder.order@,
                num == builder.rpo_numbers@,
                n == order.len(),
                builder.idoms@.dom() == num.dom(),
                sweep_ok(builder.idoms@, num, edges, entry, n as int),
                keeps_dominators(builder.idoms@, edges, entry),
            ensures
                builder.base_ok(),
                edges == edges_of(*builder.graph),
                entry == builder.entry,
                order == builder.order@,
                num == builder.rpo_numbers@,
                n == order.len(),
                is_fixed(builder.idoms@, num, edges, entry, order),
                keeps_dominators(builder.idoms@, edges, entry),
            decreases potential(builder.idoms@, num, order),
        {
            let mut changed = false;
            let ghost par0 = builder.idoms@;
            proof {
                assert forall|y: usize| #[trigger]
                    par0.dom().contains(y) && y != entry implies has_witness(
                    par0,
                    num,
                    edges,
                    y,
                ) by {
                    lemma_numbered_at(order, num, y);
                }
            }
            let mut i: usize = 0;
            while i < n
                invariant
                    builder.base_ok(),
                    builder.tree_ok(),
                    edges == edges_of(*builder.graph),
                    entry == builder.entry,
                    order == builder.order@,
                    num == builder.rpo_numbers@,
                    n == order.len(),
                    i <= n,
                    builder.idoms@.dom() == num.dom(),
                    sweep_ok(builder.idoms@, num, edges, entry, i as int),
                    keeps_dominators(builder.idoms@, edges, entry),
                    potential(builder.idoms@, num, order) <= potential(par0, num, order),
                    changed ==> potential(builder.idoms@, num, order) < potential(par0, num, order),
                    !changed ==> forall|j: int|
                        0 <= j < i && #[trigger] order[j] != entry ==> is_nca(
                            builder.idoms@,
                            num,
                            edges,
                            builder.idoms@[order[j]].unwrap(),
                            order[j],
                        ),
                decreases n - i,
            {
                let block = builder.order[i];
                let idom = builder.compute_idom(block);
                let ghost par = builder.idoms@;
                proof {
                    assert(order.contains(block));
                    assert(num[order[i as int]] == i + 1);
                    lemma_numbered_distinct(order, num);
                }
                match idom {
                    None => {
                        proof {
                            if i != 0 {
                                assert(follows_earlier(edges, order, i as int));
                                let j = choose|j: int|
                                    0 <= j < i && edges.contains(
                                        (#[trigger] order[j], order[i as int]),
                                    );
                                assert(order.contains(order[j]));
                                assert(false);
                            }
                            assert(block == entry);
                            assert forall|y: usize| #[trigger]
                                par.dom().contains(y) && y != entry implies above_nca(
                                par,
                                num,
                                edges,
                                y,
                            ) && ((num[y] <= i + 1 || i + 1 < num[par[y].unwrap()])
                                ==> has_witness(par, num, edges, y)) by {
                                lemma_numbered_at(order, num, y);
                            }
                        }
                    },
                    Some(m) => {
                        let prev = *builder.idoms.get(&block).unwrap();
                        proof {
                            assert(follows_earlier(edges, order, i as int));
                            let j = choose|j: int|
                                0 <= j < i && edges.contains(
                                    (#[trigger] order[j], order[i as int]),
                                );
                            let q0 = order[j];
                            assert(order.contains(q0));
                            assert(num[order[j]] == j + 1);
                            assert(common_anc(par, num, edges, m, block));
                            lemma_anc_num(par, num, m, q0);
                            lemma_sweep_step(par, num, edges, entry, i as int, block, m, q0);
                            lemma_keeps_step(par, num, edges, entry, block, m, q0);
                            lemma_anc_num(par, num, m, par[block].unwrap());
                            lemma_potential_update(par, num, order, block, m);
                            if prev == Some(m) {
                                assert(par.insert(block, Some(m)) =~= par);
                            }
                        }
                        let same = match prev {
                            Some(old) => old == m,
                            None => false,
                        };
                        if !same {
                            builder.idoms.insert(block, Some(m));
                            changed = true;
                        }
                    },
                }
                i += 1;
            }
            if !changed {
                proof {
                    assert forall|y: usize| #[trigger]
                        builder.idoms@.dom().contains(y) && y != entry implies is_nca(
                        builder.idoms@,
                        num,
                        edges,
                        builder.idoms@[y].unwrap(),
                        y,
                    ) by {
                        lemma_numbered_at(order, num, y);
                        assert(order[num[y] - 1] == y);
                    }
                }
                break ;
            }
            proof {
                assert forall|y: usize| #[trigger]
                    builder.idoms@.dom().contains(y) && y != entry implies above_nca(
                    builder.idoms@,
                    num,
                    edges,
                    y,
                ) && has_witness(builder.idoms@, num, edges, y) by {
                    lemma_numbered_at(order, num, y);
                }
            }
        }

        let ghost par = builder.idoms@;
        let mut tree = new_graph();
        let mut i: usize = 0;
        while i < n
            invariant
                edges == edges_of(*builder.graph),
                entry == builder.entry,
                order == builder.order@,
                num == builder.rpo_numbers@,
                par == builder.idoms@,
                n == order.len(),
                i <= n,
                is_fixed(par, num, edges, entry, order),
                keeps_dominators(par, edges, entry),
                forall|a: usize, b: usize|
                    edges_of(tree).contains((a, b)) <==> par.dom().contains(b) && par[b] == Some(
                        a,
                    ) && num[b] <= i,
            decreases n - i,
        {
            let block = builder.order[i];
            let ghost before = edges_of(tree);
            proof {
                assert(order.contains(block));
                assert(num[order[i as int]] == i + 1);
                lemma_numbered_distinct(order, num);
            }
            match builder.idoms.get(&block) {
                Some(Some(idom)) => {
                    add_edge(&mut tree, *idom, block);
                },
                _ => {},
            }
            proof {
                assert forall|a: usize, b: usize|
                    edges_of(tree).contains((a, b)) <==> par.dom().contains(b) && par[b] == Some(
                        a,
                    ) && num[b] <= i + 1 by {
                    if par.dom().contains(b) && par[b] == Some(a) && num[b] == i + 1 {
                        assert(b == block);
                    }
                }
            }
            i += 1;
        }
        proof {
            assert forall|e: (usize, usize)| edges_of(tree).contains(e) <==> tree_edges(
                par,
            ).contains(e) by {
                assert(e == (e.0, e.1));
                if par.dom().contains(e.1) {
                    lemma_numbered_at(order, num, e.1);
                }
                assert(edges_of(tree).contains((e.0, e.1)) <==> par.dom().contains(e.1) && par[e.1]
                    == Some(e.0) && num[e.1] <= n);
            }
            assert(edges_of(tree) =~= tree_edges(par));
        }
        (tree, Ghost(par), Ghost(num), Ghost(order))
    }

    /// Compute the immediate dominator for `block` using the current `idom`
    /// states for the nodes: the nearest common ancestor of its predecessors
    /// that have an estimate.
    ///
    /// Returns `None` only for the entry block, or where no predecessor has
    /// an estimate.
    fn compute_idom(&self, block: usize) -> (r: Option<usize>)
        requires
            self.base_ok(),
            self.tree_ok(),
        ensures
            block == self.entry ==> r.is_none(),
            r matches Some(m) ==> self.idoms@.dom().contains(m) && is_nca(
                self.idoms@,
                self.rpo_numbers@,
                edges_of(*self.graph),
                m,
                block,
            ),
            r.is_none() && block != self.entry ==> forall|p: usize|
                edges_of(*self.graph).contains((p, block)) ==> !self.idoms@.dom().contains(p),
    {
        if block == self.entry {
            return None;
        }
        // technically speaking, these are just the reachable preds which
        // already have an idom estimate
        let preds = predecessors(self.graph, block);
        let ghost par = self.idoms@;
        let ghost num = self.rpo_numbers@;
        let mut idom: Option<usize> = None;
        let mut i: usize = 0;
        while i < preds.len()
            invariant
                self.base_ok(),
                self.tree_ok(),
                par == self.idoms@,
                num == self.rpo_numbers@,
                i <= preds@.len(),
                match idom {
                    None => forall|j: int| 0 <= j < i ==> !par.dom().contains(#[trigger] preds@[j]),
                    Some(d) => {
                        &&& par.dom().contains(d)
                        &&& common_upto(par, num, preds@, i as int, d)
                        &&& forall|x: usize| #[trigger]
                            common_upto(par, num, preds@, i as int, x) ==> anc(par, num, x, d)
                    },
                },
            decreases preds@.len() - i,
        {
            let pred = preds[i];
            if self.idoms.contains_key(&pred) {
                match idom {
                    None => {
                        proof {
                            assert(anc(par, num, pred, pred));
                            assert forall|x: usize| #[trigger]
                                common_upto(par, num, preds@, i + 1, x) implies anc(
                                par,
                                num,
                                x,
                                pred,
                            ) by {
                                assert(par.dom().contains(preds@[i as int]));
                            }
                        }
                        idom = Some(pred);
                    },
                    Some(d) => {
                        let c = self.common_dominator(d, pred);
                        proof {
                            assert forall|j: int|
                                0 <= j < i + 1 && par.dom().contains(
                                    #[trigger] preds@[j],
                                ) implies anc(par, num, c, preds@[j]) by {
                                if j < i {
                                    lemma_anc_trans(par, num, c, d, preds@[j]);
                                }
                            }
                            assert forall|x: usize| #[trigger]
                                common_upto(par, num, preds@, i + 1, x) implies anc(
                                par,
                                num,
                                x,
                                c,
                            ) by {
                                assert(common_upto(par, num, preds@, i as int, x));
                                assert(par.dom().contains(preds@[i as int]));
                            }
                        }
                        idom = Some(c);
                    },
                }
            } else {
                proof {
                    match idom {
                        None => {},
                        Some(d) => {
                            assert forall|x: usize| #[trigger]
                                common_upto(par, num, preds@, i + 1, x) implies anc(
                                par,
                                num,
                                x,
                                d,
                            ) by {
                                assert(common_upto(par, num, preds@, i as int, x));
                            }
                        },
                    }
                }
            }
            i += 1;
        }
        proof {
            let edges = edges_of(*self.graph);
            match idom {
                None => {
                    assert forall|p: usize| edges.contains((p, block)) implies !par.dom().contains(
                        p,
                    ) by {
                        assert(preds@.contains(p));
                    }
                },
                Some(d) => {
                    assert forall|p: usize| #[trigger]
                        edges.contains((p, block)) && par.dom().contains(p) implies anc(
                        par,
                        num,
                        d,
                        p,
                    ) by {
                        assert(preds@.contains(p));
                    }
                    assert forall|x: usize| #[trigger]
                        common_anc(par, num, edges, x, block) implies anc(par, num, x, d) by {
                        assert forall|j: int|
                            0 <= j < preds@.len() && par.dom().contains(
                                #[trigger] preds@[j],
                            ) implies anc(par, num, x, preds@[j]) by {
                            assert(preds@.contains(preds@[j]));
                            assert(edges.contains((preds@[j], block)));
                        }
                        assert(common_upto(par, num, preds@, preds@.len() as int, x));
                    }
                },
            }
        }
        idom
    }

    /// Compute the common dominator of two nodes: their nearest common
    /// ancestor in the tree of the current estimates.
    ///
    /// Both nodes are assumed to be reachable.
    fn common_dominator(&self, node_a: usize, node_b: usize) -> (c: usize)
        requires
            self.base_ok(),
            self.tree_ok(),
            self.idoms@.dom().contains(node_a),
            self.idoms@.dom().contains(node_b),
        ensures
            self.idoms@.dom().contains(c),
            anc(self.idoms@, self.rpo_numbers@, c, node_a),
            anc(self.idoms@, self.rpo_numbers@, c, node_b),
            forall|x: usize|
                anc(self.idoms@, self.rpo_numbers@, x, node_a) && anc(
                    self.idoms@,
                    self.rpo_numbers@,
                    x,
                    node_b,
                ) ==> anc(self.idoms@, self.rpo_numbers@, x, c),
    {
        let mut a = node_a;
        let mut b = node_b;
        let ghost par = self.idoms@;
        let ghost num = self.rpo_numbers@;
        loop
            invariant
                self.base_ok(),
                self.tree_ok(),
                par == self.idoms@,
                num == self.rpo_numbers@,
                par.dom().contains(a),
                par.dom().contains(b),
                anc(par, num, a, node_a),
                anc(par, num, b, node_b),
                forall|x: usize|
                    anc(par, num, x, node_a) && anc(par, num, x, node_b) ==> anc(par, num, x, a)
                        && anc(par, num, x, b),
            ensures
                a == b,
                par.dom().contains(a),
                anc(par, num, a, node_a),
                anc(par, num, a, node_b),
                forall|x: usize|
                    anc(par, num, x, node_a) && anc(par, num, x, node_b) ==> anc(par, num, x, a),
            decreases num[a] + num[b],
        {
            let num_a = *self.rpo_numbers.get(&a).unwrap();
            let num_b = *self.rpo_numbers.get(&b).unwrap();
            if num_a < num_b {
                proof {
                    self.lemma_not_entry(b, a);
                }
                let up = self.idoms.get(&b).unwrap().unwrap();
                proof {
                    assert(anc(par, num, up, up));
                    assert(anc(par, num, up, b));
                    lemma_anc_trans(par, num, up, b, node_b);
                    assert forall|x: usize|
                        anc(par, num, x, node_a) && anc(par, num, x, node_b) implies anc(
                        par,
                        num,
                        x,
                        up,
                    ) by {
                        if x == b {
                            lemma_anc_num(par, num, b, a);
                        }
                    }
                }
                b = up;
            } else if num_a > num_b {
                proof {
                    self.lemma_not_entry(a, b);
                }
                let up = self.idoms.get(&a).unwrap().unwrap();
                proof {
                    assert(anc(par, num, up, up));
                    assert(anc(par, num, up, a));
                    lemma_anc_trans(par, num, up, a, node_a);
                    assert forall|x: usize|
                        anc(par, num, x, node_a) && anc(par, num, x, node_b) implies anc(
                        par,
                        num,
                        x,
                        up,
                    ) by {
                        if x == a {
                            lemma_anc_num(par, num, a, b);
                        }
                    }
                }
                a = up;
            } else {
                proof {
                    self.lemma_same_number(a, b);
                }
                break ;
            }
        }
        a
    }

    /// A node with a larger number than another is not the entry.
    proof fn lemma_not_entry(&self, n: usize, other: usize)
        requires
            self.base_ok(),
            self.rpo_numbers@.dom().contains(n),
            self.rpo_numbers@.dom().contains(other),
            self.rpo_numbers@[other] < self.rpo_numbers@[n],
        ensures
            n != self.entry,
    {
        lemma_numbered_at(self.order@, self.rpo_numbers@, other);
        assert(self.rpo_numbers@[self.order@[0]] == 1);
    }

    /// Two reachable nodes with the same number are the same node.
    proof fn lemma_same_number(&self, a: usize, b: usize)
        requires
            self.base_ok(),
            self.rpo_numbers@.dom().contains(a),
            self.rpo_numbers@.dom().contains(b),
            self.rpo_numbers@[a] == self.rpo_numbers@[b],
        ensures
            a == b,
    {
        lemma_numbered_distinct(self.order@, self.rpo_numbers@);
    }
}

/// A tree of immediate dominators over the ids of a graph's nodes, with the
/// numbering that it was built with.
pub(crate) struct IdomTree {
    /// The tree itself: an edge from each node's immediate dominator to the
    /// node
    pub(crate) graph: DiGraph,
    /// The node from which every walk starts
    pub(crate) entry: usize,
    /// Each reachable node's immediate dominator
    pub(crate) par: Ghost<Map<usize, Option<usize>>>,
    /// Each reachable node's number
    pub(crate) num: Ghost<Map<usize, usize>>,
    /// The reachable nodes in the order of their numbers
    pub(crate) order: Ghost<Seq<usize>>,
    /// The edges of the graph that the tree was built from
    pub(crate) edges: Ghost<Set<(usize, usize)>>,
}

impl IdomTree {
    /// The tree holds the nodes that the entry reaches, each below the
    /// nearest common ancestor of its predecessors.
    pub(crate) open spec fn wf(&self) -> bool {
        &&& is_preorder(self.edges@, self.entry, self.order@)
        &&& is_fixed(self.par@, self.num@, self.edges@, self.entry, self.order@)
        &&& keeps_dominators(self.par@, self.edges@, self.entry)
        &&& edges_of(self.graph) == tree_edges(self.par@)
    }

    /// Whether the tree holds the node: whether the entry reaches it.
    pub(crate) open spec fn holds(&self, id: usize) -> bool {
        self.par@.dom().contains(id)
    }

    /// Whether `a` is `b` or an ancestor of `b` in the tree.
    pub(crate) open spec fn above(&self, a: usize, b: usize) -> bool {
        anc(self.par@, self.num@, a, b)
    }

    /// The parent of the node, if the tree holds the node and it has one.
    pub(crate) open spec fn parent_of(&self, id: usize) -> Option<usize> {
        if self.par@.dom().contains(id) {
            self.par@[id]
        } else {
            None
        }
    }

    /// Builds the tree of immediate dominators of the graph's nodes.
    pub(crate) fn new(graph: &DiGraph, entry: usize) -> (t: IdomTree)
        ensures
            t.wf(),
            t.entry == entry,
            t.edges@ == edges_of(*graph),
    {
        let (tree, par, num, order) = DomTreeBuilder::new(graph, entry).build();
        IdomTree { graph: tree, entry, par, num, order, edges: Ghost(edges_of(*graph)) }
    }

    /// The parent of the node in the tree.
    pub(crate) fn parent(&self, id: usize) -> (r: Option<usize>)
        requires
            self.wf(),
        ensures
            r == self.parent_of(id),
    {
        let parents = predecessors(&self.graph, id);
        if parents.len() == 0 {
            proof {
                if self.par@.dom().contains(id) && self.par@[id].is_some() {
                    let p = self.par@[id].unwrap();
                    assert(tree_edges(self.par@).contains((p, id)));
                    assert(parents@.contains(p));
                }
            }
            None
        } else {
            let p = parents[0];
            assert(parents@.contains(p));
            assert(tree_edges(self.par@).contains((p, id)));
            Some(p)
        }
    }

    /// The children of the node in the tree, each once.
    pub(crate) fn children(&self, id: usize) -> (r: Vec<usize>)
        requires
            self.wf(),
        ensures
            r@.no_duplicates(),
            forall|c: usize| r@.contains(c) <==> self.parent_of(c) == Some(id),
    {
        let r = successors(&self.graph, id);
        proof {
            assert forall|c: usize| r@.contains(c) <==> self.parent_of(c) == Some(id) by {
                assert(tree_edges(self.par@).contains((id, c)) <==> self.parent_of(c) == Some(
                    id,
                ));
            }
        }
        r
    }

    /// Whether `a` is `b` or an ancestor of `b` in the tree.
    pub(crate) fn is_above(&self, a: usize, b: usize) -> (r: bool)
        requires
            self.wf(),
        ensures
            r == self.above(a, b),
    {
        proof {
            lemma_tree_reach(self.par@, self.num@, self.entry, a, b);
        }
        has_path(&self.graph, a, b)
    }
}

/// The dominator tree for a particular function.
///
/// An edge from one node to another says that the first is the immediate
/// dominator of the second. Nodes that the entry block does not reach are
/// not in the tree.
pub struct DominatorTree {
    /// The ids of the nodes
    pub(crate) table: NodeTable,
    /// The tree itself, over the ids
    pub(crate) tree: IdomTree,
}

/// The postdominator tree for a particular function.
///
/// An edge from one node to another says that the first is the immediate
/// postdominator of the second. Nodes from which the function cannot return
/// are not in the tree.
pub struct PostDominatorTree {
    /// The ids of the nodes
    pub(crate) table: NodeTable,
    /// The tree itself, over the ids
    pub(crate) tree: IdomTree,
}

/// Whether two node tables give the same ids to the same nodes.
pub open spec fn same_table(a: NodeTable, b: NodeTable) -> bool {
    &&& a.block_count == b.block_count
    &&& a.names@.len() == b.names@.len()
    &&& forall|i: int| 0 <= i < a.names@.len() ==> a.names@[i]@ == b.names@[i]@
}

/// Two tables that give the same ids to the same nodes know the same nodes
/// under the same ids.
pub proof fn lemma_same_table(a: NodeTable, b: NodeTable)
    requires
        a.wf(),
        same_table(a, b),
    ensures
        b.wf(),
        forall|id: usize| a.is_id(id) == b.is_id(id),
        forall|id: usize| a.is_id(id) ==> #[trigger] a.view_of(id) == b.view_of(id),
        forall|node: NodeView| #[trigger] a.knows(node) == b.knows(node),
        forall|node: NodeView| a.knows(node) ==> #[trigger] a.id_of(node) == b.id_of(node),
        forall|name: NameView| #[trigger] a.has_block(name) == b.has_block(name),
{
    assert forall|i: int, j: int| 0 <= i < j < b.names@.len() implies b.names@[i]@
        != b.names@[j]@ by {
        assert(a.names@[i]@ != a.names@[j]@);
    }
    assert forall|id: usize| a.is_id(id) implies #[trigger] a.view_of(id) == b.view_of(id) by {}
    assert forall|node: NodeView| #[trigger] a.knows(node) == b.knows(node) by {
        if a.knows(node) {
            let id = a.id_of(node);
            assert(b.is_id(id) && b.view_of(id) == node);
        }
        if b.knows(node) {
            let id = b.id_of(node);
            assert(a.is_id(id) && a.view_of(id) == node);
        }
    }
    assert forall|node: NodeView| a.knows(node) implies #[trigger] a.id_of(node) == b.id_of(
        node,
    ) by {
        b.lemma_ids_distinct(a.id_of(node), b.id_of(node));
    }
    assert forall|name: NameView| #[trigger] a.has_block(name) == b.has_block(name) by {
        if a.has_block(name) {
            let i = choose|i: int| 0 <= i < a.block_count && a.names@[i]@ == name;
            assert(b.names@[i]@ == name);
        }
        if b.has_block(name) {
            let i = choose|i: int| 0 <= i < b.block_count && b.names@[i]@ == name;
            assert(a.names@[i]@ == name);
        }
    }
}

/// Two tables that give the same ids to the same nodes read the same edges
/// between nodes from edges between ids.
pub proof fn lemma_same_edge_views(a: NodeTable, b: NodeTable, edges: Set<(usize, usize)>)
    requires
        a.wf(),
        same_table(a, b),
        a.ids_ok(edges),
    ensures
        a.edge_views(edges) == b.edge_views(edges),
{
    lemma_same_table(a, b);
    assert forall|e: (NodeView, NodeView)| a.edge_views(edges).contains(e) == b.edge_views(
        edges,
    ).contains(e) by {
        if a.edge_views(edges).contains(e) {
            let (x, y) = choose|x: usize, y: usize| #[trigger]
                edges.contains((x, y)) && e == (a.view_of(x), a.view_of(y));
            assert(edges.contains((x, y)) && e == (b.view_of(x), b.view_of(y)));
        }
        if b.edge_views(edges).contains(e) {
            let (x, y) = choose|x: usize, y: usize| #[trigger]
                edges.contains((x, y)) && e == (b.view_of(x), b.view_of(y));
            assert(edges.contains((x, y)) && e == (a.view_of(x), a.view_of(y)));
        }
    }
    assert(a.edge_views(edges) =~= b.edge_views(edges));
}

impl DominatorTree {
    /// The tree is that of a control flow graph over the table's nodes, from
    /// the first block.
    #[verifier::type_invariant]
    pub open(crate) spec fn wf(&self) -> bool {
        &&& self.table.wf()
        &&& self.table.block_count >= 1
        &&& self.tree.wf()
        &&& self.tree.entry == 1
        &&& forall|a: usize, b: usize| #[trigger]
            self.tree.edges@.contains((a, b)) ==> self.table.is_block_id(a) && self.table.is_id(
                b,
            )
    }

    /// Whether this is the dominator tree of the given control flow graph.
    pub open(crate) spec fn is_for(&self, cfg: ControlFlowGraph) -> bool {
        &&& same_table(self.table, cfg.table)
        &&& self.tree.edges@ == edges_of(cfg.graph)
    }

    /// Whether the function has a block of the given name.
    pub open(crate) spec fn has_block(&self, name: NameView) -> bool {
        self.table.has_block(name)
    }

    /// Whether the entry block reaches the node.
    pub open(crate) spec fn reaches(&self, node: NodeView) -> bool {
        self.table.knows(node) && self.tree.holds(self.table.id_of(node))
    }

    /// The immediate dominator of the node: `None` for the entry block and
    /// for nodes that the entry block does not reach.
    pub open(crate) spec fn idom_of(&self, node: NodeView) -> Option<NodeView> {
        if self.table.knows(node) {
            match self.tree.parent_of(self.table.id_of(node)) {
                Some(p) => Some(self.table.view_of(p)),
                None => None,
            }
        } else {
            None
        }
    }

    /// Whether `a` dominates `b`: whether `a` is `b`, its immediate
    /// dominator, the immediate dominator of that, and so on.
    pub open(crate) spec fn dominates_spec(&self, a: NodeView, b: NodeView) -> bool {
        a == b || (self.table.knows(a) && self.table.knows(b) && self.tree.above(
            self.table.id_of(a),
            self.table.id_of(b),
        ))
    }

    /// The name of the function's entry block.
    pub open(crate) spec fn entry_name(&self) -> NameView {
        self.table.names@[0]@
    }

    /// Whether `a` strictly dominates `b`: whether it dominates `b` and is
    /// not `b`.
    pub open spec fn strictly_dominates_spec(&self, a: NodeView, b: NodeView) -> bool {
        a != b && self.dominates_spec(a, b)
    }

    /// The entry block reaches a node, in the sense of the tree, exactly
    /// when a walk along the edges of the control flow graph leads from the
    /// entry block to the node.
    pub proof fn lemma_reaches(&self, cfg: ControlFlowGraph, node: NodeView)
        requires
            self.wf(),
            cfg.wf(),
            self.is_for(cfg),
        ensures
            self.reaches(node) == reaches(
                cfg.edges(),
                NodeView::Block(cfg.entry_name()),
                node,
            ),
    {
        let t = self.tree;
        let entry = NodeView::Block(cfg.entry_name());
        lemma_same_table(self.table, cfg.table);
        lemma_same_edge_views(self.table, cfg.table, t.edges@);
        assert(self.table.is_id(1) && self.table.view_of(1) == entry);
        self.table.lemma_id_of(1);
        self.table.lemma_reaches_views(t.edges@, entry, node);
        if self.table.knows(node) {
            lemma_preorder_reaches(t.edges@, 1, t.order@, self.table.id_of(node));
        }
    }

    /// A node has no immediate dominator exactly when it is the entry block
    /// or the entry block does not reach it.
    pub proof fn lemma_idom_none(&self, node: NodeView)
        requires
            self.wf(),
        ensures
            self.idom_of(node).is_none() == (node == NodeView::Block(self.entry_name())
                || !self.reaches(node)),
    {
        self.table.lemma_id_of(1);
        if self.table.knows(node) && self.table.id_of(node) == 1 {
            assert(self.table.view_of(1) == node);
        }
        if self.table.knows(node) && self.tree.holds(self.table.id_of(node)) {
            assert(self.tree.par@.dom().contains(self.table.id_of(node)));
        }
        if node == NodeView::Block(self.entry_name()) {
            assert(self.table.is_id(1) && self.table.view_of(1) == node);
            assert(self.tree.order@[0] == 1);
            assert(self.tree.order@.contains(1));
        }
    }

    /// For a node that the entry block reaches: `a` dominates it exactly
    /// when `a` lies on every walk along the edges of the control flow graph
    /// from the entry block to it.
    pub proof fn lemma_dominates(&self, cfg: ControlFlowGraph, a: NodeView, b: NodeView)
        requires
            self.wf(),
            cfg.wf(),
            self.is_for(cfg),
            self.reaches(b),
        ensures
            self.dominates_spec(a, b) == dominated(
                cfg.edges(),
                NodeView::Block(cfg.entry_name()),
                a,
                b,
            ),
    {
        let t = self.tree;
        let entry = NodeView::Block(cfg.entry_name());
        let views = self.table.edge_views(t.edges@);
        lemma_same_table(self.table, cfg.table);
        lemma_same_edge_views(self.table, cfg.table, t.edges@);
        assert(self.table.is_id(1) && self.table.view_of(1) == entry);
        self.table.lemma_id_of(1);
        let ib = self.table.id_of(b);
        lemma_preorder_reaches(t.edges@, 1, t.order@, ib);
        assert(t.order@.contains(ib));
        if dominated(views, entry, a, b) {
            self.table.lemma_dominated_ids(t.edges@, entry, a, b);
            lemma_tree_is_exact(t.par@, t.num@, t.edges@, 1, t.order@, self.table.id_of(a), ib);
        }
        if self.dominates_spec(a, b) {
            if a == b {
                assert(anc(t.par@, t.num@, ib, ib));
            }
            lemma_tree_is_exact(t.par@, t.num@, t.edges@, 1, t.order@, self.table.id_of(a), ib);
            self.table.lemma_dominated_nodes(t.edges@, entry, a, b);
        }
    }

    /// Where no walk along the edges of the control flow graph leads from
    /// the entry block to `Return`, `Return` has no immediate dominator.
    pub proof fn lemma_return_unreachable(&self, cfg: ControlFlowGraph)
        requires
            self.wf(),
            cfg.wf(),
            self.is_for(cfg),
            !reaches(cfg.edges(), NodeView::Block(cfg.entry_name()), NodeView::Return),
        ensures
            self.idom_of(NodeView::Return).is_none(),
    {
        self.lemma_reaches(cfg, NodeView::Return);
        self.lemma_idom_none(NodeView::Return);
    }

    /// Every node dominates itself.
    pub proof fn lemma_dominates_reflexive(&self, node: NodeView)
        ensures
            self.dominates_spec(node, node),
            !self.strictly_dominates_spec(node, node),
    {
    }

    /// Two nodes that dominate each other are the same node.
    pub proof fn lemma_dominates_antisymmetric(&self, a: NodeView, b: NodeView)
        requires
            self.wf(),
            self.dominates_spec(a, b),
            self.dominates_spec(b, a),
        ensures
            a == b,
    {
        if a != b {
            let t = self.tree;
            lemma_anc_num(t.par@, t.num@, self.table.id_of(a), self.table.id_of(b));
            lemma_anc_num(t.par@, t.num@, self.table.id_of(b), self.table.id_of(a));
        }
    }

    /// The immediate dominator of a node strictly dominates the node, and
    /// every other node that strictly dominates the node dominates the
    /// immediate dominator.
    pub proof fn lemma_idom_is_closest(&self, node: NodeView, idom: NodeView, other: NodeView)
        requires
            self.wf(),
            self.idom_of(node) == Some(idom),
        ensures
            self.strictly_dominates_spec(idom, node),
            self.strictly_dominates_spec(other, node) ==> self.dominates_spec(other, idom),
    {
        let t = self.tree;
        let n = self.table.id_of(node);
        let p = t.par@[n].unwrap();
        assert(t.holds(p));
        self.lemma_tree_nodes(p);
        self.lemma_tree_nodes(n);
        self.table.lemma_id_of(p);
        assert(anc(t.par@, t.num@, p, p));
        assert(anc(t.par@, t.num@, p, n));
        lemma_anc_num(t.par@, t.num@, p, n);
        if idom == node {
            self.table.lemma_ids_distinct(p, n);
        }
    }

    /// The nodes of the tree are nodes of the table, and `Return` is no
    /// node's ancestor but its own.
    pub(crate) proof fn lemma_tree_nodes(&self, z: usize)
        requires
            self.wf(),
            self.tree.holds(z),
        ensures
            self.table.is_id(z),
            self.tree.above(0, z) ==> z == 0,
    {
        let t = self.tree;
        if z != 1 {
            lemma_tree_node_is_target(t.par@, t.num@, t.edges@, t.entry, t.order@, z);
            let q = choose|q: usize| t.edges@.contains((q, z)) && t.par@.dom().contains(q);
            assert(self.table.is_id(z));
        }
        if self.tree.above(0, z) {
            assert forall|a: usize, b: usize| t.edges@.contains((a, b)) implies a != 0 by {
                assert(self.table.is_block_id(a));
            }
            lemma_sink_is_leaf(t.par@, t.num@, t.edges@, t.entry, t.order@, 0, z);
        }
    }

    /// Builds the dominator tree of the control flow graph.
    pub(crate) fn new(cfg: &ControlFlowGraph) -> (t: DominatorTree)
        requires
            cfg.wf(),
        ensures
            t.wf(),
            t.is_for(*cfg),
    {
        DominatorTree {
            table: cfg.table.duplicate(),
            tree: IdomTree::new(&cfg.graph, cfg.entry_node),
        }
    }

    /// Get the immediate dominator of the basic block with the given `Name`.
    ///
    /// This will be `None` for the entry block or for any unreachable blocks,
    /// and `Some` for all other blocks. Fails with `NotFound` exactly when
    /// the function has no block of that name.
    pub fn idom(&self, block: &Name) -> (r: Result<Option<Name>, AnalysisError>)
        ensures
            r.is_ok() == self.has_block(block@),
            r matches Err(e) ==> e == AnalysisError::NotFound,
            r matches Ok(o) ==> match o {
                Some(name) => self.idom_of(NodeView::Block(block@)) == Some(
                    NodeView::Block(name@),
                ),
                None => self.idom_of(NodeView::Block(block@)).is_none(),
            },
    {
        proof {
            use_type_invariant(self);
        }
        match self.table.find_block(block) {
            Some(id) => Ok(self.idom_of_id(id)),
            None => Err(AnalysisError::NotFound),
        }
    }

    /// Get the immediate dominator of `CFGNode::Return`.
    ///
    /// If the return node is unreachable (e.g., due to an infinite loop in
    /// the function), then the return node has no immediate dominator, and
    /// `None` will be returned.
    pub fn idom_of_return(&self) -> (o: Option<Name>)
        ensures
            match o {
                Some(name) => self.idom_of(NodeView::Return) == Some(NodeView::Block(name@)),
                None => self.idom_of(NodeView::Return).is_none(),
            },
    {
        proof {
            use_type_invariant(self);
        }
        self.idom_of_id(0)
    }

    /// The immediate dominator of the node with the given id.
    fn idom_of_id(&self, id: usize) -> (o: Option<Name>)
        requires
            self.wf(),
            self.table.is_id(id),
        ensures
            match o {
                Some(name) => self.idom_of(self.table.view_of(id)) == Some(
                    NodeView::Block(name@),
                ),
                None => self.idom_of(self.table.view_of(id)).is_none(),
            },
    {
        proof {
            self.table.lemma_id_of(id);
        }
        match self.tree.parent(id) {
            Some(p) => {
                proof {
                    assert(self.tree.holds(p));
                    self.lemma_tree_nodes(p);
                    self.lemma_tree_nodes(id);
                    if p == 0 {
                        assert(anc(self.tree.par@, self.tree.num@, 0, 0));
                        assert(self.tree.above(0, id));
                    }
                }
                Some(self.table.names[p - 1].duplicate())
            },
            None => None,
        }
    }

    /// Get the children of the given basic block in the dominator tree, i.e.,
    /// get all the nodes which are immediately dominated by `block`, each
    /// once. Fails with `NotFound` exactly when the function has no block of
    /// that name.
    pub fn children(&self, block: &Name) -> (r: Result<Vec<CFGNode>, AnalysisError>)
        ensures
            r.is_ok() == self.has_block(block@),
            r matches Err(e) ==> e == AnalysisError::NotFound,
            r matches Ok(v) ==> {
                &&& node_views(v@).no_duplicates()
                &&& forall|c: NodeView|
                    node_views(v@).contains(c) <==> self.idom_of(c) == Some(
                        NodeView::Block(block@),
                    )
            },
    {
        proof {
            use_type_invariant(self);
        }
        let id = match self.table.find_block(block) {
            Some(id) => id,
            None => {
                return Err(AnalysisError::NotFound);
            },
        };
        let ids = self.tree.children(id);
        assert forall|c: usize| self.tree.parent_of(c) == Some(id) implies self.table.is_id(
            c,
        ) by {
            self.lemma_tree_nodes(c);
        }
        assert forall|k: int| 0 <= k < ids@.len() implies self.table.is_id(ids@[k]) by {
            assert(ids@.contains(ids@[k]));
        }
        let v = self.table.nodes_of_ids(&ids);
        proof {
            lemma_children_views(self.table, self.tree, id, ids@, v@);
            assert forall|c: NodeView|
                node_views(v@).contains(c) <==> self.idom_of(c) == Some(
                    NodeView::Block(block@),
                ) by {
                if self.table.knows(c) {
                    match self.tree.parent_of(self.table.id_of(c)) {
                        Some(p) => {
                            self.lemma_tree_nodes(self.table.id_of(c));
                            assert(self.tree.holds(p));
                            self.lemma_tree_nodes(p);
                            if self.table.view_of(p) == self.table.view_of(id) {
                                self.table.lemma_ids_distinct(p, id);
                            }
                        },
                        None => {},
                    }
                }
            }
        }
        Ok(v)
    }

    /// Does `node_a` dominate `node_b`?
    ///
    /// Note that every node dominates itself by definition, so if
    /// `node_a == node_b`, this returns `true`.
    /// See also `strictly_dominates()`
    pub fn dominates(&self, node_a: &CFGNode, node_b: &CFGNode) -> (r: bool)
        ensures
            r == self.dominates_spec(node_a@, node_b@),
    {
        proof {
            use_type_invariant(self);
        }
        is_above_by_view(&self.table, &self.tree, node_a, node_b)
    }

    /// Does `node_a` strictly dominate `node_b`?
    ///
    /// This is the same as `dominates()`, except that if
    /// `node_a == node_b`, this returns `false`.
    pub fn strictly_dominates(&self, node_a: &CFGNode, node_b: &CFGNode) -> (r: bool)
        ensures
            r == self.strictly_dominates_spec(node_a@, node_b@),
    {
        !node_a.same(node_b) && self.dominates(node_a, node_b)
    }

    /// Get the `Name` of the entry block for the function
    pub fn entry(&self) -> (name: &Name)
        ensures
            name@ == self.entry_name(),
            self.has_block(name@),
    {
        proof {
            use_type_invariant(self);
        }
        &self.table.names[0]
    }
}

impl PostDominatorTree {
    /// The tree is that of a reversed control flow graph over the table's
    /// nodes, from `Return`.
    #[verifier::type_invariant]
    pub open(crate) spec fn wf(&self) -> bool {
        &&& self.table.wf()
        &&& self.tree.wf()
        &&& self.tree.entry == 0
        &&& forall|a: usize, b: usize| #[trigger]
            self.tree.edges@.contains((a, b)) ==> self.table.is_id(a) && self.table.is_block_id(
                b,
            )
    }

    /// Whether this is the postdominator tree of the given control flow
    /// graph.
    pub open(crate) spec fn is_for(&self, cfg: ControlFlowGraph) -> bool {
        &&& same_table(self.table, cfg.table)
        &&& forall|a: usize, b: usize|
            self.tree.edges@.contains((a, b)) == edges_of(cfg.graph).contains((b, a))
    }

    /// Whether the function has a block of the given name.
    pub open(crate) spec fn has_block(&self, name: NameView) -> bool {
        self.table.has_block(name)
    }

    /// Whether the function can return from the node.
    pub open(crate) spec fn reaches(&self, node: NodeView) -> bool {
        self.table.knows(node) && self.tree.holds(self.table.id_of(node))
    }

    /// The immediate postdominator of the node: `None` for `Return` and for
    /// nodes from which the function cannot return.
    pub open(crate) spec fn ipostdom_of(&self, node: NodeView) -> Option<NodeView> {
        if self.table.knows(node) {
            match self.tree.parent_of(self.table.id_of(node)) {
                Some(p) => Some(self.table.view_of(p)),
                None => None,
            }
        } else {
            None
        }
    }

    /// Whether `a` postdominates `b`: whether `a` is `b`, its immediate
    /// postdominator, the immediate postdominator of that, and so on.
    pub open(crate) spec fn postdominates_spec(&self, a: NodeView, b: NodeView) -> bool {
        a == b || (self.table.knows(a) && self.table.knows(b) && self.tree.above(
            self.table.id_of(a),
            self.table.id_of(b),
        ))
    }

    /// Whether `a` strictly postdominates `b`: whether it postdominates `b`
    /// and is not `b`.
    pub open spec fn strictly_postdominates_spec(&self, a: NodeView, b: NodeView) -> bool {
        a != b && self.postdominates_spec(a, b)
    }

    /// The function can return from a node, in the sense of the tree,
    /// exactly when a walk along the edges of the control flow graph leads
    /// from the node to `Return`.
    pub proof fn lemma_reaches(&self, cfg: ControlFlowGraph, node: NodeView)
        requires
            self.wf(),
            cfg.wf(),
            self.is_for(cfg),
        ensures
            self.reaches(node) == reaches(cfg.edges(), node, NodeView::Return),
    {
        let t = self.tree;
        lemma_same_table(self.table, cfg.table);
        self.table.lemma_flipped_views(edges_of(cfg.graph), t.edges@);
        lemma_same_edge_views(cfg.table, self.table, edges_of(cfg.graph));
        assert(self.table.is_id(0) && self.table.view_of(0) == NodeView::Return);
        self.table.lemma_id_of(0);
        self.table.lemma_reaches_views(t.edges@, NodeView::Return, node);
        if self.table.knows(node) {
            lemma_preorder_reaches(t.edges@, 0, t.order@, self.table.id_of(node));
        }
        lemma_flipped_reaches(cfg.edges(), NodeView::Return, node);
    }

    /// A node has no immediate postdominator exactly when it is `Return` or
    /// the function cannot return from it.
    pub proof fn lemma_ipostdom_none(&self, node: NodeView)
        requires
            self.wf(),
        ensures
            self.ipostdom_of(node).is_none() == (node == NodeView::Return || !self.reaches(
                node,
            )),
    {
        self.table.lemma_id_of(0);
        if self.table.knows(node) && self.table.id_of(node) == 0 {
            assert(self.table.view_of(0) == node);
        }
        if self.table.knows(node) && self.tree.holds(self.table.id_of(node)) {
            assert(self.tree.par@.dom().contains(self.table.id_of(node)));
        }
        if node == NodeView::Return {
            assert(self.table.is_id(0) && self.table.view_of(0) == node);
            assert(self.tree.order@[0] == 0);
            assert(self.tree.order@.contains(0));
        }
    }

    /// Postdominance is dominance on the control flow graph with its edges
    /// turned around, from `Return`: for a node from which the function can
    /// return, `a` postdominates it exactly when `a` lies on every walk
    /// along the turned edges from `Return` to it.
    pub proof fn lemma_mirrors_dominance(&self, cfg: ControlFlowGraph, a: NodeView, b: NodeView)
        requires
            self.wf(),
            cfg.wf(),
            self.is_for(cfg),
            self.reaches(b),
        ensures
            self.postdominates_spec(a, b) == dominated(
                flipped(cfg.edges()),
                NodeView::Return,
                a,
                b,
            ),
    {
        let t = self.tree;
        let exit = NodeView::Return;
        let views = self.table.edge_views(t.edges@);
        lemma_same_table(self.table, cfg.table);
        self.table.lemma_flipped_views(edges_of(cfg.graph), t.edges@);
        lemma_same_edge_views(cfg.table, self.table, edges_of(cfg.graph));
        assert(views == flipped(cfg.edges()));
        assert(self.table.is_id(0) && self.table.view_of(0) == exit);
        self.table.lemma_id_of(0);
        let ib = self.table.id_of(b);
        lemma_preorder_reaches(t.edges@, 0, t.order@, ib);
        assert(t.order@.contains(ib));
        if dominated(views, exit, a, b) {
            self.table.lemma_dominated_ids(t.edges@, exit, a, b);
            lemma_tree_is_exact(t.par@, t.num@, t.edges@, 0, t.order@, self.table.id_of(a), ib);
        }
        if self.postdominates_spec(a, b) {
            if a == b {
                assert(anc(t.par@, t.num@, ib, ib));
            }
            lemma_tree_is_exact(t.par@, t.num@, t.edges@, 0, t.order@, self.table.id_of(a), ib);
            self.table.lemma_dominated_nodes(t.edges@, exit, a, b);
        }
    }

    /// For a node from which the function can return: `a` postdominates it
    /// exactly when `a` lies on every walk along the edges of the control
    /// flow graph from it to `Return`.
    pub proof fn lemma_postdominates(&self, cfg: ControlFlowGraph, a: NodeView, b: NodeView)
        requires
            self.wf(),
            cfg.wf(),
            self.is_for(cfg),
            self.reaches(b),
        ensures
            self.postdominates_spec(a, b) == postdominated(
                cfg.edges(),
                NodeView::Return,
                a,
                b,
            ),
    {
        self.lemma_mirrors_dominance(cfg, a, b);
        lemma_flipped_dominated(cfg.edges(), NodeView::Return, a, b);
    }

    /// A block from which no walk along the edges of the control flow graph
    /// leads to `Return` has no immediate postdominator.
    pub proof fn lemma_cannot_return(&self, cfg: ControlFlowGraph, node: NodeView)
        requires
            self.wf(),
            cfg.wf(),
            self.is_for(cfg),
            !reaches(cfg.edges(), node, NodeView::Return),
        ensures
            self.ipostdom_of(node).is_none(),
    {
        self.lemma_reaches(cfg, node);
        self.lemma_ipostdom_none(node);
    }

    /// Every node postdominates itself.
    pub proof fn lemma_postdominates_reflexive(&self, node: NodeView)
        ensures
            self.postdominates_spec(node, node),
            !self.strictly_postdominates_spec(node, node),
    {
    }

    /// Two nodes that postdominate each other are the same node.
    pub proof fn lemma_postdominates_antisymmetric(&self, a: NodeView, b: NodeView)
        requires
            self.wf(),
            self.postdominates_spec(a, b),
            self.postdominates_spec(b, a),
        ensures
            a == b,
    {
        if a != b {
            let t = self.tree;
            lemma_anc_num(t.par@, t.num@, self.table.id_of(a), self.table.id_of(b));
            lemma_anc_num(t.par@, t.num@, self.table.id_of(b), self.table.id_of(a));
        }
    }

    /// The nodes of the tree are nodes of the table, and all but `Return`
    /// are blocks of the function.
    pub(crate) proof fn lemma_tree_nodes(&self, z: usize)
        requires
            self.wf(),
            self.tree.holds(z),
        ensures
            self.table.is_id(z),
            z != 0 ==> self.table.is_block_id(z),
    {
        let t = self.tree;
        if z != 0 {
            lemma_tree_node_is_target(t.par@, t.num@, t.edges@, t.entry, t.order@, z);
            let q = choose|q: usize| t.edges@.contains((q, z)) && t.par@.dom().contains(q);
            assert(self.table.is_block_id(z));
        }
    }

    /// Builds the postdominator tree of the control flow graph.
    pub(crate) fn new(cfg: &ControlFlowGraph) -> (t: PostDominatorTree)
        requires
            cfg.wf(),
        ensures
            t.wf(),
            t.is_for(*cfg),
    {
        // The postdominator relation for `cfg` is the dominator relation on
        // the reversed `cfg` (Cytron et al, p. 477)
        let reversed = cfg.reversed();
        PostDominatorTree { table: cfg.table.duplicate(), tree: IdomTree::new(&reversed, 0) }
    }

    /// Get the immediate postdominator of the basic block with the given
    /// `Name`.
    ///
    /// This will be `None` for blocks from which the function cannot return
    /// (e.g. due to an infinite loop), and `Some` for all other blocks. If
    /// the immediate postdominator is `CFGNode::Return`, that indicates that
    /// there is no single basic block that postdominates the given block.
    /// Fails with `NotFound` exactly when the function has no block of that
    /// name.
    pub fn ipostdom(&self, block: &Name) -> (r: Result<Option<CFGNode>, AnalysisError>)
        ensures
            r.is_ok() == self.has_block(block@),
            r matches Err(e) ==> e == AnalysisError::NotFound,
            r matches Ok(o) ==> match o {
                Some(node) => self.ipostdom_of(NodeView::Block(block@)) == Some(node@),
                None => self.ipostdom_of(NodeView::Block(block@)).is_none(),
            },
    {
        proof {
            use_type_invariant(self);
        }
        let id = match self.table.find_block(block) {
            Some(id) => id,
            None => {
                return Err(AnalysisError::NotFound);
            },
        };
        proof {
            self.table.lemma_id_of(id);
        }
        match self.ipostdom_of_cfgnode(id) {
            Some(p) => {
                proof {
                    assert(self.tree.holds(p));
                    self.lemma_tree_nodes(p);
                }
                Ok(Some(self.table.node(p)))
            },
            None => Ok(None),
        }
    }

    /// See notes on `ipostdom()`, but in addition, this will be `None` for
    /// `CFGNode::Return`
    pub(crate) fn ipostdom_of_cfgnode(&self, id: usize) -> (r: Option<usize>)
        requires
            self.wf(),
        ensures
            r == self.tree.parent_of(id),
    {
        self.tree.parent(id)
    }

    /// Get the children of the given basic block in the postdominator tree,
    /// i.e., get all the nodes which are immediately postdominated by
    /// `block`, each once. Fails with `NotFound` exactly when the function
    /// has no block of that name.
    pub fn children(&self, block: &Name) -> (r: Result<Vec<CFGNode>, AnalysisError>)
        ensures
            r.is_ok() == self.has_block(block@),
            r matches Err(e) ==> e == AnalysisError::NotFound,
            r matches Ok(v) ==> {
                &&& node_views(v@).no_duplicates()
                &&& forall|c: NodeView|
                    node_views(v@).contains(c) <==> self.ipostdom_of(c) == Some(
                        NodeView::Block(block@),
                    )
            },
    {
        proof {
            use_type_invariant(self);
        }
        let id = match self.table.find_block(block) {
            Some(id) => id,
            None => {
                return Err(AnalysisError::NotFound);
            },
        };
        let ids = self.children_of_cfgnode(id);
        assert forall|c: usize| self.tree.parent_of(c) == Some(id) implies self.table.is_id(
            c,
        ) by {
            self.lemma_tree_nodes(c);
        }
        assert forall|k: int| 0 <= k < ids@.len() implies self.table.is_id(ids@[k]) by {
            assert(ids@.contains(ids@[k]));
        }
        let v = self.table.nodes_of_ids(&ids);
        proof {
            lemma_children_views(self.table, self.tree, id, ids@, v@);
            self.lemma_children_of(id, node_views(v@));
        }
        Ok(v)
    }

    /// The nodes whose parent has the given id are those whose immediate
    /// postdominator is the node with that id.
    proof fn lemma_children_of(&self, id: usize, views: Seq<NodeView>)
        requires
            self.wf(),
            self.table.is_id(id),
            forall|c: NodeView|
                views.contains(c) <==> (self.table.knows(c) && self.tree.parent_of(
                    self.table.id_of(c),
                ) == Some(id)),
        ensures
            forall|c: NodeView|
                views.contains(c) <==> self.ipostdom_of(c) == Some(self.table.view_of(id)),
    {
        assert forall|c: NodeView|
            views.contains(c) <==> self.ipostdom_of(c) == Some(self.table.view_of(id)) by {
            if self.table.knows(c) {
                match self.tree.parent_of(self.table.id_of(c)) {
                    Some(p) => {
                        assert(self.tree.holds(p));
                        self.lemma_tree_nodes(p);
                        if self.table.view_of(p) == self.table.view_of(id) {
                            self.table.lemma_ids_distinct(p, id);
                        }
                    },
                    None => {},
                }
            }
        }
    }

    /// The ids of the nodes whose immediate postdominator is the node with the
    /// given id, each once.
    pub(crate) fn children_of_cfgnode(&self, id: usize) -> (r: Vec<usize>)
        requires
            self.wf(),
        ensures
            r@.no_duplicates(),
            forall|c: usize| r@.contains(c) <==> self.tree.parent_of(c) == Some(id),
    {
        self.tree.children(id)
    }

    /// Get the children of `CFGNode::Return` in the postdominator tree, i.e.,
    /// get all the blocks which are immediately postdominated by
    /// `CFGNode::Return`, each once.
    pub fn children_of_return(&self) -> (v: Vec<Name>)
        ensures
            name_views(v@).no_duplicates(),
            forall|c: NameView|
                name_views(v@).contains(c) <==> self.ipostdom_of(NodeView::Block(c)) == Some(
                    NodeView::Return,
                ),
    {
        proof {
            use_type_invariant(self);
        }
        let ids = self.children_of_cfgnode(0);
        assert forall|c: usize| self.tree.parent_of(c) == Some(0usize) implies self.table.is_id(
            c,
        ) && c != 0 by {
            self.lemma_tree_nodes(c);
        }
        assert forall|k: int| 0 <= k < ids@.len() implies 1 <= #[trigger] ids@[k]
            <= self.table.names@.len() by {
            assert(ids@.contains(ids@[k]));
        }
        let v = self.table.names_of_ids(&ids);
        proof {
            let nodes = Seq::new(v@.len(), |k: int| CFGNode::Block(v@[k]));
            lemma_children_views(self.table, self.tree, 0, ids@, nodes);
            self.lemma_children_of(0, node_views(nodes));
            let views = name_views(v@);
            assert forall|i: int, j: int| 0 <= i < j < views.len() implies views[i]
                != views[j] by {
                assert(node_views(nodes)[i] != node_views(nodes)[j]);
            }
            assert forall|c: NameView|
                views.contains(c) <==> self.ipostdom_of(NodeView::Block(c)) == Some(
                    NodeView::Return,
                ) by {
                if views.contains(c) {
                    let k = choose|k: int| 0 <= k < views.len() && views[k] == c;
                    assert(node_views(nodes)[k] == NodeView::Block(c));
                    assert(node_views(nodes).contains(NodeView::Block(c)));
                }
                if node_views(nodes).contains(NodeView::Block(c)) {
                    let k = choose|k: int|
                        0 <= k < node_views(nodes).len() && node_views(nodes)[k]
                            == NodeView::Block(c);
                    assert(views[k] == c);
                }
            }
        }
        v
    }

    /// Does `node_a` postdominate `node_b`?
    ///
    /// Note that every node postdominates itself by definition, so if
    /// `node_a == node_b`, this returns `true`.
    /// See also `strictly_postdominates()`
    pub fn postdominates(&self, node_a: &CFGNode, node_b: &CFGNode) -> (r: bool)
        ensures
            r == self.postdominates_spec(node_a@, node_b@),
    {
        proof {
            use_type_invariant(self);
        }
        is_above_by_view(&self.table, &self.tree, node_a, node_b)
    }

    /// Does `node_a` strictly postdominate `node_b`?
    ///
    /// This is the same as `postdominates()`, except that if
    /// `node_a == node_b`, this returns `false`.
    pub fn strictly_postdominates(&self, node_a: &CFGNode, node_b: &CFGNode) -> (r: bool)
        ensures
            r == self.strictly_postdominates_spec(node_a@, node_b@),
    {
        !node_a.same(node_b) && self.postdominates(node_a, node_b)
    }
}

/// Whether the first node is the second or one of its ancestors in the tree,
/// where both nodes are given as they are known outside.
fn is_above_by_view(table: &NodeTable, tree: &IdomTree, node_a: &CFGNode, node_b: &CFGNode) -> (r:
    bool)
    requires
        table.wf(),
        tree.wf(),
    ensures
        r == (node_a@ == node_b@ || (table.knows(node_a@) && table.knows(node_b@) && tree.above(
            table.id_of(node_a@),
            table.id_of(node_b@),
        ))),
{
    let a = match table.lookup(node_a) {
        Some(a) => a,
        None => {
            return node_a.same(node_b);
        },
    };
    let b = match table.lookup(node_b) {
        Some(b) => b,
        None => {
            return node_a.same(node_b);
        },
    };
    proof {
        if node_a@ == node_b@ {
            assert(anc(tree.par@, tree.num@, a, b));
        }
    }
    tree.is_above(a, b)
}

/// The children of a node, as they are known outside, are the nodes whose
/// parent the node is.
proof fn lemma_children_views(
    table: NodeTable,
    tree: IdomTree,
    id: usize,
    ids: Seq<usize>,
    v: Seq<CFGNode>,
)
    requires
        table.wf(),
        table.is_id(id),
        ids.no_duplicates(),
        forall|c: usize| ids.contains(c) <==> tree.parent_of(c) == Some(id),
        forall|c: usize| tree.parent_of(c) == Some(id) ==> table.is_id(c),
        v.len() == ids.len(),
        forall|k: int| 0 <= k < ids.len() ==> v[k]@ == table.view_of(ids[k]),
    ensures
        node_views(v).no_duplicates(),
        forall|c: NodeView|
            node_views(v).contains(c) <==> (table.knows(c) && tree.parent_of(table.id_of(c))
                == Some(id)),
{
    let views = node_views(v);
    assert forall|i: int, j: int| 0 <= i < j < views.len() implies views[i] != views[j] by {
        assert(ids.contains(ids[i]) && ids.contains(ids[j]));
        if views[i] == views[j] {
            table.lemma_ids_distinct(ids[i], ids[j]);
        }
    }
    assert forall|c: NodeView| views.contains(c) implies (table.knows(c) && tree.parent_of(
        table.id_of(c),
    ) == Some(id)) by {
        let k = choose|k: int| 0 <= k < views.len() && views[k] == c;
        assert(ids.contains(ids[k]));
        table.lemma_id_of(ids[k]);
    }
    assert forall|c: NodeView|
        (table.knows(c) && tree.parent_of(table.id_of(c)) == Some(id)) implies views.contains(
        c,
    ) by {
        let cid = table.id_of(c);
        assert(ids.contains(cid));
        let k = choose|k: int| 0 <= k < ids.len() && ids[k] == cid;
        assert(views[k] == c);
    }
}

} // verus!
