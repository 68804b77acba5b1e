//! The control flow graph of a function.

use crate::error::AnalysisError;
use crate::graph::add_edge;
use crate::graph::all_edges;
use crate::graph::edges_of;
use crate::graph::new_graph;
use crate::graph::predecessors;
use crate::graph::successors;
use crate::graph::DiGraph;
use crate::ir::Function;
use crate::ir::Name;
use crate::ir::NameView;
use crate::ir::Terminator;
use crate::ir::name_views;
use crate::node_table::node_views;
use crate::node_table::CFGNode;
use crate::node_table::NodeTable;
use crate::node_table::NodeView;
use vstd::prelude::*;

verus! {

/// The labels as block nodes, in order.
pub open spec fn label_nodes(labels: Seq<Name>) -> Seq<NodeView> {
    Seq::new(labels.len(), |i: int| NodeView::Block(labels[i]@))
}

/// Where control goes when an unwind has, or has not, a destination of its
/// own: to that block, or out of the function.
pub open spec fn unwind_node(dest: Option<Name>) -> NodeView {
    match dest {
        Some(d) => NodeView::Block(d@),
        None => NodeView::Return,
    }
}

/// The nodes that control may flow to from a block that ends in the given
/// terminator.
pub open spec fn terminator_targets(term: Terminator) -> Seq<NodeView> {
    match term {
        Terminator::Ret => seq![NodeView::Return],
        Terminator::Resume => seq![NodeView::Return],
        Terminator::Br { dest } => seq![NodeView::Block(dest@)],
        Terminator::CondBr { true_dest, false_dest } => seq![
            NodeView::Block(true_dest@),
            NodeView::Block(false_dest@),
        ],
        Terminator::Switch { dests, default_dest } => seq![NodeView::Block(default_dest@)]
            + label_nodes(dests@),
        Terminator::IndirectBr { possible_dests } => label_nodes(possible_dests@),
        Terminator::Invoke { call, return_label, exception_label } => seq![
            NodeView::Block(return_label@),
            NodeView::Block(exception_label@),
        ],
        Terminator::Unreachable => Seq::empty(),
        Terminator::CleanupRet { unwind_dest } => seq![unwind_node(unwind_dest)],
        Terminator::CatchRet { successor } => seq![NodeView::Block(successor@)],
        Terminator::CatchSwitch { catch_handlers, default_unwind_dest } => seq![
            unwind_node(default_unwind_dest),
        ] + label_nodes(catch_handlers@),
        Terminator::CallBr => Seq::empty(),
    }
}

/// The edges of a function's control flow graph: one from each block to each
/// target of its terminator.
pub open spec fn function_edges(f: Function) -> Set<(NodeView, NodeView)> {
    Set::new(
        |e: (NodeView, NodeView)|
            exists|i: int, j: int|
                0 <= i < f.basic_blocks@.len() && 0 <= j < terminator_targets(
                    f.basic_blocks@[i].term,
                ).len() && e == (
                    NodeView::Block(f.basic_blocks@[i].name@),
                    terminator_targets(f.basic_blocks@[i].term)[j],
                ),
    )
}

/// Whether the function has a block of the given name.
pub open spec fn function_has_block(f: Function, name: NameView) -> bool {
    exists|i: int| 0 <= i < f.basic_blocks@.len() && f.basic_blocks@[i].name@ == name
}

/// Whether one of the function's first `i` blocks has the given name.
pub open spec fn has_block_before(f: Function, i: int, name: NameView) -> bool {
    exists|k: int| 0 <= k < i && k < f.basic_blocks@.len() && f.basic_blocks@[k].name@ == name
}

/// Whether the control flow graph of the function can be built: it has a
/// first block, and each terminator is of a kind whose successors are known.
pub open spec fn function_is_supported(f: Function) -> bool {
    &&& f.basic_blocks@.len() >= 1
    &&& forall|i: int| 0 <= i < f.basic_blocks@.len() ==> !(f.basic_blocks@[i].term is CallBr)
}

/// Control never flows on from `Return`: no edge of a function's control
/// flow graph leaves it.
pub proof fn lemma_return_has_no_successors(f: Function, node: NodeView)
    ensures
        !function_edges(f).contains((NodeView::Return, node)),
{
}

/// Whether no terminator of the function names the function's first block
/// as a target.
pub open spec fn entry_is_no_target(f: Function) -> bool {
    forall|i: int, j: int| #[trigger]
        is_target(f, i, j) ==> terminator_targets(f.basic_blocks@[i].term)[j] != NodeView::Block(
            f.basic_blocks@[0].name@,
        )
}

/// Where no terminator names the entry block as a target, no edge of the
/// control flow graph enters the entry block.
pub proof fn lemma_entry_has_no_predecessors(f: Function, pred: NodeView)
    requires
        f.basic_blocks@.len() >= 1,
        entry_is_no_target(f),
    ensures
        !function_edges(f).contains((pred, NodeView::Block(f.basic_blocks@[0].name@))),
{
    let e = (pred, NodeView::Block(f.basic_blocks@[0].name@));
    if function_edges(f).contains(e) {
        let (i, j) = choose|i: int, j: int|
            0 <= i < f.basic_blocks@.len() && 0 <= j < terminator_targets(
                f.basic_blocks@[i].term,
            ).len() && e == (
                NodeView::Block(f.basic_blocks@[i].name@),
                terminator_targets(f.basic_blocks@[i].term)[j],
            );
        assert(is_target(f, i, j));
    }
}

/// Appends a block node for each label.
fn push_labels(out: &mut Vec<CFGNode>, labels: &Vec<Name>)
    ensures
        node_views(final(out)@) == node_views(old(out)@) + label_nodes(labels@),
{
    let mut i: usize = 0;
    while i < labels.len()
        invariant
            i <= labels@.len(),
            out@.len() == old(out)@.len() + i,
            forall|k: int| 0 <= k < old(out)@.len() ==> out@[k] == old(out)@[k],
            forall|k: int| 0 <= k < i ==> out@[old(out)@.len() + k]@ == NodeView::Block(labels@[k]@),
        decreases labels@.len() - i,
    {
        out.push(CFGNode::Block(labels[i].duplicate()));
        i += 1;
    }
    assert(node_views(out@) =~= node_views(old(out)@) + label_nodes(labels@));
}

/// Where control goes when an unwind has, or has not, a destination of its
/// own.
fn unwind_target(dest: &Option<Name>) -> (r: CFGNode)
    ensures
        r@ == unwind_node(*dest),
{
    match dest {
        Some(d) => CFGNode::Block(d.duplicate()),
        None => CFGNode::Return,
    }
}

/// The successors that the terminator gives its block, or `None` for a
/// terminator whose successors are not modelled.
pub fn successors_of(term: &Terminator) -> (r: Option<Vec<CFGNode>>)
    ensures
        r.is_some() == !(*term is CallBr),
        r matches Some(v) ==> node_views(v@) == terminator_targets(*term),
{
    let mut out: Vec<CFGNode> = Vec::new();
    match term {
        Terminator::Br { dest } => {
            out.push(CFGNode::Block(dest.duplicate()));
        },
        Terminator::CondBr { true_dest, false_dest } => {
            out.push(CFGNode::Block(true_dest.duplicate()));
            out.push(CFGNode::Block(false_dest.duplicate()));
        },
        Terminator::IndirectBr { possible_dests } => {
            push_labels(&mut out, possible_dests);
        },
        Terminator::Switch { dests, default_dest } => {
            out.push(CFGNode::Block(default_dest.duplicate()));
            push_labels(&mut out, dests);
        },
        Terminator::Ret => {
            out.push(CFGNode::Return);
        },
        Terminator::Resume => {
            out.push(CFGNode::Return);
        },
        Terminator::Invoke { call, return_label, exception_label } => {
            out.push(CFGNode::Block(return_label.duplicate()));
            out.push(CFGNode::Block(exception_label.duplicate()));
        },
        Terminator::CleanupRet { unwind_dest } => {
            out.push(unwind_target(unwind_dest));
        },
        Terminator::CatchRet { successor } => {
            out.push(CFGNode::Block(successor.duplicate()));
        },
        Terminator::CatchSwitch { catch_handlers, default_unwind_dest } => {
            out.push(unwind_target(default_unwind_dest));
            push_labels(&mut out, catch_handlers);
        },
        Terminator::CallBr => {
            return None;
        },
        Terminator::Unreachable => {},
    }
    assert(node_views(out@) =~= terminator_targets(*term));
    Some(out)
}

/// The control flow graph for a particular function.
///
/// Its nodes are the function's basic blocks and the `Return` node. An edge
/// from one block to another says that control may flow from the first
/// straight to the second; an edge from a block to `Return` says that the
/// function may return from that block.
pub struct ControlFlowGraph {
    /// The ids of the nodes
    pub(crate) table: NodeTable,
    /// The graph itself, over the ids
    pub(crate) graph: DiGraph,
    /// Entry node for the function
    pub(crate) entry_node: usize,
}

/// Whether the pair (`i2`, `j2`) comes before (`i`, `j`) when the targets of
/// all blocks are listed block by block.
pub open spec fn target_before(i2: int, j2: int, i: int, j: int) -> bool {
    i2 < i || (i2 == i && j2 < j)
}

/// Whether `j` is the position of a target of block `i`.
pub open spec fn is_target(f: Function, i: int, j: int) -> bool {
    0 <= i < f.basic_blocks@.len() && 0 <= j < terminator_targets(f.basic_blocks@[i].term).len()
}

/// Whether the ids `a` and `b` stand for block `i` and its target `j`.
pub open spec fn edge_is(table: NodeTable, f: Function, a: usize, b: usize, i: int, j: int) -> bool {
    &&& is_target(f, i, j)
    &&& table.is_id(a)
    &&& table.is_id(b)
    &&& table.view_of(a) == NodeView::Block(f.basic_blocks@[i].name@)
    &&& table.view_of(b) == terminator_targets(f.basic_blocks@[i].term)[j]
}

/// The graph holds exactly the edges of the targets before (`i`, `j`).
pub open spec fn built_up_to(
    table: NodeTable,
    edges: Set<(usize, usize)>,
    f: Function,
    i: int,
    j: int,
) -> bool {
    &&& forall|a: usize, b: usize| #[trigger]
        edges.contains((a, b)) ==> table.is_block_id(a) && exists|i2: int, j2: int|
            target_before(i2, j2, i, j) && #[trigger] edge_is(table, f, a, b, i2, j2)
    &&& forall|i2: int, j2: int|
        target_before(i2, j2, i, j) && #[trigger] is_target(f, i2, j2) ==> exists|
            a: usize,
            b: usize,
        |
            edges.contains((a, b)) && #[trigger] edge_is(table, f, a, b, i2, j2)
}

impl ControlFlowGraph {
    /// The graph's edges lie between nodes of the table and leave blocks of
    /// the function; the function has a first block, which is the entry.
    #[verifier::type_invariant]
    pub open(crate) spec fn wf(&self) -> bool {
        &&& self.table.wf()
        &&& self.table.block_count >= 1
        &&& self.entry_node == 1
        &&& forall|a: usize, b: usize| #[trigger]
            edges_of(self.graph).contains((a, b)) ==> self.table.is_block_id(a)
                && self.table.is_id(b)
    }

    /// The edges of the graph.
    pub open(crate) spec fn edges(&self) -> Set<(NodeView, NodeView)> {
        self.table.edge_views(edges_of(self.graph))
    }

    /// Whether the function has a block of the given name.
    pub open(crate) spec fn has_block(&self, name: NameView) -> bool {
        self.table.has_block(name)
    }

    /// The name of the function's entry block.
    pub open(crate) spec fn entry_name(&self) -> NameView {
        self.table.names@[0]@
    }

    /// Builds the control flow graph of the function: an edge from each block
    /// to each target of its terminator. Fails with `Unsupported` exactly when
    /// the function has no block or a terminator whose successors are not
    /// modelled.
    pub fn new(function: &Function) -> (r: Result<ControlFlowGraph, AnalysisError>)
        ensures
            r.is_ok() == function_is_supported(*function),
            r matches Err(e) ==> e == AnalysisError::Unsupported,
            r matches Ok(cfg) ==> {
                &&& cfg.wf()
                &&& cfg.edges() == function_edges(*function)
                &&& forall|name: NameView|
                    cfg.has_block(name) == function_has_block(*function, name)
                &&& cfg.entry_name() == function.basic_blocks@[0].name@
            },
    {
        let n = function.basic_blocks.len();
        if n == 0 {
            return Err(AnalysisError::Unsupported);
        }
        let mut table = NodeTable::new();
        let mut ids: Vec<usize> = Vec::new();
        let mut i: usize = 0;
        while i < n
            invariant
                n == function.basic_blocks@.len(),
                i <= n,
                table.wf(),
                table.block_count == 0,
                ids@.len() == i,
                forall|k: int|
                    0 <= k < i ==> 1 <= #[trigger] ids@[k] <= table.names@.len()
                        && table.names@[ids@[k] - 1]@ == function.basic_blocks@[k].name@,
                forall|k: int|
                    0 <= k < i ==> table.has_name(#[trigger] function.basic_blocks@[k].name@),
                forall|x: int|
                    0 <= x < table.names@.len() ==> has_block_before(
                        *function,
                        i as int,
                        #[trigger] table.names@[x]@,
                    ),
                i >= 1 ==> table.names@.len() >= 1 && table.names@[0]@
                    == function.basic_blocks@[0].name@,
            decreases n - i,
        {
            let ghost before = table;
            let id = table.intern(&function.basic_blocks[i].name);
            ids.push(id);
            proof {
                assert forall|k: int| 0 <= k < i + 1 implies table.has_name(
                    #[trigger] function.basic_blocks@[k].name@,
                ) by {
                    if k < i {
                        let x = choose|x: int|
                            0 <= x < before.names@.len() && before.names@[x]@
                                == function.basic_blocks@[k].name@;
                        assert(table.names@[x]@ == function.basic_blocks@[k].name@);
                    } else {
                        assert(table.names@[id - 1]@ == function.basic_blocks@[k].name@);
                    }
                }
                assert forall|x: int| 0 <= x < table.names@.len() implies has_block_before(
                    *function,
                    i + 1,
                    #[trigger] table.names@[x]@,
                ) by {
                    if x < before.names@.len() {
                        assert(before.names@[x] == table.names@[x]);
                        let k = choose|k: int|
                            0 <= k < i && function.basic_blocks@[k].name@ == before.names@[x]@;
                        assert(function.basic_blocks@[k].name@ == table.names@[x]@);
                    } else {
                        assert(x == id - 1);
                        assert(function.basic_blocks@[i as int].name@ == table.names@[x]@);
                    }
                }
            }
            i += 1;
        }
        table.block_count = table.names.len();
        proof {
            assert forall|name: NameView|
                table.has_block(name) == function_has_block(*function, name) by {
                if table.has_block(name) {
                    let x = choose|x: int| 0 <= x < table.block_count && table.names@[x]@ == name;
                    assert(has_block_before(*function, n as int, table.names@[x]@));
                }
                if function_has_block(*function, name) {
                    let k = choose|k: int|
                        0 <= k < function.basic_blocks@.len() && function.basic_blocks@[k].name@
                            == name;
                    assert(table.has_name(function.basic_blocks@[k].name@));
                }
            }
        }
        let ghost blocks = table;
        let mut graph = new_graph();
        let mut i: usize = 0;
        while i < n
            invariant
                n == function.basic_blocks@.len(),
                n >= 1,
                i <= n,
                table.wf(),
                table.block_count == blocks.block_count,
                blocks.block_count == blocks.names@.len(),
                blocks.names@.len() <= table.names@.len(),
                forall|x: int| 0 <= x < blocks.names@.len() ==> table.names@[x] == blocks.names@[x],
                forall|name: NameView|
                    blocks.has_block(name) == function_has_block(*function, name),
                blocks.names@.len() >= 1,
                blocks.names@[0]@ == function.basic_blocks@[0].name@,
                ids@.len() == n,
                forall|k: int|
                    0 <= k < n ==> 1 <= #[trigger] ids@[k] <= blocks.names@.len()
                        && blocks.names@[ids@[k] - 1]@ == function.basic_blocks@[k].name@,
                forall|k: int| 0 <= k < i ==> !(function.basic_blocks@[k].term is CallBr),
                forall|a: usize, b: usize| #[trigger]
                    edges_of(graph).contains((a, b)) ==> table.is_id(a) && table.is_id(b),
                built_up_to(table, edges_of(graph), *function, i as int, 0),
            decreases n - i,
        {
            let bb = &function.basic_blocks[i];
            let from = ids[i];
            assert(table.names@[from - 1] == blocks.names@[from - 1]);
            let targets = match successors_of(&bb.term) {
                Some(targets) => targets,
                None => {
                    return Err(AnalysisError::Unsupported);
                },
            };
            assert(node_views(targets@).len() == targets@.len());
            let mut j: usize = 0;
            while j < targets.len()
                invariant
                    n == function.basic_blocks@.len(),
                    i < n,
                    j <= targets@.len(),
                    *bb == function.basic_blocks@[i as int],
                    node_views(targets@) == terminator_targets(bb.term),
                    table.wf(),
                    table.block_count == blocks.block_count,
                    blocks.block_count == blocks.names@.len(),
                    blocks.names@.len() <= table.names@.len(),
                    forall|x: int|
                        0 <= x < blocks.names@.len() ==> table.names@[x] == blocks.names@[x],
                    table.is_block_id(from),
                    table.view_of(from) == NodeView::Block(bb.name@),
                    forall|a: usize, b: usize| #[trigger]
                        edges_of(graph).contains((a, b)) ==> table.is_id(a) && table.is_id(b),
                    built_up_to(table, edges_of(graph), *function, i as int, j as int),
                decreases targets@.len() - j,
            {
                let ghost table0 = table;
                let ghost edges0 = edges_of(graph);
                let to = match &targets[j] {
                    CFGNode::Return => 0,
                    CFGNode::Block(name) => table.intern(name),
                };
                add_edge(&mut graph, from, to);
                proof {
                    assert(node_views(targets@)[j as int] == targets@[j as int]@);
                    assert(table.view_of(to) == terminator_targets(bb.term)[j as int]);
                    assert forall|id: usize| table0.is_id(id) implies table.is_id(id)
                        && table.view_of(id) == table0.view_of(id) by {}
                    lemma_built_step(table0, table, edges0, *function, i as int, j as int, from, to);
                }
                j += 1;
            }
            proof {
                lemma_built_next_block(table, edges_of(graph), *function, i as int, j as int);
            }
            i += 1;
        }
        let cfg = ControlFlowGraph { table, graph, entry_node: 1 };
        proof {
            assert forall|name: NameView|
                cfg.has_block(name) == function_has_block(*function, name) by {
                if cfg.table.has_block(name) {
                    let x = choose|x: int|
                        0 <= x < cfg.table.block_count && cfg.table.names@[x]@ == name;
                    assert(blocks.names@[x]@ == name);
                    assert(blocks.has_block(name));
                }
                if blocks.has_block(name) {
                    let x = choose|x: int| 0 <= x < blocks.block_count && blocks.names@[x]@ == name;
                    assert(cfg.table.names@[x]@ == name);
                }
            }
            assert(cfg.table.names@[0] == blocks.names@[0]);
            lemma_built_all(cfg.table, edges_of(cfg.graph), *function);
            assert(cfg.edges() =~= function_edges(*function));
        }
        Ok(cfg)
    }

    /// Get the predecessors of the basic block with the given `Name`: each
    /// block with an edge to it, once. Fails with `NotFound` exactly when the
    /// function has no block of that name.
    pub fn preds(&self, block: &Name) -> (r: Result<Vec<Name>, AnalysisError>)
        ensures
            r.is_ok() == self.has_block(block@),
            r matches Err(e) ==> e == AnalysisError::NotFound,
            r matches Ok(v) ==> {
                &&& name_views(v@).no_duplicates()
                &&& forall|p: NameView|
                    name_views(v@).contains(p) <==> self.edges().contains(
                        (NodeView::Block(p), NodeView::Block(block@)),
                    )
            },
    {
        proof {
            use_type_invariant(self);
        }
        match self.table.find_block(block) {
            Some(id) => Ok(self.preds_of_cfgnode(id)),
            None => Err(AnalysisError::NotFound),
        }
    }

    /// Get the predecessors of the special `Return` node, i.e., get all blocks
    /// which may directly return, each once.
    pub fn preds_of_return(&self) -> (v: Vec<Name>)
        ensures
            name_views(v@).no_duplicates(),
            forall|p: NameView|
                name_views(v@).contains(p) <==> self.edges().contains(
                    (NodeView::Block(p), NodeView::Return),
                ),
    {
        proof {
            use_type_invariant(self);
        }
        self.preds_of_cfgnode(0)
    }

    /// The blocks with an edge to the node with the given id, each once.
    pub(crate) fn preds_of_cfgnode(&self, id: usize) -> (v: Vec<Name>)
        requires
            self.wf(),
            self.table.is_id(id),
        ensures
            name_views(v@).no_duplicates(),
            forall|p: NameView|
                name_views(v@).contains(p) <==> self.edges().contains(
                    (NodeView::Block(p), self.table.view_of(id)),
                ),
    {
        let ids = self.preds_as_nodes(id);
        assert forall|k: int| 0 <= k < ids@.len() implies 1 <= #[trigger] ids@[k]
            <= self.table.names@.len() by {
            assert(ids@.contains(ids@[k]));
        }
        let v = self.table.names_of_ids(&ids);
        proof {
            let views = name_views(v@);
            assert forall|i: int, j: int| 0 <= i < j < views.len() implies views[i]
                != views[j] by {
                if views[i] == views[j] {
                    self.table.lemma_ids_distinct(ids@[i], ids@[j]);
                }
            }
            assert forall|p: NameView| views.contains(p) implies self.edges().contains(
                (NodeView::Block(p), self.table.view_of(id)),
            ) by {
                let k = choose|k: int| 0 <= k < views.len() && views[k] == p;
                assert(ids@.contains(ids@[k]));
                assert(edges_of(self.graph).contains((ids@[k], id)));
            }
            assert forall|p: NameView|
                self.edges().contains(
                    (NodeView::Block(p), self.table.view_of(id)),
                ) implies views.contains(p) by {
                let (a, b) = choose|a: usize, b: usize| #[trigger]
                    edges_of(self.graph).contains((a, b)) && (
                        NodeView::Block(p),
                        self.table.view_of(id),
                    ) == (self.table.view_of(a), self.table.view_of(b));
                self.table.lemma_ids_distinct(b, id);
                assert(ids@.contains(a));
                let k = choose|k: int| 0 <= k < ids@.len() && ids@[k] == a;
                assert(views[k] == p);
            }
        }
        v
    }

    /// The ids of the nodes with an edge to the node with the given id.
    pub(crate) fn preds_as_nodes(&self, id: usize) -> (ids: Vec<usize>)
        ensures
            ids@.no_duplicates(),
            forall|a: usize| ids@.contains(a) <==> edges_of(self.graph).contains((a, id)),
    {
        predecessors(&self.graph, id)
    }

    /// Get the successors of the basic block with the given `Name`, each
    /// once. Here, `CFGNode::Return` indicates that the function may directly
    /// return from this basic block. Fails with `NotFound` exactly when the
    /// function has no block of that name.
    pub fn succs(&self, block: &Name) -> (r: Result<Vec<CFGNode>, AnalysisError>)
        ensures
            r.is_ok() == self.has_block(block@),
            r matches Err(e) ==> e == AnalysisError::NotFound,
            r matches Ok(v) ==> {
                &&& node_views(v@).no_duplicates()
                &&& forall|s: NodeView|
                    node_views(v@).contains(s) <==> self.edges().contains(
                        (NodeView::Block(block@), s),
                    )
            },
    {
        proof {
            use_type_invariant(self);
        }
        let id = match self.table.find_block(block) {
            Some(id) => id,
            None => {
                return Err(AnalysisError::NotFound);
            },
        };
        let ids = successors(&self.graph, id);
        assert forall|k: int| 0 <= k < ids@.len() implies self.table.is_id(ids@[k]) by {
            assert(ids@.contains(ids@[k]));
        }
        let v = self.table.nodes_of_ids(&ids);
        proof {
            let views = node_views(v@);
            assert forall|i: int, j: int| 0 <= i < j < views.len() implies views[i]
                != views[j] by {
                if views[i] == views[j] {
                    self.table.lemma_ids_distinct(ids@[i], ids@[j]);
                }
            }
            assert forall|s: NodeView| views.contains(s) implies self.edges().contains(
                (NodeView::Block(block@), s),
            ) by {
                let k = choose|k: int| 0 <= k < views.len() && views[k] == s;
                assert(ids@.contains(ids@[k]));
                assert(edges_of(self.graph).contains((id, ids@[k])));
            }
            assert forall|s: NodeView|
                self.edges().contains((NodeView::Block(block@), s)) implies views.contains(
                s,
            ) by {
                let (a, b) = choose|a: usize, b: usize| #[trigger]
                    edges_of(self.graph).contains((a, b)) && (NodeView::Block(block@), s) == (
                        self.table.view_of(a),
                        self.table.view_of(b),
                    );
                self.table.lemma_ids_distinct(a, id);
                assert(ids@.contains(b));
                let k = choose|k: int| 0 <= k < ids@.len() && ids@[k] == b;
                assert(views[k] == s);
            }
        }
        Ok(v)
    }

    /// Get the `Name` of the entry block for the function
    pub fn entry(&self) -> (name: &Name)
        ensures
            name@ == self.entry_name(),
            self.has_block(name@),
    {
        proof {
            use_type_invariant(self);
        }
        &self.table.names[0]
    }

    /// Get the reversed graph; i.e., the graph where all edges have been
    /// reversed
    pub(crate) fn reversed(&self) -> (g: DiGraph)
        ensures
            forall|a: usize, b: usize|
                edges_of(g).contains((a, b)) == edges_of(self.graph).contains((b, a)),
    {
        let edges = all_edges(&self.graph);
        let mut g = new_graph();
        let mut i: usize = 0;
        while i < edges.len()
            invariant
                i <= edges@.len(),
                forall|a: usize, b: usize|
                    edges_of(g).contains((a, b)) == exists|k: int|
                        0 <= k < i && edges@[k] == (b, a),
            decreases edges@.len() - i,
        {
            let (a, b) = edges[i];
            let ghost before = edges_of(g);
            add_edge(&mut g, b, a);
            proof {
                assert forall|x: usize, y: usize|
                    edges_of(g).contains((x, y)) == exists|k: int|
                        0 <= k < i + 1 && edges@[k] == (y, x) by {
                    if edges_of(g).contains((x, y)) {
                        if before.contains((x, y)) {
                            let k = choose|k: int| 0 <= k < i && edges@[k] == (y, x);
                            assert(0 <= k < i + 1 && edges@[k] == (y, x));
                        } else {
                            assert(edges@[i as int] == (y, x));
                        }
                    }
                    if exists|k: int| 0 <= k < i + 1 && edges@[k] == (y, x) {
                        let k = choose|k: int| 0 <= k < i + 1 && edges@[k] == (y, x);
                        if k < i {
                            assert(before.contains((x, y)));
                        }
                    }
                }
            }
            i += 1;
        }
        proof {
            assert forall|a: usize, b: usize|
                edges_of(g).contains((a, b)) == edges_of(self.graph).contains((b, a)) by {
                if edges_of(g).contains((a, b)) {
                    let k = choose|k: int| 0 <= k < edges@.len() && edges@[k] == (b, a);
                    assert(edges@.contains((b, a)));
                }
                if edges_of(self.graph).contains((b, a)) {
                    assert(edges@.contains((b, a)));
                }
            }
        }
        g
    }
}

/// Adding the edge of the next target keeps the graph in step with the
/// targets.
proof fn lemma_built_step(
    table0: NodeTable,
    table: NodeTable,
    edges0: Set<(usize, usize)>,
    f: Function,
    i: int,
    j: int,
    from: usize,
    to: usize,
)
    requires
        built_up_to(table0, edges0, f, i, j),
        is_target(f, i, j),
        forall|id: usize| table0.is_id(id) ==> table.is_id(id) && table.view_of(id) == table0.view_of(id),
        table.block_count == table0.block_count,
        table.is_block_id(from),
        table.is_id(from),
        table.is_id(to),
        table.view_of(from) == NodeView::Block(f.basic_blocks@[i].name@),
        table.view_of(to) == terminator_targets(f.basic_blocks@[i].term)[j],
    ensures
        built_up_to(table, edges0.insert((from, to)), f, i, j + 1),
{
    let edges = edges0.insert((from, to));
    assert forall|a: usize, b: usize| #[trigger] edges.contains((a, b)) implies table.is_block_id(a)
        && exists|i2: int, j2: int|
        target_before(i2, j2, i, j + 1) && #[trigger] edge_is(table, f, a, b, i2, j2) by {
        if edges0.contains((a, b)) {
            let (i2, j2) = choose|i2: int, j2: int|
                target_before(i2, j2, i, j) && #[trigger] edge_is(table0, f, a, b, i2, j2);
            assert(target_before(i2, j2, i, j + 1) && edge_is(table, f, a, b, i2, j2));
        } else {
            assert(a == from && b == to);
            assert(target_before(i, j, i, j + 1) && edge_is(table, f, a, b, i, j));
        }
    }
    assert forall|i2: int, j2: int|
        target_before(i2, j2, i, j + 1) && #[trigger] is_target(f, i2, j2) implies exists|
        a: usize,
        b: usize,
    |
        edges.contains((a, b)) && #[trigger] edge_is(table, f, a, b, i2, j2) by {
        if target_before(i2, j2, i, j) {
            let (a, b) = choose|a: usize, b: usize|
                edges0.contains((a, b)) && #[trigger] edge_is(table0, f, a, b, i2, j2);
            assert(edges.contains((a, b)) && edge_is(table, f, a, b, i2, j2));
        } else {
            assert(i2 == i && j2 == j);
            assert(edges.contains((from, to)) && edge_is(table, f, from, to, i2, j2));
        }
    }
}

/// After the last target of a block comes the first of the next block.
proof fn lemma_built_next_block(
    table: NodeTable,
    edges: Set<(usize, usize)>,
    f: Function,
    i: int,
    j: int,
)
    requires
        built_up_to(table, edges, f, i, j),
        0 <= i < f.basic_blocks@.len(),
        j == terminator_targets(f.basic_blocks@[i].term).len(),
    ensures
        built_up_to(table, edges, f, i + 1, 0),
{
    assert forall|a: usize, b: usize| #[trigger] edges.contains((a, b)) implies table.is_block_id(a)
        && exists|i2: int, j2: int|
        target_before(i2, j2, i + 1, 0) && #[trigger] edge_is(table, f, a, b, i2, j2) by {
        let (i2, j2) = choose|i2: int, j2: int|
            target_before(i2, j2, i, j) && #[trigger] edge_is(table, f, a, b, i2, j2);
        assert(target_before(i2, j2, i + 1, 0) && edge_is(table, f, a, b, i2, j2));
    }
    assert forall|i2: int, j2: int|
        target_before(i2, j2, i + 1, 0) && #[trigger] is_target(f, i2, j2) implies exists|
        a: usize,
        b: usize,
    |
        edges.contains((a, b)) && #[trigger] edge_is(table, f, a, b, i2, j2) by {
        assert(target_before(i2, j2, i, j));
    }
}

/// A graph that holds the edges of all targets holds the edges of the
/// function, and no others.
proof fn lemma_built_all(table: NodeTable, edges: Set<(usize, usize)>, f: Function)
    requires
        built_up_to(table, edges, f, f.basic_blocks@.len() as int, 0),
    ensures
        forall|e: (NodeView, NodeView)|
            function_edges(f).contains(e) <==> exists|a: usize, b: usize| #[trigger]
                edges.contains((a, b)) && e == (table.view_of(a), table.view_of(b)),
{
    let n = f.basic_blocks@.len() as int;
    assert forall|e: (NodeView, NodeView)| function_edges(f).contains(e) implies exists|
        a: usize,
        b: usize,
    | #[trigger]
        edges.contains((a, b)) && e == (table.view_of(a), table.view_of(b)) by {
        let (i, j) = choose|i: int, j: int|
            0 <= i < f.basic_blocks@.len() && 0 <= j < terminator_targets(
                f.basic_blocks@[i].term,
            ).len() && e == (
                NodeView::Block(f.basic_blocks@[i].name@),
                terminator_targets(f.basic_blocks@[i].term)[j],
            );
        assert(target_before(i, j, n, 0) && is_target(f, i, j));
        let (a, b) = choose|a: usize, b: usize|
            edges.contains((a, b)) && #[trigger] edge_is(table, f, a, b, i, j);
        assert(edges.contains((a, b)) && e == (table.view_of(a), table.view_of(b)));
    }
    assert forall|e: (NodeView, NodeView)|
        (exists|a: usize, b: usize| #[trigger]
            edges.contains((a, b)) && e == (
                table.view_of(a),
                table.view_of(b),
            )) implies function_edges(f).contains(e) by {
        let (a, b) = choose|a: usize, b: usize| #[trigger]
            edges.contains((a, b)) && e == (table.view_of(a), table.view_of(b));
        let (i, j) = choose|i: int, j: int|
            target_before(i, j, n, 0) && #[trigger] edge_is(table, f, a, b, i, j);
        assert(is_target(f, i, j));
    }
}

} // verus!
