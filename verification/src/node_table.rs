//! The nodes of a function's graphs: its basic blocks and the `Return` sink,
//! each with a small integer id under which the graphs store it.

use crate::ir::Name;
use crate::ir::NameView;
use crate::graph::dominated;
use crate::graph::flipped;
use crate::graph::is_path_from_to;
use crate::graph::is_step;
use crate::graph::reaches;
use vstd::prelude::*;

verus! {

/// A CFGNode represents a basic block, or the special node `Return`
#[derive(Clone, Debug, PartialEq, Eq, PartialOrd, Ord, Hash)]
pub enum CFGNode {
    /// The block with the given `Name`
    Block(Name),
    /// The special `Return` node indicating function return
    Return,
}

/// What a `CFGNode` is, mathematically.
pub enum NodeView {
    Block(NameView),
    Return,
}

impl View for CFGNode {
    type V = NodeView;

    open spec fn view(&self) -> NodeView {
        match self {
            CFGNode::Block(name) => NodeView::Block(name@),
            CFGNode::Return => NodeView::Return,
        }
    }
}

impl CFGNode {
    /// A copy of the node.
    pub fn duplicate(&self) -> (r: CFGNode)
        ensures
            r@ == self@,
    {
        match self {
            CFGNode::Block(name) => CFGNode::Block(name.duplicate()),
            CFGNode::Return => CFGNode::Return,
        }
    }

    /// Whether two nodes are the same node.
    pub fn same(&self, other: &CFGNode) -> (r: bool)
        ensures
            r == (self@ == other@),
    {
        match self {
            CFGNode::Block(a) => match other {
                CFGNode::Block(b) => a.same(b),
                CFGNode::Return => false,
            },
            CFGNode::Return => match other {
                CFGNode::Block(_) => false,
                CFGNode::Return => true,
            },
        }
    }
}

/// The views of a list of nodes, in order.
pub open spec fn node_views(nodes: Seq<CFGNode>) -> Seq<NodeView> {
    Seq::new(nodes.len(), |i: int| nodes[i]@)
}

/// The id of the `Return` node in every node table.
pub const RETURN_ID: usize = 0;

/// Assigns ids to the nodes of one function. Id 0 is `Return`; id `i + 1` is
/// the name at position `i`. The function's own blocks come first.
pub struct NodeTable {
    pub names: Vec<Name>,
    pub block_count: usize,
}

impl NodeTable {
    /// No name occurs twice, and the blocks are among the names.
    pub open spec fn wf(&self) -> bool {
        &&& self.block_count <= self.names@.len()
        &&& forall|i: int, j: int|
            0 <= i < j < self.names@.len() ==> self.names@[i]@ != self.names@[j]@
    }

    /// Whether `id` is the id of a node.
    pub open spec fn is_id(&self, id: usize) -> bool {
        id <= self.names@.len()
    }

    /// The node with the given id.
    pub open spec fn view_of(&self, id: usize) -> NodeView {
        if id == 0 {
            NodeView::Return
        } else {
            NodeView::Block(self.names@[id - 1]@)
        }
    }

    /// Whether some id stands for the node.
    pub open spec fn knows(&self, node: NodeView) -> bool {
        exists|id: usize| self.is_id(id) && self.view_of(id) == node
    }

    /// The id that stands for the node, where there is one.
    pub open spec fn id_of(&self, node: NodeView) -> usize {
        choose|id: usize| self.is_id(id) && self.view_of(id) == node
    }

    /// Whether the name has an id.
    pub open spec fn has_name(&self, name: NameView) -> bool {
        exists|i: int| 0 <= i < self.names@.len() && self.names@[i]@ == name
    }

    /// Whether the name is that of one of the function's blocks.
    pub open spec fn has_block(&self, name: NameView) -> bool {
        exists|i: int| 0 <= i < self.block_count && self.names@[i]@ == name
    }

    /// Whether `id` is the id of one of the function's blocks.
    pub open spec fn is_block_id(&self, id: usize) -> bool {
        1 <= id <= self.block_count
    }

    /// Different ids stand for different nodes.
    pub proof fn lemma_ids_distinct(&self, a: usize, b: usize)
        requires
            self.wf(),
            self.is_id(a),
            self.is_id(b),
            self.view_of(a) == self.view_of(b),
        ensures
            a == b,
    {
        if a != 0 && b != 0 && a != b {
            if a < b {
                assert(self.names@[a - 1]@ != self.names@[b - 1]@);
            } else {
                assert(self.names@[b - 1]@ != self.names@[a - 1]@);
            }
        }
    }

    /// The id of a known node is the one id with its view.
    pub proof fn lemma_id_of(&self, id: usize)
        requires
            self.wf(),
            self.is_id(id),
        ensures
            self.knows(self.view_of(id)),
            self.id_of(self.view_of(id)) == id,
    {
        let other = self.id_of(self.view_of(id));
        self.lemma_ids_distinct(other, id);
    }

    /// The edges between nodes that the given edges between ids stand for.
    pub open spec fn edge_views(&self, edges: Set<(usize, usize)>) -> Set<(NodeView, NodeView)> {
        Set::new(
            |e: (NodeView, NodeView)|
                exists|a: usize, b: usize| #[trigger]
                    edges.contains((a, b)) && e == (self.view_of(a), self.view_of(b)),
        )
    }

    /// Whether the edges lie between ids of the table.
    pub open spec fn ids_ok(&self, edges: Set<(usize, usize)>) -> bool {
        forall|a: usize, b: usize| #[trigger]
            edges.contains((a, b)) ==> self.is_id(a) && self.is_id(b)
    }

    /// The nodes with the given ids, in order.
    pub open spec fn views_of(&self, ids: Seq<usize>) -> Seq<NodeView> {
        Seq::new(ids.len(), |i: int| self.view_of(ids[i]))
    }

    /// The ids of the given nodes, in order.
    pub open spec fn ids_of(&self, nodes: Seq<NodeView>) -> Seq<usize> {
        Seq::new(nodes.len(), |i: int| self.id_of(nodes[i]))
    }

    /// An edge between nodes comes from the edge between their ids.
    pub proof fn lemma_edge_ids(&self, edges: Set<(usize, usize)>, x: NodeView, y: NodeView)
        requires
            self.wf(),
            self.ids_ok(edges),
            self.edge_views(edges).contains((x, y)),
        ensures
            self.knows(x),
            self.knows(y),
            edges.contains((self.id_of(x), self.id_of(y))),
    {
        let (a, b) = choose|a: usize, b: usize| #[trigger]
            edges.contains((a, b)) && (x, y) == (self.view_of(a), self.view_of(b));
        self.lemma_id_of(a);
        self.lemma_id_of(b);
    }

    /// A walk along edges between ids is a walk along the edges between
    /// their nodes.
    pub proof fn lemma_path_views(
        &self,
        edges: Set<(usize, usize)>,
        p: Seq<usize>,
        a: usize,
        b: usize,
    )
        requires
            is_path_from_to(edges, p, a, b),
        ensures
            is_path_from_to(
                self.edge_views(edges),
                self.views_of(p),
                self.view_of(a),
                self.view_of(b),
            ),
    {
        let vp = self.views_of(p);
        assert forall|i: int| 0 <= i < vp.len() - 1 implies #[trigger] is_step(self.edge_views(edges), vp, i) by {
            assert(is_step(edges, p, i));
        }
    }

    /// A walk along the edges between nodes, from a node of the table, is a
    /// walk along the edges between their ids.
    pub proof fn lemma_path_ids(
        &self,
        edges: Set<(usize, usize)>,
        vp: Seq<NodeView>,
        x: NodeView,
        y: NodeView,
    )
        requires
            self.wf(),
            self.ids_ok(edges),
            self.knows(x),
            is_path_from_to(self.edge_views(edges), vp, x, y),
        ensures
            is_path_from_to(edges, self.ids_of(vp), self.id_of(x), self.id_of(y)),
            forall|i: int| 0 <= i < vp.len() ==> self.knows(#[trigger] vp[i]),
            self.views_of(self.ids_of(vp)) == vp,
    {
        let p = self.ids_of(vp);
        assert forall|i: int| 0 <= i < vp.len() implies self.knows(#[trigger] vp[i]) by {
            if i > 0 {
                assert(is_step(self.edge_views(edges), vp, i - 1));
                self.lemma_edge_ids(edges, vp[i - 1], vp[i]);
            }
        }
        assert forall|i: int| 0 <= i < p.len() - 1 implies #[trigger] is_step(edges, p, i) by {
            assert(is_step(self.edge_views(edges), vp, i));
            self.lemma_edge_ids(edges, vp[i], vp[i + 1]);
        }
        assert(self.views_of(p) =~= vp);
    }

    /// A node reaches another along the edges between nodes exactly when
    /// its id reaches the other's id along the edges between ids.
    pub proof fn lemma_reaches_views(&self, edges: Set<(usize, usize)>, x: NodeView, y: NodeView)
        requires
            self.wf(),
            self.ids_ok(edges),
            self.knows(x),
        ensures
            reaches(self.edge_views(edges), x, y) == (self.knows(y) && reaches(
                edges,
                self.id_of(x),
                self.id_of(y),
            )),
    {
        if reaches(self.edge_views(edges), x, y) {
            let vp = choose|vp: Seq<NodeView>| is_path_from_to(self.edge_views(edges), vp, x, y);
            self.lemma_path_ids(edges, vp, x, y);
            assert(self.knows(vp[vp.len() - 1]));
        }
        if self.knows(y) && reaches(edges, self.id_of(x), self.id_of(y)) {
            let p = choose|p: Seq<usize>|
                is_path_from_to(edges, p, self.id_of(x), self.id_of(y));
            self.lemma_path_views(edges, p, self.id_of(x), self.id_of(y));
        }
    }

    /// Each node of a walk between ids from an id of the table is an id of
    /// the table.
    pub proof fn lemma_path_holds_ids(
        &self,
        edges: Set<(usize, usize)>,
        p: Seq<usize>,
        a: usize,
        b: usize,
        k: int,
    )
        requires
            self.ids_ok(edges),
            self.is_id(a),
            is_path_from_to(edges, p, a, b),
            0 <= k < p.len(),
        ensures
            self.is_id(p[k]),
    {
        if k > 0 {
            assert(is_step(edges, p, k - 1));
        }
    }

    /// What lies on every walk between nodes is a node of the table, and
    /// its id lies on every walk between the ids, where a walk leads to the
    /// target at all.
    pub proof fn lemma_dominated_ids(
        &self,
        edges: Set<(usize, usize)>,
        entry: NodeView,
        d: NodeView,
        n: NodeView,
    )
        requires
            self.wf(),
            self.ids_ok(edges),
            self.knows(entry),
            self.knows(n),
            reaches(edges, self.id_of(entry), self.id_of(n)),
            dominated(self.edge_views(edges), entry, d, n),
        ensures
            self.knows(d),
            dominated(edges, self.id_of(entry), self.id_of(d), self.id_of(n)),
    {
        let views = self.edge_views(edges);
        let e = self.id_of(entry);
        let t = self.id_of(n);
        let p0 = choose|p: Seq<usize>| is_path_from_to(edges, p, e, t);
        self.lemma_path_views(edges, p0, e, t);
        assert(is_path_from_to(views, self.views_of(p0), entry, n));
        assert(self.views_of(p0).contains(d));
        let k = choose|k: int| 0 <= k < self.views_of(p0).len() && self.views_of(p0)[k] == d;
        self.lemma_path_holds_ids(edges, p0, e, t, k);
        assert(self.is_id(p0[k]) && self.view_of(p0[k]) == d);
        assert(self.knows(d));
        assert forall|p: Seq<usize>| #[trigger] is_path_from_to(edges, p, e, t) implies p.contains(
            self.id_of(d),
        ) by {
            self.lemma_path_views(edges, p, e, t);
            let vp = self.views_of(p);
            assert(is_path_from_to(views, vp, entry, n));
            assert(vp.contains(d));
            let i = choose|i: int| 0 <= i < vp.len() && vp[i] == d;
            self.lemma_path_holds_ids(edges, p, e, t, i);
            self.lemma_id_of(p[i]);
            assert(p[i] == self.id_of(d));
        }
    }

    /// A node of the table whose id lies on every walk between the ids lies
    /// on every walk between the nodes.
    pub proof fn lemma_dominated_nodes(
        &self,
        edges: Set<(usize, usize)>,
        entry: NodeView,
        d: NodeView,
        n: NodeView,
    )
        requires
            self.wf(),
            self.ids_ok(edges),
            self.knows(entry),
            self.knows(d),
            dominated(edges, self.id_of(entry), self.id_of(d), self.id_of(n)),
        ensures
            dominated(self.edge_views(edges), entry, d, n),
    {
        let views = self.edge_views(edges);
        assert forall|vp: Seq<NodeView>| #[trigger]
            is_path_from_to(views, vp, entry, n) implies vp.contains(d) by {
            self.lemma_path_ids(edges, vp, entry, n);
            let p = self.ids_of(vp);
            assert(is_path_from_to(edges, p, self.id_of(entry), self.id_of(n)));
            assert(p.contains(self.id_of(d)));
            let i = choose|i: int| 0 <= i < p.len() && p[i] == self.id_of(d);
            assert(self.knows(vp[i]));
            assert(vp[i] == d);
        }
    }

    /// Turning the edges between ids around turns the edges between their
    /// nodes around.
    pub proof fn lemma_flipped_views(
        &self,
        edges: Set<(usize, usize)>,
        back: Set<(usize, usize)>,
    )
        requires
            forall|a: usize, b: usize| back.contains((a, b)) == edges.contains((b, a)),
        ensures
            self.edge_views(back) == flipped(self.edge_views(edges)),
    {
        assert forall|e: (NodeView, NodeView)| self.edge_views(back).contains(e) == flipped(
            self.edge_views(edges),
        ).contains(e) by {
            if self.edge_views(back).contains(e) {
                let (a, b) = choose|a: usize, b: usize| #[trigger]
                    back.contains((a, b)) && e == (self.view_of(a), self.view_of(b));
                assert(edges.contains((b, a)));
                assert(self.edge_views(edges).contains((e.1, e.0)));
            }
            if flipped(self.edge_views(edges)).contains(e) {
                let (a, b) = choose|a: usize, b: usize| #[trigger]
                    edges.contains((a, b)) && (e.1, e.0) == (self.view_of(a), self.view_of(b));
                assert(back.contains((b, a)));
            }
        }
        assert(self.edge_views(back) =~= flipped(self.edge_views(edges)));
    }

    /// A table without names: only `Return` has an id.
    pub fn new() -> (t: NodeTable)
        ensures
            t.wf(),
            t.names@.len() == 0,
            t.block_count == 0,
    {
        NodeTable { names: Vec::new(), block_count: 0 }
    }

    /// The id of the block or label with the given name, if it has one.
    pub fn find(&self, name: &Name) -> (r: Option<usize>)
        ensures
            match r {
                Some(id) => 1 <= id <= self.names@.len() && self.names@[id - 1]@ == name@,
                None => forall|i: int| 0 <= i < self.names@.len() ==> self.names@[i]@ != name@,
            },
    {
        let mut i: usize = 0;
        while i < self.names.len()
            invariant
                i <= self.names@.len(),
                forall|k: int| 0 <= k < i ==> self.names@[k]@ != name@,
            decreases self.names@.len() - i,
        {
            if self.names[i].same(name) {
                return Some(i + 1);
            }
            i += 1;
        }
        None
    }

    /// The id of the node, if it has one.
    pub fn lookup(&self, node: &CFGNode) -> (r: Option<usize>)
        requires
            self.wf(),
        ensures
            r.is_some() == self.knows(node@),
            r matches Some(id) ==> self.is_id(id) && self.view_of(id) == node@ && id
                == self.id_of(node@),
    {
        match node {
            CFGNode::Return => {
                assert(self.is_id(0) && self.view_of(0) == node@);
                proof {
                    self.lemma_id_of(0);
                }
                Some(0)
            },
            CFGNode::Block(name) => {
                let r = self.find(name);
                proof {
                    match r {
                        Some(id) => {
                            assert(self.is_id(id) && self.view_of(id) == node@);
                            self.lemma_id_of(id);
                        },
                        None => {
                            if self.knows(node@) {
                                let id = self.id_of(node@);
                                assert(self.names@[id - 1]@ == name@);
                            }
                        },
                    }
                }
                r
            },
        }
    }

    /// The id of the block with the given name, if the function has such a
    /// block.
    pub fn find_block(&self, name: &Name) -> (r: Option<usize>)
        requires
            self.wf(),
        ensures
            r.is_some() == self.has_block(name@),
            r matches Some(id) ==> self.is_block_id(id) && self.view_of(id) == NodeView::Block(
                name@,
            ),
    {
        match self.find(name) {
            Some(id) => {
                if id <= self.block_count {
                    assert(self.names@[id - 1]@ == name@);
                    Some(id)
                } else {
                    assert forall|i: int| 0 <= i < self.block_count implies self.names@[i]@
                        != name@ by {
                        assert(self.names@[i]@ != self.names@[id - 1]@);
                    }
                    None
                }
            },
            None => None,
        }
    }

    /// The node with the given id.
    pub fn node(&self, id: usize) -> (r: CFGNode)
        requires
            self.is_id(id),
        ensures
            r@ == self.view_of(id),
    {
        if id == 0 {
            CFGNode::Return
        } else {
            CFGNode::Block(self.names[id - 1].duplicate())
        }
    }

    /// The id of the name, which is given the next free id if it has none.
    pub fn intern(&mut self, name: &Name) -> (id: usize)
        requires
            old(self).wf(),
        ensures
            final(self).wf(),
            final(self).block_count == old(self).block_count,
            old(self).names@.len() <= final(self).names@.len() <= old(self).names@.len() + 1,
            forall|i: int|
                0 <= i < old(self).names@.len() ==> final(self).names@[i] == old(self).names@[i],
            1 <= id <= final(self).names@.len(),
            final(self).names@[id - 1]@ == name@,
            final(self).names@.len() > old(self).names@.len() ==> id == final(self).names@.len(),
    {
        match self.find(name) {
            Some(id) => id,
            None => {
                self.names.push(name.duplicate());
                self.names.len()
            },
        }
    }

    /// The nodes with the given ids, in the same order.
    pub fn nodes_of_ids(&self, ids: &Vec<usize>) -> (r: Vec<CFGNode>)
        requires
            forall|k: int| 0 <= k < ids@.len() ==> self.is_id(ids@[k]),
        ensures
            r@.len() == ids@.len(),
            forall|k: int| 0 <= k < ids@.len() ==> r@[k]@ == self.view_of(ids@[k]),
    {
        let mut out: Vec<CFGNode> = Vec::new();
        let mut k: usize = 0;
        while k < ids.len()
            invariant
                k <= ids@.len(),
                out@.len() == k,
                forall|i: int| 0 <= i < ids@.len() ==> self.is_id(ids@[i]),
                forall|i: int| 0 <= i < k ==> out@[i]@ == self.view_of(ids@[i]),
            decreases ids@.len() - k,
        {
            out.push(self.node(ids[k]));
            k += 1;
        }
        out
    }

    /// The names of the blocks and labels with the given ids, in the same
    /// order.
    pub fn names_of_ids(&self, ids: &Vec<usize>) -> (r: Vec<Name>)
        requires
            forall|k: int| 0 <= k < ids@.len() ==> 1 <= #[trigger] ids@[k] <= self.names@.len(),
        ensures
            r@.len() == ids@.len(),
            forall|k: int|
                0 <= k < ids@.len() ==> NodeView::Block(r@[k]@) == self.view_of(ids@[k]),
    {
        let mut out: Vec<Name> = Vec::new();
        let mut k: usize = 0;
        while k < ids.len()
            invariant
                k <= ids@.len(),
                out@.len() == k,
                forall|i: int| 0 <= i < ids@.len() ==> 1 <= #[trigger] ids@[i] <= self.names@.len(),
                forall|i: int|
                    0 <= i < k ==> NodeView::Block(out@[i]@) == self.view_of(ids@[i]),
            decreases ids@.len() - k,
        {
            out.push(self.names[ids[k] - 1].duplicate());
            k += 1;
        }
        out
    }

    /// A copy of the table.
    pub fn duplicate(&self) -> (t: NodeTable)
        ensures
            t.block_count == self.block_count,
            t.names@.len() == self.names@.len(),
            forall|i: int| 0 <= i < self.names@.len() ==> t.names@[i]@ == self.names@[i]@,
            self.wf() ==> t.wf(),
            forall|id: usize| self.is_id(id) ==> t.view_of(id) == self.view_of(id),
    {
        let mut names: Vec<Name> = Vec::new();
        let mut i: usize = 0;
        while i < self.names.len()
            invariant
                i <= self.names@.len(),
                names@.len() == i,
                forall|k: int| 0 <= k < i ==> names@[k]@ == self.names@[k]@,
            decreases self.names@.len() - i,
        {
            names.push(self.names[i].duplicate());
            i += 1;
        }
        NodeTable { names, block_count: self.block_count }
    }
}

} // verus!
