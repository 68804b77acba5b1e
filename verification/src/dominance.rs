//! Trees of immediate dominators, as mathematics: the parent map of such a
//! tree, the numbering that orders it, and what holds of both.
//!
//! A parent map gives each node its immediate dominator (`None` for the
//! entry). A numbering gives each node a number; in a well-formed tree each
//! parent has a smaller number than its child, so chains of parents end.

use crate::graph::dominated;
use crate::graph::follows_earlier;
use crate::graph::lemma_closed_reaches;
use crate::graph::lemma_dominated_pred;
use crate::graph::lemma_path_drop_last;
use crate::graph::is_path_from_to;
use crate::graph::is_step;
use crate::graph::lemma_reaches_self;
use crate::graph::lemma_reaches_step;
use crate::graph::reaches;
use vstd::prelude::*;

verus! {

/// Whether `a` is `n` or one of `n`'s ancestors in the tree.
pub open spec fn anc(
    par: Map<usize, Option<usize>>,
    num: Map<usize, usize>,
    a: usize,
    n: usize,
) -> bool
    decreases num[n],
{
    a == n || (par.dom().contains(n) && match par[n] {
        Some(p) => num[p] < num[n] && anc(par, num, a, p),
        None => false,
    })
}

/// The numbering numbers the nodes of `order` from 1 in the order's
/// sequence, and nothing else.
pub open spec fn numbered(order: Seq<usize>, num: Map<usize, usize>) -> bool {
    &&& order.no_duplicates()
    &&& forall|n: usize| num.dom().contains(n) <==> order.contains(n)
    &&& forall|i: int| 0 <= i < order.len() ==> #[trigger] num[order[i]] == i + 1
}

/// Every node of the tree but the entry has a parent in the tree with a
/// smaller number; the entry has none.
pub open spec fn tree_ok(
    par: Map<usize, Option<usize>>,
    num: Map<usize, usize>,
    entry: usize,
) -> bool {
    &&& forall|n: usize| #[trigger] par.dom().contains(n) ==> num.dom().contains(n)
    &&& forall|n: usize| #[trigger]
        par.dom().contains(n) ==> match par[n] {
            Some(p) => n != entry && par.dom().contains(p) && num[p] < num[n],
            None => n == entry,
        }
}

/// A numbered node stands in the order at the place that its number gives.
pub proof fn lemma_numbered_at(order: Seq<usize>, num: Map<usize, usize>, n: usize)
    requires
        numbered(order, num),
        num.dom().contains(n),
    ensures
        1 <= num[n] <= order.len(),
        order[num[n] - 1] == n,
{
    assert(order.contains(n));
    let i = choose|i: int| 0 <= i < order.len() && order[i] == n;
    assert(num[order[i]] == i + 1);
}

/// Numbering one more node of a list extends the numbering of the nodes
/// before it.
pub proof fn lemma_numbered_push(order: Seq<usize>, num: Map<usize, usize>, i: int)
    requires
        order.no_duplicates(),
        0 <= i < order.len(),
        i + 1 <= usize::MAX,
        numbered(order.take(i), num),
    ensures
        numbered(order.take(i + 1), num.insert(order[i], (i + 1) as usize)),
{
    let before = order.take(i);
    let after = order.take(i + 1);
    let num2 = num.insert(order[i], (i + 1) as usize);
    assert(after =~= before.push(order[i]));
    assert forall|n: usize| num2.dom().contains(n) <==> after.contains(n) by {
        if num.dom().contains(n) {
            assert(before.contains(n));
            let j = choose|j: int| 0 <= j < before.len() && before[j] == n;
            assert(after[j] == n);
        }
        if n == order[i] {
            assert(after[i] == n);
        }
        if after.contains(n) && n != order[i] {
            let j = choose|j: int| 0 <= j < after.len() && after[j] == n;
            assert(before[j] == n);
            assert(before.contains(n));
        }
    }
    assert forall|j: int| 0 <= j < after.len() implies #[trigger] num2[after[j]] == j + 1 by {
        if j < i {
            assert(before[j] == after[j]);
            assert(order[j] != order[i]);
        }
    }
}

/// Different numbered nodes have different numbers.
pub proof fn lemma_numbered_distinct(order: Seq<usize>, num: Map<usize, usize>)
    requires
        numbered(order, num),
    ensures
        forall|a: usize, b: usize|
            num.dom().contains(a) && num.dom().contains(b) && num[a] == num[b] ==> a == b,
{
    assert forall|a: usize, b: usize|
        num.dom().contains(a) && num.dom().contains(b) && num[a] == num[b] implies a == b by {
        lemma_numbered_at(order, num, a);
        lemma_numbered_at(order, num, b);
    }
}

/// An ancestor has no larger a number than its descendant, and a smaller one
/// unless the two are the same node.
pub proof fn lemma_anc_num(
    par: Map<usize, Option<usize>>,
    num: Map<usize, usize>,
    a: usize,
    n: usize,
)
    requires
        anc(par, num, a, n),
    ensures
        num[a] <= num[n],
        a != n ==> num[a] < num[n],
    decreases num[n],
{
    if a != n {
        lemma_anc_num(par, num, a, par[n].unwrap());
    }
}

/// The ancestor relation is transitive.
pub proof fn lemma_anc_trans(
    par: Map<usize, Option<usize>>,
    num: Map<usize, usize>,
    a: usize,
    b: usize,
    c: usize,
)
    requires
        anc(par, num, a, b),
        anc(par, num, b, c),
    ensures
        anc(par, num, a, c),
    decreases num[c],
{
    if b != c {
        lemma_anc_trans(par, num, a, b, par[c].unwrap());
    }
}

/// Two ancestors of one node lie on one chain: the one with the smaller
/// number is an ancestor of the other.
pub proof fn lemma_anc_chain(
    par: Map<usize, Option<usize>>,
    num: Map<usize, usize>,
    a: usize,
    b: usize,
    n: usize,
)
    requires
        anc(par, num, a, n),
        anc(par, num, b, n),
        num[a] <= num[b],
    ensures
        anc(par, num, a, b),
    decreases num[n],
{
    if b == n {
    } else if a == n {
        lemma_anc_num(par, num, b, n);
    } else {
        lemma_anc_chain(par, num, a, b, par[n].unwrap());
    }
}

/// The ancestors of a node of the tree are nodes of the tree.
pub proof fn lemma_anc_in_tree(
    par: Map<usize, Option<usize>>,
    num: Map<usize, usize>,
    entry: usize,
    a: usize,
    n: usize,
)
    requires
        tree_ok(par, num, entry),
        par.dom().contains(n),
        anc(par, num, a, n),
    ensures
        par.dom().contains(a),
    decreases num[n],
{
    if a != n {
        lemma_anc_in_tree(par, num, entry, a, par[n].unwrap());
    }
}

/// The entry is an ancestor of every node of the tree.
pub proof fn lemma_anc_entry(
    par: Map<usize, Option<usize>>,
    num: Map<usize, usize>,
    entry: usize,
    n: usize,
)
    requires
        tree_ok(par, num, entry),
        par.dom().contains(n),
    ensures
        anc(par, num, entry, n),
    decreases num[n],
{
    if n != entry {
        lemma_anc_entry(par, num, entry, par[n].unwrap());
    }
}

/// What giving `n` the parent `m` does to the ancestor relation: below `n`
/// the chain up to `n` stays and continues with the chain of `m`; elsewhere
/// nothing changes.
pub proof fn lemma_reparent(
    par: Map<usize, Option<usize>>,
    num: Map<usize, usize>,
    entry: usize,
    n: usize,
    m: usize,
    x: usize,
    z: usize,
)
    requires
        tree_ok(par, num, entry),
        num.dom().contains(n),
        n != entry,
        par.dom().contains(m),
        num[m] < num[n],
    ensures
        anc(par.insert(n, Some(m)), num, x, z) == if anc(par, num, n, z) {
            (anc(par, num, x, z) && anc(par, num, n, x)) || anc(par, num, x, m)
        } else {
            anc(par, num, x, z)
        },
    decreases num[z],
{
    let par2 = par.insert(n, Some(m));
    if z == n {
        lemma_reparent(par, num, entry, n, m, x, m);
        if anc(par, num, n, m) {
            lemma_anc_num(par, num, n, m);
        }
        if anc(par, num, x, n) && anc(par, num, n, x) {
            lemma_anc_num(par, num, x, n);
            lemma_anc_num(par, num, n, x);
        }
    } else if par.dom().contains(z) && par[z].is_some() && num[par[z].unwrap()] < num[z] {
        let p = par[z].unwrap();
        assert(par2[z] == par[z]);
        lemma_reparent(par, num, entry, n, m, x, p);
        if anc(par, num, n, p) && x == z {
            assert(anc(par, num, p, p));
            assert(anc(par, num, p, z));
            lemma_anc_trans(par, num, n, p, z);
        }
    } else {
        assert(par2.dom().contains(z) == par.dom().contains(z));
        if par.dom().contains(z) {
            assert(par2[z] == par[z]);
        }
    }
}

/// Giving `n` a parent in the tree with a smaller number keeps the tree
/// well-formed.
pub proof fn lemma_reparent_tree_ok(
    par: Map<usize, Option<usize>>,
    num: Map<usize, usize>,
    entry: usize,
    n: usize,
    m: usize,
)
    requires
        tree_ok(par, num, entry),
        num.dom().contains(n),
        n != entry,
        par.dom().contains(m),
        num[m] < num[n],
    ensures
        tree_ok(par.insert(n, Some(m)), num, entry),
{
    let par2 = par.insert(n, Some(m));
    assert forall|y: usize| #[trigger] par2.dom().contains(y) implies match par2[y] {
        Some(p) => y != entry && par2.dom().contains(p) && num[p] < num[y],
        None => y == entry,
    } by {
        if y != n {
            assert(par.dom().contains(y));
        }
    }
}

/// Whether `x` is an ancestor of (or is) every predecessor of `y` that the
/// tree holds.
pub open spec fn common_anc(
    par: Map<usize, Option<usize>>,
    num: Map<usize, usize>,
    edges: Set<(usize, usize)>,
    x: usize,
    y: usize,
) -> bool {
    forall|p: usize| #[trigger]
        edges.contains((p, y)) && par.dom().contains(p) ==> anc(par, num, x, p)
}

/// Whether `m` is the nearest common ancestor of the predecessors of `y`
/// that the tree holds: a common ancestor below which no other lies.
pub open spec fn is_nca(
    par: Map<usize, Option<usize>>,
    num: Map<usize, usize>,
    edges: Set<(usize, usize)>,
    m: usize,
    y: usize,
) -> bool {
    &&& common_anc(par, num, edges, m, y)
    &&& forall|x: usize| #[trigger] common_anc(par, num, edges, x, y) ==> anc(par, num, x, m)
}

/// Whether every common ancestor of the predecessors of `y` is an ancestor of
/// the parent of `y`: the parent lies at or below their nearest common
/// ancestor.
pub open spec fn above_nca(
    par: Map<usize, Option<usize>>,
    num: Map<usize, usize>,
    edges: Set<(usize, usize)>,
    y: usize,
) -> bool {
    forall|x: usize| #[trigger]
        common_anc(par, num, edges, x, y) ==> anc(par, num, x, par[y].unwrap())
}

/// Whether `q` is a predecessor of `y` with a smaller number that lies below
/// the parent of `y`.
pub open spec fn is_witness(
    par: Map<usize, Option<usize>>,
    num: Map<usize, usize>,
    edges: Set<(usize, usize)>,
    q: usize,
    y: usize,
) -> bool {
    &&& edges.contains((q, y))
    &&& par.dom().contains(q)
    &&& num[q] < num[y]
    &&& anc(par, num, par[y].unwrap(), q)
}

/// Whether `y` has a predecessor with a smaller number below its parent.
pub open spec fn has_witness(
    par: Map<usize, Option<usize>>,
    num: Map<usize, usize>,
    edges: Set<(usize, usize)>,
    y: usize,
) -> bool {
    exists|q: usize| is_witness(par, num, edges, q, y)
}

/// What holds of the tree while a pass over the nodes in the order of their
/// numbers has reached the node with number `k + 1`: each parent lies at or
/// below the nearest common ancestor of its node's predecessors, and each
/// node that the pass has left behind, or whose parent it has not reached
/// yet, has a predecessor with a smaller number below its parent.
pub open spec fn sweep_ok(
    par: Map<usize, Option<usize>>,
    num: Map<usize, usize>,
    edges: Set<(usize, usize)>,
    entry: usize,
    k: int,
) -> bool {
    forall|y: usize| #[trigger]
        par.dom().contains(y) && y != entry ==> above_nca(par, num, edges, y) && ((num[y] <= k
            || k < num[par[y].unwrap()]) ==> has_witness(par, num, edges, y))
}

/// One step of a pass: the node with number `k + 1` takes the nearest common
/// ancestor of its predecessors as its parent. The new parent is an ancestor
/// of the old one, and the pass goes on.
pub proof fn lemma_sweep_step(
    par: Map<usize, Option<usize>>,
    num: Map<usize, usize>,
    edges: Set<(usize, usize)>,
    entry: usize,
    k: int,
    n: usize,
    m: usize,
    q0: usize,
)
    requires
        tree_ok(par, num, entry),
        forall|a: usize, b: usize|
            num.dom().contains(a) && num.dom().contains(b) && num[a] == num[b] ==> a == b,
        par.dom().contains(n),
        n != entry,
        num[n] == k + 1,
        par.dom().contains(m),
        num[m] < num[n],
        is_nca(par, num, edges, m, n),
        edges.contains((q0, n)),
        par.dom().contains(q0),
        num[q0] < num[n],
        sweep_ok(par, num, edges, entry, k),
    ensures
        anc(par, num, m, par[n].unwrap()),
        tree_ok(par.insert(n, Some(m)), num, entry),
        sweep_ok(par.insert(n, Some(m)), num, edges, entry, k + 1),
{
    let par2 = par.insert(n, Some(m));
    let old_m = par[n].unwrap();
    assert(above_nca(par, num, edges, n));
    assert(common_anc(par, num, edges, m, n));
    assert(anc(par, num, m, old_m));
    lemma_reparent_tree_ok(par, num, entry, n, m);
    assert(par2.dom() =~= par.dom());
    assert(anc(par, num, old_m, n)) by {
        assert(anc(par, num, old_m, old_m));
    }
    lemma_anc_trans(par, num, m, old_m, n);
    // the new chains are parts of the old ones
    assert forall|x: usize, z: usize| anc(par2, num, x, z) implies anc(par, num, x, z) by {
        lemma_reparent(par, num, entry, n, m, x, z);
        if anc(par, num, n, z) && anc(par, num, x, m) {
            lemma_anc_trans(par, num, x, m, n);
            lemma_anc_trans(par, num, x, n, z);
        }
    }
    assert forall|y: usize| #[trigger] par2.dom().contains(y) && y != entry implies above_nca(
        par2,
        num,
        edges,
        y,
    ) && ((num[y] <= k + 1 || k + 1 < num[par2[y].unwrap()]) ==> has_witness(
        par2,
        num,
        edges,
        y,
    )) by {
        if y == n {
            assert forall|x: usize| #[trigger] common_anc(par2, num, edges, x, y) implies anc(
                par2,
                num,
                x,
                m,
            ) by {
                assert forall|p: usize| #[trigger]
                    edges.contains((p, y)) && par.dom().contains(p) implies anc(
                    par,
                    num,
                    x,
                    p,
                ) by {
                    assert(anc(par2, num, x, p));
                }
                assert(common_anc(par, num, edges, x, y));
                assert(anc(par, num, x, m));
                lemma_reparent(par, num, entry, n, m, x, m);
                if anc(par, num, n, m) {
                    lemma_anc_num(par, num, n, m);
                }
            }
            lemma_reparent(par, num, entry, n, m, m, q0);
            if anc(par, num, n, q0) {
                lemma_anc_num(par, num, n, q0);
            }
            assert(is_witness(par2, num, edges, q0, y));
        } else {
            let r = par[y].unwrap();
            assert(par2[y] == par[y]);
            assert(above_nca(par, num, edges, y));
            assert forall|x: usize| #[trigger] common_anc(par2, num, edges, x, y) implies anc(
                par2,
                num,
                x,
                r,
            ) by {
                assert forall|p: usize| #[trigger]
                    edges.contains((p, y)) && par.dom().contains(p) implies anc(
                    par,
                    num,
                    x,
                    p,
                ) by {
                    assert(anc(par2, num, x, p));
                }
                assert(common_anc(par, num, edges, x, y));
                assert(anc(par, num, x, r));
                lemma_reparent(par, num, entry, n, m, x, r);
                if anc(par, num, n, r) {
                    lemma_anc_num(par, num, n, r);
                    assert(has_witness(par, num, edges, y));
                    let q = choose|q: usize| is_witness(par, num, edges, q, y);
                    lemma_anc_trans(par, num, n, r, q);
                    assert(anc(par2, num, x, q));
                    lemma_reparent(par, num, entry, n, m, x, q);
                }
            }
            if num[y] <= k + 1 || k + 1 < num[r] {
                if num[y] <= k + 1 {
                    assert(num[y] <= k);
                    let q = choose|q: usize| is_witness(par, num, edges, q, y);
                    lemma_reparent(par, num, entry, n, m, r, q);
                    if anc(par, num, n, q) {
                        lemma_anc_num(par, num, n, q);
                    }
                    assert(is_witness(par2, num, edges, q, y));
                } else {
                    let q = choose|q: usize| is_witness(par, num, edges, q, y);
                    lemma_reparent(par, num, entry, n, m, r, q);
                    if anc(par, num, n, q) {
                        lemma_anc_chain(par, num, n, r, q);
                    }
                    assert(is_witness(par2, num, edges, q, y));
                }
            }
        }
    }
}

/// The first pass: a node that the tree does not hold yet joins it below
/// the nearest common ancestor of its predecessors that the tree holds.
pub proof fn lemma_first_step(
    par: Map<usize, Option<usize>>,
    num: Map<usize, usize>,
    edges: Set<(usize, usize)>,
    entry: usize,
    total: int,
    n: usize,
    m: usize,
    q0: usize,
)
    requires
        tree_ok(par, num, entry),
        forall|y: usize| num.dom().contains(y) ==> num[y] <= total,
        !par.dom().contains(n),
        num.dom().contains(n),
        n != entry,
        par.dom().contains(m),
        num[m] < num[n],
        is_nca(par, num, edges, m, n),
        edges.contains((q0, n)),
        par.dom().contains(q0),
        num[q0] < num[n],
        sweep_ok(par, num, edges, entry, total),
    ensures
        tree_ok(par.insert(n, Some(m)), num, entry),
        sweep_ok(par.insert(n, Some(m)), num, edges, entry, total),
{
    let par2 = par.insert(n, Some(m));
    lemma_reparent_tree_ok(par, num, entry, n, m);
    // nothing that the tree held lies below the new node
    assert forall|x: usize, z: usize| par.dom().contains(z) implies anc(par2, num, x, z) == anc(
        par,
        num,
        x,
        z,
    ) by {
        lemma_reparent(par, num, entry, n, m, x, z);
        if anc(par, num, n, z) {
            lemma_anc_in_tree(par, num, entry, n, z);
        }
    }
    assert forall|y: usize| #[trigger] par2.dom().contains(y) && y != entry implies above_nca(
        par2,
        num,
        edges,
        y,
    ) && ((num[y] <= total || total < num[par2[y].unwrap()]) ==> has_witness(
        par2,
        num,
        edges,
        y,
    )) by {
        let r = par2[y].unwrap();
        if y != n {
            assert(par.dom().contains(y));
            assert(above_nca(par, num, edges, y));
        }
        assert(par.dom().contains(r));
        assert forall|x: usize| #[trigger] common_anc(par2, num, edges, x, y) implies anc(
            par2,
            num,
            x,
            r,
        ) by {
            assert forall|p: usize| #[trigger]
                edges.contains((p, y)) && par.dom().contains(p) implies anc(par, num, x, p) by {
                assert(par2.dom().contains(p));
                assert(anc(par2, num, x, p));
            }
            assert(common_anc(par, num, edges, x, y));
            assert(anc(par, num, x, r));
        }
        if y == n {
            assert(anc(par, num, m, q0));
            assert(is_witness(par2, num, edges, q0, y));
        } else {
            assert(has_witness(par, num, edges, y));
            let q = choose|q: usize| is_witness(par, num, edges, q, y);
            assert(is_witness(par2, num, edges, q, y));
        }
    }
}

/// The number of a node's parent, or 0 where it has none.
pub open spec fn parent_num(par: Map<usize, Option<usize>>, num: Map<usize, usize>, n: usize) -> nat {
    if par.dom().contains(n) {
        match par[n] {
            Some(p) => num[p] as nat,
            None => 0,
        }
    } else {
        0
    }
}

/// The sum of the numbers of the parents of the listed nodes. Each step of a
/// pass that changes a parent lowers it.
pub open spec fn potential(
    par: Map<usize, Option<usize>>,
    num: Map<usize, usize>,
    order: Seq<usize>,
) -> nat
    decreases order.len(),
{
    if order.len() == 0 {
        0
    } else {
        potential(par, num, order.drop_last()) + parent_num(par, num, order.last())
    }
}

/// A change to the parent of a node that is not listed leaves the sum as it
/// is.
pub proof fn lemma_potential_other(
    par: Map<usize, Option<usize>>,
    num: Map<usize, usize>,
    order: Seq<usize>,
    n: usize,
    v: Option<usize>,
)
    requires
        !order.contains(n),
    ensures
        potential(par.insert(n, v), num, order) == potential(par, num, order),
    decreases order.len(),
{
    if order.len() > 0 {
        assert(order.contains(order.last()));
        assert forall|x: usize| order.drop_last().contains(x) implies order.contains(x) by {
            let i = choose|i: int| 0 <= i < order.drop_last().len() && order.drop_last()[i] == x;
            assert(order[i] == x);
        }
        lemma_potential_other(par, num, order.drop_last(), n, v);
    }
}

/// A change to the parent of a listed node changes the sum by the difference
/// of the two parents' numbers.
pub proof fn lemma_potential_update(
    par: Map<usize, Option<usize>>,
    num: Map<usize, usize>,
    order: Seq<usize>,
    n: usize,
    m: usize,
)
    requires
        order.no_duplicates(),
        order.contains(n),
    ensures
        potential(par.insert(n, Some(m)), num, order) + parent_num(par, num, n) == potential(
            par,
            num,
            order,
        ) + num[m],
    decreases order.len(),
{
    let rest = order.drop_last();
    if order.last() == n {
        assert(!rest.contains(n)) by {
            if rest.contains(n) {
                let i = choose|i: int| 0 <= i < rest.len() && rest[i] == n;
                assert(order[i] == order[order.len() - 1]);
            }
        }
        lemma_potential_other(par, num, rest, n, Some(m));
    } else {
        let i = choose|i: int| 0 <= i < order.len() && order[i] == n;
        assert(rest[i] == n);
        assert(rest.no_duplicates());
        lemma_potential_update(par, num, rest, n, m);
    }
}

/// Whether each node of the tree but the entry has the nearest common
/// ancestor of its predecessors as its parent, and the tree holds exactly
/// the listed nodes: the tree is then a fixed point of the passes.
pub open spec fn is_fixed(
    par: Map<usize, Option<usize>>,
    num: Map<usize, usize>,
    edges: Set<(usize, usize)>,
    entry: usize,
    order: Seq<usize>,
) -> bool {
    &&& tree_ok(par, num, entry)
    &&& numbered(order, num)
    &&& order.len() >= 1
    &&& order[0] == entry
    &&& par.dom() == num.dom()
    &&& forall|y: usize| #[trigger]
        par.dom().contains(y) && y != entry ==> is_nca(par, num, edges, par[y].unwrap(), y)
}

/// Whether `order` is a depth-first preorder of the graph from `entry`: it
/// begins with the entry, lists no node twice, lists each later node after
/// one of its predecessors, and lists every successor of a node it lists.
pub open spec fn is_preorder(edges: Set<(usize, usize)>, entry: usize, order: Seq<usize>) -> bool {
    &&& order.len() >= 1
    &&& order[0] == entry
    &&& order.no_duplicates()
    &&& forall|i: int| 1 <= i < order.len() ==> #[trigger] follows_earlier(edges, order, i)
    &&& forall|a: usize, b: usize|
        order.contains(a) && #[trigger] edges.contains((a, b)) ==> order.contains(b)
}

/// Whether `x` is an ancestor of (or is) each of the first `i` listed nodes
/// that the tree holds.
pub open spec fn common_upto(
    par: Map<usize, Option<usize>>,
    num: Map<usize, usize>,
    preds: Seq<usize>,
    i: int,
    x: usize,
) -> bool {
    forall|j: int|
        0 <= j < i && par.dom().contains(#[trigger] preds[j]) ==> anc(par, num, x, preds[j])
}

/// The edges of the tree: one from each parent to its child.
pub open spec fn tree_edges(par: Map<usize, Option<usize>>) -> Set<(usize, usize)> {
    Set::new(|e: (usize, usize)| par.dom().contains(e.1) && par[e.1] == Some(e.0))
}

/// In a well-formed tree, a walk along the tree's edges leads from `a` to
/// `b` exactly when `a` is `b` or an ancestor of `b`.
pub proof fn lemma_tree_reach(
    par: Map<usize, Option<usize>>,
    num: Map<usize, usize>,
    entry: usize,
    a: usize,
    b: usize,
)
    requires
        tree_ok(par, num, entry),
    ensures
        reaches(tree_edges(par), a, b) == anc(par, num, a, b),
{
    if anc(par, num, a, b) {
        lemma_anc_reaches(par, num, a, b);
    }
    if reaches(tree_edges(par), a, b) {
        let p = choose|p: Seq<usize>| is_path_from_to(tree_edges(par), p, a, b);
        lemma_path_anc(par, num, entry, p, a, b);
    }
}

/// A walk along the tree's edges leads from an ancestor to its descendant.
proof fn lemma_anc_reaches(par: Map<usize, Option<usize>>, num: Map<usize, usize>, a: usize, b: usize)
    requires
        anc(par, num, a, b),
    ensures
        reaches(tree_edges(par), a, b),
    decreases num[b],
{
    if a == b {
        lemma_reaches_self(tree_edges(par), a);
    } else {
        let p = par[b].unwrap();
        lemma_anc_reaches(par, num, a, p);
        assert(tree_edges(par).contains((p, b)));
        lemma_reaches_step(tree_edges(par), a, p, b);
    }
}

/// A walk along the tree's edges leads from a node only to the node and
/// its descendants.
proof fn lemma_path_anc(
    par: Map<usize, Option<usize>>,
    num: Map<usize, usize>,
    entry: usize,
    p: Seq<usize>,
    a: usize,
    b: usize,
)
    requires
        tree_ok(par, num, entry),
        is_path_from_to(tree_edges(par), p, a, b),
    ensures
        anc(par, num, a, b),
    decreases p.len(),
{
    if p.len() == 1 {
    } else {
        let q = p.drop_last();
        let c = q[q.len() - 1];
        assert forall|i: int| 0 <= i < q.len() - 1 implies #[trigger] is_step(tree_edges(par), q, i) by {
            assert(is_step(tree_edges(par), p, i));
            assert(q[i] == p[i] && q[i + 1] == p[i + 1]);
        }
        lemma_path_anc(par, num, entry, q, a, c);
        assert(is_step(tree_edges(par), p, p.len() - 2));
        assert(par[b] == Some(c));
        assert(anc(par, num, c, c));
        assert(anc(par, num, c, b));
        lemma_anc_trans(par, num, a, c, b);
    }
}

/// In a fixed tree over a graph in which no edge leaves `sink`, and whose
/// entry is not `sink`, `sink` is nobody's ancestor but its own.
pub proof fn lemma_sink_is_leaf(
    par: Map<usize, Option<usize>>,
    num: Map<usize, usize>,
    edges: Set<(usize, usize)>,
    entry: usize,
    order: Seq<usize>,
    sink: usize,
    z: usize,
)
    requires
        is_preorder(edges, entry, order),
        is_fixed(par, num, edges, entry, order),
        forall|a: usize, b: usize| edges.contains((a, b)) ==> a != sink,
        entry != sink,
        par.dom().contains(z),
        anc(par, num, sink, z),
    ensures
        z == sink,
    decreases num[z],
{
    if z != sink {
        let r = par[z].unwrap();
        lemma_numbered_at(order, num, z);
        let i = num[z] - 1;
        assert(order[0] == entry);
        assert(z != entry);
        assert(follows_earlier(edges, order, i));
        let j = choose|j: int| 0 <= j < i && edges.contains((#[trigger] order[j], order[i]));
        let q = order[j];
        assert(order.contains(q));
        assert(num[order[j]] == j + 1);
        assert(is_nca(par, num, edges, r, z));
        assert(common_anc(par, num, edges, r, z));
        assert(anc(par, num, r, q));
        lemma_anc_trans(par, num, sink, r, q);
        lemma_sink_is_leaf(par, num, edges, entry, order, sink, q);
    }
}

/// Every node of a fixed tree is the entry or the target of an edge.
pub proof fn lemma_tree_node_is_target(
    par: Map<usize, Option<usize>>,
    num: Map<usize, usize>,
    edges: Set<(usize, usize)>,
    entry: usize,
    order: Seq<usize>,
    z: usize,
)
    requires
        is_preorder(edges, entry, order),
        is_fixed(par, num, edges, entry, order),
        par.dom().contains(z),
        z != entry,
    ensures
        exists|q: usize| edges.contains((q, z)) && par.dom().contains(q),
{
    lemma_numbered_at(order, num, z);
    let i = num[z] - 1;
    assert(follows_earlier(edges, order, i));
    let j = choose|j: int| 0 <= j < i && edges.contains((#[trigger] order[j], order[i]));
    assert(order.contains(order[j]));
}

/// The parent of the node, if the tree holds the node and it has one.
pub open spec fn parent_in(par: Map<usize, Option<usize>>, n: usize) -> Option<usize> {
    if par.dom().contains(n) {
        par[n]
    } else {
        None
    }
}

/// Whether `y` lies in the dominance frontier of `x`: `x` dominates a
/// predecessor of `y`, but does not strictly dominate `y`.
pub open spec fn in_frontier(
    par: Map<usize, Option<usize>>,
    num: Map<usize, usize>,
    edges: Set<(usize, usize)>,
    x: usize,
    y: usize,
) -> bool {
    exists|p: usize| frontier_by(par, num, edges, x, y, p)
}

/// Whether `p` shows that `y` lies in the dominance frontier of `x`.
pub open spec fn frontier_by(
    par: Map<usize, Option<usize>>,
    num: Map<usize, usize>,
    edges: Set<(usize, usize)>,
    x: usize,
    y: usize,
    p: usize,
) -> bool {
    &&& edges.contains((p, y))
    &&& anc(par, num, x, p)
    &&& !(x != y && anc(par, num, x, y))
}

/// Whether `y` is a successor of `x` that `x` does not immediately dominate.
pub open spec fn frontier_local(
    par: Map<usize, Option<usize>>,
    edges: Set<(usize, usize)>,
    x: usize,
    y: usize,
) -> bool {
    edges.contains((x, y)) && parent_in(par, y) != Some(x)
}

/// Whether `y` lies in the dominance frontier of the child `z` of `x`, and
/// `x` does not immediately dominate `y`.
pub open spec fn frontier_up(
    par: Map<usize, Option<usize>>,
    num: Map<usize, usize>,
    edges: Set<(usize, usize)>,
    x: usize,
    y: usize,
    z: usize,
) -> bool {
    &&& parent_in(par, z) == Some(x)
    &&& in_frontier(par, num, edges, z, y)
    &&& parent_in(par, y) != Some(x)
}

/// In a fixed tree, the parent of an edge's target is an ancestor of the
/// edge's source, where the tree holds the source.
pub proof fn lemma_edge_parent(
    par: Map<usize, Option<usize>>,
    num: Map<usize, usize>,
    edges: Set<(usize, usize)>,
    entry: usize,
    order: Seq<usize>,
    p: usize,
    y: usize,
)
    requires
        is_preorder(edges, entry, order),
        is_fixed(par, num, edges, entry, order),
        edges.contains((p, y)),
        par.dom().contains(p),
    ensures
        par.dom().contains(y),
        y != entry ==> par[y].is_some() && anc(par, num, par[y].unwrap(), p),
{
    assert(order.contains(p));
    assert(order.contains(y));
    if y != entry {
        assert(is_nca(par, num, edges, par[y].unwrap(), y));
        assert(common_anc(par, num, edges, par[y].unwrap(), y));
    }
}

/// A strict ancestor of a node has a child that is the node or one of its
/// ancestors.
pub proof fn lemma_child_toward(
    par: Map<usize, Option<usize>>,
    num: Map<usize, usize>,
    x: usize,
    p: usize,
) -> (z: usize)
    requires
        anc(par, num, x, p),
        x != p,
    ensures
        parent_in(par, z) == Some(x),
        anc(par, num, z, p),
        num[x] < num[z],
    decreases num[p],
{
    let r = par[p].unwrap();
    if r == x {
        assert(anc(par, num, p, p));
        p
    } else {
        let z = lemma_child_toward(par, num, x, r);
        assert(anc(par, num, r, r));
        assert(anc(par, num, r, p));
        lemma_anc_trans(par, num, z, r, p);
        z
    }
}

/// The dominance frontier of a node of a fixed tree is made of the
/// successors that the node does not immediately dominate, and of what the
/// frontiers of its children hold that it does not immediately dominate.
pub proof fn lemma_frontier(
    par: Map<usize, Option<usize>>,
    num: Map<usize, usize>,
    edges: Set<(usize, usize)>,
    entry: usize,
    order: Seq<usize>,
    x: usize,
    y: usize,
)
    requires
        is_preorder(edges, entry, order),
        is_fixed(par, num, edges, entry, order),
        par.dom().contains(x),
    ensures
        in_frontier(par, num, edges, x, y) == (frontier_local(par, edges, x, y) || exists|
            z: usize,
        |
            frontier_up(par, num, edges, x, y, z)),
{
    if frontier_local(par, edges, x, y) {
        lemma_edge_parent(par, num, edges, entry, order, x, y);
        assert(anc(par, num, x, x));
        if x != y && anc(par, num, x, y) {
            let r = par[y].unwrap();
            assert(anc(par, num, x, r));
            lemma_anc_num(par, num, x, r);
            lemma_anc_num(par, num, r, x);
        }
        assert(frontier_by(par, num, edges, x, y, x));
    }
    if exists|z: usize| frontier_up(par, num, edges, x, y, z) {
        let z = choose|z: usize| frontier_up(par, num, edges, x, y, z);
        let p = choose|p: usize| frontier_by(par, num, edges, z, y, p);
        assert(anc(par, num, x, x));
        assert(anc(par, num, x, z));
        lemma_anc_trans(par, num, x, z, p);
        lemma_anc_in_tree(par, num, entry, z, p);
        if par.dom().contains(p) {
            lemma_edge_parent(par, num, edges, entry, order, p, y);
        } else {
            assert(z == p);
        }
        if x != y && anc(par, num, x, y) {
            let r = par[y].unwrap();
            assert(anc(par, num, x, r));
            assert(r != x);
            if num[z] <= num[r] {
                lemma_anc_chain(par, num, z, r, p);
                assert(anc(par, num, r, r));
                assert(anc(par, num, r, y));
                lemma_anc_trans(par, num, z, r, y);
                assert(z != y);
            } else {
                lemma_anc_chain(par, num, r, z, p);
                assert(anc(par, num, r, x));
                lemma_anc_num(par, num, x, r);
                lemma_anc_num(par, num, r, x);
            }
        }
        assert(frontier_by(par, num, edges, x, y, p));
    }
    if in_frontier(par, num, edges, x, y) {
        let p = choose|p: usize| frontier_by(par, num, edges, x, y, p);
        if parent_in(par, y) == Some(x) {
            assert(anc(par, num, x, x));
            assert(anc(par, num, x, y));
            assert(false);
        }
        if p != x {
            let z = lemma_child_toward(par, num, x, p);
            if z != y && anc(par, num, z, y) {
                assert(anc(par, num, x, x));
                assert(anc(par, num, x, z));
                lemma_anc_trans(par, num, x, z, y);
                lemma_anc_num(par, num, z, y);
            }
            assert(frontier_by(par, num, edges, z, y, p));
            assert(frontier_up(par, num, edges, x, y, z));
        }
    }
}

/// Whether each node's parent lies on every walk from the entry on which
/// the node's other dominators lie: what lies on every walk to a node, and
/// is not the node, lies on every walk to its parent.
pub open spec fn keeps_dominators(
    par: Map<usize, Option<usize>>,
    edges: Set<(usize, usize)>,
    entry: usize,
) -> bool {
    forall|y: usize, d: usize|
        par.dom().contains(y) && y != entry && d != y && #[trigger] dominated(edges, entry, d, y)
            ==> dominated(edges, entry, d, par[y].unwrap())
}

/// In a tree that keeps dominators, what lies on every walk to a node is
/// the node or one of its ancestors.
pub proof fn lemma_dominator_is_anc(
    par: Map<usize, Option<usize>>,
    num: Map<usize, usize>,
    edges: Set<(usize, usize)>,
    entry: usize,
    d: usize,
    n: usize,
)
    requires
        tree_ok(par, num, entry),
        keeps_dominators(par, edges, entry),
        par.dom().contains(n),
        dominated(edges, entry, d, n),
    ensures
        anc(par, num, d, n),
    decreases num[n],
{
    if d != n {
        if n == entry {
            let p = seq![entry];
            assert(is_path_from_to(edges, p, entry, n));
            assert(p.contains(d));
            let i = choose|i: int| 0 <= i < p.len() && p[i] == d;
            assert(false);
        }
        lemma_dominator_is_anc(par, num, edges, entry, d, par[n].unwrap());
    }
}

/// In a tree that keeps dominators, what lies on every walk to a node lies
/// on every walk to each of the node's ancestors below it.
pub proof fn lemma_dominated_up(
    par: Map<usize, Option<usize>>,
    num: Map<usize, usize>,
    edges: Set<(usize, usize)>,
    entry: usize,
    d: usize,
    w: usize,
    z: usize,
)
    requires
        tree_ok(par, num, entry),
        keeps_dominators(par, edges, entry),
        par.dom().contains(z),
        dominated(edges, entry, d, z),
        anc(par, num, d, w),
        anc(par, num, w, z),
    ensures
        dominated(edges, entry, d, w),
    decreases num[z],
{
    if z != w {
        let r = par[z].unwrap();
        if d == z {
            lemma_anc_num(par, num, d, w);
            lemma_anc_num(par, num, w, z);
        }
        lemma_dominated_up(par, num, edges, entry, d, w, r);
    }
}

/// Giving a node the nearest common ancestor of its predecessors as its
/// parent keeps dominators.
pub proof fn lemma_keeps_step(
    par: Map<usize, Option<usize>>,
    num: Map<usize, usize>,
    edges: Set<(usize, usize)>,
    entry: usize,
    n: usize,
    m: usize,
    q0: usize,
)
    requires
        tree_ok(par, num, entry),
        keeps_dominators(par, edges, entry),
        n != entry,
        par.dom().contains(m),
        is_nca(par, num, edges, m, n),
        edges.contains((q0, n)),
        par.dom().contains(q0),
    ensures
        keeps_dominators(par.insert(n, Some(m)), edges, entry),
{
    let par2 = par.insert(n, Some(m));
    assert forall|y: usize, d: usize|
        par2.dom().contains(y) && y != entry && d != y && #[trigger] dominated(
            edges,
            entry,
            d,
            y,
        ) implies dominated(edges, entry, d, par2[y].unwrap()) by {
        if y == n {
            assert forall|p: usize| #[trigger]
                edges.contains((p, n)) && par.dom().contains(p) implies anc(par, num, d, p) by {
                lemma_dominated_pred(edges, entry, d, p, n);
                lemma_dominator_is_anc(par, num, edges, entry, d, p);
            }
            assert(common_anc(par, num, edges, d, n));
            assert(anc(par, num, d, m));
            assert(common_anc(par, num, edges, m, n));
            assert(anc(par, num, m, q0));
            lemma_dominated_pred(edges, entry, d, q0, n);
            lemma_dominated_up(par, num, edges, entry, d, m, q0);
        } else {
            assert(par.dom().contains(y));
        }
    }
}

/// The nodes of a preorder are those that the entry reaches.
pub proof fn lemma_preorder_reaches(
    edges: Set<(usize, usize)>,
    entry: usize,
    order: Seq<usize>,
    n: usize,
)
    requires
        is_preorder(edges, entry, order),
    ensures
        order.contains(n) == reaches(edges, entry, n),
{
    if order.contains(n) {
        let i = choose|i: int| 0 <= i < order.len() && order[i] == n;
        lemma_order_reached(edges, entry, order, i);
    }
    if reaches(edges, entry, n) {
        let p = choose|p: Seq<usize>| is_path_from_to(edges, p, entry, n);
        let closed = Set::new(|x: usize| order.contains(x));
        assert(order[0] == entry);
        assert(closed.contains(entry));
        lemma_closed_reaches(edges, closed, p, entry, n);
    }
}

/// The entry reaches every node of a preorder.
proof fn lemma_order_reached(edges: Set<(usize, usize)>, entry: usize, order: Seq<usize>, i: int)
    requires
        is_preorder(edges, entry, order),
        0 <= i < order.len(),
    ensures
        reaches(edges, entry, order[i]),
    decreases i,
{
    if i == 0 {
        lemma_reaches_self(edges, entry);
    } else {
        assert(follows_earlier(edges, order, i));
        let j = choose|j: int| 0 <= j < i && edges.contains((#[trigger] order[j], order[i]));
        lemma_order_reached(edges, entry, order, j);
        lemma_reaches_step(edges, entry, order[j], order[i]);
    }
}

/// In a fixed tree, the ancestors of a node lie on every walk from the entry
/// to the node.
pub proof fn lemma_anc_is_dominator(
    par: Map<usize, Option<usize>>,
    num: Map<usize, usize>,
    edges: Set<(usize, usize)>,
    entry: usize,
    order: Seq<usize>,
    d: usize,
    n: usize,
    p: Seq<usize>,
)
    requires
        is_preorder(edges, entry, order),
        is_fixed(par, num, edges, entry, order),
        anc(par, num, d, n),
        is_path_from_to(edges, p, entry, n),
    ensures
        p.contains(d),
    decreases p.len(),
{
    if d == n {
        assert(p[p.len() - 1] == d);
    } else {
        assert(par.dom().contains(n));
        assert(n != entry);
        assert(p.len() >= 2);
        lemma_path_drop_last(edges, p, entry, n);
        let q = p.drop_last();
        let pred = p[p.len() - 2];
        assert(reaches(edges, entry, pred));
        lemma_preorder_reaches(edges, entry, order, pred);
        assert(par.dom().contains(pred));
        assert(is_nca(par, num, edges, par[n].unwrap(), n));
        assert(common_anc(par, num, edges, par[n].unwrap(), n));
        lemma_anc_trans(par, num, d, par[n].unwrap(), pred);
        lemma_anc_is_dominator(par, num, edges, entry, order, d, pred, q);
        let i = choose|i: int| 0 <= i < q.len() && q[i] == d;
        assert(p[i] == d);
    }
}

/// In a fixed tree that keeps dominators, the ancestors of a node are what
/// lies on every walk from the entry to the node: the tree is the dominator
/// tree.
pub proof fn lemma_tree_is_exact(
    par: Map<usize, Option<usize>>,
    num: Map<usize, usize>,
    edges: Set<(usize, usize)>,
    entry: usize,
    order: Seq<usize>,
    d: usize,
    n: usize,
)
    requires
        is_preorder(edges, entry, order),
        is_fixed(par, num, edges, entry, order),
        keeps_dominators(par, edges, entry),
        par.dom().contains(n),
    ensures
        anc(par, num, d, n) == dominated(edges, entry, d, n),
{
    if anc(par, num, d, n) {
        assert forall|p: Seq<usize>| #[trigger]
            is_path_from_to(edges, p, entry, n) implies p.contains(d) by {
            lemma_anc_is_dominator(par, num, edges, entry, order, d, n, p);
        }
    }
    if dominated(edges, entry, d, n) {
        lemma_dominator_is_anc(par, num, edges, entry, d, n);
    }
}

} // verus!
