//! Call graphs as a graph description lists them: nodes with labels, and
//! edges between the ids of nodes.

use crate::calls::demangle;
use crate::calls::demangled_name;
use crate::calls::first_occurrence;
use crate::calls::has_substring;
use crate::depends::PainterError;
use vstd::prelude::*;

verus! {

/// A statement of a graph description, as far as a call graph is read from
/// it.
#[derive(Debug, Clone, PartialEq, Eq)]
pub enum DotStatement {
    /// A node: its id, where that is a plain one, and the text of its
    /// `label` attribute, where it has one
    Node { id: Option<String>, label: Option<String> },
    /// An edge between two nodes that are named by plain ids
    Edge { from: String, to: String },
    /// Any other statement
    Other,
}

/// A graph description.
#[derive(Debug, Clone, PartialEq, Eq)]
pub enum DotGraph {
    /// A directed graph, with its statements
    Directed(Vec<DotStatement>),
    /// A graph that is not directed
    Undirected,
}

/// A graph whose node `i` carries the label at position `i`.
#[derive(Debug, Clone, PartialEq, Eq)]
pub struct LabelledGraph {
    pub labels: Vec<String>,
    pub edges: Vec<(usize, usize)>,
}

/// The text without the matches of the pattern, found from the left, no
/// match overlapping the one before it.
#[verifier::opaque]
pub open spec fn without(text: Seq<char>, pattern: Seq<char>) -> Seq<char>
    decreases text.len(),
{
    if pattern.len() == 0 || !has_substring(text, pattern) {
        text
    } else {
        let i = first_occurrence(text, pattern);
        if 0 <= i <= text.len() - pattern.len() {
            text.subrange(0, i) + without(
                text.subrange(i + pattern.len(), text.len() as int),
                pattern,
            )
        } else {
            text
        }
    }
}

/// `str::replace` with the empty text as the replacement: the text without
/// the matches of the pattern.
#[verifier::external_body]
fn remove_matches(text: &str, pattern: &str) -> (r: String)
    requires
        pattern@.len() > 0,
    ensures
        r@ == without(text@, pattern@),
{
    text.replace(pattern, "")
}

/// The name that a node's label stands for: the label without the braces
/// and quotes around it, read as a symbol.
pub open spec fn label_name(label: Seq<char>) -> Seq<char> {
    demangled_name(without(without(label, "\"{"@), "}\""@))
}

/// The name that a node's label stands for.
pub fn clean_label(label: &str) -> (name: String)
    ensures
        name@ == label_name(label@),
{
    proof {
        reveal_strlit("\"{");
        reveal_strlit("}\"");
    }
    let opened = remove_matches(label, "\"{");
    let closed = remove_matches(opened.as_str(), "}\"");
    demangle(closed.as_str())
}

/// The ids of the nodes that the first `k` statements make, in order: one
/// for each node statement with a plain id.
pub open spec fn node_ids(stmts: Seq<DotStatement>, k: int) -> Seq<Seq<char>>
    decreases k,
{
    if k <= 0 {
        Seq::empty()
    } else {
        match stmts[k - 1] {
            DotStatement::Node { id: Some(id), label } => node_ids(stmts, k - 1).push(id@),
            _ => node_ids(stmts, k - 1),
        }
    }
}

/// The names of the nodes that the first `k` statements make, in order.
pub open spec fn node_names(stmts: Seq<DotStatement>, k: int) -> Seq<Seq<char>>
    decreases k,
{
    if k <= 0 {
        Seq::empty()
    } else {
        match stmts[k - 1] {
            DotStatement::Node { id: Some(id), label: Some(label) } => node_names(
                stmts,
                k - 1,
            ).push(label_name(label@)),
            DotStatement::Node { id: Some(id), label: None } => node_names(stmts, k - 1).push(
                Seq::empty(),
            ),
            _ => node_names(stmts, k - 1),
        }
    }
}

/// Whether the statement is a node without a label.
pub open spec fn is_unlabelled(stmt: DotStatement) -> bool {
    match stmt {
        DotStatement::Node { id, label: None } => true,
        _ => false,
    }
}

/// Whether one of the first `k` statements is a node without a label.
pub open spec fn lacks_label(stmts: Seq<DotStatement>, k: int) -> bool {
    exists|j: int| 0 <= j < k && j < stmts.len() && is_unlabelled(#[trigger] stmts[j])
}

/// The position of the first of the ids that is the given id.
#[verifier::opaque]
pub open spec fn first_of(ids: Seq<Seq<char>>, id: Seq<char>) -> int {
    choose|i: int| 0 <= i < ids.len() && ids[i] == id && forall|j: int| 0 <= j < i ==> ids[j] != id
}

/// The edges that the first `k` statements list, in order, each between the
/// first nodes with the ids that it names.
pub open spec fn edge_list(stmts: Seq<DotStatement>, ids: Seq<Seq<char>>, k: int) -> Seq<
    (int, int),
>
    decreases k,
{
    if k <= 0 {
        Seq::empty()
    } else {
        match stmts[k - 1] {
            DotStatement::Edge { from, to } => edge_list(stmts, ids, k - 1).push(
                (first_of(ids, from@), first_of(ids, to@)),
            ),
            _ => edge_list(stmts, ids, k - 1),
        }
    }
}

/// Whether the statement is an edge that names an id which none of the ids
/// is.
pub open spec fn is_unknown_edge(stmt: DotStatement, ids: Seq<Seq<char>>) -> bool {
    match stmt {
        DotStatement::Edge { from, to } => !ids.contains(from@) || !ids.contains(to@),
        _ => false,
    }
}

/// Whether one of the first `k` statements is an edge that names an id
/// which none of the ids is.
pub open spec fn names_unknown(stmts: Seq<DotStatement>, ids: Seq<Seq<char>>, k: int) -> bool {
    exists|j: int| 0 <= j < k && j < stmts.len() && is_unknown_edge(#[trigger] stmts[j], ids)
}

/// The texts of a list of strings, in order.
pub open spec fn texts(strings: Seq<String>) -> Seq<Seq<char>> {
    Seq::new(strings.len(), |i: int| strings[i]@)
}

/// The first of the ids that is the given id, if one is.
fn find_id(ids: &Vec<String>, id: &String) -> (r: Option<usize>)
    ensures
        r.is_some() == texts(ids@).contains(id@),
        r matches Some(i) ==> i < ids@.len() && i == first_of(texts(ids@), id@),
{
    let ghost views = texts(ids@);
    let mut i: usize = 0;
    while i < ids.len()
        invariant
            i <= ids@.len(),
            views == texts(ids@),
            forall|j: int| 0 <= j < i ==> views[j] != id@,
        decreases ids@.len() - i,
    {
        if ids[i] == *id {
            proof {
                reveal(first_of);
                assert(views[i as int] == id@);
                let f = first_of(views, id@);
                assert(0 <= f < views.len() && views[f] == id@ && forall|j: int|
                    0 <= j < f ==> views[j] != id@);
                assert(f == i);
            }
            return Some(i);
        }
        i += 1;
    }
    proof {
        if views.contains(id@) {
            let j = choose|j: int| 0 <= j < views.len() && views[j] == id@;
            assert(false);
        }
    }
    None
}

/// The labels of a graph, as texts.
pub open spec fn label_views(g: LabelledGraph) -> Seq<Seq<char>> {
    texts(g.labels@)
}

/// The edges of a graph, as pairs of positions.
pub open spec fn edge_views(g: LabelledGraph) -> Seq<(int, int)> {
    Seq::new(g.edges@.len(), |i: int| (g.edges@[i].0 as int, g.edges@[i].1 as int))
}

/// Reads a call graph from the statements of a directed graph: a node for
/// each node statement with a plain id, under the name that its label
/// stands for, and an edge for each edge statement, between the first nodes
/// with the ids that it names.
///
/// Fails with `GraphConstructionError` exactly when a node has no label or
/// an edge names an id that no node has.
pub fn from_statements(stmts: &Vec<DotStatement>) -> (r: Result<LabelledGraph, PainterError>)
    ensures
        r.is_err() == (lacks_label(stmts@, stmts@.len() as int) || names_unknown(
            stmts@,
            node_ids(stmts@, stmts@.len() as int),
            stmts@.len() as int,
        )),
        r matches Err(e) ==> e == PainterError::GraphConstructionError,
        r matches Ok(g) ==> label_views(g) == node_names(stmts@, stmts@.len() as int)
            && edge_views(g) == edge_list(
            stmts@,
            node_ids(stmts@, stmts@.len() as int),
            stmts@.len() as int,
        ),
{
    let n = stmts.len();
    let mut labels: Vec<String> = Vec::new();
    let mut ids: Vec<String> = Vec::new();
    let ghost mut names: Seq<Seq<char>> = Seq::empty();
    let ghost mut id_views: Seq<Seq<char>> = Seq::empty();
    let mut k: usize = 0;
    while k < n
        invariant
            n == stmts@.len(),
            k <= n,
            !lacks_label(stmts@, k as int),
            names == node_names(stmts@, k as int),
            id_views == node_ids(stmts@, k as int),
            names.len() == labels@.len(),
            id_views.len() == ids@.len(),
            forall|i: int| 0 <= i < names.len() ==> (#[trigger] labels@[i])@ == names[i],
            forall|i: int| 0 <= i < id_views.len() ==> (#[trigger] ids@[i])@ == id_views[i],
        decreases n - k,
    {
        match &stmts[k] {
            DotStatement::Node { id, label } => {
                let name = match label {
                    Some(label) => clean_label(label.as_str()),
                    None => {
                        proof {
                            assert(is_unlabelled(stmts@[k as int]));
                        }
                        return Err(PainterError::GraphConstructionError);
                    },
                };
                match id {
                    Some(id) => {
                        proof {
                            names = names.push(name@);
                            id_views = id_views.push(id@);
                        }
                        labels.push(name);
                        ids.push(id.clone());
                    },
                    None => {},
                }
            },
            _ => {},
        }
        proof {
            let next = k + 1;
            if lacks_label(stmts@, next) {
                let j = choose|j: int|
                    0 <= j < next && j < stmts@.len() && is_unlabelled(#[trigger] stmts@[j]);
                if j < k {
                    assert(lacks_label(stmts@, k as int));
                }
            }
        }
        k += 1;
    }
    proof {
        assert(texts(labels@) =~= names);
        assert(texts(ids@) =~= id_views);
    }
    let mut edges: Vec<(usize, usize)> = Vec::new();
    let ghost mut pairs: Seq<(int, int)> = Seq::empty();
    let mut k: usize = 0;
    while k < n
        invariant
            n == stmts@.len(),
            k <= n,
            !lacks_label(stmts@, n as int),
            texts(labels@) == node_names(stmts@, n as int),
            id_views == node_ids(stmts@, n as int),
            texts(ids@) == id_views,
            !names_unknown(stmts@, id_views, k as int),
            pairs == edge_list(stmts@, id_views, k as int),
            pairs.len() == edges@.len(),
            forall|i: int|
                0 <= i < pairs.len() ==> ((#[trigger] edges@[i]).0 as int, edges@[i].1 as int)
                    == pairs[i],
        decreases n - k,
    {
        match &stmts[k] {
            DotStatement::Edge { from, to } => {
                let a = find_id(&ids, from);
                let b = find_id(&ids, to);
                match (a, b) {
                    (Some(a), Some(b)) => {
                        proof {
                            pairs = pairs.push((a as int, b as int));
                        }
                        edges.push((a, b));
                    },
                    _ => {
                        proof {
                            assert(is_unknown_edge(stmts@[k as int], id_views));
                        }
                        return Err(PainterError::GraphConstructionError);
                    },
                }
            },
            _ => {},
        }
        proof {
            let next = k + 1;
            if names_unknown(stmts@, id_views, next) {
                let j = choose|j: int|
                    0 <= j < next && j < stmts@.len() && is_unknown_edge(
                        #[trigger] stmts@[j],
                        id_views,
                    );
                if j < k {
                    assert(names_unknown(stmts@, id_views, k as int));
                }
            }
        }
        k += 1;
    }
    let g = LabelledGraph { labels, edges };
    proof {
        assert(edge_views(g) =~= pairs);
    }
    Ok(g)
}

/// Reads a call graph from a graph description.
///
/// Fails with `UnsupportedDotFile` exactly when the graph is not directed,
/// and else as reading its statements fails.
pub fn from_dot_graph(graph: &DotGraph) -> (r: Result<LabelledGraph, PainterError>)
    ensures
        match graph {
            DotGraph::Undirected => r == Err::<LabelledGraph, PainterError>(
                PainterError::UnsupportedDotFile,
            ),
            DotGraph::Directed(stmts) => {
                &&& r.is_err() == (lacks_label(stmts@, stmts@.len() as int) || names_unknown(
                    stmts@,
                    node_ids(stmts@, stmts@.len() as int),
                    stmts@.len() as int,
                ))
                &&& r matches Err(e) ==> e == PainterError::GraphConstructionError
                &&& r matches Ok(g) ==> label_views(g) == node_names(stmts@, stmts@.len() as int)
                    && edge_views(g) == edge_list(
                    stmts@,
                    node_ids(stmts@, stmts@.len() as int),
                    stmts@.len() as int,
                )
            },
        },
{
    match graph {
        DotGraph::Directed(stmts) => from_statements(stmts),
        DotGraph::Undirected => Err(PainterError::UnsupportedDotFile),
    }
}

} // verus!
