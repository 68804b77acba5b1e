//! The call graph of the analyzed modules.

use crate::error::AnalysisError;
use crate::functions_by_type::FunctionsByType;
use crate::graph::add_edge;
use crate::graph::add_node;
use crate::graph::all_edges;
use crate::graph::edges_of;
use crate::graph::new_graph;
use crate::graph::nodes_of;
use crate::graph::predecessors;
use crate::graph::successors;
use crate::graph::DiGraph;
use crate::ir::defines_function;
use crate::ir::defines_function_of_type;
use crate::ir::string_views;
use crate::ir::BasicBlock;
use crate::ir::Call;
use crate::ir::Callee;
use crate::ir::Function;
use crate::ir::Module;
use crate::ir::Terminator;
use vstd::prelude::*;

verus! {

broadcast use vstd::seq_lib::lemma_seq_contains_after_push;

/// The call graph for the analyzed `Module`(s): which functions may call
/// which other functions.
pub struct CallGraph {
    /// The names of the functions; the function at position `i` is node `i`
    pub(crate) names: Vec<String>,
    /// The call graph itself: an edge from F to G indicates F may call G
    pub(crate) graph: DiGraph,
}

/// Whether the call may end up in the function with the given name: a direct
/// reference to a function names its callee; a call through any other value
/// may end up in any function that the modules define with the callee's
/// type; a call of inline assembly ends up in no function.
pub open spec fn resolves(modules: Seq<&Module>, call: Call, callee: Seq<char>) -> bool {
    match call.callee {
        Callee::Function(name) => name@ == callee,
        Callee::Constant => defines_function_of_type(modules, call.callee_ty@, callee),
        Callee::Value => defines_function_of_type(modules, call.callee_ty@, callee),
        Callee::InlineAssembly => false,
    }
}

/// Whether one of the first `k` calls may end up in the function with the
/// given name.
pub open spec fn calls_resolve_before(
    modules: Seq<&Module>,
    calls: Seq<Call>,
    k: int,
    callee: Seq<char>,
) -> bool {
    exists|c: int| 0 <= c < k && c < calls.len() && resolves(modules, #[trigger] calls[c], callee)
}

/// Whether the block's terminator is an invoke that may end up in the
/// function with the given name.
pub open spec fn invoke_resolves(modules: Seq<&Module>, term: Terminator, callee: Seq<char>) -> bool {
    match term {
        Terminator::Invoke { call, return_label, exception_label } => resolves(
            modules,
            call,
            callee,
        ),
        _ => false,
    }
}

/// Whether a call instruction of the block, or its invoke terminator, may
/// end up in the function with the given name.
pub open spec fn block_may_call(modules: Seq<&Module>, bb: BasicBlock, callee: Seq<char>) -> bool {
    calls_resolve_before(modules, bb.calls@, bb.calls@.len() as int, callee) || invoke_resolves(
        modules,
        bb.term,
        callee,
    )
}

/// Whether one of the first `k` blocks may call the function with the given
/// name.
pub open spec fn blocks_call_before(
    modules: Seq<&Module>,
    blocks: Seq<BasicBlock>,
    k: int,
    callee: Seq<char>,
) -> bool {
    exists|b: int| 0 <= b < k && b < blocks.len() && block_may_call(modules, #[trigger] blocks[b], callee)
}

/// Whether the function may call the function with the given name.
pub open spec fn function_may_call(modules: Seq<&Module>, f: Function, callee: Seq<char>) -> bool {
    blocks_call_before(modules, f.basic_blocks@, f.basic_blocks@.len() as int, callee)
}

/// Whether one of the first `k` functions has the name `caller` and may call
/// the function with the name `callee`.
pub open spec fn functions_call_before(
    modules: Seq<&Module>,
    functions: Seq<Function>,
    k: int,
    caller: Seq<char>,
    callee: Seq<char>,
) -> bool {
    exists|f: int|
        0 <= f < k && f < functions.len() && (#[trigger] functions[f]).name@ == caller
            && function_may_call(modules, functions[f], callee)
}

/// Whether one of the first `k` modules defines a function with the name
/// `caller` that may call the function with the name `callee`.
pub open spec fn modules_call_before(
    modules: Seq<&Module>,
    k: int,
    caller: Seq<char>,
    callee: Seq<char>,
) -> bool {
    exists|m: int|
        0 <= m < k && m < modules.len() && functions_call_before(
            modules,
            (#[trigger] modules[m]).functions@,
            modules[m].functions@.len() as int,
            caller,
            callee,
        )
}

/// Whether a function with the name `caller`, defined in one of the modules,
/// may call the function with the name `callee`.
pub open spec fn may_call(modules: Seq<&Module>, caller: Seq<char>, callee: Seq<char>) -> bool {
    modules_call_before(modules, modules.len() as int, caller, callee)
}

/// Whether some function that the modules define may call the function with
/// the given name.
pub open spec fn is_called(modules: Seq<&Module>, callee: Seq<char>) -> bool {
    called_by_modules_before(modules, modules.len() as int, callee)
}

/// Whether one of the first `k` functions has the given name.
pub open spec fn functions_named_before(functions: Seq<Function>, k: int, name: Seq<char>) -> bool {
    exists|f: int| 0 <= f < k && f < functions.len() && (#[trigger] functions[f]).name@ == name
}

/// Whether one of the first `k` modules defines a function of the given
/// name.
pub open spec fn modules_define_before(modules: Seq<&Module>, k: int, name: Seq<char>) -> bool {
    exists|m: int|
        0 <= m < k && m < modules.len() && functions_named_before(
            (#[trigger] modules[m]).functions@,
            modules[m].functions@.len() as int,
            name,
        )
}

/// A call that may end up in a function within one module may end up in it
/// within all modules.
pub proof fn lemma_resolves_more(modules: Seq<&Module>, i: int, call: Call, callee: Seq<char>)
    requires
        0 <= i < modules.len(),
        resolves(seq![modules[i]], call, callee),
    ensures
        resolves(modules, call, callee),
{
    let one = seq![modules[i]];
    if call.callee is Constant || call.callee is Value {
        let (m, f) = choose|m: int, f: int|
            0 <= m < one.len() && 0 <= f < one[m].functions@.len() && (
            #[trigger] one[m].functions@[f]).ty@ == call.callee_ty@ && one[m].functions@[f].name@
                == callee;
        assert(modules[i].functions@[f].ty@ == call.callee_ty@);
    }
}

/// What a function may call within its module alone, it may call within all
/// modules: the call graph of the modules together holds every edge of the
/// call graph of each module.
pub proof fn lemma_combined_holds_single(
    modules: Seq<&Module>,
    i: int,
    caller: Seq<char>,
    callee: Seq<char>,
)
    requires
        0 <= i < modules.len(),
        may_call(seq![modules[i]], caller, callee),
    ensures
        may_call(modules, caller, callee),
{
    let one = seq![modules[i]];
    let m = choose|m: int|
        0 <= m < 1 && m < one.len() && functions_call_before(
            one,
            (#[trigger] one[m]).functions@,
            one[m].functions@.len() as int,
            caller,
            callee,
        );
    let functions = modules[i].functions@;
    let f = choose|f: int|
        0 <= f < functions.len() && (#[trigger] functions[f]).name@ == caller
            && function_may_call(one, functions[f], callee);
    let blocks = functions[f].basic_blocks@;
    let b = choose|b: int|
        0 <= b < blocks.len() && block_may_call(one, #[trigger] blocks[b], callee);
    let bb = blocks[b];
    if calls_resolve_before(one, bb.calls@, bb.calls@.len() as int, callee) {
        let c = choose|c: int|
            0 <= c < bb.calls@.len() && resolves(one, #[trigger] bb.calls@[c], callee);
        lemma_resolves_more(modules, i, bb.calls@[c], callee);
        assert(calls_resolve_before(modules, bb.calls@, bb.calls@.len() as int, callee));
    } else {
        match bb.term {
            Terminator::Invoke { call, return_label, exception_label } => {
                lemma_resolves_more(modules, i, call, callee);
            },
            _ => {},
        }
        assert(invoke_resolves(modules, bb.term, callee));
    }
    assert(block_may_call(modules, blocks[b], callee));
    assert(function_may_call(modules, functions[f], callee));
    assert(functions_call_before(
        modules,
        modules[i].functions@,
        modules[i].functions@.len() as int,
        caller,
        callee,
    ));
    assert(modules_call_before(modules, modules.len() as int, caller, callee));
}

/// Whether the name has a node.
pub open spec fn known(names: Seq<String>, name: Seq<char>) -> bool {
    exists|i: int| 0 <= i < names.len() && (#[trigger] names[i])@ == name
}

/// Whether an edge leads from the node of the name `a` to that of `b`.
pub open spec fn linked(
    names: Seq<String>,
    edges: Set<(usize, usize)>,
    a: Seq<char>,
    b: Seq<char>,
) -> bool {
    exists|i: usize, j: usize|
        i < names.len() && j < names.len() && #[trigger] edges.contains((i, j)) && names[i as int]@
            == a && names[j as int]@ == b
}

/// No name occurs twice, every name has a node, and the edges lie between
/// the nodes of names.
pub open spec fn table_ok(names: Seq<String>, g: DiGraph) -> bool {
    &&& forall|i: int, j: int| 0 <= i < j < names.len() ==> names[i]@ != names[j]@
    &&& forall|a: usize, b: usize| #[trigger]
        edges_of(g).contains((a, b)) ==> a < names.len() && b < names.len()
    &&& forall|a: usize| nodes_of(g).contains(a) <==> a < names.len()
}

/// Whether the second list of names begins with the first.
pub open spec fn extends(before: Seq<String>, after: Seq<String>) -> bool {
    &&& before.len() <= after.len()
    &&& forall|i: int| 0 <= i < before.len() ==> after[i] == before[i]
}

/// The node of the name, if it has one.
fn find_name(names: &Vec<String>, name: &String) -> (r: Option<usize>)
    ensures
        match r {
            Some(i) => i < names@.len() && names@[i as int]@ == name@,
            None => !known(names@, name@),
        },
{
    let mut i: usize = 0;
    while i < names.len()
        invariant
            i <= names@.len(),
            forall|k: int| 0 <= k < i ==> (#[trigger] names@[k])@ != name@,
        decreases names@.len() - i,
    {
        if names[i] == *name {
            return Some(i);
        }
        i += 1;
    }
    None
}

/// The node of the name, which is made if the name has none.
fn intern_name(names: &mut Vec<String>, graph: &mut DiGraph, name: &String) -> (id: usize)
    requires
        table_ok(old(names)@, *old(graph)),
    ensures
        table_ok(final(names)@, *final(graph)),
        extends(old(names)@, final(names)@),
        edges_of(*final(graph)) == edges_of(*old(graph)),
        id < final(names)@.len(),
        final(names)@[id as int]@ == name@,
        forall|n: Seq<char>| #[trigger] known(final(names)@, n) <==> known(old(names)@, n) || n == name@,
{
    match find_name(names, name) {
        Some(id) => id,
        None => {
            let id = names.len();
            names.push(name.clone());
            add_node(graph, id);
            proof {
                assert forall|n: Seq<char>| #[trigger] known(names@, n) <==> known(old(names)@, n) || n
                    == name@ by {
                    if known(old(names)@, n) {
                        let i = choose|i: int|
                            0 <= i < old(names)@.len() && (#[trigger] old(names)@[i])@ == n;
                        assert(names@[i]@ == n);
                    }
                    if known(names@, n) {
                        let i = choose|i: int|
                            0 <= i < names@.len() && (#[trigger] names@[i])@ == n;
                        if i < old(names)@.len() {
                            assert(old(names)@[i]@ == n);
                        }
                    }
                    if n == name@ {
                        assert(names@[id as int]@ == n);
                    }
                }
                assert forall|i: int, j: int| 0 <= i < j < names@.len() implies names@[i]@
                    != names@[j]@ by {
                    if j == id {
                        assert(old(names)@[i]@ != name@);
                    }
                }
            }
            id
        },
    }
}

/// Adding names keeps the edges between the names that were there.
proof fn lemma_linked_extends(
    before: Seq<String>,
    after: Seq<String>,
    edges: Set<(usize, usize)>,
    a: Seq<char>,
    b: Seq<char>,
)
    requires
        extends(before, after),
        forall|x: usize, y: usize| #[trigger]
            edges.contains((x, y)) ==> x < before.len() && y < before.len(),
    ensures
        linked(after, edges, a, b) == linked(before, edges, a, b),
{
    if linked(after, edges, a, b) {
        let (i, j) = choose|i: usize, j: usize|
            i < after.len() && j < after.len() && #[trigger] edges.contains((i, j))
                && after[i as int]@ == a && after[j as int]@ == b;
        assert(i < before.len() && j < before.len() && edges.contains((i, j))
            && before[i as int]@ == a && before[j as int]@ == b);
    }
    if linked(before, edges, a, b) {
        let (i, j) = choose|i: usize, j: usize|
            i < before.len() && j < before.len() && #[trigger] edges.contains((i, j))
                && before[i as int]@ == a && before[j as int]@ == b;
        assert(i < after.len() && j < after.len() && edges.contains((i, j)) && after[i as int]@
            == a && after[j as int]@ == b);
    }
}

/// A new edge links the names of its ends, and nothing else changes.
proof fn lemma_linked_insert(
    names: Seq<String>,
    edges: Set<(usize, usize)>,
    from: usize,
    to: usize,
    a: Seq<char>,
    b: Seq<char>,
)
    requires
        forall|i: int, j: int| 0 <= i < j < names.len() ==> names[i]@ != names[j]@,
        from < names.len(),
        to < names.len(),
    ensures
        linked(names, edges.insert((from, to)), a, b) == (linked(names, edges, a, b) || (a
            == names[from as int]@ && b == names[to as int]@)),
{
    let edges2 = edges.insert((from, to));
    if linked(names, edges2, a, b) {
        let (i, j) = choose|i: usize, j: usize|
            i < names.len() && j < names.len() && #[trigger] edges2.contains((i, j))
                && names[i as int]@ == a && names[j as int]@ == b;
        if (i, j) != (from, to) {
            assert(edges.contains((i, j)));
        }
    }
    if linked(names, edges, a, b) {
        let (i, j) = choose|i: usize, j: usize|
            i < names.len() && j < names.len() && #[trigger] edges.contains((i, j))
                && names[i as int]@ == a && names[j as int]@ == b;
        assert(edges2.contains((i, j)));
    }
    if a == names[from as int]@ && b == names[to as int]@ {
        assert(edges2.contains((from, to)));
    }
}

/// The names of the functions that the call may end up in, each once.
fn call_targets(call: &Call, functions_by_type: &FunctionsByType, Ghost(modules): Ghost<
    Seq<&Module>,
>) -> (targets: Vec<String>)
    requires
        functions_by_type.is_for(modules),
    ensures
        forall|n: Seq<char>|
            string_views(targets@).contains(n) <==> resolves(modules, *call, n),
{
    match &call.callee {
        Callee::Function(name) => {
            let mut targets: Vec<String> = Vec::new();
            targets.push(name.clone());
            proof {
                assert(string_views(targets@)[0] == name@);
            }
            targets
        },
        Callee::Constant => {
            // a constant function pointer. Assume that this function pointer
            // could point to any function in the analyzed modules that has
            // the appropriate type
            functions_by_type.functions_with_type(&call.callee_ty)
        },
        Callee::Value => {
            // Assume that this function pointer could point to any function
            // in the analyzed modules that has the appropriate type
            functions_by_type.functions_with_type(&call.callee_ty)
        },
        Callee::InlineAssembly => {
            // ignore calls to inline assembly
            Vec::new()
        },
    }
}

/// Adds an edge from the caller to each function that the call may end up
/// in.
fn add_edge_for_call(
    names: &mut Vec<String>,
    graph: &mut DiGraph,
    caller: usize,
    call: &Call,
    functions_by_type: &FunctionsByType,
    Ghost(modules): Ghost<Seq<&Module>>,
)
    requires
        table_ok(old(names)@, *old(graph)),
        caller < old(names)@.len(),
        functions_by_type.is_for(modules),
    ensures
        table_ok(final(names)@, *final(graph)),
        extends(old(names)@, final(names)@),
        forall|a: Seq<char>, b: Seq<char>|
            #[trigger] linked(final(names)@, edges_of(*final(graph)), a, b) <==> linked(
                old(names)@,
                edges_of(*old(graph)),
                a,
                b,
            ) || (a == old(names)@[caller as int]@ && resolves(modules, *call, b)),
        forall|n: Seq<char>|
            #[trigger] known(final(names)@, n) <==> known(old(names)@, n) || resolves(modules, *call, n),
{
    let targets = call_targets(call, functions_by_type, Ghost(modules));
    let ghost caller_name = names@[caller as int]@;
    let ghost views = string_views(targets@);
    let mut i: usize = 0;
    assert(views.take(0) =~= Seq::<Seq<char>>::empty());
    while i < targets.len()
        invariant
            i <= targets@.len(),
            views == string_views(targets@),
            table_ok(names@, *graph),
            extends(old(names)@, names@),
            caller < old(names)@.len(),
            caller_name == old(names)@[caller as int]@,
            forall|a: Seq<char>, b: Seq<char>|
                #[trigger] linked(names@, edges_of(*graph), a, b) <==> linked(
                    old(names)@,
                    edges_of(*old(graph)),
                    a,
                    b,
                ) || (a == caller_name && views.take(i as int).contains(b)),
            forall|n: Seq<char>|
                #[trigger] known(names@, n) <==> known(old(names)@, n) || views.take(i as int).contains(n),
        decreases targets@.len() - i,
    {
        let ghost names0 = names@;
        let ghost edges0 = edges_of(*graph);
        let target = intern_name(names, graph, &targets[i]);
        let ghost names1 = names@;
        add_edge(graph, caller, target);
        proof {
            assert(views.take(i + 1) =~= views.take(i as int).push(views[i as int]));
            assert(views[i as int] == targets@[i as int]@);
            assert forall|a: usize| nodes_of(*graph).contains(a) <==> a < names@.len() by {}
            assert forall|a: Seq<char>, b: Seq<char>|
                #[trigger] linked(names@, edges_of(*graph), a, b) <==> linked(
                    old(names)@,
                    edges_of(*old(graph)),
                    a,
                    b,
                ) || (a == caller_name && views.take(i + 1).contains(b)) by {
                lemma_linked_extends(names0, names1, edges0, a, b);
                lemma_linked_insert(names1, edges0, caller, target, a, b);
                assert(names1[caller as int] == names0[caller as int]);
                assert(names0[caller as int] == old(names)@[caller as int]);
                assert(names1[target as int]@ == views[i as int]);
            }
        }
        i += 1;
    }
    proof {
        assert(views.take(views.len() as int) =~= views);
    }
}

/// Adds an edge from the caller to each function that a call instruction of
/// the block, or its invoke terminator, may end up in.
fn add_edges_for_block(
    names: &mut Vec<String>,
    graph: &mut DiGraph,
    caller: usize,
    bb: &BasicBlock,
    functions_by_type: &FunctionsByType,
    Ghost(modules): Ghost<Seq<&Module>>,
)
    requires
        table_ok(old(names)@, *old(graph)),
        caller < old(names)@.len(),
        functions_by_type.is_for(modules),
    ensures
        table_ok(final(names)@, *final(graph)),
        extends(old(names)@, final(names)@),
        forall|a: Seq<char>, b: Seq<char>|
            #[trigger] linked(final(names)@, edges_of(*final(graph)), a, b) <==> linked(
                old(names)@,
                edges_of(*old(graph)),
                a,
                b,
            ) || (a == old(names)@[caller as int]@ && block_may_call(modules, *bb, b)),
        forall|n: Seq<char>|
            #[trigger] known(final(names)@, n) <==> known(old(names)@, n) || block_may_call(modules, *bb, n),
{
    let ghost caller_name = names@[caller as int]@;
    let mut c: usize = 0;
    while c < bb.calls.len()
        invariant
            c <= bb.calls@.len(),
            functions_by_type.is_for(modules),
            table_ok(names@, *graph),
            extends(old(names)@, names@),
            caller < old(names)@.len(),
            caller_name == old(names)@[caller as int]@,
            forall|a: Seq<char>, b: Seq<char>|
                #[trigger] linked(names@, edges_of(*graph), a, b) <==> linked(
                    old(names)@,
                    edges_of(*old(graph)),
                    a,
                    b,
                ) || (a == caller_name && calls_resolve_before(modules, bb.calls@, c as int, b)),
            forall|n: Seq<char>|
                #[trigger] known(names@, n) <==> known(old(names)@, n) || calls_resolve_before(
                    modules,
                    bb.calls@,
                    c as int,
                    n,
                ),
        decreases bb.calls@.len() - c,
    {
        let ghost names0 = names@;
        add_edge_for_call(names, graph, caller, &bb.calls[c], functions_by_type, Ghost(modules));
        proof {
            assert(names0[caller as int] == old(names)@[caller as int]);
            let next = c + 1;
            assert forall|n: Seq<char>| #[trigger]
                calls_resolve_before(modules, bb.calls@, next, n) <==> calls_resolve_before(
                    modules,
                    bb.calls@,
                    c as int,
                    n,
                ) || resolves(modules, bb.calls@[c as int], n) by {
                if calls_resolve_before(modules, bb.calls@, next, n) {
                    let k = choose|k: int|
                        0 <= k < c + 1 && k < bb.calls@.len() && resolves(
                            modules,
                            #[trigger] bb.calls@[k],
                            n,
                        );
                    if k < c {
                        assert(calls_resolve_before(modules, bb.calls@, c as int, n));
                    }
                }
                if calls_resolve_before(modules, bb.calls@, c as int, n) {
                    let k = choose|k: int|
                        0 <= k < c && k < bb.calls@.len() && resolves(
                            modules,
                            #[trigger] bb.calls@[k],
                            n,
                        );
                    assert(0 <= k < c + 1 && resolves(modules, bb.calls@[k], n));
                }
            }
        }
        c += 1;
    }
    match &bb.term {
        Terminator::Invoke { call, return_label, exception_label } => {
            let ghost names0 = names@;
            add_edge_for_call(names, graph, caller, call, functions_by_type, Ghost(modules));
            proof {
                assert(names0[caller as int] == old(names)@[caller as int]);
            }
        },
        _ => {},
    }
}

/// The first `k + 1` blocks may call what the first `k` may call and what
/// block `k` may call.
proof fn lemma_blocks_call_step(
    modules: Seq<&Module>,
    blocks: Seq<BasicBlock>,
    k: int,
    callee: Seq<char>,
)
    requires
        0 <= k < blocks.len(),
    ensures
        blocks_call_before(modules, blocks, k + 1, callee) == (blocks_call_before(
            modules,
            blocks,
            k,
            callee,
        ) || block_may_call(modules, blocks[k], callee)),
{
    if blocks_call_before(modules, blocks, k + 1, callee) {
        let b = choose|b: int|
            0 <= b < k + 1 && b < blocks.len() && block_may_call(
                modules,
                #[trigger] blocks[b],
                callee,
            );
        if b < k {
            assert(blocks_call_before(modules, blocks, k, callee));
        }
    }
    if blocks_call_before(modules, blocks, k, callee) {
        let b = choose|b: int|
            0 <= b < k && b < blocks.len() && block_may_call(modules, #[trigger] blocks[b], callee);
        assert(0 <= b < k + 1 && block_may_call(modules, blocks[b], callee));
    }
    if block_may_call(modules, blocks[k], callee) {
        assert(0 <= k < k + 1 && block_may_call(modules, blocks[k], callee));
    }
}

/// Gives the function a node, and adds an edge from it to each function that
/// it may call.
fn add_edges_for_function(
    names: &mut Vec<String>,
    graph: &mut DiGraph,
    f: &Function,
    functions_by_type: &FunctionsByType,
    Ghost(modules): Ghost<Seq<&Module>>,
)
    requires
        table_ok(old(names)@, *old(graph)),
        functions_by_type.is_for(modules),
    ensures
        table_ok(final(names)@, *final(graph)),
        extends(old(names)@, final(names)@),
        forall|a: Seq<char>, b: Seq<char>|
            #[trigger] linked(final(names)@, edges_of(*final(graph)), a, b) <==> linked(
                old(names)@,
                edges_of(*old(graph)),
                a,
                b,
            ) || (a == f.name@ && function_may_call(modules, *f, b)),
        forall|n: Seq<char>|
            #[trigger] known(final(names)@, n) <==> known(old(names)@, n) || n == f.name@
                || function_may_call(modules, *f, n),
{
    // just to ensure all functions end up getting nodes in the graph by the
    // end
    let caller = intern_name(names, graph, &f.name);
    let ghost names1 = names@;
    proof {
        assert forall|a: Seq<char>, b: Seq<char>|
            #[trigger] linked(names@, edges_of(*graph), a, b) <==> linked(
                old(names)@,
                edges_of(*old(graph)),
                a,
                b,
            ) by {
            lemma_linked_extends(old(names)@, names@, edges_of(*graph), a, b);
        }
    }
    let mut i: usize = 0;
    while i < f.basic_blocks.len()
        invariant
            i <= f.basic_blocks@.len(),
            functions_by_type.is_for(modules),
            table_ok(names@, *graph),
            extends(old(names)@, names1),
            extends(names1, names@),
            caller < names1.len(),
            names1[caller as int]@ == f.name@,
            forall|a: Seq<char>, b: Seq<char>|
                #[trigger] linked(names@, edges_of(*graph), a, b) <==> linked(
                    old(names)@,
                    edges_of(*old(graph)),
                    a,
                    b,
                ) || (a == f.name@ && blocks_call_before(modules, f.basic_blocks@, i as int, b)),
            forall|n: Seq<char>|
                #[trigger] known(names@, n) <==> known(old(names)@, n) || n == f.name@
                    || blocks_call_before(modules, f.basic_blocks@, i as int, n),
        decreases f.basic_blocks@.len() - i,
    {
        let ghost names0 = names@;
        add_edges_for_block(
            names,
            graph,
            caller,
            &f.basic_blocks[i],
            functions_by_type,
            Ghost(modules),
        );
        proof {
            assert(names0[caller as int] == names1[caller as int]);
            let next = i + 1;
            assert forall|n: Seq<char>| #[trigger]
                blocks_call_before(modules, f.basic_blocks@, next, n) == (blocks_call_before(
                    modules,
                    f.basic_blocks@,
                    i as int,
                    n,
                ) || block_may_call(modules, f.basic_blocks@[i as int], n)) by {
                lemma_blocks_call_step(modules, f.basic_blocks@, i as int, n);
            }
        }
        i += 1;
    }
}

/// The first `k + 1` functions call what the first `k` call and what
/// function `k` calls.
proof fn lemma_functions_call_step(
    modules: Seq<&Module>,
    functions: Seq<Function>,
    k: int,
    caller: Seq<char>,
    callee: Seq<char>,
)
    requires
        0 <= k < functions.len(),
    ensures
        functions_call_before(modules, functions, k + 1, caller, callee) == (
        functions_call_before(modules, functions, k, caller, callee) || (functions[k].name@
            == caller && function_may_call(modules, functions[k], callee))),
        functions_named_before(functions, k + 1, caller) == (functions_named_before(
            functions,
            k,
            caller,
        ) || functions[k].name@ == caller),
{
    if functions_call_before(modules, functions, k + 1, caller, callee) {
        let f = choose|f: int|
            0 <= f < k + 1 && f < functions.len() && (#[trigger] functions[f]).name@ == caller
                && function_may_call(modules, functions[f], callee);
        if f < k {
            assert(functions_call_before(modules, functions, k, caller, callee));
        }
    }
    if functions_call_before(modules, functions, k, caller, callee) {
        let f = choose|f: int|
            0 <= f < k && f < functions.len() && (#[trigger] functions[f]).name@ == caller
                && function_may_call(modules, functions[f], callee);
        assert(0 <= f < k + 1 && functions[f].name@ == caller);
    }
    if functions[k].name@ == caller {
        assert(0 <= k < k + 1 && functions[k].name@ == caller);
    }
    if functions_named_before(functions, k + 1, caller) {
        let f = choose|f: int|
            0 <= f < k + 1 && f < functions.len() && (#[trigger] functions[f]).name@ == caller;
        if f < k {
            assert(functions_named_before(functions, k, caller));
        }
    }
    if functions_named_before(functions, k, caller) {
        let f = choose|f: int|
            0 <= f < k && f < functions.len() && (#[trigger] functions[f]).name@ == caller;
        assert(0 <= f < k + 1 && functions[f].name@ == caller);
    }
}

/// The first `k + 1` modules call what the first `k` call and what module
/// `k` calls.
proof fn lemma_modules_call_step(
    modules: Seq<&Module>,
    k: int,
    caller: Seq<char>,
    callee: Seq<char>,
)
    requires
        0 <= k < modules.len(),
    ensures
        modules_call_before(modules, k + 1, caller, callee) == (modules_call_before(
            modules,
            k,
            caller,
            callee,
        ) || functions_call_before(
            modules,
            modules[k].functions@,
            modules[k].functions@.len() as int,
            caller,
            callee,
        )),
        modules_define_before(modules, k + 1, caller) == (modules_define_before(
            modules,
            k,
            caller,
        ) || functions_named_before(
            modules[k].functions@,
            modules[k].functions@.len() as int,
            caller,
        )),
{
    if modules_call_before(modules, k + 1, caller, callee) {
        let m = choose|m: int|
            0 <= m < k + 1 && m < modules.len() && functions_call_before(
                modules,
                (#[trigger] modules[m]).functions@,
                modules[m].functions@.len() as int,
                caller,
                callee,
            );
        if m < k {
            assert(modules_call_before(modules, k, caller, callee));
        }
    }
    if modules_call_before(modules, k, caller, callee) {
        let m = choose|m: int|
            0 <= m < k && m < modules.len() && functions_call_before(
                modules,
                (#[trigger] modules[m]).functions@,
                modules[m].functions@.len() as int,
                caller,
                callee,
            );
        assert(0 <= m < k + 1 && functions_call_before(
            modules,
            modules[m].functions@,
            modules[m].functions@.len() as int,
            caller,
            callee,
        ));
    }
    if functions_call_before(
        modules,
        modules[k].functions@,
        modules[k].functions@.len() as int,
        caller,
        callee,
    ) {
        assert(0 <= k < k + 1 && functions_call_before(
            modules,
            modules[k].functions@,
            modules[k].functions@.len() as int,
            caller,
            callee,
        ));
    }
    if modules_define_before(modules, k + 1, caller) {
        let m = choose|m: int|
            0 <= m < k + 1 && m < modules.len() && functions_named_before(
                (#[trigger] modules[m]).functions@,
                modules[m].functions@.len() as int,
                caller,
            );
        if m < k {
            assert(modules_define_before(modules, k, caller));
        }
    }
    if modules_define_before(modules, k, caller) {
        let m = choose|m: int|
            0 <= m < k && m < modules.len() && functions_named_before(
                (#[trigger] modules[m]).functions@,
                modules[m].functions@.len() as int,
                caller,
            );
        assert(0 <= m < k + 1 && functions_named_before(
            modules[m].functions@,
            modules[m].functions@.len() as int,
            caller,
        ));
    }
    if functions_named_before(
        modules[k].functions@,
        modules[k].functions@.len() as int,
        caller,
    ) {
        assert(0 <= k < k + 1 && functions_named_before(
            modules[k].functions@,
            modules[k].functions@.len() as int,
            caller,
        ));
    }
}

/// Whether some function that the first `k` functions hold may call the
/// function with the given name.
pub open spec fn called_by_functions_before(
    modules: Seq<&Module>,
    functions: Seq<Function>,
    k: int,
    callee: Seq<char>,
) -> bool {
    exists|caller: Seq<char>| functions_call_before(modules, functions, k, caller, callee)
}

/// Whether some function that the first `k` modules define may call the
/// function with the given name.
pub open spec fn called_by_modules_before(modules: Seq<&Module>, k: int, callee: Seq<char>) -> bool {
    exists|caller: Seq<char>| modules_call_before(modules, k, caller, callee)
}

/// Gives each function of the module a node, and adds an edge from each to
/// each function that it may call.
fn add_edges_for_module(
    names: &mut Vec<String>,
    graph: &mut DiGraph,
    module: &Module,
    functions_by_type: &FunctionsByType,
    Ghost(modules): Ghost<Seq<&Module>>,
)
    requires
        table_ok(old(names)@, *old(graph)),
        functions_by_type.is_for(modules),
    ensures
        table_ok(final(names)@, *final(graph)),
        extends(old(names)@, final(names)@),
        forall|a: Seq<char>, b: Seq<char>|
            #[trigger] linked(final(names)@, edges_of(*final(graph)), a, b) <==> linked(
                old(names)@,
                edges_of(*old(graph)),
                a,
                b,
            ) || functions_call_before(
                modules,
                module.functions@,
                module.functions@.len() as int,
                a,
                b,
            ),
        forall|n: Seq<char>|
            #[trigger] known(final(names)@, n) <==> known(old(names)@, n) || functions_named_before(
                module.functions@,
                module.functions@.len() as int,
                n,
            ) || called_by_functions_before(
                modules,
                module.functions@,
                module.functions@.len() as int,
                n,
            ),
{
    let mut i: usize = 0;
    while i < module.functions.len()
        invariant
            i <= module.functions@.len(),
            functions_by_type.is_for(modules),
            table_ok(names@, *graph),
            extends(old(names)@, names@),
            forall|a: Seq<char>, b: Seq<char>|
                #[trigger] linked(names@, edges_of(*graph), a, b) <==> linked(
                    old(names)@,
                    edges_of(*old(graph)),
                    a,
                    b,
                ) || functions_call_before(modules, module.functions@, i as int, a, b),
            forall|n: Seq<char>|
                #[trigger] known(names@, n) <==> known(old(names)@, n) || functions_named_before(
                    module.functions@,
                    i as int,
                    n,
                ) || called_by_functions_before(modules, module.functions@, i as int, n),
        decreases module.functions@.len() - i,
    {
        add_edges_for_function(names, graph, &module.functions[i], functions_by_type, Ghost(modules));
        proof {
            let f = module.functions@[i as int];
            let k = i + 1;
            assert forall|a: Seq<char>, b: Seq<char>| #[trigger]
                functions_call_before(modules, module.functions@, k, a, b) == (
                functions_call_before(modules, module.functions@, i as int, a, b) || (f.name@ == a
                    && function_may_call(modules, f, b))) by {
                lemma_functions_call_step(modules, module.functions@, i as int, a, b);
            }
            assert forall|n: Seq<char>| #[trigger]
                functions_named_before(module.functions@, k, n) == (functions_named_before(
                    module.functions@,
                    i as int,
                    n,
                ) || f.name@ == n) by {
                lemma_functions_call_step(modules, module.functions@, i as int, n, n);
            }
            assert forall|n: Seq<char>| #[trigger]
                called_by_functions_before(modules, module.functions@, k, n) == (
                called_by_functions_before(modules, module.functions@, i as int, n)
                    || function_may_call(modules, f, n)) by {
                if called_by_functions_before(modules, module.functions@, k, n) {
                    let a = choose|a: Seq<char>|
                        functions_call_before(modules, module.functions@, k, a, n);
                    if functions_call_before(modules, module.functions@, i as int, a, n) {
                    }
                }
                if called_by_functions_before(modules, module.functions@, i as int, n) {
                    let a = choose|a: Seq<char>|
                        functions_call_before(modules, module.functions@, i as int, a, n);
                    assert(functions_call_before(modules, module.functions@, k, a, n));
                }
                if function_may_call(modules, f, n) {
                    assert(functions_call_before(modules, module.functions@, k, f.name@, n));
                }
            }
        }
        i += 1;
    }
}

impl CallGraph {
    /// No name occurs twice, every name has a node, and the edges lie
    /// between the nodes of names.
    #[verifier::type_invariant]
    pub open(crate) spec fn wf(&self) -> bool {
        table_ok(self.names@, self.graph)
    }

    /// Whether the analyzed scope holds a function of the given name: one
    /// that the modules define, or one that a function of the modules calls.
    pub open(crate) spec fn knows(&self, name: Seq<char>) -> bool {
        known(self.names@, name)
    }

    /// Whether the function with the name `caller` may call the function
    /// with the name `callee`.
    pub open(crate) spec fn calls(&self, caller: Seq<char>, callee: Seq<char>) -> bool {
        linked(self.names@, edges_of(self.graph), caller, callee)
    }

    /// The number of nodes of the graph.
    pub open(crate) spec fn names_len(&self) -> nat {
        self.names@.len()
    }

    /// Whether `id` is the id of a node of the graph.
    pub open(crate) spec fn is_node(&self, id: usize) -> bool {
        id < self.names@.len()
    }

    /// The name of the function that the node with the given id stands for.
    pub open(crate) spec fn node_name(&self, id: usize) -> Seq<char> {
        self.names@[id as int]@
    }

    /// The graph that holds the call edges between the nodes.
    pub open(crate) spec fn inner_graph(&self) -> DiGraph {
        self.graph
    }

    /// Whether this is the call graph of the given modules.
    pub open spec fn is_for(&self, modules: Seq<&Module>) -> bool {
        &&& forall|a: Seq<char>, b: Seq<char>| #[trigger]
            self.calls(a, b) <==> may_call(modules, a, b)
        &&& forall|n: Seq<char>| #[trigger]
            self.knows(n) <==> defines_function(modules, n) || is_called(modules, n)
    }

    /// Builds the call graph of the modules: every function that the modules
    /// define gets a node, and every call gets an edge from its function to
    /// each function that it may end up in.
    pub(crate) fn new(modules: &Vec<&Module>, functions_by_type: &FunctionsByType) -> (g: Self)
        requires
            functions_by_type.is_for(modules@),
        ensures
            g.is_for(modules@),
    {
        let mut names: Vec<String> = Vec::new();
        let mut graph = new_graph();
        let ghost none = names@;
        let ghost empty = edges_of(graph);
        // Find all call (and Invoke) instructions and add the appropriate
        // edges
        let mut m: usize = 0;
        while m < modules.len()
            invariant
                m <= modules@.len(),
                functions_by_type.is_for(modules@),
                table_ok(names@, graph),
                forall|a: Seq<char>, b: Seq<char>|
                    #[trigger] linked(names@, edges_of(graph), a, b) <==> modules_call_before(
                        modules@,
                        m as int,
                        a,
                        b,
                    ),
                forall|n: Seq<char>|
                    #[trigger] known(names@, n) <==> modules_define_before(modules@, m as int, n)
                        || called_by_modules_before(modules@, m as int, n),
            decreases modules@.len() - m,
        {
            add_edges_for_module(&mut names, &mut graph, modules[m], functions_by_type, Ghost(modules@));
            proof {
                let functions = modules@[m as int].functions@;
                let k = m + 1;
                assert forall|a: Seq<char>, b: Seq<char>| #[trigger]
                    modules_call_before(modules@, k, a, b) == (modules_call_before(
                        modules@,
                        m as int,
                        a,
                        b,
                    ) || functions_call_before(
                        modules@,
                        functions,
                        functions.len() as int,
                        a,
                        b,
                    )) by {
                    lemma_modules_call_step(modules@, m as int, a, b);
                }
                assert forall|n: Seq<char>| #[trigger]
                    modules_define_before(modules@, k, n) == (modules_define_before(
                        modules@,
                        m as int,
                        n,
                    ) || functions_named_before(functions, functions.len() as int, n)) by {
                    lemma_modules_call_step(modules@, m as int, n, n);
                }
                assert forall|n: Seq<char>| #[trigger]
                    called_by_modules_before(modules@, k, n) == (called_by_modules_before(
                        modules@,
                        m as int,
                        n,
                    ) || called_by_functions_before(
                        modules@,
                        functions,
                        functions.len() as int,
                        n,
                    )) by {
                    if called_by_modules_before(modules@, k, n) {
                        let a = choose|a: Seq<char>| modules_call_before(modules@, k, a, n);
                        if functions_call_before(
                            modules@,
                            functions,
                            functions.len() as int,
                            a,
                            n,
                        ) {
                        }
                    }
                    if called_by_modules_before(modules@, m as int, n) {
                        let a = choose|a: Seq<char>|
                            modules_call_before(modules@, m as int, a, n);
                        assert(modules_call_before(modules@, k, a, n));
                    }
                    if called_by_functions_before(
                        modules@,
                        functions,
                        functions.len() as int,
                        n,
                    ) {
                        let a = choose|a: Seq<char>|
                            functions_call_before(
                                modules@,
                                functions,
                                functions.len() as int,
                                a,
                                n,
                            );
                        assert(modules_call_before(modules@, k, a, n));
                    }
                }
            }
            m += 1;
        }
        let g = CallGraph { names, graph };
        proof {
            assert forall|n: Seq<char>| #[trigger]
                g.knows(n) <==> defines_function(modules@, n) || is_called(modules@, n) by {
                lemma_defines(modules@, n);
            }
        }
        g
    }
    /// The names of the functions with the given nodes, in the same order.
    fn names_of(&self, ids: &Vec<usize>) -> (r: Vec<String>)
        requires
            forall|k: int| 0 <= k < ids@.len() ==> #[trigger] ids@[k] < self.names@.len(),
        ensures
            r@.len() == ids@.len(),
            forall|k: int| 0 <= k < ids@.len() ==> #[trigger] r@[k]@ == self.names@[ids@[k] as int]@,
    {
        let mut out: Vec<String> = Vec::new();
        let mut k: usize = 0;
        while k < ids.len()
            invariant
                k <= ids@.len(),
                out@.len() == k,
                forall|i: int| 0 <= i < ids@.len() ==> #[trigger] ids@[i] < self.names@.len(),
                forall|i: int|
                    0 <= i < k ==> #[trigger] out@[i]@ == self.names@[ids@[i] as int]@,
            decreases ids@.len() - k,
        {
            out.push(self.names[ids[k]].clone());
            k += 1;
        }
        out
    }

    /// Get the names of functions in the analyzed `Module`(s) which may call
    /// the given function, each once.
    ///
    /// This analysis conservatively assumes that function pointers may point
    /// to any function in the analyzed `Module`(s) that has the appropriate
    /// type.
    ///
    /// Fails with `NotFound` exactly when the given function is not found in
    /// the analyzed `Module`(s).
    pub fn callers(&self, func_name: &str) -> (r: Result<Vec<String>, AnalysisError>)
        ensures
            r.is_ok() == self.knows(func_name@),
            r matches Err(e) ==> e == AnalysisError::NotFound,
            r matches Ok(v) ==> {
                &&& string_views(v@).no_duplicates()
                &&& forall|caller: Seq<char>|
                    string_views(v@).contains(caller) <==> self.calls(caller, func_name@)
            },
    {
        proof {
            use_type_invariant(self);
        }
        let id = match find_name(&self.names, &func_name.to_owned()) {
            Some(id) => id,
            None => {
                return Err(AnalysisError::NotFound);
            },
        };
        let ids = predecessors(&self.graph, id);
        assert forall|k: int| 0 <= k < ids@.len() implies #[trigger] ids@[k]
            < self.names@.len() by {
            assert(ids@.contains(ids@[k]));
        }
        let v = self.names_of(&ids);
        proof {
            let views = string_views(v@);
            assert forall|i: int, j: int| 0 <= i < j < views.len() implies views[i]
                != views[j] by {
                assert(views[i] == v@[i]@ && views[j] == v@[j]@);
                assert(ids@[i] != ids@[j]);
                if ids@[i] < ids@[j] {
                    assert(self.names@[ids@[i] as int]@ != self.names@[ids@[j] as int]@);
                } else {
                    assert(self.names@[ids@[j] as int]@ != self.names@[ids@[i] as int]@);
                }
            }
            assert forall|caller: Seq<char>| views.contains(caller) implies self.calls(
                caller,
                func_name@,
            ) by {
                let k = choose|k: int| 0 <= k < views.len() && views[k] == caller;
                assert(views[k] == v@[k]@);
                assert(ids@.contains(ids@[k]));
                assert(edges_of(self.graph).contains((ids@[k], id)));
            }
            assert forall|caller: Seq<char>|
                self.calls(caller, func_name@) implies views.contains(caller) by {
                let (i, j) = choose|i: usize, j: usize|
                    i < self.names@.len() && j < self.names@.len() && #[trigger] edges_of(
                        self.graph,
                    ).contains((i, j)) && self.names@[i as int]@ == caller
                        && self.names@[j as int]@ == func_name@;
                if j < id {
                    assert(self.names@[j as int]@ != self.names@[id as int]@);
                } else if id < j {
                    assert(self.names@[id as int]@ != self.names@[j as int]@);
                }
                assert(ids@.contains(i));
                let k = choose|k: int| 0 <= k < ids@.len() && ids@[k] == i;
                assert(views[k] == v@[k]@);
            }
        }
        Ok(v)
    }

    /// Get the names of functions in the analyzed `Module`(s) which may be
    /// called by the given function, each once.
    ///
    /// This analysis conservatively assumes that function pointers may point
    /// to any function in the analyzed `Module`(s) that has the appropriate
    /// type.
    ///
    /// Fails with `NotFound` exactly when the given function is not found in
    /// the analyzed `Module`(s).
    pub fn callees(&self, func_name: &str) -> (r: Result<Vec<String>, AnalysisError>)
        ensures
            r.is_ok() == self.knows(func_name@),
            r matches Err(e) ==> e == AnalysisError::NotFound,
            r matches Ok(v) ==> {
                &&& string_views(v@).no_duplicates()
                &&& forall|callee: Seq<char>|
                    string_views(v@).contains(callee) <==> self.calls(func_name@, callee)
            },
    {
        proof {
            use_type_invariant(self);
        }
        let id = match find_name(&self.names, &func_name.to_owned()) {
            Some(id) => id,
            None => {
                return Err(AnalysisError::NotFound);
            },
        };
        let ids = successors(&self.graph, id);
        assert forall|k: int| 0 <= k < ids@.len() implies #[trigger] ids@[k]
            < self.names@.len() by {
            assert(ids@.contains(ids@[k]));
        }
        let v = self.names_of(&ids);
        proof {
            let views = string_views(v@);
            assert forall|i: int, j: int| 0 <= i < j < views.len() implies views[i]
                != views[j] by {
                assert(views[i] == v@[i]@ && views[j] == v@[j]@);
                assert(ids@[i] != ids@[j]);
                if ids@[i] < ids@[j] {
                    assert(self.names@[ids@[i] as int]@ != self.names@[ids@[j] as int]@);
                } else {
                    assert(self.names@[ids@[j] as int]@ != self.names@[ids@[i] as int]@);
                }
            }
            assert forall|callee: Seq<char>| views.contains(callee) implies self.calls(
                func_name@,
                callee,
            ) by {
                let k = choose|k: int| 0 <= k < views.len() && views[k] == callee;
                assert(views[k] == v@[k]@);
                assert(ids@.contains(ids@[k]));
                assert(edges_of(self.graph).contains((id, ids@[k])));
            }
            assert forall|callee: Seq<char>|
                self.calls(func_name@, callee) implies views.contains(callee) by {
                let (i, j) = choose|i: usize, j: usize|
                    i < self.names@.len() && j < self.names@.len() && #[trigger] edges_of(
                        self.graph,
                    ).contains((i, j)) && self.names@[i as int]@ == func_name@
                        && self.names@[j as int]@ == callee;
                if i < id {
                    assert(self.names@[i as int]@ != self.names@[id as int]@);
                } else if id < i {
                    assert(self.names@[id as int]@ != self.names@[i as int]@);
                }
                assert(ids@.contains(j));
                let k = choose|k: int| 0 <= k < ids@.len() && ids@[k] == j;
                assert(views[k] == v@[k]@);
            }
        }
        Ok(v)
    }

    /// The names of the functions of the analyzed scope, each once, in the
    /// order of their node ids.
    pub fn functions(&self) -> (v: Vec<String>)
        ensures
            v@.len() == self.names_len(),
            forall|i: int| 0 <= i < v@.len() ==> (#[trigger] v@[i])@ == self.node_name(i as usize),
            string_views(v@).no_duplicates(),
            forall|name: Seq<char>| string_views(v@).contains(name) <==> self.knows(name),
    {
        proof {
            use_type_invariant(self);
        }
        let mut out: Vec<String> = Vec::new();
        let mut i: usize = 0;
        while i < self.names.len()
            invariant
                i <= self.names@.len(),
                out@.len() == i,
                forall|k: int| 0 <= k < i ==> (#[trigger] out@[k])@ == self.names@[k]@,
            decreases self.names@.len() - i,
        {
            out.push(self.names[i].clone());
            i += 1;
        }
        proof {
            let views = string_views(out@);
            assert forall|i: int, j: int| 0 <= i < j < views.len() implies views[i]
                != views[j] by {
                assert(views[i] == out@[i]@ && views[j] == out@[j]@);
                assert(self.names@[i]@ != self.names@[j]@);
            }
            assert forall|name: Seq<char>| views.contains(name) <==> self.knows(name) by {
                if views.contains(name) {
                    let k = choose|k: int| 0 <= k < views.len() && views[k] == name;
                    assert(out@[k]@ == name);
                    assert(self.names@[k]@ == name);
                }
                if self.knows(name) {
                    let k = choose|k: int|
                        0 <= k < self.names@.len() && (#[trigger] self.names@[k])@ == name;
                    assert(out@[k]@ == name);
                    assert(views[k] == name);
                }
            }
        }
        out
    }

    /// Every call edge of the graph, each once, as (caller, callee).
    pub fn all_calls(&self) -> (v: Vec<(String, String)>)
        ensures
            forall|a: Seq<char>, b: Seq<char>|
                self.calls(a, b) <==> exists|k: int|
                    0 <= k < v@.len() && (#[trigger] v@[k]).0@ == a && v@[k].1@ == b,
            forall|i: int, j: int|
                0 <= i < j < v@.len() ==> !((#[trigger] v@[i]).0@ == (#[trigger] v@[j]).0@
                    && v@[i].1@ == v@[j].1@),
    {
        proof {
            use_type_invariant(self);
        }
        let edges = all_edges(&self.graph);
        let mut out: Vec<(String, String)> = Vec::new();
        let mut i: usize = 0;
        while i < edges.len()
            invariant
                self.wf(),
                i <= edges@.len(),
                out@.len() == i,
                edges@.no_duplicates(),
                forall|e: (usize, usize)| edges@.contains(e) <==> edges_of(self.graph).contains(e),
                forall|k: int|
                    0 <= k < i ==> (#[trigger] edges@[k]).0 < self.names@.len() && edges@[k].1
                        < self.names@.len() && out@[k].0@ == self.names@[edges@[k].0 as int]@
                        && out@[k].1@ == self.names@[edges@[k].1 as int]@,
            decreases edges@.len() - i,
        {
            let (a, b) = edges[i];
            assert(edges@.contains(edges@[i as int]));
            assert(edges_of(self.graph).contains((a, b)));
            out.push((self.names[a].clone(), self.names[b].clone()));
            i += 1;
        }
        proof {
            assert forall|i: int, j: int| 0 <= i < j < out@.len() implies !((#[trigger] out@[i]).0@
                == (#[trigger] out@[j]).0@ && out@[i].1@ == out@[j].1@) by {
                let (a, b) = edges@[i];
                let (c, d) = edges@[j];
                assert(edges@[i] != edges@[j]);
                if out@[i].0@ == out@[j].0@ && out@[i].1@ == out@[j].1@ {
                    if a < c {
                        assert(self.names@[a as int]@ != self.names@[c as int]@);
                    } else if c < a {
                        assert(self.names@[c as int]@ != self.names@[a as int]@);
                    }
                    if b < d {
                        assert(self.names@[b as int]@ != self.names@[d as int]@);
                    } else if d < b {
                        assert(self.names@[d as int]@ != self.names@[b as int]@);
                    }
                }
            }
            assert forall|a: Seq<char>, b: Seq<char>|
                self.calls(a, b) <==> exists|k: int|
                    0 <= k < out@.len() && (#[trigger] out@[k]).0@ == a && out@[k].1@ == b by {
                if self.calls(a, b) {
                    let (x, y) = choose|x: usize, y: usize|
                        x < self.names@.len() && y < self.names@.len() && #[trigger] edges_of(
                            self.graph,
                        ).contains((x, y)) && self.names@[x as int]@ == a
                            && self.names@[y as int]@ == b;
                    assert(edges@.contains((x, y)));
                    let k = choose|k: int| 0 <= k < edges@.len() && edges@[k] == (x, y);
                    assert(edges@[k].0 == x);
                    assert(out@[k].0@ == a && out@[k].1@ == b);
                }
                if exists|k: int|
                    0 <= k < out@.len() && (#[trigger] out@[k]).0@ == a && out@[k].1@ == b {
                    let k = choose|k: int|
                        0 <= k < out@.len() && (#[trigger] out@[k]).0@ == a && out@[k].1@ == b;
                    assert(edges@.contains(edges@[k]));
                    assert(edges_of(self.graph).contains((edges@[k].0, edges@[k].1)));
                }
            }
        }
        out
    }

    /// The graph itself, over node ids: an edge leads from one id to another
    /// exactly when the function that the first stands for may call the
    /// function that the second stands for.
    pub fn inner(&self) -> (g: &DiGraph)
        ensures
            *g == self.inner_graph(),
            forall|a: usize, b: usize| #[trigger]
                edges_of(*g).contains((a, b)) ==> self.is_node(a) && self.is_node(b) && self.calls(
                    self.node_name(a),
                    self.node_name(b),
                ),
            forall|a: usize, b: usize|
                self.is_node(a) && self.is_node(b) && #[trigger] self.calls(
                    self.node_name(a),
                    self.node_name(b),
                ) ==> edges_of(*g).contains((a, b)),
            forall|a: usize| nodes_of(*g).contains(a) <==> self.is_node(a),
    {
        proof {
            use_type_invariant(self);
            assert forall|a: usize, b: usize|
                self.is_node(a) && self.is_node(b) && #[trigger] self.calls(
                    self.node_name(a),
                    self.node_name(b),
                ) implies edges_of(self.graph).contains((a, b)) by {
                let (i, j) = choose|i: usize, j: usize|
                    i < self.names@.len() && j < self.names@.len() && #[trigger] edges_of(
                        self.graph,
                    ).contains((i, j)) && self.names@[i as int]@ == self.node_name(a)
                        && self.names@[j as int]@ == self.node_name(b);
                if i < a {
                    assert(self.names@[i as int]@ != self.names@[a as int]@);
                } else if a < i {
                    assert(self.names@[a as int]@ != self.names@[i as int]@);
                }
                if j < b {
                    assert(self.names@[j as int]@ != self.names@[b as int]@);
                } else if b < j {
                    assert(self.names@[b as int]@ != self.names@[j as int]@);
                }
            }
        }
        &self.graph
    }
}

/// The modules define a function of a name exactly when one of them holds a
/// function of that name.
proof fn lemma_defines(modules: Seq<&Module>, n: Seq<char>)
    ensures
        defines_function(modules, n) == modules_define_before(modules, modules.len() as int, n),
{
    if defines_function(modules, n) {
        let (m, f) = choose|m: int, f: int|
            0 <= m < modules.len() && 0 <= f < modules[m].functions@.len()
                && #[trigger] modules[m].functions@[f].name@ == n;
        assert(functions_named_before(
            modules[m].functions@,
            modules[m].functions@.len() as int,
            n,
        )) by {
            assert(modules[m].functions@[f].name@ == n);
        }
        assert(modules_define_before(modules, modules.len() as int, n));
    }
    if modules_define_before(modules, modules.len() as int, n) {
        let m = choose|m: int|
            0 <= m < modules.len() && functions_named_before(
                (#[trigger] modules[m]).functions@,
                modules[m].functions@.len() as int,
                n,
            );
        let f = choose|f: int|
            0 <= f < modules[m].functions@.len() && (#[trigger] modules[m].functions@[f]).name@
                == n;
        assert(modules[m].functions@[f].name@ == n);
    }
}

} // verus!
