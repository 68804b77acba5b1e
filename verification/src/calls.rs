//! The calls between the functions of a crate, under the names that the
//! functions have in the crate's source.

use crate::analysis::ModuleAnalysis;
use crate::call_graph::may_call;
use crate::ir::Module;
use std::fmt::Write;
use vstd::prelude::*;

verus! {

/// The readable name that a mangled symbol stands for; a name that is no
/// mangled symbol stands for itself.
pub uninterp spec fn demangled_name(symbol: Seq<char>) -> Seq<char>;

/// `rustc_demangle::demangle`, printed in its alternate form (without the
/// trailing hash): the readable name that the symbol stands for.
#[verifier::external_body]
pub(crate) fn demangle(symbol: &str) -> (name: String)
    ensures
        name@ == demangled_name(symbol@),
{
    let mut name = String::new();
    let _ = write!(name, "{:#}", rustc_demangle::demangle(symbol));
    name
}

/// Whether `pattern` occurs in `text`.
pub open spec fn has_substring(text: Seq<char>, pattern: Seq<char>) -> bool {
    exists|i: int| occurs_at(text, pattern, i)
}

/// `str::contains` with a string as the pattern: whether the pattern occurs
/// in the text.
#[verifier::external_body]
fn contains_text(text: &str, pattern: &str) -> (r: bool)
    ensures
        r == has_substring(text@, pattern@),
{
    text.contains(pattern)
}

/// Whether `pattern` occurs in `text` at position `i`.
pub open spec fn occurs_at(text: Seq<char>, pattern: Seq<char>, i: int) -> bool {
    0 <= i <= text.len() - pattern.len() && text.subrange(i, i + pattern.len()) == pattern
}

/// The first position at which `pattern` occurs in `text`.
pub open spec fn first_occurrence(text: Seq<char>, pattern: Seq<char>) -> int {
    choose|i: int|
        occurs_at(text, pattern, i) && forall|j: int| 0 <= j < i ==> !occurs_at(text, pattern, j)
}

/// `str::split_once` with `::` as the delimiter: the text before the first
/// `::` and the text after it, or `None` where the text holds no `::`.
#[verifier::external_body]
fn split_once_colons(text: &str) -> (r: Option<(&str, &str)>)
    ensures
        match r {
            Some((before, after)) => text@ == before@ + "::"@ + after@ && forall|j: int|
                0 <= j < before@.len() ==> !occurs_at(text@, "::"@, j),
            None => !has_substring(text@, "::"@),
        },
{
    text.split_once("::")
}

/// The crate that the readable name of a function names: what stands before
/// the first `::` of the name, or `NONE` where the name holds no `::`.
pub open spec fn crate_of(name: Seq<char>) -> Seq<char> {
    if has_substring(name, "::"@) {
        name.subrange(0, first_occurrence(name, "::"@))
    } else {
        "NONE"@
    }
}

/// The crate that the readable name of a function names.
pub fn callee_crate(callee: &str) -> (name: &str)
    ensures
        name@ == crate_of(callee@),
{
    match split_once_colons(callee) {
        Some((before, after)) => {
            proof {
                let text = callee@;
                let pattern = "::"@;
                let i = before@.len() as int;
                reveal_strlit("::");
                assert(text.subrange(i, i + pattern.len()) =~= pattern);
                assert(occurs_at(text, pattern, i));
                assert(has_substring(text, pattern));
                let k = first_occurrence(text, pattern);
                assert(occurs_at(text, pattern, k) && forall|j: int|
                    0 <= j < k ==> !occurs_at(text, pattern, j));
                assert(k == i);
                assert(text.subrange(0, i) =~= before@);
            }
            before
        },
        None => "NONE",
    }
}

/// Whether the name is that of a function of the language's own libraries
/// or of the compiler's runtime, which are left out of a crate's calls.
pub open spec fn is_blocked_name(name: Seq<char>) -> bool {
    ||| has_substring(name, "llvm."@)
    ||| has_substring(name, "__rust"@)
    ||| has_substring(name, "rt::"@)
    ||| has_substring(name, "std::"@)
    ||| has_substring(name, "core::"@)
    ||| has_substring(name, "alloc::"@)
}

/// Whether the name is that of a function of the language's own libraries
/// or of the compiler's runtime.
pub fn is_blocked(name: &str) -> (r: bool)
    ensures
        r == is_blocked_name(name@),
{
    contains_text(name, "llvm.") || contains_text(name, "__rust") || contains_text(name, "rt::")
        || contains_text(name, "std::") || contains_text(name, "core::") || contains_text(
        name,
        "alloc::",
    )
}

/// Whether the pair of names is that of a call in the module that is kept:
/// the readable names of a caller and a callee, neither of them blocked.
pub open spec fn is_kept_call(module: &Module, caller: Seq<char>, callee: Seq<char>) -> bool {
    exists|x: Seq<char>, y: Seq<char>| #[trigger]
        may_call(seq![module], x, y) && caller == demangled_name(x) && callee == demangled_name(
            y,
        ) && !is_blocked_name(caller) && !is_blocked_name(callee)
}

/// Whether the pair of names is that of a kept call in one of the first `k`
/// modules.
pub open spec fn is_kept_before(
    modules: Seq<Module>,
    k: int,
    caller: Seq<char>,
    callee: Seq<char>,
) -> bool {
    exists|m: int| 0 <= m < k && m < modules.len() && is_kept_call(&#[trigger] modules[m], caller, callee)
}

/// Whether the list holds the pair of names.
pub open spec fn lists_call(calls: Seq<(String, String)>, caller: Seq<char>, callee: Seq<char>) -> bool {
    exists|i: int| 0 <= i < calls.len() && (#[trigger] calls[i]).0@ == caller && calls[i].1@ == callee
}

/// Extract all function calls/invocations within the modules of a crate.
/// Returns the (caller, callee) pairs of readable function names, without
/// the calls from or to functions of the language's own libraries and of
/// the compiler's runtime.
pub fn extract_calls(modules: &Vec<Module>) -> (calls: Vec<(String, String)>)
    ensures
        forall|a: Seq<char>, b: Seq<char>| #[trigger]
            lists_call(calls@, a, b) <==> is_kept_before(modules@, modules@.len() as int, a, b),
{
    let mut calls: Vec<(String, String)> = Vec::new();
    let mut m: usize = 0;
    while m < modules.len()
        invariant
            m <= modules@.len(),
            forall|a: Seq<char>, b: Seq<char>| #[trigger]
                lists_call(calls@, a, b) <==> is_kept_before(modules@, m as int, a, b),
        decreases modules@.len() - m,
    {
        let module = &modules[m];
        let mut analysis = ModuleAnalysis::new(module);
        let graph = analysis.call_graph();
        let edges = graph.all_calls();
        let ghost before = calls@;
        let mut i: usize = 0;
        while i < edges.len()
            invariant
                i <= edges@.len(),
                forall|a: Seq<char>, b: Seq<char>| #[trigger]
                    lists_call(calls@, a, b) <==> lists_call(before, a, b) || exists|k: int|
                        0 <= k < i && kept_as(#[trigger] edges@[k], a, b),
            decreases edges@.len() - i,
        {
            let src = demangle(edges[i].0.as_str());
            let dst = demangle(edges[i].1.as_str());
            let ghost listed = calls@;
            if !is_blocked(src.as_str()) && !is_blocked(dst.as_str()) {
                calls.push((src, dst));
            }
            proof {
                let next = i + 1;
                assert forall|a: Seq<char>, b: Seq<char>| #[trigger]
                    lists_call(calls@, a, b) <==> lists_call(before, a, b) || exists|k: int|
                        0 <= k < next && kept_as(#[trigger] edges@[k], a, b) by {
                    let here = kept_as(edges@[i as int], a, b);
                    if lists_call(calls@, a, b) {
                        let j = choose|j: int|
                            0 <= j < calls@.len() && (#[trigger] calls@[j]).0@ == a
                                && calls@[j].1@ == b;
                        if j < listed.len() {
                            assert(listed[j].0@ == a && listed[j].1@ == b);
                            assert(lists_call(listed, a, b));
                        } else {
                            assert(here);
                        }
                    }
                    if lists_call(listed, a, b) {
                        let j = choose|j: int|
                            0 <= j < listed.len() && (#[trigger] listed[j]).0@ == a
                                && listed[j].1@ == b;
                        assert(calls@[j].0@ == a && calls@[j].1@ == b);
                    }
                    if here {
                        assert(calls@[calls@.len() - 1].0@ == a);
                    }
                    if exists|k: int| 0 <= k < next && kept_as(#[trigger] edges@[k], a, b) {
                        let k = choose|k: int|
                            0 <= k < next && kept_as(#[trigger] edges@[k], a, b);
                        if k < i {
                            assert(lists_call(listed, a, b));
                        }
                    }
                }
            }
            i += 1;
        }
        proof {
            let next = m + 1;
            assert forall|a: Seq<char>, b: Seq<char>| #[trigger]
                lists_call(calls@, a, b) <==> is_kept_before(modules@, next, a, b) by {
                if exists|k: int| 0 <= k < edges@.len() && kept_as(#[trigger] edges@[k], a, b) {
                    let k = choose|k: int|
                        0 <= k < edges@.len() && kept_as(#[trigger] edges@[k], a, b);
                    assert(graph.calls(edges@[k].0@, edges@[k].1@));
                    assert(may_call(seq![module], edges@[k].0@, edges@[k].1@));
                    assert(is_kept_call(&modules@[m as int], a, b));
                }
                if is_kept_call(&modules@[m as int], a, b) {
                    let (x, y) = choose|x: Seq<char>, y: Seq<char>| #[trigger]
                        may_call(seq![module], x, y) && a == demangled_name(x) && b
                            == demangled_name(y) && !is_blocked_name(a) && !is_blocked_name(b);
                    assert(graph.calls(x, y));
                    let k = choose|k: int|
                        0 <= k < edges@.len() && (#[trigger] edges@[k]).0@ == x && edges@[k].1@
                            == y;
                    assert(kept_as(edges@[k], a, b));
                }
                if is_kept_before(modules@, next, a, b) {
                    let j = choose|j: int|
                        0 <= j < next && j < modules@.len() && is_kept_call(
                            &#[trigger] modules@[j],
                            a,
                            b,
                        );
                    if j < m {
                        assert(is_kept_before(modules@, m as int, a, b));
                    }
                }
                if is_kept_before(modules@, m as int, a, b) {
                    let j = choose|j: int|
                        0 <= j < m && j < modules@.len() && is_kept_call(
                            &#[trigger] modules@[j],
                            a,
                            b,
                        );
                    assert(0 <= j < next && is_kept_call(&modules@[j], a, b));
                }
            }
        }
        m += 1;
    }
    calls
}

/// Whether the pair of names is what is kept of the call edge: the readable
/// names of its ends, neither of them blocked.
pub open spec fn kept_as(edge: (String, String), caller: Seq<char>, callee: Seq<char>) -> bool {
    &&& caller == demangled_name(edge.0@)
    &&& callee == demangled_name(edge.1@)
    &&& !is_blocked_name(caller)
    &&& !is_blocked_name(callee)
}

} // verus!
