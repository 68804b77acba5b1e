#![allow(unused_imports, dead_code)]

use painter::ir::BasicBlock;
use painter::ir::Call;
use painter::ir::Callee;
use painter::ir::Function;
use painter::ir::FunctionType;
use painter::ir::Module;
use painter::ir::Name;
use painter::ir::Terminator;
use painter::CFGNode;
use painter::CrossModuleAnalysis;
use painter::ModuleAnalysis;

fn sorted<T: Ord>(mut items: Vec<T>) -> Vec<T> {
    items.sort();
    items
}

fn func_type(result: &str, params: Vec<&str>, is_var_arg: bool) -> FunctionType {
    FunctionType {
        result_type: result.to_string(),
        param_types: params.into_iter().map(|p| p.to_string()).collect(),
        is_var_arg,
    }
}

fn block(name: Name, term: Terminator) -> BasicBlock {
    BasicBlock { name, calls: vec![], term }
}

fn ret(number: usize) -> BasicBlock {
    block(Name::from(number), Terminator::Ret)
}

fn br(number: usize, dest: usize) -> BasicBlock {
    block(Name::from(number), Terminator::Br { dest: Name::from(dest) })
}

fn condbr(number: usize, true_dest: usize, false_dest: usize) -> BasicBlock {
    block(
        Name::from(number),
        Terminator::CondBr { true_dest: Name::from(true_dest), false_dest: Name::from(false_dest) },
    )
}

fn function(name: &str, ty: FunctionType, basic_blocks: Vec<BasicBlock>) -> Function {
    Function { name: name.to_string(), ty, basic_blocks }
}

fn direct(callee: &str) -> Call {
    Call { callee: Callee::Function(callee.to_string()), callee_ty: func_type("i32", vec!["i32"], false) }
}

fn through_pointer(callee_ty: FunctionType) -> Call {
    Call { callee: Callee::Value, callee_ty }
}

fn calling(name: &str, ty: FunctionType, calls: Vec<Call>) -> Function {
    let entry = Name::from(ty.param_types.len());
    function(name, ty, vec![BasicBlock { name: entry, calls, term: Terminator::Ret }])
}

fn int_fn(params: usize) -> FunctionType {
    func_type("i32", vec!["i32"; params], false)
}

/// The functions of a small C file of calls: plain, nested, recursive and
/// mutually recursive.
fn call_module() -> Module {
    Module {
        name: "call".to_string(),
        functions: vec![
            calling("simple_callee", int_fn(2), vec![]),
            calling("simple_caller", int_fn(1), vec![direct("simple_callee")]),
            function(
                "conditional_caller",
                int_fn(2),
                vec![
                    condbr(2, 4, 6),
                    BasicBlock {
                        name: Name::from(4),
                        calls: vec![direct("simple_callee")],
                        term: Terminator::Br { dest: Name::from(8) },
                    },
                    br(6, 8),
                    ret(8),
                ],
            ),
            calling("twice_caller", int_fn(1), vec![direct("simple_callee"), direct("simple_callee")]),
            calling("nested_caller", int_fn(2), vec![direct("simple_caller")]),
            calling(
                "callee_with_loop",
                int_fn(2),
                vec![direct("llvm.lifetime.start.p0i8"), direct("llvm.lifetime.end.p0i8")],
            ),
            calling("caller_of_loop", int_fn(1), vec![direct("callee_with_loop")]),
            calling(
                "caller_with_loop",
                int_fn(1),
                vec![
                    direct("llvm.lifetime.start.p0i8"),
                    direct("simple_callee"),
                    direct("llvm.lifetime.end.p0i8"),
                ],
            ),
            calling("recursive_simple", int_fn(1), vec![direct("recursive_simple")]),
            calling(
                "recursive_double",
                int_fn(1),
                vec![direct("recursive_double"), direct("recursive_double")],
            ),
            calling(
                "recursive_and_normal_caller",
                int_fn(1),
                vec![direct("simple_callee"), direct("recursive_and_normal_caller")],
            ),
            calling("mutually_recursive_a", int_fn(1), vec![direct("mutually_recursive_b")]),
            calling("mutually_recursive_b", int_fn(1), vec![direct("mutually_recursive_a")]),
        ],
    }
}

/// Two functions of one type, and functions that call through pointers of
/// that type.
fn functionptr_module() -> Module {
    let pointer = "i32 (i32, i32)*";
    Module {
        name: "functionptr".to_string(),
        functions: vec![
            calling("foo", int_fn(2), vec![]),
            calling("bar", int_fn(2), vec![]),
            calling(
                "calls_fptr",
                func_type("i32", vec![pointer, "i32"], false),
                vec![through_pointer(int_fn(2))],
            ),
            calling("get_function_ptr", func_type(pointer, vec!["i1"], false), vec![]),
            calling(
                "fptr_driver",
                int_fn(0),
                vec![direct("get_function_ptr"), direct("calls_fptr")],
            ),
            calling(
                "calls_through_struct",
                func_type("i32", vec!["%struct.StructWithFuncPtr*"], false),
                vec![through_pointer(int_fn(2))],
            ),
            calling(
                "struct_driver",
                int_fn(0),
                vec![
                    direct("llvm.lifetime.start.p0i8"),
                    direct("llvm.memset.p0i8.i64"),
                    direct("get_function_ptr"),
                    direct("calls_through_struct"),
                    direct("llvm.lifetime.end.p0i8"),
                ],
            ),
        ],
    }
}

/// Functions that call functions of the call module.
fn crossmod_module() -> Module {
    Module {
        name: "crossmod".to_string(),
        functions: vec![
            calling("cross_module_simple_caller", int_fn(1), vec![direct("simple_callee")]),
            calling(
                "cross_module_twice_caller",
                int_fn(1),
                vec![direct("simple_callee"), direct("simple_callee")],
            ),
            calling(
                "cross_module_nested_near_caller",
                int_fn(2),
                vec![direct("cross_module_simple_caller")],
            ),
            calling("cross_module_nested_far_caller", int_fn(2), vec![direct("simple_caller")]),
        ],
    }
}

#[test]
fn call_call_graph() {
    let module = call_module();
    let mut analysis = ModuleAnalysis::new(&module);
    let callgraph = analysis.call_graph();

    let callers: Vec<String> = sorted(callgraph.callers("simple_callee").unwrap());
    assert_eq!(
        callers,
        vec![
            "caller_with_loop",
            "conditional_caller",
            "recursive_and_normal_caller",
            "simple_caller",
            "twice_caller",
        ]
    );
    let callees: Vec<String> = sorted(callgraph.callees("simple_callee").unwrap());
    assert!(callees.is_empty());

    let callers: Vec<String> = sorted(callgraph.callers("simple_caller").unwrap());
    assert_eq!(callers, vec!["nested_caller"]);
    let callees: Vec<String> = sorted(callgraph.callees("simple_caller").unwrap());
    assert_eq!(callees, vec!["simple_callee"]);

    let callers: Vec<String> = sorted(callgraph.callers("conditional_caller").unwrap());
    assert!(callers.is_empty());
    let callees: Vec<String> = sorted(callgraph.callees("conditional_caller").unwrap());
    assert_eq!(callees, vec!["simple_callee"]);

    let callers: Vec<String> = sorted(callgraph.callers("twice_caller").unwrap());
    assert!(callers.is_empty());
    let callees: Vec<String> = sorted(callgraph.callees("twice_caller").unwrap());
    assert_eq!(callees, vec!["simple_callee"]);

    let callers: Vec<String> = sorted(callgraph.callers("nested_caller").unwrap());
    assert!(callers.is_empty());
    let callees: Vec<String> = sorted(callgraph.callees("nested_caller").unwrap());
    assert_eq!(callees, vec!["simple_caller"]);

    let callers: Vec<String> = sorted(callgraph.callers("callee_with_loop").unwrap());
    assert_eq!(callers, vec!["caller_of_loop"]);
    let callees: Vec<String> = sorted(callgraph.callees("callee_with_loop").unwrap());
    assert_eq!(
        callees,
        vec!["llvm.lifetime.end.p0i8", "llvm.lifetime.start.p0i8"]
    );

    let callers: Vec<String> = sorted(callgraph.callers("caller_of_loop").unwrap());
    assert!(callers.is_empty());
    let callees: Vec<String> = sorted(callgraph.callees("caller_of_loop").unwrap());
    assert_eq!(callees, vec!["callee_with_loop"]);

    let callers: Vec<String> = sorted(callgraph.callers("caller_with_loop").unwrap());
    assert!(callers.is_empty());
    let callees: Vec<String> = sorted(callgraph.callees("caller_with_loop").unwrap());
    assert_eq!(
        callees,
        vec![
            "llvm.lifetime.end.p0i8",
            "llvm.lifetime.start.p0i8",
            "simple_callee"
        ]
    );

    let callers: Vec<String> = sorted(callgraph.callers("recursive_simple").unwrap());
    assert_eq!(callers, vec!["recursive_simple"]);
    let callees: Vec<String> = sorted(callgraph.callees("recursive_simple").unwrap());
    assert_eq!(callees, vec!["recursive_simple"]);

    let callers: Vec<String> = sorted(callgraph.callers("recursive_double").unwrap());
    assert_eq!(callers, vec!["recursive_double"]);
    let callees: Vec<String> = sorted(callgraph.callees("recursive_double").unwrap());
    assert_eq!(callees, vec!["recursive_double"]);

    let callers: Vec<String> = sorted(callgraph.callers("recursive_and_normal_caller").unwrap());
    assert_eq!(callers, vec!["recursive_and_normal_caller"]);
    let callees: Vec<String> = sorted(callgraph.callees("recursive_and_normal_caller").unwrap());
    assert_eq!(
        callees,
        vec!["recursive_and_normal_caller", "simple_callee"]
    );

    let callers: Vec<String> = sorted(callgraph.callers("mutually_recursive_a").unwrap());
    assert_eq!(callers, vec!["mutually_recursive_b"]);
    let callees: Vec<String> = sorted(callgraph.callees("mutually_recursive_a").unwrap());
    assert_eq!(callees, vec!["mutually_recursive_b"]);

    let callers: Vec<String> = sorted(callgraph.callers("mutually_recursive_b").unwrap());
    assert_eq!(callers, vec!["mutually_recursive_a"]);
    let callees: Vec<String> = sorted(callgraph.callees("mutually_recursive_b").unwrap());
    assert_eq!(callees, vec!["mutually_recursive_a"]);
}

#[test]
fn functionptr_call_graph() {
    let module = functionptr_module();
    let mut analysis = ModuleAnalysis::new(&module);
    let fbt = analysis.functions_by_type();

    let footype_functions: Vec<String> =
        sorted(fbt.functions_with_type(&func_type("i32", vec!["i32", "i32"], false)));
    assert_eq!(footype_functions, vec!["bar", "foo"]);

    let callgraph = analysis.call_graph();

    let callers: Vec<String> = sorted(callgraph.callers("foo").unwrap());
    assert_eq!(callers, vec!["calls_fptr", "calls_through_struct"]);
    let callees: Vec<String> = sorted(callgraph.callees("foo").unwrap());
    assert!(callees.is_empty());

    let callers: Vec<String> = sorted(callgraph.callers("bar").unwrap());
    assert_eq!(callers, vec!["calls_fptr", "calls_through_struct"]);
    let callees: Vec<String> = sorted(callgraph.callees("bar").unwrap());
    assert!(callees.is_empty());

    let callers: Vec<String> = sorted(callgraph.callers("calls_fptr").unwrap());
    assert_eq!(callers, vec!["fptr_driver"]);
    let callees: Vec<String> = sorted(callgraph.callees("calls_fptr").unwrap());
    assert_eq!(callees, vec!["bar", "foo"]);

    let callers: Vec<String> = sorted(callgraph.callers("get_function_ptr").unwrap());
    assert_eq!(callers, vec!["fptr_driver", "struct_driver"]);
    let callees: Vec<String> = sorted(callgraph.callees("get_function_ptr").unwrap());
    assert!(callees.is_empty());

    let callers: Vec<String> = sorted(callgraph.callers("calls_through_struct").unwrap());
    assert_eq!(callers, vec!["struct_driver"]);
    let callees: Vec<String> = sorted(callgraph.callees("calls_through_struct").unwrap());
    assert_eq!(callees, vec!["bar", "foo"]);

    let callers: Vec<String> = sorted(callgraph.callers("struct_driver").unwrap());
    assert!(callers.is_empty());
    let callees: Vec<String> = sorted(callgraph.callees("struct_driver").unwrap());
    assert_eq!(
        callees,
        vec![
            "calls_through_struct",
            "get_function_ptr",
            "llvm.lifetime.end.p0i8",
            "llvm.lifetime.start.p0i8",
            "llvm.memset.p0i8.i64"
        ]
    );
}

#[test]
fn crossmod_call_graph() {
    let call_module = call_module();
    let crossmod_module = crossmod_module();
    let modules = [call_module, crossmod_module];
    let mut analysis = CrossModuleAnalysis::new(modules.iter().collect());
    let callgraph = analysis.call_graph();

    // this function isn't involved in cross-module calls, it should still have the same results
    let callers: Vec<String> = sorted(callgraph.callers("conditional_caller").unwrap());
    assert!(callers.is_empty());
    let callees: Vec<String> = sorted(callgraph.callees("conditional_caller").unwrap());
    assert_eq!(callees, vec!["simple_callee"]);

    // this function also isn't involved in cross-module calls; it sits in the other module
    let callers: Vec<String> = sorted(callgraph.callers("cross_module_nested_near_caller").unwrap());
    assert!(callers.is_empty());
    let callees: Vec<String> = sorted(callgraph.callees("cross_module_nested_near_caller").unwrap());
    assert_eq!(callees, vec!["cross_module_simple_caller"]);

    // this function is called cross-module
    let callers: Vec<String> = sorted(callgraph.callers("simple_callee").unwrap());
    assert_eq!(
        callers,
        vec![
            "caller_with_loop",
            "conditional_caller",
            "cross_module_simple_caller",
            "cross_module_twice_caller",
            "recursive_and_normal_caller",
            "simple_caller",
            "twice_caller",
        ]
    );
    let callees: Vec<String> = sorted(callgraph.callees("simple_callee").unwrap());
    assert!(callees.is_empty());
}
