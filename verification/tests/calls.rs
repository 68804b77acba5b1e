#![allow(dead_code)]

use painter::calls::extract_calls;
use painter::calls::is_blocked;
use painter::count_unsafe::CountUnsafeEntry;
use painter::count_unsafe::CountUnsafeResult;
use painter::ir::BasicBlock;
use painter::ir::Call;
use painter::ir::Callee;
use painter::ir::Function;
use painter::ir::FunctionType;
use painter::ir::Module;
use painter::ir::Name;
use painter::ir::Terminator;
use painter::ModuleAnalysis;

fn sorted<T: Ord>(mut items: Vec<T>) -> Vec<T> {
    items.sort();
    items
}

fn int_fn(params: usize) -> FunctionType {
    FunctionType {
        result_type: "i32".to_string(),
        param_types: vec!["i32".to_string(); params],
        is_var_arg: false,
    }
}

fn direct(callee: &str) -> Call {
    Call { callee: Callee::Function(callee.to_string()), callee_ty: int_fn(1) }
}

fn calling(name: &str, ty: FunctionType, calls: Vec<Call>) -> Function {
    Function {
        name: name.to_string(),
        ty,
        basic_blocks: vec![BasicBlock { name: Name::from(0), calls, term: Terminator::Ret }],
    }
}

const MAIN: &str = "_ZN7mycrate4main17h0123456789abcdefE";
const HELPER: &str = "_ZN7mycrate6helper17hfedcba9876543210E";
const PRINT: &str = "_ZN3std2io5stdio6_print17h0123456789abcdefE";

#[test]
fn calls_are_listed_under_readable_names() {
    let module = Module {
        name: "mycrate".to_string(),
        functions: vec![
            calling(MAIN, int_fn(0), vec![direct(HELPER), direct(PRINT), direct("plain_c_function")]),
            calling(HELPER, int_fn(1), vec![direct("llvm.memcpy.p0i8.p0i8.i64"), direct(HELPER)]),
        ],
    };
    let calls = sorted(extract_calls(&vec![module]));
    assert_eq!(
        calls,
        vec![
            ("mycrate::helper".to_string(), "mycrate::helper".to_string()),
            ("mycrate::main".to_string(), "mycrate::helper".to_string()),
            ("mycrate::main".to_string(), "plain_c_function".to_string()),
        ]
    );
}

#[test]
fn no_modules_no_calls() {
    assert_eq!(extract_calls(&vec![]), vec![]);
}

#[test]
fn blocked_names() {
    assert!(is_blocked("llvm.lifetime.start.p0i8"));
    assert!(is_blocked("__rust_alloc"));
    assert!(is_blocked("std::rt::lang_start"));
    assert!(is_blocked("core::fmt::write"));
    assert!(is_blocked("alloc::vec::Vec<T>::push"));
    assert!(is_blocked("<mycrate::T as core::fmt::Debug>::fmt"));
    assert!(!is_blocked("mycrate::main"));
    assert!(!is_blocked("llvm"));
    assert!(!is_blocked("std"));
    assert!(!is_blocked(""));
}

#[test]
fn indirect_calls_reach_every_function_of_the_type() {
    let through_pointer = Call { callee: Callee::Value, callee_ty: int_fn(2) };
    let constant = Call { callee: Callee::Constant, callee_ty: int_fn(3) };
    let assembly = Call { callee: Callee::InlineAssembly, callee_ty: int_fn(2) };
    let variadic = Call {
        callee: Callee::Value,
        callee_ty: FunctionType {
            result_type: "i32".to_string(),
            param_types: vec!["i32".to_string(); 2],
            is_var_arg: true,
        },
    };
    let module = Module {
        name: "m".to_string(),
        functions: vec![
            calling("add", int_fn(2), vec![]),
            calling("sub", int_fn(2), vec![]),
            calling("mul3", int_fn(3), vec![]),
            calling("by_pointer", int_fn(0), vec![through_pointer]),
            calling("by_constant", int_fn(0), vec![constant]),
            calling("by_assembly", int_fn(0), vec![assembly]),
            calling("by_variadic", int_fn(0), vec![variadic]),
        ],
    };
    let mut analysis = ModuleAnalysis::new(&module);
    let graph = analysis.call_graph();
    assert_eq!(sorted(graph.callees("by_pointer").unwrap()), vec!["add", "sub"]);
    assert_eq!(sorted(graph.callees("by_constant").unwrap()), vec!["mul3"]);
    assert_eq!(graph.callees("by_assembly").unwrap(), Vec::<String>::new());
    assert_eq!(graph.callees("by_variadic").unwrap(), Vec::<String>::new());
    assert_eq!(sorted(graph.callers("add").unwrap()), vec!["by_pointer"]);
    assert_eq!(
        sorted(graph.all_calls()),
        vec![
            ("by_constant".to_string(), "mul3".to_string()),
            ("by_pointer".to_string(), "add".to_string()),
            ("by_pointer".to_string(), "sub".to_string()),
        ]
    );
    assert_eq!(
        graph.functions(),
        vec!["add", "sub", "mul3", "by_pointer", "by_constant", "by_assembly", "by_variadic"]
    );
    assert_eq!(graph.inner().node_count(), 7);
    assert_eq!(graph.inner().edge_count(), 3);
}

#[test]
fn invoke_terminators_are_calls() {
    let module = Module {
        name: "m".to_string(),
        functions: vec![
            Function {
                name: "thrower".to_string(),
                ty: int_fn(0),
                basic_blocks: vec![
                    BasicBlock {
                        name: Name::from(0),
                        calls: vec![],
                        term: Terminator::Invoke {
                            call: direct("may_throw"),
                            return_label: Name::from(1),
                            exception_label: Name::from(2),
                        },
                    },
                    BasicBlock { name: Name::from(1), calls: vec![], term: Terminator::Ret },
                    BasicBlock { name: Name::from(2), calls: vec![], term: Terminator::Resume },
                ],
            },
        ],
    };
    let mut analysis = ModuleAnalysis::new(&module);
    let graph = analysis.call_graph();
    assert_eq!(graph.callees("thrower").unwrap(), vec!["may_throw"]);
    assert_eq!(graph.callers("may_throw").unwrap(), vec!["thrower"]);
}

#[test]
fn a_call_into_another_module() {
    let a = Module {
        name: "a".to_string(),
        functions: vec![calling("caller_in_a", int_fn(0), vec![direct("callee_in_b")])],
    };
    let b = Module {
        name: "b".to_string(),
        functions: vec![calling("callee_in_b", int_fn(1), vec![])],
    };
    let mut both = painter::CrossModuleAnalysis::new(vec![&a, &b]);
    assert_eq!(both.call_graph().callers("callee_in_b").unwrap(), vec!["caller_in_a"]);
    assert_eq!(both.call_graph().callees("caller_in_a").unwrap(), vec!["callee_in_b"]);
    // the module of the callee knows nothing of the caller
    let mut only_b = ModuleAnalysis::new(&b);
    assert_eq!(only_b.call_graph().callers("callee_in_b").unwrap(), Vec::<String>::new());
    assert!(only_b.call_graph().callees("caller_in_a").is_err());
    // the module of the caller holds the call as one to a function that it
    // does not define
    let mut only_a = ModuleAnalysis::new(&a);
    assert_eq!(only_a.call_graph().callees("caller_in_a").unwrap(), vec!["callee_in_b"]);
    assert_eq!(only_a.call_graph().callees("callee_in_b").unwrap(), Vec::<String>::new());
    // each module's own analysis within the combined analysis is the same
    assert_eq!(
        both.module_analysis("b").unwrap().call_graph().callers("callee_in_b").unwrap(),
        Vec::<String>::new()
    );
}

#[test]
fn unsafe_counts() {
    let entry = |safe, unsafe_| CountUnsafeEntry { safe, unsafe_ };
    let none = CountUnsafeResult {
        functions: entry(3, 0),
        exprs: entry(10, 0),
        item_impls: entry(1, 0),
        item_traits: entry(0, 0),
        methods: entry(4, 0),
    };
    assert!(!none.has_unsafe());
    assert_eq!(none.total_unsafe(), 0);
    let some = CountUnsafeResult {
        functions: entry(3, 1),
        exprs: entry(10, 20),
        item_impls: entry(1, 0),
        item_traits: entry(0, 2),
        methods: entry(4, 3),
    };
    assert!(some.has_unsafe());
    assert_eq!(some.total_unsafe(), 26);
    assert_eq!(some.checked_total_unsafe(), Some(26));
    let many = CountUnsafeResult {
        functions: entry(0, u32::MAX),
        exprs: entry(0, 1),
        item_impls: entry(0, 0),
        item_traits: entry(0, 0),
        methods: entry(0, 0),
    };
    assert!(many.has_unsafe());
    assert_eq!(many.checked_total_unsafe(), None);
}
