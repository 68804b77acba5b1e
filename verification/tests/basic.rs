#![allow(unused_imports, dead_code)]

use painter::ir::BasicBlock;
use painter::ir::Call;
use painter::ir::Callee;
use painter::ir::Function;
use painter::ir::FunctionType;
use painter::ir::Module;
use painter::ir::Name;
use painter::ir::Terminator;
use painter::CFGNode;
use painter::ModuleAnalysis;

fn sorted<T: Ord>(mut items: Vec<T>) -> Vec<T> {
    items.sort();
    items
}

fn func_type(result: &str, params: Vec<&str>, is_var_arg: bool) -> FunctionType {
    FunctionType {
        result_type: result.to_string(),
        param_types: params.into_iter().map(|p| p.to_string()).collect(),
        is_var_arg,
    }
}

fn block(name: Name, term: Terminator) -> BasicBlock {
    BasicBlock { name, calls: vec![], term }
}

fn ret(number: usize) -> BasicBlock {
    block(Name::from(number), Terminator::Ret)
}

fn br(number: usize, dest: usize) -> BasicBlock {
    block(Name::from(number), Terminator::Br { dest: Name::from(dest) })
}

fn condbr(number: usize, true_dest: usize, false_dest: usize) -> BasicBlock {
    block(
        Name::from(number),
        Terminator::CondBr { true_dest: Name::from(true_dest), false_dest: Name::from(false_dest) },
    )
}

fn function(name: &str, ty: FunctionType, basic_blocks: Vec<BasicBlock>) -> Function {
    Function { name: name.to_string(), ty, basic_blocks }
}

fn i32_fn(params: usize) -> FunctionType {
    func_type("i32", vec!["i32"; params], false)
}

fn trivial(name: &str, ty: FunctionType) -> Function {
    let entry = ty.param_types.len();
    function(name, ty, vec![ret(entry)])
}

fn diamond(name: &str) -> Function {
    function(name, i32_fn(2), vec![condbr(2, 4, 8), br(4, 12), br(8, 12), ret(12)])
}

/// The functions of a small C file: straight-line functions, conditionals
/// and a switch.
fn basic_module() -> Module {
    let switch = block(
        Name::from(2),
        Terminator::Switch {
            dests: vec![
                Name::from(4),
                Name::from(5),
                Name::from(7),
                Name::from(10),
                Name::from(11),
                Name::from(12),
            ],
            default_dest: Name::from(14),
        },
    );
    Module {
        name: "basic".to_string(),
        functions: vec![
            trivial("no_args_zero", i32_fn(0)),
            trivial("no_args_nozero", i32_fn(0)),
            trivial("one_arg", i32_fn(1)),
            trivial("two_args", i32_fn(2)),
            trivial("three_args", i32_fn(3)),
            trivial("four_args", i32_fn(4)),
            trivial("five_args", i32_fn(5)),
            trivial("binops", i32_fn(2)),
            diamond("conditional_true"),
            diamond("conditional_false"),
            function(
                "conditional_nozero",
                i32_fn(2),
                vec![
                    condbr(2, 14, 4),
                    condbr(4, 6, 8),
                    br(6, 14),
                    condbr(8, 10, 12),
                    br(10, 14),
                    br(12, 14),
                    ret(14),
                ],
            ),
            trivial("conditional_with_and", i32_fn(2)),
            function(
                "has_switch",
                i32_fn(2),
                vec![switch, br(4, 14), br(5, 14), br(7, 14), br(10, 14), br(11, 14), br(12, 14), ret(14)],
            ),
            trivial("int8t", func_type("i8", vec!["i8", "i8"], false)),
            trivial("int16t", func_type("i16", vec!["i16", "i16"], false)),
            trivial("int32t", i32_fn(2)),
            trivial("int64t", func_type("i64", vec!["i64", "i64"], false)),
            trivial("mixed_bitwidths", func_type("i64", vec!["i8", "i16", "i32", "i64"], false)),
        ],
    }
}

/// Function names in the basic module
const FUNC_NAMES: &'static [&'static str] = &[
    "no_args_zero",
    "no_args_nozero",
    "one_arg",
    "two_args",
    "three_args",
    "four_args",
    "five_args",
    "binops",
    "conditional_true",
    "conditional_false",
    "conditional_nozero",
    "conditional_with_and",
    "has_switch",
    "int8t",
    "int16t",
    "int32t",
    "int64t",
    "mixed_bitwidths",
];

#[test]
fn basic_call_graph() {
    let module = basic_module();
    let mut analysis = ModuleAnalysis::new(&module);
    let callgraph = analysis.call_graph();

    // none of these functions have calls or are called
    for func_name in FUNC_NAMES {
        assert_eq!(callgraph.callers(func_name).unwrap().len(), 0);
        assert_eq!(callgraph.callees(func_name).unwrap().len(), 0);
    }
}

#[test]
fn functions_by_type() {
    let module = basic_module();
    let mut analysis = ModuleAnalysis::new(&module);
    let fbt = analysis.functions_by_type();

    let functy = func_type("void", vec![], false);
    assert_eq!(fbt.functions_with_type(&functy).len(), 0);

    let functy = func_type("i32", vec![], false);
    let func_names: Vec<String> = sorted(fbt.functions_with_type(&functy));
    assert_eq!(func_names, vec!["no_args_nozero", "no_args_zero"]);

    let functy = func_type("i32", vec!["i32"], false);
    let func_names: Vec<String> = sorted(fbt.functions_with_type(&functy));
    assert_eq!(func_names, vec!["one_arg"]);

    let functy = func_type(
        "i32",
        vec!["i32", "i32"],
        false,
    );
    let func_names: Vec<String> = sorted(fbt.functions_with_type(&functy));
    assert_eq!(
        func_names,
        vec![
            "binops",
            "conditional_false",
            "conditional_nozero",
            "conditional_true",
            "conditional_with_and",
            "has_switch",
            "int32t",
            "two_args",
        ]
    );

    let functy = func_type(
        "i32",
        vec!["i32", "i32", "i32"],
        false,
    );
    let func_names: Vec<String> = sorted(fbt.functions_with_type(&functy));
    assert_eq!(func_names, vec!["three_args"]);

    let functy = func_type(
        "i32",
        vec![
            "i32",
            "i32",
            "i32",
            "i32",
        ],
        false,
    );
    let func_names: Vec<String> = sorted(fbt.functions_with_type(&functy));
    assert_eq!(func_names, vec!["four_args"]);

    let functy = func_type(
        "i32",
        vec![
            "i32",
            "i32",
            "i32",
            "i32",
            "i32",
        ],
        false,
    );
    let func_names: Vec<String> = sorted(fbt.functions_with_type(&functy));
    assert_eq!(func_names, vec!["five_args"]);

    let functy = func_type(
        "i8",
        vec!["i8", "i8"],
        false,
    );
    let func_names: Vec<String> = sorted(fbt.functions_with_type(&functy));
    assert_eq!(func_names, vec!["int8t"]);

    let functy = func_type(
        "i16",
        vec!["i16", "i16"],
        false,
    );
    let func_names: Vec<String> = sorted(fbt.functions_with_type(&functy));
    assert_eq!(func_names, vec!["int16t"]);

    let functy = func_type(
        "i64",
        vec!["i64", "i64"],
        false,
    );
    let func_names: Vec<String> = sorted(fbt.functions_with_type(&functy));
    assert_eq!(func_names, vec!["int64t"]);

    let functy = func_type(
        "i64",
        vec![
            "i8",
            "i16",
            "i32",
            "i64",
        ],
        false,
    );
    let func_names: Vec<String> = sorted(fbt.functions_with_type(&functy));
    assert_eq!(func_names, vec!["mixed_bitwidths"]);
}

#[test]
fn trivial_cfgs() {
    let module = basic_module();
    let mut analysis = ModuleAnalysis::new(&module);

    for func_name in &[
        "no_args_zero",
        "no_args_nozero",
        "one_arg",
        "two_args",
        "three_args",
        "four_args",
        "five_args",
        "binops",
        "conditional_with_and",
        "int8t",
        "int16t",
        "int32t",
        "int64t",
        "mixed_bitwidths",
    ] {
        let cfg = analysis.fn_analysis(func_name).unwrap().control_flow_graph().unwrap();
        let entry = cfg.entry();
        assert_eq!(cfg.preds(entry).unwrap().len(), 0);
        let succs = cfg.succs(entry).unwrap();
        assert_eq!(succs, vec![CFGNode::Return]);
    }
}

#[test]
fn conditional_true_cfg() {
    let module = basic_module();
    let mut analysis = ModuleAnalysis::new(&module);
    let cfg = analysis
        .fn_analysis("conditional_true").unwrap()
        .control_flow_graph().unwrap();

    // CFG:
    //     2
    //   /   \
    //  4     8
    //   \   /
    //    12

    let bb2_name = Name::from(2);
    let _bb2_node = CFGNode::Block(bb2_name.clone());
    let bb4_name = Name::from(4);
    let bb4_node = CFGNode::Block(bb4_name.clone());
    let bb8_name = Name::from(8);
    let bb8_node = CFGNode::Block(bb8_name.clone());
    let bb12_name = Name::from(12);
    let bb12_node = CFGNode::Block(bb12_name.clone());

    let bb2_preds: Vec<Name> = sorted(cfg.preds(&bb2_name).unwrap());
    assert!(bb2_preds.is_empty());
    let bb2_succs: Vec<CFGNode> = sorted(cfg.succs(&bb2_name).unwrap());
    assert_eq!(bb2_succs, vec![bb4_node.clone(), bb8_node.clone()]);

    let bb4_preds: Vec<Name> = sorted(cfg.preds(&bb4_name).unwrap());
    assert_eq!(bb4_preds, vec![bb2_name.clone()]);
    let bb4_succs: Vec<CFGNode> = sorted(cfg.succs(&bb4_name).unwrap());
    assert_eq!(bb4_succs, vec![bb12_node.clone()]);

    let bb8_preds: Vec<Name> = sorted(cfg.preds(&bb8_name).unwrap());
    assert_eq!(bb8_preds, vec![bb2_name.clone()]);
    let bb8_succs: Vec<CFGNode> = sorted(cfg.succs(&bb8_name).unwrap());
    assert_eq!(bb8_succs, vec![bb12_node.clone()]);

    let bb12_preds: Vec<Name> = sorted(cfg.preds(&bb12_name).unwrap());
    assert_eq!(bb12_preds, vec![bb4_name.clone(), bb8_name.clone()]);
    let bb12_succs: Vec<CFGNode> = sorted(cfg.succs(&bb12_name).unwrap());
    assert_eq!(bb12_succs, vec![CFGNode::Return]);
}

#[test]
fn conditional_false_cfg() {
    let module = basic_module();
    let mut analysis = ModuleAnalysis::new(&module);
    let cfg = analysis
        .fn_analysis("conditional_false").unwrap()
        .control_flow_graph().unwrap();

    // CFG:
    //     2
    //   /   \
    //  4     8
    //   \   /
    //    12

    let bb2_name = Name::from(2);
    let _bb2_node = CFGNode::Block(bb2_name.clone());
    let bb4_name = Name::from(4);
    let bb4_node = CFGNode::Block(bb4_name.clone());
    let bb8_name = Name::from(8);
    let bb8_node = CFGNode::Block(bb8_name.clone());
    let bb12_name = Name::from(12);
    let bb12_node = CFGNode::Block(bb12_name.clone());

    let bb2_preds: Vec<Name> = sorted(cfg.preds(&bb2_name).unwrap());
    assert!(bb2_preds.is_empty());
    let bb2_succs: Vec<CFGNode> = sorted(cfg.succs(&bb2_name).unwrap());
    assert_eq!(bb2_succs, vec![bb4_node.clone(), bb8_node.clone()]);

    let bb4_preds: Vec<Name> = sorted(cfg.preds(&bb4_name).unwrap());
    assert_eq!(bb4_preds, vec![bb2_name.clone()]);
    let bb4_succs: Vec<CFGNode> = sorted(cfg.succs(&bb4_name).unwrap());
    assert_eq!(bb4_succs, vec![bb12_node.clone()]);

    let bb8_preds: Vec<Name> = sorted(cfg.preds(&bb8_name).unwrap());
    assert_eq!(bb8_preds, vec![bb2_name.clone()]);
    let bb8_succs: Vec<CFGNode> = sorted(cfg.succs(&bb8_name).unwrap());
    assert_eq!(bb8_succs, vec![bb12_node.clone()]);

    let bb12_preds: Vec<Name> = sorted(cfg.preds(&bb12_name).unwrap());
    assert_eq!(bb12_preds, vec![bb4_name.clone(), bb8_name.clone()]);
    let bb12_succs: Vec<CFGNode> = sorted(cfg.succs(&bb12_name).unwrap());
    assert_eq!(bb12_succs, vec![CFGNode::Return]);
}

#[test]
fn conditional_nozero_cfg() {
    let module = basic_module();
    let mut analysis = ModuleAnalysis::new(&module);
    let cfg = analysis
        .fn_analysis("conditional_nozero").unwrap()
        .control_flow_graph().unwrap();

    // CFG:
    //  2
    //  | \
    //  |  4
    //  |  | \
    //  |  |  8
    //  |  6  | \
    //  |  |  10 12
    //  |  |  |  |
    //  |  |  | /
    //   \ | / /
    //     14

    let bb2_name = Name::from(2);
    let _bb2_node = CFGNode::Block(bb2_name.clone());
    let bb4_name = Name::from(4);
    let bb4_node = CFGNode::Block(bb4_name.clone());
    let bb6_name = Name::from(6);
    let bb6_node = CFGNode::Block(bb6_name.clone());
    let bb8_name = Name::from(8);
    let bb8_node = CFGNode::Block(bb8_name.clone());
    let bb10_name = Name::from(10);
    let bb10_node = CFGNode::Block(bb10_name.clone());
    let bb12_name = Name::from(12);
    let bb12_node = CFGNode::Block(bb12_name.clone());
    let bb14_name = Name::from(14);
    let bb14_node = CFGNode::Block(bb14_name.clone());

    let bb2_preds: Vec<Name> = sorted(cfg.preds(&bb2_name).unwrap());
    assert!(bb2_preds.is_empty());
    let bb2_succs: Vec<CFGNode> = sorted(cfg.succs(&bb2_name).unwrap());
    assert_eq!(bb2_succs, vec![bb4_node.clone(), bb14_node.clone()]);

    let bb4_preds: Vec<Name> = sorted(cfg.preds(&bb4_name).unwrap());
    assert_eq!(bb4_preds, vec![bb2_name.clone()]);
    let bb4_succs: Vec<CFGNode> = sorted(cfg.succs(&bb4_name).unwrap());
    assert_eq!(bb4_succs, vec![bb6_node.clone(), bb8_node.clone()]);

    let bb6_preds: Vec<Name> = sorted(cfg.preds(&bb6_name).unwrap());
    assert_eq!(bb6_preds, vec![bb4_name.clone()]);
    let bb6_succs: Vec<CFGNode> = sorted(cfg.succs(&bb6_name).unwrap());
    assert_eq!(bb6_succs, vec![bb14_node.clone()]);

    let bb8_preds: Vec<Name> = sorted(cfg.preds(&bb8_name).unwrap());
    assert_eq!(bb8_preds, vec![bb4_name.clone()]);
    let bb8_succs: Vec<CFGNode> = sorted(cfg.succs(&bb8_name).unwrap());
    assert_eq!(bb8_succs, vec![bb10_node.clone(), bb12_node.clone()]);

    let bb10_preds: Vec<Name> = sorted(cfg.preds(&bb10_name).unwrap());
    assert_eq!(bb10_preds, vec![bb8_name.clone()]);
    let bb10_succs: Vec<CFGNode> = sorted(cfg.succs(&bb10_name).unwrap());
    assert_eq!(bb10_succs, vec![bb14_node.clone()]);

    let bb12_preds: Vec<Name> = sorted(cfg.preds(&bb12_name).unwrap());
    assert_eq!(bb12_preds, vec![bb8_name.clone()]);
    let bb12_succs: Vec<CFGNode> = sorted(cfg.succs(&bb12_name).unwrap());
    assert_eq!(bb12_succs, vec![bb14_node.clone()]);

    let bb14_preds: Vec<Name> = sorted(cfg.preds(&bb14_name).unwrap());
    assert_eq!(
        bb14_preds,
        vec![bb2_name.clone(), bb6_name.clone(), bb10_name.clone(), bb12_name.clone()]
    );
    let bb14_succs: Vec<CFGNode> = sorted(cfg.succs(&bb14_name).unwrap());
    assert_eq!(bb14_succs, vec![CFGNode::Return]);
}

#[test]
fn has_switch_cfg() {
    let module = basic_module();
    let mut analysis = ModuleAnalysis::new(&module);
    let cfg = analysis.fn_analysis("has_switch").unwrap().control_flow_graph().unwrap();

    // CFG:
    //           2
    //     ___ / | \ ___
    //   /  / |  |  | \  \
    //  |  |  |  |  |  \  \
    //  |  |  |  |  |   |  \
    //  4  5  7  |  10  11  12
    //   \  \  \ | /   /   /
    //    \  \ _ | __ /   /
    //     \ ___ | _____ /
    //           |
    //           14

    let bb2_name = Name::from(2);
    let _bb2_node = CFGNode::Block(bb2_name.clone());
    let bb4_name = Name::from(4);
    let bb4_node = CFGNode::Block(bb4_name.clone());
    let bb5_name = Name::from(5);
    let bb5_node = CFGNode::Block(bb5_name.clone());
    let bb7_name = Name::from(7);
    let bb7_node = CFGNode::Block(bb7_name.clone());
    let bb10_name = Name::from(10);
    let bb10_node = CFGNode::Block(bb10_name.clone());
    let bb11_name = Name::from(11);
    let bb11_node = CFGNode::Block(bb11_name.clone());
    let bb12_name = Name::from(12);
    let bb12_node = CFGNode::Block(bb12_name.clone());
    let bb14_name = Name::from(14);
    let bb14_node = CFGNode::Block(bb14_name.clone());

    let bb2_preds: Vec<Name> = sorted(cfg.preds(&bb2_name).unwrap());
    assert!(bb2_preds.is_empty());
    let bb2_succs: Vec<CFGNode> = sorted(cfg.succs(&bb2_name).unwrap());
    assert_eq!(
        bb2_succs,
        vec![bb4_node.clone(), bb5_node.clone(), bb7_node.clone(), bb10_node.clone(), bb11_node.clone(), bb12_node.clone(), bb14_node.clone(),]
    );

    let bb4_preds: Vec<Name> = sorted(cfg.preds(&bb4_name).unwrap());
    assert_eq!(bb4_preds, vec![bb2_name.clone()]);
    let bb4_succs: Vec<CFGNode> = sorted(cfg.succs(&bb4_name).unwrap());
    assert_eq!(bb4_succs, vec![bb14_node.clone()]);

    let bb5_preds: Vec<Name> = sorted(cfg.preds(&bb5_name).unwrap());
    assert_eq!(bb5_preds, vec![bb2_name.clone()]);
    let bb5_succs: Vec<CFGNode> = sorted(cfg.succs(&bb5_name).unwrap());
    assert_eq!(bb5_succs, vec![bb14_node.clone()]);

    let bb7_preds: Vec<Name> = sorted(cfg.preds(&bb7_name).unwrap());
    assert_eq!(bb7_preds, vec![bb2_name.clone()]);
    let bb7_succs: Vec<CFGNode> = sorted(cfg.succs(&bb7_name).unwrap());
    assert_eq!(bb7_succs, vec![bb14_node.clone()]);

    let bb10_preds: Vec<Name> = sorted(cfg.preds(&bb10_name).unwrap());
    assert_eq!(bb10_preds, vec![bb2_name.clone()]);
    let bb10_succs: Vec<CFGNode> = sorted(cfg.succs(&bb10_name).unwrap());
    assert_eq!(bb10_succs, vec![bb14_node.clone()]);

    let bb11_preds: Vec<Name> = sorted(cfg.preds(&bb11_name).unwrap());
    assert_eq!(bb11_preds, vec![bb2_name.clone()]);
    let bb11_succs: Vec<CFGNode> = sorted(cfg.succs(&bb11_name).unwrap());
    assert_eq!(bb11_succs, vec![bb14_node.clone()]);

    let bb12_preds: Vec<Name> = sorted(cfg.preds(&bb12_name).unwrap());
    assert_eq!(bb12_preds, vec![bb2_name.clone()]);
    let bb12_succs: Vec<CFGNode> = sorted(cfg.succs(&bb12_name).unwrap());
    assert_eq!(bb12_succs, vec![bb14_node.clone()]);

    let bb14_preds: Vec<Name> = sorted(cfg.preds(&bb14_name).unwrap());
    assert_eq!(
        bb14_preds,
        vec![bb2_name.clone(), bb4_name.clone(), bb5_name.clone(), bb7_name.clone(), bb10_name.clone(), bb11_name.clone(), bb12_name.clone(),]
    );
    let bb14_succs: Vec<CFGNode> = sorted(cfg.succs(&bb14_name).unwrap());
    assert_eq!(bb14_succs, vec![CFGNode::Return]);
}

#[test]
fn trivial_domtrees() {
    let module = basic_module();
    let mut analysis = ModuleAnalysis::new(&module);

    for func_name in &[
        "no_args_zero",
        "no_args_nozero",
        "one_arg",
        "two_args",
        "three_args",
        "four_args",
        "five_args",
        "binops",
        "conditional_with_and",
        "int8t",
        "int16t",
        "int32t",
        "int64t",
        "mixed_bitwidths",
    ] {
        let domtree = analysis.fn_analysis(func_name).unwrap().dominator_tree().unwrap();
        let entry = &domtree.entry().clone();
        assert_eq!(domtree.idom(entry).unwrap(), None);
        assert_eq!(
            domtree.children(entry).unwrap(),
            vec![CFGNode::Return]
        );
        assert_eq!(
            domtree.dominates(&CFGNode::Block(entry.clone()), &CFGNode::Block(entry.clone())),
            true
        );
        assert_eq!(
            domtree.dominates(&CFGNode::Block(entry.clone()), &CFGNode::Return),
            true
        );
        assert_eq!(
            domtree.dominates(&CFGNode::Return, &CFGNode::Block(entry.clone())),
            false
        );
        assert_eq!(domtree.dominates(&CFGNode::Return, &CFGNode::Return), true);
        assert_eq!(
            domtree.strictly_dominates(&CFGNode::Block(entry.clone()), &CFGNode::Block(entry.clone())),
            false
        );
        assert_eq!(
            domtree.strictly_dominates(&CFGNode::Block(entry.clone()), &CFGNode::Return),
            true
        );
        assert_eq!(
            domtree.strictly_dominates(&CFGNode::Return, &CFGNode::Block(entry.clone())),
            false
        );
        assert_eq!(
            domtree.strictly_dominates(&CFGNode::Return, &CFGNode::Return),
            false
        );

        let postdomtree = analysis.fn_analysis(func_name).unwrap().postdominator_tree().unwrap();
        assert_eq!(postdomtree.ipostdom(entry).unwrap(), Some(CFGNode::Return));
        assert_eq!(postdomtree.children(entry).unwrap().len(), 0);
        assert_eq!(
            postdomtree.postdominates(&CFGNode::Block(entry.clone()), &CFGNode::Block(entry.clone())),
            true
        );
        assert_eq!(
            postdomtree.postdominates(&CFGNode::Block(entry.clone()), &CFGNode::Return),
            false
        );
        assert_eq!(
            postdomtree.postdominates(&CFGNode::Return, &CFGNode::Block(entry.clone())),
            true
        );
        assert_eq!(
            postdomtree.postdominates(&CFGNode::Return, &CFGNode::Return),
            true
        );
        assert_eq!(
            postdomtree.strictly_postdominates(&CFGNode::Block(entry.clone()), &CFGNode::Block(entry.clone())),
            false
        );
        assert_eq!(
            postdomtree.strictly_postdominates(&CFGNode::Block(entry.clone()), &CFGNode::Return),
            false
        );
        assert_eq!(
            postdomtree.strictly_postdominates(&CFGNode::Return, &CFGNode::Block(entry.clone())),
            true
        );
        assert_eq!(
            postdomtree.strictly_postdominates(&CFGNode::Return, &CFGNode::Return),
            false
        );
    }
}

#[test]
fn conditional_true_domtree() {
    let module = basic_module();
    let mut analysis = ModuleAnalysis::new(&module);

    // CFG:
    //     2
    //   /   \
    //  4     8
    //   \   /
    //    12

    let bb2_name = Name::from(2);
    let _bb2_node = CFGNode::Block(bb2_name.clone());
    let bb4_name = Name::from(4);
    let bb4_node = CFGNode::Block(bb4_name.clone());
    let bb8_name = Name::from(8);
    let bb8_node = CFGNode::Block(bb8_name.clone());
    let bb12_name = Name::from(12);
    let bb12_node = CFGNode::Block(bb12_name.clone());

    let domtree = analysis.fn_analysis("conditional_true").unwrap().dominator_tree().unwrap();

    assert_eq!(domtree.idom(&bb2_name).unwrap(), None);
    let children: Vec<CFGNode> = sorted(domtree.children(&bb2_name).unwrap());
    assert_eq!(children, vec![bb4_node.clone(), bb8_node.clone(), bb12_node.clone()]);

    assert_eq!(domtree.idom(&bb4_name).unwrap(), Some(bb2_name.clone()));
    let children: Vec<CFGNode> = sorted(domtree.children(&bb4_name).unwrap());
    assert!(children.is_empty());

    assert_eq!(domtree.idom(&bb8_name).unwrap(), Some(bb2_name.clone()));
    let children: Vec<CFGNode> = sorted(domtree.children(&bb8_name).unwrap());
    assert!(children.is_empty());

    assert_eq!(domtree.idom(&bb8_name).unwrap(), Some(bb2_name.clone()));
    let children: Vec<CFGNode> = sorted(domtree.children(&bb12_name).unwrap());
    assert_eq!(children, vec![CFGNode::Return]);

    assert_eq!(
        domtree.dominates(&CFGNode::Block(bb2_name.clone()), &CFGNode::Block(bb4_name.clone())),
        true
    );
    assert_eq!(
        domtree.dominates(&CFGNode::Block(bb2_name.clone()), &CFGNode::Block(bb8_name.clone())),
        true
    );
    assert_eq!(
        domtree.dominates(&CFGNode::Block(bb2_name.clone()), &CFGNode::Block(bb12_name.clone())),
        true
    );
    assert_eq!(
        domtree.dominates(&CFGNode::Block(bb4_name.clone()), &CFGNode::Block(bb12_name.clone())),
        false
    );
    assert_eq!(
        domtree.dominates(&CFGNode::Block(bb12_name.clone()), &CFGNode::Block(bb2_name.clone())),
        false
    );

    let postdomtree = analysis
        .fn_analysis("conditional_true").unwrap()
        .postdominator_tree().unwrap();
    assert_eq!(postdomtree.ipostdom(&bb2_name).unwrap(), Some(bb12_node.clone()));
    assert_eq!(postdomtree.ipostdom(&bb4_name).unwrap(), Some(bb12_node.clone()));
    assert_eq!(postdomtree.ipostdom(&bb8_name).unwrap(), Some(bb12_node.clone()));
    assert_eq!(postdomtree.ipostdom(&bb12_name).unwrap(), Some(CFGNode::Return));
    assert_eq!(
        postdomtree.postdominates(&CFGNode::Block(bb12_name.clone()), &CFGNode::Block(bb2_name.clone())),
        true
    );
    assert_eq!(
        postdomtree.postdominates(&CFGNode::Block(bb4_name.clone()), &CFGNode::Block(bb2_name.clone())),
        false
    );
    assert_eq!(
        postdomtree.postdominates(&CFGNode::Block(bb12_name.clone()), &CFGNode::Block(bb4_name.clone())),
        true
    );
    assert_eq!(
        postdomtree.postdominates(&CFGNode::Block(bb2_name.clone()), &CFGNode::Block(bb12_name.clone())),
        false
    );
}

#[test]
fn conditional_false_domtree() {
    let module = basic_module();
    let mut analysis = ModuleAnalysis::new(&module);

    // CFG:
    //     2
    //   /   \
    //  4     8
    //   \   /
    //    12

    let bb2_name = Name::from(2);
    let _bb2_node = CFGNode::Block(bb2_name.clone());
    let bb4_name = Name::from(4);
    let bb4_node = CFGNode::Block(bb4_name.clone());
    let bb8_name = Name::from(8);
    let bb8_node = CFGNode::Block(bb8_name.clone());
    let bb12_name = Name::from(12);
    let bb12_node = CFGNode::Block(bb12_name.clone());

    let domtree = analysis.fn_analysis("conditional_false").unwrap().dominator_tree().unwrap();

    assert_eq!(domtree.idom(&bb2_name).unwrap(), None);
    let children: Vec<CFGNode> = sorted(domtree.children(&bb2_name).unwrap());
    assert_eq!(children, vec![bb4_node.clone(), bb8_node.clone(), bb12_node.clone()]);

    assert_eq!(domtree.idom(&bb4_name).unwrap(), Some(bb2_name.clone()));
    let children: Vec<CFGNode> = sorted(domtree.children(&bb4_name).unwrap());
    assert!(children.is_empty());

    assert_eq!(domtree.idom(&bb8_name).unwrap(), Some(bb2_name.clone()));
    let children: Vec<CFGNode> = sorted(domtree.children(&bb8_name).unwrap());
    assert!(children.is_empty());

    assert_eq!(domtree.idom(&bb8_name).unwrap(), Some(bb2_name.clone()));
    let children: Vec<CFGNode> = sorted(domtree.children(&bb12_name).unwrap());
    assert_eq!(children, vec![CFGNode::Return]);

    assert_eq!(
        domtree.dominates(&CFGNode::Block(bb2_name.clone()), &CFGNode::Block(bb4_name.clone())),
        true
    );
    assert_eq!(
        domtree.dominates(&CFGNode::Block(bb2_name.clone()), &CFGNode::Block(bb8_name.clone())),
        true
    );
    assert_eq!(
        domtree.dominates(&CFGNode::Block(bb2_name.clone()), &CFGNode::Block(bb12_name.clone())),
        true
    );
    assert_eq!(
        domtree.dominates(&CFGNode::Block(bb4_name.clone()), &CFGNode::Block(bb12_name.clone())),
        false
    );
    assert_eq!(
        domtree.dominates(&CFGNode::Block(bb12_name.clone()), &CFGNode::Block(bb2_name.clone())),
        false
    );

    let postdomtree = analysis
        .fn_analysis("conditional_false").unwrap()
        .postdominator_tree().unwrap();
    assert_eq!(postdomtree.ipostdom(&bb2_name).unwrap(), Some(bb12_node.clone()));
    assert_eq!(postdomtree.ipostdom(&bb4_name).unwrap(), Some(bb12_node.clone()));
    assert_eq!(postdomtree.ipostdom(&bb8_name).unwrap(), Some(bb12_node.clone()));
    assert_eq!(postdomtree.ipostdom(&bb12_name).unwrap(), Some(CFGNode::Return));
    assert_eq!(
        postdomtree.postdominates(&CFGNode::Block(bb12_name.clone()), &CFGNode::Block(bb2_name.clone())),
        true
    );
    assert_eq!(
        postdomtree.postdominates(&CFGNode::Block(bb4_name.clone()), &CFGNode::Block(bb2_name.clone())),
        false
    );
    assert_eq!(
        postdomtree.postdominates(&CFGNode::Block(bb12_name.clone()), &CFGNode::Block(bb4_name.clone())),
        true
    );
    assert_eq!(
        postdomtree.postdominates(&CFGNode::Block(bb2_name.clone()), &CFGNode::Block(bb12_name.clone())),
        false
    );
}

#[test]
fn conditional_nozero_domtree() {
    let module = basic_module();
    let mut analysis = ModuleAnalysis::new(&module);

    // CFG:
    //  2
    //  | \
    //  |  4
    //  |  | \
    //  |  |  8
    //  |  6  | \
    //  |  |  10 12
    //  |  |  |  |
    //  |  |  | /
    //   \ | / /
    //     14

    let domtree = analysis.fn_analysis("conditional_nozero").unwrap().dominator_tree().unwrap();
    assert_eq!(domtree.idom(&Name::from(2)).unwrap(), None);
    assert_eq!(domtree.idom(&Name::from(4)).unwrap(), Some(Name::from(2)));
    assert_eq!(domtree.idom(&Name::from(6)).unwrap(), Some(Name::from(4)));
    assert_eq!(domtree.idom(&Name::from(8)).unwrap(), Some(Name::from(4)));
    assert_eq!(domtree.idom(&Name::from(10)).unwrap(), Some(Name::from(8)));
    assert_eq!(domtree.idom(&Name::from(12)).unwrap(), Some(Name::from(8)));
    assert_eq!(domtree.idom(&Name::from(14)).unwrap(), Some(Name::from(2)));
    assert_eq!(
        domtree.dominates(&CFGNode::Block(Name::from(2)), &CFGNode::Block(Name::from(4))),
        true
    );
    assert_eq!(
        domtree.dominates(&CFGNode::Block(Name::from(2)), &CFGNode::Block(Name::from(6))),
        true
    );
    assert_eq!(
        domtree.dominates(&CFGNode::Block(Name::from(2)), &CFGNode::Block(Name::from(10))),
        true
    );
    assert_eq!(
        domtree.dominates(&CFGNode::Block(Name::from(2)), &CFGNode::Block(Name::from(14))),
        true
    );
    assert_eq!(
        domtree.dominates(&CFGNode::Block(Name::from(4)), &CFGNode::Block(Name::from(6))),
        true
    );
    assert_eq!(
        domtree.dominates(&CFGNode::Block(Name::from(8)), &CFGNode::Block(Name::from(6))),
        false
    );
    assert_eq!(
        domtree.dominates(&CFGNode::Block(Name::from(4)), &CFGNode::Block(Name::from(14))),
        false
    );
    assert_eq!(
        domtree.dominates(&CFGNode::Block(Name::from(14)), &CFGNode::Block(Name::from(2))),
        false
    );

    let postdomtree = analysis
        .fn_analysis("conditional_nozero").unwrap()
        .postdominator_tree().unwrap();
    assert_eq!(
        postdomtree.ipostdom(&Name::from(2)).unwrap(),
        Some(CFGNode::Block(Name::from(14)))
    );
    assert_eq!(
        postdomtree.ipostdom(&Name::from(4)).unwrap(),
        Some(CFGNode::Block(Name::from(14)))
    );
    assert_eq!(
        postdomtree.ipostdom(&Name::from(6)).unwrap(),
        Some(CFGNode::Block(Name::from(14)))
    );
    assert_eq!(
        postdomtree.ipostdom(&Name::from(8)).unwrap(),
        Some(CFGNode::Block(Name::from(14)))
    );
    assert_eq!(
        postdomtree.ipostdom(&Name::from(10)).unwrap(),
        Some(CFGNode::Block(Name::from(14)))
    );
    assert_eq!(
        postdomtree.ipostdom(&Name::from(12)).unwrap(),
        Some(CFGNode::Block(Name::from(14)))
    );
    assert_eq!(postdomtree.ipostdom(&Name::from(14)).unwrap(), Some(CFGNode::Return));
    assert_eq!(
        postdomtree.postdominates(&CFGNode::Block(Name::from(14)), &CFGNode::Block(Name::from(2))),
        true
    );
    assert_eq!(
        postdomtree.postdominates(&CFGNode::Block(Name::from(14)), &CFGNode::Block(Name::from(4))),
        true
    );
    assert_eq!(
        postdomtree.postdominates(&CFGNode::Block(Name::from(14)), &CFGNode::Block(Name::from(8))),
        true
    );
    assert_eq!(
        postdomtree.postdominates(&CFGNode::Block(Name::from(14)), &CFGNode::Block(Name::from(10))),
        true
    );
    assert_eq!(
        postdomtree.postdominates(&CFGNode::Block(Name::from(6)), &CFGNode::Block(Name::from(2))),
        false
    );
    assert_eq!(
        postdomtree.postdominates(&CFGNode::Block(Name::from(6)), &CFGNode::Block(Name::from(4))),
        false
    );
    assert_eq!(
        postdomtree.postdominates(&CFGNode::Block(Name::from(10)), &CFGNode::Block(Name::from(4))),
        false
    );
    assert_eq!(
        postdomtree.postdominates(&CFGNode::Block(Name::from(2)), &CFGNode::Block(Name::from(14))),
        false
    );
}

#[test]
fn has_switch_domtree() {
    let module = basic_module();
    let mut analysis = ModuleAnalysis::new(&module);

    // CFG:
    //           2
    //     ___ / | \ ___
    //   /  / |  |  | \  \
    //  |  |  |  |  |  \  \
    //  |  |  |  |  |   |  \
    //  4  5  7  |  10  11  12
    //   \  \  \ | /   /   /
    //    \  \ _ | __ /   /
    //     \ ___ | _____ /
    //           |
    //           14

    let domtree = analysis.fn_analysis("has_switch").unwrap().dominator_tree().unwrap();
    assert_eq!(domtree.idom(&Name::from(2)).unwrap(), None);
    assert_eq!(domtree.idom(&Name::from(4)).unwrap(), Some(Name::from(2)));
    assert_eq!(domtree.idom(&Name::from(5)).unwrap(), Some(Name::from(2)));
    assert_eq!(domtree.idom(&Name::from(7)).unwrap(), Some(Name::from(2)));
    assert_eq!(domtree.idom(&Name::from(10)).unwrap(), Some(Name::from(2)));
    assert_eq!(domtree.idom(&Name::from(11)).unwrap(), Some(Name::from(2)));
    assert_eq!(domtree.idom(&Name::from(12)).unwrap(), Some(Name::from(2)));
    assert_eq!(domtree.idom(&Name::from(14)).unwrap(), Some(Name::from(2)));

    let postdomtree = analysis.fn_analysis("has_switch").unwrap().postdominator_tree().unwrap();
    assert_eq!(
        postdomtree.ipostdom(&Name::from(2)).unwrap(),
        Some(CFGNode::Block(Name::from(14)))
    );
    assert_eq!(
        postdomtree.ipostdom(&Name::from(4)).unwrap(),
        Some(CFGNode::Block(Name::from(14)))
    );
    assert_eq!(
        postdomtree.ipostdom(&Name::from(5)).unwrap(),
        Some(CFGNode::Block(Name::from(14)))
    );
    assert_eq!(
        postdomtree.ipostdom(&Name::from(7)).unwrap(),
        Some(CFGNode::Block(Name::from(14)))
    );
    assert_eq!(
        postdomtree.ipostdom(&Name::from(10)).unwrap(),
        Some(CFGNode::Block(Name::from(14)))
    );
    assert_eq!(
        postdomtree.ipostdom(&Name::from(11)).unwrap(),
        Some(CFGNode::Block(Name::from(14)))
    );
    assert_eq!(
        postdomtree.ipostdom(&Name::from(12)).unwrap(),
        Some(CFGNode::Block(Name::from(14)))
    );
    assert_eq!(postdomtree.ipostdom(&Name::from(14)).unwrap(), Some(CFGNode::Return));
}

#[test]
fn trivial_control_deps() {
    let module = basic_module();
    let mut analysis = ModuleAnalysis::new(&module);

    for func_name in &[
        "no_args_zero",
        "no_args_nozero",
        "one_arg",
        "two_args",
        "three_args",
        "four_args",
        "five_args",
        "binops",
        "conditional_with_and",
        "int8t",
        "int16t",
        "int32t",
        "int64t",
        "mixed_bitwidths",
    ] {
        let cdg = analysis.fn_analysis(func_name).unwrap().control_dependence_graph().unwrap();
        let entry = cdg.entry();
        assert_eq!(cdg.get_control_dependencies(entry).unwrap().len(), 0);
        assert_eq!(cdg.get_control_dependents(entry).unwrap().len(), 0);
    }
}

#[test]
fn conditional_true_cdg() {
    let module = basic_module();
    let mut analysis = ModuleAnalysis::new(&module);

    // CFG:
    //     2
    //   /   \
    //  4     8
    //   \   /
    //    12

    let bb2_name = Name::from(2);
    let bb4_name = Name::from(4);
    let bb8_name = Name::from(8);
    let bb12_name = Name::from(12);

    let cdg = analysis
        .fn_analysis("conditional_true").unwrap()
        .control_dependence_graph().unwrap();

    let bb2_dependencies: Vec<Name> = sorted(cdg.get_control_dependencies(&bb2_name).unwrap());
    assert!(bb2_dependencies.is_empty());
    let bb2_dependents: Vec<CFGNode> = sorted(cdg.get_control_dependents(&bb2_name).unwrap());
    assert_eq!(
        bb2_dependents,
        vec![
            CFGNode::Block(Name::from(4)),
            CFGNode::Block(Name::from(8))
        ]
    );

    let bb4_dependencies: Vec<Name> = sorted(cdg.get_control_dependencies(&bb4_name).unwrap());
    assert_eq!(bb4_dependencies, vec![Name::from(2)]);
    let bb4_dependents: Vec<CFGNode> = sorted(cdg.get_control_dependents(&bb4_name).unwrap());
    assert!(bb4_dependents.is_empty());

    let bb8_dependencies: Vec<Name> = sorted(cdg.get_control_dependencies(&bb8_name).unwrap());
    assert_eq!(bb8_dependencies, vec![Name::from(2)]);
    let bb8_dependents: Vec<CFGNode> = sorted(cdg.get_control_dependents(&bb8_name).unwrap());
    assert!(bb8_dependents.is_empty());

    let bb12_dependencies: Vec<Name> = sorted(cdg.get_control_dependencies(&bb12_name).unwrap());
    assert!(bb12_dependencies.is_empty());
    let bb12_dependents: Vec<CFGNode> = sorted(cdg.get_control_dependents(&bb12_name).unwrap());
    assert!(bb12_dependents.is_empty());

    assert_eq!(cdg.is_control_dependent(&bb4_name, &bb2_name), true);
    assert_eq!(cdg.is_control_dependent(&bb8_name, &bb2_name), true);
    assert_eq!(cdg.is_control_dependent(&bb12_name, &bb2_name), false);
}

#[test]
fn conditional_false_cdg() {
    let module = basic_module();
    let mut analysis = ModuleAnalysis::new(&module);

    // CFG:
    //     2
    //   /   \
    //  4     8
    //   \   /
    //    12

    let bb2_name = Name::from(2);
    let bb4_name = Name::from(4);
    let bb8_name = Name::from(8);
    let bb12_name = Name::from(12);

    let cdg = analysis
        .fn_analysis("conditional_false").unwrap()
        .control_dependence_graph().unwrap();

    let bb2_dependencies: Vec<Name> = sorted(cdg.get_control_dependencies(&bb2_name).unwrap());
    assert!(bb2_dependencies.is_empty());
    let bb2_dependents: Vec<CFGNode> = sorted(cdg.get_control_dependents(&bb2_name).unwrap());
    assert_eq!(
        bb2_dependents,
        vec![
            CFGNode::Block(Name::from(4)),
            CFGNode::Block(Name::from(8))
        ]
    );

    let bb4_dependencies: Vec<Name> = sorted(cdg.get_control_dependencies(&bb4_name).unwrap());
    assert_eq!(bb4_dependencies, vec![Name::from(2)]);
    let bb4_dependents: Vec<CFGNode> = sorted(cdg.get_control_dependents(&bb4_name).unwrap());
    assert!(bb4_dependents.is_empty());

    let bb8_dependencies: Vec<Name> = sorted(cdg.get_control_dependencies(&bb8_name).unwrap());
    assert_eq!(bb8_dependencies, vec![Name::from(2)]);
    let bb8_dependents: Vec<CFGNode> = sorted(cdg.get_control_dependents(&bb8_name).unwrap());
    assert!(bb8_dependents.is_empty());

    let bb12_dependencies: Vec<Name> = sorted(cdg.get_control_dependencies(&bb12_name).unwrap());
    assert!(bb12_dependencies.is_empty());
    let bb12_dependents: Vec<CFGNode> = sorted(cdg.get_control_dependents(&bb12_name).unwrap());
    assert!(bb12_dependents.is_empty());

    assert_eq!(cdg.is_control_dependent(&bb4_name, &bb2_name), true);
    assert_eq!(cdg.is_control_dependent(&bb8_name, &bb2_name), true);
    assert_eq!(cdg.is_control_dependent(&bb12_name, &bb2_name), false);
}

#[test]
fn conditional_nozero_cdg() {
    let module = basic_module();
    let mut analysis = ModuleAnalysis::new(&module);

    // CFG:
    //  2
    //  | \
    //  |  4
    //  |  | \
    //  |  |  8
    //  |  6  | \
    //  |  |  10 12
    //  |  |  |  |
    //  |  |  | /
    //   \ | / /
    //     14

    let bb2_name = Name::from(2);
    let bb4_name = Name::from(4);
    let bb6_name = Name::from(6);
    let bb8_name = Name::from(8);
    let bb10_name = Name::from(10);
    let bb12_name = Name::from(12);
    let bb14_name = Name::from(14);

    let cdg = analysis
        .fn_analysis("conditional_nozero").unwrap()
        .control_dependence_graph().unwrap();

    let bb2_dependencies: Vec<Name> = sorted(cdg.get_control_dependencies(&bb2_name).unwrap());
    assert!(bb2_dependencies.is_empty());
    let bb2_dependents: Vec<CFGNode> = sorted(cdg.get_control_dependents(&bb2_name).unwrap());
    assert_eq!(
        bb2_dependents,
        vec![
            CFGNode::Block(Name::from(4)),
            CFGNode::Block(Name::from(6)),
            CFGNode::Block(Name::from(8)),
            CFGNode::Block(Name::from(10)),
            CFGNode::Block(Name::from(12)),
        ]
    );

    let bb4_dependencies: Vec<Name> = sorted(cdg.get_control_dependencies(&bb4_name).unwrap());
    assert_eq!(bb4_dependencies, vec![Name::from(2)]);
    let bb4_dependents: Vec<CFGNode> = sorted(cdg.get_control_dependents(&bb4_name).unwrap());
    assert_eq!(
        bb4_dependents,
        vec![
            CFGNode::Block(Name::from(6)),
            CFGNode::Block(Name::from(8)),
            CFGNode::Block(Name::from(10)),
            CFGNode::Block(Name::from(12)),
        ]
    );

    let bb6_dependencies: Vec<Name> = sorted(cdg.get_control_dependencies(&bb6_name).unwrap());
    assert_eq!(bb6_dependencies, vec![Name::from(2), Name::from(4)]);
    let bb6_dependents: Vec<CFGNode> = sorted(cdg.get_control_dependents(&bb6_name).unwrap());
    assert!(bb6_dependents.is_empty());

    let bb8_dependencies: Vec<Name> = sorted(cdg.get_control_dependencies(&bb8_name).unwrap());
    assert_eq!(bb8_dependencies, vec![Name::from(2), Name::from(4)]);
    let bb8_dependents: Vec<CFGNode> = sorted(cdg.get_control_dependents(&bb8_name).unwrap());
    assert_eq!(
        bb8_dependents,
        vec![
            CFGNode::Block(Name::from(10)),
            CFGNode::Block(Name::from(12)),
        ]
    );

    let bb10_dependencies: Vec<Name> = sorted(cdg.get_control_dependencies(&bb10_name).unwrap());
    assert_eq!(
        bb10_dependencies,
        vec![Name::from(2), Name::from(4), Name::from(8)]
    );
    let bb10_dependents: Vec<CFGNode> = sorted(cdg.get_control_dependents(&bb10_name).unwrap());
    assert!(bb10_dependents.is_empty());

    let bb12_dependencies: Vec<Name> = sorted(cdg.get_control_dependencies(&bb12_name).unwrap());
    assert_eq!(
        bb12_dependencies,
        vec![Name::from(2), Name::from(4), Name::from(8)]
    );
    let bb12_dependents: Vec<CFGNode> = sorted(cdg.get_control_dependents(&bb12_name).unwrap());
    assert!(bb12_dependents.is_empty());

    let bb14_dependencies: Vec<Name> = sorted(cdg.get_control_dependencies(&bb14_name).unwrap());
    assert!(bb14_dependencies.is_empty());
    let bb14_dependents: Vec<CFGNode> = sorted(cdg.get_control_dependents(&bb14_name).unwrap());
    assert!(bb14_dependents.is_empty());

    assert_eq!(cdg.is_control_dependent(&bb4_name, &bb2_name), true);
    assert_eq!(cdg.is_control_dependent(&bb6_name, &bb2_name), true);
    assert_eq!(cdg.is_control_dependent(&bb10_name, &bb8_name), true);
    assert_eq!(cdg.is_control_dependent(&bb10_name, &bb4_name), true);
    assert_eq!(cdg.is_control_dependent(&bb6_name, &bb8_name), false);
    assert_eq!(cdg.is_control_dependent(&bb14_name, &bb2_name), false);
    assert_eq!(cdg.is_control_dependent(&bb2_name, &bb4_name), false);
    assert_eq!(cdg.is_control_dependent(&bb2_name, &bb2_name), false);
    assert_eq!(cdg.is_control_dependent(&bb4_name, &bb4_name), false);
}

#[test]
fn has_switch_cdg() {
    let module = basic_module();
    let mut analysis = ModuleAnalysis::new(&module);

    // CFG:
    //           2
    //     ___ / | \ ___
    //   /  / |  |  | \  \
    //  |  |  |  |  |  \  \
    //  |  |  |  |  |   |  \
    //  4  5  7  |  10  11  12
    //   \  \  \ | /   /   /
    //    \  \ _ | __ /   /
    //     \ ___ | _____ /
    //           |
    //           14

    let bb2_name = Name::from(2);
    let bb4_name = Name::from(4);
    let bb12_name = Name::from(12);
    let bb14_name = Name::from(14);

    let cdg = analysis
        .fn_analysis("has_switch").unwrap()
        .control_dependence_graph().unwrap();

    let bb2_dependencies: Vec<Name> = sorted(cdg.get_control_dependencies(&bb2_name).unwrap());
    assert!(bb2_dependencies.is_empty());
    let bb2_dependents: Vec<CFGNode> = sorted(cdg.get_control_dependents(&bb2_name).unwrap());
    assert_eq!(
        bb2_dependents,
        vec![
            CFGNode::Block(Name::from(4)),
            CFGNode::Block(Name::from(5)),
            CFGNode::Block(Name::from(7)),
            CFGNode::Block(Name::from(10)),
            CFGNode::Block(Name::from(11)),
            CFGNode::Block(Name::from(12)),
        ]
    );

    let bb4_dependencies: Vec<Name> = sorted(cdg.get_control_dependencies(&bb4_name).unwrap());
    assert_eq!(bb4_dependencies, vec![Name::from(2)]);
    let bb4_dependents: Vec<CFGNode> = sorted(cdg.get_control_dependents(&bb4_name).unwrap());
    assert!(bb4_dependents.is_empty());

    let bb12_dependencies: Vec<Name> = sorted(cdg.get_control_dependencies(&bb12_name).unwrap());
    assert_eq!(bb12_dependencies, vec![Name::from(2)]);
    let bb12_dependents: Vec<CFGNode> = sorted(cdg.get_control_dependents(&bb12_name).unwrap());
    assert!(bb12_dependents.is_empty());

    let bb14_dependencies: Vec<Name> = sorted(cdg.get_control_dependencies(&bb14_name).unwrap());
    assert!(bb14_dependencies.is_empty());
    let bb14_dependents: Vec<CFGNode> = sorted(cdg.get_control_dependents(&bb14_name).unwrap());
    assert!(bb14_dependents.is_empty());

    assert_eq!(cdg.is_control_dependent(&bb4_name, &bb2_name), true);
    assert_eq!(cdg.is_control_dependent(&bb12_name, &bb2_name), true);
    assert_eq!(cdg.is_control_dependent(&bb14_name, &bb2_name), false);
    assert_eq!(cdg.is_control_dependent(&bb4_name, &bb12_name), false);
}
