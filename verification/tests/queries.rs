#![allow(dead_code)]

use painter::ir::BasicBlock;
use painter::ir::Call;
use painter::ir::Callee;
use painter::ir::Function;
use painter::ir::FunctionType;
use painter::ir::Module;
use painter::ir::Name;
use painter::ir::Terminator;
use painter::AnalysisError;
use painter::CFGNode;
use painter::ControlFlowGraph;
use painter::CrossModuleAnalysis;
use painter::FunctionAnalysis;
use painter::ModuleAnalysis;
use painter::SimpleCache;

fn sorted<T: Ord>(mut items: Vec<T>) -> Vec<T> {
    items.sort();
    items
}

fn void_fn() -> FunctionType {
    FunctionType { result_type: "void".to_string(), param_types: vec![], is_var_arg: false }
}

fn block(number: usize, term: Terminator) -> BasicBlock {
    BasicBlock { name: Name::from(number), calls: vec![], term }
}

fn function(name: &str, basic_blocks: Vec<BasicBlock>) -> Function {
    Function { name: name.to_string(), ty: void_fn(), basic_blocks }
}

fn node(number: usize) -> CFGNode {
    CFGNode::Block(Name::from(number))
}

fn succs_of(term: Terminator) -> Vec<CFGNode> {
    let f = function("f", vec![block(0, term)]);
    let cfg = ControlFlowGraph::new(&f).unwrap();
    sorted(cfg.succs(&Name::from(0)).unwrap())
}

#[test]
fn ret_and_resume_lead_to_return() {
    assert_eq!(succs_of(Terminator::Ret), vec![CFGNode::Return]);
    assert_eq!(succs_of(Terminator::Resume), vec![CFGNode::Return]);
}

#[test]
fn unreachable_has_no_successors() {
    assert_eq!(succs_of(Terminator::Unreachable), vec![]);
}

#[test]
fn branches_lead_to_their_targets() {
    assert_eq!(succs_of(Terminator::Br { dest: Name::from(3) }), vec![node(3)]);
    assert_eq!(
        succs_of(Terminator::CondBr { true_dest: Name::from(5), false_dest: Name::from(3) }),
        vec![node(3), node(5)]
    );
    assert_eq!(
        succs_of(Terminator::CondBr { true_dest: Name::from(3), false_dest: Name::from(3) }),
        vec![node(3)]
    );
    assert_eq!(
        succs_of(Terminator::IndirectBr {
            possible_dests: vec![Name::from(4), Name::from(2), Name::from(4)]
        }),
        vec![node(2), node(4)]
    );
    assert_eq!(succs_of(Terminator::IndirectBr { possible_dests: vec![] }), vec![]);
}

#[test]
fn switch_leads_to_its_default_and_its_cases() {
    assert_eq!(
        succs_of(Terminator::Switch {
            dests: vec![Name::from(2), Name::from(3)],
            default_dest: Name::from(9)
        }),
        vec![node(2), node(3), node(9)]
    );
    assert_eq!(
        succs_of(Terminator::Switch { dests: vec![], default_dest: Name::from(9) }),
        vec![node(9)]
    );
}

#[test]
fn invoke_leads_to_both_labels() {
    let call = Call { callee: Callee::Function("g".to_string()), callee_ty: void_fn() };
    assert_eq!(
        succs_of(Terminator::Invoke {
            call,
            return_label: Name::from(1),
            exception_label: Name::from(2)
        }),
        vec![node(1), node(2)]
    );
}

#[test]
fn unwinding_falls_to_return_only_without_a_destination() {
    assert_eq!(
        succs_of(Terminator::CleanupRet { unwind_dest: Some(Name::from(4)) }),
        vec![node(4)]
    );
    assert_eq!(succs_of(Terminator::CleanupRet { unwind_dest: None }), vec![CFGNode::Return]);
    assert_eq!(succs_of(Terminator::CatchRet { successor: Name::from(6) }), vec![node(6)]);
    assert_eq!(
        succs_of(Terminator::CatchSwitch {
            catch_handlers: vec![Name::from(2), Name::from(3)],
            default_unwind_dest: Some(Name::from(7))
        }),
        vec![node(2), node(3), node(7)]
    );
    assert_eq!(
        succs_of(Terminator::CatchSwitch {
            catch_handlers: vec![Name::from(2)],
            default_unwind_dest: None
        }),
        vec![node(2), CFGNode::Return]
    );
}

#[test]
fn callbr_is_unsupported() {
    let f = function("f", vec![block(0, Terminator::Br { dest: Name::from(1) }), block(1, Terminator::CallBr)]);
    assert!(matches!(ControlFlowGraph::new(&f), Err(AnalysisError::Unsupported)));
    let mut analysis = FunctionAnalysis::new(&f);
    assert!(matches!(analysis.control_flow_graph(), Err(AnalysisError::Unsupported)));
    assert!(matches!(analysis.dominator_tree(), Err(AnalysisError::Unsupported)));
    assert!(matches!(analysis.postdominator_tree(), Err(AnalysisError::Unsupported)));
    assert!(matches!(analysis.control_dependence_graph(), Err(AnalysisError::Unsupported)));
}

#[test]
fn function_without_blocks_is_unsupported() {
    let f = function("f", vec![]);
    assert!(matches!(ControlFlowGraph::new(&f), Err(AnalysisError::Unsupported)));
}

#[test]
fn unknown_block_is_not_found() {
    let f = function(
        "f",
        vec![block(0, Terminator::Br { dest: Name::from(1) }), block(1, Terminator::Ret)],
    );
    let missing = Name::from(7);
    let mut analysis = FunctionAnalysis::new(&f);
    let cfg = analysis.control_flow_graph().unwrap();
    assert_eq!(cfg.preds(&missing), Err(AnalysisError::NotFound));
    assert_eq!(cfg.succs(&missing), Err(AnalysisError::NotFound));
    let domtree = analysis.dominator_tree().unwrap();
    assert_eq!(domtree.idom(&missing), Err(AnalysisError::NotFound));
    assert_eq!(domtree.children(&missing), Err(AnalysisError::NotFound));
    assert_eq!(domtree.dominates(&CFGNode::Block(missing.clone()), &node(1)), false);
    assert_eq!(domtree.dominates(&node(0), &CFGNode::Block(missing.clone())), false);
    assert_eq!(
        domtree.dominates(&CFGNode::Block(missing.clone()), &CFGNode::Block(missing.clone())),
        true
    );
    assert_eq!(
        domtree.strictly_dominates(&CFGNode::Block(missing.clone()), &CFGNode::Block(missing.clone())),
        false
    );
    let postdomtree = analysis.postdominator_tree().unwrap();
    assert_eq!(postdomtree.ipostdom(&missing), Err(AnalysisError::NotFound));
    assert_eq!(postdomtree.children(&missing), Err(AnalysisError::NotFound));
    let cdg = analysis.control_dependence_graph().unwrap();
    assert_eq!(cdg.get_imm_control_dependencies(&missing), Err(AnalysisError::NotFound));
    assert_eq!(cdg.get_control_dependencies(&missing), Err(AnalysisError::NotFound));
    assert_eq!(cdg.get_imm_control_dependents(&missing), Err(AnalysisError::NotFound));
    assert_eq!(cdg.get_control_dependents(&missing), Err(AnalysisError::NotFound));
    assert_eq!(cdg.is_control_dependent(&missing, &Name::from(0)), false);
    assert_eq!(cdg.is_control_dependent(&missing, &missing), false);
}

#[test]
fn label_without_block_is_a_node_but_no_block() {
    // 0 branches to 1 or to 5, and no block is named 5
    let f = function(
        "f",
        vec![
            block(0, Terminator::CondBr { true_dest: Name::from(1), false_dest: Name::from(5) }),
            block(1, Terminator::Ret),
        ],
    );
    let mut analysis = FunctionAnalysis::new(&f);
    let cfg = analysis.control_flow_graph().unwrap();
    assert_eq!(sorted(cfg.succs(&Name::from(0)).unwrap()), vec![node(1), node(5)]);
    assert_eq!(cfg.preds(&Name::from(5)), Err(AnalysisError::NotFound));
    let domtree = analysis.dominator_tree().unwrap();
    assert_eq!(sorted(domtree.children(&Name::from(0)).unwrap()), vec![node(1), node(5)]);
    assert_eq!(domtree.dominates(&node(0), &node(5)), true);
    let postdomtree = analysis.postdominator_tree().unwrap();
    assert_eq!(postdomtree.ipostdom(&Name::from(0)).unwrap(), Some(node(1)));
    assert_eq!(postdomtree.postdominates(&CFGNode::Return, &node(5)), false);
}

#[test]
fn blocks_of_one_name_are_one_node() {
    let f = function(
        "f",
        vec![
            block(0, Terminator::Br { dest: Name::from(1) }),
            block(1, Terminator::Br { dest: Name::from(2) }),
            block(1, Terminator::Br { dest: Name::from(3) }),
            block(2, Terminator::Ret),
            block(3, Terminator::Ret),
        ],
    );
    let cfg = ControlFlowGraph::new(&f).unwrap();
    assert_eq!(sorted(cfg.succs(&Name::from(1)).unwrap()), vec![node(2), node(3)]);
    assert_eq!(cfg.preds(&Name::from(1)).unwrap(), vec![Name::from(0)]);
    assert_eq!(sorted(cfg.preds_of_return()), vec![Name::from(2), Name::from(3)]);
}

#[test]
fn entry_with_a_predecessor() {
    // a loop back to the first block: the entry then has a predecessor
    let f = function(
        "f",
        vec![
            block(0, Terminator::CondBr { true_dest: Name::from(0), false_dest: Name::from(1) }),
            block(1, Terminator::Ret),
        ],
    );
    let mut analysis = FunctionAnalysis::new(&f);
    let cfg = analysis.control_flow_graph().unwrap();
    assert_eq!(cfg.entry(), &Name::from(0));
    assert_eq!(cfg.preds(&Name::from(0)).unwrap(), vec![Name::from(0)]);
    let domtree = analysis.dominator_tree().unwrap();
    assert_eq!(domtree.idom(&Name::from(0)).unwrap(), None);
    assert_eq!(domtree.idom(&Name::from(1)).unwrap(), Some(Name::from(0)));
    assert_eq!(domtree.idom_of_return(), Some(Name::from(1)));
    let cdg = analysis.control_dependence_graph().unwrap();
    assert_eq!(cdg.is_control_dependent(&Name::from(0), &Name::from(0)), true);
    assert_eq!(cdg.is_control_dependent(&Name::from(1), &Name::from(0)), false);
}

#[test]
fn unreachable_blocks_have_no_dominators() {
    // 2 is not reached from 0, and reaches the return
    let f = function(
        "f",
        vec![
            block(0, Terminator::Br { dest: Name::from(1) }),
            block(1, Terminator::Ret),
            block(2, Terminator::Br { dest: Name::from(1) }),
        ],
    );
    let mut analysis = FunctionAnalysis::new(&f);
    let domtree = analysis.dominator_tree().unwrap();
    assert_eq!(domtree.idom(&Name::from(2)).unwrap(), None);
    assert_eq!(domtree.idom(&Name::from(1)).unwrap(), Some(Name::from(0)));
    assert_eq!(domtree.dominates(&node(0), &node(2)), false);
    assert_eq!(domtree.dominates(&node(2), &node(1)), false);
    let postdomtree = analysis.postdominator_tree().unwrap();
    assert_eq!(postdomtree.ipostdom(&Name::from(2)).unwrap(), Some(node(1)));
    assert_eq!(sorted(postdomtree.children(&Name::from(1)).unwrap()), vec![node(0), node(2)]);
    assert_eq!(postdomtree.children_of_return(), vec![Name::from(1)]);
}

#[test]
fn dominance_is_a_partial_order() {
    let f = function(
        "f",
        vec![
            block(0, Terminator::CondBr { true_dest: Name::from(1), false_dest: Name::from(2) }),
            block(1, Terminator::Br { dest: Name::from(3) }),
            block(2, Terminator::Br { dest: Name::from(3) }),
            block(3, Terminator::CondBr { true_dest: Name::from(1), false_dest: Name::from(4) }),
            block(4, Terminator::Ret),
        ],
    );
    let mut analysis = FunctionAnalysis::new(&f);
    let domtree = analysis.dominator_tree().unwrap();
    let nodes = vec![node(0), node(1), node(2), node(3), node(4), CFGNode::Return];
    for a in &nodes {
        assert!(domtree.dominates(a, a));
        assert!(!domtree.strictly_dominates(a, a));
        for b in &nodes {
            if a != b && domtree.dominates(a, b) {
                assert!(!domtree.dominates(b, a));
            }
            assert_eq!(domtree.strictly_dominates(a, b), a != b && domtree.dominates(a, b));
        }
    }
    // 1 is entered from 0 and from 3, which 0 dominates
    assert_eq!(domtree.idom(&Name::from(1)).unwrap(), Some(Name::from(0)));
    assert_eq!(domtree.idom(&Name::from(3)).unwrap(), Some(Name::from(0)));
    assert_eq!(domtree.idom(&Name::from(4)).unwrap(), Some(Name::from(3)));
    assert_eq!(domtree.entry(), &Name::from(0));
}

#[test]
fn analyses_are_computed_once() {
    let mut cache: SimpleCache<u32> = SimpleCache::new();
    let mut runs = 0;
    assert_eq!(
        *cache.get_or_insert_with(|| {
            runs += 1;
            5
        }),
        5
    );
    assert_eq!(
        *cache.get_or_insert_with(|| {
            runs += 1;
            7
        }),
        5
    );
    assert_eq!(runs, 1);
    assert_eq!(cache.data, Some(5));
}

#[test]
fn unknown_function_and_module_are_not_found() {
    let module = Module {
        name: "m".to_string(),
        functions: vec![function("f", vec![block(0, Terminator::Ret)])],
    };
    let mut analysis = ModuleAnalysis::new(&module);
    assert!(matches!(analysis.fn_analysis("g"), Err(AnalysisError::NotFound)));
    assert!(analysis.fn_analysis("f").is_ok());
    assert_eq!(analysis.module().name, "m");
    assert_eq!(analysis.call_graph().callers("g"), Err(AnalysisError::NotFound));
    assert_eq!(analysis.call_graph().callees("g"), Err(AnalysisError::NotFound));
    assert_eq!(analysis.call_graph().callees("f"), Ok(vec![]));

    let mut cross = CrossModuleAnalysis::new(vec![&module]);
    assert!(matches!(cross.module_analysis("n"), Err(AnalysisError::NotFound)));
    assert_eq!(cross.module_analysis("m").unwrap().module().name, "m");
    assert_eq!(cross.modules().len(), 1);
}

#[test]
fn function_in_two_modules_is_ambiguous() {
    let first = Module {
        name: "first".to_string(),
        functions: vec![
            function("only_here", vec![block(0, Terminator::Ret)]),
            function("twice", vec![block(0, Terminator::Ret)]),
        ],
    };
    let second = Module {
        name: "second".to_string(),
        functions: vec![function("twice", vec![block(0, Terminator::Unreachable)])],
    };
    let cross = CrossModuleAnalysis::new(vec![&first, &second]);
    assert_eq!(cross.get_func_by_name("twice"), Err(AnalysisError::Ambiguous));
    assert_eq!(cross.get_func_by_name("nowhere"), Ok(None));
    let (func, module) = cross.get_func_by_name("only_here").unwrap().unwrap();
    assert_eq!(func.name, "only_here");
    assert_eq!(module.name, "first");
    let names: Vec<&str> = cross.functions().iter().map(|f| f.name.as_str()).collect();
    assert_eq!(names, vec!["only_here", "twice", "twice"]);
}

#[test]
fn error_descriptions() {
    assert_eq!(AnalysisError::NotFound.description(), "name not found in the analyzed scope");
    assert_eq!(AnalysisError::Unsupported.description(), "unsupported construct");
    assert_eq!(AnalysisError::Ambiguous.description(), "name is defined more than once");
}
