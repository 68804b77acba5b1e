#![allow(unused_imports, dead_code)]

use painter::ir::BasicBlock;
use painter::ir::Call;
use painter::ir::Callee;
use painter::ir::Function;
use painter::ir::FunctionType;
use painter::ir::Module;
use painter::ir::Name;
use painter::ir::Terminator;
use painter::CFGNode;
use painter::ModuleAnalysis;

fn sorted<T: Ord>(mut items: Vec<T>) -> Vec<T> {
    items.sort();
    items
}

fn func_type(result: &str, params: Vec<&str>, is_var_arg: bool) -> FunctionType {
    FunctionType {
        result_type: result.to_string(),
        param_types: params.into_iter().map(|p| p.to_string()).collect(),
        is_var_arg,
    }
}

fn block(name: Name, term: Terminator) -> BasicBlock {
    BasicBlock { name, calls: vec![], term }
}

fn ret(number: usize) -> BasicBlock {
    block(Name::from(number), Terminator::Ret)
}

fn br(number: usize, dest: usize) -> BasicBlock {
    block(Name::from(number), Terminator::Br { dest: Name::from(dest) })
}

fn condbr(number: usize, true_dest: usize, false_dest: usize) -> BasicBlock {
    block(
        Name::from(number),
        Terminator::CondBr { true_dest: Name::from(true_dest), false_dest: Name::from(false_dest) },
    )
}

fn function(name: &str, ty: FunctionType, basic_blocks: Vec<BasicBlock>) -> Function {
    Function { name: name.to_string(), ty, basic_blocks }
}

fn labelled(name: &str, term: Terminator) -> BasicBlock {
    block(Name::named(name), term)
}

fn goto(name: &str, dest: &str) -> BasicBlock {
    labelled(name, Terminator::Br { dest: Name::named(dest) })
}

fn invoke(name: &str, callee: &str, return_label: &str, exception_label: &str) -> BasicBlock {
    labelled(
        name,
        Terminator::Invoke {
            call: Call {
                callee: Callee::Function(callee.to_string()),
                callee_ty: func_type("void", vec![], false),
            },
            return_label: Name::named(return_label),
            exception_label: Name::named(exception_label),
        },
    )
}

/// A function that panics, with its landing pads.
fn panic_module() -> Module {
    Module {
        name: "panic".to_string(),
        functions: vec![function(
            "_ZN3std9panicking11begin_panic17h5ae0871c3ba84f98E",
            func_type("void", vec!["i8*", "i64"], false),
            vec![
                invoke("start", "alloc_exception", "bb2", "cleanup"),
                labelled("bb1", Terminator::Resume),
                invoke("bb2", "box_payload", "bb4", "cleanup1"),
                goto("bb3", "bb6"),
                invoke("bb4", "rust_panic_with_hook", "unreachable", "cleanup1"),
                goto("bb5", "bb1"),
                labelled(
                    "bb6",
                    Terminator::CondBr {
                        true_dest: Name::named("bb5"),
                        false_dest: Name::named("bb1"),
                    },
                ),
                goto("cleanup", "bb6"),
                goto("cleanup1", "bb3"),
                labelled("unreachable", Terminator::Unreachable),
            ],
        )],
    }
}

#[test]
fn begin_panic_cfg() {
    let module = panic_module();
    let mut analysis = ModuleAnalysis::new(&module);
    let cfg = analysis
        .fn_analysis("_ZN3std9panicking11begin_panic17h5ae0871c3ba84f98E").unwrap()
        .control_flow_graph().unwrap();

    // CFG:
    //         start
    //        /     \
    //  cleanup     bb2
    //     |        /  \
    //     |       /    bb4
    //     |      |    /   \
    //     |      |   /     \
    //     |   cleanup1   unreachable
    //     |     /            |
    //     |   bb3       (unreachable)
    //     |  /
    //    bb6
    //     | \
    //     | bb5
    //     | /
    //    bb1
    //     |
    //   (ret)

    let bbstart_name = Name::named("start");
    let _bbstart_node = CFGNode::Block(bbstart_name.clone());
    let bb1_name = Name::named("bb1");
    let bb1_node = CFGNode::Block(bb1_name.clone());
    let bb2_name = Name::named("bb2");
    let bb2_node = CFGNode::Block(bb2_name.clone());
    let bb3_name = Name::named("bb3");
    let bb3_node = CFGNode::Block(bb3_name.clone());
    let bb4_name = Name::named("bb4");
    let bb4_node = CFGNode::Block(bb4_name.clone());
    let bb5_name = Name::named("bb5");
    let bb5_node = CFGNode::Block(bb5_name.clone());
    let bb6_name = Name::named("bb6");
    let bb6_node = CFGNode::Block(bb6_name.clone());
    let bbcleanup_name = Name::named("cleanup");
    let bbcleanup_node = CFGNode::Block(bbcleanup_name.clone());
    let bbcleanup1_name = Name::named("cleanup1");
    let bbcleanup1_node = CFGNode::Block(bbcleanup1_name.clone());
    let bbunreachable_name = Name::named("unreachable");
    let bbunreachable_node = CFGNode::Block(bbunreachable_name.clone());

    let bbstart_preds: Vec<Name> = sorted(cfg.preds(&bbstart_name).unwrap());
    assert!(bbstart_preds.is_empty());
    let bbstart_succs: Vec<CFGNode> = sorted(cfg.succs(&bbstart_name).unwrap());
    assert_eq!(bbstart_succs, vec![bb2_node.clone(), bbcleanup_node.clone()]);

    let bb1_preds: Vec<Name> = sorted(cfg.preds(&bb1_name).unwrap());
    assert_eq!(bb1_preds, vec![bb5_name.clone(), bb6_name.clone()]);
    let bb1_succs: Vec<CFGNode> = sorted(cfg.succs(&bb1_name).unwrap());
    assert_eq!(bb1_succs, vec![CFGNode::Return]);

    let bb2_preds: Vec<Name> = sorted(cfg.preds(&bb2_name).unwrap());
    assert_eq!(bb2_preds, vec![bbstart_name.clone()]);
    let bb2_succs: Vec<CFGNode> = sorted(cfg.succs(&bb2_name).unwrap());
    assert_eq!(bb2_succs, vec![bb4_node.clone(), bbcleanup1_node.clone()]);

    let bb3_preds: Vec<Name> = sorted(cfg.preds(&bb3_name).unwrap());
    assert_eq!(bb3_preds, vec![bbcleanup1_name.clone()]);
    let bb3_succs: Vec<CFGNode> = sorted(cfg.succs(&bb3_name).unwrap());
    assert_eq!(bb3_succs, vec![bb6_node.clone()]);

    let bb4_preds: Vec<Name> = sorted(cfg.preds(&bb4_name).unwrap());
    assert_eq!(bb4_preds, vec![bb2_name.clone()]);
    let bb4_succs: Vec<CFGNode> = sorted(cfg.succs(&bb4_name).unwrap());
    assert_eq!(bb4_succs, vec![bbcleanup1_node.clone(), bbunreachable_node.clone()]);

    let bb5_preds: Vec<Name> = sorted(cfg.preds(&bb5_name).unwrap());
    assert_eq!(bb5_preds, vec![bb6_name.clone()]);
    let bb5_succs: Vec<CFGNode> = sorted(cfg.succs(&bb5_name).unwrap());
    assert_eq!(bb5_succs, vec![bb1_node.clone()]);

    let bb6_preds: Vec<Name> = sorted(cfg.preds(&bb6_name).unwrap());
    assert_eq!(bb6_preds, vec![bb3_name.clone(), bbcleanup_name.clone()]);
    let bb6_succs: Vec<CFGNode> = sorted(cfg.succs(&bb6_name).unwrap());
    assert_eq!(bb6_succs, vec![bb1_node.clone(), bb5_node.clone()]);

    let bbcleanup_preds: Vec<Name> = sorted(cfg.preds(&bbcleanup_name).unwrap());
    assert_eq!(bbcleanup_preds, vec![bbstart_name.clone()]);
    let bbcleanup_succs: Vec<CFGNode> = sorted(cfg.succs(&bbcleanup_name).unwrap());
    assert_eq!(bbcleanup_succs, vec![bb6_node.clone()]);

    let bbcleanup1_preds: Vec<Name> = sorted(cfg.preds(&bbcleanup1_name).unwrap());
    assert_eq!(bbcleanup1_preds, vec![bb2_name.clone(), bb4_name.clone()]);
    let bbcleanup1_succs: Vec<CFGNode> = sorted(cfg.succs(&bbcleanup1_name).unwrap());
    assert_eq!(bbcleanup1_succs, vec![bb3_node.clone()]);

    let bbunreachable_preds: Vec<Name> = sorted(cfg.preds(&bbunreachable_name).unwrap());
    assert_eq!(bbunreachable_preds, vec![bb4_name.clone()]);
    let bbunreachable_succs: Vec<CFGNode> = sorted(cfg.succs(&bbunreachable_name).unwrap());
    assert!(bbunreachable_succs.is_empty());

    let return_preds: Vec<Name> = sorted(cfg.preds_of_return());
    assert_eq!(return_preds, vec![bb1_name.clone()]);
}

#[test]
fn begin_panic_domtree() {
    let module = panic_module();
    let mut analysis = ModuleAnalysis::new(&module);
    let fn_analysis = analysis.fn_analysis("_ZN3std9panicking11begin_panic17h5ae0871c3ba84f98E").unwrap();

    // CFG:
    //         start
    //        /     \
    //  cleanup     bb2
    //     |        /  \
    //     |       /    bb4
    //     |      |    /   \
    //     |      |   /     \
    //     |   cleanup1   unreachable
    //     |     /            |
    //     |   bb3       (unreachable)
    //     |  /
    //    bb6
    //     | \
    //     | bb5
    //     | /
    //    bb1
    //     |
    //   (ret)

    let domtree = fn_analysis.dominator_tree().unwrap();
    assert_eq!(domtree.idom(&Name::named("start")).unwrap(), None);
    assert_eq!(domtree.idom(&Name::named("bb1")).unwrap(), Some(Name::named("bb6")));
    assert_eq!(domtree.idom(&Name::named("bb2")).unwrap(), Some(Name::named("start")));
    assert_eq!(
        domtree.idom(&Name::named("bb3")).unwrap(),
        Some(Name::named("cleanup1"))
    );
    assert_eq!(domtree.idom(&Name::named("bb4")).unwrap(), Some(Name::named("bb2")));
    assert_eq!(domtree.idom(&Name::named("bb5")).unwrap(), Some(Name::named("bb6")));
    assert_eq!(domtree.idom(&Name::named("bb6")).unwrap(), Some(Name::named("start")));
    assert_eq!(
        domtree.idom(&Name::named("cleanup")).unwrap(),
        Some(Name::named("start"))
    );
    assert_eq!(
        domtree.idom(&Name::named("cleanup1")).unwrap(),
        Some(Name::named("bb2"))
    );
    assert_eq!(
        domtree.idom(&Name::named("unreachable")).unwrap(),
        Some(Name::named("bb4"))
    );

    let postdomtree = fn_analysis.postdominator_tree().unwrap();
    // especially relevant for postdomtree (and CDG below): our algorithm
    // doesn't consider unreachable blocks, so postdominators are calculated
    // considering only the subset of the CFG which is reachable.
    // This seems like a feature and not a bug.
    assert_eq!(
        postdomtree.ipostdom(&Name::named("start")).unwrap(),
        Some(CFGNode::Block(Name::named("bb6")))
    );
    assert_eq!(
        postdomtree.ipostdom(&Name::named("bb1")).unwrap(),
        Some(CFGNode::Return)
    );
    assert_eq!(
        postdomtree.ipostdom(&Name::named("bb2")).unwrap(),
        Some(CFGNode::Block(Name::named("cleanup1")))
    );
    assert_eq!(
        postdomtree.ipostdom(&Name::named("bb3")).unwrap(),
        Some(CFGNode::Block(Name::named("bb6")))
    );
    assert_eq!(
        postdomtree.ipostdom(&Name::named("bb4")).unwrap(),
        Some(CFGNode::Block(Name::named("cleanup1")))
    );
    assert_eq!(
        postdomtree.ipostdom(&Name::named("bb5")).unwrap(),
        Some(CFGNode::Block(Name::named("bb1")))
    );
    assert_eq!(
        postdomtree.ipostdom(&Name::named("bb6")).unwrap(),
        Some(CFGNode::Block(Name::named("bb1")))
    );
    assert_eq!(
        postdomtree.ipostdom(&Name::named("cleanup")).unwrap(),
        Some(CFGNode::Block(Name::named("bb6")))
    );
    assert_eq!(
        postdomtree.ipostdom(&Name::named("cleanup1")).unwrap(),
        Some(CFGNode::Block(Name::named("bb3")))
    );
    assert_eq!(postdomtree.ipostdom(&Name::named("unreachable")).unwrap(), None);
}

#[test]
fn begin_panic_cdg() {
    let module = panic_module();
    let mut analysis = ModuleAnalysis::new(&module);

    // CFG:
    //         start
    //        /     \
    //  cleanup     bb2
    //     |        /  \
    //     |       /    bb4
    //     |      |    /   \
    //     |      |   /     \
    //     |   cleanup1   unreachable
    //     |     /            |
    //     |   bb3       (unreachable)
    //     |  /
    //    bb6
    //     | \
    //     | bb5
    //     | /
    //    bb1
    //     |
    //   (ret)

    let cdg = analysis
        .fn_analysis("_ZN3std9panicking11begin_panic17h5ae0871c3ba84f98E").unwrap()
        .control_dependence_graph().unwrap();
    assert_eq!(
        cdg.get_imm_control_dependencies(&Name::named("start")).unwrap().len(),
        0
    );
    assert_eq!(
        cdg.get_imm_control_dependencies(&Name::named("bb1")).unwrap().len(),
        0
    );
    assert_eq!(
        cdg.get_imm_control_dependencies(&Name::named("bb2")).unwrap(),
        vec![Name::named("start")]
    );
    assert_eq!(
        cdg.get_imm_control_dependencies(&Name::named("bb3")).unwrap(),
        vec![Name::named("start")]
    );
    assert_eq!(
        cdg.get_imm_control_dependencies(&Name::named("bb4")).unwrap(),
        vec![Name::named("bb2")]
    );
    assert_eq!(
        cdg.get_imm_control_dependencies(&Name::named("bb5")).unwrap(),
        vec![Name::named("bb6")]
    );
    assert_eq!(
        cdg.get_imm_control_dependencies(&Name::named("bb6")).unwrap().len(),
        0
    );
    assert_eq!(
        cdg.get_imm_control_dependencies(&Name::named("cleanup")).unwrap(),
        vec![Name::named("start")]
    );
    assert_eq!(
        cdg.get_imm_control_dependencies(&Name::named("cleanup1")).unwrap(),
        vec![Name::named("start")]
    );
    // our algorithm doesn't consider unreachable blocks, so they are reported
    // as having no control dependencies
    assert_eq!(
        cdg.get_imm_control_dependencies(&Name::named("unreachable")).unwrap().len(),
        0
    );
}
