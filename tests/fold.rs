use circuit_ir::fold::FoldError;
use circuit_ir::ir::{IRArg, IRModule, IRNode};
use circuit_ir::op::BinOp;

fn module(nodes: Vec<IRNode>) -> IRModule {
    IRModule::new(nodes)
}

#[test]
fn add_identity_is_left_alone() {
    let mut m = module(vec![
        IRNode::Input(0),
        IRNode::BinOp(IRArg::Link(0), BinOp::Add, IRArg::Constant(0)),
        IRNode::Output(0, IRArg::Link(1)),
    ]);
    assert_eq!(m.fold_constants(), Ok(()));
    assert_eq!(
        m.nodes,
        vec![
            IRNode::Input(0),
            IRNode::BinOp(IRArg::Link(0), BinOp::Add, IRArg::Constant(0)),
            IRNode::Output(0, IRArg::Link(1)),
        ]
    );
}

#[test]
fn product_of_constants_folds() {
    let mut m = module(vec![
        IRNode::Constant(2),
        IRNode::Constant(3),
        IRNode::BinOp(IRArg::Link(0), BinOp::Mul, IRArg::Link(1)),
        IRNode::Output(0, IRArg::Link(2)),
    ]);
    assert_eq!(m.fold_constants(), Ok(()));
    assert_eq!(m.nodes[2], IRNode::Constant(6));
    assert_eq!(m.nodes[3], IRNode::Output(0, IRArg::Constant(6)));
    // Folding resolved the output to an immediate, so nothing links to the
    // three constant nodes any more.
    m.prune();
    assert_eq!(
        m.nodes,
        vec![IRNode::Removed, IRNode::Removed, IRNode::Removed, IRNode::Output(0, IRArg::Constant(6))]
    );
}

#[test]
fn product_of_constants_stays_live_before_folding() {
    let nodes = vec![
        IRNode::Constant(2),
        IRNode::Constant(3),
        IRNode::BinOp(IRArg::Link(0), BinOp::Mul, IRArg::Link(1)),
        IRNode::Output(0, IRArg::Link(2)),
    ];
    let mut m = module(nodes.clone());
    m.prune();
    assert_eq!(m.nodes, nodes);
}

#[test]
fn max_plus_one_wraps_to_min() {
    let mut m = module(vec![
        IRNode::BinOp(IRArg::Constant(i32::MAX), BinOp::Add, IRArg::Constant(1)),
        IRNode::Output(0, IRArg::Link(0)),
    ]);
    assert_eq!(m.fold_constants(), Ok(()));
    assert_eq!(m.nodes[0], IRNode::Constant(i32::MIN));
    assert_eq!(m.nodes[1], IRNode::Output(0, IRArg::Constant(i32::MIN)));
}

#[test]
fn compare_with_self_folds() {
    let ops = [
        (BinOp::CmpEq, 1),
        (BinOp::CmpNeq, 0),
        (BinOp::CmpLt, 0),
        (BinOp::CmpGt, 0),
        (BinOp::CmpLeq, 1),
        (BinOp::CmpGeq, 1),
    ];
    for (op, expected) in ops {
        let mut m = module(vec![
            IRNode::Input(0),
            IRNode::BinOp(IRArg::Link(0), op, IRArg::Link(0)),
            IRNode::Output(0, IRArg::Link(1)),
        ]);
        assert_eq!(m.fold_constants(), Ok(()));
        assert_eq!(m.nodes[1], IRNode::Constant(expected));
    }
}

#[test]
fn arithmetic_on_same_link_is_kept() {
    let mut m = module(vec![
        IRNode::Input(0),
        IRNode::BinOp(IRArg::Link(0), BinOp::Sub, IRArg::Link(0)),
    ]);
    assert_eq!(m.fold_constants(), Ok(()));
    assert_eq!(m.nodes[1], IRNode::BinOp(IRArg::Link(0), BinOp::Sub, IRArg::Link(0)));
}

#[test]
fn gate_of_zero_is_zero() {
    let mut m = module(vec![
        IRNode::Input(0),
        IRNode::Gate(IRArg::Link(0), false, IRArg::Constant(0)),
        IRNode::Constant(0),
        IRNode::Gate(IRArg::Link(0), true, IRArg::Link(2)),
    ]);
    assert_eq!(m.fold_constants(), Ok(()));
    assert_eq!(m.nodes[1], IRNode::Constant(0));
    assert_eq!(m.nodes[3], IRNode::Constant(0));
}

#[test]
fn open_gate_passes_gated_node_through() {
    let mut m = module(vec![
        IRNode::Input(0),
        IRNode::BinOp(IRArg::Link(0), BinOp::Mul, IRArg::Constant(3)),
        IRNode::Gate(IRArg::Constant(1), true, IRArg::Link(1)),
        IRNode::Gate(IRArg::Constant(1), true, IRArg::Constant(9)),
    ]);
    assert_eq!(m.fold_constants(), Ok(()));
    assert_eq!(m.nodes[2], IRNode::BinOp(IRArg::Link(0), BinOp::Mul, IRArg::Constant(3)));
    assert_eq!(m.nodes[3], IRNode::Constant(9));
}

#[test]
fn closed_gate_is_zero() {
    let mut m = module(vec![
        IRNode::Input(0),
        IRNode::Gate(IRArg::Constant(0), true, IRArg::Link(0)),
        IRNode::Gate(IRArg::Constant(5), false, IRArg::Link(0)),
    ]);
    assert_eq!(m.fold_constants(), Ok(()));
    assert_eq!(m.nodes[1], IRNode::Constant(0));
    assert_eq!(m.nodes[2], IRNode::Constant(0));
}

#[test]
fn gate_with_unknown_condition_is_kept_resolved() {
    let mut m = module(vec![
        IRNode::Input(0),
        IRNode::Constant(4),
        IRNode::Gate(IRArg::Link(0), true, IRArg::Link(1)),
    ]);
    assert_eq!(m.fold_constants(), Ok(()));
    assert_eq!(m.nodes[2], IRNode::Gate(IRArg::Link(0), true, IRArg::Constant(4)));
}

#[test]
fn multi_driver_with_unknown_driver_keeps_sum() {
    let mut m = module(vec![
        IRNode::Input(0),
        IRNode::MultiDriver(vec![IRArg::Constant(2), IRArg::Constant(3), IRArg::Link(0)]),
    ]);
    assert_eq!(m.fold_constants(), Ok(()));
    assert_eq!(m.nodes[1], IRNode::MultiDriver(vec![IRArg::Link(0), IRArg::Constant(5)]));
    let once = m.nodes.clone();
    assert_eq!(m.fold_constants(), Ok(()));
    assert_eq!(m.nodes, once);
}

#[test]
fn multi_driver_of_constants_collapses() {
    let mut m = module(vec![
        IRNode::Constant(i32::MAX),
        IRNode::MultiDriver(vec![IRArg::Constant(2), IRArg::Constant(3), IRArg::Link(0)]),
    ]);
    assert_eq!(m.fold_constants(), Ok(()));
    assert_eq!(m.nodes[1], IRNode::Constant(i32::MAX.wrapping_add(5)));
}

#[test]
fn multi_driver_with_zero_sum_drops_constants() {
    let mut m = module(vec![
        IRNode::Input(0),
        IRNode::MultiDriver(vec![IRArg::Constant(2), IRArg::Link(0), IRArg::Constant(-2)]),
    ]);
    assert_eq!(m.fold_constants(), Ok(()));
    assert_eq!(m.nodes[1], IRNode::MultiDriver(vec![IRArg::Link(0)]));
}

#[test]
fn chains_fold_over_several_sweeps() {
    let mut m = module(vec![
        IRNode::BinOp(IRArg::Link(1), BinOp::Add, IRArg::Constant(1)),
        IRNode::BinOp(IRArg::Link(2), BinOp::Mul, IRArg::Constant(2)),
        IRNode::Constant(10),
        IRNode::Output(0, IRArg::Link(0)),
    ]);
    assert_eq!(m.fold_constants(), Ok(()));
    assert_eq!(m.nodes[1], IRNode::Constant(20));
    assert_eq!(m.nodes[0], IRNode::Constant(21));
    assert_eq!(m.nodes[3], IRNode::Output(0, IRArg::Constant(21)));
}

#[test]
fn fused_compare_gate_folds_on_constant_lhs() {
    let mut m = module(vec![
        IRNode::Input(0),
        IRNode::Constant(3),
        IRNode::BinOpCmpGate(IRArg::Link(1), BinOp::CmpLt, 5, IRArg::Link(0)),
        IRNode::BinOpCmpGate(IRArg::Constant(7), BinOp::CmpLt, 5, IRArg::Link(0)),
        IRNode::BinOpCmpGate(IRArg::Link(0), BinOp::CmpLt, 5, IRArg::Link(1)),
    ]);
    assert_eq!(m.fold_constants(), Ok(()));
    assert_eq!(m.nodes[2], IRNode::Input(0));
    assert_eq!(m.nodes[3], IRNode::Constant(0));
    assert_eq!(m.nodes[4], IRNode::BinOpCmpGate(IRArg::Link(0), BinOp::CmpLt, 5, IRArg::Link(1)));
}

#[test]
fn second_fold_changes_nothing() {
    let mut m = module(vec![
        IRNode::Input(0),
        IRNode::Constant(4),
        IRNode::BinOp(IRArg::Link(1), BinOp::Sub, IRArg::Constant(1)),
        IRNode::BinOp(IRArg::Link(0), BinOp::Add, IRArg::Link(2)),
        IRNode::Gate(IRArg::Link(0), true, IRArg::Link(3)),
        IRNode::Output(0, IRArg::Link(4)),
    ]);
    assert_eq!(m.fold_constants(), Ok(()));
    let once = m.nodes.clone();
    assert_eq!(m.fold_constants(), Ok(()));
    assert_eq!(m.nodes, once);
    assert_eq!(m.nodes[3], IRNode::BinOp(IRArg::Link(0), BinOp::Add, IRArg::Constant(3)));
}

#[test]
fn self_gating_node_hits_sweep_limit() {
    let gate = IRNode::Gate(IRArg::Constant(1), true, IRArg::Link(0));
    let mut m = module(vec![gate.clone()]);
    assert_eq!(m.fold_constants(), Err(FoldError::SweepLimit));
    assert_eq!(m.nodes, vec![gate]);
}

#[test]
fn output_operand_is_resolved() {
    let mut m = module(vec![IRNode::Constant(-3), IRNode::Output(1, IRArg::Link(0))]);
    assert_eq!(m.fold_constants(), Ok(()));
    assert_eq!(m.nodes, vec![IRNode::Constant(-3), IRNode::Output(1, IRArg::Constant(-3))]);
}

#[test]
fn fused_gate_fold_counts_toward_another_sweep() {
    let mut m = module(vec![
        IRNode::BinOpCmpGate(IRArg::Link(1), BinOp::CmpEq, 0, IRArg::Link(2)),
        IRNode::BinOpCmpGate(IRArg::Link(2), BinOp::CmpEq, 5, IRArg::Link(2)),
        IRNode::Constant(5),
    ]);
    assert_eq!(m.fold_constants(), Ok(()));
    assert_eq!(m.nodes, vec![IRNode::Constant(0), IRNode::Constant(5), IRNode::Constant(5)]);
    assert_eq!(m.fold_constants(), Ok(()));
    assert_eq!(m.nodes, vec![IRNode::Constant(0), IRNode::Constant(5), IRNode::Constant(5)]);
}
