use circuit_ir::ir::{IRArg, IRModule, IRNode};
use circuit_ir::op::BinOp;

#[test]
fn unreached_node_is_removed() {
    let mut m = IRModule::new(vec![
        IRNode::Input(0),
        IRNode::Output(0, IRArg::Link(0)),
        IRNode::BinOp(IRArg::Link(0), BinOp::Add, IRArg::Constant(1)),
    ]);
    m.prune();
    assert_eq!(m.len(), 3);
    assert_eq!(m.nodes[0], IRNode::Input(0));
    assert_eq!(m.nodes[1], IRNode::Output(0, IRArg::Link(0)));
    assert_eq!(m.nodes[2], IRNode::Removed);
}

#[test]
fn chain_from_output_survives() {
    let nodes = vec![
        IRNode::Output(0, IRArg::Link(1)),
        IRNode::BinOp(IRArg::Link(2), BinOp::Add, IRArg::Constant(1)),
        IRNode::Input(0),
    ];
    let mut m = IRModule::new(nodes.clone());
    m.prune();
    assert_eq!(m.nodes, nodes);
}

#[test]
fn inputs_survive_without_readers() {
    let mut m = IRModule::new(vec![IRNode::Input(0), IRNode::Input(1), IRNode::Constant(3)]);
    m.prune();
    assert_eq!(m.nodes, vec![IRNode::Input(0), IRNode::Input(1), IRNode::Removed]);
}

#[test]
fn every_operand_kind_is_followed() {
    let nodes = vec![
        IRNode::Output(0, IRArg::Link(1)),
        IRNode::MultiDriver(vec![IRArg::Link(2), IRArg::Link(3), IRArg::Constant(1)]),
        IRNode::Gate(IRArg::Link(4), true, IRArg::Link(5)),
        IRNode::BinOpCmpGate(IRArg::Link(6), BinOp::CmpEq, 0, IRArg::Link(7)),
        IRNode::Constant(1),
        IRNode::BinOpSame(IRArg::Link(8), BinOp::CmpLt),
        IRNode::Removed,
        IRNode::Constant(2),
        IRNode::Input(3),
        IRNode::Constant(9),
    ];
    let mut m = IRModule::new(nodes.clone());
    m.prune();
    let mut expected = nodes;
    expected[9] = IRNode::Removed;
    assert_eq!(m.nodes, expected);
}

#[test]
fn cycles_terminate() {
    let mut m = IRModule::new(vec![
        IRNode::Output(0, IRArg::Link(1)),
        IRNode::BinOp(IRArg::Link(2), BinOp::Add, IRArg::Link(1)),
        IRNode::BinOp(IRArg::Link(1), BinOp::Sub, IRArg::Constant(1)),
        IRNode::BinOp(IRArg::Link(3), BinOp::Sub, IRArg::Link(1)),
    ]);
    m.prune();
    assert_eq!(m.nodes[1], IRNode::BinOp(IRArg::Link(2), BinOp::Add, IRArg::Link(1)));
    assert_eq!(m.nodes[3], IRNode::Removed);
}

#[test]
fn empty_store_is_fine() {
    let mut m = IRModule::new(Vec::new());
    m.prune();
    assert_eq!(m.fold_constants(), Ok(()));
    assert_eq!(m.len(), 0);
}

#[test]
fn store_reads_and_replaces_by_position() {
    let mut m = IRModule::new(vec![IRNode::Input(0), IRNode::Constant(1)]);
    assert_eq!(*m.get(1), IRNode::Constant(1));
    m.update(1, IRNode::Constant(7));
    assert_eq!(*m.get(1), IRNode::Constant(7));
    assert_eq!(*m.get(0), IRNode::Input(0));
    assert_eq!(m.len(), 2);
}
