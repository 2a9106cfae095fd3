//! The node store: signal nodes addressed by stable position, and operands
//! that refer to them.
use vstd::prelude::*;
use crate::op::BinOp;

verus! {

/// An operand: a reference to another node by position, or an immediate.
#[derive(Clone, Copy, Debug, PartialEq, Eq, Structural)]
pub enum IRArg {
    Link(usize),
    Constant(i32),
}

/// One node of the signal graph.
#[derive(Clone, Debug, PartialEq, Eq)]
pub enum IRNode {
    Input(u32),
    Output(u32, IRArg),
    Constant(i32),
    BinOp(IRArg, BinOp, IRArg),
    /// Emits the gated operand when `(cond != 0) == check`, else 0.
    Gate(IRArg, bool, IRArg),
    /// Several drivers of one signal, combined by wrapping sum.
    MultiDriver(Vec<IRArg>),
    /// Compare `lhs op rhs`, then gate: emits the gated operand when the
    /// comparison holds, else 0.
    BinOpCmpGate(IRArg, BinOp, i32, IRArg),
    /// Compares an operand with itself.
    BinOpSame(IRArg, BinOp),
    /// Tombstone of a node that was taken out.
    Removed,
}

/// The mathematical value of an `IRNode`.
pub enum Node {
    Input(u32),
    Output(u32, IRArg),
    Constant(i32),
    BinOp(IRArg, BinOp, IRArg),
    Gate(IRArg, bool, IRArg),
    MultiDriver(Seq<IRArg>),
    BinOpCmpGate(IRArg, BinOp, i32, IRArg),
    BinOpSame(IRArg, BinOp),
    Removed,
}

impl View for IRNode {
    type V = Node;

    open spec fn view(&self) -> Node {
        match self {
            IRNode::Input(id) => Node::Input(*id),
            IRNode::Output(id, a) => Node::Output(*id, *a),
            IRNode::Constant(v) => Node::Constant(*v),
            IRNode::BinOp(l, op, r) => Node::BinOp(*l, *op, *r),
            IRNode::Gate(c, chk, g) => Node::Gate(*c, *chk, *g),
            IRNode::MultiDriver(args) => Node::MultiDriver(args@),
            IRNode::BinOpCmpGate(l, op, r, g) => Node::BinOpCmpGate(*l, *op, *r, *g),
            IRNode::BinOpSame(a, op) => Node::BinOpSame(*a, *op),
            IRNode::Removed => Node::Removed,
        }
    }
}

/// The operand addresses a position of a store of `len` nodes, if it is a link.
pub open spec fn arg_ok(a: IRArg, len: nat) -> bool {
    match a {
        IRArg::Link(i) => i < len,
        IRArg::Constant(_) => true,
    }
}

/// Every link held by the node addresses a position of a store of `len` nodes.
pub open spec fn links_ok(n: Node, len: nat) -> bool {
    match n {
        Node::Output(_, a) => arg_ok(a, len),
        Node::BinOp(l, _, r) => arg_ok(l, len) && arg_ok(r, len),
        Node::Gate(c, _, g) => arg_ok(c, len) && arg_ok(g, len),
        Node::MultiDriver(args) => forall|k: int| 0 <= k < args.len() ==> arg_ok(#[trigger] args[k], len),
        Node::BinOpCmpGate(l, _, _, g) => arg_ok(l, len) && arg_ok(g, len),
        Node::BinOpSame(a, _) => arg_ok(a, len),
        _ => true,
    }
}

/// Every link in the store addresses one of its positions.
pub open spec fn links_valid(nodes: Seq<Node>) -> bool {
    forall|i: int| 0 <= i < nodes.len() ==> links_ok(#[trigger] nodes[i], nodes.len())
}

/// A module of the signal graph: the node store that both passes rewrite in
/// place. Positions are stable; a node is never moved or deleted, only
/// replaced.
pub struct IRModule {
    pub nodes: Vec<IRNode>,
}

impl View for IRModule {
    type V = Seq<Node>;

    open spec fn view(&self) -> Seq<Node> {
        self.nodes@.map_values(|n: IRNode| n@)
    }
}

/// A copy of `n`.
pub fn copy_node(n: &IRNode) -> (r: IRNode)
    ensures
        r@ == n@,
{
    match n {
        IRNode::Input(id) => IRNode::Input(*id),
        IRNode::Output(id, a) => IRNode::Output(*id, *a),
        IRNode::Constant(v) => IRNode::Constant(*v),
        IRNode::BinOp(l, op, r) => IRNode::BinOp(*l, *op, *r),
        IRNode::Gate(c, chk, g) => IRNode::Gate(*c, *chk, *g),
        IRNode::MultiDriver(args) => {
            let mut out: Vec<IRArg> = Vec::with_capacity(args.len());
            let mut k: usize = 0;
            while k < args.len()
                invariant
                    k <= args@.len(),
                    out@ == args@.subrange(0, k as int),
                decreases args@.len() - k,
            {
                out.push(args[k]);
                k = k + 1;
            }
            assert(out@ =~= args@);
            IRNode::MultiDriver(out)
        },
        IRNode::BinOpCmpGate(l, op, r, g) => IRNode::BinOpCmpGate(*l, *op, *r, *g),
        IRNode::BinOpSame(a, op) => IRNode::BinOpSame(*a, *op),
        IRNode::Removed => IRNode::Removed,
    }
}

pub(crate) proof fn lemma_view_update(m: Seq<IRNode>, i: int, n: IRNode)
    requires
        0 <= i < m.len(),
    ensures
        m.update(i, n).map_values(|x: IRNode| x@) == m.map_values(|x: IRNode| x@).update(i, n@),
{
    assert(m.update(i, n).map_values(|x: IRNode| x@) =~= m.map_values(|x: IRNode| x@).update(i, n@));
}

impl IRModule {
    /// A module over the given nodes.
    pub fn new(nodes: Vec<IRNode>) -> (m: IRModule)
        ensures
            m.nodes == nodes,
    {
        IRModule { nodes }
    }

    /// The node at `index`.
    pub fn get(&self, index: usize) -> (n: &IRNode)
        requires
            index < self@.len(),
        ensures
            n@ == self@[index as int],
    {
        &self.nodes[index]
    }

    /// Replaces the node at `index`; every other position keeps its node.
    pub fn update(&mut self, index: usize, node: IRNode)
        requires
            index < old(self)@.len(),
        ensures
            final(self)@ == old(self)@.update(index as int, node@),
    {
        proof {
            lemma_view_update(self.nodes@, index as int, node);
        }
        self.nodes.set(index, node);
    }

    /// Number of positions in the store.
    pub fn len(&self) -> (n: usize)
        ensures
            n == self@.len(),
    {
        self.nodes.len()
    }
}

} // verus!
