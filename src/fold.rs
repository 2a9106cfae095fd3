//! Constant folding: sweeps over the store, collapsing what can be computed
//! at compile time, until a sweep makes no counted rewrite.
use vstd::prelude::*;
use crate::ir::{IRArg, IRModule, IRNode, Node, links_ok, links_valid, arg_ok, copy_node};
use crate::op::{BinOp, lemma_fold_self_compare};

verus! {

/// Most sweeps that folding makes before it gives up on reaching a fixed point.
pub const MAX_FOLD_SWEEPS: usize = 10000;

/// Why constant folding stopped without reaching a fixed point.
#[derive(Clone, Copy, Debug, PartialEq, Eq, Structural)]
pub enum FoldError {
    /// Every one of `MAX_FOLD_SWEEPS` sweeps made a counted rewrite.
    SweepLimit,
}

/// A store that folding accepts: every link is in range and no node is a
/// self-comparison node, which only arises after folding.
pub open spec fn foldable(nodes: Seq<Node>) -> bool {
    &&& links_valid(nodes)
    &&& forall|i: int| 0 <= i < nodes.len() ==> !(#[trigger] nodes[i] is BinOpSame)
}

/// One hop of indirection removal: a link to a node that is currently a
/// constant becomes that constant; any other operand stays as it is.
pub open spec fn resolve(nodes: Seq<Node>, a: IRArg) -> IRArg {
    match a {
        IRArg::Link(i) => match nodes[i as int] {
            Node::Constant(v) => IRArg::Constant(v),
            _ => a,
        },
        IRArg::Constant(_) => a,
    }
}

/// The node that an operand currently denotes: a copy of the linked node,
/// or a constant node for an immediate.
pub open spec fn materialize(nodes: Seq<Node>, a: IRArg) -> Node {
    match a {
        IRArg::Link(i) => nodes[i as int],
        IRArg::Constant(v) => Node::Constant(v),
    }
}

/// The operands of `args`, in order, that do not resolve to a constant.
pub open spec fn kept_args(nodes: Seq<Node>, args: Seq<IRArg>) -> Seq<IRArg>
    decreases args.len(),
{
    if args.len() == 0 {
        seq![]
    } else {
        let k = kept_args(nodes, args.drop_last());
        if resolve(nodes, args.last()) is Constant {
            k
        } else {
            k.push(args.last())
        }
    }
}

/// Wrapping sum of the values of the operands of `args` that resolve to a
/// constant.
pub open spec fn const_sum(nodes: Seq<Node>, args: Seq<IRArg>) -> i32
    decreases args.len(),
{
    if args.len() == 0 {
        0
    } else {
        let s = const_sum(nodes, args.drop_last());
        match resolve(nodes, args.last()) {
            IRArg::Constant(v) => s.wrapping_add(v),
            _ => s,
        }
    }
}

/// The rewrite of the multi-driver node with operands `args`, and whether it
/// counts: constants are summed into one trailing operand, or the node
/// becomes that sum when nothing else drives it. The rewrite counts when it
/// changes the node.
pub open spec fn fold_multi(nodes: Seq<Node>, args: Seq<IRArg>) -> (Node, bool) {
    let kept = kept_args(nodes, args);
    let sum = const_sum(nodes, args);
    let n = if sum != 0 || kept.len() != args.len() {
        if kept.len() == 0 {
            Node::Constant(sum)
        } else if sum != 0 {
            Node::MultiDriver(kept.push(IRArg::Constant(sum)))
        } else {
            Node::MultiDriver(kept)
        }
    } else {
        Node::MultiDriver(args)
    };
    (n, n != Node::MultiDriver(args))
}

/// The node that folding writes at position `i` of `nodes`, and whether the
/// rewrite counts toward another sweep.
pub open spec fn fold_step(nodes: Seq<Node>, i: int) -> (Node, bool) {
    match nodes[i] {
        Node::Output(id, a) => (Node::Output(id, resolve(nodes, a)), false),
        Node::BinOp(l, op, r) => {
            let l2 = resolve(nodes, l);
            let r2 = resolve(nodes, r);
            if l2 is Constant && r2 is Constant {
                (Node::Constant(op.spec_fold(l2->Constant_0, r2->Constant_0)), true)
            } else if op.spec_is_compare() && l2 is Link && l2 == r2 {
                (Node::Constant(op.spec_fold_same()), true)
            } else {
                (Node::BinOp(l2, op, r2), false)
            }
        },
        Node::Gate(c, check, g) => {
            let c2 = resolve(nodes, c);
            let g2 = resolve(nodes, g);
            if g2 == IRArg::Constant(0) {
                (Node::Constant(0), true)
            } else if c2 is Constant {
                if (c2->Constant_0 != 0) == check {
                    (materialize(nodes, g2), true)
                } else {
                    (Node::Constant(0), true)
                }
            } else {
                (Node::Gate(c2, check, g2), false)
            }
        },
        Node::MultiDriver(args) => fold_multi(nodes, args),
        Node::BinOpCmpGate(l, op, r, g) => match resolve(nodes, l) {
            IRArg::Constant(lv) => if op.spec_fold(lv, r) != 0 {
                (materialize(nodes, g), true)
            } else {
                (Node::Constant(0), true)
            },
            _ => (nodes[i], false),
        },
        _ => (nodes[i], false),
    }
}

/// The store after folding positions `0..k` in order, each seeing the
/// rewrites before it, and whether any of those rewrites counted.
pub open spec fn sweep_prefix(nodes: Seq<Node>, k: nat) -> (Seq<Node>, bool)
    decreases k,
{
    if k == 0 {
        (nodes, false)
    } else {
        let (s, c) = sweep_prefix(nodes, (k - 1) as nat);
        let (n, d) = fold_step(s, k - 1);
        (s.update(k - 1, n), c || d)
    }
}

/// One full sweep over the store.
pub open spec fn sweep(nodes: Seq<Node>) -> (Seq<Node>, bool) {
    sweep_prefix(nodes, nodes.len())
}

/// Sweeps, at most `fuel` of them, until one makes no counted rewrite: the
/// store then, and whether that fixed point was reached.
pub open spec fn fold_run(nodes: Seq<Node>, fuel: nat) -> (Seq<Node>, bool)
    decreases fuel,
{
    if fuel == 0 {
        (nodes, false)
    } else {
        let (s, changed) = sweep(nodes);
        if !changed {
            (s, true)
        } else {
            fold_run(s, (fuel - 1) as nat)
        }
    }
}

proof fn lemma_kept_args_ok(nodes: Seq<Node>, args: Seq<IRArg>, len: nat)
    requires
        forall|k: int| 0 <= k < args.len() ==> arg_ok(#[trigger] args[k], len),
    ensures
        forall|k: int|
            0 <= k < kept_args(nodes, args).len() ==> arg_ok(#[trigger] kept_args(nodes, args)[k], len),
    decreases args.len(),
{
    if args.len() > 0 {
        let d = args.drop_last();
        assert forall|k: int| 0 <= k < d.len() implies arg_ok(#[trigger] d[k], len) by {
            assert(d[k] == args[k]);
        }
        lemma_kept_args_ok(nodes, d, len);
        assert(arg_ok(args[args.len() - 1], len));
        let kept = kept_args(nodes, args);
        let k0 = kept_args(nodes, d);
        assert forall|j: int| 0 <= j < kept.len() implies arg_ok(#[trigger] kept[j], len) by {
            if j < k0.len() {
                assert(kept[j] == k0[j]);
            }
        }
    }
}

/// Folding one position keeps the store foldable.
proof fn lemma_fold_step_foldable(nodes: Seq<Node>, i: int)
    requires
        foldable(nodes),
        0 <= i < nodes.len(),
    ensures
        foldable(nodes.update(i, fold_step(nodes, i).0)),
{
    let n = fold_step(nodes, i).0;
    let len = nodes.len();
    assert(links_ok(nodes[i], len));
    match nodes[i] {
        Node::MultiDriver(args) => {
            lemma_kept_args_ok(nodes, args, len);
            let kept = kept_args(nodes, args);
            let sum = const_sum(nodes, args);
            if sum != 0 && kept.len() != 0 {
                let p = kept.push(IRArg::Constant(sum));
                assert forall|k: int| 0 <= k < p.len() implies arg_ok(#[trigger] p[k], len) by {
                    if k < kept.len() {
                        assert(p[k] == kept[k]);
                    }
                }
            }
        },
        Node::Gate(c, check, g) => {
            let g2 = resolve(nodes, g);
            if let IRArg::Link(j) = g2 {
                assert(links_ok(nodes[j as int], len));
            }
        },
        Node::BinOpCmpGate(l, op, r, g) => {
            if let IRArg::Link(j) = g {
                assert(links_ok(nodes[j as int], len));
            }
        },
        _ => {},
    }
    let u = nodes.update(i, n);
    assert forall|k: int| 0 <= k < u.len() implies links_ok(#[trigger] u[k], u.len()) && !(u[k] is BinOpSame) by {
        if k != i {
            assert(links_ok(nodes[k], len));
        }
    }
}

/// A comparison whose two operands are the same link folds to the
/// operator's self-comparison outcome, whether or not the link currently
/// denotes a constant.
pub proof fn lemma_compare_with_self(nodes: Seq<Node>, i: int, l: usize, op: BinOp)
    requires
        0 <= i < nodes.len(),
        nodes[i] == Node::BinOp(IRArg::Link(l), op, IRArg::Link(l)),
        op.spec_is_compare(),
    ensures
        fold_step(nodes, i) == (Node::Constant(op.spec_fold_same()), true),
{
    if let IRArg::Constant(v) = resolve(nodes, IRArg::Link(l)) {
        lemma_fold_self_compare(op, v);
    }
}

/// A gate whose gated operand is the immediate 0 folds to 0, whatever its
/// condition and check.
pub proof fn lemma_gate_zero_gated(nodes: Seq<Node>, i: int, cond: IRArg, check: bool)
    requires
        0 <= i < nodes.len(),
        nodes[i] == Node::Gate(cond, check, IRArg::Constant(0)),
    ensures
        fold_step(nodes, i) == (Node::Constant(0), true),
{
}

/// A gate that checks for a true condition and has the immediate 1 as its
/// condition folds to what its gated operand denotes after resolution.
pub proof fn lemma_gate_open(nodes: Seq<Node>, i: int, gated: IRArg)
    requires
        0 <= i < nodes.len(),
        nodes[i] == Node::Gate(IRArg::Constant(1), true, gated),
    ensures
        fold_step(nodes, i) == (materialize(nodes, resolve(nodes, gated)), true),
{
}

/// A gate that checks for a true condition and has the immediate 0 as its
/// condition folds to 0.
pub proof fn lemma_gate_closed(nodes: Seq<Node>, i: int, gated: IRArg)
    requires
        0 <= i < nodes.len(),
        nodes[i] == Node::Gate(IRArg::Constant(0), true, gated),
    ensures
        fold_step(nodes, i).0 == Node::Constant(0),
        fold_step(nodes, i).1,
{
}

/// The drivers 2, 3 and a link to `x`: the immediates merge into one
/// trailing 5 while `x` is not a constant, and everything collapses to the
/// wrapping sum `5 + k` when `x` is the constant `k`.
pub proof fn lemma_multi_driver_sum(nodes: Seq<Node>, i: int, x: usize)
    requires
        0 <= i < nodes.len(),
        x < nodes.len(),
        nodes[i] == Node::MultiDriver(seq![IRArg::Constant(2), IRArg::Constant(3), IRArg::Link(x)]),
    ensures
        !(nodes[x as int] is Constant) ==> fold_step(nodes, i)
            == (Node::MultiDriver(seq![IRArg::Link(x), IRArg::Constant(5)]), true),
        nodes[x as int] is Constant ==> fold_step(nodes, i)
            == (Node::Constant(5i32.wrapping_add(nodes[x as int]->Constant_0)), true),
{
    let args = seq![IRArg::Constant(2), IRArg::Constant(3), IRArg::Link(x)];
    let a2 = args.drop_last();
    let a1 = a2.drop_last();
    assert(a2 =~= seq![IRArg::Constant(2), IRArg::Constant(3)]);
    assert(a1 =~= seq![IRArg::Constant(2)]);
    assert(a1.drop_last() =~= Seq::<IRArg>::empty());
    assert(kept_args(nodes, a1.drop_last()) =~= Seq::<IRArg>::empty());
    assert(const_sum(nodes, a1.drop_last()) == 0);
    assert(a1.last() == IRArg::Constant(2));
    assert(kept_args(nodes, a1) =~= Seq::<IRArg>::empty());
    assert(a2.last() == IRArg::Constant(3));
    assert(a2.drop_last() == a1);
    assert(args.last() == IRArg::Link(x));
    assert(kept_args(nodes, a2) =~= Seq::<IRArg>::empty());
    assert(const_sum(nodes, a1) == 2);
    assert(const_sum(nodes, a2) == 5);
    if !(nodes[x as int] is Constant) {
        assert(kept_args(nodes, args) =~= seq![IRArg::Link(x)]);
        assert(seq![IRArg::Link(x)].push(IRArg::Constant(5)) =~= seq![IRArg::Link(x), IRArg::Constant(5)]);
    }
}

/// The two stores have the same length, and the same constants at the same
/// positions.
pub open spec fn same_consts(a: Seq<Node>, b: Seq<Node>) -> bool {
    &&& a.len() == b.len()
    &&& forall|k: int| 0 <= k < a.len() ==> ((#[trigger] a[k] is Constant) <==> b[k] is Constant)
    &&& forall|k: int| 0 <= k < a.len() && a[k] is Constant ==> a[k] == b[k]
}

proof fn lemma_resolve_same(a: Seq<Node>, b: Seq<Node>, x: IRArg)
    requires
        same_consts(a, b),
        arg_ok(x, a.len()),
    ensures
        resolve(a, x) == resolve(b, x),
        resolve(a, resolve(a, x)) == resolve(a, x),
{
    if let IRArg::Link(j) = x {
        if a[j as int] is Constant {
            assert(a[j as int] == b[j as int]);
        } else {
            assert(!(b[j as int] is Constant));
        }
    }
}

proof fn lemma_multi_same(a: Seq<Node>, b: Seq<Node>, args: Seq<IRArg>)
    requires
        same_consts(a, b),
        forall|k: int| 0 <= k < args.len() ==> arg_ok(#[trigger] args[k], a.len()),
    ensures
        kept_args(a, args) == kept_args(b, args),
        const_sum(a, args) == const_sum(b, args),
    decreases args.len(),
{
    if args.len() > 0 {
        let d = args.drop_last();
        assert forall|k: int| 0 <= k < d.len() implies arg_ok(#[trigger] d[k], a.len()) by {
            assert(d[k] == args[k]);
        }
        lemma_multi_same(a, b, d);
        assert(arg_ok(args[args.len() - 1], a.len()));
        lemma_resolve_same(a, b, args.last());
    }
}

/// Stores that agree on position `k` and on their constants agree on
/// whether folding `k` counts, and on the result when it does not.
proof fn lemma_step_same(a: Seq<Node>, b: Seq<Node>, k: int)
    requires
        same_consts(a, b),
        0 <= k < a.len(),
        a[k] == b[k],
        links_ok(a[k], a.len()),
    ensures
        fold_step(a, k).1 == fold_step(b, k).1,
        !fold_step(a, k).1 ==> fold_step(a, k).0 == fold_step(b, k).0,
{
    match a[k] {
        Node::Output(_, x) => lemma_resolve_same(a, b, x),
        Node::BinOp(l, _, r) => {
            lemma_resolve_same(a, b, l);
            lemma_resolve_same(a, b, r);
        },
        Node::Gate(c, _, g) => {
            lemma_resolve_same(a, b, c);
            lemma_resolve_same(a, b, g);
        },
        Node::MultiDriver(args) => lemma_multi_same(a, b, args),
        Node::BinOpCmpGate(l, _, _, _) => lemma_resolve_same(a, b, l),
        _ => {},
    }
}

/// A rewrite that does not count turns no node into a constant and no
/// constant into anything else.
proof fn lemma_uncounted_keeps_const(a: Seq<Node>, k: int)
    requires
        0 <= k < a.len(),
        !fold_step(a, k).1,
    ensures
        (fold_step(a, k).0 is Constant) <==> (a[k] is Constant),
        a[k] is Constant ==> fold_step(a, k).0 == a[k],
{
}

/// Along a sweep that never counts, the store keeps its constants, the
/// positions before `k` hold what folding wrote there, and the others are
/// untouched.
proof fn lemma_quiet_prefix(nodes: Seq<Node>, k: nat)
    requires
        foldable(nodes),
        k <= nodes.len(),
        !sweep_prefix(nodes, k).1,
    ensures
        same_consts(sweep_prefix(nodes, k).0, nodes),
        forall|j: int| 0 <= j < k ==> #[trigger] sweep_prefix(nodes, k).0[j] == fold_step(nodes, j).0,
        forall|j: int| 0 <= j < k ==> !(#[trigger] fold_step(nodes, j).1),
        forall|j: int| k <= j < nodes.len() ==> #[trigger] sweep_prefix(nodes, k).0[j] == nodes[j],
    decreases k,
{
    if k > 0 {
        let km = (k - 1) as nat;
        lemma_quiet_prefix(nodes, km);
        let s = sweep_prefix(nodes, km).0;
        assert(s[km as int] == nodes[km as int]);
        assert(links_ok(nodes[km as int], nodes.len()));
        lemma_step_same(s, nodes, km as int);
        lemma_uncounted_keeps_const(s, km as int);
        let u = sweep_prefix(nodes, k).0;
        assert(u == s.update(km as int, fold_step(s, km as int).0));
        assert forall|j: int| 0 <= j < u.len() implies ((#[trigger] u[j] is Constant) <==> nodes[j] is Constant)
            && (u[j] is Constant ==> u[j] == nodes[j]) by {
            if j != km {
                assert(u[j] == s[j]);
            }
        }
    }
}

/// A store that a sweep leaves without a counted rewrite is one that the
/// next sweep leaves exactly as it is.
proof fn lemma_quiet_sweep_stable(nodes: Seq<Node>)
    requires
        foldable(nodes),
        !sweep(nodes).1,
    ensures
        sweep(sweep(nodes).0) == (sweep(nodes).0, false),
{
    let n = nodes.len();
    lemma_quiet_prefix(nodes, n);
    let s = sweep(nodes).0;
    assert forall|k: int| 0 <= k < n implies #[trigger] fold_step(s, k) == (s[k], false) by {
        assert(s[k] == fold_step(nodes, k).0);
        assert(!fold_step(nodes, k).1);
        assert(links_ok(nodes[k], n));
        match nodes[k] {
            Node::Output(_, x) => {
                lemma_resolve_same(nodes, s, x);
                lemma_resolve_same(s, nodes, resolve(nodes, x));
                lemma_resolve_same(nodes, s, resolve(nodes, x));
            },
            Node::BinOp(l, _, r) => {
                lemma_resolve_same(nodes, s, l);
                lemma_resolve_same(nodes, s, r);
                lemma_resolve_same(s, nodes, resolve(nodes, l));
                lemma_resolve_same(s, nodes, resolve(nodes, r));
                lemma_resolve_same(nodes, s, resolve(nodes, l));
                lemma_resolve_same(nodes, s, resolve(nodes, r));
            },
            Node::Gate(c, _, g) => {
                lemma_resolve_same(nodes, s, c);
                lemma_resolve_same(nodes, s, g);
                lemma_resolve_same(s, nodes, resolve(nodes, c));
                lemma_resolve_same(s, nodes, resolve(nodes, g));
                lemma_resolve_same(nodes, s, resolve(nodes, c));
                lemma_resolve_same(nodes, s, resolve(nodes, g));
            },
            Node::MultiDriver(args) => {
                lemma_multi_same(s, nodes, args);
            },
            Node::BinOpCmpGate(l, _, _, _) => {
                lemma_resolve_same(nodes, s, l);
            },
            _ => {},
        }
    }
    lemma_stable_prefix(s, n);
}

proof fn lemma_stable_prefix(s: Seq<Node>, k: nat)
    requires
        k <= s.len(),
        forall|j: int| 0 <= j < s.len() ==> #[trigger] fold_step(s, j) == (s[j], false),
    ensures
        sweep_prefix(s, k) == (s, false),
    decreases k,
{
    if k > 0 {
        lemma_stable_prefix(s, (k - 1) as nat);
        assert(fold_step(s, k - 1) == (s[k - 1], false));
        assert(s.update(k - 1, s[k - 1]) =~= s);
    }
}

proof fn lemma_sweep_prefix_keeps(nodes: Seq<Node>, k: nat)
    requires
        foldable(nodes),
        k <= nodes.len(),
    ensures
        foldable(sweep_prefix(nodes, k).0),
        sweep_prefix(nodes, k).0.len() == nodes.len(),
    decreases k,
{
    if k > 0 {
        let km = (k - 1) as nat;
        lemma_sweep_prefix_keeps(nodes, km);
        let s = sweep_prefix(nodes, km).0;
        lemma_fold_step_foldable(s, km as int);
    }
}

/// Folding a store that reached a fixed point again changes nothing: the
/// first sweep makes no counted rewrite and leaves every node as it was.
pub proof fn lemma_fold_idempotent(nodes: Seq<Node>, fuel: nat, again: nat)
    requires
        foldable(nodes),
        fold_run(nodes, fuel).1,
        again > 0,
    ensures
        sweep(fold_run(nodes, fuel).0) == (fold_run(nodes, fuel).0, false),
        fold_run(fold_run(nodes, fuel).0, again) == (fold_run(nodes, fuel).0, true),
    decreases fuel,
{
    lemma_sweep_prefix_keeps(nodes, nodes.len());
    if !sweep(nodes).1 {
        lemma_quiet_sweep_stable(nodes);
    } else {
        lemma_fold_idempotent(sweep(nodes).0, (fuel - 1) as nat, again);
    }
}

proof fn lemma_prefix_untouched(nodes: Seq<Node>, k: nat, j: int)
    requires
        k <= j < nodes.len(),
    ensures
        sweep_prefix(nodes, k).0.len() == nodes.len(),
        sweep_prefix(nodes, k).0[j] == nodes[j],
    decreases k,
{
    if k > 0 {
        lemma_prefix_untouched(nodes, (k - 1) as nat, j);
    }
}

proof fn lemma_prefix_written(nodes: Seq<Node>, k: int, j: nat)
    requires
        0 <= k < j <= nodes.len(),
    ensures
        sweep_prefix(nodes, j).0[k] == fold_step(sweep_prefix(nodes, k as nat).0, k).0,
    decreases j,
{
    lemma_prefix_untouched(nodes, (j - 1) as nat, (j - 1) as int);
    if j - 1 > k {
        lemma_prefix_written(nodes, k, (j - 1) as nat);
    }
}

/// What a sweep leaves at position `k`: the fold of the node that was
/// there, seen against the positions before it as the sweep rewrote them.
pub proof fn lemma_sweep_at(nodes: Seq<Node>, k: int)
    requires
        0 <= k < nodes.len(),
    ensures
        sweep_prefix(nodes, k as nat).0.len() == nodes.len(),
        sweep_prefix(nodes, k as nat).0[k] == nodes[k],
        sweep(nodes).0[k] == fold_step(sweep_prefix(nodes, k as nat).0, k).0,
        sweep(nodes).0.len() == nodes.len(),
{
    lemma_prefix_untouched(nodes, k as nat, k);
    lemma_prefix_written(nodes, k, nodes.len());
    lemma_prefix_len(nodes, nodes.len());
}

proof fn lemma_prefix_len(nodes: Seq<Node>, k: nat)
    requires
        k <= nodes.len(),
    ensures
        sweep_prefix(nodes, k).0.len() == nodes.len(),
    decreases k,
{
    if k > 0 {
        lemma_prefix_len(nodes, (k - 1) as nat);
    }
}

/// A constant node stays that constant through any number of sweeps.
pub proof fn lemma_constant_stays(nodes: Seq<Node>, fuel: nat, k: int, v: i32)
    requires
        0 <= k < nodes.len(),
        nodes[k] == Node::Constant(v),
    ensures
        fold_run(nodes, fuel).0.len() == nodes.len(),
        fold_run(nodes, fuel).0[k] == Node::Constant(v),
    decreases fuel,
{
    if fuel > 0 {
        lemma_sweep_at(nodes, k);
        lemma_constant_stays(sweep(nodes).0, (fuel - 1) as nat, k, v);
    }
}

/// Folding with at least one sweep turns a comparison of a link with
/// itself into the operator's self-comparison outcome, and it stays so.
pub proof fn lemma_fold_compare_with_self(nodes: Seq<Node>, fuel: nat, k: int, l: usize, op: BinOp)
    requires
        fuel > 0,
        0 <= k < nodes.len(),
        nodes[k] == Node::BinOp(IRArg::Link(l), op, IRArg::Link(l)),
        op.spec_is_compare(),
    ensures
        fold_run(nodes, fuel).0[k] == Node::Constant(op.spec_fold_same()),
{
    lemma_sweep_at(nodes, k);
    lemma_compare_with_self(sweep_prefix(nodes, k as nat).0, k, l, op);
    lemma_constant_stays(sweep(nodes).0, (fuel - 1) as nat, k, op.spec_fold_same());
}

/// Folding with at least one sweep turns a gate whose gated operand is the
/// immediate 0 into 0, and it stays so.
pub proof fn lemma_fold_gate_zero_gated(nodes: Seq<Node>, fuel: nat, k: int, cond: IRArg, check: bool)
    requires
        fuel > 0,
        0 <= k < nodes.len(),
        nodes[k] == Node::Gate(cond, check, IRArg::Constant(0)),
    ensures
        fold_run(nodes, fuel).0[k] == Node::Constant(0),
{
    lemma_sweep_at(nodes, k);
    lemma_gate_zero_gated(sweep_prefix(nodes, k as nat).0, k, cond, check);
    lemma_constant_stays(sweep(nodes).0, (fuel - 1) as nat, k, 0);
}

/// The first sweep replaces a gate with condition 1 that checks for true by
/// what its gated operand denotes when the sweep reaches it; with
/// condition 0 it becomes 0 and stays 0.
pub proof fn lemma_fold_gate_pass_through(nodes: Seq<Node>, fuel: nat, k: int, cond: i32, gated: IRArg)
    requires
        fuel > 0,
        0 <= k < nodes.len(),
        cond == 0 || cond == 1,
        nodes[k] == Node::Gate(IRArg::Constant(cond), true, gated),
    ensures
        cond == 1 ==> sweep(nodes).0[k] == materialize(
            sweep_prefix(nodes, k as nat).0,
            resolve(sweep_prefix(nodes, k as nat).0, gated),
        ),
        cond == 0 ==> fold_run(nodes, fuel).0[k] == Node::Constant(0),
{
    lemma_sweep_at(nodes, k);
    let s = sweep_prefix(nodes, k as nat).0;
    if cond == 1 {
        lemma_gate_open(s, k, gated);
    } else {
        lemma_gate_closed(s, k, gated);
        lemma_constant_stays(sweep(nodes).0, (fuel - 1) as nat, k, 0);
    }
}

/// Whether the two operand lists are equal.
fn same_args(a: &Vec<IRArg>, b: &Vec<IRArg>) -> (r: bool)
    ensures
        r == (a@ == b@),
{
    if a.len() != b.len() {
        return false;
    }
    let mut k: usize = 0;
    while k < a.len()
        invariant
            a@.len() == b@.len(),
            k <= a@.len(),
            forall|j: int| 0 <= j < k ==> a@[j] == b@[j],
        decreases a@.len() - k,
    {
        if a[k] != b[k] {
            return false;
        }
        k = k + 1;
    }
    assert(a@ =~= b@);
    true
}

impl IRModule {
    /// The operand with one hop of indirection removed (see `resolve`).
    fn fix_const(&self, arg: &IRArg) -> (r: IRArg)
        requires
            arg_ok(*arg, self@.len()),
        ensures
            r == resolve(self@, *arg),
    {
        if let IRArg::Link(id) = arg {
            let node = self.get(*id);
            if let IRNode::Constant(n) = node {
                return IRArg::Constant(*n);
            }
        }
        *arg
    }

    /// A fresh node equal to what the operand currently denotes (see
    /// `materialize`).
    fn clone_arg(&self, arg: &IRArg) -> (r: IRNode)
        requires
            arg_ok(*arg, self@.len()),
        ensures
            r@ == materialize(self@, *arg),
    {
        match arg {
            IRArg::Link(id) => copy_node(self.get(*id)),
            IRArg::Constant(n) => IRNode::Constant(*n),
        }
    }


    /// Wrapping sum of the operands that resolve to a constant, and the
    /// others in order.
    fn split_multi(&self, args: &Vec<IRArg>) -> (r: (i32, Vec<IRArg>))
        requires
            forall|k: int| 0 <= k < args@.len() ==> arg_ok(#[trigger] args@[k], self@.len()),
        ensures
            r.0 == const_sum(self@, args@),
            r.1@ == kept_args(self@, args@),
    {
        let mut const_sum_v: i32 = 0;
        let mut filtered: Vec<IRArg> = Vec::new();
        let mut k: usize = 0;
        while k < args.len()
            invariant
                k <= args@.len(),
                forall|j: int| 0 <= j < args@.len() ==> arg_ok(#[trigger] args@[j], self@.len()),
                const_sum_v == const_sum(self@, args@.subrange(0, k as int)),
                filtered@ == kept_args(self@, args@.subrange(0, k as int)),
            decreases args@.len() - k,
        {
            let a = args[k];
            let ra = self.fix_const(&a);
            assert(args@.subrange(0, k + 1).drop_last() =~= args@.subrange(0, k as int));
            match ra {
                IRArg::Constant(n) => {
                    const_sum_v = const_sum_v.wrapping_add(n);
                },
                IRArg::Link(_) => {
                    filtered.push(a);
                },
            }
            k = k + 1;
        }
        assert(args@.subrange(0, k as int) =~= args@);
        (const_sum_v, filtered)
    }

    /// Folds the node at `index` (see `fold_step`); returns whether the
    /// rewrite counts.
    fn fold_at(&mut self, index: usize) -> (counted: bool)
        requires
            foldable(old(self)@),
            index < old(self)@.len(),
        ensures
            final(self)@ == old(self)@.update(index as int, fold_step(old(self)@, index as int).0),
            counted == fold_step(old(self)@, index as int).1,
            foldable(final(self)@),
    {
        proof {
            lemma_fold_step_foldable(self@, index as int);
            assert(links_ok(self@[index as int], self@.len()));
        }
        let node = copy_node(self.get(index));
        let (new_node, counted) = match node {
            IRNode::Output(id, arg) => (IRNode::Output(id, self.fix_const(&arg)), false),
            IRNode::BinOp(lhs, op, rhs) => {
                let lhs = self.fix_const(&lhs);
                let rhs = self.fix_const(&rhs);
                if let (IRArg::Constant(const_l), IRArg::Constant(const_r)) = (lhs, rhs) {
                    (IRNode::Constant(op.fold(const_l, const_r)), true)
                } else if op.is_compare() && matches!(lhs, IRArg::Link(_)) && lhs == rhs {
                    (IRNode::Constant(op.fold_same()), true)
                } else {
                    (IRNode::BinOp(lhs, op, rhs), false)
                }
            },
            IRNode::Gate(cond, check, gated) => {
                let cond = self.fix_const(&cond);
                let gated = self.fix_const(&gated);
                if gated == IRArg::Constant(0) {
                    (IRNode::Constant(0), true)
                } else if let IRArg::Constant(const_cond) = cond {
                    if (const_cond != 0) == check {
                        (self.clone_arg(&gated), true)
                    } else {
                        (IRNode::Constant(0), true)
                    }
                } else {
                    (IRNode::Gate(cond, check, gated), false)
                }
            },
            IRNode::MultiDriver(args) => {
                let (const_sum_v, mut filtered) = self.split_multi(&args);
                if const_sum_v != 0 || filtered.len() != args.len() {
                    if filtered.len() == 0 {
                        (IRNode::Constant(const_sum_v), true)
                    } else {
                        if const_sum_v != 0 {
                            filtered.push(IRArg::Constant(const_sum_v));
                        }
                        let changed = !same_args(&filtered, &args);
                        (IRNode::MultiDriver(filtered), changed)
                    }
                } else {
                    (IRNode::MultiDriver(args), false)
                }
            },
            IRNode::BinOpCmpGate(lhs, op, rhs, gated) => {
                if let IRArg::Constant(const_lhs) = self.fix_const(&lhs) {
                    if op.fold(const_lhs, rhs) != 0 {
                        (self.clone_arg(&gated), true)
                    } else {
                        (IRNode::Constant(0), true)
                    }
                } else {
                    (IRNode::BinOpCmpGate(lhs, op, rhs, gated), false)
                }
            },
            other => (other, false),
        };
        self.update(index, new_node);
        counted
    }

    /// One sweep over every position in order (see `sweep`); returns whether
    /// any rewrite counted.
    fn sweep(&mut self) -> (changed: bool)
        requires
            foldable(old(self)@),
        ensures
            (final(self)@, changed) == sweep(old(self)@),
            final(self)@.len() == old(self)@.len(),
            foldable(final(self)@),
    {
        let ghost start = self@;
        let mut changed = false;
        let mut index: usize = 0;
        while index < self.nodes.len()
            invariant
                self@.len() == start.len(),
                index <= start.len(),
                foldable(self@),
                (self@, changed) == sweep_prefix(start, index as nat),
            decreases start.len() - index,
        {
            let counted = self.fold_at(index);
            changed = changed || counted;
            index = index + 1;
        }
        changed
    }

    /// Rewrites the store in place into its folded form: sweeps until one
    /// makes no counted rewrite (see `fold_run`). Gives up with
    /// `FoldError::SweepLimit` after `MAX_FOLD_SWEEPS` sweeps that all
    /// counted, leaving the store as the last of them left it.
    pub fn fold_constants(&mut self) -> (r: Result<(), FoldError>)
        requires
            foldable(old(self)@),
        ensures
            (final(self)@, r is Ok) == fold_run(old(self)@, MAX_FOLD_SWEEPS as nat),
            final(self)@.len() == old(self)@.len(),
            foldable(final(self)@),
    {
        let ghost start = self@;
        let mut done: usize = 0;
        while done < MAX_FOLD_SWEEPS
            invariant
                done <= MAX_FOLD_SWEEPS,
                start == old(self)@,
                self@.len() == start.len(),
                foldable(self@),
                fold_run(start, MAX_FOLD_SWEEPS as nat) == fold_run(self@, (MAX_FOLD_SWEEPS - done) as nat),
            decreases MAX_FOLD_SWEEPS - done,
        {
            let ghost prev = self@;
            let changed = self.sweep();
            if !changed {
                assert(fold_run(prev, (MAX_FOLD_SWEEPS - done) as nat) == (self@, true));
                return Ok(());
            }
            done = done + 1;
        }
        Err(FoldError::SweepLimit)
    }
}

} // verus!
