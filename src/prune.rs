//! Dead-node pruning: everything that no live root reaches is replaced by a
//! tombstone, in place.
use vstd::prelude::*;
use crate::ir::{IRArg, IRModule, IRNode, Node, links_ok, links_valid, arg_ok};

verus! {

/// The operand is a link to position `k`.
pub open spec fn arg_links(a: IRArg, k: int) -> bool {
    a is Link && a->Link_0 == k
}

/// The node has an operand that links to position `k`.
pub open spec fn links_to(n: Node, k: int) -> bool {
    match n {
        Node::Output(_, a) => arg_links(a, k),
        Node::BinOp(l, _, r) => arg_links(l, k) || arg_links(r, k),
        Node::Gate(c, _, g) => arg_links(c, k) || arg_links(g, k),
        Node::MultiDriver(args) => exists|j: int| 0 <= j < args.len() && arg_links(#[trigger] args[j], k),
        Node::BinOpCmpGate(l, _, _, g) => arg_links(l, k) || arg_links(g, k),
        Node::BinOpSame(a, _) => arg_links(a, k),
        _ => false,
    }
}

/// Inputs and outputs are always live.
pub open spec fn is_root(n: Node) -> bool {
    n is Input || n is Output
}

/// A marking of the store that holds every root and, with each marked node,
/// every node it links to.
pub open spec fn closed(nodes: Seq<Node>, m: Seq<bool>) -> bool {
    &&& m.len() == nodes.len()
    &&& forall|i: int| 0 <= i < nodes.len() && is_root(#[trigger] nodes[i]) ==> m[i]
    &&& forall|i: int, k: int|
        0 <= i < nodes.len() && 0 <= k < nodes.len() && m[i] && #[trigger] links_to(nodes[i], k) ==> m[k]
}

/// Position `i` is in the transitive closure of the roots: every closed
/// marking holds it.
pub open spec fn live(nodes: Seq<Node>, i: int) -> bool {
    forall|m: Seq<bool>| #[trigger] closed(nodes, m) ==> m[i]
}

/// The store with every position that is not live replaced by `Removed`.
pub open spec fn pruned(nodes: Seq<Node>) -> Seq<Node> {
    Seq::new(nodes.len(), |i: int| if live(nodes, i) { nodes[i] } else { Node::Removed })
}

/// Pruning keeps the length of the store and every input and output as it
/// was, and tombstones a node that some closed marking leaves out, that is,
/// one that no output reaches.
pub proof fn lemma_prune_roots_and_unreached(nodes: Seq<Node>, unreached: int)
    requires
        0 <= unreached < nodes.len(),
        exists|m: Seq<bool>| closed(nodes, m) && !m[unreached],
    ensures
        pruned(nodes).len() == nodes.len(),
        forall|i: int| 0 <= i < nodes.len() && is_root(#[trigger] nodes[i]) ==> pruned(nodes)[i] == nodes[i],
        pruned(nodes)[unreached] == Node::Removed,
{
    assert forall|i: int| 0 <= i < nodes.len() && is_root(#[trigger] nodes[i]) implies pruned(nodes)[i] == nodes[i] by {
        assert forall|m: Seq<bool>| #[trigger] closed(nodes, m) implies m[i] by {}
    }
    let m = choose|m: Seq<bool>| closed(nodes, m) && !m[unreached];
    assert(!live(nodes, unreached));
}

/// Pruning keeps whole chains: every node that a surviving node links to
/// survives unchanged too.
pub proof fn lemma_prune_keeps_links(nodes: Seq<Node>, j: int, k: int)
    requires
        0 <= j < nodes.len(),
        0 <= k < nodes.len(),
        live(nodes, j),
        links_to(nodes[j], k),
    ensures
        live(nodes, k),
        pruned(nodes)[k] == nodes[k],
{
    assert forall|m: Seq<bool>| #[trigger] closed(nodes, m) implies m[k] by {
        assert(m[j]);
    }
}

/// An output that links to a node which links to a third keeps all three
/// through pruning.
pub proof fn lemma_prune_keeps_chain(nodes: Seq<Node>, out: int, mid: int, leaf: int)
    requires
        0 <= out < nodes.len(),
        0 <= mid < nodes.len(),
        0 <= leaf < nodes.len(),
        nodes[out] is Output,
        links_to(nodes[out], mid),
        links_to(nodes[mid], leaf),
    ensures
        pruned(nodes)[out] == nodes[out],
        pruned(nodes)[mid] == nodes[mid],
        pruned(nodes)[leaf] == nodes[leaf],
{
    lemma_roots_live(nodes, out);
    lemma_prune_keeps_links(nodes, out, mid);
    lemma_prune_keeps_links(nodes, mid, leaf);
}

/// Inputs and outputs are live.
pub proof fn lemma_roots_live(nodes: Seq<Node>, i: int)
    requires
        0 <= i < nodes.len(),
        is_root(nodes[i]),
    ensures
        live(nodes, i),
{
    assert forall|m: Seq<bool>| #[trigger] closed(nodes, m) implies m[i] by {}
}

/// Every marked position is held by every closed marking.
pub open spec fn sound(nodes: Seq<Node>, saved: Seq<bool>) -> bool {
    forall|m: Seq<bool>, j: int| closed(nodes, m) && 0 <= j < saved.len() && #[trigger] saved[j] ==> #[trigger] m[j]
}

/// A marked node that links to an unmarked one is still to be visited: it
/// is on the stack, or it is `visiting`.
pub open spec fn pending(nodes: Seq<Node>, saved: Seq<bool>, stack: Seq<usize>, visiting: int) -> bool {
    forall|j: int, t: int|
        0 <= j < nodes.len() && 0 <= t < nodes.len() && saved[j] && #[trigger] links_to(nodes[j], t) && !saved[t]
            ==> j == visiting || stack.contains(j as usize)
}

/// Number of unmarked positions.
pub open spec fn unsaved(s: Seq<bool>) -> nat
    decreases s.len(),
{
    if s.len() == 0 {
        0
    } else {
        unsaved(s.drop_last()) + if s.last() { 0nat } else { 1nat }
    }
}

proof fn lemma_unsaved_update(s: Seq<bool>, k: int)
    requires
        0 <= k < s.len(),
        !s[k],
    ensures
        unsaved(s.update(k, true)) + 1 == unsaved(s),
    decreases s.len(),
{
    let u = s.update(k, true);
    if k == s.len() - 1 {
        assert(u.drop_last() =~= s.drop_last());
    } else {
        lemma_unsaved_update(s.drop_last(), k);
        assert(u.drop_last() =~= s.drop_last().update(k, true));
    }
}

/// Marks the node that `arg` links to, if it is not marked yet, and pushes
/// it to be visited. An immediate, or a link to a marked node, changes
/// nothing.
fn add_arg(arg: &IRArg, saved: &mut Vec<bool>, stack: &mut Vec<usize>)
    requires
        arg_ok(*arg, old(saved)@.len()),
    ensures
        final(saved)@ == (if arg is Link && !old(saved)@[arg->Link_0 as int] {
            old(saved)@.update(arg->Link_0 as int, true)
        } else {
            old(saved)@
        }),
        final(stack)@ == (if arg is Link && !old(saved)@[arg->Link_0 as int] {
            old(stack)@.push(arg->Link_0)
        } else {
            old(stack)@
        }),
        unsaved(final(saved)@) + final(stack)@.len() == unsaved(old(saved)@) + old(stack)@.len(),
{
    if let IRArg::Link(id) = arg {
        let id = *id;
        if !saved[id] {
            proof {
                lemma_unsaved_update(saved@, id as int);
            }
            saved.set(id, true);
            stack.push(id);
        }
    }
}

/// `add_arg` on an operand of the marked node `from`, carrying the
/// traversal's invariants along.
fn mark_operand(
    arg: &IRArg,
    saved: &mut Vec<bool>,
    stack: &mut Vec<usize>,
    Ghost(nodes): Ghost<Seq<Node>>,
    Ghost(from): Ghost<int>,
    Ghost(visiting): Ghost<int>,
)
    requires
        old(saved)@.len() == nodes.len(),
        arg_ok(*arg, nodes.len()),
        0 <= from < nodes.len(),
        old(saved)@[from],
        arg is Link ==> links_to(nodes[from], arg->Link_0 as int),
        sound(nodes, old(saved)@),
        pending(nodes, old(saved)@, old(stack)@, visiting),
        old(stack)@.no_duplicates(),
        forall|k: int| 0 <= k < old(stack)@.len() ==> #[trigger] old(stack)@[k] < nodes.len(),
        forall|k: int| 0 <= k < old(stack)@.len() ==> old(saved)@[#[trigger] old(stack)@[k] as int],
    ensures
        final(saved)@.len() == nodes.len(),
        sound(nodes, final(saved)@),
        pending(nodes, final(saved)@, final(stack)@, visiting),
        final(stack)@.no_duplicates(),
        forall|k: int| 0 <= k < final(stack)@.len() ==> #[trigger] final(stack)@[k] < nodes.len(),
        forall|k: int| 0 <= k < final(stack)@.len() ==> final(saved)@[#[trigger] final(stack)@[k] as int],
        forall|j: int| 0 <= j < nodes.len() && old(saved)@[j] ==> #[trigger] final(saved)@[j],
        forall|x: usize| old(stack)@.contains(x) ==> #[trigger] final(stack)@.contains(x),
        arg is Link ==> final(saved)@[arg->Link_0 as int],
        2 * unsaved(final(saved)@) + final(stack)@.len() <= 2 * unsaved(old(saved)@) + old(stack)@.len(),
{
    let ghost s0 = saved@;
    let ghost st0 = stack@;
    add_arg(arg, saved, stack);
    proof {
        if arg is Link && !s0[arg->Link_0 as int] {
            let id = arg->Link_0;
            assert(stack@[stack@.len() - 1] == id);
            assert(stack@.contains(id));
            assert(!st0.contains(id)) by {
                if st0.contains(id) {
                    let k = choose|k: int| 0 <= k < st0.len() && st0[k] == id;
                    assert(s0[st0[k] as int]);
                }
            }
            assert forall|x: usize| st0.contains(x) implies #[trigger] stack@.contains(x) by {
                let k = choose|k: int| 0 <= k < st0.len() && st0[k] == x;
                assert(stack@[k] == x);
            }
            assert forall|m: Seq<bool>, j: int| closed(nodes, m) && 0 <= j < saved@.len() && #[trigger] saved@[j] implies #[trigger] m[j] by {
                if j == id {
                    assert(m[from]);
                    assert(links_to(nodes[from], id as int));
                } else {
                    assert(s0[j]);
                }
            }
            assert forall|a: int, b: int| 0 <= a < stack@.len() && 0 <= b < stack@.len() && a != b
                implies stack@[a] != stack@[b] by {
                if a < st0.len() && b < st0.len() {
                    assert(stack@[a] == st0[a] && stack@[b] == st0[b]);
                } else if a < st0.len() {
                    assert(stack@[a] == st0[a]);
                } else if b < st0.len() {
                    assert(stack@[b] == st0[b]);
                }
            }
        }
    }
}

impl IRModule {
    /// Replaces by `Removed` every node that is not live: not an input, an
    /// output, or linked to, directly or through other nodes, from an
    /// output. The store keeps its length and every live node its position.
    pub fn prune(&mut self)
        requires
            links_valid(old(self)@),
        ensures
            final(self)@ == pruned(old(self)@),
    {
        let ghost nodes = self@;
        let n = self.nodes.len();
        let mut saved: Vec<bool> = Vec::new();
        let mut stack: Vec<usize> = Vec::new();
        let mut i: usize = 0;
        while i < n
            invariant
                n == nodes.len(),
                self@ == nodes,
                i <= n,
                saved@.len() == i,
                forall|j: int| 0 <= j < i ==> #[trigger] saved@[j] == is_root(nodes[j]),
                forall|j: int| 0 <= j < i && #[trigger] nodes[j] is Output ==> stack@.contains(j as usize),
                forall|k: int| 0 <= k < stack@.len() ==> #[trigger] stack@[k] < i,
                forall|k: int| 0 <= k < stack@.len() ==> nodes[#[trigger] stack@[k] as int] is Output,
                stack@.no_duplicates(),
            decreases n - i,
        {
            match self.get(i) {
                IRNode::Input(_) => {
                    saved.push(true);
                },
                IRNode::Output(_, _) => {
                    saved.push(true);
                    let ghost st0 = stack@;
                    stack.push(i);
                    proof {
                        assert(stack@[st0.len() as int] == i);
                        assert forall|x: usize| st0.contains(x) implies #[trigger] stack@.contains(x) by {
                            let k = choose|k: int| 0 <= k < st0.len() && st0[k] == x;
                            assert(stack@[k] == x);
                        }
                    }
                },
                _ => {
                    saved.push(false);
                },
            }
            i = i + 1;
        }
        proof {
            assert forall|k: int| 0 <= k < stack@.len() implies saved@[#[trigger] stack@[k] as int] by {
                assert(is_root(nodes[stack@[k] as int]));
            }
            assert forall|m: Seq<bool>, j: int| closed(nodes, m) && 0 <= j < saved@.len() && #[trigger] saved@[j] implies #[trigger] m[j] by {
                assert(is_root(nodes[j]));
            }
            assert forall|j: int, t: int|
                0 <= j < nodes.len() && 0 <= t < nodes.len() && saved@[j] && #[trigger] links_to(nodes[j], t) && !saved@[t]
                implies j == -1 || stack@.contains(j as usize) by {
                assert(is_root(nodes[j]));
            }
        }
        while stack.len() > 0
            invariant
                n == nodes.len(),
                self@ == nodes,
                links_valid(nodes),
                saved@.len() == n,
                forall|j: int| 0 <= j < n && is_root(#[trigger] nodes[j]) ==> saved@[j],
                forall|k: int| 0 <= k < stack@.len() ==> #[trigger] stack@[k] < n,
                forall|k: int| 0 <= k < stack@.len() ==> saved@[#[trigger] stack@[k] as int],
                stack@.no_duplicates(),
                sound(nodes, saved@),
                pending(nodes, saved@, stack@, -1),
            decreases 2 * unsaved(saved@) + stack@.len(),
        {
            let ghost st0 = stack@;
            let i = stack.pop().unwrap();
            proof {
                assert(st0[st0.len() - 1] == i);
                assert(links_ok(nodes[i as int], n as nat));
                assert forall|j: int, t: int|
                    0 <= j < nodes.len() && 0 <= t < nodes.len() && saved@[j] && #[trigger] links_to(nodes[j], t) && !saved@[t]
                    implies j == i || stack@.contains(j as usize) by {
                    if j != i {
                        let k = choose|k: int| 0 <= k < st0.len() && st0[k] == j as usize;
                        assert(stack@[k] == j as usize);
                    }
                }
            }
            let ghost vi = i as int;
            match self.get(i) {
                IRNode::Output(_, arg) => {
                    mark_operand(arg, &mut saved, &mut stack, Ghost(nodes), Ghost(vi), Ghost(vi));
                },
                IRNode::BinOp(lhs, _, rhs) => {
                    mark_operand(lhs, &mut saved, &mut stack, Ghost(nodes), Ghost(vi), Ghost(vi));
                    mark_operand(rhs, &mut saved, &mut stack, Ghost(nodes), Ghost(vi), Ghost(vi));
                },
                IRNode::BinOpSame(arg, _) => {
                    mark_operand(arg, &mut saved, &mut stack, Ghost(nodes), Ghost(vi), Ghost(vi));
                },
                IRNode::MultiDriver(args) => {
                    let ghost saved0 = saved@;
                    let ghost stack0 = stack@;
                    let mut k: usize = 0;
                    while k < args.len()
                        invariant
                            n == nodes.len(),
                            nodes[vi] == Node::MultiDriver(args@),
                            links_ok(nodes[vi], n as nat),
                            0 <= vi < n,
                            saved@[vi],
                            k <= args@.len(),
                            saved0.len() == n,
                            saved@.len() == n,
                            forall|j: int| 0 <= j < n && saved0[j] ==> #[trigger] saved@[j],
                            forall|x: usize| stack0.contains(x) ==> #[trigger] stack@.contains(x),
                            forall|q: int| 0 <= q < stack@.len() ==> #[trigger] stack@[q] < n,
                            forall|q: int| 0 <= q < stack@.len() ==> saved@[#[trigger] stack@[q] as int],
                            stack@.no_duplicates(),
                            forall|q: int| 0 <= q < k && args@[q] is Link ==> saved@[#[trigger] args@[q]->Link_0 as int],
                            sound(nodes, saved@),
                            pending(nodes, saved@, stack@, vi),
                            2 * unsaved(saved@) + stack@.len() <= 2 * unsaved(saved0) + stack0.len(),
                        decreases args@.len() - k,
                    {
                        assert(links_ok(Node::MultiDriver(args@), n as nat));
                        assert(arg_ok(args@[k as int], n as nat));
                        proof {
                            if args@[k as int] is Link {
                                assert(arg_links(args@[k as int], args@[k as int]->Link_0 as int));
                            }
                        }
                        mark_operand(&args[k], &mut saved, &mut stack, Ghost(nodes), Ghost(vi), Ghost(vi));
                        k = k + 1;
                    }
                },
                IRNode::Gate(cond, _, gated) => {
                    mark_operand(cond, &mut saved, &mut stack, Ghost(nodes), Ghost(vi), Ghost(vi));
                    mark_operand(gated, &mut saved, &mut stack, Ghost(nodes), Ghost(vi), Ghost(vi));
                },
                IRNode::BinOpCmpGate(lhs, _, _, gated) => {
                    mark_operand(lhs, &mut saved, &mut stack, Ghost(nodes), Ghost(vi), Ghost(vi));
                    mark_operand(gated, &mut saved, &mut stack, Ghost(nodes), Ghost(vi), Ghost(vi));
                },
                _ => {},
            }
            proof {
                assert forall|t: int| 0 <= t < n && links_to(nodes[vi], t) implies saved@[t] by {
                    if let Node::MultiDriver(args) = nodes[vi] {
                        let q = choose|q: int| 0 <= q < args.len() && arg_links(#[trigger] args[q], t);
                        assert(args[q] is Link);
                    }
                }
                assert forall|j: int, t: int|
                    0 <= j < nodes.len() && 0 <= t < nodes.len() && saved@[j] && #[trigger] links_to(nodes[j], t) && !saved@[t]
                    implies j == -1 || stack@.contains(j as usize) by {
                    if j == vi {
                        assert(saved@[t]);
                    }
                }
            }
        }
        proof {
            assert(closed(nodes, saved@));
        }
        let mut i: usize = 0;
        while i < n
            invariant
                n == nodes.len(),
                saved@.len() == n,
                i <= n,
                self@.len() == n,
                closed(nodes, saved@),
                sound(nodes, saved@),
                forall|j: int| 0 <= j < i ==> #[trigger] self@[j] == pruned(nodes)[j],
                forall|j: int| i <= j < n ==> #[trigger] self@[j] == nodes[j],
            decreases n - i,
        {
            proof {
                if saved@[i as int] {
                    assert forall|m: Seq<bool>| #[trigger] closed(nodes, m) implies m[i as int] by {
                        assert(saved@[i as int]);
                    }
                    assert(live(nodes, i as int));
                } else {
                    assert(!live(nodes, i as int));
                }
            }
            if !saved[i] {
                self.update(i, IRNode::Removed);
            }
            i = i + 1;
        }
        assert(self@ =~= pruned(nodes));
    }
}

} // verus!
