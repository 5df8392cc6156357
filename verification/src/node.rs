//! The arena of stream handles the engine evaluates.

use vstd::prelude::*;

use crate::syntax::{Builtin, ValModel, Value, val_model, vals_model};

verus! {

/// One stream handle in the engine's arena. Handles refer to each
/// other by index, and every edge points to a strictly smaller index
/// (handles are created bottom-up), so one pull does bounded work.
pub enum Node {
    /// Yields a copy of the same value every tick; stateless.
    Const(Value),
    /// Pulls every member once, left to right, and yields the tuple of
    /// their values in that order; stateless.
    Zip(Vec<usize>),
    /// `Cond(test, then, else)`: pulls the test, then exactly one of
    /// the two branches; the branch not taken does not advance.
    Cond(usize, usize, usize),
    /// `Limit(src, bound, taken)`: passes `src` through while
    /// `taken < bound`, then yields `Null` without touching `src`.
    Limit(usize, usize, usize),
    /// Records every value its source has yielded so far, so that all
    /// projections of one destructuring observe the same tick's tuple
    /// while the source advances once per tick, not once per consumer.
    Fanout(usize, Vec<Value>),
    /// `Proj(fanout, index, taken)`: the `index`th component of the
    /// `taken`th tuple recorded by the fanout under it.
    Proj(usize, usize, usize),
    /// A builtin operator applied to an input stream; stateless.
    Op(Builtin, usize),
}

/// The model of a handle; contracts and the evaluation model speak of
/// sequences of these.
#[verifier::ext_equal]
pub enum NodeModel {
    Const(ValModel),
    Zip(Seq<usize>),
    Cond(usize, usize, usize),
    Limit(usize, usize, nat),
    Fanout(usize, Seq<ValModel>),
    Proj(usize, usize, nat),
    Op(Builtin, usize),
}

impl View for Node {
    type V = NodeModel;

    open spec fn view(&self) -> NodeModel {
        match *self {
            Node::Const(v) => NodeModel::Const(val_model(v)),
            Node::Zip(ms) => NodeModel::Zip(ms@),
            Node::Cond(t, a, b) => NodeModel::Cond(t, a, b),
            Node::Limit(s, n, k) => NodeModel::Limit(s, n, k as nat),
            Node::Fanout(s, h) => NodeModel::Fanout(s, vals_model(h@)),
            Node::Proj(f, x, k) => NodeModel::Proj(f, x, k as nat),
            Node::Op(op, s) => NodeModel::Op(op, s),
        }
    }
}

/// The whole arena, as models.
pub open spec fn arena(nodes: Seq<Node>) -> Seq<NodeModel> {
    Seq::new(nodes.len(), |i: int| nodes[i]@)
}

/// The handle at `i` is well formed: its edges point below `i`, its
/// counters stay within range, and a projection sits over a fanout.
pub open spec fn node_wf(nodes: Seq<NodeModel>, i: int) -> bool {
    match nodes[i] {
        NodeModel::Const(_) => true,
        NodeModel::Zip(ms) => forall|k: int| 0 <= k < ms.len() ==> (ms[k] as int) < i,
        NodeModel::Cond(t, a, b) => (t as int) < i && (a as int) < i && (b as int) < i,
        NodeModel::Limit(s, n, taken) => (s as int) < i && taken <= n,
        NodeModel::Fanout(s, _) => (s as int) < i,
        NodeModel::Proj(f, _, taken) => (f as int) < i && nodes[f as int] is Fanout
            && taken <= nodes[f as int]->Fanout_1.len(),
        NodeModel::Op(_, inp) => (inp as int) < i,
    }
}

/// Every handle of the arena is well formed.
pub open spec fn arena_wf(nodes: Seq<NodeModel>) -> bool {
    forall|i: int| 0 <= i < nodes.len() ==> #[trigger] node_wf(nodes, i)
}

/// How a handle may change under pulls: its shape (variant, edges,
/// bound, constant) is fixed; only its counters advance, and a fanout
/// only appends to its record.
pub open spec fn evolves(a: NodeModel, b: NodeModel) -> bool {
    match (a, b) {
        (NodeModel::Const(x), NodeModel::Const(y)) => x == y,
        (NodeModel::Zip(m1), NodeModel::Zip(m2)) => m1 == m2,
        (NodeModel::Cond(t1, a1, b1), NodeModel::Cond(t2, a2, b2)) =>
            t1 == t2 && a1 == a2 && b1 == b2,
        (NodeModel::Limit(s1, n1, k1), NodeModel::Limit(s2, n2, k2)) =>
            s1 == s2 && n1 == n2 && k1 <= k2,
        (NodeModel::Fanout(s1, h1), NodeModel::Fanout(s2, h2)) =>
            s1 == s2 && h1.len() <= h2.len() && h2.take(h1.len() as int) == h1,
        (NodeModel::Proj(f1, x1, k1), NodeModel::Proj(f2, x2, k2)) =>
            f1 == f2 && x1 == x2 && k1 <= k2,
        (NodeModel::Op(o1, s1), NodeModel::Op(o2, s2)) => o1 == o2 && s1 == s2,
        _ => false,
    }
}

/// `j` is reachable from `i`: pulling `i` may touch the handle at `j`.
pub open spec fn reaches(nodes: Seq<NodeModel>, i: int, j: int) -> bool
    decreases i,
{
    i == j || (0 <= i < nodes.len() && match nodes[i] {
        NodeModel::Const(_) => false,
        NodeModel::Zip(ms) => exists|k: int| 0 <= k < ms.len()
            && 0 <= (ms[k] as int) < i && reaches(nodes, #[trigger] ms[k] as int, j),
        NodeModel::Cond(t, a, b) => {
            ||| ((t as int) < i && reaches(nodes, t as int, j))
            ||| ((a as int) < i && reaches(nodes, a as int, j))
            ||| ((b as int) < i && reaches(nodes, b as int, j))
        },
        NodeModel::Limit(s, _, _) => (s as int) < i && reaches(nodes, s as int, j),
        NodeModel::Fanout(s, _) => (s as int) < i && reaches(nodes, s as int, j),
        NodeModel::Proj(f, _, _) => (f as int) < i && reaches(nodes, f as int, j),
        NodeModel::Op(_, inp) => (inp as int) < i && reaches(nodes, inp as int, j),
    })
}

} // verus!
