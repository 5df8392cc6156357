//! The mathematical model of evaluation: what one pull of a handle
//! yields and how it changes the arena. The engine's `pull` is proved
//! to follow this model wherever no host capability (arithmetic,
//! printing) is involved; the laws of the combinators, in `laws`, are
//! proved of the model itself.

use vstd::prelude::*;

use crate::node::{NodeModel, arena_wf, evolves, node_wf, reaches};
use crate::syntax::{Builtin, EvalError, ValModel};

verus! {

/// The builtins whose result is a function of the pulled value alone,
/// with no call into the host.
pub open spec fn host_free(op: Builtin) -> bool {
    op is Eq || op is Dup2 || op is Dup3
}

/// Pulling `i` calls no host capability: every operator handle it can
/// reach is host-free.
pub open spec fn pure(nodes: Seq<NodeModel>, i: int) -> bool {
    forall|j: int| 0 <= j < nodes.len() && reaches(nodes, i, j)
        ==> match #[trigger] nodes[j] {
            NodeModel::Op(op, _) => host_free(op),
            _ => true,
        }
}

/// A pair of numbers: what the binary arithmetic and comparison
/// builtins demand of the value pulled out of their input stream.
pub open spec fn num_pair(v: ValModel) -> bool {
    &&& v is Tuple
    &&& v->Tuple_0.len() == 2
    &&& v->Tuple_0[0] is Num
    &&& v->Tuple_0[1] is Num
}

/// Indexing a pulled tuple, as the projections of a destructuring do:
/// a non-tuple is a type mismatch, a short tuple an index error.
pub open spec fn project(v: ValModel, idx: usize) -> Result<ValModel, EvalError> {
    match v {
        ValModel::Tuple(vs) => if idx < vs.len() {
            Ok(vs[idx as int])
        } else {
            Err(EvalError::IndexOutOfRange)
        },
        _ => Err(EvalError::TypeMismatch),
    }
}

/// What a host-free builtin yields from the value pulled out of its
/// input stream. (Builtins that call the host have no model here;
/// `pure` excludes them.)
///
/// `Eq` is structural equality on the carried values, so numbers are
/// compared by bit pattern: NaN equals NaN and 0.0 differs from -0.0.
/// That is this engine's documented policy; the `Eq` builtin never
/// consults the host.
pub open spec fn op_result(op: Builtin, v: ValModel) -> Result<ValModel, EvalError> {
    match op {
        Builtin::Dup2 => Ok(ValModel::Tuple(seq![v, v])),
        Builtin::Dup3 => Ok(ValModel::Tuple(seq![v, v, v])),
        Builtin::Eq => match v {
            ValModel::Tuple(vs) => if vs.len() == 2 {
                Ok(ValModel::Bool(vs[0] == vs[1]))
            } else {
                Err(EvalError::TypeMismatch)
            },
            _ => Err(EvalError::TypeMismatch),
        },
        _ => Err(EvalError::TypeMismatch),
    }
}

/// One pull of the handle at `i`: the arena afterwards and the value
/// or error yielded. On a malformed handle (an edge not below `i`)
/// the model leaves the arena unchanged and yields an error; a well
/// formed arena never reaches those branches.
pub open spec fn step(nodes: Seq<NodeModel>, i: int) -> (Seq<NodeModel>, Result<
    ValModel,
    EvalError,
>)
    decreases i, 1int, 0int,
    when i >= 0
{
    if 0 <= i < nodes.len() {
        match nodes[i] {
            NodeModel::Const(v) => (nodes, Ok(v)),
            NodeModel::Zip(ms) => {
                if forall|k: int| 0 <= k < ms.len() ==> (ms[k] as int) < i {
                    let (n1, r) = step_all(nodes, ms, i);
                    match r {
                        Ok(vs) => (n1, Ok(ValModel::Tuple(vs))),
                        Err(e) => (n1, Err(e)),
                    }
                } else {
                    (nodes, Err(EvalError::TypeMismatch))
                }
            },
            NodeModel::Cond(t, a, b) => {
                if (t as int) < i && (a as int) < i && (b as int) < i {
                    let (n1, r) = step(nodes, t as int);
                    match r {
                        Ok(ValModel::Bool(c)) => if c {
                            step(n1, a as int)
                        } else {
                            step(n1, b as int)
                        },
                        Ok(_) => (n1, Err(EvalError::TypeMismatch)),
                        Err(e) => (n1, Err(e)),
                    }
                } else {
                    (nodes, Err(EvalError::TypeMismatch))
                }
            },
            NodeModel::Limit(s, bound, taken) => {
                if (s as int) < i {
                    if taken < bound {
                        let (n1, r) = step(nodes, s as int);
                        match r {
                            Ok(v) => (
                                n1.update(i, NodeModel::Limit(s, bound, taken + 1)),
                                Ok(v),
                            ),
                            Err(e) => (n1, Err(e)),
                        }
                    } else {
                        (nodes, Ok(ValModel::Null))
                    }
                } else {
                    (nodes, Err(EvalError::TypeMismatch))
                }
            },
            NodeModel::Fanout(s, h) => {
                if (s as int) < i {
                    let (n1, r) = step(nodes, s as int);
                    match r {
                        Ok(v) => (n1.update(i, NodeModel::Fanout(s, h.push(v))), Ok(v)),
                        Err(e) => (n1, Err(e)),
                    }
                } else {
                    (nodes, Err(EvalError::TypeMismatch))
                }
            },
            NodeModel::Proj(f, idx, taken) => {
                if (f as int) < i && nodes[f as int] is Fanout {
                    let h = nodes[f as int]->Fanout_1;
                    if taken < h.len() {
                        match project(h[taken as int], idx) {
                            Ok(v) => (
                                nodes.update(i, NodeModel::Proj(f, idx, taken + 1)),
                                Ok(v),
                            ),
                            Err(e) => (nodes, Err(e)),
                        }
                    } else {
                        let (n1, r) = step(nodes, f as int);
                        match r {
                            Ok(v) => match project(v, idx) {
                                Ok(w) => (
                                    n1.update(i, NodeModel::Proj(f, idx, taken + 1)),
                                    Ok(w),
                                ),
                                Err(e) => (n1, Err(e)),
                            },
                            Err(e) => (n1, Err(e)),
                        }
                    }
                } else {
                    (nodes, Err(EvalError::TypeMismatch))
                }
            },
            NodeModel::Op(op, inp) => {
                if (inp as int) < i {
                    let (n1, r) = step(nodes, inp as int);
                    match r {
                        Ok(v) => (n1, op_result(op, v)),
                        Err(e) => (n1, Err(e)),
                    }
                } else {
                    (nodes, Err(EvalError::TypeMismatch))
                }
            },
        }
    } else {
        (nodes, Err(EvalError::TypeMismatch))
    }
}

/// One pull of each of the handles `hs` in order, for effect alone:
/// the arena afterwards, and the first error if one arose (pulling
/// stops there).
pub open spec fn drain(nodes: Seq<NodeModel>, hs: Seq<usize>) -> (Seq<NodeModel>, Option<
    EvalError,
>)
    decreases hs.len(),
{
    if hs.len() == 0 {
        (nodes, None)
    } else {
        let (n1, r) = step(nodes, hs[0] as int);
        match r {
            Ok(_) => drain(n1, hs.drop_first()),
            Err(e) => (n1, Some(e)),
        }
    }
}

/// Unfolds one pull of a fanout: it pulls its source, appends the
/// value to its record, and passes the value through.
pub proof fn lemma_step_fanout(nodes: Seq<NodeModel>, f: usize)
    requires
        0 <= (f as int) < nodes.len(),
        nodes[f as int] is Fanout,
        (nodes[f as int]->Fanout_0 as int) < (f as int),
    ensures
        ({
            let s0 = nodes[f as int]->Fanout_0;
            let h = nodes[f as int]->Fanout_1;
            let (n1, r1) = step(nodes, f as int);
            let (ni, ri) = step(nodes, s0 as int);
            &&& r1 == ri
            &&& (r1 is Ok ==> n1 == ni.update(
                f as int,
                NodeModel::Fanout(s0, h.push(r1->Ok_0)),
            ))
            &&& (r1 is Err ==> n1 == ni)
        }),
{
}

/// A handle evolves into itself.
pub proof fn lemma_evolves_refl(n: NodeModel)
    ensures
        evolves(n, n),
{
    if n is Fanout {
        assert(n->Fanout_1.take(n->Fanout_1.len() as int) =~= n->Fanout_1);
    }
}

/// Evolution composes.
pub proof fn lemma_evolves_trans(a: NodeModel, b: NodeModel, c: NodeModel)
    requires
        evolves(a, b),
        evolves(b, c),
    ensures
        evolves(a, c),
{
    if a is Fanout {
        let h1 = a->Fanout_1;
        let h2 = b->Fanout_1;
        let h3 = c->Fanout_1;
        assert forall|x: int| 0 <= x < h1.len() implies h3.take(h1.len() as int)[x]
            == h1[x] by {
            assert(h2.take(h1.len() as int)[x] == h1[x]);
            assert(h3.take(h2.len() as int)[x] == h2[x]);
        }
        assert(h3.take(h1.len() as int) =~= h1);
    }
}

/// Reachability reads only the shape of the arena, which pulls never
/// change: arenas that evolve from one another agree on it.
pub proof fn lemma_reaches_stable(n1: Seq<NodeModel>, n2: Seq<NodeModel>, i: int, j: int)
    requires
        n1.len() == n2.len(),
        forall|k: int| 0 <= k < n1.len() ==> evolves(#[trigger] n1[k], n2[k]),
    ensures
        reaches(n1, i, j) == reaches(n2, i, j),
    decreases i,
{
    if i < 0 {
        return ;
    }
    if i != j && 0 <= i < n1.len() {
        match n1[i] {
            NodeModel::Zip(ms) => {
                assert(n2[i] is Zip && n2[i]->Zip_0 == ms);
                assert forall|k: int|
                    0 <= k < ms.len() && 0 <= (ms[k] as int) < i implies reaches(
                    n1,
                    #[trigger] ms[k] as int,
                    j,
                ) == reaches(n2, ms[k] as int, j) by {
                    lemma_reaches_stable(n1, n2, ms[k] as int, j);
                }
            },
            NodeModel::Cond(t, a, b) => {
                if (t as int) < i {
                    lemma_reaches_stable(n1, n2, t as int, j);
                }
                if (a as int) < i {
                    lemma_reaches_stable(n1, n2, a as int, j);
                }
                if (b as int) < i {
                    lemma_reaches_stable(n1, n2, b as int, j);
                }
            },
            NodeModel::Limit(s, _, _) => {
                if (s as int) < i {
                    lemma_reaches_stable(n1, n2, s as int, j);
                }
            },
            NodeModel::Fanout(s, _) => {
                if (s as int) < i {
                    lemma_reaches_stable(n1, n2, s as int, j);
                }
            },
            NodeModel::Proj(f, _, _) => {
                if (f as int) < i {
                    lemma_reaches_stable(n1, n2, f as int, j);
                }
            },
            NodeModel::Op(_, inp) => {
                if (inp as int) < i {
                    lemma_reaches_stable(n1, n2, inp as int, j);
                }
            },
            NodeModel::Const(_) => {},
        }
    }
}

/// Updating one handle to a well formed evolution of itself keeps the
/// arena well formed.
pub proof fn lemma_wf_update(nodes: Seq<NodeModel>, i: int, nn: NodeModel)
    requires
        arena_wf(nodes),
        0 <= i < nodes.len(),
        evolves(nodes[i], nn),
        nn is Limit ==> nn->Limit_2 <= nn->Limit_1,
        nn is Proj ==> nn->Proj_2 <= nodes[nn->Proj_0 as int]->Fanout_1.len(),
    ensures
        arena_wf(nodes.update(i, nn)),
{
    let n2 = nodes.update(i, nn);
    assert forall|j: int| 0 <= j < n2.len() implies #[trigger] node_wf(n2, j) by {
        assert(node_wf(nodes, j));
        assert(node_wf(nodes, i));
        if j != i {
            match nodes[j] {
                NodeModel::Proj(f, _, taken) => {
                    if (f as int) == i {
                        assert(nn is Fanout);
                        assert(nodes[i]->Fanout_1.len() <= nn->Fanout_1.len());
                    }
                },
                _ => {},
            }
        }
    }
}

/// The frame of one pull: the arena keeps its length, every handle
/// only evolves (same shape, counters advance), handles above `i` and
/// handles not reachable from `i` are untouched, and a well formed
/// arena stays well formed.
#[verifier::rlimit(60)]
pub proof fn lemma_step_frame(nodes: Seq<NodeModel>, i: int)
    requires
        0 <= i < nodes.len(),
    ensures
        ({
            let (n2, r) = step(nodes, i);
            &&& n2.len() == nodes.len()
            &&& forall|j: int| 0 <= j < nodes.len() ==> evolves(#[trigger] nodes[j], n2[j])
            &&& forall|j: int| i < j < nodes.len() ==> n2[j] == nodes[j]
            &&& forall|j: int|
                0 <= j < nodes.len() && !reaches(nodes, i, j) ==> n2[j] == nodes[j]
            &&& (arena_wf(nodes) ==> arena_wf(n2))
        }),
    decreases i, 1int, 0int,
{
    let (n2, r) = step(nodes, i);
    assert forall|j: int| 0 <= j < nodes.len() implies evolves(#[trigger] nodes[j], nodes[j]) by {
        lemma_evolves_refl(nodes[j]);
    }
    match nodes[i] {
        NodeModel::Const(_) => {},
        NodeModel::Zip(ms) => {
            if forall|k: int| 0 <= k < ms.len() ==> (ms[k] as int) < i {
                lemma_step_all_frame(nodes, ms, i);
                let (m2, r2) = step_all(nodes, ms, i);
                assert forall|j: int|
                    0 <= j < nodes.len() && !reaches(nodes, i, j) implies m2[j] == nodes[j] by {
                    assert(forall|k: int|
                        0 <= k < ms.len() ==> !reaches(nodes, #[trigger] ms[k] as int, j));
                }
            }
        },
        NodeModel::Cond(t, a, b) => {
            if (t as int) < i && (a as int) < i && (b as int) < i {
                lemma_step_frame(nodes, t as int);
                let (n1, r1) = step(nodes, t as int);
                match r1 {
                    Ok(ValModel::Bool(c)) => {
                        let br: int = if c {
                            a as int
                        } else {
                            b as int
                        };
                        lemma_step_frame(n1, br);
                        let (nb, rb) = step(n1, br);
                        assert forall|j: int| 0 <= j < nodes.len() implies evolves(
                            #[trigger] nodes[j],
                            nb[j],
                        ) by {
                            lemma_evolves_trans(nodes[j], n1[j], nb[j]);
                        }
                        assert forall|j: int|
                            0 <= j < nodes.len() && !reaches(nodes, i, j) implies nb[j]
                            == nodes[j] by {
                            lemma_reaches_stable(nodes, n1, br, j);
                        }
                    },
                    _ => {},
                }
            }
        },
        NodeModel::Limit(s, bound, taken) => {
            if (s as int) < i && taken < bound {
                lemma_step_frame(nodes, s as int);
                let (n1, r1) = step(nodes, s as int);
                if r1 is Ok && arena_wf(nodes) {
                    assert(node_wf(nodes, i));
                    lemma_wf_update(n1, i, NodeModel::Limit(s, bound, taken + 1));
                }
            }
        },
        NodeModel::Fanout(s, h) => {
            if (s as int) < i {
                lemma_step_frame(nodes, s as int);
                let (n1, r1) = step(nodes, s as int);
                match r1 {
                    Ok(v) => {
                        assert(n1[i] == nodes[i]);
                        assert(h.push(v).take(h.len() as int) =~= h);
                        if arena_wf(nodes) {
                            assert(node_wf(nodes, i));
                            lemma_wf_update(n1, i, NodeModel::Fanout(s, h.push(v)));
                        }
                    },
                    _ => {},
                }
            }
        },
        NodeModel::Proj(f, idx, taken) => {
            if (f as int) < i && nodes[f as int] is Fanout {
                let h = nodes[f as int]->Fanout_1;
                if taken < h.len() {
                    match project(h[taken as int], idx) {
                        Ok(_) => {
                            if arena_wf(nodes) {
                                lemma_evolves_refl(nodes[i]);
                                lemma_wf_update(
                                    nodes,
                                    i,
                                    NodeModel::Proj(f, idx, taken + 1),
                                );
                            }
                        },
                        _ => {},
                    }
                } else {
                    lemma_step_frame(nodes, f as int);
                    let (n1, r1) = step(nodes, f as int);
                    match r1 {
                        Ok(v) => {
                            match project(v, idx) {
                                Ok(_) => {
                                    assert(n1[i] == nodes[i]);
                                    if arena_wf(nodes) {
                                        assert(node_wf(nodes, i));
                                        assert(node_wf(nodes, f as int));
                                        let s0 = nodes[f as int]->Fanout_0;
                                        lemma_step_fanout(nodes, f);
                                        lemma_step_frame(nodes, s0 as int);
                                        assert(n1[f as int]->Fanout_1.len() == h.len() + 1);
                                        lemma_wf_update(
                                            n1,
                                            i,
                                            NodeModel::Proj(f, idx, taken + 1),
                                        );
                                    }
                                },
                                _ => {},
                            }
                        },
                        _ => {},
                    }
                }
            }
        },
        NodeModel::Op(_, inp) => {
            if (inp as int) < i {
                lemma_step_frame(nodes, inp as int);
            }
        },
    }
}

/// The frame of pulling a member list, as `lemma_step_frame` for one
/// handle.
pub proof fn lemma_step_all_frame(nodes: Seq<NodeModel>, ms: Seq<usize>, b: int)
    requires
        0 <= b <= nodes.len(),
        forall|k: int| 0 <= k < ms.len() ==> (#[trigger] ms[k] as int) < b,
    ensures
        ({
            let (n2, r) = step_all(nodes, ms, b);
            &&& n2.len() == nodes.len()
            &&& forall|j: int| 0 <= j < nodes.len() ==> evolves(#[trigger] nodes[j], n2[j])
            &&& forall|j: int| b <= j < nodes.len() ==> n2[j] == nodes[j]
            &&& forall|j: int|
                0 <= j < nodes.len() && (forall|k: int|
                    0 <= k < ms.len() ==> !reaches(nodes, #[trigger] ms[k] as int, j)) ==> n2[j]
                    == nodes[j]
            &&& (arena_wf(nodes) ==> arena_wf(n2))
        }),
    decreases b, 0int, ms.len(),
{
    let (n2, r) = step_all(nodes, ms, b);
    assert forall|j: int| 0 <= j < nodes.len() implies evolves(#[trigger] nodes[j], nodes[j]) by {
        lemma_evolves_refl(nodes[j]);
    }
    if ms.len() > 0 {
        lemma_step_frame(nodes, ms[0] as int);
        let (n1, r1) = step(nodes, ms[0] as int);
        match r1 {
            Ok(v) => {
                lemma_step_all_frame(n1, ms.drop_first(), b);
                let (nn, rr) = step_all(n1, ms.drop_first(), b);
                assert forall|j: int| 0 <= j < nodes.len() implies evolves(
                    #[trigger] nodes[j],
                    nn[j],
                ) by {
                    lemma_evolves_trans(nodes[j], n1[j], nn[j]);
                }
                assert forall|j: int|
                    0 <= j < nodes.len() && (forall|k: int|
                        0 <= k < ms.len() ==> !reaches(nodes, #[trigger] ms[k] as int, j))
                    implies nn[j] == nodes[j] by {
                    assert(!reaches(nodes, ms[0] as int, j));
                    assert forall|k: int| 0 <= k < ms.drop_first().len() implies !reaches(
                        n1,
                        #[trigger] ms.drop_first()[k] as int,
                        j,
                    ) by {
                        assert(ms.drop_first()[k] == ms[k + 1]);
                        assert(!reaches(nodes, ms[k + 1] as int, j));
                        lemma_reaches_stable(nodes, n1, ms[k + 1] as int, j);
                    }
                }
            },
            _ => {},
        }
    }
}

/// Reachability is transitive.
pub proof fn lemma_reaches_trans(nodes: Seq<NodeModel>, i: int, x: int, j: int)
    requires
        reaches(nodes, i, x),
        reaches(nodes, x, j),
    ensures
        reaches(nodes, i, j),
    decreases i,
{
    if i != x {
        if 0 <= i < nodes.len() {
            match nodes[i] {
                NodeModel::Zip(ms) => {
                    let k = choose|k: int|
                        0 <= k < ms.len() && 0 <= (ms[k] as int) < i && reaches(
                            nodes,
                            #[trigger] ms[k] as int,
                            x,
                        );
                    lemma_reaches_trans(nodes, ms[k] as int, x, j);
                },
                NodeModel::Cond(t, a, b) => {
                    if (t as int) < i && reaches(nodes, t as int, x) {
                        lemma_reaches_trans(nodes, t as int, x, j);
                    } else if (a as int) < i && reaches(nodes, a as int, x) {
                        lemma_reaches_trans(nodes, a as int, x, j);
                    } else {
                        lemma_reaches_trans(nodes, b as int, x, j);
                    }
                },
                NodeModel::Limit(s, _, _) => {
                    lemma_reaches_trans(nodes, s as int, x, j);
                },
                NodeModel::Fanout(s, _) => {
                    lemma_reaches_trans(nodes, s as int, x, j);
                },
                NodeModel::Proj(f, _, _) => {
                    lemma_reaches_trans(nodes, f as int, x, j);
                },
                NodeModel::Op(_, inp) => {
                    lemma_reaches_trans(nodes, inp as int, x, j);
                },
                NodeModel::Const(_) => {},
            }
        }
    }
}

/// A pull that calls no host capability keeps that property for every
/// handle it can reach.
pub proof fn lemma_pure_reach(nodes: Seq<NodeModel>, i: int, x: int)
    requires
        pure(nodes, i),
        reaches(nodes, i, x),
    ensures
        pure(nodes, x),
{
    assert forall|j: int| 0 <= j < nodes.len() && reaches(nodes, x, j) implies match nodes[j] {
        NodeModel::Op(op, _) => host_free(op),
        _ => true,
    } by {
        lemma_reaches_trans(nodes, i, x, j);
    }
}

/// Purity reads only the shape of the arena: arenas that evolve from
/// one another agree on it.
pub proof fn lemma_pure_stable(n1: Seq<NodeModel>, n2: Seq<NodeModel>, i: int)
    requires
        n1.len() == n2.len(),
        forall|k: int| 0 <= k < n1.len() ==> evolves(#[trigger] n1[k], n2[k]),
    ensures
        pure(n1, i) == pure(n2, i),
{
    if pure(n1, i) {
        assert forall|j: int| 0 <= j < n2.len() && reaches(n2, i, j) implies match #[trigger] n2[j] {
            NodeModel::Op(op, _) => host_free(op),
            _ => true,
        } by {
            lemma_reaches_stable(n1, n2, i, j);
            assert(reaches(n1, i, j));
            assert(evolves(n1[j], n2[j]));
        }
        assert(pure(n2, i));
    }
    if pure(n2, i) {
        assert forall|j: int| 0 <= j < n1.len() && reaches(n1, i, j) implies match #[trigger] n1[j] {
            NodeModel::Op(op, _) => host_free(op),
            _ => true,
        } by {
            lemma_reaches_stable(n1, n2, i, j);
            assert(reaches(n2, i, j));
            assert(evolves(n1[j], n2[j]));
        }
        assert(pure(n1, i));
    }
}

/// Every handle of an arena evolves into itself.
pub proof fn lemma_arena_evolves_refl(nodes: Seq<NodeModel>)
    ensures
        forall|j: int| 0 <= j < nodes.len() ==> evolves(#[trigger] nodes[j], nodes[j]),
{
    assert forall|j: int| 0 <= j < nodes.len() implies evolves(#[trigger] nodes[j], nodes[j]) by {
        lemma_evolves_refl(nodes[j]);
    }
}

/// Evolution of whole arenas composes.
pub proof fn lemma_arena_evolves_trans(a: Seq<NodeModel>, b: Seq<NodeModel>, c: Seq<NodeModel>)
    requires
        a.len() == b.len(),
        b.len() == c.len(),
        forall|j: int| 0 <= j < a.len() ==> evolves(#[trigger] a[j], b[j]),
        forall|j: int| 0 <= j < b.len() ==> evolves(#[trigger] b[j], c[j]),
    ensures
        forall|j: int| 0 <= j < a.len() ==> evolves(#[trigger] a[j], c[j]),
{
    assert forall|j: int| 0 <= j < a.len() implies evolves(#[trigger] a[j], c[j]) by {
        lemma_evolves_trans(a[j], b[j], c[j]);
    }
}

/// One pull reads and writes only the handles at or below its index:
/// two arenas that agree up to `x` yield the same result and stay in
/// agreement up to `x` when `x` is pulled in each.
pub proof fn lemma_step_local(n1: Seq<NodeModel>, n2: Seq<NodeModel>, x: int)
    requires
        n1.len() == n2.len(),
        0 <= x < n1.len(),
        forall|j: int| 0 <= j <= x ==> n1[j] == n2[j],
    ensures
        step(n1, x).1 == step(n2, x).1,
        forall|j: int| 0 <= j <= x ==> step(n1, x).0[j] == step(n2, x).0[j],
    decreases x, 1int, 0int,
{
    lemma_step_frame(n1, x);
    lemma_step_frame(n2, x);
    match n1[x] {
        NodeModel::Const(_) => {},
        NodeModel::Zip(ms) => {
            if forall|k: int| 0 <= k < ms.len() ==> (ms[k] as int) < x {
                lemma_step_all_local(n1, n2, ms, x);
                lemma_step_all_frame(n1, ms, x);
                lemma_step_all_frame(n2, ms, x);
                assert(step_all(n1, ms, x).0[x] == n1[x]);
                assert(step_all(n2, ms, x).0[x] == n2[x]);
            }
        },
        NodeModel::Cond(t, a, b) => {
            if (t as int) < x && (a as int) < x && (b as int) < x {
                lemma_step_local(n1, n2, t as int);
                lemma_step_frame(n1, t as int);
                lemma_step_frame(n2, t as int);
                let o1 = step(n1, t as int).0;
                let o2 = step(n2, t as int).0;
                assert forall|j: int| 0 <= j <= x implies o1[j] == o2[j] by {
                    if j > t {
                        assert(o1[j] == n1[j] && o2[j] == n2[j]);
                    }
                }
                match step(n1, t as int).1 {
                    Ok(ValModel::Bool(c)) => {
                        if c {
                            lemma_step_local(o1, o2, a as int);
                            lemma_step_frame(o1, a as int);
                            lemma_step_frame(o2, a as int);
                            assert forall|j: int| 0 <= j <= x implies step(n1, x).0[j] == step(
                                n2,
                                x,
                            ).0[j] by {
                                if j > a {
                                    assert(step(o1, a as int).0[j] == o1[j]);
                                    assert(step(o2, a as int).0[j] == o2[j]);
                                }
                            }
                        } else {
                            lemma_step_local(o1, o2, b as int);
                            lemma_step_frame(o1, b as int);
                            lemma_step_frame(o2, b as int);
                            assert forall|j: int| 0 <= j <= x implies step(n1, x).0[j] == step(
                                n2,
                                x,
                            ).0[j] by {
                                if j > b {
                                    assert(step(o1, b as int).0[j] == o1[j]);
                                    assert(step(o2, b as int).0[j] == o2[j]);
                                }
                            }
                        }
                    },
                    _ => {},
                }
            }
        },
        NodeModel::Limit(src, _, _) => {
            if (src as int) < x {
                lemma_step_local(n1, n2, src as int);
                lemma_step_frame(n1, src as int);
                lemma_step_frame(n2, src as int);
                assert forall|j: int| 0 <= j <= x implies step(n1, src as int).0[j] == step(
                    n2,
                    src as int,
                ).0[j] by {
                    if j > src {
                        assert(step(n1, src as int).0[j] == n1[j]);
                        assert(step(n2, src as int).0[j] == n2[j]);
                    }
                }
            }
        },
        NodeModel::Fanout(src, _) => {
            if (src as int) < x {
                lemma_step_local(n1, n2, src as int);
                lemma_step_frame(n1, src as int);
                lemma_step_frame(n2, src as int);
                assert forall|j: int| 0 <= j <= x implies step(n1, src as int).0[j] == step(
                    n2,
                    src as int,
                ).0[j] by {
                    if j > src {
                        assert(step(n1, src as int).0[j] == n1[j]);
                        assert(step(n2, src as int).0[j] == n2[j]);
                    }
                }
            }
        },
        NodeModel::Proj(f, _, taken) => {
            if (f as int) < x && n1[f as int] is Fanout {
                let h = n1[f as int]->Fanout_1;
                if taken < h.len() {
                } else {
                    lemma_step_local(n1, n2, f as int);
                    lemma_step_frame(n1, f as int);
                    lemma_step_frame(n2, f as int);
                    assert forall|j: int| 0 <= j <= x implies step(n1, f as int).0[j] == step(
                        n2,
                        f as int,
                    ).0[j] by {
                        if j > f {
                            assert(step(n1, f as int).0[j] == n1[j]);
                            assert(step(n2, f as int).0[j] == n2[j]);
                        }
                    }
                }
            }
        },
        NodeModel::Op(_, inp) => {
            if (inp as int) < x {
                lemma_step_local(n1, n2, inp as int);
                lemma_step_frame(n1, inp as int);
                lemma_step_frame(n2, inp as int);
                assert forall|j: int| 0 <= j <= x implies step(n1, inp as int).0[j] == step(
                    n2,
                    inp as int,
                ).0[j] by {
                    if j > inp {
                        assert(step(n1, inp as int).0[j] == n1[j]);
                        assert(step(n2, inp as int).0[j] == n2[j]);
                    }
                }
            }
        },
    }
}

/// `lemma_step_local`, for a member list.
pub proof fn lemma_step_all_local(n1: Seq<NodeModel>, n2: Seq<NodeModel>, ms: Seq<usize>, b: int)
    requires
        n1.len() == n2.len(),
        0 <= b <= n1.len(),
        forall|j: int| 0 <= j < b ==> n1[j] == n2[j],
        forall|k: int| 0 <= k < ms.len() ==> (#[trigger] ms[k] as int) < b,
    ensures
        step_all(n1, ms, b).1 == step_all(n2, ms, b).1,
        forall|j: int| 0 <= j < b ==> step_all(n1, ms, b).0[j] == step_all(n2, ms, b).0[j],
    decreases b, 0int, ms.len(),
{
    if ms.len() > 0 {
        let m = ms[0] as int;
        lemma_step_local(n1, n2, m);
        lemma_step_frame(n1, m);
        lemma_step_frame(n2, m);
        let o1 = step(n1, m).0;
        let o2 = step(n2, m).0;
        assert forall|j: int| 0 <= j < b implies o1[j] == o2[j] by {
            if j > m {
                assert(o1[j] == n1[j] && o2[j] == n2[j]);
            }
        }
        match step(n1, m).1 {
            Ok(_) => {
                lemma_step_all_local(o1, o2, ms.drop_first(), b);
            },
            Err(_) => {},
        }
    }
}

/// One pull of each of the handles `ms`, left to right, all of them
/// below the bound `b`: the arena afterwards and the values in order,
/// or the first error.
pub open spec fn step_all(nodes: Seq<NodeModel>, ms: Seq<usize>, b: int) -> (Seq<NodeModel>, Result<
    Seq<ValModel>,
    EvalError,
>)
    decreases b, 0int, ms.len(),
    when b >= 0
{
    if ms.len() == 0 {
        (nodes, Ok(Seq::empty()))
    } else if 0 <= (ms[0] as int) < b {
        let (n1, r) = step(nodes, ms[0] as int);
        match r {
            Ok(v) => {
                let (n2, r2) = step_all(n1, ms.drop_first(), b);
                match r2 {
                    Ok(vs) => (n2, Ok(seq![v] + vs)),
                    Err(e) => (n2, Err(e)),
                }
            },
            Err(e) => (n1, Err(e)),
        }
    } else {
        (nodes, Err(EvalError::TypeMismatch))
    }
}

} // verus!
