//! The laws of the stream combinators, proved of the evaluation model
//! that `Engine::pull` is verified against.

use vstd::prelude::*;

use crate::node::{NodeModel, arena_wf, node_wf, reaches};
use crate::semantics::{
    lemma_reaches_stable, lemma_step_frame, lemma_step_local, project, step, step_all,
};
use crate::syntax::{EvalError, ValModel};

verus! {

/// The arena and results after `k` pulls of the handle at `i`, one
/// after the other.
pub open spec fn pulls(nodes: Seq<NodeModel>, i: int, k: nat) -> (Seq<NodeModel>, Seq<
    Result<ValModel, EvalError>,
>)
    decreases k,
{
    if k == 0 {
        (nodes, Seq::empty())
    } else {
        let (n1, rs) = pulls(nodes, i, (k - 1) as nat);
        let (n2, r) = step(n1, i);
        (n2, rs.push(r))
    }
}

/// Pulling any number of times keeps the arena's length, and yields
/// one result per pull.
pub proof fn lemma_pulls_len(nodes: Seq<NodeModel>, x: int, k: nat)
    requires
        0 <= x < nodes.len(),
    ensures
        pulls(nodes, x, k).0.len() == nodes.len(),
        pulls(nodes, x, k).1.len() == k,
    decreases k,
{
    if k > 0 {
        lemma_pulls_len(nodes, x, (k - 1) as nat);
        lemma_step_frame(pulls(nodes, x, (k - 1) as nat).0, x);
    }
}

/// Law: while a limit has yielded fewer values than its bound, a pull
/// passes its source's value through unchanged, counting it; from the
/// bound on, a pull yields `Null` and the arena — the source included —
/// is not touched at all.
pub proof fn law_limit(nodes: Seq<NodeModel>, i: int)
    requires
        arena_wf(nodes),
        0 <= i < nodes.len(),
        nodes[i] is Limit,
    ensures
        ({
            let s = nodes[i]->Limit_0;
            let bound = nodes[i]->Limit_1;
            let taken = nodes[i]->Limit_2;
            &&& (taken < bound ==> ({
                let (n1, r1) = step(nodes, s as int);
                &&& (r1 is Ok ==> step(nodes, i) == ((
                    n1.update(i, NodeModel::Limit(s, bound, taken + 1)),
                    r1,
                )))
                &&& (r1 is Err ==> step(nodes, i) == ((n1, r1)))
            }))
            &&& (taken >= bound ==> step(nodes, i) == ((
                nodes,
                Ok::<ValModel, EvalError>(ValModel::Null),
            )))
        }),
{
    assert(node_wf(nodes, i));
}

/// Law: a fresh limit yields exactly its source's first values. Over
/// `k` pulls, `k` within the bound and the source yielding a value
/// each time, the limit's results are exactly the results of pulling
/// the source `k` times directly, and the arena afterwards is the
/// source's arena with nothing changed but the limit's own counter.
pub proof fn law_limit_matches_source(nodes: Seq<NodeModel>, i: int, k: nat)
    requires
        arena_wf(nodes),
        0 <= i < nodes.len(),
        nodes[i] is Limit,
        nodes[i]->Limit_2 == 0,
        k <= nodes[i]->Limit_1,
        forall|t: int|
            0 <= t < k ==> pulls(nodes, nodes[i]->Limit_0 as int, k).1[t] is Ok,
    ensures
        ({
            let s = nodes[i]->Limit_0;
            let bound = nodes[i]->Limit_1;
            let (ns, rss) = pulls(nodes, s as int, k);
            let (nl, rsl) = pulls(nodes, i, k);
            &&& rsl == rss
            &&& nl == ns.update(i, NodeModel::Limit(s, bound, k))
        }),
    decreases k,
{
    assert(node_wf(nodes, i));
    let s = nodes[i]->Limit_0;
    let bound = nodes[i]->Limit_1;
    lemma_pulls_len(nodes, s as int, k);
    if k == 0 {
        assert(nodes.update(i, NodeModel::Limit(s, bound, 0)) =~= nodes);
    } else {
        let kp = (k - 1) as nat;
        lemma_pulls_len(nodes, s as int, kp);
        lemma_pulls_len(nodes, i, kp);
        let (ns1, rss1) = pulls(nodes, s as int, kp);
        let (nl1, rsl1) = pulls(nodes, i, kp);
        let (ns2, rss2) = pulls(nodes, s as int, k);
        assert forall|t: int| 0 <= t < kp implies pulls(nodes, s as int, kp).1[t] is Ok by {
            assert(rss2[t] == rss1.push(step(ns1, s as int).1)[t]);
        }
        law_limit_matches_source(nodes, i, kp);
        let (nx, rx) = step(ns1, s as int);
        assert(rx == rss2[k - 1]);
        assert(rx is Ok);
        assert forall|j: int| 0 <= j <= (s as int) implies ns1[j] == nl1[j] by {
            assert(nl1[j] == ns1.update(i, NodeModel::Limit(s, bound, kp))[j]);
        }
        lemma_step_local(ns1, nl1, s as int);
        lemma_step_frame(ns1, s as int);
        lemma_step_frame(nl1, s as int);
        let (ny, ry) = step(nl1, s as int);
        assert(ry == rx);
        assert(nl1[i] == NodeModel::Limit(s, bound, kp));
        let nl2 = pulls(nodes, i, k).0;
        assert(nl2 == ny.update(i, NodeModel::Limit(s, bound, k)));
        assert forall|j: int| 0 <= j < nodes.len() implies nl2[j] == nx.update(
            i,
            NodeModel::Limit(s, bound, k),
        )[j] by {
            if j != i {
                if j <= (s as int) {
                    assert(ny[j] == nx[j]);
                } else {
                    assert(ny[j] == nl1[j]);
                    assert(nx[j] == ns1[j]);
                    assert(nl1[j] == ns1.update(i, NodeModel::Limit(s, bound, kp))[j]);
                }
            }
        }
        assert(nl2 =~= nx.update(i, NodeModel::Limit(s, bound, k)));
        assert(pulls(nodes, i, k).1 =~= rss2);
    }
}

/// Law: once a limit is exhausted, any number of further pulls yields
/// `Null` every time and leaves every handle of the arena — its source
/// included — exactly as it was.
pub proof fn law_limit_null_forever(nodes: Seq<NodeModel>, i: int, k: nat)
    requires
        arena_wf(nodes),
        0 <= i < nodes.len(),
        nodes[i] is Limit,
        nodes[i]->Limit_2 >= nodes[i]->Limit_1,
    ensures
        ({
            let (nk, rs) = pulls(nodes, i, k);
            &&& nk == nodes
            &&& rs.len() == k
            &&& forall|t: int|
                0 <= t < k ==> rs[t] == Ok::<ValModel, EvalError>(ValModel::Null)
        }),
    decreases k,
{
    assert(node_wf(nodes, i));
    if k > 0 {
        law_limit_null_forever(nodes, i, (k - 1) as nat);
    }
}

/// Law: one pull of a zip is one pull of every member, left to right —
/// no member pulled twice, none skipped — and, when every member
/// yields a value, the zip yields the tuple of those values in the
/// same order.
pub proof fn law_zip_one_pull_each(nodes: Seq<NodeModel>, i: int)
    requires
        arena_wf(nodes),
        0 <= i < nodes.len(),
        nodes[i] is Zip,
    ensures
        ({
            let ms = nodes[i]->Zip_0;
            let (n1, r1) = step(nodes, i);
            let (n2, r2) = step_all(nodes, ms, i);
            &&& n1 == n2
            &&& (r2 is Ok ==> r1 == Ok::<ValModel, EvalError>(ValModel::Tuple(r2->Ok_0)))
            &&& (r2 is Err ==> r1 == Err::<ValModel, EvalError>(r2->Err_0))
        }),
{
    assert(node_wf(nodes, i));
}

/// The arena and per-tick results after `k` rounds of pulling every
/// member of `ms` once, left to right.
pub open spec fn rounds(nodes: Seq<NodeModel>, ms: Seq<usize>, b: int, k: nat) -> (Seq<NodeModel>, Seq<
    Result<Seq<ValModel>, EvalError>,
>)
    decreases k,
{
    if k == 0 {
        (nodes, Seq::empty())
    } else {
        let (n1, rs) = rounds(nodes, ms, b, (k - 1) as nat);
        let (n2, r) = step_all(n1, ms, b);
        (n2, rs.push(r))
    }
}

/// Law: `k` pulls of a zip advance each member exactly `k` times —
/// the arena after `k` pulls of the zip is the arena after `k` rounds
/// of one pull of each member, left to right — and each tick's value
/// is the tuple of that round's member values.
pub proof fn law_zip_k_pulls(nodes: Seq<NodeModel>, i: int, k: nat)
    requires
        arena_wf(nodes),
        0 <= i < nodes.len(),
        nodes[i] is Zip,
    ensures
        ({
            let ms = nodes[i]->Zip_0;
            let (nr, rs) = rounds(nodes, ms, i, k);
            let (nz, zs) = pulls(nodes, i, k);
            &&& nz == nr
            &&& arena_wf(nr)
            &&& nr.len() == nodes.len()
            &&& nr[i] == nodes[i]
            &&& zs.len() == k
            &&& rs.len() == k
            &&& forall|t: int|
                0 <= t < k ==> zs[t] == (match rs[t] {
                    Ok(vs) => Ok::<ValModel, EvalError>(ValModel::Tuple(vs)),
                    Err(e) => Err::<ValModel, EvalError>(e),
                })
        }),
    decreases k,
{
    assert(node_wf(nodes, i));
    if k > 0 {
        law_zip_k_pulls(nodes, i, (k - 1) as nat);
        let ms = nodes[i]->Zip_0;
        let (nr1, rs1) = rounds(nodes, ms, i, (k - 1) as nat);
        assert(node_wf(nr1, i));
        law_zip_one_pull_each(nr1, i);
        crate::semantics::lemma_step_all_frame(nr1, ms, i);
    }
}

/// Law: zipping three streams, one pull advances each of the three
/// exactly once, in order — the second is pulled on the state the
/// first left, the third on the state the second left — and the
/// result is the tuple of their three values.
pub proof fn law_zip_three(nodes: Seq<NodeModel>, i: int)
    requires
        arena_wf(nodes),
        0 <= i < nodes.len(),
        nodes[i] is Zip,
        nodes[i]->Zip_0.len() == 3,
    ensures
        ({
            let ms = nodes[i]->Zip_0;
            let (na, ra) = step(nodes, ms[0] as int);
            let (nb, rb) = step(na, ms[1] as int);
            let (nc, rc) = step(nb, ms[2] as int);
            ra is Ok && rb is Ok && rc is Ok ==> step(nodes, i) == ((
                nc,
                Ok::<ValModel, EvalError>(
                    ValModel::Tuple(seq![ra->Ok_0, rb->Ok_0, rc->Ok_0]),
                ),
            ))
        }),
{
    assert(node_wf(nodes, i));
    let ms = nodes[i]->Zip_0;
    let (na, ra) = step(nodes, ms[0] as int);
    let (nb, rb) = step(na, ms[1] as int);
    let (nc, rc) = step(nb, ms[2] as int);
    if ra is Ok && rb is Ok && rc is Ok {
        let tail1 = ms.drop_first();
        let tail2 = tail1.drop_first();
        let tail3 = tail2.drop_first();
        assert(tail1[0] == ms[1] && tail2[0] == ms[2]);
        assert(tail3 =~= Seq::<usize>::empty());
        let (x3, y3) = step_all(nc, tail3, i);
        assert(y3 == Ok::<Seq<ValModel>, EvalError>(Seq::empty()));
        let (x2, y2) = step_all(nb, tail2, i);
        let (x1, y1) = step_all(na, tail1, i);
        let (x0, y0) = step_all(nodes, ms, i);
        assert(seq![ra->Ok_0] + (seq![rb->Ok_0] + (seq![rc->Ok_0]
            + Seq::<ValModel>::empty())) =~= seq![ra->Ok_0, rb->Ok_0, rc->Ok_0]);
    }
}

/// Law: a conditional pulls its test and then exactly one branch. The
/// branch not taken does not advance: every handle that the test and
/// the taken branch cannot reach — the whole untaken subtree, wherever
/// it is not shared — is left exactly as it was.
pub proof fn law_cond_one_branch(nodes: Seq<NodeModel>, i: int)
    requires
        arena_wf(nodes),
        0 <= i < nodes.len(),
        nodes[i] is Cond,
    ensures
        ({
            let t = nodes[i]->Cond_0;
            let a = nodes[i]->Cond_1;
            let b = nodes[i]->Cond_2;
            let (n1, r1) = step(nodes, t as int);
            &&& (r1 == Ok::<ValModel, EvalError>(ValModel::Bool(true)) ==> {
                &&& step(nodes, i) == step(n1, a as int)
                &&& forall|j: int|
                    0 <= j < nodes.len() && !reaches(nodes, t as int, j) && !reaches(
                        nodes,
                        a as int,
                        j,
                    ) ==> step(nodes, i).0[j] == nodes[j]
            })
            &&& (r1 == Ok::<ValModel, EvalError>(ValModel::Bool(false)) ==> {
                &&& step(nodes, i) == step(n1, b as int)
                &&& forall|j: int|
                    0 <= j < nodes.len() && !reaches(nodes, t as int, j) && !reaches(
                        nodes,
                        b as int,
                        j,
                    ) ==> step(nodes, i).0[j] == nodes[j]
            })
        }),
{
    assert(node_wf(nodes, i));
    let t = nodes[i]->Cond_0;
    let a = nodes[i]->Cond_1;
    let b = nodes[i]->Cond_2;
    lemma_step_frame(nodes, t as int);
    let (n1, r1) = step(nodes, t as int);
    if r1 == Ok::<ValModel, EvalError>(ValModel::Bool(true)) {
        lemma_step_frame(n1, a as int);
        assert forall|j: int|
            0 <= j < nodes.len() && !reaches(nodes, t as int, j) && !reaches(nodes, a as int, j)
            implies step(nodes, i).0[j] == nodes[j] by {
            lemma_reaches_stable(nodes, n1, a as int, j);
        }
    }
    if r1 == Ok::<ValModel, EvalError>(ValModel::Bool(false)) {
        lemma_step_frame(n1, b as int);
        assert forall|j: int|
            0 <= j < nodes.len() && !reaches(nodes, t as int, j) && !reaches(nodes, b as int, j)
            implies step(nodes, i).0[j] == nodes[j] by {
            lemma_reaches_stable(nodes, n1, b as int, j);
        }
    }
}

/// The arena and results after `k` ticks of a conditional's behaviour:
/// each tick pulls the test once and then exactly the branch the test
/// chose — `a` on a `true` tick, `b` on a `false` tick, neither on an
/// ill-typed or failed tick.
pub open spec fn cond_rounds(
    nodes: Seq<NodeModel>,
    t: usize,
    a: usize,
    b: usize,
    k: nat,
) -> (Seq<NodeModel>, Seq<Result<ValModel, EvalError>>)
    decreases k,
{
    if k == 0 {
        (nodes, Seq::empty())
    } else {
        let (np, rs) = cond_rounds(nodes, t, a, b, (k - 1) as nat);
        let (n1, r1) = step(np, t as int);
        match r1 {
            Ok(ValModel::Bool(c)) => {
                let (n2, r2) = step(n1, if c { a as int } else { b as int });
                (n2, rs.push(r2))
            },
            Ok(_) => (n1, rs.push(Err(EvalError::TypeMismatch))),
            Err(e) => (n1, rs.push(Err(e))),
        }
    }
}

/// Law: over `k` pulls of a conditional, the test is pulled exactly
/// `k` times, the then-branch exactly once per `true` tick and the
/// else-branch exactly once per `false` tick — never both in one tick:
/// `k` pulls of the conditional are exactly `k` rounds of
/// test-then-chosen-branch.
pub proof fn law_cond_k_pulls(nodes: Seq<NodeModel>, i: int, k: nat)
    requires
        arena_wf(nodes),
        0 <= i < nodes.len(),
        nodes[i] is Cond,
    ensures
        ({
            let t = nodes[i]->Cond_0;
            let a = nodes[i]->Cond_1;
            let b = nodes[i]->Cond_2;
            let (nr, rs) = cond_rounds(nodes, t, a, b, k);
            let (nc, cs) = pulls(nodes, i, k);
            &&& nc == nr
            &&& cs == rs
            &&& arena_wf(nr)
            &&& nr.len() == nodes.len()
            &&& nr[i] == nodes[i]
        }),
    decreases k,
{
    assert(node_wf(nodes, i));
    if k > 0 {
        law_cond_k_pulls(nodes, i, (k - 1) as nat);
        let t = nodes[i]->Cond_0;
        let a = nodes[i]->Cond_1;
        let b = nodes[i]->Cond_2;
        let (nr1, rs1) = cond_rounds(nodes, t, a, b, (k - 1) as nat);
        assert(node_wf(nr1, i));
        lemma_step_frame(nr1, t as int);
        let (n1, r1) = step(nr1, t as int);
        match r1 {
            Ok(ValModel::Bool(c)) => {
                if c {
                    lemma_step_frame(n1, a as int);
                } else {
                    lemma_step_frame(n1, b as int);
                }
            },
            _ => {},
        }
    }
}

/// Law: the projections of one destructuring observe the same tick's
/// tuple. A projection that is behind the record reads its own tick's
/// recorded tuple — the tuple every other projection of that tick read
/// or will read — and advances nothing but its own counter; a
/// projection at the edge of the record advances the shared source
/// exactly once, records the tuple, and reads its component of it.
pub proof fn law_unzip_shared_tick(nodes: Seq<NodeModel>, p: int)
    requires
        arena_wf(nodes),
        0 <= p < nodes.len(),
        nodes[p] is Proj,
        nodes[nodes[p]->Proj_0 as int] is Fanout,
    ensures
        ({
            let f = nodes[p]->Proj_0;
            let x = nodes[p]->Proj_1;
            let taken = nodes[p]->Proj_2;
            let h = nodes[f as int]->Fanout_1;
            let z = nodes[f as int]->Fanout_0;
            &&& (taken < h.len() ==> ({
                let r = project(h[taken as int], x);
                &&& (r is Ok ==> step(nodes, p) == ((
                    nodes.update(p, NodeModel::Proj(f, x, taken + 1)),
                    r,
                )))
                &&& (r is Err ==> step(nodes, p) == ((nodes, r)))
            }))
            &&& (taken == h.len() ==> ({
                let (nz, rz) = step(nodes, z as int);
                rz is Ok ==> ({
                    let recorded = nz.update(f as int, NodeModel::Fanout(z, h.push(rz->Ok_0)));
                    let r = project(rz->Ok_0, x);
                    &&& (r is Ok ==> step(nodes, p) == ((
                        recorded.update(p, NodeModel::Proj(f, x, taken + 1)),
                        r,
                    )))
                    &&& (r is Err ==> step(nodes, p) == ((recorded, r)))
                })
            }))
        }),
{
    assert(node_wf(nodes, p));
    let f = nodes[p]->Proj_0;
    assert(node_wf(nodes, f as int));
    crate::semantics::lemma_step_fanout(nodes, f);
    let z = nodes[f as int]->Fanout_0;
    lemma_step_frame(nodes, z as int);
}

/// Law: duplicating a stream and projecting either component
/// reproduces the stream. A fresh pull of a projection over a fanout
/// over `Dup2` yields exactly the value the underlying stream yields
/// that tick, for both component indices.
pub proof fn law_dup2_roundtrip(nodes: Seq<NodeModel>, p: int)
    requires
        arena_wf(nodes),
        0 <= p < nodes.len(),
        nodes[p] is Proj,
        nodes[p]->Proj_1 < 2,
        nodes[nodes[p]->Proj_0 as int] is Fanout,
        nodes[p]->Proj_2 == nodes[nodes[p]->Proj_0 as int]->Fanout_1.len(),
        nodes[nodes[nodes[p]->Proj_0 as int]->Fanout_0 as int] is Op,
        nodes[nodes[nodes[p]->Proj_0 as int]->Fanout_0 as int]->Op_0 is Dup2,
    ensures
        ({
            let f = nodes[p]->Proj_0;
            let d = nodes[f as int]->Fanout_0;
            let s = nodes[d as int]->Op_1;
            let (n1, r1) = step(nodes, s as int);
            r1 is Ok ==> step(nodes, p).1 == r1
        }),
{
    assert(node_wf(nodes, p));
    let f = nodes[p]->Proj_0;
    assert(node_wf(nodes, f as int));
    let d = nodes[f as int]->Fanout_0;
    assert(node_wf(nodes, d as int));
    let s = nodes[d as int]->Op_1;
    let (n1, r1) = step(nodes, s as int);
    if r1 is Ok {
        let v = r1->Ok_0;
        assert(step(nodes, d as int).1 == Ok::<ValModel, EvalError>(
            ValModel::Tuple(seq![v, v]),
        ));
        crate::semantics::lemma_step_fanout(nodes, f);
        assert(step(nodes, f as int).1 == Ok::<ValModel, EvalError>(
            ValModel::Tuple(seq![v, v]),
        ));
        lemma_step_frame(nodes, d as int);
        let x = nodes[p]->Proj_1;
        assert(seq![v, v][x as int] == v);
        assert(project(ValModel::Tuple(seq![v, v]), x) == Ok::<ValModel, EvalError>(v));
    }
}

} // verus!
