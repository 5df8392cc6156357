//! The evaluation engine: builds stream handles from the syntax and
//! pulls values out of them, one tick at a time.

use vstd::prelude::*;

use crate::host::Host;
use crate::node::{Node, NodeModel, arena, arena_wf, evolves, node_wf, reaches};
use crate::semantics::{
    drain, host_free, lemma_arena_evolves_refl, lemma_arena_evolves_trans, lemma_pure_reach,
    lemma_pure_stable, lemma_wf_update, num_pair, op_result, pure, step, step_all,
};
use crate::syntax::{
    Builtin, EvalError, ValModel, Value, lemma_vals_model, lemma_vals_model_push, val_model,
    vals_model,
};

verus! {

/// The model of a pulled result: the value's model, or the error.
pub open spec fn res_model(r: Result<Value, EvalError>) -> Result<ValModel, EvalError> {
    match r {
        Ok(v) => Ok(val_model(v)),
        Err(e) => Err(e),
    }
}

/// Updating one handle updates one model.
pub proof fn lemma_arena_update(ns: Seq<Node>, i: int, n: Node)
    requires
        0 <= i < ns.len(),
    ensures
        arena(ns.update(i, n)) == arena(ns).update(i, n@),
{
    assert(arena(ns.update(i, n)) =~= arena(ns).update(i, n@));
}

/// A lightweight copy of what one handle says to do, so that the
/// engine can dispatch without holding a borrow into the arena.
enum Fetched {
    Const(Value),
    Zip(Vec<usize>),
    Cond(usize, usize, usize),
    Limit(usize, usize, usize),
    Fanout(usize),
    Proj(usize, usize, usize),
    Op(Builtin, usize),
}

/// The evaluation state: an arena of stream handles, and the handles
/// built from `Consume` statements, which a tick pulls for effect.
pub struct Engine {
    pub nodes: Vec<Node>,
    pub consumed: Vec<usize>,
}

impl Engine {
    /// The arena, as models.
    pub open spec fn model(&self) -> Seq<NodeModel> {
        arena(self.nodes@)
    }

    /// Every handle is well formed and every consumed index in range.
    pub open spec fn wf(&self) -> bool {
        &&& arena_wf(self.model())
        &&& forall|k: int|
            0 <= k < self.consumed@.len() ==> (#[trigger] self.consumed@[k] as int)
                < self.model().len()
    }

    /// An empty engine: no handles yet.
    pub fn new() -> (r: Engine)
        ensures
            r.wf(),
            r.model() == Seq::<NodeModel>::empty(),
            r.consumed@ == Seq::<usize>::empty(),
    {
        let r = Engine { nodes: Vec::new(), consumed: Vec::new() };
        proof {
            assert(r.model() =~= Seq::<NodeModel>::empty());
        }
        r
    }

    fn fetch(&self, i: usize) -> (r: Fetched)
        requires
            (i as int) < self.model().len(),
        ensures
            match r {
                Fetched::Const(v) => self.model()[i as int] == NodeModel::Const(val_model(v)),
                Fetched::Zip(ms) => self.model()[i as int] == NodeModel::Zip(ms@),
                Fetched::Cond(t, a, b) => self.model()[i as int] == NodeModel::Cond(t, a, b),
                Fetched::Limit(s, n, k) => self.model()[i as int] == NodeModel::Limit(
                    s,
                    n,
                    k as nat,
                ),
                Fetched::Fanout(s) => self.model()[i as int] is Fanout && self.model()[
                    i as int
                ]->Fanout_0 == s,
                Fetched::Proj(f, x, k) => self.model()[i as int] == NodeModel::Proj(f, x, k as nat),
                Fetched::Op(op, inp) => self.model()[i as int] == NodeModel::Op(op, inp),
            },
    {
        match &self.nodes[i] {
            Node::Const(v) => Fetched::Const(v.duplicate()),
            Node::Zip(ms) => {
                let mut out: Vec<usize> = Vec::new();
                let mut k: usize = 0;
                while k < ms.len()
                    invariant
                        k <= ms.len(),
                        out@ =~= ms@.take(k as int),
                    decreases ms.len() - k,
                {
                    out.push(ms[k]);
                    proof {
                        assert(out@ =~= ms@.take(k as int + 1));
                    }
                    k = k + 1;
                }
                proof {
                    assert(ms@.take(ms@.len() as int) =~= ms@);
                }
                Fetched::Zip(out)
            },
            Node::Cond(t, a, b) => Fetched::Cond(*t, *a, *b),
            Node::Limit(s, n, k) => Fetched::Limit(*s, *n, *k),
            Node::Fanout(s, _) => Fetched::Fanout(*s),
            Node::Proj(f, x, k) => Fetched::Proj(*f, *x, *k),
            Node::Op(op, inp) => Fetched::Op(*op, *inp),
        }
    }

    /// How many values the fanout at `f` has recorded.
    fn fanout_len(&self, f: usize) -> (n: usize)
        requires
            (f as int) < self.model().len(),
            self.model()[f as int] is Fanout,
        ensures
            n == self.model()[f as int]->Fanout_1.len(),
    {
        match &self.nodes[f] {
            Node::Fanout(_, h) => {
                proof {
                    lemma_vals_model(h@);
                }
                h.len()
            },
            _ => {
                proof {
                    assert(false);
                }
                0
            },
        }
    }

    /// Pull the next value out of the handle at `i`.
    ///
    /// Wherever the pull involves no host capability, the result and
    /// the new arena are exactly what the evaluation model `step`
    /// says. A pull that does call the host (arithmetic, printing)
    /// still only evolves the arena: no handle changes shape, and
    /// handles above `i` are untouched.
    #[verifier::loop_isolation(false)]
    #[verifier::rlimit(100)]
    pub fn pull<H: Host>(&mut self, i: usize, host: &mut H) -> (r: Result<Value, EvalError>)
        requires
            old(self).wf(),
            (i as int) < old(self).model().len(),
        ensures
            final(self).wf(),
            final(self).model().len() == old(self).model().len(),
            final(self).consumed@ == old(self).consumed@,
            forall|j: int|
                (i as int) < j < old(self).model().len() ==> final(self).model()[j] == old(
                    self,
                ).model()[j],
            forall|j: int|
                0 <= j < old(self).model().len() ==> evolves(
                    #[trigger] old(self).model()[j],
                    final(self).model()[j],
                ),
            old(self).model()[i as int] is Fanout && r is Ok ==> final(self).model()[i as int]
                == NodeModel::Fanout(
                old(self).model()[i as int]->Fanout_0,
                old(self).model()[i as int]->Fanout_1.push(val_model(r->Ok_0)),
            ),
            pure(old(self).model(), i as int) ==> final(self).model() == step(
                old(self).model(),
                i as int,
            ).0 && res_model(r) == step(old(self).model(), i as int).1,
            (old(self).model()[i as int] is Op && pure(
                old(self).model(),
                old(self).model()[i as int]->Op_1 as int,
            )) ==> ({
                let op = old(self).model()[i as int]->Op_0;
                let inp = old(self).model()[i as int]->Op_1;
                let (n1, rin) = step(old(self).model(), inp as int);
                &&& final(self).model() == n1
                &&& match rin {
                    Ok(v) => {
                        &&& (host_free(op) ==> res_model(r) == op_result(op, v))
                        &&& ((op is Add || op is Mul || op is Mod || op is Pow) ==> (if num_pair(
                            v,
                        ) {
                            r is Ok && res_model(r)->Ok_0 is Num
                        } else {
                            r == Err::<Value, EvalError>(EvalError::TypeMismatch)
                        }))
                        &&& ((op is Gte || op is Lt) ==> (if num_pair(v) {
                            r is Ok && res_model(r)->Ok_0 is Bool
                        } else {
                            r == Err::<Value, EvalError>(EvalError::TypeMismatch)
                        }))
                        &&& (op is Sqrt ==> (if v is Num {
                            r is Ok && res_model(r)->Ok_0 is Num
                        } else {
                            r == Err::<Value, EvalError>(EvalError::TypeMismatch)
                        }))
                        &&& (op is Print ==> {
                            &&& (r is Ok ==> res_model(r) == Ok::<ValModel, EvalError>(v))
                            &&& (r is Err ==> r == Err::<Value, EvalError>(
                                EvalError::SinkWriteFailure,
                            ))
                        })
                    },
                    Err(e) => r == Err::<Value, EvalError>(e),
                }
            }),
        decreases i,
    {
        let ghost m0 = self.model();
        proof {
            lemma_arena_evolves_refl(m0);
            assert(node_wf(m0, i as int));
        }
        match self.fetch(i) {
            Fetched::Const(v) => Ok(v),
            Fetched::Zip(ms) => {
                let ghost msv = ms@;
                let mut vals: Vec<Value> = Vec::new();
                let mut k: usize = 0;
                proof {
                    lemma_vals_model(vals@);
                    assert(msv.skip(0) =~= msv);
                }
                while k < ms.len()
                    invariant
                        k <= ms.len(),
                        self.wf(),
                        self.model().len() == m0.len(),
                        self.consumed@ == old(self).consumed@,
                        forall|j: int| (i as int) <= j < m0.len() ==> self.model()[j] == m0[j],
                        forall|j: int|
                            0 <= j < m0.len() ==> evolves(#[trigger] m0[j], self.model()[j]),
                        pure(m0, i as int) ==> ({
                            let (mm, rr) = step_all(self.model(), msv.skip(k as int), i as int);
                            &&& step_all(m0, msv, i as int) == ((
                                mm,
                                match rr {
                                    Ok(vs) => Ok::<Seq<ValModel>, EvalError>(
                                        vals_model(vals@) + vs,
                                    ),
                                    Err(e) => Err(e),
                                },
                            ))
                        }),
                    decreases ms.len() - k,
                {
                    let m = ms[k];
                    proof {
                        assert(m0[i as int] == NodeModel::Zip(msv));
                        assert((msv[k as int] as int) < i);
                        if pure(m0, i as int) {
                            assert(reaches(m0, m as int, m as int));
                            assert(reaches(m0, i as int, m as int));
                            lemma_pure_reach(m0, i as int, m as int);
                            lemma_pure_stable(m0, self.model(), m as int);
                        }
                    }
                    let ghost mp = self.model();
                    let r = self.pull(m, host);
                    proof {
                        lemma_arena_evolves_trans(m0, mp, self.model());
                        if pure(m0, i as int) {
                            assert(msv.skip(k as int)[0] == msv[k as int]);
                            assert(msv.skip(k as int).drop_first() =~= msv.skip(k as int + 1));
                        }
                    }
                    match r {
                        Ok(v) => {
                            let ghost vals0 = vals@;
                            vals.push(v);
                            proof {
                                lemma_vals_model_push(vals0, v);
                                if pure(m0, i as int) {
                                    let (mm, rr) = step_all(
                                        self.model(),
                                        msv.skip(k as int + 1),
                                        i as int,
                                    );
                                    match rr {
                                        Ok(vs) => {
                                            assert(vals_model(vals0) + (seq![val_model(v)] + vs)
                                                =~= vals_model(vals@) + vs);
                                        },
                                        Err(_) => {},
                                    }
                                }
                            }
                        },
                        Err(e) => {
                            return Err(e);
                        },
                    }
                    k = k + 1;
                }
                proof {
                    assert(msv.skip(ms@.len() as int) =~= Seq::<usize>::empty());
                    if pure(m0, i as int) {
                        assert(vals_model(vals@) + Seq::<ValModel>::empty() =~= vals_model(vals@));
                    }
                }
                Ok(Value::Tuple(vals))
            },
            Fetched::Cond(t, a, b) => {
                proof {
                    if pure(m0, i as int) {
                        assert(reaches(m0, t as int, t as int));
                        assert(reaches(m0, i as int, t as int));
                        lemma_pure_reach(m0, i as int, t as int);
                    }
                }
                let rt = self.pull(t, host);
                let ghost m1 = self.model();
                match rt {
                    Ok(Value::Bool(c)) => {
                        let br: usize = if c {
                            a
                        } else {
                            b
                        };
                        proof {
                            if pure(m0, i as int) {
                                assert(reaches(m0, br as int, br as int));
                                assert(reaches(m0, i as int, br as int));
                                lemma_pure_reach(m0, i as int, br as int);
                                lemma_pure_stable(m0, m1, br as int);
                            }
                        }
                        let rb = self.pull(br, host);
                        proof {
                            lemma_arena_evolves_trans(m0, m1, self.model());
                        }
                        rb
                    },
                    Ok(v) => Err(EvalError::TypeMismatch),
                    Err(e) => Err(e),
                }
            },
            Fetched::Limit(s, n, taken) => {
                if taken < n {
                    proof {
                        if pure(m0, i as int) {
                            assert(reaches(m0, s as int, s as int));
                            assert(reaches(m0, i as int, s as int));
                            lemma_pure_reach(m0, i as int, s as int);
                        }
                    }
                    let r = self.pull(s, host);
                    match r {
                        Ok(v) => {
                            let ghost m1 = self.model();
                            let ghost ns0 = self.nodes@;
                            self.nodes[i] = Node::Limit(s, n, taken + 1);
                            proof {
                                lemma_arena_update(
                                    ns0,
                                    i as int,
                                    Node::Limit(s, n, (taken + 1) as usize),
                                );
                                assert(m1[i as int] == m0[i as int]);
                                lemma_wf_update(
                                    m1,
                                    i as int,
                                    NodeModel::Limit(s, n, (taken + 1) as nat),
                                );
                                assert forall|j: int| 0 <= j < m0.len() implies evolves(
                                    #[trigger] m0[j],
                                    self.model()[j],
                                ) by {
                                    if j != i {
                                        assert(self.model()[j] == m1[j]);
                                    }
                                }
                            }
                            Ok(v)
                        },
                        Err(e) => Err(e),
                    }
                } else {
                    Ok(Value::Null)
                }
            },
            Fetched::Fanout(s) => {
                proof {
                    if pure(m0, i as int) {
                        assert(reaches(m0, s as int, s as int));
                        assert(reaches(m0, i as int, s as int));
                        lemma_pure_reach(m0, i as int, s as int);
                    }
                }
                let r = self.pull(s, host);
                match r {
                    Ok(v) => {
                        let ghost m1 = self.model();
                        let ghost ns0 = self.nodes@;
                        let v2 = v.duplicate();
                        let ghost hist = m0[i as int]->Fanout_1;
                        match &mut self.nodes[i] {
                            Node::Fanout(_, h) => {
                                let ghost h0 = h@;
                                h.push(v2);
                                proof {
                                    lemma_vals_model_push(h0, v2);
                                }
                            },
                            _ => {},
                        }
                        proof {
                            lemma_arena_update(
                                ns0,
                                i as int,
                                self.nodes@[i as int],
                            );
                            assert(m1[i as int] == m0[i as int]);
                            assert(self.model()[i as int] == NodeModel::Fanout(
                                s,
                                hist.push(val_model(v)),
                            ));
                            assert(evolves(m1[i as int], self.model()[i as int])) by {
                                assert(hist.push(val_model(v)).take(hist.len() as int) =~= hist);
                            }
                            lemma_wf_update(
                                m1,
                                i as int,
                                NodeModel::Fanout(s, hist.push(val_model(v))),
                            );
                            assert forall|j: int| 0 <= j < m0.len() implies evolves(
                                #[trigger] m0[j],
                                self.model()[j],
                            ) by {
                                if j != i {
                                    assert(self.model()[j] == m1[j]);
                                } else {
                                    crate::semantics::lemma_evolves_trans(
                                        m0[j],
                                        m1[j],
                                        self.model()[j],
                                    );
                                }
                            }
                        }
                        Ok(v)
                    },
                    Err(e) => Err(e),
                }
            },
            Fetched::Proj(f, x, taken) => {
                let hlen = self.fanout_len(f);
                if taken < hlen {
                    let v = self.fanout_at(f, taken);
                    match v {
                        Value::Tuple(t) => {
                            proof {
                                lemma_vals_model(t@);
                            }
                            if x < t.len() {
                                let e = t[x].duplicate();
                                let ghost ns0 = self.nodes@;
                                self.nodes[i] = Node::Proj(f, x, taken + 1);
                                proof {
                                    lemma_arena_update(
                                        ns0,
                                        i as int,
                                        Node::Proj(f, x, (taken + 1) as usize),
                                    );
                                    lemma_wf_update(
                                        m0,
                                        i as int,
                                        NodeModel::Proj(f, x, (taken + 1) as nat),
                                    );
                                    assert forall|j: int| 0 <= j < m0.len() implies evolves(
                                        #[trigger] m0[j],
                                        self.model()[j],
                                    ) by {
                                        if j != i {
                                            lemma_arena_evolves_refl(m0);
                                        }
                                    }
                                }
                                Ok(e)
                            } else {
                                Err(EvalError::IndexOutOfRange)
                            }
                        },
                        _ => Err(EvalError::TypeMismatch),
                    }
                } else {
                    proof {
                        if pure(m0, i as int) {
                            assert(reaches(m0, f as int, f as int));
                            assert(reaches(m0, i as int, f as int));
                            lemma_pure_reach(m0, i as int, f as int);
                        }
                    }
                    let r = self.pull(f, host);
                    match r {
                        Ok(v) => {
                            let ghost m1 = self.model();
                            match v {
                                Value::Tuple(t) => {
                                    proof {
                                        lemma_vals_model(t@);
                                    }
                                    if x < t.len() {
                                        let e = t[x].duplicate();
                                        let newtaken = self.fanout_len(f);
                                        let ghost ns0 = self.nodes@;
                                        self.nodes[i] = Node::Proj(f, x, newtaken);
                                        proof {
                                            assert(newtaken == taken + 1);
                                            lemma_arena_update(
                                                ns0,
                                                i as int,
                                                Node::Proj(f, x, newtaken),
                                            );
                                            assert(m1[i as int] == m0[i as int]);
                                            lemma_wf_update(
                                                m1,
                                                i as int,
                                                NodeModel::Proj(f, x, newtaken as nat),
                                            );
                                            assert forall|j: int| 0 <= j < m0.len() implies evolves(
                                                #[trigger] m0[j],
                                                self.model()[j],
                                            ) by {
                                                if j != i {
                                                    assert(self.model()[j] == m1[j]);
                                                }
                                            }
                                        }
                                        Ok(e)
                                    } else {
                                        Err(EvalError::IndexOutOfRange)
                                    }
                                },
                                _ => Err(EvalError::TypeMismatch),
                            }
                        },
                        Err(e) => Err(e),
                    }
                }
            },
            Fetched::Op(op, inp) => {
                proof {
                    if pure(m0, i as int) {
                        assert(reaches(m0, inp as int, inp as int));
                        assert(reaches(m0, i as int, inp as int));
                        lemma_pure_reach(m0, i as int, inp as int);
                    }
                    assert(reaches(m0, i as int, i as int));
                }
                let r = self.pull(inp, host);
                match r {
                    Ok(v) => match op {
                        Builtin::Dup2 => {
                            let v2 = v.duplicate();
                            let out: Vec<Value> = vec![v, v2];
                            proof {
                                lemma_vals_model(out@);
                                assert(vals_model(out@) =~= seq![val_model(v), val_model(v)]);
                            }
                            Ok(Value::Tuple(out))
                        },
                        Builtin::Dup3 => {
                            let v2 = v.duplicate();
                            let v3 = v.duplicate();
                            let out: Vec<Value> = vec![v, v2, v3];
                            proof {
                                lemma_vals_model(out@);
                                assert(vals_model(out@) =~= seq![
                                    val_model(v),
                                    val_model(v),
                                    val_model(v),
                                ]);
                            }
                            Ok(Value::Tuple(out))
                        },
                        Builtin::Eq => match v.to_pair() {
                            Some((lhs, rhs)) => Ok(Value::Bool(lhs.same_value(&rhs))),
                            None => Err(EvalError::TypeMismatch),
                        },
                        Builtin::Add | Builtin::Mul | Builtin::Mod | Builtin::Pow => {
                            match v.to_pair() {
                                Some((lhs, rhs)) => match (lhs.to_num(), rhs.to_num()) {
                                    (Some(p), Some(q)) => {
                                        let bits = match op {
                                            Builtin::Add => host.add(p, q),
                                            Builtin::Mul => host.mul(p, q),
                                            Builtin::Mod => host.modulo(p, q),
                                            _ => host.pow(p, q),
                                        };
                                        Ok(Value::Num(bits))
                                    },
                                    _ => Err(EvalError::TypeMismatch),
                                },
                                None => Err(EvalError::TypeMismatch),
                            }
                        },
                        Builtin::Sqrt => match v.to_num() {
                            Some(p) => Ok(Value::Num(host.sqrt(p))),
                            None => Err(EvalError::TypeMismatch),
                        },
                        Builtin::Gte => match v.to_pair() {
                            Some((lhs, rhs)) => match (lhs.to_num(), rhs.to_num()) {
                                (Some(p), Some(q)) => Ok(Value::Bool(host.gte(p, q))),
                                _ => Err(EvalError::TypeMismatch),
                            },
                            None => Err(EvalError::TypeMismatch),
                        },
                        Builtin::Lt => match v.to_pair() {
                            Some((lhs, rhs)) => match (lhs.to_num(), rhs.to_num()) {
                                (Some(p), Some(q)) => Ok(Value::Bool(host.lt(p, q))),
                                _ => Err(EvalError::TypeMismatch),
                            },
                            None => Err(EvalError::TypeMismatch),
                        },
                        Builtin::Print => {
                            if host.emit(&v) {
                                Ok(v)
                            } else {
                                Err(EvalError::SinkWriteFailure)
                            }
                        },
                    },
                    Err(e) => Err(e),
                }
            },
        }
    }

    /// A copy of the `k`th value the fanout at `f` recorded.
    fn fanout_at(&self, f: usize, k: usize) -> (v: Value)
        requires
            (f as int) < self.model().len(),
            self.model()[f as int] is Fanout,
            (k as nat) < self.model()[f as int]->Fanout_1.len(),
        ensures
            val_model(v) == self.model()[f as int]->Fanout_1[k as int],
    {
        match &self.nodes[f] {
            Node::Fanout(_, h) => {
                proof {
                    lemma_vals_model(h@);
                }
                h[k].duplicate()
            },
            _ => {
                proof {
                    assert(false);
                }
                Value::Null
            },
        }
    }
}


/// The bindings a machine body sees: names bound to handles, innermost
/// last. Lookup walks from the end, so an inner binding shadows an
/// outer one.
pub type Env = Vec<(String, usize)>;

/// The model of an environment: names as character sequences.
pub open spec fn env_model(env: Seq<(String, usize)>) -> Seq<(Seq<char>, usize)> {
    Seq::new(env.len(), |i: int| (env[i].0@, env[i].1))
}

/// What a name resolves to: the handle of the innermost binding of
/// that name, if there is one.
pub open spec fn env_lookup(env: Seq<(Seq<char>, usize)>, name: Seq<char>) -> Option<usize>
    decreases env.len(),
{
    if env.len() == 0 {
        None
    } else if env.last().0 == name {
        Some(env.last().1)
    } else {
        env_lookup(env.drop_last(), name)
    }
}

/// Every binding of the environment points into the arena.
pub open spec fn env_ok(env: Seq<(Seq<char>, usize)>, len: int) -> bool {
    forall|k: int| 0 <= k < env.len() ==> (#[trigger] env[k].1 as int) < len
}

/// Whatever a name resolves to points into the arena.
pub proof fn lemma_env_lookup_ok(env: Seq<(Seq<char>, usize)>, name: Seq<char>, len: int)
    requires
        env_ok(env, len),
    ensures
        env_lookup(env, name) is Some ==> (env_lookup(env, name).unwrap() as int) < len,
    decreases env.len(),
{
    if env.len() > 0 && env.last().0 != name {
        assert(env_ok(env.drop_last(), len));
        lemma_env_lookup_ok(env.drop_last(), name, len);
    }
}

/// The first machine of the program with this name, if any.
pub open spec fn find_def(ms: Seq<crate::syntax::MachineDef>, name: Seq<char>) -> Option<int>
    decreases ms.len(),
{
    if ms.len() == 0 {
        None
    } else if ms[0].name@ == name {
        Some(0int)
    } else {
        match find_def(ms.drop_first(), name) {
            Some(k) => Some(k + 1),
            None => None,
        }
    }
}


/// The model of building one stream expression: the arena and consumed
/// list afterwards, and the handle index or the error. The executable
/// builder is proved equal to this, so what each construct is wired to
/// — a limit to the handle of its source, a zip to the handles of its
/// members, in order — is pinned, not merely shaped.
pub open spec fn build_stream(
    prog: crate::syntax::Program,
    env: Seq<(Seq<char>, usize)>,
    nodes: Seq<NodeModel>,
    consumed: Seq<usize>,
    s: crate::syntax::Stream,
    depth: nat,
) -> (Seq<NodeModel>, Seq<usize>, Result<usize, EvalError>)
    decreases depth, s, 0int,
{
    match s {
        crate::syntax::Stream::Var(name) => (
            nodes,
            consumed,
            match env_lookup(env, name@) {
                Some(idx) => Ok(idx),
                None => Err(EvalError::NameNotFound),
            },
        ),
        crate::syntax::Stream::Const(v) => (
            nodes.push(NodeModel::Const(val_model(v))),
            consumed,
            Ok(nodes.len() as usize),
        ),
        crate::syntax::Stream::Pipe(src, m) => {
            let (n1, c1, r1) = build_stream(prog, env, nodes, consumed, *src, depth);
            match r1 {
                Ok(idx) => build_machine(prog, env, n1, c1, *m, idx, depth),
                Err(e) => (n1, c1, Err(e)),
            }
        },
        crate::syntax::Stream::Zip(list) => {
            let (n1, c1, r1) = build_streams(prog, env, nodes, consumed, list, 0, depth);
            match r1 {
                Ok(ms) => (n1.push(NodeModel::Zip(ms)), c1, Ok(n1.len() as usize)),
                Err(e) => (n1, c1, Err(e)),
            }
        },
        crate::syntax::Stream::Cond(t, a, b) => {
            let (n1, c1, r1) = build_stream(prog, env, nodes, consumed, *t, depth);
            match r1 {
                Ok(ti) => {
                    let (n2, c2, r2) = build_stream(prog, env, n1, c1, *a, depth);
                    match r2 {
                        Ok(ai) => {
                            let (n3, c3, r3) = build_stream(prog, env, n2, c2, *b, depth);
                            match r3 {
                                Ok(bi) => (
                                    n3.push(NodeModel::Cond(ti, ai, bi)),
                                    c3,
                                    Ok(n3.len() as usize),
                                ),
                                Err(e) => (n3, c3, Err(e)),
                            }
                        },
                        Err(e) => (n2, c2, Err(e)),
                    }
                },
                Err(e) => (n1, c1, Err(e)),
            }
        },
        crate::syntax::Stream::Limit(src, n) => {
            let (n1, c1, r1) = build_stream(prog, env, nodes, consumed, *src, depth);
            match r1 {
                Ok(si) => (
                    n1.push(NodeModel::Limit(si, n, 0)),
                    c1,
                    Ok(n1.len() as usize),
                ),
                Err(e) => (n1, c1, Err(e)),
            }
        },
        crate::syntax::Stream::Unzip(src, x) => {
            let (n1, c1, r1) = build_stream(prog, env, nodes, consumed, *src, depth);
            match r1 {
                Ok(si) => {
                    let n2 = n1.push(NodeModel::Fanout(si, Seq::empty()));
                    (
                        n2.push(NodeModel::Proj(n1.len() as usize, x, 0)),
                        c1,
                        Ok(n2.len() as usize),
                    )
                },
                Err(e) => (n1, c1, Err(e)),
            }
        },
    }
}

/// The model of building the members of a zip from position `k` on:
/// each in turn, left to right, collecting their handles in order.
pub open spec fn build_streams(
    prog: crate::syntax::Program,
    env: Seq<(Seq<char>, usize)>,
    nodes: Seq<NodeModel>,
    consumed: Seq<usize>,
    list: Vec<crate::syntax::Stream>,
    k: int,
    depth: nat,
) -> (Seq<NodeModel>, Seq<usize>, Result<Seq<usize>, EvalError>)
    decreases depth, list, list@.len() - k,
{
    if k < 0 || k >= list@.len() {
        (nodes, consumed, Ok(Seq::empty()))
    } else {
        let (n1, c1, r1) = build_stream(prog, env, nodes, consumed, list@[k], depth);
        match r1 {
            Ok(idx) => {
                let (n2, c2, r2) = build_streams(prog, env, n1, c1, list, k + 1, depth);
                match r2 {
                    Ok(rest) => (n2, c2, Ok(seq![idx] + rest)),
                    Err(e) => (n2, c2, Err(e)),
                }
            },
            Err(e) => (n1, c1, Err(e)),
        }
    }
}

/// The model of applying a machine to an input handle.
pub open spec fn build_machine(
    prog: crate::syntax::Program,
    env: Seq<(Seq<char>, usize)>,
    nodes: Seq<NodeModel>,
    consumed: Seq<usize>,
    m: crate::syntax::Machine,
    input: usize,
    depth: nat,
) -> (Seq<NodeModel>, Seq<usize>, Result<usize, EvalError>)
    decreases depth, m, 0int,
{
    match m {
        crate::syntax::Machine::Var(name) => match find_def(prog.machines@, name@) {
            Some(k) => if depth == 0 {
                (nodes, consumed, Err(EvalError::RecursionLimit))
            } else {
                build_named(prog, env, nodes, consumed, k, input, (depth - 1) as nat)
            },
            None => (nodes, consumed, Err(EvalError::UndefinedMachine)),
        },
        crate::syntax::Machine::Builtin(op) => (
            nodes.push(NodeModel::Op(op, input)),
            consumed,
            Ok(nodes.len() as usize),
        ),
        crate::syntax::Machine::Defined(body, result) => {
            let scope = env.push((input_name(), input));
            let (n1, c1, env1, r1) = build_stmts(prog, scope, nodes, consumed, body, 0, depth);
            match r1 {
                Ok(_) => build_stream(prog, env1, n1, c1, result, depth),
                Err(e) => (n1, c1, Err(e)),
            }
        },
    }
}

/// The model of instantiating the `k`th machine of the table: spend
/// one depth unit, bind the input under the reserved name in a child
/// of the call-site scope, run the body, build the result stream.
pub open spec fn build_named(
    prog: crate::syntax::Program,
    env: Seq<(Seq<char>, usize)>,
    nodes: Seq<NodeModel>,
    consumed: Seq<usize>,
    k: int,
    input: usize,
    depth: nat,
) -> (Seq<NodeModel>, Seq<usize>, Result<usize, EvalError>)
    decreases depth, prog, 0int,
{
    if depth == 0 {
        (nodes, consumed, Err(EvalError::RecursionLimit))
    } else {
        let d = (depth - 1) as nat;
        let scope = env.push((input_name(), input));
        let (n1, c1, env1, r1) = build_stmts(
            prog,
            scope,
            nodes,
            consumed,
            prog.machines@[k].body,
            0,
            d,
        );
        match r1 {
            Ok(_) => build_stream(prog, env1, n1, c1, prog.machines@[k].result, d),
            Err(e) => (n1, c1, Err(e)),
        }
    }
}

/// The model of running a machine body from statement `k` on: a `Let`
/// binds the handle of its stream — destructuring builds one fanout
/// and one projection per name — and a `Consume` registers its handle
/// on the consumed list.
pub open spec fn build_stmts(
    prog: crate::syntax::Program,
    env: Seq<(Seq<char>, usize)>,
    nodes: Seq<NodeModel>,
    consumed: Seq<usize>,
    body: Vec<crate::syntax::Statement>,
    k: int,
    depth: nat,
) -> (Seq<NodeModel>, Seq<usize>, Seq<(Seq<char>, usize)>, Result<(), EvalError>)
    decreases depth, body, body@.len() - k,
{
    if k < 0 || k >= body@.len() {
        (nodes, consumed, env, Ok(()))
    } else {
        match body@[k] {
            crate::syntax::Statement::Let(names, stream) => {
                let (n1, c1, r1) = build_stream(prog, env, nodes, consumed, stream, depth);
                match r1 {
                    Ok(idx) => if names@.len() == 1 {
                        build_stmts(
                            prog,
                            env.push((names@[0]@, idx)),
                            n1,
                            c1,
                            body,
                            k + 1,
                            depth,
                        )
                    } else {
                        let n2 = n1.push(NodeModel::Fanout(idx, Seq::empty()));
                        let (n3, env3) = build_projs(env, n2, n1.len() as usize, names, 0);
                        build_stmts(prog, env3, n3, c1, body, k + 1, depth)
                    },
                    Err(e) => (n1, c1, env, Err(e)),
                }
            },
            crate::syntax::Statement::Consume(stream) => {
                let (n1, c1, r1) = build_stream(prog, env, nodes, consumed, stream, depth);
                match r1 {
                    Ok(idx) => build_stmts(prog, env, n1, c1.push(idx), body, k + 1, depth),
                    Err(e) => (n1, c1, env, Err(e)),
                }
            },
        }
    }
}

/// The model of fanning one destructured stream out: from name `k` on,
/// one projection handle per name, each bound to its name.
pub open spec fn build_projs(
    env: Seq<(Seq<char>, usize)>,
    nodes: Seq<NodeModel>,
    fan: usize,
    names: Vec<String>,
    k: int,
) -> (Seq<NodeModel>, Seq<(Seq<char>, usize)>)
    decreases names@.len() - k,
{
    if k < 0 || k >= names@.len() {
        (nodes, env)
    } else {
        build_projs(
            env.push((names@[k]@, nodes.len() as usize)),
            nodes.push(NodeModel::Proj(fan, k as usize, 0)),
            fan,
            names,
            k + 1,
        )
    }
}

/// The model of starting an entry machine: find it by name, run its
/// body in an empty scope, build its result stream.
pub open spec fn build_entry(
    prog: crate::syntax::Program,
    entry: Seq<char>,
    nodes: Seq<NodeModel>,
    consumed: Seq<usize>,
    depth: nat,
) -> (Seq<NodeModel>, Seq<usize>, Result<usize, EvalError>) {
    match find_def(prog.machines@, entry) {
        Some(k) => {
            let (n1, c1, env1, r1) = build_stmts(
                prog,
                Seq::empty(),
                nodes,
                consumed,
                prog.machines@[k].body,
                0,
                depth,
            );
            match r1 {
                Ok(_) => build_stream(prog, env1, n1, c1, prog.machines@[k].result, depth),
                Err(e) => (n1, c1, Err(e)),
            }
        },
        None => (nodes, consumed, Err(EvalError::UndefinedMachine)),
    }
}

/// The model of driving `n` ticks: per tick, drain the consumed
/// handles in order, then step the result handle, collecting its
/// values; the first error stops the run.
pub open spec fn run_model(
    nodes: Seq<NodeModel>,
    consumed: Seq<usize>,
    result: int,
    n: nat,
) -> (Seq<NodeModel>, Result<Seq<ValModel>, EvalError>)
    decreases n,
{
    if n == 0 {
        (nodes, Ok(Seq::empty()))
    } else {
        let (np, rp) = run_model(nodes, consumed, result, (n - 1) as nat);
        match rp {
            Ok(vs) => {
                let (nd, e) = drain(np, consumed);
                match e {
                    None => {
                        let (n2, r) = step(nd, result);
                        match r {
                            Ok(v) => (n2, Ok(vs.push(v))),
                            Err(er) => (n2, Err(er)),
                        }
                    },
                    Some(er) => (nd, Err(er)),
                }
            },
            Err(e) => (np, Err(e)),
        }
    }
}

/// Once a run has failed, driving further ticks changes nothing: the
/// error and the arena stand.
pub proof fn lemma_run_model_err(
    nodes: Seq<NodeModel>,
    consumed: Seq<usize>,
    result: int,
    t: nat,
    n: nat,
)
    requires
        t <= n,
        run_model(nodes, consumed, result, t).1 is Err,
    ensures
        run_model(nodes, consumed, result, n) == run_model(nodes, consumed, result, t),
    decreases n,
{
    if n > t {
        lemma_run_model_err(nodes, consumed, result, t, (n - 1) as nat);
    }
}

/// No two machines of the program share a name.
pub open spec fn names_unique(ms: Seq<crate::syntax::MachineDef>) -> bool {
    forall|i: int, j: int| 0 <= i < j < ms.len() ==> ms[i].name@ != ms[j].name@
}

impl Engine {
    /// Append one well formed handle and hand back its index.
    fn push_node(&mut self, n: Node) -> (idx: usize)
        requires
            old(self).wf(),
            node_wf(old(self).model().push(n@), old(self).model().len() as int),
        ensures
            final(self).wf(),
            final(self).model() == old(self).model().push(n@),
            final(self).consumed@ == old(self).consumed@,
            (idx as int) == old(self).model().len(),
    {
        let idx = self.nodes.len();
        self.nodes.push(n);
        proof {
            assert(self.model() =~= old(self).model().push(n@));
            assert forall|j: int| 0 <= j < self.model().len() implies #[trigger] node_wf(
                self.model(),
                j,
            ) by {
                if j < old(self).model().len() {
                    assert(node_wf(old(self).model(), j));
                    match old(self).model()[j] {
                        NodeModel::Proj(f, _, _) => {
                            assert(self.model()[f as int] == old(self).model()[f as int]);
                        },
                        _ => {},
                    }
                }
            }
        }
        idx
    }

    /// Resolve a `Stream::Var` in the environment, innermost first.
    #[verifier::loop_isolation(false)]
    fn lookup(env: &Env, name: &String) -> (r: Result<usize, EvalError>)
        ensures
            match env_lookup(env_model(env@), name@) {
                Some(idx) => r == Ok::<usize, EvalError>(idx),
                None => r == Err::<usize, EvalError>(EvalError::NameNotFound),
            },
    {
        proof {
            assert(env_model(env@).take(env@.len() as int) =~= env_model(env@));
        }
        let mut k = env.len();
        while k > 0
            invariant
                k <= env@.len(),
                env_lookup(env_model(env@), name@) == env_lookup(
                    env_model(env@).take(k as int),
                    name@,
                ),
            decreases k,
        {
            k = k - 1;
            proof {
                assert(env_model(env@).take(k as int + 1).last() == (env@[k as int].0@, env@[
                    k as int
                ].1));
                assert(env_model(env@).take(k as int + 1).drop_last() =~= env_model(env@).take(
                    k as int,
                ));
            }
            if env[k].0.eq(name) {
                return Ok(env[k].1);
            }
        }
        proof {
            assert(env_model(env@).take(0) =~= Seq::<(Seq<char>, usize)>::empty());
        }
        Err(EvalError::NameNotFound)
    }

    /// A fresh child scope: the same bindings, to be extended without
    /// touching the parent.
    #[verifier::loop_isolation(false)]
    fn child_env(env: &Env) -> (r: Env)
        ensures
            env_model(r@) == env_model(env@),
    {
        let mut out: Env = Vec::new();
        let mut k: usize = 0;
        while k < env.len()
            invariant
                k <= env@.len(),
                env_model(out@) =~= env_model(env@).take(k as int),
            decreases env.len() - k,
        {
            let name = env[k].0.clone();
            let idx = env[k].1;
            out.push((name, idx));
            proof {
                assert(env_model(out@) =~= env_model(env@).take(k as int + 1));
            }
            k = k + 1;
        }
        proof {
            assert(env_model(env@).take(env@.len() as int) =~= env_model(env@));
        }
        out
    }

    /// Build the handle for a stream expression under an environment.
    ///
    /// New handles are only appended: every handle that existed keeps
    /// its index and its state. `depth` bounds how deep machine
    /// instantiation may recurse; a program whose machines call each
    /// other forever fails with `RecursionLimit` instead of never
    /// finishing.
    #[verifier::loop_isolation(false)]
    #[verifier::rlimit(100)]
    pub fn eval_stream(
        &mut self,
        prog: &crate::syntax::Program,
        env: &Env,
        s: &crate::syntax::Stream,
        depth: usize,
    ) -> (r: Result<usize, EvalError>)
        requires
            old(self).wf(),
            env_ok(env_model(env@), old(self).model().len() as int),
        ensures
            final(self).wf(),
            old(self).model().is_prefix_of(final(self).model()),
            old(self).consumed@.is_prefix_of(final(self).consumed@),
            r is Ok ==> (r.unwrap() as int) < final(self).model().len(),
            ({
                let (bn, bc, br) = build_stream(
                    *prog,
                    env_model(env@),
                    old(self).model(),
                    old(self).consumed@,
                    *s,
                    depth as nat,
                );
                &&& final(self).model() == bn
                &&& final(self).consumed@ == bc
                &&& r == br
            }),
        decreases depth, s,
    {
        proof {
            lemma_prefix_refl(self.model());
            lemma_prefix_refl_consumed(self.consumed@);
        }
        match s {
            crate::syntax::Stream::Var(name) => {
                proof {
                    lemma_env_lookup_ok(
                        env_model(env@),
                        name@,
                        old(self).model().len() as int,
                    );
                }
                Self::lookup(env, name)
            },
            crate::syntax::Stream::Const(v) => Ok(self.push_node(Node::Const(v.duplicate()))),
            crate::syntax::Stream::Pipe(src, m) => {
                let idx = match self.eval_stream(prog, env, src, depth) {
                    Ok(idx) => idx,
                    Err(e) => {
                        return Err(e);
                    },
                };
                proof {
                    lemma_env_prefix(env_model(env@), old(self).model().len() as int,
                        self.model().len() as int);
                }
                self.apply_machine(prog, env, m, idx, depth)
            },
            crate::syntax::Stream::Zip(list) => {
                let mut ms: Vec<usize> = Vec::new();
                let mut k: usize = 0;
                proof {
                    let (n2, c2, r2) = build_streams(
                        *prog,
                        env_model(env@),
                        self.model(),
                        self.consumed@,
                        *list,
                        0,
                        depth as nat,
                    );
                    if r2 is Ok {
                        assert(ms@ + r2->Ok_0 =~= r2->Ok_0);
                    }
                }
                while k < list.len()
                    invariant
                        self.wf(),
                        env_ok(env_model(env@), old(self).model().len() as int),
                        old(self).model().is_prefix_of(self.model()),
                        old(self).consumed@.is_prefix_of(self.consumed@),
                        k <= list@.len(),
                        ms@.len() == k,
                        forall|x: int|
                            0 <= x < ms@.len() ==> (#[trigger] ms@[x] as int) < self.model().len(),
                        build_streams(
                            *prog,
                            env_model(env@),
                            old(self).model(),
                            old(self).consumed@,
                            *list,
                            0,
                            depth as nat,
                        ) == ({
                            let (n2, c2, r2) = build_streams(
                                *prog,
                                env_model(env@),
                                self.model(),
                                self.consumed@,
                                *list,
                                k as int,
                                depth as nat,
                            );
                            (
                                n2,
                                c2,
                                match r2 {
                                    Ok(rest) => Ok::<Seq<usize>, EvalError>(ms@ + rest),
                                    Err(e) => Err::<Seq<usize>, EvalError>(e),
                                },
                            )
                        }),
                    decreases list.len() - k,
                {
                    let ghost mid = self.model();
                    let ghost cmid = self.consumed@;
                    let ghost msv = ms@;
                    match self.eval_stream(prog, env, &list[k], depth) {
                        Ok(idx) => {
                            ms.push(idx);
                            proof {
                                let (n2, c2, r2) = build_streams(
                                    *prog,
                                    env_model(env@),
                                    self.model(),
                                    self.consumed@,
                                    *list,
                                    k as int + 1,
                                    depth as nat,
                                );
                                if r2 is Ok {
                                    assert(msv + (seq![idx] + r2->Ok_0) =~= ms@ + r2->Ok_0);
                                }
                            }
                        },
                        Err(e) => {
                            return Err(e);
                        },
                    }
                    proof {
                        lemma_prefix_trans(old(self).model(), mid, self.model());
                        lemma_prefix_trans_consumed(old(self).consumed@, cmid, self.consumed@);
                    }
                    k = k + 1;
                }
                proof {
                    assert(ms@ + Seq::<usize>::empty() =~= ms@);
                }
                Ok(self.push_node(Node::Zip(ms)))
            },
            crate::syntax::Stream::Cond(t, a, b) => {
                let ti = match self.eval_stream(prog, env, t, depth) {
                    Ok(idx) => idx,
                    Err(e) => {
                        return Err(e);
                    },
                };
                let ghost m1 = self.model();
                let ai = match self.eval_stream(prog, env, a, depth) {
                    Ok(idx) => idx,
                    Err(e) => {
                        return Err(e);
                    },
                };
                let ghost m2 = self.model();
                let bi = match self.eval_stream(prog, env, b, depth) {
                    Ok(idx) => idx,
                    Err(e) => {
                        return Err(e);
                    },
                };
                proof {
                    lemma_prefix_trans(old(self).model(), m1, m2);
                    lemma_prefix_trans(old(self).model(), m2, self.model());
                    lemma_prefix_trans(m1, m2, self.model());
                }
                Ok(self.push_node(Node::Cond(ti, ai, bi)))
            },
            crate::syntax::Stream::Limit(src, n) => {
                let si = match self.eval_stream(prog, env, src, depth) {
                    Ok(idx) => idx,
                    Err(e) => {
                        return Err(e);
                    },
                };
                Ok(self.push_node(Node::Limit(si, *n, 0)))
            },
            crate::syntax::Stream::Unzip(src, x) => {
                let si = match self.eval_stream(prog, env, src, depth) {
                    Ok(idx) => idx,
                    Err(e) => {
                        return Err(e);
                    },
                };
                let fan = self.push_node(Node::Fanout(si, Vec::new()));
                proof {
                    lemma_vals_model(Seq::<Value>::empty());
                    assert(vals_model(Seq::<Value>::empty()) =~= Seq::<ValModel>::empty());
                }
                Ok(self.push_node(Node::Proj(fan, *x, 0)))
            },
        }
    }

    /// Apply a machine to an already-built input handle.
    ///
    /// A named machine is looked up in the program's table and
    /// instantiated: its body runs in a fresh child of the *call-site*
    /// environment with `input` bound to the input handle — scoping
    /// follows the call chain of evaluation, so a body can see its
    /// caller's bindings, and nothing it binds escapes back.
    #[verifier::loop_isolation(false)]
    pub fn apply_machine(
        &mut self,
        prog: &crate::syntax::Program,
        env: &Env,
        m: &crate::syntax::Machine,
        input: usize,
        depth: usize,
    ) -> (r: Result<usize, EvalError>)
        requires
            old(self).wf(),
            env_ok(env_model(env@), old(self).model().len() as int),
            (input as int) < old(self).model().len(),
        ensures
            final(self).wf(),
            old(self).model().is_prefix_of(final(self).model()),
            old(self).consumed@.is_prefix_of(final(self).consumed@),
            r is Ok ==> (r.unwrap() as int) < final(self).model().len(),
            ({
                let (bn, bc, br) = build_machine(
                    *prog,
                    env_model(env@),
                    old(self).model(),
                    old(self).consumed@,
                    *m,
                    input,
                    depth as nat,
                );
                &&& final(self).model() == bn
                &&& final(self).consumed@ == bc
                &&& r == br
            }),
        decreases depth, m,
    {
        proof {
            lemma_prefix_refl(self.model());
            lemma_prefix_refl_consumed(self.consumed@);
        }
        match m {
            crate::syntax::Machine::Var(name) => {
                let n = prog.machines.len();
                let mut k: usize = 0;
                while k < n
                    invariant
                        k <= n,
                        *self == *old(self),
                        forall|x: int| 0 <= x < k ==> prog.machines@[x].name@ != name@,
                    decreases n - k,
                {
                    if prog.machines[k].name.eq(name) {
                        proof {
                            lemma_find_def_first(prog.machines@, name@, k as int);
                        }
                        if depth == 0 {
                            return Err(EvalError::RecursionLimit);
                        }
                        return self.run_machine(prog, env, k, input, depth - 1);
                    }
                    k = k + 1;
                }
                proof {
                    lemma_find_def_none(prog.machines@, name@);
                }
                Err(EvalError::UndefinedMachine)
            },
            crate::syntax::Machine::Builtin(op) => Ok(self.push_node(Node::Op(*op, input))),
            crate::syntax::Machine::Defined(body, result) => {
                let scope0 = Self::child_env(env);
                let ghost sc0 = scope0@;
                let mut scope = scope0;
                scope.push((new_input_name(), input));
                proof {
                    assert(scope@ == sc0.push(scope@.last()));
                    lemma_env_ok_push(sc0, scope@.last(), old(self).model().len() as int);
                    assert(env_model(scope@) =~= env_model(env@).push((
                        input_name(),
                        input,
                    )));
                }
                match self.run_statements(prog, &mut scope, body, depth) {
                    Ok(()) => {},
                    Err(e) => {
                        return Err(e);
                    },
                }
                let ghost m1 = self.model();
                let ghost c1 = self.consumed@;
                let r = self.eval_stream(prog, &scope, result, depth);
                proof {
                    lemma_prefix_trans(old(self).model(), m1, self.model());
                    lemma_prefix_trans_consumed(old(self).consumed@, c1, self.consumed@);
                }
                r
            },
        }
    }

    /// Instantiate the `k`th machine of the program on an input handle.
    #[verifier::loop_isolation(false)]
    fn run_machine(
        &mut self,
        prog: &crate::syntax::Program,
        env: &Env,
        k: usize,
        input: usize,
        depth: usize,
    ) -> (r: Result<usize, EvalError>)
        requires
            old(self).wf(),
            env_ok(env_model(env@), old(self).model().len() as int),
            (input as int) < old(self).model().len(),
            (k as int) < prog.machines@.len(),
        ensures
            final(self).wf(),
            old(self).model().is_prefix_of(final(self).model()),
            old(self).consumed@.is_prefix_of(final(self).consumed@),
            r is Ok ==> (r.unwrap() as int) < final(self).model().len(),
            ({
                let (bn, bc, br) = build_named(
                    *prog,
                    env_model(env@),
                    old(self).model(),
                    old(self).consumed@,
                    k as int,
                    input,
                    depth as nat,
                );
                &&& final(self).model() == bn
                &&& final(self).consumed@ == bc
                &&& r == br
            }),
        decreases depth, prog.machines@[k as int],
    {
        if depth == 0 {
            return Err(EvalError::RecursionLimit);
        }
        let depth = depth - 1;
        let def = &prog.machines[k];
        let scope0 = Self::child_env(env);
        let ghost sc0 = scope0@;
        let mut scope = scope0;
        scope.push((new_input_name(), input));
        proof {
            assert(scope@ == sc0.push(scope@.last()));
            lemma_env_ok_push(sc0, scope@.last(), old(self).model().len() as int);
            assert(env_model(scope@) =~= env_model(env@).push((input_name(), input)));
        }
        match self.run_statements(prog, &mut scope, &def.body, depth) {
            Ok(()) => {},
            Err(e) => {
                return Err(e);
            },
        }
        let ghost m1 = self.model();
        let ghost c1 = self.consumed@;
        let r = self.eval_stream(prog, &scope, &def.result, depth);
        proof {
            lemma_prefix_trans(old(self).model(), m1, self.model());
            lemma_prefix_trans_consumed(old(self).consumed@, c1, self.consumed@);
        }
        r
    }

    /// Run a machine body: each `Let` binds handles for the statements
    /// after it, a destructuring `Let` fans one tuple stream out into
    /// one projection per name, and each `Consume` registers a handle
    /// that every tick pulls for its effects.
    #[verifier::loop_isolation(false)]
    fn run_statements(
        &mut self,
        prog: &crate::syntax::Program,
        env: &mut Env,
        body: &Vec<crate::syntax::Statement>,
        depth: usize,
    ) -> (r: Result<(), EvalError>)
        requires
            old(self).wf(),
            env_ok(env_model(old(env)@), old(self).model().len() as int),
        ensures
            final(self).wf(),
            old(self).model().is_prefix_of(final(self).model()),
            old(self).consumed@.is_prefix_of(final(self).consumed@),
            env_ok(env_model(final(env)@), final(self).model().len() as int),
            ({
                let (bn, bc, benv, br) = build_stmts(
                    *prog,
                    env_model(old(env)@),
                    old(self).model(),
                    old(self).consumed@,
                    *body,
                    0,
                    depth as nat,
                );
                &&& final(self).model() == bn
                &&& final(self).consumed@ == bc
                &&& env_model(final(env)@) == benv
                &&& r == br
            }),
        decreases depth, body,
    {
        let mut si: usize = 0;
        while si < body.len()
            invariant
                si <= body@.len(),
                self.wf(),
                old(self).model().is_prefix_of(self.model()),
                old(self).consumed@.is_prefix_of(self.consumed@),
                env_ok(env_model(env@), self.model().len() as int),
                build_stmts(
                    *prog,
                    env_model(old(env)@),
                    old(self).model(),
                    old(self).consumed@,
                    *body,
                    0,
                    depth as nat,
                ) == build_stmts(
                    *prog,
                    env_model(env@),
                    self.model(),
                    self.consumed@,
                    *body,
                    si as int,
                    depth as nat,
                ),
            decreases body.len() - si,
        {
            let ghost mid = self.model();
            let ghost cmid = self.consumed@;
            let ghost envmid = env_model(env@);
            match &body[si] {
                crate::syntax::Statement::Let(names, stream) => {
                    let idx = match self.eval_stream(prog, env, stream, depth) {
                        Ok(idx) => idx,
                        Err(e) => {
                            return Err(e);
                        },
                    };
                    proof {
                        lemma_env_prefix(
                            env_model(env@),
                            mid.len() as int,
                            self.model().len() as int,
                        );
                    }
                    if names.len() == 1 {
                        let ghost e0 = env@;
                        env.push((names[0].clone(), idx));
                        proof {
                            assert(env@ == e0.push(env@.last()));
                            lemma_env_ok_push(e0, env@.last(), self.model().len() as int);
                            assert(env_model(env@) =~= env_model(e0).push((
                                names@[0]@,
                                idx,
                            )));
                        }
                    } else {
                        let fan = self.push_node(Node::Fanout(idx, Vec::new()));
                        let ghost cfan = self.consumed@;
                        proof {
                            lemma_vals_model(Seq::<Value>::empty());
                            assert(vals_model(Seq::<Value>::empty())
                                =~= Seq::<ValModel>::empty());
                        }
                        let mut nk: usize = 0;
                        let ghost mfan = self.model();
                        let ghost envfan = env_model(env@);
                        proof {
                            lemma_env_prefix(
                                env_model(env@),
                                mid.len() as int,
                                self.model().len() as int,
                            );
                        }
                        while nk < names.len()
                            invariant
                                nk <= names@.len(),
                                self.wf(),
                                mid.is_prefix_of(self.model()),
                                cmid.is_prefix_of(self.consumed@),
                                self.consumed@ == cfan,
                                (fan as int) < self.model().len(),
                                self.model()[fan as int] is Fanout,
                                env_ok(env_model(env@), self.model().len() as int),
                                build_projs(envfan, mfan, fan, *names, 0) == build_projs(
                                    env_model(env@),
                                    self.model(),
                                    fan,
                                    *names,
                                    nk as int,
                                ),
                            decreases names.len() - nk,
                        {
                            let ghost mp = self.model();
                            let proj = self.push_node(Node::Proj(fan, nk, 0));
                            let ghost e0 = env@;
                            env.push((names[nk].clone(), proj));
                            proof {
                                lemma_prefix_trans(mid, mp, self.model());
                                assert(env@ == e0.push(env@.last()));
                                lemma_env_ok_push(e0, env@.last(), self.model().len() as int);
                                assert(env_model(env@) =~= env_model(e0).push((
                                    names@[nk as int]@,
                                    proj,
                                )));
                            }
                            nk = nk + 1;
                        }
                    }
                },
                crate::syntax::Statement::Consume(stream) => {
                    let idx = match self.eval_stream(prog, env, stream, depth) {
                        Ok(idx) => idx,
                        Err(e) => {
                            return Err(e);
                        },
                    };
                    proof {
                        lemma_env_prefix(
                            env_model(env@),
                            mid.len() as int,
                            self.model().len() as int,
                        );
                    }
                    self.consumed.push(idx);
                    proof {
                        assert(cmid.is_prefix_of(self.consumed@.drop_last()));
                        assert(cmid =~= self.consumed@.take(cmid.len() as int));
                    }
                },
            }
            proof {
                lemma_prefix_trans(old(self).model(), mid, self.model());
                lemma_prefix_trans_consumed(old(self).consumed@, cmid, self.consumed@);
            }
            si = si + 1;
        }
        Ok(())
    }

    /// Check the program's one load-time rule: machine names must be
    /// unique. Succeeds exactly when they are; the error is always
    /// `DuplicateDefinition`.
    #[verifier::loop_isolation(false)]
    pub fn check_program(prog: &crate::syntax::Program) -> (r: Result<(), EvalError>)
        ensures
            r is Ok <==> names_unique(prog.machines@),
            r is Err ==> r == Err::<(), EvalError>(EvalError::DuplicateDefinition),
    {
        let n = prog.machines.len();
        let mut i: usize = 0;
        while i < n
            invariant
                n == prog.machines@.len(),
                i <= n,
                forall|x: int, y: int|
                    0 <= x < y < n && x < i ==> prog.machines@[x].name@ != prog.machines@[y].name@,
            decreases n - i,
        {
            let mut j: usize = i + 1;
            while j < n
                invariant
                    n == prog.machines@.len(),
                    i < j <= n,
                    forall|y: int| (i as int) < y < j ==> prog.machines@[i as int].name@
                        != prog.machines@[y].name@,
                decreases n - j,
            {
                if prog.machines[i].name.eq(&prog.machines[j].name) {
                    return Err(EvalError::DuplicateDefinition);
                }
                j = j + 1;
            }
            i = i + 1;
        }
        Ok(())
    }

    /// Build the entry machine's streams: run its body in an empty
    /// environment and hand back the handle of its result stream.
    /// A name that no machine of the program bears is
    /// `UndefinedMachine`.
    #[verifier::loop_isolation(false)]
    pub fn start(
        &mut self,
        prog: &crate::syntax::Program,
        entry: &String,
        depth: usize,
    ) -> (r: Result<usize, EvalError>)
        requires
            old(self).wf(),
        ensures
            final(self).wf(),
            old(self).model().is_prefix_of(final(self).model()),
            r is Ok ==> (r.unwrap() as int) < final(self).model().len(),
            ({
                let (bn, bc, br) = build_entry(
                    *prog,
                    entry@,
                    old(self).model(),
                    old(self).consumed@,
                    depth as nat,
                );
                &&& final(self).model() == bn
                &&& final(self).consumed@ == bc
                &&& r == br
            }),
    {
        let n = prog.machines.len();
        let mut k: usize = 0;
        while k < n
            invariant
                k <= n,
                *self == *old(self),
                forall|x: int| 0 <= x < k ==> prog.machines@[x].name@ != entry@,
            decreases n - k,
        {
            if prog.machines[k].name.eq(entry) {
                proof {
                    lemma_find_def_first(prog.machines@, entry@, k as int);
                    lemma_prefix_refl(self.model());
                    assert(env_model(Seq::<(String, usize)>::empty())
                        =~= Seq::<(Seq<char>, usize)>::empty());
                }
                let def = &prog.machines[k];
                let mut scope: Env = Vec::new();
                match self.run_statements(prog, &mut scope, &def.body, depth) {
                    Ok(()) => {},
                    Err(e) => {
                        return Err(e);
                    },
                }
                let ghost m1 = self.model();
                let r = self.eval_stream(prog, &scope, &def.result, depth);
                proof {
                    lemma_prefix_trans(old(self).model(), m1, self.model());
                }
                return r;
            }
            k = k + 1;
        }
        proof {
            lemma_find_def_none(prog.machines@, entry@);
            lemma_prefix_refl(self.model());
        }
        Err(EvalError::UndefinedMachine)
    }

    /// Drive `n` ticks and collect the result stream's values, in
    /// order; the first error ends the run at once. Where no pulled
    /// handle reaches a host capability, the run is exactly the model.
    #[verifier::loop_isolation(false)]
    pub fn run_ticks<H: Host>(&mut self, result: usize, host: &mut H, n: usize) -> (r: Result<
        Vec<Value>,
        EvalError,
    >)
        requires
            old(self).wf(),
            (result as int) < old(self).model().len(),
        ensures
            final(self).wf(),
            final(self).model().len() == old(self).model().len(),
            final(self).consumed@ == old(self).consumed@,
            r is Ok ==> r.unwrap()@.len() == n,
            ((forall|x: int|
                0 <= x < old(self).consumed@.len() ==> pure(
                    old(self).model(),
                    #[trigger] old(self).consumed@[x] as int,
                )) && pure(old(self).model(), result as int)) ==> ({
                let (nm, rm) = run_model(
                    old(self).model(),
                    old(self).consumed@,
                    result as int,
                    n as nat,
                );
                &&& final(self).model() == nm
                &&& match rm {
                    Ok(vs) => r is Ok && vals_model(r.unwrap()@) == vs,
                    Err(e) => r == Err::<Vec<Value>, EvalError>(e),
                }
            }),
    {
        let ghost m0 = self.model();
        let ghost c0 = self.consumed@;
        let ghost all_pure = (forall|x: int|
            0 <= x < c0.len() ==> pure(m0, #[trigger] c0[x] as int)) && pure(
            m0,
            result as int,
        );
        proof {
            lemma_arena_evolves_refl(m0);
            lemma_vals_model(Seq::<Value>::empty());
        }
        let mut out: Vec<Value> = Vec::new();
        let mut t: usize = 0;
        while t < n
            invariant
                t <= n,
                self.wf(),
                self.model().len() == m0.len(),
                self.consumed@ == c0,
                (result as int) < self.model().len(),
                out@.len() == t,
                forall|j: int| 0 <= j < m0.len() ==> evolves(#[trigger] m0[j], self.model()[j]),
                all_pure ==> run_model(m0, c0, result as int, t as nat) == ((
                    self.model(),
                    Ok::<Seq<ValModel>, EvalError>(vals_model(out@)),
                )),
            decreases n - t,
        {
            proof {
                if all_pure {
                    assert forall|x: int| 0 <= x < c0.len() implies pure(
                        self.model(),
                        #[trigger] c0[x] as int,
                    ) by {
                        lemma_pure_stable(m0, self.model(), c0[x] as int);
                    }
                    lemma_pure_stable(m0, self.model(), result as int);
                }
            }
            let ghost mp = self.model();
            match self.tick(result, host) {
                Ok(v) => {
                    let ghost out0 = out@;
                    out.push(v);
                    proof {
                        lemma_vals_model_push(out0, v);
                    }
                },
                Err(e) => {
                    proof {
                        lemma_arena_evolves_trans(m0, mp, self.model());
                        if all_pure {
                            assert(run_model(m0, c0, result as int, t as nat + 1) == ((
                                self.model(),
                                Err::<Seq<ValModel>, EvalError>(e),
                            )));
                            lemma_run_model_err(m0, c0, result as int, t as nat + 1, n as nat);
                        }
                    }
                    return Err(e);
                },
            }
            proof {
                lemma_arena_evolves_trans(m0, mp, self.model());
            }
            t = t + 1;
        }
        Ok(out)
    }

    /// One tick: pull every `Consume` handle in order, for its
    /// effects, then pull the result handle and yield its value. Any
    /// error is fatal and ends the tick at once.
    ///
    /// Where no pulled handle reaches a host capability, the tick is
    /// exactly the model: the `Consume` handles drained in order, then
    /// one step of the result handle.
    #[verifier::loop_isolation(false)]
    pub fn tick<H: Host>(&mut self, result: usize, host: &mut H) -> (r: Result<Value, EvalError>)
        requires
            old(self).wf(),
            (result as int) < old(self).model().len(),
        ensures
            final(self).wf(),
            final(self).model().len() == old(self).model().len(),
            final(self).consumed@ == old(self).consumed@,
            forall|j: int|
                0 <= j < old(self).model().len() ==> evolves(
                    #[trigger] old(self).model()[j],
                    final(self).model()[j],
                ),
            ((forall|x: int|
                0 <= x < old(self).consumed@.len() ==> pure(
                    old(self).model(),
                    #[trigger] old(self).consumed@[x] as int,
                )) && pure(old(self).model(), result as int)) ==> ({
                let (nd, e) = drain(old(self).model(), old(self).consumed@);
                match e {
                    Some(err) => final(self).model() == nd && r == Err::<Value, EvalError>(err),
                    None => final(self).model() == step(nd, result as int).0 && res_model(r)
                        == step(nd, result as int).1,
                }
            }),
    {
        let ghost m0 = self.model();
        let ghost c0 = self.consumed@;
        let ghost all_pure = (forall|x: int|
            0 <= x < c0.len() ==> pure(m0, #[trigger] c0[x] as int)) && pure(
            m0,
            result as int,
        );
        proof {
            lemma_arena_evolves_refl(m0);
            assert(c0.skip(0) =~= c0);
        }
        let mut k: usize = 0;
        while k < self.consumed.len()
            invariant
                k <= c0.len(),
                self.wf(),
                self.model().len() == m0.len(),
                self.consumed@ == c0,
                (result as int) < self.model().len(),
                forall|j: int| 0 <= j < m0.len() ==> evolves(#[trigger] m0[j], self.model()[j]),
                all_pure ==> drain(m0, c0) == drain(self.model(), c0.skip(k as int)),
            decreases self.consumed.len() - k,
        {
            let h = self.consumed[k];
            proof {
                if all_pure {
                    lemma_pure_stable(m0, self.model(), h as int);
                    assert(c0.skip(k as int)[0] == c0[k as int]);
                    assert(c0.skip(k as int).drop_first() =~= c0.skip(k as int + 1));
                }
            }
            let ghost mp = self.model();
            match self.pull(h, host) {
                Ok(_) => {},
                Err(e) => {
                    proof {
                        lemma_arena_evolves_trans(m0, mp, self.model());
                    }
                    return Err(e);
                },
            }
            proof {
                lemma_arena_evolves_trans(m0, mp, self.model());
            }
            k = k + 1;
        }
        proof {
            assert(c0.skip(c0.len() as int) =~= Seq::<usize>::empty());
            if all_pure {
                lemma_pure_stable(m0, self.model(), result as int);
            }
        }
        let ghost mp = self.model();
        let r = self.pull(result, host);
        proof {
            lemma_arena_evolves_trans(m0, mp, self.model());
        }
        r
    }
}

/// The reserved name the input stream of a machine is bound to.
fn new_input_name() -> (r: String)
    ensures
        r@ == input_name(),
{
    let r = String::from_str("input");
    proof {
        reveal_strlit("input");
    }
    r
}

/// The reserved name, as characters.
pub open spec fn input_name() -> Seq<char> {
    "input"@
}

/// Prefixes compose.
pub proof fn lemma_prefix_trans(a: Seq<NodeModel>, b: Seq<NodeModel>, c: Seq<NodeModel>)
    requires
        a.is_prefix_of(b),
        b.is_prefix_of(c),
    ensures
        a.is_prefix_of(c),
{
    assert(a =~= c.take(a.len() as int));
}

/// Prefixes of the consumed list compose.
pub proof fn lemma_prefix_trans_consumed(a: Seq<usize>, b: Seq<usize>, c: Seq<usize>)
    requires
        a.is_prefix_of(b),
        b.is_prefix_of(c),
    ensures
        a.is_prefix_of(c),
{
    assert(a =~= c.take(a.len() as int));
}

/// An environment that points into an arena still points into any
/// extension of it.
pub proof fn lemma_env_prefix(env: Seq<(Seq<char>, usize)>, len1: int, len2: int)
    requires
        env_ok(env, len1),
        len1 <= len2,
    ensures
        env_ok(env, len2),
{
}

/// A sequence is a prefix of itself.
pub proof fn lemma_prefix_refl(a: Seq<NodeModel>)
    ensures
        a.is_prefix_of(a),
{
    assert(a =~= a.take(a.len() as int));
}

/// A consumed list is a prefix of itself.
pub proof fn lemma_prefix_refl_consumed(a: Seq<usize>)
    ensures
        a.is_prefix_of(a),
{
    assert(a =~= a.take(a.len() as int));
}

/// If the `k`th machine bears the name and none before it does, the
/// table search finds exactly `k`.
pub proof fn lemma_find_def_first(ms: Seq<crate::syntax::MachineDef>, name: Seq<char>, k: int)
    requires
        0 <= k < ms.len(),
        ms[k].name@ == name,
        forall|x: int| 0 <= x < k ==> ms[x].name@ != name,
    ensures
        find_def(ms, name) == Some(k),
    decreases ms.len(),
{
    if k > 0 {
        assert(forall|x: int|
            0 <= x < k - 1 ==> ms.drop_first()[x] == ms[x + 1]);
        assert(ms.drop_first()[k - 1] == ms[k]);
        lemma_find_def_first(ms.drop_first(), name, k - 1);
    }
}

/// Extending an environment with one in-range binding keeps it
/// pointing into the arena.
pub proof fn lemma_env_ok_push(env: Seq<(String, usize)>, p: (String, usize), len: int)
    requires
        env_ok(env_model(env), len),
        (p.1 as int) < len,
    ensures
        env_ok(env_model(env.push(p)), len),
{
    let m = env_model(env.push(p));
    assert forall|k: int| 0 <= k < m.len() implies (#[trigger] m[k].1 as int) < len by {
        if k < env.len() {
            assert(m[k] == env_model(env)[k]);
        } else {
            assert(m[k] == (p.0@, p.1));
        }
    }
}

/// When the scan of the machine table finds no match, `find_def` is
/// `None`.
pub proof fn lemma_find_def_none(ms: Seq<crate::syntax::MachineDef>, name: Seq<char>)
    requires
        forall|x: int| 0 <= x < ms.len() ==> ms[x].name@ != name,
    ensures
        find_def(ms, name) is None,
    decreases ms.len(),
{
    if ms.len() > 0 {
        assert(forall|x: int|
            0 <= x < ms.drop_first().len() ==> ms.drop_first()[x].name@ != name);
        lemma_find_def_none(ms.drop_first(), name);
    }
}

} // verus!
