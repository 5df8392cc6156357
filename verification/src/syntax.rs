//! Abstract syntax of the dataflow language, and the runtime `Value`
//! type with its structural conversions.

use vstd::prelude::*;

verus! {

/// A runtime value flowing through a stream, one per tick.
///
/// Numbers are carried as the bit pattern of an IEEE-754 double
/// (what `f64::to_bits` yields): the engine never computes with them,
/// it only moves them between streams and hands them to the [`crate::host::Host`]
/// for arithmetic, so the bits are all it needs to hold.
#[derive(Debug, PartialEq)]
pub enum Value {
    /// No value this tick: what an exhausted `Limit` stream keeps yielding.
    Null,
    /// A number, as the bit pattern of an IEEE-754 double.
    Num(u64),
    Str(String),
    Bool(bool),
    Tuple(Vec<Value>),
}

/// The mathematical shape of a `Value`; contracts speak of this model.
#[verifier::ext_equal]
pub enum ValModel {
    Null,
    Num(u64),
    Str(Seq<char>),
    Bool(bool),
    Tuple(Seq<ValModel>),
}

/// The model of a `Value`: numbers stay bit patterns, strings become
/// character sequences, tuples become sequences of models.
pub open spec fn val_model(v: Value) -> ValModel
    decreases v,
{
    match v {
        Value::Null => ValModel::Null,
        Value::Num(n) => ValModel::Num(n),
        Value::Str(s) => ValModel::Str(s@),
        Value::Bool(b) => ValModel::Bool(b),
        Value::Tuple(t) => ValModel::Tuple(vals_model(t@)),
    }
}

/// The models of a sequence of values, element by element.
pub open spec fn vals_model(s: Seq<Value>) -> Seq<ValModel>
    decreases s,
{
    if s.len() == 0 {
        Seq::empty()
    } else {
        seq![val_model(s[0])] + vals_model(s.drop_first())
    }
}

/// `vals_model` is the element-wise image of `val_model`.
pub proof fn lemma_vals_model(s: Seq<Value>)
    ensures
        vals_model(s).len() == s.len(),
        forall|i: int| 0 <= i < s.len() ==> vals_model(s)[i] == val_model(s[i]),
    decreases s,
{
    if s.len() > 0 {
        lemma_vals_model(s.drop_first());
    }
}

/// Appending a value appends its model.
pub proof fn lemma_vals_model_push(s: Seq<Value>, v: Value)
    ensures
        vals_model(s.push(v)) == vals_model(s).push(val_model(v)),
{
    lemma_vals_model(s);
    lemma_vals_model(s.push(v));
    assert(vals_model(s.push(v)) =~= vals_model(s).push(val_model(v)));
}

impl View for Value {
    type V = ValModel;

    open spec fn view(&self) -> ValModel {
        val_model(*self)
    }
}

impl Clone for Value {
    /// A clone is the same value.
    fn clone(&self) -> (r: Self)
        ensures
            r@ == self@,
    {
        self.duplicate()
    }
}

/// A whole program: its machine definitions, in source order.
#[derive(Debug)]
pub struct Program {
    pub machines: Vec<MachineDef>,
}

/// A named machine: local statements and the stream its output follows.
#[derive(Debug)]
pub struct MachineDef {
    pub name: String,
    pub body: Vec<Statement>,
    pub result: Stream,
}

#[derive(Debug)]
pub enum Statement {
    /// `let x, y = s;` — bind one stream, or destructure a tuple stream.
    Let(Vec<String>, Stream),
    /// `s;` — evaluate a stream for its effects alone.
    Consume(Stream),
}

#[derive(Debug)]
pub enum Stream {
    /// `x` — a stream bound earlier, or the machine's `input`.
    Var(String),
    /// `v` — the same value on every tick, forever.
    Const(Value),
    /// `s -> m` — apply machine `m` to `s`.
    Pipe(Box<Stream>, Box<Machine>),
    /// `s1, .., sn` — combine in lockstep into a tuple stream.
    Zip(Vec<Stream>),
    /// `s1 ? s2 : s3` — per-tick boolean branch.
    Cond(Box<Stream>, Box<Stream>, Box<Stream>),
    /// `s{n}` — the first `n` values of `s`, then `Null` forever.
    Limit(Box<Stream>, usize),
    /// Only generated during evaluation.
    /// Contains the underlying stream to unzip,
    /// and the index with which to project.
    Unzip(Box<Stream>, usize),
}

#[derive(Debug)]
pub enum Machine {
    Var(String),
    Builtin(Builtin),
    /// Only generated during evaluation.
    Defined(Vec<Statement>, Stream),
}

#[derive(Debug, Clone, Copy, Hash, PartialEq, Eq)]
pub enum Builtin {
    Add,
    Mul,
    Mod,
    Pow,
    Sqrt,
    Gte,
    Lt,
    Eq,
    Dup2,
    Dup3,
    Print,
}

/// Why an evaluation step, or the loading of a program, failed. All of
/// these are fatal: the engine never recovers by substituting a value.
#[derive(Debug, Clone, Copy, PartialEq, Eq, Structural)]
pub enum EvalError {
    /// An operand of the wrong variant reached a builtin or a
    /// destructuring.
    TypeMismatch,
    /// A `Machine::Var` named no machine of the program.
    UndefinedMachine,
    /// A `Stream::Var` named no bound stream.
    NameNotFound,
    /// An `Unzip` projection index fell outside the pulled tuple.
    IndexOutOfRange,
    /// Two machine definitions share a name.
    DuplicateDefinition,
    /// The host's sink refused a value the `Print` builtin wrote.
    SinkWriteFailure,
    /// Instantiating machines recursed deeper than the given budget;
    /// the program would never finish building its stream handles.
    RecursionLimit,
}

impl Value {
    /// Try to transform into a tuple.
    pub fn to_tuple(self) -> (r: Option<Vec<Value>>)
        ensures
            r is Some <==> self@ is Tuple,
            r is Some ==> self@ == ValModel::Tuple(vals_model(r.unwrap()@)),
    {
        match self {
            Value::Tuple(t) => Some(t),
            _ => None,
        }
    }

    /// Try to transform into a pair.
    pub fn to_pair(self) -> (r: Option<(Value, Value)>)
        ensures
            r is Some <==> (self@ is Tuple
                && self@->Tuple_0.len() == 2),
            r is Some ==> self@ == ValModel::Tuple(
                seq![r.unwrap().0@, r.unwrap().1@],
            ),
    {
        proof {
            if self is Tuple {
                lemma_vals_model((self->Tuple_0)@);
            }
        }
        match self {
            Value::Tuple(mut t) if t.len() == 2 => {
                let rhs = t.pop().unwrap();
                let lhs = t.pop().unwrap();
                proof {
                    assert(self@->Tuple_0 =~= seq![lhs@, rhs@]);
                }
                Some((lhs, rhs))
            }
            _ => None,
        }
    }

    /// Deep copy. The engine copies values whenever one leaves a stream
    /// handle (a constant yielded again, a recorded tuple served to a
    /// second consumer), so the copy must be provably the same value.
    #[verifier::loop_isolation(false)]
    pub fn duplicate(&self) -> (r: Value)
        ensures
            r@ == self@,
        decreases self,
    {
        match self {
            Value::Null => Value::Null,
            Value::Num(n) => Value::Num(*n),
            Value::Str(s) => Value::Str(s.clone()),
            Value::Bool(b) => Value::Bool(*b),
            Value::Tuple(t) => {
                let mut out: Vec<Value> = Vec::new();
                let mut i: usize = 0;
                while i < t.len()
                    invariant
                        i <= t.len(),
                        vals_model(out@) =~= vals_model(t@.take(i as int)),
                        out@.len() == i,
                    decreases t.len() - i,
                {
                    proof {
                        lemma_vals_model(out@);
                        lemma_vals_model(t@.take(i as int));
                        lemma_vals_model(t@.take(i as int + 1));
                    }
                    let ghost out0 = out@;
                    let e = t[i].duplicate();
                    out.push(e);
                    proof {
                        lemma_vals_model(out@);
                        assert forall|j: int| 0 <= j < i + 1
                            implies vals_model(out@)[j]
                                == vals_model(t@.take(i as int + 1))[j] by {
                            assert(t@.take(i as int + 1)[j] == t@[j]);
                            if j < i {
                                assert(out@[j] == out0[j]);
                                assert(vals_model(out0)[j]
                                    == vals_model(t@.take(i as int))[j]);
                                assert(t@.take(i as int)[j] == t@[j]);
                            } else {
                                assert(out@[j] == e);
                            }
                        }
                        assert(vals_model(out@) =~= vals_model(t@.take(i as int + 1)));
                    }
                    i = i + 1;
                }
                proof {
                    assert(t@.take(t@.len() as int) =~= t@);
                }
                Value::Tuple(out)
            }
        }
    }

    /// Structural equality of two values, as the `Eq` builtin compares
    /// them: same variant, same characters, tuples element by element,
    /// and numbers by bit pattern — so NaN equals NaN and 0.0 differs
    /// from -0.0, the engine's documented policy for `Eq`, which never
    /// consults the host.
    #[verifier::loop_isolation(false)]
    pub fn same_value(&self, other: &Value) -> (r: bool)
        ensures
            r == (self@ == other@),
        decreases self,
    {
        match (self, other) {
            (Value::Null, Value::Null) => true,
            (Value::Num(a), Value::Num(b)) => a == b,
            (Value::Str(a), Value::Str(b)) => a.eq(b),
            (Value::Bool(a), Value::Bool(b)) => a == b,
            (Value::Tuple(a), Value::Tuple(b)) => {
                proof {
                    lemma_vals_model(a@);
                    lemma_vals_model(b@);
                }
                if a.len() != b.len() {
                    proof {
                        assert(vals_model(a@).len() != vals_model(b@).len());
                    }
                    false
                } else {
                    let mut i: usize = 0;
                    let mut eq = true;
                    while i < a.len()
                        invariant
                            i <= a.len(),
                            a@.len() == b@.len(),
                            vals_model(a@).len() == a@.len(),
                            vals_model(b@).len() == b@.len(),
                            forall|j: int| 0 <= j < a@.len()
                                ==> vals_model(a@)[j] == val_model(a@[j]),
                            forall|j: int| 0 <= j < b@.len()
                                ==> vals_model(b@)[j] == val_model(b@[j]),
                            eq ==> forall|j: int| 0 <= j < i
                                ==> vals_model(a@)[j] == vals_model(b@)[j],
                            !eq ==> vals_model(a@) != vals_model(b@),
                        decreases a.len() - i,
                    {
                        if eq {
                            if !a[i].same_value(&b[i]) {
                                proof {
                                    assert(vals_model(a@)[i as int]
                                        != vals_model(b@)[i as int]);
                                }
                                eq = false;
                            }
                        }
                        i = i + 1;
                    }
                    proof {
                        if eq {
                            assert(vals_model(a@) =~= vals_model(b@));
                        }
                    }
                    eq
                }
            }
            _ => false,
        }
    }

    /// Try to transform into a number (the bit pattern of a double).
    pub fn to_num(self) -> (r: Option<u64>)
        ensures
            r is Some <==> self@ is Num,
            r is Some ==> self@ == ValModel::Num(r.unwrap()),
    {
        match self {
            Value::Num(f) => Some(f),
            _ => None,
        }
    }
}

} // verus!
