//! Behavioural tests for the stream engine, run with a host backed by
//! hardware doubles and a recording sink.

use bam::engine::Engine;
use bam::host::Host;
use bam::node::Node;
use bam::syntax::{Builtin, EvalError, Machine, MachineDef, Program, Statement, Stream, Value};

/// A host backed by `f64` arithmetic; `emitted` records every value
/// the `Print` builtin wrote, `sink_ok` lets a test simulate a broken
/// sink.
struct TestHost {
    emitted: Vec<Value>,
    sink_ok: bool,
}

impl TestHost {
    fn new() -> TestHost {
        TestHost { emitted: Vec::new(), sink_ok: true }
    }
}

impl Host for TestHost {
    fn add(&mut self, a: u64, b: u64) -> u64 {
        (f64::from_bits(a) + f64::from_bits(b)).to_bits()
    }
    fn mul(&mut self, a: u64, b: u64) -> u64 {
        (f64::from_bits(a) * f64::from_bits(b)).to_bits()
    }
    fn modulo(&mut self, a: u64, b: u64) -> u64 {
        (f64::from_bits(a) % f64::from_bits(b)).to_bits()
    }
    fn pow(&mut self, a: u64, b: u64) -> u64 {
        f64::from_bits(a).powf(f64::from_bits(b)).to_bits()
    }
    fn sqrt(&mut self, a: u64) -> u64 {
        f64::from_bits(a).sqrt().to_bits()
    }
    fn gte(&mut self, a: u64, b: u64) -> bool {
        f64::from_bits(a) >= f64::from_bits(b)
    }
    fn lt(&mut self, a: u64, b: u64) -> bool {
        f64::from_bits(a) < f64::from_bits(b)
    }
    fn emit(&mut self, v: &Value) -> bool {
        if self.sink_ok {
            self.emitted.push(v.duplicate());
        }
        self.sink_ok
    }
}

fn num(x: f64) -> Value {
    Value::Num(x.to_bits())
}

fn const_num(x: f64) -> Stream {
    Stream::Const(num(x))
}

/// A program with one machine holding the given body and result.
fn one_machine(name: &str, body: Vec<Statement>, result: Stream) -> Program {
    Program {
        machines: vec![MachineDef { name: name.to_string(), body, result }],
    }
}

/// Build the named machine's streams and hand back engine + result handle.
fn started(prog: &Program, entry: &str) -> (Engine, usize) {
    let mut engine = Engine::new();
    let result = engine
        .start(prog, &entry.to_string(), 32)
        .expect("the program should build");
    (engine, result)
}

#[test]
fn five_pulled_three_times() {
    let prog = one_machine("Five", vec![], const_num(5.0));
    let (mut engine, result) = started(&prog, "Five");
    let mut host = TestHost::new();
    for _ in 0..3 {
        let v = engine.tick(result, &mut host).unwrap();
        assert_eq!(v, num(5.0));
    }
}

#[test]
fn add_over_zip_of_constants() {
    let prog = one_machine(
        "main",
        vec![],
        Stream::Pipe(
            Box::new(Stream::Zip(vec![const_num(2.0), const_num(3.0)])),
            Box::new(Machine::Builtin(Builtin::Add)),
        ),
    );
    let (mut engine, result) = started(&prog, "main");
    let mut host = TestHost::new();
    assert_eq!(engine.tick(result, &mut host).unwrap(), num(5.0));
}

#[test]
fn limit_of_true_pulled_four_times() {
    let prog = one_machine(
        "main",
        vec![],
        Stream::Limit(Box::new(Stream::Const(Value::Bool(true))), 2),
    );
    let (mut engine, result) = started(&prog, "main");
    let mut host = TestHost::new();
    assert_eq!(engine.tick(result, &mut host).unwrap(), Value::Bool(true));
    assert_eq!(engine.tick(result, &mut host).unwrap(), Value::Bool(true));
    assert_eq!(engine.tick(result, &mut host).unwrap(), Value::Null);
    assert_eq!(engine.tick(result, &mut host).unwrap(), Value::Null);
}

#[test]
fn unzip_index_out_of_range_fails_on_first_pull() {
    let prog = one_machine(
        "main",
        vec![],
        Stream::Unzip(
            Box::new(Stream::Zip(vec![const_num(1.0), const_num(2.0)])),
            2,
        ),
    );
    // Construction succeeds: the index is only checked against the
    // pulled tuple.
    let (mut engine, result) = started(&prog, "main");
    let mut host = TestHost::new();
    assert_eq!(
        engine.tick(result, &mut host),
        Err(EvalError::IndexOutOfRange)
    );
}

#[test]
fn dup2_then_both_projections_reproduce_the_stream() {
    // The source yields one `true`, then `Null` forever; both halves
    // of the duplicated stream must reproduce exactly that.
    let source = Stream::Limit(Box::new(Stream::Const(Value::Bool(true))), 1);
    let prog = one_machine(
        "main",
        vec![Statement::Let(
            vec!["a".to_string(), "b".to_string()],
            Stream::Pipe(Box::new(source), Box::new(Machine::Builtin(Builtin::Dup2))),
        )],
        Stream::Zip(vec![
            Stream::Var("a".to_string()),
            Stream::Var("b".to_string()),
        ]),
    );
    let (mut engine, result) = started(&prog, "main");
    let mut host = TestHost::new();
    assert_eq!(
        engine.tick(result, &mut host).unwrap(),
        Value::Tuple(vec![Value::Bool(true), Value::Bool(true)])
    );
    assert_eq!(
        engine.tick(result, &mut host).unwrap(),
        Value::Tuple(vec![Value::Null, Value::Null])
    );
}

#[test]
fn destructuring_matches_members_tick_for_tick() {
    // let a, b = (x, y): per tick, a carries x's value and b carries
    // y's, with x advanced once per tick, not once per consumer.
    let x = Stream::Limit(Box::new(const_num(10.0)), 2);
    let y = const_num(20.0);
    let prog = one_machine(
        "main",
        vec![Statement::Let(
            vec!["a".to_string(), "b".to_string()],
            Stream::Zip(vec![x, y]),
        )],
        Stream::Zip(vec![
            Stream::Var("a".to_string()),
            Stream::Var("b".to_string()),
        ]),
    );
    let (mut engine, result) = started(&prog, "main");
    let mut host = TestHost::new();
    assert_eq!(
        engine.tick(result, &mut host).unwrap(),
        Value::Tuple(vec![num(10.0), num(20.0)])
    );
    assert_eq!(
        engine.tick(result, &mut host).unwrap(),
        Value::Tuple(vec![num(10.0), num(20.0)])
    );
    // x is exhausted after two ticks: had the destructuring pulled it
    // once per consumer, it would have run out a tick earlier.
    assert_eq!(
        engine.tick(result, &mut host).unwrap(),
        Value::Tuple(vec![Value::Null, num(20.0)])
    );
}

#[test]
fn zip_pulls_members_left_to_right() {
    // Each zip member is piped through Print; the sink records the
    // order in which the members were advanced.
    let printed = |x: f64| {
        Stream::Pipe(
            Box::new(const_num(x)),
            Box::new(Machine::Builtin(Builtin::Print)),
        )
    };
    let prog = one_machine(
        "main",
        vec![],
        Stream::Zip(vec![printed(1.0), printed(2.0), printed(3.0)]),
    );
    let (mut engine, result) = started(&prog, "main");
    let mut host = TestHost::new();
    assert_eq!(
        engine.tick(result, &mut host).unwrap(),
        Value::Tuple(vec![num(1.0), num(2.0), num(3.0)])
    );
    assert_eq!(host.emitted, vec![num(1.0), num(2.0), num(3.0)]);
    engine.tick(result, &mut host).unwrap();
    assert_eq!(host.emitted.len(), 6);
}

#[test]
fn cond_leaves_untaken_branch_alone() {
    // Arena built by hand: a conditional whose test is always true.
    // The else branch is a limit of one value; because the conditional
    // never advances it, pulling it directly afterwards still yields
    // its first value.
    let mut engine = Engine {
        nodes: vec![
            Node::Const(Value::Bool(true)),       // 0: test
            Node::Const(num(1.0)),                // 1
            Node::Limit(1, 1, 0),                 // 2: then
            Node::Const(num(2.0)),                // 3
            Node::Limit(3, 1, 0),                 // 4: else
            Node::Cond(0, 2, 4),                  // 5
        ],
        consumed: vec![],
    };
    let mut host = TestHost::new();
    assert_eq!(engine.pull(5, &mut host).unwrap(), num(1.0));
    assert_eq!(engine.pull(5, &mut host).unwrap(), Value::Null); // then exhausted
    // The untaken else branch was never pulled: its one value is intact.
    assert_eq!(engine.pull(4, &mut host).unwrap(), num(2.0));
}

#[test]
fn cond_rejects_non_boolean_test() {
    let prog = one_machine(
        "main",
        vec![],
        Stream::Cond(
            Box::new(const_num(1.0)),
            Box::new(const_num(2.0)),
            Box::new(const_num(3.0)),
        ),
    );
    let (mut engine, result) = started(&prog, "main");
    let mut host = TestHost::new();
    assert_eq!(engine.tick(result, &mut host), Err(EvalError::TypeMismatch));
}

#[test]
fn arithmetic_builtins() {
    let apply2 = |op: Builtin, a: f64, b: f64| {
        Stream::Pipe(
            Box::new(Stream::Zip(vec![const_num(a), const_num(b)])),
            Box::new(Machine::Builtin(op)),
        )
    };
    let cases: Vec<(Stream, Value)> = vec![
        (apply2(Builtin::Mul, 6.0, 7.0), num(42.0)),
        (apply2(Builtin::Mod, 7.5, 2.0), num(1.5)),
        (apply2(Builtin::Pow, 2.0, 10.0), num(1024.0)),
        (apply2(Builtin::Gte, 3.0, 3.0), Value::Bool(true)),
        (apply2(Builtin::Gte, 2.0, 3.0), Value::Bool(false)),
        (apply2(Builtin::Lt, 2.0, 3.0), Value::Bool(true)),
        (apply2(Builtin::Lt, 3.0, 2.0), Value::Bool(false)),
        (
            Stream::Pipe(
                Box::new(const_num(9.0)),
                Box::new(Machine::Builtin(Builtin::Sqrt)),
            ),
            num(3.0),
        ),
    ];
    for (stream, expected) in cases {
        let prog = one_machine("main", vec![], stream);
        let (mut engine, result) = started(&prog, "main");
        let mut host = TestHost::new();
        assert_eq!(engine.tick(result, &mut host).unwrap(), expected);
    }
}

#[test]
fn sqrt_of_negative_is_nan_not_an_error() {
    let prog = one_machine(
        "main",
        vec![],
        Stream::Pipe(
            Box::new(const_num(-1.0)),
            Box::new(Machine::Builtin(Builtin::Sqrt)),
        ),
    );
    let (mut engine, result) = started(&prog, "main");
    let mut host = TestHost::new();
    match engine.tick(result, &mut host).unwrap() {
        Value::Num(bits) => assert!(f64::from_bits(bits).is_nan()),
        other => panic!("expected a number, got {:?}", other),
    }
}

#[test]
fn eq_is_structural_and_never_fails_on_pairs() {
    let pair = |a: Value, b: Value| {
        Stream::Pipe(
            Box::new(Stream::Zip(vec![Stream::Const(a), Stream::Const(b)])),
            Box::new(Machine::Builtin(Builtin::Eq)),
        )
    };
    let tup = |xs: Vec<Value>| Value::Tuple(xs);
    let cases = vec![
        (pair(num(2.0), num(2.0)), true),
        (pair(num(2.0), num(3.0)), false),
        (pair(Value::Str("ab".to_string()), Value::Str("ab".to_string())), true),
        (pair(Value::Null, Value::Null), true),
        (pair(Value::Null, Value::Bool(false)), false),
        (
            pair(tup(vec![num(1.0), Value::Bool(true)]), tup(vec![num(1.0), Value::Bool(true)])),
            true,
        ),
        (
            pair(tup(vec![num(1.0)]), tup(vec![num(1.0), num(1.0)])),
            false,
        ),
    ];
    for (stream, expected) in cases {
        let prog = one_machine("main", vec![], stream);
        let (mut engine, result) = started(&prog, "main");
        let mut host = TestHost::new();
        assert_eq!(
            engine.tick(result, &mut host).unwrap(),
            Value::Bool(expected)
        );
    }
}

#[test]
fn type_mismatch_for_non_numeric_arithmetic() {
    let prog = one_machine(
        "main",
        vec![],
        Stream::Pipe(
            Box::new(Stream::Zip(vec![
                Stream::Const(Value::Str("x".to_string())),
                const_num(1.0),
            ])),
            Box::new(Machine::Builtin(Builtin::Add)),
        ),
    );
    let (mut engine, result) = started(&prog, "main");
    let mut host = TestHost::new();
    assert_eq!(engine.tick(result, &mut host), Err(EvalError::TypeMismatch));
}

#[test]
fn unknown_stream_name_fails_to_build() {
    let prog = one_machine("main", vec![], Stream::Var("nobody".to_string()));
    let mut engine = Engine::new();
    assert_eq!(
        engine.start(&prog, &"main".to_string(), 32),
        Err(EvalError::NameNotFound)
    );
}

#[test]
fn unknown_machine_name() {
    let prog = one_machine(
        "main",
        vec![],
        Stream::Pipe(
            Box::new(const_num(1.0)),
            Box::new(Machine::Var("nobody".to_string())),
        ),
    );
    let mut engine = Engine::new();
    assert_eq!(
        engine.start(&prog, &"main".to_string(), 32),
        Err(EvalError::UndefinedMachine)
    );
    // The entry machine itself can also be missing.
    let mut engine2 = Engine::new();
    assert_eq!(
        engine2.start(&prog, &"other".to_string(), 32),
        Err(EvalError::UndefinedMachine)
    );
}

#[test]
fn duplicate_machine_names_are_refused() {
    let def = |name: &str| MachineDef {
        name: name.to_string(),
        body: vec![],
        result: const_num(0.0),
    };
    let bad = Program { machines: vec![def("a"), def("b"), def("a")] };
    assert_eq!(
        Engine::check_program(&bad),
        Err(EvalError::DuplicateDefinition)
    );
    let good = Program { machines: vec![def("a"), def("b")] };
    assert_eq!(Engine::check_program(&good), Ok(()));
}

#[test]
fn sink_failure_is_fatal() {
    let prog = one_machine(
        "main",
        vec![],
        Stream::Pipe(
            Box::new(const_num(1.0)),
            Box::new(Machine::Builtin(Builtin::Print)),
        ),
    );
    let (mut engine, result) = started(&prog, "main");
    let mut host = TestHost::new();
    host.sink_ok = false;
    assert_eq!(
        engine.tick(result, &mut host),
        Err(EvalError::SinkWriteFailure)
    );
}

#[test]
fn self_referential_machine_stops_at_the_recursion_limit() {
    // loop = 1 -> loop: instantiating it can never finish.
    let prog = one_machine(
        "loop",
        vec![],
        Stream::Pipe(
            Box::new(const_num(1.0)),
            Box::new(Machine::Var("loop".to_string())),
        ),
    );
    let mut engine = Engine::new();
    assert_eq!(
        engine.start(&prog, &"loop".to_string(), 32),
        Err(EvalError::RecursionLimit)
    );
}

#[test]
fn user_machine_applied_to_a_stream() {
    // double = input * input-independent constant: Inc(x) = x + 1.
    let inc = MachineDef {
        name: "Inc".to_string(),
        body: vec![],
        result: Stream::Pipe(
            Box::new(Stream::Zip(vec![
                Stream::Var("input".to_string()),
                const_num(1.0),
            ])),
            Box::new(Machine::Builtin(Builtin::Add)),
        ),
    };
    let main = MachineDef {
        name: "main".to_string(),
        body: vec![],
        result: Stream::Pipe(
            Box::new(const_num(41.0)),
            Box::new(Machine::Var("Inc".to_string())),
        ),
    };
    let prog = Program { machines: vec![inc, main] };
    let (mut engine, result) = started(&prog, "main");
    let mut host = TestHost::new();
    assert_eq!(engine.tick(result, &mut host).unwrap(), num(42.0));
}

#[test]
fn machines_may_be_referenced_before_their_definition() {
    // main is defined first and calls Later, defined after it.
    let main = MachineDef {
        name: "main".to_string(),
        body: vec![],
        result: Stream::Pipe(
            Box::new(const_num(3.0)),
            Box::new(Machine::Var("Later".to_string())),
        ),
    };
    let later = MachineDef {
        name: "Later".to_string(),
        body: vec![],
        result: Stream::Pipe(
            Box::new(Stream::Zip(vec![
                Stream::Var("input".to_string()),
                Stream::Var("input".to_string()),
            ])),
            Box::new(Machine::Builtin(Builtin::Mul)),
        ),
    };
    let prog = Program { machines: vec![main, later] };
    let (mut engine, result) = started(&prog, "main");
    let mut host = TestHost::new();
    assert_eq!(engine.tick(result, &mut host).unwrap(), num(9.0));
}

#[test]
fn consume_statements_drive_print_each_tick() {
    let prog = one_machine(
        "main",
        vec![Statement::Consume(Stream::Pipe(
            Box::new(const_num(7.0)),
            Box::new(Machine::Builtin(Builtin::Print)),
        ))],
        const_num(0.0),
    );
    let (mut engine, result) = started(&prog, "main");
    let mut host = TestHost::new();
    engine.tick(result, &mut host).unwrap();
    engine.tick(result, &mut host).unwrap();
    assert_eq!(host.emitted, vec![num(7.0), num(7.0)]);
}

#[test]
fn dup3_triples_its_input() {
    let prog = one_machine(
        "main",
        vec![],
        Stream::Pipe(
            Box::new(const_num(4.0)),
            Box::new(Machine::Builtin(Builtin::Dup3)),
        ),
    );
    let (mut engine, result) = started(&prog, "main");
    let mut host = TestHost::new();
    assert_eq!(
        engine.tick(result, &mut host).unwrap(),
        Value::Tuple(vec![num(4.0), num(4.0), num(4.0)])
    );
}

#[test]
fn run_ticks_collects_values_in_order() {
    let prog = one_machine(
        "main",
        vec![],
        Stream::Limit(Box::new(const_num(9.0)), 1),
    );
    let (mut engine, result) = started(&prog, "main");
    let mut host = TestHost::new();
    assert_eq!(
        engine.run_ticks(result, &mut host, 3).unwrap(),
        vec![num(9.0), Value::Null, Value::Null]
    );
}

#[test]
fn run_ticks_stops_at_the_first_error() {
    let prog = one_machine(
        "main",
        vec![Statement::Consume(Stream::Pipe(
            Box::new(const_num(1.0)),
            Box::new(Machine::Builtin(Builtin::Print)),
        ))],
        const_num(0.0),
    );
    let (mut engine, result) = started(&prog, "main");
    let mut host = TestHost::new();
    host.sink_ok = false;
    assert_eq!(
        engine.run_ticks(result, &mut host, 3),
        Err(EvalError::SinkWriteFailure)
    );
}
