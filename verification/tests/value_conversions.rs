//! Tests of the `Value` conversions and structural operations.

use bam::syntax::Value;

fn num(x: f64) -> Value {
    Value::Num(x.to_bits())
}

#[test]
fn to_tuple_accepts_only_tuples() {
    let t = Value::Tuple(vec![num(1.0), Value::Bool(true)]);
    assert_eq!(t.to_tuple(), Some(vec![num(1.0), Value::Bool(true)]));
    assert_eq!(num(1.0).to_tuple(), None);
    assert_eq!(Value::Null.to_tuple(), None);
    assert_eq!(Value::Str("x".to_string()).to_tuple(), None);
}

#[test]
fn to_pair_accepts_only_two_element_tuples() {
    let t = Value::Tuple(vec![num(1.0), num(2.0)]);
    assert_eq!(t.to_pair(), Some((num(1.0), num(2.0))));
    assert_eq!(Value::Tuple(vec![num(1.0)]).to_pair(), None);
    assert_eq!(
        Value::Tuple(vec![num(1.0), num(2.0), num(3.0)]).to_pair(),
        None
    );
    assert_eq!(Value::Bool(true).to_pair(), None);
}

#[test]
fn to_num_accepts_only_numbers() {
    assert_eq!(num(2.5).to_num(), Some(2.5f64.to_bits()));
    assert_eq!(Value::Bool(true).to_num(), None);
    assert_eq!(Value::Null.to_num(), None);
}

#[test]
fn duplicate_copies_deeply() {
    let v = Value::Tuple(vec![
        Value::Str("hi".to_string()),
        Value::Tuple(vec![num(1.0), Value::Null]),
        Value::Bool(false),
    ]);
    let w = v.duplicate();
    assert_eq!(v, w);
    assert!(v.same_value(&w));
}

#[test]
fn same_value_compares_structurally() {
    let a = Value::Tuple(vec![num(1.0), Value::Str("x".to_string())]);
    let b = Value::Tuple(vec![num(1.0), Value::Str("x".to_string())]);
    let c = Value::Tuple(vec![num(1.0), Value::Str("y".to_string())]);
    assert!(a.same_value(&b));
    assert!(!a.same_value(&c));
    assert!(!a.same_value(&num(1.0)));
    assert!(Value::Null.same_value(&Value::Null));
    assert!(!Value::Bool(true).same_value(&Value::Bool(false)));
}
