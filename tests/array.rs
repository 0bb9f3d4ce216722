use std::collections::hash_map::DefaultHasher;
use std::hash::{Hash, Hasher};
use sql_array::abolish::Abolish;
use sql_array::array::Array;
use sql_array::compute::{evaluate, Context, Error};
use sql_array::parser::{array, MAX_NESTING};
use sql_array::value::{Expression, Operator, Value};

fn parsed(s: &str) -> Array {
    array(s).unwrap().1
}

fn ints(v: Vec<i32>) -> Array {
    Array::from_ints(v)
}

#[test]
fn array_empty() {
    let sql = "[]";
    let res = array(sql);
    assert!(res.is_ok());
    let out = res.unwrap().1;
    assert_eq!("[]", out.to_string());
    assert_eq!(out.0.len(), 0);
}

#[test]
fn array_normal() {
    let sql = "[1,2,3]";
    let res = array(sql);
    assert!(res.is_ok());
    let out = res.unwrap().1;
    assert_eq!("[1, 2, 3]", out.to_string());
    assert_eq!(out.0.len(), 3);
}

#[test]
fn array_commas() {
    let sql = "[1,2,3,]";
    let res = array(sql);
    assert!(res.is_ok());
    let out = res.unwrap().1;
    assert_eq!("[1, 2, 3]", out.to_string());
    assert_eq!(out.0.len(), 3);
}

#[test]
fn array_expression() {
    let sql = "[1,2,3+1]";
    let res = array(sql);
    assert!(res.is_ok());
    let out = res.unwrap().1;
    assert_eq!("[1, 2, 3 + 1]", out.to_string());
    assert_eq!(out.0.len(), 3);
}

#[test]
fn array_fnc_uniq_normal() {
    let sql = "[1,2,1,3,3,4]";
    let res = array(sql);
    assert!(res.is_ok());
    let out = res.unwrap().1.uniq();
    assert_eq!("[1, 2, 3, 4]", out.to_string());
    assert_eq!(out.0.len(), 4);
}

#[test]
fn parse_leaves_trailing_input() {
    let (rest, out) = array("[ 1 , 'a' , ] ; next").unwrap();
    assert_eq!(rest, " ; next");
    assert_eq!(out.to_string(), "[1, 'a']");
}

#[test]
fn parse_nested_and_keywords() {
    let out = parsed("[[true, false], NULL, $name, -7, 'it\\'s']");
    assert_eq!(out.to_string(), "[[true, false], NULL, $name, -7, 'it\\'s']");
    assert_eq!(out.len(), 5);
}

#[test]
fn parse_lone_comma_is_empty() {
    assert_eq!(parsed("[ , ]").len(), 0);
}

#[test]
fn parse_errors() {
    assert!(array("[1,2").is_err());
    assert!(array("1,2]").is_err());
    assert!(array("[,,]").is_err());
    assert!(array("[1 2]").is_err());
    assert!(array("['open]").is_err());
    assert!(array("[99999999999999999999]").is_err());
    assert!(array("").is_err());
    let e = array("[1,").unwrap_err();
    assert!(e.pos <= 3);
}

#[test]
fn parse_number_limits() {
    let out = parsed("[9223372036854775807, -9223372036854775808]");
    assert_eq!(out.to_string(), "[9223372036854775807, -9223372036854775808]");
    assert!(array("[9223372036854775808]").is_err());
}

#[test]
fn display_round_trip_of_scalars() {
    let a = Array::from_strs(vec!["it's", "a\\b", ""]);
    let mut b = a.clone();
    b.push(Value::Number(-12));
    b.push(Value::Bool(true));
    b.push(Value::Null);
    let text = b.to_string();
    assert_eq!(text, "['it\\'s', 'a\\\\b', '', -12, true, NULL]");
    assert_eq!(parsed(&text), b);
}

#[test]
fn compute_resolves_expressions() {
    let ctx = Context::new();
    let out = parsed("[1,2,3+1]").compute(&ctx).unwrap();
    assert_eq!(out, Value::Array(ints(vec![1, 2, 4])));
    assert_eq!(out.to_string(), "[1, 2, 4]");
}

#[test]
fn compute_operators_and_params() {
    let mut ctx = Context::new();
    ctx.set("x".to_string(), Value::Number(1));
    ctx.set("x".to_string(), Value::Number(6));
    let out = parsed("[$x * 7, 10 - $x, [$x]]").compute(&ctx).unwrap();
    assert_eq!(out.to_string(), "[42, 4, [6]]");
}

#[test]
fn compute_first_error_only() {
    let ctx = Context::new();
    let a = parsed("[1, $missing, 1 + 'a']");
    match a.compute(&ctx) {
        Err(Error::UndefinedParam(n)) => assert_eq!(n, "missing"),
        other => panic!("unexpected {:?}", other),
    }
    assert!(matches!(parsed("[1, 2 + 'a', $missing]").compute(&ctx), Err(Error::InvalidOperands)));
    assert!(matches!(parsed("[9223372036854775807 + 1]").compute(&ctx), Err(Error::Overflow)));
}

#[test]
fn compute_cancelled() {
    let mut ctx = Context::new();
    ctx.cancel();
    assert!(matches!(parsed("[1]").compute(&ctx), Err(Error::Cancelled)));
    assert_eq!(parsed("[]").compute(&ctx).unwrap().to_string(), "[]");
}

#[test]
fn evaluate_expression_value() {
    let ctx = Context::new();
    let e = Value::Expression(Box::new(Expression {
        l: Value::Number(-3),
        o: Operator::Mul,
        r: Value::Number(5),
    }));
    assert_eq!(evaluate(&e, &ctx).unwrap(), Value::Number(-15));
}

#[test]
fn difference_scenario() {
    let out = ints(vec![1, 2, 3]).difference(ints(vec![2, 3, 4]));
    assert_eq!(out, ints(vec![1, 4]));
}

#[test]
fn difference_multiset() {
    let out = ints(vec![1, 1, 2]).difference(ints(vec![1, 3, 3]));
    assert_eq!(out.to_string(), "[1, 2, 3, 3]");
}

#[test]
fn combine_scenario() {
    let out = ints(vec![1, 2]).combine(Array::from_strs(vec!["a", "b"]));
    assert_eq!(out.to_string(), "[[1, 'a'], [1, 'b'], [2, 'a'], [2, 'b']]");
    assert_eq!(out.len(), 4);
    assert_eq!(ints(vec![1]).combine(Array::new()).len(), 0);
}

#[test]
fn union_keeps_first_occurrences() {
    let out = ints(vec![3, 1, 3]).union(ints(vec![2, 1, 4, 2]));
    assert_eq!(out, ints(vec![3, 1, 2, 4]));
}

#[test]
fn uniq_is_idempotent() {
    let once = ints(vec![5, 5, 1, 5, 2, 1]).uniq();
    assert_eq!(once, ints(vec![5, 1, 2]));
    assert_eq!(once.clone().uniq(), once);
}

#[test]
fn intersect_multiset() {
    let out = ints(vec![1, 1, 2, 3]).intersect(ints(vec![2, 1, 2]));
    assert_eq!(out, ints(vec![1, 2]));
    assert!(out.len() <= 3);
}

#[test]
fn complement_keeps_left_duplicates() {
    let out = ints(vec![1, 2, 1, 3]).complement(ints(vec![3]));
    assert_eq!(out, ints(vec![1, 2, 1]));
}

#[test]
fn concat_and_add() {
    let out = ints(vec![1]).concat(ints(vec![2, 3])).add_value(Value::Number(4));
    assert_eq!(out, ints(vec![1, 2, 3, 4]));
}

#[test]
fn subtract_first_matches() {
    assert_eq!(ints(vec![1, 2, 1]).sub_value(Value::Number(1)), ints(vec![2, 1]));
    assert_eq!(ints(vec![1, 2, 1]).sub_value(Value::Number(9)), ints(vec![1, 2, 1]));
    assert_eq!(ints(vec![1, 2, 1, 2]).sub_array(ints(vec![2, 1, 1])), ints(vec![2]));
}

#[test]
fn flatten_one_level() {
    let out = parsed("[[1, 2], 3, [[4]], []]").flatten();
    assert_eq!(out.to_string(), "[1, 2, 3, [4]]");
    let flat = parsed("[[1], 'a', [true]]").flatten();
    assert!(flat.0.iter().all(|v| !matches!(v, Value::Array(_))));
}

#[test]
fn abolish_by_index() {
    let mut v = vec![10, 20, 30, 40, 50];
    v.abolish(|i| i % 2 == 1);
    assert_eq!(v, vec![10, 30, 50]);
    let mut w: Vec<i32> = vec![];
    w.abolish(|_| true);
    assert!(w.is_empty());
}

#[test]
fn accessors_and_conversions() {
    let mut a = Array::with_capacity(4);
    assert!(a.is_empty());
    a.push(Value::Number(7));
    assert_eq!(a.get(0), Some(&Value::Number(7)));
    assert_eq!(a.get(1), None);
    let b = Array::from(vec![Value::Number(7)]);
    assert_eq!(a, b);
    assert_eq!(Array::from_value(Value::Null).to_string(), "[NULL]");
    assert_eq!(Array::from_strings(vec!["x".to_string(), "y".to_string()]).to_string(), "['x', 'y']");
    assert_eq!(b.into_vec().len(), 1);
    assert_ne!(Value::Strand("1".to_string()), Value::Number(1));
}

fn samples() -> Vec<Value> {
    vec![
        Value::Null,
        Value::Bool(false),
        Value::Bool(true),
        Value::Number(-4),
        Value::Number(9),
        Value::Strand("ab".to_string()),
        Value::Strand("b".to_string()),
        Value::Strand("é".to_string()),
        Value::Param("x".to_string()),
        Value::Array(ints(vec![1, 2])),
        Value::Array(ints(vec![1, 2, 0])),
        Value::Array(ints(vec![1, 3])),
        Value::Expression(Box::new(Expression {
            l: Value::Number(1),
            o: Operator::Add,
            r: Value::Number(2),
        })),
        Value::Expression(Box::new(Expression {
            l: Value::Number(1),
            o: Operator::Mul,
            r: Value::Number(0),
        })),
    ]
}

#[test]
fn order_is_total_and_matches_derived() {
    let vs = samples();
    for (i, a) in vs.iter().enumerate() {
        for (j, b) in vs.iter().enumerate() {
            assert_eq!(a.partial_cmp(b), Some(a.cmp(b)));
            assert_eq!(a.partial_cmp(b), Some(i.cmp(&j)));
            assert_eq!(a == b, i == j);
        }
    }
}

#[test]
fn array_order_is_lexicographic() {
    assert!(ints(vec![1, 2]) < ints(vec![1, 3]));
    assert!(ints(vec![1]) < ints(vec![1, 0]));
    assert!(Array::new() < ints(vec![0]));
    assert_eq!(ints(vec![2]).partial_cmp(&ints(vec![2])), Some(std::cmp::Ordering::Equal));
}

#[test]
fn equal_values_hash_equal() {
    let a = parsed("[1, 'a', [true]]");
    let b = parsed("[ 1,'a',[ true ] ]");
    assert_eq!(a, b);
    assert_eq!(h(&Value::Array(a)), h(&Value::Array(b)));
}

fn h(v: &Value) -> u64 {
    let mut s = DefaultHasher::new();
    v.hash(&mut s);
    s.finish()
}

#[test]
fn parse_nesting_limit() {
    let deep = format!("{}{}", "[".repeat(MAX_NESTING), "]".repeat(MAX_NESTING));
    assert!(array(&deep).is_ok());
    let deeper = format!("{}{}", "[".repeat(MAX_NESTING + 1), "]".repeat(MAX_NESTING + 1));
    assert!(array(&deeper).is_err());
}

#[test]
fn parse_long_literal() {
    let body: Vec<String> = (0..100000).map(|n| n.to_string()).collect();
    let text = format!("[{}]", body.join(","));
    let out = parsed(&text);
    assert_eq!(out.len(), 100000);
    assert_eq!(out.get(99999), Some(&Value::Number(99999)));
}
