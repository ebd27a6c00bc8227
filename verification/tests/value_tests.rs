use std::cmp::Ordering;
use tlarc::value::{compare, normalize, Value};

#[test]
fn orders_integers_numerically() {
    assert_eq!(compare(&Value::Int(1), &Value::Int(2)), Ordering::Less);
    assert_eq!(compare(&Value::Int(10), &Value::Int(2)), Ordering::Greater);
    // Numeric, not digit-string, ordering: "10" < "2" lexicographically.
    assert_eq!(compare(&Value::Int(2), &Value::Int(10)), Ordering::Less);
}

#[test]
fn orders_bools() {
    assert_eq!(
        compare(&Value::Bool(false), &Value::Bool(true)),
        Ordering::Less
    );
    assert_eq!(
        compare(&Value::Bool(true), &Value::Bool(false)),
        Ordering::Greater
    );
    assert_eq!(
        compare(&Value::Bool(true), &Value::Bool(true)),
        Ordering::Equal
    );
}

#[test]
fn orders_by_type_rank() {
    // FALSE < TRUE < integers < strings
    assert_eq!(compare(&Value::Bool(false), &Value::Int(0)), Ordering::Less);
    assert_eq!(compare(&Value::Bool(true), &Value::Int(-5)), Ordering::Less);
    assert_eq!(
        compare(&Value::Int(0), &Value::Str(String::new())),
        Ordering::Less
    );
    assert_eq!(
        compare(&Value::Int(999), &Value::Str(String::new())),
        Ordering::Less
    );
    // And the reverse directions.
    assert_eq!(
        compare(&Value::Str(String::new()), &Value::Bool(true)),
        Ordering::Greater
    );
    assert_eq!(
        compare(&Value::Str(String::from("a")), &Value::Int(1)),
        Ordering::Greater
    );
    assert_eq!(
        compare(&Value::Int(0), &Value::Bool(true)),
        Ordering::Greater
    );
}

#[test]
fn normalize_is_identity_for_these_types() {
    assert_eq!(normalize(Value::Bool(false)), Value::Bool(false));
    assert_eq!(normalize(Value::Bool(true)), Value::Bool(true));
    assert_eq!(normalize(Value::Int(5)), Value::Int(5));
    assert_eq!(
        normalize(Value::Str(String::from("x"))),
        Value::Str(String::from("x"))
    );
}

#[test]
fn compare_matches_partial_eq() {
    for (a, b) in [
        (Value::Bool(false), Value::Bool(false)),
        (Value::Bool(true), Value::Bool(true)),
        (Value::Int(0), Value::Int(0)),
        (Value::Int(-7), Value::Int(-7)),
        (Value::Str(String::from("")), Value::Str(String::from(""))),
        (
            Value::Str(String::from("abc")),
            Value::Str(String::from("abc")),
        ),
    ] {
        assert_eq!(a, b, "fixture must be equal");
        assert_eq!(
            compare(&a, &b),
            Ordering::Equal,
            "equal values compare Equal"
        );
    }
}

fn sample_values() -> Vec<Value> {
    vec![
        Value::Bool(false),
        Value::Bool(true),
        Value::Int(i64::MIN),
        Value::Int(-1),
        Value::Int(0),
        Value::Int(2),
        Value::Int(10),
        Value::Int(i64::MAX),
        Value::Str(String::new()),
        Value::Str(String::from("10")),
        Value::Str(String::from("2")),
        Value::Str(String::from("a")),
        Value::Str(String::from("ab")),
        Value::Str(String::from("b")),
        Value::Str(String::from("é")),
        Value::Str(String::from("z")),
        Value::Str(String::from("日本")),
    ]
}

#[test]
fn strings_order_lexicographically() {
    let s = |x: &str| Value::Str(String::from(x));
    assert_eq!(compare(&s("10"), &s("2")), Ordering::Less);
    assert_eq!(compare(&s("a"), &s("ab")), Ordering::Less);
    assert_eq!(compare(&s("ab"), &s("b")), Ordering::Less);
    assert_eq!(compare(&s("abc"), &s("abd")), Ordering::Less);
    assert_eq!(compare(&s("b"), &s("abc")), Ordering::Greater);
    // Code-point order agrees with the byte order of Rust strings.
    assert_eq!(compare(&s("z"), &s("é")), Ordering::Less);
    assert_eq!(compare(&s("é"), &s("日")), Ordering::Less);
}

#[test]
fn compare_agrees_with_rust_order_within_a_kind() {
    for a in sample_values() {
        for b in sample_values() {
            match (&a, &b) {
                (Value::Int(x), Value::Int(y)) => assert_eq!(compare(&a, &b), x.cmp(y)),
                (Value::Str(x), Value::Str(y)) => assert_eq!(compare(&a, &b), x.cmp(y)),
                (Value::Bool(x), Value::Bool(y)) => assert_eq!(compare(&a, &b), x.cmp(y)),
                _ => {}
            }
        }
    }
}

#[test]
fn order_laws_hold_on_samples() {
    let vs = sample_values();
    for a in &vs {
        assert_eq!(compare(a, a), Ordering::Equal);
        for b in &vs {
            assert_eq!(compare(b, a), compare(a, b).reverse());
            assert_eq!(compare(a, b) == Ordering::Equal, a == b);
            for c in &vs {
                if compare(a, b) == Ordering::Less && compare(b, c) == Ordering::Less {
                    assert_eq!(compare(a, c), Ordering::Less);
                }
            }
        }
    }
}

#[test]
fn the_list_is_sorted_by_compare() {
    let vs = sample_values();
    // sample_values is written out in an order other than the TLA+ one for
    // strings, so sort it and check the kinds come out grouped.
    let mut sorted = vs.clone();
    sorted.sort_by(|a, b| compare(a, b));
    let ranks: Vec<u8> = sorted
        .iter()
        .map(|v| match v {
            Value::Bool(false) => 0,
            Value::Bool(true) => 1,
            Value::Int(_) => 2,
            Value::Str(_) => 3,
        })
        .collect();
    let mut expected = ranks.clone();
    expected.sort();
    assert_eq!(ranks, expected);
}
