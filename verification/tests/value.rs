use std::cmp::Ordering;

use json_path::{compare_with_parsed, partial_cmp, Comparison, Number, Value};

fn s(v: &str) -> Value {
    Value::String(v.to_string())
}

fn n(v: i64) -> Value {
    Value::Number(if v < 0 {
        Number::NegInt(v)
    } else {
        Number::PosInt(v as u64)
    })
}

fn f(v: f64) -> Value {
    Value::Number(Number::Float(v.to_bits()))
}

fn arr(items: Vec<Value>) -> Value {
    Value::Array(items)
}

fn obj(entries: Vec<(&str, Value)>) -> Value {
    Value::Object(
        entries
            .into_iter()
            .map(|(k, v)| (k.to_string(), v))
            .collect(),
    )
}

/// The full comparator: what the library resolves itself, finished with a
/// real read of the string as a double where it asks for one.
fn pc(a: &Value, b: &Value) -> Option<Ordering> {
    match partial_cmp(a, b) {
        Comparison::Resolved(o) => o,
        Comparison::NeedsParse(num, text, number_first) => {
            let parsed: Option<u64> = text.parse::<f64>().ok().map(f64::to_bits);
            compare_with_parsed(&num, parsed, number_first)
        }
    }
}

#[test]
fn test_partial_cmp() {
    let tests = vec![
        // Null
        (Value::Null, Value::Null, Some(Ordering::Equal)),
        (n(0), Value::Null, None),
        (n(1), Value::Null, None),
        (n(-1), Value::Null, None),
        (f(12.12), Value::Null, None),
        (Value::Bool(true), Value::Null, None),
        (Value::Bool(false), Value::Null, None),
        (s("test"), Value::Null, None),
        (s(""), Value::Null, None),
        (obj(vec![]), Value::Null, None),
        (obj(vec![("a", f(12.12))]), Value::Null, None),
        (arr(vec![]), Value::Null, None),
        (arr(vec![n(0), n(1)]), Value::Null, None),
        // Bool
        (Value::Null, Value::Bool(false), None),
        (n(0), Value::Bool(false), Some(Ordering::Equal)),
        (n(1), Value::Bool(false), Some(Ordering::Greater)),
        (n(-1), Value::Bool(false), Some(Ordering::Less)),
        (f(12.12), Value::Bool(false), Some(Ordering::Greater)),
        (Value::Bool(true), Value::Bool(false), Some(Ordering::Greater)),
        (Value::Bool(false), Value::Bool(false), Some(Ordering::Equal)),
        (s("test"), Value::Bool(false), Some(Ordering::Greater)),
        (s(""), Value::Bool(false), Some(Ordering::Greater)),
        (obj(vec![]), Value::Bool(false), Some(Ordering::Greater)),
        (
            obj(vec![("a", f(12.12))]),
            Value::Bool(false),
            Some(Ordering::Greater),
        ),
        (arr(vec![]), Value::Bool(false), Some(Ordering::Greater)),
        (
            arr(vec![n(0), n(1)]),
            Value::Bool(false),
            Some(Ordering::Greater),
        ),
    ];
    for (ref a, ref b, expected) in tests {
        let result = pc(a, b);
        assert_eq!(
            result, expected,
            "expected {:?}.partial_cmp({:?}) to be {:?}",
            a, b, expected
        );
    }
}

#[test]
fn numbers_compare_along_the_ladder() {
    assert_eq!(pc(&n(1), &n(2)), Some(Ordering::Less));
    assert_eq!(pc(&n(-5), &n(3)), Some(Ordering::Less));
    assert_eq!(pc(&n(7), &n(7)), Some(Ordering::Equal));
    assert_eq!(pc(&f(1.5), &n(1)), Some(Ordering::Greater));
    assert_eq!(pc(&f(1.5), &n(2)), Some(Ordering::Less));
    assert_eq!(pc(&f(2.0), &n(2)), Some(Ordering::Equal));
    assert_eq!(pc(&f(-0.0), &n(0)), Some(Ordering::Equal));
    assert_eq!(pc(&f(0.0), &f(-0.0)), Some(Ordering::Equal));
    assert_eq!(pc(&f(-2.5), &n(-2)), Some(Ordering::Less));
    assert_eq!(pc(&f(1.0e-300), &n(0)), Some(Ordering::Greater));
    assert_eq!(pc(&f(1.0e300), &n(i64::MAX)), Some(Ordering::Greater));
    assert_eq!(
        pc(&Value::Number(Number::PosInt(u64::MAX)), &f(1.0e18)),
        Some(Ordering::Greater)
    );
    // two integers compare on an integer rung, at full precision
    let big = (1u64 << 53) + 1;
    assert_eq!(
        pc(
            &Value::Number(Number::PosInt(big)),
            &Value::Number(Number::PosInt(big + 1))
        ),
        Some(Ordering::Less)
    );
    // an integer against a double compares on the floating-point rung,
    // where the integer first rounds to the nearest double
    assert_eq!(
        pc(&Value::Number(Number::PosInt(big)), &f(9007199254740992.0)),
        Some(Ordering::Equal)
    );
    // and this agrees with what the cast itself produces
    assert_eq!(big as f64, 9007199254740992.0);
    // very small magnitudes keep their sign
    assert_eq!(pc(&f(-1.0e-308), &n(0)), Some(Ordering::Less));
    // the largest machine word rounds up, past any smaller double
    assert_eq!(u64::MAX as f64, 18446744073709551616.0);
    assert_eq!(
        pc(
            &Value::Number(Number::PosInt(u64::MAX)),
            &f(18446744073709551616.0)
        ),
        Some(Ordering::Equal)
    );
    // a tie between two doubles goes to the even significand
    assert_eq!(9007199254740995u64 as f64, 9007199254740996.0);
    assert_eq!(
        pc(
            &Value::Number(Number::PosInt(9007199254740995)),
            &f(9007199254740996.0)
        ),
        Some(Ordering::Equal)
    );
    assert_eq!(
        pc(
            &Value::Number(Number::PosInt(9007199254740995)),
            &f(9007199254740994.0)
        ),
        Some(Ordering::Greater)
    );
}

#[test]
fn strings_compare_lexicographically() {
    assert_eq!(pc(&s("abc"), &s("abd")), Some(Ordering::Less));
    assert_eq!(pc(&s("abc"), &s("ab")), Some(Ordering::Greater));
    assert_eq!(pc(&s(""), &s("a")), Some(Ordering::Less));
    assert_eq!(pc(&s("same"), &s("same")), Some(Ordering::Equal));
}

#[test]
fn number_against_string_parses() {
    assert_eq!(pc(&n(5), &s("12")), Some(Ordering::Less));
    assert_eq!(pc(&s("12"), &n(5)), Some(Ordering::Greater));
    assert_eq!(pc(&n(5), &s("5")), Some(Ordering::Equal));
    assert_eq!(pc(&f(12.5), &s("12.25")), Some(Ordering::Greater));
    // a string that is no number makes the number the lesser side,
    // whichever side it stands on
    assert_eq!(pc(&n(1), &s("abc")), Some(Ordering::Less));
    assert_eq!(pc(&s("abc"), &n(1)), Some(Ordering::Greater));
    // a string that reads as NaN compares to nothing
    assert_eq!(pc(&n(1), &s("NaN")), None);
    // one that reads as an infinity sits beyond every number
    assert_eq!(pc(&n(1), &s("inf")), Some(Ordering::Less));
    assert_eq!(pc(&n(1), &s("-inf")), Some(Ordering::Greater));
    assert_eq!(pc(&s("inf"), &n(1)), Some(Ordering::Greater));
    // swapping the operands flips the ordering, the fallback included
    assert_eq!(pc(&s("12"), &n(5)), Some(Ordering::Greater));
    assert_eq!(pc(&n(5), &s("12")), Some(Ordering::Less));
}

#[test]
fn kind_order_across_types() {
    // bool below string, array, object
    assert_eq!(pc(&Value::Bool(true), &s("a")), Some(Ordering::Less));
    assert_eq!(pc(&s("a"), &Value::Bool(true)), Some(Ordering::Greater));
    assert_eq!(pc(&Value::Bool(true), &arr(vec![])), Some(Ordering::Less));
    assert_eq!(pc(&Value::Bool(true), &obj(vec![])), Some(Ordering::Less));
    // number below array, object
    assert_eq!(pc(&n(9), &arr(vec![])), Some(Ordering::Less));
    assert_eq!(pc(&arr(vec![]), &n(9)), Some(Ordering::Greater));
    assert_eq!(pc(&n(9), &obj(vec![])), Some(Ordering::Less));
    // string below array, object
    assert_eq!(pc(&s("z"), &arr(vec![])), Some(Ordering::Less));
    assert_eq!(pc(&obj(vec![]), &s("z")), Some(Ordering::Greater));
}

#[test]
fn containers_tie() {
    // containers compare by their headers' in-memory footprints, which are
    // equal in this representation
    assert_eq!(pc(&arr(vec![]), &arr(vec![n(0)])), Some(Ordering::Equal));
    assert_eq!(pc(&obj(vec![]), &arr(vec![n(0)])), Some(Ordering::Equal));
    assert_eq!(
        pc(&obj(vec![("a", n(1))]), &obj(vec![("b", n(2))])),
        Some(Ordering::Equal)
    );
    // structurally equal trees are equal outright
    assert_eq!(
        pc(
            &obj(vec![("a", arr(vec![n(1), s("x")]))]),
            &obj(vec![("a", arr(vec![n(1), s("x")]))])
        ),
        Some(Ordering::Equal)
    );
}
