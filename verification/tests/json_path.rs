use json_path::{JsonPath, JsonPathElement, JsonPathIndex, JsonPathQuery, Number, Value};

fn s(v: &str) -> Value {
    Value::String(v.to_string())
}

fn n(v: i64) -> Value {
    Value::Number(if v < 0 {
        Number::NegInt(v)
    } else {
        Number::PosInt(v as u64)
    })
}

fn f(v: f64) -> Value {
    Value::Number(Number::Float(v.to_bits()))
}

fn arr(items: Vec<Value>) -> Value {
    Value::Array(items)
}

fn obj(entries: Vec<(&str, Value)>) -> Value {
    Value::Object(
        entries
            .into_iter()
            .map(|(k, v)| (k.to_string(), v))
            .collect(),
    )
}

fn field(name: &str) -> JsonPathElement {
    JsonPathElement::Field(name.to_string())
}

fn nth_left(i: usize) -> JsonPathElement {
    JsonPathElement::Index(JsonPathIndex::NthLefth(i))
}

fn nth_right(i: usize) -> JsonPathElement {
    JsonPathElement::Index(JsonPathIndex::NthRight(i))
}

#[test]
fn try_from() {
    let tests: Vec<(&str, Result<JsonPath, &'static str>)> = vec![
        ("$", Ok(JsonPath(vec![]))),
        ("3", Ok(JsonPath(vec![nth_left(3)]))),
        ("$.a", Ok(JsonPath(vec![field("a")]))),
        ("$.a.b", Ok(JsonPath(vec![field("a"), field("b")]))),
        (
            "$.abc.bc.cbc",
            Ok(JsonPath(vec![field("abc"), field("bc"), field("cbc")])),
        ),
        ("$[4]", Ok(JsonPath(vec![nth_left(4)]))),
        ("$[4][3]", Ok(JsonPath(vec![nth_left(4), nth_left(3)]))),
        (
            "$.a[4].b[3]",
            Ok(JsonPath(vec![
                field("a"),
                nth_left(4),
                field("b"),
                nth_left(3),
            ])),
        ),
        (
            "$.a[#-4].b[3]",
            Ok(JsonPath(vec![
                field("a"),
                nth_right(4),
                field("b"),
                nth_left(3),
            ])),
        ),
        ("$.a[#]", Ok(JsonPath(vec![field("a"), nth_right(0)]))),
        // Invalid
        (".a", Err("expected $ or numeric")),
        ("a", Err("expected $ or numeric")),
        ("[0]", Err("expected $ or numeric")),
        ("$0]", Err("expected . or [")),
    ];
    for (path, expected) in tests {
        assert_eq!(
            path.try_into(),
            expected,
            "expected {} to be {:?}",
            path,
            expected
        );
    }
}

#[test]
fn path() {
    let tests: Vec<(&str, Value, Result<Value, &'static str>)> = vec![
        ("$", obj(vec![]), Ok(obj(vec![]))),
        ("$.a", obj(vec![("a", s("example"))]), Ok(s("example"))),
        ("$[0]", arr(vec![n(0), n(1), n(2), n(3)]), Ok(n(0))),
        ("$[#-1]", arr(vec![n(0), n(1), n(2), n(3)]), Ok(n(3))),
        (
            "$.a[#-1].b[0].test",
            obj(vec![
                (
                    "a",
                    arr(vec![
                        obj(vec![("b", s("invalid"))]),
                        obj(vec![(
                            "b",
                            arr(vec![
                                obj(vec![("test", s("example"))]),
                                obj(vec![("test", s("invalid"))]),
                            ]),
                        )]),
                    ]),
                ),
                ("b", s("invalid")),
            ]),
            Ok(s("example")),
        ),
        ("1", arr(vec![n(1), n(2), n(4)]), Ok(n(2))),
        ("$[2]", arr(vec![n(1)]), Err("unable to find path to value")),
        (
            "$.a[#-2]",
            obj(vec![("b", arr(vec![n(1)]))]),
            Err("unable to find path to value"),
        ),
    ];

    for (path, value, expected) in tests {
        assert_eq!(
            value.path(path),
            expected.as_ref().map_err(|e| *e),
            "expected {:?} from {} to be {:?}",
            value,
            path,
            expected
        );
        let mut value = value;
        let got = value.path_mut(path).map(|v| &*v);
        assert_eq!(
            got,
            expected.as_ref().map_err(|e| *e),
            "expected {:?} to be {:?}",
            got,
            expected
        );
    }
}

#[test]
fn insert() {
    let tests: Vec<(JsonPath, Value, Value, Option<Value>)> = vec![
        (
            "$.a".try_into().unwrap(),
            obj(vec![]),
            s("test"),
            Some(obj(vec![("a", s("test"))])),
        ),
        (
            "$.a.b[1]".try_into().unwrap(),
            obj(vec![("a", obj(vec![("b", arr(vec![n(1), n(2), n(4)]))]))]),
            s("test"),
            Some(obj(vec![(
                "a",
                obj(vec![("b", arr(vec![n(1), s("test"), n(2), n(4)]))]),
            )])),
        ),
        (
            "$.a.b[#]".try_into().unwrap(),
            obj(vec![("a", obj(vec![("b", arr(vec![n(1), n(2), n(4)]))]))]),
            s("test"),
            Some(obj(vec![(
                "a",
                obj(vec![("b", arr(vec![n(1), n(2), n(4), s("test")]))]),
            )])),
        ),
        (
            "$.a.b[#-3]".try_into().unwrap(),
            obj(vec![("a", obj(vec![("b", arr(vec![n(1), n(2), n(4)]))]))]),
            s("test"),
            Some(obj(vec![(
                "a",
                obj(vec![("b", arr(vec![s("test"), n(1), n(2), n(4)]))]),
            )])),
        ),
        (
            "$.a".try_into().unwrap(),
            obj(vec![("a", f(10.0))]),
            s("test"),
            None,
        ),
        (
            "$.a[1]".try_into().unwrap(),
            obj(vec![("a", arr(vec![]))]),
            s("test"),
            None,
        ),
        (
            "$.a[#-3]".try_into().unwrap(),
            obj(vec![("a", arr(vec![]))]),
            s("test"),
            None,
        ),
    ];

    for (path, mut value, extra, expected) in tests {
        let value = path.insert(&mut value, extra);
        assert_eq!(
            value,
            expected.as_ref(),
            "expected {:?} to be {:?}",
            value,
            expected
        );
    }
}

#[test]
fn replace() {
    let tests: Vec<(JsonPath, Value, Value, Option<Value>)> = vec![
        ("$.a".try_into().unwrap(), obj(vec![]), s("test"), None),
        (
            "$.a.b[1]".try_into().unwrap(),
            obj(vec![("a", obj(vec![("b", arr(vec![n(1), n(2), n(4)]))]))]),
            s("test"),
            Some(obj(vec![(
                "a",
                obj(vec![("b", arr(vec![n(1), s("test"), n(4)]))]),
            )])),
        ),
        (
            "$.a.b[#-2]".try_into().unwrap(),
            obj(vec![("a", obj(vec![("b", arr(vec![n(1), n(2), n(4)]))]))]),
            s("test"),
            Some(obj(vec![(
                "a",
                obj(vec![("b", arr(vec![n(1), s("test"), n(4)]))]),
            )])),
        ),
        (
            "$.a".try_into().unwrap(),
            obj(vec![("a", f(10.0))]),
            s("test"),
            Some(obj(vec![("a", s("test"))])),
        ),
        (
            "$.a[1]".try_into().unwrap(),
            obj(vec![("a", arr(vec![]))]),
            s("test"),
            None,
        ),
        (
            "$.a[#-3]".try_into().unwrap(),
            obj(vec![("a", arr(vec![]))]),
            s("test"),
            None,
        ),
    ];

    for (path, mut value, extra, expected) in tests {
        let value = path.replace(&mut value, extra);
        assert_eq!(
            value,
            expected.as_ref(),
            "expected {:?} to be {:?}",
            value,
            expected
        );
    }
}

#[test]
fn set() {
    let tests: Vec<(JsonPath, Value, Value, Option<Value>)> = vec![
        (
            "$.a".try_into().unwrap(),
            obj(vec![]),
            s("test"),
            Some(obj(vec![("a", s("test"))])),
        ),
        (
            "$.a.b[1]".try_into().unwrap(),
            obj(vec![("a", obj(vec![("b", arr(vec![n(1), n(2), n(4)]))]))]),
            s("test"),
            Some(obj(vec![(
                "a",
                obj(vec![("b", arr(vec![n(1), s("test"), n(4)]))]),
            )])),
        ),
        (
            "$.a.b[#-2]".try_into().unwrap(),
            obj(vec![("a", obj(vec![("b", arr(vec![n(1), n(2), n(4)]))]))]),
            s("test"),
            Some(obj(vec![(
                "a",
                obj(vec![("b", arr(vec![n(1), s("test"), n(4)]))]),
            )])),
        ),
        (
            "$.a".try_into().unwrap(),
            obj(vec![("a", f(10.0))]),
            s("test"),
            Some(obj(vec![("a", s("test"))])),
        ),
        (
            "$.a[1]".try_into().unwrap(),
            obj(vec![("a", arr(vec![]))]),
            s("test"),
            None,
        ),
        (
            "$.a[#-3]".try_into().unwrap(),
            obj(vec![("a", arr(vec![]))]),
            s("test"),
            None,
        ),
    ];

    for (path, mut value, extra, expected) in tests {
        let value = path.set(&mut value, extra);
        assert_eq!(
            value,
            expected.as_ref(),
            "expected {:?} to be {:?}",
            value,
            expected
        );
    }
}

#[test]
fn remove() {
    let tests: Vec<(JsonPath, Value, Option<Value>)> = vec![
        ("$.a".try_into().unwrap(), obj(vec![]), None),
        (
            "$.a.b[1]".try_into().unwrap(),
            obj(vec![("a", obj(vec![("b", arr(vec![n(1), n(2), n(8)]))]))]),
            Some(obj(vec![("a", obj(vec![("b", arr(vec![n(1), n(8)]))]))])),
        ),
        (
            "$.a.b[#-2]".try_into().unwrap(),
            obj(vec![("a", obj(vec![("b", arr(vec![n(1), n(2), n(4)]))]))]),
            Some(obj(vec![("a", obj(vec![("b", arr(vec![n(1), n(4)]))]))])),
        ),
        (
            "$.a".try_into().unwrap(),
            obj(vec![("a", f(10.0))]),
            Some(obj(vec![])),
        ),
        ("$.a[1]".try_into().unwrap(), obj(vec![("a", arr(vec![]))]), None),
        (
            "$.a[#-3]".try_into().unwrap(),
            obj(vec![("a", arr(vec![]))]),
            None,
        ),
    ];

    for (path, mut value, expected) in tests {
        let value = path.remove(&mut value);
        assert_eq!(
            value,
            expected.as_ref(),
            "expected {:?} to be {:?}",
            value,
            expected
        );
    }
}

#[test]
fn parse_leniencies() {
    // An empty field name, an empty index, a reverse marker without
    // digits, and a bare number with trailing text all parse.
    let cases: Vec<(&str, JsonPath)> = vec![
        ("$.", JsonPath(vec![field("")])),
        ("$[]", JsonPath(vec![nth_left(0)])),
        ("$[#-]", JsonPath(vec![nth_right(0)])),
        ("3abc", JsonPath(vec![nth_left(3)])),
        // an index too large for the machine quietly becomes zero
        (
            "$[99999999999999999999999999]",
            JsonPath(vec![nth_left(0)]),
        ),
        // field names follow Unicode letters, not just ASCII
        ("$.caf\u{e9}", JsonPath(vec![field("caf\u{e9}")])),
        // a digit of another script is numeric, but reads leniently as zero
        ("\u{661}", JsonPath(vec![nth_left(0)])),
    ];
    for (text, expected) in cases {
        assert_eq!(JsonPath::parse(text), Ok(expected), "parsing {}", text);
    }
    // field scanning stops at the first non-letter, and what follows must
    // again be `.` or `[`
    assert_eq!(JsonPath::parse("$.ab1"), Err("expected . or ["));
}

#[test]
fn parse_unclosed_index() {
    assert_eq!(JsonPath::parse("$[1"), Err("expected ]"));
    assert_eq!(JsonPath::parse("$[12x]"), Err("expected ]"));
    assert_eq!(JsonPath::parse("$[#-3"), Err("expected ]"));
    assert_eq!(JsonPath::parse(""), Err("expected $ or numeric"));
}

#[test]
fn insert_then_find() {
    // inserting at an in-range position, then resolving the same position,
    // yields the inserted value, and the array grows by one
    let mut value = arr(vec![n(1), n(2), n(4)]);
    let path: JsonPath = "$[1]".try_into().unwrap();
    assert!(path.insert(&mut value, s("x")).is_some());
    assert_eq!(value, arr(vec![n(1), s("x"), n(2), n(4)]));
    assert_eq!(path.find(&value), Some(&s("x")));
}

#[test]
fn insert_append_marker() {
    let mut value = arr(vec![n(1)]);
    let path: JsonPath = "$[#]".try_into().unwrap();
    assert!(path.insert(&mut value, s("x")).is_some());
    assert_eq!(value, arr(vec![n(1), s("x")]));
}

#[test]
fn out_of_range_from_end_leaves_tree_unchanged() {
    let fresh = || obj(vec![("a", arr(vec![n(1), n(2)]))]);
    let path: JsonPath = "$.a[#-5]".try_into().unwrap();

    let mut value = fresh();
    assert_eq!(path.insert(&mut value, s("x")), None);
    assert_eq!(value, fresh());

    let mut value = fresh();
    assert_eq!(path.set(&mut value, s("x")), None);
    assert_eq!(value, fresh());

    let mut value = fresh();
    assert_eq!(path.remove(&mut value), None);
    assert_eq!(value, fresh());

    // the append marker is not a valid position for set or remove either
    let append: JsonPath = "$.a[#]".try_into().unwrap();
    let mut value = fresh();
    assert_eq!(append.set(&mut value, s("x")), None);
    assert_eq!(value, fresh());
    let mut value = fresh();
    assert_eq!(append.remove(&mut value), None);
    assert_eq!(value, fresh());
}

#[test]
fn set_field_always_insert_field_only_absent() {
    let path: JsonPath = "$.a".try_into().unwrap();

    // set overwrites a present key
    let mut value = obj(vec![("a", n(1)), ("b", n(2))]);
    assert!(path.set(&mut value, s("x")).is_some());
    assert_eq!(value, obj(vec![("a", s("x")), ("b", n(2))]));

    // set adds an absent key at the back
    let mut value = obj(vec![("b", n(2))]);
    assert!(path.set(&mut value, s("x")).is_some());
    assert_eq!(value, obj(vec![("b", n(2)), ("a", s("x"))]));

    // insert refuses a present key, leaving the tree unchanged
    let mut value = obj(vec![("a", n(1))]);
    assert_eq!(path.insert(&mut value, s("x")), None);
    assert_eq!(value, obj(vec![("a", n(1))]));

    // remove refuses an absent key
    let mut value = obj(vec![("b", n(2))]);
    assert_eq!(path.remove(&mut value), None);
    assert_eq!(value, obj(vec![("b", n(2))]));
}

#[test]
fn replace_never_creates() {
    // an unresolved path cannot be replaced
    let mut value = obj(vec![]);
    let path: JsonPath = "$.a".try_into().unwrap();
    assert_eq!(path.replace(&mut value, s("x")), None);
    assert_eq!(value, obj(vec![]));

    // the whole root can be replaced through the empty path
    let mut value = arr(vec![n(1)]);
    let root: JsonPath = "$".try_into().unwrap();
    assert!(root.replace(&mut value, s("x")).is_some());
    assert_eq!(value, s("x"));

    // but the empty path has no parent to insert into
    let mut value = arr(vec![n(1)]);
    assert_eq!(root.insert(&mut value, s("x")), None);
    assert_eq!(value, arr(vec![n(1)]));
}

#[test]
fn find_from_end_positions() {
    let value = arr(vec![n(10), n(20), n(30)]);
    let last: JsonPath = "$[#-1]".try_into().unwrap();
    let first: JsonPath = "$[#-3]".try_into().unwrap();
    let marker: JsonPath = "$[#]".try_into().unwrap();
    let past: JsonPath = "$[#-4]".try_into().unwrap();
    assert_eq!(last.find(&value), Some(&n(30)));
    assert_eq!(first.find(&value), Some(&n(10)));
    // the append marker never resolves for lookup
    assert_eq!(marker.find(&value), None);
    assert_eq!(past.find(&value), None);
}

#[test]
fn find_type_mismatch() {
    let value = obj(vec![("a", n(1))]);
    let index: JsonPath = "$[0]".try_into().unwrap();
    assert_eq!(index.find(&value), None);
    let value = arr(vec![n(1)]);
    let key: JsonPath = "$.a".try_into().unwrap();
    assert_eq!(key.find(&value), None);
}

#[test]
fn element_text() {
    assert_eq!(JsonPathIndex::NthLefth(0).to_string(), "0");
    assert_eq!(JsonPathIndex::NthLefth(105).to_string(), "105");
    assert_eq!(JsonPathIndex::NthRight(3).to_string(), "#-3");
    assert_eq!(JsonPathIndex::NthRight(0).to_string(), "#-0");
    assert_eq!(field("abc").to_string(), "abc");
    assert_eq!(nth_left(12).to_string(), "12");
}
