use omnistor::json::{parse_flat, Json};

#[test]
fn render_escapes_and_nests() {
    let j = Json::Obj(vec![
        ("name".into(), Json::str("a\"b")),
        ("n".into(), Json::num(42)),
        ("arr".into(), Json::Arr(vec![Json::Bool(true), Json::Null])),
    ]);
    assert_eq!(j.render(), r#"{"name":"a\"b","n":42,"arr":[true,null]}"#);
}

#[test]
fn parse_flat_object() {
    let m = parse_flat(r#"{"name": "acme", "capacity": 1000, "note": "a,b}c"}"#);
    assert_eq!(m.get("name").unwrap(), "acme");
    assert_eq!(m.get("capacity").unwrap(), "1000");
    assert_eq!(m.get("note").unwrap(), "a,b}c");
}

#[test]
fn control_characters_are_escaped() {
    assert_eq!(
        Json::str("q\" b\\ n\n r\r t\t bell\u{7} esc\u{1f} é").render(),
        "\"q\\\" b\\\\ n\\n r\\r t\\t bell\\u0007 esc\\u001f é\""
    );
}

#[test]
fn plain_values() {
    assert_eq!(Json::Null.render(), "null");
    assert_eq!(Json::Bool(false).render(), "false");
    assert_eq!(Json::Arr(vec![]).render(), "[]");
    assert_eq!(Json::Obj(vec![]).render(), "{}");
    assert_eq!(Json::num(0).render(), "0");
    let nested = Json::Arr(vec![
        Json::Arr(vec![Json::num(1), Json::num(2)]),
        Json::Obj(vec![("k\n".into(), Json::str(""))]),
    ]);
    assert_eq!(nested.render(), "[[1,2],{\"k\\n\":\"\"}]");
}

/// How a number reads after it has been through a 64-bit float.
fn through_float(n: u64) -> String {
    let f = n as f64;
    if f.abs() < 9e15 {
        format!("{}", f as i64)
    } else {
        format!("{f}")
    }
}

#[test]
fn numbers_read_as_floats_do() {
    let mut numbers = vec![
        0,
        1,
        8_999_999_999_999_999,
        9_000_000_000_000_000,
        9_007_199_254_740_991,
        9_007_199_254_740_992,
        9_007_199_254_740_993,
        9_007_199_254_740_995,
        18_014_398_509_481_983,
        18_014_398_509_481_987,
        (1 << 63) - 1,
        1 << 63,
        (1 << 63) + 1025,
        u64::MAX - 1024,
        u64::MAX,
    ];
    let mut x: u64 = 0x9e37_79b9_7f4a_7c15;
    for i in 0..2000 {
        x ^= x << 13;
        x ^= x >> 7;
        x ^= x << 17;
        numbers.push(x >> (i % 64));
    }
    for n in numbers {
        assert_eq!(Json::num(n).render(), through_float(n), "{n}");
    }
}

#[test]
fn exact_readings_of_large_numbers() {
    assert_eq!(Json::num(9_007_199_254_740_993).render(), "9007199254740992");
    assert_eq!(Json::num(1 << 63).render(), "9223372036854776000");
    assert_eq!(Json::num(u64::MAX).render(), "18446744073709552000");
}

#[test]
fn loose_bodies_are_read() {
    let m = parse_flat("  {\"a\":1,\"b\" : \"x\\\"y\\\\z\\n\", \"c\": null , \"d\": true}  ");
    assert_eq!(m.get("a").unwrap(), "1");
    assert_eq!(m.get("b").unwrap(), "x\"y\\zn");
    assert_eq!(m.get("c").unwrap(), "null");
    assert_eq!(m.get("d").unwrap(), "true");
    assert!(m.get("e").is_none());
}

#[test]
fn the_last_of_equal_names_counts() {
    let m = parse_flat(r#"{"a": 1, "a": 2, "": 3}"#);
    assert_eq!(m.get("a").unwrap(), "2");
    assert!(m.get("").is_none());
}

#[test]
fn bodies_that_hold_nothing() {
    for body in ["", "{}", "null", "   ", "{\"a\"", "{\"a\":", "{\"a\" }"] {
        assert!(parse_flat(body).get("a").is_none(), "{body}");
    }
    // An empty value is one, where something follows it.
    assert_eq!(parse_flat("{\"a\":,\"b\":2}").get("a").unwrap(), "");
    assert_eq!(parse_flat("{\"a\":,\"b\":2}").get("b").unwrap(), "2");
    // A quote that is not closed runs to the end.
    assert_eq!(parse_flat("{\"a\":\"xyz").get("a").unwrap(), "xyz");
}

#[test]
fn a_brace_ends_a_bare_value() {
    let m = parse_flat(r#"{"a": 12}, "b": 3}"#);
    assert_eq!(m.get("a").unwrap(), "12");
    assert_eq!(m.get("b").unwrap(), "3");
}

#[test]
fn flat_objects_read_back() {
    let fields = [
        ("name", "a \"quoted\" value"),
        ("path", "c:\\temp\\{x},[y]"),
        ("empty", ""),
        ("spaces in name", " , } { : "),
        ("letters", "\u{e9}\u{4e2d}"),
    ];
    let object = Json::Obj(
        fields
            .iter()
            .map(|(k, v)| (k.to_string(), Json::str(v)))
            .collect(),
    );
    let read = parse_flat(&object.render());
    for (k, v) in fields {
        assert_eq!(read.get(k).unwrap(), v);
    }
    assert!(read.get("other").is_none());
    assert!(parse_flat(&Json::Obj(vec![]).render()).get("name").is_none());
}
