use rsjwt::from_json;
use rsjwt::to_json;
use rsjwt::DecodeError;
use rsjwt::Value;

const T: i64 = 1700000000;

#[test]
fn serializes_canonical_text() {
    let claims = vec![
        ("b".to_string(), Value::Bool(true)),
        ("n".to_string(), Value::Int(-105)),
        ("s".to_string(), Value::String("a\"b\\c\nd".to_string())),
        (
            "l".to_string(),
            Value::List(vec![Value::Int(0), Value::Int(9223372036854775807)]),
        ),
        ("d".to_string(), Value::Dict(vec![])),
    ];
    let text = to_json(&claims, T).unwrap();
    assert_eq!(
        text,
        "{\"b\":true,\"n\":-105,\"s\":\"a\\\"b\\\\c\\u000ad\",\"l\":[0,9223372036854775807],\"d\":{}}"
    );
}

#[test]
fn serializes_times_as_seconds() {
    let claims = vec![
        ("exp".to_string(), Value::TimeDelta(60)),
        ("iat".to_string(), Value::DateTime(T)),
    ];
    let text = to_json(&claims, T).unwrap();
    assert_eq!(text, "{\"exp\":1700000060,\"iat\":1700000000}");
}

#[test]
fn escapes_non_ascii_with_unicode_escapes() {
    let claims = vec![("s".to_string(), Value::String("ü🙂".to_string()))];
    let text = to_json(&claims, T).unwrap();
    assert_eq!(text, "{\"s\":\"\\u00fc\\ud83d\\ude42\"}");
}

#[test]
fn wire_text_is_valid_json_for_other_parsers() {
    let claims = vec![
        ("s".to_string(), Value::String("ü\n\"x\"".to_string())),
        ("n".to_string(), Value::Int(i64::MIN)),
    ];
    let text = to_json(&claims, T).unwrap();
    let reparsed: serde_json::Value = serde_json::from_str(&text).unwrap();
    assert_eq!(reparsed["s"], serde_json::Value::String("ü\n\"x\"".to_string()));
    assert_eq!(
        reparsed["n"],
        serde_json::Value::Number(serde_json::Number::from(i64::MIN))
    );
}

#[test]
fn parses_back_what_it_wrote() {
    let claims = vec![
        ("b".to_string(), Value::Bool(false)),
        ("n".to_string(), Value::Int(i64::MIN)),
        ("m".to_string(), Value::Int(i64::MAX)),
        ("s".to_string(), Value::String("ü€🙂 \\ \" ok".to_string())),
        (
            "nest".to_string(),
            Value::List(vec![Value::Dict(vec![(
                "k".to_string(),
                Value::List(vec![Value::Int(1), Value::Bool(true)]),
            )])]),
        ),
    ];
    let text = to_json(&claims, T).unwrap();
    let parsed = from_json(text.as_str()).unwrap();
    assert_eq!(parsed, Value::Dict(claims));
}

#[test]
fn parses_plain_documents() {
    assert_eq!(from_json("true").unwrap(), Value::Bool(true));
    assert_eq!(from_json("false").unwrap(), Value::Bool(false));
    assert_eq!(from_json("0").unwrap(), Value::Int(0));
    assert_eq!(from_json("-7").unwrap(), Value::Int(-7));
    assert_eq!(from_json("[]").unwrap(), Value::List(vec![]));
    assert_eq!(from_json("{}").unwrap(), Value::Dict(vec![]));
    assert_eq!(
        from_json("\"\\u0041\\t\"").unwrap(),
        Value::String("A\t".to_string())
    );
    assert_eq!(
        from_json("\"\\uD83D\\uDE42\"").unwrap(),
        Value::String("🙂".to_string())
    );
    assert_eq!(
        from_json("[1,[2,[3]]]").unwrap(),
        Value::List(vec![
            Value::Int(1),
            Value::List(vec![Value::Int(2), Value::List(vec![Value::Int(3)])]),
        ])
    );
}

#[test]
fn rejects_what_the_wire_cannot_carry() {
    for bad in [
        "",
        " true",
        "true ",
        "01",
        "1.5",
        "1e3",
        "-",
        "9223372036854775808",
        "-9223372036854775809",
        "null",
        "\"\\uD800\"",
        "\"unterminated",
        "[1,]",
        "{\"a\":1,\"a\":2}",
        "{\"a\"}",
        "{'a':1}",
        "\u{7f}",
    ] {
        assert_eq!(from_json(bad), Err(DecodeError::InvalidToken), "{:?}", bad);
    }
}

#[test]
fn parses_boundary_integers() {
    assert_eq!(
        from_json("9223372036854775807").unwrap(),
        Value::Int(i64::MAX)
    );
    assert_eq!(
        from_json("-9223372036854775808").unwrap(),
        Value::Int(i64::MIN)
    );
}
