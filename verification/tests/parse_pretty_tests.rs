use json_explorer::value::JsonValue;
use json_explorer::{parse_json, to_pretty};

fn obj(fields: Vec<(&str, JsonValue)>) -> JsonValue {
    JsonValue::Obj(fields.into_iter().map(|(k, v)| (k.to_string(), v)).collect())
}

#[test]
fn parse_scalars() {
    assert_eq!(parse_json("null").unwrap(), JsonValue::Null);
    assert_eq!(parse_json("true").unwrap(), JsonValue::Bool(true));
    assert_eq!(parse_json("false").unwrap(), JsonValue::Bool(false));
    assert_eq!(parse_json("42").unwrap(), JsonValue::Num("42".to_string()));
    assert_eq!(parse_json("-1.5e3").unwrap(), JsonValue::Num("-1.5e3".to_string()));
    assert_eq!(parse_json("\"hi\"").unwrap(), JsonValue::Str("hi".to_string()));
}

#[test]
fn parse_string_escapes() {
    assert_eq!(
        parse_json("\"a\\n\\t\\\"b\\\\\"").unwrap(),
        JsonValue::Str("a\n\t\"b\\".to_string())
    );
    assert_eq!(parse_json("\"\\u0041\"").unwrap(), JsonValue::Str("A".to_string()));
    assert_eq!(parse_json("\"\\u00e9\"").unwrap(), JsonValue::Str("\u{e9}".to_string()));
}

#[test]
fn parse_surrogate_pair_escapes() {
    assert_eq!(
        parse_json("\"\\ud83d\\ude00\"").unwrap(),
        JsonValue::Str("\u{1F600}".to_string())
    );
    assert_eq!(
        parse_json("\"\\uD834\\uDD1E!\"").unwrap(),
        JsonValue::Str("\u{1D11E}!".to_string())
    );
}

#[test]
fn parse_rejects_lone_surrogate_escapes() {
    assert!(parse_json("\"\\ud800\"").is_err());
    assert!(parse_json("\"\\udc00\"").is_err());
    assert!(parse_json("\"\\ud83d x\"").is_err());
    assert!(parse_json("\"\\ude00\\ud83d\"").is_err());
}

#[test]
fn parse_containers_and_whitespace() {
    assert_eq!(parse_json(" [ ] ").unwrap(), JsonValue::Arr(vec![]));
    assert_eq!(parse_json("\t{ }\n").unwrap(), JsonValue::Obj(vec![]));
    assert_eq!(
        parse_json("[1, [2], {\"k\": 3}]").unwrap(),
        JsonValue::Arr(vec![
            JsonValue::Num("1".to_string()),
            JsonValue::Arr(vec![JsonValue::Num("2".to_string())]),
            obj(vec![("k", JsonValue::Num("3".to_string()))]),
        ])
    );
}

#[test]
fn parse_rejects_malformed_documents() {
    assert!(parse_json("").is_err());
    assert!(parse_json("   ").is_err());
    assert!(parse_json("{").is_err());
    assert!(parse_json("[1, 2").is_err());
    assert!(parse_json("tru").is_err());
    assert!(parse_json("01").is_err());
    assert!(parse_json("1.").is_err());
    assert!(parse_json("1.2.3").is_err());
    assert!(parse_json("+1").is_err());
    assert!(parse_json("\"unterminated").is_err());
    assert!(parse_json("\"bad \\q escape\"").is_err());
    assert!(parse_json("1 2").is_err());
    assert!(parse_json("{\"a\" 1}").is_err());
    assert!(parse_json("[1,]").is_err());
}

#[test]
fn pretty_print_format_is_stable() {
    let v = obj(vec![(
        "a",
        JsonValue::Arr(vec![JsonValue::Num("1".to_string()), JsonValue::Num("2".to_string())]),
    )]);
    assert_eq!(to_pretty(&v), "{\n  \"a\": [\n    1,\n    2\n  ]\n}");
    assert_eq!(to_pretty(&JsonValue::Arr(vec![])), "[]");
    assert_eq!(to_pretty(&JsonValue::Obj(vec![])), "{}");
    assert_eq!(to_pretty(&JsonValue::Str("a\"b".to_string())), "\"a\\\"b\"");
    assert_eq!(to_pretty(&JsonValue::Str("\u{1}".to_string())), "\"\\u0001\"");
}

#[test]
fn pretty_then_parse_round_trips() {
    let cases = vec![
        JsonValue::Null,
        JsonValue::Bool(true),
        JsonValue::Num("-12.5e-2".to_string()),
        JsonValue::Str("line\nbreak \"quoted\" back\\slash \u{3} tab\t".to_string()),
        JsonValue::Arr(vec![]),
        JsonValue::Obj(vec![]),
        obj(vec![
            ("empty", JsonValue::Arr(vec![])),
            (
                "nested",
                JsonValue::Arr(vec![
                    JsonValue::Num("0".to_string()),
                    obj(vec![("deep", JsonValue::Arr(vec![JsonValue::Null]))]),
                ]),
            ),
            ("s", JsonValue::Str("x".to_string())),
        ]),
    ];
    for v in cases {
        let printed = to_pretty(&v);
        let back = parse_json(&printed).unwrap();
        assert_eq!(back, v);
    }
}

#[test]
fn pretty_output_is_valid_json_for_serde() {
    let v = obj(vec![
        ("k", JsonValue::Str("a\n\"b\\".to_string())),
        ("n", JsonValue::Num("-2.5e1".to_string())),
        ("l", JsonValue::Arr(vec![JsonValue::Bool(false), JsonValue::Null])),
    ]);
    let printed = to_pretty(&v);
    let parsed: serde_json::Value = serde_json::from_str(&printed).unwrap();
    assert_eq!(parsed["k"], serde_json::Value::String("a\n\"b\\".to_string()));
    assert_eq!(parsed["l"].as_array().unwrap().len(), 2);
}

#[test]
fn serde_output_is_parsed_the_same() {
    let text = "{\"w\": null, \"x\": [1, {\"y\": \"z\"}]}";
    let sv: serde_json::Value = serde_json::from_str(text).unwrap();
    let ours = parse_json(text).unwrap();
    let reparsed = parse_json(&serde_json::to_string_pretty(&sv).unwrap()).unwrap();
    assert_eq!(ours, reparsed);
}
