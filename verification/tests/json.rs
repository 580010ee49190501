use evm_extractor::json::{parse_json, parse_json_list, Json};

fn text(value: &str) -> Json {
    Json::Text(value.to_string())
}

fn field(key: &str, value: Json) -> (String, Json) {
    (key.to_string(), value)
}

#[test]
fn documents_of_every_kind_are_read() {
    let json = parse_json(
        r#" {"b": [null, true, "x\né"], "a": {"n": 12, "m": -3, "f": 1.5}, "e": {}, "l": []} "#,
    )
    .unwrap();
    let expected = Json::Object(vec![
        field(
            "a",
            Json::Object(vec![
                field("f", Json::Number("1.5".to_string())),
                field("m", Json::Number("-3".to_string())),
                field("n", Json::Number("12".to_string())),
            ]),
        ),
        field("b", Json::Array(vec![Json::Null, Json::Bool(true), text("x\né")])),
        field("e", Json::Object(vec![])),
        field("l", Json::Array(vec![])),
    ]);
    assert_eq!(json, expected);
}

#[test]
fn members_are_found_by_their_key() {
    let json = parse_json(r#"{"result": "0x10", "list": [1], "none": null}"#).unwrap();
    assert_eq!(json.get("result"), Some(&text("0x10")));
    assert_eq!(json.get_str("result"), Some("0x10"));
    assert_eq!(json.get("missing"), None);
    assert_eq!(json.get_str("list"), None);
    assert_eq!(json.get("list").unwrap().as_array().unwrap().len(), 1);
    assert!(json.get("none").unwrap().is_null());
    assert!(!json.is_null());
    assert_eq!(json.as_str(), None);
    assert!(json.as_array().is_none());
    assert_eq!(text("result").get("result"), None);
    assert_eq!(Json::Array(vec![]).get("0"), None);
}

#[test]
fn the_last_of_two_equal_keys_counts_and_each_key_occurs_once() {
    let json = parse_json(r#"{"k": 1, "j": 2, "k": 3}"#).unwrap();
    let expected = Json::Object(vec![
        field("j", Json::Number("2".to_string())),
        field("k", Json::Number("3".to_string())),
    ]);
    assert_eq!(json, expected);
}

#[test]
fn in_a_tree_made_by_hand_the_first_of_two_equal_keys_is_found() {
    let json = Json::Object(vec![field("k", text("first")), field("k", text("second"))]);
    assert_eq!(json.get_str("k"), Some("first"));
}

#[test]
fn what_is_no_document_is_refused_in_the_words_of_the_parser() {
    for body in ["", "{", "nul", "[1,]", "{} {}", "\"\u{1}\""] {
        let expected = serde_json::from_str::<serde_json::Value>(body).unwrap_err().to_string();
        assert_eq!(parse_json(body), Err(expected), "{body}");
    }
    assert_eq!(parse_json("nulx"), Err("expected ident at line 1 column 4".to_string()));
}

#[test]
fn only_an_array_is_read_as_a_list() {
    assert_eq!(parse_json_list("[]"), Ok(vec![]));
    assert_eq!(parse_json_list(r#"["a", null]"#), Ok(vec![text("a"), Json::Null]));
    for body in ["", "{}", "null", "[", "[1] 2"] {
        let expected = serde_json::from_str::<Vec<serde_json::Value>>(body).unwrap_err().to_string();
        assert_eq!(parse_json_list(body), Err(expected), "{body}");
    }
}
