use houdini_launcher::json::{parse_json, write_json, Json};

#[test]
fn parsing_gives_the_tree_of_the_document() {
    let tree = parse_json(r#"{"a": [1, "x", null, false], "b": {"c": 2.5}}"#).unwrap();
    let Json::Object(members) = tree else { panic!("an object") };
    assert_eq!(members.len(), 2);
    assert_eq!(members[0].0, "a");
    let Json::Array(items) = &members[0].1 else { panic!("an array") };
    assert_eq!(items.len(), 4);
    assert!(matches!(&items[0], Json::Number(n) if n.to_string() == "1"));
    assert!(matches!(&items[1], Json::Text(t) if t == "x"));
    assert!(matches!(&items[2], Json::Null));
    assert!(matches!(&items[3], Json::Bool(false)));
    let Json::Object(inner) = &members[1].1 else { panic!("an object") };
    assert!(matches!(&inner[0], (key, Json::Number(n)) if key == "c" && n.to_string() == "2.5"));
}

#[test]
fn text_that_is_no_json_gives_the_parsers_message() {
    let message = parse_json("{ nope").unwrap_err();
    assert!(!message.is_empty());
    assert!(parse_json("").is_err());
}

#[test]
fn writing_gives_indented_json() {
    let tree = parse_json(r#"{"a":[1,"x"],"b":null}"#).unwrap();
    let text = write_json(tree).unwrap();
    assert_eq!(text, "{\n  \"a\": [\n    1,\n    \"x\"\n  ],\n  \"b\": null\n}");
}

#[test]
fn writing_then_parsing_gives_the_tree_back() {
    let source = r#"{"z":{"k":[true,false,null,-4,"t"]},"a":"é"}"#;
    let text = write_json(parse_json(source).unwrap()).unwrap();
    let again = write_json(parse_json(&text).unwrap()).unwrap();
    assert_eq!(text, again);
    let value: serde_json::Value = serde_json::from_str(source).unwrap();
    assert_eq!(text, serde_json::to_string_pretty(&value).unwrap());
}

#[test]
fn field_reads_the_member_with_the_key() {
    let tree = parse_json(r#"{"a":1,"b":"x"}"#).unwrap();
    assert!(matches!(tree.field("b"), Some(Json::Text(t)) if t == "x"));
    assert!(tree.field("c").is_none());
    assert!(tree.field("").is_none());
    assert!(parse_json("[1]").unwrap().field("a").is_none());
    assert!(Json::Null.field("a").is_none());
}

#[test]
fn of_members_with_one_key_the_last_counts() {
    let tree = Json::Object(vec![
        ("k".to_string(), Json::Bool(true)),
        ("k".to_string(), Json::Bool(false)),
    ]);
    assert!(matches!(tree.field("k"), Some(Json::Bool(false))));
    let Ok(Json::Object(members)) = tree.with_field("k".to_string(), Json::Null) else {
        panic!("an object takes fields")
    };
    assert!(matches!(members[0].1, Json::Bool(true)));
    assert!(matches!(members[1].1, Json::Null));
    assert_eq!(members.len(), 2);
}

#[test]
fn with_field_replaces_or_appends_a_member() {
    let tree = parse_json(r#"{"a":1,"b":2}"#).unwrap();
    let Ok(Json::Object(members)) = tree.with_field("a".to_string(), Json::Bool(true)) else {
        panic!("an object takes fields")
    };
    assert_eq!(members.len(), 2);
    assert!(matches!(&members[0], (key, Json::Bool(true)) if key == "a"));
    let Ok(Json::Object(members)) =
        Json::Object(members).with_field("c".to_string(), Json::Null)
    else {
        panic!("an object takes fields")
    };
    assert_eq!(members.len(), 3);
    assert!(matches!(&members[2], (key, Json::Null) if key == "c"));
}

#[test]
fn null_takes_a_field_and_becomes_an_object() {
    let Ok(Json::Object(members)) = Json::Null.with_field("a".to_string(), Json::Bool(true)) else {
        panic!("null takes fields")
    };
    assert_eq!(members.len(), 1);
}

#[test]
fn other_values_take_no_field_and_come_back_unchanged() {
    let back = Json::Text("t".to_string()).with_field("a".to_string(), Json::Null);
    assert!(matches!(back, Err(Json::Text(t)) if t == "t"));
    let back = Json::Array(Vec::new()).with_field("a".to_string(), Json::Null);
    assert!(matches!(back, Err(Json::Array(_))));
    let back = Json::Bool(true).with_field("a".to_string(), Json::Null);
    assert!(matches!(back, Err(Json::Bool(true))));
}

#[test]
fn a_clone_holds_what_the_tree_holds() {
    let source = r#"{"a":[1,{"b":null},"x"],"c":{"d":[true,2.5]}}"#;
    let tree = parse_json(source).unwrap();
    let copy = tree.clone();
    assert_eq!(write_json(copy).unwrap(), write_json(tree).unwrap());
}

#[test]
fn every_tree_can_be_written() {
    let number = |text: &str| match parse_json(text).unwrap() {
        Json::Number(n) => Json::Number(n),
        _ => panic!("a number"),
    };
    let trees = vec![
        Json::Null,
        Json::Bool(true),
        number("-0.5e3"),
        number("18446744073709551615"),
        Json::Text("line\nbreak \"quoted\" \u{1F600}".to_string()),
        Json::Array(Vec::new()),
        Json::Object(Vec::new()),
        Json::Object(vec![
            ("".to_string(), Json::Null),
            ("k".to_string(), Json::Bool(true)),
            ("k".to_string(), Json::Array(vec![Json::Object(Vec::new()), Json::Null])),
        ]),
    ];
    for tree in trees {
        let text = write_json(tree.clone()).expect("every tree is written");
        let again = write_json(parse_json(&text).expect("what is written is JSON"));
        assert_eq!(again, Ok(text));
    }
}
