use figure_catalog::json::{parse_json, Json};
use figure_catalog::parse::{
    extract_document, extract_model_actions, extract_tail_record, find_tail_record,
    line_is_record, parse_json_model, parse_jsonl_model, DescriptorKind, ParseError,
};

fn text(s: &str) -> Json {
    Json::Text(s.to_string())
}

fn object(members: Vec<(&str, Json)>) -> Json {
    Json::Object(members.into_iter().map(|(k, v)| (k.to_string(), v)).collect())
}

fn sorted(mut names: Vec<String>) -> Vec<String> {
    names.sort();
    names
}

fn strings(names: &[&str]) -> Vec<String> {
    names.iter().map(|s| s.to_string()).collect()
}

#[test]
fn a_document_is_read_into_a_tree() {
    let doc = parse_json(" {\"a\": [1, \"x\", null, true, {\"b\": {}}, -2.5e3]} ").unwrap();
    let expected = object(vec![(
        "a",
        Json::List(vec![
            Json::Number,
            text("x"),
            Json::Null,
            Json::Bool(true),
            object(vec![("b", object(vec![]))]),
            Json::Number,
        ]),
    )]);
    assert_eq!(doc, expected);
}

#[test]
fn a_document_keeps_the_last_of_two_members_with_one_key() {
    let doc = parse_json("{\"a\": 1, \"a\": \"x\"}").unwrap();
    assert_eq!(doc, object(vec![("a", text("x"))]));
}

#[test]
fn a_document_that_is_a_scalar() {
    assert_eq!(parse_json("\"text\""), Some(text("text")));
    assert_eq!(parse_json("null"), Some(Json::Null));
    assert_eq!(parse_json("false"), Some(Json::Bool(false)));
    assert_eq!(parse_json("17"), Some(Json::Number));
    assert_eq!(parse_json("\"\\u4e2d\\n\""), Some(text("\u{4e2d}\n")));
}

#[test]
fn a_text_that_is_no_document() {
    assert_eq!(parse_json(""), None);
    assert_eq!(parse_json("{"), None);
    assert_eq!(parse_json("{\"a\": }"), None);
    assert_eq!(parse_json("{} {}"), None);
    assert_eq!(parse_json("{'a': 1}"), None);
    assert_eq!(parse_json("[1, 2,]"), None);
}

#[test]
fn members_are_found_by_key() {
    let doc = object(vec![("a", Json::Number), ("b", text("x")), ("a", Json::Null)]);
    assert_eq!(doc.get("a"), Some(&Json::Number));
    assert_eq!(doc.get("b"), Some(&text("x")));
    assert_eq!(doc.get("c"), None);
    assert!(doc.contains_key("b"));
    assert!(!doc.contains_key("B"));
    assert_eq!(Json::List(vec![text("a")]).get("a"), None);
    assert_eq!(text("a").get("a"), None);
}

#[test]
fn plain_actions_are_the_keys_of_motions_and_the_names_of_expressions() {
    let doc = object(vec![
        ("motions", object(vec![("idle", Json::List(vec![])), ("walk", Json::Number)])),
        (
            "expressions",
            Json::List(vec![
                object(vec![("name", text("smile")), ("file", text("smile.exp.json"))]),
                object(vec![("file", text("nameless.exp.json"))]),
                object(vec![("name", Json::Number)]),
                text("angry"),
                object(vec![("name", text("smile"))]),
            ]),
        ),
    ]);
    let (motions, expressions) = extract_model_actions(&doc, DescriptorKind::Plain);
    assert_eq!(motions, strings(&["idle", "walk"]));
    assert_eq!(expressions, strings(&["smile", "smile"]));
}

#[test]
fn plain_actions_of_members_of_another_shape_are_none() {
    let doc = object(vec![("motions", Json::List(vec![text("idle")])), ("expressions", object(vec![]))]);
    let (motions, expressions) = extract_model_actions(&doc, DescriptorKind::Plain);
    assert!(motions.is_empty());
    assert!(expressions.is_empty());
    let (motions, expressions) = extract_model_actions(&Json::Null, DescriptorKind::Plain);
    assert!(motions.is_empty());
    assert!(expressions.is_empty());
}

#[test]
fn composite_actions_are_lists_of_strings() {
    let doc = object(vec![
        ("motions", Json::List(vec![text("idle"), Json::Number, text("walk"), text("idle")])),
        ("expressions", Json::List(vec![text("smile"), object(vec![("name", text("angry"))])])),
    ]);
    let (motions, expressions) = extract_model_actions(&doc, DescriptorKind::Composite);
    assert_eq!(motions, strings(&["idle", "walk", "idle"]));
    assert_eq!(expressions, strings(&["smile"]));
}

#[test]
fn composite_actions_of_an_object_of_motions_are_none() {
    let doc = object(vec![("motions", object(vec![("m1", Json::Number)]))]);
    let (motions, expressions) = extract_model_actions(&doc, DescriptorKind::Composite);
    assert!(motions.is_empty());
    assert!(expressions.is_empty());
}

#[test]
fn a_plain_descriptor_is_parsed() {
    let content = "{\"model\": \"m.moc\", \"motions\": {\"walk\": [], \"idle\": []}, \
                   \"expressions\": [{\"name\": \"smile\", \"file\": \"a\"}, {\"file\": \"b\"}]}";
    let (motions, expressions) = parse_json_model(content).unwrap();
    assert_eq!(sorted(motions), strings(&["idle", "walk"]));
    assert_eq!(expressions, strings(&["smile"]));
}

#[test]
fn a_plain_descriptor_without_actions() {
    assert_eq!(parse_json_model("{}"), Ok((vec![], vec![])));
    assert_eq!(parse_json_model("[]"), Ok((vec![], vec![])));
}

#[test]
fn a_plain_descriptor_that_is_no_document_is_malformed() {
    assert_eq!(parse_json_model("{\"motions\": "), Err(ParseError::Malformed));
    assert_eq!(parse_json_model(""), Err(ParseError::Malformed));
    assert_eq!(extract_document(&None), Err(ParseError::Malformed));
}

#[test]
fn a_composite_descriptor_is_read_from_its_last_record() {
    let content = "{\"motions\": [\"old\"]}\n\
                   {\"motions\": [\"idle\", \"walk\"], \"expressions\": [\"smile\"]}\n\
                   not json\n\
                   {\"other\": 1}\n";
    assert_eq!(
        parse_jsonl_model(content),
        Ok((strings(&["idle", "walk"]), strings(&["smile"])))
    );
}

#[test]
fn a_composite_record_needs_only_one_of_the_two_keys() {
    assert_eq!(
        parse_jsonl_model("{\"expressions\": [\"smile\"]}\r\n{}\r\n"),
        Ok((vec![], strings(&["smile"])))
    );
    assert_eq!(parse_jsonl_model("{\"motions\": null}"), Ok((vec![], vec![])));
}

#[test]
fn composite_tail_record_selection() {
    let content = "{\"motions\":{\"m1\":1}}\n{}\n{\"other\":1}";
    assert_eq!(parse_jsonl_model(content), Ok((vec![], vec![])));
}

#[test]
fn composite_tail_record_selection_on_parsed_lines() {
    let lines = vec![
        Some(object(vec![("motions", object(vec![("m1", Json::Number)]))])),
        Some(object(vec![])),
        Some(object(vec![("other", Json::Number)])),
    ];
    assert_eq!(find_tail_record(&lines), Some(0));
    assert_eq!(extract_tail_record(&lines), Ok((vec![], vec![])));
}

#[test]
fn the_last_record_wins_over_earlier_ones() {
    let lines = vec![
        Some(object(vec![("motions", Json::List(vec![text("first")]))])),
        None,
        Some(object(vec![("expressions", Json::List(vec![text("second")]))])),
        Some(Json::List(vec![])),
        None,
    ];
    assert_eq!(find_tail_record(&lines), Some(2));
    assert_eq!(extract_tail_record(&lines), Ok((vec![], strings(&["second"]))));
    assert!(line_is_record(&lines[0]));
    assert!(!line_is_record(&lines[1]));
    assert!(!line_is_record(&lines[3]));
}

#[test]
fn a_composite_descriptor_without_a_record_has_no_valid_record() {
    assert_eq!(parse_jsonl_model(""), Err(ParseError::NoValidRecord));
    assert_eq!(parse_jsonl_model("{}\n{\"other\": 1}\nnot json"), Err(ParseError::NoValidRecord));
    assert_eq!(parse_jsonl_model("[\"motions\"]"), Err(ParseError::NoValidRecord));
    assert_eq!(extract_tail_record(&vec![]), Err(ParseError::NoValidRecord));
    assert_eq!(find_tail_record(&vec![None, Some(Json::Null)]), None);
}

#[test]
fn a_record_split_over_two_lines_is_no_record() {
    assert_eq!(parse_jsonl_model("{\"motions\":\n[\"idle\"]}"), Err(ParseError::NoValidRecord));
}
