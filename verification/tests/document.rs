use appopt::document::{get_in, is_readable, parse, pretty, text_of, texts_in, Json};

#[test]
fn documents_are_read() {
    let doc = parse(r#" {"a": [1, true, null, "x\ny"], "b": {"c": false}} "#).unwrap();
    let a = doc.get("a").unwrap();
    assert!(matches!(a.at(0), Some(Json::Number(_))));
    assert!(matches!(a.at(1), Some(Json::Bool(true))));
    assert!(matches!(a.at(2), Some(Json::Null)));
    assert_eq!(a.at(3).unwrap().as_text(), Some("x\ny"));
    assert!(a.at(4).is_none());
    assert!(matches!(get_in(doc.get("b"), "c"), Some(Json::Bool(false))));
    assert!(doc.get("z").is_none());
    assert_eq!(texts_in(doc.get("a")), vec![String::from("x\ny")]);
    assert_eq!(text_of(a.at(0)), None);
}

#[test]
fn other_texts_are_refused() {
    assert!(parse("").is_none());
    assert!(parse("[1,").is_none());
    assert!(parse("[1] 2").is_none());
}

#[test]
fn last_of_equal_keys_counts() {
    let doc = parse(r#"{"a": "1", "b": "2", "a": "3"}"#).unwrap();
    assert_eq!(doc.get("a").unwrap().as_text(), Some("3"));
    match doc {
        Json::Object(v) => assert_eq!(v.len(), 2),
        _ => panic!("no object"),
    }
}

#[test]
fn documents_are_written() {
    let doc = Json::Array(vec![
        Json::Text(String::from("a\"b")),
        Json::Object(vec![(String::from("k"), Json::Bool(true))]),
        Json::Array(Vec::new()),
        Json::Null,
    ]);
    assert_eq!(
        pretty(&doc, 2),
        "[\n  \"a\\\"b\",\n  {\n    \"k\": true\n  },\n  [],\n  null\n]"
    );
}

#[test]
fn written_documents_read_back() {
    let doc = Json::Object(vec![
        (String::from("name"), Json::Text(String::from("\u{7ebf}\u{0}\t\u{1f600}"))),
        (
            String::from("list"),
            Json::Array(vec![Json::Text(String::from("x")), Json::Bool(false)]),
        ),
    ]);
    let text = pretty(&doc, 2);
    let back = parse(&text).unwrap();
    assert_eq!(
        back.get("name").unwrap().as_text(),
        Some("\u{7ebf}\u{0}\t\u{1f600}")
    );
    assert_eq!(back.get("list").unwrap().at(0).unwrap().as_text(), Some("x"));
    assert!(matches!(back.get("list").unwrap().at(1), Some(Json::Bool(false))));
}

#[test]
fn deep_documents_are_read_up_to_a_limit() {
    let deep = |n: usize| format!("{}1{}", "[".repeat(n), "]".repeat(n));
    assert!(parse(&deep(500)).is_some());
    assert!(parse(&deep(600)).is_none());
}

#[test]
fn long_fractions_are_not_readable() {
    let zeros = |n: usize| "0".repeat(n);
    assert!(is_readable("[1.5]"));
    assert!(is_readable(&format!("0.{}", zeros(32748))));
    assert!(!is_readable(&format!("0.{}", zeros(32749))));
    assert!(!is_readable(&format!("[-0.{}1]", zeros(32749))));
    // Only numbers that begin with a zero and a point are counted so.
    assert!(is_readable(&format!("1.{}", zeros(40000))));
    assert!(is_readable(&format!("10.{}", zeros(40000))));
    assert!(is_readable(&format!("[\"0.{}\"]", zeros(40000))));
    assert!(!is_readable(&format!("[\"\\\"\", 0.{}]", zeros(40000))));
    assert!(is_readable(&format!("[\"\\\" 0.{}\"]", zeros(40000))));
}

#[test]
fn readable_texts_are_read() {
    let zeros = |n: usize| "0".repeat(n);
    assert!(parse(&format!("0.{}", zeros(32748))).is_some());
    assert!(parse(&format!("0.{}99999999999999999999999", zeros(32748))).is_some());
    assert!(parse(&format!("1.{}", zeros(40000))).is_some());
    assert!(parse(&format!("[\"0.{}\"]", zeros(40000))).is_some());
}

#[test]
fn numbers_settle_after_one_writing() {
    let again = |t: &str| pretty(&parse(t).unwrap(), 2);
    let mut edges: Vec<i32> = (-60..=60).collect();
    edges.extend(32740..=32800);
    edges.extend(-32800..=-32740);
    let digits = [
        "0",
        "1",
        "9",
        "10",
        "12",
        "100",
        "5764607523034235",
        "576460752303423500",
        "1844674407370955161",
        "18446744073709551609",
        "18446744073709551615",
        "1844674407370955169",
        "99999999999999999999",
        "0.1",
        "0.00",
        "1.00000000000000000000",
        "1.8446744073709551615",
    ];
    for m in digits {
        for e in &edges {
            for sign in ["", "-"] {
                let first = again(&format!("{}{}e{}", sign, m, e));
                let second = again(&first);
                // What was read in the first text is written and read the same from then on.
                assert_eq!(again(&second), second, "{}{}e{}", sign, m, e);
                let (a, b) = (parse(&first).unwrap(), parse(&second).unwrap());
                match (a, b) {
                    (Json::Number(x), Json::Number(y)) => {
                        assert_eq!(x.as_parts(), y.as_parts(), "{}{}e{}", sign, m, e)
                    }
                    _ => panic!("no number"),
                }
            }
        }
    }
}
