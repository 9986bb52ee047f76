use lib::json::{escape, parse, serialize, Json, JsonNumber};

fn text_of(v: &Json) -> String {
    serialize(v)
}

#[test]
fn parses_nested_document() {
    let v = parse(" { \"a\" : [1, -2.5e3, true, false, null], \"b\": {\"c\": \"d\"} } ").unwrap();
    assert_eq!(text_of(&v), "{\"a\":[1,-2.5e3,true,false,null],\"b\":{\"c\":\"d\"}}");
    let a = v.get("a").unwrap().as_array().unwrap();
    assert_eq!(a.len(), 5);
    assert_eq!(a[0].as_number().unwrap().text(), "1");
    assert_eq!(a[2].as_bool(), Some(true));
    assert_eq!(v.get("b").unwrap().get("c").unwrap().as_str(), Some("d"));
    assert!(v.get("missing").is_none());
    assert!(a[0].get("a").is_none());
}

#[test]
fn get_returns_first_member_with_the_key() {
    let v = parse("{\"k\": 1, \"k\": 2}").unwrap();
    assert_eq!(v.get("k").unwrap().as_number().unwrap().text(), "1");
}

#[test]
fn empty_containers() {
    assert_eq!(text_of(&parse("[]").unwrap()), "[]");
    assert_eq!(text_of(&parse("{ }").unwrap()), "{}");
    assert_eq!(text_of(&parse("[ ]").unwrap()), "[]");
}

#[test]
fn string_escapes_are_decoded() {
    let v = parse(r#""a\"b\\c\/d\b\f\n\r\t\u0041\u00e9""#).unwrap();
    assert_eq!(v.as_str(), Some("a\"b\\c/d\u{8}\u{c}\n\r\tAé"));
}

#[test]
fn unicode_escape_accepts_a_plus_sign_like_from_str_radix() {
    let v = parse(r#""\u+041""#).unwrap();
    assert_eq!(v.as_str(), Some("A"));
}

#[test]
fn surrogate_escapes_are_dropped() {
    let v = parse(r#""x\ud83d\ude00y""#).unwrap();
    assert_eq!(v.as_str(), Some("xy"));
}

#[test]
fn raw_multibyte_text_is_kept() {
    let v = parse("\"日本 ✓ 😀\"").unwrap();
    assert_eq!(v.as_str(), Some("日本 ✓ 😀"));
}

#[test]
fn numbers_follow_the_float_grammar() {
    assert_eq!(parse("1.").unwrap().as_number().unwrap().text(), "1.");
    assert_eq!(parse("-0.5E+3").unwrap().as_number().unwrap().text(), "-0.5E+3");
    let e = parse("-").err().unwrap();
    assert_eq!(e.message, "invalid number");
    assert_eq!(e.pos, 1);
    let e = parse("1e").err().unwrap();
    assert_eq!(e.message, "invalid number");
    assert_eq!(e.pos, 2);
    let e = parse("[-.]").err().unwrap();
    assert_eq!(e.message, "invalid number");
    assert_eq!(e.pos, 3);
}

#[test]
fn errors_name_message_and_byte() {
    let cases: Vec<(&str, &str, usize)> = vec![
        ("", "unexpected end of input", 0),
        ("   ", "unexpected end of input", 3),
        ("1 2", "trailing data after JSON value", 2),
        ("x", "unexpected character", 0),
        ("tru", "expected 'true'", 0),
        ("nul", "expected 'null'", 0),
        ("[1 2]", "expected ',' or ']' in array", 3),
        ("{\"a\" 1}", "expected ':'", 5),
        ("{\"a\":1 \"b\":2}", "expected ',' or '}' in object", 7),
        ("{1:2}", "expected '\"'", 1),
        ("{\"a\":1,}", "expected '\"'", 7),
        ("\"abc", "unterminated string", 4),
        ("\"a\\q\"", "invalid escape sequence", 3),
        ("\"\\u12zz\"", "invalid unicode escape", 3),
        ("\"\\u12", "truncated unicode escape", 3),
        ("[1,", "unexpected end of input", 3),
    ];
    for (input, message, pos) in cases {
        let e = parse(input).err().unwrap();
        assert_eq!(e.message, message, "input {:?}", input);
        assert_eq!(e.pos, pos, "input {:?}", input);
    }
}

#[test]
fn parse_error_text() {
    let e = parse("{\"a\" 1}").err().unwrap();
    assert_eq!(e.to_string(), "expected ':' (at byte 5)");
    let e = parse("[1 2]").err().unwrap();
    assert_eq!(e.to_string(), "expected ',' or ']' in array (at byte 3)");
}

#[test]
fn escape_short_forms_and_control_characters() {
    assert_eq!(escape("plain"), "plain");
    assert_eq!(escape("a\"b\\c"), "a\\\"b\\\\c");
    assert_eq!(escape("\n\r\t"), "\\n\\r\\t");
    assert_eq!(escape("\u{1}\u{1f}"), "\\u0001\\u001f");
    assert_eq!(escape("é✓"), "é✓");
    assert_eq!(escape(""), "");
}

#[test]
fn escaped_text_reads_back() {
    for s in ["", "plain", "quote \" and \\ slash", "lines\nand\ttabs\r", "\u{0}\u{7}\u{1b}", "ünï ✓ 😀"] {
        let doc = format!("\"{}\"", escape(s));
        assert_eq!(parse(&doc).unwrap().as_str(), Some(s));
    }
}

#[test]
fn serialized_documents_read_back() {
    let doc = "{\"name\":\"x\\ny\",\"n\":[0,-1.5,2e10],\"t\":true,\"z\":null,\"o\":{}}";
    let v = parse(doc).unwrap();
    assert_eq!(serialize(&v), doc);
}

#[test]
fn number_tokens() {
    assert!(JsonNumber::new("12.5e-3").is_some());
    assert!(JsonNumber::new(".5").is_none());
    assert!(JsonNumber::new("-.5").is_some());
    assert!(JsonNumber::new("").is_none());
    assert!(JsonNumber::new("+1").is_none());
    assert!(JsonNumber::new("1e").is_none());
    assert!(JsonNumber::new("1 ").is_none());
    assert_eq!(JsonNumber::new("-7").unwrap().as_bytes(), b"-7");
    let v = Json::Array(vec![Json::Number(JsonNumber::new("3").unwrap()), Json::String("s".to_string())]);
    assert_eq!(serialize(&v), "[3,\"s\"]");
}

#[test]
fn built_values_read_back_after_serializing() {
    let v = Json::Object(vec![
        ("k\u{1}\"".to_string(), Json::Array(vec![])),
        ("".to_string(), Json::Number(JsonNumber::new("-0.25E+7").unwrap())),
        (
            "nested".to_string(),
            Json::Array(vec![Json::Object(vec![]), Json::Bool(false), Json::String("tab\there ✓".to_string())]),
        ),
    ]);
    let text = serialize(&v);
    assert_eq!(text, "{\"k\\u0001\\\"\":[],\"\":-0.25E+7,\"nested\":[{},false,\"tab\\there ✓\"]}");
    let back = parse(&text).unwrap();
    assert_eq!(serialize(&back), text);
    assert_eq!(back.get("nested").unwrap().as_array().unwrap().len(), 3);
    assert_eq!(back.get("k\u{1}\"").unwrap().as_array().unwrap().len(), 0);
}

#[test]
fn text_input_never_reports_invalid_utf8() {
    for doc in ["\"ünï ✓", "[\"😀\",", "{\"é\":tru}", "\"\\u12\"", "\"a\\q\"", "  ", "[1,2]x", "\"✓\" ✓", "-"] {
        let e = parse(doc).err().unwrap();
        assert_ne!(e.message, "invalid utf-8 in string", "{:?}", doc);
        assert!(e.pos <= doc.len(), "{:?}", doc);
    }
    assert_eq!(parse("[\"ünï ✓\",\"😀\"]").unwrap().as_array().unwrap()[1].as_str(), Some("😀"));
}
