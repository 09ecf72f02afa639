use crow_text::json::{escape_json_string, parse_string_array};

fn strings(v: &[&str]) -> Option<Vec<String>> {
    Some(v.iter().map(|s| s.to_string()).collect())
}

#[test]
fn parse_empty_arrays() {
    assert_eq!(parse_string_array("[]"), strings(&[]));
    assert_eq!(parse_string_array("  [  \n ]  "), strings(&[]));
}

#[test]
fn parse_strings() {
    assert_eq!(parse_string_array("[\"a\", \"b\"]"), strings(&["a", "b"]));
    assert_eq!(parse_string_array(" [ \"hello world\" ] "), strings(&["hello world"]));
}

#[test]
fn parse_escapes() {
    assert_eq!(parse_string_array(r#"["x\ny"]"#), strings(&["x\ny"]));
    assert_eq!(parse_string_array(r#"["q\"t\\s\/"]"#), strings(&["q\"t\\s/"]));
    assert_eq!(parse_string_array(r#"["\t\r"]"#), strings(&["\t\r"]));
    // Other escapes are kept as written.
    assert_eq!(parse_string_array(r#"["\q"]"#), strings(&["\\q"]));
}

#[test]
fn parse_trailing_comma() {
    assert_eq!(parse_string_array("[\"a\",]"), strings(&["a"]));
}

#[test]
fn parse_errors() {
    assert_eq!(parse_string_array("[\"a\" \"b\"]"), None);
    assert_eq!(parse_string_array("[1]"), None);
    assert_eq!(parse_string_array("abc"), None);
    assert_eq!(parse_string_array("["), None);
    assert_eq!(parse_string_array(""), None);
    assert_eq!(parse_string_array("[\"unterminated]"), None);
    assert_eq!(parse_string_array("[\"a\\"), None);
}

#[test]
fn escape_specials() {
    assert_eq!(escape_json_string("plain"), "plain");
    assert_eq!(escape_json_string("a\"b"), "a\\\"b");
    assert_eq!(escape_json_string("a\\b"), "a\\\\b");
    assert_eq!(escape_json_string("l1\nl2\r\t"), "l1\\nl2\\r\\t");
    assert_eq!(escape_json_string("\u{1}\u{1f}"), "\\u0001\\u001f");
    assert_eq!(escape_json_string("é😀"), "é😀");
}

#[test]
fn escape_then_parse() {
    let text = "say \"hi\"\\ and\nbye\t";
    let json = format!("[\"{}\"]", escape_json_string(text));
    assert_eq!(parse_string_array(&json), strings(&[text]));
}

#[test]
fn escaped_strings_read_back() {
    for s in ["plain", "quote \" and backslash \\", "lines\nand\ttabs\r", "slash / é ü", ""] {
        let json = format!("[\"{}\"]", escape_json_string(s));
        assert_eq!(parse_string_array(&json), strings(&[s]));
    }
}

#[test]
fn blank_around_array_is_trimmed() {
    assert_eq!(parse_string_array(" \u{3000}[\u{2028}\"a\"\t]\u{a0}\n"), strings(&["a"]));
    assert_eq!(parse_string_array("\u{1680}[]"), strings(&[]));
}

#[test]
fn white_space_matches_std() {
    for u in 0u32..=0x10FFFF {
        if let Some(c) = char::from_u32(u) {
            assert_eq!(crow_text::chars::char_is_whitespace(c), c.is_whitespace(), "U+{u:04X}");
        }
    }
}
