use crow_text::{
    char_col_to_utf16_col, lsp_position_to_position, position_to_lsp_position, utf16_col_to_char_col,
    Position,
};

#[test]
fn ascii_roundtrip() {
    let text = "hello world";
    assert_eq!(utf16_col_to_char_col(text, 5), 5);
    assert_eq!(char_col_to_utf16_col(text, 5), 5);
}

#[test]
fn emoji_utf16_offset() {
    // U+1F600 is encoded as a surrogate pair in UTF-16 (2 code units)
    let text = "a😀b";
    assert_eq!(char_col_to_utf16_col(text, 0), 0);
    assert_eq!(char_col_to_utf16_col(text, 1), 1);
    assert_eq!(char_col_to_utf16_col(text, 2), 3);

    assert_eq!(utf16_col_to_char_col(text, 0), 0);
    assert_eq!(utf16_col_to_char_col(text, 1), 1);
    assert_eq!(utf16_col_to_char_col(text, 3), 2);
}

#[test]
fn cjk_characters() {
    let text = "你好世界";
    assert_eq!(char_col_to_utf16_col(text, 2), 2);
    assert_eq!(utf16_col_to_char_col(text, 2), 2);
}

#[test]
fn mixed_bmp_and_supplementary() {
    // U+10348 needs a surrogate pair in UTF-16
    let text = "a𐍈b";
    assert_eq!(char_col_to_utf16_col(text, 0), 0);
    assert_eq!(char_col_to_utf16_col(text, 1), 1);
    assert_eq!(char_col_to_utf16_col(text, 2), 3);
    assert_eq!(char_col_to_utf16_col(text, 3), 4);

    assert_eq!(utf16_col_to_char_col(text, 0), 0);
    assert_eq!(utf16_col_to_char_col(text, 1), 1);
    assert_eq!(utf16_col_to_char_col(text, 3), 2);
    assert_eq!(utf16_col_to_char_col(text, 4), 3);
}

#[test]
fn empty_string() {
    assert_eq!(utf16_col_to_char_col("", 0), 0);
    assert_eq!(char_col_to_utf16_col("", 0), 0);
}

#[test]
fn lsp_position_conversion_roundtrip() {
    let text = "a😀b";
    let pos = Position::new(3, 2);
    let lsp = position_to_lsp_position(text, pos);
    assert_eq!(lsp.line, 3);
    assert_eq!(lsp.character, 3);

    let back = lsp_position_to_position(text, lsp);
    assert_eq!(back, pos);
}

#[test]
fn utf16_col_past_end_clamps() {
    let text = "abc";
    assert_eq!(utf16_col_to_char_col(text, 100), 3);
}

#[test]
fn combining_characters() {
    // e + combining acute accent — two chars, both BMP
    let text = "e\u{0301}x";
    assert_eq!(char_col_to_utf16_col(text, 0), 0);
    assert_eq!(char_col_to_utf16_col(text, 1), 1);
    assert_eq!(char_col_to_utf16_col(text, 2), 2);
}

