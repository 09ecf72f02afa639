use crow_text::{
    char_col_to_utf16_col, lsp_position_to_position, position_to_lsp_position, utf16_col_to_char_col,
    Position, Utf16Position,
};

#[test]
fn column_round_trip_every_char() {
    let text = "x😀y𐍈z你";
    let n = text.chars().count();
    for c in 0..=n {
        let u = char_col_to_utf16_col(text, c);
        assert_eq!(utf16_col_to_char_col(text, u), c);
    }
    assert_eq!(char_col_to_utf16_col(text, 100), 8);
}

#[test]
fn utf16_column_inside_surrogate_pair_rounds_up() {
    let text = "a😀b";
    assert_eq!(utf16_col_to_char_col(text, 2), 2);
}

#[test]
fn lsp_positions() {
    let p = position_to_lsp_position("😀😀x", Position::new(7, 2));
    assert_eq!(p, Utf16Position::new(7, 4));
    assert_eq!(lsp_position_to_position("😀😀x", p), Position::new(7, 2));
    assert_eq!(Utf16Position::new(1, 2).character, 2);
}
