//! Text utilities: diffs, ranges, UTF-16 column conversion, SHA-1 and a
//! TF-IDF search index, with their behaviour stated and proved.
pub mod chars;
pub mod diff;
pub mod json;
pub mod position;
pub mod range;
pub mod sha1;
pub mod terms;
pub mod tfidf;
pub mod utf16;

pub use diff::{compute_diff, compute_line_diff, merge_adjacent_changes, DiffChange, LineDiff};
pub use position::Position;
pub use range::Range;
pub use utf16::{char_col_to_utf16_col, lsp_position_to_position, position_to_lsp_position, utf16_col_to_char_col, Utf16Position};
pub use sha1::{sha1_hash, Sha1};
