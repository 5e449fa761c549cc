//! A G-code editing component: tokenizer, text position mapping, and the
//! editor state model used by the egui front end.

pub mod display;
pub mod editor;
pub mod highlight;
pub mod text;
pub mod tokenizer;

pub use display::{EditorChangeEvent, EditorEvent};
pub use editor::{EditorState, ErrorRange};
pub use text::{byte_index_to_line_col, line_col_to_byte_index};
pub use tokenizer::{tokenize_line_pure_rust, Token, TokenType};
