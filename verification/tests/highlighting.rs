use std::collections::HashSet;
use gcode_editor::highlight::{color_role, highlight_pieces, ColorRole, Piece};
use gcode_editor::TokenType;

fn default_axes() -> HashSet<char> {
    ['X', 'Y', 'Z', 'E'].into_iter().collect()
}

fn default_overrides() -> Vec<char> {
    vec!['X', 'Y', 'Z', 'E']
}

/// The role of the piece whose text is exactly `tok`.
fn role_of_piece(input: &str, pieces: &[Piece], overrides: &[char], tok: &str) -> Option<ColorRole> {
    for p in pieces {
        if let Piece::Text { start, end, token } = p {
            if *end <= input.len() && &input[*start..*end] == tok {
                return Some(match token {
                    Some(t) => color_role(*t, overrides),
                    None => ColorRole::White,
                });
            }
        }
    }
    None
}

#[test]
fn test_highlight_single_g() {
    let pieces = highlight_pieces("G", &default_axes());
    assert!(!pieces.is_empty());
}

#[test]
fn test_color_mapping_axes_and_p() {
    let mut axes = default_axes();
    axes.insert('A');
    let overrides = vec!['X', 'Y', 'Z', 'E', 'A'];
    let input = "X1 Y2 Z3 E4 P5 A10";
    let pieces = highlight_pieces(input, &axes);
    let find = |tok: &str| role_of_piece(input, &pieces, &overrides, tok);
    assert_eq!(find("X1"), Some(color_role(TokenType::AxisNamed('X'), &overrides)));
    assert_eq!(find("Y2"), Some(color_role(TokenType::AxisNamed('Y'), &overrides)));
    assert_eq!(find("Z3"), Some(color_role(TokenType::AxisNamed('Z'), &overrides)));
    assert_eq!(find("E4"), Some(color_role(TokenType::AxisNamed('E'), &overrides)));
    assert_eq!(find("P5"), Some(color_role(TokenType::ParameterP, &overrides)));
    assert_eq!(find("A10"), Some(color_role(TokenType::AxisNamed('A'), &overrides)));
    assert_eq!(find("A10"), Some(ColorRole::AxisOverride('A')));
}

#[test]
fn test_color_mapping_gmo_and_number() {
    let overrides = default_overrides();
    let input = "G1 M3 O100 123.45";
    let pieces = highlight_pieces(input, &default_axes());
    let find = |tok: &str| role_of_piece(input, &pieces, &overrides, tok);
    assert_eq!(find("G1"), Some(color_role(TokenType::GCode, &overrides)));
    assert_eq!(find("M3"), Some(color_role(TokenType::MCode, &overrides)));
    assert_eq!(find("O100"), Some(color_role(TokenType::OCode, &overrides)));
    assert_eq!(find("123.45"), Some(color_role(TokenType::Number, &overrides)));
}

#[test]
fn test_color_for_axis_fallback() {
    let overrides = vec!['Y', 'Z', 'E'];
    assert_eq!(color_role(TokenType::AxisNamed('X'), &overrides), ColorRole::Axis);
    assert_eq!(color_role(TokenType::AxisNamed('x'), &default_overrides()), ColorRole::AxisOverride('X'));
    assert_eq!(color_role(TokenType::Unknown, &overrides), ColorRole::White);
}

#[test]
fn test_highlight_custom_axis_section() {
    let mut axes = default_axes();
    axes.insert('A');
    let overrides = vec!['X', 'Y', 'Z', 'E', 'A'];
    let input = "A1 X1";
    let pieces = highlight_pieces(input, &axes);
    assert_eq!(
        role_of_piece(input, &pieces, &overrides, "A1"),
        Some(ColorRole::AxisOverride('A'))
    );
}

#[test]
fn test_highlight_key_value_section() {
    let overrides = default_overrides();
    let input = "FOO=1 BAR=2.0 NAME=\"x\"";
    let pieces = highlight_pieces(input, &default_axes());
    let find = |tok: &str| role_of_piece(input, &pieces, &overrides, tok);
    assert_eq!(find("FOO"), Some(color_role(TokenType::ParameterKey, &overrides)));
    assert_eq!(find("="), Some(color_role(TokenType::Operator, &overrides)));
    assert_eq!(find("1"), Some(color_role(TokenType::ParameterValue, &overrides)));
    assert_eq!(find("BAR"), Some(color_role(TokenType::ParameterKey, &overrides)));
    assert_eq!(find("2.0"), Some(color_role(TokenType::ParameterValue, &overrides)));
    assert_eq!(find("NAME"), Some(color_role(TokenType::ParameterKey, &overrides)));
    assert_eq!(find("\"x\""), Some(color_role(TokenType::ParameterValue, &overrides)));
}

#[test]
fn highlight_pieces_cover_lines_with_gaps_and_breaks() {
    let input = "G1 X2\n; c\r\nzz";
    let pieces = highlight_pieces(input, &default_axes());
    let expected = vec![
        Piece::Text { start: 0, end: 2, token: Some(TokenType::GCode) },
        Piece::Text { start: 2, end: 3, token: None },
        Piece::Text { start: 3, end: 5, token: Some(TokenType::AxisNamed('X')) },
        Piece::LineBreak,
        Piece::Text { start: 6, end: 9, token: Some(TokenType::Comment) },
        Piece::LineBreak,
        Piece::Text { start: 11, end: 13, token: Some(TokenType::Variable) },
        Piece::LineBreak,
    ];
    assert_eq!(pieces, expected);
}

#[test]
fn highlight_trailing_text_is_plain() {
    let input = "G1 ";
    let pieces = highlight_pieces(input, &default_axes());
    assert_eq!(
        pieces,
        vec![
            Piece::Text { start: 0, end: 2, token: Some(TokenType::GCode) },
            Piece::Text { start: 2, end: 3, token: None },
            Piece::LineBreak,
        ]
    );
    assert!(highlight_pieces("", &default_axes()).is_empty());
}

#[test]
fn highlight_gap_before_empty_token_is_repeated() {
    // "A= ;": the value after '=' is empty (it stops at ';'), and the gap before it
    // is emitted once for the empty value and once for the comment that follows.
    let input = "A= ;";
    let pieces = highlight_pieces(input, &default_axes());
    assert_eq!(
        pieces,
        vec![
            Piece::Text { start: 0, end: 1, token: Some(TokenType::ParameterKey) },
            Piece::Text { start: 1, end: 2, token: Some(TokenType::Operator) },
            Piece::Text { start: 2, end: 3, token: None },
            Piece::Text { start: 2, end: 3, token: None },
            Piece::Text { start: 3, end: 4, token: Some(TokenType::Comment) },
            Piece::LineBreak,
        ]
    );
}

#[test]
fn highlight_pieces_are_byte_ranges_of_non_ascii_text() {
    let input = "; é";
    let pieces = highlight_pieces(input, &default_axes());
    assert_eq!(
        pieces,
        vec![Piece::Text { start: 0, end: 4, token: Some(TokenType::Comment) }, Piece::LineBreak]
    );
    assert_eq!(&input[0..4], "; é");
}

#[test]
fn highlight_colours_stay_on_their_tokens_after_non_ascii_chars() {
    let input = "(ü) G1 X2\nüü\n;ß";
    let overrides = default_overrides();
    let pieces = highlight_pieces(input, &default_axes());
    let mut rebuilt = String::new();
    for p in &pieces {
        match p {
            Piece::Text { start, end, .. } => {
                assert!(start < end && input.is_char_boundary(*start) && input.is_char_boundary(*end));
                rebuilt.push_str(&input[*start..*end]);
            }
            Piece::LineBreak => rebuilt.push('\n'),
        }
    }
    assert_eq!(rebuilt, format!("{}\n", input));
    let find = |tok: &str| role_of_piece(input, &pieces, &overrides, tok);
    assert_eq!(find("(ü)"), Some(ColorRole::Comment));
    assert_eq!(find("G1"), Some(ColorRole::GCode));
    assert_eq!(find("X2"), Some(ColorRole::AxisOverride('X')));
    assert_eq!(find(";ß"), Some(ColorRole::Comment));
}
