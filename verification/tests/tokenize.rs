use std::collections::HashSet;
use gcode_editor::tokenizer::{is_space_char, upper_char};
use gcode_editor::{tokenize_line_pure_rust, Token, TokenType};

fn text<'a>(line: &'a str, t: &Token) -> &'a str {
    &line[t.start..t.start + t.length]
}

#[test]
fn test_tokenize_simple() {
    let toks = tokenize_line_pure_rust("G1 X100 Y50", None);
    assert!(!toks.is_empty());
}

#[test]
fn test_tokenize_g0_x0_y0() {
    let line = "G0 X0 Y0";
    let toks = tokenize_line_pure_rust(line, None);
    assert_eq!(toks.len(), 3);
    assert_eq!(text(line, &toks[0]), "G0");
    assert_eq!(toks[0].token_type, TokenType::GCode);
    assert_eq!(text(line, &toks[1]), "X0");
    assert_eq!(toks[1].token_type, TokenType::AxisNamed('X'));
    assert_eq!(text(line, &toks[2]), "Y0");
    assert_eq!(toks[2].token_type, TokenType::AxisNamed('Y'));
}

#[test]
fn test_tokenize_x100y100() {
    let line = "X100Y100";
    let toks = tokenize_line_pure_rust(line, None);
    assert_eq!(toks.len(), 2);
    assert_eq!(text(line, &toks[0]), "X100");
    assert_eq!(toks[0].token_type, TokenType::AxisNamed('X'));
    assert_eq!(text(line, &toks[1]), "Y100");
    assert_eq!(toks[1].token_type, TokenType::AxisNamed('Y'));
}

#[test]
fn test_tokenize_f1500() {
    let line = "F1500";
    let toks = tokenize_line_pure_rust(line, None);
    assert_eq!(toks.len(), 1);
    assert_eq!(text(line, &toks[0]), "F1500");
    assert_eq!(toks[0].token_type, TokenType::Parameter);
}

#[test]
fn test_tokenize_xyze_p() {
    let line = "X10 Y20 Z-5 E1.5 P123";
    let toks = tokenize_line_pure_rust(line, None);
    assert_eq!(toks.len(), 5);
    assert_eq!(text(line, &toks[0]), "X10");
    assert_eq!(toks[0].token_type, TokenType::AxisNamed('X'));
    assert_eq!(text(line, &toks[1]), "Y20");
    assert_eq!(toks[1].token_type, TokenType::AxisNamed('Y'));
    assert_eq!(text(line, &toks[2]), "Z-5");
    assert_eq!(toks[2].token_type, TokenType::AxisNamed('Z'));
    assert_eq!(text(line, &toks[3]), "E1.5");
    assert_eq!(toks[3].token_type, TokenType::AxisNamed('E'));
    assert_eq!(text(line, &toks[4]), "P123");
    assert_eq!(toks[4].token_type, TokenType::ParameterP);
}

#[test]
fn test_tokenize_comments() {
    let line = "G0 X0 ; comment here";
    let toks = tokenize_line_pure_rust(line, None);
    assert!(toks.len() >= 3);
    let comment = toks.last().unwrap();
    assert_eq!(comment.token_type, TokenType::Comment);
    assert_eq!(text(line, comment), "; comment here");

    let line2 = "G0 (paren comment)";
    let toks2 = tokenize_line_pure_rust(line2, None);
    let comment2 = toks2.last().unwrap();
    assert_eq!(comment2.token_type, TokenType::Comment);
    assert_eq!(text(line2, comment2), "(paren comment)");
}

#[test]
fn test_tokenize_variables() {
    let line = "SET VAR1 10";
    let toks = tokenize_line_pure_rust(line, None);
    assert_eq!(toks.len(), 3);
    assert_eq!(text(line, &toks[0]), "SET");
    assert_eq!(toks[0].token_type, TokenType::Variable);
    assert_eq!(text(line, &toks[1]), "VAR1");
    assert_eq!(toks[1].token_type, TokenType::Variable);
    assert_eq!(toks[2].token_type, TokenType::Number);
}

#[test]
fn test_tokenize_custom_axis() {
    let mut axes = HashSet::new();
    axes.insert('A');
    let line = "A10 B1";
    let toks = tokenize_line_pure_rust(line, Some(&axes));
    assert_eq!(toks.len(), 2);
    assert_eq!(text(line, &toks[0]), "A10");
    assert_eq!(toks[0].token_type, TokenType::AxisNamed('A'));
    assert_eq!(text(line, &toks[1]), "B1");
    // 'B' is not in the axis set, so it is Unknown
    assert_eq!(toks[1].token_type, TokenType::Unknown);
}

#[test]
fn test_tokenize_key_value_simple() {
    let line = "FOO=1 BAR=2.5 BAZ=1,2";
    let toks = tokenize_line_pure_rust(line, None);
    assert_eq!(toks.len(), 9);
    assert_eq!(text(line, &toks[0]), "FOO");
    assert_eq!(toks[0].token_type, TokenType::ParameterKey);
    assert_eq!(text(line, &toks[1]), "=");
    assert_eq!(toks[1].token_type, TokenType::Operator);
    assert_eq!(text(line, &toks[2]), "1");
    assert_eq!(toks[2].token_type, TokenType::ParameterValue);
    assert_eq!(text(line, &toks[3]), "BAR");
    assert_eq!(toks[3].token_type, TokenType::ParameterKey);
    assert_eq!(text(line, &toks[4]), "=");
    assert_eq!(toks[4].token_type, TokenType::Operator);
    assert_eq!(text(line, &toks[5]), "2.5");
    assert_eq!(toks[5].token_type, TokenType::ParameterValue);
    assert_eq!(text(line, &toks[6]), "BAZ");
    assert_eq!(toks[6].token_type, TokenType::ParameterKey);
    assert_eq!(text(line, &toks[7]), "=");
    assert_eq!(toks[7].token_type, TokenType::Operator);
    assert_eq!(text(line, &toks[8]), "1,2");
    assert_eq!(toks[8].token_type, TokenType::ParameterValue);
}

#[test]
fn test_tokenize_key_value_string_and_vector() {
    let line = "NAME=\"John Doe\" V=[1, 2, 3] EMPTY=()";
    let toks = tokenize_line_pure_rust(line, None);
    assert_eq!(toks.len(), 9);
    assert_eq!(text(line, &toks[0]), "NAME");
    assert_eq!(toks[0].token_type, TokenType::ParameterKey);
    assert_eq!(text(line, &toks[1]), "=");
    assert_eq!(toks[1].token_type, TokenType::Operator);
    assert_eq!(text(line, &toks[2]), "\"John Doe\"");
    assert_eq!(toks[2].token_type, TokenType::ParameterValue);
    assert_eq!(text(line, &toks[3]), "V");
    assert_eq!(toks[3].token_type, TokenType::ParameterKey);
    assert_eq!(text(line, &toks[4]), "=");
    assert_eq!(toks[4].token_type, TokenType::Operator);
    assert_eq!(text(line, &toks[5]), "[1, 2, 3]");
    assert_eq!(toks[5].token_type, TokenType::ParameterValue);
    assert_eq!(text(line, &toks[6]), "EMPTY");
    assert_eq!(toks[6].token_type, TokenType::ParameterKey);
    assert_eq!(text(line, &toks[7]), "=");
    assert_eq!(toks[7].token_type, TokenType::Operator);
    assert_eq!(text(line, &toks[8]), "()");
    assert_eq!(toks[8].token_type, TokenType::ParameterValue);
}

fn kinds(line: &str, axes: Option<&HashSet<char>>) -> Vec<(String, TokenType)> {
    tokenize_line_pure_rust(line, axes)
        .iter()
        .map(|t| (line.chars().skip(t.start).take(t.length).collect::<String>(), t.token_type))
        .collect()
}

fn owned(v: &[(&str, TokenType)]) -> Vec<(String, TokenType)> {
    v.iter().map(|(s, t)| (s.to_string(), *t)).collect()
}

#[test]
fn tokenize_codes_lower_case_and_o_words() {
    assert_eq!(
        kinds("g1 m3 o100 M", None),
        owned(&[
            ("g1", TokenType::GCode),
            ("m3", TokenType::MCode),
            ("o100", TokenType::OCode),
            ("M", TokenType::MCode),
        ])
    );
    // G takes digits and dots only
    assert_eq!(
        kinds("G1.5X2", None),
        owned(&[("G1.5", TokenType::GCode), ("X2", TokenType::AxisNamed('X'))])
    );
}

#[test]
fn tokenize_lower_case_axis_is_named_upper() {
    assert_eq!(
        kinds("x1e-3 s200 t1 p2", None),
        owned(&[
            ("x1e-3", TokenType::AxisNamed('X')),
            ("s200", TokenType::Parameter),
            ("t1", TokenType::Parameter),
            ("p2", TokenType::ParameterP),
        ])
    );
}

#[test]
fn tokenize_numbers_and_signs() {
    assert_eq!(
        kinds("-1.5e+3 +2 .5", None),
        owned(&[
            ("-1.5e+3", TokenType::Number),
            ("+2", TokenType::Number),
            (".5", TokenType::Number),
        ])
    );
}

#[test]
fn tokenize_unclosed_paren_comment_runs_to_end() {
    assert_eq!(
        kinds("G0 (open", None),
        owned(&[("G0", TokenType::GCode), ("(open", TokenType::Comment)])
    );
}

#[test]
fn tokenize_key_value_with_spaces_and_bare_empty_value() {
    assert_eq!(
        kinds("KEY = 'q q'", None),
        owned(&[
            ("KEY", TokenType::ParameterKey),
            ("=", TokenType::Operator),
            ("'q q'", TokenType::ParameterValue),
        ])
    );
    // a value that starts with ';' is empty, and the ';' then starts a comment
    assert_eq!(
        kinds("A=;x", None),
        owned(&[
            ("A", TokenType::ParameterKey),
            ("=", TokenType::Operator),
            ("", TokenType::ParameterValue),
            (";x", TokenType::Comment),
        ])
    );
}

#[test]
fn tokenize_key_without_value_falls_back() {
    // nothing after '=': the word is a variable, '=' itself is skipped
    assert_eq!(kinds("ABC=", None), owned(&[("ABC", TokenType::Variable)]));
    assert_eq!(kinds("X=", None), owned(&[("X", TokenType::AxisNamed('X'))]));
    assert_eq!(
        kinds("B<1> Q", None),
        owned(&[("B<1>", TokenType::Unknown), ("Q", TokenType::Unknown)])
    );
}

#[test]
fn tokenize_default_axes_equal_explicit_ones() {
    let axes: HashSet<char> = ['X', 'Y', 'Z', 'E'].into_iter().collect();
    let line = "X1 Y2 Z3 E4 A5";
    assert_eq!(kinds(line, None), kinds(line, Some(&axes)));
    let none: HashSet<char> = HashSet::new();
    assert_eq!(
        kinds("X1", Some(&none)),
        owned(&[("X1", TokenType::Unknown)])
    );
}

#[test]
fn tokenize_tokens_are_ordered_and_inside_line() {
    let lines = [
        "G1 X10 Y-2.5 F3000 ; move",
        "NAME=\"a\" V=[1,2] (c) M3 S1000",
        "  ",
        "é X1 ünïcödé",
        "A=(1 2",
    ];
    for line in lines.iter() {
        let n = line.chars().count();
        let toks = tokenize_line_pure_rust(line, None);
        let mut end = 0;
        for t in &toks {
            assert!(t.start >= end);
            assert!(t.start + t.length <= n);
            end = t.start + t.length;
        }
    }
}

#[test]
fn tokenize_whitespace_matches_std() {
    for v in 0u32..0x11000 {
        if let Some(c) = char::from_u32(v) {
            assert_eq!(is_space_char(c), c.is_whitespace(), "char {:x}", v);
            assert_eq!(upper_char(c), c.to_ascii_uppercase());
        }
    }
}

#[test]
fn tokenize_axis_letters_match_either_case() {
    let axes: HashSet<char> = ['E', 'X', 'Z', 'Y'].into_iter().collect();
    let line = "x1 y2 z3 e4 a5 F6";
    assert_eq!(kinds(line, None), kinds(line, Some(&axes)));
    assert_eq!(
        kinds("x1 a5", Some(&axes)),
        owned(&[("x1", TokenType::AxisNamed('X')), ("a5", TokenType::Unknown)])
    );
}
