use gcode_editor::text::{chars_of, line_spans};
use gcode_editor::{byte_index_to_line_col, line_col_to_byte_index};

#[test]
fn test_line_col_roundtrip() {
    let content = "Aá\nBC\n";
    let b = line_col_to_byte_index(content, 0, 1);
    let (l, c) = byte_index_to_line_col(content, b);
    assert_eq!((l, c), (0, 1));
    assert_eq!(line_col_to_byte_index(content, 10, 0), content.len());
}

#[test]
fn positions_round_trip_everywhere() {
    let content = "G0 X0\r\nüber 3\n\nlast";
    let lines: Vec<&str> = content.lines().collect();
    for (li, line) in lines.iter().enumerate() {
        for col in 0..=line.chars().count() {
            let b = line_col_to_byte_index(content, li, col);
            assert_eq!(byte_index_to_line_col(content, b), (li, col));
        }
    }
}

#[test]
fn byte_offsets_map_to_positions() {
    let content = "ab\ncdé\n";
    assert_eq!(byte_index_to_line_col(content, 0), (0, 0));
    assert_eq!(byte_index_to_line_col(content, 2), (0, 2));
    assert_eq!(byte_index_to_line_col(content, 3), (1, 0));
    assert_eq!(byte_index_to_line_col(content, 6), (1, 3));
    assert_eq!(byte_index_to_line_col(content, 7), (1, 3));
    // past the end: the end of the last line
    assert_eq!(byte_index_to_line_col(content, 99), (1, 3));
    assert_eq!(byte_index_to_line_col("", 5), (0, 0));
}

#[test]
fn line_col_clamps_column_and_skips_whole_line_breaks() {
    let content = "ab\r\ncd";
    assert_eq!(line_col_to_byte_index(content, 0, 9), 2);
    // the "\r\n" is two bytes of the content
    assert_eq!(line_col_to_byte_index(content, 1, 0), 4);
    assert_eq!(line_col_to_byte_index(content, 1, 2), 6);
    assert_eq!(line_col_to_byte_index(content, 2, 0), content.len());
    assert_eq!(line_col_to_byte_index("a\r\nb", 1, 0), 3);
    assert_eq!(&"a\r\nb"[3..], "b");
}

#[test]
fn crlf_bytes_map_to_their_lines() {
    let content = "ab\r\ncd";
    assert_eq!(byte_index_to_line_col(content, 2), (0, 2));
    // the '\r' is at the end of line 0, the '\n' leads to the start of line 1
    assert_eq!(byte_index_to_line_col(content, 3), (1, 0));
    assert_eq!(byte_index_to_line_col(content, 4), (1, 0));
    assert_eq!(byte_index_to_line_col(content, 5), (1, 1));
}

#[test]
fn byte_offsets_survive_the_round_trip() {
    let content = "G0 X0\nüber 3\n\nlast é";
    for b in 0..content.len() {
        if content.is_char_boundary(b) {
            let (l, c) = byte_index_to_line_col(content, b);
            assert_eq!(line_col_to_byte_index(content, l, c), b, "byte {}", b);
        }
    }
}

#[test]
fn line_spans_match_std_lines() {
    let samples = [
        "", "\n", "a", "a\n", "a\nb", "a\r\nb\r\n", "\r\n\r\n", "x\r", "x\ry\n", "\n\nz", "é\nü\r\n",
    ];
    for s in samples.iter() {
        let (chars, bytes) = chars_of(s);
        assert_eq!(bytes, s.len());
        let spans = line_spans(&chars);
        let ours: Vec<String> = spans
            .iter()
            .map(|(a, b)| chars[*a..*b].iter().collect::<String>())
            .collect();
        let std_lines: Vec<String> = s.lines().map(|l| l.to_string()).collect();
        assert_eq!(ours, std_lines, "text {:?}", s);
    }
}

#[test]
fn later_bytes_never_map_to_earlier_positions() {
    let content = "ab\r\ncdé\n\nxyz";
    let mut prev = (0, 0);
    for b in 0..content.len() + 3 {
        let p = byte_index_to_line_col(content, b);
        assert!(prev <= p, "byte {} gave {:?} after {:?}", b, p, prev);
        prev = p;
    }
}
