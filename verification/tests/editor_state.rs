use gcode_editor::{EditorState, ErrorRange};

#[test]
fn test_set_selection_range_bytes() {
    let mut s = EditorState::default();
    let content = "G0 X0\nG1 X100\n";
    let start = content.find("X0").unwrap();
    let end = start + "X0".len();
    s.set_selection_range_bytes(start, end, content, false);
    assert!(s.selection_start.is_some());
    assert!(s.selection_end.is_some());
    assert_eq!(s.selected_lines, Some((1, 1)));
    if let (Some((_, sc)), Some((_, ec))) = (s.selection_start, s.selection_end) {
        assert!(sc < ec);
    } else {
        panic!("selection not set");
    }
}

#[test]
fn test_error_range_api() {
    let mut s = EditorState::default();
    assert!(s.error_ranges.is_empty());
    let _id = s.add_error_range_bytes(2, 5);
    assert_eq!(s.error_ranges.len(), 1);
    assert_eq!(s.error_ranges[0].start, 2);
    assert_eq!(s.error_ranges[0].end, 5);

    s.set_error_ranges(vec![
        ErrorRange {
            id: 10,
            start: 0,
            end: 1,
            tooltip: None,
        },
        ErrorRange {
            id: 11,
            start: 3,
            end: 4,
            tooltip: Some("foo".into()),
        },
    ]);
    assert_eq!(s.error_ranges.len(), 2);
    assert_eq!(s.error_ranges[0].start, 0);
    assert_eq!(s.error_ranges[1].start, 3);

    s.clear_error_ranges();
    assert!(s.error_ranges.is_empty());
}

#[test]
fn test_selection_by_line_col_and_selected_text() {
    let mut s = EditorState::default();
    let content = "G0 X0\nG1 X100\n";
    s.set_selection_range_line_col(2, 3, 2, 7, false);
    let sel = s.selected_text(content).unwrap();
    assert_eq!(sel, "X100");
}

#[test]
fn test_scroll_to_line_api_sets_flag() {
    let mut s = EditorState::default();
    s.scroll_to_line(5);
    assert_eq!(s.active_line, Some(5));
    assert!(s._internal_should_scroll_to_active_line);
}

#[test]
fn test_add_error_from_selection_and_line() {
    let mut s = EditorState::default();
    let content = String::from("G0 X0\nG1 X100\n");
    s.set_selection_range_line_col(2, 3, 2, 7, false);
    s.add_error_from_selection(&content);
    assert_eq!(s.error_ranges.len(), 1);
    s.add_error_for_line(1, &content);
    assert_eq!(s.error_ranges.len(), 2);
}

#[test]
fn test_add_error_range_line_col() {
    let mut s = EditorState::default();
    let content = "G0 X0\nG1 X100 Y100\n";
    s.add_error_range_line_col(2, 3, 7, content);
    assert_eq!(s.error_ranges.len(), 1);
    let r = &s.error_ranges[0];
    assert_eq!(&content[r.start..r.end], "X100");
}

#[test]
fn error_ranges_get_increasing_ids_and_ordered_ends() {
    let mut s = EditorState::default();
    let a = s.add_error_range_bytes(9, 4);
    let b = s.add_error_range_bytes_with_tooltip(1, 2, "bad value");
    let c = s.add_error_range_bytes_with_tooltip(3, 3, String::from("x"));
    assert_eq!((a, b, c), (1, 2, 3));
    assert_eq!((s.error_ranges[0].start, s.error_ranges[0].end), (4, 9));
    assert_eq!(s.error_ranges[1].tooltip.as_deref(), Some("bad value"));
    assert_eq!(s.error_ranges[2].tooltip.as_deref(), Some("x"));
    assert_eq!(s._internal_next_error_id, 4);
}

#[test]
fn error_id_counter_saturates() {
    let mut s = EditorState::default();
    s._internal_next_error_id = u64::MAX;
    assert_eq!(s.add_error_range_bytes(0, 1), u64::MAX);
    assert_eq!(s.add_error_range_bytes(0, 1), u64::MAX);
    assert_eq!(s._internal_next_error_id, u64::MAX);
}

#[test]
fn remove_and_update_error_ranges() {
    let mut s = EditorState::default();
    let a = s.add_error_range_bytes(0, 1);
    let b = s.add_error_range_bytes(2, 3);
    s.error_ranges.push(ErrorRange { id: a, start: 7, end: 8, tooltip: None });
    assert!(s.update_error_range(b, 9, 5, Some("t".to_string())));
    assert_eq!(
        s.error_ranges[1],
        ErrorRange { id: b, start: 5, end: 9, tooltip: Some("t".to_string()) }
    );
    // only the first range with the id is updated
    assert!(s.update_error_range(a, 4, 4, None));
    assert_eq!((s.error_ranges[0].start, s.error_ranges[2].start), (4, 7));
    assert!(!s.update_error_range(99, 0, 0, None));
    // every range with the id goes
    assert!(s.remove_error_range(a));
    assert_eq!(s.error_ranges.len(), 1);
    assert_eq!(s.error_ranges[0].id, b);
    assert!(!s.remove_error_range(a));
    assert_eq!(s.error_ranges.len(), 1);
}

#[test]
fn selection_line_col_is_put_in_order_and_scrolls() {
    let mut s = EditorState::default();
    s.set_selection_range_line_col(3, 1, 2, 5, true);
    assert_eq!(s.selection_start, Some((2, 5)));
    assert_eq!(s.selection_end, Some((3, 1)));
    assert_eq!(s.selected_lines, Some((2, 3)));
    assert_eq!(s.active_line, Some(2));
    assert!(s._internal_should_scroll_to_active_line);
    s.clear_selection();
    assert_eq!(s.selection_start, None);
    assert_eq!(s.selected_lines, None);
    assert_eq!(s.selected_text("abc"), None);
}

#[test]
fn selection_by_bytes_clamps_and_scrolls() {
    let mut s = EditorState::default();
    let content = "ab\ncdé\n";
    // byte 6 is inside 'é' (bytes 5..7): it rounds up to column 3
    s.set_selection_range_bytes(100, 6, content, true);
    assert_eq!(s.selection_start, Some((2, 3)));
    assert_eq!(s.selection_end, Some((2, 3)));
    assert_eq!(s.active_line, Some(2));
    // `scroll` asks for the selection to be brought into view
    assert!(s._internal_should_scroll_to_active_line);
    let mut t = EditorState::default();
    t.set_selection_range_bytes(0, 1, content, false);
    assert_eq!(t.active_line, None);
    assert!(!t._internal_should_scroll_to_active_line);
}

#[test]
fn selection_by_bytes_reads_back_the_same_bytes() {
    let content = "G0 X0\nG1 é X100\n; end";
    let boundaries: Vec<usize> =
        (0..content.len()).filter(|b| content.is_char_boundary(*b)).collect();
    for &a in &boundaries {
        for &b in &boundaries {
            if a <= b {
                let mut s = EditorState::default();
                s.set_selection_range_bytes(a, b, content, false);
                assert_eq!(s.selected_text(content), Some(&content[a..b]), "bytes {}..{}", a, b);
            }
        }
    }
}

#[test]
fn selected_text_across_lines_in_either_order() {
    let mut s = EditorState::default();
    let content = "G0 X0\nG1 X100\n";
    s.selection_start = Some((2, 2));
    s.selection_end = Some((1, 3));
    assert_eq!(s.selected_text(content), Some("X0\nG1"));
}

#[test]
fn errors_for_missing_lines_do_nothing() {
    let mut s = EditorState::default();
    let content = "G0\nG1\n";
    s.add_error_for_line(3, content);
    s.add_error_range_line_col(0, 0, 1, content);
    s.add_error_range_line_col(3, 0, 1, content);
    s.add_error_from_selection(content);
    assert!(s.error_ranges.is_empty());
    // line numbers are 1-based: line 0 does not exist either
    s.add_error_for_line(0, content);
    assert!(s.error_ranges.is_empty());
    assert_eq!(s._internal_next_error_id, 1);
    s.add_error_for_line(1, content);
    assert_eq!((s.error_ranges[0].start, s.error_ranges[0].end), (0, 2));
    // columns are clamped to the line
    s.add_error_range_line_col(2, 1, 50, content);
    assert_eq!((s.error_ranges[1].start, s.error_ranges[1].end), (4, 5));
}

#[test]
fn default_state_is_empty() {
    let s = EditorState::default();
    assert_eq!(s.cursor_pos, (0, 0));
    assert_eq!(s.selection_start, None);
    assert_eq!(s.active_line, None);
    assert!(!s.show_line_numbers && !s.show_active_line_bg && !s.focused && !s.show_search);
    assert!(s.search_text.is_empty());
    assert_eq!(s._internal_next_error_id, 1);
    let c = s.clone();
    assert_eq!(c._internal_next_error_id, 1);
}

#[test]
fn selected_text_of_any_selection_without_crlf() {
    let content = "Aé\nü xy\n\nz";
    let lines: Vec<&str> = content.lines().collect();
    let mut s = EditorState::default();
    for l1 in 1..=lines.len() + 1 {
        for c1 in 0..4 {
            for l2 in 1..=lines.len() + 1 {
                for c2 in 0..4 {
                    s.selection_start = Some((l1, c1));
                    s.selection_end = Some((l2, c2));
                    assert!(s.selected_text(content).is_some());
                }
            }
        }
    }
    s.set_selection_range_line_col(1, 1, 2, 1, false);
    assert_eq!(s.selected_text(content), Some("é\nü"));
}
