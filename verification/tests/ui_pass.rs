use gcode_editor::display::{
    error_row_spans, gutter_click_line, selection_row_spans, EditorChangeEvent,
    EditorEvent, ErrorRowSpan, RowSpan,
};
use gcode_editor::EditorState;

#[test]
fn selection_rows_cover_each_selected_line() {
    let mut s = EditorState::default();
    let content = "G0 X0\nG1 X100\nG2\n";
    assert!(selection_row_spans(&s, content).is_empty());
    s.set_selection_range_line_col(1, 3, 3, 1, false);
    assert_eq!(
        selection_row_spans(&s, content),
        vec![
            RowSpan { row: 0, start_col: 3, end_col: 5 },
            RowSpan { row: 1, start_col: 0, end_col: 7 },
            RowSpan { row: 2, start_col: 0, end_col: 1 },
        ]
    );
    // rows past the text are dropped, empty parts too
    s.set_selection_range_line_col(3, 2, 9, 0, false);
    assert!(selection_row_spans(&s, content).is_empty());
}

#[test]
fn error_rows_are_tagged_with_their_range() {
    let mut s = EditorState::default();
    let content = "G0 X0\nG1 X100\n";
    s.add_error_range_bytes(3, 5);
    s.add_error_range_bytes(4, 4);
    s.add_error_range_bytes(4, 100);
    assert_eq!(
        error_row_spans(&s, content),
        vec![
            ErrorRowSpan { range_index: 0, span: RowSpan { row: 0, start_col: 3, end_col: 5 } },
            ErrorRowSpan { range_index: 2, span: RowSpan { row: 0, start_col: 4, end_col: 5 } },
            ErrorRowSpan { range_index: 2, span: RowSpan { row: 1, start_col: 0, end_col: 7 } },
        ]
    );
}

#[test]
fn scroll_request_is_taken_once() {
    let mut s = EditorState::default();
    s.scroll_to_line(2);
    assert_eq!(s.take_scroll_request(3), Some(1));
    assert!(!s._internal_should_scroll_to_active_line);
    assert_eq!(s.take_scroll_request(3), None);
    s.scroll_to_line(5);
    assert_eq!(s.take_scroll_request(3), None);
    assert!(!s._internal_should_scroll_to_active_line);
}

#[test]
fn active_line_row_needs_background_and_existing_line() {
    let mut s = EditorState::default();
    s.active_line = Some(2);
    assert_eq!(s.active_line_row(3), None);
    s.show_active_line_bg = true;
    assert_eq!(s.active_line_row(3), Some(1));
    assert_eq!(s.active_line_row(1), None);
    s.active_line = Some(0);
    assert_eq!(s.active_line_row(3), None);
}

#[test]
fn gutter_click_picks_line_within_text() {
    assert_eq!(gutter_click_line(0, 3), Some(1));
    assert_eq!(gutter_click_line(2, 3), Some(3));
    assert_eq!(gutter_click_line(7, 3), Some(3));
    // no line to pick in an empty text
    assert_eq!(gutter_click_line(0, 0), None);
    assert_eq!(gutter_click_line(4, 0), None);
}

#[test]
fn events_report_changes_in_order() {
    let mut s = EditorState::default();
    assert!(s.take_pass_events(None).is_empty());
    s.selected_lines = Some((1, 2));
    s.active_line = Some(4);
    let ev = s.take_pass_events(Some("G1".to_string()));
    assert_eq!(
        ev,
        vec![
            EditorEvent::ContentChanged(EditorChangeEvent {
                new_content: "G1".to_string(),
                selected_lines: Some((1, 2)),
            }),
            EditorEvent::SelectionChanged { old: None, new: Some((1, 2)) },
            EditorEvent::ActiveLineChanged { old: None, new: Some(4) },
        ]
    );
    // nothing changed since: nothing to report
    assert!(s.take_pass_events(None).is_empty());
}

#[test]
fn active_line_changed_between_passes_is_reported() {
    let mut s = EditorState::default();
    s.active_line = Some(1);
    let first = s.take_pass_events(None);
    assert_eq!(first, vec![EditorEvent::ActiveLineChanged { old: None, new: Some(1) }]);
    // changed by the application, outside any pass
    s.scroll_to_line(3);
    let next = s.take_pass_events(None);
    assert_eq!(next, vec![EditorEvent::ActiveLineChanged { old: Some(1), new: Some(3) }]);
    assert!(s.take_pass_events(None).is_empty());
}

#[test]
fn content_change_alone_reports_only_the_content() {
    let mut s = EditorState::default();
    let ev = s.take_pass_events(Some("M3".to_string()));
    assert_eq!(
        ev,
        vec![EditorEvent::ContentChanged(EditorChangeEvent {
            new_content: "M3".to_string(),
            selected_lines: None,
        })]
    );
}
