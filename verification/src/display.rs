//! What one UI pass of the editor shows and reports: highlighted rows, the scroll
//! request, the line picked in the gutter and the change events.

use vstd::prelude::*;
use crate::editor::{EditorState, ErrorRange, min_int, max_int};
use crate::text::{
    byte_index_to_line_col, byte_len, byte_to_line_col, chars_of, law_byte_to_line_col_monotone,
    lemma_byte_to_line_col_bounds,
    line_spans, span_text, spans_text, spans_wf, text_lines, utf8_len,
};

verus! {

/// Columns `[start_col, end_col)` (chars) of one row (0-based line).
#[derive(Debug, Clone, Copy, PartialEq, Eq, Structural)]
pub struct RowSpan {
    pub row: usize,
    pub start_col: usize,
    pub end_col: usize,
}

/// A row span painted for the error range at `range_index` of the state's list.
#[derive(Debug, Clone, Copy, PartialEq, Eq, Structural)]
pub struct ErrorRowSpan {
    pub range_index: usize,
    pub span: RowSpan,
}

/// Row spans covering from (`s_row`, `s_col`) to (`e_row`, `e_col`), for the rows
/// `i..=e_row` that exist; rows whose part would be empty are left out.
pub open spec fn rows_between(
    lines: Seq<Seq<char>>,
    s_row: int,
    s_col: int,
    e_row: int,
    e_col: int,
    i: int,
) -> Seq<RowSpan>
    decreases e_row + 1 - i,
{
    if i < 0 || i > e_row || i >= lines.len() {
        Seq::empty()
    } else {
        let a = if i == s_row {
            s_col
        } else {
            0
        };
        let b = if i == e_row {
            e_col
        } else {
            lines[i].len() as int
        };
        let here = if a < b {
            seq![RowSpan { row: i as usize, start_col: a as usize, end_col: b as usize }]
        } else {
            Seq::empty()
        };
        here + rows_between(lines, s_row, s_col, e_row, e_col, i + 1)
    }
}

fn push_rows_between(
    chars: &Vec<char>,
    spans: &Vec<(usize, usize)>,
    s_row: usize,
    s_col: usize,
    e_row: usize,
    e_col: usize,
    out: &mut Vec<RowSpan>,
)
    requires
        spans_wf(chars@, spans@),
    ensures
        final(out)@ == old(out)@ + rows_between(
            spans_text(chars@, spans@),
            s_row as int,
            s_col as int,
            e_row as int,
            e_col as int,
            s_row as int,
        ),
{
    let ghost lines = spans_text(chars@, spans@);
    let n = spans.len();
    let mut i = s_row;
    while i <= e_row && i < n
        invariant
            lines == spans_text(chars@, spans@),
            spans_wf(chars@, spans@),
            n == spans@.len(),
            s_row <= i,
            old(out)@ + rows_between(lines, s_row as int, s_col as int, e_row as int, e_col as int, s_row as int)
                == out@ + rows_between(lines, s_row as int, s_col as int, e_row as int, e_col as int, i as int),
        decreases n - i,
    {
        let (a, b) = spans[i];
        proof {
            assert(spans@[i as int].0 <= spans@[i as int].1 <= chars@.len());
            assert(lines[i as int] == span_text(chars@, spans@[i as int]));
        }
        let start_col = if i == s_row {
            s_col
        } else {
            0
        };
        let end_col = if i == e_row {
            e_col
        } else {
            b - a
        };
        let ghost before = out@;
        if start_col < end_col {
            out.push(RowSpan { row: i, start_col, end_col });
        }
        proof {
            let rest = rows_between(lines, s_row as int, s_col as int, e_row as int, e_col as int, i + 1);
            assert(out@ + rest =~= before + rows_between(lines, s_row as int, s_col as int, e_row as int, e_col as int, i as int));
        }
        i = i + 1;
    }
    proof {
        assert(rows_between(lines, s_row as int, s_col as int, e_row as int, e_col as int, i as int) =~= Seq::<RowSpan>::empty());
        assert(out@ =~= out@ + rows_between(lines, s_row as int, s_col as int, e_row as int, e_col as int, i as int));
    }
}

/// The row spans of the selection, whose lines are 1-based; none without a selection.
pub open spec fn selection_rows(state: EditorState, s: Seq<char>) -> Seq<RowSpan> {
    match (state.selection_start, state.selection_end) {
        (Some(a), Some(b)) => {
            let s_row = a.0.saturating_sub(1) as int;
            rows_between(text_lines(s), s_row, a.1 as int, b.0.saturating_sub(1) as int, b.1 as int, s_row)
        },
        _ => Seq::empty(),
    }
}

/// The row spans to paint behind the selection.
pub fn selection_row_spans(state: &EditorState, content: &str) -> (rows: Vec<RowSpan>)
    ensures
        rows@ == selection_rows(*state, content@),
{
    let mut out: Vec<RowSpan> = Vec::new();
    if let (Some((s_line, s_col)), Some((e_line, e_col))) = (state.selection_start, state.selection_end) {
        let (chars, _total) = chars_of(content);
        let spans = line_spans(&chars);
        push_rows_between(&chars, &spans, s_line.saturating_sub(1), s_col, e_line.saturating_sub(1), e_col, &mut out);
        proof {
            assert(out@ =~= selection_rows(*state, content@));
        }
    }
    out
}

/// The bytes an error range covers once its ends are clamped to the text and put
/// in order; `None` when that leaves nothing.
pub open spec fn clamped_range(r: ErrorRange, len: int) -> Option<(int, int)> {
    let a = min_int(r.start as int, len);
    let b = min_int(r.end as int, len);
    let lo = min_int(a, b);
    let hi = max_int(a, b);
    if lo >= hi {
        None
    } else {
        Some((lo, hi))
    }
}

/// The row spans of one error range.
pub open spec fn error_rows(r: ErrorRange, s: Seq<char>) -> Seq<RowSpan> {
    match clamped_range(r, utf8_len(s) as int) {
        Some((lo, hi)) => {
            let p = byte_to_line_col(s, lo);
            let q = byte_to_line_col(s, hi);
            rows_between(text_lines(s), p.0, p.1, q.0, q.1, p.0)
        },
        None => Seq::empty(),
    }
}

pub open spec fn tag_rows(k: int, rows: Seq<RowSpan>) -> Seq<ErrorRowSpan> {
    rows.map_values(|r: RowSpan| ErrorRowSpan { range_index: k as usize, span: r })
}

/// The row spans of the first `k` error ranges, each tagged with its range's index.
pub open spec fn all_error_rows(ranges: Seq<ErrorRange>, s: Seq<char>, k: int) -> Seq<ErrorRowSpan>
    decreases k,
{
    if k <= 0 {
        Seq::empty()
    } else {
        all_error_rows(ranges, s, k - 1) + tag_rows(k - 1, error_rows(ranges[k - 1], s))
    }
}

/// The row spans to paint behind the state's error ranges.
pub fn error_row_spans(state: &EditorState, content: &str) -> (rows: Vec<ErrorRowSpan>)
    ensures
        rows@ == all_error_rows(state.error_ranges@, content@, state.error_ranges@.len() as int),
{
    let len = byte_len(content);
    let (chars, _total) = chars_of(content);
    let spans = line_spans(&chars);
    let mut out: Vec<ErrorRowSpan> = Vec::new();
    let n = state.error_ranges.len();
    let mut k: usize = 0;
    while k < n
        invariant
            n == state.error_ranges@.len(),
            k <= n,
            len == utf8_len(content@),
            chars@ == content@,
            spans_text(chars@, spans@) == text_lines(content@),
            spans_wf(chars@, spans@),
            out@ == all_error_rows(state.error_ranges@, content@, k as int),
        decreases n - k,
    {
        let r = &state.error_ranges[k];
        let a = if r.start < len { r.start } else { len };
        let b = if r.end < len { r.end } else { len };
        let lo = if a <= b { a } else { b };
        let hi = if a >= b { a } else { b };
        let ghost before = out@;
        if lo < hi {
            let (s_row, s_col) = byte_index_to_line_col(content, lo);
            let (e_row, e_col) = byte_index_to_line_col(content, hi);
            let mut rows: Vec<RowSpan> = Vec::new();
            push_rows_between(&chars, &spans, s_row, s_col, e_row, e_col, &mut rows);
            let ghost rows_all = rows@;
            let mut j: usize = 0;
            while j < rows.len()
                invariant
                    j <= rows@.len(),
                    rows@ == rows_all,
                    k < n,
                    out@ == before + tag_rows(k as int, rows_all.take(j as int)),
                decreases rows@.len() - j,
            {
                out.push(ErrorRowSpan { range_index: k, span: rows[j] });
                proof {
                    assert(rows_all.take(j + 1) =~= rows_all.take(j as int).push(rows_all[j as int]));
                    assert(out@ =~= before + tag_rows(k as int, rows_all.take(j + 1)));
                }
                j = j + 1;
            }
            proof {
                assert(rows_all.take(j as int) =~= rows_all);
                assert(rows_all == error_rows(state.error_ranges@[k as int], content@));
            }
        } else {
            proof {
                assert(error_rows(state.error_ranges@[k as int], content@) =~= Seq::<RowSpan>::empty());
                assert(tag_rows(k as int, Seq::<RowSpan>::empty()) =~= Seq::<ErrorRowSpan>::empty());
                assert(out@ =~= before + tag_rows(k as int, Seq::<RowSpan>::empty()));
            }
        }
        k = k + 1;
    }
    out
}

/// Event emitted when the editor content changes.
#[derive(Debug, Clone, PartialEq, Eq)]
pub struct EditorChangeEvent {
    pub new_content: String,
    pub selected_lines: Option<(usize, usize)>,
}

/// Events emitted by the editor for callers to react to changes.
#[derive(Debug, Clone, PartialEq, Eq)]
pub enum EditorEvent {
    /// Content changed (text modification).
    ContentChanged(EditorChangeEvent),
    /// Active line changed (old -> new). Values are 1-based line numbers.
    ActiveLineChanged { old: Option<usize>, new: Option<usize> },
    /// Selected lines changed (old -> new).
    SelectionChanged { old: Option<(usize, usize)>, new: Option<(usize, usize)> },
}

/// The events of one UI pass: a content change (carrying the selected lines), then a
/// selection change and an active-line change when the state's values differ from
/// those last reported, whatever changed them (the pass itself or the embedding
/// application between passes).
pub open spec fn pass_events(changed_content: Option<String>, state: EditorState) -> Seq<
    EditorEvent,
> {
    let c = match changed_content {
        Some(text) => seq![
            EditorEvent::ContentChanged(
                EditorChangeEvent { new_content: text, selected_lines: state.selected_lines },
            ),
        ],
        None => Seq::empty(),
    };
    let sel = if state._internal_reported_selected_lines != state.selected_lines {
        seq![
            EditorEvent::SelectionChanged {
                old: state._internal_reported_selected_lines,
                new: state.selected_lines,
            },
        ]
    } else {
        Seq::empty()
    };
    let act = if state._internal_reported_active_line != state.active_line {
        seq![
            EditorEvent::ActiveLineChanged {
                old: state._internal_reported_active_line,
                new: state.active_line,
            },
        ]
    } else {
        Seq::empty()
    };
    c + sel + act
}

fn same_lines(a: Option<(usize, usize)>, b: Option<(usize, usize)>) -> (r: bool)
    ensures
        r == (a == b),
{
    match (a, b) {
        (Some(x), Some(y)) => x.0 == y.0 && x.1 == y.1,
        (None, None) => true,
        _ => false,
    }
}

fn same_line(a: Option<usize>, b: Option<usize>) -> (r: bool)
    ensures
        r == (a == b),
{
    match (a, b) {
        (Some(x), Some(y)) => x == y,
        (None, None) => true,
        _ => false,
    }
}

/// The line (1-based) picked by a click on gutter row `row` (0-based), limited to the
/// last line; none when the text has no line.
pub fn gutter_click_line(row: usize, line_count: usize) -> (line: Option<usize>)
    requires
        row < usize::MAX,
    ensures
        line_count == 0 ==> line is None,
        line_count > 0 ==> line == Some(min_int(row + 1, line_count as int) as usize),
{
    if line_count == 0 {
        return None;
    }
    let l = row + 1;
    if l < line_count {
        Some(l)
    } else {
        Some(line_count)
    }
}

impl EditorState {
    /// Ends a UI pass: returns its events (see [`pass_events`]) and records the
    /// selected lines and active line as reported. `changed_content` holds the new
    /// content when the text was edited during the pass.
    pub fn take_pass_events(&mut self, changed_content: Option<String>) -> (events: Vec<
        EditorEvent,
    >)
        ensures
            events@ == pass_events(changed_content, *old(self)),
            *final(self) == (EditorState {
                _internal_reported_selected_lines: old(self).selected_lines,
                _internal_reported_active_line: old(self).active_line,
                ..*old(self)
            }),
    {
        let ghost cc = changed_content;
        let mut events: Vec<EditorEvent> = Vec::new();
        match changed_content {
            Some(text) => {
                events.push(
                    EditorEvent::ContentChanged(
                        EditorChangeEvent { new_content: text, selected_lines: self.selected_lines },
                    ),
                );
            },
            None => {},
        }
        if !same_lines(self._internal_reported_selected_lines, self.selected_lines) {
            events.push(
                EditorEvent::SelectionChanged {
                    old: self._internal_reported_selected_lines,
                    new: self.selected_lines,
                },
            );
        }
        if !same_line(self._internal_reported_active_line, self.active_line) {
            events.push(
                EditorEvent::ActiveLineChanged {
                    old: self._internal_reported_active_line,
                    new: self.active_line,
                },
            );
        }
        proof {
            assert(events@ =~= pass_events(cc, *old(self)));
        }
        self._internal_reported_selected_lines = self.selected_lines;
        self._internal_reported_active_line = self.active_line;
        events
    }

    /// Consumes a pending scroll request. Returns the 0-based row to bring into view:
    /// that of the active line, when it is one of the `line_count` lines.
    pub fn take_scroll_request(&mut self, line_count: usize) -> (row: Option<usize>)
        ensures
            old(self)._internal_should_scroll_to_active_line ==> *final(self) == (EditorState {
                _internal_should_scroll_to_active_line: false,
                ..*old(self)
            }),
            !old(self)._internal_should_scroll_to_active_line ==> *final(self) == *old(self),
            row == (if old(self)._internal_should_scroll_to_active_line {
                match old(self).active_line {
                    Some(l) => if 1 <= l <= line_count {
                        Some((l - 1) as usize)
                    } else {
                        None
                    },
                    None => None,
                }
            } else {
                None
            }),
    {
        let mut row: Option<usize> = None;
        if self._internal_should_scroll_to_active_line {
            if let Some(line) = self.active_line {
                if line >= 1 && line <= line_count {
                    row = Some(line - 1);
                }
            }
            self._internal_should_scroll_to_active_line = false;
        }
        row
    }

    /// The 0-based row that gets the active-line background, when that background is
    /// on and the active line is one of the `line_count` lines.
    pub fn active_line_row(&self, line_count: usize) -> (row: Option<usize>)
        ensures
            row == (if self.show_active_line_bg {
                match self.active_line {
                    Some(l) => if 1 <= l <= line_count {
                        Some((l - 1) as usize)
                    } else {
                        None
                    },
                    None => None,
                }
            } else {
                None
            }),
    {
        if self.show_active_line_bg {
            if let Some(active) = self.active_line {
                if active >= 1 && active <= line_count {
                    return Some(active - 1);
                }
            }
        }
        None
    }
}

/// Row spans that go down the rows from `from` on, each non-empty.
pub open spec fn rows_in_order(rows: Seq<RowSpan>, from: int) -> bool {
    &&& forall|k: int|
        0 <= k < rows.len() ==> from <= #[trigger] rows[k].row && rows[k].start_col
            < rows[k].end_col
    &&& forall|k: int, m: int| 0 <= k < m < rows.len() ==> #[trigger] rows[k].row < #[trigger] rows[m].row
}

/// The rows painted for a selection or an error range are distinct, in order and
/// never empty.
pub proof fn law_rows_in_order(
    lines: Seq<Seq<char>>,
    s_row: int,
    s_col: usize,
    e_row: int,
    e_col: usize,
    i: int,
)
    requires
        0 <= i,
        lines.len() <= usize::MAX,
        forall|k: int| 0 <= k < lines.len() ==> #[trigger] lines[k].len() <= usize::MAX,
    ensures
        rows_in_order(rows_between(lines, s_row, s_col as int, e_row, e_col as int, i), i),
    decreases e_row + 1 - i,
{
    if !(i > e_row || i >= lines.len()) {
        law_rows_in_order(lines, s_row, s_col, e_row, e_col, i + 1);
        let rest = rows_between(lines, s_row, s_col as int, e_row, e_col as int, i + 1);
        let all = rows_between(lines, s_row, s_col as int, e_row, e_col as int, i);
        let here = all.len() - rest.len();
        assert forall|k: int| 0 <= k < all.len() implies i <= #[trigger] all[k].row && all[k].start_col
            < all[k].end_col by {
            if k >= here {
                assert(all[k] == rest[k - here]);
            }
        }
        assert forall|k: int, m: int| 0 <= k < m < all.len() implies #[trigger] all[k].row
            < #[trigger] all[m].row by {
            if k >= here {
                assert(all[k] == rest[k - here]);
            }
            assert(all[m] == rest[m - here]);
        }
    }
}

/// A UI pass in which nothing was edited, and whose state shows the selected lines
/// and active line last reported, reports nothing.
pub proof fn law_quiet_pass_reports_nothing(state: EditorState)
    requires
        state._internal_reported_selected_lines == state.selected_lines,
        state._internal_reported_active_line == state.active_line,
    ensures
        pass_events(None, state).len() == 0,
{
}

/// A change of the active line or of the selected lines since they were last
/// reported, made in a pass or between passes, is reported by the next pass.
pub proof fn law_changes_are_reported(changed_content: Option<String>, state: EditorState)
    ensures
        state._internal_reported_active_line != state.active_line ==> pass_events(
            changed_content,
            state,
        ).contains(
            EditorEvent::ActiveLineChanged {
                old: state._internal_reported_active_line,
                new: state.active_line,
            },
        ),
        state._internal_reported_selected_lines != state.selected_lines ==> pass_events(
            changed_content,
            state,
        ).contains(
            EditorEvent::SelectionChanged {
                old: state._internal_reported_selected_lines,
                new: state.selected_lines,
            },
        ),
{
    let e = pass_events(changed_content, state);
    if state._internal_reported_active_line != state.active_line {
        assert(e[e.len() - 1] == EditorEvent::ActiveLineChanged {
            old: state._internal_reported_active_line,
            new: state.active_line,
        });
    }
    if state._internal_reported_selected_lines != state.selected_lines {
        let c = if changed_content is Some { 1int } else { 0int };
        assert(e[c] == EditorEvent::SelectionChanged {
            old: state._internal_reported_selected_lines,
            new: state.selected_lines,
        });
    }
}

/// When the end row exists and its part is not empty, the last span of
/// `rows_between` is that part of the end row.
proof fn lemma_rows_between_last(
    lines: Seq<Seq<char>>,
    s_row: int,
    s_col: int,
    e_row: int,
    e_col: int,
    i: int,
)
    requires
        0 <= i <= e_row < lines.len(),
        (if e_row == s_row { s_col } else { 0 }) < e_col,
    ensures
        rows_between(lines, s_row, s_col, e_row, e_col, i).len() > 0,
        rows_between(lines, s_row, s_col, e_row, e_col, i).last() == (RowSpan {
            row: e_row as usize,
            start_col: (if e_row == s_row { s_col } else { 0 }) as usize,
            end_col: e_col as usize,
        }),
    decreases e_row - i,
{
    let all = rows_between(lines, s_row, s_col, e_row, e_col, i);
    let rest = rows_between(lines, s_row, s_col, e_row, e_col, i + 1);
    if i == e_row {
        assert(rest =~= Seq::<RowSpan>::empty());
    } else {
        lemma_rows_between_last(lines, s_row, s_col, e_row, e_col, i + 1);
        assert(all.last() == rest.last());
    }
}

/// The selection is painted up to its end point: for a selection from line `a.0`,
/// column `a.1` to line `b.0`, column `b.1` (lines from 1, the end not before the
/// start, the end line present), whose end is not at the start of its line (or not
/// at its start point), the last painted span is on the end line and stops at the
/// end column, starting at the start column when both ends share a line. A
/// selection inside one line is painted as exactly that one span; one over several
/// lines starts at the start column and runs to the end of the start line.
pub proof fn law_selection_rows_end_at_selection_end(
    state: EditorState,
    s: Seq<char>,
    a: (usize, usize),
    b: (usize, usize),
)
    requires
        state.selection_start == Some(a),
        state.selection_end == Some(b),
        1 <= a.0 <= b.0,
        b.0 - 1 < text_lines(s).len(),
        a.0 < b.0 ==> 0 < b.1,
        a.0 == b.0 ==> a.1 < b.1,
    ensures
        selection_rows(state, s).len() > 0,
        selection_rows(state, s).last() == (RowSpan {
            row: (b.0 - 1) as usize,
            start_col: if a.0 == b.0 { a.1 } else { 0 },
            end_col: b.1,
        }),
        a.0 == b.0 ==> selection_rows(state, s) == seq![
            RowSpan { row: (a.0 - 1) as usize, start_col: a.1, end_col: b.1 },
        ],
        a.0 < b.0 && a.1 < text_lines(s)[a.0 - 1].len() ==> selection_rows(state, s)[0] == (RowSpan {
            row: (a.0 - 1) as usize,
            start_col: a.1,
            end_col: text_lines(s)[a.0 - 1].len() as usize,
        }),
{
    let lines = text_lines(s);
    let s_row = a.0 - 1;
    let e_row = b.0 - 1;
    assert(a.0.saturating_sub(1) == s_row && b.0.saturating_sub(1) == e_row);
    lemma_rows_between_last(lines, s_row, a.1 as int, e_row, b.1 as int, s_row);
    let rows = rows_between(lines, s_row, a.1 as int, e_row, b.1 as int, s_row);
    assert(selection_rows(state, s) == rows);
    if a.0 == b.0 {
        assert(rows_between(lines, s_row, a.1 as int, e_row, b.1 as int, s_row + 1) =~= Seq::<
            RowSpan,
        >::empty());
        assert(rows =~= seq![RowSpan { row: (a.0 - 1) as usize, start_col: a.1, end_col: b.1 }]);
    }
}

/// The error painting of a range reaches its end byte: for a range of bytes
/// `[start, end)` inside the text (`start < end <= ` the byte length), the last
/// painted span is on the line of `end` and stops at the column of `end`, starting at
/// the column of `start` when both ends share a line, whenever that span is not
/// empty. Over several lines, the first span starts at the column of `start` and
/// runs to the end of its line.
pub proof fn law_error_rows_end_at_range_end(r: ErrorRange, s: Seq<char>)
    requires
        r.start < r.end <= utf8_len(s),
    ensures
        ({
            let p = byte_to_line_col(s, r.start as int);
            let q = byte_to_line_col(s, r.end as int);
            let rows = error_rows(r, s);
            &&& (q.1 > 0 && (p.0 < q.0 || p.1 < q.1)) ==> rows.len() > 0 && rows.last() == (
            RowSpan {
                row: q.0 as usize,
                start_col: (if p.0 == q.0 { p.1 } else { 0 }) as usize,
                end_col: q.1 as usize,
            })
            &&& (p.0 < q.0 && p.1 < text_lines(s)[p.0].len()) ==> rows.len() > 0 && rows[0] == (
            RowSpan {
                row: p.0 as usize,
                start_col: p.1 as usize,
                end_col: text_lines(s)[p.0].len() as usize,
            })
        }),
{
    let p = byte_to_line_col(s, r.start as int);
    let q = byte_to_line_col(s, r.end as int);
    let lines = text_lines(s);
    assert(clamped_range(r, utf8_len(s) as int) == Some((r.start as int, r.end as int)));
    lemma_byte_to_line_col_bounds(s, r.start as int);
    lemma_byte_to_line_col_bounds(s, r.end as int);
    law_byte_to_line_col_monotone(s, r.start as int, r.end as int);
    let rows = rows_between(lines, p.0, p.1, q.0, q.1, p.0);
    assert(error_rows(r, s) == rows);
    if q.1 > 0 && (p.0 < q.0 || p.1 < q.1) {
        assert(lines.len() > 0);
        lemma_rows_between_last(lines, p.0, p.1, q.0, q.1, p.0);
    }
    if p.0 < q.0 && p.1 < lines[p.0].len() {
        assert(lines.len() > 0);
    }
}

/// The order in which a range's ends are given does not change what is painted.
pub proof fn law_error_rows_ignore_end_order(r: ErrorRange, s: Seq<char>)
    ensures
        error_rows(r, s) == error_rows(ErrorRange { start: r.end, end: r.start, ..r }, s),
{
}

proof fn lemma_rows_between_middle(
    lines: Seq<Seq<char>>,
    s_row: int,
    s_col: int,
    e_row: int,
    e_col: int,
    i: int,
    r: int,
)
    requires
        0 <= i <= r < e_row,
        r != s_row,
        r < lines.len(),
        lines[r].len() > 0,
    ensures
        rows_between(lines, s_row, s_col, e_row, e_col, i).contains(
            RowSpan { row: r as usize, start_col: 0, end_col: lines[r].len() as usize },
        ),
    decreases r - i,
{
    let all = rows_between(lines, s_row, s_col, e_row, e_col, i);
    let rest = rows_between(lines, s_row, s_col, e_row, e_col, i + 1);
    let want = RowSpan { row: r as usize, start_col: 0, end_col: lines[r].len() as usize };
    if i == r {
        assert(all[0] == want);
    } else {
        lemma_rows_between_middle(lines, s_row, s_col, e_row, e_col, i + 1, r);
        let x = choose|x: int| 0 <= x < rest.len() && rest[x] == want;
        assert(all[all.len() - rest.len() + x] == want);
    }
}

proof fn lemma_rows_between_rows(
    lines: Seq<Seq<char>>,
    s_row: int,
    s_col: int,
    e_row: int,
    e_col: int,
    i: int,
)
    requires
        0 <= i,
        e_row <= usize::MAX,
    ensures
        forall|x: int|
            0 <= x < rows_between(lines, s_row, s_col, e_row, e_col, i).len() ==> i
                <= #[trigger] rows_between(lines, s_row, s_col, e_row, e_col, i)[x].row <= e_row
                && rows_between(lines, s_row, s_col, e_row, e_col, i)[x].row < lines.len(),
    decreases e_row + 1 - i,
{
    if !(i > e_row || i >= lines.len()) {
        lemma_rows_between_rows(lines, s_row, s_col, e_row, e_col, i + 1);
        let all = rows_between(lines, s_row, s_col, e_row, e_col, i);
        let rest = rows_between(lines, s_row, s_col, e_row, e_col, i + 1);
        let here = all.len() - rest.len();
        assert forall|x: int| 0 <= x < all.len() implies i <= #[trigger] all[x].row <= e_row
            && all[x].row < lines.len() by {
            if x >= here {
                assert(all[x] == rest[x - here]);
            }
        }
    }
}

/// A selection paints only rows of lines that exist, from its start line to its end
/// line, and paints every non-empty line strictly between them whole.
pub proof fn law_selection_rows_cover_middle_lines(
    state: EditorState,
    s: Seq<char>,
    a: (usize, usize),
    b: (usize, usize),
)
    requires
        state.selection_start == Some(a),
        state.selection_end == Some(b),
        1 <= a.0,
        1 <= b.0,
    ensures
        forall|x: int|
            0 <= x < selection_rows(state, s).len() ==> a.0 - 1 <= #[trigger] selection_rows(
                state,
                s,
            )[x].row <= b.0 - 1 && selection_rows(state, s)[x].row < text_lines(s).len(),
        forall|r: int|
            a.0 - 1 < r < b.0 - 1 && r < text_lines(s).len() && text_lines(s)[r].len() > 0
                ==> selection_rows(state, s).contains(
                RowSpan { row: r as usize, start_col: 0, end_col: text_lines(s)[r].len() as usize },
            ),
{
    let lines = text_lines(s);
    let s_row = a.0 - 1;
    let e_row = b.0 - 1;
    assert(a.0.saturating_sub(1) == s_row && b.0.saturating_sub(1) == e_row);
    assert(selection_rows(state, s) == rows_between(lines, s_row, a.1 as int, e_row, b.1 as int, s_row));
    lemma_rows_between_rows(lines, s_row, a.1 as int, e_row, b.1 as int, s_row);
    assert forall|r: int|
        a.0 - 1 < r < b.0 - 1 && r < lines.len() && lines[r].len() > 0 implies selection_rows(
        state,
        s,
    ).contains(RowSpan { row: r as usize, start_col: 0, end_col: lines[r].len() as usize }) by {
        lemma_rows_between_middle(lines, s_row, a.1 as int, e_row, b.1 as int, s_row, r);
    }
}

/// An error range paints only rows from the line of its start to the line of its
/// end (its ends taken in order and clamped to the text), and every non-empty line
/// strictly between them whole; a range with equal ends paints nothing.
pub proof fn law_error_rows_cover_middle_lines(r: ErrorRange, s: Seq<char>)
    requires
        utf8_len(s) <= usize::MAX,
    ensures
        r.start == r.end ==> error_rows(r, s).len() == 0,
        ({
            let len = utf8_len(s) as int;
            let lo = min_int(min_int(r.start as int, len), min_int(r.end as int, len));
            let hi = max_int(min_int(r.start as int, len), min_int(r.end as int, len));
            let p = byte_to_line_col(s, lo);
            let q = byte_to_line_col(s, hi);
            &&& forall|x: int|
                0 <= x < error_rows(r, s).len() ==> p.0 <= #[trigger] error_rows(r, s)[x].row <= q.0
                    && error_rows(r, s)[x].row < text_lines(s).len()
            &&& forall|row: int|
                lo < hi && p.0 < row < q.0 && text_lines(s)[row].len() > 0 ==> error_rows(
                    r,
                    s,
                ).contains(
                    RowSpan {
                        row: row as usize,
                        start_col: 0,
                        end_col: text_lines(s)[row].len() as usize,
                    },
                )
        }),
{
    let len = utf8_len(s) as int;
    let lo = min_int(min_int(r.start as int, len), min_int(r.end as int, len));
    let hi = max_int(min_int(r.start as int, len), min_int(r.end as int, len));
    let p = byte_to_line_col(s, lo);
    let q = byte_to_line_col(s, hi);
    let lines = text_lines(s);
    lemma_byte_to_line_col_bounds(s, lo);
    lemma_byte_to_line_col_bounds(s, hi);
    crate::text::lemma_utf8_len_bounds(s);
    if lo < hi {
        assert(error_rows(r, s) == rows_between(lines, p.0, p.1, q.0, q.1, p.0));
        lemma_rows_between_rows(lines, p.0, p.1, q.0, q.1, p.0);
        assert forall|row: int|
            p.0 < row < q.0 && lines[row].len() > 0 implies error_rows(r, s).contains(
            RowSpan { row: row as usize, start_col: 0, end_col: lines[row].len() as usize },
        ) by {
            lemma_rows_between_middle(lines, p.0, p.1, q.0, q.1, p.0, row);
        }
    } else {
        assert(error_rows(r, s) =~= Seq::<RowSpan>::empty());
    }
}

} // verus!
