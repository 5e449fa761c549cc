//! The editor state: selection, active line and marked error ranges.

use vstd::prelude::*;
use vstd::utf8::{encode_utf8, is_char_boundary, valid_utf8};
use vstd::string::StringSliceAdditionalSpecFns;
use vstd::std_specs::convert::IntoSpec;
use crate::text::{
    byte_index_to_line_col, byte_len, byte_to_line_col, chars_of, law_byte_to_line_col_monotone, law_line_col_on_char_boundary, law_byte_round_trip, no_crlf,
    lemma_byte_to_line_col_bounds, lemma_line_bytes, lemma_line_len_bound, lemma_line_ranges_wf,
    line_ranges, span_int,
    lemma_utf8_len_bounds, line_col_to_byte, line_col_to_byte_index, line_spans, range_utf8_len,
    span_text, text_lines, utf8_len,
};

verus! {

/// An error highlight: bytes `[start, end)` of the content, with an optional tooltip.
#[derive(Debug, PartialEq, Eq)]
pub struct ErrorRange {
    pub id: u64,
    pub start: usize,
    pub end: usize,
    pub tooltip: Option<String>,
}

impl Clone for ErrorRange {
    fn clone(&self) -> (c: Self)
        ensures
            c == *self,
    {
        ErrorRange { id: self.id, start: self.start, end: self.end, tooltip: self.tooltip.clone() }
    }
}

/// State of one editor: selection (1-based lines, char columns), active line and
/// the marked error ranges. The display colours live with the front end.
#[derive(Debug)]
pub struct EditorState {
    pub cursor_pos: (usize, usize),
    pub selection_start: Option<(usize, usize)>,
    pub selection_end: Option<(usize, usize)>,
    pub selected_lines: Option<(usize, usize)>,
    pub focused: bool,
    pub search_text: String,
    pub show_search: bool,
    /// Show the line-number gutter.
    pub show_line_numbers: bool,
    /// Active line (1-based), highlighted in the gutter.
    pub active_line: Option<usize>,
    /// Paint a background behind the active line.
    pub show_active_line_bg: bool,
    /// Marked error ranges. They are not adjusted when the content is edited.
    pub error_ranges: Vec<ErrorRange>,
    /// Id given to the next error range that is added.
    pub _internal_next_error_id: u64,
    /// The next UI pass should scroll to `active_line`.
    pub _internal_should_scroll_to_active_line: bool,
    /// The active line as last reported in the events of a UI pass.
    pub _internal_reported_active_line: Option<usize>,
    /// The selected lines as last reported in the events of a UI pass.
    pub _internal_reported_selected_lines: Option<(usize, usize)>,
}

impl Clone for EditorState {
    fn clone(&self) -> (c: Self)
        ensures
            c.cursor_pos == self.cursor_pos,
            c.selection_start == self.selection_start,
            c.selection_end == self.selection_end,
            c.selected_lines == self.selected_lines,
            c.focused == self.focused,
            c.search_text == self.search_text,
            c.show_search == self.show_search,
            c.show_line_numbers == self.show_line_numbers,
            c.active_line == self.active_line,
            c.show_active_line_bg == self.show_active_line_bg,
            c.error_ranges@ == self.error_ranges@,
            c._internal_next_error_id == self._internal_next_error_id,
            c._internal_should_scroll_to_active_line == self._internal_should_scroll_to_active_line,
            c._internal_reported_active_line == self._internal_reported_active_line,
            c._internal_reported_selected_lines == self._internal_reported_selected_lines,
    {
        let ranges = self.error_ranges.clone();
        proof {
            assert(ranges@ =~= self.error_ranges@);
        }
        EditorState {
            cursor_pos: self.cursor_pos,
            selection_start: self.selection_start,
            selection_end: self.selection_end,
            selected_lines: self.selected_lines,
            focused: self.focused,
            search_text: self.search_text.clone(),
            show_search: self.show_search,
            show_line_numbers: self.show_line_numbers,
            active_line: self.active_line,
            show_active_line_bg: self.show_active_line_bg,
            error_ranges: ranges,
            _internal_next_error_id: self._internal_next_error_id,
            _internal_should_scroll_to_active_line: self._internal_should_scroll_to_active_line,
            _internal_reported_active_line: self._internal_reported_active_line,
            _internal_reported_selected_lines: self._internal_reported_selected_lines,
        }
    }
}

impl Default for EditorState {
    fn default() -> (s: Self)
        ensures
            s.cursor_pos == (0usize, 0usize),
            s.selection_start is None,
            s.selection_end is None,
            s.selected_lines is None,
            !s.focused,
            s.search_text@ == Seq::<char>::empty(),
            !s.show_search,
            !s.show_line_numbers,
            s.active_line is None,
            !s.show_active_line_bg,
            s.error_ranges@ == Seq::<ErrorRange>::empty(),
            s._internal_next_error_id == 1,
            !s._internal_should_scroll_to_active_line,
            s._internal_reported_active_line is None,
            s._internal_reported_selected_lines is None,
    {
        EditorState {
            cursor_pos: (0, 0),
            selection_start: None,
            selection_end: None,
            selected_lines: None,
            focused: false,
            search_text: String::new(),
            show_search: false,
            show_line_numbers: false,
            active_line: None,
            show_active_line_bg: false,
            error_ranges: Vec::new(),
            _internal_next_error_id: 1,
            _internal_should_scroll_to_active_line: false,
            _internal_reported_active_line: None,
            _internal_reported_selected_lines: None,
        }
    }
}

pub open spec fn min_int(a: int, b: int) -> int {
    if a <= b {
        a
    } else {
        b
    }
}

pub open spec fn max_int(a: int, b: int) -> int {
    if a >= b {
        a
    } else {
        b
    }
}

/// The range a new error entry gets: its ends in order.
pub open spec fn error_entry(id: u64, start: int, end: int, tooltip: Option<String>) -> ErrorRange {
    ErrorRange {
        id,
        start: min_int(start, end) as usize,
        end: max_int(start, end) as usize,
        tooltip,
    }
}

/// `post` is `pre` with one error range `[start, end)` (ends in order) appended under
/// the next id, and the id counter advanced (saturating).
pub open spec fn error_added(
    pre: EditorState,
    post: EditorState,
    start: int,
    end: int,
    tooltip: Option<String>,
) -> bool {
    &&& post.error_ranges@ == pre.error_ranges@.push(
        error_entry(pre._internal_next_error_id, start, end, tooltip),
    )
    &&& post == (EditorState {
        error_ranges: post.error_ranges,
        _internal_next_error_id: pre._internal_next_error_id.saturating_add(1),
        ..pre
    })
}

/// Holds of the ranges whose id is not `id`.
pub open spec fn id_differs(id: u64) -> spec_fn(ErrorRange) -> bool {
    |r: ErrorRange| r.id != id
}

/// `post` is `pre` with only its error ranges replaced.
pub open spec fn only_errors_changed(pre: EditorState, post: EditorState) -> bool {
    post == (EditorState { error_ranges: post.error_ranges, ..pre })
}

/// Position with a 1-based line of the byte offset `idx` (clamped to the text).
pub open spec fn one_based_position(s: Seq<char>, idx: int) -> (usize, usize) {
    let i = min_int(idx, utf8_len(s) as int);
    let p = byte_to_line_col(s, i);
    ((p.0 + 1) as usize, p.1 as usize)
}

/// Byte offset of a selection end point, whose line is 1-based.
pub open spec fn selection_point_byte(s: Seq<char>, p: (usize, usize)) -> int {
    line_col_to_byte(s, p.0.saturating_sub(1) as int, p.1 as int)
}

/// Index of the first range with the given id, or the length if there is none.
pub open spec fn first_with_id(ranges: Seq<ErrorRange>, id: u64, from: int) -> int
    decreases ranges.len() - from,
{
    if from < 0 || from >= ranges.len() {
        ranges.len() as int
    } else if ranges[from].id == id {
        from
    } else {
        first_with_id(ranges, id, from + 1)
    }
}

proof fn lemma_first_with_id(ranges: Seq<ErrorRange>, id: u64, from: int)
    requires
        0 <= from <= ranges.len(),
    ensures
        from <= first_with_id(ranges, id, from) <= ranges.len(),
        first_with_id(ranges, id, from) < ranges.len() ==> ranges[first_with_id(
            ranges,
            id,
            from,
        )].id == id,
        forall|k: int| from <= k < first_with_id(ranges, id, from) ==> #[trigger] ranges[k].id != id,
    decreases ranges.len() - from,
{
    if from < ranges.len() && ranges[from].id != id {
        lemma_first_with_id(ranges, id, from + 1);
    }
}

/// The selection `(start, end)` after selecting from `a` to `b`, in document order.
pub open spec fn ordered_points(a: (usize, usize), b: (usize, usize)) -> ((usize, usize), (
    usize,
    usize,
)) {
    if a.0 < b.0 || (a.0 == b.0 && a.1 <= b.1) {
        (a, b)
    } else {
        (b, a)
    }
}

impl EditorState {
    /// Selects the bytes `[start, end)` of `content` (each end clamped to the content).
    /// With `scroll`, the start line becomes active and a scroll to it is requested.
    pub fn set_selection_range_bytes(&mut self, start: usize, end: usize, content: &str, scroll: bool)
        ensures
            ({
                let sp = one_based_position(content@, start as int);
                let ep = one_based_position(content@, end as int);
                *final(self) == (EditorState {
                    selection_start: Some(sp),
                    selection_end: Some(ep),
                    selected_lines: Some((sp.0, ep.0)),
                    active_line: if scroll {
                        Some(sp.0)
                    } else {
                        old(self).active_line
                    },
                    _internal_should_scroll_to_active_line: scroll
                        || old(self)._internal_should_scroll_to_active_line,
                    ..*old(self)
                })
            }),
    {
        let len = byte_len(content);
        let s = if start < len {
            start
        } else {
            len
        };
        let e = if end < len {
            end
        } else {
            len
        };
        proof {
            lemma_byte_to_line_col_bounds(content@, s as int);
            lemma_byte_to_line_col_bounds(content@, e as int);
            lemma_utf8_len_bounds(content@);
        }
        let (s_line, s_col) = byte_index_to_line_col(content, s);
        let (e_line, e_col) = byte_index_to_line_col(content, e);
        self.selection_start = Some((s_line + 1, s_col));
        self.selection_end = Some((e_line + 1, e_col));
        self.selected_lines = Some((s_line + 1, e_line + 1));
        if scroll {
            self.active_line = Some(s_line + 1);
            self._internal_should_scroll_to_active_line = true;
        }
    }

    /// Clears any selection.
    pub fn clear_selection(&mut self)
        ensures
            *final(self) == (EditorState {
                selection_start: None,
                selection_end: None,
                selected_lines: None,
                ..*old(self)
            }),
    {
        self.selection_start = None;
        self.selection_end = None;
        self.selected_lines = None;
    }

    /// Marks the bytes between `start` and `end` (in either order) as an error.
    /// Returns the id of the new range.
    pub fn add_error_range_bytes(&mut self, start: usize, end: usize) -> (id: u64)
        ensures
            id == old(self)._internal_next_error_id,
            error_added(*old(self), *final(self), start as int, end as int, None),
    {
        let s = if start <= end {
            start
        } else {
            end
        };
        let e = if end >= start {
            end
        } else {
            start
        };
        let id = self._internal_next_error_id;
        self._internal_next_error_id = self._internal_next_error_id.saturating_add(1);
        self.error_ranges.push(ErrorRange { id, start: s, end: e, tooltip: None });
        id
    }

    /// Marks the bytes between `start` and `end` (in either order) as an error with a
    /// tooltip. Returns the id of the new range.
    pub fn add_error_range_bytes_with_tooltip<T: Into<String>>(
        &mut self,
        start: usize,
        end: usize,
        tooltip: T,
    ) -> (id: u64)
        ensures
            id == old(self)._internal_next_error_id,
            exists|text: String|
                #![trigger error_entry(id, start as int, end as int, Some(text))]
                error_added(*old(self), *final(self), start as int, end as int, Some(text)) && (<T as IntoSpec<String>>::obeys_into_spec() ==> text == tooltip.into_spec()),
    {
        let s = if start <= end {
            start
        } else {
            end
        };
        let e = if end >= start {
            end
        } else {
            start
        };
        let text: String = tooltip.into();
        let id = self._internal_next_error_id;
        self._internal_next_error_id = self._internal_next_error_id.saturating_add(1);
        self.error_ranges.push(ErrorRange { id, start: s, end: e, tooltip: Some(text) });
        proof {
            assert(error_added(*old(self), *self, start as int, end as int, Some(text)));
        }
        id
    }

    /// Marks the current selection as an error, mapping its (line, column) ends to
    /// byte offsets of `content`. Does nothing without a selection.
    pub fn add_error_from_selection(&mut self, content: &str)
        ensures
            match (old(self).selection_start, old(self).selection_end) {
                (Some(a), Some(b)) => error_added(
                    *old(self),
                    *final(self),
                    selection_point_byte(content@, a),
                    selection_point_byte(content@, b),
                    None,
                ),
                _ => *final(self) == *old(self),
            },
    {
        if let (Some((s_line, s_col)), Some((e_line, e_col))) = (
            self.selection_start,
            self.selection_end,
        ) {
            let s_byte = line_col_to_byte_index(content, s_line.saturating_sub(1), s_col);
            let e_byte = line_col_to_byte_index(content, e_line.saturating_sub(1), e_col);
            self.add_error_range_bytes(s_byte, e_byte);
        }
    }

    /// Marks a whole (1-based) line as an error: the bytes from its first char to its
    /// end. Nothing happens for line 0 or a line past the end.
    pub fn add_error_for_line(&mut self, line_one_based: usize, content: &str)
        ensures
            ({
                let idx = line_one_based - 1;
                let lines = text_lines(content@);
                if line_one_based >= 1 && idx < lines.len() {
                    let start = line_col_to_byte(content@, idx, 0);
                    error_added(
                        *old(self),
                        *final(self),
                        start,
                        start + utf8_len(lines[idx]),
                        None,
                    )
                } else {
                    *final(self) == *old(self)
                }
            }),
    {
        if line_one_based == 0 {
            return;
        }
        let line_idx = line_one_based - 1;
        let (chars, _total) = chars_of(content);
        let spans = line_spans(&chars);
        if line_idx < spans.len() {
            let (a, b) = spans[line_idx];
            proof {
                assert(text_lines(content@)[line_idx as int] == span_text(
                    chars@,
                    spans@[line_idx as int],
                ));
                assert(spans@[line_idx as int].0 <= spans@[line_idx as int].1 <= chars@.len());
                lemma_line_bytes(content@, line_idx as int);
                lemma_line_ranges_wf(content@);
                assert(line_ranges(content@)[line_idx as int] == span_int(spans@[line_idx as int]));
                assert(line_ranges(content@)[line_idx as int].0 + 0 == a);
            }
            let line_len = range_utf8_len(&chars, a, b);
            let start = line_col_to_byte_index(content, line_idx, 0);
            self.add_error_range_bytes(start, start + line_len);
        }
    }

    /// Selects from (start line, start column) to (end line, end column); lines are
    /// 1-based, columns are char indices. The two ends are put in document order.
    /// With `scroll`, the start line becomes active and a scroll is requested.
    pub fn set_selection_range_line_col(
        &mut self,
        start_line: usize,
        start_col: usize,
        end_line: usize,
        end_col: usize,
        scroll: bool,
    )
        ensures
            ({
                let (a, b) = ordered_points((start_line, start_col), (end_line, end_col));
                *final(self) == (EditorState {
                    selection_start: Some(a),
                    selection_end: Some(b),
                    selected_lines: Some((a.0, b.0)),
                    active_line: if scroll {
                        Some(a.0)
                    } else {
                        old(self).active_line
                    },
                    _internal_should_scroll_to_active_line: scroll
                        || old(self)._internal_should_scroll_to_active_line,
                    ..*old(self)
                })
            }),
    {
        let in_order = start_line < end_line || (start_line == end_line && start_col <= end_col);
        let (s_line, s_col, e_line, e_col) = if in_order {
            (start_line, start_col, end_line, end_col)
        } else {
            (end_line, end_col, start_line, start_col)
        };
        self.selection_start = Some((s_line, s_col));
        self.selection_end = Some((e_line, e_col));
        self.selected_lines = Some((s_line, e_line));
        if scroll {
            self.active_line = Some(s_line);
            self._internal_should_scroll_to_active_line = true;
        }
    }

    /// Marks columns `[start_col, end_col)` (either order, clamped to the line) of a
    /// (1-based) line as an error. Nothing happens for line 0 or a line past the end.
    pub fn add_error_range_line_col(
        &mut self,
        line_one_based: usize,
        start_col: usize,
        end_col: usize,
        content: &str,
    )
        ensures
            ({
                let lines = text_lines(content@);
                let idx = line_one_based - 1;
                if line_one_based >= 1 && idx < lines.len() {
                    let w = lines[idx].len() as int;
                    error_added(
                        *old(self),
                        *final(self),
                        line_col_to_byte(content@, idx, min_int(start_col as int, w)),
                        line_col_to_byte(content@, idx, min_int(end_col as int, w)),
                        None,
                    )
                } else {
                    *final(self) == *old(self)
                }
            }),
    {
        if line_one_based == 0 {
            return;
        }
        let line_idx = line_one_based - 1;
        let (chars, _total) = chars_of(content);
        let spans = line_spans(&chars);
        if line_idx < spans.len() {
            let (a, b) = spans[line_idx];
            proof {
                assert(text_lines(content@)[line_idx as int] == span_text(
                    chars@,
                    spans@[line_idx as int],
                ));
                assert(spans@[line_idx as int].0 <= spans@[line_idx as int].1 <= chars@.len());
            }
            let max_cols = b - a;
            let s_col = if start_col < max_cols {
                start_col
            } else {
                max_cols
            };
            let e_col = if end_col < max_cols {
                end_col
            } else {
                max_cols
            };
            let s_byte = line_col_to_byte_index(content, line_idx, s_col);
            let e_byte = line_col_to_byte_index(content, line_idx, e_col);
            self.add_error_range_bytes(s_byte, e_byte);
        }
    }

    /// The selected text: the bytes of `content` between the selection's ends, in
    /// either order; `None` without a selection.
    pub fn selected_text<'a>(&self, content: &'a str) -> (res: Option<&'a str>)
        ensures
            match (self.selection_start, self.selection_end) {
                (Some(a), Some(b)) => {
                    let x = selection_point_byte(content@, a);
                    let y = selection_point_byte(content@, b);
                    &&& res is Some
                    &&& res.unwrap().spec_bytes() == content.spec_bytes().subrange(
                        min_int(x, y),
                        max_int(x, y),
                    )
                },
                _ => res is None,
            },
    {
        if let (Some((s_line, s_col)), Some((e_line, e_col))) = (
            self.selection_start,
            self.selection_end,
        ) {
            let s_byte = line_col_to_byte_index(content, s_line.saturating_sub(1), s_col);
            let e_byte = line_col_to_byte_index(content, e_line.saturating_sub(1), e_col);
            let (start, end) = if s_byte <= e_byte {
                (s_byte, e_byte)
            } else {
                (e_byte, s_byte)
            };
            proof {
                law_line_col_on_char_boundary(content@, s_line.saturating_sub(1) as int, s_col as int);
                law_line_col_on_char_boundary(content@, e_line.saturating_sub(1) as int, e_col as int);
            }
            return Some(byte_slice(content, start, end));
        }
        None
    }

    /// Replaces all error ranges.
    pub fn set_error_ranges(&mut self, ranges: Vec<ErrorRange>)
        ensures
            *final(self) == (EditorState { error_ranges: ranges, ..*old(self) }),
    {
        self.error_ranges = ranges;
    }

    /// Removes every error range with the given id. Returns whether one was removed.
    pub fn remove_error_range(&mut self, id: u64) -> (removed: bool)
        ensures
            final(self).error_ranges@ == old(self).error_ranges@.filter(id_differs(id)),
            removed == exists|k: int|
                0 <= k < old(self).error_ranges@.len() && #[trigger] old(
                    self,
                ).error_ranges@[k].id == id,
            only_errors_changed(*old(self), *final(self)),
    {
        let ghost orig = self.error_ranges@;
                let orig_len = self.error_ranges.len();
        let mut i: usize = 0;
        let ghost mut k: int = 0;
        while i < self.error_ranges.len()
            invariant
                0 <= i <= k <= orig.len(),
                self.error_ranges@ == orig.take(k).filter(id_differs(id)) + orig.skip(k),
                i == orig.take(k).filter(id_differs(id)).len(),
                (k > i) == (exists|m: int| 0 <= m < k && #[trigger] orig[m].id == id),
                orig_len == orig.len(),
                only_errors_changed(*old(self), *self),
                orig == old(self).error_ranges@,
            decreases orig.len() - k,
        {
            proof {
                if k >= orig.len() {
                    assert(orig.skip(k).len() == 0);
                    assert(self.error_ranges@.len() == i);
                }
                assert(k < orig.len());
                assert(orig.take(k + 1).drop_last() =~= orig.take(k));
                assert(orig.take(k + 1).last() == orig[k]);
                assert(self.error_ranges@[i as int] == orig[k]) by {
                    assert(orig.skip(k)[0] == orig[k]);
                }
            }
            if self.error_ranges[i].id == id {
                self.error_ranges.remove(i);
                proof {
                    reveal_with_fuel(Seq::<_>::filter, 1);
                    assert(orig[k].id == id);
                    assert(!id_differs(id)(orig[k]));
                    assert(orig.take(k + 1).filter(id_differs(id)) == orig.take(k).filter(id_differs(id)));
                    assert(self.error_ranges@ =~= orig.take(k + 1).filter(id_differs(id)) + orig.skip(k + 1));
                    k = k + 1;
                }
            } else {
                proof {
                    reveal_with_fuel(Seq::<_>::filter, 1);
                    assert(id_differs(id)(orig[k]));
                    assert(orig.take(k + 1).filter(id_differs(id)) == orig.take(k).filter(id_differs(id)).push(orig[k]));
                    assert(self.error_ranges@ =~= orig.take(k + 1).filter(id_differs(id)) + orig.skip(k + 1));
                    k = k + 1;
                }
                i = i + 1;
            }
        }
        proof {
            assert(orig.take(orig.len() as int) =~= orig);
            assert(self.error_ranges@ =~= orig.take(k).filter(id_differs(id)));
            if k < orig.len() {
                assert(orig.skip(k).len() > 0);
            }
            assert(k == orig.len());
        }
        orig_len != self.error_ranges.len()
    }

    /// Updates the first error range with the given id: its ends (put in order) and
    /// tooltip. Returns whether a range had that id.
    pub fn update_error_range(&mut self, id: u64, start: usize, end: usize, tooltip: Option<String>) -> (updated: bool)
        ensures
            ({
                let k = first_with_id(old(self).error_ranges@, id, 0);
                &&& updated == (k < old(self).error_ranges@.len())
                &&& updated ==> final(self).error_ranges@ == old(self).error_ranges@.update(
                    k,
                    error_entry(id, start as int, end as int, tooltip),
                )
                &&& !updated ==> final(self).error_ranges@ == old(self).error_ranges@
            }),
            only_errors_changed(*old(self), *final(self)),
    {
        let ghost orig = self.error_ranges@;
        proof {
            lemma_first_with_id(orig, id, 0);
        }
        let n = self.error_ranges.len();
        let mut k: usize = 0;
        while k < n
            invariant
                n == orig.len(),
                k <= n,
                orig == self.error_ranges@,
                orig == old(self).error_ranges@,
                only_errors_changed(*old(self), *self),
                first_with_id(orig, id, k as int) == first_with_id(orig, id, 0),
            decreases n - k,
        {
            if self.error_ranges[k].id == id {
                let s = if start <= end {
                    start
                } else {
                    end
                };
                let e = if end >= start {
                    end
                } else {
                    start
                };
                self.error_ranges.remove(k);
                self.error_ranges.insert(k, ErrorRange { id, start: s, end: e, tooltip });
                proof {
                    assert(self.error_ranges@ =~= orig.update(
                        k as int,
                        error_entry(id, start as int, end as int, tooltip),
                    ));
                }
                return true;
            }
            k = k + 1;
        }
        false
    }

    /// Removes all error ranges.
    pub fn clear_error_ranges(&mut self)
        ensures
            final(self).error_ranges@ == Seq::<ErrorRange>::empty(),
            only_errors_changed(*old(self), *final(self)),
    {
        self.error_ranges.clear();
    }

    /// Scrolls to a (1-based) line: it becomes the active line and a scroll is requested.
    pub fn scroll_to_line(&mut self, line_one_based: usize)
        ensures
            *final(self) == (EditorState {
                active_line: Some(line_one_based),
                _internal_should_scroll_to_active_line: true,
                ..*old(self)
            }),
    {
        self.active_line = Some(line_one_based);
        self._internal_should_scroll_to_active_line = true;
    }
}

/// The bytes `[start, end)` of `s`; both ends must be char boundaries.
pub fn byte_slice<'a>(s: &'a str, start: usize, end: usize) -> (r: &'a str)
    requires
        start <= end,
        is_char_boundary(s.spec_bytes(), start as int),
        is_char_boundary(s.spec_bytes(), end as int),
    ensures
        r.spec_bytes() == s.spec_bytes().subrange(start as int, end as int),
{
    let ghost bytes = s.spec_bytes();
    proof {
        broadcast use vstd::utf8::encode_utf8_valid_utf8;
        assert(valid_utf8(bytes));
        assert(end <= bytes.len()) by {
            if end > bytes.len() {
                assert(!is_char_boundary(bytes, end as int));
            }
        }
        vstd::utf8::valid_utf8_split(bytes, start as int);
    }
    let (_head, rest) = s.split_at(start);
    proof {
        let sub = bytes.subrange(start as int, bytes.len() as int);
        assert(rest.spec_bytes() == sub);
        if end < bytes.len() {
            vstd::utf8::is_char_boundary_iff_not_is_continuation_byte(bytes, end as int);
            vstd::utf8::is_char_boundary_iff_not_is_continuation_byte(sub, end - start);
            assert(sub[end - start] == bytes[end as int]);
        } else {
            vstd::utf8::is_char_boundary_start_end_of_seq(sub);
        }
    }
    let (mid, _tail) = rest.split_at(end - start);
    proof {
        assert(mid.spec_bytes() =~= bytes.subrange(start as int, end as int));
    }
    mid
}

/// Ids handed out by two successive additions increase, as long as the id counter
/// has not reached its maximum.
pub proof fn law_successive_ids_increase(
    pre: EditorState,
    mid: EditorState,
    post: EditorState,
    s1: int,
    e1: int,
    t1: Option<String>,
    s2: int,
    e2: int,
    t2: Option<String>,
)
    requires
        error_added(pre, mid, s1, e1, t1),
        error_added(mid, post, s2, e2, t2),
        pre._internal_next_error_id < u64::MAX,
    ensures
        post.error_ranges@[pre.error_ranges@.len() as int].id < post.error_ranges@[pre.error_ranges@.len()
            + 1int].id,
{
    assert(post.error_ranges@[pre.error_ranges@.len() as int] == mid.error_ranges@[pre.error_ranges@.len() as int]);
}

/// A newly added range has its ends in order and is the first range with its id
/// unless an older range already carries that id; either way it can be found by id,
/// so removing or updating that id afterwards succeeds.
pub proof fn law_added_range_found(pre: EditorState, post: EditorState, s: int, e: int, t: Option<String>)
    requires
        error_added(pre, post, s, e, t),
        0 <= s <= usize::MAX,
        0 <= e <= usize::MAX,
    ensures
        post.error_ranges@.last().start <= post.error_ranges@.last().end,
        post.error_ranges@.last().id == pre._internal_next_error_id,
        first_with_id(post.error_ranges@, pre._internal_next_error_id, 0) < post.error_ranges@.len(),
        exists|k: int|
            0 <= k < post.error_ranges@.len() && #[trigger] post.error_ranges@[k].id
                == pre._internal_next_error_id,
{
    let r = post.error_ranges@;
    let id = pre._internal_next_error_id;
    lemma_first_with_id(r, id, 0);
    if first_with_id(r, id, 0) >= r.len() {
        assert(r[r.len() - 1].id != id);
    }
    assert(r[r.len() - 1].id == id);
}

/// After the ranges with an id are removed, no range carries that id, and the
/// removal of an id that no range carries changes nothing.
pub proof fn law_removed_id_gone(ranges: Seq<ErrorRange>, id: u64)
    ensures
        forall|k: int|
            0 <= k < ranges.filter(id_differs(id)).len() ==> #[trigger] ranges.filter(
                id_differs(id),
            )[k].id != id,
        (forall|k: int| 0 <= k < ranges.len() ==> #[trigger] ranges[k].id != id) ==> ranges.filter(
            id_differs(id),
        ) == ranges,
    decreases ranges.len(),
{
    reveal_with_fuel(Seq::<_>::filter, 1);
    if ranges.len() > 0 {
        law_removed_id_gone(ranges.drop_last(), id);
        let f = ranges.filter(id_differs(id));
        let g = ranges.drop_last().filter(id_differs(id));
        assert forall|k: int| 0 <= k < f.len() implies #[trigger] f[k].id != id by {
            if k < g.len() {
                assert(f[k] == g[k]);
            }
        }
        if forall|k: int| 0 <= k < ranges.len() ==> #[trigger] ranges[k].id != id {
            assert forall|k: int| 0 <= k < ranges.drop_last().len() implies #[trigger] ranges.drop_last()[k].id != id by {
                assert(ranges.drop_last()[k] == ranges[k]);
            }
            assert(ranges.last().id != id);
            assert(ranges.drop_last().push(ranges.last()) =~= ranges);
        }
    } else {
        assert(ranges.filter(id_differs(id)) =~= ranges);
    }
}

/// A selection set by line and column never ends before it starts, and its ends
/// are the two given points.
pub proof fn law_selection_in_order(a: (usize, usize), b: (usize, usize))
    ensures
        ({
            let (x, y) = ordered_points(a, b);
            &&& x.0 < y.0 || (x.0 == y.0 && x.1 <= y.1)
            &&& (x == a && y == b) || (x == b && y == a)
        }),
{
}

/// Selecting the bytes from `start` to `end`, with `start <= end`, gives a selection
/// that does not end before it starts.
pub proof fn law_byte_selection_in_order(s: Seq<char>, start: int, end: int)
    requires
        0 <= start <= end,
        utf8_len(s) <= usize::MAX,
    ensures
        ({
            let a = one_based_position(s, start);
            let b = one_based_position(s, end);
            a.0 < b.0 || (a.0 == b.0 && a.1 <= b.1)
        }),
{
    let n = utf8_len(s) as int;
    let x = min_int(start, n);
    let y = min_int(end, n);
    law_byte_to_line_col_monotone(s, x, y);
    lemma_byte_to_line_col_bounds(s, x);
    lemma_byte_to_line_col_bounds(s, y);
    lemma_utf8_len_bounds(s);
    let p = byte_to_line_col(s, x);
    let q = byte_to_line_col(s, y);
    if text_lines(s).len() > 0 {
        lemma_line_len_bound(s, p.0);
        lemma_line_len_bound(s, q.0);
    }
}

/// In a text where no line ends in `"\r\n"`, selecting the bytes `[start, end)`, both
/// char boundaries before the end of the text, and reading the selection back gives
/// those bytes: each end of the selection maps back to its own byte offset, so the
/// range that [`EditorState::selected_text`] reads is `[start, end)`.
pub proof fn law_byte_selection_reads_back(s: Seq<char>, start: int, end: int)
    requires
        no_crlf(s),
        0 <= start <= end < utf8_len(s),
        utf8_len(s) <= usize::MAX,
        is_char_boundary(encode_utf8(s), start),
        is_char_boundary(encode_utf8(s), end),
    ensures
        selection_point_byte(s, one_based_position(s, start)) == start,
        selection_point_byte(s, one_based_position(s, end)) == end,
        ({
            let x = selection_point_byte(s, one_based_position(s, start));
            let y = selection_point_byte(s, one_based_position(s, end));
            min_int(x, y) == start && max_int(x, y) == end
        }),
{
    lemma_point_reads_back(s, start);
    lemma_point_reads_back(s, end);
}

proof fn lemma_point_reads_back(s: Seq<char>, x: int)
    requires
        no_crlf(s),
        0 <= x < utf8_len(s),
        utf8_len(s) <= usize::MAX,
        is_char_boundary(encode_utf8(s), x),
    ensures
        selection_point_byte(s, one_based_position(s, x)) == x,
{
    let p = byte_to_line_col(s, x);
    lemma_byte_to_line_col_bounds(s, x);
    lemma_utf8_len_bounds(s);
    if text_lines(s).len() > 0 {
        lemma_line_len_bound(s, p.0);
    }
    law_byte_round_trip(s, x);
}

} // verus!
