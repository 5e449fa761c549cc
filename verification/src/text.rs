//! Text helpers: character classes, UTF-8 widths and the mapping between
//! byte offsets and (line, column) positions.

use vstd::prelude::*;
use vstd::utf8::*;

verus! {

/// Number of bytes of the UTF-8 encoding of `c`.
pub open spec fn char_width(c: char) -> nat {
    if (c as u32) < 0x80 {
        1
    } else if (c as u32) < 0x800 {
        2
    } else if (c as u32) < 0x10000 {
        3
    } else {
        4
    }
}

/// Number of bytes of the UTF-8 encoding of `s`.
pub open spec fn utf8_len(s: Seq<char>) -> nat
    decreases s.len(),
{
    if s.len() == 0 {
        0
    } else {
        utf8_len(s.drop_last()) + char_width(s.last())
    }
}

pub proof fn lemma_char_width_encode(c: char)
    ensures
        encode_scalar(c as u32).len() == char_width(c),
        1 <= char_width(c) <= 4,
{
    broadcast use char_is_scalar;
    assert(is_scalar(c as u32));
}

pub proof fn lemma_encode_utf8_concat(a: Seq<char>, b: Seq<char>)
    ensures
        encode_utf8(a + b) == encode_utf8(a) + encode_utf8(b),
    decreases a.len(),
{
    if a.len() == 0 {
        assert(a + b =~= b);
        assert(encode_utf8(a) =~= Seq::<u8>::empty());
        assert(encode_utf8(a) + encode_utf8(b) =~= encode_utf8(b));
    } else {
        assert((a + b).drop_first() =~= a.drop_first() + b);
        lemma_encode_utf8_concat(a.drop_first(), b);
        assert((a + b)[0] == a[0]);
        assert(encode_utf8(a + b) =~= encode_scalar(a[0] as u32) + encode_utf8(a.drop_first() + b));
        assert(encode_utf8(a) + encode_utf8(b) =~= encode_scalar(a[0] as u32) + (encode_utf8(
            a.drop_first(),
        ) + encode_utf8(b)));
    }
}

pub proof fn lemma_utf8_len_encode(s: Seq<char>)
    ensures
        encode_utf8(s).len() == utf8_len(s),
    decreases s.len(),
{
    if s.len() > 0 {
        lemma_utf8_len_encode(s.drop_last());
        assert(s =~= s.drop_last() + seq![s.last()]);
        lemma_encode_utf8_concat(s.drop_last(), seq![s.last()]);
        assert(seq![s.last()].drop_first() =~= Seq::<char>::empty());
        assert(encode_utf8(seq![s.last()]) =~= encode_scalar(s.last() as u32) + encode_utf8(
            Seq::<char>::empty(),
        ));
        lemma_char_width_encode(s.last());
    }
}

pub proof fn lemma_utf8_len_concat(a: Seq<char>, b: Seq<char>)
    ensures
        utf8_len(a + b) == utf8_len(a) + utf8_len(b),
    decreases b.len(),
{
    if b.len() == 0 {
        assert(a + b =~= a);
    } else {
        assert((a + b).drop_last() =~= a + b.drop_last());
        lemma_utf8_len_concat(a, b.drop_last());
    }
}

pub proof fn lemma_utf8_len_bounds(s: Seq<char>)
    ensures
        s.len() <= utf8_len(s) <= 4 * s.len(),
    decreases s.len(),
{
    if s.len() > 0 {
        lemma_utf8_len_bounds(s.drop_last());
    }
}

/// The bytes of a subrange never outnumber the bytes of the whole.
pub proof fn lemma_utf8_len_subrange(s: Seq<char>, a: int, b: int)
    requires
        0 <= a <= b <= s.len(),
    ensures
        utf8_len(s.subrange(a, b)) <= utf8_len(s),
        utf8_len(s.take(b)) == utf8_len(s.take(a)) + utf8_len(s.subrange(a, b)),
{
    assert(s =~= s.take(a) + s.subrange(a, b) + s.subrange(b, s.len() as int));
    lemma_utf8_len_concat(s.take(a), s.subrange(a, b));
    lemma_utf8_len_concat(s.take(a) + s.subrange(a, b), s.subrange(b, s.len() as int));
    assert(s.take(b) =~= s.take(a) + s.subrange(a, b));
}

/// Byte width of one character.
pub fn char_utf8_width(c: char) -> (w: usize)
    ensures
        w == char_width(c),
{
    let v = c as u32;
    if v < 0x80 {
        1
    } else if v < 0x800 {
        2
    } else if v < 0x10000 {
        3
    } else {
        4
    }
}

/// The characters of `s`, with the number of bytes of its encoding.
pub fn chars_of(s: &str) -> (res: (Vec<char>, usize))
    ensures
        res.0@ == s@,
        res.1 == utf8_len(s@),
{
    let bytes = s.as_bytes();
    let total = bytes.len();
    proof {
        lemma_utf8_len_encode(s@);
    }
    let mut v: Vec<char> = Vec::new();
    for c in it: s.chars()
        invariant
            v@ == it.seq().take(it.index() as int),
    {
        v.push(c);
    }
    (v, total)
}


/// Index of the first `'\n'` at or after `i` in `s`, or `s.len()` if none.
pub open spec fn newline_from(s: Seq<char>, i: int) -> int
    decreases s.len() - i,
{
    if i < 0 || i >= s.len() {
        s.len() as int
    } else if s[i] == '\n' {
        i
    } else {
        newline_from(s, i + 1)
    }
}

pub proof fn lemma_newline_from(s: Seq<char>, i: int)
    requires
        0 <= i <= s.len(),
    ensures
        i <= newline_from(s, i) <= s.len(),
        newline_from(s, i) < s.len() ==> s[newline_from(s, i)] == '\n',
        forall|k: int| i <= k < newline_from(s, i) ==> s[k] != '\n',
    decreases s.len() - i,
{
    if i < s.len() && s[i] != '\n' {
        lemma_newline_from(s, i + 1);
    }
}

/// The char ranges `[start, end)` of the lines of `s` from position `i` on, as
/// `str::lines` yields them: the text is split after each `'\n'`, the `'\n'` (and a
/// `'\r'` just before it) is left out, and an empty piece after a final `'\n'`
/// yields no line.
pub open spec fn line_ranges_from(s: Seq<char>, i: int) -> Seq<(int, int)>
    decreases s.len() - i,
{
    if i < 0 || i >= s.len() {
        Seq::empty()
    } else {
        let j = newline_from(s, i);
        if j < s.len() {
            proof {
                lemma_newline_from(s, i);
            }
            let e = if j > i && s[j - 1] == '\r' {
                j - 1
            } else {
                j
            };
            seq![(i, e)] + line_ranges_from(s, j + 1)
        } else {
            seq![(i, s.len() as int)]
        }
    }
}

/// The char ranges of the lines of a text.
pub open spec fn line_ranges(s: Seq<char>) -> Seq<(int, int)> {
    line_ranges_from(s, 0)
}

/// The lines of a text, without their line breaks.
pub open spec fn text_lines(s: Seq<char>) -> Seq<Seq<char>> {
    line_ranges(s).map_values(|p: (int, int)| s.subrange(p.0, p.1))
}

/// A line range held in machine integers.
pub open spec fn span_int(p: (usize, usize)) -> (int, int) {
    (p.0 as int, p.1 as int)
}

/// Char range `[start, end)` of one line inside the text.
pub open spec fn span_text(s: Seq<char>, span: (usize, usize)) -> Seq<char> {
    s.subrange(span.0 as int, span.1 as int)
}

pub open spec fn spans_text(s: Seq<char>, spans: Seq<(usize, usize)>) -> Seq<Seq<char>> {
    spans.map_values(|p: (usize, usize)| span_text(s, p))
}

/// Well-formed line spans of `s`: ordered, inside the text, each ending at a line break
/// or at the end of the text.
pub open spec fn spans_wf(s: Seq<char>, spans: Seq<(usize, usize)>) -> bool {
    &&& forall|k: int| 0 <= k < spans.len() ==> #[trigger] spans[k].0 <= spans[k].1 <= s.len()
    &&& forall|k: int, m: int| 0 <= k < m < spans.len() ==> #[trigger] spans[k].1 < #[trigger] spans[m].0
}

/// The char ranges of the lines of `s`.
pub fn line_spans(s: &Vec<char>) -> (spans: Vec<(usize, usize)>)
    ensures
        spans@.map_values(|p: (usize, usize)| span_int(p)) == line_ranges(s@),
        spans_text(s@, spans@) == text_lines(s@),
        spans_wf(s@, spans@),
{
    let n = s.len();
    let mut spans: Vec<(usize, usize)> = Vec::new();
    let mut i: usize = 0;
    while i < n
        invariant
            n == s@.len(),
            i <= n,
            spans@.map_values(|p: (usize, usize)| span_int(p)) + line_ranges_from(s@, i as int)
                == line_ranges(s@),
            spans_wf(s@, spans@),
            i < n ==> forall|k: int| 0 <= k < spans@.len() ==> #[trigger] spans@[k].1 < i,
        decreases n - i,
    {
        let mut j = i;
        while j < n && s[j] != '\n'
            invariant
                n == s@.len(),
                i <= j <= n,
                forall|k: int| i <= k < j ==> s@[k] != '\n',
            decreases n - j,
        {
            j = j + 1;
        }
        proof {
            lemma_newline_from(s@, i as int);
            if newline_from(s@, i as int) < j {
                assert(s@[newline_from(s@, i as int)] == '\n');
            }
            if j < n && newline_from(s@, i as int) > j {
                assert(s@[j as int] != '\n');
            }
            assert(newline_from(s@, i as int) == j);
        }
        let ghost old_spans = spans@;
        if j < n {
            let end = if j > i && s[j - 1] == '\r' {
                j - 1
            } else {
                j
            };
            spans.push((i, end));
            proof {
                assert(spans@.map_values(|p: (usize, usize)| span_int(p)) =~= old_spans.map_values(
                    |p: (usize, usize)| span_int(p),
                ) + seq![(i as int, end as int)]);
            }
            i = j + 1;
        } else {
            spans.push((i, n));
            proof {
                assert(spans@.map_values(|p: (usize, usize)| span_int(p)) =~= old_spans.map_values(
                    |p: (usize, usize)| span_int(p),
                ) + seq![(i as int, n as int)]);
                assert(line_ranges_from(s@, n as int) =~= Seq::<(int, int)>::empty());
            }
            i = n;
        }
        proof {
            assert(spans@.map_values(|p: (usize, usize)| span_int(p)) + line_ranges_from(
                s@,
                i as int,
            ) =~= line_ranges(s@));
        }
    }
    proof {
        assert(line_ranges_from(s@, i as int) =~= Seq::<(int, int)>::empty());
        let m = spans@.map_values(|p: (usize, usize)| span_int(p));
        assert(m =~= m + line_ranges_from(s@, i as int));
        assert(spans_text(s@, spans@) =~= text_lines(s@));
    }
    spans
}

/// Byte length of the char range `[a, b)` of `s`.
pub fn range_utf8_len(s: &Vec<char>, a: usize, b: usize) -> (w: usize)
    requires
        a <= b <= s@.len(),
        utf8_len(s@) <= usize::MAX,
    ensures
        w == utf8_len(s@.subrange(a as int, b as int)),
{
    let mut w: usize = 0;
    let mut k: usize = a;
    while k < b
        invariant
            a <= k <= b <= s@.len(),
            utf8_len(s@) <= usize::MAX,
            w == utf8_len(s@.subrange(a as int, k as int)),
        decreases b - k,
    {
        proof {
            assert(s@.subrange(a as int, k + 1).drop_last() =~= s@.subrange(a as int, k as int));
            lemma_utf8_len_subrange(s@, a as int, k + 1);
        }
        w = w + char_utf8_width(s[k]);
        k = k + 1;
    }
    w
}

/// Byte offset of char position `m` of `s`: the bytes of the chars before it.
pub open spec fn prefix_bytes(s: Seq<char>, m: int) -> int {
    utf8_len(s.take(m)) as int
}

/// Byte offset of the first char of line `k` of `s`.
pub open spec fn line_start_byte(s: Seq<char>, k: int) -> int {
    prefix_bytes(s, line_ranges(s)[k].0)
}

/// Byte offset just past the last char of line `k` of `s` (where its line break
/// starts, if it has one).
pub open spec fn line_end_byte(s: Seq<char>, k: int) -> int {
    prefix_bytes(s, line_ranges(s)[k].1)
}

/// The first column `c' >= c` of `line` whose byte prefix reaches `b` bytes,
/// or the line's length if there is none.
pub open spec fn col_for_byte(line: Seq<char>, b: int, c: int) -> int
    decreases line.len() - c,
{
    if c < 0 || c >= line.len() {
        line.len() as int
    } else if b <= utf8_len(line.take(c)) {
        c
    } else {
        col_for_byte(line, b, c + 1)
    }
}

/// The last position of a text: end of its last line, or (0, 0) with no line.
pub open spec fn last_position(lines: Seq<Seq<char>>) -> (int, int) {
    if lines.len() > 0 {
        (lines.len() - 1, lines.last().len() as int)
    } else {
        (0, 0)
    }
}

/// Position of byte offset `idx` of `s`, searched from line `k` on: the first line
/// that does not end before `idx`, and in it the first column whose byte offset is
/// not before `idx`.
pub open spec fn locate_from(s: Seq<char>, k: int, idx: int) -> (int, int)
    decreases text_lines(s).len() - k,
{
    if k < 0 || k >= text_lines(s).len() {
        last_position(text_lines(s))
    } else if idx <= line_end_byte(s, k) {
        (k, col_for_byte(text_lines(s)[k], idx - line_start_byte(s, k), 0))
    } else {
        locate_from(s, k + 1, idx)
    }
}

/// (line, column) of byte offset `idx` of the text `s`: lines and columns from 0,
/// columns in chars. An offset inside a char rounds up to the next char, one inside
/// a line break goes to the end of the line or the start of the next, and one past
/// the end gives the end of the last line.
pub open spec fn byte_to_line_col(s: Seq<char>, idx: int) -> (int, int) {
    locate_from(s, 0, idx)
}

/// Byte offset of (line, column) in the text `s`: the offset of that char, with the
/// column clamped to the line; a line past the last one gives the byte length.
pub open spec fn line_col_to_byte(s: Seq<char>, line: int, col: int) -> int {
    let lines = text_lines(s);
    if 0 <= line < lines.len() {
        let c = if col < lines[line].len() {
            col
        } else {
            lines[line].len() as int
        };
        prefix_bytes(s, line_ranges(s)[line].0 + c)
    } else {
        utf8_len(s) as int
    }
}

proof fn lemma_utf8_len_take_grows(s: Seq<char>, x: int, y: int)
    requires
        0 <= x <= y <= s.len(),
    ensures
        utf8_len(s.take(x)) + (y - x) <= utf8_len(s.take(y)),
{
    lemma_utf8_len_subrange(s, x, y);
    lemma_utf8_len_bounds(s.subrange(x, y));
}

proof fn lemma_line_ranges_from_bounds(s: Seq<char>, i: int)
    requires
        0 <= i,
    ensures
        forall|k: int|
            0 <= k < line_ranges_from(s, i).len() ==> i <= #[trigger] line_ranges_from(s, i)[k].0
                <= line_ranges_from(s, i)[k].1 <= s.len(),
    decreases s.len() - i,
{
    if i < s.len() {
        lemma_newline_from(s, i);
        let j = newline_from(s, i);
        if j < s.len() {
            lemma_line_ranges_from_bounds(s, j + 1);
            let r = line_ranges_from(s, i);
            let rest = line_ranges_from(s, j + 1);
            assert forall|k: int| 0 <= k < r.len() implies i <= #[trigger] r[k].0 <= r[k].1 <= s.len() by {
                if k > 0 {
                    assert(r[k] == rest[k - 1]);
                }
            }
        }
    }
}

proof fn lemma_line_ranges_from_sorted(s: Seq<char>, i: int)
    requires
        0 <= i,
    ensures
        forall|j: int, k: int|
            0 <= j < k < line_ranges_from(s, i).len() ==> #[trigger] line_ranges_from(s, i)[j].1
                < #[trigger] line_ranges_from(s, i)[k].0,
    decreases s.len() - i,
{
    if i < s.len() {
        lemma_newline_from(s, i);
        let j0 = newline_from(s, i);
        if j0 < s.len() {
            lemma_line_ranges_from_sorted(s, j0 + 1);
            lemma_line_ranges_from_bounds(s, j0 + 1);
            let r = line_ranges_from(s, i);
            let rest = line_ranges_from(s, j0 + 1);
            assert forall|j: int, k: int| 0 <= j < k < r.len() implies #[trigger] r[j].1
                < #[trigger] r[k].0 by {
                assert(r[k] == rest[k - 1]);
                if j > 0 {
                    assert(r[j] == rest[j - 1]);
                }
            }
        }
    }
}

/// The line ranges of a text lie inside it, in order, and match its lines.
pub proof fn lemma_line_ranges_wf(s: Seq<char>)
    ensures
        text_lines(s).len() == line_ranges(s).len(),
        forall|k: int|
            0 <= k < line_ranges(s).len() ==> 0 <= #[trigger] line_ranges(s)[k].0
                <= line_ranges(s)[k].1 <= s.len(),
        forall|k: int|
            0 <= k < line_ranges(s).len() ==> #[trigger] text_lines(s)[k] == s.subrange(
                line_ranges(s)[k].0,
                line_ranges(s)[k].1,
            ),
        forall|j: int, k: int|
            0 <= j < k < line_ranges(s).len() ==> #[trigger] line_ranges(s)[j].1
                < #[trigger] line_ranges(s)[k].0,
{
    lemma_line_ranges_from_bounds(s, 0);
    lemma_line_ranges_from_sorted(s, 0);
    assert forall|k: int| 0 <= k < line_ranges(s).len() implies 0 <= #[trigger] line_ranges(s)[k].0
        <= line_ranges(s)[k].1 <= s.len() by {
        assert(line_ranges(s)[k] == line_ranges_from(s, 0)[k]);
    }
}

/// Byte offsets of a line's ends: the end is the start plus the line's bytes, and
/// lies inside the text.
pub proof fn lemma_line_bytes(s: Seq<char>, k: int)
    requires
        0 <= k < text_lines(s).len(),
    ensures
        0 <= line_start_byte(s, k) <= line_end_byte(s, k) <= utf8_len(s),
        line_end_byte(s, k) == line_start_byte(s, k) + utf8_len(text_lines(s)[k]),
{
    lemma_line_ranges_wf(s);
    let r = line_ranges(s)[k];
    assert(0 <= r.0 <= r.1 <= s.len());
    lemma_utf8_len_subrange(s, r.0, r.1);
    lemma_utf8_len_subrange(s, r.1, s.len() as int);
    assert(s.take(s.len() as int) =~= s);
}

/// (line, column) of byte offset `idx` in `content`; see [`byte_to_line_col`].
pub fn byte_index_to_line_col(content: &str, idx: usize) -> (res: (usize, usize))
    ensures
        res.0 == byte_to_line_col(content@, idx as int).0,
        res.1 == byte_to_line_col(content@, idx as int).1,
{
    let (chars, total) = chars_of(content);
    let spans = line_spans(&chars);
    let ghost s = content@;
    let ghost lines = text_lines(s);
    let n = spans.len();
    proof {
        lemma_line_ranges_wf(s);
        assert(spans@.map_values(|p: (usize, usize)| span_int(p)).len() == n);
    }
    let mut i: usize = 0;
    let mut start_b: usize = 0;
    while i < n
        invariant
            chars@ == s,
            s == content@,
            total == utf8_len(s),
            lines == text_lines(s),
            spans@.map_values(|p: (usize, usize)| span_int(p)) == line_ranges(s),
            n == spans@.len(),
            n == lines.len(),
            i <= n,
            i < n ==> start_b == line_start_byte(s, i as int),
            locate_from(s, i as int, idx as int) == byte_to_line_col(s, idx as int),
        decreases n - i,
    {
        let (a, b) = spans[i];
        proof {
            lemma_line_ranges_wf(s);
            lemma_line_bytes(s, i as int);
            assert(line_ranges(s)[i as int] == span_int(spans@[i as int]));
            assert(a <= b <= s.len());
            lemma_utf8_len_bounds(s);
        }
        let ghost line = lines[i as int];
        let end_b = start_b + range_utf8_len(&chars, a, b);
        if idx <= end_b {
            let mut byte_pos: usize = start_b;
            let mut c: usize = 0;
            while c < b - a
                invariant
                    a <= b <= chars@.len(),
                    chars@ == s,
                    line == s.subrange(a as int, b as int),
                    c <= b - a,
                    byte_pos == start_b + utf8_len(line.take(c as int)),
                    byte_pos <= end_b,
                    end_b == start_b + utf8_len(line),
                    col_for_byte(line, idx - start_b, c as int) == col_for_byte(
                        line,
                        idx - start_b,
                        0,
                    ),
                    i < n,
                    n == lines.len(),
                    lines == text_lines(s),
                    s == content@,
                    line == lines[i as int],
                    idx <= end_b,
                    start_b == line_start_byte(s, i as int),
                    end_b == line_end_byte(s, i as int),
                    locate_from(s, i as int, idx as int) == byte_to_line_col(s, idx as int),
                decreases b - a - c,
            {
                if idx <= byte_pos {
                    proof {
                        assert(0 <= i < text_lines(s).len());
                        assert(idx <= line_end_byte(s, i as int));
                        assert(col_for_byte(line, idx - start_b, c as int) == c);
                        assert(locate_from(s, i as int, idx as int) == (
                            i as int,
                            col_for_byte(lines[i as int], idx - line_start_byte(s, i as int), 0),
                        ));
                    }
                    return (i, c);
                }
                proof {
                    assert(line.take(c + 1).drop_last() =~= line.take(c as int));
                    assert(line.take(c + 1).last() == s[a + c]);
                    lemma_utf8_len_subrange(line, 0, c + 1);
                    assert(line.take(c + 1) =~= line.subrange(0, c + 1));
                    assert(line.subrange(0, line.len() as int) =~= line);
                    lemma_utf8_len_subrange(line, c + 1, line.len() as int);
                }
                byte_pos = byte_pos + char_utf8_width(chars[a + c]);
                c = c + 1;
            }
            return (i, b - a);
        }
        if i + 1 < n {
            let (a2, _b2) = spans[i + 1];
            proof {
                assert(line_ranges(s)[i + 1] == span_int(spans@[i + 1]));
                assert(b < a2);
                lemma_utf8_len_subrange(s, b as int, a2 as int);
                lemma_line_bytes(s, i + 1);
            }
            start_b = end_b + range_utf8_len(&chars, b, a2);
        }
        i = i + 1;
    }
    if n == 0 {
        (0, 0)
    } else {
        let (a, b) = spans[n - 1];
        proof {
            lemma_line_ranges_wf(s);
            assert(line_ranges(s)[n - 1] == span_int(spans@[n - 1]));
            assert(lines.last() == s.subrange(a as int, b as int));
        }
        (n - 1, b - a)
    }
}

/// Byte offset of (line, column) in `content`; see [`line_col_to_byte`].
pub fn line_col_to_byte_index(content: &str, line_idx: usize, col: usize) -> (res: usize)
    ensures
        res == line_col_to_byte(content@, line_idx as int, col as int),
        res <= utf8_len(content@),
{
    let (chars, total) = chars_of(content);
    let spans = line_spans(&chars);
    let ghost s = content@;
    proof {
        lemma_line_ranges_wf(s);
        assert(spans@.map_values(|p: (usize, usize)| span_int(p)).len() == spans@.len());
    }
    if line_idx < spans.len() {
        let (a, b) = spans[line_idx];
        proof {
            assert(line_ranges(s)[line_idx as int] == span_int(spans@[line_idx as int]));
            assert(text_lines(s)[line_idx as int] == s.subrange(a as int, b as int));
        }
        let take = if col < b - a {
            col
        } else {
            b - a
        };
        let w = range_utf8_len(&chars, 0, a + take);
        proof {
            assert(s.subrange(0, a + take) =~= s.take(a + take));
            lemma_utf8_len_subrange(s, a + take, s.len() as int);
            assert(s.take(s.len() as int) =~= s);
        }
        w
    } else {
        total
    }
}

proof fn lemma_col_for_byte_prefix(x: Seq<char>, col: int, c: int)
    requires
        0 <= c <= col <= x.len(),
    ensures
        col_for_byte(x, utf8_len(x.take(col)) as int, c) == col,
    decreases col - c,
{
    if c < col {
        lemma_utf8_len_take_grows(x, c, col);
        lemma_col_for_byte_prefix(x, col, c + 1);
    }
}

proof fn lemma_locate_prefix(s: Seq<char>, line: int, col: int, k: int)
    requires
        0 <= k <= line < text_lines(s).len(),
        0 <= col <= text_lines(s)[line].len(),
    ensures
        locate_from(s, k, prefix_bytes(s, line_ranges(s)[line].0 + col)) == (line, col),
    decreases line - k,
{
    lemma_line_ranges_wf(s);
    let r = line_ranges(s)[line];
    let x = text_lines(s)[line];
    assert(0 <= r.0 <= r.1 <= s.len());
    lemma_utf8_len_subrange(s, r.0, r.0 + col);
    if k == line {
        lemma_utf8_len_subrange(s, r.0 + col, r.1);
        assert(x.take(col) =~= s.subrange(r.0, r.0 + col));
        lemma_col_for_byte_prefix(x, col, 0);
    } else {
        let rk = line_ranges(s)[k];
        assert(0 <= rk.0 <= rk.1 <= s.len());
        assert(rk.1 < r.0);
        lemma_utf8_len_take_grows(s, rk.1, r.0);
        lemma_locate_prefix(s, line, col, k + 1);
    }
}

/// Every position inside the text survives the trip to a byte offset and back:
/// `byte_index_to_line_col(line_col_to_byte_index(line, col)) == (line, col)`.
pub proof fn law_line_col_round_trip(s: Seq<char>, line: int, col: int)
    requires
        0 <= line < text_lines(s).len(),
        0 <= col <= text_lines(s)[line].len(),
    ensures
        byte_to_line_col(s, line_col_to_byte(s, line, col)) == (line, col),
{
    lemma_locate_prefix(s, line, col, 0);
}

/// Byte length of `s`.
pub fn byte_len(s: &str) -> (n: usize)
    ensures
        n == utf8_len(s@),
{
    proof {
        lemma_utf8_len_encode(s@);
    }
    s.as_bytes().len()
}

proof fn lemma_line_ranges_from_len(s: Seq<char>, i: int)
    requires
        0 <= i <= s.len(),
    ensures
        line_ranges_from(s, i).len() <= s.len() - i,
    decreases s.len() - i,
{
    if i < s.len() {
        lemma_newline_from(s, i);
        let j = newline_from(s, i);
        if j < s.len() {
            lemma_line_ranges_from_len(s, j + 1);
        }
    }
}

/// A text has no more lines than chars.
pub proof fn lemma_line_count(s: Seq<char>)
    ensures
        text_lines(s).len() <= s.len(),
{
    lemma_line_ranges_from_len(s, 0);
}

proof fn lemma_col_for_byte_bound(line: Seq<char>, b: int, c: int)
    requires
        0 <= c,
    ensures
        0 <= col_for_byte(line, b, c) <= line.len(),
        c <= line.len() ==> c <= col_for_byte(line, b, c),
    decreases line.len() - c,
{
    if c < line.len() && b > utf8_len(line.take(c)) {
        lemma_col_for_byte_bound(line, b, c + 1);
    }
}

proof fn lemma_locate_bounds(s: Seq<char>, k: int, idx: int)
    requires
        0 <= k,
    ensures
        text_lines(s).len() == 0 ==> locate_from(s, k, idx) == (0int, 0int),
        text_lines(s).len() > 0 ==> 0 <= locate_from(s, k, idx).0 < text_lines(s).len(),
        text_lines(s).len() > 0 ==> 0 <= locate_from(s, k, idx).1 <= text_lines(
            s,
        )[locate_from(s, k, idx).0].len(),
        k < text_lines(s).len() ==> k <= locate_from(s, k, idx).0,
    decreases text_lines(s).len() - k,
{
    if k < text_lines(s).len() {
        if idx <= line_end_byte(s, k) {
            lemma_col_for_byte_bound(text_lines(s)[k], idx - line_start_byte(s, k), 0);
        } else {
            lemma_locate_bounds(s, k + 1, idx);
        }
    }
}

/// The position of any byte offset is a position of the text: a line that exists
/// (line 0 of an empty text) and a column inside it.
pub proof fn lemma_byte_to_line_col_bounds(s: Seq<char>, idx: int)
    ensures
        text_lines(s).len() == 0 ==> byte_to_line_col(s, idx) == (0int, 0int),
        text_lines(s).len() > 0 ==> 0 <= byte_to_line_col(s, idx).0 < text_lines(s).len(),
        text_lines(s).len() > 0 ==> 0 <= byte_to_line_col(s, idx).1 <= text_lines(
            s,
        )[byte_to_line_col(s, idx).0].len(),
        byte_to_line_col(s, idx).0 == 0 || byte_to_line_col(s, idx).0 < s.len(),
{
    lemma_locate_bounds(s, 0, idx);
    lemma_line_count(s);
}

/// Positions in document order: by line, then by column.
pub open spec fn position_le(p: (int, int), q: (int, int)) -> bool {
    p.0 < q.0 || (p.0 == q.0 && p.1 <= q.1)
}

proof fn lemma_col_for_byte_monotone(line: Seq<char>, a: int, b: int, c: int)
    requires
        0 <= c,
        a <= b,
    ensures
        col_for_byte(line, a, c) <= col_for_byte(line, b, c),
    decreases line.len() - c,
{
    if c < line.len() {
        if b <= utf8_len(line.take(c)) {
        } else if a <= utf8_len(line.take(c)) {
            lemma_col_for_byte_bound(line, b, c + 1);
        } else {
            lemma_col_for_byte_monotone(line, a, b, c + 1);
        }
    }
}

proof fn lemma_locate_monotone(s: Seq<char>, k: int, a: int, b: int)
    requires
        0 <= k,
        a <= b,
    ensures
        position_le(locate_from(s, k, a), locate_from(s, k, b)),
    decreases text_lines(s).len() - k,
{
    let lines = text_lines(s);
    if k < lines.len() {
        let st = line_start_byte(s, k);
        let w = line_end_byte(s, k);
        if b <= w {
            lemma_col_for_byte_monotone(lines[k], a - st, b - st, 0);
        } else if a <= w {
            lemma_col_for_byte_bound(lines[k], a - st, 0);
            lemma_locate_bounds(s, k + 1, b);
        } else {
            lemma_locate_monotone(s, k + 1, a, b);
        }
    }
}

/// A later byte offset never maps to an earlier position.
pub proof fn law_byte_to_line_col_monotone(s: Seq<char>, a: int, b: int)
    requires
        a <= b,
    ensures
        position_le(byte_to_line_col(s, a), byte_to_line_col(s, b)),
{
    lemma_locate_monotone(s, 0, a, b);
}

/// Every line of a text is no longer than the text.
pub proof fn lemma_line_len_bound(s: Seq<char>, k: int)
    requires
        0 <= k < text_lines(s).len(),
    ensures
        text_lines(s)[k].len() <= s.len(),
{
    lemma_line_ranges_wf(s);
    assert(line_ranges(s)[k].0 <= line_ranges(s)[k].1 <= s.len());
}

/// No `'\n'` of the text follows a `'\r'`: no line ends in `"\r\n"`.
pub open spec fn no_crlf(s: Seq<char>) -> bool {
    forall|k: int| 0 < k < s.len() && #[trigger] s[k] == '\n' ==> s[k - 1] != '\r'
}

/// The byte offset of a char prefix is a char boundary of the text's encoding.
pub proof fn lemma_prefix_is_char_boundary(s: Seq<char>, m: int)
    requires
        0 <= m <= s.len(),
    ensures
        is_char_boundary(encode_utf8(s), utf8_len(s.take(m)) as int),
    decreases m,
{
    broadcast use encode_utf8_valid_utf8;

    let bytes = encode_utf8(s);
    if m == 0 {
        assert(s.take(0) =~= Seq::<char>::empty());
    } else {
        let rest = s.drop_first();
        encode_utf8_first_scalar(s);
        lemma_char_width_encode(s[0]);
        assert(bytes == encode_scalar(s[0] as u32) + encode_utf8(rest));
        assert(pop_first_scalar(bytes) =~= encode_utf8(rest));
        lemma_prefix_is_char_boundary(rest, m - 1);
        assert(s.take(m) =~= seq![s[0]] + rest.take(m - 1));
        lemma_utf8_len_concat(seq![s[0]], rest.take(m - 1));
        assert(seq![s[0]].drop_last() =~= Seq::<char>::empty());
        assert(seq![s[0]].last() == s[0]);
        assert(utf8_len(Seq::<char>::empty()) == 0);
        assert(utf8_len(seq![s[0]]) == char_width(s[0]));
        lemma_utf8_len_subrange(s, 0, m);
        assert(s.subrange(0, m) =~= s.take(m));
        lemma_utf8_len_subrange(s, m, s.len() as int);
        assert(s.take(s.len() as int) =~= s);
        lemma_utf8_len_encode(s);
        lemma_utf8_len_bounds(s.take(m));
    }
}

proof fn lemma_ranges_chain(s: Seq<char>, i: int)
    requires
        0 <= i <= s.len(),
        no_crlf(s),
    ensures
        line_ranges_from(s, i).len() > 0 ==> line_ranges_from(s, i)[0].0 == i,
        forall|k: int|
            #![trigger line_ranges_from(s, i)[k]]
            0 <= k < line_ranges_from(s, i).len() - 1 ==> {
                &&& line_ranges_from(s, i)[k].1 < s.len()
                &&& s[line_ranges_from(s, i)[k].1] == '\n'
                &&& line_ranges_from(s, i)[k + 1].0 == line_ranges_from(s, i)[k].1 + 1
            },
    decreases s.len() - i,
{
    if i < s.len() {
        lemma_newline_from(s, i);
        let j = newline_from(s, i);
        if j < s.len() {
            if j > i && s[j - 1] == '\r' {
                assert(s[j] == '\n');
                assert(false);
            }
            assert(!(j > i && s[j - 1] == '\r'));
            lemma_ranges_chain(s, j + 1);
            let r = line_ranges_from(s, i);
            let rest = line_ranges_from(s, j + 1);
            assert(r == seq![(i, j)] + rest);
            assert(r[0] == (i, j));
            assert forall|k: int| #![trigger r[k]] 0 <= k < r.len() - 1 implies {
                &&& r[k].1 < s.len()
                &&& s[r[k].1] == '\n'
                &&& r[k + 1].0 == r[k].1 + 1
            } by {
                assert(r[k + 1] == rest[k]);
                if k > 0 {
                    assert(r[k] == rest[k - 1]);
                } else {
                    assert(rest.len() > 0);
                    assert(rest[0].0 == j + 1);
                }
            }
        }
    }
}

/// Every (line, column) maps to a char boundary of the text's encoding, so the
/// text between any two positions can be cut out.
pub proof fn law_line_col_on_char_boundary(s: Seq<char>, line: int, col: int)
    requires
        0 <= col,
    ensures
        is_char_boundary(encode_utf8(s), line_col_to_byte(s, line, col)),
{
    let lines = text_lines(s);
    lemma_line_ranges_wf(s);
    if 0 <= line < lines.len() {
        let r = line_ranges(s)[line];
        assert(0 <= r.0 <= r.1 <= s.len());
        assert(lines[line].len() == r.1 - r.0);
        let c = if col < lines[line].len() {
            col
        } else {
            lines[line].len() as int
        };
        lemma_prefix_is_char_boundary(s, r.0 + c);
    } else {
        lemma_prefix_is_char_boundary(s, s.len() as int);
        assert(s.take(s.len() as int) =~= s);
    }
}

/// A char boundary of the encoding is the byte offset of some char position.
pub proof fn lemma_char_boundary_is_prefix(s: Seq<char>, idx: int)
    requires
        is_char_boundary(encode_utf8(s), idx),
    ensures
        exists|m: int| 0 <= m <= s.len() && #[trigger] prefix_bytes(s, m) == idx,
    decreases s.len(),
{
    broadcast use encode_utf8_valid_utf8;

    if idx == 0 {
        assert(s.take(0) =~= Seq::<char>::empty());
        assert(prefix_bytes(s, 0) == 0);
    } else {
        let bytes = encode_utf8(s);
        assert(bytes.len() > 0);
        if s.len() == 0 {
            assert(bytes =~= Seq::<u8>::empty());
        }
        let rest = s.drop_first();
        encode_utf8_first_scalar(s);
        lemma_char_width_encode(s[0]);
        assert(bytes == encode_scalar(s[0] as u32) + encode_utf8(rest));
        assert(pop_first_scalar(bytes) =~= encode_utf8(rest));
        lemma_char_boundary_is_prefix(rest, idx - char_width(s[0]));
        let m2 = choose|m: int| 0 <= m <= rest.len() && #[trigger] prefix_bytes(rest, m) == idx
            - char_width(s[0]);
        assert(s.take(m2 + 1) =~= seq![s[0]] + rest.take(m2));
        lemma_utf8_len_concat(seq![s[0]], rest.take(m2));
        assert(seq![s[0]].drop_last() =~= Seq::<char>::empty());
        assert(seq![s[0]].last() == s[0]);
        assert(utf8_len(Seq::<char>::empty()) == 0);
        assert(prefix_bytes(s, m2 + 1) == idx);
    }
}

proof fn lemma_last_range(s: Seq<char>, i: int)
    requires
        0 <= i < s.len(),
        no_crlf(s),
    ensures
        line_ranges_from(s, i).len() > 0,
        line_ranges_from(s, i).last().1 >= s.len() - 1,
    decreases s.len() - i,
{
    lemma_newline_from(s, i);
    let j = newline_from(s, i);
    if j < s.len() {
        if j > i && s[j - 1] == '\r' {
            assert(s[j] == '\n');
            assert(false);
        }
        if j + 1 < s.len() {
            lemma_last_range(s, j + 1);
        }
    }
}

proof fn lemma_find_line(s: Seq<char>, m: int, k: int) -> (line: int)
    requires
        no_crlf(s),
        0 <= m < s.len(),
        0 <= k < line_ranges(s).len(),
        line_ranges(s)[k].0 <= m,
    ensures
        0 <= line < line_ranges(s).len(),
        line_ranges(s)[line].0 <= m <= line_ranges(s)[line].1,
    decreases line_ranges(s).len() - k,
{
    lemma_ranges_chain(s, 0);
    lemma_last_range(s, 0);
    if m <= line_ranges(s)[k].1 {
        k
    } else {
        if k + 1 >= line_ranges(s).len() {
            assert(line_ranges(s).last() == line_ranges(s)[k]);
            assert(false);
        }
        assert(line_ranges(s)[k + 1].0 == line_ranges(s)[k].1 + 1);
        lemma_find_line(s, m, k + 1)
    }
}

proof fn lemma_locate_char(s: Seq<char>, m: int, line: int, k: int)
    requires
        0 <= k <= line < line_ranges(s).len(),
        line_ranges(s)[line].0 <= m <= line_ranges(s)[line].1,
    ensures
        locate_from(s, k, prefix_bytes(s, m)) == (line, m - line_ranges(s)[line].0),
    decreases line - k,
{
    lemma_line_ranges_wf(s);
    let r = line_ranges(s)[line];
    assert(0 <= r.0 <= r.1 <= s.len());
    lemma_locate_prefix(s, line, m - r.0, k);
}

/// In a text where no line ends in `"\r\n"`, a byte offset before the end that lies
/// on a char boundary survives the trip to (line, column) and back.
pub proof fn law_byte_round_trip(s: Seq<char>, idx: int)
    requires
        no_crlf(s),
        0 <= idx < utf8_len(s),
        is_char_boundary(encode_utf8(s), idx),
    ensures
        ({
            let p = byte_to_line_col(s, idx);
            line_col_to_byte(s, p.0, p.1) == idx
        }),
{
    lemma_char_boundary_is_prefix(s, idx);
    let m = choose|m: int| 0 <= m <= s.len() && #[trigger] prefix_bytes(s, m) == idx;
    if m == s.len() {
        assert(s.take(m) =~= s);
        assert(false);
    }
    lemma_ranges_chain(s, 0);
    lemma_last_range(s, 0);
    lemma_line_ranges_wf(s);
    assert(line_ranges(s)[0].0 == 0);
    let line = lemma_find_line(s, m, 0);
    lemma_locate_char(s, m, line, 0);
    let r = line_ranges(s)[line];
    assert(text_lines(s)[line].len() == r.1 - r.0);
}

} // verus!
