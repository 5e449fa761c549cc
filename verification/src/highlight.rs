//! Syntax highlighting plan: which palette entry each token gets and how a text is
//! cut into coloured pieces.

use vstd::prelude::*;
use crate::editor::min_int;
use vstd::utf8::{encode_utf8, is_char_boundary};
use crate::text::{
    text_lines, line_start_byte, line_end_byte,
    char_utf8_width, chars_of, lemma_line_ranges_wf, lemma_prefix_is_char_boundary,
    lemma_utf8_len_bounds, lemma_utf8_len_subrange, line_ranges, line_spans, prefix_bytes,
    span_int, spans_wf, utf8_len,
};
use std::collections::HashSet;
use crate::tokenizer::{
    contains_char, tokenize_chars, tokens_of, upper, upper_char, Token, TokenType,
};


verus! {

/// The palette entry a token is drawn with.
#[derive(Debug, Clone, Copy, PartialEq, Eq, Structural)]
pub enum ColorRole {
    GCode,
    MCode,
    OCode,
    /// The generic axis colour.
    Axis,
    /// The colour configured for one (upper-case) axis letter.
    AxisOverride(char),
    Parameter,
    ParameterKey,
    ParameterValue,
    ParameterP,
    Number,
    Comment,
    Operator,
    Variable,
    Error,
    /// Plain white.
    White,
}

/// Palette entry of a token type. A named axis uses its own colour when its upper
/// case is among `overrides`, else the generic axis colour; unknown tokens are white.
pub open spec fn role_of(t: TokenType, overrides: Seq<char>) -> ColorRole {
    match t {
        TokenType::GCode => ColorRole::GCode,
        TokenType::MCode => ColorRole::MCode,
        TokenType::OCode => ColorRole::OCode,
        TokenType::Axis => ColorRole::Axis,
        TokenType::AxisNamed(c) => if overrides.contains(upper(c)) {
            ColorRole::AxisOverride(upper(c))
        } else {
            ColorRole::Axis
        },
        TokenType::Parameter => ColorRole::Parameter,
        TokenType::ParameterKey => ColorRole::ParameterKey,
        TokenType::ParameterValue => ColorRole::ParameterValue,
        TokenType::ParameterP => ColorRole::ParameterP,
        TokenType::Number => ColorRole::Number,
        TokenType::Comment => ColorRole::Comment,
        TokenType::Operator => ColorRole::Operator,
        TokenType::Variable => ColorRole::Variable,
        TokenType::Error => ColorRole::Error,
        TokenType::Unknown => ColorRole::White,
    }
}

/// Palette entry of a token type; `overrides` are the axis letters that have a
/// colour of their own. See [`role_of`].
pub fn color_role(token_type: TokenType, overrides: &[char]) -> (role: ColorRole)
    ensures
        role == role_of(token_type, overrides@),
{
    match token_type {
        TokenType::GCode => ColorRole::GCode,
        TokenType::MCode => ColorRole::MCode,
        TokenType::OCode => ColorRole::OCode,
        TokenType::Axis => ColorRole::Axis,
        TokenType::AxisNamed(c) => {
            let u = upper_char(c);
            if contains_char(overrides, u) {
                ColorRole::AxisOverride(u)
            } else {
                ColorRole::Axis
            }
        },
        TokenType::Parameter => ColorRole::Parameter,
        TokenType::ParameterKey => ColorRole::ParameterKey,
        TokenType::ParameterValue => ColorRole::ParameterValue,
        TokenType::ParameterP => ColorRole::ParameterP,
        TokenType::Number => ColorRole::Number,
        TokenType::Comment => ColorRole::Comment,
        TokenType::Operator => ColorRole::Operator,
        TokenType::Variable => ColorRole::Variable,
        TokenType::Error => ColorRole::Error,
        TokenType::Unknown => ColorRole::White,
    }
}

/// A piece of highlighted output: the bytes `[start, end)` of the text drawn in
/// the colour of `token` (plain white for `None`), or a line break.
#[derive(Debug, Clone, Copy, PartialEq, Eq, Structural)]
pub enum Piece {
    Text { start: usize, end: usize, token: Option<TokenType> },
    LineBreak,
}

/// A stretch of chars `[a, b)` of a line, with the token whose colour it takes
/// (`None` for plain white).
pub type CharSpan = (int, int, Option<TokenType>);

/// The coloured stretches of a line of `n` chars, drawn from its tokens from char
/// `pos` on: each token's chars (cut at the line's end) in its colour, the gaps
/// before tokens and the rest of the line in white. A token that starts before the
/// end of the previous one is skipped, as is one that is empty once cut.
pub open spec fn line_plan(toks: Seq<Token>, n: int, pos: int) -> Seq<CharSpan>
    decreases toks.len(),
{
    if toks.len() == 0 {
        if pos < n {
            seq![(pos, n, None)]
        } else {
            Seq::empty()
        }
    } else {
        let t = toks[0];
        let rest = toks.drop_first();
        if (t.start as int) < pos {
            line_plan(rest, n, pos)
        } else {
            let gap_end = min_int(t.start as int, n);
            let gap = if (t.start as int) > pos && pos < gap_end {
                seq![(pos, gap_end, None)]
            } else {
                Seq::empty()
            };
            let ts = min_int(t.start as int, n);
            let te = min_int(t.start.saturating_add(t.length) as int, n);
            if ts >= te {
                gap + line_plan(rest, n, pos)
            } else {
                gap + seq![(ts, te, Some(t.token_type))] + line_plan(rest, n, te)
            }
        }
    }
}

/// The piece of text for chars `[start + a, start + b)` of `s`, in bytes.
pub open spec fn span_piece(s: Seq<char>, start: int, sp: CharSpan) -> Piece {
    Piece::Text {
        start: prefix_bytes(s, start + sp.0) as usize,
        end: prefix_bytes(s, start + sp.1) as usize,
        token: sp.2,
    }
}

/// The pieces of line `k` of `s`: its coloured stretches as bytes of `s`.
pub open spec fn line_pieces(s: Seq<char>, axes: Set<char>, k: int) -> Seq<Piece> {
    let r = line_ranges(s)[k];
    let line = s.subrange(r.0, r.1);
    line_plan(tokens_of(line, axes), line.len() as int, 0).map_values(
        |sp: CharSpan| span_piece(s, r.0, sp),
    )
}

/// The pieces of the first `k` lines of `s`, each line followed by a line break.
pub open spec fn text_plan(s: Seq<char>, axes: Set<char>, k: int) -> Seq<Piece>
    decreases k,
{
    if k <= 0 {
        Seq::empty()
    } else {
        text_plan(s, axes, k - 1) + line_pieces(s, axes, k - 1) + seq![Piece::LineBreak]
    }
}

/// All the highlighted pieces of a text, line by line.
pub open spec fn highlight_plan(s: Seq<char>, axes: Set<char>) -> Seq<Piece> {
    text_plan(s, axes, line_ranges(s).len() as int)
}

/// Byte offsets of all char positions of `s`.
fn prefix_byte_table(s: &Vec<char>) -> (t: Vec<usize>)
    requires
        utf8_len(s@) <= usize::MAX,
    ensures
        t@.len() == s@.len() + 1,
        forall|m: int| 0 <= m <= s@.len() ==> #[trigger] t@[m] == prefix_bytes(s@, m),
{
    let mut t: Vec<usize> = Vec::new();
    t.push(0);
    let mut acc: usize = 0;
    let mut k: usize = 0;
    proof {
        assert(s@.take(0) =~= Seq::<char>::empty());
    }
    while k < s.len()
        invariant
            k <= s@.len(),
            utf8_len(s@) <= usize::MAX,
            t@.len() == k + 1,
            acc == prefix_bytes(s@, k as int),
            forall|m: int| 0 <= m <= k ==> #[trigger] t@[m] == prefix_bytes(s@, m),
        decreases s@.len() - k,
    {
        proof {
            assert(s@.take(k + 1).drop_last() =~= s@.take(k as int));
            assert(s@.take(k + 1).last() == s@[k as int]);
            lemma_utf8_len_subrange(s@, k + 1, s@.len() as int);
            assert(s@.take(s@.len() as int) =~= s@);
            assert(s@.subrange(0, k + 1) =~= s@.take(k + 1));
            lemma_utf8_len_subrange(s@, 0, k + 1);
        }
        acc = acc + char_utf8_width(s[k]);
        t.push(acc);
        k = k + 1;
    }
    t
}

fn push_line_plan(
    toks: &Vec<Token>,
    table: &Vec<usize>,
    start: usize,
    n: usize,
    out: &mut Vec<Piece>,
    Ghost(s): Ghost<Seq<char>>,
)
    requires
        start + n <= s.len(),
        table@.len() == s.len() + 1,
        forall|m: int| 0 <= m <= s.len() ==> #[trigger] table@[m] == prefix_bytes(s, m),
    ensures
        final(out)@ == old(out)@ + line_plan(toks@, n as int, 0).map_values(
            |sp: CharSpan| span_piece(s, start as int, sp),
        ),
{
    let ghost all = toks@;
    let ghost f = |sp: CharSpan| span_piece(s, start as int, sp);
    let table_len = table.len();
    let mut pos: usize = 0;
    let mut j: usize = 0;
    proof {
        assert(all.skip(0) =~= all);
    }
    while j < toks.len()
        invariant
            all == toks@,
            j <= all.len(),
            pos <= n,
            start + n <= s.len(),
            table@.len() == s.len() + 1,
            table_len == table@.len(),
            forall|m: int| 0 <= m <= s.len() ==> #[trigger] table@[m] == prefix_bytes(s, m),
            f == (|sp: CharSpan| span_piece(s, start as int, sp)),
            old(out)@ + line_plan(all, n as int, 0).map_values(f) == out@ + line_plan(
                all.skip(j as int),
                n as int,
                pos as int,
            ).map_values(f),
        decreases all.len() - j,
    {
        let t = &toks[j];
        proof {
            assert(all.skip(j as int)[0] == all[j as int]);
            assert(all.skip(j as int).drop_first() =~= all.skip(j + 1));
        }
        let ghost before = out@;
        let ghost old_pos = pos;
        let ghost rest_plan = line_plan(all.skip(j + 1), n as int, pos as int);
        if t.start >= pos {
            let gap_end = if t.start < n {
                t.start
            } else {
                n
            };
            let ghost gap: Seq<CharSpan> = if t.start > pos && pos < gap_end {
                seq![(pos as int, gap_end as int, None)]
            } else {
                Seq::empty()
            };
            if t.start > pos && pos < gap_end {
                out.push(
                    Piece::Text { start: table[start + pos], end: table[start + gap_end], token: None },
                );
            }
            proof {
                assert(out@ =~= before + gap.map_values(f));
            }
            let ts = if t.start < n {
                t.start
            } else {
                n
            };
            let sum = t.start.saturating_add(t.length);
            let te = if sum < n {
                sum
            } else {
                n
            };
            if ts < te {
                let ghost mid = out@;
                out.push(
                    Piece::Text {
                        start: table[start + ts],
                        end: table[start + te],
                        token: Some(t.token_type),
                    },
                );
                pos = te;
                proof {
                    let sp: CharSpan = (ts as int, te as int, Some(t.token_type));
                    assert(out@ =~= mid + seq![sp].map_values(f));
                    let lp = line_plan(all.skip(j as int), n as int, old_pos as int);
                    assert(lp == gap + seq![sp] + line_plan(all.skip(j + 1), n as int, pos as int));
                    assert((gap + seq![sp] + line_plan(all.skip(j + 1), n as int, pos as int)).map_values(f)
                        =~= gap.map_values(f) + seq![sp].map_values(f) + line_plan(all.skip(j + 1), n as int, pos as int).map_values(f));
                }
            } else {
                proof {
                    let lp = line_plan(all.skip(j as int), n as int, old_pos as int);
                    assert(lp == gap + rest_plan);
                    assert((gap + rest_plan).map_values(f) =~= gap.map_values(f) + rest_plan.map_values(f));
                }
            }
        } else {
            proof {
                assert(line_plan(all.skip(j as int), n as int, old_pos as int) == rest_plan);
            }
        }
        proof {
            assert(out@ + line_plan(all.skip(j + 1), n as int, pos as int).map_values(f) =~= before
                + line_plan(all.skip(j as int), n as int, old_pos as int).map_values(f));
        }
        j = j + 1;
    }
    proof {
        assert(all.skip(j as int) =~= Seq::<Token>::empty());
    }
    let ghost before = out@;
    if pos < n {
        out.push(Piece::Text { start: table[start + pos], end: table[start + n], token: None });
    }
    proof {
        if pos < n {
            assert(out@ =~= before + seq![(pos as int, n as int, None::<TokenType>)].map_values(f));
        } else {
            assert(line_plan(Seq::<Token>::empty(), n as int, pos as int).map_values(f) =~= Seq::<Piece>::empty());
        }
        assert(out@ =~= old(out)@ + line_plan(all, n as int, 0).map_values(f));
    }
}

/// The highlighted pieces of `text`, line by line; see [`highlight_plan`].
pub fn highlight_pieces(text: &str, axis_chars: &HashSet<char>) -> (pieces: Vec<Piece>)
    ensures
        pieces@ == highlight_plan(text@, axis_chars@),
{
    let (chars, total) = chars_of(text);
    let spans = line_spans(&chars);
    let ghost s = chars@;
    let table = prefix_byte_table(&chars);
    let mut out: Vec<Piece> = Vec::new();
    let n = spans.len();
    let mut k: usize = 0;
    proof {
        assert(spans@.map_values(|p: (usize, usize)| span_int(p)).len() == n);
    }
    while k < n
        invariant
            s == chars@,
            s == text@,
            total == utf8_len(s),
            spans@.map_values(|p: (usize, usize)| span_int(p)) == line_ranges(s),
            spans_wf(s, spans@),
            n == spans@.len(),
            k <= n,
            table@.len() == s.len() + 1,
            forall|m: int| 0 <= m <= s.len() ==> #[trigger] table@[m] == prefix_bytes(s, m),
            out@ == text_plan(s, axis_chars@, k as int),
        decreases n - k,
    {
        let (a, b) = spans[k];
        proof {
            assert(spans@[k as int].0 <= spans@[k as int].1 <= s.len());
            assert(line_ranges(s)[k as int] == span_int(spans@[k as int]));
        }
        let mut line: Vec<char> = Vec::new();
        let mut c = a;
        while c < b
            invariant
                a <= c <= b <= s.len(),
                s == chars@,
                line@ == s.subrange(a as int, c as int),
            decreases b - c,
        {
            line.push(chars[c]);
            proof {
                assert(line@ =~= s.subrange(a as int, c + 1));
            }
            c = c + 1;
        }
        let toks = tokenize_chars(&line, Some(axis_chars));
        push_line_plan(&toks, &table, a, b - a, &mut out, Ghost(s));
        out.push(Piece::LineBreak);
        proof {
            assert(out@ =~= text_plan(s, axis_chars@, k + 1));
        }
        k = k + 1;
    }
    proof {
        assert(line_ranges(s).len() == n);
    }
    out
}

/// Char stretches inside `[lo, hi]`, each non-empty.
pub open spec fn spans_inside(ps: Seq<CharSpan>, lo: int, hi: int) -> bool {
    forall|k: int| 0 <= k < ps.len() ==> lo <= #[trigger] ps[k].0 < ps[k].1 <= hi
}

/// Char stretches that follow one another without overlap.
pub open spec fn spans_disjoint(ps: Seq<CharSpan>) -> bool {
    forall|k: int, m: int| 0 <= k < m < ps.len() ==> #[trigger] ps[k].1 <= #[trigger] ps[m].0
}

proof fn lemma_inside_concat(a: Seq<CharSpan>, b: Seq<CharSpan>, lo: int, hi: int)
    requires
        spans_inside(a, lo, hi),
        spans_inside(b, lo, hi),
    ensures
        spans_inside(a + b, lo, hi),
{
    assert forall|k: int| 0 <= k < (a + b).len() implies lo <= #[trigger] (a + b)[k].0 < (a
        + b)[k].1 <= hi by {
        if k < a.len() {
            assert((a + b)[k] == a[k]);
        } else {
            assert((a + b)[k] == b[k - a.len()]);
        }
    }
}

/// Every stretch of a line is a non-empty run of its chars, from the current
/// position on.
pub proof fn law_line_spans_inside(toks: Seq<Token>, n: int, pos: int)
    requires
        0 <= pos <= n,
    ensures
        spans_inside(line_plan(toks, n, pos), pos, n),
    decreases toks.len(),
{
    if toks.len() > 0 {
        let t = toks[0];
        let rest = toks.drop_first();
        law_line_spans_inside(rest, n, pos);
        if (t.start as int) >= pos {
            let gap_end = min_int(t.start as int, n);
            let ts = min_int(t.start as int, n);
            let te = min_int(t.start.saturating_add(t.length) as int, n);
            let gap: Seq<CharSpan> = if (t.start as int) > pos && pos < gap_end {
                seq![(pos, gap_end, None)]
            } else {
                Seq::empty()
            };
            assert(spans_inside(gap, pos, n));
            if ts >= te {
                lemma_inside_concat(gap, line_plan(rest, n, pos), pos, n);
            } else {
                law_line_spans_inside(rest, n, te);
                let mid: Seq<CharSpan> = seq![(ts, te, Some(t.token_type))];
                assert(spans_inside(mid, pos, n));
                assert(spans_inside(line_plan(rest, n, te), pos, n));
                lemma_inside_concat(gap, mid, pos, n);
                lemma_inside_concat(gap + mid, line_plan(rest, n, te), pos, n);
            }
        }
    }
}

proof fn lemma_disjoint_concat(a: Seq<CharSpan>, b: Seq<CharSpan>, lo: int, mid: int, hi: int)
    requires
        spans_inside(a, lo, mid),
        spans_inside(b, mid, hi),
        spans_disjoint(a),
        spans_disjoint(b),
    ensures
        spans_disjoint(a + b),
{
    let c = a + b;
    assert forall|k: int, m: int| 0 <= k < m < c.len() implies #[trigger] c[k].1
        <= #[trigger] c[m].0 by {
        if m < a.len() {
            assert(c[k] == a[k] && c[m] == a[m]);
        } else if k >= a.len() {
            assert(c[k] == b[k - a.len()] && c[m] == b[m - a.len()]);
        } else {
            assert(c[k] == a[k] && c[m] == b[m - a.len()]);
            assert(lo <= a[k].0 < a[k].1 <= mid);
            assert(mid <= b[m - a.len()].0 < b[m - a.len()].1 <= hi);
        }
    }
}

/// When the tokens of a line are non-empty, ordered and inside the line, its
/// stretches follow one another without overlap. (An empty token, such as the empty
/// value in `A= ;`, can make the gap before it be emitted twice.)
pub proof fn law_line_spans_disjoint(toks: Seq<Token>, n: int, pos: int)
    requires
        0 <= pos <= n,
        n <= usize::MAX,
        crate::tokenizer::tokens_wf(toks, pos, n),
        forall|k: int| 0 <= k < toks.len() ==> #[trigger] toks[k].length > 0,
    ensures
        spans_disjoint(line_plan(toks, n, pos)),
    decreases toks.len(),
{
    if toks.len() > 0 {
        let t = toks[0];
        let rest = toks.drop_first();
        let end = t.start + t.length;
        assert(pos <= t.start && end <= n);
        assert(crate::tokenizer::tokens_wf(rest, end, n)) by {
            assert forall|k: int| 0 <= k < rest.len() implies end <= #[trigger] rest[k].start
                && rest[k].start + rest[k].length <= n by {
                assert(rest[k] == toks[k + 1]);
            }
            assert forall|k: int, m: int| 0 <= k < m < rest.len() implies #[trigger] rest[k].start
                + rest[k].length <= #[trigger] rest[m].start by {
                assert(rest[k] == toks[k + 1] && rest[m] == toks[m + 1]);
            }
        }
        assert forall|k: int| 0 <= k < rest.len() implies #[trigger] rest[k].length > 0 by {
            assert(rest[k] == toks[k + 1]);
        }
        law_line_spans_disjoint(rest, n, end);
        law_line_spans_inside(rest, n, end);
        let gap: Seq<CharSpan> = if (t.start as int) > pos {
            seq![(pos, t.start as int, None)]
        } else {
            Seq::empty()
        };
        let mid: Seq<CharSpan> = seq![(t.start as int, end, Some(t.token_type))];
        assert(line_plan(toks, n, pos) == gap + mid + line_plan(rest, n, end));
        assert(spans_inside(gap, pos, t.start as int));
        assert(spans_inside(mid, t.start as int, end));
        lemma_disjoint_concat(gap, mid, pos, t.start as int, end);
        lemma_inside_concat(gap, mid, pos, end);
        assert(spans_inside(gap, pos, end));
        lemma_disjoint_concat(gap + mid, line_plan(rest, n, end), pos, end, n);
    }
}

/// Every text piece of the highlighted text starts and ends on char boundaries of
/// the text's encoding, and is not empty: cutting the text at the pieces never
/// splits a char.
pub proof fn law_pieces_on_char_boundaries(s: Seq<char>, axes: Set<char>, k: int)
    requires
        0 <= k <= line_ranges(s).len(),
        utf8_len(s) <= usize::MAX,
    ensures
        forall|i: int|
            0 <= i < text_plan(s, axes, k).len() ==> (#[trigger] text_plan(s, axes, k)[i] matches Piece::Text {
                start,
                end,
                ..
            } ==> start < end && is_char_boundary(encode_utf8(s), start as int) && is_char_boundary(
                encode_utf8(s),
                end as int,
            )),
    decreases k,
{
    if k > 0 {
        law_pieces_on_char_boundaries(s, axes, k - 1);
        lemma_line_ranges_wf(s);
        let r = line_ranges(s)[k - 1];
        assert(0 <= r.0 <= r.1 <= s.len());
        let line = s.subrange(r.0, r.1);
        let plan = line_plan(tokens_of(line, axes), line.len() as int, 0);
        law_line_spans_inside(tokens_of(line, axes), line.len() as int, 0);
        let lp = line_pieces(s, axes, k - 1);
        assert forall|i: int| 0 <= i < lp.len() implies (#[trigger] lp[i] matches Piece::Text {
            start,
            end,
            ..
        } ==> start < end && is_char_boundary(encode_utf8(s), start as int) && is_char_boundary(
            encode_utf8(s),
            end as int,
        )) by {
            let sp = plan[i];
            assert(0 <= sp.0 < sp.1 <= line.len());
            lemma_prefix_is_char_boundary(s, r.0 + sp.0);
            lemma_prefix_is_char_boundary(s, r.0 + sp.1);
            lemma_utf8_len_subrange(s, r.0 + sp.0, r.0 + sp.1);
            lemma_utf8_len_bounds(s.subrange(r.0 + sp.0, r.0 + sp.1));
            lemma_utf8_len_subrange(s, r.0 + sp.1, s.len() as int);
            assert(s.take(s.len() as int) =~= s);
        }
        let prev = text_plan(s, axes, k - 1);
        let all = text_plan(s, axes, k);
        assert forall|i: int| 0 <= i < all.len() implies (#[trigger] all[i] matches Piece::Text {
            start,
            end,
            ..
        } ==> start < end && is_char_boundary(encode_utf8(s), start as int) && is_char_boundary(
            encode_utf8(s),
            end as int,
        )) by {
            if i < prev.len() {
                assert(all[i] == prev[i]);
            } else if i < prev.len() + lp.len() {
                assert(all[i] == lp[i - prev.len()]);
            } else {
                assert(all[i] == Piece::LineBreak);
            }
        }
    }
}

/// The number of line breaks among `ps`.
pub open spec fn break_count(ps: Seq<Piece>) -> nat
    decreases ps.len(),
{
    if ps.len() == 0 {
        0
    } else {
        break_count(ps.drop_last()) + if ps.last() is LineBreak {
            1nat
        } else {
            0nat
        }
    }
}

proof fn lemma_break_count_concat(a: Seq<Piece>, b: Seq<Piece>)
    ensures
        break_count(a + b) == break_count(a) + break_count(b),
    decreases b.len(),
{
    if b.len() > 0 {
        assert((a + b).drop_last() =~= a + b.drop_last());
        assert((a + b).last() == b.last());
        lemma_break_count_concat(a, b.drop_last());
    } else {
        assert(a + b =~= a);
    }
}

proof fn lemma_no_breaks(ps: Seq<Piece>)
    requires
        forall|i: int| 0 <= i < ps.len() ==> #[trigger] ps[i] is Text,
    ensures
        break_count(ps) == 0,
    decreases ps.len(),
{
    if ps.len() > 0 {
        assert(ps.last() is Text);
        lemma_no_breaks(ps.drop_last());
    }
}

/// The highlighted text has exactly one line break per line of the text (as
/// `str::lines` yields them), empty lines included: its layout has as many lines as
/// the content.
pub proof fn law_one_break_per_line(s: Seq<char>, axes: Set<char>)
    ensures
        break_count(highlight_plan(s, axes)) == text_lines(s).len(),
{
    lemma_breaks_upto(s, axes, line_ranges(s).len() as int);
    assert(text_lines(s).len() == line_ranges(s).len());
}

proof fn lemma_breaks_upto(s: Seq<char>, axes: Set<char>, k: int)
    requires
        0 <= k,
    ensures
        break_count(text_plan(s, axes, k)) == k,
    decreases k,
{
    if k > 0 {
        lemma_breaks_upto(s, axes, k - 1);
        let lp = line_pieces(s, axes, k - 1);
        assert forall|i: int| 0 <= i < lp.len() implies #[trigger] lp[i] is Text by {}
        lemma_no_breaks(lp);
        let brk: Seq<Piece> = seq![Piece::LineBreak];
        assert(brk.drop_last() =~= Seq::<Piece>::empty());
        assert(break_count(brk.drop_last()) == 0);
        assert(brk.last() is LineBreak);
        assert(break_count(brk) == 1);
        lemma_break_count_concat(text_plan(s, axes, k - 1), lp);
        lemma_break_count_concat(text_plan(s, axes, k - 1) + lp, brk);
    }
}

/// Each token type is drawn with the palette entry of its own name: codes, axes,
/// parameters, numbers, comments, operators, variables and errors each keep their
/// colour whatever axis colours are configured, and only unknown tokens are white.
pub proof fn law_roles_named_after_types(o: Seq<char>)
    ensures
        role_of(TokenType::GCode, o) == ColorRole::GCode,
        role_of(TokenType::MCode, o) == ColorRole::MCode,
        role_of(TokenType::OCode, o) == ColorRole::OCode,
        role_of(TokenType::Axis, o) == ColorRole::Axis,
        role_of(TokenType::Parameter, o) == ColorRole::Parameter,
        role_of(TokenType::ParameterKey, o) == ColorRole::ParameterKey,
        role_of(TokenType::ParameterValue, o) == ColorRole::ParameterValue,
        role_of(TokenType::ParameterP, o) == ColorRole::ParameterP,
        role_of(TokenType::Number, o) == ColorRole::Number,
        role_of(TokenType::Comment, o) == ColorRole::Comment,
        role_of(TokenType::Operator, o) == ColorRole::Operator,
        role_of(TokenType::Variable, o) == ColorRole::Variable,
        role_of(TokenType::Error, o) == ColorRole::Error,
        role_of(TokenType::Unknown, o) == ColorRole::White,
        forall|t: TokenType| role_of(t, o) == ColorRole::White ==> t == TokenType::Unknown,
{
}

/// A named axis is drawn with its own colour when its upper case letter has one,
/// and with the generic axis colour otherwise.
pub proof fn law_named_axis_role(c: char, o: Seq<char>)
    ensures
        o.contains(upper(c)) ==> role_of(TokenType::AxisNamed(c), o) == ColorRole::AxisOverride(
            upper(c),
        ),
        !o.contains(upper(c)) ==> role_of(TokenType::AxisNamed(c), o) == ColorRole::Axis,
{
}

/// Two token types that are neither named axes nor unknown never share a colour.
pub proof fn law_roles_distinct(t1: TokenType, t2: TokenType, o: Seq<char>)
    requires
        !(t1 is AxisNamed) && !(t1 is Unknown),
        !(t2 is AxisNamed) && !(t2 is Unknown),
        t1 != t2,
    ensures
        role_of(t1, o) != role_of(t2, o),
{
}

/// Stretches that follow one another with no gap, from `lo` up to `hi`, each non-empty.
pub open spec fn tiles(ps: Seq<CharSpan>, lo: int, hi: int) -> bool
    decreases ps.len(),
{
    if ps.len() == 0 {
        lo == hi
    } else {
        ps[0].0 == lo && ps[0].0 < ps[0].1 && tiles(ps.drop_first(), ps[0].1, hi)
    }
}

proof fn lemma_tiles_concat(a: Seq<CharSpan>, b: Seq<CharSpan>, lo: int, mid: int, hi: int)
    requires
        tiles(a, lo, mid),
        tiles(b, mid, hi),
    ensures
        tiles(a + b, lo, hi),
    decreases a.len(),
{
    if a.len() == 0 {
        assert(a + b =~= b);
    } else {
        assert((a + b).drop_first() =~= a.drop_first() + b);
        assert((a + b)[0] == a[0]);
        lemma_tiles_concat(a.drop_first(), b, a[0].1, mid, hi);
    }
}

proof fn lemma_rest_wf(toks: Seq<Token>, pos: int, n: int)
    requires
        toks.len() > 0,
        crate::tokenizer::tokens_wf(toks, pos, n),
        forall|k: int| 0 <= k < toks.len() ==> #[trigger] toks[k].length > 0,
    ensures
        crate::tokenizer::tokens_wf(toks.drop_first(), toks[0].start + toks[0].length, n),
        forall|k: int| 0 <= k < toks.drop_first().len() ==> #[trigger] toks.drop_first()[k].length > 0,
{
    let rest = toks.drop_first();
    let end = toks[0].start + toks[0].length;
    assert forall|k: int| 0 <= k < rest.len() implies end <= #[trigger] rest[k].start
        && rest[k].start + rest[k].length <= n by {
        assert(rest[k] == toks[k + 1]);
    }
    assert forall|k: int, m: int| 0 <= k < m < rest.len() implies #[trigger] rest[k].start
        + rest[k].length <= #[trigger] rest[m].start by {
        assert(rest[k] == toks[k + 1] && rest[m] == toks[m + 1]);
    }
    assert forall|k: int| 0 <= k < rest.len() implies #[trigger] rest[k].length > 0 by {
        assert(rest[k] == toks[k + 1]);
    }
}

/// With non-empty tokens, in order and inside the line, a line's stretches cover it
/// exactly: they run from the current position to the line's end, one after the
/// other with nothing left out, so that drawing them in turn draws the whole line.
pub proof fn law_line_spans_tile(toks: Seq<Token>, n: int, pos: int)
    requires
        0 <= pos <= n <= usize::MAX,
        crate::tokenizer::tokens_wf(toks, pos, n),
        forall|k: int| 0 <= k < toks.len() ==> #[trigger] toks[k].length > 0,
    ensures
        tiles(line_plan(toks, n, pos), pos, n),
    decreases toks.len(),
{
    if toks.len() == 0 {
        if pos < n {
            let p: Seq<CharSpan> = seq![(pos, n, None)];
            assert(p.drop_first() =~= Seq::<CharSpan>::empty());
            assert(tiles(p.drop_first(), n, n));
        }
    } else {
        let t = toks[0];
        let rest = toks.drop_first();
        let end = t.start + t.length;
        lemma_rest_wf(toks, pos, n);
        law_line_spans_tile(rest, n, end);
        let gap: Seq<CharSpan> = if (t.start as int) > pos {
            seq![(pos, t.start as int, None)]
        } else {
            Seq::empty()
        };
        let mid: Seq<CharSpan> = seq![(t.start as int, end, Some(t.token_type))];
        assert(line_plan(toks, n, pos) == gap + mid + line_plan(rest, n, end));
        if (t.start as int) > pos {
            assert(gap.drop_first() =~= Seq::<CharSpan>::empty());
            assert(tiles(gap.drop_first(), t.start as int, t.start as int));
        } else {
            assert(t.start as int == pos);
        }
        assert(tiles(gap, pos, t.start as int));
        assert(mid.drop_first() =~= Seq::<CharSpan>::empty());
        assert(tiles(mid.drop_first(), end, end));
        assert(tiles(mid, t.start as int, end));
        lemma_tiles_concat(gap, mid, pos, t.start as int, end);
        lemma_tiles_concat(gap + mid, line_plan(rest, n, end), pos, end, n);
    }
}

/// With non-empty tokens, in order and inside the line, each coloured stretch is
/// exactly one token of the line, in that token's colour, and each white stretch
/// overlaps no token.
pub proof fn law_line_spans_follow_tokens(toks: Seq<Token>, n: int, pos: int)
    requires
        0 <= pos <= n <= usize::MAX,
        crate::tokenizer::tokens_wf(toks, pos, n),
        forall|k: int| 0 <= k < toks.len() ==> #[trigger] toks[k].length > 0,
    ensures
        forall|i: int|
            0 <= i < line_plan(toks, n, pos).len() ==> match #[trigger] line_plan(toks, n, pos)[i].2 {
                Some(tt) => exists|m: int|
                    0 <= m < toks.len() && toks[m].start == line_plan(toks, n, pos)[i].0
                        && toks[m].start + toks[m].length == line_plan(toks, n, pos)[i].1
                        && #[trigger] toks[m].token_type == tt,
                None => forall|m: int|
                    0 <= m < toks.len() ==> #[trigger] toks[m].start + toks[m].length <= line_plan(
                        toks,
                        n,
                        pos,
                    )[i].0 || line_plan(toks, n, pos)[i].1 <= toks[m].start,
            },
    decreases toks.len(),
{
    let plan = line_plan(toks, n, pos);
    if toks.len() > 0 {
        let t = toks[0];
        let rest = toks.drop_first();
        let end = t.start + t.length;
        lemma_rest_wf(toks, pos, n);
        law_line_spans_follow_tokens(rest, n, end);
        law_line_spans_inside(rest, n, end);
        let gap: Seq<CharSpan> = if (t.start as int) > pos {
            seq![(pos, t.start as int, None)]
        } else {
            Seq::empty()
        };
        let mid: Seq<CharSpan> = seq![(t.start as int, end, Some(t.token_type))];
        let tail = line_plan(rest, n, end);
        assert(plan == gap + mid + tail);
        assert forall|i: int| 0 <= i < plan.len() implies match #[trigger] plan[i].2 {
            Some(tt) => exists|m: int|
                0 <= m < toks.len() && toks[m].start == plan[i].0 && toks[m].start
                    + toks[m].length == plan[i].1 && #[trigger] toks[m].token_type == tt,
            None => forall|m: int|
                0 <= m < toks.len() ==> #[trigger] toks[m].start + toks[m].length <= plan[i].0
                    || plan[i].1 <= toks[m].start,
        } by {
            if i < gap.len() {
                assert(plan[i] == gap[i]);
                assert forall|m: int| 0 <= m < toks.len() implies #[trigger] toks[m].start
                    + toks[m].length <= plan[i].0 || plan[i].1 <= toks[m].start by {
                    if m > 0 {
                        assert(toks[0].start + toks[0].length <= toks[m].start);
                    }
                }
            } else if i == gap.len() {
                assert(plan[i] == mid[0]);
                assert(toks[0].token_type == t.token_type);
            } else {
                let x = i - gap.len() - 1;
                assert(plan[i] == tail[x]);
                assert(end <= tail[x].0);
                match tail[x].2 {
                    Some(tt) => {
                        let m = choose|m: int|
                            0 <= m < rest.len() && rest[m].start == tail[x].0 && rest[m].start
                                + rest[m].length == tail[x].1 && #[trigger] rest[m].token_type == tt;
                        assert(rest[m] == toks[m + 1]);
                        assert(toks[m + 1].token_type == tt);
                    },
                    None => {
                        assert forall|m: int| 0 <= m < toks.len() implies #[trigger] toks[m].start
                            + toks[m].length <= plan[i].0 || plan[i].1 <= toks[m].start by {
                            if m > 0 {
                                assert(rest[m - 1] == toks[m]);
                                assert(rest[m - 1].start + rest[m - 1].length <= tail[x].0
                                    || tail[x].1 <= rest[m - 1].start);
                            }
                        }
                    },
                }
            }
        }
    }
}

/// Every text piece of the highlighted text lies inside the bytes of one line of the
/// text: the line numbered by the line breaks before the piece. Pieces are drawn on
/// the line they come from.
pub proof fn law_pieces_stay_on_their_line(s: Seq<char>, axes: Set<char>, k: int)
    requires
        0 <= k <= line_ranges(s).len(),
        utf8_len(s) <= usize::MAX,
    ensures
        forall|i: int|
            0 <= i < text_plan(s, axes, k).len() ==> (#[trigger] text_plan(s, axes, k)[i] matches Piece::Text {
                start,
                end,
                ..
            } ==> line_start_byte(s, break_count(text_plan(s, axes, k).take(i)) as int) <= start
                && end <= line_end_byte(s, break_count(text_plan(s, axes, k).take(i)) as int)),
    decreases k,
{
    if k > 0 {
        law_pieces_stay_on_their_line(s, axes, k - 1);
        lemma_breaks_upto(s, axes, k - 1);
        lemma_line_ranges_wf(s);
        let r = line_ranges(s)[k - 1];
        assert(0 <= r.0 <= r.1 <= s.len());
        let line = s.subrange(r.0, r.1);
        let plan = line_plan(tokens_of(line, axes), line.len() as int, 0);
        law_line_spans_inside(tokens_of(line, axes), line.len() as int, 0);
        let prev = text_plan(s, axes, k - 1);
        let lp = line_pieces(s, axes, k - 1);
        let all = text_plan(s, axes, k);
        assert(all == prev + lp + seq![Piece::LineBreak]);
        assert forall|i: int| 0 <= i < all.len() implies (#[trigger] all[i] matches Piece::Text {
            start,
            end,
            ..
        } ==> line_start_byte(s, break_count(all.take(i)) as int) <= start && end <= line_end_byte(
            s,
            break_count(all.take(i)) as int,
        )) by {
            if i < prev.len() {
                assert(all[i] == prev[i]);
                assert(all.take(i) =~= prev.take(i));
            } else if i < prev.len() + lp.len() {
                let x = i - prev.len();
                assert(all[i] == lp[x]);
                assert(all.take(i) =~= prev + lp.take(x));
                assert forall|y: int| 0 <= y < lp.take(x).len() implies #[trigger] lp.take(x)[y] is Text by {
                    assert(lp.take(x)[y] == lp[y]);
                }
                lemma_no_breaks(lp.take(x));
                lemma_break_count_concat(prev, lp.take(x));
                let sp = plan[x];
                assert(0 <= sp.0 < sp.1 <= line.len());
                lemma_utf8_len_subrange(s, r.0, r.0 + sp.0);
                lemma_utf8_len_subrange(s, r.0 + sp.1, r.1);
                lemma_utf8_len_subrange(s, 0, r.0 + sp.0);
                lemma_utf8_len_subrange(s, 0, r.0 + sp.1);
                assert(s.take(r.0 + sp.0) =~= s.subrange(0, r.0 + sp.0));
                assert(s.take(r.0 + sp.1) =~= s.subrange(0, r.0 + sp.1));
                assert(break_count(all.take(i)) == k - 1);
                assert(lp[x] == span_piece(s, r.0, sp));
            }
        }
    }
}

} // verus!
