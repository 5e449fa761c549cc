//! The line tokenizer used for syntax highlighting.

use vstd::prelude::*;
use crate::text::chars_of;
use std::collections::HashSet;

verus! {

/// Kinds of tokens found on a G-code line.
#[derive(Debug, Clone, Copy, PartialEq, Eq, Structural)]
pub enum TokenType {
    GCode,
    MCode,
    OCode,
    /// Generic axis token when a specific axis isn't recognized.
    Axis,
    /// Named axis token, e.g. `AxisNamed('X')`.
    AxisNamed(char),
    Parameter,
    /// Parameter key (left of `=`).
    ParameterKey,
    /// Parameter value (right of `=`).
    ParameterValue,
    /// The `P` parameter, often semantically distinct.
    ParameterP,
    Number,
    Comment,
    Operator,
    Variable,
    Error,
    Unknown,
}

/// A token: `length` chars starting at char index `start` of the line.
#[derive(Debug, Clone)]
pub struct Token {
    pub start: usize,
    pub length: usize,
    pub token_type: TokenType,
}

/// Unicode `White_Space`, the property that `char::is_whitespace` tests.
pub open spec fn is_space(c: char) -> bool {
    let v = c as u32;
    ||| 0x09 <= v <= 0x0D
    ||| v == 0x20
    ||| v == 0x85
    ||| v == 0xA0
    ||| v == 0x1680
    ||| 0x2000 <= v <= 0x200A
    ||| v == 0x2028
    ||| v == 0x2029
    ||| v == 0x202F
    ||| v == 0x205F
    ||| v == 0x3000
}

pub open spec fn is_digit(c: char) -> bool {
    0x30 <= (c as u32) <= 0x39
}

pub open spec fn is_lower(c: char) -> bool {
    0x61 <= (c as u32) <= 0x7A
}

pub open spec fn is_upper(c: char) -> bool {
    0x41 <= (c as u32) <= 0x5A
}

pub open spec fn is_alpha(c: char) -> bool {
    is_lower(c) || is_upper(c)
}

pub open spec fn is_alnum(c: char) -> bool {
    is_alpha(c) || is_digit(c)
}

/// ASCII upper case: lower-case ASCII letters are mapped up, all else is kept.
pub open spec fn upper(c: char) -> char {
    if is_lower(c) {
        ((c as u32) - 32) as char
    } else {
        c
    }
}

/// The character runs that the tokenizer scans over.
#[derive(Debug, Clone, Copy, PartialEq, Eq, Structural)]
pub enum CharClass {
    /// Digits and `.` after a G, M or O letter.
    CodeDigits,
    /// Letters and `_` of an identifier.
    Ident,
    /// White space.
    Space,
    /// Digits, `.`, `e`, `E`, `+`, `-` of a numeric value.
    NumberTail,
    /// Letters, digits, `<`, `>` of a word.
    WordTail,
    /// Anything but white space, `;`, `(` and `)`.
    BareValue,
    /// Anything but the given char.
    Not(char),
}

pub open spec fn in_class(c: char, cls: CharClass) -> bool {
    match cls {
        CharClass::CodeDigits => is_digit(c) || c == '.',
        CharClass::Ident => is_alpha(c) || c == '_',
        CharClass::Space => is_space(c),
        CharClass::NumberTail => is_digit(c) || c == '.' || c == 'e' || c == 'E' || c == '+'
            || c == '-',
        CharClass::WordTail => is_alnum(c) || c == '<' || c == '>',
        CharClass::BareValue => !is_space(c) && c != ';' && c != '(' && c != ')',
        CharClass::Not(q) => c != q,
    }
}

/// End of the run of `cls` chars that starts at `i`.
pub open spec fn scan(s: Seq<char>, i: int, cls: CharClass) -> int
    decreases s.len() - i,
{
    if i < 0 || i >= s.len() {
        s.len() as int
    } else if in_class(s[i], cls) {
        scan(s, i + 1, cls)
    } else {
        i
    }
}

pub proof fn lemma_scan(s: Seq<char>, i: int, cls: CharClass)
    requires
        0 <= i <= s.len(),
    ensures
        i <= scan(s, i, cls) <= s.len(),
        scan(s, i, cls) < s.len() ==> !in_class(s[scan(s, i, cls)], cls),
        forall|k: int| i <= k < scan(s, i, cls) ==> in_class(#[trigger] s[k], cls),
    decreases s.len() - i,
{
    if i < s.len() && in_class(s[i], cls) {
        lemma_scan(s, i + 1, cls);
    }
}

/// Position just past a closing `q` searched from `from`, or the end of the line.
pub open spec fn close_after(s: Seq<char>, from: int, q: char) -> int {
    let j = scan(s, from, CharClass::Not(q));
    if j < s.len() {
        j + 1
    } else {
        j
    }
}

/// End of a parameter value starting at `v`: a quoted string, a `[...]` vector or a
/// `(...)` group up to and including its closer, or else a bare run.
pub open spec fn value_end(s: Seq<char>, v: int) -> int {
    let vc = s[v];
    if vc == '"' || vc == '\'' {
        close_after(s, v + 1, vc)
    } else if vc == '[' {
        close_after(s, v + 1, ']')
    } else if vc == '(' {
        close_after(s, v + 1, ')')
    } else {
        scan(s, v, CharClass::BareValue)
    }
}

pub open spec fn mk_token(start: int, end: int, token_type: TokenType) -> Token {
    Token { start: start as usize, length: (end - start) as usize, token_type }
}

/// Tokens of a word starting with the letter at `i`, and the position after them.
pub open spec fn lex_word(s: Seq<char>, i: int, axes: Set<char>) -> (Seq<Token>, int) {
    let id_end = scan(s, i, CharClass::Ident);
    let k = scan(s, id_end, CharClass::Space);
    let v = scan(s, k + 1, CharClass::Space);
    if k < s.len() && s[k] == '=' && v < s.len() {
        let e = value_end(s, v);
        (
            seq![
                mk_token(i, id_end, TokenType::ParameterKey),
                mk_token(k, k + 1, TokenType::Operator),
                mk_token(v, e, TokenType::ParameterValue),
            ],
            e,
        )
    } else if id_end - i > 1 {
        let e = scan(s, id_end, CharClass::WordTail);
        (seq![mk_token(i, e, TokenType::Variable)], e)
    } else {
        let u = upper(s[i]);
        if axes.contains(u) {
            let e = scan(s, i + 1, CharClass::NumberTail);
            (seq![mk_token(i, e, TokenType::AxisNamed(u))], e)
        } else if u == 'F' || u == 'S' || u == 'T' || u == 'P' {
            let e = scan(s, i + 1, CharClass::NumberTail);
            let t = if u == 'P' {
                TokenType::ParameterP
            } else {
                TokenType::Parameter
            };
            (seq![mk_token(i, e, t)], e)
        } else {
            let e = scan(s, i + 1, CharClass::WordTail);
            (seq![mk_token(i, e, TokenType::Unknown)], e)
        }
    }
}

/// Tokens that start at position `i`, and the position where lexing resumes.
pub open spec fn lex_step(s: Seq<char>, i: int, axes: Set<char>) -> (Seq<Token>, int) {
    let c = s[i];
    if is_space(c) {
        (Seq::empty(), i + 1)
    } else if c == ';' {
        (seq![mk_token(i, s.len() as int, TokenType::Comment)], s.len() as int)
    } else if c == '(' {
        let e = close_after(s, i + 1, ')');
        (seq![mk_token(i, e, TokenType::Comment)], e)
    } else if c == 'G' || c == 'g' {
        let e = scan(s, i + 1, CharClass::CodeDigits);
        (seq![mk_token(i, e, TokenType::GCode)], e)
    } else if c == 'M' || c == 'm' {
        let e = scan(s, i + 1, CharClass::CodeDigits);
        (seq![mk_token(i, e, TokenType::MCode)], e)
    } else if c == 'O' || c == 'o' {
        let e = scan(s, i + 1, CharClass::CodeDigits);
        (seq![mk_token(i, e, TokenType::OCode)], e)
    } else if is_alpha(c) {
        lex_word(s, i, axes)
    } else if is_digit(c) || c == '.' || c == '+' || c == '-' {
        let e = scan(s, i + 1, CharClass::NumberTail);
        (seq![mk_token(i, e, TokenType::Number)], e)
    } else {
        (Seq::empty(), i + 1)
    }
}

/// Tokens of `s` from position `i` on.
pub open spec fn lex_from(s: Seq<char>, i: int, axes: Set<char>) -> Seq<Token>
    decreases s.len() - i,
{
    if i < 0 || i >= s.len() {
        Seq::empty()
    } else {
        let (t, n) = lex_step(s, i, axes);
        if i < n <= s.len() {
            t + lex_from(s, n, axes)
        } else {
            t
        }
    }
}

/// The axis letters used when the caller gives none.
pub open spec fn default_axes() -> Set<char> {
    set!['X', 'Y', 'Z', 'E']
}

/// The tokens of a line, as the tokenizer finds them with the given axis letters.
pub open spec fn tokens_of(s: Seq<char>, axes: Set<char>) -> Seq<Token> {
    lex_from(s, 0, axes)
}

/// Tokens lie inside `[lo, hi]` chars, each ending before the next one starts.
pub open spec fn tokens_wf(toks: Seq<Token>, lo: int, hi: int) -> bool {
    &&& forall|k: int|
        0 <= k < toks.len() ==> lo <= #[trigger] toks[k].start && toks[k].start
            + toks[k].length <= hi
    &&& forall|k: int, m: int|
        0 <= k < m < toks.len() ==> #[trigger] toks[k].start + toks[k].length
            <= #[trigger] toks[m].start
}

proof fn lemma_wf_concat(a: Seq<Token>, b: Seq<Token>, lo: int, mid: int, hi: int)
    requires
        tokens_wf(a, lo, mid),
        tokens_wf(b, mid, hi),
        lo <= mid <= hi,
    ensures
        tokens_wf(a + b, lo, hi),
{
    let c = a + b;
    assert forall|k: int| 0 <= k < c.len() implies lo <= #[trigger] c[k].start && c[k].start
        + c[k].length <= hi by {
        if k < a.len() {
            assert(c[k] == a[k]);
        } else {
            assert(c[k] == b[k - a.len()]);
        }
    }
    assert forall|k: int, m: int| 0 <= k < m < c.len() implies #[trigger] c[k].start
        + c[k].length <= #[trigger] c[m].start by {
        if m < a.len() {
            assert(c[k] == a[k] && c[m] == a[m]);
        } else if k >= a.len() {
            assert(c[k] == b[k - a.len()] && c[m] == b[m - a.len()]);
        } else {
            assert(c[k] == a[k] && c[m] == b[m - a.len()]);
        }
    }
}

proof fn lemma_close_after(s: Seq<char>, from: int, q: char)
    requires
        0 <= from <= s.len(),
    ensures
        from <= close_after(s, from, q) <= s.len(),
{
    lemma_scan(s, from, CharClass::Not(q));
}

/// One lexing step makes progress, stays inside the line and emits ordered tokens.
pub proof fn lemma_lex_step(s: Seq<char>, i: int, axes: Set<char>)
    requires
        0 <= i < s.len(),
        s.len() <= usize::MAX,
    ensures
        i < lex_step(s, i, axes).1 <= s.len(),
        tokens_wf(lex_step(s, i, axes).0, i, lex_step(s, i, axes).1),
{
    let c = s[i];
    lemma_scan(s, i + 1, CharClass::CodeDigits);
    lemma_scan(s, i + 1, CharClass::NumberTail);
    lemma_scan(s, i + 1, CharClass::WordTail);
    lemma_close_after(s, i + 1, ')');
    if is_alpha(c) && !(c == 'G' || c == 'g' || c == 'M' || c == 'm' || c == 'O' || c == 'o') {
        lemma_scan(s, i, CharClass::Ident);
        let id_end = scan(s, i, CharClass::Ident);
        assert(in_class(s[i], CharClass::Ident));
        lemma_scan(s, id_end, CharClass::Space);
        lemma_scan(s, id_end, CharClass::WordTail);
        let k = scan(s, id_end, CharClass::Space);
        if k < s.len() {
            lemma_scan(s, k + 1, CharClass::Space);
            let v = scan(s, k + 1, CharClass::Space);
            if v < s.len() {
                lemma_scan(s, v, CharClass::BareValue);
                lemma_close_after(s, v + 1, s[v]);
                lemma_close_after(s, v + 1, ']');
                lemma_close_after(s, v + 1, ')');
            }
        }
    }
}

/// The tokens from position `i` on are ordered and lie in `[i, s.len()]`.
pub proof fn lemma_lex_from_wf(s: Seq<char>, i: int, axes: Set<char>)
    requires
        0 <= i,
        s.len() <= usize::MAX,
    ensures
        tokens_wf(lex_from(s, i, axes), i, s.len() as int),
    decreases s.len() - i,
{
    if i < s.len() {
        lemma_lex_step(s, i, axes);
        let (t, n) = lex_step(s, i, axes);
        lemma_lex_from_wf(s, n, axes);
        lemma_wf_concat(t, lex_from(s, n, axes), i, n, s.len() as int);
    }
}

/// `char::is_whitespace`: membership in Unicode `White_Space`.
pub fn is_space_char(c: char) -> (b: bool)
    ensures
        b == is_space(c),
{
    let v = c as u32;
    (0x09 <= v && v <= 0x0D) || v == 0x20 || v == 0x85 || v == 0xA0 || v == 0x1680 || (0x2000 <= v
        && v <= 0x200A) || v == 0x2028 || v == 0x2029 || v == 0x202F || v == 0x205F || v == 0x3000
}

fn is_digit_char(c: char) -> (b: bool)
    ensures
        b == is_digit(c),
{
    let v = c as u32;
    0x30 <= v && v <= 0x39
}

fn is_alpha_char(c: char) -> (b: bool)
    ensures
        b == is_alpha(c),
{
    let v = c as u32;
    (0x61 <= v && v <= 0x7A) || (0x41 <= v && v <= 0x5A)
}

/// ASCII upper case of `c`.
pub fn upper_char(c: char) -> (u: char)
    ensures
        u == upper(c),
{
    let v = c as u32;
    if 0x61 <= v && v <= 0x7A {
        let b = (v - 32) as u8;
        b as char
    } else {
        c
    }
}

fn in_class_char(c: char, cls: CharClass) -> (b: bool)
    ensures
        b == in_class(c, cls),
{
    match cls {
        CharClass::CodeDigits => is_digit_char(c) || c == '.',
        CharClass::Ident => is_alpha_char(c) || c == '_',
        CharClass::Space => is_space_char(c),
        CharClass::NumberTail => is_digit_char(c) || c == '.' || c == 'e' || c == 'E' || c == '+'
            || c == '-',
        CharClass::WordTail => is_alpha_char(c) || is_digit_char(c) || c == '<' || c == '>',
        CharClass::BareValue => !is_space_char(c) && c != ';' && c != '(' && c != ')',
        CharClass::Not(q) => c != q,
    }
}

fn scan_chars(s: &Vec<char>, i: usize, cls: CharClass) -> (j: usize)
    requires
        i <= s@.len(),
    ensures
        j == scan(s@, i as int, cls),
{
    let mut j = i;
    while j < s.len() && in_class_char(s[j], cls)
        invariant
            i <= j <= s@.len(),
            scan(s@, j as int, cls) == scan(s@, i as int, cls),
        decreases s@.len() - j,
    {
        j = j + 1;
    }
    j
}

fn close_after_chars(s: &Vec<char>, from: usize, q: char) -> (e: usize)
    requires
        from <= s@.len(),
    ensures
        e == close_after(s@, from as int, q),
{
    let j = scan_chars(s, from, CharClass::Not(q));
    if j < s.len() {
        j + 1
    } else {
        j
    }
}

/// Whether `c` is among `letters`.
pub fn contains_char(letters: &[char], c: char) -> (b: bool)
    ensures
        b == letters@.contains(c),
{
    let mut k: usize = 0;
    while k < letters.len()
        invariant
            k <= letters@.len(),
            forall|m: int| 0 <= m < k ==> letters@[m] != c,
        decreases letters@.len() - k,
    {
        if letters[k] == c {
            return true;
        }
        k = k + 1;
    }
    false
}

fn push_token(tokens: &mut Vec<Token>, start: usize, end: usize, token_type: TokenType)
    requires
        start <= end,
    ensures
        final(tokens)@ == old(tokens)@.push(mk_token(start as int, end as int, token_type)),
{
    tokens.push(Token { start, length: end - start, token_type });
}

fn lex_word_chars(s: &Vec<char>, i: usize, axes: Option<&HashSet<char>>, tokens: &mut Vec<Token>) -> (n: usize)
    requires
        i < s@.len(),
        is_alpha(s@[i as int]),
    ensures
        final(tokens)@ == old(tokens)@ + lex_word(s@, i as int, axes_or_default(axes)).0,
        n == lex_word(s@, i as int, axes_or_default(axes)).1,
{
    let ghost st = s@;
    let _len = s.len();
    proof {
        lemma_scan(st, i as int, CharClass::Ident);
    }
    let id_end = scan_chars(s, i, CharClass::Ident);
    proof {
        lemma_scan(st, id_end as int, CharClass::Space);
        lemma_scan(st, id_end as int, CharClass::WordTail);
        lemma_scan(st, i + 1, CharClass::NumberTail);
        lemma_scan(st, i + 1, CharClass::WordTail);
        assert(in_class(st[i as int], CharClass::Ident));
    }
    let k = scan_chars(s, id_end, CharClass::Space);
    if k < s.len() && s[k] == '=' {
        proof {
            lemma_scan(st, k + 1, CharClass::Space);
        }
        let v = scan_chars(s, k + 1, CharClass::Space);
        if v < s.len() {
            proof {
                lemma_scan(st, v as int, CharClass::BareValue);
                lemma_close_after(st, v + 1, st[v as int]);
                lemma_close_after(st, v + 1, ']');
                lemma_close_after(st, v + 1, ')');
            }
            let vc = s[v];
            let e = if vc == '"' || vc == '\'' {
                close_after_chars(s, v + 1, vc)
            } else if vc == '[' {
                close_after_chars(s, v + 1, ']')
            } else if vc == '(' {
                close_after_chars(s, v + 1, ')')
            } else {
                scan_chars(s, v, CharClass::BareValue)
            };
            let ghost before = tokens@;
            push_token(tokens, i, id_end, TokenType::ParameterKey);
            push_token(tokens, k, k + 1, TokenType::Operator);
            push_token(tokens, v, e, TokenType::ParameterValue);
            proof {
                assert(tokens@ =~= before + lex_word(st, i as int, axes_or_default(axes)).0);
            }
            return e;
        }
    }
    let ghost before = tokens@;
    if id_end - i > 1 {
        let e = scan_chars(s, id_end, CharClass::WordTail);
        push_token(tokens, i, e, TokenType::Variable);
        proof {
            assert(tokens@ =~= before + lex_word(st, i as int, axes_or_default(axes)).0);
        }
        return e;
    }
    let u = upper_char(s[i]);
    if is_axis(axes, u) {
        let e = scan_chars(s, i + 1, CharClass::NumberTail);
        push_token(tokens, i, e, TokenType::AxisNamed(u));
        proof {
            assert(tokens@ =~= before + lex_word(st, i as int, axes_or_default(axes)).0);
        }
        return e;
    }
    if u == 'F' || u == 'S' || u == 'T' || u == 'P' {
        let e = scan_chars(s, i + 1, CharClass::NumberTail);
        let t = if u == 'P' {
            TokenType::ParameterP
        } else {
            TokenType::Parameter
        };
        push_token(tokens, i, e, t);
        proof {
            assert(tokens@ =~= before + lex_word(st, i as int, axes_or_default(axes)).0);
        }
        return e;
    }
    let e = scan_chars(s, i + 1, CharClass::WordTail);
    push_token(tokens, i, e, TokenType::Unknown);
    proof {
        assert(tokens@ =~= before + lex_word(st, i as int, axes_or_default(axes)).0);
    }
    e
}

fn lex_step_chars(s: &Vec<char>, i: usize, axes: Option<&HashSet<char>>, tokens: &mut Vec<Token>) -> (n: usize)
    requires
        i < s@.len(),
    ensures
        final(tokens)@ == old(tokens)@ + lex_step(s@, i as int, axes_or_default(axes)).0,
        n == lex_step(s@, i as int, axes_or_default(axes)).1,
{
    let ghost st = s@;
    let ghost before = tokens@;
    let _len = s.len();
    proof {
        lemma_scan(st, i + 1, CharClass::CodeDigits);
        lemma_scan(st, i + 1, CharClass::NumberTail);
        lemma_close_after(st, i + 1, ')');
    }
    let c = s[i];
    if is_space_char(c) {
        proof {
            assert(tokens@ =~= before + lex_step(st, i as int, axes_or_default(axes)).0);
        }
        return i + 1;
    }
    if c == ';' {
        push_token(tokens, i, s.len(), TokenType::Comment);
        proof {
            assert(tokens@ =~= before + lex_step(st, i as int, axes_or_default(axes)).0);
        }
        return s.len();
    }
    if c == '(' {
        let e = close_after_chars(s, i + 1, ')');
        push_token(tokens, i, e, TokenType::Comment);
        proof {
            assert(tokens@ =~= before + lex_step(st, i as int, axes_or_default(axes)).0);
        }
        return e;
    }
    if c == 'G' || c == 'g' || c == 'M' || c == 'm' || c == 'O' || c == 'o' {
        let e = scan_chars(s, i + 1, CharClass::CodeDigits);
        let t = if c == 'G' || c == 'g' {
            TokenType::GCode
        } else if c == 'M' || c == 'm' {
            TokenType::MCode
        } else {
            TokenType::OCode
        };
        push_token(tokens, i, e, t);
        proof {
            assert(tokens@ =~= before + lex_step(st, i as int, axes_or_default(axes)).0);
        }
        return e;
    }
    if is_alpha_char(c) {
        return lex_word_chars(s, i, axes, tokens);
    }
    if is_digit_char(c) || c == '.' || c == '+' || c == '-' {
        let e = scan_chars(s, i + 1, CharClass::NumberTail);
        push_token(tokens, i, e, TokenType::Number);
        proof {
            assert(tokens@ =~= before + lex_step(st, i as int, axes_or_default(axes)).0);
        }
        return e;
    }
    proof {
        assert(tokens@ =~= before + lex_step(st, i as int, axes_or_default(axes)).0);
    }
    i + 1
}

/// A run of `cls` chars from `i` up to a char outside `cls` at `j` scans to `j`.
proof fn lemma_scan_to(s: Seq<char>, i: int, j: int, cls: CharClass)
    requires
        0 <= i <= j <= s.len(),
        forall|k: int| i <= k < j ==> in_class(#[trigger] s[k], cls),
        j < s.len() ==> !in_class(s[j], cls),
    ensures
        scan(s, i, cls) == j,
    decreases j - i,
{
    if i < j {
        lemma_scan_to(s, i + 1, j, cls);
    }
}

/// The tokens of a line begin with those of its first lexing step.
proof fn lemma_first_step(s: Seq<char>, axes: Set<char>)
    requires
        0 < s.len() <= usize::MAX,
    ensures
        ({
            let (t, n) = lex_step(s, 0, axes);
            &&& 0 < n <= s.len()
            &&& tokens_of(s, axes) == t + lex_from(s, n, axes)
        }),
{
    lemma_lex_step(s, 0, axes);
}

/// A line that opens with `G`, `M` or `O` (either case) followed by a run of digits
/// and dots starts with one code token over the letter and that run.
pub proof fn law_code_word(s: Seq<char>, j: int, axes: Set<char>)
    requires
        1 <= j <= s.len() <= usize::MAX,
        s[0] == 'G' || s[0] == 'g' || s[0] == 'M' || s[0] == 'm' || s[0] == 'O' || s[0] == 'o',
        forall|k: int| 0 < k < j ==> is_digit(#[trigger] s[k]) || s[k] == '.',
        j < s.len() ==> !is_digit(s[j]) && s[j] != '.',
    ensures
        tokens_of(s, axes).len() > 0,
        tokens_of(s, axes)[0] == (Token {
            start: 0,
            length: j as usize,
            token_type: if s[0] == 'G' || s[0] == 'g' {
                TokenType::GCode
            } else if s[0] == 'M' || s[0] == 'm' {
                TokenType::MCode
            } else {
                TokenType::OCode
            },
        }),
{
    lemma_scan_to(s, 1, j, CharClass::CodeDigits);
    lemma_first_step(s, axes);
}

/// A `;` opens a comment that runs to the end of the line: a line starting with it
/// is one comment token.
pub proof fn law_semicolon_comment(s: Seq<char>, axes: Set<char>)
    requires
        0 < s.len() <= usize::MAX,
        s[0] == ';',
    ensures
        tokens_of(s, axes) == seq![
            Token { start: 0, length: s.len() as usize, token_type: TokenType::Comment },
        ],
{
    lemma_first_step(s, axes);
    assert(lex_from(s, s.len() as int, axes) =~= Seq::<Token>::empty());
    assert(tokens_of(s, axes) =~= seq![
        Token { start: 0, length: s.len() as usize, token_type: TokenType::Comment },
    ]);
}

/// A `(` opens a comment that runs up to and including the first `)` after it, or
/// to the end of the line when there is none.
pub proof fn law_paren_comment(s: Seq<char>, m: int, axes: Set<char>)
    requires
        0 < m <= s.len() <= usize::MAX,
        s[0] == '(',
        forall|k: int| 0 < k < m ==> #[trigger] s[k] != ')',
        m < s.len() ==> s[m] == ')',
    ensures
        tokens_of(s, axes).len() > 0,
        tokens_of(s, axes)[0] == (Token {
            start: 0,
            length: (if m < s.len() { m + 1 } else { m }) as usize,
            token_type: TokenType::Comment,
        }),
{
    lemma_scan_to(s, 1, m, CharClass::Not(')'));
    lemma_first_step(s, axes);
}

/// A line that opens with a digit, `.`, `+` or `-` starts with one number token
/// over that char and the digits, dots, exponent letters and signs after it.
pub proof fn law_number(s: Seq<char>, j: int, axes: Set<char>)
    requires
        1 <= j <= s.len() <= usize::MAX,
        is_digit(s[0]) || s[0] == '.' || s[0] == '+' || s[0] == '-',
        forall|k: int|
            0 < k < j ==> is_digit(#[trigger] s[k]) || s[k] == '.' || s[k] == 'e' || s[k] == 'E'
                || s[k] == '+' || s[k] == '-',
        j < s.len() ==> !(is_digit(s[j]) || s[j] == '.' || s[j] == 'e' || s[j] == 'E' || s[j]
            == '+' || s[j] == '-'),
    ensures
        tokens_of(s, axes).len() > 0,
        tokens_of(s, axes)[0] == (Token { start: 0, length: j as usize, token_type: TokenType::Number }),
{
    assert(!is_space(s[0]) && !is_alpha(s[0]));
    lemma_scan_to(s, 1, j, CharClass::NumberTail);
    lemma_first_step(s, axes);
}

/// A lone letter (not G, M or O, and not followed by another letter or `_`) opens a
/// word with its number: an axis token named by its upper case when that is an axis
/// letter, else a parameter token for F, S and T, a P parameter for P, and an unknown
/// token for any other letter (whose word runs over letters, digits, `<` and `>`).
/// This holds for lines with no `=`, where no key is read.
pub proof fn law_letter_word(s: Seq<char>, j: int, axes: Set<char>)
    requires
        1 <= j <= s.len() <= usize::MAX,
        is_alpha(s[0]),
        s[0] != 'G' && s[0] != 'g' && s[0] != 'M' && s[0] != 'm' && s[0] != 'O' && s[0] != 'o',
        s.len() > 1 ==> !is_alpha(s[1]) && s[1] != '_',
        forall|k: int| 0 <= k < s.len() ==> #[trigger] s[k] != '=',
        forall|k: int|
            0 < k < j ==> (if axes.contains(upper(s[0])) || upper(s[0]) == 'F' || upper(s[0]) == 'S'
                || upper(s[0]) == 'T' || upper(s[0]) == 'P' {
                is_digit(#[trigger] s[k]) || s[k] == '.' || s[k] == 'e' || s[k] == 'E' || s[k]
                    == '+' || s[k] == '-'
            } else {
                is_alnum(s[k]) || s[k] == '<' || s[k] == '>'
            }),
        j < s.len() ==> !(if axes.contains(upper(s[0])) || upper(s[0]) == 'F' || upper(s[0]) == 'S'
            || upper(s[0]) == 'T' || upper(s[0]) == 'P' {
            is_digit(s[j]) || s[j] == '.' || s[j] == 'e' || s[j] == 'E' || s[j] == '+' || s[j]
                == '-'
        } else {
            is_alnum(s[j]) || s[j] == '<' || s[j] == '>'
        }),
    ensures
        tokens_of(s, axes).len() > 0,
        tokens_of(s, axes)[0] == (Token {
            start: 0,
            length: j as usize,
            token_type: if axes.contains(upper(s[0])) {
                TokenType::AxisNamed(upper(s[0]))
            } else if upper(s[0]) == 'P' {
                TokenType::ParameterP
            } else if upper(s[0]) == 'F' || upper(s[0]) == 'S' || upper(s[0]) == 'T' {
                TokenType::Parameter
            } else {
                TokenType::Unknown
            },
        }),
{
    assert(!is_space(s[0]));
    lemma_scan_to(s, 0, 1, CharClass::Ident);
    lemma_scan(s, 1, CharClass::Space);
    let k = scan(s, 1, CharClass::Space);
    assert(k < s.len() ==> s[k] != '=');
    if axes.contains(upper(s[0])) || upper(s[0]) == 'F' || upper(s[0]) == 'S' || upper(s[0]) == 'T'
        || upper(s[0]) == 'P' {
        lemma_scan_to(s, 1, j, CharClass::NumberTail);
    } else {
        lemma_scan_to(s, 1, j, CharClass::WordTail);
    }
    lemma_first_step(s, axes);
}

/// `KEY=VALUE` (a word of letters and `_` not read as a code, optional white space,
/// `=`, optional white space, then a plain value) gives a key token, an operator
/// token for the `=` and a value token that runs up to white space, `;`, `(` or `)`.
pub proof fn law_key_value(s: Seq<char>, j: int, v: int, e: int, axes: Set<char>)
    requires
        1 <= j < v < e <= s.len() <= usize::MAX,
        is_alpha(s[0]),
        s[0] != 'G' && s[0] != 'g' && s[0] != 'M' && s[0] != 'm' && s[0] != 'O' && s[0] != 'o',
        forall|k: int| 0 < k < j ==> is_alpha(#[trigger] s[k]) || s[k] == '_',
        s[j] == '=',
        forall|k: int| j < k < v ==> is_space(#[trigger] s[k]),
        s[v] != '"' && s[v] != '\'' && s[v] != '[' && s[v] != '(',
        forall|k: int|
            v <= k < e ==> !is_space(#[trigger] s[k]) && s[k] != ';' && s[k] != '(' && s[k] != ')',
        e < s.len() ==> is_space(s[e]) || s[e] == ';' || s[e] == '(' || s[e] == ')',
    ensures
        tokens_of(s, axes).len() >= 3,
        tokens_of(s, axes)[0] == (Token { start: 0, length: j as usize, token_type: TokenType::ParameterKey }),
        tokens_of(s, axes)[1] == (Token { start: j as usize, length: 1, token_type: TokenType::Operator }),
        tokens_of(s, axes)[2] == (Token {
            start: v as usize,
            length: (e - v) as usize,
            token_type: TokenType::ParameterValue,
        }),
{
    assert(!is_space(s[0]));
    assert(!is_alpha(s[j]) && s[j] != '_' && !is_space(s[j]));
    lemma_scan_to(s, 0, j, CharClass::Ident);
    lemma_scan_to(s, j, j, CharClass::Space);
    lemma_scan_to(s, j + 1, v, CharClass::Space);
    lemma_scan_to(s, v, e, CharClass::BareValue);
    lemma_first_step(s, axes);
}

/// A word of two or more letters and underscores that opens a line (and is not
/// read as a G, M or O code), followed by white space, with no `=` anywhere after
/// it, is one variable token covering the whole word, underscores included.
pub proof fn law_identifier_is_one_token(s: Seq<char>, j: int, axes: Set<char>)
    requires
        2 <= j < s.len() <= usize::MAX,
        is_alpha(s[0]),
        s[0] != 'G' && s[0] != 'g' && s[0] != 'M' && s[0] != 'm' && s[0] != 'O' && s[0] != 'o',
        forall|k: int| 0 < k < j ==> is_alpha(#[trigger] s[k]) || s[k] == '_',
        is_space(s[j]),
        forall|k: int| j <= k < s.len() ==> #[trigger] s[k] != '=',
    ensures
        tokens_of(s, axes).len() > 0,
        tokens_of(s, axes)[0] == (Token { start: 0, length: j as usize, token_type: TokenType::Variable }),
{
    assert(!is_space(s[0]));
    assert forall|k: int| 0 <= k < j implies in_class(#[trigger] s[k], CharClass::Ident) by {
        if k > 0 {
            assert(is_alpha(s[k]) || s[k] == '_');
        }
    }
    assert(!is_alpha(s[j]));
    lemma_scan_to(s, 0, j, CharClass::Ident);
    lemma_scan(s, j, CharClass::Space);
    let k = scan(s, j, CharClass::Space);
    assert(k < s.len() ==> s[k] != '=');
    lemma_scan_to(s, j, j, CharClass::WordTail);
    lemma_lex_step(s, 0, axes);
    assert(lex_step(s, 0, axes) == (seq![mk_token(0, j, TokenType::Variable)], j));
}

/// The axis letters that a call uses: the given ones, or X, Y, Z and E.
pub open spec fn axes_or_default(axis_chars: Option<&HashSet<char>>) -> Set<char> {
    match axis_chars {
        Some(a) => a@,
        None => default_axes(),
    }
}

/// Membership in a set of chars: `HashSet::contains`, which returns whether the
/// set holds `c`.
#[verifier::external_body]
fn hash_set_contains(set: &HashSet<char>, c: char) -> (r: bool)
    ensures
        r == set@.contains(c),
{
    set.contains(&c)
}

/// Whether `u` is one of the axis letters in use.
fn is_axis(axes: Option<&HashSet<char>>, u: char) -> (r: bool)
    ensures
        r == axes_or_default(axes).contains(u),
{
    match axes {
        Some(set) => hash_set_contains(set, u),
        None => u == 'X' || u == 'Y' || u == 'Z' || u == 'E',
    }
}

/// Tokens of a line given as chars, with the given axis letters (X, Y, Z and E
/// when `None`).
pub fn tokenize_chars(chars: &Vec<char>, axes: Option<&HashSet<char>>) -> (tokens: Vec<Token>)
    ensures
        tokens@ == tokens_of(chars@, axes_or_default(axes)),
        tokens_wf(tokens@, 0, chars@.len() as int),
{
    let ghost st = chars@;
    let ghost ax = axes_or_default(axes);
    let mut tokens: Vec<Token> = Vec::new();
    let mut i: usize = 0;
    while i < chars.len()
        invariant
            st == chars@,
            ax == axes_or_default(axes),
            i <= st.len(),
            tokens@ + lex_from(st, i as int, ax) == lex_from(st, 0, ax),
        decreases st.len() - i,
    {
        proof {
            lemma_lex_step(st, i as int, ax);
        }
        let ghost before = tokens@;
        let n = lex_step_chars(chars, i, axes, &mut tokens);
        proof {
            assert(tokens@ + lex_from(st, n as int, ax) =~= before + (lex_step(st, i as int, ax).0
                + lex_from(st, n as int, ax)));
        }
        i = n;
    }
    proof {
        assert(tokens@ + lex_from(st, i as int, ax) =~= tokens@);
        lemma_lex_from_wf(st, 0, ax);
    }
    tokens
}

/// Splits one line into highlighting tokens. Positions are char indices into the line.
/// A letter whose upper case is in `axis_chars` (X, Y, Z, E when `None`) starts an axis token.
pub fn tokenize_line_pure_rust(line: &str, axis_chars: Option<&HashSet<char>>) -> (tokens: Vec<
    Token,
>)
    ensures
        tokens@ == tokens_of(line@, axes_or_default(axis_chars)),
        tokens_wf(tokens@, 0, line@.len() as int),
{
    let (chars, _) = chars_of(line);
    tokenize_chars(&chars, axis_chars)
}

} // verus!
