//! The lexer of scientific modules: source text to tokens with byte spans.
//!
//! A number token keeps its spelling; its floating-point value is read from the spelling by
//! whoever needs it.

use vstd::prelude::*;
use vstd::utf8::{encode_utf8, encode_scalar, char_is_scalar, has_width_1_encoding, has_width_2_encoding, has_width_3_encoding};
use crate::scientific::ScientificError;
use crate::semantic::{first_of, lemma_first_of};
use crate::source::SourceSpan;
use crate::text::{all_digits, char_utf8_width, chars_of, is_digit, utf8_len, utf8_width};

verus! {

// ---------------------------------------------------------------------------------------
// Characters.
// ---------------------------------------------------------------------------------------

/// Whether a character has the Unicode `White_Space` property, the set that
/// `char::is_whitespace` documents: U+0009 to U+000D, U+0020, U+0085, U+00A0, U+1680, U+2000 to
/// U+200A, U+2028, U+2029, U+202F, U+205F and U+3000.
pub open spec fn unicode_whitespace(c: char) -> bool {
    let x = c as int;
    ||| 0x9 <= x <= 0xD
    ||| x == 0x20
    ||| x == 0x85
    ||| x == 0xA0
    ||| x == 0x1680
    ||| 0x2000 <= x <= 0x200A
    ||| x == 0x2028
    ||| x == 0x2029
    ||| x == 0x202F
    ||| x == 0x205F
    ||| x == 0x3000
}

/// Whether a character is Unicode alphabetic or numeric.
pub uninterp spec fn unicode_alphanumeric(c: char) -> bool;

/// Whether a character is whitespace, as `char::is_whitespace` answers.
fn is_whitespace(c: char) -> (r: bool)
    ensures
        r == unicode_whitespace(c),
{
    let x = c as u32;
    (0x9 <= x && x <= 0xD) || x == 0x20 || x == 0x85 || x == 0xA0 || x == 0x1680 || (0x2000 <= x && x
        <= 0x200A) || x == 0x2028 || x == 0x2029 || x == 0x202F || x == 0x205F || x == 0x3000
}

/// `char::is_alphanumeric`: whether the character is Unicode `Alphabetic` or `Numeric`. Its
/// result depends on the character alone and is named; beyond ASCII it is not spelled out.
/// Among ASCII characters those two properties hold of the letters and the digits alone, so
/// there the result is stated.
#[verifier::external_body]
fn is_alphanumeric(c: char) -> (r: bool)
    ensures
        r == unicode_alphanumeric(c),
        (c as int) < 0x80 ==> (r <==> (ascii_alpha(c) || is_digit(c))),
{
    c.is_alphanumeric()
}

pub open spec fn ascii_alpha(c: char) -> bool {
    ('a' <= c && c <= 'z') || ('A' <= c && c <= 'Z')
}

/// A character that starts an identifier.
pub open spec fn ident_start(c: char) -> bool {
    ascii_alpha(c) || c == '_' || c == 'π'
}

/// A character that continues an identifier.
pub open spec fn ident_continue(c: char) -> bool {
    unicode_alphanumeric(c) || c == '_' || c == '.' || c == 'π'
}

/// Whether `c` continues an identifier, given whether it is alphanumeric.
pub fn continues_identifier(c: char, alphanumeric: bool) -> (r: bool)
    ensures
        r == (alphanumeric || c == '_' || c == '.' || c == 'π'),
{
    alphanumeric || c == '_' || c == '.' || c == 'π'
}

/// A character that can occur in a number.
pub open spec fn number_char(c: char) -> bool {
    is_digit(c) || c == '.' || c == 'e' || c == 'E' || c == '+' || c == '-'
}

/// A one-character operator.
pub open spec fn single_op(c: char) -> bool {
    c == '+' || c == '-' || c == '*' || c == '/' || c == '^' || c == '=' || c == '<' || c == '>'
}

/// A two-character operator.
pub open spec fn double_op(a: char, b: char) -> bool {
    (a == '=' && b == '=') || (a == '<' && b == '=') || (a == '>' && b == '=') || (a == '-' && b == '>')
}

/// A punctuation character.
pub open spec fn punct(c: char) -> bool {
    c == '{' || c == '}' || c == '(' || c == ')' || c == ';' || c == ':' || c == ',' || c == '['
        || c == ']' || c == '@'
}

// ---------------------------------------------------------------------------------------
// Numbers as std reads a floating-point value: `Sign? Number`, where
// `Number ::= (Digit+ | Digit+ '.' Digit* | Digit* '.' Digit+) (('e' | 'E') Sign? Digit+)?`.
// ---------------------------------------------------------------------------------------

/// `Digit+ | Digit+ '.' Digit* | Digit* '.' Digit+`.
pub open spec fn decimal_number(m: Seq<char>) -> bool {
    let p = first_of(m, '.', '.');
    if p >= m.len() {
        m.len() > 0 && all_digits(m)
    } else {
        all_digits(m.take(p)) && all_digits(m.skip(p + 1)) && (p > 0 || m.len() > p + 1)
    }
}

/// `Sign? Digit+`.
pub open spec fn exponent_digits(e: Seq<char>) -> bool {
    let body = if e.len() > 0 && (e[0] == '+' || e[0] == '-') { e.drop_first() } else { e };
    body.len() > 0 && all_digits(body)
}

/// The text reads as a floating-point number.
pub open spec fn float_text(s: Seq<char>) -> bool {
    let body = if s.len() > 0 && (s[0] == '+' || s[0] == '-') { s.drop_first() } else { s };
    let q = first_of(body, 'e', 'E');
    if q >= body.len() {
        decimal_number(body)
    } else {
        decimal_number(body.take(q)) && exponent_digits(body.skip(q + 1))
    }
}

/// The first `a` or `b` in `s[from..to]`, as an index into `s`, or `to` when there is none.
fn find_first(s: &Vec<char>, from: usize, to: usize, a: char, b: char) -> (p: usize)
    requires
        from <= to <= s@.len(),
    ensures
        from <= p <= to,
        p - from == first_of(s@.subrange(from as int, to as int), a, b),
{
    let mut p = from;
    while p < to && s[p] != a && s[p] != b
        invariant
            from <= p <= to <= s@.len(),
            forall|j: int| from <= j < p ==> s@[j] != a && s@[j] != b,
        decreases to - p,
    {
        p = p + 1;
    }
    proof {
        let t = s@.subrange(from as int, to as int);
        assert forall|j: int| 0 <= j < p - from implies t[j] != a && t[j] != b by {
            assert(t[j] == s@[from + j]);
        }
        if p < to {
            assert(t[p - from] == s@[p as int]);
        }
        lemma_first_of(t, a, b, p - from);
    }
    p
}

fn all_digits_in(s: &Vec<char>, from: usize, to: usize) -> (r: bool)
    requires
        from <= to <= s@.len(),
    ensures
        r == all_digits(s@.subrange(from as int, to as int)),
{
    let mut j = from;
    while j < to
        invariant
            from <= j <= to <= s@.len(),
            forall|i: int| from <= i < j ==> is_digit(s@[i]),
        decreases to - j,
    {
        if !('0' <= s[j] && s[j] <= '9') {
            proof {
                assert(s@.subrange(from as int, to as int)[j - from] == s@[j as int]);
            }
            return false;
        }
        j = j + 1;
    }
    proof {
        let t = s@.subrange(from as int, to as int);
        assert forall|i: int| 0 <= i < t.len() implies is_digit(#[trigger] t[i]) by {
            assert(t[i] == s@[from + i]);
        }
    }
    true
}

fn is_decimal_number(s: &Vec<char>, from: usize, to: usize) -> (r: bool)
    requires
        from <= to <= s@.len(),
    ensures
        r == decimal_number(s@.subrange(from as int, to as int)),
{
    let ghost m = s@.subrange(from as int, to as int);
    let p = find_first(s, from, to, '.', '.');
    if p >= to {
        to > from && all_digits_in(s, from, to)
    } else {
        proof {
            assert(m.take(p - from) =~= s@.subrange(from as int, p as int));
            assert(m.skip(p - from + 1) =~= s@.subrange(p + 1, to as int));
        }
        all_digits_in(s, from, p) && all_digits_in(s, p + 1, to) && (p > from || to > p + 1)
    }
}

fn is_exponent_digits(s: &Vec<char>, from: usize, to: usize) -> (r: bool)
    requires
        from <= to <= s@.len(),
    ensures
        r == exponent_digits(s@.subrange(from as int, to as int)),
{
    let ghost e = s@.subrange(from as int, to as int);
    let start = if from < to && (s[from] == '+' || s[from] == '-') { from + 1 } else { from };
    proof {
        if from < to && (s@[from as int] == '+' || s@[from as int] == '-') {
            assert(e[0] == s@[from as int]);
            assert(e.drop_first() =~= s@.subrange(start as int, to as int));
        } else {
            if from < to {
                assert(e[0] == s@[from as int]);
            }
            assert(e =~= s@.subrange(start as int, to as int));
        }
    }
    start < to && all_digits_in(s, start, to)
}

/// Whether `s[from..to]` reads as a floating-point number.
fn is_float_text(s: &Vec<char>, from: usize, to: usize) -> (r: bool)
    requires
        from <= to <= s@.len(),
    ensures
        r == float_text(s@.subrange(from as int, to as int)),
{
    let ghost t = s@.subrange(from as int, to as int);
    let start = if from < to && (s[from] == '+' || s[from] == '-') { from + 1 } else { from };
    let ghost body = s@.subrange(start as int, to as int);
    proof {
        if from < to {
            assert(t[0] == s@[from as int]);
        }
        if from < to && (s@[from as int] == '+' || s@[from as int] == '-') {
            assert(t.drop_first() =~= body);
        } else {
            assert(t =~= body);
        }
    }
    let q = find_first(s, start, to, 'e', 'E');
    if q >= to {
        is_decimal_number(s, start, to)
    } else {
        proof {
            assert(body.take(q - start) =~= s@.subrange(start as int, q as int));
            assert(body.skip(q - start + 1) =~= s@.subrange(q + 1, to as int));
        }
        is_decimal_number(s, start, q) && is_exponent_digits(s, q + 1, to)
    }
}

// ---------------------------------------------------------------------------------------
// Byte offsets.
// ---------------------------------------------------------------------------------------

/// The byte offset of character `k`.
pub open spec fn offset(s: Seq<char>, k: int) -> int {
    utf8_len(s.take(k)) as int
}

proof fn lemma_offset_step(s: Seq<char>, k: int)
    requires
        0 <= k < s.len(),
    ensures
        offset(s, k + 1) == offset(s, k) + utf8_width(s[k]),
{
    assert(s.take(k + 1).drop_last() =~= s.take(k));
    assert(s.take(k + 1).last() == s[k]);
}

proof fn lemma_offset_mono(s: Seq<char>, a: int, b: int)
    requires
        0 <= a <= b <= s.len(),
    ensures
        offset(s, a) <= offset(s, b),
    decreases b - a,
{
    if a < b {
        lemma_offset_mono(s, a, b - 1);
        lemma_offset_step(s, b - 1);
    }
}

proof fn lemma_utf8_len_first(s: Seq<char>)
    requires
        s.len() > 0,
    ensures
        utf8_len(s) == utf8_width(s[0]) + utf8_len(s.drop_first()),
    decreases s.len(),
{
    if s.len() > 1 {
        lemma_utf8_len_first(s.drop_last());
        assert(s.drop_last().drop_first() =~= s.drop_first().drop_last());
        assert(s.drop_first().last() == s.last());
        assert(s.drop_last()[0] == s[0]);
        assert(utf8_len(s.drop_first()) == utf8_len(s.drop_first().drop_last()) + utf8_width(s.drop_first().last()));
    } else {
        assert(s.drop_first().len() == 0);
        assert(s.drop_last().len() == 0);
        assert(utf8_len(s.drop_first()) == 0);
        assert(utf8_len(s.drop_last()) == 0);
        assert(s.last() == s[0]);
    }
}

proof fn lemma_width_encoding(c: char)
    ensures
        utf8_width(c) == encode_scalar(c as u32).len(),
{
    char_is_scalar(c);
}

/// The UTF-8 encoding of a string is as long as the widths of its characters add up to.
proof fn lemma_encode_len(s: Seq<char>)
    ensures
        encode_utf8(s).len() == utf8_len(s),
    decreases s.len(),
{
    if s.len() > 0 {
        lemma_encode_len(s.drop_first());
        lemma_utf8_len_first(s);
        lemma_width_encoding(s[0]);
    }
}

/// The byte length of a string.
fn byte_len(input: &str) -> (n: usize)
    ensures
        n == utf8_len(input@),
{
    proof {
        lemma_encode_len(input@);
    }
    input.as_bytes().len()
}

// ---------------------------------------------------------------------------------------
// Tokens and the lexing relation.
// ---------------------------------------------------------------------------------------

#[derive(Clone, Debug, PartialEq)]
pub enum TokenKind {
    Ident(String),
    /// A number, by its spelling.
    Number(String),
    String(String),
    Punct(char),
    Op(String),
    Eof,
}

#[derive(Clone, Debug, PartialEq)]
pub struct Token {
    pub kind: TokenKind,
    pub span: SourceSpan,
}

/// A token kind with its text as characters.
pub enum TokenView {
    Ident(Seq<char>),
    Number(Seq<char>),
    Text(Seq<char>),
    Punct(char),
    Op(Seq<char>),
    Eof,
}

pub open spec fn kind_view(k: TokenKind) -> TokenView {
    match k {
        TokenKind::Ident(x) => TokenView::Ident(x@),
        TokenKind::Number(x) => TokenView::Number(x@),
        TokenKind::String(x) => TokenView::Text(x@),
        TokenKind::Punct(c) => TokenView::Punct(c),
        TokenKind::Op(x) => TokenView::Op(x@),
        TokenKind::Eof => TokenView::Eof,
    }
}

pub open spec fn token_view(t: Token) -> (TokenView, SourceSpan) {
    (kind_view(t.kind), t.span)
}

pub open spec fn tokens_view(v: Seq<Token>) -> Seq<(TokenView, SourceSpan)> {
    v.map_values(|t: Token| token_view(t))
}

/// A syntax error by its message and span.
pub open spec fn error_view(e: ScientificError) -> (Seq<char>, SourceSpan) {
    match e {
        ScientificError::Syntax { message, span } => (message@, span),
        _ => (seq![], SourceSpan { start: 0, end: 0 }),
    }
}

pub open spec fn errors_view(v: Seq<ScientificError>) -> Seq<(Seq<char>, SourceSpan)> {
    v.map_values(|e: ScientificError| error_view(e))
}

/// The end of the identifier characters from `k`.
pub open spec fn ident_end(s: Seq<char>, k: int) -> int
    decreases s.len() - k,
{
    if k < 0 || k >= s.len() || !ident_continue(s[k]) {
        k
    } else {
        ident_end(s, k + 1)
    }
}

/// The end of a number from `k`: a sign continues a number only right after an exponent
/// marker.
pub open spec fn number_end(s: Seq<char>, k: int) -> int
    decreases s.len() - k,
{
    if k <= 0 || k >= s.len() || !number_char(s[k]) || ((s[k] == '+' || s[k] == '-') && !(s[k - 1] == 'e'
        || s[k - 1] == 'E')) {
        k
    } else {
        number_end(s, k + 1)
    }
}

/// The first position at or after `k` that holds `ch`, or the end.
pub open spec fn find_from(s: Seq<char>, k: int, ch: char) -> int
    decreases s.len() - k,
{
    if k < 0 || k >= s.len() || s[k] == ch {
        k
    } else {
        find_from(s, k + 1, ch)
    }
}

/// What the lexer does at character `k`.
pub enum LexStep {
    /// Skip to `next`.
    Skip(int),
    /// Emit a token with its span, and go on at `next`.
    Emit(TokenView, SourceSpan, int),
    /// Report an error with its span, and go on at `next`.
    Fail(Seq<char>, SourceSpan, int),
    /// Report an error with its span, and stop.
    Stop(Seq<char>, SourceSpan),
}

pub open spec fn span_of(a: int, b: int) -> SourceSpan {
    SourceSpan { start: a as usize, end: b as usize }
}

/// A comment starts at `k`: `#`, or `//`.
pub open spec fn comment_start(s: Seq<char>, k: int) -> bool {
    s[k] == '#' || (s[k] == '/' && k + 1 < s.len() && s[k + 1] == '/')
}

/// A number starts at `k`: a digit, or `.` before a digit.
pub open spec fn number_start(s: Seq<char>, k: int) -> bool {
    is_digit(s[k]) || (s[k] == '.' && k + 1 < s.len() && is_digit(s[k + 1]))
}

/// The lexer reaches its operator test at `k`, where it looks at two bytes.
pub open spec fn reaches_operator_test(s: Seq<char>, k: int) -> bool {
    &&& !unicode_whitespace(s[k])
    &&& !comment_start(s, k)
    &&& !ident_start(s[k])
    &&& !number_start(s, k)
    &&& s[k] != '"'
}

/// The two bytes at `k` end on a character boundary, or there are fewer than two bytes left.
pub open spec fn two_bytes_whole(s: Seq<char>, k: int) -> bool {
    utf8_width(s[k]) == 2 || (utf8_width(s[k]) == 1 && (k + 1 >= s.len() || utf8_width(s[k + 1]) == 1))
}

pub open spec fn lex_step(s: Seq<char>, k: int) -> LexStep {
    let c = s[k];
    let here = offset(s, k);
    if unicode_whitespace(c) {
        LexStep::Skip(k + 1)
    } else if comment_start(s, k) {
        LexStep::Skip(find_from(s, k, '\n'))
    } else if ident_start(c) {
        let e = ident_end(s, k + 1);
        LexStep::Emit(TokenView::Ident(s.subrange(k, e)), span_of(here, offset(s, e)), e)
    } else if number_start(s, k) {
        let e = number_end(s, k + 1);
        let text = s.subrange(k, e);
        if float_text(text) {
            LexStep::Emit(TokenView::Number(text), span_of(here, offset(s, e)), e)
        } else {
            LexStep::Fail("invalid number"@, span_of(here, offset(s, e)), e)
        }
    } else if c == '"' {
        let j = find_from(s, k + 1, '"');
        if j >= s.len() {
            LexStep::Stop("unterminated string"@, span_of(here, offset(s, s.len() as int)))
        } else {
            LexStep::Emit(TokenView::Text(s.subrange(k + 1, j)), span_of(here, offset(s, j) + 1), j + 1)
        }
    } else if k + 1 < s.len() && double_op(c, s[k + 1]) {
        LexStep::Emit(TokenView::Op(seq![c, s[k + 1]]), span_of(here, here + 2), k + 2)
    } else if single_op(c) {
        LexStep::Emit(TokenView::Op(seq![c]), span_of(here, here + utf8_width(c)), k + 1)
    } else if punct(c) {
        LexStep::Emit(TokenView::Punct(c), span_of(here, here + utf8_width(c)), k + 1)
    } else {
        LexStep::Fail(
            "unexpected character `"@ + seq![c] + seq!['`'],
            span_of(here, here + utf8_width(c)),
            k + 1,
        )
    }
}

/// Where the lexer goes on after a step.
pub open spec fn step_next(st: LexStep) -> int {
    match st {
        LexStep::Skip(n) => n,
        LexStep::Emit(_, _, n) => n,
        LexStep::Fail(_, _, n) => n,
        LexStep::Stop(_, _) => -1,
    }
}

/// The tokens and the errors of lexing from character `k` on; the tokens end with `Eof` at
/// the end of the text.
pub open spec fn lex_from(s: Seq<char>, k: int) -> (Seq<(TokenView, SourceSpan)>, Seq<(Seq<char>, SourceSpan)>)
    decreases s.len() - k,
{
    let end = offset(s, s.len() as int);
    let eof = seq![(TokenView::Eof, span_of(end, end))];
    if k < 0 || k >= s.len() {
        (eof, seq![])
    } else {
        let st = lex_step(s, k);
        match st {
            LexStep::Stop(m, sp) => (eof, seq![(m, sp)]),
            _ => {
                let n = step_next(st);
                if n <= k || n > s.len() {
                    (eof, seq![])
                } else {
                    let rest = lex_from(s, n);
                    match st {
                        LexStep::Emit(t, sp, _) => (seq![(t, sp)] + rest.0, rest.1),
                        LexStep::Fail(m, sp, _) => (rest.0, seq![(m, sp)] + rest.1),
                        _ => rest,
                    }
                }
            },
        }
    }
}

/// Lexing from `k` never looks at two bytes that split a character: std would panic there.
pub open spec fn lex_safe(s: Seq<char>, k: int) -> bool
    decreases s.len() - k,
{
    if k < 0 || k >= s.len() {
        true
    } else {
        let st = lex_step(s, k);
        &&& (reaches_operator_test(s, k) ==> two_bytes_whole(s, k))
        &&& (k < step_next(st) <= s.len() ==> lex_safe(s, step_next(st)))
    }
}

/// Text made of ASCII characters alone can be lexed from any point: every character is one
/// byte wide, so no two-byte look at an operator splits a character.
pub proof fn lemma_ascii_lex_safe(s: Seq<char>, k: int)
    requires
        forall|i: int| 0 <= i < s.len() ==> (#[trigger] s[i] as int) < 0x80,
    ensures
        lex_safe(s, k),
    decreases s.len() - k,
{
    if 0 <= k < s.len() {
        assert(utf8_width(s[k]) == 1);
        if k + 1 < s.len() {
            assert(utf8_width(s[k + 1]) == 1);
        }
        let st = lex_step(s, k);
        if k < step_next(st) <= s.len() {
            lemma_ascii_lex_safe(s, step_next(st));
        }
    }
}

proof fn lemma_find_from(s: Seq<char>, k: int, ch: char, j: int)
    requires
        0 <= k <= j <= s.len(),
        forall|m: int| k <= m < j ==> s[m] != ch,
        j == s.len() || s[j] == ch,
    ensures
        find_from(s, k, ch) == j,
    decreases j - k,
{
    if k < j {
        lemma_find_from(s, k + 1, ch, j);
    }
}

proof fn lemma_ident_end(s: Seq<char>, k: int, j: int)
    requires
        0 <= k <= j <= s.len(),
        forall|m: int| k <= m < j ==> ident_continue(s[m]),
        j == s.len() || !ident_continue(s[j]),
    ensures
        ident_end(s, k) == j,
    decreases j - k,
{
    if k < j {
        lemma_ident_end(s, k + 1, j);
    }
}

/// The number continues at `m`.
pub open spec fn number_continues(s: Seq<char>, m: int) -> bool {
    number_char(s[m]) && !((s[m] == '+' || s[m] == '-') && !(s[m - 1] == 'e' || s[m - 1] == 'E'))
}

proof fn lemma_number_end(s: Seq<char>, k: int, j: int)
    requires
        1 <= k <= j <= s.len(),
        forall|m: int| k <= m < j ==> number_continues(s, m),
        j == s.len() || !number_continues(s, j),
    ensures
        number_end(s, k) == j,
    decreases j - k,
{
    if k < j {
        assert(number_continues(s, k));
        lemma_number_end(s, k + 1, j);
    }
}

/// The lexer's state after lexing up to character `k`: what it has emitted, followed by what
/// lexing from `k` on gives, is what lexing the whole text gives.
pub open spec fn lex_progress(
    s: Seq<char>,
    k: int,
    out: Seq<Token>,
    errors: Seq<ScientificError>,
) -> bool {
    let rest = lex_from(s, k);
    lex_from(s, 0) == (tokens_view(out) + rest.0, errors_view(errors) + rest.1)
}

proof fn lemma_emit(s: Seq<char>, k: int, n: int, out: Seq<Token>, errors: Seq<ScientificError>, t: Token)
    requires
        0 <= k < n <= s.len(),
        lex_progress(s, k, out, errors),
        lex_step(s, k) == LexStep::Emit(kind_view(t.kind), t.span, n),
    ensures
        lex_progress(s, n, out.push(t), errors),
{
    let rest = lex_from(s, n);
    assert(lex_from(s, k) == (seq![(kind_view(t.kind), t.span)] + rest.0, rest.1));
    assert(tokens_view(out.push(t)) =~= tokens_view(out).push(token_view(t)));
    assert(tokens_view(out) + (seq![(kind_view(t.kind), t.span)] + rest.0) =~= tokens_view(out.push(t)) + rest.0);
}

proof fn lemma_fail(
    s: Seq<char>,
    k: int,
    n: int,
    out: Seq<Token>,
    errors: Seq<ScientificError>,
    e: ScientificError,
)
    requires
        0 <= k < n <= s.len(),
        lex_progress(s, k, out, errors),
        lex_step(s, k) == LexStep::Fail(error_view(e).0, error_view(e).1, n),
    ensures
        lex_progress(s, n, out, errors.push(e)),
{
    let rest = lex_from(s, n);
    assert(lex_from(s, k) == (rest.0, seq![error_view(e)] + rest.1));
    assert(errors_view(errors.push(e)) =~= errors_view(errors).push(error_view(e)));
    assert(errors_view(errors) + (seq![error_view(e)] + rest.1) =~= errors_view(errors.push(e)) + rest.1);
}

proof fn lemma_skip(s: Seq<char>, k: int, n: int, out: Seq<Token>, errors: Seq<ScientificError>)
    requires
        0 <= k < n <= s.len(),
        lex_progress(s, k, out, errors),
        lex_step(s, k) == LexStep::Skip(n),
    ensures
        lex_progress(s, n, out, errors),
{
}

fn syntax_error(message: &str, span: SourceSpan) -> (e: ScientificError)
    ensures
        error_view(e) == (message@, span),
        e is Syntax,
{
    ScientificError::Syntax { message: message.to_owned(), span }
}

/// The outcome of lexing `s`: the tokens when there is no error, else every error, each a
/// syntax error.
pub open spec fn lexed(s: Seq<char>, r: Result<Vec<Token>, Vec<ScientificError>>) -> bool {
    let (ts, es) = lex_from(s, 0);
    match r {
        Ok(tokens) => es.len() == 0 && tokens_view(tokens@) == ts,
        Err(errors) => {
            &&& es.len() > 0
            &&& errors_view(errors@) == es
            &&& forall|j: int| 0 <= j < errors@.len() ==> (#[trigger] errors@[j]) is Syntax
        },
    }
}

/// Split the text of a scientific module into tokens, ending with `Eof` at the end of the
/// text; every error of the text is reported, and the tokens are returned only when there is
/// none. Whitespace and comments (`#` or `//` to the end of the line) separate tokens; an
/// unterminated string stops lexing.
pub fn lex(input: &str) -> (r: Result<Vec<Token>, Vec<ScientificError>>)
    requires
        lex_safe(input@, 0),
    ensures
        lexed(input@, r),
{
    lex_run(input).0
}

/// Lex the text when every two-byte operator look of the lexer ends on a character boundary
/// (`lex_safe`), and give `None` otherwise.
pub fn lex_checked(input: &str) -> (r: Option<Result<Vec<Token>, Vec<ScientificError>>>)
    ensures
        r is Some <==> lex_safe(input@, 0),
        r matches Some(x) ==> lexed(input@, x),
{
    let (x, safe) = lex_run(input);
    if safe {
        Some(x)
    } else {
        None
    }
}

/// Lex the text, and tell whether it is `lex_safe`.
fn lex_run(input: &str) -> (r: (Result<Vec<Token>, Vec<ScientificError>>, bool))
    ensures
        lexed(input@, r.0),
        r.1 == lex_safe(input@, 0),
{
    let ghost s = input@;
    let chars = chars_of(input);
    let n = chars.len();
    let total = byte_len(input);
    let mut out: Vec<Token> = Vec::new();
    let mut errors: Vec<ScientificError> = Vec::new();
    let mut k: usize = 0;
    let mut i: usize = 0;
    let mut stopped = false;
    let mut safe = true;
    proof {
        assert(tokens_view(out@) =~= Seq::<(TokenView, SourceSpan)>::empty());
        assert(errors_view(errors@) =~= Seq::<(Seq<char>, SourceSpan)>::empty());
        assert(lex_from(s, 0).0 =~= tokens_view(out@) + lex_from(s, 0).0);
        assert(lex_from(s, 0).1 =~= errors_view(errors@) + lex_from(s, 0).1);
        assert(s.take(0) =~= Seq::<char>::empty());
        assert(s.take(s.len() as int) =~= s);
    }
    while k < n && !stopped
        invariant
            chars@ == s,
            s == input@,
            n == s.len(),
            total == offset(s, n as int),
            k <= n,
            i == offset(s, k as int),
            !stopped ==> (lex_safe(s, 0) == (safe && lex_safe(s, k as int))),
            stopped ==> (lex_safe(s, 0) == safe),
            !stopped ==> lex_progress(s, k as int, out@, errors@),
            stopped ==> lex_from(s, 0) == (
                tokens_view(out@) + seq![(TokenView::Eof, span_of(total as int, total as int))],
                errors_view(errors@),
            ),
            stopped ==> errors@.len() > 0,
            forall|j: int| 0 <= j < errors@.len() ==> (#[trigger] errors@[j]) is Syntax,
        decreases n - k, if stopped { 0int } else { 1int },
    {
        let c = chars[k];
        let w = char_utf8_width(c);
        let ghost k0 = k as int;
        let ghost safe0 = safe;
        let whole = w == 2 || (w == 1 && (k + 1 >= n || char_utf8_width(chars[k + 1]) == 1));
        proof {
            lemma_offset_step(s, k as int);
            lemma_offset_mono(s, k + 1, n as int);
            assert(whole == two_bytes_whole(s, k0));
        }
        if is_whitespace(c) {
            proof {
                lemma_skip(s, k as int, k + 1, out@, errors@);
            }
            k = k + 1;
            i = i + w;
        } else if c == '#' || (c == '/' && k + 1 < n && chars[k + 1] == '/') {
            let mut j = k;
            let mut bj = i;
            while j < n && chars[j] != '\n'
                invariant
                    chars@ == s,
                    n == s.len(),
                    total == offset(s, n as int),
                    k <= j <= n,
                    bj == offset(s, j as int),
                    forall|m: int| k <= m < j ==> s[m] != '\n',
                decreases n - j,
            {
                proof {
                    lemma_offset_step(s, j as int);
                    lemma_offset_mono(s, j + 1, n as int);
                }
                bj = bj + char_utf8_width(chars[j]);
                j = j + 1;
            }
            proof {
                lemma_find_from(s, k as int, '\n', j as int);
                assert(j > k);
                lemma_skip(s, k as int, j as int, out@, errors@);
            }
            k = j;
            i = bj;
        } else if ('a' <= c && c <= 'z') || ('A' <= c && c <= 'Z') || c == '_' || c == 'π' {
            let mut j = k + 1;
            let mut bj = i + w;
            while j < n && continues_identifier(chars[j], is_alphanumeric(chars[j]))
                invariant
                    chars@ == s,
                    n == s.len(),
                    total == offset(s, n as int),
                    k < j <= n,
                    bj == offset(s, j as int),
                    forall|m: int| k + 1 <= m < j ==> ident_continue(s[m]),
                decreases n - j,
            {
                proof {
                    lemma_offset_step(s, j as int);
                    lemma_offset_mono(s, j + 1, n as int);
                }
                bj = bj + char_utf8_width(chars[j]);
                j = j + 1;
            }
            proof {
                lemma_ident_end(s, k + 1, j as int);
            }
            let text = input.substring_char(k, j).to_owned();
            let token = Token { kind: TokenKind::Ident(text), span: SourceSpan::new(i, bj) };
            proof {
                lemma_emit(s, k as int, j as int, out@, errors@, token);
            }
            out.push(token);
            k = j;
            i = bj;
        } else if ('0' <= c && c <= '9') || (c == '.' && k + 1 < n && '0' <= chars[k + 1] && chars[k + 1] <= '9') {
            let mut j = k + 1;
            let mut bj = i + w;
            while j < n && (('0' <= chars[j] && chars[j] <= '9') || chars[j] == '.' || chars[j] == 'e' || chars[j]
                == 'E' || chars[j] == '+' || chars[j] == '-') && !((chars[j] == '+' || chars[j] == '-') && !(chars[j
                - 1] == 'e' || chars[j - 1] == 'E'))
                invariant
                    chars@ == s,
                    n == s.len(),
                    total == offset(s, n as int),
                    k < j <= n,
                    bj == offset(s, j as int),
                    forall|m: int| k + 1 <= m < j ==> number_continues(s, m),
                decreases n - j,
            {
                proof {
                    lemma_offset_step(s, j as int);
                    lemma_offset_mono(s, j + 1, n as int);
                }
                bj = bj + char_utf8_width(chars[j]);
                j = j + 1;
            }
            proof {
                lemma_number_end(s, k + 1, j as int);
            }
            let span = SourceSpan::new(i, bj);
            if is_float_text(&chars, k, j) {
                let text = input.substring_char(k, j).to_owned();
                let token = Token { kind: TokenKind::Number(text), span };
                proof {
                    lemma_emit(s, k as int, j as int, out@, errors@, token);
                }
                out.push(token);
            } else {
                let error = syntax_error("invalid number", span);
                proof {
                    lemma_fail(s, k as int, j as int, out@, errors@, error);
                }
                errors.push(error);
            }
            k = j;
            i = bj;
        } else if c == '"' {
            let mut j = k + 1;
            let mut bj = i + 1;
            while j < n && chars[j] != '"'
                invariant
                    chars@ == s,
                    n == s.len(),
                    total == offset(s, n as int),
                    k < j <= n,
                    bj == offset(s, j as int),
                    forall|m: int| k + 1 <= m < j ==> s[m] != '"',
                decreases n - j,
            {
                proof {
                    lemma_offset_step(s, j as int);
                    lemma_offset_mono(s, j + 1, n as int);
                }
                bj = bj + char_utf8_width(chars[j]);
                j = j + 1;
            }
            proof {
                lemma_find_from(s, k + 1, '"', j as int);
            }
            if j >= n {
                let error = syntax_error("unterminated string", SourceSpan::new(i, total));
                proof {
                    assert(lex_from(s, k as int) == (
                        seq![(TokenView::Eof, span_of(total as int, total as int))],
                        seq![error_view(error)],
                    ));
                    assert(errors_view(errors@.push(error)) =~= errors_view(errors@).push(error_view(error)));
                    assert(errors_view(errors@) + seq![error_view(error)] =~= errors_view(errors@.push(error)));
                }
                errors.push(error);
                stopped = true;
            } else {
                proof {
                    lemma_offset_step(s, j as int);
                    lemma_offset_mono(s, j + 1, n as int);
                }
                let text = input.substring_char(k + 1, j).to_owned();
                let token = Token { kind: TokenKind::String(text), span: SourceSpan::new(i, bj + 1) };
                proof {
                    lemma_emit(s, k as int, j + 1, out@, errors@, token);
                }
                out.push(token);
                k = j + 1;
                i = bj + 1;
            }
        } else if k + 1 < n && ((c == '=' && chars[k + 1] == '=') || (c == '<' && chars[k + 1] == '=') || (c == '>'
            && chars[k + 1] == '=') || (c == '-' && chars[k + 1] == '>')) {
            safe = safe && whole;
            proof {
                lemma_offset_step(s, k + 1);
                lemma_offset_mono(s, k + 2, n as int);
                assert(input@.subrange(k as int, k + 2) =~= seq![c, s[k + 1]]);
            }
            let text = input.substring_char(k, k + 2).to_owned();
            let token = Token { kind: TokenKind::Op(text), span: SourceSpan::new(i, i + 2) };
            proof {
                lemma_emit(s, k as int, k + 2, out@, errors@, token);
            }
            out.push(token);
            k = k + 2;
            i = i + 2;
        } else if c == '+' || c == '-' || c == '*' || c == '/' || c == '^' || c == '=' || c == '<' || c == '>' {
            safe = safe && whole;
            proof {
                assert(input@.subrange(k as int, k + 1) =~= seq![c]);
            }
            let text = input.substring_char(k, k + 1).to_owned();
            let token = Token { kind: TokenKind::Op(text), span: SourceSpan::new(i, i + w) };
            proof {
                lemma_emit(s, k as int, k + 1, out@, errors@, token);
            }
            out.push(token);
            k = k + 1;
            i = i + w;
        } else if c == '{' || c == '}' || c == '(' || c == ')' || c == ';' || c == ':' || c == ',' || c == '['
            || c == ']' || c == '@' {
            safe = safe && whole;
            let token = Token { kind: TokenKind::Punct(c), span: SourceSpan::new(i, i + w) };
            proof {
                lemma_emit(s, k as int, k + 1, out@, errors@, token);
            }
            out.push(token);
            k = k + 1;
            i = i + w;
        } else {
            safe = safe && whole;
            let mut message = "unexpected character `".to_owned();
            message.append(input.substring_char(k, k + 1));
            message.append("`");
            proof {
                reveal_strlit("`");
                assert(input@.subrange(k as int, k + 1) =~= seq![c]);
                assert(message@ =~= "unexpected character `"@ + seq![c] + seq!['`']);
                assert(!unicode_whitespace(c));
                assert(!comment_start(s, k as int));
                assert(!ident_start(c));
                assert(!number_start(s, k as int));
                assert(!(k + 1 < s.len() && double_op(c, s[k + 1])));
                assert(!single_op(c));
                assert(!punct(c));
            }
            let error = syntax_error(message.as_str(), SourceSpan::new(i, i + w));
            proof {
                lemma_fail(s, k as int, k + 1, out@, errors@, error);
            }
            errors.push(error);
            k = k + 1;
            i = i + w;
        }
        proof {
            let st = lex_step(s, k0);
            assert(lex_safe(s, k0) == ((reaches_operator_test(s, k0) ==> two_bytes_whole(s, k0)) && (k0 < step_next(st)
                <= s.len() ==> lex_safe(s, step_next(st)))));
        }
    }
    proof {
        if !stopped {
            assert(lex_safe(s, k as int));
        }
    }
    let eof = Token { kind: TokenKind::Eof, span: SourceSpan::new(total, total) };
    proof {
        if !stopped {
            assert(lex_from(s, k as int) == (seq![(TokenView::Eof, span_of(total as int, total as int))], Seq::<(Seq<char>, SourceSpan)>::empty()));
        }
        assert(tokens_view(out@.push(eof)) =~= tokens_view(out@).push(token_view(eof)));
        assert(tokens_view(out@) + seq![(TokenView::Eof, span_of(total as int, total as int))] =~= tokens_view(out@.push(eof)));
    }
    out.push(eof);
    if errors.len() == 0 {
        proof {
            assert(errors_view(errors@).len() == 0);
        }
        (Ok(out), safe)
    } else {
        (Err(errors), safe)
    }
}

} // verus!
