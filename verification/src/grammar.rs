//! The mathematical model of the lexical grammar.
//!
//! `scan_from` defines, by recursion over the remaining input, exactly which
//! tokens and which diagnostics one left-to-right maximal-munch pass over a
//! byte buffer produces. The executable scanner is proved equal to this
//! model, and the library's general laws are proved about it.

use vstd::prelude::*;

use crate::token::{TokenKind, TokenModel};

verus! {

/// ASCII decimal digit.
pub open spec fn is_digit_byte(b: u8) -> bool {
    ('0' as u8) <= b <= ('9' as u8)
}

/// ASCII letter or underscore: the bytes that may begin an identifier.
pub open spec fn is_ident_start_byte(b: u8) -> bool {
    b == ('_' as u8) || (('a' as u8) <= b <= ('z' as u8)) || (('A' as u8) <= b <= ('Z' as u8))
}

/// ASCII letter, digit or underscore: the bytes that may continue an
/// identifier.
pub open spec fn is_ident_byte(b: u8) -> bool {
    is_ident_start_byte(b) || is_digit_byte(b)
}

/// Space, tab or carriage return: skipped without producing a token and
/// without advancing the line counter.
pub open spec fn is_blank_byte(b: u8) -> bool {
    b == (' ' as u8) || b == ('\t' as u8) || b == ('\r' as u8)
}

/// The single-character punctuation tokens, `/` included (a `/` only begins
/// a comment when a second `/` follows it).
pub open spec fn single_kind(b: u8) -> Option<TokenKind> {
    if b == ('(' as u8) {
        Some(TokenKind::LeftParen)
    } else if b == (')' as u8) {
        Some(TokenKind::RightParen)
    } else if b == ('{' as u8) {
        Some(TokenKind::LeftBrace)
    } else if b == ('}' as u8) {
        Some(TokenKind::RightBrace)
    } else if b == (',' as u8) {
        Some(TokenKind::Comma)
    } else if b == ('.' as u8) {
        Some(TokenKind::Dot)
    } else if b == ('-' as u8) {
        Some(TokenKind::Minus)
    } else if b == ('+' as u8) {
        Some(TokenKind::Plus)
    } else if b == (';' as u8) {
        Some(TokenKind::Semicolon)
    } else if b == ('*' as u8) {
        Some(TokenKind::Star)
    } else if b == ('/' as u8) {
        Some(TokenKind::Slash)
    } else {
        None
    }
}

/// The bytes that begin a one- or two-character operator: the pair gives the
/// lone kind and the kind chosen when a `=` follows (the longer match always
/// wins).
pub open spec fn pair_kinds(b: u8) -> Option<(TokenKind, TokenKind)> {
    if b == ('!' as u8) {
        Some((TokenKind::Bang, TokenKind::BangEqual))
    } else if b == ('=' as u8) {
        Some((TokenKind::Equal, TokenKind::EqualEqual))
    } else if b == ('>' as u8) {
        Some((TokenKind::Greater, TokenKind::GreaterEqual))
    } else if b == ('<' as u8) {
        Some((TokenKind::Less, TokenKind::LessEqual))
    } else {
        None
    }
}

/// The reserved-word table: the kind of an identifier-shaped lexeme.
/// Exact, case-sensitive spellings; everything else is an `Identifier`.
pub open spec fn keyword_kind_of(lex: Seq<u8>) -> TokenKind {
    if lex == seq![('a' as u8), ('n' as u8), ('d' as u8)] {
        TokenKind::And
    } else if lex == seq![('c' as u8), ('l' as u8), ('a' as u8), ('s' as u8), ('s' as u8)] {
        TokenKind::Class
    } else if lex == seq![('e' as u8), ('l' as u8), ('s' as u8), ('e' as u8)] {
        TokenKind::Else
    } else if lex == seq![('f' as u8), ('a' as u8), ('l' as u8), ('s' as u8), ('e' as u8)] {
        TokenKind::False
    } else if lex == seq![('f' as u8), ('u' as u8), ('n' as u8)] {
        TokenKind::Fun
    } else if lex == seq![('f' as u8), ('o' as u8), ('r' as u8)] {
        TokenKind::For
    } else if lex == seq![('i' as u8), ('f' as u8)] {
        TokenKind::If
    } else if lex == seq![('n' as u8), ('i' as u8), ('l' as u8)] {
        TokenKind::Nil
    } else if lex == seq![('o' as u8), ('r' as u8)] {
        TokenKind::Or
    } else if lex == seq![('p' as u8), ('r' as u8), ('i' as u8), ('n' as u8), ('t' as u8)] {
        TokenKind::Print
    } else if lex == seq![('r' as u8), ('e' as u8), ('t' as u8), ('u' as u8), ('r' as u8), ('n' as u8)] {
        TokenKind::Return
    } else if lex == seq![('s' as u8), ('u' as u8), ('p' as u8), ('e' as u8), ('r' as u8)] {
        TokenKind::Super
    } else if lex == seq![('t' as u8), ('h' as u8), ('i' as u8), ('s' as u8)] {
        TokenKind::This
    } else if lex == seq![('t' as u8), ('r' as u8), ('u' as u8), ('e' as u8)] {
        TokenKind::True
    } else if lex == seq![('v' as u8), ('a' as u8), ('r' as u8)] {
        TokenKind::Var
    } else if lex == seq![('w' as u8), ('h' as u8), ('i' as u8), ('l' as u8), ('e' as u8)] {
        TokenKind::While
    } else {
        TokenKind::Identifier
    }
}

/// End of the maximal run of decimal digits beginning at `i`.
pub open spec fn digit_run_end(src: Seq<u8>, i: int) -> int
    recommends
        0 <= i <= src.len(),
    decreases src.len() - i,
{
    if 0 <= i < src.len() && is_digit_byte(src[i]) {
        digit_run_end(src, i + 1)
    } else {
        i
    }
}

/// End of the maximal run of identifier bytes beginning at `i`.
pub open spec fn ident_run_end(src: Seq<u8>, i: int) -> int
    recommends
        0 <= i <= src.len(),
    decreases src.len() - i,
{
    if 0 <= i < src.len() && is_ident_byte(src[i]) {
        ident_run_end(src, i + 1)
    } else {
        i
    }
}

/// First position at or after `i` holding a newline, or the end of input:
/// where a line comment stops (the newline itself is not part of the
/// comment).
pub open spec fn comment_end(src: Seq<u8>, i: int) -> int
    recommends
        0 <= i <= src.len(),
    decreases src.len() - i,
{
    if 0 <= i < src.len() && src[i] != ('\n' as u8) {
        comment_end(src, i + 1)
    } else {
        i
    }
}

/// Position of the first `"` at or after `i`, or `src.len()` when the rest
/// of the input holds none (an unterminated string literal).
pub open spec fn string_close(src: Seq<u8>, i: int) -> int
    recommends
        0 <= i <= src.len(),
    decreases src.len() - i,
{
    if 0 <= i < src.len() {
        if src[i] == ('"' as u8) {
            i
        } else {
            string_close(src, i + 1)
        }
    } else {
        src.len() as int
    }
}

/// End of a number literal beginning at the digit at `i`: a maximal digit
/// run, then a fractional part only when a `.` is followed by a further
/// digit. A trailing `.` with no digit after it is left unconsumed.
pub open spec fn number_end(src: Seq<u8>, i: int) -> int
    recommends
        0 <= i <= src.len(),
{
    let ie = digit_run_end(src, i);
    if ie < src.len() && src[ie] == ('.' as u8) && ie + 1 < src.len() && is_digit_byte(src[ie + 1]) {
        digit_run_end(src, ie + 2)
    } else {
        ie
    }
}

/// Number of `\n` bytes in `src[a..b]`.
pub open spec fn nl_between(src: Seq<u8>, a: int, b: int) -> int
    recommends
        0 <= a <= b <= src.len(),
    decreases b - a,
{
    if a < b {
        nl_between(src, a, b - 1) + if src[b - 1] == ('\n' as u8) {
            1int
        } else {
            0int
        }
    } else {
        0
    }
}

/// A token of the model: its classification, the half-open byte span
/// `[start, end)` of its lexeme, and the line where its first byte appears.
pub struct SpecToken {
    pub kind: TokenKind,
    pub start: int,
    pub end: int,
    pub line: int,
}

impl SpecToken {
    /// The token value this model entry stands for: its lexeme is the bytes
    /// of its span.
    pub open spec fn token(self, src: Seq<u8>) -> TokenModel {
        TokenModel { kind: self.kind, lexeme: src.subrange(self.start, self.end), line: self.line }
    }
}

/// The token values of a sequence of model entries over `src`.
pub open spec fn rendered(ms: Seq<SpecToken>, src: Seq<u8>) -> Seq<TokenModel> {
    ms.map_values(|m: SpecToken| m.token(src))
}

/// Rendering distributes over putting one token in front.
pub proof fn lemma_rendered_prepend(t: SpecToken, ms: Seq<SpecToken>, src: Seq<u8>)
    ensures
        rendered(seq![t] + ms, src) == seq![t.token(src)] + rendered(ms, src),
{
    assert(rendered(seq![t] + ms, src) =~= seq![t.token(src)] + rendered(ms, src));
}

/// The two scanning diagnostics. Neither aborts the pass.
pub enum SpecError {
    /// A byte that matches no token-start rule; the byte is consumed and
    /// skipped.
    UnexpectedCharacter { line: int, byte: u8 },
    /// An opening `"` with no matching close before end of input; the error
    /// carries the line where scanning stopped.
    UnterminatedString { line: int },
}

/// Everything one pass produces: the token sequence and the diagnostics, in
/// order of occurrence.
pub struct ScanModel {
    pub tokens: Seq<SpecToken>,
    pub errors: Seq<SpecError>,
}

/// What one dispatch step does. A step consumes at least one byte and
/// produces at most one token or one diagnostic, never both.
pub struct ScanStep {
    /// The cursor position after the step.
    pub end: int,
    /// The line counter after the step.
    pub line: int,
    /// The token the step emits, if any.
    pub token: Option<SpecToken>,
    /// The diagnostic the step records, if any.
    pub error: Option<SpecError>,
}

/// The one dispatch step at position `i` (within the input) on line `line`:
/// classify the byte at `i` and give the step's end position, the line
/// counter afterwards, and its emitted token or recorded diagnostic.
/// Neither the end position nor whether a token is emitted depends on
/// `line`.
pub open spec fn scan_step(src: Seq<u8>, i: int, line: int) -> ScanStep
    recommends
        0 <= i < src.len(),
{
    let b = src[i];
    if is_blank_byte(b) {
        ScanStep { end: i + 1, line, token: None, error: None }
    } else if b == ('\n' as u8) {
        ScanStep { end: i + 1, line: line + 1, token: None, error: None }
    } else if b == ('/' as u8) && i + 1 < src.len() && src[i + 1] == ('/' as u8) {
        ScanStep { end: comment_end(src, i + 2), line, token: None, error: None }
    } else if single_kind(b) is Some {
        ScanStep {
            end: i + 1,
            line,
            token: Some(SpecToken { kind: single_kind(b)->0, start: i, end: i + 1, line }),
            error: None,
        }
    } else if pair_kinds(b) is Some {
        let pk = pair_kinds(b)->0;
        if i + 1 < src.len() && src[i + 1] == ('=' as u8) {
            ScanStep {
                end: i + 2,
                line,
                token: Some(SpecToken { kind: pk.1, start: i, end: i + 2, line }),
                error: None,
            }
        } else {
            ScanStep {
                end: i + 1,
                line,
                token: Some(SpecToken { kind: pk.0, start: i, end: i + 1, line }),
                error: None,
            }
        }
    } else if b == ('"' as u8) {
        let c = string_close(src, i + 1);
        if c < src.len() {
            ScanStep {
                end: c + 1,
                line: line + nl_between(src, i + 1, c),
                token: Some(SpecToken { kind: TokenKind::String, start: i, end: c + 1, line }),
                error: None,
            }
        } else {
            ScanStep {
                end: src.len() as int,
                line: line + nl_between(src, i + 1, src.len() as int),
                token: None,
                error: Some(
                    SpecError::UnterminatedString {
                        line: line + nl_between(src, i + 1, src.len() as int),
                    },
                ),
            }
        }
    } else if is_digit_byte(b) {
        let e = number_end(src, i);
        ScanStep {
            end: e,
            line,
            token: Some(SpecToken { kind: TokenKind::Number, start: i, end: e, line }),
            error: None,
        }
    } else if is_ident_start_byte(b) {
        let e = ident_run_end(src, i);
        ScanStep {
            end: e,
            line,
            token: Some(
                SpecToken { kind: keyword_kind_of(src.subrange(i, e)), start: i, end: e, line },
            ),
            error: None,
        }
    } else {
        ScanStep {
            end: i + 1,
            line,
            token: None,
            error: Some(SpecError::UnexpectedCharacter { line, byte: b }),
        }
    }
}

/// A step consumes at least one byte and stays within the input.
pub proof fn lemma_scan_step_bounds(src: Seq<u8>, i: int, line: int)
    requires
        0 <= i < src.len(),
    ensures
        i < scan_step(src, i, line).end <= src.len(),
{
    if i + 2 <= src.len() {
        lemma_comment_end(src, i + 2);
    }
    lemma_string_close(src, i + 1);
    lemma_number_end(src, i);
    lemma_ident_run_end(src, i);
    lemma_ident_run_end(src, i + 1);
}

/// `m` with one further step's products in front.
pub open spec fn with_step(st: ScanStep, m: ScanModel) -> ScanModel {
    ScanModel {
        tokens: match st.token {
            Some(t) => seq![t] + m.tokens,
            None => m.tokens,
        },
        errors: match st.error {
            Some(e) => seq![e] + m.errors,
            None => m.errors,
        },
    }
}

/// One maximal-munch pass over `src[i..]`, entered on line `line`: one
/// dispatch step after another until the input is exhausted, then the `EOF`
/// sentinel at the end of input.
pub open spec fn scan_from(src: Seq<u8>, i: int, line: int) -> ScanModel
    recommends
        0 <= i <= src.len(),
    decreases src.len() - i,
        when 0 <= i <= src.len()
        via scan_from_decreases
{
    if i >= src.len() {
        ScanModel {
            tokens: seq![SpecToken { kind: TokenKind::EOF, start: i, end: i, line }],
            errors: seq![],
        }
    } else {
        let st = scan_step(src, i, line);
        with_step(st, scan_from(src, st.end, st.line))
    }
}

#[via_fn]
proof fn scan_from_decreases(src: Seq<u8>, i: int, line: int) {
    if 0 <= i < src.len() {
        lemma_scan_step_bounds(src, i, line);
    }
}

/// Whether the bytes of `src[i..j]` are skipped material only: a whole
/// number of dispatch steps that emit no token (blanks, newlines, line
/// comments, bytes reported as unexpected, and the tail of an unterminated
/// string literal), landing exactly on `j`. The step at line 0 stands for
/// the step at any line: neither a step's end nor whether it emits a token
/// depends on the line counter.
pub open spec fn skipped_between(src: Seq<u8>, i: int, j: int) -> bool
    recommends
        0 <= i <= j <= src.len(),
    decreases j - i,
        when 0 <= i <= j <= src.len()
        via skipped_between_decreases
{
    if i >= j {
        i == j
    } else {
        let st = scan_step(src, i, 0);
        if st.token is None && st.end <= j {
            skipped_between(src, st.end, j)
        } else {
            false
        }
    }
}

#[via_fn]
proof fn skipped_between_decreases(src: Seq<u8>, i: int, j: int) {
    if 0 <= i < j <= src.len() {
        lemma_scan_step_bounds(src, i, 0);
    }
}

/// The full scan of `src`: every token and every diagnostic, starting at
/// offset 0 on line 0.
pub open spec fn scan_model(src: Seq<u8>) -> ScanModel {
    scan_from(src, 0, 0)
}

/// `digit_run_end` stays within bounds, covers only digits, and is maximal.
pub proof fn lemma_digit_run_end(src: Seq<u8>, i: int)
    requires
        0 <= i <= src.len(),
    ensures
        i <= digit_run_end(src, i) <= src.len(),
        forall|j: int| i <= j < digit_run_end(src, i) ==> is_digit_byte(src[j]),
        digit_run_end(src, i) < src.len() ==> !is_digit_byte(src[digit_run_end(src, i)]),
    decreases src.len() - i,
{
    if i < src.len() && is_digit_byte(src[i]) {
        lemma_digit_run_end(src, i + 1);
    }
}

/// `ident_run_end` stays within bounds, covers only identifier bytes, and is
/// maximal.
pub proof fn lemma_ident_run_end(src: Seq<u8>, i: int)
    requires
        0 <= i <= src.len(),
    ensures
        i <= ident_run_end(src, i) <= src.len(),
        forall|j: int| i <= j < ident_run_end(src, i) ==> is_ident_byte(src[j]),
        ident_run_end(src, i) < src.len() ==> !is_ident_byte(src[ident_run_end(src, i)]),
    decreases src.len() - i,
{
    if i < src.len() && is_ident_byte(src[i]) {
        lemma_ident_run_end(src, i + 1);
    }
}

/// `comment_end` stays within bounds, passes no newline, and stops at a
/// newline or the end of input.
pub proof fn lemma_comment_end(src: Seq<u8>, i: int)
    requires
        0 <= i <= src.len(),
    ensures
        i <= comment_end(src, i) <= src.len(),
        forall|j: int| i <= j < comment_end(src, i) ==> src[j] != ('\n' as u8),
        comment_end(src, i) < src.len() ==> src[comment_end(src, i)] == ('\n' as u8),
    decreases src.len() - i,
{
    if i < src.len() && src[i] != ('\n' as u8) {
        lemma_comment_end(src, i + 1);
    }
}

/// `string_close` stays within bounds, passes no quote, and lands on a quote
/// exactly when one exists.
pub proof fn lemma_string_close(src: Seq<u8>, i: int)
    requires
        0 <= i <= src.len(),
    ensures
        i <= string_close(src, i) <= src.len(),
        forall|j: int| i <= j < string_close(src, i) ==> src[j] != ('"' as u8),
        string_close(src, i) < src.len() ==> src[string_close(src, i)] == ('"' as u8),
    decreases src.len() - i,
{
    if i < src.len() && src[i] != ('"' as u8) {
        lemma_string_close(src, i + 1);
    }
}

/// `number_end` consumes at least the leading digit and stays within bounds.
pub proof fn lemma_number_end(src: Seq<u8>, i: int)
    requires
        0 <= i <= src.len(),
    ensures
        i <= number_end(src, i) <= src.len(),
        i < src.len() && is_digit_byte(src[i]) ==> i < number_end(src, i),
        forall|j: int| i <= j < number_end(src, i) ==> src[j] != ('\n' as u8),
{
    lemma_digit_run_end(src, i);
    let ie = digit_run_end(src, i);
    if ie < src.len() && src[ie] == ('.' as u8) && ie + 1 < src.len() && is_digit_byte(src[ie + 1]) {
        lemma_digit_run_end(src, ie + 2);
        assert forall|j: int| i <= j < number_end(src, i) implies src[j] != ('\n' as u8) by {
            if j < ie {
                assert(is_digit_byte(src[j]));
            } else if j == ie {
            } else if j >= ie + 2 {
                assert(is_digit_byte(src[j]));
            }
        }
    } else {
        assert forall|j: int| i <= j < number_end(src, i) implies src[j] != ('\n' as u8) by {
            assert(is_digit_byte(src[j]));
        }
    }
}

/// A newline count is non-negative and no larger than the width of its
/// range.
pub proof fn lemma_nl_between_bounds(src: Seq<u8>, a: int, b: int)
    requires
        a <= b,
    ensures
        0 <= nl_between(src, a, b) <= b - a,
    decreases b - a,
{
    if a < b {
        lemma_nl_between_bounds(src, a, b - 1);
    }
}

/// Newline counts add over adjacent ranges.
pub proof fn lemma_nl_between_add(src: Seq<u8>, a: int, m: int, b: int)
    requires
        a <= m <= b,
    ensures
        nl_between(src, a, b) == nl_between(src, a, m) + nl_between(src, m, b),
    decreases b - m,
{
    if m < b {
        lemma_nl_between_add(src, a, m, b - 1);
    }
}

/// A range holding no newline byte counts zero newlines.
pub proof fn lemma_nl_between_zero(src: Seq<u8>, a: int, b: int)
    requires
        a <= b,
        forall|j: int| a <= j < b ==> src[j] != ('\n' as u8),
    ensures
        nl_between(src, a, b) == 0,
    decreases b - a,
{
    if a < b {
        lemma_nl_between_zero(src, a, b - 1);
    }
}

} // verus!
