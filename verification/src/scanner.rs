//! The scanner: one verified left-to-right pass from source bytes to tokens.

use vstd::prelude::*;
use vstd::slice::{slice_subrange, slice_to_vec};
use vstd::string::StringSliceAdditionalSpecFns;

use crate::grammar::{
    comment_end, digit_run_end, ident_run_end, is_digit_byte, is_ident_byte,
    keyword_kind_of, lemma_comment_end, lemma_digit_run_end,
    lemma_ident_run_end, lemma_nl_between_add, lemma_nl_between_bounds, lemma_nl_between_zero,
    lemma_number_end, lemma_rendered_prepend, lemma_string_close, nl_between, number_end,
    pair_kinds, rendered, scan_from, scan_model, scan_step, single_kind, string_close, with_step,
    ScanModel, ScanStep, SpecError, SpecToken,
};
use crate::token::{lemma_token_views_push, token_views, Token, TokenKind, TokenModel};

verus! {

broadcast use vstd::slice::group_slice_axioms;

/// One scanning diagnostic. Scanning reports these and continues; it never
/// aborts.
#[derive(Clone, Copy, Debug, PartialEq, Eq, Structural)]
pub enum ScanError {
    /// A byte that matches no token-start rule. The byte is consumed and
    /// skipped; no token is produced for it.
    UnexpectedCharacter { line: usize, byte: u8 },
    /// A string literal whose opening quote has no matching close before the
    /// end of input; `line` is the line where scanning stopped.
    UnterminatedString { line: usize },
}

impl View for ScanError {
    type V = SpecError;

    open spec fn view(&self) -> SpecError {
        match *self {
            ScanError::UnexpectedCharacter { line, byte } => SpecError::UnexpectedCharacter {
                line: line as int,
                byte,
            },
            ScanError::UnterminatedString { line } => SpecError::UnterminatedString {
                line: line as int,
            },
        }
    }
}

/// The mathematical values of a sequence of diagnostics.
pub open spec fn error_views(es: Seq<ScanError>) -> Seq<SpecError> {
    es.map_values(|e: ScanError| e@)
}

/// Taking views commutes with appending one diagnostic.
pub proof fn lemma_error_views_push(es: Seq<ScanError>, e: ScanError)
    ensures
        error_views(es.push(e)) == error_views(es).push(e@),
{
    assert(error_views(es.push(e)) =~= error_views(es).push(e@));
}

/// The error-reporting collaborator: the scanner surfaces each diagnostic
/// through it without halting, and the caller keeps ownership of error
/// policy (exit codes, display).
pub trait Reporter {
    /// Whether an error has been reported to this reporter: a sticky signal
    /// the surrounding layer inspects after a run.
    spec fn error_seen(&self) -> bool;

    /// Surface one scanning error. Afterwards the sticky signal is set.
    fn report(&mut self, error: ScanError)
        ensures
            final(self).error_seen(),
    ;
}

/// ASCII decimal digit test.
pub fn is_digit(b: u8) -> (r: bool)
    ensures
        r == is_digit_byte(b),
{
    ('0' as u8) <= b && b <= ('9' as u8)
}

/// ASCII letter, digit or underscore test: the bytes identifiers are made
/// of.
pub fn is_alphanumeric(b: u8) -> (r: bool)
    ensures
        r == is_ident_byte(b),
{
    b == ('_' as u8) || (('0' as u8) <= b && b <= ('9' as u8)) || (('a' as u8) <= b && b <= (
    'z' as u8)) || (('A' as u8) <= b && b <= ('Z' as u8))
}

/// One emitted token moves from the head of the remaining model to the end
/// of the emitted list without changing the combined sequence.
proof fn lemma_step_token(
    ts0: Seq<Token>,
    ts1: Seq<Token>,
    t: SpecToken,
    rest: Seq<SpecToken>,
    src: Seq<u8>,
)
    requires
        token_views(ts1) == token_views(ts0).push(t.token(src)),
    ensures
        token_views(ts0) + rendered(seq![t] + rest, src) == token_views(ts1) + rendered(rest, src),
{
    lemma_rendered_prepend(t, rest, src);
    assert(token_views(ts0) + (seq![t.token(src)] + rendered(rest, src)) =~= token_views(
        ts0,
    ).push(t.token(src)) + rendered(rest, src));
}

/// One recorded diagnostic moves from the head of the remaining model to
/// the end of the emitted list without changing the combined sequence.
proof fn lemma_step_error(es0: Seq<ScanError>, es1: Seq<ScanError>, e: SpecError, rest: Seq<SpecError>)
    requires
        error_views(es1) == error_views(es0).push(e),
    ensures
        error_views(es0) + (seq![e] + rest) == error_views(es1) + rest,
{
    assert(error_views(es0) + (seq![e] + rest) =~= error_views(es0).push(e) + rest);
}

/// The single-character token, `Slash` included, that `b` begins.
fn single_token_kind(b: u8) -> (r: Option<TokenKind>)
    ensures
        r == single_kind(b),
{
    if b == ('(' as u8) {
        Some(TokenKind::LeftParen)
    } else if b == (')' as u8) {
        Some(TokenKind::RightParen)
    } else if b == ('{' as u8) {
        Some(TokenKind::LeftBrace)
    } else if b == ('}' as u8) {
        Some(TokenKind::RightBrace)
    } else if b == (',' as u8) {
        Some(TokenKind::Comma)
    } else if b == ('.' as u8) {
        Some(TokenKind::Dot)
    } else if b == ('-' as u8) {
        Some(TokenKind::Minus)
    } else if b == ('+' as u8) {
        Some(TokenKind::Plus)
    } else if b == (';' as u8) {
        Some(TokenKind::Semicolon)
    } else if b == ('*' as u8) {
        Some(TokenKind::Star)
    } else if b == ('/' as u8) {
        Some(TokenKind::Slash)
    } else {
        None
    }
}

/// The lone and `=`-extended operator kinds that `b` begins.
fn pair_token_kinds(b: u8) -> (r: Option<(TokenKind, TokenKind)>)
    ensures
        r == pair_kinds(b),
{
    if b == ('!' as u8) {
        Some((TokenKind::Bang, TokenKind::BangEqual))
    } else if b == ('=' as u8) {
        Some((TokenKind::Equal, TokenKind::EqualEqual))
    } else if b == ('>' as u8) {
        Some((TokenKind::Greater, TokenKind::GreaterEqual))
    } else if b == ('<' as u8) {
        Some((TokenKind::Less, TokenKind::LessEqual))
    } else {
        None
    }
}

/// Whether `s` is exactly the two given bytes.
fn eq2(s: &[u8], a0: u8, a1: u8) -> (r: bool)
    ensures
        r <==> s@ == seq![a0, a1],
{
    let r = s.len() == 2 && s[0] == a0 && s[1] == a1;
    proof {
        if r {
            assert(s@ =~= seq![a0, a1]);
        }
    }
    r
}

/// Whether `s` is exactly the three given bytes.
fn eq3(s: &[u8], a0: u8, a1: u8, a2: u8) -> (r: bool)
    ensures
        r <==> s@ == seq![a0, a1, a2],
{
    let r = s.len() == 3 && s[0] == a0 && s[1] == a1 && s[2] == a2;
    proof {
        if r {
            assert(s@ =~= seq![a0, a1, a2]);
        }
    }
    r
}

/// Whether `s` is exactly the four given bytes.
fn eq4(s: &[u8], a0: u8, a1: u8, a2: u8, a3: u8) -> (r: bool)
    ensures
        r <==> s@ == seq![a0, a1, a2, a3],
{
    let r = s.len() == 4 && s[0] == a0 && s[1] == a1 && s[2] == a2 && s[3] == a3;
    proof {
        if r {
            assert(s@ =~= seq![a0, a1, a2, a3]);
        }
    }
    r
}

/// Whether `s` is exactly the five given bytes.
fn eq5(s: &[u8], a0: u8, a1: u8, a2: u8, a3: u8, a4: u8) -> (r: bool)
    ensures
        r <==> s@ == seq![a0, a1, a2, a3, a4],
{
    let r = s.len() == 5 && s[0] == a0 && s[1] == a1 && s[2] == a2 && s[3] == a3 && s[4] == a4;
    proof {
        if r {
            assert(s@ =~= seq![a0, a1, a2, a3, a4]);
        }
    }
    r
}

/// Whether `s` is exactly the six given bytes.
fn eq6(s: &[u8], a0: u8, a1: u8, a2: u8, a3: u8, a4: u8, a5: u8) -> (r: bool)
    ensures
        r <==> s@ == seq![a0, a1, a2, a3, a4, a5],
{
    let r = s.len() == 6 && s[0] == a0 && s[1] == a1 && s[2] == a2 && s[3] == a3 && s[4] == a4
        && s[5] == a5;
    proof {
        if r {
            assert(s@ =~= seq![a0, a1, a2, a3, a4, a5]);
        }
    }
    r
}

/// The reserved-word table: classify an identifier-shaped lexeme, falling
/// back to `Identifier` when it spells no keyword.
fn keyword_kind(lex: &[u8]) -> (k: TokenKind)
    ensures
        k == keyword_kind_of(lex@),
{
    if eq3(lex, 'a' as u8, 'n' as u8, 'd' as u8) {
        TokenKind::And
    } else if eq5(lex, 'c' as u8, 'l' as u8, 'a' as u8, 's' as u8, 's' as u8) {
        TokenKind::Class
    } else if eq4(lex, 'e' as u8, 'l' as u8, 's' as u8, 'e' as u8) {
        TokenKind::Else
    } else if eq5(lex, 'f' as u8, 'a' as u8, 'l' as u8, 's' as u8, 'e' as u8) {
        TokenKind::False
    } else if eq3(lex, 'f' as u8, 'u' as u8, 'n' as u8) {
        TokenKind::Fun
    } else if eq3(lex, 'f' as u8, 'o' as u8, 'r' as u8) {
        TokenKind::For
    } else if eq2(lex, 'i' as u8, 'f' as u8) {
        TokenKind::If
    } else if eq3(lex, 'n' as u8, 'i' as u8, 'l' as u8) {
        TokenKind::Nil
    } else if eq2(lex, 'o' as u8, 'r' as u8) {
        TokenKind::Or
    } else if eq5(lex, 'p' as u8, 'r' as u8, 'i' as u8, 'n' as u8, 't' as u8) {
        TokenKind::Print
    } else if eq6(lex, 'r' as u8, 'e' as u8, 't' as u8, 'u' as u8, 'r' as u8, 'n' as u8) {
        TokenKind::Return
    } else if eq5(lex, 's' as u8, 'u' as u8, 'p' as u8, 'e' as u8, 'r' as u8) {
        TokenKind::Super
    } else if eq4(lex, 't' as u8, 'h' as u8, 'i' as u8, 's' as u8) {
        TokenKind::This
    } else if eq4(lex, 't' as u8, 'r' as u8, 'u' as u8, 'e' as u8) {
        TokenKind::True
    } else if eq3(lex, 'v' as u8, 'a' as u8, 'r' as u8) {
        TokenKind::Var
    } else if eq5(lex, 'w' as u8, 'h' as u8, 'i' as u8, 'l' as u8, 'e' as u8) {
        TokenKind::While
    } else {
        TokenKind::Identifier
    }
}

/// Cursor state for one scan: the borrowed source, the span of the token
/// being recognized, the current line, and everything produced so far.
pub struct Scanner<'a> {
    source_bytes: &'a [u8],
    start: usize,
    pointer: usize,
    line: usize,
    tokens: Vec<Token>,
    errors: Vec<ScanError>,
}

impl<'a> Scanner<'a> {
    /// The source being scanned, as a byte sequence.
    pub closed spec fn src(self) -> Seq<u8> {
        self.source_bytes@
    }

    /// The cursor is in bounds and the line counter equals the number of
    /// newline bytes consumed so far.
    pub closed spec fn wf(self) -> bool {
        &&& self.pointer <= self.src().len()
        &&& self.line == nl_between(self.src(), 0, self.pointer as int)
    }

    /// Whether the cursor has consumed the whole input.
    fn done(&self) -> (r: bool)
        ensures
            r == (self.pointer >= self.src().len()),
    {
        self.pointer >= self.source_bytes.len()
    }

    /// The next unconsumed byte, if any.
    fn peek(&self) -> (r: Option<u8>)
        ensures
            r == if self.pointer < self.src().len() {
                Some(self.src()[self.pointer as int])
            } else {
                None::<u8>
            },
    {
        if self.pointer < self.source_bytes.len() {
            Some(self.source_bytes[self.pointer])
        } else {
            None
        }
    }

    /// The byte one past the next unconsumed byte, if any.
    fn peek_next(&self) -> (r: Option<u8>)
        requires
            self.pointer < self.src().len(),
        ensures
            r == if self.pointer + 1 < self.src().len() {
                Some(self.src()[self.pointer + 1])
            } else {
                None::<u8>
            },
    {
        let n = self.source_bytes.len();
        if self.pointer < n - 1 {
            Some(self.source_bytes[self.pointer + 1])
        } else {
            None
        }
    }

    /// Advance the cursor one byte.
    fn step(&mut self)
        requires
            old(self).pointer < old(self).src().len(),
        ensures
            final(self).pointer == old(self).pointer + 1,
            final(self).source_bytes == old(self).source_bytes,
            final(self).start == old(self).start,
            final(self).line == old(self).line,
            final(self).tokens == old(self).tokens,
            final(self).errors == old(self).errors,
    {
        proof {
            vstd::slice::axiom_spec_len::<u8>(self.source_bytes);
        }
        self.pointer = self.pointer + 1;
    }

    /// Consume and return the next byte.
    fn consume(&mut self) -> (b: u8)
        requires
            old(self).pointer < old(self).src().len(),
        ensures
            final(self).pointer == old(self).pointer + 1,
            final(self).source_bytes == old(self).source_bytes,
            final(self).start == old(self).start,
            final(self).line == old(self).line,
            final(self).tokens == old(self).tokens,
            final(self).errors == old(self).errors,
            b == old(self).src()[old(self).pointer as int],
    {
        let b = self.source_bytes[self.pointer];
        self.step();
        b
    }

    /// Whether the next unconsumed byte exists and equals `b`.
    fn char_eq(&self, b: u8) -> (r: bool)
        ensures
            r == (self.pointer < self.src().len() && self.src()[self.pointer as int] == b),
    {
        match self.peek() {
            Some(c) => c == b,
            None => false,
        }
    }

    /// Consume the next byte only when it equals `b`.
    fn consume_eq(&mut self, b: u8) -> (r: bool)
        ensures
            r == (old(self).pointer < old(self).src().len() && old(self).src()[old(
                self,
            ).pointer as int] == b),
            r ==> final(self).pointer == old(self).pointer + 1,
            !r ==> final(self).pointer == old(self).pointer,
            final(self).source_bytes == old(self).source_bytes,
            final(self).start == old(self).start,
            final(self).line == old(self).line,
            final(self).tokens == old(self).tokens,
            final(self).errors == old(self).errors,
    {
        if self.char_eq(b) {
            self.step();
            true
        } else {
            false
        }
    }

    /// Whether the next unconsumed byte is a digit.
    fn is_digit(&self) -> (r: bool)
        ensures
            r == (self.pointer < self.src().len() && is_digit_byte(
                self.src()[self.pointer as int],
            )),
    {
        match self.peek() {
            Some(c) => is_digit(c),
            None => false,
        }
    }

    /// Whether the byte after the next one is a digit.
    fn next_is_digit(&self) -> (r: bool)
        requires
            self.pointer < self.src().len(),
        ensures
            r == (self.pointer + 1 < self.src().len() && is_digit_byte(
                self.src()[self.pointer + 1],
            )),
    {
        match self.peek_next() {
            Some(c) => is_digit(c),
            None => false,
        }
    }

    /// Whether the next unconsumed byte is an identifier byte.
    fn is_alphanumeric(&self) -> (r: bool)
        ensures
            r == (self.pointer < self.src().len() && is_ident_byte(
                self.src()[self.pointer as int],
            )),
    {
        match self.peek() {
            Some(c) => is_alphanumeric(c),
            None => false,
        }
    }

    /// Scan `source` to completion and hand back both products of the pass:
    /// the token sequence, always ending in the `EOF` sentinel, and every
    /// diagnostic in order of occurrence. The result is exactly what the
    /// grammar model prescribes for these bytes.
    pub fn scan_with_errors(source: &str) -> (r: (Vec<Token>, Vec<ScanError>))
        ensures
            token_views(r.0@) == rendered(
                scan_model(source.spec_bytes()).tokens,
                source.spec_bytes(),
            ),
            error_views(r.1@) == scan_model(source.spec_bytes()).errors,
    {
        let bytes = source.as_bytes();
        let mut scanner = Scanner {
            source_bytes: bytes,
            start: 0,
            pointer: 0,
            line: 0,
            tokens: Vec::new(),
            errors: Vec::new(),
        };
        let ghost src = source.spec_bytes();
        proof {
            assert(scanner.src() == src);
            assert(token_views(scanner.tokens@) + rendered(scan_from(src, 0, 0).tokens, src)
                =~= rendered(scan_model(src).tokens, src));
            assert(error_views(scanner.errors@) + scan_from(src, 0, 0).errors =~= scan_model(
                src,
            ).errors);
        }
        while !scanner.done()
            invariant
                scanner.wf(),
                scanner.src() == src,
                token_views(scanner.tokens@) + rendered(
                    scan_from(src, scanner.pointer as int, scanner.line as int).tokens,
                    src,
                ) == rendered(scan_model(src).tokens, src),
                error_views(scanner.errors@) + scan_from(
                    src,
                    scanner.pointer as int,
                    scanner.line as int,
                ).errors == scan_model(src).errors,
            decreases src.len() - scanner.pointer,
        {
            scanner.start = scanner.pointer;
            let ghost p0 = scanner.pointer as int;
            let ghost l0 = scanner.line as int;
            let ghost t0 = scanner.tokens@;
            let ghost e0 = scanner.errors@;
            scanner.parse_token();
            proof {
                let st = scan_step(src, p0, l0);
                let m1 = scan_from(src, st.end, st.line);
                assert(scan_from(src, p0, l0) == with_step(st, m1));
                if st.token is Some {
                    lemma_step_token(t0, scanner.tokens@, st.token->0, m1.tokens, src);
                }
                if st.error is Some {
                    lemma_step_error(e0, scanner.errors@, st.error->0, m1.errors);
                }
            }
        }
        scanner.start = scanner.pointer;
        let ghost l = scanner.line as int;
        proof {
            assert(scanner.pointer == src.len());
            assert(scan_from(src, src.len() as int, l) == ScanModel {
                tokens: seq![
                    SpecToken {
                        kind: TokenKind::EOF,
                        start: src.len() as int,
                        end: src.len() as int,
                        line: l,
                    },
                ],
                errors: seq![],
            });
        }
        let ghost before = scanner.tokens@;
        scanner.add_token(TokenKind::EOF);
        proof {
            let t = SpecToken {
                kind: TokenKind::EOF,
                start: src.len() as int,
                end: src.len() as int,
                line: l,
            };
            assert(rendered(seq![t], src) =~= seq![t.token(src)]);
            assert(token_views(before).push(t.token(src)) =~= token_views(before) + seq![
                t.token(src),
            ]);
            assert(error_views(scanner.errors@) + Seq::<SpecError>::empty() =~= error_views(
                scanner.errors@,
            ));
        }
        (scanner.tokens, scanner.errors)
    }

    /// Scan `source` to completion, surfacing each diagnostic through
    /// `reporter` in the order the pass encountered them, and return the token
    /// sequence. The tokens are exactly what the grammar model prescribes;
    /// the reporter's sticky error signal is set when the pass produced a
    /// diagnostic, and the reporter is left untouched when it produced none.
    pub fn scan<R: Reporter>(reporter: &mut R, source: &str) -> (tokens: Vec<Token>)
        ensures
            token_views(tokens@) == rendered(
                scan_model(source.spec_bytes()).tokens,
                source.spec_bytes(),
            ),
            scan_model(source.spec_bytes()).errors.len() > 0 ==> final(reporter).error_seen(),
            scan_model(source.spec_bytes()).errors.len() == 0 ==> *final(reporter) == *old(
                reporter,
            ),
    {
        let (tokens, errors) = Self::scan_with_errors(source);
        let ghost r0 = *reporter;
        let n = errors.len();
        let mut k: usize = 0;
        while k < n
            invariant
                n == errors.len(),
                k <= n,
                k > 0 ==> reporter.error_seen(),
                k == 0 ==> *reporter == r0,
            decreases n - k,
        {
            reporter.report(errors[k]);
            k += 1;
        }
        proof {
            assert(errors@.len() == error_views(errors@).len());
        }
        tokens
    }

    /// Recognize at most one lexeme at the cursor: consume one byte,
    /// dispatch on it, and perform exactly the one step the grammar model
    /// prescribes at this position. The cursor lands on the step's end, the
    /// line counter becomes the step's, and the emitted tokens and recorded
    /// diagnostics grow, append-only, by exactly the step's token or
    /// diagnostic, when it has one.
    fn parse_token(&mut self)
        requires
            old(self).wf(),
            old(self).start == old(self).pointer,
            old(self).pointer < old(self).src().len(),
        ensures
            final(self).wf(),
            final(self).source_bytes == old(self).source_bytes,
            final(self).start == old(self).start,
            old(self).pointer < final(self).pointer <= final(self).src().len(),
            ({
                let src = old(self).src();
                let st = scan_step(src, old(self).pointer as int, old(self).line as int);
                &&& final(self).pointer == st.end
                &&& final(self).line == st.line
                &&& token_views(final(self).tokens@) == (match st.token {
                    Some(t) => token_views(old(self).tokens@).push(t.token(src)),
                    None => token_views(old(self).tokens@),
                })
                &&& error_views(final(self).errors@) == (match st.error {
                    Some(e) => error_views(old(self).errors@).push(e),
                    None => error_views(old(self).errors@),
                })
            }),
    {
        let ghost s0 = *self;
        let ghost src = self.src();
        let ghost i = self.pointer as int;
        let ghost l = self.line as int;
        proof {
            vstd::slice::axiom_spec_len::<u8>(self.source_bytes);
            lemma_nl_between_bounds(src, 0, i);
        }
        let b = self.consume();
        if b == (' ' as u8) || b == ('\t' as u8) || b == ('\r' as u8) {
            proof {
                assert(scan_step(src, i, l) == ScanStep {
                    end: i + 1,
                    line: l,
                    token: None,
                    error: None,
                });
                assert(nl_between(src, 0, i + 1) == nl_between(src, 0, i));
            }
        } else if b == ('\n' as u8) {
            self.line = self.line + 1;
            proof {
                assert(scan_step(src, i, l) == ScanStep {
                    end: i + 1,
                    line: l + 1,
                    token: None,
                    error: None,
                });
                assert(nl_between(src, 0, i + 1) == nl_between(src, 0, i) + 1);
            }
        } else if b == ('/' as u8) && self.char_eq('/' as u8) {
            self.comment();
            proof {
                lemma_comment_end(src, i + 1);
                lemma_comment_end(src, i + 2);
                let ce = comment_end(src, i + 2);
                assert(comment_end(src, i + 1) == ce);
                assert(scan_step(src, i, l) == ScanStep {
                    end: ce,
                    line: l,
                    token: None,
                    error: None,
                });
                lemma_nl_between_add(src, 0, i, ce);
                lemma_nl_between_zero(src, i, ce);
            }
        } else if let Some(kind) = single_token_kind(b) {
            self.add_token(kind);
            proof {
                let t = SpecToken { kind, start: i, end: i + 1, line: l };
                assert(scan_step(src, i, l) == ScanStep {
                    end: i + 1,
                    line: l,
                    token: Some(t),
                    error: None,
                });
                assert(nl_between(src, 0, i + 1) == nl_between(src, 0, i));
            }
        } else if let Some((one, two)) = pair_token_kinds(b) {
            if self.consume_eq('=' as u8) {
                self.add_token(two);
                proof {
                    let t = SpecToken { kind: two, start: i, end: i + 2, line: l };
                    assert(scan_step(src, i, l) == ScanStep {
                        end: i + 2,
                        line: l,
                        token: Some(t),
                        error: None,
                    });
                    assert(nl_between(src, 0, i + 1) == nl_between(src, 0, i));
                    assert(nl_between(src, 0, i + 2) == nl_between(src, 0, i + 1));
                }
            } else {
                self.add_token(one);
                proof {
                    let t = SpecToken { kind: one, start: i, end: i + 1, line: l };
                    assert(scan_step(src, i, l) == ScanStep {
                        end: i + 1,
                        line: l,
                        token: Some(t),
                        error: None,
                    });
                    assert(nl_between(src, 0, i + 1) == nl_between(src, 0, i));
                }
            }
        } else if b == ('"' as u8) {
            proof {
                assert(nl_between(src, 0, i + 1) == nl_between(src, 0, i));
            }
            self.string();
            proof {
                lemma_string_close(src, i + 1);
                let c = string_close(src, i + 1);
                if c < src.len() {
                    let t = SpecToken { kind: TokenKind::String, start: i, end: c + 1, line: l };
                    assert(scan_step(src, i, l) == ScanStep {
                        end: c + 1,
                        line: l + nl_between(src, i + 1, c),
                        token: Some(t),
                        error: None,
                    });
                } else {
                    let ge = SpecError::UnterminatedString {
                        line: l + nl_between(src, i + 1, src.len() as int),
                    };
                    assert(scan_step(src, i, l) == ScanStep {
                        end: src.len() as int,
                        line: l + nl_between(src, i + 1, src.len() as int),
                        token: None,
                        error: Some(ge),
                    });
                }
            }
        } else if is_digit(b) {
            proof {
                assert(nl_between(src, 0, i + 1) == nl_between(src, 0, i));
            }
            self.number();
            proof {
                let e = number_end(src, i);
                let t = SpecToken { kind: TokenKind::Number, start: i, end: e, line: l };
                assert(scan_step(src, i, l) == ScanStep {
                    end: e,
                    line: l,
                    token: Some(t),
                    error: None,
                });
                lemma_number_end(src, i);
            }
        } else if b == ('_' as u8) || (('a' as u8) <= b && b <= ('z' as u8)) || (('A' as u8) <= b
            && b <= ('Z' as u8)) {
            proof {
                assert(nl_between(src, 0, i + 1) == nl_between(src, 0, i));
            }
            self.literal();
            proof {
                let e = ident_run_end(src, i);
                let t = SpecToken {
                    kind: keyword_kind_of(src.subrange(i, e)),
                    start: i,
                    end: e,
                    line: l,
                };
                assert(scan_step(src, i, l) == ScanStep {
                    end: e,
                    line: l,
                    token: Some(t),
                    error: None,
                });
                lemma_ident_run_end(src, i);
            }
        } else {
            let line_now = self.line;
            let e = ScanError::UnexpectedCharacter { line: line_now, byte: b };
            proof {
                lemma_error_views_push(self.errors@, e);
            }
            self.errors.push(e);
            proof {
                let ge = SpecError::UnexpectedCharacter { line: l, byte: src[i] };
                assert(scan_step(src, i, l) == ScanStep {
                    end: i + 1,
                    line: l,
                    token: None,
                    error: Some(ge),
                });
                assert(nl_between(src, 0, i + 1) == nl_between(src, 0, i));
            }
        }
    }

    /// Emit a token of the given kind whose lexeme is the bytes from `start`
    /// to the cursor, placed on line `line`.
    fn add_token_at(&mut self, kind: TokenKind, line: usize)
        requires
            old(self).start <= old(self).pointer <= old(self).src().len(),
        ensures
            final(self).source_bytes == old(self).source_bytes,
            final(self).start == old(self).start,
            final(self).pointer == old(self).pointer,
            final(self).line == old(self).line,
            final(self).errors == old(self).errors,
            token_views(final(self).tokens@) == token_views(old(self).tokens@).push(
                (TokenModel {
                    kind,
                    lexeme: old(self).src().subrange(
                        old(self).start as int,
                        old(self).pointer as int,
                    ),
                    line: line as int,
                }),
            ),
    {
        let lexeme = slice_to_vec(slice_subrange(self.source_bytes, self.start, self.pointer));
        let t = Token { kind, lexeme, line };
        proof {
            lemma_token_views_push(self.tokens@, t);
        }
        self.tokens.push(t);
    }

    /// Skip a line comment: advance to the next newline or the end of
    /// input. The newline itself is not consumed and no token is produced.
    fn comment(&mut self)
        requires
            old(self).pointer <= old(self).src().len(),
        ensures
            final(self).pointer == comment_end(old(self).src(), old(self).pointer as int),
            final(self).source_bytes == old(self).source_bytes,
            final(self).start == old(self).start,
            final(self).line == old(self).line,
            final(self).tokens == old(self).tokens,
            final(self).errors == old(self).errors,
    {
        let ghost s0 = *self;
        proof {
            lemma_comment_end(s0.src(), s0.pointer as int);
        }
        while !self.done() && !self.char_eq('\n' as u8)
            invariant
                self.source_bytes == s0.source_bytes,
                self.start == s0.start,
                self.line == s0.line,
                self.tokens == s0.tokens,
                self.errors == s0.errors,
                s0.pointer <= self.pointer <= self.src().len(),
                comment_end(self.src(), s0.pointer as int) == comment_end(
                    self.src(),
                    self.pointer as int,
                ),
            decreases self.src().len() - self.pointer,
        {
            self.step();
        }
    }

    /// Scan the rest of a string literal: the cursor stands just past the
    /// opening quote, which `start` points at. On success the token spans
    /// both quotes and carries the opening line; when input ends with no
    /// closing quote, one diagnostic is recorded at the line where scanning
    /// stopped and no token is produced. Newlines inside the literal advance
    /// the line counter either way.
    fn string(&mut self)
        requires
            old(self).wf(),
            old(self).start + 1 == old(self).pointer <= old(self).src().len(),
        ensures
            final(self).source_bytes == old(self).source_bytes,
            final(self).start == old(self).start,
            final(self).wf(),
            ({
                let src = old(self).src();
                let i = old(self).start as int;
                let c = string_close(src, i + 1);
                if c < src.len() {
                    &&& final(self).pointer == c + 1
                    &&& final(self).line == old(self).line + nl_between(src, i + 1, c)
                    &&& final(self).errors == old(self).errors
                    &&& token_views(final(self).tokens@) == token_views(old(self).tokens@).push(
                        (TokenModel {
                            kind: TokenKind::String,
                            lexeme: src.subrange(i, c + 1),
                            line: old(self).line as int,
                        }),
                    )
                } else {
                    &&& final(self).pointer == src.len()
                    &&& final(self).line == old(self).line + nl_between(src, i + 1, src.len() as int)
                    &&& final(self).tokens == old(self).tokens
                    &&& error_views(final(self).errors@) == error_views(old(self).errors@).push(
                        SpecError::UnterminatedString {
                            line: old(self).line + nl_between(src, i + 1, src.len() as int),
                        },
                    )
                }
            }),
    {
        let ghost s0 = *self;
        let ghost src = self.src();
        let ghost i = self.start as int;
        let open_line = self.line;
        proof {
            lemma_string_close(src, i + 1);
            vstd::slice::axiom_spec_len::<u8>(self.source_bytes);
        }
        while !self.done() && !self.char_eq('"' as u8)
            invariant
                self.source_bytes == s0.source_bytes,
                self.start == s0.start,
                self.tokens == s0.tokens,
                self.errors == s0.errors,
                src == self.src(),
                src.len() <= usize::MAX,
                i == s0.start as int,
                s0.pointer == i + 1,
                s0.pointer <= self.pointer <= src.len(),
                string_close(src, s0.pointer as int) == string_close(src, self.pointer as int),
                self.line == s0.line + nl_between(src, i + 1, self.pointer as int),
                self.line == nl_between(src, 0, self.pointer as int),
            decreases src.len() - self.pointer,
        {
            if self.char_eq('\n' as u8) {
                proof {
                    lemma_nl_between_bounds(src, 0, self.pointer as int);
                }
                self.line = self.line + 1;
            }
            self.step();
        }
        if self.done() {
            let line_now = self.line;
            let e = ScanError::UnterminatedString { line: line_now };
            proof {
                lemma_error_views_push(self.errors@, e);
            }
            self.errors.push(e);
        } else {
            self.step();
            self.add_token_at(TokenKind::String, open_line);
        }
    }

    /// Scan the rest of a number literal: the cursor stands just past the
    /// leading digit, which `start` points at. Consumes the maximal digit
    /// run and, when a `.` is followed by a further digit, the fractional
    /// run; a trailing `.` with no digit after it is left for the next
    /// token.
    fn number(&mut self)
        requires
            old(self).wf(),
            old(self).start + 1 == old(self).pointer <= old(self).src().len(),
            is_digit_byte(old(self).src()[old(self).start as int]),
        ensures
            final(self).source_bytes == old(self).source_bytes,
            final(self).start == old(self).start,
            final(self).line == old(self).line,
            final(self).errors == old(self).errors,
            final(self).wf(),
            final(self).pointer == number_end(old(self).src(), old(self).start as int),
            token_views(final(self).tokens@) == token_views(old(self).tokens@).push(
                (TokenModel {
                    kind: TokenKind::Number,
                    lexeme: old(self).src().subrange(
                        old(self).start as int,
                        number_end(old(self).src(), old(self).start as int),
                    ),
                    line: old(self).line as int,
                }),
            ),
    {
        let ghost s0 = *self;
        let ghost src = self.src();
        let ghost i = self.start as int;
        proof {
            lemma_number_end(src, i);
            lemma_digit_run_end(src, i);
        }
        while self.is_digit()
            invariant
                self.source_bytes == s0.source_bytes,
                self.start == s0.start,
                self.line == s0.line,
                self.tokens == s0.tokens,
                self.errors == s0.errors,
                src == self.src(),
                i == s0.start as int,
                i + 1 <= self.pointer <= src.len(),
                digit_run_end(src, i) == digit_run_end(src, self.pointer as int),
            decreases src.len() - self.pointer,
        {
            self.step();
        }
        let ghost ie = digit_run_end(src, i);
        if self.char_eq('.' as u8) && self.next_is_digit() {
            self.step();
            self.step();
            proof {
                lemma_digit_run_end(src, ie + 2);
            }
            while self.is_digit()
                invariant
                    self.source_bytes == s0.source_bytes,
                    self.start == s0.start,
                    self.line == s0.line,
                    self.tokens == s0.tokens,
                    self.errors == s0.errors,
                    src == self.src(),
                    i == s0.start as int,
                    ie + 2 <= self.pointer <= src.len(),
                    digit_run_end(src, ie + 2) == digit_run_end(src, self.pointer as int),
                decreases src.len() - self.pointer,
            {
                self.step();
            }
        }
        proof {
            let ne = number_end(src, i);
            lemma_nl_between_add(src, 0, i + 1, ne);
            lemma_nl_between_zero(src, i + 1, ne);
        }
        self.add_token(TokenKind::Number);
    }

    /// Scan the rest of an identifier or keyword: the cursor stands just
    /// past the first byte, which `start` points at. Consumes the maximal
    /// identifier run and classifies the lexeme through the reserved-word
    /// table, so a keyword is never recognized inside a longer identifier.
    fn literal(&mut self)
        requires
            old(self).wf(),
            old(self).start + 1 == old(self).pointer <= old(self).src().len(),
            is_ident_byte(old(self).src()[old(self).start as int]),
        ensures
            final(self).source_bytes == old(self).source_bytes,
            final(self).start == old(self).start,
            final(self).line == old(self).line,
            final(self).errors == old(self).errors,
            final(self).wf(),
            final(self).pointer == ident_run_end(old(self).src(), old(self).start as int),
            token_views(final(self).tokens@) == token_views(old(self).tokens@).push(
                ({
                    let lexeme = old(self).src().subrange(
                        old(self).start as int,
                        ident_run_end(old(self).src(), old(self).start as int),
                    );
                    TokenModel {
                        kind: keyword_kind_of(lexeme),
                        lexeme,
                        line: old(self).line as int,
                    }
                }),
            ),
    {
        let ghost s0 = *self;
        let ghost src = self.src();
        let ghost i = self.start as int;
        proof {
            lemma_ident_run_end(src, i);
        }
        while self.is_alphanumeric()
            invariant
                self.source_bytes == s0.source_bytes,
                self.start == s0.start,
                self.line == s0.line,
                self.tokens == s0.tokens,
                self.errors == s0.errors,
                src == self.src(),
                i == s0.start as int,
                i + 1 <= self.pointer <= src.len(),
                ident_run_end(src, i) == ident_run_end(src, self.pointer as int),
            decreases src.len() - self.pointer,
        {
            self.step();
        }
        proof {
            let e = ident_run_end(src, i);
            lemma_nl_between_add(src, 0, i + 1, e);
            lemma_nl_between_zero(src, i + 1, e);
            assert forall|j: int| i + 1 <= j < e implies src[j] != ('\n' as u8) by {
                assert(is_ident_byte(src[j]));
            }
        }
        let kind = keyword_kind(slice_subrange(self.source_bytes, self.start, self.pointer));
        self.add_token(kind);
    }

    /// Emit a token on the current line.
    fn add_token(&mut self, kind: TokenKind)
        requires
            old(self).start <= old(self).pointer <= old(self).src().len(),
        ensures
            final(self).source_bytes == old(self).source_bytes,
            final(self).start == old(self).start,
            final(self).pointer == old(self).pointer,
            final(self).line == old(self).line,
            final(self).errors == old(self).errors,
            token_views(final(self).tokens@) == token_views(old(self).tokens@).push(
                (TokenModel {
                    kind,
                    lexeme: old(self).src().subrange(
                        old(self).start as int,
                        old(self).pointer as int,
                    ),
                    line: old(self).line as int,
                }),
            ),
    {
        let line = self.line;
        self.add_token_at(kind, line);
    }
}

} // verus!
