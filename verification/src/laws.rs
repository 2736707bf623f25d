//! The general laws of the scanner, proved once over the grammar model.
//!
//! Because `Scanner::scan` and `Scanner::scan_with_errors` return exactly
//! the rendering of [`scan_model`](crate::grammar::scan_model), each law
//! stated here holds of every scan's output.

use vstd::prelude::*;

use crate::grammar::{
    comment_end, ident_run_end, is_blank_byte, is_digit_byte, is_ident_byte,
    is_ident_start_byte, lemma_comment_end, lemma_ident_run_end,
    lemma_nl_between_add, lemma_nl_between_bounds, lemma_nl_between_zero, lemma_number_end,
    lemma_scan_step_bounds, lemma_string_close, nl_between, number_end, pair_kinds, scan_from,
    scan_model, scan_step, single_kind, skipped_between, string_close, ScanModel, SpecToken,
};
use crate::token::TokenKind;

verus! {

/// What the pass from position `i` on line `line` guarantees of its `k`-th
/// token: the span lies between `i` and the end of input, a non-`EOF` token
/// covers at least one byte, the `EOF` sentinel is exactly the last token
/// and its span is empty at the end of input, the token's line is `line`
/// plus the newlines between `i` and the span's start, and consecutive
/// spans never overlap.
pub open spec fn token_well_placed(src: Seq<u8>, i: int, line: int, m: ScanModel, k: int) -> bool {
    let t = m.tokens[k];
    &&& i <= t.start <= t.end <= src.len()
    &&& t.line == line + nl_between(src, i, t.start)
    &&& (t.kind == TokenKind::EOF <==> k == m.tokens.len() - 1)
    &&& (t.kind == TokenKind::EOF ==> t.start == src.len() && t.end == src.len())
    &&& (t.kind != TokenKind::EOF ==> t.start < t.end)
    &&& (k < m.tokens.len() - 1 ==> t.end <= m.tokens[k + 1].start)
}

/// Every pass emits at least one token, and each of its tokens is well
/// placed in the sense of [`token_well_placed`].
pub proof fn lemma_scan_from_well_placed(src: Seq<u8>, i: int, line: int)
    requires
        0 <= i <= src.len(),
    ensures
        scan_from(src, i, line).tokens.len() > 0,
        forall|k: int|
            0 <= k < scan_from(src, i, line).tokens.len() ==> #[trigger] token_well_placed(
                src,
                i,
                line,
                scan_from(src, i, line),
                k,
            ),
    decreases src.len() - i,
{
    let m = scan_from(src, i, line);
    if i >= src.len() {
        assert forall|k: int| 0 <= k < m.tokens.len() implies #[trigger] token_well_placed(
            src,
            i,
            line,
            m,
            k,
        ) by {
            assert(nl_between(src, i, i) == 0);
        }
    } else {
        let b = src[i];
        assert(nl_between(src, i, i) == 0);
        if is_blank_byte(b) {
            assert(nl_between(src, i, i + 1) == 0);
            lemma_scan_from_well_placed(src, i + 1, line);
            lemma_shift_skip(src, i, line, i + 1, line);
        } else if b == ('\n' as u8) {
            assert(nl_between(src, i, i + 1) == 1);
            lemma_scan_from_well_placed(src, i + 1, line + 1);
            lemma_shift_skip(src, i, line, i + 1, line + 1);
        } else if b == ('/' as u8) && i + 1 < src.len() && src[i + 1] == ('/' as u8) {
            lemma_comment_end(src, i + 2);
            let ce = comment_end(src, i + 2);
            lemma_scan_from_well_placed(src, ce, line);
            assert forall|j2: int| i <= j2 < ce implies src[j2] != ('\n' as u8) by {}
            lemma_nl_between_zero(src, i, ce);
            lemma_shift_skip(src, i, line, ce, line);
        } else if single_kind(b) is Some {
            assert(nl_between(src, i, i + 1) == 0);
            lemma_scan_from_well_placed(src, i + 1, line);
            lemma_shift_token(src, i, line, i + 1, line);
        } else if pair_kinds(b) is Some {
            assert(nl_between(src, i, i + 1) == 0);
            if i + 1 < src.len() && src[i + 1] == ('=' as u8) {
                assert(nl_between(src, i, i + 2) == 0);
                lemma_scan_from_well_placed(src, i + 2, line);
                lemma_shift_token(src, i, line, i + 2, line);
            } else {
                lemma_scan_from_well_placed(src, i + 1, line);
                lemma_shift_token(src, i, line, i + 1, line);
            }
        } else if b == ('"' as u8) {
            lemma_string_close(src, i + 1);
            let c = string_close(src, i + 1);
            assert(nl_between(src, i, i + 1) == 0);
            if c < src.len() {
                lemma_scan_from_well_placed(src, c + 1, line + nl_between(src, i + 1, c));
                lemma_nl_between_add(src, i, i + 1, c);
                assert(nl_between(src, i, c + 1) == nl_between(src, i, c));
                lemma_shift_token(src, i, line, c + 1, line + nl_between(src, i + 1, c));
            } else {
                let le = line + nl_between(src, i + 1, src.len() as int);
                lemma_scan_from_well_placed(src, src.len() as int, le);
                lemma_nl_between_add(src, i, i + 1, src.len() as int);
                lemma_shift_skip(src, i, line, src.len() as int, le);
            }
        } else if is_digit_byte(b) {
            lemma_number_end(src, i);
            let e = number_end(src, i);
            lemma_nl_between_zero(src, i, e);
            lemma_scan_from_well_placed(src, e, line);
            lemma_shift_token(src, i, line, e, line);
        } else if is_ident_start_byte(b) {
            lemma_ident_run_end(src, i);
            lemma_ident_run_end(src, i + 1);
            let e = ident_run_end(src, i);
            assert forall|j2: int| i <= j2 < e implies src[j2] != ('\n' as u8) by {
                assert(is_ident_byte(src[j2]));
            }
            lemma_nl_between_zero(src, i, e);
            lemma_scan_from_well_placed(src, e, line);
            lemma_shift_token(src, i, line, e, line);
        } else {
            assert(nl_between(src, i, i + 1) == 0);
            lemma_scan_from_well_placed(src, i + 1, line);
            lemma_shift_skip(src, i, line, i + 1, line);
        }
    }
}

/// Carry well-placedness over a step that emits no token: the pass at `i`
/// has the same tokens as the pass at `j`, with `line2 == line +
/// newlines(i..j)`.
proof fn lemma_shift_skip(src: Seq<u8>, i: int, line: int, j: int, line2: int)
    requires
        0 <= i <= j <= src.len(),
        line2 == line + nl_between(src, i, j),
        scan_from(src, i, line).tokens == scan_from(src, j, line2).tokens,
        scan_from(src, j, line2).tokens.len() > 0,
        forall|k: int|
            0 <= k < scan_from(src, j, line2).tokens.len() ==> #[trigger] token_well_placed(
                src,
                j,
                line2,
                scan_from(src, j, line2),
                k,
            ),
    ensures
        forall|k: int|
            0 <= k < scan_from(src, i, line).tokens.len() ==> #[trigger] token_well_placed(
                src,
                i,
                line,
                scan_from(src, i, line),
                k,
            ),
{
    let m0 = scan_from(src, i, line);
    let m1 = scan_from(src, j, line2);
    assert forall|k: int| 0 <= k < m0.tokens.len() implies #[trigger] token_well_placed(
        src,
        i,
        line,
        m0,
        k,
    ) by {
        assert(token_well_placed(src, j, line2, m1, k));
        let t = m1.tokens[k];
        lemma_nl_between_add(src, i, j, t.start);
    }
}

/// Carry well-placedness over a step that emits the token at the head of
/// the pass at `i`: that token spans `i..j` and the rest is the pass at
/// `j`, with `line2 == line + newlines(i..j)` and no newline before the
/// emitted token.
proof fn lemma_shift_token(src: Seq<u8>, i: int, line: int, j: int, line2: int)
    requires
        0 <= i < j <= src.len(),
        line2 == line + nl_between(src, i, j),
        scan_from(src, i, line).tokens.len() == 1 + scan_from(src, j, line2).tokens.len(),
        scan_from(src, i, line).tokens[0] == (SpecToken {
            kind: scan_from(src, i, line).tokens[0].kind,
            start: i,
            end: j,
            line,
        }),
        scan_from(src, i, line).tokens[0].kind != TokenKind::EOF,
        forall|k: int|
            1 <= k < scan_from(src, i, line).tokens.len() ==> scan_from(src, i, line).tokens[k]
                == scan_from(src, j, line2).tokens[k - 1],
        scan_from(src, j, line2).tokens.len() > 0,
        forall|k: int|
            0 <= k < scan_from(src, j, line2).tokens.len() ==> #[trigger] token_well_placed(
                src,
                j,
                line2,
                scan_from(src, j, line2),
                k,
            ),
    ensures
        forall|k: int|
            0 <= k < scan_from(src, i, line).tokens.len() ==> #[trigger] token_well_placed(
                src,
                i,
                line,
                scan_from(src, i, line),
                k,
            ),
{
    let m0 = scan_from(src, i, line);
    let m1 = scan_from(src, j, line2);
    assert forall|k: int| 0 <= k < m0.tokens.len() implies #[trigger] token_well_placed(
        src,
        i,
        line,
        m0,
        k,
    ) by {
        if k == 0 {
            assert(nl_between(src, i, i) == 0);
            assert(token_well_placed(src, j, line2, m1, 0));
        } else {
            assert(token_well_placed(src, j, line2, m1, k - 1));
            let t = m1.tokens[k - 1];
            lemma_nl_between_add(src, i, j, t.start);
            if k < m0.tokens.len() - 1 {
                assert(token_well_placed(src, j, line2, m1, k));
            }
        }
    }
}

/// Every scan yields a non-empty token sequence whose last element, and
/// only that element, is the `EOF` sentinel; its span is empty, so its
/// lexeme is the empty byte string.
pub proof fn lemma_scan_eof_terminated(src: Seq<u8>)
    ensures
        scan_model(src).tokens.len() > 0,
        scan_model(src).tokens.last().kind == TokenKind::EOF,
        scan_model(src).tokens.last().start == scan_model(src).tokens.last().end,
        forall|k: int|
            0 <= k < scan_model(src).tokens.len() - 1 ==> (#[trigger] scan_model(
                src,
            ).tokens[k]).kind != TokenKind::EOF,
{
    lemma_scan_from_well_placed(src, 0, 0);
    let m = scan_model(src);
    assert(token_well_placed(src, 0, 0, m, m.tokens.len() - 1));
    assert forall|k: int| 0 <= k < m.tokens.len() - 1 implies (#[trigger] m.tokens[k]).kind
        != TokenKind::EOF by {
        assert(token_well_placed(src, 0, 0, m, k));
    }
}

/// Every token's lexeme is a contiguous span of the source, non-empty for
/// every non-`EOF` token, and consecutive spans are ordered and disjoint:
/// the bytes strictly between two consecutive tokens are exactly the bytes
/// the pass skipped.
#[verifier::rlimit(50)]
pub proof fn lemma_token_spans(src: Seq<u8>)
    ensures
        forall|k: int|
            0 <= k < scan_model(src).tokens.len() ==> {
                let t = #[trigger] scan_model(src).tokens[k];
                0 <= t.start <= t.end <= src.len()
            },
        forall|k: int|
            0 <= k < scan_model(src).tokens.len() ==> {
                let t = #[trigger] scan_model(src).tokens[k];
                t.kind != TokenKind::EOF ==> t.start < t.end
            },
        forall|k: int|
            0 <= k < scan_model(src).tokens.len() - 1 ==> (#[trigger] scan_model(
                src,
            ).tokens[k]).end <= scan_model(src).tokens[k + 1].start,
{
    lemma_scan_from_well_placed(src, 0, 0);
    let m = scan_model(src);
    assert forall|k: int| 0 <= k < m.tokens.len() implies {
        let t = #[trigger] m.tokens[k];
        0 <= t.start <= t.end <= src.len() && (t.kind != TokenKind::EOF ==> t.start < t.end)
    } by {
        assert(token_well_placed(src, 0, 0, m, k));
    }
    assert forall|k: int| 0 <= k < m.tokens.len() - 1 implies (#[trigger] m.tokens[k]).end
        <= m.tokens[k + 1].start by {
        assert(token_well_placed(src, 0, 0, m, k));
    }
}

/// Each token is placed on the line equal to the number of newline bytes
/// consumed before its first byte, newlines inside string literals
/// included; hence lines never decrease across the sequence, and the `EOF`
/// sentinel's line counts every newline of the input.
#[verifier::rlimit(50)]
pub proof fn lemma_line_numbers(src: Seq<u8>)
    ensures
        forall|k: int|
            0 <= k < scan_model(src).tokens.len() ==> {
                let t = #[trigger] scan_model(src).tokens[k];
                t.line == nl_between(src, 0, t.start)
            },
        forall|k: int|
            0 <= k < scan_model(src).tokens.len() - 1 ==> (#[trigger] scan_model(
                src,
            ).tokens[k]).line <= scan_model(src).tokens[k + 1].line,
        scan_model(src).tokens.last().line == nl_between(src, 0, src.len() as int),
{
    lemma_scan_from_well_placed(src, 0, 0);
    let m = scan_model(src);
    assert forall|k: int| 0 <= k < m.tokens.len() implies {
        let t = #[trigger] m.tokens[k];
        t.line == nl_between(src, 0, t.start)
    } by {
        assert(token_well_placed(src, 0, 0, m, k));
    }
    assert forall|k: int| 0 <= k < m.tokens.len() - 1 implies (#[trigger] m.tokens[k]).line
        <= m.tokens[k + 1].line by {
        assert(token_well_placed(src, 0, 0, m, k));
        assert(token_well_placed(src, 0, 0, m, k + 1));
        let a = m.tokens[k].start;
        let b = m.tokens[k + 1].start;
        lemma_nl_between_add(src, 0, a, b);
        lemma_nl_between_bounds(src, a, b);
    }
    assert(token_well_placed(src, 0, 0, m, m.tokens.len() - 1));
}

/// Between position `i` and the first token of the pass, and between any
/// two consecutive tokens of the pass, lies skipped material only.
#[verifier::rlimit(100)]
proof fn lemma_scan_from_gaps(src: Seq<u8>, i: int, line: int)
    requires
        0 <= i <= src.len(),
    ensures
        scan_from(src, i, line).tokens.len() > 0,
        skipped_between(src, i, scan_from(src, i, line).tokens[0].start),
        forall|k: int|
            0 <= k < scan_from(src, i, line).tokens.len() - 1 ==> skipped_between(
                src,
                (#[trigger] scan_from(src, i, line).tokens[k]).end,
                scan_from(src, i, line).tokens[k + 1].start,
            ),
    decreases src.len() - i,
{
    lemma_scan_from_well_placed(src, i, line);
    let m = scan_from(src, i, line);
    if i < src.len() {
        let st = scan_step(src, i, line);
        let st0 = scan_step(src, i, 0);
        lemma_scan_step_bounds(src, i, line);
        lemma_scan_step_bounds(src, i, 0);
        assert(st0.end == st.end);
        assert((st0.token is None) == (st.token is None));
        lemma_scan_from_gaps(src, st.end, st.line);
        lemma_scan_from_well_placed(src, st.end, st.line);
        let m1 = scan_from(src, st.end, st.line);
        if st.token is Some {
            let t = st.token->0;
            assert(m.tokens[0] == t);
            assert(t.start == i);
            assert(t.end == st.end);
            assert(skipped_between(src, i, i));
            assert forall|k: int| 0 <= k < m.tokens.len() - 1 implies skipped_between(
                src,
                (#[trigger] m.tokens[k]).end,
                m.tokens[k + 1].start,
            ) by {
                if k == 0 {
                    assert(m.tokens[1] == m1.tokens[0]);
                    assert(skipped_between(src, st.end, m1.tokens[0].start));
                } else {
                    assert(m.tokens[k] == m1.tokens[k - 1]);
                    assert(m.tokens[k + 1] == m1.tokens[k]);
                    assert(skipped_between(src, m1.tokens[k - 1].end, m1.tokens[k].start));
                }
            }
        } else {
            assert(m.tokens == m1.tokens);
            assert(token_well_placed(src, st.end, st.line, m1, 0));
            assert(st.end <= m1.tokens[0].start);
            assert(skipped_between(src, st.end, m1.tokens[0].start));
            assert(skipped_between(src, i, m1.tokens[0].start));
            assert forall|k: int| 0 <= k < m.tokens.len() - 1 implies skipped_between(
                src,
                (#[trigger] m.tokens[k]).end,
                m.tokens[k + 1].start,
            ) by {
                assert(skipped_between(src, m1.tokens[k].end, m1.tokens[k + 1].start));
            }
        }
    }
}

/// Between consecutive tokens, and before the first, lies skipped material
/// only: blanks, newlines, line comments, bytes reported as unexpected,
/// and the tail of an unterminated string literal — a whole number of
/// token-free dispatch steps that tile the gap exactly, so no source byte
/// is lost. Together with the ordered, disjoint spans of
/// [`lemma_token_spans`] this decomposes the source into the lexemes, in
/// order, and the skipped gaps between them.
pub proof fn lemma_gaps_skipped(src: Seq<u8>)
    ensures
        scan_model(src).tokens.len() > 0,
        skipped_between(src, 0, scan_model(src).tokens[0].start),
        forall|k: int|
            0 <= k < scan_model(src).tokens.len() - 1 ==> skipped_between(
                src,
                (#[trigger] scan_model(src).tokens[k]).end,
                scan_model(src).tokens[k + 1].start,
            ),
{
    lemma_scan_from_gaps(src, 0, 0);
}

/// Scanning is deterministic: the model, and with it every scan's tokens
/// and diagnostics, is a function of the source bytes alone, so scanning
/// the same input twice yields identical tokens and identical reported
/// errors.
pub proof fn lemma_scan_deterministic(src1: Seq<u8>, src2: Seq<u8>)
    requires
        src1 == src2,
    ensures
        scan_model(src1) == scan_model(src2),
{
}

} // verus!
