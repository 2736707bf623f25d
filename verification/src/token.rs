//! Token data: the classified lexical units the scanner emits.

use vstd::prelude::*;

verus! {

/// The closed set of token classifications: single-character punctuation,
/// one- and two-character operators, literals, reserved keywords, and the
/// terminal `EOF` sentinel.
#[allow(non_camel_case_types)]
#[derive(Clone, Copy, Debug, PartialEq, Eq, Structural)]
pub enum TokenKind {
    LeftParen,
    RightParen,
    LeftBrace,
    RightBrace,
    Comma,
    Dot,
    Minus,
    Plus,
    Semicolon,
    Slash,
    Star,
    Bang,
    BangEqual,
    Equal,
    EqualEqual,
    Greater,
    GreaterEqual,
    Less,
    LessEqual,
    String,
    Number,
    Identifier,
    And,
    Class,
    Else,
    False,
    Fun,
    For,
    If,
    Nil,
    Or,
    Print,
    Return,
    Super,
    This,
    True,
    Var,
    While,
    EOF,
}

/// One scanned token: its classification, the exact source bytes it was
/// recognized from, and the 0-based line where its first byte appears.
/// The `EOF` sentinel carries an empty lexeme.
#[derive(Debug)]
pub struct Token {
    pub kind: TokenKind,
    pub lexeme: Vec<u8>,
    pub line: usize,
}

/// The mathematical value of a [`Token`]: the same data with the lexeme as a
/// byte sequence and the line as an unbounded integer.
pub struct TokenModel {
    pub kind: TokenKind,
    pub lexeme: Seq<u8>,
    pub line: int,
}

impl View for Token {
    type V = TokenModel;

    open spec fn view(&self) -> TokenModel {
        TokenModel { kind: self.kind, lexeme: self.lexeme@, line: self.line as int }
    }
}

/// The mathematical values of a sequence of tokens.
pub open spec fn token_views(ts: Seq<Token>) -> Seq<TokenModel> {
    ts.map_values(|t: Token| t@)
}

/// Taking views commutes with appending one token.
pub proof fn lemma_token_views_push(ts: Seq<Token>, t: Token)
    ensures
        token_views(ts.push(t)) == token_views(ts).push(t@),
{
    assert(token_views(ts.push(t)) =~= token_views(ts).push(t@));
}

/// Byte-for-byte comparison of two slices.
pub fn bytes_eq(a: &[u8], b: &[u8]) -> (r: bool)
    ensures
        r <==> a@ == b@,
{
    if a.len() != b.len() {
        proof {
            assert(a@ != b@);
        }
        return false;
    }
    let n = a.len();
    let mut i: usize = 0;
    while i < n
        invariant
            n == a@.len() == b@.len(),
            i <= n,
            forall|j: int| 0 <= j < i ==> a@[j] == b@[j],
        decreases n - i,
    {
        if a[i] != b[i] {
            proof {
                assert(a@ != b@);
            }
            return false;
        }
        i += 1;
    }
    proof {
        assert(a@ =~= b@);
    }
    true
}

impl PartialEq for Token {
    /// Two tokens are equal when kind, lexeme bytes, and line all agree.
    fn eq(&self, other: &Token) -> (r: bool) {
        self.kind == other.kind && self.line == other.line && bytes_eq(
            self.lexeme.as_slice(),
            other.lexeme.as_slice(),
        )
    }
}

impl vstd::std_specs::cmp::PartialEqSpecImpl for Token {
    open spec fn obeys_eq_spec() -> bool {
        true
    }

    open spec fn eq_spec(&self, other: &Token) -> bool {
        self.kind == other.kind && self.line == other.line && self.lexeme@ == other.lexeme@
    }
}

} // verus!
