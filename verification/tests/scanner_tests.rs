use lox::scanner::{ScanError, Scanner};
use lox::token::{Token, TokenKind};
use lox::Lox;

fn tok(kind: TokenKind, lexeme: &str, line: usize) -> Token {
    Token { kind, lexeme: lexeme.as_bytes().to_vec(), line }
}

#[test]
fn empty_source() {
    let mut lox = Lox { has_error: false };
    let tokens = Scanner::scan(&mut lox, "");

    assert_eq!(tokens, vec![tok(TokenKind::EOF, "", 0)]);
}

#[test]
fn base_tokens() {
    let variants = [
        ("(", TokenKind::LeftParen),
        (")", TokenKind::RightParen),
        ("{", TokenKind::LeftBrace),
        ("}", TokenKind::RightBrace),
        (",", TokenKind::Comma),
        (".", TokenKind::Dot),
        ("-", TokenKind::Minus),
        ("+", TokenKind::Plus),
        (";", TokenKind::Semicolon),
        ("/", TokenKind::Slash),
        ("*", TokenKind::Star),
        ("*", TokenKind::Star),
        ("!", TokenKind::Bang),
        ("!=", TokenKind::BangEqual),
        ("=", TokenKind::Equal),
        ("==", TokenKind::EqualEqual),
        (">", TokenKind::Greater),
        (">=", TokenKind::GreaterEqual),
        ("<", TokenKind::Less),
        ("<=", TokenKind::LessEqual),
        ("\"string\"", TokenKind::String),
        ("123", TokenKind::Number),
        ("3.14", TokenKind::Number),
        ("and", TokenKind::And),
        ("class", TokenKind::Class),
        ("else", TokenKind::Else),
        ("false", TokenKind::False),
        ("fun", TokenKind::Fun),
        ("for", TokenKind::For),
        ("if", TokenKind::If),
        ("nil", TokenKind::Nil),
        ("or", TokenKind::Or),
        ("print", TokenKind::Print),
        ("return", TokenKind::Return),
        ("super", TokenKind::Super),
        ("this", TokenKind::This),
        ("true", TokenKind::True),
        ("var", TokenKind::Var),
        ("while", TokenKind::While),
        ("identifier", TokenKind::Identifier),
    ];

    for (code, kind) in variants {
        let mut lox = Lox { has_error: false };
        let tokens = Scanner::scan(&mut lox, code);

        assert_eq!(tokens, vec![tok(kind, code, 0), tok(TokenKind::EOF, "", 0)]);
        assert_eq!(lox.has_error, false);
    }
}

#[test]
fn comment_only() {
    let mut lox = Lox { has_error: false };
    let tokens = Scanner::scan(&mut lox, "// comment text");

    assert_eq!(tokens, vec![tok(TokenKind::EOF, "", 0)]);
}

#[test]
fn comment_without_newline_yields_only_eof() {
    let (tokens, errors) = Scanner::scan_with_errors("// only a comment");

    assert_eq!(tokens, vec![tok(TokenKind::EOF, "", 0)]);
    assert_eq!(errors, vec![]);
}

#[test]
fn var_declaration_tokens() {
    let mut lox = Lox { has_error: false };
    let tokens = Scanner::scan(&mut lox, "var x = 3.14;");

    assert_eq!(
        tokens,
        vec![
            tok(TokenKind::Var, "var", 0),
            tok(TokenKind::Identifier, "x", 0),
            tok(TokenKind::Equal, "=", 0),
            tok(TokenKind::Number, "3.14", 0),
            tok(TokenKind::Semicolon, ";", 0),
            tok(TokenKind::EOF, "", 0),
        ],
    );
    assert_eq!(lox.has_error, false);
}

#[test]
fn unterminated_string_reports_error() {
    let (tokens, errors) = Scanner::scan_with_errors("\"abc");

    assert_eq!(tokens, vec![tok(TokenKind::EOF, "", 0)]);
    assert_eq!(errors, vec![ScanError::UnterminatedString { line: 0 }]);

    let mut lox = Lox { has_error: false };
    let tokens_again = Scanner::scan(&mut lox, "\"abc");
    assert_eq!(lox.has_error, true);
    assert_eq!(tokens_again, tokens);
}

#[test]
fn trailing_dot_not_absorbed() {
    let (tokens, errors) = Scanner::scan_with_errors("1.");

    assert_eq!(
        tokens,
        vec![
            tok(TokenKind::Number, "1", 0),
            tok(TokenKind::Dot, ".", 0),
            tok(TokenKind::EOF, "", 0),
        ],
    );
    assert_eq!(errors, vec![]);
}

#[test]
fn multiline_string_line_numbers() {
    let mut lox = Lox { has_error: false };
    let tokens = Scanner::scan(&mut lox, "\"a\nb\" x");

    assert_eq!(
        tokens,
        vec![
            tok(TokenKind::String, "\"a\nb\"", 0),
            tok(TokenKind::Identifier, "x", 1),
            tok(TokenKind::EOF, "", 1),
        ],
    );
    assert_eq!(lox.has_error, false);
}

#[test]
fn forest_is_identifier() {
    let mut lox = Lox { has_error: false };
    let tokens = Scanner::scan(&mut lox, "forest");

    assert_eq!(
        tokens,
        vec![tok(TokenKind::Identifier, "forest", 0), tok(TokenKind::EOF, "", 0)],
    );
}

#[test]
fn less_equal_is_one_token() {
    let mut lox = Lox { has_error: false };
    let tokens = Scanner::scan(&mut lox, "<=");

    assert_eq!(
        tokens,
        vec![tok(TokenKind::LessEqual, "<=", 0), tok(TokenKind::EOF, "", 0)],
    );
}

#[test]
fn unexpected_character_reported() {
    let (tokens, errors) = Scanner::scan_with_errors("@");

    assert_eq!(tokens, vec![tok(TokenKind::EOF, "", 0)]);
    assert_eq!(
        errors,
        vec![ScanError::UnexpectedCharacter { line: 0, byte: b'@' }],
    );
}

#[test]
fn unexpected_character_skipped_between_tokens() {
    let (tokens, errors) = Scanner::scan_with_errors("(@)");

    assert_eq!(
        tokens,
        vec![
            tok(TokenKind::LeftParen, "(", 0),
            tok(TokenKind::RightParen, ")", 0),
            tok(TokenKind::EOF, "", 0),
        ],
    );
    assert_eq!(
        errors,
        vec![ScanError::UnexpectedCharacter { line: 0, byte: b'@' }],
    );
}

#[test]
fn scanning_twice_is_identical() {
    let source = "var x = 3.14;\n\"s\" @ // note\nwhile";
    let (tokens_a, errors_a) = Scanner::scan_with_errors(source);
    let (tokens_b, errors_b) = Scanner::scan_with_errors(source);

    assert_eq!(tokens_a, tokens_b);
    assert_eq!(errors_a, errors_b);
}

#[test]
fn newline_advances_line() {
    let mut lox = Lox { has_error: false };
    let tokens = Scanner::scan(&mut lox, "(\n)");

    assert_eq!(
        tokens,
        vec![
            tok(TokenKind::LeftParen, "(", 0),
            tok(TokenKind::RightParen, ")", 1),
            tok(TokenKind::EOF, "", 1),
        ],
    );
}

#[test]
fn comment_stops_at_newline() {
    let mut lox = Lox { has_error: false };
    let tokens = Scanner::scan(&mut lox, "// c\nvar");

    assert_eq!(
        tokens,
        vec![tok(TokenKind::Var, "var", 1), tok(TokenKind::EOF, "", 1)],
    );
}

#[test]
fn run_sets_and_keeps_error_flag() {
    let mut lox = Lox { has_error: false };
    lox.run("var x = 1;");
    assert_eq!(lox.has_error, false);

    lox.run("@");
    assert_eq!(lox.has_error, true);

    lox.run("var x = 1;");
    assert_eq!(lox.has_error, true);
}

#[test]
fn keyword_prefix_operators_longest_match() {
    let mut lox = Lox { has_error: false };
    let tokens = Scanner::scan(&mut lox, "a!=b");

    assert_eq!(
        tokens,
        vec![
            tok(TokenKind::Identifier, "a", 0),
            tok(TokenKind::BangEqual, "!=", 0),
            tok(TokenKind::Identifier, "b", 0),
            tok(TokenKind::EOF, "", 0),
        ],
    );
}
