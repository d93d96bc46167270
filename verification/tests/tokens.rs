use cme_compiler::diagnostics::{Diagnostic, Span};
use cme_compiler::parser::{Parser, SpannedToken, Token, skip_to_next_statement, unescape_interp_literal};

const IDENT: Token = Token::Operand { starts_statement: false };
const INT_KW: Token = Token::Other { starts_statement: true, type_keyword: true };
const PLUS: Token = Token::Other { starts_statement: false, type_keyword: false };

fn stream(tokens: &[Token]) -> Vec<SpannedToken> {
    tokens
        .iter()
        .enumerate()
        .map(|(index, token)| SpannedToken { token: *token, span: Span::new(index, index + 1) })
        .collect()
}

fn kinds(tokens: &[SpannedToken]) -> Vec<Token> {
    tokens.iter().map(|token| token.token).collect()
}

#[test]
fn newlines_inside_parentheses_are_dropped() {
    let tokens = stream(&[
        IDENT,
        Token::LParen,
        Token::Newline,
        IDENT,
        Token::Newline,
        Token::RParen,
        Token::Newline,
        Token::Eof,
    ]);
    let kept = Parser::strip_insignificant_newlines(tokens).unwrap();
    assert_eq!(
        kinds(&kept),
        vec![IDENT, Token::LParen, IDENT, Token::RParen, Token::Newline, Token::Eof]
    );
}

#[test]
fn newlines_inside_braces_and_brackets_are_kept() {
    let tokens = stream(&[
        Token::LBrace,
        Token::Newline,
        Token::LBracket,
        Token::Newline,
        Token::RBracket,
        Token::Newline,
        Token::RBrace,
        Token::Eof,
    ]);
    let kept = Parser::strip_insignificant_newlines(tokens.clone()).unwrap();
    assert_eq!(kept, tokens);
}

#[test]
fn top_level_newline_after_a_dangling_operator_is_dropped_unless_a_statement_follows() {
    // `a +` newline `b`: the expression continues onto the next line.
    let tokens = stream(&[IDENT, PLUS, Token::Newline, IDENT, Token::Eof]);
    let kept = Parser::strip_insignificant_newlines(tokens).unwrap();
    assert_eq!(kinds(&kept), vec![IDENT, PLUS, IDENT, Token::Eof]);

    // `a +` newline `int ...`: a declaration head starts a new statement.
    let tokens = stream(&[IDENT, PLUS, Token::Newline, INT_KW, IDENT, Token::Eof]);
    let kept = Parser::strip_insignificant_newlines(tokens).unwrap();
    assert_eq!(kinds(&kept), vec![IDENT, PLUS, Token::Newline, INT_KW, IDENT, Token::Eof]);

    // A dangling type keyword keeps its newline.
    let tokens = stream(&[INT_KW, Token::Newline, IDENT, Token::Eof]);
    let kept = Parser::strip_insignificant_newlines(tokens).unwrap();
    assert_eq!(kinds(&kept), vec![INT_KW, Token::Newline, IDENT, Token::Eof]);
}

#[test]
fn a_closing_bracket_closes_inner_brackets_left_open() {
    // `{ f ( }`: the `}` closes the `(` left open inside it.
    let tokens = stream(&[Token::LBrace, IDENT, Token::LParen, Token::RBrace, Token::Newline, Token::Eof]);
    let (kept, errors) = Parser::strip_insignificant_newlines_with_errors(tokens);
    assert!(errors.is_empty(), "{errors:?}");
    assert_eq!(
        kinds(&kept),
        vec![Token::LBrace, IDENT, Token::LParen, Token::RBrace, Token::Newline, Token::Eof]
    );
}

#[test]
fn a_stray_closing_brace_at_top_level_is_kept() {
    let tokens = stream(&[Token::RBrace, Token::Newline, IDENT, Token::Eof]);
    let (kept, errors) = Parser::strip_insignificant_newlines_with_errors(tokens);
    assert!(errors.is_empty(), "{errors:?}");
    assert_eq!(kinds(&kept), vec![Token::RBrace, Token::Newline, IDENT, Token::Eof]);
}

#[test]
fn an_unmatched_closing_parenthesis_is_reported_and_skipped_to_the_next_line() {
    let tokens = stream(&[IDENT, Token::RParen, IDENT, Token::Newline, IDENT, Token::Eof]);
    let (kept, errors) = Parser::strip_insignificant_newlines_with_errors(tokens);
    assert_eq!(errors.len(), 1);
    assert_eq!(errors[0].message(), "unbalanced closing parenthesis");
    assert_eq!(errors[0].span(), Span::new(1, 2));
    assert_eq!(kinds(&kept), vec![IDENT, Token::Newline, IDENT, Token::Eof]);

    let error = Parser::strip_insignificant_newlines(stream(&[Token::RParen, Token::Eof])).unwrap_err();
    assert_eq!(error.message(), "unbalanced closing parenthesis");
}

#[test]
fn a_bracket_left_open_is_reported_at_end_of_file() {
    let tokens = stream(&[Token::LBracket, IDENT, Token::Eof]);
    let (kept, errors) = Parser::strip_insignificant_newlines_with_errors(tokens);
    assert_eq!(kept.len(), 3);
    assert_eq!(errors.len(), 1);
    assert_eq!(errors[0].message(), "unbalanced opening bracket");
    assert_eq!(errors[0].span(), Span::new(2, 3));
}

#[test]
fn skip_to_next_statement_stops_after_the_newline_or_at_eof() {
    let tokens = stream(&[IDENT, PLUS, Token::Newline, IDENT, Token::Eof]);
    let mut pos = 0;
    let resume = skip_to_next_statement(&tokens, &mut pos);
    assert_eq!(resume.map(|token| token.token), Some(Token::Newline));
    assert_eq!(pos, 3);
    let resume = skip_to_next_statement(&tokens, &mut pos);
    assert_eq!(resume, None);
    assert_eq!(pos, 4);
}

#[test]
fn parser_collects_and_drains_diagnostics() {
    let tokens = stream(&[IDENT, Token::Eof]);
    let mut parser = Parser::new(&tokens);
    parser.record(Diagnostic::parse("first".to_string(), Span::new(0, 1)));
    parser.record(Diagnostic::parse("second".to_string(), Span::new(1, 2)));
    let taken = parser.take_errors();
    assert_eq!(taken.len(), 2);
    assert_eq!(taken[0].message(), "first");
    assert_eq!(taken[1].message(), "second");
    assert!(parser.take_errors().is_empty());
}

#[test]
fn interpolation_chunks_resolve_the_four_escapes() {
    assert_eq!(unescape_interp_literal("a\\nb\\tc\\\\d\\\"e"), "a\nb\tc\\d\"e");
    // Any other escape keeps its backslash.
    assert_eq!(unescape_interp_literal("\\q\\"), "\\q\\");
    assert_eq!(unescape_interp_literal(""), "");
}

#[test]
fn the_cursor_advances_saturates_at_eof_and_skips_newlines() {
    let tokens = stream(&[Token::Newline, Token::Newline, IDENT, Token::Eof]);
    let mut parser = Parser::new(&tokens);
    assert!(parser.at(Token::Newline));
    parser.skip_newlines();
    assert_eq!(parser.peek().token, IDENT);
    assert_eq!(parser.advance().token, IDENT);
    assert!(parser.at_eof());
    assert_eq!(parser.advance().token, Token::Eof);
    assert!(parser.at_eof());
    assert_eq!(parser.eof_span(), Span::new(3, 4));
}

#[test]
fn statement_recovery_stops_at_the_line_end() {
    let tokens = vec![
        SpannedToken { token: IDENT, span: Span::new(0, 3) },
        SpannedToken { token: PLUS, span: Span::new(4, 5) },
        SpannedToken { token: Token::Newline, span: Span::new(5, 6) },
        SpannedToken { token: IDENT, span: Span::new(6, 9) },
        SpannedToken { token: Token::Eof, span: Span::new(9, 9) },
    ];
    let mut parser = Parser::new(&tokens);
    assert_eq!(parser.skip_to_statement_end(1), 5);
    assert!(parser.at(Token::Newline));

    let mut parser = Parser::new(&tokens);
    assert_eq!(parser.recover_to_next_statement(7), 7);
    assert_eq!(parser.peek().span, Span::new(6, 9));

    let mut parser = Parser::new(&tokens);
    parser.skip_to_next_statement();
    assert_eq!(parser.peek().token, IDENT);
    parser.skip_to_next_statement();
    assert!(parser.at_eof());
}
