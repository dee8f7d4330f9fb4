use lib::checks::{
    block_end, call_end, expression_end, file_is_parsable, function_end, operand_end,
    statement_end, var_decl_end,
};
use lib::parser::{parse_block, parse_expression, Span, Token, TokenContents};

fn toks(contents: Vec<TokenContents>) -> Vec<Token> {
    let mut out = Vec::new();
    for (i, c) in contents.into_iter().enumerate() {
        out.push(Token::new(c, Span::new(0, i, i + 1)));
    }
    out
}

fn name(s: &str) -> TokenContents {
    TokenContents::Name(s.to_string())
}

#[test]
fn file_checker_accepts_what_parses() {
    let tokens = toks(vec![
        name("fun"),
        name("main"),
        TokenContents::LParen,
        TokenContents::RParen,
        TokenContents::LCurly,
        TokenContents::RCurly,
        TokenContents::Eol,
        TokenContents::Eof,
    ]);
    assert!(file_is_parsable(&tokens));
    assert!(file_is_parsable(&[]));
}

#[test]
fn file_checker_rejects_a_stray_token() {
    let tokens = toks(vec![name("main")]);
    assert!(!file_is_parsable(&tokens));
    let tokens = toks(vec![TokenContents::Semicolon]);
    assert!(!file_is_parsable(&tokens));
}

#[test]
fn file_checker_rejects_a_function_that_runs_out() {
    let tokens = toks(vec![name("fun"), name("main"), TokenContents::LParen]);
    assert!(!file_is_parsable(&tokens));
    let tokens = toks(vec![name("fun")]);
    assert!(!file_is_parsable(&tokens));
}

#[test]
fn expression_checker_agrees_with_the_parser() {
    let tokens = toks(vec![
        TokenContents::Number(1),
        TokenContents::Plus,
        TokenContents::Number(2),
        TokenContents::Semicolon,
    ]);
    assert_eq!(expression_end(&tokens, 0), Some(3));
    let mut index = 0;
    let _ = parse_expression(&tokens, &mut index);
    assert_eq!(index, 3);
    assert_eq!(operand_end(&tokens, 1), Some(1));
    assert_eq!(expression_end(&tokens, 4), None);
}

#[test]
fn call_whose_argument_does_not_move_never_ends() {
    let tokens = toks(vec![name("f"), TokenContents::LParen, TokenContents::Semicolon]);
    assert_eq!(call_end(&tokens, 0), None);
    assert_eq!(expression_end(&tokens, 0), None);
    let tokens = toks(vec![name("f"), TokenContents::LParen, TokenContents::RParen]);
    assert_eq!(call_end(&tokens, 0), Some(3));
}

#[test]
fn paren_at_the_end_has_no_end() {
    let tokens = toks(vec![TokenContents::LParen]);
    assert_eq!(operand_end(&tokens, 0), None);
    let tokens = toks(vec![TokenContents::LParen, TokenContents::Number(1)]);
    assert_eq!(operand_end(&tokens, 0), None);
}

#[test]
fn statement_and_declaration_checkers() {
    let tokens = toks(vec![name("let"), name("x"), TokenContents::Colon, name("i32")]);
    assert_eq!(statement_end(&tokens, 0), None);
    assert_eq!(var_decl_end(&tokens, 1), Some(4));
    assert_eq!(var_decl_end(&tokens, 3), None);
    let tokens = toks(vec![name("return"), TokenContents::Number(1)]);
    assert_eq!(statement_end(&tokens, 0), Some(2));
}

#[test]
fn block_and_function_checkers() {
    let tokens = toks(vec![TokenContents::LCurly, TokenContents::Number(1)]);
    assert_eq!(block_end(&tokens, 0), Some(2));
    let tokens = toks(vec![TokenContents::LCurly, TokenContents::Colon, TokenContents::RCurly]);
    assert_eq!(block_end(&tokens, 0), None);
    let tokens = toks(vec![
        name("fun"),
        name("f"),
        TokenContents::LParen,
        name("a"),
        TokenContents::Colon,
        name("i8"),
        TokenContents::RParen,
        TokenContents::Minus,
        TokenContents::GreaterThan,
        name("u8"),
        TokenContents::LCurly,
        TokenContents::RCurly,
    ]);
    assert_eq!(function_end(&tokens, 0), Some(12));
    let tokens = toks(vec![name("fun"), name("f"), TokenContents::LParen, TokenContents::Number(1)]);
    assert_eq!(function_end(&tokens, 0), None);
}

#[test]
fn separators_between_statements_leave_a_block_unchanged() {
    let plain = toks(vec![
        TokenContents::LCurly,
        TokenContents::Number(1),
        name("x"),
        TokenContents::RCurly,
    ]);
    let spaced = toks(vec![
        TokenContents::LCurly,
        TokenContents::Eol,
        TokenContents::Number(1),
        TokenContents::Semicolon,
        TokenContents::Eol,
        name("x"),
        TokenContents::Semicolon,
        TokenContents::RCurly,
    ]);
    let mut i = 0;
    let (b1, e1) = parse_block(&plain, &mut i);
    let mut j = 0;
    let (b2, e2) = parse_block(&spaced, &mut j);
    assert_eq!(format!("{:?}", b1), format!("{:?}", b2));
    assert!(e1.is_none() && e2.is_none());
    assert_eq!((i, j), (4, 8));
}

#[test]
fn several_separators_at_boundaries_leave_a_block_unchanged() {
    let plain = toks(vec![
        TokenContents::LCurly,
        name("return"),
        name("x"),
        TokenContents::RCurly,
        TokenContents::Eol,
    ]);
    let spaced = toks(vec![
        TokenContents::LCurly,
        TokenContents::Eol,
        TokenContents::Semicolon,
        name("return"),
        name("x"),
        TokenContents::Eol,
        TokenContents::Eol,
        TokenContents::RCurly,
        TokenContents::Eol,
    ]);
    let mut i = 0;
    let (b1, e1) = parse_block(&plain, &mut i);
    let mut j = 0;
    let (b2, e2) = parse_block(&spaced, &mut j);
    assert_eq!(format!("{:?}", b1), "Block { stmts: [Return(Var(\"x\"))] }");
    assert_eq!(format!("{:?}", b1), format!("{:?}", b2));
    assert!(e1.is_none() && e2.is_none());
    assert_eq!(j, i + 4);
}

#[test]
fn expression_without_parens_always_ends() {
    let tokens = toks(vec![
        name("a"),
        TokenContents::Plus,
        TokenContents::Semicolon,
        TokenContents::Asterisk,
    ]);
    for k in 0..tokens.len() {
        assert!(expression_end(&tokens[k..], 0).is_some());
    }
}
