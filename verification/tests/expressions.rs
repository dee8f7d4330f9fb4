use lib::parser::{
    parse_call, parse_expression, parse_operand, parse_operator, parse_typename, Expression,
    Operator, Span, Token, TokenContents,
};

fn toks(contents: Vec<TokenContents>) -> Vec<Token> {
    let mut out = Vec::new();
    for (i, c) in contents.into_iter().enumerate() {
        out.push(Token::new(c, Span::new(0, i, i + 1)));
    }
    out
}

fn name(s: &str) -> TokenContents {
    TokenContents::Name(s.to_string())
}

fn num(n: i64) -> TokenContents {
    TokenContents::Number(n)
}

fn expr(contents: Vec<TokenContents>) -> (String, Option<String>, usize) {
    let tokens = toks(contents);
    let mut index = 0;
    let (e, err) = parse_expression(&tokens, &mut index);
    (format!("{:?}", e), err.map(|e| format!("{:?}", e)), index)
}

#[test]
fn multiplication_binds_tighter_than_addition() {
    let (e, err, index) = expr(vec![num(1), TokenContents::Plus, num(2), TokenContents::Asterisk, num(3)]);
    assert_eq!(e, "BinaryOp(Int64(1), Operator(Add), BinaryOp(Int64(2), Operator(Multiply), Int64(3)))");
    assert_eq!(err, None);
    assert_eq!(index, 5);
}

#[test]
fn multiplication_first_groups_first() {
    let (e, err, _) = expr(vec![num(1), TokenContents::Asterisk, num(2), TokenContents::Plus, num(3)]);
    assert_eq!(e, "BinaryOp(BinaryOp(Int64(1), Operator(Multiply), Int64(2)), Operator(Add), Int64(3))");
    assert_eq!(err, None);
}

#[test]
fn equal_precedence_groups_left() {
    let (e, _, _) = expr(vec![num(1), TokenContents::Minus, num(2), TokenContents::Minus, num(3)]);
    assert_eq!(e, "BinaryOp(BinaryOp(Int64(1), Operator(Subtract), Int64(2)), Operator(Subtract), Int64(3))");
    let (e, _, _) = expr(vec![num(8), TokenContents::ForwardSlash, num(4), TokenContents::Asterisk, num(2)]);
    assert_eq!(e, "BinaryOp(BinaryOp(Int64(8), Operator(Divide), Int64(4)), Operator(Multiply), Int64(2))");
}

#[test]
fn assignment_binds_loosest() {
    let (e, err, index) = expr(vec![
        name("x"),
        TokenContents::Equal,
        num(1),
        TokenContents::Plus,
        num(2),
        TokenContents::LessThan,
        num(3),
    ]);
    assert_eq!(
        e,
        "BinaryOp(Var(\"x\"), Operator(Assign), BinaryOp(BinaryOp(Int64(1), Operator(Add), Int64(2)), Operator(LessThan), Int64(3)))"
    );
    assert_eq!(err, None);
    assert_eq!(index, 7);
}

#[test]
fn mixed_precedences_build_the_right_tree() {
    // a * b + c * d == e
    let (e, _, _) = expr(vec![
        name("a"),
        TokenContents::Asterisk,
        name("b"),
        TokenContents::Plus,
        name("c"),
        TokenContents::Asterisk,
        name("d"),
        TokenContents::DoubleEqual,
        name("e"),
    ]);
    assert_eq!(
        e,
        "BinaryOp(BinaryOp(BinaryOp(Var(\"a\"), Operator(Multiply), Var(\"b\")), Operator(Add), BinaryOp(Var(\"c\"), Operator(Multiply), Var(\"d\"))), Operator(Equal), Var(\"e\"))"
    );
}

#[test]
fn parentheses_group_first() {
    let (e, err, index) = expr(vec![
        TokenContents::LParen,
        num(1),
        TokenContents::Plus,
        num(2),
        TokenContents::RParen,
        TokenContents::Asterisk,
        num(3),
    ]);
    assert_eq!(e, "BinaryOp(BinaryOp(Int64(1), Operator(Add), Int64(2)), Operator(Multiply), Int64(3))");
    assert_eq!(err, None);
    assert_eq!(index, 7);
}

#[test]
fn missing_close_paren_is_reported() {
    let (e, err, index) = expr(vec![TokenContents::LParen, num(1), TokenContents::Semicolon]);
    assert_eq!(e, "Int64(1)");
    assert_eq!(err.unwrap(), "ParserError(\"expected ')'\", Span { file_id: 0, start: 2, end: 3 })");
    assert_eq!(index, 2);
}

#[test]
fn operator_at_the_end_is_incomplete() {
    let (e, err, index) = expr(vec![num(1), TokenContents::Plus]);
    assert_eq!(e, "BinaryOp(Int64(1), Garbage, Garbage)");
    assert_eq!(err.unwrap(), "ParserError(\"incomplete math expression\", Span { file_id: 0, start: 1, end: 2 })");
    assert_eq!(index, 2);
    let (e, _, _) = expr(vec![num(1), TokenContents::Plus, num(2), TokenContents::Asterisk]);
    assert_eq!(e, "BinaryOp(Int64(1), Operator(Add), BinaryOp(Int64(2), Garbage, Garbage))");
}

#[test]
fn expression_stops_before_a_non_operator() {
    let (e, err, index) = expr(vec![num(1), TokenContents::Plus, num(2), TokenContents::Semicolon, num(3)]);
    assert_eq!(e, "BinaryOp(Int64(1), Operator(Add), Int64(2))");
    assert_eq!(err, None);
    assert_eq!(index, 3);
}

#[test]
fn garbage_operand_is_reported_without_moving() {
    let (e, err, index) = expr(vec![TokenContents::Semicolon]);
    assert_eq!(e, "Garbage");
    assert_eq!(err.unwrap(), "ParserError(\"unsupported expression\", Span { file_id: 0, start: 0, end: 1 })");
    assert_eq!(index, 0);
}

#[test]
fn operands_of_each_kind() {
    let tokens = toks(vec![
        name("true"),
        name("false"),
        name("x"),
        num(42),
        TokenContents::QuotedString("hi".to_string()),
    ]);
    let mut index = 0;
    let expected = ["Boolean(true)", "Boolean(false)", "Var(\"x\")", "Int64(42)", "QuotedString(\"hi\")"];
    for (i, want) in expected.iter().enumerate() {
        let (e, err) = parse_operand(&tokens, &mut index);
        assert_eq!(format!("{:?}", e), *want);
        assert!(err.is_none());
        assert_eq!(index, i + 1);
    }
}

#[test]
fn operand_followed_by_paren_is_a_call() {
    let tokens = toks(vec![name("f"), TokenContents::LParen, num(1), TokenContents::RParen, TokenContents::Eol]);
    let mut index = 0;
    let (e, err) = parse_operand(&tokens, &mut index);
    assert_eq!(format!("{:?}", e), "Call(Call { name: \"f\", args: [(\"\", Int64(1))] })");
    assert!(err.is_none());
    assert_eq!(index, 4);
}

#[test]
fn call_with_arguments() {
    let tokens = toks(vec![
        name("print"),
        TokenContents::LParen,
        num(1),
        TokenContents::Comma,
        num(2),
        TokenContents::Plus,
        num(3),
        TokenContents::RParen,
        TokenContents::Semicolon,
    ]);
    let mut index = 0;
    let (call, err) = parse_call(&tokens, &mut index);
    assert_eq!(call.name, "print");
    assert_eq!(call.args.len(), 2);
    assert_eq!(format!("{:?}", call.args[1]), "(\"\", BinaryOp(Int64(2), Operator(Add), Int64(3)))");
    assert!(err.is_none());
    assert_eq!(index, 8);
}

#[test]
fn call_ending_the_tokens_is_reported_incomplete() {
    let tokens = toks(vec![name("f"), TokenContents::LParen, TokenContents::RParen]);
    let mut index = 0;
    let (call, err) = parse_call(&tokens, &mut index);
    assert_eq!(call.args.len(), 0);
    assert_eq!(format!("{:?}", err.unwrap()), "ParserError(\"incomplete call\", Span { file_id: 0, start: 2, end: 3 })");
    assert_eq!(index, 3);
    let tokens = toks(vec![name("f"), TokenContents::LParen, num(1)]);
    let mut index = 0;
    let (call, err) = parse_call(&tokens, &mut index);
    assert_eq!(call.args.len(), 1);
    assert_eq!(format!("{:?}", err.unwrap()), "ParserError(\"incomplete call\", Span { file_id: 0, start: 2, end: 3 })");
}

#[test]
fn call_without_paren_is_reported() {
    let tokens = toks(vec![name("f"), num(1)]);
    let mut index = 0;
    let (call, err) = parse_call(&tokens, &mut index);
    assert_eq!(call.name, "f");
    assert_eq!(format!("{:?}", err.unwrap()), "ParserError(\"expected '('\", Span { file_id: 0, start: 1, end: 2 })");
    assert_eq!(index, 1);
    let tokens = toks(vec![num(1)]);
    let mut index = 0;
    let (call, err) = parse_call(&tokens, &mut index);
    assert_eq!(call.name, "");
    assert_eq!(format!("{:?}", err.unwrap()), "ParserError(\"expected function call\", Span { file_id: 0, start: 0, end: 1 })");
    assert_eq!(index, 0);
}

#[test]
fn every_operator_token() {
    let cases = vec![
        (TokenContents::Plus, "Operator(Add)", 90),
        (TokenContents::Minus, "Operator(Subtract)", 90),
        (TokenContents::Asterisk, "Operator(Multiply)", 100),
        (TokenContents::ForwardSlash, "Operator(Divide)", 100),
        (TokenContents::Equal, "Operator(Assign)", 50),
        (TokenContents::DoubleEqual, "Operator(Equal)", 80),
        (TokenContents::NotEqual, "Operator(NotEqual)", 80),
        (TokenContents::LessThan, "Operator(LessThan)", 80),
        (TokenContents::LessThanOrEqual, "Operator(LessThanOrEqual)", 80),
        (TokenContents::GreaterThan, "Operator(GreaterThan)", 80),
        (TokenContents::GreaterThanOrEqual, "Operator(GreaterThanOrEqual)", 80),
    ];
    for (c, want, prec) in cases {
        let tokens = toks(vec![c]);
        let mut index = 0;
        let (op, err) = parse_operator(&tokens, &mut index);
        assert_eq!(format!("{:?}", op), want);
        assert_eq!(op.precedence(), prec);
        assert!(err.is_none());
        assert_eq!(index, 1);
    }
}

#[test]
fn non_operator_token_is_reported_without_moving() {
    let tokens = toks(vec![TokenContents::Colon]);
    let mut index = 0;
    let (op, err) = parse_operator(&tokens, &mut index);
    assert_eq!(format!("{:?}", op), "Garbage");
    assert_eq!(op.precedence(), 0);
    assert_eq!(format!("{:?}", err.unwrap()), "ParserError(\"unsupported operator\", Span { file_id: 0, start: 0, end: 1 })");
    assert_eq!(index, 0);
}

#[test]
fn non_operators_have_no_precedence() {
    assert_eq!(Expression::Int64(3).precedence(), 0);
    assert_eq!(Expression::Garbage.precedence(), 0);
    assert_eq!(Expression::Operator(Operator::Assign).precedence(), 50);
}

#[test]
fn type_names() {
    let names = ["i8", "i16", "i32", "i64", "u8", "u16", "u32", "u64", "f32", "f64", "String"];
    let wants = ["I8", "I16", "I32", "I64", "U8", "U16", "U32", "U64", "F32", "F64", "String"];
    for (n, want) in names.iter().zip(wants.iter()) {
        let tokens = toks(vec![name(n)]);
        let mut index = 0;
        let (ty, err) = parse_typename(&tokens, &mut index);
        assert_eq!(format!("{:?}", ty), *want);
        assert!(err.is_none());
        assert_eq!(index, 0);
    }
}

#[test]
fn unknown_type_names() {
    let tokens = toks(vec![name("bool"), num(1)]);
    let mut index = 0;
    let (ty, err) = parse_typename(&tokens, &mut index);
    assert_eq!(format!("{:?}", ty), "Void");
    assert_eq!(format!("{:?}", err.unwrap()), "ParserError(\"unknown type\", Span { file_id: 0, start: 0, end: 1 })");
    assert_eq!(index, 0);
    let mut index = 1;
    let (ty, err) = parse_typename(&tokens, &mut index);
    assert_eq!(format!("{:?}", ty), "Void");
    assert_eq!(format!("{:?}", err.unwrap()), "ParserError(\"expected function call\", Span { file_id: 0, start: 1, end: 2 })");
    assert_eq!(index, 1);
}

#[test]
fn call_keeps_its_first_error() {
    let tokens = toks(vec![
        name("f"),
        TokenContents::LParen,
        num(1),
        TokenContents::Plus,
        TokenContents::Comma,
        num(2),
        TokenContents::Asterisk,
        TokenContents::RParen,
        TokenContents::Semicolon,
    ]);
    let mut index = 0;
    let (call, err) = parse_call(&tokens, &mut index);
    assert_eq!(
        format!("{:?}", call.args),
        "[(\"\", BinaryOp(Int64(1), Operator(Add), Garbage)), (\"\", BinaryOp(Int64(2), Operator(Multiply), Garbage))]"
    );
    assert_eq!(
        format!("{:?}", err.unwrap()),
        "ParserError(\"unsupported expression\", Span { file_id: 0, start: 4, end: 5 })"
    );
    assert_eq!(index, 8);
}
