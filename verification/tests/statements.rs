use lib::parser::{
    parse_block, parse_file, parse_function, parse_statement, parse_variable_declaration, Block,
    Call, Function, JaktError, ParsedFile, Span, Token, TokenContents, VarDecl,
};

fn toks(contents: Vec<TokenContents>) -> Vec<Token> {
    let mut out = Vec::new();
    for (i, c) in contents.into_iter().enumerate() {
        out.push(Token::new(c, Span::new(0, i, i + 1)));
    }
    out
}

fn name(s: &str) -> TokenContents {
    TokenContents::Name(s.to_string())
}

fn num(n: i64) -> TokenContents {
    TokenContents::Number(n)
}

fn err_text(err: Option<JaktError>) -> String {
    format!("{:?}", err.unwrap())
}

#[test]
fn declaration_with_colon() {
    let tokens = toks(vec![name("x"), TokenContents::Colon, name("i64"), TokenContents::Equal]);
    let mut index = 0;
    let (decl, err) = parse_variable_declaration(&tokens, &mut index);
    assert_eq!(format!("{:?}", decl), "VarDecl { name: \"x\", ty: I64, mutable: false }");
    assert!(err.is_none());
    assert_eq!(index, 3);
}

#[test]
fn declaration_without_colon_still_reads_the_type() {
    let tokens = toks(vec![name("x"), name("u8"), TokenContents::Equal]);
    let mut index = 0;
    let (decl, err) = parse_variable_declaration(&tokens, &mut index);
    assert_eq!(format!("{:?}", decl), "VarDecl { name: \"x\", ty: U8, mutable: false }");
    assert!(err.is_none());
    assert_eq!(index, 2);
}

#[test]
fn declaration_with_unknown_type_skips_it() {
    let tokens = toks(vec![name("x"), TokenContents::Colon, name("thing")]);
    let mut index = 0;
    let (decl, err) = parse_variable_declaration(&tokens, &mut index);
    assert_eq!(format!("{:?}", decl), "VarDecl { name: \"x\", ty: Void, mutable: false }");
    assert_eq!(err_text(err), "ParserError(\"unknown type\", Span { file_id: 0, start: 2, end: 3 })");
    assert_eq!(index, 3);
}

#[test]
fn declaration_needs_a_name() {
    let tokens = toks(vec![num(1)]);
    let mut index = 0;
    let (decl, err) = parse_variable_declaration(&tokens, &mut index);
    assert_eq!(format!("{:?}", decl), "VarDecl { name: \"\", ty: Void, mutable: false }");
    assert_eq!(err_text(err), "ParserError(\"expected name\", Span { file_id: 0, start: 0, end: 1 })");
    assert_eq!(index, 0);
}

#[test]
fn let_and_var_statements() {
    let tokens = toks(vec![
        name("var"),
        name("x"),
        TokenContents::Colon,
        name("i32"),
        TokenContents::Equal,
        num(1),
        TokenContents::Plus,
        num(2),
        TokenContents::Eol,
    ]);
    let mut index = 0;
    let (stmt, err) = parse_statement(&tokens, &mut index);
    assert_eq!(
        format!("{:?}", stmt),
        "VarDecl(VarDecl { name: \"x\", ty: I32, mutable: true }, BinaryOp(Int64(1), Operator(Add), Int64(2)))"
    );
    assert!(err.is_none());
    assert_eq!(index, 8);
    let tokens = toks(vec![name("let"), name("y"), TokenContents::Colon, name("String"), TokenContents::Equal, TokenContents::QuotedString("s".to_string())]);
    let mut index = 0;
    let (stmt, err) = parse_statement(&tokens, &mut index);
    assert_eq!(
        format!("{:?}", stmt),
        "VarDecl(VarDecl { name: \"y\", ty: String, mutable: false }, QuotedString(\"s\"))"
    );
    assert!(err.is_none());
    assert_eq!(index, 6);
}

#[test]
fn let_without_initializer_is_garbage() {
    let tokens = toks(vec![name("let"), name("y"), TokenContents::Colon, name("i8"), TokenContents::Semicolon]);
    let mut index = 0;
    let (stmt, err) = parse_statement(&tokens, &mut index);
    assert_eq!(format!("{:?}", stmt), "Garbage");
    assert_eq!(err_text(err), "ParserError(\"expected initializer\", Span { file_id: 0, start: 4, end: 5 })");
    assert_eq!(index, 4);
    let tokens = toks(vec![name("let"), name("y"), TokenContents::Colon, name("i8"), TokenContents::Equal]);
    let mut index = 0;
    let (stmt, err) = parse_statement(&tokens, &mut index);
    assert_eq!(format!("{:?}", stmt), "Garbage");
    assert_eq!(err_text(err), "ParserError(\"expected initializer\", Span { file_id: 0, start: 4, end: 5 })");
    assert_eq!(index, 5);
}

#[test]
fn return_if_while_defer() {
    let tokens = toks(vec![name("return"), name("x"), TokenContents::Eol]);
    let mut index = 0;
    let (stmt, err) = parse_statement(&tokens, &mut index);
    assert_eq!(format!("{:?}", stmt), "Return(Var(\"x\"))");
    assert!(err.is_none());
    assert_eq!(index, 2);

    let tokens = toks(vec![
        name("if"),
        name("x"),
        TokenContents::LessThan,
        num(3),
        TokenContents::LCurly,
        name("f"),
        TokenContents::LParen,
        TokenContents::RParen,
        TokenContents::RCurly,
    ]);
    let mut index = 0;
    let (stmt, err) = parse_statement(&tokens, &mut index);
    assert_eq!(
        format!("{:?}", stmt),
        "If(BinaryOp(Var(\"x\"), Operator(LessThan), Int64(3)), Block { stmts: [Expression(Call(Call { name: \"f\", args: [] }))] })"
    );
    assert!(err.is_none());
    assert_eq!(index, 9);

    let tokens = toks(vec![name("while"), name("b"), TokenContents::LCurly, TokenContents::RCurly]);
    let mut index = 0;
    let (stmt, err) = parse_statement(&tokens, &mut index);
    assert_eq!(format!("{:?}", stmt), "While(Var(\"b\"), Block { stmts: [] })");
    assert!(err.is_none());
    assert_eq!(index, 4);

    let tokens = toks(vec![name("defer"), TokenContents::LCurly, num(1), TokenContents::RCurly]);
    let mut index = 0;
    let (stmt, err) = parse_statement(&tokens, &mut index);
    assert_eq!(format!("{:?}", stmt), "Defer(Block { stmts: [Expression(Int64(1))] })");
    assert!(err.is_none());
    assert_eq!(index, 4);
}

#[test]
fn block_skips_separators() {
    let tokens = toks(vec![
        TokenContents::LCurly,
        TokenContents::Eol,
        num(1),
        TokenContents::Semicolon,
        name("x"),
        TokenContents::Eol,
        TokenContents::RCurly,
        TokenContents::Eol,
    ]);
    let mut index = 0;
    let (block, err) = parse_block(&tokens, &mut index);
    assert_eq!(format!("{:?}", block), "Block { stmts: [Expression(Int64(1)), Expression(Var(\"x\"))] }");
    assert!(err.is_none());
    assert_eq!(index, 7);
}

#[test]
fn unclosed_block_is_empty_with_an_error() {
    let tokens = toks(vec![TokenContents::LCurly, num(1), TokenContents::Semicolon]);
    let mut index = 0;
    let (block, err) = parse_block(&tokens, &mut index);
    assert_eq!(block.stmts.len(), 0);
    assert_eq!(err_text(err), "ParserError(\"expected complete block\", Span { file_id: 0, start: 2, end: 3 })");
    assert_eq!(index, 3);
}

#[test]
fn first_error_in_a_block_stands() {
    let tokens = toks(vec![
        TokenContents::LCurly,
        num(1),
        TokenContents::Plus,
        TokenContents::Semicolon,
        name("let"),
        name("y"),
        TokenContents::Colon,
        name("i8"),
        TokenContents::Semicolon,
        TokenContents::RCurly,
    ]);
    let mut index = 0;
    let (block, err) = parse_block(&tokens, &mut index);
    assert_eq!(
        format!("{:?}", block),
        "Block { stmts: [Expression(BinaryOp(Int64(1), Operator(Add), Garbage)), Garbage] }"
    );
    assert_eq!(err_text(err), "ParserError(\"unsupported expression\", Span { file_id: 0, start: 3, end: 4 })");
    assert_eq!(index, 10);
}

#[test]
fn function_with_params_and_return_type() {
    let tokens = toks(vec![
        name("fun"),
        name("add"),
        TokenContents::LParen,
        name("a"),
        TokenContents::Colon,
        name("i64"),
        TokenContents::Comma,
        name("b"),
        TokenContents::Colon,
        name("i64"),
        TokenContents::RParen,
        TokenContents::Minus,
        TokenContents::GreaterThan,
        name("i64"),
        TokenContents::LCurly,
        name("return"),
        name("a"),
        TokenContents::Plus,
        name("b"),
        TokenContents::RCurly,
    ]);
    let mut index = 0;
    let (fun, err) = parse_function(&tokens, &mut index);
    assert_eq!(
        format!("{:?}", fun),
        "Function { name: \"add\", params: [(\"a\", I64), (\"b\", I64)], block: Block { stmts: [Return(BinaryOp(Var(\"a\"), Operator(Add), Var(\"b\")))] }, return_type: I64 }"
    );
    assert!(err.is_none());
    assert_eq!(index, 20);
}

#[test]
fn function_without_return_type() {
    let tokens = toks(vec![
        name("fun"),
        name("main"),
        TokenContents::LParen,
        TokenContents::RParen,
        TokenContents::LCurly,
        TokenContents::RCurly,
    ]);
    let mut index = 0;
    let (fun, err) = parse_function(&tokens, &mut index);
    assert_eq!(
        format!("{:?}", fun),
        "Function { name: \"main\", params: [], block: Block { stmts: [] }, return_type: Void }"
    );
    assert!(err.is_none());
    assert_eq!(index, 6);
}

#[test]
fn function_errors() {
    let tokens = toks(vec![name("fun"), num(3)]);
    let mut index = 0;
    let (fun, err) = parse_function(&tokens, &mut index);
    assert_eq!(fun.name, "");
    assert_eq!(err_text(err), "ParserError(\"expected function name\", Span { file_id: 0, start: 1, end: 2 })");
    assert_eq!(index, 1);

    let tokens = toks(vec![
        name("fun"),
        name("f"),
        TokenContents::RParen,
        TokenContents::Minus,
        TokenContents::Plus,
        TokenContents::RCurly,
    ]);
    let mut index = 0;
    let (fun, err) = parse_function(&tokens, &mut index);
    assert_eq!(fun.name, "f");
    assert_eq!(err_text(err), "ParserError(\"expected '('\", Span { file_id: 0, start: 2, end: 3 })");
    assert_eq!(index, 6);
}

#[test]
fn file_of_functions() {
    let tokens = toks(vec![
        TokenContents::Eol,
        name("fun"),
        name("a"),
        TokenContents::LParen,
        TokenContents::RParen,
        TokenContents::LCurly,
        TokenContents::RCurly,
        TokenContents::Eol,
        name("fun"),
        name("b"),
        TokenContents::LParen,
        TokenContents::RParen,
        TokenContents::LCurly,
        num(1),
        TokenContents::RCurly,
        TokenContents::Eof,
        name("ignored"),
    ]);
    let (file, err) = parse_file(&tokens);
    assert_eq!(file.funs.len(), 2);
    assert_eq!(file.funs[0].name, "a");
    assert_eq!(file.funs[1].name, "b");
    assert_eq!(format!("{:?}", file.funs[1].block), "Block { stmts: [Expression(Int64(1))] }");
    assert!(err.is_none());
}

#[test]
fn empty_file() {
    let tokens: Vec<Token> = Vec::new();
    let (file, err) = parse_file(&tokens);
    assert_eq!(file.funs.len(), 0);
    assert!(err.is_none());
}

#[test]
fn constructors_start_empty() {
    let call = Call::new();
    assert_eq!(call.name, "");
    assert!(call.args.is_empty());
    assert_eq!(format!("{:?}", VarDecl::new()), "VarDecl { name: \"\", ty: Void, mutable: false }");
    assert_eq!(format!("{:?}", Function::new()), "Function { name: \"\", params: [], block: Block { stmts: [] }, return_type: Void }");
    assert!(Block::new().stmts.is_empty());
    assert!(ParsedFile::new().funs.is_empty());
    let span = Span::new(2, 5, 9);
    assert_eq!((span.file_id, span.start, span.end), (2, 5, 9));
    let t = Token::unknown(span);
    assert!(matches!(t.contents, TokenContents::Garbage));
    assert_eq!(t.span.start, 5);
}

#[test]
fn file_keeps_its_first_error() {
    let tokens = toks(vec![
        name("fun"),
        name("a"),
        TokenContents::LParen,
        TokenContents::RParen,
        TokenContents::LCurly,
        name("let"),
        name("x"),
        TokenContents::Semicolon,
        TokenContents::RCurly,
        TokenContents::Eol,
        name("fun"),
        TokenContents::Eol,
    ]);
    let (file, err) = parse_file(&tokens);
    assert_eq!(file.funs.len(), 2);
    assert_eq!(
        format!("{:?}", file.funs[0].block),
        "Block { stmts: [Garbage] }"
    );
    assert_eq!(file.funs[1].name, "");
    assert_eq!(err_text(err), "ParserError(\"expected initializer\", Span { file_id: 0, start: 8, end: 9 })");
}
