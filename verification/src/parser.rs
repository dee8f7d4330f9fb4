use vstd::prelude::*;
use crate::model::{
    view_error, view_functions, view_params, SpecCall, SpecExpression, SpecFunction, SpecStatement,
};
use crate::precedence::{
    collapse, expression_precedence, lemma_shunt_odd, lemma_stack_tree, reduce_top, reduce_while,
    shunt,
};
use crate::semantics::{
    empty_function, empty_var_decl, first_error, lemma_block_index, lemma_call_index,
    lemma_expression_index, lemma_function_index, lemma_operand_index, lemma_statement_index,
    lemma_var_decl_index, operator_of, parser_error, spec_block, spec_block_rest, spec_call,
    spec_call_args, spec_expr_scan, spec_expression, spec_file, spec_file_rest, spec_function,
    spec_operand, spec_operator, spec_params, spec_statement, spec_typename, spec_var_decl,
    ExprScan, Parsed,
};

verus! {

/// Identifies the source file that a span points into.
pub type FileId = usize;

/// A call of a named function with its arguments.
#[derive(Debug)]
pub struct Call {
    pub name: String,
    pub args: Vec<(String, Expression)>,
}

/// The types a declaration can name.
#[derive(Debug)]
pub enum Type {
    String,
    I8,
    I16,
    I32,
    I64,
    U8,
    U16,
    U32,
    U64,
    F32,
    F64,
    Void,
}

/// A declared variable or parameter.
#[derive(Debug)]
pub struct VarDecl {
    pub name: String,
    pub ty: Type,
    pub mutable: bool,
}

/// A region of a source file.
#[derive(Debug, Clone, Copy)]
pub struct Span {
    pub file_id: FileId,
    pub start: usize,
    pub end: usize,
}

/// What a token holds.
#[derive(Debug)]
pub enum TokenContents {
    QuotedString(String),
    Number(i64),
    Name(String),
    Semicolon,
    Colon,
    LParen,
    RParen,
    LCurly,
    RCurly,
    Plus,
    Minus,
    Equal,
    NotEqual,
    DoubleEqual,
    GreaterThan,
    GreaterThanOrEqual,
    LessThan,
    LessThanOrEqual,
    Asterisk,
    ForwardSlash,
    ExclamationPoint,
    Comma,
    Eol,
    Eof,
    Garbage,
}

/// A token with the region of source it came from.
#[derive(Debug)]
pub struct Token {
    pub contents: TokenContents,
    pub span: Span,
}

/// The functions of one source file.
#[derive(Debug)]
pub struct ParsedFile {
    pub funs: Vec<Function>,
}

/// A function definition.
#[derive(Debug)]
pub struct Function {
    pub name: String,
    pub params: Vec<(String, Type)>,
    pub block: Block,
    pub return_type: Type,
}

/// A statement of a block.
#[derive(Debug)]
pub enum Statement {
    Expression(Expression),
    Defer(Block),
    VarDecl(VarDecl, Expression),
    If(Expression, Block),
    While(Expression, Block),
    Return(Expression),
    Garbage,
}

/// A sequence of statements between braces.
#[derive(Debug)]
pub struct Block {
    pub stmts: Vec<Statement>,
}

/// An expression. `Operator` appears only while an expression is being built.
#[derive(Debug)]
pub enum Expression {
    Boolean(bool),
    Call(Call),
    Int64(i64),
    QuotedString(String),
    BinaryOp(Box<Expression>, Box<Expression>, Box<Expression>),
    Var(String),
    Operator(Operator),
    Garbage,
}

/// The binary operators.
#[derive(Debug)]
pub enum Operator {
    Add,
    Subtract,
    Multiply,
    Divide,
    Equal,
    NotEqual,
    LessThan,
    GreaterThan,
    LessThanOrEqual,
    GreaterThanOrEqual,
    Assign,
}

/// The error a parse reports: a message and the span it points at.
#[derive(Debug)]
pub enum JaktError {
    ParserError(String, Span),
}


/// The outcome `p` of a parse step is `Some`, and the exec results agree with it.
pub open spec fn agrees<V>(p: Option<Parsed<V>>, value: V, index: usize, error: Option<JaktError>) -> bool {
    &&& p is Some
    &&& p.unwrap().value == value
    &&& p.unwrap().index == index as int
    &&& p.unwrap().error == view_error(error)
}

impl Call {
    pub fn new() -> (call: Self)
        ensures
            call@ == (SpecCall { name: Seq::empty(), args: Seq::empty() }),
    {
        let call = Self { name: String::new(), args: Vec::new() };
        assert(call.args@ =~= Seq::empty());
        call
    }
}

impl VarDecl {
    pub fn new() -> (decl: Self)
        ensures
            decl@ == empty_var_decl(),
    {
        Self { name: String::new(), ty: Type::Void, mutable: false }
    }
}

impl Span {
    pub fn new(file_id: FileId, start: usize, end: usize) -> (span: Self)
        ensures
            span.file_id == file_id,
            span.start == start,
            span.end == end,
    {
        Self { file_id, start, end }
    }
}

impl Token {
    pub fn new(contents: TokenContents, span: Span) -> (token: Self)
        ensures
            token.contents == contents,
            token.span == span,
    {
        Self { contents, span }
    }

    /// A token that stands for unreadable input.
    pub fn unknown(span: Span) -> (token: Self)
        ensures
            token.contents is Garbage,
            token.span == span,
    {
        Self { contents: TokenContents::Garbage, span }
    }
}

impl Function {
    pub fn new() -> (fun: Self)
        ensures
            fun@ == empty_function(),
    {
        let fun = Function {
            name: String::new(),
            params: Vec::new(),
            block: Block::new(),
            return_type: Type::Void,
        };
        assert(fun.params@.map_values(|p: (String, Type)| (p.0@, p.1)) =~= Seq::empty());
        fun
    }
}

impl Block {
    pub fn new() -> (block: Self)
        ensures
            block@ == Seq::<SpecStatement>::empty(),
    {
        let block = Self { stmts: Vec::new() };
        assert(block.stmts@ =~= Seq::empty());
        block
    }
}

impl ParsedFile {
    pub fn new() -> (file: Self)
        ensures
            file@ == Seq::<SpecFunction>::empty(),
    {
        let file = Self { funs: Vec::new() };
        assert(file@ =~= Seq::empty());
        file
    }
}

impl Expression {
    /// How tightly an operator binds: `*` `/` 100, `+` `-` 90, comparisons 80,
    /// `=` 50, and 0 for anything that is not an operator.
    pub fn precedence(&self) -> (prec: u64)
        ensures
            prec == expression_precedence(self@),
    {
        match self {
            Expression::Operator(Operator::Multiply) | Expression::Operator(Operator::Divide) => {
                100
            },
            Expression::Operator(Operator::Add) | Expression::Operator(Operator::Subtract) => 90,
            Expression::Operator(Operator::LessThan)
            | Expression::Operator(Operator::LessThanOrEqual)
            | Expression::Operator(Operator::GreaterThan)
            | Expression::Operator(Operator::GreaterThanOrEqual)
            | Expression::Operator(Operator::Equal)
            | Expression::Operator(Operator::NotEqual) => 80,
            Expression::Operator(Operator::Assign) => 50,
            _ => 0,
        }
    }
}

/// Whether a name is the given word.
pub(crate) fn word_is(name: &String, word: &str) -> (b: bool)
    ensures
        b == (name@ == word@),
{
    let w: String = word.to_owned();
    name.eq(&w)
}

/// A parser error with the given message at the given span.
fn error_at(msg: &str, span: Span) -> (e: Option<JaktError>)
    ensures
        view_error(e) == parser_error(msg@, span),
{
    Some(JaktError::ParserError(msg.to_owned(), span))
}

/// The earlier error if there is one, else the later.
fn first(earlier: Option<JaktError>, later: Option<JaktError>) -> (e: Option<JaktError>)
    ensures
        view_error(e) == first_error(view_error(earlier), view_error(later)),
{
    match earlier {
        Some(e) => Some(e),
        None => later,
    }
}

/// Reads the type name at `*index` without moving past it.
pub fn parse_typename(tokens: &[Token], index: &mut usize) -> (result: (Type, Option<JaktError>))
    requires
        *old(index) < tokens@.len(),
    ensures
        agrees(spec_typename(tokens@, *old(index) as int), result.0, *final(index), result.1),
        *final(index) == *old(index),
{
    match &tokens[*index] {
        Token { contents: TokenContents::Name(name), span } => {
            if word_is(name, "i8") {
                (Type::I8, None)
            } else if word_is(name, "i16") {
                (Type::I16, None)
            } else if word_is(name, "i32") {
                (Type::I32, None)
            } else if word_is(name, "i64") {
                (Type::I64, None)
            } else if word_is(name, "u8") {
                (Type::U8, None)
            } else if word_is(name, "u16") {
                (Type::U16, None)
            } else if word_is(name, "u32") {
                (Type::U32, None)
            } else if word_is(name, "u64") {
                (Type::U64, None)
            } else if word_is(name, "f32") {
                (Type::F32, None)
            } else if word_is(name, "f64") {
                (Type::F64, None)
            } else if word_is(name, "String") {
                (Type::String, None)
            } else {
                (Type::Void, error_at("unknown type", *span))
            }
        },
        _ => (Type::Void, error_at("expected function call", tokens[*index].span)),
    }
}

/// Reads one operator: on success `*index` moves past it; otherwise the result
/// is `Garbage` with an error and `*index` stays.
pub fn parse_operator(tokens: &[Token], index: &mut usize) -> (result: (Expression, Option<JaktError>))
    requires
        *old(index) < tokens@.len(),
    ensures
        agrees(spec_operator(tokens@, *old(index) as int), result.0@, *final(index), result.1),
        result.1 is None <==> *final(index) == *old(index) + 1,
        result.1 is Some <==> *final(index) == *old(index),
        result.1 is Some <==> result.0 is Garbage,
{
    match &tokens[*index].contents {
        TokenContents::Plus => {
            *index += 1;
            (Expression::Operator(Operator::Add), None)
        },
        TokenContents::Minus => {
            *index += 1;
            (Expression::Operator(Operator::Subtract), None)
        },
        TokenContents::Asterisk => {
            *index += 1;
            (Expression::Operator(Operator::Multiply), None)
        },
        TokenContents::ForwardSlash => {
            *index += 1;
            (Expression::Operator(Operator::Divide), None)
        },
        TokenContents::Equal => {
            *index += 1;
            (Expression::Operator(Operator::Assign), None)
        },
        TokenContents::DoubleEqual => {
            *index += 1;
            (Expression::Operator(Operator::Equal), None)
        },
        TokenContents::NotEqual => {
            *index += 1;
            (Expression::Operator(Operator::NotEqual), None)
        },
        TokenContents::LessThan => {
            *index += 1;
            (Expression::Operator(Operator::LessThan), None)
        },
        TokenContents::LessThanOrEqual => {
            *index += 1;
            (Expression::Operator(Operator::LessThanOrEqual), None)
        },
        TokenContents::GreaterThan => {
            *index += 1;
            (Expression::Operator(Operator::GreaterThan), None)
        },
        TokenContents::GreaterThanOrEqual => {
            *index += 1;
            (Expression::Operator(Operator::GreaterThanOrEqual), None)
        },
        _ => (Expression::Garbage, error_at("unsupported operator", tokens[*index].span)),
    }
}

/// Reads `name`, an optional `:`, and a type name; the token read as the type
/// is skipped whatever it holds. A missing `:` is not reported.
pub fn parse_variable_declaration(tokens: &[Token], index: &mut usize) -> (result: (
    VarDecl,
    Option<JaktError>,
))
    requires
        spec_var_decl(tokens@, *old(index) as int) is Some,
    ensures
        agrees(spec_var_decl(tokens@, *old(index) as int), result.0@, *final(index), result.1),
        *old(index) <= *final(index) <= tokens@.len(),
{
    proof {
        lemma_var_decl_index(tokens@, *index as int);
    }
    match &tokens[*index].contents {
        TokenContents::Name(name) => {
            let var_name = name.clone();
            *index += 1;
            if *index < tokens.len() {
                match &tokens[*index].contents {
                    TokenContents::Colon => {
                        *index += 1;
                    },
                    _ => {},
                }
            }
            if *index < tokens.len() {
                let (var_type, err) = parse_typename(tokens, index);
                let result = VarDecl { name: var_name, ty: var_type, mutable: false };
                *index += 1;
                (result, err)
            } else {
                (
                    VarDecl { name: name.clone(), ty: Type::Void, mutable: false },
                    error_at("expected type", tokens[*index].span),
                )
            }
        },
        _ => (VarDecl::new(), error_at("expected name", tokens[*index].span)),
    }
}


/// The values of a stack of expressions.
pub open spec fn view_stack(stack: Seq<Expression>) -> Seq<SpecExpression> {
    stack.map_values(|e: Expression| e@)
}

/// Reads an operand: `true`, `false`, a call, a variable, a number, a string,
/// or an expression in parentheses. Anything else gives `Garbage` and an error
/// without moving.
pub fn parse_operand(tokens: &[Token], index: &mut usize) -> (result: (
    Expression,
    Option<JaktError>,
))
    requires
        spec_operand(tokens@, *old(index) as int) is Some,
    ensures
        agrees(spec_operand(tokens@, *old(index) as int), result.0@, *final(index), result.1),
        *old(index) <= *final(index) <= tokens@.len(),
    decreases tokens@.len() - *old(index), 1int,
{
    proof {
        lemma_operand_index(tokens@, *index as int);
    }
    match &tokens[*index].contents {
        TokenContents::Name(name) => {
            if word_is(name, "true") {
                *index += 1;
                (Expression::Boolean(true), None)
            } else if word_is(name, "false") {
                *index += 1;
                (Expression::Boolean(false), None)
            } else {
                if *index + 1 < tokens.len() {
                    match &tokens[*index + 1].contents {
                        TokenContents::LParen => {
                            let (call, err) = parse_call(tokens, index);
                            return (Expression::Call(call), err);
                        },
                        _ => {},
                    }
                }
                *index += 1;
                (Expression::Var(name.clone()), None)
            }
        },
        TokenContents::LParen => {
            *index += 1;
            let (expr, err) = parse_expression(tokens, index);
            let mut error = err;
            match &tokens[*index].contents {
                TokenContents::RParen => {
                    *index += 1;
                },
                _ => {
                    error = first(error, error_at("expected ')'", tokens[*index].span));
                },
            }
            (expr, error)
        },
        TokenContents::Number(number) => {
            *index += 1;
            (Expression::Int64(*number), None)
        },
        TokenContents::QuotedString(str) => {
            *index += 1;
            (Expression::QuotedString(str.clone()), None)
        },
        _ => (Expression::Garbage, error_at("unsupported expression", tokens[*index].span)),
    }
}

/// Reads a call: a name, `(`, and arguments up to `)`; commas between
/// arguments are skipped. Each argument is an expression with an empty label.
pub fn parse_call(tokens: &[Token], index: &mut usize) -> (result: (Call, Option<JaktError>))
    requires
        spec_call(tokens@, *old(index) as int) is Some,
    ensures
        agrees(spec_call(tokens@, *old(index) as int), result.0@, *final(index), result.1),
        *old(index) <= *final(index) <= tokens@.len(),
    decreases tokens@.len() - *old(index), 0int,
{
    proof {
        lemma_call_index(tokens@, *index as int);
    }
    let mut call = Call::new();
    let mut error = None;
    let ghost start = *index as int;
    match &tokens[*index] {
        Token { contents: TokenContents::Name(name), .. } => {
            call.name = name.clone();
            *index += 1;
            if *index < tokens.len() {
                match &tokens[*index] {
                    Token { contents: TokenContents::LParen, .. } => {
                        *index += 1;
                    },
                    Token { span, .. } => {
                        return (call, error_at("expected '('", *span));
                    },
                }
            } else {
                return (call, error_at("incomplete function", tokens[*index - 1].span));
            }
            let ghost target = spec_call(tokens@, start);
            assert(call@ == SpecCall { name: name@, args: Seq::empty() });
            while *index < tokens.len()
                invariant_except_break
                    2 <= *index <= tokens@.len(),
                    *old(index) + 2 <= *index,
                    target is Some,
                    spec_call_args(tokens@, *index as int, call@, view_error(error)) == target,
                ensures
                    1 <= *index <= tokens@.len(),
                    target == (if *index < tokens@.len() {
                        Some(Parsed { value: call@, index: *index as int, error: view_error(error) })
                    } else {
                        Some(
                            Parsed {
                                value: call@,
                                index: *index as int,
                                error: first_error(
                                    view_error(error),
                                    parser_error("incomplete call"@, tokens@[*index - 1].span),
                                ),
                            },
                        )
                    }),
                decreases tokens@.len() - *index,
            {
                match &tokens[*index].contents {
                    TokenContents::RParen => {
                        *index += 1;
                        break ;
                    },
                    TokenContents::Comma => {
                        *index += 1;
                    },
                    _ => {
                        let (expr, err) = parse_expression(tokens, index);
                        error = first(error, err);
                        let ghost old_vec = call.args@;
                        call.args.push((String::new(), expr));
                        assert(call.args@.drop_last() =~= old_vec);
                    },
                }
            }
            if *index >= tokens.len() {
                error = first(error, error_at("incomplete call", tokens[*index - 1].span));
            }
        },
        _ => {
            error = error_at("expected function call", tokens[*index].span);
        },
    }
    (call, error)
}


/// Reads an expression: an operand, then as long as an operator follows, the
/// operator and the operand after it. The operands and operators are combined
/// on a stack so that tighter-binding operators are grouped first and
/// operators of equal precedence group to the left.
pub fn parse_expression(tokens: &[Token], index: &mut usize) -> (result: (
    Expression,
    Option<JaktError>,
))
    requires
        spec_expression(tokens@, *old(index) as int) is Some,
    ensures
        agrees(spec_expression(tokens@, *old(index) as int), result.0@, *final(index), result.1),
        *old(index) <= *final(index) <= tokens@.len(),
    decreases tokens@.len() - *old(index), 2int,
{
    proof {
        lemma_expression_index(tokens@, *index as int);
    }
    let ghost start = *index as int;
    let mut expr_stack: Vec<Expression> = Vec::new();
    let mut last_prec: u64 = 1000000;
    let (lhs, err) = parse_operand(tokens, index);
    let mut error = err;
    let ghost lhs_view = lhs@;
    expr_stack.push(lhs);
    let ghost scan0 = ExprScan { operands: seq![lhs_view], ops: Seq::empty(), incomplete: false };
    let ghost mut scan = scan0;
    let ghost target = spec_expr_scan(tokens@, *index as int, scan0, view_error(error));
    assert(view_stack(expr_stack@) =~= seq![lhs_view]);
    while *index < tokens.len()
        invariant_except_break
            start <= *index <= tokens@.len(),
            start == *old(index),
            target is Some,
            spec_expr_scan(tokens@, *index as int, scan, view_error(error)) == target,
            !scan.incomplete,
            scan.operands.len() == scan.ops.len() + 1,
            view_stack(expr_stack@) == shunt(scan.operands, scan.ops),
            expr_stack@.len() > 1 ==> last_prec == expression_precedence(
                view_stack(expr_stack@)[expr_stack@.len() - 2],
            ),
        ensures
            start <= *index <= tokens@.len(),
            target == Some(Parsed { value: scan, index: *index as int, error: view_error(error) }),
            scan.operands.len() == scan.ops.len() + 1,
            !scan.incomplete ==> view_stack(expr_stack@) == shunt(scan.operands, scan.ops),
            scan.incomplete ==> view_stack(expr_stack@) == shunt(scan.operands, scan.ops).push(
                SpecExpression::Garbage,
            ).push(SpecExpression::Garbage),
        decreases tokens@.len() - *index,
    {
        let ghost at = *index as int;
        let (op, err) = parse_operator(tokens, index);
        if err.is_some() {
            break ;
        }
        let ghost the_op = operator_of(tokens@[at].contents).unwrap();
        let precedence = op.precedence();
        if *index == tokens.len() {
            error = first(error, error_at("incomplete math expression", tokens[*index - 1].span));
            let ghost before = view_stack(expr_stack@);
            expr_stack.push(Expression::Garbage);
            expr_stack.push(Expression::Garbage);
            proof {
                scan = ExprScan { operands: scan.operands, ops: scan.ops, incomplete: true };
                assert(view_stack(expr_stack@) =~= before.push(SpecExpression::Garbage).push(
                    SpecExpression::Garbage,
                ));
            }
            break ;
        }
        let (rhs, err) = parse_operand(tokens, index);
        error = first(error, err);
        let ghost target_reduced = reduce_while(view_stack(expr_stack@), precedence);
        proof {
            lemma_shunt_odd(scan.operands, scan.ops);
        }
        while precedence <= last_prec && expr_stack.len() > 1
            invariant_except_break
                expr_stack@.len() % 2 == 1,
                reduce_while(view_stack(expr_stack@), precedence) == target_reduced,
                expr_stack@.len() > 1 ==> (last_prec == expression_precedence(
                    view_stack(expr_stack@)[expr_stack@.len() - 2],
                ) || precedence <= last_prec),
            ensures
                view_stack(expr_stack@) == target_reduced,
            decreases expr_stack@.len(),
        {
            let ghost before = view_stack(expr_stack@);
            let rhs = expr_stack.pop().expect("internal error: expression stack empty");
            let op = expr_stack.pop().expect("internal error: expression stack empty");
            last_prec = op.precedence();
            if last_prec < precedence {
                expr_stack.push(op);
                expr_stack.push(rhs);
                assert(view_stack(expr_stack@) =~= before);
                break ;
            }
            let lhs = expr_stack.pop().expect("internal error: expression stack empty");
            expr_stack.push(Expression::BinaryOp(Box::new(lhs), Box::new(op), Box::new(rhs)));
            assert(view_stack(expr_stack@) =~= reduce_top(before));
        }
        let ghost reduced = view_stack(expr_stack@);
        expr_stack.push(op);
        expr_stack.push(rhs);
        last_prec = precedence;
        proof {
            let old_scan = scan;
            scan = ExprScan {
                operands: old_scan.operands.push(rhs@),
                ops: old_scan.ops.push(the_op),
                incomplete: false,
            };
            assert(scan.operands.drop_last() =~= old_scan.operands);
            assert(scan.ops.drop_last() =~= old_scan.ops);
            assert(view_stack(expr_stack@) =~= reduced.push(op@).push(rhs@));
        }
    }
    proof {
        lemma_shunt_odd(scan.operands, scan.ops);
    }
    let ghost full = view_stack(expr_stack@);
    while expr_stack.len() != 1
        invariant
            expr_stack@.len() % 2 == 1,
            collapse(view_stack(expr_stack@)) == collapse(full),
        decreases expr_stack@.len(),
    {
        let ghost before = view_stack(expr_stack@);
        let rhs = expr_stack.pop().expect("internal error: expression stack empty");
        let op = expr_stack.pop().expect("internal error: expression stack empty");
        let lhs = expr_stack.pop().expect("internal error: expression stack empty");
        expr_stack.push(Expression::BinaryOp(Box::new(lhs), Box::new(op), Box::new(rhs)));
        assert(view_stack(expr_stack@) =~= reduce_top(before));
    }
    let output = expr_stack.pop().expect("internal error: expression stack empty");
    proof {
        lemma_stack_tree(scan);
    }
    (output, error)
}


/// Reads a block: skips the token at `*index` (the opening brace), then reads
/// statements up to `}`, skipping semicolons and line ends. Running out of
/// tokens gives an empty block and an error.
pub fn parse_block(tokens: &[Token], index: &mut usize) -> (result: (Block, Option<JaktError>))
    requires
        spec_block(tokens@, *old(index) as int) is Some,
    ensures
        agrees(spec_block(tokens@, *old(index) as int), result.0@, *final(index), result.1),
        *old(index) < *final(index) <= tokens@.len(),
    decreases tokens@.len() - *old(index), 0int,
{
    proof {
        lemma_block_index(tokens@, *index as int);
    }
    let mut block = Block::new();
    let mut error = None;
    let ghost target = spec_block(tokens@, *index as int);
    assert(*index < tokens.len());
    *index += 1;
    while *index < tokens.len()
        invariant
            *old(index) < *index <= tokens@.len(),
            target == spec_block(tokens@, *old(index) as int),
            target is Some,
            spec_block_rest(tokens@, *index as int, block@, view_error(error)) == target,
        decreases tokens@.len() - *index,
    {
        match &tokens[*index].contents {
            TokenContents::RCurly => {
                *index += 1;
                return (block, error);
            },
            TokenContents::Semicolon => {
                *index += 1;
            },
            TokenContents::Eol => {
                *index += 1;
            },
            _ => {
                let (stmt, err) = parse_statement(tokens, index);
                error = first(error, err);
                let ghost old_vec = block.stmts@;
                block.stmts.push(stmt);
                assert(block.stmts@.drop_last() =~= old_vec);
            },
        }
    }
    (Block::new(), error_at("expected complete block", tokens[*index - 1].span))
}

/// Reads a statement: `defer` with a block, `if` or `while` with a condition
/// and a block, `return` with an expression, `let` or `var` with a declaration
/// and an initializer; anything else is read as an expression.
pub fn parse_statement(tokens: &[Token], index: &mut usize) -> (result: (
    Statement,
    Option<JaktError>,
))
    requires
        spec_statement(tokens@, *old(index) as int) is Some,
    ensures
        agrees(spec_statement(tokens@, *old(index) as int), result.0@, *final(index), result.1),
        *old(index) <= *final(index) <= tokens@.len(),
    decreases tokens@.len() - *old(index), 1int,
{
    proof {
        lemma_statement_index(tokens@, *index as int);
    }
    let ghost start = *index as int;
    match &tokens[*index].contents {
        TokenContents::Name(name) => {
            if word_is(name, "defer") {
                *index += 1;
                let (block, err) = parse_block(tokens, index);
                (Statement::Defer(block), err)
            } else if word_is(name, "if") {
                *index += 1;
                let (cond, err) = parse_expression(tokens, index);
                let mut error = err;
                proof {
                    lemma_expression_index(tokens@, start + 1);
                }
                let (block, err) = parse_block(tokens, index);
                error = first(error, err);
                (Statement::If(cond, block), error)
            } else if word_is(name, "while") {
                *index += 1;
                let (cond, err) = parse_expression(tokens, index);
                let mut error = err;
                proof {
                    lemma_expression_index(tokens@, start + 1);
                }
                let (block, err) = parse_block(tokens, index);
                error = first(error, err);
                (Statement::While(cond, block), error)
            } else if word_is(name, "return") {
                *index += 1;
                let (expr, err) = parse_expression(tokens, index);
                (Statement::Return(expr), err)
            } else if word_is(name, "let") || word_is(name, "var") {
                let mutable = word_is(name, "var");
                *index += 1;
                let (mut var_decl, err) = parse_variable_declaration(tokens, index);
                let error = err;
                var_decl.mutable = mutable;
                if *index < tokens.len() {
                    match &tokens[*index].contents {
                        TokenContents::Equal => {
                            *index += 1;
                            if *index < tokens.len() {
                                let (expr, err) = parse_expression(tokens, index);
                                (Statement::VarDecl(var_decl, expr), first(error, err))
                            } else {
                                (
                                    Statement::Garbage,
                                    error_at("expected initializer", tokens[*index - 1].span),
                                )
                            }
                        },
                        _ => (
                            Statement::Garbage,
                            error_at("expected initializer", tokens[*index].span),
                        ),
                    }
                } else {
                    (Statement::Garbage, error_at("expected initializer", tokens[*index].span))
                }
            } else {
                let (expr, err) = parse_expression(tokens, index);
                (Statement::Expression(expr), err)
            }
        },
        _ => {
            let (expr, err) = parse_expression(tokens, index);
            (Statement::Expression(expr), err)
        },
    }
}


/// Reads a function: skips the token at `*index` (the `fun` keyword), then
/// reads the name, `(`, the parameters up to `)`, an optional `-> Type`, and
/// the body block.
pub fn parse_function(tokens: &[Token], index: &mut usize) -> (result: (
    Function,
    Option<JaktError>,
))
    requires
        spec_function(tokens@, *old(index) as int) is Some,
    ensures
        agrees(spec_function(tokens@, *old(index) as int), result.0@, *final(index), result.1),
        *old(index) < *final(index) <= tokens@.len(),
{
    proof {
        lemma_function_index(tokens@, *index as int);
    }
    let mut error = None;
    let ghost start = *index as int;
    assert(*index < tokens.len());
    *index += 1;
    if *index < tokens.len() {
        match &tokens[*index] {
            Token { contents: TokenContents::Name(fun_name), .. } => {
                *index += 1;
                if *index < tokens.len() {
                    match &tokens[*index].contents {
                        TokenContents::LParen => {
                            *index += 1;
                        },
                        _ => {
                            error = first(error, error_at("expected '('", tokens[*index].span));
                        },
                    }
                } else {
                    error = first(
                        error,
                        error_at("incomplete function", tokens[*index - 1].span),
                    );
                }
                let mut params: Vec<(String, Type)> = Vec::new();
                let ghost target = spec_params(tokens@, *index as int, Seq::empty(), view_error(error));
                assert(view_params(params@) =~= Seq::empty());
                while *index < tokens.len()
                    invariant_except_break
                        *index <= tokens@.len(),
                        target is Some,
                        spec_params(tokens@, *index as int, view_params(params@), view_error(error))
                            == target,
                    ensures
                        *index <= tokens@.len(),
                        target == Some(
                            Parsed {
                                value: view_params(params@),
                                index: *index as int,
                                error: view_error(error),
                            },
                        ),
                    decreases tokens@.len() - *index,
                {
                    match &tokens[*index].contents {
                        TokenContents::RParen => {
                            *index += 1;
                            break ;
                        },
                        TokenContents::Comma => {
                            *index += 1;
                        },
                        TokenContents::Name(..) => {
                            proof {
                                lemma_var_decl_index(tokens@, *index as int);
                            }
                            let (var_decl, err) = parse_variable_declaration(tokens, index);
                            error = first(error, err);
                            let ghost old_vec = params@;
                            params.push((var_decl.name, var_decl.ty));
                            assert(view_params(params@) =~= view_params(old_vec).push(
                                (var_decl@.name, var_decl@.ty),
                            ));
                        },
                        _ => {
                            error = first(
                                error,
                                error_at("expected parameter", tokens[*index].span),
                            );
                        },
                    }
                }
                if *index >= tokens.len() {
                    error = first(
                        error,
                        error_at("incomplete function", tokens[*index - 1].span),
                    );
                }
                let mut return_type = Type::Void;
                if *index < tokens.len() && tokens.len() - *index > 2 {
                    match &tokens[*index].contents {
                        TokenContents::Minus => {
                            *index += 1;
                            match &tokens[*index].contents {
                                TokenContents::GreaterThan => {
                                    *index += 1;
                                    let (ret_type, err) = parse_typename(tokens, index);
                                    return_type = ret_type;
                                    error = first(error, err);
                                    *index += 1;
                                },
                                _ => {
                                    error = first(
                                        error,
                                        error_at("expected ->", tokens[*index - 1].span),
                                    );
                                },
                            }
                        },
                        _ => {},
                    }
                }
                if *index >= tokens.len() {
                    error = first(
                        error,
                        error_at("incomplete function", tokens[*index - 1].span),
                    );
                }
                let (block, err) = parse_block(tokens, index);
                error = first(error, err);
                (Function { name: fun_name.clone(), params, block, return_type }, error)
            },
            _ => (Function::new(), error_at("expected function name", tokens[*index].span)),
        }
    } else {
        (Function::new(), error_at("incomplete function definition", tokens[*index].span))
    }
}

/// Reads a whole file: a function after each `fun`, skipping line ends, up to
/// the end of the tokens or an end-of-file token. The error is the first one met.
pub fn parse_file(tokens: &[Token]) -> (result: (ParsedFile, Option<JaktError>))
    requires
        spec_file(tokens@) is Some,
    ensures
        spec_file(tokens@) == Some((result.0@, view_error(result.1))),
{
    let mut error = None;
    let mut parsed_file = ParsedFile::new();
    let mut index: usize = 0;
    while index < tokens.len()
        invariant_except_break
            index <= tokens@.len(),
            spec_file(tokens@) is Some,
            spec_file_rest(tokens@, index as int, parsed_file@, view_error(error)) == spec_file(
                tokens@,
            ),
        ensures
            spec_file(tokens@) == Some((parsed_file@, view_error(error))),
        decreases tokens@.len() - index,
    {
        let token = &tokens[index];
        match token {
            Token { contents: TokenContents::Name(name), span } => {
                if word_is(name, "fun") {
                    proof {
                        lemma_function_index(tokens@, index as int);
                    }
                    let (fun, err) = parse_function(tokens, &mut index);
                    error = first(error, err);
                    let ghost old_vec = parsed_file.funs@;
                    parsed_file.funs.push(fun);
                    assert(parsed_file@ =~= view_functions(old_vec).push(fun@));
                } else {
                    error = first(error, error_at("unexpected keyword", *span));
                }
            },
            Token { contents: TokenContents::Eol, .. } => {
                index += 1;
            },
            Token { contents: TokenContents::Eof, .. } => {
                break ;
            },
            Token { span, .. } => {
                error = first(
                    error,
                    error_at("unexpected token (expected keyword)", *span),
                );
            },
        }
    }
    (parsed_file, error)
}

} // verus!
