//! What each parse function computes, as functions on the token sequence.
//!
//! Each function takes the tokens and the index at which parsing starts and
//! returns the parsed value, the index where parsing stopped, and the first
//! error met on the way. `None` stands for an input on which the parser reads
//! past the end of the tokens, or on which one of its loops stops moving
//! forward and so never ends.
use vstd::prelude::*;
use crate::model::{SpecCall, SpecError, SpecExpression, SpecFunction, SpecStatement, SpecVarDecl};
use crate::parser::{Operator, Span, Token, TokenContents, Type};
use crate::precedence::{expression_tree, flatten, interleave, law_tree_in_order, ordered};

verus! {

/// The outcome of one parse step.
pub struct Parsed<T> {
    pub value: T,
    pub index: int,
    pub error: Option<SpecError>,
}

/// The flat sequence an expression is read as: operands separated by operators.
/// `incomplete` records an operator that was the last token.
pub struct ExprScan {
    pub operands: Seq<SpecExpression>,
    pub ops: Seq<Operator>,
    pub incomplete: bool,
}

/// A parser error with the given message at the given span.
pub open spec fn parser_error(msg: Seq<char>, span: Span) -> Option<SpecError> {
    Some(SpecError::ParserError(msg, span))
}

/// The error that stands: the earlier one if there is one.
pub open spec fn first_error(earlier: Option<SpecError>, later: Option<SpecError>) -> Option<
    SpecError,
> {
    if earlier is Some {
        earlier
    } else {
        later
    }
}

pub open spec fn parsed<T>(value: T, index: int, error: Option<SpecError>) -> Option<Parsed<T>> {
    Some(Parsed { value, index, error })
}

/// A step from `from` that ended at `to` moved forward without passing the end.
pub open spec fn moved_forward(from: int, to: int, len: int) -> bool {
    from < to <= len
}

pub open spec fn is_name(c: TokenContents, word: Seq<char>) -> bool {
    c matches TokenContents::Name(n) && n@ == word
}

/// The operator a token stands for, if any.
pub open spec fn operator_of(c: TokenContents) -> Option<Operator> {
    match c {
        TokenContents::Plus => Some(Operator::Add),
        TokenContents::Minus => Some(Operator::Subtract),
        TokenContents::Asterisk => Some(Operator::Multiply),
        TokenContents::ForwardSlash => Some(Operator::Divide),
        TokenContents::Equal => Some(Operator::Assign),
        TokenContents::DoubleEqual => Some(Operator::Equal),
        TokenContents::NotEqual => Some(Operator::NotEqual),
        TokenContents::LessThan => Some(Operator::LessThan),
        TokenContents::LessThanOrEqual => Some(Operator::LessThanOrEqual),
        TokenContents::GreaterThan => Some(Operator::GreaterThan),
        TokenContents::GreaterThanOrEqual => Some(Operator::GreaterThanOrEqual),
        _ => None,
    }
}

/// The type a type name stands for, if any.
pub open spec fn type_of_name(name: Seq<char>) -> Option<Type> {
    if name == "i8"@ {
        Some(Type::I8)
    } else if name == "i16"@ {
        Some(Type::I16)
    } else if name == "i32"@ {
        Some(Type::I32)
    } else if name == "i64"@ {
        Some(Type::I64)
    } else if name == "u8"@ {
        Some(Type::U8)
    } else if name == "u16"@ {
        Some(Type::U16)
    } else if name == "u32"@ {
        Some(Type::U32)
    } else if name == "u64"@ {
        Some(Type::U64)
    } else if name == "f32"@ {
        Some(Type::F32)
    } else if name == "f64"@ {
        Some(Type::F64)
    } else if name == "String"@ {
        Some(Type::String)
    } else {
        None
    }
}

/// `parse_typename`: reads the type name at `i` and does not move.
pub open spec fn spec_typename(tokens: Seq<Token>, i: int) -> Option<Parsed<Type>> {
    if 0 <= i < tokens.len() {
        match tokens[i].contents {
            TokenContents::Name(n) => match type_of_name(n@) {
                Some(ty) => parsed(ty, i, None),
                None => parsed(Type::Void, i, parser_error("unknown type"@, tokens[i].span)),
            },
            _ => parsed(Type::Void, i, parser_error("expected function call"@, tokens[i].span)),
        }
    } else {
        None
    }
}

/// `parse_operator`: one operator token, or `Garbage` with an error and no move.
pub open spec fn spec_operator(tokens: Seq<Token>, i: int) -> Option<Parsed<SpecExpression>> {
    if 0 <= i < tokens.len() {
        match operator_of(tokens[i].contents) {
            Some(op) => parsed(SpecExpression::Operator(op), i + 1, None),
            None => parsed(
                SpecExpression::Garbage,
                i,
                parser_error("unsupported operator"@, tokens[i].span),
            ),
        }
    } else {
        None
    }
}

/// `VarDecl::new()`.
pub open spec fn empty_var_decl() -> SpecVarDecl {
    SpecVarDecl { name: Seq::empty(), ty: Type::Void, mutable: false }
}

/// `parse_variable_declaration`: a name, an optional `:`, and a type name.
/// The token read as the type is skipped whatever it is.
pub open spec fn spec_var_decl(tokens: Seq<Token>, i: int) -> Option<Parsed<SpecVarDecl>> {
    if 0 <= i < tokens.len() {
        match tokens[i].contents {
            TokenContents::Name(n) => {
                let j = if i + 1 < tokens.len() && tokens[i + 1].contents is Colon {
                    i + 2
                } else {
                    i + 1
                };
                match spec_typename(tokens, j) {
                    Some(t) => parsed(
                        SpecVarDecl { name: n@, ty: t.value, mutable: false },
                        j + 1,
                        t.error,
                    ),
                    None => None,
                }
            },
            _ => parsed(empty_var_decl(), i, parser_error("expected name"@, tokens[i].span)),
        }
    } else {
        None
    }
}


/// `parse_operand`: a literal, a variable, a call, or a parenthesised expression.
pub open spec fn spec_operand(tokens: Seq<Token>, i: int) -> Option<Parsed<SpecExpression>>
    decreases tokens.len() - i, 1int,
{
    if 0 <= i < tokens.len() {
        match tokens[i].contents {
            TokenContents::Name(n) => {
                if n@ == "true"@ {
                    parsed(SpecExpression::Boolean(true), i + 1, None)
                } else if n@ == "false"@ {
                    parsed(SpecExpression::Boolean(false), i + 1, None)
                } else if i + 1 < tokens.len() && tokens[i + 1].contents is LParen {
                    match spec_call(tokens, i) {
                        Some(c) => parsed(SpecExpression::Call(c.value), c.index, c.error),
                        None => None,
                    }
                } else {
                    parsed(SpecExpression::Var(n@), i + 1, None)
                }
            },
            TokenContents::LParen => match spec_expression(tokens, i + 1) {
                Some(e) => if 0 <= e.index < tokens.len() {
                    if tokens[e.index].contents is RParen {
                        parsed(e.value, e.index + 1, e.error)
                    } else {
                        parsed(
                            e.value,
                            e.index,
                            first_error(
                                e.error,
                                parser_error("expected ')'"@, tokens[e.index].span),
                            ),
                        )
                    }
                } else {
                    None
                },
                None => None,
            },
            TokenContents::Number(n) => parsed(SpecExpression::Int64(n), i + 1, None),
            TokenContents::QuotedString(s) => parsed(
                SpecExpression::QuotedString(s@),
                i + 1,
                None,
            ),
            _ => parsed(
                SpecExpression::Garbage,
                i,
                parser_error("unsupported expression"@, tokens[i].span),
            ),
        }
    } else {
        None
    }
}

/// `parse_expression`: reads operands and operators, then builds the tree that
/// `expression_tree` gives for what was read.
pub open spec fn spec_expression(tokens: Seq<Token>, i: int) -> Option<Parsed<SpecExpression>>
    decreases tokens.len() - i, 2int,
{
    match spec_operand(tokens, i) {
        Some(lhs) => if i <= lhs.index <= tokens.len() {
            match spec_expr_scan(
                tokens,
                lhs.index,
                ExprScan { operands: seq![lhs.value], ops: Seq::empty(), incomplete: false },
                lhs.error,
            ) {
                Some(scan) => parsed(expression_tree(scan.value), scan.index, scan.error),
                None => None,
            }
        } else {
            None
        },
        None => None,
    }
}

/// The loop of `parse_expression`: while an operator follows, read it and the
/// operand after it. An operator that is the last token ends the scan as incomplete.
pub open spec fn spec_expr_scan(
    tokens: Seq<Token>,
    i: int,
    scan: ExprScan,
    error: Option<SpecError>,
) -> Option<Parsed<ExprScan>>
    decreases tokens.len() - i, 1int,
{
    if 0 <= i < tokens.len() {
        match operator_of(tokens[i].contents) {
            Some(op) => if i + 1 == tokens.len() {
                parsed(
                    ExprScan { operands: scan.operands, ops: scan.ops, incomplete: true },
                    i + 1,
                    first_error(
                        error,
                        parser_error("incomplete math expression"@, tokens[i].span),
                    ),
                )
            } else {
                match spec_operand(tokens, i + 1) {
                    Some(rhs) => if moved_forward(i, rhs.index, tokens.len() as int) {
                        spec_expr_scan(
                            tokens,
                            rhs.index,
                            ExprScan {
                                operands: scan.operands.push(rhs.value),
                                ops: scan.ops.push(op),
                                incomplete: false,
                            },
                            first_error(error, rhs.error),
                        )
                    } else {
                        None
                    },
                    None => None,
                }
            },
            None => parsed(scan, i, error),
        }
    } else {
        parsed(scan, i, error)
    }
}

/// `parse_call`: a name, `(`, then arguments up to `)`; commas are skipped.
pub open spec fn spec_call(tokens: Seq<Token>, i: int) -> Option<Parsed<SpecCall>>
    decreases tokens.len() - i, 0int,
{
    if 0 <= i < tokens.len() {
        match tokens[i].contents {
            TokenContents::Name(n) => {
                let call = SpecCall { name: n@, args: Seq::empty() };
                if i + 1 < tokens.len() {
                    if tokens[i + 1].contents is LParen {
                        spec_call_args(tokens, i + 2, call, None)
                    } else {
                        parsed(call, i + 1, parser_error("expected '('"@, tokens[i + 1].span))
                    }
                } else {
                    parsed(call, i + 1, parser_error("incomplete function"@, tokens[i].span))
                }
            },
            _ => parsed(
                SpecCall { name: Seq::empty(), args: Seq::empty() },
                i,
                parser_error("expected function call"@, tokens[i].span),
            ),
        }
    } else {
        None
    }
}

/// The argument loop of `parse_call`.
pub open spec fn spec_call_args(
    tokens: Seq<Token>,
    i: int,
    call: SpecCall,
    error: Option<SpecError>,
) -> Option<Parsed<SpecCall>>
    decreases tokens.len() - i, 3int,
{
    if 0 <= i < tokens.len() {
        match tokens[i].contents {
            TokenContents::RParen => if i + 1 < tokens.len() {
                parsed(call, i + 1, error)
            } else {
                parsed(
                    call,
                    i + 1,
                    first_error(error, parser_error("incomplete call"@, tokens[i].span)),
                )
            },
            TokenContents::Comma => spec_call_args(tokens, i + 1, call, error),
            _ => match spec_expression(tokens, i) {
                Some(e) => if moved_forward(i, e.index, tokens.len() as int) {
                    spec_call_args(
                        tokens,
                        e.index,
                        SpecCall { name: call.name, args: call.args.push((Seq::empty(), e.value)) },
                        first_error(error, e.error),
                    )
                } else {
                    None
                },
                None => None,
            },
        }
    } else {
        parsed(
            call,
            i,
            first_error(error, parser_error("incomplete call"@, tokens[i - 1].span)),
        )
    }
}


/// Parsing an operand never moves backward and never passes the end.
pub proof fn lemma_operand_index(tokens: Seq<Token>, i: int)
    ensures
        spec_operand(tokens, i) matches Some(p) ==> i <= p.index <= tokens.len(),
    decreases tokens.len() - i, 1int,
{
    if 0 <= i < tokens.len() {
        match tokens[i].contents {
            TokenContents::Name(n) => {
                lemma_call_index(tokens, i);
            },
            TokenContents::LParen => {
                lemma_expression_index(tokens, i + 1);
            },
            _ => {},
        }
    }
}

/// Parsing an expression never moves backward and never passes the end.
pub proof fn lemma_expression_index(tokens: Seq<Token>, i: int)
    ensures
        spec_expression(tokens, i) matches Some(p) ==> i <= p.index <= tokens.len(),
    decreases tokens.len() - i, 2int,
{
    lemma_operand_index(tokens, i);
    if let Some(lhs) = spec_operand(tokens, i) {
        if i <= lhs.index <= tokens.len() {
            lemma_expr_scan_index(
                tokens,
                lhs.index,
                ExprScan { operands: seq![lhs.value], ops: Seq::empty(), incomplete: false },
                lhs.error,
            );
        }
    }
}

/// The operator loop of an expression never moves backward and never passes the end.
pub proof fn lemma_expr_scan_index(
    tokens: Seq<Token>,
    i: int,
    scan: ExprScan,
    error: Option<SpecError>,
)
    requires
        0 <= i <= tokens.len(),
    ensures
        spec_expr_scan(tokens, i, scan, error) matches Some(p) ==> i <= p.index <= tokens.len(),
    decreases tokens.len() - i, 1int,
{
    if i < tokens.len() {
        if let Some(op) = operator_of(tokens[i].contents) {
            if i + 1 < tokens.len() {
                lemma_operand_index(tokens, i + 1);
                if let Some(rhs) = spec_operand(tokens, i + 1) {
                    if moved_forward(i, rhs.index, tokens.len() as int) {
                        lemma_expr_scan_index(
                            tokens,
                            rhs.index,
                            ExprScan {
                                operands: scan.operands.push(rhs.value),
                                ops: scan.ops.push(op),
                                incomplete: false,
                            },
                            first_error(error, rhs.error),
                        );
                    }
                }
            }
        }
    }
}

/// Parsing a call never moves backward and never passes the end.
pub proof fn lemma_call_index(tokens: Seq<Token>, i: int)
    ensures
        spec_call(tokens, i) matches Some(p) ==> i <= p.index <= tokens.len(),
    decreases tokens.len() - i, 0int,
{
    if 0 <= i < tokens.len() {
        if let TokenContents::Name(n) = tokens[i].contents {
            if i + 1 < tokens.len() && tokens[i + 1].contents is LParen {
                lemma_call_args_index(
                    tokens,
                    i + 2,
                    SpecCall { name: n@, args: Seq::empty() },
                    None,
                );
            }
        }
    }
}

/// The argument loop of a call never moves backward and never passes the end.
pub proof fn lemma_call_args_index(
    tokens: Seq<Token>,
    i: int,
    call: SpecCall,
    error: Option<SpecError>,
)
    requires
        0 <= i <= tokens.len(),
    ensures
        spec_call_args(tokens, i, call, error) matches Some(p) ==> i <= p.index <= tokens.len(),
    decreases tokens.len() - i, 3int,
{
    if i < tokens.len() {
        match tokens[i].contents {
            TokenContents::RParen => {},
            TokenContents::Comma => {
                lemma_call_args_index(tokens, i + 1, call, error);
            },
            _ => {
                lemma_expression_index(tokens, i);
                if let Some(e) = spec_expression(tokens, i) {
                    if moved_forward(i, e.index, tokens.len() as int) {
                        lemma_call_args_index(
                            tokens,
                            e.index,
                            SpecCall {
                                name: call.name,
                                args: call.args.push((Seq::empty(), e.value)),
                            },
                            first_error(error, e.error),
                        );
                    }
                }
            },
        }
    }
}


/// `parse_block`: skips the token at `i` (the opening brace) and reads
/// statements up to `}`; semicolons and line ends are skipped. Running out of
/// tokens gives an empty block and an error of its own.
pub open spec fn spec_block(tokens: Seq<Token>, i: int) -> Option<Parsed<Seq<SpecStatement>>>
    decreases tokens.len() - i, 0int,
{
    if 0 <= i < tokens.len() {
        spec_block_rest(tokens, i + 1, Seq::empty(), None)
    } else {
        None
    }
}

/// The statement loop of `parse_block`.
pub open spec fn spec_block_rest(
    tokens: Seq<Token>,
    i: int,
    stmts: Seq<SpecStatement>,
    error: Option<SpecError>,
) -> Option<Parsed<Seq<SpecStatement>>>
    decreases tokens.len() - i, 1int,
{
    if 0 <= i < tokens.len() {
        match tokens[i].contents {
            TokenContents::RCurly => parsed(stmts, i + 1, error),
            TokenContents::Semicolon | TokenContents::Eol => spec_block_rest(
                tokens,
                i + 1,
                stmts,
                error,
            ),
            _ => match spec_statement(tokens, i) {
                Some(st) => if moved_forward(i, st.index, tokens.len() as int) {
                    spec_block_rest(
                        tokens,
                        st.index,
                        stmts.push(st.value),
                        first_error(error, st.error),
                    )
                } else {
                    None
                },
                None => None,
            },
        }
    } else {
        parsed(
            Seq::empty(),
            i,
            parser_error("expected complete block"@, tokens[i - 1].span),
        )
    }
}

/// An expression followed by a block, as after `if` and `while`.
pub open spec fn spec_cond_block(tokens: Seq<Token>, i: int) -> Option<
    Parsed<(SpecExpression, Seq<SpecStatement>)>,
>
    decreases tokens.len() - i, 1int,
{
    match spec_expression(tokens, i) {
        Some(c) => {
            proof {
                lemma_expression_index(tokens, i);
            }
            match spec_block(tokens, c.index) {
                Some(b) => parsed((c.value, b.value), b.index, first_error(c.error, b.error)),
                None => None,
            }
        },
        None => None,
    }
}

/// `parse_statement`: `defer`, `if`, `while`, `return`, `let` and `var` start
/// statements of their own; anything else is read as an expression.
pub open spec fn spec_statement(tokens: Seq<Token>, i: int) -> Option<Parsed<SpecStatement>>
    decreases tokens.len() - i, 0int,
{
    if 0 <= i < tokens.len() {
        let c = tokens[i].contents;
        if is_name(c, "defer"@) {
            match spec_block(tokens, i + 1) {
                Some(b) => parsed(SpecStatement::Defer(b.value), b.index, b.error),
                None => None,
            }
        } else if is_name(c, "if"@) {
            match spec_cond_block(tokens, i + 1) {
                Some(cb) => parsed(SpecStatement::If(cb.value.0, cb.value.1), cb.index, cb.error),
                None => None,
            }
        } else if is_name(c, "while"@) {
            match spec_cond_block(tokens, i + 1) {
                Some(cb) => parsed(
                    SpecStatement::While(cb.value.0, cb.value.1),
                    cb.index,
                    cb.error,
                ),
                None => None,
            }
        } else if is_name(c, "return"@) {
            match spec_expression(tokens, i + 1) {
                Some(e) => parsed(SpecStatement::Return(e.value), e.index, e.error),
                None => None,
            }
        } else if is_name(c, "let"@) || is_name(c, "var"@) {
            match spec_var_decl(tokens, i + 1) {
                Some(d) => {
                    let decl = SpecVarDecl {
                        name: d.value.name,
                        ty: d.value.ty,
                        mutable: is_name(c, "var"@),
                    };
                    let j = d.index;
                    if 0 <= j < tokens.len() {
                        if tokens[j].contents is Equal {
                            if j + 1 < tokens.len() {
                                match spec_expression(tokens, j + 1) {
                                    Some(e) => parsed(
                                        SpecStatement::VarDecl(decl, e.value),
                                        e.index,
                                        first_error(d.error, e.error),
                                    ),
                                    None => None,
                                }
                            } else {
                                parsed(
                                    SpecStatement::Garbage,
                                    j + 1,
                                    parser_error("expected initializer"@, tokens[j].span),
                                )
                            }
                        } else {
                            parsed(
                                SpecStatement::Garbage,
                                j,
                                parser_error("expected initializer"@, tokens[j].span),
                            )
                        }
                    } else {
                        None
                    }
                },
                None => None,
            }
        } else {
            match spec_expression(tokens, i) {
                Some(e) => parsed(SpecStatement::Expression(e.value), e.index, e.error),
                None => None,
            }
        }
    } else {
        None
    }
}


/// Parsing a block never passes the end, and moves past at least the token it starts at.
pub proof fn lemma_block_index(tokens: Seq<Token>, i: int)
    ensures
        spec_block(tokens, i) matches Some(p) ==> i < p.index <= tokens.len(),
    decreases tokens.len() - i, 0int,
{
    if 0 <= i < tokens.len() {
        lemma_block_rest_index(tokens, i + 1, Seq::empty(), None);
    }
}

/// The statement loop of a block never moves backward and never passes the end.
pub proof fn lemma_block_rest_index(
    tokens: Seq<Token>,
    i: int,
    stmts: Seq<SpecStatement>,
    error: Option<SpecError>,
)
    requires
        0 <= i <= tokens.len(),
    ensures
        spec_block_rest(tokens, i, stmts, error) matches Some(p) ==> i <= p.index
            <= tokens.len(),
    decreases tokens.len() - i, 1int,
{
    if i < tokens.len() {
        match tokens[i].contents {
            TokenContents::RCurly => {},
            TokenContents::Semicolon | TokenContents::Eol => {
                lemma_block_rest_index(tokens, i + 1, stmts, error);
            },
            _ => {
                if let Some(st) = spec_statement(tokens, i) {
                    if moved_forward(i, st.index, tokens.len() as int) {
                        lemma_block_rest_index(
                            tokens,
                            st.index,
                            stmts.push(st.value),
                            first_error(error, st.error),
                        );
                    }
                }
            },
        }
    }
}

/// An expression and a block never move backward and never pass the end.
pub proof fn lemma_cond_block_index(tokens: Seq<Token>, i: int)
    ensures
        spec_cond_block(tokens, i) matches Some(p) ==> i <= p.index <= tokens.len(),
{
    lemma_expression_index(tokens, i);
    if let Some(c) = spec_expression(tokens, i) {
        lemma_block_index(tokens, c.index);
    }
}

/// Parsing a statement never moves backward and never passes the end.
pub proof fn lemma_statement_index(tokens: Seq<Token>, i: int)
    ensures
        spec_statement(tokens, i) matches Some(p) ==> i <= p.index <= tokens.len(),
{
    if 0 <= i < tokens.len() {
        lemma_block_index(tokens, i + 1);
        lemma_cond_block_index(tokens, i + 1);
        lemma_expression_index(tokens, i + 1);
        lemma_expression_index(tokens, i);
        lemma_var_decl_index(tokens, i + 1);
        if let Some(d) = spec_var_decl(tokens, i + 1) {
            lemma_expression_index(tokens, d.index + 1);
        }
    }
}

/// Parsing a declaration never moves backward nor past the end, and moves
/// forward when it starts at a name.
pub proof fn lemma_var_decl_index(tokens: Seq<Token>, i: int)
    ensures
        spec_var_decl(tokens, i) matches Some(p) ==> {
            &&& i <= p.index <= tokens.len()
            &&& tokens[i].contents is Name ==> i < p.index
        },
{
}

/// The parameter loop of `parse_function`: names with their types, commas
/// skipped, up to `)`. Any other token stops it from moving, so it never ends.
pub open spec fn spec_params(
    tokens: Seq<Token>,
    i: int,
    params: Seq<(Seq<char>, Type)>,
    error: Option<SpecError>,
) -> Option<Parsed<Seq<(Seq<char>, Type)>>>
    decreases tokens.len() - i,
{
    if 0 <= i < tokens.len() {
        match tokens[i].contents {
            TokenContents::RParen => parsed(params, i + 1, error),
            TokenContents::Comma => spec_params(tokens, i + 1, params, error),
            TokenContents::Name(_) => match spec_var_decl(tokens, i) {
                Some(d) => {
                    proof {
                        lemma_var_decl_index(tokens, i);
                    }
                    spec_params(
                        tokens,
                        d.index,
                        params.push((d.value.name, d.value.ty)),
                        first_error(error, d.error),
                    )
                },
                None => None,
            },
            _ => None,
        }
    } else {
        parsed(params, i, error)
    }
}

/// The optional `-> Type` of a function, read when at least three tokens remain.
pub open spec fn spec_return_type(tokens: Seq<Token>, i: int, error: Option<SpecError>) -> Option<
    Parsed<Type>,
> {
    if 0 <= i && i + 2 < tokens.len() && tokens[i].contents is Minus {
        if tokens[i + 1].contents is GreaterThan {
            match spec_typename(tokens, i + 2) {
                Some(t) => parsed(t.value, i + 3, first_error(error, t.error)),
                None => None,
            }
        } else {
            parsed(
                Type::Void,
                i + 1,
                first_error(error, parser_error("expected ->"@, tokens[i].span)),
            )
        }
    } else {
        parsed(Type::Void, i, error)
    }
}

/// `Function::new()`.
pub open spec fn empty_function() -> SpecFunction {
    SpecFunction {
        name: Seq::empty(),
        params: Seq::empty(),
        block: Seq::empty(),
        return_type: Type::Void,
    }
}

/// `parse_function`: skips the token at `i` (the `fun` keyword), then reads the
/// name, `(`, the parameters, an optional return type and the body.
pub open spec fn spec_function(tokens: Seq<Token>, i: int) -> Option<Parsed<SpecFunction>> {
    let j = i + 1;
    if 0 <= i && j < tokens.len() {
        match tokens[j].contents {
            TokenContents::Name(n) => {
                let k = j + 1;
                let (k2, e1) = if k < tokens.len() {
                    if tokens[k].contents is LParen {
                        (k + 1, None)
                    } else {
                        (k, parser_error("expected '('"@, tokens[k].span))
                    }
                } else {
                    (k, parser_error("incomplete function"@, tokens[j].span))
                };
                match spec_params(tokens, k2, Seq::empty(), e1) {
                    Some(p) => match spec_return_type(tokens, p.index, p.error) {
                        Some(r) => match spec_block(tokens, r.index) {
                            Some(b) => parsed(
                                SpecFunction {
                                    name: n@,
                                    params: p.value,
                                    block: b.value,
                                    return_type: r.value,
                                },
                                b.index,
                                first_error(r.error, b.error),
                            ),
                            None => None,
                        },
                        None => None,
                    },
                    None => None,
                }
            },
            _ => parsed(
                empty_function(),
                j,
                parser_error("expected function name"@, tokens[j].span),
            ),
        }
    } else {
        None
    }
}

/// The parameter loop never moves backward and never passes the end.
pub proof fn lemma_params_index(
    tokens: Seq<Token>,
    i: int,
    params: Seq<(Seq<char>, Type)>,
    error: Option<SpecError>,
)
    requires
        0 <= i <= tokens.len(),
    ensures
        spec_params(tokens, i, params, error) matches Some(p) ==> i <= p.index <= tokens.len(),
    decreases tokens.len() - i,
{
    if i < tokens.len() {
        match tokens[i].contents {
            TokenContents::Comma => lemma_params_index(tokens, i + 1, params, error),
            TokenContents::Name(_) => {
                lemma_var_decl_index(tokens, i);
                if let Some(d) = spec_var_decl(tokens, i) {
                    lemma_params_index(
                        tokens,
                        d.index,
                        params.push((d.value.name, d.value.ty)),
                        first_error(error, d.error),
                    );
                }
            },
            _ => {},
        }
    }
}

/// Parsing a function never passes the end, and moves past at least the token it starts at.
pub proof fn lemma_function_index(tokens: Seq<Token>, i: int)
    ensures
        spec_function(tokens, i) matches Some(p) ==> i < p.index <= tokens.len(),
{
    let j = i + 1;
    if 0 <= i && j < tokens.len() {
        if let TokenContents::Name(n) = tokens[j].contents {
            let k = j + 1;
            let (k2, e1) = if k < tokens.len() {
                if tokens[k].contents is LParen {
                    (k + 1, None)
                } else {
                    (k, parser_error("expected '('"@, tokens[k].span))
                }
            } else {
                (k, parser_error("incomplete function"@, tokens[j].span))
            };
            lemma_params_index(tokens, k2, Seq::empty(), e1);
            if let Some(p) = spec_params(tokens, k2, Seq::empty(), e1) {
                if let Some(r) = spec_return_type(tokens, p.index, p.error) {
                    lemma_block_index(tokens, r.index);
                }
            }
        }
    }
}

/// The loop of `parse_file`: functions after `fun`, line ends skipped, up to
/// the end or an end-of-file token. Any other token stops it from moving, so it never ends.
pub open spec fn spec_file_rest(
    tokens: Seq<Token>,
    i: int,
    funs: Seq<SpecFunction>,
    error: Option<SpecError>,
) -> Option<(Seq<SpecFunction>, Option<SpecError>)>
    decreases tokens.len() - i,
{
    if 0 <= i < tokens.len() {
        match tokens[i].contents {
            TokenContents::Name(n) => if n@ == "fun"@ {
                match spec_function(tokens, i) {
                    Some(f) => {
                        proof {
                            lemma_function_index(tokens, i);
                        }
                        spec_file_rest(
                            tokens,
                            f.index,
                            funs.push(f.value),
                            first_error(error, f.error),
                        )
                    },
                    None => None,
                }
            } else {
                None
            },
            TokenContents::Eol => spec_file_rest(tokens, i + 1, funs, error),
            TokenContents::Eof => Some((funs, error)),
            _ => None,
        }
    } else {
        Some((funs, error))
    }
}

/// `parse_file`: the functions of the whole token sequence and the first error.
pub open spec fn spec_file(tokens: Seq<Token>) -> Option<(Seq<SpecFunction>, Option<SpecError>)> {
    spec_file_rest(tokens, 0, Seq::empty(), None)
}


/// Once an error is met while reading an expression, it is the error reported.
pub proof fn law_expr_scan_keeps_error(
    tokens: Seq<Token>,
    i: int,
    scan: ExprScan,
    error: Option<SpecError>,
)
    requires
        error is Some,
    ensures
        spec_expr_scan(tokens, i, scan, error) matches Some(p) ==> p.error == error,
    decreases tokens.len() - i,
{
    if 0 <= i < tokens.len() {
        if let Some(op) = operator_of(tokens[i].contents) {
            if i + 1 < tokens.len() {
                if let Some(rhs) = spec_operand(tokens, i + 1) {
                    if moved_forward(i, rhs.index, tokens.len() as int) {
                        law_expr_scan_keeps_error(
                            tokens,
                            rhs.index,
                            ExprScan {
                                operands: scan.operands.push(rhs.value),
                                ops: scan.ops.push(op),
                                incomplete: false,
                            },
                            first_error(error, rhs.error),
                        );
                    }
                }
            }
        }
    }
}

/// Once an error is met while reading the arguments of a call, it is the error reported.
pub proof fn law_call_args_keeps_error(
    tokens: Seq<Token>,
    i: int,
    call: SpecCall,
    error: Option<SpecError>,
)
    requires
        error is Some,
    ensures
        spec_call_args(tokens, i, call, error) matches Some(p) ==> p.error == error,
    decreases tokens.len() - i,
{
    if 0 <= i < tokens.len() {
        match tokens[i].contents {
            TokenContents::RParen => {},
            TokenContents::Comma => {
                law_call_args_keeps_error(tokens, i + 1, call, error);
            },
            _ => {
                if let Some(e) = spec_expression(tokens, i) {
                    if moved_forward(i, e.index, tokens.len() as int) {
                        law_call_args_keeps_error(
                            tokens,
                            e.index,
                            SpecCall {
                                name: call.name,
                                args: call.args.push((Seq::empty(), e.value)),
                            },
                            first_error(error, e.error),
                        );
                    }
                }
            },
        }
    }
}

/// Once an error is met while reading parameters, it is the error reported.
pub proof fn law_params_keeps_error(
    tokens: Seq<Token>,
    i: int,
    params: Seq<(Seq<char>, Type)>,
    error: Option<SpecError>,
)
    requires
        error is Some,
    ensures
        spec_params(tokens, i, params, error) matches Some(p) ==> p.error == error,
    decreases tokens.len() - i,
{
    if 0 <= i < tokens.len() {
        match tokens[i].contents {
            TokenContents::Comma => law_params_keeps_error(tokens, i + 1, params, error),
            TokenContents::Name(_) => {
                lemma_var_decl_index(tokens, i);
                if let Some(d) = spec_var_decl(tokens, i) {
                    law_params_keeps_error(
                        tokens,
                        d.index,
                        params.push((d.value.name, d.value.ty)),
                        first_error(error, d.error),
                    );
                }
            },
            _ => {},
        }
    }
}

/// Once an error is met while reading a file, it is the error reported.
pub proof fn law_file_keeps_error(
    tokens: Seq<Token>,
    i: int,
    funs: Seq<SpecFunction>,
    error: Option<SpecError>,
)
    requires
        error is Some,
    ensures
        spec_file_rest(tokens, i, funs, error) matches Some(r) ==> r.1 == error,
    decreases tokens.len() - i,
{
    if 0 <= i < tokens.len() {
        match tokens[i].contents {
            TokenContents::Name(n) => {
                if n@ == "fun"@ {
                    if let Some(f) = spec_function(tokens, i) {
                        lemma_function_index(tokens, i);
                        law_file_keeps_error(
                            tokens,
                            f.index,
                            funs.push(f.value),
                            first_error(error, f.error),
                        );
                    }
                }
            },
            TokenContents::Eol => law_file_keeps_error(tokens, i + 1, funs, error),
            _ => {},
        }
    }
}

/// A block ends just after a `}`, or it ran out of tokens: then it is empty,
/// ends at the end, and its error is `expected complete block`, whatever came before.
pub proof fn law_block_end(tokens: Seq<Token>, i: int)
    ensures
        spec_block(tokens, i) matches Some(p) ==> {
            ||| tokens[p.index - 1].contents is RCurly
            ||| {
                &&& p.value.len() == 0
                &&& p.index == tokens.len()
                &&& p.error == parser_error(
                    "expected complete block"@,
                    tokens[tokens.len() - 1].span,
                )
            }
        },
{
    if 0 <= i < tokens.len() {
        law_block_rest_end(tokens, i + 1, Seq::empty(), None);
    }
}

/// The statement loop of a block ends just after a `}` or at the end of the tokens.
pub proof fn law_block_rest_end(
    tokens: Seq<Token>,
    i: int,
    stmts: Seq<SpecStatement>,
    error: Option<SpecError>,
)
    requires
        1 <= i <= tokens.len(),
    ensures
        spec_block_rest(tokens, i, stmts, error) matches Some(p) ==> {
            ||| tokens[p.index - 1].contents is RCurly
            ||| {
                &&& p.value.len() == 0
                &&& p.index == tokens.len()
                &&& p.error == parser_error(
                    "expected complete block"@,
                    tokens[tokens.len() - 1].span,
                )
            }
        },
    decreases tokens.len() - i,
{
    if i < tokens.len() {
        match tokens[i].contents {
            TokenContents::RCurly => {},
            TokenContents::Semicolon | TokenContents::Eol => {
                law_block_rest_end(tokens, i + 1, stmts, error);
            },
            _ => {
                if let Some(st) = spec_statement(tokens, i) {
                    if moved_forward(i, st.index, tokens.len() as int) {
                        law_block_rest_end(
                            tokens,
                            st.index,
                            stmts.push(st.value),
                            first_error(error, st.error),
                        );
                    }
                }
            },
        }
    }
}


/// Reading an expression keeps its first operand, keeps one more operand than
/// operators, and marks a scan incomplete only together with an error.
pub proof fn lemma_expr_scan_shape(
    tokens: Seq<Token>,
    i: int,
    scan: ExprScan,
    error: Option<SpecError>,
)
    requires
        scan.operands.len() == scan.ops.len() + 1,
        !scan.incomplete,
    ensures
        spec_expr_scan(tokens, i, scan, error) matches Some(p) ==> {
            &&& p.value.operands.len() == p.value.ops.len() + 1
            &&& p.value.operands[0] == scan.operands[0]
            &&& p.value.ops.len() >= scan.ops.len()
            &&& p.value.incomplete ==> p.error is Some
        },
    decreases tokens.len() - i,
{
    if 0 <= i < tokens.len() {
        if let Some(op) = operator_of(tokens[i].contents) {
            if i + 1 < tokens.len() {
                if let Some(rhs) = spec_operand(tokens, i + 1) {
                    if moved_forward(i, rhs.index, tokens.len() as int) {
                        lemma_expr_scan_shape(
                            tokens,
                            rhs.index,
                            ExprScan {
                                operands: scan.operands.push(rhs.value),
                                ops: scan.ops.push(op),
                                incomplete: false,
                            },
                            first_error(error, rhs.error),
                        );
                    }
                }
            }
        }
    }
}

/// An operand read without error moved forward, and is neither `Garbage` nor an operator.
pub proof fn law_operand_error_free(tokens: Seq<Token>, i: int)
    ensures
        spec_operand(tokens, i) matches Some(p) ==> (p.error is None ==> i < p.index
            && !(p.value is Garbage) && !(p.value is Operator)),
    decreases tokens.len() - i, 1int,
{
    if 0 <= i < tokens.len() {
        match tokens[i].contents {
            TokenContents::Name(n) => {
                if i + 1 < tokens.len() && tokens[i + 1].contents is LParen {
                    lemma_call_args_index(
                        tokens,
                        i + 2,
                        SpecCall { name: n@, args: Seq::empty() },
                        None,
                    );
                }
            },
            TokenContents::LParen => {
                law_expression_error_free(tokens, i + 1);
            },
            _ => {},
        }
    }
}

/// An expression read without error moved forward, and is neither `Garbage` nor an operator.
pub proof fn law_expression_error_free(tokens: Seq<Token>, i: int)
    ensures
        spec_expression(tokens, i) matches Some(p) ==> (p.error is None ==> i < p.index
            && !(p.value is Garbage) && !(p.value is Operator)),
    decreases tokens.len() - i, 2int,
{
    law_operand_error_free(tokens, i);
    lemma_operand_index(tokens, i);
    if let Some(lhs) = spec_operand(tokens, i) {
        if i <= lhs.index <= tokens.len() {
            let scan0 = ExprScan {
                operands: seq![lhs.value],
                ops: Seq::empty(),
                incomplete: false,
            };
            lemma_expr_scan_index(tokens, lhs.index, scan0, lhs.error);
            lemma_expr_scan_shape(tokens, lhs.index, scan0, lhs.error);
            if lhs.error is Some {
                law_expr_scan_keeps_error(tokens, lhs.index, scan0, lhs.error);
            }
        }
    }
}


/// What a single token stands for when read as a leaf of an expression.
pub open spec fn leaf_of(c: TokenContents) -> SpecExpression {
    match c {
        TokenContents::Name(n) => if n@ == "true"@ {
            SpecExpression::Boolean(true)
        } else if n@ == "false"@ {
            SpecExpression::Boolean(false)
        } else {
            SpecExpression::Var(n@)
        },
        TokenContents::Number(n) => SpecExpression::Int64(n),
        TokenContents::QuotedString(s) => SpecExpression::QuotedString(s@),
        _ => match operator_of(c) {
            Some(op) => SpecExpression::Operator(op),
            None => SpecExpression::Garbage,
        },
    }
}

/// The leaves of the tokens from `from` up to `to`.
pub open spec fn leaves(tokens: Seq<Token>, from: int, to: int) -> Seq<SpecExpression> {
    tokens.subrange(from, to).map_values(|t: Token| leaf_of(t.contents))
}

/// No token from `i` on opens a parenthesis.
pub open spec fn no_paren_from(tokens: Seq<Token>, i: int) -> bool {
    forall|t: int| i <= t < tokens.len() ==> !(#[trigger] tokens[t].contents is LParen)
}

/// Without parentheses ahead, an operand read without error is the leaf of its one token.
pub proof fn lemma_operand_leaf(tokens: Seq<Token>, i: int)
    requires
        no_paren_from(tokens, i),
    ensures
        spec_operand(tokens, i) matches Some(p) ==> (p.error is None ==> p.index == i + 1
            && p.value == leaf_of(tokens[i].contents) && !(p.value is BinaryOp)),
{
    if 0 <= i < tokens.len() {
        assert(!(tokens[i].contents is LParen));
        if i + 1 < tokens.len() {
            assert(!(tokens[i + 1].contents is LParen));
        }
    }
}

proof fn lemma_interleave_push(
    operands: Seq<SpecExpression>,
    ops: Seq<Operator>,
    op: Operator,
    x: SpecExpression,
)
    requires
        operands.len() == ops.len() + 1,
    ensures
        interleave(operands.push(x), ops.push(op)) == interleave(operands, ops).push(
            SpecExpression::Operator(op),
        ).push(x),
{
    let a = interleave(operands.push(x), ops.push(op));
    let b = interleave(operands, ops).push(SpecExpression::Operator(op)).push(x);
    assert forall|t: int| 0 <= t < a.len() implies a[t] == b[t] by {
        if t < 2 * ops.len() + 1 {
            if t % 2 == 0 {
                assert(t / 2 < operands.len());
            } else {
                assert(t / 2 < ops.len());
            }
        }
    }
    assert(a =~= b);
}

/// The operator loop of an expression without parentheses, read without error,
/// reads operands and operators that are the leaves of the tokens it passes.
proof fn lemma_scan_in_order(
    tokens: Seq<Token>,
    i0: int,
    i: int,
    scan: ExprScan,
    error: Option<SpecError>,
)
    requires
        no_paren_from(tokens, i0),
        0 <= i0 <= i <= tokens.len(),
        scan.operands.len() == scan.ops.len() + 1,
        !scan.incomplete,
        forall|j: int| 0 <= j < scan.operands.len() ==> !(#[trigger] scan.operands[j] is BinaryOp),
        interleave(scan.operands, scan.ops) == leaves(tokens, i0, i),
    ensures
        spec_expr_scan(tokens, i, scan, error) matches Some(p) ==> (p.error is None ==> {
            &&& !p.value.incomplete
            &&& p.value.operands.len() == p.value.ops.len() + 1
            &&& forall|j: int|
                0 <= j < p.value.operands.len() ==> !(#[trigger] p.value.operands[j] is BinaryOp)
            &&& interleave(p.value.operands, p.value.ops) == leaves(tokens, i0, p.index)
        }),
    decreases tokens.len() - i,
{
    if i < tokens.len() {
        if let Some(op) = operator_of(tokens[i].contents) {
            if i + 1 < tokens.len() {
                if let Some(rhs) = spec_operand(tokens, i + 1) {
                    if moved_forward(i, rhs.index, tokens.len() as int) {
                        let e2 = first_error(error, rhs.error);
                        let next = ExprScan {
                            operands: scan.operands.push(rhs.value),
                            ops: scan.ops.push(op),
                            incomplete: false,
                        };
                        if e2 is Some {
                            law_expr_scan_keeps_error(tokens, rhs.index, next, e2);
                        } else {
                            lemma_operand_leaf(tokens, i + 1);
                            lemma_interleave_push(scan.operands, scan.ops, op, rhs.value);
                            assert(leaves(tokens, i0, i + 2) =~= leaves(tokens, i0, i).push(
                                leaf_of(tokens[i].contents),
                            ).push(leaf_of(tokens[i + 1].contents)));
                            assert forall|j: int| 0 <= j < next.operands.len() implies !(
                            #[trigger] next.operands[j] is BinaryOp) by {
                                if j < scan.operands.len() {
                                    assert(next.operands[j] == scan.operands[j]);
                                }
                            }
                            lemma_scan_in_order(tokens, i0, rhs.index, next, e2);
                        }
                    }
                }
            }
        }
    }
}

/// An expression read without error from tokens with no parenthesis ahead is,
/// read from left to right, exactly the leaves of the tokens it read, and its
/// operators are ordered by precedence.
pub proof fn law_expression_in_order(tokens: Seq<Token>, i: int)
    requires
        no_paren_from(tokens, i),
    ensures
        spec_expression(tokens, i) matches Some(p) ==> (p.error is None ==> flatten(p.value)
            == leaves(tokens, i, p.index) && ordered(p.value)),
{
    lemma_operand_leaf(tokens, i);
    if let Some(lhs) = spec_operand(tokens, i) {
        if i <= lhs.index <= tokens.len() {
            let scan0 = ExprScan {
                operands: seq![lhs.value],
                ops: Seq::empty(),
                incomplete: false,
            };
            if lhs.error is Some {
                law_expr_scan_keeps_error(tokens, lhs.index, scan0, lhs.error);
            } else {
                assert(interleave(scan0.operands, scan0.ops) =~= leaves(tokens, i, i + 1));
                lemma_scan_in_order(tokens, i, lhs.index, scan0, lhs.error);
                if let Some(p) = spec_expr_scan(tokens, lhs.index, scan0, lhs.error) {
                    if p.error is None {
                        law_tree_in_order(p.value.operands, p.value.ops);
                    }
                }
            }
        }
    }
}


/// The first error among outcomes read from left to right.
pub open spec fn first_of(errors: Seq<Option<SpecError>>) -> Option<SpecError>
    decreases errors.len(),
{
    if errors.len() == 0 {
        None
    } else {
        first_error(first_of(errors.drop_last()), errors.last())
    }
}

/// `parse_function` at `s`, kept folded in proofs about whole files.
#[verifier::opaque]
pub open spec fn function_at(tokens: Seq<Token>, s: int) -> Option<Parsed<SpecFunction>> {
    spec_function(tokens, s)
}

/// Every token from `from` up to `to` is a line end.
pub open spec fn all_eol(tokens: Seq<Token>, from: int, to: int) -> bool {
    forall|t: int| from <= t < to ==> #[trigger] tokens[t].contents is Eol
}

/// Where the line ends before the `j`-th function begin: at 0 for the first
/// function, else where the function before it ended.
pub open spec fn gap_start(tokens: Seq<Token>, starts: Seq<int>, j: int) -> int {
    if j == 0 {
        0
    } else {
        function_at(tokens, starts[j - 1]).unwrap().index
    }
}

/// The tokens are, in order: line ends, a function at `starts[0]`, line ends, a
/// function at `starts[1]`, ..., line ends, and then the end of the tokens or an
/// end-of-file token at `stop`.
pub open spec fn file_layout(tokens: Seq<Token>, starts: Seq<int>, stop: int) -> bool {
    &&& forall|j: int|
        0 <= j < starts.len() ==> {
            &&& 0 <= gap_start(tokens, starts, j) <= #[trigger] starts[j] < tokens.len()
            &&& is_name(tokens[starts[j]].contents, "fun"@)
            &&& function_at(tokens, starts[j]) is Some
            &&& all_eol(tokens, gap_start(tokens, starts, j), starts[j])
        }
    &&& 0 <= gap_start(tokens, starts, starts.len() as int) <= stop <= tokens.len()
    &&& all_eol(tokens, gap_start(tokens, starts, starts.len() as int), stop)
    &&& (stop == tokens.len() || tokens[stop].contents is Eof)
}

/// The functions read at `starts`.
pub open spec fn functions_at(tokens: Seq<Token>, starts: Seq<int>) -> Seq<SpecFunction> {
    starts.map_values(|s: int| function_at(tokens, s).unwrap().value)
}

/// The errors of the functions read at `starts`.
pub open spec fn errors_at(tokens: Seq<Token>, starts: Seq<int>) -> Seq<Option<SpecError>> {
    starts.map_values(|s: int| function_at(tokens, s).unwrap().error)
}

proof fn lemma_skip_eols(
    tokens: Seq<Token>,
    a: int,
    b: int,
    funs: Seq<SpecFunction>,
    error: Option<SpecError>,
)
    requires
        0 <= a <= b <= tokens.len(),
        all_eol(tokens, a, b),
    ensures
        spec_file_rest(tokens, a, funs, error) == spec_file_rest(tokens, b, funs, error),
    decreases b - a,
{
    if a < b {
        assert(tokens[a].contents is Eol);
        lemma_skip_eols(tokens, a + 1, b, funs, error);
    }
}

proof fn lemma_file_step(tokens: Seq<Token>, s: int, funs: Seq<SpecFunction>, error: Option<SpecError>)
    requires
        0 <= s < tokens.len(),
        is_name(tokens[s].contents, "fun"@),
        function_at(tokens, s) is Some,
    ensures
        spec_file_rest(tokens, s, funs, error) == spec_file_rest(
            tokens,
            function_at(tokens, s).unwrap().index,
            funs.push(function_at(tokens, s).unwrap().value),
            first_error(error, function_at(tokens, s).unwrap().error),
        ),
{
    reveal(function_at);
}

#[verifier::spinoff_prover]
proof fn lemma_file_from(tokens: Seq<Token>, starts: Seq<int>, stop: int, j: int)
    requires
        file_layout(tokens, starts, stop),
        0 <= j <= starts.len(),
    ensures
        spec_file_rest(
            tokens,
            gap_start(tokens, starts, j),
            functions_at(tokens, starts).take(j),
            first_of(errors_at(tokens, starts).take(j)),
        ) == Some((functions_at(tokens, starts), first_of(errors_at(tokens, starts)))),
    decreases starts.len() - j,
{
    let vals = functions_at(tokens, starts);
    let errs = errors_at(tokens, starts);
    let g = gap_start(tokens, starts, j);
    if j == starts.len() {
        lemma_skip_eols(tokens, g, stop, vals.take(j), first_of(errs.take(j)));
        assert(vals.take(j) =~= vals);
        assert(errs.take(j) =~= errs);
    } else {
        let s = starts[j];
        lemma_skip_eols(tokens, g, s, vals.take(j), first_of(errs.take(j)));
        lemma_file_step(tokens, s, vals.take(j), first_of(errs.take(j)));
        let f = function_at(tokens, s).unwrap();
        assert(vals.take(j).push(f.value) =~= vals.take(j + 1));
        assert(errs.take(j + 1).drop_last() =~= errs.take(j));
        assert(gap_start(tokens, starts, j + 1) == f.index);
        lemma_file_from(tokens, starts, stop, j + 1);
    }
}

/// A file laid out as functions separated by line ends, up to its end or an
/// end-of-file token, reads as the functions read at their starts, in order,
/// with the first of their errors.
pub proof fn law_file_of_functions(tokens: Seq<Token>, starts: Seq<int>, stop: int)
    requires
        file_layout(tokens, starts, stop),
    ensures
        spec_file(tokens) == Some(
            (functions_at(tokens, starts), first_of(errors_at(tokens, starts))),
        ),
{
    lemma_file_from(tokens, starts, stop, 0);
    assert(functions_at(tokens, starts).take(0) =~= Seq::<SpecFunction>::empty());
    assert(errors_at(tokens, starts).take(0) =~= Seq::<Option<SpecError>>::empty());
}


/// Whether the operator loop of an expression ends, and where, does not depend
/// on what was read before it.
pub proof fn lemma_expr_scan_acc_free(
    tokens: Seq<Token>,
    i: int,
    s1: ExprScan,
    e1: Option<SpecError>,
    s2: ExprScan,
    e2: Option<SpecError>,
)
    ensures
        (spec_expr_scan(tokens, i, s1, e1) is Some) == (spec_expr_scan(tokens, i, s2, e2) is Some),
        spec_expr_scan(tokens, i, s1, e1) is Some ==> spec_expr_scan(tokens, i, s1, e1).unwrap().index
            == spec_expr_scan(tokens, i, s2, e2).unwrap().index,
    decreases tokens.len() - i,
{
    if 0 <= i < tokens.len() {
        if let Some(op) = operator_of(tokens[i].contents) {
            if i + 1 < tokens.len() {
                if let Some(rhs) = spec_operand(tokens, i + 1) {
                    if moved_forward(i, rhs.index, tokens.len() as int) {
                        lemma_expr_scan_acc_free(
                            tokens,
                            rhs.index,
                            ExprScan {
                                operands: s1.operands.push(rhs.value),
                                ops: s1.ops.push(op),
                                incomplete: false,
                            },
                            first_error(e1, rhs.error),
                            ExprScan {
                                operands: s2.operands.push(rhs.value),
                                ops: s2.ops.push(op),
                                incomplete: false,
                            },
                            first_error(e2, rhs.error),
                        );
                    }
                }
            }
        }
    }
}

/// Whether the argument loop of a call ends, and where, does not depend on
/// what was read before it.
pub proof fn lemma_call_args_acc_free(
    tokens: Seq<Token>,
    i: int,
    c1: SpecCall,
    e1: Option<SpecError>,
    c2: SpecCall,
    e2: Option<SpecError>,
)
    ensures
        (spec_call_args(tokens, i, c1, e1) is Some) == (spec_call_args(tokens, i, c2, e2) is Some),
        spec_call_args(tokens, i, c1, e1) is Some ==> spec_call_args(tokens, i, c1, e1).unwrap().index
            == spec_call_args(tokens, i, c2, e2).unwrap().index,
    decreases tokens.len() - i,
{
    if 0 <= i < tokens.len() {
        match tokens[i].contents {
            TokenContents::RParen => {},
            TokenContents::Comma => {
                lemma_call_args_acc_free(tokens, i + 1, c1, e1, c2, e2);
            },
            _ => {
                if let Some(e) = spec_expression(tokens, i) {
                    if moved_forward(i, e.index, tokens.len() as int) {
                        lemma_call_args_acc_free(
                            tokens,
                            e.index,
                            SpecCall { name: c1.name, args: c1.args.push((Seq::empty(), e.value)) },
                            first_error(e1, e.error),
                            SpecCall { name: c2.name, args: c2.args.push((Seq::empty(), e.value)) },
                            first_error(e2, e.error),
                        );
                    }
                }
            },
        }
    }
}

/// Whether the statement loop of a block ends, and where, does not depend on
/// what was read before it.
pub proof fn lemma_block_rest_acc_free(
    tokens: Seq<Token>,
    i: int,
    st1: Seq<SpecStatement>,
    e1: Option<SpecError>,
    st2: Seq<SpecStatement>,
    e2: Option<SpecError>,
)
    ensures
        (spec_block_rest(tokens, i, st1, e1) is Some) == (spec_block_rest(tokens, i, st2, e2) is Some),
        spec_block_rest(tokens, i, st1, e1) is Some ==> spec_block_rest(tokens, i, st1, e1).unwrap().index
            == spec_block_rest(tokens, i, st2, e2).unwrap().index,
    decreases tokens.len() - i,
{
    if 0 <= i < tokens.len() {
        match tokens[i].contents {
            TokenContents::RCurly => {},
            TokenContents::Semicolon | TokenContents::Eol => {
                lemma_block_rest_acc_free(tokens, i + 1, st1, e1, st2, e2);
            },
            _ => {
                if let Some(st) = spec_statement(tokens, i) {
                    if moved_forward(i, st.index, tokens.len() as int) {
                        lemma_block_rest_acc_free(
                            tokens,
                            st.index,
                            st1.push(st.value),
                            first_error(e1, st.error),
                            st2.push(st.value),
                            first_error(e2, st.error),
                        );
                    }
                }
            },
        }
    }
}

/// Whether the parameter loop ends, and where, does not depend on what was read before it.
pub proof fn lemma_params_acc_free(
    tokens: Seq<Token>,
    i: int,
    p1: Seq<(Seq<char>, Type)>,
    e1: Option<SpecError>,
    p2: Seq<(Seq<char>, Type)>,
    e2: Option<SpecError>,
)
    ensures
        (spec_params(tokens, i, p1, e1) is Some) == (spec_params(tokens, i, p2, e2) is Some),
        spec_params(tokens, i, p1, e1) is Some ==> spec_params(tokens, i, p1, e1).unwrap().index
            == spec_params(tokens, i, p2, e2).unwrap().index,
    decreases tokens.len() - i,
{
    if 0 <= i < tokens.len() {
        match tokens[i].contents {
            TokenContents::Comma => lemma_params_acc_free(tokens, i + 1, p1, e1, p2, e2),
            TokenContents::Name(_) => {
                lemma_var_decl_index(tokens, i);
                if let Some(d) = spec_var_decl(tokens, i) {
                    lemma_params_acc_free(
                        tokens,
                        d.index,
                        p1.push((d.value.name, d.value.ty)),
                        first_error(e1, d.error),
                        p2.push((d.value.name, d.value.ty)),
                        first_error(e2, d.error),
                    );
                }
            },
            _ => {},
        }
    }
}

/// Whether the loop of a file ends does not depend on what was read before it.
pub proof fn lemma_file_rest_acc_free(
    tokens: Seq<Token>,
    i: int,
    f1: Seq<SpecFunction>,
    e1: Option<SpecError>,
    f2: Seq<SpecFunction>,
    e2: Option<SpecError>,
)
    ensures
        (spec_file_rest(tokens, i, f1, e1) is Some) == (spec_file_rest(tokens, i, f2, e2) is Some),
    decreases tokens.len() - i,
{
    if 0 <= i < tokens.len() {
        match tokens[i].contents {
            TokenContents::Name(n) => {
                if n@ == "fun"@ {
                    if let Some(f) = spec_function(tokens, i) {
                        lemma_function_index(tokens, i);
                        lemma_file_rest_acc_free(
                            tokens,
                            f.index,
                            f1.push(f.value),
                            first_error(e1, f.error),
                            f2.push(f.value),
                            first_error(e2, f.error),
                        );
                    }
                }
            },
            TokenContents::Eol => lemma_file_rest_acc_free(tokens, i + 1, f1, e1, f2, e2),
            _ => {},
        }
    }
}


/// Without parentheses ahead, the operator loop of an expression always ends.
proof fn lemma_scan_defined(tokens: Seq<Token>, i0: int, i: int, scan: ExprScan, error: Option<SpecError>)
    requires
        no_paren_from(tokens, i0),
        0 <= i0 <= i <= tokens.len(),
    ensures
        spec_expr_scan(tokens, i, scan, error) is Some,
    decreases tokens.len() - i,
{
    if i < tokens.len() {
        if let Some(op) = operator_of(tokens[i].contents) {
            if i + 1 < tokens.len() {
                assert(!(tokens[i + 1].contents is LParen));
                if i + 2 < tokens.len() {
                    assert(!(tokens[i + 2].contents is LParen));
                }
                lemma_operand_index(tokens, i + 1);
                let rhs = spec_operand(tokens, i + 1).unwrap();
                lemma_scan_defined(
                    tokens,
                    i0,
                    rhs.index,
                    ExprScan {
                        operands: scan.operands.push(rhs.value),
                        ops: scan.ops.push(op),
                        incomplete: false,
                    },
                    first_error(error, rhs.error),
                );
            }
        }
    }
}

/// Without parentheses ahead, an expression that starts inside the tokens
/// always ends: `parse_expression` may be called there.
pub proof fn law_expression_defined_without_parens(tokens: Seq<Token>, i: int)
    requires
        no_paren_from(tokens, i),
        0 <= i < tokens.len(),
    ensures
        spec_expression(tokens, i) is Some,
{
    assert(!(tokens[i].contents is LParen));
    if i + 1 < tokens.len() {
        assert(!(tokens[i + 1].contents is LParen));
    }
    lemma_operand_index(tokens, i);
    let lhs = spec_operand(tokens, i).unwrap();
    lemma_scan_defined(
        tokens,
        i,
        lhs.index,
        ExprScan { operands: seq![lhs.value], ops: Seq::empty(), incomplete: false },
        lhs.error,
    );
}

} // verus!
