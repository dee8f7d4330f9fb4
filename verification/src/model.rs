use vstd::prelude::*;
use crate::parser::{
    Block, Call, Expression, Function, JaktError, Operator, ParsedFile, Span, Statement, Token,
    TokenContents, Type, VarDecl,
};

verus! {

/// The mathematical value of an `Expression`: strings become character sequences.
pub enum SpecExpression {
    Boolean(bool),
    Call(SpecCall),
    Int64(i64),
    QuotedString(Seq<char>),
    BinaryOp(Box<SpecExpression>, Box<SpecExpression>, Box<SpecExpression>),
    Var(Seq<char>),
    Operator(Operator),
    Garbage,
}

/// The mathematical value of a `Call`.
pub struct SpecCall {
    pub name: Seq<char>,
    pub args: Seq<(Seq<char>, SpecExpression)>,
}

/// The mathematical value of a `VarDecl`.
pub struct SpecVarDecl {
    pub name: Seq<char>,
    pub ty: Type,
    pub mutable: bool,
}

/// The mathematical value of a `Statement`.
pub enum SpecStatement {
    Expression(SpecExpression),
    Defer(Seq<SpecStatement>),
    VarDecl(SpecVarDecl, SpecExpression),
    If(SpecExpression, Seq<SpecStatement>),
    While(SpecExpression, Seq<SpecStatement>),
    Return(SpecExpression),
    Garbage,
}

/// The mathematical value of a `Function`; its block is the sequence of its statements.
pub struct SpecFunction {
    pub name: Seq<char>,
    pub params: Seq<(Seq<char>, Type)>,
    pub block: Seq<SpecStatement>,
    pub return_type: Type,
}

/// The mathematical value of a `JaktError`.
pub enum SpecError {
    ParserError(Seq<char>, Span),
}

pub open spec fn view_expression(e: Expression) -> SpecExpression
    decreases e,
{
    match e {
        Expression::Boolean(b) => SpecExpression::Boolean(b),
        Expression::Call(c) => SpecExpression::Call(
            SpecCall { name: c.name@, args: view_args(c.args@) },
        ),
        Expression::Int64(n) => SpecExpression::Int64(n),
        Expression::QuotedString(s) => SpecExpression::QuotedString(s@),
        Expression::BinaryOp(l, o, r) => SpecExpression::BinaryOp(
            Box::new(view_expression(*l)),
            Box::new(view_expression(*o)),
            Box::new(view_expression(*r)),
        ),
        Expression::Var(s) => SpecExpression::Var(s@),
        Expression::Operator(op) => SpecExpression::Operator(op),
        Expression::Garbage => SpecExpression::Garbage,
    }
}

pub open spec fn view_args(args: Seq<(String, Expression)>) -> Seq<(Seq<char>, SpecExpression)>
    decreases args,
{
    if args.len() == 0 {
        Seq::empty()
    } else {
        view_args(args.drop_last()).push((args.last().0@, view_expression(args.last().1)))
    }
}


pub open spec fn view_statement(s: Statement) -> SpecStatement
    decreases s,
{
    match s {
        Statement::Expression(e) => SpecStatement::Expression(view_expression(e)),
        Statement::Defer(b) => SpecStatement::Defer(view_statements(b.stmts@)),
        Statement::VarDecl(d, e) => SpecStatement::VarDecl(d@, view_expression(e)),
        Statement::If(e, b) => SpecStatement::If(view_expression(e), view_statements(b.stmts@)),
        Statement::While(e, b) => SpecStatement::While(
            view_expression(e),
            view_statements(b.stmts@),
        ),
        Statement::Return(e) => SpecStatement::Return(view_expression(e)),
        Statement::Garbage => SpecStatement::Garbage,
    }
}

pub open spec fn view_statements(stmts: Seq<Statement>) -> Seq<SpecStatement>
    decreases stmts,
{
    if stmts.len() == 0 {
        Seq::empty()
    } else {
        view_statements(stmts.drop_last()).push(view_statement(stmts.last()))
    }
}

pub open spec fn view_params(params: Seq<(String, Type)>) -> Seq<(Seq<char>, Type)> {
    params.map_values(|p: (String, Type)| (p.0@, p.1))
}

pub open spec fn view_function(f: Function) -> SpecFunction {
    SpecFunction {
        name: f.name@,
        params: view_params(f.params@),
        block: f.block@,
        return_type: f.return_type,
    }
}

pub open spec fn view_functions(funs: Seq<Function>) -> Seq<SpecFunction> {
    funs.map_values(|f: Function| view_function(f))
}

pub open spec fn view_error(e: Option<JaktError>) -> Option<SpecError> {
    match e {
        Some(JaktError::ParserError(msg, span)) => Some(SpecError::ParserError(msg@, span)),
        None => None,
    }
}

impl View for Expression {
    type V = SpecExpression;

    open spec fn view(&self) -> SpecExpression {
        view_expression(*self)
    }
}

impl View for Call {
    type V = SpecCall;

    open spec fn view(&self) -> SpecCall {
        SpecCall { name: self.name@, args: view_args(self.args@) }
    }
}

impl View for VarDecl {
    type V = SpecVarDecl;

    open spec fn view(&self) -> SpecVarDecl {
        SpecVarDecl { name: self.name@, ty: self.ty, mutable: self.mutable }
    }
}

impl View for Statement {
    type V = SpecStatement;

    open spec fn view(&self) -> SpecStatement {
        view_statement(*self)
    }
}

impl View for Block {
    type V = Seq<SpecStatement>;

    open spec fn view(&self) -> Seq<SpecStatement> {
        view_statements(self.stmts@)
    }
}

impl View for Function {
    type V = SpecFunction;

    open spec fn view(&self) -> SpecFunction {
        view_function(*self)
    }
}

impl View for ParsedFile {
    type V = Seq<SpecFunction>;

    open spec fn view(&self) -> Seq<SpecFunction> {
        view_functions(self.funs@)
    }
}

} // verus!
