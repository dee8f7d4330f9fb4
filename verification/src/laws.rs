//! What the parse steps build, stated through the tokens they read and the
//! other parse steps they are made of.
use vstd::prelude::*;
use crate::model::{SpecError, SpecExpression, SpecStatement};
use crate::parser::{Token, TokenContents, Type};
use crate::semantics::{
    first_error, first_of, is_name, lemma_statement_index, spec_block, spec_block_rest,
    spec_expression, spec_statement, spec_typename, spec_var_decl, type_of_name, Parsed,
    spec_call, spec_call_args, spec_operand, parser_error, lemma_expression_index,
    spec_function, spec_params, lemma_params_acc_free, spec_operator, lemma_var_decl_index,
};
use crate::parser::Operator;
use crate::model::SpecCall;

verus! {

/// How the language spells each type; `Void` cannot be written.
pub open spec fn spelling_of(ty: Type) -> Seq<char> {
    match ty {
        Type::String => "String"@,
        Type::I8 => "i8"@,
        Type::I16 => "i16"@,
        Type::I32 => "i32"@,
        Type::I64 => "i64"@,
        Type::U8 => "u8"@,
        Type::U16 => "u16"@,
        Type::U32 => "u32"@,
        Type::U64 => "u64"@,
        Type::F32 => "f32"@,
        Type::F64 => "f64"@,
        Type::Void => Seq::empty(),
    }
}

/// A name token that spells a type is read as that type.
pub proof fn law_spelling(name: Seq<char>, ty: Type)
    requires
        !(ty is Void),
        spelling_of(ty) == name,
    ensures
        type_of_name(name) == Some(ty),
{
    reveal_strlit("String");
    reveal_strlit("i8");
    reveal_strlit("i16");
    reveal_strlit("i32");
    reveal_strlit("i64");
    reveal_strlit("u8");
    reveal_strlit("u16");
    reveal_strlit("u32");
    reveal_strlit("u64");
    reveal_strlit("f32");
    reveal_strlit("f64");
    let all: Seq<Seq<char>> = seq!["String"@, "i8"@, "i16"@, "i32"@, "i64"@, "u8"@, "u16"@, "u32"@, "u64"@, "f32"@, "f64"@];
    assert forall|a: int, b: int| 0 <= a < b < 11 implies all[a] != all[b] by {
        let x = all[a];
        let y = all[b];
        if x.len() == y.len() {
            assert(x.len() >= 2);
            if x[0] == y[0] {
                if x[1] == y[1] {
                    assert(x.len() == 3);
                    assert(x[2] != y[2]);
                }
            }
        }
    }
    match ty {
        Type::String => {
            assert(name == all[0]);
        },
        Type::I8 => {
            assert(name == all[1]);
            assert(all[0] != all[1]);
        },
        Type::I16 => {
            assert(name == all[2]);
            assert(all[0] != all[2]);
            assert(all[1] != all[2]);
        },
        Type::I32 => {
            assert(name == all[3]);
            assert(all[0] != all[3]);
            assert(all[1] != all[3]);
            assert(all[2] != all[3]);
        },
        Type::I64 => {
            assert(name == all[4]);
            assert(all[0] != all[4]);
            assert(all[1] != all[4]);
            assert(all[2] != all[4]);
            assert(all[3] != all[4]);
        },
        Type::U8 => {
            assert(name == all[5]);
            assert(all[0] != all[5]);
            assert(all[1] != all[5]);
            assert(all[2] != all[5]);
            assert(all[3] != all[5]);
            assert(all[4] != all[5]);
        },
        Type::U16 => {
            assert(name == all[6]);
            assert(all[0] != all[6]);
            assert(all[1] != all[6]);
            assert(all[2] != all[6]);
            assert(all[3] != all[6]);
            assert(all[4] != all[6]);
            assert(all[5] != all[6]);
        },
        Type::U32 => {
            assert(name == all[7]);
            assert(all[0] != all[7]);
            assert(all[1] != all[7]);
            assert(all[2] != all[7]);
            assert(all[3] != all[7]);
            assert(all[4] != all[7]);
            assert(all[5] != all[7]);
            assert(all[6] != all[7]);
        },
        Type::U64 => {
            assert(name == all[8]);
            assert(all[0] != all[8]);
            assert(all[1] != all[8]);
            assert(all[2] != all[8]);
            assert(all[3] != all[8]);
            assert(all[4] != all[8]);
            assert(all[5] != all[8]);
            assert(all[6] != all[8]);
            assert(all[7] != all[8]);
        },
        Type::F32 => {
            assert(name == all[9]);
            assert(all[0] != all[9]);
            assert(all[1] != all[9]);
            assert(all[2] != all[9]);
            assert(all[3] != all[9]);
            assert(all[4] != all[9]);
            assert(all[5] != all[9]);
            assert(all[6] != all[9]);
            assert(all[7] != all[9]);
            assert(all[8] != all[9]);
        },
        Type::F64 => {
            assert(name == all[10]);
            assert(all[0] != all[10]);
            assert(all[1] != all[10]);
            assert(all[2] != all[10]);
            assert(all[3] != all[10]);
            assert(all[4] != all[10]);
            assert(all[5] != all[10]);
            assert(all[6] != all[10]);
            assert(all[7] != all[10]);
            assert(all[8] != all[10]);
            assert(all[9] != all[10]);
        },
        Type::Void => {},
    }
}

/// `parse_typename` at a name token that spells a type gives that type, without error.
pub proof fn law_typename_spelling(t: Seq<Token>, x: int, ty: Type)
    requires
        0 <= x < t.len(),
        t[x].contents matches TokenContents::Name(n) && spelling_of(ty) == n@,
        !(ty is Void),
    ensures
        spec_typename(t, x) == Some(crate::semantics::Parsed { value: ty, index: x, error: None }),
{
    if let TokenContents::Name(n) = t[x].contents {
        law_spelling(n@, ty);
    }
}

/// A declaration starting at a name is named by it; its type is the one that
/// the token where it ends spells, read without error.
pub proof fn law_var_decl_type(t: Seq<Token>, x: int, ty: Type)
    requires
        0 <= x < t.len(),
        t[x].contents is Name,
        spec_var_decl(t, x) is Some,
        !(ty is Void),
        t[spec_var_decl(t, x).unwrap().index - 1].contents matches TokenContents::Name(n)
            && spelling_of(ty) == n@,
    ensures
        spec_var_decl(t, x).unwrap().value.ty == ty,
        spec_var_decl(t, x).unwrap().error is None,
        t[x].contents matches TokenContents::Name(m) && spec_var_decl(t, x).unwrap().value.name
            == m@,
        !spec_var_decl(t, x).unwrap().value.mutable,
{
    let j = spec_var_decl(t, x).unwrap().index - 1;
    law_typename_spelling(t, j, ty);
}


proof fn lemma_keywords_differ()
    ensures
        "defer"@ != "if"@,
        "defer"@ != "while"@,
        "if"@ != "while"@,
        "defer"@ != "return"@,
        "if"@ != "return"@,
        "while"@ != "return"@,
        "let"@ != "defer"@,
        "let"@ != "if"@,
        "let"@ != "while"@,
        "let"@ != "return"@,
        "var"@ != "defer"@,
        "var"@ != "if"@,
        "var"@ != "while"@,
        "var"@ != "return"@,
        "let"@ != "var"@,
{
    reveal_strlit("defer");
    reveal_strlit("if");
    reveal_strlit("while");
    reveal_strlit("return");
    reveal_strlit("let");
    reveal_strlit("var");
    assert("defer"@.len() != "if"@.len());
    assert("defer"@[0] != "while"@[0]);
    assert("if"@.len() != "while"@.len());
    assert("defer"@.len() != "return"@.len());
    assert("if"@.len() != "return"@.len());
    assert("while"@.len() != "return"@.len());
    assert("let"@.len() != "defer"@.len());
    assert("let"@.len() != "if"@.len());
    assert("let"@.len() != "while"@.len());
    assert("let"@.len() != "return"@.len());
    assert("var"@.len() != "defer"@.len());
    assert("var"@.len() != "if"@.len());
    assert("var"@.len() != "while"@.len());
    assert("var"@.len() != "return"@.len());
    assert("let"@[0] != "var"@[0]);
}

/// `while C { S.. }` is a loop whose condition is the expression read after
/// `while` and whose body is the block read where that expression ends: the
/// same condition and block that `if` gets. The statement ends where the block
/// ends, with the first error of the two.
pub proof fn law_while_statement(t: Seq<Token>, x: int)
    requires
        0 <= x < t.len(),
        is_name(t[x].contents, "while"@),
        spec_statement(t, x) is Some,
    ensures
        ({
            let c = spec_expression(t, x + 1).unwrap();
            let b = spec_block(t, c.index).unwrap();
            &&& spec_expression(t, x + 1) is Some
            &&& spec_block(t, c.index) is Some
            &&& spec_statement(t, x).unwrap().value == SpecStatement::While(c.value, b.value)
            &&& spec_statement(t, x).unwrap().index == b.index
            &&& spec_statement(t, x).unwrap().error == first_error(c.error, b.error)
        }),
{
    lemma_keywords_differ();
}

/// `if C { S.. }` has as condition the expression read after `if` and as body
/// the block read where that expression ends.
pub proof fn law_if_statement(t: Seq<Token>, x: int)
    requires
        0 <= x < t.len(),
        is_name(t[x].contents, "if"@),
        spec_statement(t, x) is Some,
    ensures
        ({
            let c = spec_expression(t, x + 1).unwrap();
            let b = spec_block(t, c.index).unwrap();
            &&& spec_expression(t, x + 1) is Some
            &&& spec_block(t, c.index) is Some
            &&& spec_statement(t, x).unwrap().value == SpecStatement::If(c.value, b.value)
            &&& spec_statement(t, x).unwrap().index == b.index
            &&& spec_statement(t, x).unwrap().error == first_error(c.error, b.error)
        }),
{
    lemma_keywords_differ();
}

/// `defer { S.. }` holds the block read after `defer`.
pub proof fn law_defer_statement(t: Seq<Token>, x: int)
    requires
        0 <= x < t.len(),
        is_name(t[x].contents, "defer"@),
        spec_statement(t, x) is Some,
    ensures
        spec_block(t, x + 1) is Some,
        spec_statement(t, x).unwrap().value == SpecStatement::Defer(
            spec_block(t, x + 1).unwrap().value,
        ),
        spec_statement(t, x).unwrap().index == spec_block(t, x + 1).unwrap().index,
        spec_statement(t, x).unwrap().error == spec_block(t, x + 1).unwrap().error,
{
}

/// `return E` returns the expression read after `return`.
pub proof fn law_return_statement(t: Seq<Token>, x: int)
    requires
        0 <= x < t.len(),
        is_name(t[x].contents, "return"@),
        spec_statement(t, x) is Some,
    ensures
        spec_expression(t, x + 1) is Some,
        spec_statement(t, x).unwrap().value == SpecStatement::Return(
            spec_expression(t, x + 1).unwrap().value,
        ),
        spec_statement(t, x).unwrap().index == spec_expression(t, x + 1).unwrap().index,
        spec_statement(t, x).unwrap().error == spec_expression(t, x + 1).unwrap().error,
{
    lemma_keywords_differ();
}

/// `let`/`var` D `=` E declares D, mutable exactly after `var`, initialised
/// by the expression read after `=`.
pub proof fn law_declaration_statement(t: Seq<Token>, x: int)
    requires
        0 <= x < t.len(),
        is_name(t[x].contents, "let"@) || is_name(t[x].contents, "var"@),
        spec_statement(t, x) is Some,
        ({
            let d = spec_var_decl(t, x + 1);
            d is Some && d.unwrap().index < t.len() && t[d.unwrap().index].contents is Equal
                && d.unwrap().index + 1 < t.len()
        }),
    ensures
        ({
            let d = spec_var_decl(t, x + 1).unwrap();
            let e = spec_expression(t, d.index + 1).unwrap();
            &&& spec_expression(t, d.index + 1) is Some
            &&& spec_statement(t, x).unwrap().value == SpecStatement::VarDecl(
                crate::model::SpecVarDecl {
                    name: d.value.name,
                    ty: d.value.ty,
                    mutable: is_name(t[x].contents, "var"@),
                },
                e.value,
            )
            &&& spec_statement(t, x).unwrap().index == e.index
            &&& spec_statement(t, x).unwrap().error == first_error(d.error, e.error)
        }),
{
    lemma_keywords_differ();
}


/// `parse_statement` at `s`, kept folded in proofs about whole blocks.
#[verifier::opaque]
pub open spec fn statement_at(t: Seq<Token>, s: int) -> Option<Parsed<SpecStatement>> {
    spec_statement(t, s)
}

/// Every token from `from` up to `to` is a semicolon or a line end.
pub open spec fn all_separators(t: Seq<Token>, from: int, to: int) -> bool {
    forall|q: int|
        from <= q < to ==> (#[trigger] t[q].contents is Semicolon || t[q].contents is Eol)
}

/// Where the separators before the `k`-th statement begin: at `x` for the
/// first, else where the statement before it ended.
pub open spec fn stmt_gap_start(t: Seq<Token>, x: int, starts: Seq<int>, k: int) -> int {
    if k == 0 {
        x
    } else {
        statement_at(t, starts[k - 1]).unwrap().index
    }
}

/// From `x` the tokens are: separators, a statement at `starts[0]`,
/// separators, a statement at `starts[1]`, ..., separators, and `}` at `close`.
pub open spec fn block_layout(t: Seq<Token>, x: int, starts: Seq<int>, close: int) -> bool {
    &&& forall|k: int|
        0 <= k < starts.len() ==> {
            &&& 0 <= stmt_gap_start(t, x, starts, k) <= #[trigger] starts[k] < t.len()
            &&& all_separators(t, stmt_gap_start(t, x, starts, k), starts[k])
            &&& !(t[starts[k]].contents is RCurly)
            &&& !(t[starts[k]].contents is Semicolon)
            &&& !(t[starts[k]].contents is Eol)
            &&& statement_at(t, starts[k]) is Some
            &&& starts[k] < statement_at(t, starts[k]).unwrap().index
        }
    &&& 0 <= stmt_gap_start(t, x, starts, starts.len() as int) <= close < t.len()
    &&& all_separators(t, stmt_gap_start(t, x, starts, starts.len() as int), close)
    &&& t[close].contents is RCurly
}

/// The statements read at `starts`.
pub open spec fn statements_at(t: Seq<Token>, starts: Seq<int>) -> Seq<SpecStatement> {
    starts.map_values(|s: int| statement_at(t, s).unwrap().value)
}

/// The errors of the statements read at `starts`.
pub open spec fn statement_errors_at(t: Seq<Token>, starts: Seq<int>) -> Seq<Option<SpecError>> {
    starts.map_values(|s: int| statement_at(t, s).unwrap().error)
}

proof fn lemma_skip_separators(
    t: Seq<Token>,
    a: int,
    b: int,
    stmts: Seq<SpecStatement>,
    error: Option<SpecError>,
)
    requires
        0 <= a <= b <= t.len(),
        all_separators(t, a, b),
    ensures
        spec_block_rest(t, a, stmts, error) == spec_block_rest(t, b, stmts, error),
    decreases b - a,
{
    if a < b {
        assert(t[a].contents is Semicolon || t[a].contents is Eol);
        lemma_skip_separators(t, a + 1, b, stmts, error);
    }
}

proof fn lemma_statement_step(
    t: Seq<Token>,
    s: int,
    stmts: Seq<SpecStatement>,
    error: Option<SpecError>,
)
    requires
        0 <= s < t.len(),
        !(t[s].contents is RCurly),
        !(t[s].contents is Semicolon),
        !(t[s].contents is Eol),
        statement_at(t, s) is Some,
        s < statement_at(t, s).unwrap().index,
    ensures
        spec_block_rest(t, s, stmts, error) == spec_block_rest(
            t,
            statement_at(t, s).unwrap().index,
            stmts.push(statement_at(t, s).unwrap().value),
            first_error(error, statement_at(t, s).unwrap().error),
        ),
{
    reveal(statement_at);
    lemma_statement_index(t, s);
}

#[verifier::spinoff_prover]
proof fn lemma_block_from(t: Seq<Token>, x: int, starts: Seq<int>, close: int, k: int)
    requires
        block_layout(t, x, starts, close),
        0 <= k <= starts.len(),
    ensures
        spec_block_rest(
            t,
            stmt_gap_start(t, x, starts, k),
            statements_at(t, starts).take(k),
            first_of(statement_errors_at(t, starts).take(k)),
        ) == Some(
            Parsed {
                value: statements_at(t, starts),
                index: close + 1,
                error: first_of(statement_errors_at(t, starts)),
            },
        ),
    decreases starts.len() - k,
{
    let vals = statements_at(t, starts);
    let errs = statement_errors_at(t, starts);
    let g = stmt_gap_start(t, x, starts, k);
    if k == starts.len() {
        lemma_skip_separators(t, g, close, vals.take(k), first_of(errs.take(k)));
        assert(vals.take(k) =~= vals);
        assert(errs.take(k) =~= errs);
    } else {
        let s = starts[k];
        lemma_skip_separators(t, g, s, vals.take(k), first_of(errs.take(k)));
        lemma_statement_step(t, s, vals.take(k), first_of(errs.take(k)));
        let st = statement_at(t, s).unwrap();
        assert(vals.take(k).push(st.value) =~= vals.take(k + 1));
        assert(errs.take(k + 1).drop_last() =~= errs.take(k));
        assert(stmt_gap_start(t, x, starts, k + 1) == st.index);
        lemma_block_from(t, x, starts, close, k + 1);
    }
}

/// A block closed by `}` holds, in order, the statements read at each
/// statement start between its braces and nothing else (so as many statements
/// as were read), ends just after the `}`, and reports the first of their errors.
pub proof fn law_block_statements(t: Seq<Token>, i: int, starts: Seq<int>, close: int)
    requires
        0 <= i < t.len(),
        block_layout(t, i + 1, starts, close),
    ensures
        spec_block(t, i) == Some(
            Parsed {
                value: statements_at(t, starts),
                index: close + 1,
                error: first_of(statement_errors_at(t, starts)),
            },
        ),
        statements_at(t, starts).len() == starts.len(),
{
    lemma_block_from(t, i + 1, starts, close, 0);
    assert(statements_at(t, starts).take(0) =~= Seq::<SpecStatement>::empty());
    assert(statement_errors_at(t, starts).take(0) =~= Seq::<Option<SpecError>>::empty());
}


/// `parse_expression` at `s`, kept folded in proofs about whole argument lists.
#[verifier::opaque]
pub open spec fn expression_at(t: Seq<Token>, s: int) -> Option<Parsed<SpecExpression>> {
    spec_expression(t, s)
}

/// Every token from `from` up to `to` is a comma.
pub open spec fn all_commas(t: Seq<Token>, from: int, to: int) -> bool {
    forall|q: int| from <= q < to ==> #[trigger] t[q].contents is Comma
}

/// Where the commas before the `k`-th argument begin: at `x` for the first,
/// else where the argument before it ended.
pub open spec fn arg_gap_start(t: Seq<Token>, x: int, starts: Seq<int>, k: int) -> int {
    if k == 0 {
        x
    } else {
        expression_at(t, starts[k - 1]).unwrap().index
    }
}

/// From `x` the tokens are: commas, an argument at `starts[0]`, commas, an
/// argument at `starts[1]`, ..., commas, and `)` at `close`.
pub open spec fn args_layout(t: Seq<Token>, x: int, starts: Seq<int>, close: int) -> bool {
    &&& forall|k: int|
        0 <= k < starts.len() ==> {
            &&& 0 <= arg_gap_start(t, x, starts, k) <= #[trigger] starts[k] < t.len()
            &&& all_commas(t, arg_gap_start(t, x, starts, k), starts[k])
            &&& !(t[starts[k]].contents is RParen)
            &&& !(t[starts[k]].contents is Comma)
            &&& expression_at(t, starts[k]) is Some
            &&& starts[k] < expression_at(t, starts[k]).unwrap().index
        }
    &&& 0 <= arg_gap_start(t, x, starts, starts.len() as int) <= close < t.len()
    &&& all_commas(t, arg_gap_start(t, x, starts, starts.len() as int), close)
    &&& t[close].contents is RParen
}

/// The arguments read at `starts`, each with an empty label.
pub open spec fn args_at(t: Seq<Token>, starts: Seq<int>) -> Seq<(Seq<char>, SpecExpression)> {
    starts.map_values(|s: int| (Seq::<char>::empty(), expression_at(t, s).unwrap().value))
}

/// The errors of the arguments read at `starts`.
pub open spec fn arg_errors_at(t: Seq<Token>, starts: Seq<int>) -> Seq<Option<SpecError>> {
    starts.map_values(|s: int| expression_at(t, s).unwrap().error)
}

/// The error a call with these arguments, closed at `close`, reports.
pub open spec fn call_error(t: Seq<Token>, starts: Seq<int>, close: int) -> Option<SpecError> {
    if close + 1 < t.len() {
        first_of(arg_errors_at(t, starts))
    } else {
        first_error(
            first_of(arg_errors_at(t, starts)),
            parser_error("incomplete call"@, t[close].span),
        )
    }
}

proof fn lemma_skip_commas(
    t: Seq<Token>,
    a: int,
    b: int,
    call: SpecCall,
    error: Option<SpecError>,
)
    requires
        0 <= a <= b <= t.len(),
        all_commas(t, a, b),
    ensures
        spec_call_args(t, a, call, error) == spec_call_args(t, b, call, error),
    decreases b - a,
{
    if a < b {
        assert(t[a].contents is Comma);
        lemma_skip_commas(t, a + 1, b, call, error);
    }
}

proof fn lemma_arg_step(t: Seq<Token>, s: int, call: SpecCall, error: Option<SpecError>)
    requires
        0 <= s < t.len(),
        !(t[s].contents is RParen),
        !(t[s].contents is Comma),
        expression_at(t, s) is Some,
        s < expression_at(t, s).unwrap().index,
    ensures
        spec_call_args(t, s, call, error) == spec_call_args(
            t,
            expression_at(t, s).unwrap().index,
            SpecCall {
                name: call.name,
                args: call.args.push((Seq::empty(), expression_at(t, s).unwrap().value)),
            },
            first_error(error, expression_at(t, s).unwrap().error),
        ),
{
    reveal(expression_at);
    lemma_expression_index(t, s);
}

#[verifier::spinoff_prover]
proof fn lemma_args_from(
    t: Seq<Token>,
    x: int,
    name: Seq<char>,
    starts: Seq<int>,
    close: int,
    k: int,
)
    requires
        args_layout(t, x, starts, close),
        0 <= k <= starts.len(),
    ensures
        spec_call_args(
            t,
            arg_gap_start(t, x, starts, k),
            SpecCall { name, args: args_at(t, starts).take(k) },
            first_of(arg_errors_at(t, starts).take(k)),
        ) == Some(
            Parsed {
                value: SpecCall { name, args: args_at(t, starts) },
                index: close + 1,
                error: call_error(t, starts, close),
            },
        ),
    decreases starts.len() - k,
{
    let vals = args_at(t, starts);
    let errs = arg_errors_at(t, starts);
    let g = arg_gap_start(t, x, starts, k);
    if k == starts.len() {
        lemma_skip_commas(t, g, close, SpecCall { name, args: vals.take(k) }, first_of(errs.take(k)));
        assert(vals.take(k) =~= vals);
        assert(errs.take(k) =~= errs);
    } else {
        let s = starts[k];
        let c = SpecCall { name, args: vals.take(k) };
        lemma_skip_commas(t, g, s, c, first_of(errs.take(k)));
        lemma_arg_step(t, s, c, first_of(errs.take(k)));
        let e = expression_at(t, s).unwrap();
        assert(vals.take(k).push((Seq::<char>::empty(), e.value)) =~= vals.take(k + 1));
        assert(errs.take(k + 1).drop_last() =~= errs.take(k));
        assert(arg_gap_start(t, x, starts, k + 1) == e.index);
        lemma_args_from(t, x, name, starts, close, k + 1);
    }
}

/// A name followed by `(` (other than `true` and `false`) is read as a call of
/// that name whose arguments are, in order, the expressions read at each
/// argument start between the parentheses and nothing else (so as many
/// arguments as were read); it ends just after the `)`.
pub proof fn law_call_operand(t: Seq<Token>, x: int, starts: Seq<int>, close: int)
    requires
        0 <= x,
        x + 1 < t.len(),
        t[x].contents matches TokenContents::Name(n) && n@ != "true"@ && n@ != "false"@,
        t[x + 1].contents is LParen,
        args_layout(t, x + 2, starts, close),
    ensures
        t[x].contents matches TokenContents::Name(n) && spec_operand(t, x) == Some(
            Parsed {
                value: SpecExpression::Call(SpecCall { name: n@, args: args_at(t, starts) }),
                index: close + 1,
                error: call_error(t, starts, close),
            },
        ),
        t[x].contents matches TokenContents::Name(n) && spec_call(t, x) == Some(
            Parsed {
                value: SpecCall { name: n@, args: args_at(t, starts) },
                index: close + 1,
                error: call_error(t, starts, close),
            },
        ),
        args_at(t, starts).len() == starts.len(),
{
    if let TokenContents::Name(n) = t[x].contents {
        lemma_args_from(t, x + 2, n@, starts, close, 0);
        assert(args_at(t, starts).take(0) =~= Seq::<(Seq<char>, SpecExpression)>::empty());
        assert(arg_errors_at(t, starts).take(0) =~= Seq::<Option<SpecError>>::empty());
    }
}


/// Where the parameters of a function starting at `i` begin: after its `(`,
/// or where the `(` should be.
pub open spec fn params_start(t: Seq<Token>, i: int) -> int {
    if i + 2 < t.len() && t[i + 2].contents is LParen {
        i + 3
    } else {
        i + 2
    }
}

/// Where the parameter list of a function starting at `i` ends.
pub open spec fn params_end(t: Seq<Token>, i: int) -> int {
    spec_params(t, params_start(t, i), Seq::empty(), None).unwrap().index
}

/// After its parameter list, a function has `-> T` when `-`, `>` and a type
/// name follow (and a body after them); its return type is then the type T
/// spells, whatever its parameters; without `-` it returns `Void`. Its name is
/// the name after `fun`, and its body the block read after the return type.
pub proof fn law_function_signature(t: Seq<Token>, i: int, ty: Type)
    requires
        0 <= i,
        i + 1 < t.len(),
        t[i + 1].contents is Name,
        spec_function(t, i) is Some,
    ensures
        t[i + 1].contents matches TokenContents::Name(n) && spec_function(t, i).unwrap().value.name
            == n@,
        ({
            let m = params_end(t, i);
            &&& (m + 2 < t.len() && t[m].contents is Minus && t[m + 1].contents is GreaterThan
                && (t[m + 2].contents matches TokenContents::Name(tn) && spelling_of(ty) == tn@)
                && !(ty is Void)) ==> spec_function(t, i).unwrap().value.return_type == ty
            &&& !(m + 2 < t.len() && t[m].contents is Minus) ==> spec_function(
                t,
                i,
            ).unwrap().value.return_type is Void
            &&& !(m + 2 < t.len() && t[m].contents is Minus) ==> spec_function(
                t,
                i,
            ).unwrap().value.block == spec_block(t, m).unwrap().value
            &&& (m + 2 < t.len() && t[m].contents is Minus && t[m + 1].contents is GreaterThan)
                ==> spec_function(t, i).unwrap().value.block == spec_block(t, m + 3).unwrap().value
        }),
{
    let k2 = params_start(t, i);
    if let TokenContents::Name(n) = t[i + 1].contents {
        let k = i + 2;
        let e1 = if k < t.len() {
            if t[k].contents is LParen {
                None
            } else {
                parser_error("expected '('"@, t[k].span)
            }
        } else {
            parser_error("incomplete function"@, t[i + 1].span)
        };
        lemma_params_acc_free(t, k2, Seq::empty(), e1, Seq::empty(), None);
        let m = params_end(t, i);
        if m + 2 < t.len() && t[m].contents is Minus && t[m + 1].contents is GreaterThan {
            if t[m + 2].contents matches TokenContents::Name(tn) && spelling_of(ty) == tn@ && !(
            ty is Void) {
                law_typename_spelling(t, m + 2, ty);
            }
        }
    }
}


/// A statement that does not start with `defer`, `if`, `while`, `return`,
/// `let` or `var` is the expression read there.
pub proof fn law_expression_statement(t: Seq<Token>, x: int)
    requires
        0 <= x < t.len(),
        !is_name(t[x].contents, "defer"@),
        !is_name(t[x].contents, "if"@),
        !is_name(t[x].contents, "while"@),
        !is_name(t[x].contents, "return"@),
        !is_name(t[x].contents, "let"@),
        !is_name(t[x].contents, "var"@),
        spec_statement(t, x) is Some,
    ensures
        spec_expression(t, x) is Some,
        spec_statement(t, x).unwrap().value == SpecStatement::Expression(
            spec_expression(t, x).unwrap().value,
        ),
        spec_statement(t, x).unwrap().index == spec_expression(t, x).unwrap().index,
        spec_statement(t, x).unwrap().error == spec_expression(t, x).unwrap().error,
{
}

/// The token each operator is written with.
pub open spec fn operator_token(op: Operator) -> TokenContents {
    match op {
        Operator::Add => TokenContents::Plus,
        Operator::Subtract => TokenContents::Minus,
        Operator::Multiply => TokenContents::Asterisk,
        Operator::Divide => TokenContents::ForwardSlash,
        Operator::Assign => TokenContents::Equal,
        Operator::Equal => TokenContents::DoubleEqual,
        Operator::NotEqual => TokenContents::NotEqual,
        Operator::LessThan => TokenContents::LessThan,
        Operator::LessThanOrEqual => TokenContents::LessThanOrEqual,
        Operator::GreaterThan => TokenContents::GreaterThan,
        Operator::GreaterThanOrEqual => TokenContents::GreaterThanOrEqual,
    }
}

/// `parse_operator` at the token an operator is written with reads that
/// operator and moves past it, without error.
pub proof fn law_operator_tokens(t: Seq<Token>, x: int, op: Operator)
    requires
        0 <= x < t.len(),
        t[x].contents == operator_token(op),
    ensures
        spec_operator(t, x) == Some(
            Parsed { value: SpecExpression::Operator(op), index: x + 1, error: None },
        ),
{
}

/// `parse_variable_declaration` at `s`, kept folded in proofs about parameter lists.
#[verifier::opaque]
pub open spec fn declaration_at(t: Seq<Token>, s: int) -> Option<Parsed<crate::model::SpecVarDecl>> {
    spec_var_decl(t, s)
}

/// Where the commas before the `k`-th parameter begin.
pub open spec fn param_gap_start(t: Seq<Token>, x: int, starts: Seq<int>, k: int) -> int {
    if k == 0 {
        x
    } else {
        declaration_at(t, starts[k - 1]).unwrap().index
    }
}

/// From `x` the tokens are: commas, a declaration at `starts[0]`, commas, a
/// declaration at `starts[1]`, ..., commas, and `)` at `close`.
pub open spec fn params_layout(t: Seq<Token>, x: int, starts: Seq<int>, close: int) -> bool {
    &&& forall|k: int|
        0 <= k < starts.len() ==> {
            &&& 0 <= param_gap_start(t, x, starts, k) <= #[trigger] starts[k] < t.len()
            &&& all_commas(t, param_gap_start(t, x, starts, k), starts[k])
            &&& t[starts[k]].contents is Name
            &&& declaration_at(t, starts[k]) is Some
        }
    &&& 0 <= param_gap_start(t, x, starts, starts.len() as int) <= close < t.len()
    &&& all_commas(t, param_gap_start(t, x, starts, starts.len() as int), close)
    &&& t[close].contents is RParen
}

/// The parameters declared at `starts`: each name with its type.
pub open spec fn params_at(t: Seq<Token>, starts: Seq<int>) -> Seq<(Seq<char>, Type)> {
    starts.map_values(
        |s: int| (declaration_at(t, s).unwrap().value.name, declaration_at(t, s).unwrap().value.ty),
    )
}

proof fn lemma_params_from(
    t: Seq<Token>,
    x: int,
    starts: Seq<int>,
    close: int,
    k: int,
    error: Option<SpecError>,
)
    requires
        params_layout(t, x, starts, close),
        0 <= k <= starts.len(),
    ensures
        spec_params(t, param_gap_start(t, x, starts, k), params_at(t, starts).take(k), error)
            is Some,
        spec_params(
            t,
            param_gap_start(t, x, starts, k),
            params_at(t, starts).take(k),
            error,
        ).unwrap().value == params_at(t, starts),
        spec_params(
            t,
            param_gap_start(t, x, starts, k),
            params_at(t, starts).take(k),
            error,
        ).unwrap().index == close + 1,
    decreases starts.len() - k,
{
    let vals = params_at(t, starts);
    let g = param_gap_start(t, x, starts, k);
    let e = if k == starts.len() { close } else { starts[k] };
    lemma_skip_param_commas(t, g, e, vals.take(k), error);
    if k == starts.len() {
        assert(vals.take(k) =~= vals);
    } else {
        let s = starts[k];
        reveal(declaration_at);
        lemma_var_decl_index(t, s);
        let d = declaration_at(t, s).unwrap();
        assert(vals.take(k).push((d.value.name, d.value.ty)) =~= vals.take(k + 1));
        assert(param_gap_start(t, x, starts, k + 1) == d.index);
        lemma_params_from(t, x, starts, close, k + 1, first_error(error, d.error));
    }
}

proof fn lemma_skip_param_commas(
    t: Seq<Token>,
    a: int,
    b: int,
    params: Seq<(Seq<char>, Type)>,
    error: Option<SpecError>,
)
    requires
        0 <= a <= b <= t.len(),
        all_commas(t, a, b),
    ensures
        spec_params(t, a, params, error) == spec_params(t, b, params, error),
    decreases b - a,
{
    if a < b {
        assert(t[a].contents is Comma);
        lemma_skip_param_commas(t, a + 1, b, params, error);
    }
}

/// A function whose parameter list is declarations separated by commas up to
/// `)` has as parameters, in order, the name and type of each declaration.
pub proof fn law_function_params(t: Seq<Token>, i: int, starts: Seq<int>, close: int)
    requires
        0 <= i,
        i + 1 < t.len(),
        t[i + 1].contents is Name,
        spec_function(t, i) is Some,
        params_layout(t, params_start(t, i), starts, close),
    ensures
        spec_function(t, i).unwrap().value.params == params_at(t, starts),
        params_end(t, i) == close + 1,
{
    let k2 = params_start(t, i);
    let e1 = if i + 2 < t.len() {
        if t[i + 2].contents is LParen {
            None
        } else {
            parser_error("expected '('"@, t[i + 2].span)
        }
    } else {
        parser_error("incomplete function"@, t[i + 1].span)
    };
    lemma_params_from(t, k2, starts, close, 0, e1);
    lemma_params_from(t, k2, starts, close, 0, None);
    assert(params_at(t, starts).take(0) =~= Seq::<(Seq<char>, Type)>::empty());
}

} // verus!
