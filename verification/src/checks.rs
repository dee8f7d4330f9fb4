//! Executable tests of the preconditions of the parse functions: each tells
//! whether a parse starting at an index ends, and where, without building
//! what the parse would build.
use vstd::prelude::*;
use crate::model::{SpecCall, SpecError, SpecFunction, SpecStatement};
use crate::parser::{word_is, Token, TokenContents};
use crate::parser::Type;
use crate::semantics::{
    first_error, lemma_block_rest_acc_free, lemma_call_args_acc_free, lemma_expr_scan_acc_free,
    lemma_expression_index, lemma_file_rest_acc_free, lemma_function_index, lemma_params_acc_free,
    lemma_var_decl_index,
    operator_of, spec_block, spec_block_rest, spec_call, spec_call_args, spec_expr_scan,
    spec_expression, spec_file, spec_file_rest, spec_function, spec_operand, spec_params,
    spec_return_type, spec_statement, spec_var_decl, ExprScan, Parsed,
};

verus! {

/// `r` is where the parse step `p` ends, and is `None` exactly when `p` is.
pub open spec fn ends_at<T>(p: Option<Parsed<T>>, r: Option<usize>) -> bool {
    &&& (r is Some <==> p is Some)
    &&& (r matches Some(j) ==> j == p.unwrap().index)
}

/// An expression scan with nothing read, used as a fixed starting point.
pub open spec fn empty_scan() -> ExprScan {
    ExprScan { operands: Seq::empty(), ops: Seq::empty(), incomplete: false }
}

/// A call with nothing read, used as a fixed starting point.
pub open spec fn empty_call() -> SpecCall {
    SpecCall { name: Seq::empty(), args: Seq::empty() }
}

/// Whether a token is an operator.
fn is_operator(c: &TokenContents) -> (b: bool)
    ensures
        b == (operator_of(*c) is Some),
{
    match c {
        TokenContents::Plus | TokenContents::Minus | TokenContents::Asterisk
        | TokenContents::ForwardSlash | TokenContents::Equal | TokenContents::DoubleEqual
        | TokenContents::NotEqual | TokenContents::LessThan | TokenContents::LessThanOrEqual
        | TokenContents::GreaterThan | TokenContents::GreaterThanOrEqual => true,
        _ => false,
    }
}

/// Where `parse_operand` at `i` ends, or `None` where it would not end.
pub fn operand_end(tokens: &[Token], i: usize) -> (r: Option<usize>)
    ensures
        ends_at(spec_operand(tokens@, i as int), r),
    decreases tokens@.len() - i, 1int,
{
    if i >= tokens.len() {
        return None;
    }
    match &tokens[i].contents {
        TokenContents::Name(name) => {
            if word_is(name, "true") || word_is(name, "false") {
                Some(i + 1)
            } else {
                if i + 1 < tokens.len() {
                    match &tokens[i + 1].contents {
                        TokenContents::LParen => {
                            return call_end(tokens, i);
                        },
                        _ => {},
                    }
                }
                Some(i + 1)
            }
        },
        TokenContents::LParen => match expression_end(tokens, i + 1) {
            Some(j) => {
                if j < tokens.len() {
                    match &tokens[j].contents {
                        TokenContents::RParen => Some(j + 1),
                        _ => Some(j),
                    }
                } else {
                    None
                }
            },
            None => None,
        },
        TokenContents::Number(_) => Some(i + 1),
        TokenContents::QuotedString(_) => Some(i + 1),
        _ => Some(i),
    }
}

/// Where `parse_expression` at `i` ends, or `None` where it would not end.
pub fn expression_end(tokens: &[Token], i: usize) -> (r: Option<usize>)
    ensures
        ends_at(spec_expression(tokens@, i as int), r),
    decreases tokens@.len() - i, 2int,
{
    let first = operand_end(tokens, i);
    let j = match first {
        Some(j) => j,
        None => {
            return None;
        },
    };
    if !(i <= j && j <= tokens.len()) {
        return None;
    }
    let ghost lhs = spec_operand(tokens@, i as int).unwrap();
    let ghost scan0 = ExprScan { operands: seq![lhs.value], ops: Seq::empty(), incomplete: false };
    let ghost target = spec_expr_scan(tokens@, j as int, scan0, lhs.error);
    proof {
        lemma_expr_scan_acc_free(tokens@, j as int, scan0, lhs.error, empty_scan(), None);
    }
    let mut k = j;
    loop
        invariant
            i <= j <= k <= tokens@.len(),
            (spec_expr_scan(tokens@, k as int, empty_scan(), None) is Some) == (target is Some),
            target is Some ==> spec_expr_scan(tokens@, k as int, empty_scan(), None).unwrap().index
                == target.unwrap().index,
            spec_expression(tokens@, i as int) is Some <==> target is Some,
            target is Some ==> spec_expression(tokens@, i as int).unwrap().index
                == target.unwrap().index,
        decreases tokens@.len() - k,
    {
        if k >= tokens.len() {
            return Some(k);
        }
        if !is_operator(&tokens[k].contents) {
            return Some(k);
        }
        if k + 1 == tokens.len() {
            return Some(k + 1);
        }
        let next = operand_end(tokens, k + 1);
        match next {
            None => {
                return None;
            },
            Some(m) => {
                if !(k < m && m <= tokens.len()) {
                    return None;
                }
                proof {
                    let rhs = spec_operand(tokens@, k + 1).unwrap();
                    let op = operator_of(tokens@[k as int].contents).unwrap();
                    lemma_expr_scan_acc_free(
                        tokens@,
                        m as int,
                        ExprScan {
                            operands: empty_scan().operands.push(rhs.value),
                            ops: empty_scan().ops.push(op),
                            incomplete: false,
                        },
                        first_error_none(rhs.error),
                        empty_scan(),
                        None,
                    );
                }
                k = m;
            },
        }
    }
}

/// `first_error(None, e)`.
pub open spec fn first_error_none(e: Option<SpecError>) -> Option<SpecError> {
    first_error(None, e)
}

/// Where `parse_call` at `i` ends, or `None` where it would not end.
pub fn call_end(tokens: &[Token], i: usize) -> (r: Option<usize>)
    ensures
        ends_at(spec_call(tokens@, i as int), r),
    decreases tokens@.len() - i, 0int,
{
    if i >= tokens.len() {
        return None;
    }
    match &tokens[i].contents {
        TokenContents::Name(name) => {
            if i + 1 >= tokens.len() {
                return Some(i + 1);
            }
            match &tokens[i + 1].contents {
                TokenContents::LParen => {},
                _ => {
                    return Some(i + 1);
                },
            }
            let ghost target = spec_call_args(
                tokens@,
                i + 2,
                SpecCall { name: name@, args: Seq::empty() },
                None,
            );
            proof {
                lemma_call_args_acc_free(
                    tokens@,
                    i + 2,
                    SpecCall { name: name@, args: Seq::empty() },
                    None,
                    empty_call(),
                    None,
                );
            }
            let mut k = i + 2;
            loop
                invariant
                    i + 2 <= k <= tokens@.len(),
                    target == spec_call(tokens@, i as int),
                    (spec_call_args(tokens@, k as int, empty_call(), None) is Some) == (
                    target is Some),
                    target is Some ==> spec_call_args(
                        tokens@,
                        k as int,
                        empty_call(),
                        None,
                    ).unwrap().index == target.unwrap().index,
                decreases tokens@.len() - k,
            {
                if k >= tokens.len() {
                    return Some(k);
                }
                match &tokens[k].contents {
                    TokenContents::RParen => {
                        return Some(k + 1);
                    },
                    TokenContents::Comma => {
                        k = k + 1;
                    },
                    _ => {
                        match expression_end(tokens, k) {
                            None => {
                                return None;
                            },
                            Some(m) => {
                                if !(k < m && m <= tokens.len()) {
                                    return None;
                                }
                                proof {
                                    let e = spec_expression(tokens@, k as int).unwrap();
                                    lemma_call_args_acc_free(
                                        tokens@,
                                        m as int,
                                        SpecCall {
                                            name: empty_call().name,
                                            args: empty_call().args.push((Seq::empty(), e.value)),
                                        },
                                        first_error_none(e.error),
                                        empty_call(),
                                        None,
                                    );
                                }
                                k = m;
                            },
                        }
                    },
                }
            }
        },
        _ => Some(i),
    }
}


/// Where `parse_variable_declaration` at `i` ends, or `None` where it would read past the end.
pub fn var_decl_end(tokens: &[Token], i: usize) -> (r: Option<usize>)
    ensures
        ends_at(spec_var_decl(tokens@, i as int), r),
{
    if i >= tokens.len() {
        return None;
    }
    match &tokens[i].contents {
        TokenContents::Name(_) => {
            let mut j = i + 1;
            if j < tokens.len() {
                match &tokens[j].contents {
                    TokenContents::Colon => {
                        j = j + 1;
                    },
                    _ => {},
                }
            }
            if j < tokens.len() {
                Some(j + 1)
            } else {
                None
            }
        },
        _ => Some(i),
    }
}

/// Where `parse_block` at `i` ends, or `None` where it would not end.
pub fn block_end(tokens: &[Token], i: usize) -> (r: Option<usize>)
    ensures
        ends_at(spec_block(tokens@, i as int), r),
    decreases tokens@.len() - i, 0int,
{
    if i >= tokens.len() {
        return None;
    }
    let ghost target = spec_block(tokens@, i as int);
    proof {
        lemma_block_rest_acc_free(tokens@, i + 1, Seq::empty(), None, Seq::empty(), None);
    }
    let mut k = i + 1;
    loop
        invariant
            i + 1 <= k <= tokens@.len(),
            target == spec_block(tokens@, i as int),
            (spec_block_rest(tokens@, k as int, Seq::<SpecStatement>::empty(), None) is Some) == (
            target is Some),
            target is Some ==> spec_block_rest(
                tokens@,
                k as int,
                Seq::<SpecStatement>::empty(),
                None,
            ).unwrap().index == target.unwrap().index,
        decreases tokens@.len() - k,
    {
        if k >= tokens.len() {
            return Some(k);
        }
        match &tokens[k].contents {
            TokenContents::RCurly => {
                return Some(k + 1);
            },
            TokenContents::Semicolon => {
                k = k + 1;
            },
            TokenContents::Eol => {
                k = k + 1;
            },
            _ => {
                match statement_end(tokens, k) {
                    None => {
                        return None;
                    },
                    Some(m) => {
                        if !(k < m && m <= tokens.len()) {
                            return None;
                        }
                        proof {
                            let st = spec_statement(tokens@, k as int).unwrap();
                            lemma_block_rest_acc_free(
                                tokens@,
                                m as int,
                                Seq::<SpecStatement>::empty().push(st.value),
                                first_error_none(st.error),
                                Seq::empty(),
                                None,
                            );
                        }
                        k = m;
                    },
                }
            },
        }
    }
}

/// Where an expression followed by a block at `i` ends.
fn cond_block_end(tokens: &[Token], i: usize) -> (r: Option<usize>)
    requires
        i >= 1,
    ensures
        r is Some <==> crate::semantics::spec_cond_block(tokens@, i as int) is Some,
        r matches Some(j) ==> j == crate::semantics::spec_cond_block(tokens@, i as int).unwrap().index,
    decreases tokens@.len() - i + 1, 2int,
{
    proof {
        lemma_expression_index(tokens@, i as int);
    }
    match expression_end(tokens, i) {
        None => None,
        Some(j) => block_end(tokens, j),
    }
}

/// Where `parse_statement` at `i` ends, or `None` where it would not end.
pub fn statement_end(tokens: &[Token], i: usize) -> (r: Option<usize>)
    ensures
        ends_at(spec_statement(tokens@, i as int), r),
    decreases tokens@.len() - i, 3int,
{
    if i >= tokens.len() {
        return None;
    }
    match &tokens[i].contents {
        TokenContents::Name(name) => {
            if word_is(name, "defer") {
                block_end(tokens, i + 1)
            } else if word_is(name, "if") || word_is(name, "while") {
                cond_block_end(tokens, i + 1)
            } else if word_is(name, "return") {
                expression_end(tokens, i + 1)
            } else if word_is(name, "let") || word_is(name, "var") {
                match var_decl_end(tokens, i + 1) {
                    None => None,
                    Some(j) => {
                        if j < tokens.len() {
                            match &tokens[j].contents {
                                TokenContents::Equal => {
                                    if j + 1 < tokens.len() {
                                        expression_end(tokens, j + 1)
                                    } else {
                                        Some(j + 1)
                                    }
                                },
                                _ => Some(j),
                            }
                        } else {
                            None
                        }
                    },
                }
            } else {
                expression_end(tokens, i)
            }
        },
        _ => expression_end(tokens, i),
    }
}


/// Where `parse_function` at `i` ends, or `None` where it would not end.
pub fn function_end(tokens: &[Token], i: usize) -> (r: Option<usize>)
    ensures
        ends_at(spec_function(tokens@, i as int), r),
{
    if i >= tokens.len() || i + 1 >= tokens.len() {
        return None;
    }
    let j = i + 1;
    match &tokens[j].contents {
        TokenContents::Name(name) => {
            let mut k = j + 1;
            let ghost e1 = if k < tokens@.len() {
                if tokens@[k as int].contents is LParen {
                    None
                } else {
                    crate::semantics::parser_error("expected '('"@, tokens@[k as int].span)
                }
            } else {
                crate::semantics::parser_error("incomplete function"@, tokens@[j as int].span)
            };
            if k < tokens.len() {
                match &tokens[k].contents {
                    TokenContents::LParen => {
                        k = k + 1;
                    },
                    _ => {},
                }
            }
            let ghost target = spec_params(tokens@, k as int, Seq::empty(), e1);
            proof {
                lemma_params_acc_free(tokens@, k as int, Seq::empty(), e1, Seq::empty(), None);
            }
            assert(spec_function(tokens@, i as int) is Some ==> target is Some);
            let mut m = k;
            let mut params_end: usize = k;
            loop
                invariant_except_break
                    k <= m <= tokens@.len(),
                    target == spec_params(tokens@, k as int, Seq::empty(), e1),
                    spec_function(tokens@, i as int) is Some ==> target is Some,
                    (spec_params(tokens@, m as int, Seq::<(Seq<char>, Type)>::empty(), None) is Some)
                        == (target is Some),
                    target is Some ==> spec_params(
                        tokens@,
                        m as int,
                        Seq::<(Seq<char>, Type)>::empty(),
                        None,
                    ).unwrap().index == target.unwrap().index,
                ensures
                    target is Some,
                    params_end == target.unwrap().index,
                decreases tokens@.len() - m,
            {
                if m >= tokens.len() {
                    params_end = m;
                    break ;
                }
                match &tokens[m].contents {
                    TokenContents::RParen => {
                        params_end = m + 1;
                        break ;
                    },
                    TokenContents::Comma => {
                        m = m + 1;
                    },
                    TokenContents::Name(_) => {
                        proof {
                            lemma_var_decl_index(tokens@, m as int);
                        }
                        match var_decl_end(tokens, m) {
                            None => {
                                return None;
                            },
                            Some(d) => {
                                proof {
                                    let dv = spec_var_decl(tokens@, m as int).unwrap();
                                    lemma_params_acc_free(
                                        tokens@,
                                        d as int,
                                        Seq::<(Seq<char>, Type)>::empty().push(
                                            (dv.value.name, dv.value.ty),
                                        ),
                                        first_error_none(dv.error),
                                        Seq::empty(),
                                        None,
                                    );
                                }
                                m = d;
                            },
                        }
                    },
                    _ => {
                        return None;
                    },
                }
            }
            let mut r = params_end;
            if params_end < tokens.len() && tokens.len() - params_end > 2 {
                match &tokens[params_end].contents {
                    TokenContents::Minus => {
                        match &tokens[params_end + 1].contents {
                            TokenContents::GreaterThan => {
                                r = params_end + 3;
                            },
                            _ => {
                                r = params_end + 1;
                            },
                        }
                    },
                    _ => {},
                }
            }
            proof {
                let p = target.unwrap();
                assert(spec_return_type(tokens@, p.index, p.error) is Some);
                assert(r == spec_return_type(tokens@, p.index, p.error).unwrap().index);
            }
            block_end(tokens, r)
        },
        _ => Some(j),
    }
}

/// Whether `parse_file` ends on these tokens: the precondition of `parse_file`.
pub fn file_is_parsable(tokens: &[Token]) -> (b: bool)
    ensures
        b == (spec_file(tokens@) is Some),
{
    let mut i: usize = 0;
    loop
        invariant
            i <= tokens@.len(),
            (spec_file_rest(tokens@, i as int, Seq::<SpecFunction>::empty(), None) is Some) == (
            spec_file(tokens@) is Some),
        decreases tokens@.len() - i,
    {
        if i >= tokens.len() {
            return true;
        }
        match &tokens[i].contents {
            TokenContents::Name(name) => {
                if word_is(name, "fun") {
                    proof {
                        lemma_function_index(tokens@, i as int);
                    }
                    match function_end(tokens, i) {
                        None => {
                            return false;
                        },
                        Some(m) => {
                            proof {
                                let f = spec_function(tokens@, i as int).unwrap();
                                lemma_file_rest_acc_free(
                                    tokens@,
                                    m as int,
                                    Seq::<SpecFunction>::empty().push(f.value),
                                    first_error_none(f.error),
                                    Seq::empty(),
                                    None,
                                );
                            }
                            i = m;
                        },
                    }
                } else {
                    return false;
                }
            },
            TokenContents::Eol => {
                i = i + 1;
            },
            TokenContents::Eof => {
                return true;
            },
            _ => {
                return false;
            },
        }
    }
}

} // verus!
