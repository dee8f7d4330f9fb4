//! A parse step reads only the tokens from where it starts: two token
//! sequences that agree from some point on parse alike from there, up to a
//! shift of the indices.
use vstd::prelude::*;
use crate::model::{SpecCall, SpecError, SpecStatement};
use crate::parser::{Token, TokenContents};
use crate::semantics::{
    law_call_args_keeps_error, law_expr_scan_keeps_error, law_expression_error_free,
    law_operand_error_free, lemma_call_args_index, lemma_expr_scan_index,
    lemma_var_decl_index, lemma_statement_index, lemma_block_index,
    first_error, is_name, lemma_expression_index, moved_forward, operator_of, spec_block, spec_block_rest,
    spec_call, spec_call_args, spec_cond_block, spec_expr_scan, spec_expression, spec_operand,
    spec_statement, spec_typename, spec_var_decl, ExprScan, Parsed,
};

verus! {

/// `s1` from `k1` on and `s2` from `k2` on are the same tokens.
pub open spec fn agree_from(s1: Seq<Token>, k1: int, s2: Seq<Token>, k2: int) -> bool {
    &&& 0 <= k1 <= s1.len()
    &&& 0 <= k2 <= s2.len()
    &&& s1.len() - k1 == s2.len() - k2
    &&& forall|t: int| k1 <= t < s1.len() ==> #[trigger] s1[t] == s2[t + (k2 - k1)]
}

/// The outcome `p` with its index moved by `d`.
pub open spec fn shifted<T>(p: Option<Parsed<T>>, d: int) -> Option<Parsed<T>> {
    match p {
        Some(q) => Some(Parsed { value: q.value, index: q.index + d, error: q.error }),
        None => None,
    }
}

pub proof fn lemma_typename_local(s1: Seq<Token>, k1: int, s2: Seq<Token>, k2: int, x: int)
    requires
        agree_from(s1, k1, s2, k2),
        k1 <= x,
    ensures
        spec_typename(s2, x + (k2 - k1)) == shifted(spec_typename(s1, x), k2 - k1),
{
    if x < s1.len() {
        assert(s1[x] == s2[x + (k2 - k1)]);
    }
}

pub proof fn lemma_var_decl_local(s1: Seq<Token>, k1: int, s2: Seq<Token>, k2: int, x: int)
    requires
        agree_from(s1, k1, s2, k2),
        k1 <= x,
    ensures
        spec_var_decl(s2, x + (k2 - k1)) == shifted(spec_var_decl(s1, x), k2 - k1),
{
    let d = k2 - k1;
    if x < s1.len() {
        assert(s1[x] == s2[x + d]);
        if x + 1 < s1.len() {
            assert(s1[x + 1] == s2[x + 1 + d]);
        }
        lemma_typename_local(s1, k1, s2, k2, x + 1);
        lemma_typename_local(s1, k1, s2, k2, x + 2);
    }
}

pub proof fn lemma_operand_local(s1: Seq<Token>, k1: int, s2: Seq<Token>, k2: int, x: int)
    requires
        agree_from(s1, k1, s2, k2),
        k1 <= x,
    ensures
        spec_operand(s2, x + (k2 - k1)) == shifted(spec_operand(s1, x), k2 - k1),
    decreases s1.len() - x, 1int,
{
    let d = k2 - k1;
    if x < s1.len() {
        assert(s1[x] == s2[x + d]);
        if x + 1 < s1.len() {
            assert(s1[x + 1] == s2[x + 1 + d]);
        }
        match s1[x].contents {
            TokenContents::Name(_) => {
                lemma_call_local(s1, k1, s2, k2, x);
            },
            TokenContents::LParen => {
                lemma_expression_local(s1, k1, s2, k2, x + 1);
                lemma_expression_index(s1, x + 1);
                if let Some(e) = spec_expression(s1, x + 1) {
                    if e.index < s1.len() {
                        assert(s1[e.index] == s2[e.index + d]);
                    }
                }
            },
            _ => {},
        }
    }
}

pub proof fn lemma_expression_local(s1: Seq<Token>, k1: int, s2: Seq<Token>, k2: int, x: int)
    requires
        agree_from(s1, k1, s2, k2),
        k1 <= x,
    ensures
        spec_expression(s2, x + (k2 - k1)) == shifted(spec_expression(s1, x), k2 - k1),
    decreases s1.len() - x, 2int,
{
    lemma_operand_local(s1, k1, s2, k2, x);
    if let Some(lhs) = spec_operand(s1, x) {
        if x <= lhs.index <= s1.len() {
            lemma_expr_scan_local(
                s1,
                k1,
                s2,
                k2,
                lhs.index,
                ExprScan { operands: seq![lhs.value], ops: Seq::empty(), incomplete: false },
                lhs.error,
            );
        }
    }
}

pub proof fn lemma_expr_scan_local(
    s1: Seq<Token>,
    k1: int,
    s2: Seq<Token>,
    k2: int,
    x: int,
    scan: ExprScan,
    error: Option<SpecError>,
)
    requires
        agree_from(s1, k1, s2, k2),
        k1 <= x <= s1.len(),
    ensures
        spec_expr_scan(s2, x + (k2 - k1), scan, error) == shifted(
            spec_expr_scan(s1, x, scan, error),
            k2 - k1,
        ),
    decreases s1.len() - x, 1int,
{
    let d = k2 - k1;
    if x < s1.len() {
        assert(s1[x] == s2[x + d]);
        if let Some(op) = operator_of(s1[x].contents) {
            if x + 1 < s1.len() {
                lemma_operand_local(s1, k1, s2, k2, x + 1);
                if let Some(rhs) = spec_operand(s1, x + 1) {
                    if moved_forward(x, rhs.index, s1.len() as int) {
                        lemma_expr_scan_local(
                            s1,
                            k1,
                            s2,
                            k2,
                            rhs.index,
                            ExprScan {
                                operands: scan.operands.push(rhs.value),
                                ops: scan.ops.push(op),
                                incomplete: false,
                            },
                            first_error(error, rhs.error),
                        );
                    }
                }
            }
        }
    }
}

pub proof fn lemma_call_local(s1: Seq<Token>, k1: int, s2: Seq<Token>, k2: int, x: int)
    requires
        agree_from(s1, k1, s2, k2),
        k1 <= x,
    ensures
        spec_call(s2, x + (k2 - k1)) == shifted(spec_call(s1, x), k2 - k1),
    decreases s1.len() - x, 0int,
{
    let d = k2 - k1;
    if x < s1.len() {
        assert(s1[x] == s2[x + d]);
        if x + 1 < s1.len() {
            assert(s1[x + 1] == s2[x + 1 + d]);
            if let TokenContents::Name(n) = s1[x].contents {
                lemma_call_args_local(
                    s1,
                    k1,
                    s2,
                    k2,
                    x + 2,
                    SpecCall { name: n@, args: Seq::empty() },
                    None,
                );
            }
        }
    }
}

pub proof fn lemma_call_args_local(
    s1: Seq<Token>,
    k1: int,
    s2: Seq<Token>,
    k2: int,
    x: int,
    call: SpecCall,
    error: Option<SpecError>,
)
    requires
        agree_from(s1, k1, s2, k2),
        k1 <= x <= s1.len(),
        k1 < s1.len(),
    ensures
        spec_call_args(s2, x + (k2 - k1), call, error) == shifted(
            spec_call_args(s1, x, call, error),
            k2 - k1,
        ),
    decreases s1.len() - x, 3int,
{
    let d = k2 - k1;
    if x < s1.len() {
        assert(s1[x] == s2[x + d]);
        match s1[x].contents {
            TokenContents::RParen => {},
            TokenContents::Comma => {
                lemma_call_args_local(s1, k1, s2, k2, x + 1, call, error);
            },
            _ => {
                lemma_expression_local(s1, k1, s2, k2, x);
                if let Some(e) = spec_expression(s1, x) {
                    if moved_forward(x, e.index, s1.len() as int) {
                        lemma_call_args_local(
                            s1,
                            k1,
                            s2,
                            k2,
                            e.index,
                            SpecCall { name: call.name, args: call.args.push((Seq::empty(), e.value)) },
                            first_error(error, e.error),
                        );
                    }
                }
            },
        }
    } else {
        assert(s1[x - 1] == s2[x - 1 + d]);
    }
}


pub proof fn lemma_block_local(s1: Seq<Token>, k1: int, s2: Seq<Token>, k2: int, x: int)
    requires
        agree_from(s1, k1, s2, k2),
        k1 <= x,
    ensures
        spec_block(s2, x + (k2 - k1)) == shifted(spec_block(s1, x), k2 - k1),
    decreases s1.len() - x, 0int,
{
    if x < s1.len() {
        lemma_block_rest_local(s1, k1, s2, k2, x + 1, Seq::empty(), None);
    }
}

pub proof fn lemma_block_rest_local(
    s1: Seq<Token>,
    k1: int,
    s2: Seq<Token>,
    k2: int,
    x: int,
    stmts: Seq<SpecStatement>,
    error: Option<SpecError>,
)
    requires
        agree_from(s1, k1, s2, k2),
        k1 <= x <= s1.len(),
        k1 < s1.len(),
    ensures
        spec_block_rest(s2, x + (k2 - k1), stmts, error) == shifted(
            spec_block_rest(s1, x, stmts, error),
            k2 - k1,
        ),
    decreases s1.len() - x, 1int,
{
    let d = k2 - k1;
    if x < s1.len() {
        assert(s1[x] == s2[x + d]);
        match s1[x].contents {
            TokenContents::RCurly => {},
            TokenContents::Semicolon | TokenContents::Eol => {
                lemma_block_rest_local(s1, k1, s2, k2, x + 1, stmts, error);
            },
            _ => {
                lemma_statement_local(s1, k1, s2, k2, x);
                if let Some(st) = spec_statement(s1, x) {
                    if moved_forward(x, st.index, s1.len() as int) {
                        lemma_block_rest_local(
                            s1,
                            k1,
                            s2,
                            k2,
                            st.index,
                            stmts.push(st.value),
                            first_error(error, st.error),
                        );
                    }
                }
            },
        }
    } else {
        assert(s1[x - 1] == s2[x - 1 + d]);
    }
}

pub proof fn lemma_cond_block_local(s1: Seq<Token>, k1: int, s2: Seq<Token>, k2: int, x: int)
    requires
        agree_from(s1, k1, s2, k2),
        k1 <= x,
    ensures
        spec_cond_block(s2, x + (k2 - k1)) == shifted(spec_cond_block(s1, x), k2 - k1),
    decreases s1.len() - x, 1int,
{
    lemma_expression_local(s1, k1, s2, k2, x);
    lemma_expression_index(s1, x);
    if let Some(c) = spec_expression(s1, x) {
        lemma_block_local(s1, k1, s2, k2, c.index);
    }
}

#[verifier::spinoff_prover]
pub proof fn lemma_statement_local(s1: Seq<Token>, k1: int, s2: Seq<Token>, k2: int, x: int)
    requires
        agree_from(s1, k1, s2, k2),
        k1 <= x,
    ensures
        spec_statement(s2, x + (k2 - k1)) == shifted(spec_statement(s1, x), k2 - k1),
    decreases s1.len() - x, 0int,
{
    let d = k2 - k1;
    if x < s1.len() {
        assert(s1[x] == s2[x + d]);
        let c = s1[x].contents;
        if is_name(c, "defer"@) {
            lemma_block_local(s1, k1, s2, k2, x + 1);
        } else if is_name(c, "if"@) || is_name(c, "while"@) {
            lemma_cond_block_local(s1, k1, s2, k2, x + 1);
        } else if is_name(c, "return"@) {
            lemma_expression_local(s1, k1, s2, k2, x + 1);
        } else if is_name(c, "let"@) || is_name(c, "var"@) {
            lemma_var_decl_local(s1, k1, s2, k2, x + 1);
            crate::semantics::lemma_var_decl_index(s1, x + 1);
            if let Some(dv) = spec_var_decl(s1, x + 1) {
                let j = dv.index;
                if j < s1.len() {
                    assert(s1[j] == s2[j + d]);
                    lemma_expression_local(s1, k1, s2, k2, j + 1);
                }
            }
        } else {
            lemma_expression_local(s1, k1, s2, k2, x);
        }
    }
}

/// A separator put where a block's statement loop stands changes nothing but
/// the index where the block ends, as long as tokens follow it: the same
/// statements are read with the same error.
pub proof fn law_block_separator(
    a: Seq<Token>,
    sep: Token,
    b: Seq<Token>,
    stmts: Seq<SpecStatement>,
    error: Option<SpecError>,
)
    requires
        sep.contents is Semicolon || sep.contents is Eol,
        a.len() >= 1,
        b.len() >= 1,
    ensures
        spec_block_rest(a + seq![sep] + b, a.len() as int, stmts, error) == shifted(
            spec_block_rest(a + b, a.len() as int, stmts, error),
            1,
        ),
{
    let s1 = a + b;
    let s2 = a + seq![sep] + b;
    let k = a.len() as int;
    assert(s2[k] == sep);
    assert forall|t: int| k <= t < s1.len() implies #[trigger] s1[t] == s2[t + 1] by {
        assert(s1[t] == b[t - k]);
        assert(s2[t + 1] == b[t - k]);
    }
    assert(agree_from(s1, k, s2, k + 1));
    lemma_block_rest_local(s1, k, s2, k + 1, k, stmts, error);
}


/// A token that a parse step never continues with: a semicolon or a line end.
pub open spec fn inert(c: TokenContents) -> bool {
    c is Semicolon || c is Eol
}

/// `t1` and `t2` hold the same tokens from `x` up to `e`, and at `e` they hold
/// the same token, or `t2` an inert one, or both end there.
pub open spec fn prefix_agrees(t1: Seq<Token>, t2: Seq<Token>, x: int, e: int) -> bool {
    &&& 0 <= x
    &&& e <= t1.len()
    &&& e <= t2.len()
    &&& forall|q: int| x <= q < e ==> #[trigger] t1[q] == t2[q]
    &&& {
        ||| (e < t1.len() && e < t2.len() && t1[e] == t2[e])
        ||| (e < t2.len() && inert(t2[e].contents))
        ||| (e == t1.len() && e == t2.len())
    }
}

proof fn lemma_prefix_narrow(t1: Seq<Token>, t2: Seq<Token>, x: int, e: int, y: int, f: int)
    requires
        prefix_agrees(t1, t2, x, e),
        x <= y <= f < e,
    ensures
        prefix_agrees(t1, t2, y, f),
{
    assert(t1[f] == t2[f]);
}

pub proof fn lemma_typename_prefix(t1: Seq<Token>, t2: Seq<Token>, x: int, e: int)
    requires
        prefix_agrees(t1, t2, x, e),
        x < e,
    ensures
        spec_typename(t2, x) == spec_typename(t1, x),
{
    assert(t1[x] == t2[x]);
}

/// A declaration read without error reads only the tokens before where it ends.
pub proof fn lemma_var_decl_prefix(t1: Seq<Token>, t2: Seq<Token>, x: int)
    ensures
        spec_var_decl(t1, x) matches Some(p) ==> (p.error is None && prefix_agrees(
            t1,
            t2,
            x,
            p.index,
        ) ==> spec_var_decl(t2, x) == spec_var_decl(t1, x)),
{
    if let Some(p) = spec_var_decl(t1, x) {
        if p.error is None && prefix_agrees(t1, t2, x, p.index) {
            assert(t1[x].contents is Name);
            assert(t1[x] == t2[x]);
            assert(t1[x + 1] == t2[x + 1]);
            lemma_typename_prefix(t1, t2, p.index - 1, p.index);
        }
    }
}

/// An operand read without error reads only the tokens before where it ends,
/// and at its end only whether an operator or a parenthesis is there.
pub proof fn lemma_operand_prefix(t1: Seq<Token>, t2: Seq<Token>, x: int)
    ensures
        spec_operand(t1, x) matches Some(p) ==> (p.error is None && prefix_agrees(
            t1,
            t2,
            x,
            p.index,
        ) ==> spec_operand(t2, x) == spec_operand(t1, x)),
    decreases t1.len() - x, 1int,
{
    if let Some(p) = spec_operand(t1, x) {
        if p.error is None && prefix_agrees(t1, t2, x, p.index) {
            law_operand_error_free(t1, x);
            assert(t1[x] == t2[x]);
            match t1[x].contents {
                TokenContents::Name(n) => {
                    if n@ != "true"@ && n@ != "false"@ && x + 1 < t1.len() && t1[x
                        + 1].contents is LParen {
                        lemma_call_args_index(
                            t1,
                            x + 2,
                            SpecCall { name: n@, args: Seq::empty() },
                            None,
                        );
                        let c = spec_call(t1, x).unwrap();
                        assert(c.index >= x + 2);
                        assert(t1[x + 1] == t2[x + 1]);
                        lemma_call_prefix(t1, t2, x);
                    } else if x + 1 < p.index {
                        assert(t1[x + 1] == t2[x + 1]);
                    }
                },
                TokenContents::LParen => {
                    lemma_expression_index(t1, x + 1);
                    let e = spec_expression(t1, x + 1).unwrap();
                    assert(t1[e.index] == t2[e.index]);
                    lemma_prefix_narrow(t1, t2, x, p.index, x + 1, e.index);
                    lemma_expression_prefix(t1, t2, x + 1);
                },
                _ => {},
            }
        }
    }
}

/// An expression read without error reads only the tokens before where it
/// ends, and at its end only whether an operator or a parenthesis is there.
pub proof fn lemma_expression_prefix(t1: Seq<Token>, t2: Seq<Token>, x: int)
    ensures
        spec_expression(t1, x) matches Some(p) ==> (p.error is None && prefix_agrees(
            t1,
            t2,
            x,
            p.index,
        ) ==> spec_expression(t2, x) == spec_expression(t1, x)),
    decreases t1.len() - x, 2int,
{
    if let Some(p) = spec_expression(t1, x) {
        if p.error is None && prefix_agrees(t1, t2, x, p.index) {
            let lhs = spec_operand(t1, x).unwrap();
            let scan0 = ExprScan { operands: seq![lhs.value], ops: Seq::empty(), incomplete: false };
            if lhs.error is Some {
                law_expr_scan_keeps_error(t1, lhs.index, scan0, lhs.error);
            }
            lemma_expr_scan_index(t1, lhs.index, scan0, lhs.error);
            if lhs.index < p.index {
                lemma_prefix_narrow(t1, t2, x, p.index, x, lhs.index);
            }
            lemma_operand_prefix(t1, t2, x);
            lemma_expr_scan_prefix(t1, t2, lhs.index, scan0, lhs.error);
        }
    }
}

/// The operator loop of an expression read without error reads only the tokens
/// before where it ends, and at its end only whether an operator is there.
pub proof fn lemma_expr_scan_prefix(
    t1: Seq<Token>,
    t2: Seq<Token>,
    x: int,
    scan: ExprScan,
    error: Option<SpecError>,
)
    ensures
        spec_expr_scan(t1, x, scan, error) matches Some(p) ==> (p.error is None && 0 <= x
            <= t1.len() && prefix_agrees(t1, t2, x, p.index) ==> spec_expr_scan(t2, x, scan, error)
            == spec_expr_scan(t1, x, scan, error)),
    decreases t1.len() - x, 1int,
{
    if let Some(p) = spec_expr_scan(t1, x, scan, error) {
        if p.error is None && 0 <= x <= t1.len() && prefix_agrees(t1, t2, x, p.index) {
            if error is Some {
                law_expr_scan_keeps_error(t1, x, scan, error);
            }
            if x < t1.len() {
                if let Some(op) = operator_of(t1[x].contents) {
                    let rhs = spec_operand(t1, x + 1).unwrap();
                    let next = ExprScan {
                        operands: scan.operands.push(rhs.value),
                        ops: scan.ops.push(op),
                        incomplete: false,
                    };
                    if rhs.error is Some {
                        law_expr_scan_keeps_error(t1, rhs.index, next, first_error(error, rhs.error));
                    }
                    law_operand_error_free(t1, x + 1);
                    lemma_expr_scan_index(t1, rhs.index, next, first_error(error, rhs.error));
                    assert(t1[x] == t2[x]);
                    if rhs.index < p.index {
                        lemma_prefix_narrow(t1, t2, x, p.index, x + 1, rhs.index);
                    } else {
                        assert(t1[x + 1] == t2[x + 1]);
                    }
                    lemma_operand_prefix(t1, t2, x + 1);
                    lemma_expr_scan_prefix(t1, t2, rhs.index, next, first_error(error, rhs.error));
                }
            }
        }
    }
}

/// A call read without error reads only the tokens before where it ends.
pub proof fn lemma_call_prefix(t1: Seq<Token>, t2: Seq<Token>, x: int)
    ensures
        spec_call(t1, x) matches Some(p) ==> (p.error is None && prefix_agrees(t1, t2, x, p.index)
            ==> spec_call(t2, x) == spec_call(t1, x)),
    decreases t1.len() - x, 0int,
{
    if let Some(p) = spec_call(t1, x) {
        if p.error is None && prefix_agrees(t1, t2, x, p.index) {
            if let TokenContents::Name(n) = t1[x].contents {
                let c = SpecCall { name: n@, args: Seq::empty() };
                lemma_call_args_index(t1, x + 2, c, None);
                assert(t1[x] == t2[x]);
                assert(t1[x + 1] == t2[x + 1]);
                lemma_call_args_prefix(t1, t2, x + 2, c, None);
            }
        }
    }
}

/// The argument loop of a call read without error reads only the tokens before where it ends.
pub proof fn lemma_call_args_prefix(
    t1: Seq<Token>,
    t2: Seq<Token>,
    x: int,
    call: SpecCall,
    error: Option<SpecError>,
)
    ensures
        spec_call_args(t1, x, call, error) matches Some(p) ==> (p.error is None && 0 <= x
            <= t1.len() && prefix_agrees(t1, t2, x, p.index) ==> spec_call_args(t2, x, call, error)
            == spec_call_args(t1, x, call, error)),
    decreases t1.len() - x, 3int,
{
    if let Some(p) = spec_call_args(t1, x, call, error) {
        if p.error is None && 0 <= x <= t1.len() && prefix_agrees(t1, t2, x, p.index) {
            if error is Some {
                law_call_args_keeps_error(t1, x, call, error);
            }
            if x < t1.len() {
                match t1[x].contents {
                    TokenContents::RParen => {
                        assert(t1[x] == t2[x]);
                    },
                    TokenContents::Comma => {
                        lemma_call_args_index(t1, x + 1, call, error);
                        assert(t1[x] == t2[x]);
                        lemma_prefix_narrow_or_same(t1, t2, x, p.index, x + 1);
                        lemma_call_args_prefix(t1, t2, x + 1, call, error);
                    },
                    _ => {
                        let e = spec_expression(t1, x).unwrap();
                        let next = SpecCall {
                            name: call.name,
                            args: call.args.push((Seq::empty(), e.value)),
                        };
                        if e.error is Some {
                            law_call_args_keeps_error(t1, e.index, next, first_error(error, e.error));
                        }
                        lemma_call_args_index(t1, e.index, next, first_error(error, e.error));
                        assert(t1[x] == t2[x]);
                        lemma_prefix_narrow_or_same(t1, t2, x, p.index, e.index);
                        lemma_expression_prefix(t1, t2, x);
                        lemma_call_args_prefix(t1, t2, e.index, next, first_error(error, e.error));
                    },
                }
            }
        }
    }
}

/// Agreement from `x` to `e` gives agreement from `x` to any `f` up to `e`,
/// and from `f` to `e`.
proof fn lemma_prefix_narrow_or_same(t1: Seq<Token>, t2: Seq<Token>, x: int, e: int, f: int)
    requires
        prefix_agrees(t1, t2, x, e),
        x <= f <= e,
    ensures
        prefix_agrees(t1, t2, x, f),
        prefix_agrees(t1, t2, f, e),
{
    if f < e {
        assert(t1[f] == t2[f]);
    }
}


/// Once an error is met in a block's statement loop, the block reports an error.
pub proof fn lemma_block_rest_error_stays(
    tokens: Seq<Token>,
    x: int,
    stmts: Seq<SpecStatement>,
    error: Option<SpecError>,
)
    requires
        error is Some,
    ensures
        spec_block_rest(tokens, x, stmts, error) matches Some(p) ==> p.error is Some,
    decreases tokens.len() - x,
{
    if 0 <= x < tokens.len() {
        match tokens[x].contents {
            TokenContents::RCurly => {},
            TokenContents::Semicolon | TokenContents::Eol => {
                lemma_block_rest_error_stays(tokens, x + 1, stmts, error);
            },
            _ => {
                if let Some(st) = spec_statement(tokens, x) {
                    if moved_forward(x, st.index, tokens.len() as int) {
                        lemma_block_rest_error_stays(
                            tokens,
                            st.index,
                            stmts.push(st.value),
                            first_error(error, st.error),
                        );
                    }
                }
            },
        }
    }
}

/// A block read without error reads only the tokens before where it ends.
pub proof fn lemma_block_prefix(t1: Seq<Token>, t2: Seq<Token>, x: int)
    ensures
        spec_block(t1, x) matches Some(p) ==> (p.error is None && prefix_agrees(t1, t2, x, p.index)
            ==> spec_block(t2, x) == spec_block(t1, x)),
    decreases t1.len() - x, 0int,
{
    if let Some(p) = spec_block(t1, x) {
        if p.error is None && prefix_agrees(t1, t2, x, p.index) {
            crate::semantics::lemma_block_rest_index(t1, x + 1, Seq::empty(), None);
            lemma_block_rest_prefix(t1, t2, x + 1, Seq::empty(), None);
        }
    }
}

/// The statement loop of a block read without error reads only the tokens before where it ends.
pub proof fn lemma_block_rest_prefix(
    t1: Seq<Token>,
    t2: Seq<Token>,
    x: int,
    stmts: Seq<SpecStatement>,
    error: Option<SpecError>,
)
    ensures
        spec_block_rest(t1, x, stmts, error) matches Some(p) ==> (p.error is None && 0 <= x
            <= t1.len() && prefix_agrees(t1, t2, x, p.index) ==> spec_block_rest(t2, x, stmts, error)
            == spec_block_rest(t1, x, stmts, error)),
    decreases t1.len() - x, 1int,
{
    if let Some(p) = spec_block_rest(t1, x, stmts, error) {
        if p.error is None && 0 <= x <= t1.len() && prefix_agrees(t1, t2, x, p.index) {
            if error is Some {
                lemma_block_rest_error_stays(t1, x, stmts, error);
            }
            if x < t1.len() {
                match t1[x].contents {
                    TokenContents::RCurly => {
                        assert(t1[x] == t2[x]);
                    },
                    TokenContents::Semicolon | TokenContents::Eol => {
                        crate::semantics::lemma_block_rest_index(t1, x + 1, stmts, error);
                        assert(t1[x] == t2[x]);
                        lemma_prefix_narrow_or_same(t1, t2, x, p.index, x + 1);
                        lemma_block_rest_prefix(t1, t2, x + 1, stmts, error);
                    },
                    _ => {
                        let st = spec_statement(t1, x).unwrap();
                        let e2 = first_error(error, st.error);
                        if st.error is Some {
                            lemma_block_rest_error_stays(t1, st.index, stmts.push(st.value), e2);
                        }
                        crate::semantics::lemma_block_rest_index(
                            t1,
                            st.index,
                            stmts.push(st.value),
                            e2,
                        );
                        assert(t1[x] == t2[x]);
                        lemma_prefix_narrow_or_same(t1, t2, x, p.index, st.index);
                        lemma_statement_prefix(t1, t2, x);
                        lemma_block_rest_prefix(t1, t2, st.index, stmts.push(st.value), e2);
                    },
                }
            }
        }
    }
}

/// An expression and a block read without error read only the tokens before where they end.
pub proof fn lemma_cond_block_prefix(t1: Seq<Token>, t2: Seq<Token>, x: int)
    ensures
        spec_cond_block(t1, x) matches Some(p) ==> (p.error is None && prefix_agrees(
            t1,
            t2,
            x,
            p.index,
        ) ==> spec_cond_block(t2, x) == spec_cond_block(t1, x)),
    decreases t1.len() - x, 1int,
{
    if let Some(p) = spec_cond_block(t1, x) {
        if p.error is None && prefix_agrees(t1, t2, x, p.index) {
            let c = spec_expression(t1, x).unwrap();
            crate::semantics::lemma_block_index(t1, c.index);
            lemma_expression_index(t1, x);
            lemma_prefix_narrow_or_same(t1, t2, x, p.index, c.index);
            lemma_expression_prefix(t1, t2, x);
            lemma_block_prefix(t1, t2, c.index);
        }
    }
}

/// A statement read without error reads only the tokens before where it ends.
#[verifier::spinoff_prover]
pub proof fn lemma_statement_prefix(t1: Seq<Token>, t2: Seq<Token>, x: int)
    ensures
        spec_statement(t1, x) matches Some(p) ==> (p.error is None && prefix_agrees(
            t1,
            t2,
            x,
            p.index,
        ) ==> spec_statement(t2, x) == spec_statement(t1, x)),
    decreases t1.len() - x, 0int,
{
    if let Some(p) = spec_statement(t1, x) {
        if p.error is None && prefix_agrees(t1, t2, x, p.index) {
            let c = t1[x].contents;
            if is_name(c, "defer"@) {
                crate::semantics::lemma_block_index(t1, x + 1);
                assert(t1[x] == t2[x]);
                lemma_block_prefix(t1, t2, x + 1);
            } else if is_name(c, "if"@) || is_name(c, "while"@) {
                crate::semantics::lemma_cond_block_index(t1, x + 1);
                law_expression_error_free(t1, x + 1);
                let cb = spec_cond_block(t1, x + 1).unwrap();
                assert(cb.index > x + 1) by {
                    crate::semantics::lemma_block_index(t1, spec_expression(t1, x + 1).unwrap().index);
                }
                assert(t1[x] == t2[x]);
                lemma_cond_block_prefix(t1, t2, x + 1);
            } else if is_name(c, "return"@) {
                law_expression_error_free(t1, x + 1);
                assert(t1[x] == t2[x]);
                lemma_expression_prefix(t1, t2, x + 1);
            } else if is_name(c, "let"@) || is_name(c, "var"@) {
                lemma_var_decl_index(t1, x + 1);
                let d = spec_var_decl(t1, x + 1).unwrap();
                let j = d.index;
                law_expression_error_free(t1, j + 1);
                assert(t1[x] == t2[x]);
                assert(t1[j] == t2[j]);
                lemma_prefix_narrow_or_same(t1, t2, x, p.index, j);
                lemma_prefix_narrow_or_same(t1, t2, x + 1, p.index, j);
                lemma_var_decl_prefix(t1, t2, x + 1);
                lemma_expression_prefix(t1, t2, j + 1);
            } else {
                law_expression_error_free(t1, x);
                assert(t1[x] == t2[x]);
                lemma_expression_prefix(t1, t2, x);
            }
        }
    }
}


/// The statement loop of a block, going from `x`, stands at `q` at some point:
/// `q` is a boundary between its statements, or the place of its `}`.
pub open spec fn loop_reaches(t: Seq<Token>, x: int, q: int) -> bool
    decreases t.len() - x,
{
    if x == q {
        true
    } else if 0 <= x < t.len() && x < q {
        match t[x].contents {
            TokenContents::RCurly => false,
            TokenContents::Semicolon | TokenContents::Eol => loop_reaches(t, x + 1, q),
            _ => match spec_statement(t, x) {
                Some(st) => if moved_forward(x, st.index, t.len() as int) {
                    loop_reaches(t, st.index, q)
                } else {
                    false
                },
                None => false,
            },
        }
    } else {
        false
    }
}

/// `q` is a boundary of the block that starts at `i`: before one of its
/// statements or separators, or before its closing `}`.
pub open spec fn block_boundary(t: Seq<Token>, i: int, q: int) -> bool {
    0 <= i < t.len() && loop_reaches(t, i + 1, q)
}

/// The tokens with `sep` put at position `q`.
pub open spec fn insert_at(t: Seq<Token>, q: int, sep: Token) -> Seq<Token> {
    t.take(q) + seq![sep] + t.skip(q)
}

/// The tokens with `seps[k]` put at position `ps[k]` for each `k`, the
/// positions counted in the tokens before any is put (the later ones are put first).
pub open spec fn insert_all(t: Seq<Token>, ps: Seq<int>, seps: Seq<Token>) -> Seq<Token>
    decreases ps.len(),
{
    if ps.len() == 0 || seps.len() != ps.len() {
        t
    } else {
        insert_all(insert_at(t, ps.last(), seps.last()), ps.drop_last(), seps.drop_last())
    }
}

proof fn lemma_insert_at_facts(t: Seq<Token>, q: int, sep: Token)
    requires
        0 <= q <= t.len(),
    ensures
        insert_at(t, q, sep).len() == t.len() + 1,
        insert_at(t, q, sep)[q] == sep,
        forall|r: int| 0 <= r < q ==> #[trigger] insert_at(t, q, sep)[r] == t[r],
        agree_from(t, q, insert_at(t, q, sep), q + 1),
{
    let t2 = insert_at(t, q, sep);
    assert forall|r: int| q <= r < t.len() implies #[trigger] t[r] == t2[r + (q + 1 - q)] by {
        assert(t2[r + 1] == t.skip(q)[r - q]);
    }
}

/// Putting a separator where the statement loop of a block read without error
/// stands changes nothing but where the block ends.
proof fn lemma_rest_insert(
    t: Seq<Token>,
    x: int,
    q: int,
    sep: Token,
    stmts: Seq<SpecStatement>,
    error: Option<SpecError>,
)
    requires
        loop_reaches(t, x, q),
        inert(sep.contents),
        0 <= x,
        q <= t.len(),
        spec_block_rest(t, x, stmts, error) is Some,
        spec_block_rest(t, x, stmts, error).unwrap().error is None,
    ensures
        spec_block_rest(insert_at(t, q, sep), x, stmts, error) == shifted(
            spec_block_rest(t, x, stmts, error),
            1,
        ),
    decreases t.len() - x,
{
    let t2 = insert_at(t, q, sep);
    lemma_insert_at_facts(t, q, sep);
    if error is Some {
        lemma_block_rest_error_stays(t, x, stmts, error);
    }
    if x == q {
        assert(q < t.len());
        lemma_block_rest_local(t, q, t2, q + 1, q, stmts, error);
    } else {
        assert(t2[x] == t[x]);
        match t[x].contents {
            TokenContents::Semicolon | TokenContents::Eol => {
                lemma_rest_insert(t, x + 1, q, sep, stmts, error);
            },
            _ => {
                let st = spec_statement(t, x).unwrap();
                let e2 = first_error(error, st.error);
                if st.error is Some {
                    lemma_block_rest_error_stays(t, st.index, stmts.push(st.value), e2);
                }
                lemma_statement_index(t, x);
                assert(st.index <= q) by {
                    if st.index > q {
                        assert(!loop_reaches(t, st.index, q));
                    }
                }
                assert forall|r: int| x <= r < st.index implies #[trigger] t[r] == t2[r] by {}
                assert(prefix_agrees(t, t2, x, st.index));
                lemma_statement_prefix(t, t2, x);
                lemma_rest_insert(t, st.index, q, sep, stmts.push(st.value), e2);
            },
        }
    }
}

/// Putting a separator at a boundary of a block read without error keeps the
/// places that its statement loop stands at up to that boundary.
proof fn lemma_reaches_insert(
    t: Seq<Token>,
    x: int,
    q: int,
    p: int,
    sep: Token,
    stmts: Seq<SpecStatement>,
    error: Option<SpecError>,
)
    requires
        loop_reaches(t, x, q),
        q <= p <= t.len(),
        0 <= x,
        inert(sep.contents),
        spec_block_rest(t, x, stmts, error) is Some,
        spec_block_rest(t, x, stmts, error).unwrap().error is None,
    ensures
        loop_reaches(insert_at(t, p, sep), x, q),
    decreases t.len() - x,
{
    let t2 = insert_at(t, p, sep);
    lemma_insert_at_facts(t, p, sep);
    if error is Some {
        lemma_block_rest_error_stays(t, x, stmts, error);
    }
    if x != q {
        assert(t2[x] == t[x]);
        match t[x].contents {
            TokenContents::Semicolon | TokenContents::Eol => {
                lemma_reaches_insert(t, x + 1, q, p, sep, stmts, error);
            },
            _ => {
                let st = spec_statement(t, x).unwrap();
                let e2 = first_error(error, st.error);
                if st.error is Some {
                    lemma_block_rest_error_stays(t, st.index, stmts.push(st.value), e2);
                }
                lemma_statement_index(t, x);
                assert(st.index <= q) by {
                    if st.index > q {
                        assert(!loop_reaches(t, st.index, q));
                    }
                }
                assert forall|r: int| x <= r < st.index implies #[trigger] t[r] == t2[r] by {}
                assert(prefix_agrees(t, t2, x, st.index));
                lemma_statement_prefix(t, t2, x);
                lemma_reaches_insert(t, st.index, q, p, sep, stmts.push(st.value), e2);
            },
        }
    }
}

/// Separators put at boundaries of a block read without error leave its
/// statements and its error as they were; the block only ends later, by one
/// token for each separator.
pub proof fn law_block_separators(t: Seq<Token>, i: int, ps: Seq<int>, seps: Seq<Token>)
    requires
        ps.len() == seps.len(),
        forall|k: int| 0 <= k < ps.len() ==> block_boundary(t, i, #[trigger] ps[k]),
        forall|k: int| 0 <= k < seps.len() ==> inert(#[trigger] seps[k].contents),
        forall|j: int, k: int| 0 <= j < k < ps.len() ==> #[trigger] ps[j] <= #[trigger] ps[k],
        spec_block(t, i) is Some,
        spec_block(t, i).unwrap().error is None,
    ensures
        spec_block(insert_all(t, ps, seps), i) == shifted(spec_block(t, i), ps.len() as int),
    decreases ps.len(),
{
    if ps.len() > 0 {
        let n = ps.len() as int;
        let p = ps[n - 1];
        let sep = seps[n - 1];
        assert(block_boundary(t, i, p));
        assert(inert(sep.contents));
        lemma_block_index(t, i);
        crate::semantics::lemma_block_rest_index(t, i + 1, Seq::empty(), None);
        assert(p <= t.len()) by {
            lemma_reaches_bound(t, i + 1, p);
        }
        let t2 = insert_at(t, p, sep);
        lemma_insert_at_facts(t, p, sep);
        lemma_rest_insert(t, i + 1, p, sep, Seq::empty(), None);
        assert(spec_block(t2, i) == shifted(spec_block(t, i), 1));
        let ps2 = ps.drop_last();
        let seps2 = seps.drop_last();
        assert forall|k: int| 0 <= k < ps2.len() implies block_boundary(t2, i, #[trigger] ps2[k]) by {
            assert(ps2[k] == ps[k]);
            assert(block_boundary(t, i, ps[k]));
            assert(ps[k] <= ps[n - 1]);
            lemma_reaches_insert(t, i + 1, ps[k], p, sep, Seq::empty(), None);
        }
        assert forall|k: int| 0 <= k < seps2.len() implies inert(#[trigger] seps2[k].contents) by {
            assert(seps2[k] == seps[k]);
        }
        assert forall|j: int, k: int| 0 <= j < k < ps2.len() implies #[trigger] ps2[j]
            <= #[trigger] ps2[k] by {
            assert(ps2[j] == ps[j] && ps2[k] == ps[k]);
        }
        law_block_separators(t2, i, ps2, seps2);
    } else {
        assert(spec_block(t, i) == shifted(spec_block(t, i), 0));
    }
}

proof fn lemma_reaches_bound(t: Seq<Token>, x: int, q: int)
    requires
        loop_reaches(t, x, q),
        0 <= x <= t.len(),
    ensures
        x <= q <= t.len(),
    decreases t.len() - x,
{
    if x != q {
        match t[x].contents {
            TokenContents::Semicolon | TokenContents::Eol => lemma_reaches_bound(t, x + 1, q),
            _ => {
                let st = spec_statement(t, x).unwrap();
                lemma_reaches_bound(t, st.index, q);
            },
        }
    }
}

} // verus!
