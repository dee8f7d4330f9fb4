//! How an expression tree is built from operands and operators.
use vstd::prelude::*;
use crate::model::SpecExpression;
use crate::parser::Operator;
use crate::semantics::ExprScan;

verus! {

/// The binding strength of an operator: `*` `/` bind tightest, then `+` `-`,
/// then the comparisons, then `=`.
pub open spec fn operator_precedence(op: Operator) -> u64 {
    match op {
        Operator::Multiply | Operator::Divide => 100,
        Operator::Add | Operator::Subtract => 90,
        Operator::LessThan | Operator::LessThanOrEqual | Operator::GreaterThan
        | Operator::GreaterThanOrEqual | Operator::Equal | Operator::NotEqual => 80,
        Operator::Assign => 50,
    }
}

/// `Expression::precedence`: operators have their precedence, everything else 0.
pub open spec fn expression_precedence(e: SpecExpression) -> u64 {
    match e {
        SpecExpression::Operator(op) => operator_precedence(op),
        _ => 0,
    }
}

/// The tree for `operands[0] ops[0] operands[1] ... ops[n-1] operands[n]`:
/// the last operator of lowest precedence is the root, so operators of higher
/// precedence bind tighter and operators of equal precedence group to the left.
pub open spec fn precedence_tree(operands: Seq<SpecExpression>, ops: Seq<Operator>) -> SpecExpression
    decreases ops.len(),
{
    if ops.len() == 0 || operands.len() != ops.len() + 1 {
        operands[0]
    } else {
        let k = last_lowest(ops);
        proof {
            lemma_last_lowest(ops);
        }
        SpecExpression::BinaryOp(
            Box::new(precedence_tree(operands.take(k + 1), ops.take(k))),
            Box::new(SpecExpression::Operator(ops[k])),
            Box::new(precedence_tree(operands.skip(k + 1), ops.skip(k + 1))),
        )
    }
}

/// The index of the last operator of lowest precedence.
pub open spec fn last_lowest(ops: Seq<Operator>) -> int
    decreases ops.len(),
{
    if ops.len() <= 1 {
        0
    } else {
        let k = last_lowest(ops.drop_last());
        if operator_precedence(ops.last()) <= operator_precedence(ops[k]) {
            ops.len() - 1
        } else {
            k
        }
    }
}

/// `last_lowest` points at an operator of lowest precedence, and every later
/// operator binds tighter.
pub proof fn lemma_last_lowest(ops: Seq<Operator>)
    requires
        ops.len() > 0,
    ensures
        0 <= last_lowest(ops) < ops.len(),
        forall|j: int|
            0 <= j < ops.len() ==> operator_precedence(ops[last_lowest(ops)])
                <= operator_precedence(#[trigger] ops[j]),
        forall|j: int|
            last_lowest(ops) < j < ops.len() ==> operator_precedence(ops[last_lowest(ops)])
                < operator_precedence(#[trigger] ops[j]),
    decreases ops.len(),
{
    if ops.len() > 1 {
        let init = ops.drop_last();
        lemma_last_lowest(init);
        assert forall|j: int| 0 <= j < init.len() implies init[j] == ops[j] by {}
        let k = last_lowest(init);
        assert(init[k] == ops[k]);
    }
}

/// The expression an `ExprScan` stands for. When the scan ended on an operator
/// with nothing after it, the last operand `x` becomes `x Garbage Garbage`.
pub open spec fn expression_tree(scan: ExprScan) -> SpecExpression {
    if scan.incomplete && scan.operands.len() > 0 {
        let last = scan.operands.last();
        precedence_tree(
            scan.operands.drop_last().push(
                SpecExpression::BinaryOp(
                    Box::new(last),
                    Box::new(SpecExpression::Garbage),
                    Box::new(SpecExpression::Garbage),
                ),
            ),
            scan.ops,
        )
    } else {
        precedence_tree(scan.operands, scan.ops)
    }
}


/// Combines the top three entries of an expression stack, `lhs op rhs`, into one.
pub open spec fn reduce_top(stack: Seq<SpecExpression>) -> Seq<SpecExpression> {
    let n = stack.len() as int;
    stack.subrange(0, n - 3).push(
        SpecExpression::BinaryOp(
            Box::new(stack[n - 3]),
            Box::new(stack[n - 2]),
            Box::new(stack[n - 1]),
        ),
    )
}

/// Combines the top of the stack while the operator below its top binds at
/// least as tightly as `prec`.
pub open spec fn reduce_while(stack: Seq<SpecExpression>, prec: u64) -> Seq<SpecExpression>
    decreases stack.len(),
{
    if stack.len() >= 3 && expression_precedence(stack[stack.len() - 2]) >= prec {
        reduce_while(reduce_top(stack), prec)
    } else {
        stack
    }
}

/// Combines the whole stack from the top down into one expression.
pub open spec fn collapse(stack: Seq<SpecExpression>) -> SpecExpression
    decreases stack.len(),
{
    if stack.len() >= 3 {
        collapse(reduce_top(stack))
    } else {
        stack[0]
    }
}

/// The expression stack after reading `operands` and `ops`.
pub open spec fn shunt(operands: Seq<SpecExpression>, ops: Seq<Operator>) -> Seq<SpecExpression>
    decreases ops.len(),
{
    if ops.len() == 0 || operands.len() != ops.len() + 1 {
        seq![operands[0]]
    } else {
        reduce_while(
            shunt(operands.drop_last(), ops.drop_last()),
            operator_precedence(ops.last()),
        ).push(SpecExpression::Operator(ops.last())).push(operands.last())
    }
}

/// The expression the stack of `parse_expression` is combined into.
pub open spec fn stack_tree(scan: ExprScan) -> SpecExpression {
    if scan.incomplete {
        collapse(
            shunt(scan.operands, scan.ops).push(SpecExpression::Garbage).push(
                SpecExpression::Garbage,
            ),
        )
    } else {
        collapse(shunt(scan.operands, scan.ops))
    }
}

pub proof fn lemma_reduce_while_odd(stack: Seq<SpecExpression>, prec: u64)
    requires
        stack.len() % 2 == 1,
    ensures
        reduce_while(stack, prec).len() % 2 == 1,
        reduce_while(stack, prec).len() <= stack.len(),
    decreases stack.len(),
{
    if stack.len() >= 3 && expression_precedence(stack[stack.len() - 2]) >= prec {
        lemma_reduce_while_odd(reduce_top(stack), prec);
    }
}

pub proof fn lemma_shunt_odd(operands: Seq<SpecExpression>, ops: Seq<Operator>)
    ensures
        shunt(operands, ops).len() % 2 == 1,
    decreases ops.len(),
{
    if !(ops.len() == 0 || operands.len() != ops.len() + 1) {
        lemma_shunt_odd(operands.drop_last(), ops.drop_last());
        lemma_reduce_while_odd(
            shunt(operands.drop_last(), ops.drop_last()),
            operator_precedence(ops.last()),
        );
    }
}


/// The first operand of segment `j` of a stack whose operators sit at the
/// operator positions `bounds`.
pub open spec fn seg_lo(bounds: Seq<int>, j: int) -> int {
    if j == 0 {
        0
    } else {
        bounds[j - 1] + 1
    }
}

/// The last operand of segment `j`; `n` is the number of operators.
pub open spec fn seg_hi(bounds: Seq<int>, n: int, j: int) -> int {
    if j == bounds.len() {
        n
    } else {
        bounds[j]
    }
}

/// The tree of the operands and operators of segment `j`.
pub open spec fn segment_tree(
    operands: Seq<SpecExpression>,
    ops: Seq<Operator>,
    bounds: Seq<int>,
    j: int,
) -> SpecExpression {
    precedence_tree(
        operands.subrange(seg_lo(bounds, j), seg_hi(bounds, ops.len() as int, j) + 1),
        ops.subrange(seg_lo(bounds, j), seg_hi(bounds, ops.len() as int, j)),
    )
}

/// `stack` holds `operands` and `ops` cut at the operator positions `bounds`:
/// its even entries are the trees of the segments between them, its odd
/// entries the operators at them. Every operator after a cut binds tighter than
/// the operator at the cut, and every operator of the segment before a cut
/// binds at least as tightly.
pub open spec fn stack_models(
    stack: Seq<SpecExpression>,
    operands: Seq<SpecExpression>,
    ops: Seq<Operator>,
    bounds: Seq<int>,
) -> bool {
    &&& operands.len() == ops.len() + 1
    &&& stack.len() == 2 * bounds.len() + 1
    &&& forall|j: int| 0 <= j < bounds.len() ==> 0 <= #[trigger] bounds[j] < ops.len()
    &&& forall|j: int, k: int| 0 <= j < k < bounds.len() ==> #[trigger] bounds[j] < #[trigger] bounds[k]
    &&& forall|j: int|
        0 <= j <= bounds.len() ==> stack[2 * j] == #[trigger] segment_tree(operands, ops, bounds, j)
    &&& forall|j: int|
        0 <= j < bounds.len() ==> stack[2 * j + 1] == SpecExpression::Operator(
            ops[#[trigger] bounds[j]],
        )
    &&& forall|j: int, t: int|
        #![trigger bounds[j], ops[t]]
        0 <= j < bounds.len() && bounds[j] < t < ops.len() ==> operator_precedence(ops[bounds[j]])
            < operator_precedence(ops[t])
    &&& forall|j: int, t: int|
        #![trigger bounds[j], ops[t]]
        0 <= j < bounds.len() && seg_lo(bounds, j) <= t < bounds[j] ==> operator_precedence(
            ops[bounds[j]],
        ) <= operator_precedence(ops[t])
}

/// Cutting at an operator that binds no tighter than those before it in the
/// range and less tightly than those after it splits the tree there.
pub proof fn lemma_split(operands: Seq<SpecExpression>, ops: Seq<Operator>, lo: int, b: int, hi: int)
    requires
        operands.len() == ops.len() + 1,
        0 <= lo <= b < hi <= ops.len(),
        forall|t: int|
            lo <= t < b ==> operator_precedence(ops[b]) <= operator_precedence(#[trigger] ops[t]),
        forall|t: int|
            b < t < hi ==> operator_precedence(ops[b]) < operator_precedence(#[trigger] ops[t]),
    ensures
        precedence_tree(operands.subrange(lo, hi + 1), ops.subrange(lo, hi))
            == SpecExpression::BinaryOp(
            Box::new(precedence_tree(operands.subrange(lo, b + 1), ops.subrange(lo, b))),
            Box::new(SpecExpression::Operator(ops[b])),
            Box::new(precedence_tree(operands.subrange(b + 1, hi + 1), ops.subrange(b + 1, hi))),
        ),
{
    let e = operands.subrange(lo, hi + 1);
    let o = ops.subrange(lo, hi);
    let k = b - lo;
    lemma_last_lowest(o);
    let kk = last_lowest(o);
    assert(o[k] == ops[b]);
    if kk < k {
        assert(o[kk] == ops[lo + kk]);
    } else if kk > k {
        assert(o[kk] == ops[lo + kk]);
    }
    assert(kk == k);
    assert(e.take(k + 1) =~= operands.subrange(lo, b + 1));
    assert(o.take(k) =~= ops.subrange(lo, b));
    assert(e.skip(k + 1) =~= operands.subrange(b + 1, hi + 1));
    assert(o.skip(k + 1) =~= ops.subrange(b + 1, hi));
}


/// Combining the top of the stack merges its last two segments.
#[verifier::spinoff_prover]
pub proof fn lemma_reduce_top_models(
    stack: Seq<SpecExpression>,
    operands: Seq<SpecExpression>,
    ops: Seq<Operator>,
    bounds: Seq<int>,
)
    requires
        stack_models(stack, operands, ops, bounds),
        bounds.len() > 0,
    ensures
        stack_models(reduce_top(stack), operands, ops, bounds.drop_last()),
{
    let m = bounds.len() as int;
    let n = ops.len() as int;
    let b2 = bounds.drop_last();
    let s2 = reduce_top(stack);
    let b = bounds[m - 1];
    let lo = seg_lo(bounds, m - 1);
    assert(seg_lo(bounds, m) == b + 1);
    assert(stack[2 * (m - 1)] == segment_tree(operands, ops, bounds, m - 1));
    assert(stack[2 * m] == segment_tree(operands, ops, bounds, m));
    assert(stack[2 * (m - 1) + 1] == SpecExpression::Operator(ops[bounds[m - 1]]));
    if m > 1 {
        assert(bounds[m - 2] < bounds[m - 1]);
    }
    assert(0 <= lo <= b < n);
    assert forall|t: int| lo <= t < b implies operator_precedence(ops[b]) <= operator_precedence(
        #[trigger] ops[t],
    ) by {
        assert(bounds[m - 1] == b);
    }
    assert forall|t: int| b < t < n implies operator_precedence(ops[b]) < operator_precedence(
        #[trigger] ops[t],
    ) by {
        assert(bounds[m - 1] == b);
    }
    lemma_split(operands, ops, lo, b, n);
    assert(seg_lo(b2, m - 1) == lo);
    assert(seg_hi(b2, n, m - 1) == n);
    assert(s2[2 * (m - 1)] == segment_tree(operands, ops, b2, m - 1));
    assert forall|j: int| 0 <= j <= b2.len() implies s2[2 * j] == #[trigger] segment_tree(
        operands,
        ops,
        b2,
        j,
    ) by {
        if j < m - 1 {
            assert(seg_lo(b2, j) == seg_lo(bounds, j));
            assert(seg_hi(b2, n, j) == seg_hi(bounds, n, j));
            assert(stack[2 * j] == segment_tree(operands, ops, bounds, j));
        }
    }
    assert forall|j: int| 0 <= j < b2.len() implies s2[2 * j + 1] == SpecExpression::Operator(
        ops[#[trigger] b2[j]],
    ) by {
        assert(bounds[j] == b2[j]);
    }
    assert forall|j: int, t: int|
        #![trigger b2[j], ops[t]]
        0 <= j < b2.len() && b2[j] < t < ops.len() implies operator_precedence(ops[b2[j]])
        < operator_precedence(ops[t]) by {
        assert(bounds[j] == b2[j]);
    }
    assert forall|j: int, t: int|
        #![trigger b2[j], ops[t]]
        0 <= j < b2.len() && seg_lo(b2, j) <= t < b2[j] implies operator_precedence(ops[b2[j]])
        <= operator_precedence(ops[t]) by {
        assert(bounds[j] == b2[j]);
        assert(seg_lo(b2, j) == seg_lo(bounds, j));
    }
    assert forall|j: int, k: int| 0 <= j < k < b2.len() implies #[trigger] b2[j] < #[trigger] b2[k] by {
        assert(bounds[j] < bounds[k]);
    }
}


/// Every operator of the last segment binds at least as tightly as `prec`.
pub open spec fn last_segment_at_least(ops: Seq<Operator>, bounds: Seq<int>, prec: u64) -> bool {
    forall|t: int|
        seg_lo(bounds, bounds.len() as int) <= t < ops.len() ==> prec <= operator_precedence(
            #[trigger] ops[t],
        )
}

/// Reducing for an incoming operator keeps the stack a model of what was read,
/// and leaves on top only a cut that binds less tightly than the incoming operator.
#[verifier::spinoff_prover]
pub proof fn lemma_reduce_while_models(
    stack: Seq<SpecExpression>,
    operands: Seq<SpecExpression>,
    ops: Seq<Operator>,
    bounds: Seq<int>,
    prec: u64,
) -> (cut: Seq<int>)
    requires
        stack_models(stack, operands, ops, bounds),
        last_segment_at_least(ops, bounds, prec),
    ensures
        stack_models(reduce_while(stack, prec), operands, ops, cut),
        last_segment_at_least(ops, cut, prec),
        cut.len() > 0 ==> operator_precedence(ops[cut.last()]) < prec,
    decreases stack.len(),
{
    let m = bounds.len() as int;
    if stack.len() >= 3 && expression_precedence(stack[stack.len() - 2]) >= prec {
        assert(stack[2 * (m - 1) + 1] == SpecExpression::Operator(ops[bounds[m - 1]]));
        let b = bounds[m - 1];
        lemma_reduce_top_models(stack, operands, ops, bounds);
        let b2 = bounds.drop_last();
        assert forall|t: int|
            seg_lo(b2, b2.len() as int) <= t < ops.len() implies prec <= operator_precedence(
            #[trigger] ops[t],
        ) by {
            assert(bounds[m - 1] == b);
            if t > b {
                assert(seg_lo(bounds, m) == b + 1);
            } else if t < b {
                assert(seg_lo(b2, m - 1) == seg_lo(bounds, m - 1));
            }
        }
        lemma_reduce_while_models(reduce_top(stack), operands, ops, b2, prec)
    } else {
        if m > 0 {
            assert(stack[2 * (m - 1) + 1] == SpecExpression::Operator(ops[bounds[m - 1]]));
        }
        bounds
    }
}

/// Pushing an operator and the operand after it, once the stack was reduced
/// for that operator, keeps the stack a model of what was read.
#[verifier::spinoff_prover]
pub proof fn lemma_push_models(
    stack: Seq<SpecExpression>,
    operands: Seq<SpecExpression>,
    ops: Seq<Operator>,
    bounds: Seq<int>,
    op: Operator,
    x: SpecExpression,
)
    requires
        stack_models(stack, operands, ops, bounds),
        last_segment_at_least(ops, bounds, operator_precedence(op)),
        bounds.len() > 0 ==> operator_precedence(ops[bounds.last()]) < operator_precedence(op),
    ensures
        stack_models(
            stack.push(SpecExpression::Operator(op)).push(x),
            operands.push(x),
            ops.push(op),
            bounds.push(ops.len() as int),
        ),
{
    let m = bounds.len() as int;
    let n = ops.len() as int;
    let s2 = stack.push(SpecExpression::Operator(op)).push(x);
    let e2 = operands.push(x);
    let o2 = ops.push(op);
    let b2 = bounds.push(n);
    assert forall|j: int| 0 <= j <= b2.len() implies s2[2 * j] == #[trigger] segment_tree(
        e2,
        o2,
        b2,
        j,
    ) by {
        if j <= m {
            assert(stack[2 * j] == segment_tree(operands, ops, bounds, j));
            assert(seg_lo(b2, j) == seg_lo(bounds, j));
            assert(seg_hi(b2, n + 1, j) == seg_hi(bounds, n, j));
            if j > 0 {
                assert(0 <= bounds[j - 1] < n);
            }
            if j < m {
                assert(0 <= bounds[j] < n);
                if j > 0 {
                    assert(bounds[j - 1] < bounds[j]);
                }
            } else if j > 0 {
                assert(0 <= bounds[j - 1] < n);
            }
            let lo = seg_lo(bounds, j);
            let hi = seg_hi(bounds, n, j);
            assert(e2.subrange(lo, hi + 1) =~= operands.subrange(lo, hi + 1));
            assert(o2.subrange(lo, hi) =~= ops.subrange(lo, hi));
        } else {
            assert(seg_lo(b2, j) == n + 1);
            assert(e2.subrange(n + 1, n + 2) =~= seq![x]);
            assert(o2.subrange(n + 1, n + 1) =~= Seq::<Operator>::empty());
        }
    }
    assert forall|j: int| 0 <= j < b2.len() implies s2[2 * j + 1] == SpecExpression::Operator(
        o2[#[trigger] b2[j]],
    ) by {
        if j < m {
            assert(stack[2 * j + 1] == SpecExpression::Operator(ops[bounds[j]]));
            assert(0 <= bounds[j] < n);
        }
    }
    assert forall|j: int, t: int|
        #![trigger b2[j], o2[t]]
        0 <= j < b2.len() && b2[j] < t < o2.len() implies operator_precedence(o2[b2[j]])
        < operator_precedence(o2[t]) by {
        if j < m {
            assert(0 <= bounds[j] < n);
            if t < n {
                assert(bounds[j] == b2[j]);
                assert(ops[t] == o2[t]);
            } else {
                if j < m - 1 {
                    assert(bounds[j] < bounds[m - 1]);
                    assert(ops[bounds[m - 1]] == o2[bounds[m - 1]]);
                }
            }
        }
    }
    assert forall|j: int, t: int|
        #![trigger b2[j], o2[t]]
        0 <= j < b2.len() && seg_lo(b2, j) <= t < b2[j] implies operator_precedence(o2[b2[j]])
        <= operator_precedence(o2[t]) by {
        assert(seg_lo(b2, j) == seg_lo(bounds, j));
        if j < m {
            assert(0 <= bounds[j] < n);
            assert(bounds[j] == b2[j]);
        } else {
            assert(ops[t] == o2[t]);
        }
    }
    assert forall|j: int, k: int| 0 <= j < k < b2.len() implies #[trigger] b2[j] < #[trigger] b2[k] by {
        if k < m {
            assert(bounds[j] < bounds[k]);
        } else {
            assert(0 <= bounds[j] < n);
        }
    }
    assert forall|j: int| 0 <= j < b2.len() implies 0 <= #[trigger] b2[j] < o2.len() by {
        if j < m {
            assert(0 <= bounds[j] < n);
        }
    }
}


/// The stack after reading `operands` and `ops` models them, with the last
/// operand alone in the last segment.
pub proof fn lemma_shunt_models(operands: Seq<SpecExpression>, ops: Seq<Operator>) -> (cut: Seq<
    int,
>)
    requires
        operands.len() == ops.len() + 1,
    ensures
        stack_models(shunt(operands, ops), operands, ops, cut),
        seg_lo(cut, cut.len() as int) == ops.len(),
    decreases ops.len(),
{
    if ops.len() == 0 {
        let cut = Seq::<int>::empty();
        assert(operands.subrange(0, 1) =~= seq![operands[0]]);
        assert(ops.subrange(0, 0) =~= Seq::<Operator>::empty());
        assert(shunt(operands, ops)[0] == segment_tree(operands, ops, cut, 0));
        cut
    } else {
        let e1 = operands.drop_last();
        let o1 = ops.drop_last();
        let op = ops.last();
        let x = operands.last();
        let c1 = lemma_shunt_models(e1, o1);
        let q = operator_precedence(op);
        let c2 = lemma_reduce_while_models(shunt(e1, o1), e1, o1, c1, q);
        lemma_push_models(reduce_while(shunt(e1, o1), q), e1, o1, c2, op, x);
        assert(e1.push(x) =~= operands);
        assert(o1.push(op) =~= ops);
        c2.push(o1.len() as int)
    }
}

/// A stack that models what was read combines into the precedence tree of it.
pub proof fn lemma_collapse_models(
    stack: Seq<SpecExpression>,
    operands: Seq<SpecExpression>,
    ops: Seq<Operator>,
    bounds: Seq<int>,
)
    requires
        stack_models(stack, operands, ops, bounds),
    ensures
        collapse(stack) == precedence_tree(operands, ops),
    decreases bounds.len(),
{
    if bounds.len() == 0 {
        assert(stack[0] == segment_tree(operands, ops, bounds, 0));
        assert(operands.subrange(0, ops.len() as int + 1) =~= operands);
        assert(ops.subrange(0, ops.len() as int) =~= ops);
    } else {
        lemma_reduce_top_models(stack, operands, ops, bounds);
        lemma_collapse_models(reduce_top(stack), operands, ops, bounds.drop_last());
    }
}

/// The expression stack of `parse_expression` combines into the precedence
/// tree of what was read.
#[verifier::spinoff_prover]
pub proof fn lemma_stack_tree(scan: ExprScan)
    requires
        scan.operands.len() == scan.ops.len() + 1,
    ensures
        stack_tree(scan) == expression_tree(scan),
{
    let e = scan.operands;
    let o = scan.ops;
    let cut = lemma_shunt_models(e, o);
    let st = shunt(e, o);
    if scan.incomplete {
        let g = SpecExpression::Garbage;
        let m = cut.len() as int;
        let n = o.len() as int;
        let last = e.last();
        let e2 = e.drop_last().push(
            SpecExpression::BinaryOp(Box::new(last), Box::new(g), Box::new(g)),
        );
        let s2 = reduce_top(st.push(g).push(g));
        assert(st[2 * m] == segment_tree(e, o, cut, m));
        assert(e.subrange(n, n + 1) =~= seq![last]);
        assert(o.subrange(n, n) =~= Seq::<Operator>::empty());
        assert(st[2 * m] == last);
        assert forall|j: int| 0 <= j <= cut.len() implies s2[2 * j] == #[trigger] segment_tree(
            e2,
            o,
            cut,
            j,
        ) by {
            if j < m {
                assert(st[2 * j] == segment_tree(e, o, cut, j));
                assert(0 <= cut[j] < n);
                if j > 0 {
                    assert(cut[j - 1] < cut[j]);
                }
                let lo = seg_lo(cut, j);
                let hi = seg_hi(cut, n, j);
                assert(e2.subrange(lo, hi + 1) =~= e.subrange(lo, hi + 1));
            } else {
                assert(e2.subrange(n, n + 1) =~= seq![e2[n]]);
            }
        }
        assert forall|j: int| 0 <= j < cut.len() implies s2[2 * j + 1] == SpecExpression::Operator(
            o[#[trigger] cut[j]],
        ) by {
            assert(st[2 * j + 1] == SpecExpression::Operator(o[cut[j]]));
        }
        assert(stack_models(s2, e2, o, cut));
        lemma_collapse_models(s2, e2, o, cut);
    } else {
        lemma_collapse_models(st, e, o, cut);
    }
}


/// Of two operators in a row, the one that binds tighter is grouped first, and
/// of two that bind equally tightly the left one is: `a p b q c` is
/// `a p (b q c)` when `q` binds tighter than `p`, and `(a p b) q c` otherwise.
pub proof fn law_two_operators(
    a: SpecExpression,
    b: SpecExpression,
    c: SpecExpression,
    p: Operator,
    q: Operator,
)
    ensures
        precedence_tree(seq![a, b, c], seq![p, q]) == (if operator_precedence(p)
            < operator_precedence(q) {
            SpecExpression::BinaryOp(
                Box::new(a),
                Box::new(SpecExpression::Operator(p)),
                Box::new(
                    SpecExpression::BinaryOp(
                        Box::new(b),
                        Box::new(SpecExpression::Operator(q)),
                        Box::new(c),
                    ),
                ),
            )
        } else {
            SpecExpression::BinaryOp(
                Box::new(
                    SpecExpression::BinaryOp(
                        Box::new(a),
                        Box::new(SpecExpression::Operator(p)),
                        Box::new(b),
                    ),
                ),
                Box::new(SpecExpression::Operator(q)),
                Box::new(c),
            )
        }),
{
    let e = seq![a, b, c];
    let o = seq![p, q];
    assert(o.drop_last() =~= seq![p]);
    assert(last_lowest(seq![p]) == 0);
    if operator_precedence(p) < operator_precedence(q) {
        assert(last_lowest(o) == 0);
        assert(e.take(1) =~= seq![a]);
        assert(o.take(0) =~= Seq::<Operator>::empty());
        assert(e.skip(1) =~= seq![b, c]);
        assert(o.skip(1) =~= seq![q]);
        let r = seq![b, c];
        let ro = seq![q];
        assert(r.take(1) =~= seq![b]);
        assert(ro.take(0) =~= Seq::<Operator>::empty());
        assert(r.skip(1) =~= seq![c]);
        assert(ro.skip(1) =~= Seq::<Operator>::empty());
        assert(last_lowest(ro) == 0);
        assert(precedence_tree(seq![a], Seq::<Operator>::empty()) == a);
        assert(precedence_tree(seq![b], Seq::<Operator>::empty()) == b);
        assert(precedence_tree(seq![c], Seq::<Operator>::empty()) == c);
        assert(precedence_tree(r, ro) == SpecExpression::BinaryOp(
            Box::new(b),
            Box::new(SpecExpression::Operator(q)),
            Box::new(c),
        ));
    } else {
        assert(last_lowest(o) == 1);
        assert(e.take(2) =~= seq![a, b]);
        assert(o.take(1) =~= seq![p]);
        assert(e.skip(2) =~= seq![c]);
        assert(o.skip(2) =~= Seq::<Operator>::empty());
        let l = seq![a, b];
        let lo = seq![p];
        assert(l.take(1) =~= seq![a]);
        assert(lo.take(0) =~= Seq::<Operator>::empty());
        assert(l.skip(1) =~= seq![b]);
        assert(lo.skip(1) =~= Seq::<Operator>::empty());
        assert(last_lowest(lo) == 0);
        assert(precedence_tree(seq![a], Seq::<Operator>::empty()) == a);
        assert(precedence_tree(seq![b], Seq::<Operator>::empty()) == b);
        assert(precedence_tree(seq![c], Seq::<Operator>::empty()) == c);
        assert(precedence_tree(l, lo) == SpecExpression::BinaryOp(
            Box::new(a),
            Box::new(SpecExpression::Operator(p)),
            Box::new(b),
        ));
    }
}

/// The root of the tree of two or more operands is the last operator that
/// binds least tightly; every operator before it binds at least as tightly and
/// every operator after it binds strictly tighter.
pub proof fn law_tree_root(operands: Seq<SpecExpression>, ops: Seq<Operator>)
    requires
        operands.len() == ops.len() + 1,
        ops.len() > 0,
    ensures
        ({
            let k = last_lowest(ops);
            &&& 0 <= k < ops.len()
            &&& precedence_tree(operands, ops) == SpecExpression::BinaryOp(
                Box::new(precedence_tree(operands.take(k + 1), ops.take(k))),
                Box::new(SpecExpression::Operator(ops[k])),
                Box::new(precedence_tree(operands.skip(k + 1), ops.skip(k + 1))),
            )
            &&& forall|t: int|
                0 <= t < k ==> operator_precedence(ops[k]) <= operator_precedence(
                    #[trigger] ops[t],
                )
            &&& forall|t: int|
                k < t < ops.len() ==> operator_precedence(ops[k]) < operator_precedence(
                    #[trigger] ops[t],
                )
        }),
{
    lemma_last_lowest(ops);
}

/// Multiplication and division bind tightest, then addition and subtraction,
/// then the comparisons, then assignment; anything that is not an operator has
/// precedence 0, below every operator.
pub proof fn law_precedence_order(op: Operator, e: SpecExpression)
    ensures
        operator_precedence(Operator::Multiply) == operator_precedence(Operator::Divide),
        operator_precedence(Operator::Add) == operator_precedence(Operator::Subtract),
        operator_precedence(Operator::Divide) > operator_precedence(Operator::Add),
        operator_precedence(Operator::Subtract) > operator_precedence(Operator::LessThan),
        operator_precedence(Operator::LessThan) == operator_precedence(Operator::Equal),
        operator_precedence(Operator::Equal) == operator_precedence(Operator::NotEqual),
        operator_precedence(Operator::LessThan) == operator_precedence(Operator::GreaterThan),
        operator_precedence(Operator::LessThanOrEqual) == operator_precedence(Operator::Equal),
        operator_precedence(Operator::GreaterThanOrEqual) == operator_precedence(Operator::Equal),
        operator_precedence(Operator::NotEqual) > operator_precedence(Operator::Assign),
        operator_precedence(Operator::Assign) > 0,
        operator_precedence(op) >= operator_precedence(Operator::Assign),
        !(e is Operator) ==> expression_precedence(e) == 0,
{
}


/// The leaves and operators of a tree, read from left to right.
pub open spec fn flatten(t: SpecExpression) -> Seq<SpecExpression>
    decreases t,
{
    match t {
        SpecExpression::BinaryOp(l, m, r) => flatten(*l) + flatten(*m) + flatten(*r),
        _ => seq![t],
    }
}

/// `operands[0] ops[0] operands[1] ... ops[n-1] operands[n]` as one sequence.
pub open spec fn interleave(operands: Seq<SpecExpression>, ops: Seq<Operator>) -> Seq<
    SpecExpression,
> {
    Seq::new(
        (2 * ops.len() + 1) as nat,
        |t: int|
            if t % 2 == 0 {
                operands[t / 2]
            } else {
                SpecExpression::Operator(ops[t / 2])
            },
    )
}

/// The operator at the root of a tree, if its root combines two parts with one.
pub open spec fn root_operator(t: SpecExpression) -> Option<Operator> {
    match t {
        SpecExpression::BinaryOp(_, m, _) => match *m {
            SpecExpression::Operator(op) => Some(op),
            _ => None,
        },
        _ => None,
    }
}

/// Every operator of the tree binds no tighter than the operator at the root
/// of its left part, and less tightly than the one at the root of its right part.
pub open spec fn ordered(t: SpecExpression) -> bool
    decreases t,
{
    match t {
        SpecExpression::BinaryOp(l, m, r) => {
            &&& ordered(*l)
            &&& ordered(*r)
            &&& (root_operator(t) matches Some(op) ==> {
                &&& (root_operator(*l) matches Some(p) ==> operator_precedence(op)
                    <= operator_precedence(p))
                &&& (root_operator(*r) matches Some(q) ==> operator_precedence(op)
                    < operator_precedence(q))
            })
        },
        _ => true,
    }
}

proof fn lemma_interleave_split(operands: Seq<SpecExpression>, ops: Seq<Operator>, k: int)
    requires
        operands.len() == ops.len() + 1,
        0 <= k < ops.len(),
    ensures
        interleave(operands, ops) == interleave(operands.take(k + 1), ops.take(k)) + seq![
            SpecExpression::Operator(ops[k]),
        ] + interleave(operands.skip(k + 1), ops.skip(k + 1)),
{
    let a = interleave(operands.take(k + 1), ops.take(k));
    let b = interleave(operands.skip(k + 1), ops.skip(k + 1));
    let whole = a + seq![SpecExpression::Operator(ops[k])] + b;
    let full = interleave(operands, ops);
    assert(whole.len() == full.len());
    assert forall|t: int| 0 <= t < full.len() implies full[t] == whole[t] by {
        if t < 2 * k + 1 {
            assert(whole[t] == a[t]);
        } else if t == 2 * k + 1 {
        } else {
            let u = t - (2 * k + 2);
            assert(whole[t] == b[u]);
            assert(u % 2 == t % 2);
            assert(t / 2 == u / 2 + k + 1);
        }
    }
    assert(full =~= whole);
}

/// Read from left to right, the tree of operands none of which combines two
/// parts gives back the operands and operators in their order; and it is
/// ordered by precedence.
pub proof fn law_tree_in_order(operands: Seq<SpecExpression>, ops: Seq<Operator>)
    requires
        operands.len() == ops.len() + 1,
        forall|j: int| 0 <= j < operands.len() ==> !(#[trigger] operands[j] is BinaryOp),
    ensures
        flatten(precedence_tree(operands, ops)) == interleave(operands, ops),
        ordered(precedence_tree(operands, ops)),
        ops.len() > 0 ==> root_operator(precedence_tree(operands, ops)) == Some(
            ops[last_lowest(ops)],
        ),
        ops.len() == 0 ==> root_operator(precedence_tree(operands, ops)) is None,
    decreases ops.len(),
{
    if ops.len() == 0 {
        assert(!(operands[0] is BinaryOp));
        assert(interleave(operands, ops) =~= seq![operands[0]]);
    } else {
        lemma_last_lowest(ops);
        let k = last_lowest(ops);
        let le = operands.take(k + 1);
        let lo = ops.take(k);
        let re = operands.skip(k + 1);
        let ro = ops.skip(k + 1);
        assert forall|j: int| 0 <= j < le.len() implies !(#[trigger] le[j] is BinaryOp) by {
            assert(le[j] == operands[j]);
        }
        assert forall|j: int| 0 <= j < re.len() implies !(#[trigger] re[j] is BinaryOp) by {
            assert(re[j] == operands[j + k + 1]);
        }
        law_tree_in_order(le, lo);
        law_tree_in_order(re, ro);
        lemma_interleave_split(operands, ops, k);
        let opk = SpecExpression::Operator(ops[k]);
        assert(precedence_tree(operands, ops) == SpecExpression::BinaryOp(
            Box::new(precedence_tree(le, lo)),
            Box::new(opk),
            Box::new(precedence_tree(re, ro)),
        ));
        assert(flatten(opk) == seq![opk]);
        if lo.len() > 0 {
            lemma_last_lowest(lo);
            assert(lo[last_lowest(lo)] == ops[last_lowest(lo)]);
        }
        if ro.len() > 0 {
            lemma_last_lowest(ro);
            assert(ro[last_lowest(ro)] == ops[last_lowest(ro) + k + 1]);
        }
    }
}

} // verus!
