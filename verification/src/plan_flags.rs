//! What the plan of an expression pushes for its boolean literals.

use vstd::prelude::*;
use crate::ast::ExprView;
use crate::evaluator::{StepView, args_nesting, args_plan, binary_step, call_step, depth_limit, nesting, plan_of, unary_step};

verus! {

/// The values that the `Flag` steps of a plan push, in order.
pub open spec fn flags(s: Seq<StepView>) -> Seq<bool>
    decreases s.len(),
{
    if s.len() == 0 {
        Seq::empty()
    } else {
        flags(s.drop_last()) + match s.last() {
            StepView::Flag(b) => seq![b],
            _ => Seq::<bool>::empty(),
        }
    }
}

/// The boolean literals of an expression, from left to right.
pub open spec fn literals(e: ExprView) -> Seq<bool>
    decreases e, 0nat,
{
    match e {
        ExprView::Boolean(b) => seq![b],
        ExprView::BinaryOp(l, _, r) => literals(*l) + literals(*r),
        ExprView::UnaryOp(_, x) => literals(*x),
        ExprView::FunctionCall { args, .. } => args_literals(args),
        _ => Seq::empty(),
    }
}

/// The boolean literals of a list of arguments, from left to right.
pub open spec fn args_literals(args: Seq<ExprView>) -> Seq<bool>
    decreases args, 1nat,
{
    if args.len() == 0 {
        Seq::empty()
    } else {
        args_literals(args.drop_last()) + literals(args.last())
    }
}

proof fn lemma_flags_concat(a: Seq<StepView>, b: Seq<StepView>)
    ensures
        flags(a + b) == flags(a) + flags(b),
    decreases b.len(),
{
    if b.len() == 0 {
        assert(a + b =~= a);
        assert(flags(a) + flags(b) =~= flags(a));
    } else {
        lemma_flags_concat(a, b.drop_last());
        assert((a + b).drop_last() =~= a + b.drop_last());
        assert((a + b).last() == b.last());
        let tail = match b.last() {
            StepView::Flag(x) => seq![x],
            _ => Seq::<bool>::empty(),
        };
        assert(flags(a) + flags(b.drop_last()) + tail =~= flags(a) + (flags(b.drop_last()) + tail));
    }
}

proof fn lemma_flags_one(x: StepView)
    ensures
        flags(seq![x]) == match x {
            StepView::Flag(b) => seq![b],
            _ => Seq::<bool>::empty(),
        },
{
    assert(seq![x].drop_last() =~= Seq::<StepView>::empty());
    assert(flags(Seq::<StepView>::empty()) + flags(seq![x]) =~= flags(seq![x]));
    let tail = match x {
        StepView::Flag(b) => seq![b],
        _ => Seq::<bool>::empty(),
    };
    assert(Seq::<bool>::empty() + tail =~= tail);
}

proof fn lemma_nesting_positive(e: ExprView)
    ensures
        nesting(e) >= 1,
{
}

/// Every boolean literal is planned as a step that pushes its own value:
/// of an expression that stays within the recursion limit, the `Flag`
/// steps of its plan carry exactly its boolean literals, in the order in
/// which they stand, and a literal `b` on its own is planned as the one
/// step `Flag(b)`.
pub proof fn lemma_plan_flags(e: ExprView, depth: nat)
    requires
        depth + nesting(e) <= depth_limit() + 1,
    ensures
        flags(plan_of(e, depth)) == literals(e),
        e is Boolean ==> plan_of(e, depth) == seq![StepView::Flag(e->Boolean_0)],
    decreases e, 0nat,
{
    lemma_nesting_positive(e);
    match e {
        ExprView::BinaryOp(l, op, r) => {
            lemma_plan_flags(*l, depth + 1);
            lemma_plan_flags(*r, depth + 1);
            lemma_flags_concat(plan_of(*l, depth + 1), plan_of(*r, depth + 1));
            lemma_flags_concat(plan_of(*l, depth + 1) + plan_of(*r, depth + 1), seq![binary_step(op)]);
            lemma_flags_one(binary_step(op));
            assert(literals(*l) + literals(*r) + Seq::<bool>::empty() =~= literals(*l) + literals(*r));
        },
        ExprView::UnaryOp(op, x) => {
            lemma_plan_flags(*x, depth + 1);
            lemma_flags_concat(plan_of(*x, depth + 1), seq![unary_step(op)]);
            lemma_flags_one(unary_step(op));
            assert(literals(*x) + Seq::<bool>::empty() =~= literals(*x));
        },
        ExprView::FunctionCall { name, args } => {
            lemma_args_plan_flags(args, depth + 1);
            lemma_flags_concat(args_plan(args, depth + 1), seq![call_step(name, args.len())]);
            lemma_flags_one(call_step(name, args.len()));
            assert(args_literals(args) + Seq::<bool>::empty() =~= args_literals(args));
        },
        ExprView::Number(n) => {
            lemma_flags_one(StepView::Number(n));
        },
        ExprView::Boolean(b) => {
            lemma_flags_one(StepView::Flag(b));
        },
        ExprView::Unit(n, _) => {
            lemma_flags_one(StepView::Number(n));
        },
        ExprView::VariableRef(v) => {
            lemma_flags_one(StepView::Load(v));
        },
        _ => {
            lemma_flags_one(StepView::Fail("Unsupported expression type"@));
        },
    }
}

proof fn lemma_args_plan_flags(args: Seq<ExprView>, depth: nat)
    requires
        depth + args_nesting(args) <= depth_limit() + 1,
    ensures
        flags(args_plan(args, depth)) == args_literals(args),
    decreases args, 1nat,
{
    if args.len() == 0 {
        assert(flags(Seq::<StepView>::empty()) =~= Seq::<bool>::empty());
    } else {
        lemma_args_plan_flags(args.drop_last(), depth);
        lemma_plan_flags(args.last(), depth);
        lemma_flags_concat(args_plan(args.drop_last(), depth), plan_of(args.last(), depth));
    }
}

} // verus!
