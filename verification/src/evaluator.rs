//! Evaluation of expressions. An expression is evaluated depth first, left
//! operand before right, arguments in order; a nested evaluation deeper
//! than the recursion limit stops the evaluation. The library lays this
//! order out as a plan of steps for a stack of numbers, with the checks
//! that can stop it, each in the place where evaluation meets it; the
//! floating-point arithmetic of the steps is done around the library.

use vstd::prelude::*;
use crate::ast::{ExprView, Expression, expr_view, exprs_view};
use crate::text::{owned, push_str, str_eq};

verus! {

/// Why an evaluation stopped, with the trace of what was being evaluated
/// (outermost first).
#[derive(Debug, Clone)]
pub enum EvalError {
    MathError { message: String, trace: Vec<String> },
    RecursionLimitExceeded { trace: Vec<String> },
}

/// The parts joined by ` -> `.
pub open spec fn joined(parts: Seq<Seq<char>>) -> Seq<char>
    decreases parts.len(),
{
    if parts.len() == 0 {
        Seq::empty()
    } else if parts.len() == 1 {
        parts[0]
    } else {
        joined(parts.drop_last()) + " -> "@ + parts.last()
    }
}

/// The texts of a list of strings.
pub open spec fn texts_of(v: Seq<String>) -> Seq<Seq<char>> {
    v.map_values(|s: String| s@)
}

/// How an evaluation error reads.
pub open spec fn eval_error_text(e: EvalError) -> Seq<char> {
    match e {
        EvalError::MathError { message, trace } => "Error in "@ + joined(texts_of(trace@)) + " -> Math Error: "@ + message@,
        EvalError::RecursionLimitExceeded { trace } => "Recursion limit exceeded in "@ + joined(texts_of(trace@)),
    }
}

/// The trace joined by ` -> `.
fn join_trace(trace: &Vec<String>) -> (s: String)
    ensures
        s@ == joined(texts_of(trace@)),
{
    let mut s = String::new();
    let mut i: usize = 0;
    while i < trace.len()
        invariant
            i <= trace@.len(),
            s@ == joined(texts_of(trace@).take(i as int)),
        decreases trace@.len() - i,
    {
        let ghost t = texts_of(trace@);
        if i > 0 {
            push_str(&mut s, " -> ");
        }
        push_str(&mut s, trace[i].as_str());
        proof {
            assert(t.take(i + 1).drop_last() =~= t.take(i as int));
            if i == 0 {
                assert(t.take(1) =~= seq![trace@[0]@]);
                assert(s@ =~= t.take(1)[0]);
            }
        }
        i = i + 1;
    }
    proof {
        assert(texts_of(trace@).take(trace@.len() as int) =~= texts_of(trace@));
    }
    s
}

impl EvalError {
    /// How the error reads: the trace joined by ` -> `, and the message.
    pub fn to_text(&self) -> (s: String)
        ensures
            s@ == eval_error_text(*self),
    {
        match self {
            EvalError::MathError { message, trace } => {
                let mut s = owned("Error in ");
                let j = join_trace(trace);
                push_str(&mut s, j.as_str());
                push_str(&mut s, " -> Math Error: ");
                push_str(&mut s, message.as_str());
                s
            },
            EvalError::RecursionLimitExceeded { trace } => {
                let mut s = owned("Recursion limit exceeded in ");
                let j = join_trace(trace);
                push_str(&mut s, j.as_str());
                s
            },
        }
    }
}

/// The binary operators of the math language.
#[derive(Debug, Clone, Copy, PartialEq, Eq, Structural)]
pub enum BinOp {
    Add,
    Sub,
    Mul,
    Div,
    Eq,
    Ne,
    Lt,
    Gt,
    Le,
    Ge,
}

/// The functions of the math language, each of one argument.
#[derive(Debug, Clone, Copy, PartialEq, Eq, Structural)]
pub enum MathFn {
    Sin,
    Cos,
    Round,
    Abs,
}

/// One step of an evaluation plan, run on a stack of numbers.
#[derive(Debug)]
pub enum Step {
    /// Push the value of a number literal.
    Number(String),
    /// Push 1 for true, 0 for false.
    Flag(bool),
    /// Push the value of a variable; stop with `Unknown variable: ` and its
    /// name when it has none.
    Load(String),
    /// Pop the right operand, then the left, and push the result; a
    /// division stops with `Division by zero` when the right operand is 0;
    /// a comparison pushes 1 when it holds, else 0.
    Binary(BinOp),
    /// Pop a value and push its negation.
    Negate,
    /// Pop the argument and push the function's value.
    Call(MathFn),
    /// Stop with this math error message.
    Fail(String),
    /// Stop: the recursion limit is exceeded.
    TooDeep,
}

/// A plan step with text as characters.
pub enum StepView {
    Number(Seq<char>),
    Flag(bool),
    Load(Seq<char>),
    Binary(BinOp),
    Negate,
    Call(MathFn),
    Fail(Seq<char>),
    TooDeep,
}

/// The view of a step.
pub open spec fn step_view(s: Step) -> StepView {
    match s {
        Step::Number(n) => StepView::Number(n@),
        Step::Flag(b) => StepView::Flag(b),
        Step::Load(v) => StepView::Load(v@),
        Step::Binary(op) => StepView::Binary(op),
        Step::Negate => StepView::Negate,
        Step::Call(f) => StepView::Call(f),
        Step::Fail(m) => StepView::Fail(m@),
        Step::TooDeep => StepView::TooDeep,
    }
}

/// The views of a list of steps.
pub open spec fn steps_view(s: Seq<Step>) -> Seq<StepView> {
    s.map_values(|x: Step| step_view(x))
}

/// The deepest nesting at which an expression is still evaluated.
pub open spec fn depth_limit() -> nat {
    100
}

/// The step that applies a binary operator: the operator's own, or a stop
/// with `Unknown operator: ` and the operator.
pub open spec fn binary_step(op: Seq<char>) -> StepView {
    if op == "+"@ {
        StepView::Binary(BinOp::Add)
    } else if op == "-"@ {
        StepView::Binary(BinOp::Sub)
    } else if op == "*"@ {
        StepView::Binary(BinOp::Mul)
    } else if op == "/"@ {
        StepView::Binary(BinOp::Div)
    } else if op == "=="@ {
        StepView::Binary(BinOp::Eq)
    } else if op == "!="@ {
        StepView::Binary(BinOp::Ne)
    } else if op == "<"@ {
        StepView::Binary(BinOp::Lt)
    } else if op == ">"@ {
        StepView::Binary(BinOp::Gt)
    } else if op == "<="@ {
        StepView::Binary(BinOp::Le)
    } else if op == ">="@ {
        StepView::Binary(BinOp::Ge)
    } else {
        StepView::Fail("Unknown operator: "@ + op)
    }
}

/// The step that applies a unary operator: negation for `-`, else a stop
/// with `Unknown unary operator: ` and the operator.
pub open spec fn unary_step(op: Seq<char>) -> StepView {
    if op == "-"@ {
        StepView::Negate
    } else {
        StepView::Fail("Unknown unary operator: "@ + op)
    }
}

/// The step that calls a function with `n` arguments: `Math.sin`,
/// `Math.cos`, `Math.round` and `Math.abs` of one argument, else a stop
/// with `Unknown function: ` and the name.
pub open spec fn call_step(name: Seq<char>, n: nat) -> StepView {
    if name == "Math.sin"@ && n == 1 {
        StepView::Call(MathFn::Sin)
    } else if name == "Math.cos"@ && n == 1 {
        StepView::Call(MathFn::Cos)
    } else if name == "Math.round"@ && n == 1 {
        StepView::Call(MathFn::Round)
    } else if name == "Math.abs"@ && n == 1 {
        StepView::Call(MathFn::Abs)
    } else {
        StepView::Fail("Unknown function: "@ + name)
    }
}

/// The plan that evaluates `e` at nesting `depth`: past the limit, a stop;
/// else the plans of its parts, in order, at one deeper, then the step
/// that combines them. Strings and property references cannot be
/// evaluated.
pub open spec fn plan_of(e: ExprView, depth: nat) -> Seq<StepView>
    decreases e, 0nat,
{
    if depth > depth_limit() {
        seq![StepView::TooDeep]
    } else {
        match e {
            ExprView::Number(n) => seq![StepView::Number(n)],
            ExprView::Boolean(b) => seq![StepView::Flag(b)],
            ExprView::Unit(n, _) => seq![StepView::Number(n)],
            ExprView::VariableRef(v) => seq![StepView::Load(v)],
            ExprView::BinaryOp(l, op, r) => plan_of(*l, depth + 1) + plan_of(*r, depth + 1) + seq![binary_step(op)],
            ExprView::UnaryOp(op, x) => plan_of(*x, depth + 1) + seq![unary_step(op)],
            ExprView::FunctionCall { name, args } => args_plan(args, depth + 1) + seq![call_step(name, args.len())],
            _ => seq![StepView::Fail("Unsupported expression type"@)],
        }
    }
}

/// The plans of a list of arguments, one after another.
pub open spec fn args_plan(args: Seq<ExprView>, depth: nat) -> Seq<StepView>
    decreases args, 1nat,
{
    if args.len() == 0 {
        Seq::empty()
    } else {
        args_plan(args.drop_last(), depth) + plan_of(args.last(), depth)
    }
}

/// A message made of a fixed text and a name.
fn message_with(prefix: &str, name: &str) -> (s: String)
    ensures
        s@ == prefix@ + name@,
{
    let mut s = owned(prefix);
    push_str(&mut s, name);
    s
}

fn binary_step_of(op: &str) -> (s: Step)
    ensures
        step_view(s) == binary_step(op@),
{
    if str_eq(op, "+") {
        Step::Binary(BinOp::Add)
    } else if str_eq(op, "-") {
        Step::Binary(BinOp::Sub)
    } else if str_eq(op, "*") {
        Step::Binary(BinOp::Mul)
    } else if str_eq(op, "/") {
        Step::Binary(BinOp::Div)
    } else if str_eq(op, "==") {
        Step::Binary(BinOp::Eq)
    } else if str_eq(op, "!=") {
        Step::Binary(BinOp::Ne)
    } else if str_eq(op, "<") {
        Step::Binary(BinOp::Lt)
    } else if str_eq(op, ">") {
        Step::Binary(BinOp::Gt)
    } else if str_eq(op, "<=") {
        Step::Binary(BinOp::Le)
    } else if str_eq(op, ">=") {
        Step::Binary(BinOp::Ge)
    } else {
        Step::Fail(message_with("Unknown operator: ", op))
    }
}

fn call_step_of(name: &str, n: usize) -> (s: Step)
    ensures
        step_view(s) == call_step(name@, n as nat),
{
    if str_eq(name, "Math.sin") && n == 1 {
        Step::Call(MathFn::Sin)
    } else if str_eq(name, "Math.cos") && n == 1 {
        Step::Call(MathFn::Cos)
    } else if str_eq(name, "Math.round") && n == 1 {
        Step::Call(MathFn::Round)
    } else if str_eq(name, "Math.abs") && n == 1 {
        Step::Call(MathFn::Abs)
    } else {
        Step::Fail(message_with("Unknown function: ", name))
    }
}

/// Appends one step.
fn push_step(out: &mut Vec<Step>, s: Step)
    ensures
        steps_view(final(out)@) == steps_view(old(out)@).push(step_view(s)),
{
    out.push(s);
    proof {
        assert(steps_view(out@) =~= steps_view(old(out)@).push(step_view(s)));
    }
}

/// Appends the plan of `e` at nesting `depth`.
fn plan_into(e: &Expression, depth: usize, out: &mut Vec<Step>)
    requires
        depth <= depth_limit() + 1,
    ensures
        steps_view(final(out)@) == steps_view(old(out)@) + plan_of(expr_view(*e), depth as nat),
    decreases *e,
{
    let ghost start = steps_view(out@);
    if depth > 100 {
        push_step(out, Step::TooDeep);
        proof {
            assert(plan_of(expr_view(*e), depth as nat) =~= seq![StepView::TooDeep]);
        }
        return;
    }
    match e {
        Expression::Number(n) => {
            push_step(out, Step::Number(n.clone()));
        },
        Expression::Boolean(b) => {
            push_step(out, Step::Flag(*b));
        },
        Expression::Unit(n, _) => {
            push_step(out, Step::Number(n.clone()));
        },
        Expression::VariableRef(v) => {
            push_step(out, Step::Load(v.clone()));
        },
        Expression::BinaryOp(l, op, r) => {
            plan_into(&**l, depth + 1, out);
            plan_into(&**r, depth + 1, out);
            push_step(out, binary_step_of(op.as_str()));
        },
        Expression::UnaryOp(op, x) => {
            plan_into(&**x, depth + 1, out);
            if str_eq(op.as_str(), "-") {
                push_step(out, Step::Negate);
            } else {
                push_step(out, Step::Fail(message_with("Unknown unary operator: ", op.as_str())));
            }
        },
        Expression::FunctionCall { name, args } => {
            let mut i: usize = 0;
            while i < args.len()
                invariant
                    i <= args@.len(),
                    depth < depth_limit() + 1,
                    (*e) is FunctionCall,
                    (*e)->args == *args,
                    steps_view(out@) == start + args_plan(exprs_view(args@.take(i as int)), (depth + 1) as nat),
                decreases args@.len() - i,
            {
                proof {
                    assert(decreases_to!(*e => args@[i as int]));
                }
                plan_into(&args[i], depth + 1, out);
                proof {
                    let t = args@.take(i + 1);
                    assert(t.drop_last() =~= args@.take(i as int));
                    assert(t.last() == args@[i as int]);
                    let xs = exprs_view(t);
                    assert(xs == exprs_view(t.drop_last()).push(expr_view(t.last())));
                    assert(xs.drop_last() =~= exprs_view(t.drop_last()));
                    assert(xs.last() == expr_view(t.last()));
                    assert(xs.len() > 0);
                }
                i = i + 1;
            }
            proof {
                assert(args@.take(args@.len() as int) =~= args@);
                crate::parser::expressions::lemma_exprs_view_len(args@);
            }
            push_step(out, call_step_of(name.as_str(), args.len()));
        },
        _ => {
            push_step(out, Step::Fail(owned("Unsupported expression type")));
        },
    }
}

/// The plan that evaluates an expression from the top: the steps to run
/// on a stack of numbers, in order, until the first stop.
pub fn plan(e: &Expression) -> (steps: Vec<Step>)
    ensures
        steps_view(steps@) == plan_of(expr_view(*e), 0),
{
    let mut out: Vec<Step> = Vec::new();
    proof {
        assert(steps_view(out@) =~= Seq::<StepView>::empty());
    }
    plan_into(e, 0, &mut out);
    proof {
        assert(Seq::<StepView>::empty() + plan_of(expr_view(*e), 0) =~= plan_of(expr_view(*e), 0));
    }
    out
}

/// How deeply an expression nests: one for a leaf, one more than its
/// deepest part.
pub open spec fn nesting(e: ExprView) -> nat
    decreases e, 0nat,
{
    match e {
        ExprView::BinaryOp(l, _, r) => {
            let a = nesting(*l);
            let b = nesting(*r);
            1 + if a >= b { a } else { b }
        },
        ExprView::UnaryOp(_, x) => 1 + nesting(*x),
        ExprView::FunctionCall { args, .. } => 1 + args_nesting(args),
        _ => 1,
    }
}

/// How deeply the deepest of a list of arguments nests (0 for none).
pub open spec fn args_nesting(args: Seq<ExprView>) -> nat
    decreases args, 1nat,
{
    if args.len() == 0 {
        0
    } else {
        let a = args_nesting(args.drop_last());
        let b = nesting(args.last());
        if a >= b { a } else { b }
    }
}

/// Whether a plan stops at the recursion limit somewhere.
pub open spec fn stops_deep(s: Seq<StepView>) -> bool {
    exists|i: int| 0 <= i < s.len() && (#[trigger] s[i]) is TooDeep
}

proof fn lemma_stops_concat(a: Seq<StepView>, b: Seq<StepView>)
    ensures
        stops_deep(a + b) <==> stops_deep(a) || stops_deep(b),
{
    if stops_deep(a) {
        let i = choose|i: int| 0 <= i < a.len() && (#[trigger] a[i]) is TooDeep;
        assert((a + b)[i] == a[i]);
    }
    if stops_deep(b) {
        let i = choose|i: int| 0 <= i < b.len() && (#[trigger] b[i]) is TooDeep;
        assert((a + b)[a.len() + i] == b[i]);
    }
    if stops_deep(a + b) {
        let i = choose|i: int| 0 <= i < (a + b).len() && (#[trigger] (a + b)[i]) is TooDeep;
        if i < a.len() {
            assert(a[i] == (a + b)[i]);
        } else {
            assert(b[i - a.len()] == (a + b)[i]);
        }
    }
}

proof fn lemma_one_step(x: StepView)
    ensures
        stops_deep(seq![x]) <==> x is TooDeep,
{
    if x is TooDeep {
        assert(seq![x][0] is TooDeep);
    }
}

/// The recursion limit: the plan of an expression evaluated at nesting
/// `depth` reaches the limit exactly when the expression nests deeper than
/// the levels left, so an expression of at most a hundred and one levels
/// never stops for depth from the top.
pub proof fn lemma_depth_limit(e: ExprView, depth: nat)
    ensures
        stops_deep(plan_of(e, depth)) <==> depth + nesting(e) > depth_limit() + 1,
    decreases e, 0nat,
{
    if depth > depth_limit() {
        lemma_one_step(StepView::TooDeep);
    } else {
        match e {
            ExprView::BinaryOp(l, op, r) => {
                lemma_depth_limit(*l, depth + 1);
                lemma_depth_limit(*r, depth + 1);
                lemma_stops_concat(plan_of(*l, depth + 1), plan_of(*r, depth + 1));
                lemma_stops_concat(plan_of(*l, depth + 1) + plan_of(*r, depth + 1), seq![binary_step(op)]);
                lemma_one_step(binary_step(op));
            },
            ExprView::UnaryOp(op, x) => {
                lemma_depth_limit(*x, depth + 1);
                lemma_stops_concat(plan_of(*x, depth + 1), seq![unary_step(op)]);
                lemma_one_step(unary_step(op));
            },
            ExprView::FunctionCall { name, args } => {
                lemma_args_depth_limit(args, depth + 1);
                lemma_stops_concat(args_plan(args, depth + 1), seq![call_step(name, args.len())]);
                lemma_one_step(call_step(name, args.len()));
            },
            ExprView::Number(n) => {
                lemma_one_step(StepView::Number(n));
            },
            ExprView::Boolean(b) => {
                lemma_one_step(StepView::Flag(b));
            },
            ExprView::Unit(n, _) => {
                lemma_one_step(StepView::Number(n));
            },
            ExprView::VariableRef(v) => {
                lemma_one_step(StepView::Load(v));
            },
            _ => {
                lemma_one_step(StepView::Fail("Unsupported expression type"@));
            },
        }
    }
}

proof fn lemma_args_depth_limit(args: Seq<ExprView>, depth: nat)
    ensures
        stops_deep(args_plan(args, depth)) <==> (args.len() > 0 && depth + args_nesting(args) > depth_limit() + 1),
    decreases args, 1nat,
{
    if args.len() == 0 {
        assert(!stops_deep(Seq::<StepView>::empty()));
    } else {
        lemma_args_depth_limit(args.drop_last(), depth);
        lemma_depth_limit(args.last(), depth);
        lemma_stops_concat(args_plan(args.drop_last(), depth), plan_of(args.last(), depth));
        assert(args_plan(args, depth) == args_plan(args.drop_last(), depth) + plan_of(args.last(), depth));
        let a = args_nesting(args.drop_last());
        let b = nesting(args.last());
        assert(args_nesting(args) == if a >= b { a } else { b });
        if args.drop_last().len() == 0 {
            assert(a == 0);
        }
    }
}

} // verus!
