use trx_engine::ast::Expression;
use trx_engine::evaluator::{plan, BinOp, EvalError, MathFn, Step};

fn num(s: &str) -> Box<Expression> {
    Box::new(Expression::Number(s.to_string()))
}

#[test]
fn plan_runs_left_then_right_then_operator() {
    let e = Expression::BinaryOp(num("1"), "/".to_string(), Box::new(Expression::VariableRef("x".to_string())));
    let steps = plan(&e);
    assert_eq!(steps.len(), 3);
    assert!(matches!(&steps[0], Step::Number(n) if n == "1"));
    assert!(matches!(&steps[1], Step::Load(v) if v == "x"));
    assert!(matches!(&steps[2], Step::Binary(BinOp::Div)));
}

#[test]
fn every_operator_has_its_step() {
    let ops = [
        ("+", BinOp::Add),
        ("-", BinOp::Sub),
        ("*", BinOp::Mul),
        ("/", BinOp::Div),
        ("==", BinOp::Eq),
        ("!=", BinOp::Ne),
        ("<", BinOp::Lt),
        (">", BinOp::Gt),
        ("<=", BinOp::Le),
        (">=", BinOp::Ge),
    ];
    for (text, op) in ops {
        let steps = plan(&Expression::BinaryOp(num("1"), text.to_string(), num("2")));
        assert!(matches!(&steps[2], Step::Binary(o) if *o == op));
    }
}

#[test]
fn unknown_operator_fails_after_operands() {
    let steps = plan(&Expression::BinaryOp(num("1"), "%".to_string(), num("2")));
    assert_eq!(steps.len(), 3);
    assert!(matches!(&steps[2], Step::Fail(m) if m == "Unknown operator: %"));
}

#[test]
fn functions_need_their_name_and_one_argument() {
    let call = |name: &str, n: usize| Expression::FunctionCall {
        name: name.to_string(),
        args: (0..n).map(|_| Expression::Number("0".to_string())).collect(),
    };
    assert!(matches!(plan(&call("Math.sin", 1)).last(), Some(Step::Call(MathFn::Sin))));
    assert!(matches!(plan(&call("Math.cos", 1)).last(), Some(Step::Call(MathFn::Cos))));
    assert!(matches!(plan(&call("Math.round", 1)).last(), Some(Step::Call(MathFn::Round))));
    assert!(matches!(plan(&call("Math.abs", 1)).last(), Some(Step::Call(MathFn::Abs))));
    let two = plan(&call("Math.sin", 2));
    assert_eq!(two.len(), 3);
    assert!(matches!(two.last(), Some(Step::Fail(m)) if m == "Unknown function: Math.sin"));
    assert!(matches!(plan(&call("max", 1)).last(), Some(Step::Fail(m)) if m == "Unknown function: max"));
}

#[test]
fn leaves_and_unsupported_terms() {
    assert!(matches!(&plan(&Expression::Boolean(true))[0], Step::Flag(true)));
    assert!(matches!(&plan(&Expression::Unit("10".to_string(), "px".to_string()))[0], Step::Number(n) if n == "10"));
    assert!(matches!(&plan(&Expression::String("s".to_string()))[0], Step::Fail(m) if m == "Unsupported expression type"));
    assert!(matches!(
        &plan(&Expression::PropertyRef("a".to_string(), "b".to_string()))[0],
        Step::Fail(m) if m == "Unsupported expression type"
    ));
    let neg = plan(&Expression::UnaryOp("-".to_string(), num("3")));
    assert!(matches!(&neg[1], Step::Negate));
    let bad = plan(&Expression::UnaryOp("!".to_string(), num("3")));
    assert!(matches!(&bad[1], Step::Fail(m) if m == "Unknown unary operator: !"));
}

fn nested(levels: usize) -> Expression {
    let mut e = Expression::Number("1".to_string());
    for _ in 1..levels {
        e = Expression::UnaryOp("-".to_string(), Box::new(e));
    }
    e
}

#[test]
fn depth_limit_law_example() {
    let ok = plan(&nested(101));
    assert!(!ok.iter().any(|s| matches!(s, Step::TooDeep)));
    let deep = plan(&nested(102));
    assert!(matches!(&deep[0], Step::TooDeep));
}

#[test]
fn error_texts_join_the_trace() {
    let e = EvalError::MathError {
        message: "Division by zero".to_string(),
        trace: vec!["Node \"A\"".to_string(), "Property \"width\"".to_string()],
    };
    assert_eq!(e.to_text(), "Error in Node \"A\" -> Property \"width\" -> Math Error: Division by zero");
    let r = EvalError::RecursionLimitExceeded { trace: vec!["Variable \"x\"".to_string()] };
    assert_eq!(r.to_text(), "Recursion limit exceeded in Variable \"x\"");
    let empty = EvalError::RecursionLimitExceeded { trace: vec![] };
    assert_eq!(empty.to_text(), "Recursion limit exceeded in ");
}
