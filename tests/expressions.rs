use symexpr::builder;
use symexpr::expr::{EvalError, Expr};
use symexpr::num::{BinOp, Num};

fn arith(op: BinOp, a: Num, b: Num) -> Num {
    let x = f64::from_bits(a.bits);
    let y = f64::from_bits(b.bits);
    let r = match op {
        BinOp::Plus => x + y,
        BinOp::Times => x * y,
        BinOp::Over => x / y,
        BinOp::Power => x.powf(y),
    };
    Num::from_bits(r.to_bits())
}

fn render(n: Num) -> String {
    format!("{}", f64::from_bits(n.bits))
}

fn k(x: f64) -> Expr {
    builder::c(Num::from_bits(x.to_bits()))
}

fn sum(terms: Vec<Expr>) -> Expr {
    builder::add(terms, &arith)
}

fn text(e: &Expr) -> String {
    e.fmt(&render)
}

fn eval(e: &Expr) -> Result<f64, EvalError> {
    e.eval(&arith).map(|n| f64::from_bits(n.bits))
}

#[test]
fn nested_sum_matches_flat_sum() {
    let nested = sum(vec![
        sum(vec![builder::mul(vec![k(2.0), k(3.0)]), builder::neg(k(4.0))]),
        k(5.0),
    ]);
    let flat = sum(vec![builder::mul(vec![k(2.0), k(3.0)]), builder::neg(k(4.0)), k(5.0)]);
    assert_eq!(text(&nested), text(&flat));
    assert_eq!(text(&flat), "5 + 2 * 3 + 4");
    assert_eq!(eval(&nested), eval(&flat));
    assert_eq!(eval(&flat), Ok(7.0));
}

#[test]
fn nested_sum_with_variables_matches_flat_sum() {
    let nested = sum(vec![sum(vec![builder::v("a"), builder::v("b")]), builder::v("c")]);
    let flat = sum(vec![builder::v("a"), builder::v("b"), builder::v("c")]);
    assert_eq!(text(&nested), "a + b + c");
    assert_eq!(text(&flat), "a + b + c");
    match nested {
        Expr::Addition(ts) => assert_eq!(ts.len(), 3),
        _ => panic!("expected a sum node"),
    }
}

#[test]
fn constants_are_folded() {
    let x = || builder::mul(vec![k(2.0), k(5.0)]);
    let folded = sum(vec![k(3.0), k(4.0), x()]);
    let seven = sum(vec![k(7.0), x()]);
    assert_eq!(eval(&folded), eval(&seven));
    assert_eq!(eval(&folded), Ok(17.0));
    assert_eq!(text(&folded), "7 + 2 * 5");
    assert_eq!(text(&seven), "7 + 2 * 5");
}

#[test]
fn zero_constant_is_dropped() {
    let e = sum(vec![k(0.0), builder::v("x")]);
    assert_eq!(text(&e), "x");
    assert!(matches!(e, Expr::Variable(ref s) if s == "x"));
    let m = sum(vec![k(-0.0), builder::mul(vec![k(2.0), builder::v("y")])]);
    assert_eq!(text(&m), "2 * y");
    assert!(matches!(m, Expr::Multiply(_)));
}

#[test]
fn constants_cancelling_leave_zero() {
    let e = sum(vec![k(1.0), k(-1.0)]);
    assert!(matches!(e, Expr::Constant(n) if n.bits == 0));
    assert_eq!(text(&e), "0");
    let with_var = sum(vec![k(2.5), builder::v("x"), k(-2.5)]);
    assert_eq!(text(&with_var), "x");
}

#[test]
fn single_term_is_not_wrapped() {
    let e = sum(vec![builder::v("x")]);
    assert!(matches!(e, Expr::Variable(ref s) if s == "x"));
    let p = sum(vec![builder::pow(vec![k(2.0), k(3.0)])]);
    assert!(matches!(p, Expr::Pow(ref ts) if ts.len() == 2));
    assert_eq!(text(&p), "(2 ^ 3)");
}

#[test]
fn empty_sequences_are_identities() {
    assert_eq!(eval(&builder::sub(vec![])), Ok(0.0));
    assert_eq!(eval(&builder::div(vec![])), Ok(1.0));
    assert_eq!(eval(&builder::pow(vec![])), Ok(1.0));
    assert_eq!(eval(&builder::mul(vec![])), Ok(1.0));
    assert_eq!(eval(&sum(vec![])), Ok(0.0));
    assert_eq!(eval(&Expr::Addition(vec![])), Ok(0.0));
}

#[test]
fn evaluation_matches_arithmetic() {
    let e = sum(vec![
        k(3.0),
        k(9.0),
        k(4.0),
        builder::mul(vec![k(2.0), k(3.0), k(4.0), k(5.0)]),
        k(14.0),
        k(7.0),
        builder::mul(vec![k(6.0), k(2.0)]),
    ]);
    assert_eq!(eval(&e), Ok(169.0));
    assert_eq!(text(&e), "37 + 2 * 3 * 4 * 5 + 6 * 2");
}

#[test]
fn variable_cannot_be_evaluated() {
    assert_eq!(eval(&builder::v("x")), Err(EvalError::UnevaluableSymbol));
    let deep = builder::neg(builder::mul(vec![k(2.0), sum(vec![k(1.0), builder::v("y")])]));
    assert_eq!(eval(&deep), Err(EvalError::UnevaluableSymbol));
    assert_eq!(text(&deep), "2 * (1 + y)");
}

#[test]
fn formatting_shapes() {
    let a = builder::sub(vec![k(1.0), sum(vec![k(2.0), builder::v("z")])]);
    assert_eq!(text(&a), "1 - (2 + z)");
    let b = builder::sub(vec![k(1.0), Expr::Addition(vec![k(2.0), k(3.0)])]);
    assert_eq!(text(&b), "1 - (2 + 3)");
    let m = builder::mul(vec![k(2.0), Expr::Addition(vec![k(1.0), k(2.0)])]);
    assert_eq!(text(&m), "2 * (1 + 2)");
    let d = builder::div(vec![k(6.0), k(2.0), k(3.0)]);
    assert_eq!(text(&d), "(6 / 2 / 3)");
}

#[test]
fn subtrahends_are_parenthesised_unless_atomic() {
    let e = builder::sub(vec![
        builder::v("a"),
        builder::v("b"),
        k(2.0),
        builder::mul(vec![k(3.0), builder::v("c")]),
        builder::neg(builder::v("d")),
        builder::div(vec![k(1.0), k(2.0)]),
    ]);
    assert_eq!(text(&e), "a - b - 2 - (3 * c) - (d) - ((1 / 2))");
    assert_eq!(text(&builder::sub(vec![])), "0");
}

#[test]
fn factors_are_parenthesised_when_lower() {
    let e = builder::mul(vec![
        builder::sub(vec![builder::v("x"), builder::v("y")]),
        builder::neg(sum(vec![builder::v("p"), builder::v("q")])),
        builder::div(vec![k(1.0), k(4.0)]),
        builder::pow(vec![k(2.0), k(3.0)]),
    ]);
    assert_eq!(text(&e), "(x - y) * (-(p + q)) * (1 / 4) * (2 ^ 3)");
}

#[test]
fn negation_formatting_and_value() {
    assert_eq!(text(&builder::neg(k(5.0))), "5");
    assert_eq!(eval(&builder::neg(k(5.0))), Ok(-5.0));
    assert_eq!(text(&builder::neg(builder::neg(builder::v("x")))), "-(x)");
    assert_eq!(text(&builder::neg(builder::mul(vec![k(2.0), k(3.0)]))), "2 * 3");
    assert_eq!(eval(&builder::neg(builder::mul(vec![k(2.0), k(3.0)]))), Ok(-6.0));
}

#[test]
fn difference_quotient_and_power_values() {
    let d = builder::sub(vec![k(10.0), k(3.0), k(2.0)]);
    assert_eq!(eval(&d), Ok(5.0));
    let q = builder::div(vec![k(6.0), k(2.0), k(3.0)]);
    assert_eq!(eval(&q), Ok(1.0));
    let p = builder::pow(vec![k(2.0), k(3.0), k(2.0)]);
    assert_eq!(eval(&p), Ok(64.0));
    assert_eq!(text(&p), "(2 ^ 3 ^ 2)");
    assert_eq!(eval(&builder::sub(vec![k(4.0)])), Ok(4.0));
}

#[test]
fn division_by_zero_is_not_an_error() {
    let q = builder::div(vec![k(1.0), k(0.0)]);
    assert_eq!(eval(&q), Ok(f64::INFINITY));
    let nan = builder::div(vec![k(0.0), k(0.0)]);
    assert!(eval(&nan).unwrap().is_nan());
}

#[test]
fn normalising_again_is_stable() {
    let e = sum(vec![k(1.0), builder::v("x"), k(2.0), builder::v("y")]);
    assert_eq!(text(&e), "3 + x + y");
    let again = sum(vec![e]);
    assert_eq!(text(&again), "3 + x + y");
    match again {
        Expr::Addition(ts) => assert_eq!(ts.len(), 3),
        _ => panic!("expected a sum node"),
    }
    let single = sum(vec![builder::v("x")]);
    let single_again = sum(vec![single]);
    assert!(matches!(single_again, Expr::Variable(ref s) if s == "x"));
}

#[test]
fn number_helpers() {
    let three = Num::from_bits(3.0f64.to_bits());
    assert_eq!(f64::from_bits(three.neg().bits), -3.0);
    assert!(Num::from_bits((-0.0f64).to_bits()).is_zero());
    assert!(Num::zero_value().is_zero());
    assert!(!Num::one_value().is_zero());
    assert_eq!(f64::from_bits(Num::one_value().bits), 1.0);
}

#[test]
fn nested_constants_are_folded() {
    let nested = sum(vec![sum(vec![k(1.0), builder::v("x")]), k(2.0)]);
    let flat = sum(vec![k(1.0), builder::v("x"), k(2.0)]);
    assert_eq!(text(&nested), "3 + x");
    assert_eq!(text(&flat), "3 + x");
    match nested {
        Expr::Addition(ts) => {
            assert_eq!(ts.len(), 2);
            assert!(matches!(ts[0], Expr::Constant(n) if f64::from_bits(n.bits) == 3.0));
            let again = sum(ts);
            assert_eq!(text(&again), "3 + x");
        }
        _ => panic!("expected a sum node"),
    }
}

#[test]
fn spliced_zero_and_cancelling_constants() {
    let inner = Expr::Addition(vec![k(0.0), builder::v("y"), k(4.0)]);
    let e = sum(vec![inner, k(-4.0)]);
    assert_eq!(text(&e), "y");
    let deeper = sum(vec![Expr::Addition(vec![Expr::Addition(vec![k(1.0), k(2.0)]), k(5.0)])]);
    assert_eq!(text(&deeper), "5 + 1 + 2");
}
