use vstd::prelude::*;
use vstd::string::*;
use crate::num::{BinOp, Num, is_arith, apply, compute, is_render, text, render};

verus! {

/// An arithmetic expression. Each node owns its children.
pub enum Expr {
    /// A numeric literal.
    Constant(Num),
    /// A named symbol, without a value of its own.
    Variable(String),
    /// The sum of all children.
    Addition(Vec<Expr>),
    /// The product of all children.
    Multiply(Vec<Expr>),
    /// The first child minus the rest; `0` when empty.
    Subtract(Vec<Expr>),
    /// The first child divided by the product of the rest; `1` when empty.
    Divide(Vec<Expr>),
    /// Left-to-right power: `((c0 ^ c1) ^ c2) ...`; `1` when empty.
    Pow(Vec<Expr>),
    /// The negation of the child.
    Neg(Box<Expr>),
}

/// Why an expression could not be evaluated.
#[derive(Clone, Copy, Debug, PartialEq, Eq, Structural)]
pub enum EvalError {
    /// The expression holds a variable, which has no value.
    UnevaluableSymbol,
}

/// `a` and `b` are the same tree: the same variant over the same children.
pub open spec fn identical(a: Expr, b: Expr) -> bool {
    match (a, b) {
        (Expr::Variable(x), Expr::Variable(y)) => x@ == y@,
        (Expr::Addition(x), Expr::Addition(y)) => x@ == y@,
        (Expr::Multiply(x), Expr::Multiply(y)) => x@ == y@,
        (Expr::Subtract(x), Expr::Subtract(y)) => x@ == y@,
        (Expr::Divide(x), Expr::Divide(y)) => x@ == y@,
        (Expr::Pow(x), Expr::Pow(y)) => x@ == y@,
        _ => a == b,
    }
}

/// Identical trees have the same text, the same value and the same
/// variables.
pub proof fn lemma_identical<F: Fn(BinOp, Num, Num) -> Num, R: Fn(Num) -> String>(
    f: F,
    rd: R,
    a: Expr,
    b: Expr,
)
    requires
        identical(a, b),
    ensures
        text_of(rd, a) == text_of(rd, b),
        value(f, a) == value(f, b),
        has_variable(a) == has_variable(b),
{
}

/// Whether `e` holds a variable anywhere.
pub open spec fn has_variable(e: Expr) -> bool
    decreases e,
{
    match e {
        Expr::Constant(_) => false,
        Expr::Variable(_) => true,
        Expr::Addition(v) => any_variable(v@),
        Expr::Multiply(v) => any_variable(v@),
        Expr::Subtract(v) => any_variable(v@),
        Expr::Divide(v) => any_variable(v@),
        Expr::Pow(v) => any_variable(v@),
        Expr::Neg(b) => has_variable(*b),
    }
}

/// Whether some expression of `ts` holds a variable.
pub open spec fn any_variable(ts: Seq<Expr>) -> bool
    decreases ts,
{
    if ts.len() == 0 {
        false
    } else {
        any_variable(ts.drop_last()) || has_variable(ts.last())
    }
}

/// The value of `e` under the arithmetic `f` (meaningful when `e` holds no
/// variable).
pub open spec fn value<F: Fn(BinOp, Num, Num) -> Num>(f: F, e: Expr) -> Num
    decreases e,
{
    match e {
        Expr::Constant(n) => n,
        Expr::Variable(_) => Num::zero(),
        Expr::Addition(v) => fold(f, BinOp::Plus, Num::zero(), v@),
        Expr::Multiply(v) => fold(f, BinOp::Times, Num::one(), v@),
        Expr::Subtract(v) => if v@.len() == 0 {
            Num::zero()
        } else {
            apply(f, BinOp::Plus, value(f, v@[0]), negated_sum(f, v@.drop_first()))
        },
        Expr::Divide(v) => if v@.len() == 0 {
            Num::one()
        } else {
            apply(f, BinOp::Over, value(f, v@[0]), fold(f, BinOp::Times, Num::one(), v@.drop_first()))
        },
        Expr::Pow(v) => if v@.len() == 0 {
            Num::one()
        } else {
            fold(f, BinOp::Power, value(f, v@[0]), v@.drop_first())
        },
        Expr::Neg(b) => value(f, *b).negated(),
    }
}

/// Left fold of `op` over the values of `ts`, starting from `init`.
pub open spec fn fold<F: Fn(BinOp, Num, Num) -> Num>(
    f: F,
    op: BinOp,
    init: Num,
    ts: Seq<Expr>,
) -> Num
    decreases ts,
{
    if ts.len() == 0 {
        init
    } else {
        apply(f, op, fold(f, op, init, ts.drop_last()), value(f, ts.last()))
    }
}

/// Sum of the negated values of `ts`, from zero, left to right.
pub open spec fn negated_sum<F: Fn(BinOp, Num, Num) -> Num>(f: F, ts: Seq<Expr>) -> Num
    decreases ts,
{
    if ts.len() == 0 {
        Num::zero()
    } else {
        apply(f, BinOp::Plus, negated_sum(f, ts.drop_last()), value(f, ts.last()).negated())
    }
}


/// When a child is put in parentheses inside its parent's text.
#[derive(Clone, Copy, Debug, PartialEq, Eq, Structural)]
pub enum Wrap {
    /// Never.
    Never,
    /// When it is a sum, a difference or a negation.
    LowerPrecedence,
    /// When it is anything but a constant or a variable.
    Compound,
}

/// Whether `e` is put in parentheses under the rule `w`.
pub open spec fn wrapped(w: Wrap, e: Expr) -> bool {
    match w {
        Wrap::Never => false,
        Wrap::LowerPrecedence => e is Addition || e is Subtract || e is Neg,
        Wrap::Compound => !(e is Constant || e is Variable),
    }
}

/// `(s)`
pub open spec fn parens(s: Seq<char>) -> Seq<char> {
    seq!['('] + s + seq![')']
}

/// The text of `e`, constants rendered by `rd`.
pub open spec fn text_of<R: Fn(Num) -> String>(rd: R, e: Expr) -> Seq<char>
    decreases e, 0nat,
{
    match e {
        Expr::Constant(n) => text(rd, n),
        Expr::Variable(name) => name@,
        Expr::Addition(v) => joined(rd, v@, " + "@, Wrap::Never),
        Expr::Multiply(v) => joined(rd, v@, " * "@, Wrap::LowerPrecedence),
        Expr::Subtract(v) => if v@.len() == 0 {
            "0"@
        } else {
            text_of(rd, v@[0]) + tail(rd, v@.drop_first(), " - "@, Wrap::Compound)
        },
        Expr::Divide(v) => parens(joined(rd, v@, " / "@, Wrap::Never)),
        Expr::Pow(v) => parens(joined(rd, v@, " ^ "@, Wrap::Never)),
        Expr::Neg(b) => if wrapped(Wrap::LowerPrecedence, *b) {
            seq!['-'] + parens(text_of(rd, *b))
        } else {
            text_of(rd, *b)
        },
    }
}

/// The text of `e` as a child under the rule `w`.
pub open spec fn piece<R: Fn(Num) -> String>(rd: R, e: Expr, w: Wrap) -> Seq<char>
    decreases e, 1nat,
{
    if wrapped(w, e) {
        parens(text_of(rd, e))
    } else {
        text_of(rd, e)
    }
}

/// The pieces of `ts` joined by `sep`; empty for no children.
pub open spec fn joined<R: Fn(Num) -> String>(rd: R, ts: Seq<Expr>, sep: Seq<char>, w: Wrap) -> Seq<char>
    decreases ts, 0nat,
{
    if ts.len() == 0 {
        Seq::empty()
    } else {
        piece(rd, ts[0], w) + tail(rd, ts.drop_first(), sep, w)
    }
}

/// Each piece of `ts` preceded by `sep`.
pub open spec fn tail<R: Fn(Num) -> String>(rd: R, ts: Seq<Expr>, sep: Seq<char>, w: Wrap) -> Seq<char>
    decreases ts, 0nat,
{
    if ts.len() == 0 {
        Seq::empty()
    } else {
        tail(rd, ts.drop_last(), sep, w) + sep + piece(rd, ts.last(), w)
    }
}

impl Expr {
    /// The infix text of the expression, each constant rendered by `rd`.
    pub fn fmt<R: Fn(Num) -> String>(&self, rd: &R) -> (s: String)
        requires
            is_render(*rd),
        ensures
            s@ == text_of(*rd, *self),
        decreases self, 0nat,
    {
        proof {
            reveal_strlit("(");
            reveal_strlit(")");
            reveal_strlit("-(");
        }
        match self {
            Expr::Constant(n) => render(rd, *n),
            Expr::Variable(name) => name.clone(),
            Expr::Addition(v) => join_text(rd, v, " + ", Wrap::Never),
            Expr::Multiply(v) => join_text(rd, v, " * ", Wrap::LowerPrecedence),
            Expr::Subtract(v) => {
                if v.len() == 0 {
                    String::from_str("0")
                } else {
                    let mut s = v[0].fmt(rd);
                    let t = tail_text(rd, v, " - ", Wrap::Compound);
                    s.append(t.as_str());
                    proof {
                        assert(v@.subrange(1, v@.len() as int) =~= v@.drop_first());
                    }
                    s
                }
            },
            Expr::Divide(v) => {
                let mut s = String::from_str("(");
                let t = join_text(rd, v, " / ", Wrap::Never);
                s.append(t.as_str());
                s.append(")");
                proof {
                    assert(s@ =~= parens(t@));
                }
                s
            },
            Expr::Pow(v) => {
                let mut s = String::from_str("(");
                let t = join_text(rd, v, " ^ ", Wrap::Never);
                s.append(t.as_str());
                s.append(")");
                proof {
                    assert(s@ =~= parens(t@));
                }
                s
            },
            Expr::Neg(b) => {
                let t = b.fmt(rd);
                if matches!(**b, Expr::Addition(_) | Expr::Subtract(_) | Expr::Neg(_)) {
                    let mut s = String::from_str("-(");
                    s.append(t.as_str());
                    s.append(")");
                    proof {
                        assert(s@ =~= seq!['-'] + parens(t@));
                    }
                    s
                } else {
                    t
                }
            },
        }
    }
    /// Evaluates the expression with the arithmetic `arith`. Fails exactly
    /// when the expression holds a variable.
    pub fn eval<F: Fn(BinOp, Num, Num) -> Num>(&self, arith: &F) -> (r: Result<Num, EvalError>)
        requires
            is_arith(*arith),
        ensures
            match r {
                Ok(x) => !has_variable(*self) && x == value(*arith, *self),
                Err(e) => has_variable(*self) && e == EvalError::UnevaluableSymbol,
            },
        decreases self,
    {
        match self {
            Expr::Constant(n) => Ok(*n),
            Expr::Variable(_) => Err(EvalError::UnevaluableSymbol),
            Expr::Addition(v) => {
                proof {
                    assert(v@.subrange(0, v@.len() as int) =~= v@);
                }
                fold_values(arith, BinOp::Plus, Num::zero_value(), v, 0)
            },
            Expr::Multiply(v) => {
                proof {
                    assert(v@.subrange(0, v@.len() as int) =~= v@);
                }
                fold_values(arith, BinOp::Times, Num::one_value(), v, 0)
            },
            Expr::Subtract(v) => {
                if v.len() == 0 {
                    proof {
                        lemma_any_variable_iff(v@);
                    }
                    return Ok(Num::zero_value());
                }
                proof {
                    lemma_any_variable_split(v@);
                }
                let first = match v[0].eval(arith) {
                    Ok(x) => x,
                    Err(e) => return Err(e),
                };
                let rest = sum_negated(arith, v)?;
                Ok(compute(arith, BinOp::Plus, first, rest))
            },
            Expr::Divide(v) => {
                if v.len() == 0 {
                    proof {
                        lemma_any_variable_iff(v@);
                    }
                    return Ok(Num::one_value());
                }
                proof {
                    lemma_any_variable_split(v@);
                }
                let first = match v[0].eval(arith) {
                    Ok(x) => x,
                    Err(e) => return Err(e),
                };
                let rest = fold_values(arith, BinOp::Times, Num::one_value(), v, 1)?;
                Ok(compute(arith, BinOp::Over, first, rest))
            },
            Expr::Pow(v) => {
                if v.len() == 0 {
                    proof {
                        lemma_any_variable_iff(v@);
                    }
                    return Ok(Num::one_value());
                }
                proof {
                    lemma_any_variable_split(v@);
                }
                let first = match v[0].eval(arith) {
                    Ok(x) => x,
                    Err(e) => return Err(e),
                };
                fold_values(arith, BinOp::Power, first, v, 1)
            },
            Expr::Neg(b) => {
                let x = b.eval(arith)?;
                Ok(x.neg())
            },
        }
    }
}


/// The text of `e` as a child under the rule `w`.
fn piece_text<R: Fn(Num) -> String>(rd: &R, e: &Expr, w: Wrap) -> (s: String)
    requires
        is_render(*rd),
    ensures
        s@ == piece(*rd, *e, w),
    decreases e, 1nat,
{
    let t = e.fmt(rd);
    let wrap = match w {
        Wrap::Never => false,
        Wrap::LowerPrecedence => matches!(e, Expr::Addition(_) | Expr::Subtract(_) | Expr::Neg(_)),
        Wrap::Compound => !matches!(e, Expr::Constant(_) | Expr::Variable(_)),
    };
    if wrap {
        proof {
            reveal_strlit("(");
            reveal_strlit(")");
        }
        let mut s = String::from_str("(");
        s.append(t.as_str());
        s.append(")");
        proof {
            assert(s@ =~= parens(t@));
        }
        s
    } else {
        t
    }
}

/// The pieces of `ts` joined by `sep`.
fn join_text<R: Fn(Num) -> String>(rd: &R, ts: &Vec<Expr>, sep: &str, w: Wrap) -> (s: String)
    requires
        is_render(*rd),
    ensures
        s@ == joined(*rd, ts@, sep@, w),
    decreases ts, 1nat,
{
    if ts.len() == 0 {
        return String::new();
    }
    let mut s = piece_text(rd, &ts[0], w);
    let t = tail_text(rd, ts, sep, w);
    s.append(t.as_str());
    proof {
        assert(ts@.subrange(1, ts@.len() as int) =~= ts@.drop_first());
    }
    s
}

/// Each piece of `ts[1..]` preceded by `sep`.
fn tail_text<R: Fn(Num) -> String>(rd: &R, ts: &Vec<Expr>, sep: &str, w: Wrap) -> (s: String)
    requires
        is_render(*rd),
        ts.len() >= 1,
    ensures
        s@ == tail(*rd, ts@.subrange(1, ts.len() as int), sep@, w),
    decreases ts, 0nat,
{
    let mut s = String::new();
    let mut i: usize = 1;
    while i < ts.len()
        invariant
            is_render(*rd),
            1 <= i <= ts.len(),
            s@ == tail(*rd, ts@.subrange(1, i as int), sep@, w),
        decreases ts.len() - i,
    {
        let ghost done = ts@.subrange(1, i as int);
        let ghost next = ts@.subrange(1, i + 1);
        assert(next.drop_last() =~= done);
        let p = piece_text(rd, &ts[i], w);
        s.append(sep);
        s.append(p.as_str());
        i += 1;
    }
    proof {
        assert(ts@.subrange(1, i as int) =~= ts@.subrange(1, ts.len() as int));
    }
    s
}

/// Left fold of `op` over the values of `ts[from..]`, starting from `init`;
/// fails when one of them holds a variable.
fn fold_values<F: Fn(BinOp, Num, Num) -> Num>(
    arith: &F,
    op: BinOp,
    init: Num,
    ts: &Vec<Expr>,
    from: usize,
) -> (r: Result<Num, EvalError>)
    requires
        is_arith(*arith),
        from <= ts.len(),
    ensures
        match r {
            Ok(x) => !any_variable(ts@.subrange(from as int, ts.len() as int)) && x == fold(
                *arith,
                op,
                init,
                ts@.subrange(from as int, ts.len() as int),
            ),
            Err(e) => any_variable(ts@.subrange(from as int, ts.len() as int)) && e
                == EvalError::UnevaluableSymbol,
        },
    decreases ts,
{
    let mut acc = init;
    let mut i = from;
    while i < ts.len()
        invariant
            is_arith(*arith),
            from <= i <= ts.len(),
            !any_variable(ts@.subrange(from as int, i as int)),
            acc == fold(*arith, op, init, ts@.subrange(from as int, i as int)),
        decreases ts.len() - i,
    {
        let ghost done = ts@.subrange(from as int, i as int);
        let ghost next = ts@.subrange(from as int, i + 1);
        assert(next.drop_last() =~= done);
        let x = match ts[i].eval(arith) {
            Ok(x) => x,
            Err(e) => {
                proof {
                    lemma_any_variable_extends(ts@.subrange(from as int, ts.len() as int), i - from);
                    assert(ts@.subrange(from as int, ts.len() as int)[i - from] == ts@[i as int]);
                }
                return Err(e);
            },
        };
        acc = compute(arith, op, acc, x);
        i += 1;
    }
    proof {
        assert(ts@.subrange(from as int, i as int) =~= ts@.subrange(from as int, ts.len() as int));
    }
    Ok(acc)
}

/// Sum from zero of the negated values of `ts[1..]`; fails when one of them
/// holds a variable.
fn sum_negated<F: Fn(BinOp, Num, Num) -> Num>(arith: &F, ts: &Vec<Expr>) -> (r: Result<
    Num,
    EvalError,
>)
    requires
        is_arith(*arith),
        ts.len() >= 1,
    ensures
        match r {
            Ok(x) => !any_variable(ts@.subrange(1, ts.len() as int)) && x == negated_sum(
                *arith,
                ts@.subrange(1, ts.len() as int),
            ),
            Err(e) => any_variable(ts@.subrange(1, ts.len() as int)) && e
                == EvalError::UnevaluableSymbol,
        },
    decreases ts,
{
    let mut acc = Num::zero_value();
    let mut i: usize = 1;
    while i < ts.len()
        invariant
            is_arith(*arith),
            1 <= i <= ts.len(),
            !any_variable(ts@.subrange(1, i as int)),
            acc == negated_sum(*arith, ts@.subrange(1, i as int)),
        decreases ts.len() - i,
    {
        let ghost done = ts@.subrange(1, i as int);
        let ghost next = ts@.subrange(1, i + 1);
        assert(next.drop_last() =~= done);
        let x = match ts[i].eval(arith) {
            Ok(x) => x,
            Err(e) => {
                proof {
                    lemma_any_variable_extends(ts@.subrange(1, ts.len() as int), i - 1);
                    assert(ts@.subrange(1, ts.len() as int)[i - 1] == ts@[i as int]);
                }
                return Err(e);
            },
        };
        acc = compute(arith, BinOp::Plus, acc, x.neg());
        i += 1;
    }
    proof {
        assert(ts@.subrange(1, i as int) =~= ts@.subrange(1, ts.len() as int));
    }
    Ok(acc)
}

/// A sequence holds a variable when one of its expressions does.
pub proof fn lemma_any_variable_extends(ts: Seq<Expr>, j: int)
    requires
        0 <= j < ts.len(),
        has_variable(ts[j]),
    ensures
        any_variable(ts),
    decreases ts.len(),
{
    if j < ts.len() - 1 {
        lemma_any_variable_extends(ts.drop_last(), j);
    }
}

/// A sequence holds a variable exactly when one of its expressions does.
pub proof fn lemma_any_variable_iff(ts: Seq<Expr>)
    ensures
        any_variable(ts) <==> exists|j: int| 0 <= j < ts.len() && has_variable(#[trigger] ts[j]),
    decreases ts.len(),
{
    if ts.len() > 0 {
        lemma_any_variable_iff(ts.drop_last());
        if any_variable(ts.drop_last()) {
            let j = choose|j: int| 0 <= j < ts.len() - 1 && has_variable(#[trigger] ts.drop_last()[j]);
            assert(ts[j] == ts.drop_last()[j]);
        }
        if exists|j: int| 0 <= j < ts.len() && has_variable(#[trigger] ts[j]) {
            let j = choose|j: int| 0 <= j < ts.len() && has_variable(#[trigger] ts[j]);
            if j < ts.len() - 1 {
                assert(ts.drop_last()[j] == ts[j]);
            }
        }
    }
}

/// A non-empty sequence holds a variable exactly when its first expression
/// or the rest does.
pub proof fn lemma_any_variable_split(ts: Seq<Expr>)
    requires
        ts.len() > 0,
    ensures
        any_variable(ts) <==> has_variable(ts[0]) || any_variable(ts.drop_first()),
        ts.subrange(1, ts.len() as int) == ts.drop_first(),
{
    lemma_any_variable_iff(ts);
    lemma_any_variable_iff(ts.drop_first());
    assert(ts.subrange(1, ts.len() as int) =~= ts.drop_first());
    if any_variable(ts) {
        let j = choose|j: int| 0 <= j < ts.len() && has_variable(#[trigger] ts[j]);
        if j > 0 {
            assert(ts.drop_first()[j - 1] == ts[j]);
        }
    }
    if any_variable(ts.drop_first()) {
        let j = choose|j: int| 0 <= j < ts.len() - 1 && has_variable(#[trigger] ts.drop_first()[j]);
        assert(ts[j + 1] == ts.drop_first()[j]);
    }
}

} // verus!
