use vstd::prelude::*;
use crate::num::{BinOp, Num, is_arith, apply, compute};
use crate::expr::Expr;

verus! {

/// The terms that `t` brings into a sum: the children of a sum node (one
/// level, not flattened further), else `t` itself.
pub open spec fn spliced(t: Expr) -> Seq<Expr> {
    match t {
        Expr::Addition(v) => v@,
        _ => seq![t],
    }
}

/// The terms of a sum of `ts` with nested sums inlined one level.
pub open spec fn flattened(ts: Seq<Expr>) -> Seq<Expr>
    decreases ts.len(),
{
    if ts.len() == 0 {
        Seq::empty()
    } else {
        flattened(ts.drop_last()) + spliced(ts.last())
    }
}

/// The constant that the term `t` brings into the folded total: its value
/// when it is a nonzero constant, else nothing.
pub open spec fn constant_of(t: Expr) -> Seq<Num> {
    match t {
        Expr::Constant(n) => if n.is_zero_spec() {
            Seq::empty()
        } else {
            seq![n]
        },
        _ => Seq::empty(),
    }
}

/// The term `t` unless it is a constant.
pub open spec fn other_of(t: Expr) -> Seq<Expr> {
    if t is Constant {
        Seq::empty()
    } else {
        seq![t]
    }
}

/// The nonzero constants among the terms `s`, in order.
pub open spec fn constants(s: Seq<Expr>) -> Seq<Num>
    decreases s.len(),
{
    if s.len() == 0 {
        Seq::empty()
    } else {
        constants(s.drop_last()) + constant_of(s.last())
    }
}

/// The terms `s` that are not constants, in order.
pub open spec fn others(s: Seq<Expr>) -> Seq<Expr>
    decreases s.len(),
{
    if s.len() == 0 {
        Seq::empty()
    } else {
        others(s.drop_last()) + other_of(s.last())
    }
}

/// The sum of `ks` under the arithmetic `f`, from zero, left to right.
pub open spec fn total<F: Fn(BinOp, Num, Num) -> Num>(f: F, ks: Seq<Num>) -> Num
    decreases ks.len(),
{
    if ks.len() == 0 {
        Num::zero()
    } else {
        apply(f, BinOp::Plus, total(f, ks.drop_last()), ks.last())
    }
}

/// The terms of the normalised sum of `ts`: after nested sums are inlined,
/// every nonzero constant is folded into one total, which comes first when
/// it is nonzero; the other terms follow in order.
pub open spec fn normal_terms<F: Fn(BinOp, Num, Num) -> Num>(f: F, ts: Seq<Expr>) -> Seq<Expr> {
    let s = flattened(ts);
    let k = total(f, constants(s));
    if k.is_zero_spec() {
        others(s)
    } else {
        seq![Expr::Constant(k)] + others(s)
    }
}

/// `r` is the sum of `items`: zero for none, the item itself for one, else
/// a sum node over exactly `items`.
pub open spec fn collapses_to(r: Expr, items: Seq<Expr>) -> bool {
    if items.len() == 0 {
        r == Expr::Constant(Num::zero())
    } else if items.len() == 1 {
        r == items[0]
    } else {
        r matches Expr::Addition(v) && v@ == items
    }
}

/// A constant.
pub fn c(val: Num) -> (r: Expr)
    ensures
        r == Expr::Constant(val),
{
    Expr::Constant(val)
}

/// A variable named `name`.
pub fn v(name: &str) -> (r: Expr)
    ensures
        r matches Expr::Variable(s) && s@ == name@,
{
    Expr::Variable(String::from_str(name))
}

/// The normalised sum of `terms`: nested sums are inlined one level, zero
/// constants dropped, every other constant folded with `arith` into one
/// leading constant (kept when nonzero), and the result collapsed.
pub fn add<F: Fn(BinOp, Num, Num) -> Num>(terms: Vec<Expr>, arith: &F) -> (r: Expr)
    requires
        is_arith(*arith),
    ensures
        collapses_to(r, normal_terms(*arith, terms@)),
{
    let ghost ts = terms@;
    let mut terms = terms;
    let mut flat: Vec<Expr> = Vec::new();
    let mut sum = Num::zero_value();
    let ghost mut i: int = 0;
    while terms.len() > 0
        invariant
            is_arith(*arith),
            0 <= i <= ts.len(),
            terms@ == ts.subrange(i, ts.len() as int),
            flat@ == others(flattened(ts.subrange(0, i))),
            sum == total(*arith, constants(flattened(ts.subrange(0, i)))),
        decreases terms.len(),
    {
        let ghost done = flattened(ts.subrange(0, i));
        assert(ts.subrange(0, i + 1).drop_last() =~= ts.subrange(0, i));
        assert(ts.subrange(0, i + 1).last() == terms@[0]);
        let term = terms.remove(0);
        assert(flattened(ts.subrange(0, i + 1)) == done + spliced(term));
        match term {
            Expr::Addition(nested) => {
                let mut nested = nested;
                let ghost w = nested@;
                let ghost mut j: int = 0;
                while nested.len() > 0
                    invariant
                        is_arith(*arith),
                        0 <= j <= w.len(),
                        nested@ == w.subrange(j, w.len() as int),
                        flat@ == others(done + w.subrange(0, j)),
                        sum == total(*arith, constants(done + w.subrange(0, j))),
                    decreases nested.len(),
                {
                    let ghost p = done + w.subrange(0, j);
                    assert(done + w.subrange(0, j + 1) =~= p.push(w[j]));
                    let t = nested.remove(0);
                    absorb(&mut flat, &mut sum, t, arith);
                    proof {
                        lemma_absorbed(*arith, p, t);
                        j = j + 1;
                    }
                }
                assert(w.subrange(0, j) =~= w);
            },
            other => {
                assert(done + spliced(other) =~= done.push(other));
                absorb(&mut flat, &mut sum, other, arith);
                proof {
                    lemma_absorbed(*arith, done, other);
                }
            },
        }
        proof {
            i = i + 1;
        }
    }
    assert(ts.subrange(0, i) =~= ts);
    if !sum.is_zero() {
        flat.insert(0, Expr::Constant(sum));
        assert(flat@ =~= normal_terms(*arith, ts));
    }
    collapse(flat)
}

/// Takes one term of a flattened sum into the running total or the kept
/// terms.
fn absorb<F: Fn(BinOp, Num, Num) -> Num>(flat: &mut Vec<Expr>, sum: &mut Num, t: Expr, arith: &F)
    requires
        is_arith(*arith),
    ensures
        final(flat)@ == old(flat)@ + other_of(t),
        *final(sum) == match t {
            Expr::Constant(n) => if n.is_zero_spec() {
                *old(sum)
            } else {
                apply(*arith, BinOp::Plus, *old(sum), n)
            },
            _ => *old(sum),
        },
{
    match t {
        Expr::Constant(n) => {
            if !n.is_zero() {
                *sum = compute(arith, BinOp::Plus, *sum, n);
            }
            assert(other_of(Expr::Constant(n)) =~= Seq::<Expr>::empty());
            assert(old(flat)@ + Seq::<Expr>::empty() =~= old(flat)@);
        },
        other => {
            flat.push(other);
            assert(old(flat)@ + other_of(other) =~= old(flat)@.push(other));
        },
    }
}

/// One more term adds its constant or itself to what the terms hold.
pub proof fn lemma_push_terms(p: Seq<Expr>, t: Expr)
    ensures
        others(p.push(t)) == others(p) + other_of(t),
        constants(p.push(t)) == constants(p) + constant_of(t),
{
    assert(p.push(t).drop_last() =~= p);
    assert(p.push(t).last() == t);
}

/// One more term changes the kept terms and the total as `absorb` does.
pub proof fn lemma_absorbed<F: Fn(BinOp, Num, Num) -> Num>(f: F, p: Seq<Expr>, t: Expr)
    ensures
        others(p.push(t)) == others(p) + other_of(t),
        constants(p.push(t)) == constants(p) + constant_of(t),
        total(f, constants(p.push(t))) == match t {
            Expr::Constant(n) => if n.is_zero_spec() {
                total(f, constants(p))
            } else {
                apply(f, BinOp::Plus, total(f, constants(p)), n)
            },
            _ => total(f, constants(p)),
        },
{
    lemma_push_terms(p, t);
    let ks = constants(p);
    if let Expr::Constant(n) = t {
        if n.is_zero_spec() {
            assert(ks + constant_of(t) =~= ks);
        } else {
            assert((ks + constant_of(t)).drop_last() =~= ks);
        }
    } else {
        assert(ks + constant_of(t) =~= ks);
    }
}

/// The sum of `items`, without a node for fewer than two.
fn collapse(items: Vec<Expr>) -> (r: Expr)
    ensures
        collapses_to(r, items@),
{
    if items.len() == 0 {
        Expr::Constant(Num::zero_value())
    } else if items.len() == 1 {
        let mut items = items;
        match items.pop() {
            Some(t) => t,
            None => Expr::Constant(Num::zero_value()),
        }
    } else {
        Expr::Addition(items)
    }
}

/// A product node over `args`, as given.
pub fn mul(args: Vec<Expr>) -> (r: Expr)
    ensures
        r == Expr::Multiply(args),
{
    Expr::Multiply(args)
}

/// A difference node over `terms`, as given.
pub fn sub(terms: Vec<Expr>) -> (r: Expr)
    ensures
        r == Expr::Subtract(terms),
{
    Expr::Subtract(terms)
}

/// A quotient node over `args`, as given.
pub fn div(args: Vec<Expr>) -> (r: Expr)
    ensures
        r == Expr::Divide(args),
{
    Expr::Divide(args)
}

/// A power node over `args`, as given.
pub fn pow(args: Vec<Expr>) -> (r: Expr)
    ensures
        r == Expr::Pow(args),
{
    Expr::Pow(args)
}

/// The negation of `inner`.
pub fn neg(inner: Expr) -> (r: Expr)
    ensures
        r matches Expr::Neg(b) && *b == inner,
{
    Expr::Neg(Box::new(inner))
}

} // verus!
