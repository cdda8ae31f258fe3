//! What the constructors and operations guarantee together.
use vstd::prelude::*;
use crate::num::{BinOp, Num, SIGN_BIT, apply};
use crate::expr::{Expr, identical, lemma_identical, text_of, value};
use crate::builder::{
    collapses_to,
    normal_terms,
    flattened,
    spliced,
    constants,
    constant_of,
    others,
    other_of,
    total,
    lemma_absorbed,
    lemma_push_terms,
};

verus! {

/// Adding a nonzero value to either zero under `f` gives that value, as
/// binary64 addition does.
pub open spec fn zero_is_identity<F: Fn(BinOp, Num, Num) -> Num>(f: F) -> bool {
    forall|z: Num, k: Num|
        z.is_zero_spec() && !k.is_zero_spec() ==> #[trigger] apply(f, BinOp::Plus, z, k) == k
}

/// Two totals that lead to the same normalised sum: equal, or both zero.
pub open spec fn same_total(a: Num, b: Num) -> bool {
    a == b || (a.is_zero_spec() && b.is_zero_spec())
}

/// A tree that a sum of it alone gives back: a constant other than `-0.0`,
/// a sum node of two or more terms whose only constant is a nonzero first
/// term, or any other node.
pub open spec fn normal(x: Expr) -> bool {
    match x {
        Expr::Constant(k) => k.bits != SIGN_BIT,
        Expr::Addition(w) => {
            &&& w@.len() >= 2
            &&& forall|i: int| 1 <= i < w@.len() ==> !(#[trigger] w@[i] is Constant)
            &&& (w@[0] matches Expr::Constant(k) ==> !k.is_zero_spec())
        },
        _ => true,
    }
}

/// A term as the constructors build it, to one level: normal, and when it
/// is a sum, its terms normal too.
pub open spec fn built(t: Expr) -> bool {
    &&& normal(t)
    &&& (t matches Expr::Addition(w) ==> forall|i: int| 0 <= i < w@.len() ==> normal(#[trigger] w@[i]))
}

/// Two results of collapsing the same terms are the same tree.
pub proof fn lemma_collapse_unique(r1: Expr, r2: Expr, items: Seq<Expr>)
    requires
        collapses_to(r1, items),
        collapses_to(r2, items),
    ensures
        identical(r1, r2),
{
}

/// Constants and other terms of a concatenation.
proof fn lemma_concat(s: Seq<Expr>, u: Seq<Expr>)
    ensures
        constants(s + u) == constants(s) + constants(u),
        others(s + u) == others(s) + others(u),
    decreases u.len(),
{
    if u.len() == 0 {
        assert(s + u =~= s);
        assert(constants(s) + constants(u) =~= constants(s));
        assert(others(s) + others(u) =~= others(s));
    } else {
        let l = u.last();
        lemma_concat(s, u.drop_last());
        assert(s + u =~= (s + u.drop_last()).push(l));
        lemma_push_terms(s + u.drop_last(), l);
        assert(u.drop_last().push(l) =~= u);
        lemma_push_terms(u.drop_last(), l);
        assert(constants(s + u) =~= constants(s) + constants(u));
        assert(others(s + u) =~= others(s) + others(u));
    }
}

/// The constants and other terms of a single term.
proof fn lemma_single(t: Expr)
    ensures
        constants(seq![t]) == constant_of(t),
        others(seq![t]) == other_of(t),
        flattened(seq![t]) == spliced(t),
{
    lemma_push_terms(Seq::<Expr>::empty(), t);
    assert(Seq::<Expr>::empty().push(t) =~= seq![t]);
    assert(seq![t].drop_last() =~= Seq::<Expr>::empty());
    assert(Seq::<Num>::empty() + constant_of(t) =~= constant_of(t));
    assert(Seq::<Expr>::empty() + other_of(t) =~= other_of(t));
    lemma_flattened_push(Seq::<Expr>::empty(), t);
    assert(Seq::<Expr>::empty() + spliced(t) =~= spliced(t));
}

/// The flattened terms of a sequence with one more term.
proof fn lemma_flattened_push(ts: Seq<Expr>, t: Expr)
    ensures
        flattened(ts.push(t)) == flattened(ts) + spliced(t),
{
    assert(ts.push(t).drop_last() =~= ts);
}

/// The terms other than constants hold no constant.
proof fn lemma_others_clean(s: Seq<Expr>)
    ensures
        constants(others(s)) == Seq::<Num>::empty(),
        others(others(s)) == others(s),
        forall|i: int| 0 <= i < others(s).len() ==> !(#[trigger] others(s)[i] is Constant),
        (forall|j: int| 0 <= j < s.len() ==> normal(#[trigger] s[j])) ==> forall|i: int|
            0 <= i < others(s).len() ==> normal(#[trigger] others(s)[i]),
    decreases s.len(),
{
    if s.len() > 0 {
        let l = s.last();
        lemma_others_clean(s.drop_last());
        lemma_concat(others(s.drop_last()), other_of(l));
        lemma_single(l);
        if l is Constant {
            assert(other_of(l) =~= Seq::<Expr>::empty());
            assert(constants(other_of(l)) =~= Seq::<Num>::empty());
            assert(others(other_of(l)) =~= Seq::<Expr>::empty());
        } else {
            assert(other_of(l) =~= seq![l]);
            assert(constant_of(l) =~= Seq::<Num>::empty());
        }
        assert(constants(others(s)) =~= Seq::<Num>::empty());
        assert(others(others(s)) =~= others(s));
        if forall|j: int| 0 <= j < s.len() ==> normal(#[trigger] s[j]) {
            assert forall|j: int| 0 <= j < s.drop_last().len() implies normal(
                #[trigger] s.drop_last()[j],
            ) by {
                assert(s.drop_last()[j] == s[j]);
            }
        }
    }
}

/// Every constant collected from the terms is nonzero.
proof fn lemma_constants_nonzero(s: Seq<Expr>)
    ensures
        forall|i: int| 0 <= i < constants(s).len() ==> !(#[trigger] constants(s)[i]).is_zero_spec(),
    decreases s.len(),
{
    if s.len() > 0 {
        lemma_constants_nonzero(s.drop_last());
        let a = constants(s.drop_last());
        let b = constant_of(s.last());
        assert forall|i: int| 0 <= i < constants(s).len() implies !(
        #[trigger] constants(s)[i]).is_zero_spec() by {
            if i < a.len() {
                assert(constants(s)[i] == a[i]);
            } else {
                assert(constants(s)[i] == b[i - a.len()]);
            }
        }
    }
}

/// Folding the same nonzero constants onto totals that lead to the same sum
/// keeps them so.
proof fn lemma_total_append<F: Fn(BinOp, Num, Num) -> Num>(
    f: F,
    p: Seq<Num>,
    q: Seq<Num>,
    c: Seq<Num>,
)
    requires
        zero_is_identity(f),
        same_total(total(f, p), total(f, q)),
        forall|i: int| 0 <= i < c.len() ==> !(#[trigger] c[i]).is_zero_spec(),
    ensures
        same_total(total(f, p + c), total(f, q + c)),
    decreases c.len(),
{
    if c.len() == 0 {
        assert(p + c =~= p);
        assert(q + c =~= q);
    } else {
        lemma_total_append(f, p, q, c.drop_last());
        assert((p + c).drop_last() =~= p + c.drop_last());
        assert((q + c).drop_last() =~= q + c.drop_last());
        let k = c.last();
        let a = total(f, p + c.drop_last());
        let b = total(f, q + c.drop_last());
        if a != b {
            assert(apply(f, BinOp::Plus, a, k) == k);
            assert(apply(f, BinOp::Plus, b, k) == k);
        }
    }
}

/// Sums of two term lists with the same other terms and totals that lead
/// to the same sum are the same tree.
proof fn lemma_same_terms<F: Fn(BinOp, Num, Num) -> Num>(
    f: F,
    ts: Seq<Expr>,
    us: Seq<Expr>,
    r1: Expr,
    r2: Expr,
)
    requires
        others(flattened(ts)) == others(flattened(us)),
        same_total(total(f, constants(flattened(ts))), total(f, constants(flattened(us)))),
        collapses_to(r1, normal_terms(f, ts)),
        collapses_to(r2, normal_terms(f, us)),
    ensures
        identical(r1, r2),
{
    assert(normal_terms(f, ts) == normal_terms(f, us));
    lemma_collapse_unique(r1, r2, normal_terms(f, ts));
}

/// The total of a single nonzero constant is that constant.
proof fn lemma_total_one<F: Fn(BinOp, Num, Num) -> Num>(f: F, k: Num)
    requires
        zero_is_identity(f),
        !k.is_zero_spec(),
    ensures
        total(f, seq![k]) == k,
{
    assert(seq![k].drop_last() =~= Seq::<Num>::empty());
    assert(seq![k].last() == k);
    assert(total(f, seq![k].drop_last()) == Num::zero());
    assert(apply(f, BinOp::Plus, Num::zero(), k) == k);
}

/// The sum of a single normal term is that term.
pub proof fn lemma_add_single<F: Fn(BinOp, Num, Num) -> Num>(f: F, x: Expr, r: Expr)
    requires
        zero_is_identity(f),
        normal(x),
        collapses_to(r, normal_terms(f, seq![x])),
    ensures
        identical(r, x),
{
    lemma_single(x);
    match x {
        Expr::Addition(w) => {
            let s = w@;
            let rest = s.drop_first();
            assert(s =~= seq![s[0]] + rest);
            lemma_concat(seq![s[0]], rest);
            lemma_single(s[0]);
            lemma_others_clean(rest);
            assert forall|i: int| 0 <= i < rest.len() implies !(#[trigger] rest[i] is Constant) by {
                assert(rest[i] == s[i + 1]);
            }
            lemma_no_constants(rest);
            if let Expr::Constant(k) = s[0] {
                lemma_total_one(f, k);
                assert(constants(s) =~= seq![k]);
                assert(others(s) =~= rest);
                assert(normal_terms(f, seq![x]) =~= s);
            } else {
                assert(constants(s) =~= Seq::<Num>::empty());
                assert(others(s) =~= s);
                assert(normal_terms(f, seq![x]) =~= s);
            }
        },
        Expr::Constant(k) => {
            if !k.is_zero_spec() {
                lemma_total_one(f, k);
            }
        },
        _ => {},
    }
}

/// Terms without constants are their own other terms.
proof fn lemma_no_constants(s: Seq<Expr>)
    requires
        forall|i: int| 0 <= i < s.len() ==> !(#[trigger] s[i] is Constant),
    ensures
        constants(s) == Seq::<Num>::empty(),
        others(s) == s,
    decreases s.len(),
{
    if s.len() > 0 {
        assert forall|i: int| 0 <= i < s.drop_last().len() implies !(
        #[trigger] s.drop_last()[i] is Constant) by {
            assert(s.drop_last()[i] == s[i]);
        }
        lemma_no_constants(s.drop_last());
        assert(others(s) =~= s);
        assert(constants(s) =~= Seq::<Num>::empty());
    }
}

/// Adding a zero constant in front of a normal term gives that term.
pub proof fn lemma_add_zero<F: Fn(BinOp, Num, Num) -> Num>(
    f: F,
    z: Num,
    x: Expr,
    r: Expr,
    alone: Expr,
)
    requires
        zero_is_identity(f),
        z.is_zero_spec(),
        normal(x),
        collapses_to(r, normal_terms(f, seq![Expr::Constant(z), x])),
        collapses_to(alone, normal_terms(f, seq![x])),
    ensures
        identical(r, x),
{
    let zc = Expr::Constant(z);
    lemma_single(zc);
    lemma_single(x);
    lemma_flattened_push(seq![zc], x);
    assert(seq![zc].push(x) =~= seq![zc, x]);
    lemma_concat(seq![zc], spliced(x));
    assert(constants(seq![zc]) =~= Seq::<Num>::empty());
    assert(others(seq![zc]) =~= Seq::<Expr>::empty());
    assert(constants(flattened(seq![zc, x])) =~= constants(flattened(seq![x])));
    assert(others(flattened(seq![zc, x])) =~= others(flattened(seq![x])));
    lemma_same_terms(f, seq![zc, x], seq![x], r, alone);
    lemma_add_single(f, x, alone);
}

/// Two nonzero constants in front of a term sum to what a single constant
/// with their total does.
pub proof fn lemma_add_folds<F: Fn(BinOp, Num, Num) -> Num, R: Fn(Num) -> String>(
    f: F,
    rd: R,
    k1: Num,
    k2: Num,
    k: Num,
    x: Expr,
    r1: Expr,
    r2: Expr,
)
    requires
        zero_is_identity(f),
        !k1.is_zero_spec(),
        !k2.is_zero_spec(),
        !k.is_zero_spec(),
        total(f, seq![k1, k2]) == total(f, seq![k]),
        collapses_to(r1, normal_terms(f, seq![Expr::Constant(k1), Expr::Constant(k2), x])),
        collapses_to(r2, normal_terms(f, seq![Expr::Constant(k), x])),
    ensures
        identical(r1, r2),
        value(f, r1) == value(f, r2),
        text_of(rd, r1) == text_of(rd, r2),
{
    let c1 = Expr::Constant(k1);
    let c2 = Expr::Constant(k2);
    let c = Expr::Constant(k);
    let two = seq![c1, c2];
    lemma_single(c1);
    lemma_single(c);
    lemma_flattened_push(seq![c1], c2);
    assert(seq![c1].push(c2) =~= two);
    lemma_flattened_push(two, x);
    assert(two.push(x) =~= seq![c1, c2, x]);
    lemma_flattened_push(seq![c], x);
    assert(seq![c].push(x) =~= seq![c, x]);
    assert(flattened(two) =~= two);
    lemma_push_terms(seq![c1], c2);
    assert(constants(two) =~= seq![k1, k2]);
    assert(others(two) =~= Seq::<Expr>::empty());
    lemma_concat(two, spliced(x));
    lemma_concat(seq![c], spliced(x));
    assert(others(seq![c]) =~= Seq::<Expr>::empty());
    assert(constants(seq![c]) =~= seq![k]);
    lemma_constants_nonzero(spliced(x));
    lemma_total_append(f, seq![k1, k2], seq![k], constants(spliced(x)));
    assert(others(flattened(seq![c1, c2, x])) =~= others(flattened(seq![c, x])));
    lemma_same_terms(f, seq![c1, c2, x], seq![c, x], r1, r2);
    lemma_identical(f, rd, r1, r2);
}

/// Adding the sum of `a` and `b` to `c` gives the same tree, text and value
/// as adding `a`, `b` and `c` at once, unless the sum of `a` and `b` is a
/// lone sum node that was one of their terms.
pub proof fn lemma_add_flattens<F: Fn(BinOp, Num, Num) -> Num, R: Fn(Num) -> String>(
    f: F,
    rd: R,
    a: Expr,
    b: Expr,
    c: Expr,
    inner: Expr,
    nested: Expr,
    flat: Expr,
)
    requires
        zero_is_identity(f),
        !({
            let s = flattened(seq![a, b]);
            &&& others(s).len() == 1
            &&& others(s)[0] is Addition
            &&& total(f, constants(s)).is_zero_spec()
        }),
        collapses_to(inner, normal_terms(f, seq![a, b])),
        collapses_to(nested, normal_terms(f, seq![inner, c])),
        collapses_to(flat, normal_terms(f, seq![a, b, c])),
    ensures
        identical(nested, flat),
        text_of(rd, nested) == text_of(rd, flat),
        value(f, nested) == value(f, flat),
{
    let ab = seq![a, b];
    let s = flattened(ab);
    let t = total(f, constants(s));
    let n = normal_terms(f, ab);
    let si = spliced(inner);
    let sc = spliced(c);
    lemma_flattened_push(ab, c);
    assert(ab.push(c) =~= seq![a, b, c]);
    lemma_single(inner);
    lemma_flattened_push(seq![inner], c);
    assert(seq![inner].push(c) =~= seq![inner, c]);
    lemma_concat(s, sc);
    lemma_concat(si, sc);
    lemma_others_clean(s);
    let kt = Expr::Constant(t);
    if !t.is_zero_spec() {
        lemma_single(kt);
        lemma_concat(seq![kt], others(s));
        assert(si == n);
        assert(constants(n) =~= seq![t]);
        assert(others(n) =~= others(s));
        lemma_total_one(f, t);
    } else if others(s).len() == 0 {
        let z = Expr::Constant(Num::zero());
        assert(inner == z);
        lemma_single(z);
        assert(constants(si) =~= Seq::<Num>::empty());
        assert(others(si) =~= others(s));
    } else {
        assert(si == others(s));
    }
    assert(same_total(total(f, constants(si)), t));
    assert(others(si) == others(s));
    lemma_constants_nonzero(sc);
    lemma_total_append(f, constants(si), constants(s), constants(sc));
    lemma_same_terms(f, seq![inner, c], seq![a, b, c], nested, flat);
    lemma_identical(f, rd, nested, flat);
}

/// Every term of the flattened sum of built terms is normal.
proof fn lemma_flattened_normal(ts: Seq<Expr>)
    requires
        forall|i: int| 0 <= i < ts.len() ==> built(#[trigger] ts[i]),
    ensures
        forall|i: int| 0 <= i < flattened(ts).len() ==> normal(#[trigger] flattened(ts)[i]),
    decreases ts.len(),
{
    if ts.len() > 0 {
        let d = ts.drop_last();
        assert forall|i: int| 0 <= i < d.len() implies built(#[trigger] d[i]) by {
            assert(d[i] == ts[i]);
        }
        lemma_flattened_normal(d);
        let l = ts.last();
        assert(built(l));
        let a = flattened(d);
        let b = spliced(l);
        assert forall|i: int| 0 <= i < flattened(ts).len() implies normal(
            #[trigger] flattened(ts)[i],
        ) by {
            if i < a.len() {
                assert(flattened(ts)[i] == a[i]);
            } else {
                assert(flattened(ts)[i] == b[i - a.len()]);
            }
        }
    }
}

/// Normalising again the sum of terms built by the constructors gives the
/// same tree: a sum of it alone is it.
pub proof fn lemma_add_idempotent<F: Fn(BinOp, Num, Num) -> Num>(
    f: F,
    ts: Seq<Expr>,
    e: Expr,
    again: Expr,
)
    requires
        zero_is_identity(f),
        forall|i: int| 0 <= i < ts.len() ==> built(#[trigger] ts[i]),
        collapses_to(e, normal_terms(f, ts)),
        collapses_to(again, normal_terms(f, seq![e])),
    ensures
        identical(again, e),
{
    let s = flattened(ts);
    let t = total(f, constants(s));
    let n = normal_terms(f, ts);
    lemma_flattened_normal(ts);
    lemma_others_clean(s);
    let o = others(s);
    if n.len() >= 2 {
        if let Expr::Addition(w) = e {
            assert(w@ == n);
            assert forall|i: int| 1 <= i < n.len() implies !(#[trigger] n[i] is Constant) by {
                if t.is_zero_spec() {
                    assert(n[i] == o[i]);
                } else {
                    assert(n[i] == o[i - 1]);
                }
            }
            if t.is_zero_spec() {
                assert(n[0] == o[0]);
            }
        }
    } else if n.len() == 1 {
        if t.is_zero_spec() {
            assert(e == o[0]);
        }
    }
    assert(normal(e));
    lemma_add_single(f, e, again);
}

} // verus!
