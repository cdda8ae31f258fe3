use vstd::prelude::*;

verus! {

/// Bit mask of the sign bit of an IEEE-754 binary64 value.
pub const SIGN_BIT: u64 = 0x8000_0000_0000_0000;

/// Bit pattern of the binary64 value `+0.0`.
pub const ZERO_BITS: u64 = 0;

/// Bit pattern of the binary64 value `1.0`.
pub const ONE_BITS: u64 = 0x3ff0_0000_0000_0000;

/// A binary64 floating-point number, held by its IEEE-754 bit pattern.
#[derive(Clone, Copy, Debug, PartialEq, Eq, Structural)]
pub struct Num {
    pub bits: u64,
}

/// The binary operations that evaluation and constant folding need.
#[derive(Clone, Copy, Debug, PartialEq, Eq, Structural)]
pub enum BinOp {
    /// `a + b`
    Plus,
    /// `a * b`
    Times,
    /// `a / b`
    Over,
    /// `a` raised to the power `b`
    Power,
}

impl Num {
    pub open spec fn zero() -> Num {
        Num { bits: ZERO_BITS }
    }

    pub open spec fn one() -> Num {
        Num { bits: ONE_BITS }
    }

    /// Whether the value compares equal to zero: `+0.0` or `-0.0`.
    pub open spec fn is_zero_spec(self) -> bool {
        self.bits == ZERO_BITS || self.bits == SIGN_BIT
    }

    /// IEEE-754 negation: the same value with the sign bit flipped.
    pub open spec fn negated(self) -> Num {
        Num { bits: self.bits ^ SIGN_BIT }
    }

    pub fn from_bits(bits: u64) -> (r: Num)
        ensures
            r.bits == bits,
    {
        Num { bits }
    }

    /// `+0.0`
    pub fn zero_value() -> (r: Num)
        ensures
            r == Num::zero(),
    {
        Num { bits: ZERO_BITS }
    }

    /// `1.0`
    pub fn one_value() -> (r: Num)
        ensures
            r == Num::one(),
    {
        Num { bits: ONE_BITS }
    }

    /// Whether `self == 0.0` holds in floating point.
    pub fn is_zero(&self) -> (r: bool)
        ensures
            r == self.is_zero_spec(),
    {
        self.bits == ZERO_BITS || self.bits == SIGN_BIT
    }

    /// `-self` in floating point.
    pub fn neg(&self) -> (r: Num)
        ensures
            r == self.negated(),
    {
        Num { bits: self.bits ^ SIGN_BIT }
    }
}

/// `f` is usable as the arithmetic of binary64 numbers: it accepts every
/// operation on every pair of operands and gives one result for each.
pub open spec fn is_arith<F: Fn(BinOp, Num, Num) -> Num>(f: F) -> bool {
    &&& forall|op: BinOp, a: Num, b: Num| #[trigger] f.requires((op, a, b))
    &&& forall|op: BinOp, a: Num, b: Num, r: Num, s: Num|
        #[trigger] f.ensures((op, a, b), r) && #[trigger] f.ensures((op, a, b), s) ==> r == s
}

/// The result that the arithmetic `f` gives for `op` on `a` and `b`.
pub open spec fn apply<F: Fn(BinOp, Num, Num) -> Num>(f: F, op: BinOp, a: Num, b: Num) -> Num {
    choose|r: Num| f.ensures((op, a, b), r)
}

/// `f` is usable as the decimal rendering of binary64 numbers: it accepts
/// every number and gives one text for each.
pub open spec fn is_render<R: Fn(Num) -> String>(r: R) -> bool {
    &&& forall|n: Num| #[trigger] r.requires((n,))
    &&& forall|n: Num, s: String, t: String|
        #[trigger] r.ensures((n,), s) && #[trigger] r.ensures((n,), t) ==> s@ == t@
}

/// The text that the rendering `r` gives for `n`.
pub open spec fn text<R: Fn(Num) -> String>(r: R, n: Num) -> Seq<char> {
    (choose|s: String| r.ensures((n,), s))@
}

/// Calls the arithmetic `f`; its result is the one that `apply` names.
pub fn compute<F: Fn(BinOp, Num, Num) -> Num>(f: &F, op: BinOp, a: Num, b: Num) -> (r: Num)
    requires
        is_arith(*f),
    ensures
        r == apply(*f, op, a, b),
{
    let r = f(op, a, b);
    proof {
        let c = apply(*f, op, a, b);
        assert(f.ensures((op, a, b), c));
    }
    r
}

/// Calls the rendering `rd`; its result is the one that `text` names.
pub fn render<R: Fn(Num) -> String>(rd: &R, n: Num) -> (s: String)
    requires
        is_render(*rd),
    ensures
        s@ == text(*rd, n),
{
    let s = rd(n);
    proof {
        let c = choose|t: String| rd.ensures((n,), t);
        assert(rd.ensures((n,), c));
    }
    s
}

} // verus!
