//! Log-domain arithmetic.
//!
//! Sums and products are computed here; the transcendental functions come from
//! the caller, who may take them from any mathematics library.
use vstd::prelude::*;

use crate::float::F64;

verus! {

/// That a closure takes every number and always gives the same result.
pub open spec fn is_function<T, F: Fn(T) -> T>(f: F) -> bool {
    &&& forall|x: T| call_requires(f, (x,))
    &&& forall|x: T, y: T, z: T|
        call_ensures(f, (x,), y) && call_ensures(f, (x,), z) ==> y == z
}

/// What a closure gives.
pub open spec fn value_of<T, F: Fn(T) -> T>(f: F, x: T) -> T {
    choose|y: T| call_ensures(f, (x,), y)
}

/// The transcendental functions that the log domain needs.
#[derive(Debug, Clone, Copy)]
pub struct Functions<E, L, S> {
    /// The exponential.
    pub exp: E,
    /// The natural logarithm.
    pub ln: L,
    /// The natural logarithm of one more.
    pub ln_1p: S,
}

/// [`Functions`] as mathematical functions.
pub struct LogMath {
    pub exp: spec_fn(F64) -> F64,
    pub ln: spec_fn(F64) -> F64,
    pub ln_1p: spec_fn(F64) -> F64,
}

impl<E: Fn(F64) -> F64, L: Fn(F64) -> F64, S: Fn(F64) -> F64> Functions<E, L, S> {
    pub open spec fn wf(&self) -> bool {
        is_function(self.exp) && is_function(self.ln) && is_function(self.ln_1p)
    }

    pub open spec fn math(&self) -> LogMath {
        LogMath {
            exp: |x: F64| value_of(self.exp, x),
            ln: |x: F64| value_of(self.ln, x),
            ln_1p: |x: F64| value_of(self.ln_1p, x),
        }
    }

    pub fn exp(&self, x: F64) -> (r: F64)
        requires
            self.wf(),
        ensures
            r == (self.math().exp)(x),
    {
        (self.exp)(x)
    }

    pub fn ln(&self, x: F64) -> (r: F64)
        requires
            self.wf(),
        ensures
            r == (self.math().ln)(x),
    {
        (self.ln)(x)
    }

    pub fn ln_1p(&self, x: F64) -> (r: F64)
        requires
            self.wf(),
        ensures
            r == (self.math().ln_1p)(x),
    {
        (self.ln_1p)(x)
    }

    /// The logarithm of one plus the exponential.
    pub fn softplus(&self, x: F64) -> (r: F64)
        requires
            self.wf(),
        ensures
            r == self.math().softplus(x),
    {
        self.ln_1p(self.exp(x))
    }

    /// Numerically safe `log(exp(a) + exp(b))`, with negative infinity absorbing
    /// correctly.
    pub fn log_add_exp(&self, a: F64, b: F64) -> (r: F64)
        requires
            self.wf(),
        ensures
            r == self.math().log_add(a, b),
    {
        if is_void(a) {
            return b;
        }
        if is_void(b) {
            return a;
        }
        if b.less(a) {
            a.plus(self.softplus(b.minus(a)))
        } else {
            b.plus(self.softplus(a.minus(b)))
        }
    }
}

/// Negative infinity: the logarithm of nothing.
pub open spec fn void() -> F64 {
    F64 { bits: 0xfff0_0000_0000_0000 }
}

/// Negative infinity.
pub fn nothing() -> (r: F64)
    ensures
        r == void(),
{
    F64 { bits: 0xfff0_0000_0000_0000 }
}

/// Whether a number is negative infinity.
pub fn is_void(x: F64) -> (r: bool)
    ensures
        r == (x == void()),
{
    x.bits == 0xfff0_0000_0000_0000
}

impl LogMath {
    /// The logarithm of one plus the exponential.
    pub open spec fn softplus(self, x: F64) -> F64 {
        (self.ln_1p)((self.exp)(x))
    }

    /// The logarithm of a sum, of its parts' logarithms: the greater, and what
    /// the lesser adds to it.
    pub open spec fn log_add(self, a: F64, b: F64) -> F64 {
        if a == void() {
            b
        } else if b == void() {
            a
        } else if !a.nan() && !b.nan() && b.rank() < a.rank() {
            a.sum(self.softplus(b.difference(a)))
        } else {
            b.sum(self.softplus(a.difference(b)))
        }
    }

    /// Nothing adds nothing.
    pub proof fn lemma_void_is_neutral(self, a: F64)
        ensures
            self.log_add(a, void()) == a,
            self.log_add(void(), a) == a,
    {
    }
}

impl F64 {
    /// The rounded difference.
    pub open spec fn difference(self, other: F64) -> F64 {
        self.sum(other.opposite())
    }

    /// The difference, rounded.
    pub fn minus(self, other: F64) -> (r: F64)
        ensures
            r == self.difference(other),
    {
        self.plus(other.negated())
    }
}

} // verus!
