//! The functions of geometry that arithmetic alone does not give. They come from
//! the caller, who may take them from any mathematics library.
use vstd::prelude::*;

use crate::float::{F32, F64};
use crate::logmath::{is_function, value_of};

verus! {

/// That a closure takes every two numbers and always gives the same result.
pub open spec fn is_function2<F: Fn(F32, F32) -> F32>(f: F) -> bool {
    &&& forall|x: F32, y: F32| call_requires(f, (x, y))
    &&& forall|x: F32, y: F32, a: F32, b: F32|
        call_ensures(f, (x, y), a) && call_ensures(f, (x, y), b) ==> a == b
}

/// What a closure gives.
pub open spec fn value_of2<F: Fn(F32, F32) -> F32>(f: F, x: F32, y: F32) -> F32 {
    choose|r: F32| call_ensures(f, (x, y), r)
}

/// The functions of geometry.
#[derive(Debug, Clone, Copy)]
pub struct Numerics<R, H, A> {
    /// The square root.
    pub root: R,
    /// The length of a vector in the plane.
    pub hypot: H,
    /// The angle of a vector in the plane, its second coordinate first.
    pub atan2: A,
}

/// [`Numerics`] as mathematical functions.
pub struct GeoMath {
    pub root: spec_fn(F64) -> F64,
    pub hypot: spec_fn(F32, F32) -> F32,
    pub atan2: spec_fn(F32, F32) -> F32,
}

impl GeoMath {
    /// The square root in binary32, by that of binary64: two roundings give what
    /// one would, since the wider format has more than twice the digits.
    pub open spec fn root32(self, x: F32) -> F32 {
        (self.root)(x.widened()).narrowed()
    }

    /// The length of a vector in the plane, by the square root.
    pub open spec fn length(self, dx: F32, dy: F32) -> F32 {
        self.root32(dx.product(dx).sum(dy.product(dy)))
    }
}

impl<R: Fn(F64) -> F64, H: Fn(F32, F32) -> F32, A: Fn(F32, F32) -> F32> Numerics<R, H, A> {
    pub open spec fn wf(&self) -> bool {
        is_function(self.root) && is_function2(self.hypot) && is_function2(self.atan2)
    }

    pub open spec fn math(&self) -> GeoMath {
        GeoMath {
            root: |x: F64| value_of(self.root, x),
            hypot: |x: F32, y: F32| value_of2(self.hypot, x, y),
            atan2: |x: F32, y: F32| value_of2(self.atan2, x, y),
        }
    }

    /// The square root.
    pub fn root(&self, x: F64) -> (r: F64)
        requires
            self.wf(),
        ensures
            r == (self.math().root)(x),
    {
        (self.root)(x)
    }

    /// The length of a vector in the plane, in one rounding.
    pub fn hypot(&self, x: F32, y: F32) -> (r: F32)
        requires
            self.wf(),
        ensures
            r == (self.math().hypot)(x, y),
    {
        (self.hypot)(x, y)
    }

    /// The angle of a vector in the plane.
    pub fn atan2(&self, y: F32, x: F32) -> (r: F32)
        requires
            self.wf(),
        ensures
            r == (self.math().atan2)(y, x),
    {
        (self.atan2)(y, x)
    }

    /// The square root in binary32.
    pub fn root32(&self, x: F32) -> (r: F32)
        requires
            self.wf(),
        ensures
            r == self.math().root32(x),
    {
        self.root(x.widen()).narrow()
    }

    /// The length of a vector in the plane, by the square root.
    pub fn length(&self, dx: F32, dy: F32) -> (r: F32)
        requires
            self.wf(),
        ensures
            r == self.math().length(dx, dy),
    {
        self.root32(dx.times(dx).plus(dy.times(dy)))
    }
}

} // verus!
