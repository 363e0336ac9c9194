//! The simulation driver's bookkeeping: the iteration count and the running
//! product of per-step scale factors.
//!
//! Each step of the grid reports the fraction of mass that survived that
//! step's absorption.  The driver multiplies these fractions together,
//! exactly; the reciprocal of the product estimates how much the absorbing
//! sites have depleted the diffusing quantity since the start of the run.

use vstd::prelude::*;

use crate::grid::Scale;
use crate::math::{gcd, lemma_div_exact, lemma_gcd_properties};

verus! {

/// A run's bookkeeping: how many steps were taken, and the product of their
/// scale factors as an exact fraction `num / den`.
pub struct Driver {
    num: u64,
    den: u64,
    steps: u64,
}

impl Driver {
    /// Numerator of the accumulated scale product.
    pub closed spec fn scale_num(&self) -> int {
        self.num as int
    }

    /// Denominator of the accumulated scale product.
    pub closed spec fn scale_den(&self) -> int {
        self.den as int
    }

    /// How many step results were recorded.
    pub closed spec fn steps(&self) -> int {
        self.steps as int
    }

    /// The accumulated fraction stays a genuine fraction: both parts positive.
    pub open spec fn wf(&self) -> bool {
        self.scale_num() >= 1 && self.scale_den() >= 1
    }

    /// A fresh driver: no steps taken, accumulated scale exactly one.
    pub fn new() -> (d: Driver)
        ensures
            d.wf(),
            d.scale_num() == 1,
            d.scale_den() == 1,
            d.steps() == 0,
    {
        Driver { num: 1, den: 1, steps: 0 }
    }

    /// How many step results were recorded.
    pub fn steps_taken(&self) -> (r: u64)
        ensures
            r as int == self.steps(),
    {
        self.steps
    }

    /// Numerator of the accumulated scale product.
    pub fn product_num(&self) -> (r: u64)
        ensures
            r as int == self.scale_num(),
    {
        self.num
    }

    /// Denominator of the accumulated scale product.
    pub fn product_den(&self) -> (r: u64)
        ensures
            r as int == self.scale_den(),
    {
        self.den
    }

    /// Records one step's scale factor, multiplying it into the running
    /// product (cross-reduced by gcd first).  Returns `false` and leaves the
    /// driver unchanged when the exact product no longer fits; it always
    /// succeeds while the unreduced products fit in a `u64`.
    pub fn record(&mut self, s: &Scale) -> (ok: bool)
        requires
            old(self).wf(),
            s.num >= 1,
            s.den >= 1,
            old(self).steps() < u64::MAX as int,
        ensures
            final(self).wf(),
            ok ==> final(self).steps() == old(self).steps() + 1,
            ok ==> final(self).scale_num() * (old(self).scale_den() * s.den as int) == (old(
                self,
            ).scale_num() * s.num as int) * final(self).scale_den(),
            !ok ==> *final(self) == *old(self),
            old(self).scale_num() * s.num as int <= u64::MAX as int && old(self).scale_den()
                * s.den as int <= u64::MAX as int ==> ok,
    {
        let ga: u64 = gcd(self.num, s.den);
        let gb: u64 = gcd(s.num, self.den);
        proof {
            lemma_gcd_properties(self.num as nat, s.den as nat);
            lemma_gcd_properties(s.num as nat, self.den as nat);
            lemma_div_exact(self.num as int, ga as int);
            lemma_div_exact(s.den as int, ga as int);
            lemma_div_exact(s.num as int, gb as int);
            lemma_div_exact(self.den as int, gb as int);
        }
        let n1: u64 = self.num / ga;
        let d2: u64 = s.den / ga;
        let n2: u64 = s.num / gb;
        let d1: u64 = self.den / gb;
        proof {
            assert(n1 >= 1 && d2 >= 1 && n2 >= 1 && d1 >= 1) by (nonlinear_arith)
                requires
                    self.num as int == ga as int * n1 as int,
                    s.den as int == ga as int * d2 as int,
                    s.num as int == gb as int * n2 as int,
                    self.den as int == gb as int * d1 as int,
                    self.num >= 1,
                    self.den >= 1,
                    s.num >= 1,
                    s.den >= 1,
                    ga >= 1,
                    gb >= 1,
                    n1 >= 0,
                    n2 >= 0,
                    d1 >= 0,
                    d2 >= 0,
            ;
            // Reduced factors never exceed the originals, so a product of the
            // originals that fits guarantees the reduced product fits.
            assert(n1 as int <= self.num as int && n2 as int <= s.num as int && d1 as int
                <= self.den as int && d2 as int <= s.den as int) by (nonlinear_arith)
                requires
                    self.num as int == ga as int * n1 as int,
                    s.den as int == ga as int * d2 as int,
                    s.num as int == gb as int * n2 as int,
                    self.den as int == gb as int * d1 as int,
                    ga >= 1,
                    gb >= 1,
                    n1 >= 0,
                    n2 >= 0,
                    d1 >= 0,
                    d2 >= 0,
            ;
            assert(n1 as int * n2 as int <= self.num as int * s.num as int && d1 as int
                * d2 as int <= self.den as int * s.den as int) by (nonlinear_arith)
                requires
                    0 <= n1 as int <= self.num as int,
                    0 <= n2 as int <= s.num as int,
                    0 <= d1 as int <= self.den as int,
                    0 <= d2 as int <= s.den as int,
            ;
        }
        let new_num: u64 = match n1.checked_mul(n2) {
            Some(v) => v,
            None => {
                return false;
            },
        };
        let new_den: u64 = match d1.checked_mul(d2) {
            Some(v) => v,
            None => {
                return false;
            },
        };
        proof {
            assert(new_num as int * (self.den as int * s.den as int) == (self.num as int
                * s.num as int) * (new_den as int)) by (nonlinear_arith)
                requires
                    new_num as int == n1 as int * n2 as int,
                    new_den as int == d1 as int * d2 as int,
                    self.num as int == ga as int * n1 as int,
                    s.den as int == ga as int * d2 as int,
                    s.num as int == gb as int * n2 as int,
                    self.den as int == gb as int * d1 as int,
            ;
            assert(new_num >= 1 && new_den >= 1) by (nonlinear_arith)
                requires
                    new_num as int == n1 as int * n2 as int,
                    new_den as int == d1 as int * d2 as int,
                    n1 >= 1,
                    n2 >= 1,
                    d1 >= 1,
                    d2 >= 1,
            ;
        }
        self.num = new_num;
        self.den = new_den;
        self.steps = self.steps + 1;
        true
    }
}

} // verus!
