use vstd::prelude::*;

verus! {

/// An exact rational strictly between zero and one, used as the held-out
/// fraction of a train/test split. It is stored as numerator over
/// denominator so that `floor(n * fraction)` is computed exactly in
/// integer arithmetic.
#[derive(Clone, Copy, PartialEq, Eq, Structural, Debug)]
pub struct Fraction {
    pub num: u64,
    pub den: u64,
}

impl Fraction {
    /// Strictly between zero and one.
    pub open spec fn well_formed(self) -> bool {
        0 < self.num < self.den
    }

    /// `Some` exactly when the pair encodes a value in the open unit interval.
    pub fn new(num: u64, den: u64) -> (r: Option<Fraction>)
        ensures
            r is Some <==> 0 < num < den,
            r is Some ==> r->Some_0 == (Fraction { num, den }),
    {
        if 0 < num && num < den {
            Some(Fraction { num, den })
        } else {
            None
        }
    }

    /// The number of interactions held out for a user with `n` interactions:
    /// `floor(n * num / den)`.
    pub open spec fn quota_spec(self, n: nat) -> nat
        recommends
            self.well_formed(),
    {
        (((n as int) * (self.num as int)) / (self.den as int)) as nat
    }

    /// Exact integer computation of `floor(n * self)`. A user's held-out
    /// count is always strictly smaller than the user's interaction count.
    pub fn quota(self, n: usize) -> (k: usize)
        requires
            self.well_formed(),
        ensures
            k == self.quota_spec(n as nat),
            n > 0 ==> k < n,
            n == 0 ==> k == 0,
    {
        proof {
            assert((n as int) * (self.num as int) <= 0xffff_ffff_ffff_ffff * 0xffff_ffff_ffff_ffff)
                by (nonlinear_arith)
                requires
                    n as int <= 0xffff_ffff_ffff_ffff,
                    self.num as int <= 0xffff_ffff_ffff_ffff,
            ;
        }
        let prod: u128 = (n as u128) * (self.num as u128);
        let q: u128 = prod / (self.den as u128);
        proof {
            if n > 0 {
                assert((n as int) * (self.num as int) < (self.den as int) * (n as int))
                    by (nonlinear_arith)
                    requires
                        self.num < self.den,
                        n > 0,
                ;
                vstd::arithmetic::div_mod::lemma_multiply_divide_lt(
                    (n as int) * (self.num as int),
                    self.den as int,
                    n as int,
                );
            }
        }
        q as usize
    }
}

} // verus!
