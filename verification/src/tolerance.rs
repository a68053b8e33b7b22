//! The length tolerance: a factor, held as a fraction of whole numbers, by
//! which a path may be longer than the shortest one.

use vstd::prelude::*;

verus! {

/// The factor `num / den`, with `den` above zero.
#[derive(Clone, Copy, Debug)]
pub struct Tolerance {
    num: u32,
    den: u32,
}

impl Tolerance {
    #[verifier::type_invariant]
    spec fn denominator_positive(self) -> bool {
        self.den > 0
    }

    /// The numerator of the factor.
    pub closed spec fn num(self) -> nat {
        self.num as nat
    }

    /// The denominator of the factor.
    pub closed spec fn den(self) -> nat {
        self.den as nat
    }

    /// The factor is below one, so that it admits not even a shortest path.
    pub open spec fn below_one(self) -> bool {
        self.num() < self.den()
    }

    /// The greatest whole length that is at most `shortest` times the factor.
    pub open spec fn limit_of(self, shortest: nat) -> nat {
        (shortest * self.num()) / self.den()
    }

    /// A length is at most the limit exactly when it is at most the shortest
    /// length times the factor.
    pub proof fn lemma_limit(self, length: nat, shortest: nat)
        requires
            self.den() > 0,
        ensures
            length <= self.limit_of(shortest) <==> length * self.den() <= shortest * self.num(),
    {
        let d = self.den() as int;
        let x = (shortest * self.num()) as int;
        let l = length as int;
        vstd::arithmetic::div_mod::lemma_fundamental_div_mod(x, d);
        vstd::arithmetic::div_mod::lemma_mod_bound(x, d);
        let q = x / d;
        if l <= q {
            assert(l * d <= q * d) by (nonlinear_arith)
                requires
                    l <= q,
                    d > 0,
            ;
        } else {
            assert(l * d >= (q + 1) * d) by (nonlinear_arith)
                requires
                    l >= q + 1,
                    d > 0,
            ;
            assert((q + 1) * d == q * d + d) by (nonlinear_arith);
        }
        assert(d * q == q * d) by (nonlinear_arith);
    }

    /// With a factor of one or more, the limit is not below the shortest
    /// length itself.
    pub proof fn lemma_limit_admits_shortest(self, shortest: nat)
        requires
            self.den() > 0,
            !self.below_one(),
        ensures
            shortest <= self.limit_of(shortest),
    {
        self.lemma_limit(shortest, shortest);
        let s = shortest as int;
        let n = self.num() as int;
        let d = self.den() as int;
        assert(s * d <= s * n) by (nonlinear_arith)
            requires
                d <= n,
                s >= 0,
        ;
    }

    /// The limit grows with the shortest length.
    pub proof fn lemma_limit_monotone(self, a: nat, b: nat)
        requires
            self.den() > 0,
            a <= b,
        ensures
            self.limit_of(a) <= self.limit_of(b),
    {
        let n = self.num() as int;
        assert(a * n <= b * n) by (nonlinear_arith)
            requires
                a <= b,
                n >= 0,
        ;
        vstd::arithmetic::div_mod::lemma_div_is_ordered(
            (a * self.num()) as int,
            (b * self.num()) as int,
            self.den() as int,
        );
    }

    /// The factor `num / den`; `None` where `den` is zero.
    pub fn new(num: u32, den: u32) -> (t: Option<Tolerance>)
        ensures
            t is Some <==> den > 0,
            t is Some ==> t->0.num() == num && t->0.den() == den,
    {
        if den == 0 {
            None
        } else {
            Some(Tolerance { num, den })
        }
    }

    /// The numerator of the factor.
    pub fn numerator(&self) -> (n: u32)
        ensures
            n == self.num(),
    {
        self.num
    }

    /// The denominator of the factor, which is not zero.
    pub fn denominator(&self) -> (d: u32)
        ensures
            d == self.den(),
            d > 0,
    {
        proof {
            use_type_invariant(self);
        }
        self.den
    }

    /// Whether the factor is below one.
    pub fn is_below_one(&self) -> (b: bool)
        ensures
            b == self.below_one(),
            self.den() > 0,
    {
        proof {
            use_type_invariant(self);
        }
        self.num < self.den
    }

    /// The greatest whole length within the factor of `shortest`, which must
    /// be below two to the power of 96, as the length of every path is.
    pub fn limit(&self, shortest: u128) -> (l: u128)
        requires
            shortest < 0x1_0000_0000_0000_0000_0000_0000,
        ensures
            l == self.limit_of(shortest as nat),
            self.den() > 0,
    {
        proof {
            use_type_invariant(self);
            assert(shortest * self.num < 0x1_0000_0000_0000_0000_0000_0000_0000_0000)
                by (nonlinear_arith)
                requires
                    shortest < 0x1_0000_0000_0000_0000_0000_0000,
                    self.num < 0x1_0000_0000,
            ;
        }
        (shortest * (self.num as u128)) / (self.den as u128)
    }
}

} // verus!
