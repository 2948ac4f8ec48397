use vstd::prelude::*;

verus! {

/// An edge weight: a value equipped with a multiplication operator, a
/// multiplicative identity, and a strict total order. "Better" means
/// smaller under the order, so the aggregator keeps the smallest
/// composite weight it finds.
pub trait Weight: Sized + Copy {
    /// The multiplicative identity, as a specification value.
    spec fn one_spec() -> Self;

    /// What multiplying two weights yields.
    spec fn mul_spec(self, rhs: Self) -> Self;

    /// The strict order on weights.
    spec fn lt_spec(self, rhs: Self) -> bool;

    /// The order is irreflexive.
    proof fn lemma_lt_irreflexive(a: Self)
        ensures
            !a.lt_spec(a),
    ;

    /// The order is transitive.
    proof fn lemma_lt_transitive(a: Self, b: Self, c: Self)
        requires
            a.lt_spec(b),
            b.lt_spec(c),
        ensures
            a.lt_spec(c),
    ;

    /// The order is total: two weights are equal or ordered one way.
    proof fn lemma_lt_total(a: Self, b: Self)
        ensures
            a == b || a.lt_spec(b) || b.lt_spec(a),
    ;

    /// The identity is neutral for multiplication.
    proof fn lemma_one_identity(a: Self)
        ensures
            Self::one_spec().mul_spec(a) == a,
            a.mul_spec(Self::one_spec()) == a,
    ;

    /// Returns the multiplicative identity.
    fn one() -> (r: Self)
        ensures
            r == Self::one_spec(),
    ;

    /// Multiplies two weights.
    fn mul(self, rhs: Self) -> (r: Self)
        ensures
            r == self.mul_spec(rhs),
    ;

    /// Decides the strict order.
    fn lt(self, rhs: Self) -> (r: bool)
        ensures
            r == self.lt_spec(rhs),
    ;
}

/// Number of fixed-point steps in one whole unit: a rate carries nine
/// decimal places, so `RATE_SCALE` stands for the real number 1.0.
pub const RATE_SCALE: u64 = 1_000_000_000;

/// A conversion rate in fixed-point form: `raw` counts billionths.
/// Multiplication truncates toward zero and saturates at `u64::MAX`.
#[derive(Clone, Copy, Debug, PartialEq, Eq, Structural)]
pub struct Rate {
    pub raw: u64,
}

impl Rate {
    /// Builds a rate from its raw fixed-point representation.
    pub fn new(raw: u64) -> (r: Rate)
        ensures
            r.raw == raw,
    {
        Rate { raw }
    }

    /// Whether this rate, read as a vertex's self-aggregate, signals an
    /// arbitrage cycle: strictly between zero and the identity, some chain
    /// of conversions returns to its start below the neutral rate.
    pub fn signals_arbitrage(&self) -> (b: bool)
        ensures
            b == (0 < self.raw && self.raw < RATE_SCALE),
    {
        0 < self.raw && self.raw < RATE_SCALE
    }
}

impl Weight for Rate {
    open spec fn one_spec() -> Rate {
        Rate { raw: RATE_SCALE }
    }

    open spec fn mul_spec(self, rhs: Rate) -> Rate {
        let p = (self.raw * rhs.raw) / (RATE_SCALE as int);
        if p > u64::MAX as int {
            Rate { raw: u64::MAX }
        } else {
            Rate { raw: p as u64 }
        }
    }

    open spec fn lt_spec(self, rhs: Rate) -> bool {
        self.raw < rhs.raw
    }

    proof fn lemma_lt_irreflexive(a: Rate) {
    }

    proof fn lemma_lt_transitive(a: Rate, b: Rate, c: Rate) {
    }

    proof fn lemma_lt_total(a: Rate, b: Rate) {
    }

    proof fn lemma_one_identity(a: Rate) {
        assert((RATE_SCALE * a.raw) / (RATE_SCALE as int) == a.raw) by {
            vstd::arithmetic::div_mod::lemma_fundamental_div_mod_converse(
                RATE_SCALE * a.raw,
                RATE_SCALE as int,
                a.raw as int,
                0,
            );
        }
        assert((a.raw * RATE_SCALE) / (RATE_SCALE as int) == a.raw) by {
            vstd::arithmetic::div_mod::lemma_fundamental_div_mod_converse(
                a.raw * RATE_SCALE,
                RATE_SCALE as int,
                a.raw as int,
                0,
            );
        }
    }

    fn one() -> (r: Rate) {
        Rate { raw: RATE_SCALE }
    }

    fn mul(self, rhs: Rate) -> (r: Rate) {
        proof {
            assert((self.raw as int) * (rhs.raw as int) <= (u64::MAX as int) * (u64::MAX as int))
                by (nonlinear_arith)
                requires
                    self.raw <= u64::MAX,
                    rhs.raw <= u64::MAX,
            ;
        }
        let p: u128 = (self.raw as u128) * (rhs.raw as u128);
        let q: u128 = p / (RATE_SCALE as u128);
        if q > u64::MAX as u128 {
            Rate { raw: u64::MAX }
        } else {
            Rate { raw: q as u64 }
        }
    }

    fn lt(self, rhs: Rate) -> (r: bool) {
        self.raw < rhs.raw
    }
}

} // verus!
