//! Opening check of a polynomial commitment evaluated at a secret point.
use crate::field::PrimeField;
use vstd::prelude::*;

verus! {

/// Evaluations proving `p(a)`: `p(s)`, `p(a)`, the quotient at `s`, and `s - a`.
pub struct Witness<F: PrimeField> {
    pub s_eval: F,
    pub a_eval: F,
    pub q_eval: F,
    pub denominator: F,
}

impl<F: PrimeField> Witness<F> {
    /// Accepts when `q(s) (s - a) = p(s) - p(a)`.
    pub fn verify_eval(self) -> (r: bool)
        ensures
            r == ((self.q_eval.val() * self.denominator.val()) % F::modulus() == (self.s_eval.val()
                - self.a_eval.val()) % (F::modulus() as int)),
    {
        let lhs = self.q_eval.mul(&self.denominator);
        let rhs = self.s_eval.sub(&self.a_eval);
        lhs.equals(&rhs)
    }
}

} // verus!
