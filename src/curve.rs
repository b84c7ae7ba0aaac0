//! Curve points as the folding core sees them: coordinates and an identity
//! flag, and the group contract that multi-scalar multiplication relies on.
use crate::field::{Goldilocks, PrimeField};
use vstd::prelude::*;

verus! {

/// An affine point given by its coordinates; `is_identity` marks the point at infinity.
#[derive(Clone, Copy, Debug)]
pub struct Point<F: PrimeField> {
    pub x: F,
    pub y: F,
    pub is_identity: bool,
}

/// A commutative group written additively, as curve points in extended
/// coordinates form one. Each value stands for the group element `elem()`.
pub trait CurveExtended: Sized + Copy {
    type Elem;

    spec fn elem(&self) -> Self::Elem;

    /// The elements of the group among the values of `Elem`.
    spec fn valid(a: Self::Elem) -> bool;

    spec fn zero_elem() -> Self::Elem;

    spec fn add_elem(a: Self::Elem, b: Self::Elem) -> Self::Elem;

    proof fn lemma_elem_valid(x: Self)
        ensures
            Self::valid(x.elem()),
    ;

    proof fn lemma_zero_valid()
        ensures
            Self::valid(Self::zero_elem()),
    ;

    proof fn lemma_group(a: Self::Elem, b: Self::Elem, c: Self::Elem)
        requires
            Self::valid(a),
            Self::valid(b),
            Self::valid(c),
        ensures
            Self::valid(Self::zero_elem()),
            Self::valid(Self::add_elem(a, b)),
            Self::add_elem(a, Self::add_elem(b, c)) == Self::add_elem(Self::add_elem(a, b), c),
            Self::add_elem(a, b) == Self::add_elem(b, a),
            Self::add_elem(a, Self::zero_elem()) == a,
    ;

    /// The coordinates a transcript absorbs for an element: a function of the element.
    spec fn coords_of(e: Self::Elem) -> Seq<u64>;

    fn identity() -> (r: Self)
        ensures
            r.elem() == Self::zero_elem(),
    ;

    fn coordinates(&self) -> (r: Vec<u64>)
        ensures
            r@ == Self::coords_of(self.elem()),
    ;

    fn equals(&self, o: &Self) -> (r: bool)
        ensures
            r == (self.elem() == o.elem()),
    ;

    fn add(&self, o: &Self) -> (r: Self)
        ensures
            r.elem() == Self::add_elem(self.elem(), o.elem()),
    ;

    fn double(&self) -> (r: Self)
        ensures
            r.elem() == Self::add_elem(self.elem(), self.elem()),
    ;
}

/// The additive group of the field [`Goldilocks`].
#[derive(Clone, Copy, Debug)]
pub struct GoldilocksAdditive {
    pub v: Goldilocks,
}

impl CurveExtended for GoldilocksAdditive {
    type Elem = nat;

    open spec fn elem(&self) -> nat {
        self.v.val()
    }

    open spec fn valid(a: nat) -> bool {
        a < Goldilocks::modulus()
    }

    open spec fn zero_elem() -> nat {
        0
    }

    proof fn lemma_elem_valid(x: Self) {
        Goldilocks::lemma_bounds(x.v);
    }

    proof fn lemma_zero_valid() {
        Goldilocks::lemma_modulus();
    }

    open spec fn add_elem(a: nat, b: nat) -> nat {
        (a + b) % Goldilocks::modulus()
    }

    proof fn lemma_group(a: nat, b: nat, c: nat) {
        let p = Goldilocks::modulus() as int;
        Goldilocks::lemma_modulus();
        vstd::arithmetic::div_mod::lemma_add_mod_noop_right(a as int, (b + c) as int, p);
        vstd::arithmetic::div_mod::lemma_add_mod_noop(a as int, b as int, p);
        vstd::arithmetic::div_mod::lemma_add_mod_noop((a + b) as int, c as int, p);
        vstd::arithmetic::div_mod::lemma_mod_twice((a + b) as int, p);
        vstd::arithmetic::div_mod::lemma_add_mod_noop_right(c as int, (a + b) as int, p);
        assert(((a + b) % (p as nat) + c) % (p as nat) == (a + b + c) % (p as nat));
        assert((a + (b + c) % (p as nat)) % (p as nat) == (a + b + c) % (p as nat));
        vstd::arithmetic::div_mod::lemma_small_mod(a, p as nat);
    }

    open spec fn coords_of(e: nat) -> Seq<u64> {
        seq![e as u64]
    }

    fn identity() -> (r: Self) {
        GoldilocksAdditive { v: Goldilocks::zero() }
    }

    fn coordinates(&self) -> (r: Vec<u64>) {
        vec![self.v.to_u64()]
    }

    fn equals(&self, o: &Self) -> (r: bool) {
        self.v.equals(&o.v)
    }

    fn add(&self, o: &Self) -> (r: Self) {
        GoldilocksAdditive { v: self.v.add(&o.v) }
    }

    fn double(&self) -> (r: Self) {
        GoldilocksAdditive { v: self.v.add(&self.v) }
    }
}

} // verus!
