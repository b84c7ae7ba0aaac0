//! A rank-1 constraint system: wires carry field values, linear expressions
//! combine them, and each constraint asks `A(z) * B(z) = C(z)`.
use crate::field::{vals, PrimeField};
use vstd::arithmetic::div_mod::{
    lemma_add_mod_noop, lemma_mod_twice, lemma_mul_mod_noop_left, lemma_mul_mod_noop_right,
};
use vstd::prelude::*;

verus! {

/// A wire label: a public (instance) or private (witness) position.
#[derive(Clone, Copy, Debug, PartialEq, Eq, Structural, Hash)]
pub enum Wire {
    Instance(u64),
    Witness(u64),
}

impl Wire {
    /// The constant-one wire, instance position 0.
    pub fn one() -> (r: Wire)
        ensures
            r == Wire::Instance(0),
    {
        Wire::Instance(0)
    }

    /// The position, whichever kind the wire is.
    pub fn index(&self) -> (r: u64)
        ensures
            r == match *self {
                Wire::Instance(i) => i,
                Wire::Witness(i) => i,
            },
    {
        match self {
            Wire::Instance(i) => *i,
            Wire::Witness(i) => *i,
        }
    }

    /// Orders wires by position alone.
    pub fn cmp(&self, other: &Wire) -> (r: core::cmp::Ordering)
        ensures
            (r == core::cmp::Ordering::Less) == (self.index_spec() < other.index_spec()),
            (r == core::cmp::Ordering::Equal) == (self.index_spec() == other.index_spec()),
            (r == core::cmp::Ordering::Greater) == (self.index_spec() > other.index_spec()),
    {
        let a = self.index();
        let b = other.index();
        if a < b {
            core::cmp::Ordering::Less
        } else if a == b {
            core::cmp::Ordering::Equal
        } else {
            core::cmp::Ordering::Greater
        }
    }

    pub open spec fn index_spec(&self) -> u64 {
        match *self {
            Wire::Instance(i) => i,
            Wire::Witness(i) => i,
        }
    }
}

/// One term `coeff * z[wire]` of a linear expression.
#[derive(Clone, Copy, Debug)]
pub struct Term<F: PrimeField> {
    pub wire: usize,
    pub coeff: F,
}

/// A linear expression `constant + sum(coeff * z[wire])`.
#[derive(Clone, Debug)]
pub struct Expression<F: PrimeField> {
    pub terms: Vec<Term<F>>,
    pub constant: F,
}

/// A constraint `a(z) * b(z) = c(z)`.
#[derive(Clone, Debug)]
pub struct Constraint<F: PrimeField> {
    pub a: Expression<F>,
    pub b: Expression<F>,
    pub c: Expression<F>,
}

/// Wire values together with the constraints over them.
pub struct ConstraintSystem<F: PrimeField> {
    pub wire_values: Vec<F>,
    pub constraints: Vec<Constraint<F>>,
}

/// `sum(coeff * w[wire])` over the terms, as an integer.
pub open spec fn term_sum<F: PrimeField>(ts: Seq<Term<F>>, w: Seq<nat>) -> nat
    decreases ts.len(),
{
    if ts.len() == 0 {
        0
    } else {
        term_sum(ts.drop_last(), w) + ts.last().coeff.val() * w[ts.last().wire as int]
    }
}

/// Value of an expression under the wire values `w`.
pub open spec fn eval<F: PrimeField>(e: Expression<F>, w: Seq<nat>) -> nat {
    (e.constant.val() + term_sum(e.terms@, w)) % F::modulus()
}

/// Every wire of the expression is below `n`.
pub open spec fn wires_below<F: PrimeField>(e: Expression<F>, n: nat) -> bool {
    forall|i: int| 0 <= i < e.terms@.len() ==> (#[trigger] e.terms@[i]).wire < n
}

/// The constraint holds under `w`.
pub open spec fn holds<F: PrimeField>(c: Constraint<F>, w: Seq<nat>) -> bool {
    (eval(c.a, w) * eval(c.b, w)) % F::modulus() == eval(c.c, w)
}

pub open spec fn constraint_wires_below<F: PrimeField>(c: Constraint<F>, n: nat) -> bool {
    wires_below(c.a, n) && wires_below(c.b, n) && wires_below(c.c, n)
}

/// Two wire assignments agree on the first `n` wires.
pub open spec fn agree_below(w1: Seq<nat>, w2: Seq<nat>, n: nat) -> bool {
    n <= w1.len() && n <= w2.len() && forall|i: int| 0 <= i < n ==> #[trigger] w1[i] == w2[i]
}

pub proof fn lemma_term_sum_agree<F: PrimeField>(ts: Seq<Term<F>>, w1: Seq<nat>, w2: Seq<nat>, n: nat)
    requires
        agree_below(w1, w2, n),
        forall|i: int| 0 <= i < ts.len() ==> (#[trigger] ts[i]).wire < n,
    ensures
        term_sum(ts, w1) == term_sum(ts, w2),
    decreases ts.len(),
{
    if ts.len() > 0 {
        let l = ts.last();
        assert(l == ts[ts.len() - 1]);
        lemma_term_sum_agree(ts.drop_last(), w1, w2, n);
    }
}

/// Values of expressions whose wires are below `n` depend only on the first `n` wires.
pub proof fn lemma_eval_agree<F: PrimeField>(e: Expression<F>, w1: Seq<nat>, w2: Seq<nat>, n: nat)
    requires
        agree_below(w1, w2, n),
        wires_below(e, n),
    ensures
        eval(e, w1) == eval(e, w2),
{
    lemma_term_sum_agree(e.terms@, w1, w2, n);
}

pub proof fn lemma_term_sum_concat<F: PrimeField>(a: Seq<Term<F>>, b: Seq<Term<F>>, w: Seq<nat>)
    ensures
        term_sum(a + b, w) == term_sum(a, w) + term_sum(b, w),
    decreases b.len(),
{
    if b.len() == 0 {
        assert(a + b =~= a);
    } else {
        assert((a + b).drop_last() =~= a + b.drop_last());
        assert((a + b).last() == b.last());
        lemma_term_sum_concat(a, b.drop_last(), w);
    }
}

/// Scaling every coefficient by `c` scales the sum by `c`, modulo `p`.
pub proof fn lemma_term_sum_scale<F: PrimeField>(ts: Seq<Term<F>>, sc: Seq<Term<F>>, c: nat, w: Seq<nat>)
    requires
        ts.len() == sc.len(),
        forall|i: int|
            0 <= i < ts.len() ==> (#[trigger] sc[i]).wire == ts[i].wire && sc[i].coeff.val() == (
            ts[i].coeff.val() * c) % F::modulus(),
    ensures
        term_sum(sc, w) % F::modulus() == (c * term_sum(ts, w)) % F::modulus(),
    decreases ts.len(),
{
    let p = F::modulus();
    F::lemma_modulus();
    if ts.len() > 0 {
        let n = ts.len() - 1;
        assert(sc[n] == sc.last());
        assert(ts[n] == ts.last());
        assert forall|i: int| 0 <= i < ts.drop_last().len() implies (#[trigger] sc.drop_last()[i]).wire
            == ts.drop_last()[i].wire && sc.drop_last()[i].coeff.val() == (ts.drop_last()[i].coeff.val()
            * c) % p by {
            assert(sc.drop_last()[i] == sc[i]);
            assert(ts.drop_last()[i] == ts[i]);
        }
        lemma_term_sum_scale(ts.drop_last(), sc.drop_last(), c, w);
        let s0 = term_sum(sc.drop_last(), w);
        let t0 = term_sum(ts.drop_last(), w);
        let a = ts.last().coeff.val();
        let x = w[ts.last().wire as int];
        let ac = a * c;
        let acx = ac * x;
        assert(term_sum(sc, w) == s0 + (ac % p) * x);
        assert(term_sum(ts, w) == t0 + a * x);
        lemma_add_mod_noop(s0 as int, ((ac % p) * x) as int, p as int);
        lemma_mul_mod_noop_left(ac as int, x as int, p as int);
        lemma_add_mod_noop((c * t0) as int, acx as int, p as int);
        assert(c * (t0 + a * x) == c * t0 + acx) by (nonlinear_arith)
            requires
                acx == ac * x,
                ac == a * c,
        ;
        assert(((ac % p) * x) % p == acx % p);
        assert(s0 % p == (c * t0) % p);
        assert((s0 + (ac % p) * x) % p == ((c * t0) % p + acx % p) % p);
        assert((s0 + (ac % p) * x) % p == (c * t0 + acx) % p);
    } else {
        assert(c * 0 == 0);
    }
}

/// The values of the wires as integers.
pub open spec fn wire_vals<F: PrimeField>(cs: &ConstraintSystem<F>) -> Seq<nat> {
    vals(cs.wire_values@)
}

impl<F: PrimeField> Expression<F> {
    /// The expression's value under the system's wires.
    pub open spec fn value(&self, cs: &ConstraintSystem<F>) -> nat {
        eval(*self, wire_vals(cs))
    }

    /// A constant expression.
    pub fn constant(c: &F) -> (r: Self)
        ensures
            r.terms@.len() == 0,
            r.constant.val() == c.val(),
            forall|w: Seq<nat>| #[trigger] eval(r, w) == c.val(),
            forall|n: nat| #[trigger] wires_below(r, n),
    {
        let r = Expression { terms: Vec::new(), constant: *c };
        proof {
            F::lemma_bounds(*c);
            assert forall|w: Seq<nat>| #[trigger] eval(r, w) == c.val() by {
                vstd::arithmetic::div_mod::lemma_small_mod(c.val(), F::modulus());
            }
        }
        r
    }

    /// A copy with the same terms and constant.
    pub fn duplicate(&self) -> (r: Self)
        ensures
            r.terms@ == self.terms@,
            r.constant == self.constant,
            forall|w: Seq<nat>| #[trigger] eval(r, w) == eval(*self, w),
            forall|n: nat| #[trigger] wires_below(r, n) == wires_below(*self, n),
    {
        let mut terms: Vec<Term<F>> = Vec::new();
        let mut k: usize = 0;
        while k < self.terms.len()
            invariant
                k <= self.terms@.len(),
                terms@ =~= self.terms@.subrange(0, k as int),
            decreases self.terms@.len() - k,
        {
            terms.push(self.terms[k]);
            proof {
                assert(self.terms@.subrange(0, k + 1) =~= self.terms@.subrange(0, k as int).push(
                    self.terms@[k as int],
                ));
            }
            k = k + 1;
        }
        proof {
            assert(self.terms@.subrange(0, self.terms@.len() as int) =~= self.terms@);
        }
        let r = Expression { terms, constant: self.constant };
        proof {
            assert(r.terms@ == self.terms@);
            assert forall|n: nat| #[trigger] wires_below(r, n) == wires_below(*self, n) by {
                if wires_below(*self, n) {
                    assert forall|i: int| 0 <= i < r.terms@.len() implies (#[trigger] r.terms@[i]).wire < n by {
                        assert(r.terms@[i] == self.terms@[i]);
                    }
                }
                if wires_below(r, n) {
                    assert forall|i: int| 0 <= i < self.terms@.len() implies (#[trigger] self.terms@[i]).wire < n by {
                        assert(r.terms@[i] == self.terms@[i]);
                    }
                }
            }
        }
        r
    }

    /// The constant, if the expression has no terms.
    pub fn as_constant(&self) -> (r: Option<F>)
        ensures
            r is Some <==> self.terms@.len() == 0,
            r matches Some(c) ==> c == self.constant,
    {
        if self.terms.len() == 0 {
            Some(self.constant)
        } else {
            None
        }
    }

    /// `self + o`.
    pub fn add(&self, o: &Self) -> (r: Self)
        ensures
            forall|w: Seq<nat>| #[trigger] eval(r, w) == (eval(*self, w) + eval(*o, w)) % F::modulus(),
            forall|n: nat| wires_below(*self, n) && wires_below(*o, n) ==> #[trigger] wires_below(r, n),
            r.terms@.len() == self.terms@.len() + o.terms@.len(),
    {
        let mut terms: Vec<Term<F>> = Vec::new();
        let mut k: usize = 0;
        while k < self.terms.len()
            invariant
                k <= self.terms@.len(),
                terms@ =~= self.terms@.subrange(0, k as int),
            decreases self.terms@.len() - k,
        {
            terms.push(self.terms[k]);
            proof {
                assert(self.terms@.subrange(0, k + 1) =~= self.terms@.subrange(0, k as int).push(
                    self.terms@[k as int],
                ));
            }
            k = k + 1;
        }
        proof {
            assert(self.terms@.subrange(0, self.terms@.len() as int) =~= self.terms@);
        }
        let mut i: usize = 0;
        while i < o.terms.len()
            invariant
                i <= o.terms@.len(),
                terms@ =~= self.terms@ + o.terms@.subrange(0, i as int),
            decreases o.terms@.len() - i,
        {
            terms.push(o.terms[i]);
            proof {
                assert(o.terms@.subrange(0, i + 1) =~= o.terms@.subrange(0, i as int).push(o.terms@[i as int]));
            }
            i = i + 1;
        }
        let constant = self.constant.add(&o.constant);
        let r = Expression { terms, constant };
        proof {
            assert(o.terms@.subrange(0, o.terms@.len() as int) =~= o.terms@);
            let p = F::modulus();
            F::lemma_bounds(self.constant);
            assert forall|w: Seq<nat>| #[trigger] eval(r, w) == (eval(*self, w) + eval(*o, w)) % p by {
                lemma_term_sum_concat(self.terms@, o.terms@, w);
                let ca = self.constant.val();
                let cb = o.constant.val();
                let sa = term_sum(self.terms@, w);
                let sb = term_sum(o.terms@, w);
                lemma_add_mod_noop((ca + cb) as int, (sa + sb) as int, p as int);
                lemma_mod_twice((ca + cb) as int, p as int);
                lemma_add_mod_noop((ca + sa) as int, (cb + sb) as int, p as int);
                assert((ca + cb) + (sa + sb) == (ca + sa) + (cb + sb));
                lemma_add_mod_noop(((ca + cb) % p) as int, (sa + sb) as int, p as int);
            }
            assert forall|n: nat| wires_below(*self, n) && wires_below(*o, n) implies #[trigger] wires_below(r, n) by {
                assert forall|i: int| 0 <= i < r.terms@.len() implies (#[trigger] r.terms@[i]).wire < n by {
                    if i >= self.terms@.len() {
                        assert(r.terms@[i] == o.terms@[i - self.terms@.len()]);
                    }
                }
            }
        }
        r
    }

    /// `self * c`.
    pub fn scale(&self, c: &F) -> (r: Self)
        ensures
            forall|w: Seq<nat>| #[trigger] eval(r, w) == (eval(*self, w) * c.val()) % F::modulus(),
            forall|n: nat| wires_below(*self, n) ==> #[trigger] wires_below(r, n),
            r.terms@.len() == self.terms@.len(),
    {
        let mut terms: Vec<Term<F>> = Vec::new();
        let mut i: usize = 0;
        while i < self.terms.len()
            invariant
                i <= self.terms@.len(),
                terms@.len() == i,
                forall|j: int|
                    0 <= j < i ==> (#[trigger] terms@[j]).wire == self.terms@[j].wire
                        && terms@[j].coeff.val() == (self.terms@[j].coeff.val() * c.val()) % F::modulus(),
            decreases self.terms@.len() - i,
        {
            let t = self.terms[i];
            terms.push(Term { wire: t.wire, coeff: t.coeff.mul(c) });
            i = i + 1;
        }
        let constant = self.constant.mul(c);
        let r = Expression { terms, constant };
        proof {
            let p = F::modulus();
            F::lemma_bounds(*c);
            assert forall|w: Seq<nat>| #[trigger] eval(r, w) == (eval(*self, w) * c.val()) % p by {
                lemma_term_sum_scale(self.terms@, r.terms@, c.val(), w);
                let k = self.constant.val();
                let s = term_sum(self.terms@, w);
                let cv = c.val();
                // ((k c) mod p + s') mod p == (k c + c s) mod p == ((k + s) mod p) c mod p
                lemma_add_mod_noop(((k * cv) % p) as int, term_sum(r.terms@, w) as int, p as int);
                lemma_mod_twice((k * cv) as int, p as int);
                lemma_add_mod_noop((k * cv) as int, (cv * s) as int, p as int);
                lemma_mod_twice((cv * s) as int, p as int);
                assert(k * cv + cv * s == (k + s) * cv) by (nonlinear_arith);
                lemma_mul_mod_noop_left((k + s) as int, cv as int, p as int);
            }
        }
        r
    }
}

/// `((k + s) mod p + t mod p) mod p == (k + s + t) mod p`.
pub proof fn lemma_mod_acc(k: nat, s: nat, t: nat, p: nat)
    requires
        p > 0,
    ensures
        ((k + s) % p + t % p) % p == (k + s + t) % p,
{
    lemma_add_mod_noop((k + s) as int, t as int, p as int);
}

/// Constraints whose wires lie below `n` keep holding when the first `n` wires are kept.
pub proof fn lemma_constraints_agree<F: PrimeField>(cs: Seq<Constraint<F>>, w1: Seq<nat>, w2: Seq<nat>, n: nat)
    requires
        agree_below(w1, w2, n),
        forall|k: int| 0 <= k < cs.len() ==> constraint_wires_below(#[trigger] cs[k], n),
    ensures
        forall|k: int| 0 <= k < cs.len() ==> (holds(#[trigger] cs[k], w1) <==> holds(cs[k], w2)),
{
    assert forall|k: int| 0 <= k < cs.len() implies (holds(#[trigger] cs[k], w1) <==> holds(cs[k], w2)) by {
        lemma_eval_agree(cs[k].a, w1, w2, n);
        lemma_eval_agree(cs[k].b, w1, w2, n);
        lemma_eval_agree(cs[k].c, w1, w2, n);
    }
}

/// An expression over kept wires keeps its value when the system grows.
pub proof fn lemma_value_kept<F: PrimeField>(e: Expression<F>, old_cs: &ConstraintSystem<F>, new_cs: &ConstraintSystem<F>)
    requires
        new_cs.extends(old_cs),
        wires_below(e, old_cs.num_wires()),
    ensures
        e.value(new_cs) == e.value(old_cs),
        wires_below(e, new_cs.num_wires()),
{
    let n = old_cs.num_wires();
    assert forall|i: int| 0 <= i < n implies #[trigger] wire_vals(old_cs)[i] == wire_vals(new_cs)[i] by {
        assert(new_cs.wire_values@.subrange(0, n as int)[i] == new_cs.wire_values@[i]);
    }
    lemma_eval_agree(e, wire_vals(old_cs), wire_vals(new_cs), n);
}

/// Growing a system is transitive.
pub proof fn lemma_extends_trans<F: PrimeField>(a: &ConstraintSystem<F>, b: &ConstraintSystem<F>, c: &ConstraintSystem<F>)
    requires
        b.extends(a),
        c.extends(b),
    ensures
        c.extends(a),
{
    assert(c.wire_values@.subrange(0, a.wire_values@.len() as int) =~= b.wire_values@.subrange(0, a.wire_values@.len() as int));
    assert(c.constraints@.subrange(0, a.constraints@.len() as int) =~= b.constraints@.subrange(0, a.constraints@.len() as int));
}

impl<F: PrimeField> ConstraintSystem<F> {
    /// Every constraint refers only to allocated wires.
    pub open spec fn wf(&self) -> bool {
        forall|k: int|
            0 <= k < self.constraints@.len() ==> constraint_wires_below(
                #[trigger] self.constraints@[k],
                self.wire_values@.len() as nat,
            )
    }

    /// Every constraint holds under the current wire values.
    pub open spec fn satisfied(&self) -> bool {
        forall|k: int| 0 <= k < self.constraints@.len() ==> holds(#[trigger] self.constraints@[k], wire_vals(self))
    }

    /// `self` keeps the wires and constraints of `old` as prefixes.
    pub open spec fn extends(&self, old: &Self) -> bool {
        &&& old.wire_values@.len() <= self.wire_values@.len()
        &&& self.wire_values@.subrange(0, old.wire_values@.len() as int) == old.wire_values@
        &&& old.constraints@.len() <= self.constraints@.len()
        &&& self.constraints@.subrange(0, old.constraints@.len() as int) == old.constraints@
    }

    /// Number of allocated wires.
    pub open spec fn num_wires(&self) -> nat {
        self.wire_values@.len() as nat
    }

    /// An empty system.
    pub fn new() -> (r: Self)
        ensures
            r.wf(),
            r.satisfied(),
            r.wire_values@.len() == 0,
            r.constraints@.len() == 0,
    {
        ConstraintSystem { wire_values: Vec::new(), constraints: Vec::new() }
    }

    /// Allocates a wire holding `v` and returns it as an expression.
    pub fn alloc_public(&mut self, v: F) -> (r: Expression<F>)
        requires
            old(self).wf(),
        ensures
            final(self).wf(),
            final(self).wire_values@ == old(self).wire_values@.push(v),
            final(self).constraints@ == old(self).constraints@,
            final(self).satisfied() == old(self).satisfied(),
            r.value(final(self)) == v.val(),
            wires_below(r, final(self).num_wires()),
            r.terms@.len() == 1,
    {
        let idx = self.wire_values.len();
        self.wire_values.push(v);
        let mut terms: Vec<Term<F>> = Vec::new();
        terms.push(Term { wire: idx, coeff: F::one() });
        let r = Expression { terms, constant: F::zero() };
        proof {
            let w0 = vals(old(self).wire_values@);
            let w1 = wire_vals(self);
            assert(agree_below(w0, w1, idx as nat));
            lemma_constraints_agree(self.constraints@, w0, w1, idx as nat);
            assert(r.terms@.drop_last() =~= Seq::<Term<F>>::empty());
            assert(w1[idx as int] == v.val());
            assert(r.terms@.last().wire == idx);
            assert(r.terms@.last().coeff.val() == 1);
            assert(term_sum(r.terms@, w1) == term_sum(r.terms@.drop_last(), w1) + 1 * w1[idx as int]);
            assert(term_sum(r.terms@, w1) == v.val());
            F::lemma_bounds(v);
            vstd::arithmetic::div_mod::lemma_small_mod(v.val(), F::modulus());
        }
        r
    }

    /// Adds the constraint `a * b = c`.
    pub fn assert_product(&mut self, a: Expression<F>, b: Expression<F>, c: Expression<F>)
        requires
            old(self).wf(),
            wires_below(a, old(self).num_wires()),
            wires_below(b, old(self).num_wires()),
            wires_below(c, old(self).num_wires()),
        ensures
            final(self).wf(),
            final(self).wire_values@ == old(self).wire_values@,
            final(self).constraints@ == old(self).constraints@.push(Constraint { a, b, c }),
            final(self).satisfied() == (old(self).satisfied() && (a.value(old(self)) * b.value(
                old(self),
            )) % F::modulus() == c.value(old(self))),
    {
        let ghost k = Constraint { a, b, c };
        self.constraints.push(Constraint { a, b, c });
        proof {
            let n = old(self).constraints@.len();
            assert(self.constraints@[n as int] == k);
            if self.satisfied() {
                assert forall|j: int| 0 <= j < n implies holds(
                    #[trigger] old(self).constraints@[j],
                    wire_vals(old(self)),
                ) by {
                    assert(self.constraints@[j] == old(self).constraints@[j]);
                }
            }
            if old(self).satisfied() && holds(k, wire_vals(self)) {
                assert forall|j: int| 0 <= j < self.constraints@.len() implies holds(
                    #[trigger] self.constraints@[j],
                    wire_vals(self),
                ) by {
                    if j < n {
                        assert(self.constraints@[j] == old(self).constraints@[j]);
                    }
                }
            }
            assert forall|j: int| 0 <= j < self.constraints@.len() implies constraint_wires_below(
                #[trigger] self.constraints@[j],
                self.wire_values@.len() as nat,
            ) by {
                if j < n {
                    assert(self.constraints@[j] == old(self).constraints@[j]);
                }
            }
        }
    }

    /// The value of `e` under the current wires.
    pub fn evaluate(&self, e: &Expression<F>) -> (r: F)
        requires
            wires_below(*e, self.num_wires()),
        ensures
            r.val() == e.value(self),
    {
        let ghost w = wire_vals(self);
        let ghost p = F::modulus();
        proof {
            F::lemma_modulus();
            F::lemma_bounds(e.constant);
            vstd::arithmetic::div_mod::lemma_small_mod(e.constant.val(), p);
            assert(e.terms@.subrange(0, 0) =~= Seq::<Term<F>>::empty());
        }
        let mut acc = e.constant;
        let mut i: usize = 0;
        while i < e.terms.len()
            invariant
                w == wire_vals(self),
                p == F::modulus(),
                p > 0,
                i <= e.terms@.len(),
                wires_below(*e, self.num_wires()),
                acc.val() == (e.constant.val() + term_sum(e.terms@.subrange(0, i as int), w)) % p,
            decreases e.terms@.len() - i,
        {
            let t = e.terms[i];
            assert(e.terms@[i as int].wire < self.num_wires());
            let z = self.wire_values[t.wire];
            let prod = t.coeff.mul(&z);
            let next = acc.add(&prod);
            proof {
                let pre = e.terms@.subrange(0, i + 1);
                assert(pre.drop_last() =~= e.terms@.subrange(0, i as int));
                assert(pre.last() == t);
                assert(w[t.wire as int] == z.val());
                lemma_mod_acc(
                    e.constant.val(),
                    term_sum(e.terms@.subrange(0, i as int), w),
                    t.coeff.val() * z.val(),
                    p,
                );
                lemma_add_mod_noop(
                    ((e.constant.val() + term_sum(e.terms@.subrange(0, i as int), w)) % p) as int,
                    ((t.coeff.val() * z.val()) % p) as int,
                    p as int,
                );
                lemma_mod_twice(
                    (e.constant.val() + term_sum(e.terms@.subrange(0, i as int), w)) as int,
                    p as int,
                );
                lemma_mod_twice((t.coeff.val() * z.val()) as int, p as int);
            }
            acc = next;
            i = i + 1;
        }
        proof {
            assert(e.terms@.subrange(0, e.terms@.len() as int) =~= e.terms@);
        }
        acc
    }

    /// `x * y`: scales when either side is constant, otherwise allocates the
    /// product on a new wire and constrains it.
    pub fn product(&mut self, x: &Expression<F>, y: &Expression<F>) -> (r: Expression<F>)
        requires
            old(self).wf(),
            wires_below(*x, old(self).num_wires()),
            wires_below(*y, old(self).num_wires()),
        ensures
            final(self).wf(),
            final(self).extends(old(self)),
            old(self).satisfied() ==> final(self).satisfied(),
            r.value(final(self)) == (x.value(old(self)) * y.value(old(self))) % F::modulus(),
            wires_below(r, final(self).num_wires()),
            x.terms@.len() == 0 || y.terms@.len() == 0 ==> final(self).wire_values@ == old(self).wire_values@
                && final(self).constraints@ == old(self).constraints@,
            x.terms@.len() == 0 ==> r.terms@.len() == y.terms@.len(),
            x.terms@.len() > 0 && y.terms@.len() == 0 ==> r.terms@.len() == x.terms@.len(),
            x.terms@.len() > 0 && y.terms@.len() > 0 ==> final(self).wire_values@.len() == old(self).wire_values@.len() + 1
                && final(self).constraints@.len() == old(self).constraints@.len() + 1 && r.terms@.len() == 1,
    {
        proof {
            F::lemma_modulus();
            assert(self.wire_values@.subrange(0, self.wire_values@.len() as int) =~= self.wire_values@);
            assert(self.constraints@.subrange(0, self.constraints@.len() as int) =~= self.constraints@);
        }
        if let Some(c) = x.as_constant() {
            proof {
                F::lemma_bounds(c);
                vstd::arithmetic::div_mod::lemma_small_mod(c.val(), F::modulus());
                assert(term_sum(x.terms@, wire_vals(self)) == 0);
                assert(x.value(self) == c.val());
                let yv = y.value(self);
                assert(yv * c.val() == c.val() * yv) by (nonlinear_arith);
            }
            return y.scale(&c);
        }
        if let Some(c) = y.as_constant() {
            proof {
                F::lemma_bounds(c);
                vstd::arithmetic::div_mod::lemma_small_mod(c.val(), F::modulus());
                assert(term_sum(y.terms@, wire_vals(self)) == 0);
            }
            return x.scale(&c);
        }
        let xv = self.evaluate(x);
        let yv = self.evaluate(y);
        let pv = xv.mul(&yv);
        let ghost w0 = wire_vals(self);
        let ghost n0 = self.num_wires();
        let prod = self.alloc_public(pv);
        proof {
            assert(agree_below(w0, wire_vals(self), n0));
            lemma_eval_agree(*x, w0, wire_vals(self), n0);
            lemma_eval_agree(*y, w0, wire_vals(self), n0);
            assert(wires_below(*x, self.num_wires()));
            assert(wires_below(*y, self.num_wires()));
        }
        self.assert_product(x.duplicate(), y.duplicate(), prod.duplicate());
        proof {
            assert(self.wire_values@.subrange(0, old(self).wire_values@.len() as int) =~= old(self).wire_values@);
            assert(self.constraints@.subrange(0, old(self).constraints@.len() as int) =~= old(self).constraints@);
        }
        prod
    }

    /// `1 / x` on a new wire, constrained by `x * (1 / x) = 1`; `None`, with the
    /// system unchanged, when `x` has no inverse.
    pub fn inverse(&mut self, x: &Expression<F>) -> (r: Option<Expression<F>>)
        requires
            old(self).wf(),
            wires_below(*x, old(self).num_wires()),
        ensures
            final(self).wf(),
            final(self).extends(old(self)),
            old(self).satisfied() ==> final(self).satisfied(),
            x.value(old(self)) == 0 ==> r is None,
            r is None ==> final(self).wire_values@ == old(self).wire_values@
                && final(self).constraints@ == old(self).constraints@,
            r matches Some(e) ==> (x.value(old(self)) * e.value(final(self))) % F::modulus() == 1
                && wires_below(e, final(self).num_wires()),
    {
        proof {
            F::lemma_modulus();
            assert(self.wire_values@.subrange(0, self.wire_values@.len() as int) =~= self.wire_values@);
            assert(self.constraints@.subrange(0, self.constraints@.len() as int) =~= self.constraints@);
        }
        let xv = self.evaluate(x);
        match xv.invert() {
            None => None,
            Some(inv) => {
                let ghost w0 = wire_vals(self);
                let ghost n0 = self.num_wires();
                let e = self.alloc_public(inv);
                proof {
                    assert(agree_below(w0, wire_vals(self), n0));
                    lemma_eval_agree(*x, w0, wire_vals(self), n0);
                    assert(wires_below(*x, self.num_wires()));
                }
                let one = F::one();
                let c = Expression::constant(&one);
                self.assert_product(x.duplicate(), e.duplicate(), c);
                proof {
                    assert(self.wire_values@.subrange(0, old(self).wire_values@.len() as int) =~= old(self).wire_values@);
                    assert(self.constraints@.subrange(0, old(self).constraints@.len() as int) =~= old(self).constraints@);
                }
                Some(e)
            },
        }
    }

    /// Constrains `x` to equal the constant `c`.
    pub fn enforce_eq_constant(&mut self, x: &Expression<F>, c: &F)
        requires
            old(self).wf(),
            wires_below(*x, old(self).num_wires()),
        ensures
            final(self).wf(),
            final(self).wire_values@ == old(self).wire_values@,
            final(self).constraints@.len() == old(self).constraints@.len() + 1,
            final(self).extends(old(self)),
            final(self).satisfied() == (old(self).satisfied() && x.value(old(self)) == c.val()),
    {
        let one = F::one();
        let b = Expression::constant(&one);
        let k = Expression::constant(c);
        proof {
            F::lemma_modulus();
            let v = x.value(self);
            assert(v < F::modulus());
            vstd::arithmetic::div_mod::lemma_small_mod(v, F::modulus());
            assert(v * 1 == v);
        }
        self.assert_product(x.duplicate(), b, k);
        proof {
            assert(self.wire_values@.subrange(0, old(self).wire_values@.len() as int) =~= old(self).wire_values@);
            assert(self.constraints@.subrange(0, old(self).constraints@.len() as int) =~= old(self).constraints@);
        }
    }

    /// Whether every constraint holds.
    pub fn is_sat(&self) -> (r: bool)
        requires
            self.wf(),
        ensures
            r == self.satisfied(),
    {
        let mut k: usize = 0;
        while k < self.constraints.len()
            invariant
                self.wf(),
                k <= self.constraints@.len(),
                forall|j: int| 0 <= j < k ==> holds(#[trigger] self.constraints@[j], wire_vals(self)),
            decreases self.constraints@.len() - k,
        {
            let ghost ck = self.constraints@[k as int];
            assert(constraint_wires_below(ck, self.num_wires()));
            let a = self.evaluate(&self.constraints[k].a);
            let b = self.evaluate(&self.constraints[k].b);
            let c = self.evaluate(&self.constraints[k].c);
            let ab = a.mul(&b);
            if !ab.equals(&c) {
                return false;
            }
            k = k + 1;
        }
        true
    }
}

} // verus!
