//! Circuit gadgets: bits, the select combinator, point and BigNat assignments.
use crate::bignat::{f_to_nat, limb_nats, limb_value, BN_LIMB_BASE, BN_LIMB_BYTES, BN_N_LIMBS};
use crate::circuit::{all_wires_below, values, PointAssignment};
use crate::curve::Point;
use crate::field::PrimeField;
use crate::r1cs::{eval, lemma_extends_trans, lemma_value_kept, wire_vals, wires_below, ConstraintSystem, Expression};
use vstd::arithmetic::div_mod::{lemma_add_mod_noop, lemma_mod_multiples_vanish, lemma_mod_twice, lemma_small_mod};
use vstd::prelude::*;

verus! {

/// `p - 1`, the field element `-1`.
pub fn minus_one<F: PrimeField>() -> (r: F)
    ensures
        r.val() == F::modulus() - 1,
{
    let z = F::zero();
    let o = F::one();
    proof {
        F::lemma_modulus();
        let p = F::modulus() as int;
        lemma_mod_multiples_vanish(1, -1, p);
        lemma_small_mod((p - 1) as nat, p as nat);
    }
    z.sub(&o)
}

/// `(b + ((a + b (p - 1)) mod p)) mod p == a` for `a < p`.
proof fn lemma_select_one(a: nat, b: nat, p: nat)
    requires
        p > 1,
        a < p,
    ensures
        (b + (a + (b * (p - 1) as nat) % p) % p) % p == a,
{
    let q = (p - 1) as nat;
    let y = a + (b * q) % p;
    vstd::arithmetic::div_mod::lemma_add_mod_noop_right(b as int, y as int, p as int);
    assert((b + y) == (b + a) + (b * q) % p);
    vstd::arithmetic::div_mod::lemma_add_mod_noop_right((b + a) as int, (b * q) as int, p as int);
    assert(b + a + b * q == p * b + a) by (nonlinear_arith)
        requires
            q == p - 1,
    ;
    lemma_mod_multiples_vanish(b as int, a as int, p as int);
    lemma_small_mod(a, p);
}

/// A wire constrained to hold 0 or 1.
pub struct BinaryAssignment<F: PrimeField> {
    pub e: Expression<F>,
}

impl<F: PrimeField> BinaryAssignment<F> {
    /// Allocates `b` as 0 or 1 and constrains `e * (e - 1) = 0`.
    pub fn witness(cs: &mut ConstraintSystem<F>, b: bool) -> (r: Self)
        requires
            old(cs).wf(),
        ensures
            final(cs).wf(),
            final(cs).extends(old(cs)),
            old(cs).satisfied() ==> final(cs).satisfied(),
            wires_below(r.e, final(cs).num_wires()),
            r.e.value(final(cs)) == (if b { 1nat } else { 0nat }),
    {
        proof {
            F::lemma_modulus();
        }
        let v = if b {
            F::one()
        } else {
            F::zero()
        };
        let e = cs.alloc_public(v);
        let ghost cs1 = *cs;
        let m = minus_one::<F>();
        let em1 = e.add(&Expression::constant(&m));
        let zero = F::zero();
        proof {
            let p = F::modulus();
            assert(e.value(cs) == v.val());
            if b {
                assert(em1.value(cs) == ((1 + (p - 1)) as nat) % p);
                lemma_mod_multiples_vanish(1, 0, p as int);
                assert(em1.value(cs) == 0);
                assert((e.value(cs) * em1.value(cs)) % p == 0);
            } else {
                lemma_small_mod((p - 1) as nat, p);
                assert(e.value(cs) == 0);
                assert(e.value(cs) * em1.value(cs) == 0);
                lemma_small_mod(0, p);
            }
            assert(cs.wire_values@.subrange(0, cs.wire_values@.len() as int) =~= cs.wire_values@);
            assert(cs.constraints@.subrange(0, cs.constraints@.len() as int) =~= cs.constraints@);
        }
        cs.assert_product(e.duplicate(), em1, Expression::constant(&zero));
        proof {
            assert(cs.wire_values@.subrange(0, old(cs).wire_values@.len() as int) =~= old(cs).wire_values@);
            assert(cs.constraints@.subrange(0, old(cs).constraints@.len() as int) =~= old(cs).constraints@);
        }
        BinaryAssignment { e }
    }
}

/// Wires and constraints that [`select`] adds: one when the bit and at least
/// one side are not constants. It depends on the expressions' shape alone.
pub open spec fn select_cost<F: PrimeField>(a: Expression<F>, b: Expression<F>, bit: Expression<F>) -> nat {
    if bit.terms@.len() > 0 && a.terms@.len() + b.terms@.len() > 0 {
        1
    } else {
        0
    }
}

/// [`select_cost`] summed over the first `n` limb pairs.
pub open spec fn limbs_select_cost<F: PrimeField>(a: Seq<Expression<F>>, b: Seq<Expression<F>>, bit: Expression<F>, n: nat) -> nat
    decreases n,
{
    if n == 0 {
        0
    } else {
        limbs_select_cost(a, b, bit, (n - 1) as nat) + select_cost(a[n - 1], b[n - 1], bit)
    }
}

/// [`select_cost`] summed over the three coordinates.
pub open spec fn point_select_cost<F: PrimeField>(a: &PointAssignment<F>, b: &PointAssignment<F>, bit: Expression<F>) -> nat {
    select_cost(a.x, b.x, bit) + select_cost(a.y, b.y, bit) + select_cost(a.z, b.z, bit)
}

/// `bit ? a : b` as data flow: `b + bit * (a - b)`.
pub fn select<F: PrimeField>(
    cs: &mut ConstraintSystem<F>,
    a: &Expression<F>,
    b: &Expression<F>,
    bit: &Expression<F>,
) -> (r: Expression<F>)
    requires
        old(cs).wf(),
        wires_below(*a, old(cs).num_wires()),
        wires_below(*b, old(cs).num_wires()),
        wires_below(*bit, old(cs).num_wires()),
        bit.value(old(cs)) == 0 || bit.value(old(cs)) == 1,
    ensures
        final(cs).wf(),
        final(cs).extends(old(cs)),
        old(cs).satisfied() ==> final(cs).satisfied(),
        wires_below(r, final(cs).num_wires()),
        r.value(final(cs)) == if bit.value(old(cs)) == 1 {
            a.value(old(cs))
        } else {
            b.value(old(cs))
        },
        final(cs).constraints@.len() == old(cs).constraints@.len() + select_cost(*a, *b, *bit),
        final(cs).wire_values@.len() == old(cs).wire_values@.len() + select_cost(*a, *b, *bit),
{
    proof {
        F::lemma_modulus();
    }
    let m = minus_one::<F>();
    let nb = b.scale(&m);
    let diff = a.add(&nb);
    let ghost cs0 = *cs;
    let t = cs.product(bit, &diff);
    proof {
        lemma_value_kept(*b, &cs0, cs);
    }
    let r = b.add(&t);
    proof {
        let p = F::modulus();
        let av = a.value(&cs0);
        let bv = b.value(&cs0);
        assert(av < p);
        assert(bv < p);
        let d = diff.value(&cs0);
        assert(d == (av + (bv * (p - 1) as nat) % p) % p);
        let tv = t.value(cs);
        assert(tv == (bit.value(&cs0) * d) % p);
        assert(r.value(cs) == (b.value(cs) + tv) % p);
        assert(b.value(cs) == bv);
        if bit.value(&cs0) == 1 {
            lemma_small_mod(d, p);
            assert(tv == d);
            lemma_select_one(av, bv, p);
        } else {
            assert(bit.value(&cs0) * d == 0);
            lemma_small_mod(0, p);
            assert(tv == 0);
            lemma_small_mod(bv, p);
        }
    }
    r
}

/// The coordinates a point is hashed with once its scaling is removed:
/// `(0, 1, 0)` for the identity, `(x, y, 1)` otherwise.
pub open spec fn descaled<F: PrimeField>(pt: Point<F>) -> Seq<nat> {
    if pt.is_identity {
        seq![0nat, 1nat, 0nat]
    } else {
        seq![pt.x.val(), pt.y.val(), 1nat]
    }
}

/// `(x, y, z)` values of a point assignment.
pub open spec fn point_values<F: PrimeField>(pa: &PointAssignment<F>, cs: &ConstraintSystem<F>) -> Seq<nat> {
    seq![pa.x.value(cs), pa.y.value(cs), pa.z.value(cs)]
}

/// The assignment carries the point's coordinates and its identity flag as `z`.
pub open spec fn represents_point<F: PrimeField>(pa: &PointAssignment<F>, pt: Point<F>, cs: &ConstraintSystem<F>) -> bool {
    &&& pa.x.value(cs) == pt.x.val()
    &&& pa.y.value(cs) == pt.y.val()
    &&& pa.z.value(cs) == if pt.is_identity { 0nat } else { 1nat }
}

/// A point assignment keeps its values when the system grows.
pub proof fn lemma_point_kept<F: PrimeField>(pa: &PointAssignment<F>, a: &ConstraintSystem<F>, b: &ConstraintSystem<F>)
    requires
        b.extends(a),
        pa.wires_below(a.num_wires()),
    ensures
        point_values(pa, b) == point_values(pa, a),
        pa.wires_below(b.num_wires()),
{
    lemma_value_kept(pa.x, a, b);
    lemma_value_kept(pa.y, a, b);
    lemma_value_kept(pa.z, a, b);
}

impl<F: PrimeField> PointAssignment<F> {
    /// Allocates the point's coordinates and identity flag.
    pub fn witness(cs: &mut ConstraintSystem<F>, point: &Point<F>) -> (r: Self)
        requires
            old(cs).wf(),
        ensures
            final(cs).wf(),
            final(cs).extends(old(cs)),
            old(cs).satisfied() ==> final(cs).satisfied(),
            r.wires_below(final(cs).num_wires()),
            represents_point(&r, *point, final(cs)),
    {
        let cs0 = Ghost(*cs);
        let x = cs.alloc_public(point.x);
        let cs1 = Ghost(*cs);
        let y = cs.alloc_public(point.y);
        let cs2 = Ghost(*cs);
        let flag = if point.is_identity {
            F::zero()
        } else {
            F::one()
        };
        let z = cs.alloc_public(flag);
        proof {
            assert(cs1@.wire_values@.subrange(0, cs0@.wire_values@.len() as int) =~= cs0@.wire_values@);
            assert(cs2@.wire_values@.subrange(0, cs1@.wire_values@.len() as int) =~= cs1@.wire_values@);
            assert(cs.wire_values@.subrange(0, cs2@.wire_values@.len() as int) =~= cs2@.wire_values@);
            assert(cs1@.constraints@.subrange(0, cs0@.constraints@.len() as int) =~= cs0@.constraints@);
            assert(cs2@.constraints@.subrange(0, cs1@.constraints@.len() as int) =~= cs1@.constraints@);
            assert(cs.constraints@.subrange(0, cs2@.constraints@.len() as int) =~= cs2@.constraints@);
            lemma_value_kept(x, &cs1@, &cs2@);
            lemma_value_kept(x, &cs2@, cs);
            lemma_value_kept(y, &cs2@, cs);
            lemma_extends_trans(&cs0@, &cs1@, &cs2@);
            lemma_extends_trans(&cs0@, &cs2@, cs);
        }
        PointAssignment { x, y, z }
    }

    /// The identity as constants `(0, 1, 0)`.
    pub fn identity() -> (r: Self)
        ensures
            forall|n: nat| #[trigger] r.wires_below(n),
            forall|w: Seq<nat>|
                #[trigger] eval(r.x, w) == 0 && eval(r.y, w) == 1 && eval(r.z, w) == 0,
    {
        let zero = F::zero();
        let one = F::one();
        PointAssignment {
            x: Expression::constant(&zero),
            y: Expression::constant(&one),
            z: Expression::constant(&zero),
        }
    }

    /// Coordinate-wise `bit ? a : b`.
    pub fn conditional_select(
        cs: &mut ConstraintSystem<F>,
        a: &Self,
        b: &Self,
        bit: &BinaryAssignment<F>,
    ) -> (r: Self)
        requires
            old(cs).wf(),
            a.wires_below(old(cs).num_wires()),
            b.wires_below(old(cs).num_wires()),
            wires_below(bit.e, old(cs).num_wires()),
            bit.e.value(old(cs)) == 0 || bit.e.value(old(cs)) == 1,
        ensures
            final(cs).wf(),
            final(cs).extends(old(cs)),
            old(cs).satisfied() ==> final(cs).satisfied(),
            r.wires_below(final(cs).num_wires()),
            point_values(&r, final(cs)) == if bit.e.value(old(cs)) == 1 {
                point_values(a, old(cs))
            } else {
                point_values(b, old(cs))
            },
            final(cs).constraints@.len() == old(cs).constraints@.len() + point_select_cost(a, b, bit.e),
            final(cs).wire_values@.len() == old(cs).wire_values@.len() + point_select_cost(a, b, bit.e),
    {
        let cs0 = Ghost(*cs);
        let x = select(cs, &a.x, &b.x, &bit.e);
        let cs1 = Ghost(*cs);
        proof {
            lemma_point_kept(a, &cs0@, &cs1@);
            lemma_point_kept(b, &cs0@, &cs1@);
            lemma_value_kept(bit.e, &cs0@, &cs1@);
        }
        let y = select(cs, &a.y, &b.y, &bit.e);
        let cs2 = Ghost(*cs);
        proof {
            lemma_point_kept(a, &cs1@, &cs2@);
            lemma_point_kept(b, &cs1@, &cs2@);
            lemma_value_kept(bit.e, &cs1@, &cs2@);
            lemma_value_kept(x, &cs1@, &cs2@);
        }
        let z = select(cs, &a.z, &b.z, &bit.e);
        proof {
            lemma_value_kept(x, &cs2@, cs);
            lemma_value_kept(y, &cs2@, cs);
            lemma_extends_trans(&cs0@, &cs1@, &cs2@);
            lemma_extends_trans(&cs0@, &cs2@, cs);
        }
        let r = PointAssignment { x, y, z };
        proof {
            assert(point_values(&r, cs) =~= if bit.e.value(&cs0@) == 1 {
                point_values(a, &cs0@)
            } else {
                point_values(b, &cs0@)
            });
        }
        r
    }

    /// Removes the scaling of the representation: `(x z, y z + 1 - z, z)`,
    /// which is `(0, 1, 0)` for the identity and the point itself otherwise.
    pub fn descale(&self, cs: &mut ConstraintSystem<F>) -> (r: Self)
        requires
            old(cs).wf(),
            self.wires_below(old(cs).num_wires()),
            self.z.value(old(cs)) == 0 || self.z.value(old(cs)) == 1,
        ensures
            final(cs).wf(),
            final(cs).extends(old(cs)),
            old(cs).satisfied() ==> final(cs).satisfied(),
            r.wires_below(final(cs).num_wires()),
            point_values(&r, final(cs)) == if self.z.value(old(cs)) == 1 {
                point_values(self, old(cs))
            } else {
                seq![0nat, 1nat, 0nat]
            },
    {
        proof {
            F::lemma_modulus();
        }
        let one = F::one();
        let zero = F::zero();
        let cs0 = Ghost(*cs);
        let zero_e = Expression::constant(&zero);
        let one_e = Expression::constant(&one);
        // x z == bit ? x : 0 and y z + 1 - z == bit ? y : 1, with bit = z.
        let x = select(cs, &self.x, &zero_e, &self.z);
        let cs1 = Ghost(*cs);
        proof {
            lemma_point_kept(self, &cs0@, &cs1@);
        }
        let y = select(cs, &self.y, &one_e, &self.z);
        proof {
            lemma_value_kept(x, &cs1@, cs);
            lemma_point_kept(self, &cs1@, cs);
            lemma_extends_trans(&cs0@, &cs1@, cs);
        }
        let r = PointAssignment { x, y, z: self.z.duplicate() };
        proof {
            assert(point_values(&r, cs) =~= if self.z.value(&cs0@) == 1 {
                point_values(self, &cs0@)
            } else {
                seq![0nat, 1nat, 0nat]
            });
        }
        r
    }
}

/// Expressions over kept wires keep their values when the system grows.
pub proof fn lemma_exprs_kept<F: PrimeField>(es: Seq<Expression<F>>, a: &ConstraintSystem<F>, b: &ConstraintSystem<F>)
    requires
        b.extends(a),
        all_wires_below(es, a.num_wires()),
    ensures
        values(es, b) == values(es, a),
        all_wires_below(es, b.num_wires()),
{
    assert forall|j: int| 0 <= j < es.len() implies #[trigger] eval(es[j], wire_vals(b)) == eval(es[j], wire_vals(a))
        && wires_below(es[j], b.num_wires()) by {
        lemma_value_kept(es[j], a, b);
    }
    assert(values(es, b) =~= values(es, a));
}

/// A foreign-field value as `BN_N_LIMBS` limb wires.
pub struct BigNatAssignment<F: PrimeField> {
    limbs: Vec<Expression<F>>,
}

impl<F: PrimeField> BigNatAssignment<F> {
    pub closed spec fn limb_exprs(&self) -> Seq<Expression<F>> {
        self.limbs@
    }

    /// Limb values under a system's wires.
    pub open spec fn limb_values(&self, cs: &ConstraintSystem<F>) -> Seq<nat> {
        values(self.limb_exprs(), cs)
    }

    pub open spec fn wires_below(&self, n: nat) -> bool {
        all_wires_below(self.limb_exprs(), n)
    }

    /// Allocates the given limbs.
    pub fn witness_from_big_int(cs: &mut ConstraintSystem<F>, limbs: &Vec<u64>) -> (r: Self)
        requires
            old(cs).wf(),
            BN_LIMB_BASE < F::modulus(),
            forall|i: int| 0 <= i < limbs@.len() ==> #[trigger] limbs@[i] < BN_LIMB_BASE,
        ensures
            final(cs).wf(),
            final(cs).extends(old(cs)),
            old(cs).satisfied() ==> final(cs).satisfied(),
            r.wires_below(final(cs).num_wires()),
            r.limb_values(final(cs)) == limb_nats(limbs@),
    {
        let mut out: Vec<Expression<F>> = Vec::new();
        let mut i: usize = 0;
        proof {
            assert(cs.wire_values@.subrange(0, cs.wire_values@.len() as int) =~= cs.wire_values@);
            assert(cs.constraints@.subrange(0, cs.constraints@.len() as int) =~= cs.constraints@);
        }
        while i < limbs.len()
            invariant
                BN_LIMB_BASE < F::modulus(),
                forall|j: int| 0 <= j < limbs@.len() ==> #[trigger] limbs@[j] < BN_LIMB_BASE,
                i <= limbs@.len(),
                out@.len() == i,
                cs.wf(),
                cs.extends(old(cs)),
                old(cs).satisfied() ==> cs.satisfied(),
                all_wires_below(out@, cs.num_wires()),
                values(out@, cs) == limb_nats(limbs@).subrange(0, i as int),
            decreases limbs@.len() - i,
        {
            let cs0 = Ghost(*cs);
            let v = F::from_u64(limbs[i]);
            let e = cs.alloc_public(v);
            proof {
                lemma_small_mod(limbs@[i as int] as nat, F::modulus());
                assert(cs.wire_values@.subrange(0, cs0@.wire_values@.len() as int) =~= cs0@.wire_values@);
                assert(cs.constraints@.subrange(0, cs0@.constraints@.len() as int) =~= cs0@.constraints@);
                lemma_extends_trans(old(cs), &cs0@, cs);
                assert forall|j: int| 0 <= j < out@.len() implies #[trigger] eval(out@[j], wire_vals(cs))
                    == eval(out@[j], wire_vals(&cs0@)) && wires_below(out@[j], cs.num_wires()) by {
                    assert(wires_below(out@[j], cs0@.num_wires()));
                    lemma_value_kept(out@[j], &cs0@, cs);
                }
            }
            let ghost before = out@;
            out.push(e);
            proof {
                assert(values(out@, cs) =~= limb_nats(limbs@).subrange(0, i + 1));
                assert forall|j: int| 0 <= j < out@.len() implies wires_below(#[trigger] out@[j], cs.num_wires()) by {
                    if j < i {
                        assert(out@[j] == before[j]);
                    }
                }
            }
            i = i + 1;
        }
        proof {
            assert(limb_nats(limbs@).subrange(0, limbs@.len() as int) =~= limb_nats(limbs@));
        }
        BigNatAssignment { limbs: out }
    }

    /// Splits the value of `fa` into limb wires and constrains
    /// `limb_0 + 2^32 limb_1 = fa`.
    pub fn witness_from_field_assignment(cs: &mut ConstraintSystem<F>, fa: &Expression<F>) -> (r: Self)
        requires
            old(cs).wf(),
            wires_below(*fa, old(cs).num_wires()),
            F::num_bytes() == BN_LIMB_BYTES * BN_N_LIMBS,
            BN_LIMB_BASE < F::modulus(),
        ensures
            final(cs).wf(),
            final(cs).extends(old(cs)),
            old(cs).satisfied() ==> final(cs).satisfied(),
            r.wires_below(final(cs).num_wires()),
            r.limb_values(final(cs)) == crate::bignat::bn_limbs(fa.value(old(cs))),
    {
        let v = cs.evaluate(fa);
        let ls = f_to_nat(&v);
        let cs0 = Ghost(*cs);
        let r = Self::witness_from_big_int(cs, &ls);
        let cs1 = Ghost(*cs);
        proof {
            lemma_value_kept(*fa, &cs0@, &cs1@);
            assert(r.limbs@.len() == 2);
            assert(wires_below(r.limbs@[0], cs.num_wires()));
            assert(wires_below(r.limbs@[1], cs.num_wires()));
        }
        let base = F::from_u64(BN_LIMB_BASE);
        let hi = r.limbs[1].scale(&base);
        let sum = r.limbs[0].add(&hi);
        let one = F::one();
        proof {
            let p = F::modulus();
            let l0 = limb_nats(ls@)[0];
            let l1 = limb_nats(ls@)[1];
            assert(r.limbs@[0].value(cs) == l0);
            assert(r.limbs@[1].value(cs) == l1);
            lemma_small_mod(BN_LIMB_BASE as nat, p);
            assert(limb_nats(ls@).drop_first().drop_first().len() == 0);
            assert(limb_value(limb_nats(ls@).drop_first()) == l1 + (BN_LIMB_BASE as nat) * limb_value(
                limb_nats(ls@).drop_first().drop_first(),
            ));
            assert(limb_value(limb_nats(ls@)) == l0 + (BN_LIMB_BASE as nat) * l1);
            vstd::arithmetic::div_mod::lemma_add_mod_noop_right(l0 as int, (l1 * (BN_LIMB_BASE as nat)) as int, p as int);
            assert(l1 * (BN_LIMB_BASE as nat) == (BN_LIMB_BASE as nat) * l1) by (nonlinear_arith);
            F::lemma_bounds(v);
            lemma_small_mod(v.val(), p);
            assert(sum.value(cs) == fa.value(cs));
            lemma_small_mod(fa.value(cs), p);
            assert(fa.value(cs) * 1 == fa.value(cs));
        }
        cs.assert_product(sum, Expression::constant(&one), fa.duplicate());
        proof {
            assert(cs.wire_values@.subrange(0, cs1@.wire_values@.len() as int) =~= cs1@.wire_values@);
            assert(cs.constraints@.subrange(0, cs1@.constraints@.len() as int) =~= cs1@.constraints@);
            lemma_extends_trans(old(cs), &cs1@, cs);
            assert forall|j: int| 0 <= j < r.limbs@.len() implies #[trigger] eval(r.limbs@[j], wire_vals(cs))
                == eval(r.limbs@[j], wire_vals(&cs1@)) by {
                lemma_value_kept(r.limbs@[j], &cs1@, cs);
            }
            assert(r.limb_values(cs) =~= r.limb_values(&cs1@));
            assert(r.limb_values(&cs1@) == crate::bignat::bn_limbs(v.val()));
        }
        r
    }

    /// Copies of the limb expressions.
    pub fn as_limbs(&self) -> (r: Vec<Expression<F>>)
        ensures
            forall|w: Seq<nat>| #[trigger] crate::circuit::values_at(r@, w) == crate::circuit::values_at(self.limb_exprs(), w),
            forall|n: nat| self.wires_below(n) ==> #[trigger] all_wires_below(r@, n),
            r@.len() == self.limb_exprs().len(),
    {
        let mut out: Vec<Expression<F>> = Vec::new();
        let mut i: usize = 0;
        while i < self.limbs.len()
            invariant
                i <= self.limbs@.len(),
                out@.len() == i,
                forall|j: int| 0 <= j < i ==> (#[trigger] out@[j]).terms@ == self.limbs@[j].terms@
                    && out@[j].constant == self.limbs@[j].constant,
            decreases self.limbs@.len() - i,
        {
            out.push(self.limbs[i].duplicate());
            i = i + 1;
        }
        proof {
            assert forall|w: Seq<nat>| #[trigger] crate::circuit::values_at(out@, w) == crate::circuit::values_at(self.limbs@, w) by {
                assert(crate::circuit::values_at(out@, w) =~= crate::circuit::values_at(self.limbs@, w));
            }
            assert forall|n: nat| self.wires_below(n) implies #[trigger] all_wires_below(out@, n) by {
                assert forall|j: int| 0 <= j < out@.len() implies wires_below(#[trigger] out@[j], n) by {
                    assert(wires_below(self.limbs@[j], n));
                }
            }
        }
        out
    }

    /// Limb-wise `bit ? a : b`.
    pub fn conditional_select(cs: &mut ConstraintSystem<F>, a: &Self, b: &Self, bit: &BinaryAssignment<F>) -> (r: Self)
        requires
            old(cs).wf(),
            a.wires_below(old(cs).num_wires()),
            b.wires_below(old(cs).num_wires()),
            a.limb_exprs().len() == b.limb_exprs().len(),
            wires_below(bit.e, old(cs).num_wires()),
            bit.e.value(old(cs)) == 0 || bit.e.value(old(cs)) == 1,
        ensures
            final(cs).wf(),
            final(cs).extends(old(cs)),
            old(cs).satisfied() ==> final(cs).satisfied(),
            r.wires_below(final(cs).num_wires()),
            r.limb_values(final(cs)) == if bit.e.value(old(cs)) == 1 {
                a.limb_values(old(cs))
            } else {
                b.limb_values(old(cs))
            },
            final(cs).constraints@.len() == old(cs).constraints@.len() + limbs_select_cost(
                a.limb_exprs(),
                b.limb_exprs(),
                bit.e,
                a.limb_exprs().len() as nat,
            ),
            final(cs).wire_values@.len() == old(cs).wire_values@.len() + limbs_select_cost(
                a.limb_exprs(),
                b.limb_exprs(),
                bit.e,
                a.limb_exprs().len() as nat,
            ),
    {
        let ghost want = if bit.e.value(&*cs) == 1 {
            a.limb_values(&*cs)
        } else {
            b.limb_values(&*cs)
        };
        let mut out: Vec<Expression<F>> = Vec::new();
        let mut i: usize = 0;
        proof {
            assert(cs.wire_values@.subrange(0, cs.wire_values@.len() as int) =~= cs.wire_values@);
            assert(cs.constraints@.subrange(0, cs.constraints@.len() as int) =~= cs.constraints@);
        }
        while i < a.limbs.len()
            invariant
                a.limbs@.len() == b.limbs@.len(),
                i <= a.limbs@.len(),
                out@.len() == i,
                want.len() == a.limbs@.len(),
                want == if bit.e.value(old(cs)) == 1 {
                    a.limb_values(old(cs))
                } else {
                    b.limb_values(old(cs))
                },
                cs.wf(),
                cs.extends(old(cs)),
                old(cs).satisfied() ==> cs.satisfied(),
                a.wires_below(old(cs).num_wires()),
                b.wires_below(old(cs).num_wires()),
                wires_below(bit.e, old(cs).num_wires()),
                bit.e.value(old(cs)) == 0 || bit.e.value(old(cs)) == 1,
                all_wires_below(out@, cs.num_wires()),
                values(out@, cs) == want.subrange(0, i as int),
                cs.constraints@.len() == old(cs).constraints@.len() + limbs_select_cost(a.limbs@, b.limbs@, bit.e, i as nat),
                cs.wire_values@.len() == old(cs).wire_values@.len() + limbs_select_cost(a.limbs@, b.limbs@, bit.e, i as nat),
            decreases a.limbs@.len() - i,
        {
            let cs0 = Ghost(*cs);
            proof {
                lemma_exprs_kept(a.limbs@, old(cs), &cs0@);
                lemma_exprs_kept(b.limbs@, old(cs), &cs0@);
                lemma_value_kept(bit.e, old(cs), &cs0@);
                assert(wires_below(a.limbs@[i as int], cs.num_wires()));
                assert(wires_below(b.limbs@[i as int], cs.num_wires()));
                assert(values(a.limbs@, &cs0@)[i as int] == a.limbs@[i as int].value(&cs0@));
                assert(values(b.limbs@, &cs0@)[i as int] == b.limbs@[i as int].value(&cs0@));
            }
            let e = select(cs, &a.limbs[i], &b.limbs[i], &bit.e);
            proof {
                lemma_extends_trans(old(cs), &cs0@, cs);
                lemma_exprs_kept(out@, &cs0@, cs);
            }
            let ghost before = out@;
            out.push(e);
            proof {
                assert(values(out@, cs) =~= want.subrange(0, i + 1));
                assert forall|j: int| 0 <= j < out@.len() implies wires_below(#[trigger] out@[j], cs.num_wires()) by {
                    if j < i {
                        assert(out@[j] == before[j]);
                    }
                }
            }
            i = i + 1;
        }
        proof {
            assert(want.subrange(0, want.len() as int) =~= want);
        }
        BigNatAssignment { limbs: out }
    }
}

} // verus!
