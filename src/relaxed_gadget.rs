//! A relaxed instance inside a constraint system: the per-step circuit uses it
//! to re-hash the running state and to choose between base and recursive case.
use crate::bignat::{bn_limbs, f_to_nat, BN_LIMB_BASE, BN_LIMB_BYTES, BN_N_LIMBS};
use crate::relaxed::scalar_as_base;
use crate::circuit::{all_wires_below, values, values_at, MimcROCircuit, PointAssignment};
use crate::field::PrimeField;
use crate::gadget::{
    lemma_exprs_kept, lemma_point_kept, limbs_select_cost, point_select_cost, point_values, select_cost, represents_point, select, BigNatAssignment, BinaryAssignment,
};
use crate::hash::{mimc_constants, squeeze_spec};
use crate::r1cs::{eval, lemma_extends_trans, lemma_value_kept, wire_vals, wires_below, ConstraintSystem, Expression};
use crate::field::vals;
use crate::gadget::descaled;
use crate::relaxed::{hash_input, RelaxedR1csInstance};
use vstd::prelude::*;

verus! {

/// Appends copies of `src` to `v`.
pub fn extend_exprs<F: PrimeField>(v: &mut Vec<Expression<F>>, src: &Vec<Expression<F>>)
    ensures
        forall|w: Seq<nat>|
            #[trigger] values_at(final(v)@, w) == values_at(old(v)@, w) + values_at(src@, w),
        forall|n: nat|
            all_wires_below(old(v)@, n) && all_wires_below(src@, n) ==> #[trigger] all_wires_below(
                final(v)@,
                n,
            ),
{
    let ghost v0 = v@;
    let mut i: usize = 0;
    while i < src.len()
        invariant
            i <= src@.len(),
            v@.len() == v0.len() + i,
            forall|j: int| 0 <= j < v0.len() ==> #[trigger] v@[j] == v0[j],
            forall|j: int|
                0 <= j < i ==> (#[trigger] v@[v0.len() + j]).terms@ == src@[j].terms@ && v@[v0.len()
                    + j].constant == src@[j].constant,
        decreases src@.len() - i,
    {
        v.push(src[i].duplicate());
        i = i + 1;
    }
    proof {
        assert forall|w: Seq<nat>| #[trigger] values_at(v@, w) == values_at(v0, w) + values_at(src@, w) by {
            assert forall|j: int| 0 <= j < v@.len() implies #[trigger] values_at(v@, w)[j] == (values_at(v0, w)
                + values_at(src@, w))[j] by {
                if j >= v0.len() {
                    let k = j - v0.len();
                    assert(v@[v0.len() + k].terms@ == src@[k].terms@);
                }
            }
            assert(values_at(v@, w) =~= values_at(v0, w) + values_at(src@, w));
        }
        assert forall|n: nat| all_wires_below(v0, n) && all_wires_below(src@, n) implies #[trigger] all_wires_below(v@, n) by {
            assert forall|j: int| 0 <= j < v@.len() implies wires_below(#[trigger] v@[j], n) by {
                if j >= v0.len() {
                    let k = j - v0.len();
                    assert(v@[v0.len() + k].terms@ == src@[k].terms@);
                    assert(wires_below(src@[k], n));
                } else {
                    assert(wires_below(v0[j], n));
                }
            }
        }
    }
}

/// Pushes a copy of one expression.
fn push_expr<F: PrimeField>(v: &mut Vec<Expression<F>>, e: &Expression<F>)
    ensures
        forall|w: Seq<nat>| #[trigger] values_at(final(v)@, w) == values_at(old(v)@, w).push(eval(*e, w)),
        forall|n: nat|
            all_wires_below(old(v)@, n) && wires_below(*e, n) ==> #[trigger] all_wires_below(final(v)@, n),
{
    let ghost v0 = v@;
    v.push(e.duplicate());
    proof {
        assert forall|w: Seq<nat>| #[trigger] values_at(v@, w) == values_at(v0, w).push(eval(*e, w)) by {
            assert(values_at(v@, w) =~= values_at(v0, w).push(eval(*e, w)));
        }
        assert forall|n: nat| all_wires_below(v0, n) && wires_below(*e, n) implies #[trigger] all_wires_below(v@, n) by {
            assert forall|j: int| 0 <= j < v@.len() implies wires_below(#[trigger] v@[j], n) by {
                if j < v0.len() {
                    assert(v@[j] == v0[j]);
                }
            }
        }
    }
}

/// A plain instance on wires: the witness commitment and two public inputs.
pub struct R1csInstanceAssignment<F: PrimeField> {
    pub commit_w: PointAssignment<F>,
    pub x0: Expression<F>,
    pub x1: Expression<F>,
}

/// A relaxed instance on wires; the public inputs are BigNat limbs.
pub struct RelaxedR1csInstanceAssignment<F: PrimeField> {
    pub commit_w: PointAssignment<F>,
    pub commit_e: PointAssignment<F>,
    pub u: Expression<F>,
    pub x0: BigNatAssignment<F>,
    pub x1: BigNatAssignment<F>,
}

/// `(x, y, z)` after descaling: the point itself when `z = 1`, `(0, 1, 0)` when `z = 0`.
pub open spec fn descaled_values<F: PrimeField>(pa: &PointAssignment<F>, cs: &ConstraintSystem<F>) -> Seq<nat> {
    if pa.z.value(cs) == 1 {
        point_values(pa, cs)
    } else {
        seq![0nat, 1nat, 0nat]
    }
}

impl<F: PrimeField> RelaxedR1csInstanceAssignment<F> {
    pub open spec fn wires_below(&self, n: nat) -> bool {
        &&& self.commit_w.wires_below(n)
        &&& self.commit_e.wires_below(n)
        &&& wires_below(self.u, n)
        &&& self.x0.wires_below(n)
        &&& self.x1.wires_below(n)
    }

    /// Wires and constraints that selecting between `self` and `b` adds: a
    /// function of the expressions' shape, not of the selecting bit's value.
    pub open spec fn select_cost_with(&self, b: &Self, bit: Expression<F>) -> nat {
        point_select_cost(&self.commit_w, &b.commit_w, bit) + point_select_cost(&self.commit_e, &b.commit_e, bit)
            + select_cost(self.u, b.u, bit)
            + limbs_select_cost(self.x0.limb_exprs(), b.x0.limb_exprs(), bit, self.x0.limb_exprs().len() as nat)
            + limbs_select_cost(self.x1.limb_exprs(), b.x1.limb_exprs(), bit, self.x1.limb_exprs().len() as nat)
    }

    /// All values, in the order `commit_W, commit_E, u, x0, x1`.
    pub open spec fn all_values(&self, cs: &ConstraintSystem<F>) -> Seq<nat> {
        point_values(&self.commit_w, cs) + point_values(&self.commit_e, cs) + seq![self.u.value(cs)]
            + self.x0.limb_values(cs) + self.x1.limb_values(cs)
    }

    /// The assignment carries `inst`: points with identity flags, `u` read in
    /// this field, and the limbs of both public inputs.
    pub open spec fn represents<S: PrimeField>(&self, inst: &RelaxedR1csInstance<F, S>, cs: &ConstraintSystem<F>) -> bool {
        &&& represents_point(&self.commit_w, inst.commit_w, cs)
        &&& represents_point(&self.commit_e, inst.commit_e, cs)
        &&& self.u.value(cs) == inst.u.val() % F::modulus()
        &&& self.x0.limb_values(cs) == bn_limbs(inst.x@[0].val())
        &&& self.x1.limb_values(cs) == bn_limbs(inst.x@[1].val())
    }
}

/// An assignment keeps its values when the system grows.
pub proof fn lemma_assignment_kept<F: PrimeField>(
    asg: &RelaxedR1csInstanceAssignment<F>,
    a: &ConstraintSystem<F>,
    b: &ConstraintSystem<F>,
)
    requires
        b.extends(a),
        asg.wires_below(a.num_wires()),
    ensures
        asg.wires_below(b.num_wires()),
        point_values(&asg.commit_w, b) == point_values(&asg.commit_w, a),
        point_values(&asg.commit_e, b) == point_values(&asg.commit_e, a),
        asg.u.value(b) == asg.u.value(a),
        asg.x0.limb_values(b) == asg.x0.limb_values(a),
        asg.x1.limb_values(b) == asg.x1.limb_values(a),
        asg.all_values(b) == asg.all_values(a),
{
    lemma_point_kept(&asg.commit_w, a, b);
    lemma_point_kept(&asg.commit_e, a, b);
    lemma_value_kept(asg.u, a, b);
    lemma_exprs_kept(asg.x0.limb_exprs(), a, b);
    lemma_exprs_kept(asg.x1.limb_exprs(), a, b);
}

impl<F: PrimeField> RelaxedR1csInstanceAssignment<F> {
    /// Allocates the instance: points with identity flags, `u` read in this
    /// field, and each public input split into limbs.
    pub fn witness<S: PrimeField>(cs: &mut ConstraintSystem<F>, relaxed_r1cs_instance: &RelaxedR1csInstance<F, S>) -> (r: Self)
        requires
            old(cs).wf(),
            relaxed_r1cs_instance.x@.len() == 2,
            S::num_bytes() == BN_LIMB_BYTES * BN_N_LIMBS,
            BN_LIMB_BASE < F::modulus(),
        ensures
            final(cs).wf(),
            final(cs).extends(old(cs)),
            old(cs).satisfied() ==> final(cs).satisfied(),
            r.wires_below(final(cs).num_wires()),
            r.represents(relaxed_r1cs_instance, final(cs)),
    {
        let inst = relaxed_r1cs_instance;
        let cs0 = Ghost(*cs);
        let commit_w = PointAssignment::witness(cs, &inst.commit_w);
        let cs1 = Ghost(*cs);
        let commit_e = PointAssignment::witness(cs, &inst.commit_e);
        let cs2 = Ghost(*cs);
        let u = cs.alloc_public(scalar_as_base::<S, F>(&inst.u));
        let cs3 = Ghost(*cs);
        proof {
            assert(cs3@.wire_values@.subrange(0, cs2@.wire_values@.len() as int) =~= cs2@.wire_values@);
            assert(cs3@.constraints@.subrange(0, cs2@.constraints@.len() as int) =~= cs2@.constraints@);
            lemma_point_kept(&commit_w, &cs1@, &cs2@);
            lemma_extends_trans(&cs1@, &cs2@, &cs3@);
            lemma_point_kept(&commit_w, &cs1@, &cs3@);
            lemma_point_kept(&commit_e, &cs2@, &cs3@);
            lemma_extends_trans(&cs0@, &cs1@, &cs3@);
        }
        let l0 = f_to_nat(&inst.x[0]);
        let x0 = BigNatAssignment::witness_from_big_int(cs, &l0);
        let cs4 = Ghost(*cs);
        let l1 = f_to_nat(&inst.x[1]);
        let x1 = BigNatAssignment::witness_from_big_int(cs, &l1);
        let r = RelaxedR1csInstanceAssignment { commit_w, commit_e, u, x0, x1 };
        proof {
            lemma_extends_trans(&cs3@, &cs4@, cs);
            lemma_point_kept(&r.commit_w, &cs3@, cs);
            lemma_point_kept(&r.commit_e, &cs3@, cs);
            lemma_value_kept(r.u, &cs3@, cs);
            lemma_exprs_kept(r.x0.limb_exprs(), &cs4@, cs);
            lemma_extends_trans(&cs0@, &cs3@, cs);
        }
        r
    }

    /// Lifts a plain instance: `commit_E` is the identity, `u = 1`, and the
    /// public inputs are split into limbs.
    pub fn from_r1cs_instance(cs: &mut ConstraintSystem<F>, instance: R1csInstanceAssignment<F>) -> (r: Self)
        requires
            old(cs).wf(),
            instance.commit_w.wires_below(old(cs).num_wires()),
            wires_below(instance.x0, old(cs).num_wires()),
            wires_below(instance.x1, old(cs).num_wires()),
            F::num_bytes() == BN_LIMB_BYTES * BN_N_LIMBS,
            BN_LIMB_BASE < F::modulus(),
        ensures
            final(cs).wf(),
            final(cs).extends(old(cs)),
            old(cs).satisfied() ==> final(cs).satisfied(),
            r.wires_below(final(cs).num_wires()),
            point_values(&r.commit_w, final(cs)) == point_values(&instance.commit_w, old(cs)),
            point_values(&r.commit_e, final(cs)) == seq![0nat, 1nat, 0nat],
            r.u.value(final(cs)) == 1,
            r.x0.limb_values(final(cs)) == bn_limbs(instance.x0.value(old(cs))),
            r.x1.limb_values(final(cs)) == bn_limbs(instance.x1.value(old(cs))),
    {
        let cs0 = Ghost(*cs);
        let x0 = BigNatAssignment::witness_from_field_assignment(cs, &instance.x0);
        let cs1 = Ghost(*cs);
        proof {
            lemma_value_kept(instance.x1, &cs0@, &cs1@);
        }
        let x1 = BigNatAssignment::witness_from_field_assignment(cs, &instance.x1);
        let one = F::one();
        let commit_e = PointAssignment::identity();
        let u = Expression::constant(&one);
        proof {
            lemma_extends_trans(&cs0@, &cs1@, cs);
            lemma_point_kept(&instance.commit_w, &cs0@, cs);
            lemma_exprs_kept(x0.limb_exprs(), &cs1@, cs);
            assert(point_values(&commit_e, cs) =~= seq![0nat, 1nat, 0nat]);
        }
        RelaxedR1csInstanceAssignment { commit_w: instance.commit_w, commit_e, u, x0, x1 }
    }

    /// Component-wise `bit ? a : b`: the base case and the recursive case are
    /// both computed, and the bit picks one without branching.
    pub fn conditional_select(cs: &mut ConstraintSystem<F>, a: &Self, b: &Self, condition: &BinaryAssignment<F>) -> (r: Self)
        requires
            old(cs).wf(),
            a.wires_below(old(cs).num_wires()),
            b.wires_below(old(cs).num_wires()),
            a.x0.limb_exprs().len() == b.x0.limb_exprs().len(),
            a.x1.limb_exprs().len() == b.x1.limb_exprs().len(),
            wires_below(condition.e, old(cs).num_wires()),
            condition.e.value(old(cs)) == 0 || condition.e.value(old(cs)) == 1,
        ensures
            final(cs).wf(),
            final(cs).extends(old(cs)),
            old(cs).satisfied() ==> final(cs).satisfied(),
            r.wires_below(final(cs).num_wires()),
            r.all_values(final(cs)) == if condition.e.value(old(cs)) == 1 {
                a.all_values(old(cs))
            } else {
                b.all_values(old(cs))
            },
            final(cs).constraints@.len() == old(cs).constraints@.len() + a.select_cost_with(b, condition.e),
            final(cs).wire_values@.len() == old(cs).wire_values@.len() + a.select_cost_with(b, condition.e),
    {
        let cs0 = Ghost(*cs);
        let commit_w = PointAssignment::conditional_select(cs, &a.commit_w, &b.commit_w, condition);
        let cs1 = Ghost(*cs);
        proof {
            lemma_assignment_kept(a, &cs0@, &cs1@);
            lemma_assignment_kept(b, &cs0@, &cs1@);
            lemma_value_kept(condition.e, &cs0@, &cs1@);
        }
        let commit_e = PointAssignment::conditional_select(cs, &a.commit_e, &b.commit_e, condition);
        let cs2 = Ghost(*cs);
        proof {
            lemma_assignment_kept(a, &cs1@, &cs2@);
            lemma_assignment_kept(b, &cs1@, &cs2@);
            lemma_value_kept(condition.e, &cs1@, &cs2@);
            lemma_point_kept(&commit_w, &cs1@, &cs2@);
        }
        let u = select(cs, &a.u, &b.u, &condition.e);
        let cs3 = Ghost(*cs);
        proof {
            lemma_assignment_kept(a, &cs2@, &cs3@);
            lemma_assignment_kept(b, &cs2@, &cs3@);
            lemma_value_kept(condition.e, &cs2@, &cs3@);
            lemma_point_kept(&commit_w, &cs2@, &cs3@);
            lemma_point_kept(&commit_e, &cs2@, &cs3@);
        }
        let x0 = BigNatAssignment::conditional_select(cs, &a.x0, &b.x0, condition);
        let cs4 = Ghost(*cs);
        proof {
            lemma_assignment_kept(a, &cs3@, &cs4@);
            lemma_assignment_kept(b, &cs3@, &cs4@);
            lemma_value_kept(condition.e, &cs3@, &cs4@);
            lemma_point_kept(&commit_w, &cs3@, &cs4@);
            lemma_point_kept(&commit_e, &cs3@, &cs4@);
            lemma_value_kept(u, &cs3@, &cs4@);
        }
        let x1 = BigNatAssignment::conditional_select(cs, &a.x1, &b.x1, condition);
        let r = RelaxedR1csInstanceAssignment { commit_w, commit_e, u, x0, x1 };
        proof {
            lemma_point_kept(&r.commit_w, &cs4@, cs);
            lemma_point_kept(&r.commit_e, &cs4@, cs);
            lemma_value_kept(r.u, &cs4@, cs);
            lemma_exprs_kept(r.x0.limb_exprs(), &cs4@, cs);
            lemma_extends_trans(&cs0@, &cs1@, &cs2@);
            lemma_extends_trans(&cs0@, &cs2@, &cs3@);
            lemma_extends_trans(&cs0@, &cs3@, &cs4@);
            lemma_extends_trans(&cs0@, &cs4@, cs);
            assert(r.all_values(cs) =~= if condition.e.value(&cs0@) == 1 {
                a.all_values(&cs0@)
            } else {
                b.all_values(&cs0@)
            });
        }
        r
    }

    /// Values absorbed by [`Self::absorb_by_transcript`] under wire values `w`.
    pub open spec fn absorption_at(&self, w: Seq<nat>) -> Seq<nat> {
        seq![eval(self.commit_w.x, w), eval(self.commit_w.y, w), eval(self.commit_w.z, w)]
            + seq![eval(self.commit_e.x, w), eval(self.commit_e.y, w), eval(self.commit_e.z, w)]
            + seq![eval(self.u, w)] + values_at(self.x0.limb_exprs(), w) + values_at(self.x1.limb_exprs(), w)
    }

    /// Feeds `commit_W`, `commit_E`, `u`, then the limbs of `x0` and `x1`.
    pub fn absorb_by_transcript(&self, transcript: &mut MimcROCircuit<F>)
        ensures
            forall|w: Seq<nat>|
                #[trigger] values_at(final(transcript).state_seq(), w) == values_at(
                    old(transcript).state_seq(),
                    w,
                ) + self.absorption_at(w),
            forall|n: nat|
                all_wires_below(old(transcript).state_seq(), n) && self.wires_below(n)
                    ==> #[trigger] all_wires_below(final(transcript).state_seq(), n),
            final(transcript).key_expr() == old(transcript).key_expr(),
            final(transcript).constant_vals() == old(transcript).constant_vals(),
    {
        let ghost t0 = transcript.state_seq();
        transcript.append_point(&self.commit_w);
        let ghost t1 = transcript.state_seq();
        transcript.append_point(&self.commit_e);
        let ghost t2 = transcript.state_seq();
        transcript.append(self.u.duplicate());
        let ghost t3 = transcript.state_seq();
        let l0 = self.x0.as_limbs();
        let l1 = self.x1.as_limbs();
        let mut i: usize = 0;
        while i < l0.len()
            invariant
                i <= l0@.len(),
                forall|w: Seq<nat>|
                    #[trigger] values_at(transcript.state_seq(), w) == values_at(t3, w) + values_at(
                        l0@.subrange(0, i as int),
                        w,
                    ),
                forall|n: nat|
                    all_wires_below(t3, n) && all_wires_below(l0@, n) ==> #[trigger] all_wires_below(
                        transcript.state_seq(),
                        n,
                    ),
                transcript.key_expr() == old(transcript).key_expr(),
                transcript.constant_vals() == old(transcript).constant_vals(),
            decreases l0@.len() - i,
        {
            let ghost s0 = transcript.state_seq();
            let d = l0[i].duplicate();
            transcript.append(d);
            proof {
                assert forall|w: Seq<nat>| #[trigger] values_at(transcript.state_seq(), w) == values_at(t3, w)
                    + values_at(l0@.subrange(0, i + 1), w) by {
                    assert(values_at(transcript.state_seq(), w) =~= values_at(s0, w).push(eval(l0@[i as int], w)));
                    assert(values_at(l0@.subrange(0, i + 1), w) =~= values_at(l0@.subrange(0, i as int), w).push(eval(l0@[i as int], w)));
                    assert(values_at(t3, w) + values_at(l0@.subrange(0, i + 1), w) =~= (values_at(t3, w) + values_at(l0@.subrange(0, i as int), w)).push(eval(l0@[i as int], w)));
                }
                assert forall|n: nat| all_wires_below(t3, n) && all_wires_below(l0@, n) implies #[trigger] all_wires_below(transcript.state_seq(), n) by {
                    assert forall|j: int| 0 <= j < transcript.state_seq().len() implies wires_below(#[trigger] transcript.state_seq()[j], n) by {
                        assert(all_wires_below(s0, n));
                        if j < s0.len() {
                            assert(transcript.state_seq()[j] == s0[j]);
                        } else {
                            assert(wires_below(l0@[i as int], n));
                            assert(wires_below(d, n));
                        }
                    }
                }
            }
            i = i + 1;
        }
        let ghost t4 = transcript.state_seq();
        let mut k: usize = 0;
        while k < l1.len()
            invariant
                k <= l1@.len(),
                forall|w: Seq<nat>|
                    #[trigger] values_at(transcript.state_seq(), w) == values_at(t4, w) + values_at(
                        l1@.subrange(0, k as int),
                        w,
                    ),
                forall|n: nat|
                    all_wires_below(t4, n) && all_wires_below(l1@, n) ==> #[trigger] all_wires_below(
                        transcript.state_seq(),
                        n,
                    ),
                transcript.key_expr() == old(transcript).key_expr(),
                transcript.constant_vals() == old(transcript).constant_vals(),
            decreases l1@.len() - k,
        {
            let ghost s0 = transcript.state_seq();
            let d = l1[k].duplicate();
            transcript.append(d);
            proof {
                assert forall|w: Seq<nat>| #[trigger] values_at(transcript.state_seq(), w) == values_at(t4, w)
                    + values_at(l1@.subrange(0, k + 1), w) by {
                    assert(values_at(transcript.state_seq(), w) =~= values_at(s0, w).push(eval(l1@[k as int], w)));
                    assert(values_at(l1@.subrange(0, k + 1), w) =~= values_at(l1@.subrange(0, k as int), w).push(eval(l1@[k as int], w)));
                    assert(values_at(t4, w) + values_at(l1@.subrange(0, k + 1), w) =~= (values_at(t4, w) + values_at(l1@.subrange(0, k as int), w)).push(eval(l1@[k as int], w)));
                }
                assert forall|n: nat| all_wires_below(t4, n) && all_wires_below(l1@, n) implies #[trigger] all_wires_below(transcript.state_seq(), n) by {
                    assert forall|j: int| 0 <= j < transcript.state_seq().len() implies wires_below(#[trigger] transcript.state_seq()[j], n) by {
                        assert(all_wires_below(s0, n));
                        if j < s0.len() {
                            assert(transcript.state_seq()[j] == s0[j]);
                        } else {
                            assert(wires_below(l1@[k as int], n));
                            assert(wires_below(d, n));
                        }
                    }
                }
            }
            k = k + 1;
        }
        proof {
            assert(l0@.subrange(0, l0@.len() as int) =~= l0@);
            assert(l1@.subrange(0, l1@.len() as int) =~= l1@);
            assert forall|w: Seq<nat>| #[trigger] values_at(transcript.state_seq(), w) == values_at(t0, w)
                + self.absorption_at(w) by {
                assert(values_at(t3, w) =~= values_at(t2, w).push(eval(self.u, w)));
                assert(values_at(transcript.state_seq(), w) =~= values_at(t0, w) + self.absorption_at(w));
            }
            assert forall|n: nat| all_wires_below(t0, n) && self.wires_below(n) implies #[trigger] all_wires_below(transcript.state_seq(), n) by {
                assert(all_wires_below(t1, n));
                assert(all_wires_below(t2, n));
                assert forall|j: int| 0 <= j < t3.len() implies wires_below(#[trigger] t3[j], n) by {
                    if j < t2.len() {
                        assert(t3[j] == t2[j]);
                    }
                }
                assert(all_wires_below(l0@, n));
                assert(all_wires_below(t4, n));
                assert(all_wires_below(l1@, n));
            }
        }
    }

    /// The values [`Self::hash`] squeezes, in order.
    pub open spec fn hash_values(
        &self,
        i: Expression<F>,
        z_0: Seq<Expression<F>>,
        z_i: Seq<Expression<F>>,
        cs: &ConstraintSystem<F>,
    ) -> Seq<nat> {
        seq![i.value(cs)] + values(z_0, cs) + values(z_i, cs) + seq![self.u.value(cs)] + self.x0.limb_values(cs)
            + self.x1.limb_values(cs) + descaled_values(&self.commit_e, cs) + descaled_values(&self.commit_w, cs)
    }

    /// `H(i, z0, zi, u, x0, x1, descale(commit_E), descale(commit_W))` in the circuit.
    pub fn hash(
        &self,
        cs: &mut ConstraintSystem<F>,
        i: Expression<F>,
        z_0: Vec<Expression<F>>,
        z_i: Vec<Expression<F>>,
    ) -> (r: Expression<F>)
        requires
            old(cs).wf(),
            self.wires_below(old(cs).num_wires()),
            wires_below(i, old(cs).num_wires()),
            all_wires_below(z_0@, old(cs).num_wires()),
            all_wires_below(z_i@, old(cs).num_wires()),
            self.commit_e.z.value(old(cs)) == 0 || self.commit_e.z.value(old(cs)) == 1,
            self.commit_w.z.value(old(cs)) == 0 || self.commit_w.z.value(old(cs)) == 1,
        ensures
            final(cs).wf(),
            final(cs).extends(old(cs)),
            old(cs).satisfied() ==> final(cs).satisfied(),
            wires_below(r, final(cs).num_wires()),
            r.value(final(cs)) == squeeze_spec(
                mimc_constants(F::modulus()),
                0,
                self.hash_values(i, z_0@, z_i@, old(cs)),
                F::modulus(),
            ),
    {
        let cs0 = Ghost(*cs);
        let commit_e = self.commit_e.descale(cs);
        let cs1 = Ghost(*cs);
        proof {
            lemma_assignment_kept(self, &cs0@, &cs1@);
        }
        let commit_w = self.commit_w.descale(cs);
        let cs2 = Ghost(*cs);
        proof {
            lemma_extends_trans(&cs0@, &cs1@, &cs2@);
            lemma_assignment_kept(self, &cs0@, &cs2@);
            lemma_point_kept(&commit_e, &cs1@, &cs2@);
            lemma_value_kept(i, &cs0@, &cs2@);
            lemma_exprs_kept(z_0@, &cs0@, &cs2@);
            lemma_exprs_kept(z_i@, &cs0@, &cs2@);
        }
        let l0 = self.x0.as_limbs();
        let l1 = self.x1.as_limbs();
        let mut inputs: Vec<Expression<F>> = Vec::new();
        push_expr(&mut inputs, &i);
        extend_exprs(&mut inputs, &z_0);
        extend_exprs(&mut inputs, &z_i);
        push_expr(&mut inputs, &self.u);
        extend_exprs(&mut inputs, &l0);
        extend_exprs(&mut inputs, &l1);
        push_expr(&mut inputs, &commit_e.x);
        push_expr(&mut inputs, &commit_e.y);
        push_expr(&mut inputs, &commit_e.z);
        push_expr(&mut inputs, &commit_w.x);
        push_expr(&mut inputs, &commit_w.y);
        push_expr(&mut inputs, &commit_w.z);
        proof {
            let n = cs.num_wires();
            let w = wire_vals(cs);
            assert(values_at(Seq::<Expression<F>>::empty(), w) =~= Seq::<nat>::empty());
            assert(all_wires_below(Seq::<Expression<F>>::empty(), n));
            assert(all_wires_below(l0@, n));
            assert(all_wires_below(l1@, n));
            assert(values_at(inputs@, w) =~= self.hash_values(i, z_0@, z_i@, &cs0@));
            assert(all_wires_below(inputs@, n));
        }
        let mut t = MimcROCircuit::<F>::new();
        proof {
            assert(all_wires_below(t.state_seq(), cs.num_wires()));
            assert(wires_below(t.key_expr(), cs.num_wires()));
            assert(t.key_expr().value(cs) == 0);
            assert(t.state_seq() + inputs@ =~= inputs@);
        }
        let r = t.hash_vec(cs, inputs);
        proof {
            lemma_extends_trans(&cs0@, &cs2@, cs);
        }
        r
    }
}

/// The in-circuit hash of an assignment that carries `inst` absorbs exactly
/// the values the native hash absorbs, so both squeeze to the same element.
pub proof fn lemma_hash_agreement<F: PrimeField, S: PrimeField>(
    asg: &RelaxedR1csInstanceAssignment<F>,
    inst: &RelaxedR1csInstance<F, S>,
    cs: &ConstraintSystem<F>,
    i_expr: Expression<F>,
    i: nat,
    z_0: Seq<Expression<F>>,
    z_i: Seq<Expression<F>>,
    z_0_native: Seq<F>,
    z_i_native: Seq<F>,
)
    requires
        asg.represents(inst, cs),
        i_expr.value(cs) == i % F::modulus(),
        values(z_0, cs) == vals(z_0_native),
        values(z_i, cs) == vals(z_i_native),
    ensures
        asg.hash_values(i_expr, z_0, z_i, cs) == hash_input(inst, i, vals(z_0_native), vals(z_i_native)),
        squeeze_spec(mimc_constants(F::modulus()), 0, asg.hash_values(i_expr, z_0, z_i, cs), F::modulus())
            == squeeze_spec(
            mimc_constants(F::modulus()),
            0,
            hash_input(inst, i, vals(z_0_native), vals(z_i_native)),
            F::modulus(),
        ),
{
    assert(descaled_values(&asg.commit_e, cs) =~= descaled(inst.commit_e));
    assert(descaled_values(&asg.commit_w, cs) =~= descaled(inst.commit_w));
    assert(asg.hash_values(i_expr, z_0, z_i, cs) =~= hash_input(inst, i, vals(z_0_native), vals(z_i_native)));
}

} // verus!
