//! Relaxed R1CS instances on the native side and the hash of the running state.
use crate::bignat::{bn_limbs, f_to_nat, BN_LIMB_BASE, BN_LIMB_BYTES, BN_N_LIMBS};
use crate::curve::Point;
use crate::field::{vals, PrimeField};
use crate::gadget::descaled;
use crate::hash::{mimc_constants, squeeze_spec, MimcRO};
use vstd::prelude::*;

verus! {

/// A plain R1CS instance: public inputs and the witness commitment.
pub struct R1csInstance<B: PrimeField, S: PrimeField> {
    pub commit_w: Point<B>,
    pub x: Vec<S>,
}

/// A relaxed instance `{commit_W, commit_E, u, x}`.
pub struct RelaxedR1csInstance<B: PrimeField, S: PrimeField> {
    pub commit_w: Point<B>,
    pub commit_e: Point<B>,
    pub u: S,
    pub x: Vec<S>,
}

/// Reads a scalar-field element in the base field (its value reduced modulo the base prime).
pub fn scalar_as_base<S: PrimeField, B: PrimeField>(s: &S) -> (r: B)
    ensures
        r.val() == s.val() % B::modulus(),
{
    let bytes = s.to_le_bytes();
    B::from_le_bytes(&bytes)
}

/// The values hashed for step `i` with initial input `z0` and current output `zi`.
pub open spec fn hash_input<B: PrimeField, S: PrimeField>(
    inst: &RelaxedR1csInstance<B, S>,
    i: nat,
    z0: Seq<nat>,
    zi: Seq<nat>,
) -> Seq<nat> {
    seq![i % B::modulus()] + z0 + zi + seq![inst.u.val() % B::modulus()] + bn_limbs(inst.x@[0].val())
        + bn_limbs(inst.x@[1].val()) + descaled(inst.commit_e) + descaled(inst.commit_w)
}

/// Appends every element of `v` to the transcript.
pub(crate) fn absorb_all<F: PrimeField>(t: &mut MimcRO<F>, v: &Vec<F>)
    ensures
        final(t).absorbed() == old(t).absorbed() + vals(v@),
        final(t).key_val() == old(t).key_val(),
        final(t).constant_vals() == old(t).constant_vals(),
{
    let mut i: usize = 0;
    proof {
        assert(old(t).absorbed() + vals(v@.subrange(0, 0)) =~= old(t).absorbed());
    }
    while i < v.len()
        invariant
            i <= v@.len(),
            t.absorbed() == old(t).absorbed() + vals(v@.subrange(0, i as int)),
            t.key_val() == old(t).key_val(),
            t.constant_vals() == old(t).constant_vals(),
        decreases v@.len() - i,
    {
        t.append(v[i]);
        proof {
            assert(vals(v@.subrange(0, i + 1)) =~= vals(v@.subrange(0, i as int)).push(v@[i as int].val()));
            assert(old(t).absorbed() + vals(v@.subrange(0, i + 1)) =~= (old(t).absorbed() + vals(
                v@.subrange(0, i as int),
            )).push(v@[i as int].val()));
        }
        i = i + 1;
    }
    proof {
        assert(v@.subrange(0, v@.len() as int) =~= v@);
    }
}

/// Appends limbs, each read as a base-field element.
fn absorb_limbs<F: PrimeField>(t: &mut MimcRO<F>, limbs: &Vec<u64>)
    requires
        BN_LIMB_BASE < F::modulus(),
        limbs@.len() == BN_N_LIMBS,
        forall|i: int| 0 <= i < limbs@.len() ==> #[trigger] limbs@[i] < BN_LIMB_BASE,
    ensures
        final(t).absorbed() == old(t).absorbed() + crate::bignat::limb_nats(limbs@),
        final(t).key_val() == old(t).key_val(),
        final(t).constant_vals() == old(t).constant_vals(),
{
    let a = F::from_u64(limbs[0]);
    let b = F::from_u64(limbs[1]);
    proof {
        vstd::arithmetic::div_mod::lemma_small_mod(limbs@[0] as nat, F::modulus());
        vstd::arithmetic::div_mod::lemma_small_mod(limbs@[1] as nat, F::modulus());
    }
    t.append(a);
    t.append(b);
    proof {
        assert(t.absorbed() =~= old(t).absorbed() + crate::bignat::limb_nats(limbs@));
    }
}

/// Appends the descaled coordinates of a point.
fn absorb_descaled<F: PrimeField>(t: &mut MimcRO<F>, p: &Point<F>)
    ensures
        final(t).absorbed() == old(t).absorbed() + descaled(*p),
        final(t).key_val() == old(t).key_val(),
        final(t).constant_vals() == old(t).constant_vals(),
{
    if p.is_identity {
        t.append(F::zero());
        t.append(F::one());
        t.append(F::zero());
    } else {
        t.append(p.x);
        t.append(p.y);
        t.append(F::one());
    }
    proof {
        assert(t.absorbed() =~= old(t).absorbed() + descaled(*p));
    }
}

impl<B: PrimeField, S: PrimeField> RelaxedR1csInstance<B, S> {
    /// Lifts a plain instance: `commit_E` is the identity, `u = 1`, `x` kept.
    pub fn from_r1cs_instance(inst: R1csInstance<B, S>) -> (r: Self)
        ensures
            r.commit_w == inst.commit_w,
            r.commit_e.is_identity,
            r.u.val() == 1,
            r.x@ == inst.x@,
    {
        RelaxedR1csInstance {
            commit_w: inst.commit_w,
            commit_e: Point { x: B::zero(), y: B::one(), is_identity: true },
            u: S::one(),
            x: inst.x,
        }
    }

    /// `H(i, z0, zi, u, x0, x1, descale(commit_E), descale(commit_W))` with the native transcript.
    pub fn hash(&self, i: u64, z0: &Vec<B>, zi: &Vec<B>) -> (r: B)
        requires
            self.x@.len() == 2,
            S::num_bytes() == BN_LIMB_BYTES * BN_N_LIMBS,
            BN_LIMB_BASE < B::modulus(),
        ensures
            r.val() == squeeze_spec(
                mimc_constants(B::modulus()),
                0,
                hash_input(self, i as nat, vals(z0@), vals(zi@)),
                B::modulus(),
            ),
    {
        let mut t = MimcRO::<B>::new();
        t.append(B::from_u64(i));
        absorb_all(&mut t, z0);
        absorb_all(&mut t, zi);
        t.append(scalar_as_base::<S, B>(&self.u));
        let l0 = f_to_nat(&self.x[0]);
        let l1 = f_to_nat(&self.x[1]);
        absorb_limbs(&mut t, &l0);
        absorb_limbs(&mut t, &l1);
        absorb_descaled(&mut t, &self.commit_e);
        absorb_descaled(&mut t, &self.commit_w);
        proof {
            assert(t.absorbed() =~= hash_input(self, i as nat, vals(z0@), vals(zi@)));
        }
        t.squeeze()
    }
}

} // verus!
