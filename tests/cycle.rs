use nova_fold::bignat::{f_to_nat, nat_to_f};
use nova_fold::curve::Point;
use nova_fold::field::{Goldilocks, Mersenne61, PrimeField, GOLDILOCKS_P, MERSENNE61_P};
use nova_fold::r1cs::ConstraintSystem;
use nova_fold::relaxed::{scalar_as_base, RelaxedR1csInstance};
use nova_fold::relaxed_gadget::RelaxedR1csInstanceAssignment;

fn hash_agrees<B: PrimeField, S: PrimeField>(inst: &RelaxedR1csInstance<B, S>, i: u64, z: &Vec<B>) -> bool {
    let native = inst.hash(i, z, z);
    let mut cs: ConstraintSystem<B> = ConstraintSystem::new();
    let i_assignment = cs.alloc_public(B::from_u64(i));
    let z_0 = z.iter().map(|x| cs.alloc_public(*x)).collect::<Vec<_>>();
    let z_i = z.iter().map(|x| cs.alloc_public(*x)).collect::<Vec<_>>();
    let asg = RelaxedR1csInstanceAssignment::witness(&mut cs, inst);
    let h = asg.hash(&mut cs, i_assignment, z_0, z_i);
    cs.enforce_eq_constant(&h, &native);
    cs.is_sat()
}

#[test]
fn hash_agreement_goldilocks_circuit_mersenne_scalars() {
    let inst: RelaxedR1csInstance<Goldilocks, Mersenne61> = RelaxedR1csInstance {
        commit_w: Point { x: Goldilocks::from_u64(101), y: Goldilocks::from_u64(202), is_identity: false },
        commit_e: Point { x: Goldilocks::from_u64(0), y: Goldilocks::from_u64(1), is_identity: true },
        u: Mersenne61::from_u64(MERSENNE61_P - 1),
        x: vec![Mersenne61::from_u64(0x1fff_ffff_ffff_0000), Mersenne61::from_u64(17)],
    };
    assert!(hash_agrees(&inst, 5, &vec![Goldilocks::from_u64(9)]));
}

#[test]
fn hash_agreement_mersenne_circuit_goldilocks_scalars() {
    let inst: RelaxedR1csInstance<Mersenne61, Goldilocks> = RelaxedR1csInstance {
        commit_w: Point { x: Mersenne61::from_u64(3), y: Mersenne61::from_u64(4), is_identity: false },
        commit_e: Point { x: Mersenne61::from_u64(5), y: Mersenne61::from_u64(6), is_identity: false },
        u: Goldilocks::from_u64(GOLDILOCKS_P - 2),
        x: vec![Goldilocks::from_u64(GOLDILOCKS_P - 1), Goldilocks::from_u64(0)],
    };
    assert!(hash_agrees(&inst, 0, &vec![Mersenne61::from_u64(1), Mersenne61::from_u64(2)]));
}

#[test]
fn scalar_read_in_smaller_base_field_is_reduced() {
    let s = Goldilocks::from_u64(MERSENNE61_P + 5);
    let b: Mersenne61 = scalar_as_base(&s);
    assert_eq!(b.to_u64(), 5);
}

#[test]
fn foreign_limbs_round_trip() {
    let x = Goldilocks::from_u64(GOLDILOCKS_P - 1);
    let limbs = f_to_nat(&x);
    assert_eq!(limbs, vec![0, 0xffff_ffff]);
    let back: Goldilocks = nat_to_f(&limbs);
    assert_eq!(back.to_u64(), GOLDILOCKS_P - 1);
    // Reassembled in the smaller field, the value is reduced there.
    let other: Mersenne61 = nat_to_f(&limbs);
    assert_eq!(other.to_u64(), (GOLDILOCKS_P - 1) % MERSENNE61_P);
}

#[test]
fn mersenne_arithmetic() {
    let a = Mersenne61::from_u64(MERSENNE61_P - 1);
    assert_eq!(a.add(&Mersenne61::from_u64(3)).to_u64(), 2);
    assert_eq!(a.mul(&a).to_u64(), 1);
    assert_eq!(a.invert().unwrap().to_u64(), MERSENNE61_P - 1);
}
