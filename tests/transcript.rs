use nova_fold::circuit::{MimcROCircuit, PointAssignment};
use nova_fold::curve::Point;
use nova_fold::field::{Goldilocks, PrimeField};
use nova_fold::hash::MimcRO;
use nova_fold::r1cs::ConstraintSystem;

fn fe(v: u64) -> Goldilocks {
    Goldilocks::from_u64(v)
}

#[test]
fn mimc_circuit() {
    let mut mimc = MimcRO::<Goldilocks>::new();
    let mut mimc_circuit = MimcROCircuit::<Goldilocks>::new();
    let mut cs: ConstraintSystem<Goldilocks> = ConstraintSystem::new();
    let point = Point { x: fe(0x1234_5678_9abc), y: fe(0xfeed_beef), is_identity: false };
    let scalar = fe(0xdead_beef_0042);

    let point_assignment = PointAssignment::witness(&mut cs, &point);
    let scalar_assignment = cs.alloc_public(scalar);
    mimc.append(scalar);
    mimc.append_point(&point);
    mimc_circuit.append(scalar_assignment);
    mimc_circuit.append_point(&point_assignment);

    let expected = mimc.squeeze();
    let circuit_result = mimc_circuit.squeeze(&mut cs);
    cs.enforce_eq_constant(&circuit_result, &expected);
    assert!(cs.is_sat());
}

#[test]
fn transcript_mismatch_is_unsatisfiable() {
    let mut mimc = MimcRO::<Goldilocks>::new();
    let mut mimc_circuit = MimcROCircuit::<Goldilocks>::new();
    let mut cs: ConstraintSystem<Goldilocks> = ConstraintSystem::new();
    let a = cs.alloc_public(fe(3));
    mimc.append(fe(4));
    mimc_circuit.append(a);
    let expected = mimc.squeeze();
    let circuit_result = mimc_circuit.squeeze(&mut cs);
    cs.enforce_eq_constant(&circuit_result, &expected);
    assert!(!cs.is_sat());
}

#[test]
fn empty_transcript_squeezes_to_key() {
    let mimc = MimcRO::<Goldilocks>::new();
    assert_eq!(mimc.squeeze().to_u64(), 0);
}

#[test]
fn identity_point_absorbs_zero_flag() {
    let mut with_identity = MimcRO::<Goldilocks>::new();
    let mut explicit = MimcRO::<Goldilocks>::new();
    let p = Point { x: fe(0), y: fe(1), is_identity: true };
    with_identity.append_point(&p);
    explicit.append(fe(0));
    explicit.append(fe(1));
    explicit.append(fe(0));
    assert_eq!(with_identity.squeeze().to_u64(), explicit.squeeze().to_u64());
}
