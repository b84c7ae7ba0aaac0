use nova_fold::curve::Point;
use nova_fold::field::{Goldilocks, PrimeField};
use nova_fold::r1cs::ConstraintSystem;
use nova_fold::relaxed::{scalar_as_base, R1csInstance, RelaxedR1csInstance};
use nova_fold::relaxed_gadget::{R1csInstanceAssignment, RelaxedR1csInstanceAssignment};
use nova_fold::circuit::PointAssignment;
use nova_fold::gadget::BinaryAssignment;

fn fe(v: u64) -> Goldilocks {
    Goldilocks::from_u64(v)
}

fn sample_instance() -> RelaxedR1csInstance<Goldilocks, Goldilocks> {
    let x = fe(0x0123_4567_89ab_cdef);
    RelaxedR1csInstance {
        commit_e: Point { x: fe(11), y: fe(22), is_identity: false },
        u: fe(0xfeed_f00d_1234),
        commit_w: Point { x: fe(33), y: fe(44), is_identity: false },
        x: vec![x, x],
    }
}

#[test]
fn instance_assignment_hash() {
    let mut cs: ConstraintSystem<Goldilocks> = ConstraintSystem::new();
    let instance = sample_instance();

    let i: u64 = 3;
    let z_0 = vec![fe(3)];
    let z_i = z_0.clone();

    let hash = instance.hash(i, &z_0, &z_i);

    let i_assignment = cs.alloc_public(fe(i));
    let z_0_assignment = z_0.iter().map(|x| cs.alloc_public(*x)).collect::<Vec<_>>();
    let z_i_assignment = z_i.iter().map(|x| cs.alloc_public(*x)).collect::<Vec<_>>();
    let instance_assignment = RelaxedR1csInstanceAssignment::witness(&mut cs, &instance);

    let hash_circuit = instance_assignment.hash(&mut cs, i_assignment, z_0_assignment, z_i_assignment);

    cs.enforce_eq_constant(&hash_circuit, &hash);
    assert!(cs.is_sat());
}

#[test]
fn instance_hash_detects_other_step() {
    let mut cs: ConstraintSystem<Goldilocks> = ConstraintSystem::new();
    let instance = sample_instance();
    let z_0 = vec![fe(3)];
    let hash = instance.hash(4, &z_0, &z_0);

    let i_assignment = cs.alloc_public(fe(3));
    let z_0_assignment = vec![cs.alloc_public(fe(3))];
    let z_i_assignment = vec![cs.alloc_public(fe(3))];
    let instance_assignment = RelaxedR1csInstanceAssignment::witness(&mut cs, &instance);
    let hash_circuit = instance_assignment.hash(&mut cs, i_assignment, z_0_assignment, z_i_assignment);
    cs.enforce_eq_constant(&hash_circuit, &hash);
    assert!(!cs.is_sat());
}

#[test]
fn instance_hash_with_identity_error_commitment() {
    let mut cs: ConstraintSystem<Goldilocks> = ConstraintSystem::new();
    let mut instance = sample_instance();
    instance.commit_e = Point { x: fe(5), y: fe(9), is_identity: true };
    let z_0 = vec![fe(1), fe(2)];
    let z_i = vec![fe(7), fe(8)];
    let hash = instance.hash(9, &z_0, &z_i);

    let i_assignment = cs.alloc_public(fe(9));
    let z_0_assignment = z_0.iter().map(|x| cs.alloc_public(*x)).collect::<Vec<_>>();
    let z_i_assignment = z_i.iter().map(|x| cs.alloc_public(*x)).collect::<Vec<_>>();
    let instance_assignment = RelaxedR1csInstanceAssignment::witness(&mut cs, &instance);
    let hash_circuit = instance_assignment.hash(&mut cs, i_assignment, z_0_assignment, z_i_assignment);
    cs.enforce_eq_constant(&hash_circuit, &hash);
    assert!(cs.is_sat());
}

#[test]
fn relaxed_instance_assignment() {
    let mut cs: ConstraintSystem<Goldilocks> = ConstraintSystem::new();
    let instance = sample_instance();

    let instance_assignment = RelaxedR1csInstanceAssignment::witness(&mut cs, &instance);
    let u_base: Goldilocks = scalar_as_base(&instance.u);
    cs.enforce_eq_constant(&instance_assignment.u, &u_base);

    cs.enforce_eq_constant(&instance_assignment.commit_e.x, &instance.commit_e.x);
    cs.enforce_eq_constant(&instance_assignment.commit_e.y, &instance.commit_e.y);
    cs.enforce_eq_constant(&instance_assignment.commit_w.x, &instance.commit_w.x);
    cs.enforce_eq_constant(&instance_assignment.commit_w.y, &instance.commit_w.y);

    assert!(cs.is_sat());
}

#[test]
fn lifted_instance_has_unit_u_and_identity_error() {
    let inst = R1csInstance { commit_w: Point { x: fe(1), y: fe(2), is_identity: false }, x: vec![fe(5), fe(6)] };
    let lifted = RelaxedR1csInstance::from_r1cs_instance(inst);
    assert_eq!(lifted.u.to_u64(), 1);
    assert!(lifted.commit_e.is_identity);
    assert_eq!(lifted.x[0].to_u64(), 5);
    assert_eq!(lifted.x[1].to_u64(), 6);
}

#[test]
fn lifted_assignment_has_unit_u_and_identity_error() {
    let mut cs: ConstraintSystem<Goldilocks> = ConstraintSystem::new();
    let commit_w = PointAssignment::witness(&mut cs, &Point { x: fe(1), y: fe(2), is_identity: false });
    let x0 = cs.alloc_public(fe(0x1_0000_0005));
    let x1 = cs.alloc_public(fe(6));
    let lifted = RelaxedR1csInstanceAssignment::from_r1cs_instance(&mut cs, R1csInstanceAssignment { commit_w, x0, x1 });
    assert_eq!(cs.evaluate(&lifted.u).to_u64(), 1);
    assert_eq!(cs.evaluate(&lifted.commit_e.x).to_u64(), 0);
    assert_eq!(cs.evaluate(&lifted.commit_e.y).to_u64(), 1);
    assert_eq!(cs.evaluate(&lifted.commit_e.z).to_u64(), 0);
    let limbs = lifted.x0.as_limbs();
    assert_eq!(cs.evaluate(&limbs[0]).to_u64(), 5);
    assert_eq!(cs.evaluate(&limbs[1]).to_u64(), 1);
    assert!(cs.is_sat());
}

#[test]
fn conditional_select_picks_by_bit() {
    let mut cs: ConstraintSystem<Goldilocks> = ConstraintSystem::new();
    let a_inst = sample_instance();
    let mut b_inst = sample_instance();
    b_inst.u = fe(77);
    b_inst.commit_w = Point { x: fe(0), y: fe(1), is_identity: true };
    let a = RelaxedR1csInstanceAssignment::witness(&mut cs, &a_inst);
    let b = RelaxedR1csInstanceAssignment::witness(&mut cs, &b_inst);
    let one = BinaryAssignment::witness(&mut cs, true);
    let zero = BinaryAssignment::witness(&mut cs, false);
    let pick_a = RelaxedR1csInstanceAssignment::conditional_select(&mut cs, &a, &b, &one);
    let pick_b = RelaxedR1csInstanceAssignment::conditional_select(&mut cs, &a, &b, &zero);
    assert_eq!(cs.evaluate(&pick_a.u).to_u64(), 0xfeed_f00d_1234);
    assert_eq!(cs.evaluate(&pick_b.u).to_u64(), 77);
    assert_eq!(cs.evaluate(&pick_a.commit_w.z).to_u64(), 1);
    assert_eq!(cs.evaluate(&pick_b.commit_w.z).to_u64(), 0);
    assert!(cs.is_sat());
}

#[test]
fn conditional_select_footprint_ignores_bit() {
    let mut counts = Vec::new();
    for bit in [false, true] {
        let mut cs: ConstraintSystem<Goldilocks> = ConstraintSystem::new();
        let a = RelaxedR1csInstanceAssignment::witness(&mut cs, &sample_instance());
        let b = RelaxedR1csInstanceAssignment::witness(&mut cs, &sample_instance());
        let sel = BinaryAssignment::witness(&mut cs, bit);
        let before = (cs.wire_values.len(), cs.constraints.len());
        let _ = RelaxedR1csInstanceAssignment::conditional_select(&mut cs, &a, &b, &sel);
        counts.push((cs.wire_values.len() - before.0, cs.constraints.len() - before.1));
        assert!(cs.is_sat());
    }
    assert_eq!(counts[0], counts[1]);
    assert_eq!(counts[0], (11, 11));
}

#[test]
fn mimc_circuit_footprint() {
    let mut cs: ConstraintSystem<Goldilocks> = ConstraintSystem::new();
    let m = nova_fold::circuit::MimcAssignment::<Goldilocks>::new();
    let xl = cs.alloc_public(fe(1));
    let xr = cs.alloc_public(fe(2));
    let before = cs.constraints.len();
    let _ = m.hash(&mut cs, xl, xr);
    assert_eq!(cs.constraints.len() - before, 2 * nova_fold::hash::MIMC_ROUNDS);
}
