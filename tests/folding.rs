use nova_fold::curve::GoldilocksAdditive;
use nova_fold::field::{Goldilocks, PrimeField};
use nova_fold::folding::{Prover, R1csShape, RelaxedPair, StepPair};
use nova_fold::pedersen::PedersenCommitment;

fn fe(v: u64) -> Goldilocks {
    Goldilocks::from_u64(v)
}

fn pt(v: u64) -> GoldilocksAdditive {
    GoldilocksAdditive { v: fe(v) }
}

/// One constraint over z = (x0, x1, w0): x0 * w0 = x1, an identity step when w0 = 1.
fn toy_shape() -> R1csShape<Goldilocks> {
    R1csShape {
        a: vec![vec![fe(1), fe(0), fe(0)]],
        b: vec![vec![fe(0), fe(0), fe(1)]],
        c: vec![vec![fe(0), fe(1), fe(0)]],
    }
}

fn toy_prover() -> Prover<GoldilocksAdditive, Goldilocks> {
    Prover {
        shape: toy_shape(),
        pp: PedersenCommitment { basis: vec![pt(0x1111), pt(0x2222_3333), pt(0x4444_5555_6666)], h: pt(0x7777_8888_9999) },
    }
}

fn vals(v: &[Goldilocks]) -> Vec<u64> {
    v.iter().map(|x| x.to_u64()).collect()
}

fn step(prover: &Prover<GoldilocksAdditive, Goldilocks>, x: u64, r_w: u64) -> StepPair<GoldilocksAdditive, Goldilocks> {
    let w = vec![fe(1)];
    let commit_w = prover.pp.commit(&w, &fe(r_w)).unwrap();
    StepPair { commit_w, x: vec![fe(x), fe(x)], w, r_w: fe(r_w) }
}

fn base(prover: &Prover<GoldilocksAdditive, Goldilocks>) -> RelaxedPair<GoldilocksAdditive, Goldilocks> {
    let w = vec![fe(1)];
    let e = vec![fe(0)];
    RelaxedPair {
        commit_w: prover.pp.commit(&w, &fe(5)).unwrap(),
        commit_e: prover.pp.commit(&e, &fe(0)).unwrap(),
        u: fe(1),
        x: vec![fe(7), fe(7)],
        w,
        e,
        r_w: fe(5),
        r_e: fe(0),
    }
}

#[test]
fn two_step_chain_verifies() {
    let prover = toy_prover();
    let mut running = base(&prover);
    assert!(prover.verify(&running));
    for s in 0..2u64 {
        let fresh = step(&prover, 7 + s, 3 + s);
        running = prover.prove(&fresh, &running, &fe(11 + s));
        assert!(prover.verify(&running));
    }
    // Tampering with the folded witness breaks verification.
    let mut tampered = running.w.clone();
    tampered[0] = tampered[0].add(&fe(1));
    let bad = RelaxedPair { w: tampered, ..running };
    assert!(!prover.verify(&bad));
}

#[test]
fn two_step_chain_with_commitments() {
    let prover = toy_prover();
    let mut running = base(&prover);
    for s in 0..2u64 {
        let fresh = step(&prover, 7, 13 + s);
        running = prover.prove(&fresh, &running, &fe(21 + s));
    }
    assert!(prover.verify(&running));
    // Flipping one byte of commit_W makes verification fail.
    let mut bytes = running.commit_w.v.to_le_bytes();
    bytes[0] ^= 1;
    let flipped = GoldilocksAdditive { v: Goldilocks::from_le_bytes(&bytes) };
    let bad = RelaxedPair { commit_w: flipped, ..running };
    assert!(!prover.verify(&bad));
}

#[test]
fn folded_error_commitment_opens() {
    let prover = toy_prover();
    // A running pair with a non-zero slack: u = 2, z = (2, 5, 4): 2*4 = 2*5 + E => E = -2.
    let e = vec![fe(0).sub(&fe(2))];
    let w = vec![fe(4)];
    let running = RelaxedPair {
        commit_w: prover.pp.commit(&w, &fe(8)).unwrap(),
        commit_e: prover.pp.commit(&e, &fe(9)).unwrap(),
        u: fe(2),
        x: vec![fe(2), fe(5)],
        w,
        e,
        r_w: fe(8),
        r_e: fe(9),
    };
    assert!(prover.verify(&running));
    let out = prover.prove(&step(&prover, 6, 1), &running, &fe(4));
    assert!(prover.verify(&out));
    assert_ne!(vals(&out.e), vec![0]);
}

#[test]
fn prove_is_deterministic() {
    let prover = toy_prover();
    let running = base(&prover);
    let fresh = step(&prover, 6, 2);
    let a = prover.prove(&fresh, &running, &fe(3));
    let b = prover.prove(&fresh, &running, &fe(3));
    assert_eq!(a.u.to_u64(), b.u.to_u64());
    assert_eq!(vals(&a.x), vals(&b.x));
    assert_eq!(vals(&a.w), vals(&b.w));
    assert_eq!(vals(&a.e), vals(&b.e));
    assert_eq!(a.commit_w.v.to_u64(), b.commit_w.v.to_u64());
    assert_eq!(a.commit_e.v.to_u64(), b.commit_e.v.to_u64());
    assert_eq!(a.r_w.to_u64(), b.r_w.to_u64());
    assert_eq!(a.r_e.to_u64(), b.r_e.to_u64());
}

#[test]
fn challenge_binds_commit_t() {
    let prover = toy_prover();
    let running = base(&prover);
    let fresh = step(&prover, 6, 2);
    let a = prover.prove(&fresh, &running, &fe(3));
    let b = prover.prove(&fresh, &running, &fe(4));
    // Another blinding of T changes commit_T, hence the challenge and u'.
    assert_ne!(a.u.to_u64(), b.u.to_u64());
}

#[test]
fn cross_term_exact_value() {
    let prover = toy_prover();
    // z1 = (2, 6, 3), z2 = (5, 1, 4), u2 = 7:
    // A z2 * B z1 + A z1 * B z2 - C z2 - u2 C z1 = 5*3 + 2*4 - 1 - 7*6 = -20.
    let t = prover.compute_cross_term(&vec![fe(2), fe(6), fe(3)], &fe(7), &vec![fe(5), fe(1), fe(4)]);
    assert_eq!(t.len(), 1);
    assert_eq!(t[0].to_u64(), nova_fold::field::GOLDILOCKS_P - 20);
}

#[test]
fn unsatisfied_plain_instance_is_rejected() {
    let shape = toy_shape();
    assert!(!shape.is_satisfied(&fe(1), &vec![fe(2), fe(5), fe(3)], &vec![fe(0)]));
    assert!(!shape.is_satisfied(&fe(1), &vec![fe(2), fe(6), fe(3)], &vec![]));
}
