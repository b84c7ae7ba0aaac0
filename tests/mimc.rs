use nova_fold::field::{Goldilocks, PrimeField};
use nova_fold::hash::{Mimc, MIMC_ROUNDS};

#[test]
fn round_constants_are_a_digest_chain() {
    let m = Mimc::<Goldilocks>::new();
    let cs = m.constants();
    assert_eq!(cs.len(), MIMC_ROUNDS);
    // Each constant comes from a fresh digest, so neighbours differ.
    for i in 1..cs.len() {
        assert_ne!(cs[i - 1].to_u64(), cs[i].to_u64());
    }
    // Derivation is deterministic.
    let again = Mimc::<Goldilocks>::new();
    assert_eq!(again.constants()[7].to_u64(), cs[7].to_u64());
}

#[test]
fn permutation_matches_round_formula() {
    let m = Mimc::<Goldilocks>::new();
    let mut xl = Goldilocks::from_u64(12345);
    let mut xr = Goldilocks::from_u64(678);
    let out = m.hash(xl, xr);
    for c in m.constants().iter() {
        let t = xl.add(c);
        let next = t.mul(&t).mul(&t).add(&xr);
        xr = xl;
        xl = next;
    }
    assert_eq!(out.to_u64(), xl.to_u64());
}
