use nova_fold::bignat::{f_to_nat, nat_to_f};
use nova_fold::field::{Goldilocks, PrimeField, GOLDILOCKS_P};

#[test]
fn limbs_round_trip() {
    for v in [0u64, 1, 0xffff_ffff, 0x1_0000_0000, 0x0123_4567_89ab_cdef, GOLDILOCKS_P - 1] {
        let x = Goldilocks::from_u64(v);
        let limbs = f_to_nat(&x);
        assert_eq!(limbs.len(), 2);
        let back: Goldilocks = nat_to_f(&limbs);
        assert_eq!(back.to_u64(), v);
    }
}

#[test]
fn limbs_exact_values() {
    let x = Goldilocks::from_u64(0x0123_4567_89ab_cdef);
    assert_eq!(f_to_nat(&x), vec![0x89ab_cdef, 0x0123_4567]);
}
