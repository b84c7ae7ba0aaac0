use nova_fold::field::{Goldilocks, PrimeField, GOLDILOCKS_P};
use nova_fold::kzg::Witness;
use nova_fold::r1cs::{ConstraintSystem, Expression, Wire};

fn fe(v: u64) -> Goldilocks {
    Goldilocks::from_u64(v)
}

#[test]
fn field_arithmetic_wraps() {
    assert_eq!(fe(GOLDILOCKS_P - 1).add(&fe(2)).to_u64(), 1);
    assert_eq!(fe(1).sub(&fe(2)).to_u64(), GOLDILOCKS_P - 1);
    assert_eq!(fe(1 << 32).mul(&fe(1 << 32)).to_u64(), 0xffff_ffff);
    let inv = fe(3).invert().unwrap();
    assert_eq!(inv.mul(&fe(3)).to_u64(), 1);
    assert!(fe(0).invert().is_none());
    assert_eq!(fe(GOLDILOCKS_P).to_u64(), 0);
}

#[test]
fn bytes_round_trip() {
    let x = fe(0x0102_0304_0506_0708);
    let b = x.to_le_bytes();
    assert_eq!(b, vec![8, 7, 6, 5, 4, 3, 2, 1]);
    assert_eq!(Goldilocks::from_le_bytes(&b).to_u64(), 0x0102_0304_0506_0708);
}

#[test]
fn product_and_inverse_gadgets() {
    let mut cs: ConstraintSystem<Goldilocks> = ConstraintSystem::new();
    let x = cs.alloc_public(fe(6));
    let y = cs.alloc_public(fe(7));
    let p = cs.product(&x, &y);
    assert_eq!(cs.evaluate(&p).to_u64(), 42);
    let c = Expression::constant(&fe(5));
    let q = cs.product(&c, &y);
    assert_eq!(cs.evaluate(&q).to_u64(), 35);
    let inv = cs.inverse(&x).unwrap();
    assert_eq!(cs.evaluate(&inv).mul(&fe(6)).to_u64(), 1);
    let zero = cs.alloc_public(fe(0));
    assert!(cs.inverse(&zero).is_none());
    assert!(cs.is_sat());
    cs.enforce_eq_constant(&p, &fe(41));
    assert!(!cs.is_sat());
}

#[test]
fn wire_order_by_index() {
    assert_eq!(Wire::one(), Wire::Instance(0));
    assert_eq!(Wire::Witness(3).cmp(&Wire::Instance(5)), core::cmp::Ordering::Less);
    assert_eq!(Wire::Witness(5).cmp(&Wire::Instance(5)), core::cmp::Ordering::Equal);
    assert_eq!(Wire::Instance(9).index(), 9);
}

#[test]
fn opening_check() {
    // p(x) = x^2 + 1 at a = 2: p(a) = 5; q(x) = x + 2; s = 10: p(s) = 101, q(s) = 12, s - a = 8.
    let ok = Witness { s_eval: fe(101), a_eval: fe(5), q_eval: fe(12), denominator: fe(8) };
    assert!(ok.verify_eval());
    let bad = Witness { s_eval: fe(101), a_eval: fe(6), q_eval: fe(12), denominator: fe(8) };
    assert!(!bad.verify_eval());
}

#[test]
fn product_footprint() {
    let mut cs: ConstraintSystem<Goldilocks> = ConstraintSystem::new();
    let x = cs.alloc_public(fe(6));
    let y = cs.alloc_public(fe(7));
    let (w0, c0) = (cs.wire_values.len(), cs.constraints.len());
    let c = Expression::constant(&fe(5));
    let _ = cs.product(&c, &y);
    assert_eq!((cs.wire_values.len(), cs.constraints.len()), (w0, c0));
    let _ = cs.product(&x, &y);
    assert_eq!((cs.wire_values.len(), cs.constraints.len()), (w0 + 1, c0 + 1));
}
