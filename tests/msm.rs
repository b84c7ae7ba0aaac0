use nova_fold::curve::{CurveExtended, GoldilocksAdditive};
use nova_fold::field::{Goldilocks, PrimeField, GOLDILOCKS_P};
use nova_fold::msm::{get_at, msm_curve_addition, window_width};
use nova_fold::pedersen::{fold_commitment, PedersenCommitment};

fn fe(v: u64) -> Goldilocks {
    Goldilocks::from_u64(v)
}

fn pt(v: u64) -> GoldilocksAdditive {
    GoldilocksAdditive { v: fe(v) }
}

/// Double-and-add, scalar bits from the top.
fn naive_mul(point: GoldilocksAdditive, k: u64) -> GoldilocksAdditive {
    let mut res = GoldilocksAdditive::identity();
    for bit in (0..64).rev() {
        res = res.double();
        if (k >> bit) & 1 == 1 {
            res = res.add(&point);
        }
    }
    res
}

fn naive_msm(points: &[GoldilocksAdditive], scalars: &[Goldilocks]) -> GoldilocksAdditive {
    points
        .iter()
        .zip(scalars.iter())
        .fold(GoldilocksAdditive::identity(), |acc, (p, s)| acc.add(&naive_mul(*p, s.to_u64())))
}

/// A deterministic stream of field elements.
fn stream(seed: u64, n: usize) -> Vec<u64> {
    let mut x = seed;
    (0..n)
        .map(|_| {
            x = x.wrapping_mul(6364136223846793005).wrapping_add(1442695040888963407);
            x
        })
        .collect()
}

fn check_size(n: usize) {
    let points = stream(1 + n as u64, n).into_iter().map(pt).collect::<Vec<_>>();
    let scalars = stream(1000 + n as u64, n).into_iter().map(fe).collect::<Vec<_>>();
    let msm = msm_curve_addition(&points, &scalars);
    let naive = naive_msm(&points, &scalars);
    assert_eq!(msm.v.to_u64(), naive.v.to_u64());
}

#[test]
fn multi_scalar_multiplication_test() {
    check_size(1 << 5);
}

#[test]
fn msm_sizes() {
    for n in [0usize, 1, 4, 1000] {
        check_size(n);
    }
}

#[test]
fn msm_empty_is_identity() {
    let r = msm_curve_addition::<GoldilocksAdditive, Goldilocks>(&vec![], &vec![]);
    assert_eq!(r.v.to_u64(), 0);
}

#[test]
fn msm_exact_value() {
    let points = vec![pt(2), pt(3), pt(5)];
    let scalars = vec![fe(7), fe(11), fe(GOLDILOCKS_P - 1)];
    // 7*2 + 11*3 - 5 = 42
    assert_eq!(msm_curve_addition(&points, &scalars).v.to_u64(), 42);
}

#[test]
fn window_widths_and_digits() {
    assert_eq!(window_width(3), 1);
    assert_eq!(window_width(31), 3);
    assert_eq!(window_width(32), 6 * 69 / 100 + 2);
    assert_eq!(window_width(1000), 10 * 69 / 100 + 2);
    assert_eq!(get_at(0, 3, 0b110_101), 0b101);
    assert_eq!(get_at(1, 3, 0b110_101), 0b110);
    assert_eq!(get_at(22, 3, u64::MAX), 0);
    assert_eq!(get_at(21, 3, u64::MAX), 1);
}

#[test]
fn pedersen_commit_and_homomorphism() {
    let pp = PedersenCommitment { basis: vec![pt(3), pt(10), pt(17)], h: pt(1000) };
    let a = vec![fe(1), fe(2)];
    let b = vec![fe(5), fe(GOLDILOCKS_P - 1)];
    let ca = pp.commit(&a, &fe(7)).unwrap();
    let cb = pp.commit(&b, &fe(9)).unwrap();
    // 1*3 + 2*10 + 7*1000
    assert_eq!(ca.v.to_u64(), 7023);
    let sum = vec![a[0].add(&b[0]), a[1].add(&b[1])];
    let cab = pp.commit(&sum, &fe(16)).unwrap();
    assert_eq!(ca.add(&cb).v.to_u64(), cab.v.to_u64());
}

#[test]
fn pedersen_rejects_oversize_vector() {
    let pp = PedersenCommitment { basis: vec![pt(3)], h: pt(1000) };
    assert!(pp.commit(&vec![fe(1), fe(2)], &fe(0)).is_none());
    assert!(pp.commit(&vec![], &fe(2)).is_some());
}

#[test]
fn commitment_of_fold_is_fold_of_commitments() {
    let pp = PedersenCommitment { basis: vec![pt(3), pt(10)], h: pt(1000) };
    let w1 = vec![fe(4), fe(5)];
    let w2 = vec![fe(6), fe(GOLDILOCKS_P - 7)];
    let r = fe(9);
    let folded = vec![w1[0].add(&r.mul(&w2[0])), w1[1].add(&r.mul(&w2[1]))];
    let blind = fe(2).add(&r.mul(&fe(3)));
    let c1 = pp.commit(&w1, &fe(2)).unwrap();
    let c2 = pp.commit(&w2, &fe(3)).unwrap();
    let lhs = pp.commit(&folded, &blind).unwrap();
    let rhs = fold_commitment(&c1, &r, &c2);
    assert_eq!(lhs.v.to_u64(), rhs.v.to_u64());
}
