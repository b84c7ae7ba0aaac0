//! Relaxed R1CS folding: the cross term, the fold of two instance/witness
//! pairs, and the relation they satisfy.
use crate::field::{vals, PrimeField};
use crate::hash::{mimc_constants, squeeze_spec, MimcRO};
use crate::relaxed::absorb_all;
use crate::curve::CurveExtended;
use crate::msm::{elems, lemma_lincomb_valid, lemma_smul_valid, lincomb, smul};
use crate::pedersen::{
    commit_spec, fold_commitment, fold_mod, lemma_commit_fold, lemma_commit_scale, lemma_smul_distrib, lemma_smul_mul,
    vscale_mod, PedersenCommitment,
};
use vstd::arithmetic::div_mod::{
    lemma_add_mod_noop, lemma_fundamental_div_mod, lemma_mod_multiples_vanish, lemma_mul_mod_noop_left,
    lemma_mul_mod_noop_right, lemma_small_mod,
};
use vstd::arithmetic::mul::{
    lemma_mul_is_associative, lemma_mul_is_commutative, lemma_mul_is_distributive_add,
    lemma_mul_is_distributive_add_other_way,
};
use vstd::prelude::*;

verus! {

/// `sum(a[j] * z[j])` over the common prefix of `a` and `z`.
pub open spec fn dot(a: Seq<nat>, z: Seq<nat>) -> int
    decreases a.len(),
{
    if a.len() == 0 || z.len() < a.len() {
        0
    } else {
        dot(a.drop_last(), z) + a.last() * z[a.len() - 1]
    }
}

/// Row `i` of `m` times `z`, reduced.
pub open spec fn row_dot(m: Seq<Seq<nat>>, i: int, z: Seq<nat>, p: nat) -> nat {
    (dot(m[i], z) % (p as int)) as nat
}

/// `m z`, reduced entry by entry.
pub open spec fn mat_vec(m: Seq<Seq<nat>>, z: Seq<nat>, p: nat) -> Seq<nat> {
    Seq::new(m.len(), |i: int| row_dot(m, i, z, p))
}

/// `A z o B z = u C z + E` holds row by row modulo `p`.
pub open spec fn relaxed_holds(
    a: Seq<Seq<nat>>,
    b: Seq<Seq<nat>>,
    c: Seq<Seq<nat>>,
    u: nat,
    z: Seq<nat>,
    e: Seq<nat>,
    p: nat,
) -> bool {
    &&& a.len() == b.len() && b.len() == c.len() && e.len() == a.len()
    &&& forall|i: int|
        0 <= i < a.len() ==> (#[trigger] row_dot(a, i, z, p) * row_dot(b, i, z, p)) % p == (u * row_dot(
            c,
            i,
            z,
            p,
        ) + e[i]) % p
}

/// Entry `i` of the cross term for a plain `z1` (u = 1) and a relaxed `(u2, z2)`:
/// `A z2 . B z1 + A z1 . B z2 - C z2 - u2 C z1`.
pub open spec fn cross_term_at(
    a: Seq<Seq<nat>>,
    b: Seq<Seq<nat>>,
    c: Seq<Seq<nat>>,
    z1: Seq<nat>,
    u2: nat,
    z2: Seq<nat>,
    p: nat,
    i: int,
) -> nat {
    ((row_dot(a, i, z2, p) * row_dot(b, i, z1, p) + row_dot(a, i, z1, p) * row_dot(b, i, z2, p) - row_dot(
        c,
        i,
        z2,
        p,
    ) - u2 * row_dot(c, i, z1, p)) % (p as int)) as nat
}

/// `v1 + r v2`, entry by entry, reduced.
pub open spec fn fold_at(v1: Seq<nat>, r: nat, v2: Seq<nat>, p: nat, j: int) -> nat {
    (v1[j] + r * v2[j]) % p
}

pub open spec fn fold_vec(v1: Seq<nat>, r: nat, v2: Seq<nat>, p: nat) -> Seq<nat> {
    Seq::new(v1.len(), |j: int| fold_at(v1, r, v2, p, j))
}

/// `E' = r T + r^2 E2` for a plain first pair (its slack is zero).
pub open spec fn folded_error_at(t: Seq<nat>, r: nat, e2: Seq<nat>, p: nat, i: int) -> nat {
    (r * t[i] + r * r * e2[i]) % p
}

/// Congruent summands give congruent sums.
proof fn lemma_add_cong(a: int, b: int, c: int, d: int, p: int)
    requires
        p > 0,
        a % p == c % p,
        b % p == d % p,
    ensures
        (a + b) % p == (c + d) % p,
{
    lemma_add_mod_noop(a, b, p);
    lemma_add_mod_noop(c, d, p);
}

/// `x % p == y % p` when `x - y` is a multiple of `p`.
proof fn lemma_cong_of_diff(x: int, y: int, k: int, p: int)
    requires
        p > 0,
        x - y == k * p,
    ensures
        x % p == y % p,
{
    lemma_mod_multiples_vanish(k, y, p);
    assert(x == p * k + y) by (nonlinear_arith)
        requires
            x - y == k * p,
    ;
}

/// The matrix-vector product is linear modulo `p`:
/// `dot(row, z1 + r z2) == dot(row, z1) + r dot(row, z2)`.
pub proof fn lemma_dot_linear(row: Seq<nat>, z1: Seq<nat>, r: nat, z2: Seq<nat>, p: nat)
    requires
        p > 0,
        z1.len() == z2.len(),
        row.len() <= z1.len(),
    ensures
        dot(row, fold_vec(z1, r, z2, p)) % (p as int) == (dot(row, z1) + r * dot(row, z2)) % (p as int),
    decreases row.len(),
{
    let zf = fold_vec(z1, r, z2, p);
    let pi = p as int;
    if row.len() > 0 {
        let n = row.len() - 1;
        lemma_dot_linear(row.drop_last(), z1, r, z2, p);
        let a = row.last() as int;
        let s1 = dot(row.drop_last(), z1);
        let s2 = dot(row.drop_last(), z2);
        let sf = dot(row.drop_last(), zf);
        assert(zf[n] == (z1[n] + r * z2[n]) % p);
        assert(dot(row, zf) == sf + a * zf[n]);
        assert(dot(row, z1) == s1 + a * z1[n]);
        assert(dot(row, z2) == s2 + a * z2[n]);
        lemma_mul_mod_noop_right(a, (z1[n] + r * z2[n]) as int, pi);
        assert(a * (z1[n] + r * z2[n]) == a * z1[n] + r * (a * z2[n])) by (nonlinear_arith);
        lemma_add_cong(sf, a * zf[n], s1 + r * s2, a * z1[n] + r * (a * z2[n]), pi);
        assert(s1 + r * s2 + (a * z1[n] + r * (a * z2[n])) == (s1 + a * z1[n]) + r * (s2 + a * z2[n]))
            by (nonlinear_arith);
    }
}

/// `x % p == y % p` gives `x - y = k p`.
proof fn lemma_diff_of_cong(x: int, y: int, p: int) -> (k: int)
    requires
        p > 0,
        x % p == y % p,
    ensures
        x - y == k * p,
{
    lemma_fundamental_div_mod(x, p);
    lemma_fundamental_div_mod(y, p);
    let k = x / p - y / p;
    assert(x - y == k * p) by (nonlinear_arith)
        requires
            x == p * (x / p) + x % p,
            y == p * (y / p) + y % p,
            x % p == y % p,
            k == x / p - y / p,
    ;
    k
}

/// One row of the fold: if `a1 b1 = c1` and `a2 b2 = u2 c2 + e2` modulo `p`, the
/// folded row satisfies the relaxed relation with `u = 1 + r u2` and the
/// folded slack `r T + r^2 e2`.
pub proof fn lemma_fold_row(a1: int, b1: int, c1: int, a2: int, b2: int, c2: int, u2: int, e2: int, r: int, p: int)
    requires
        p > 0,
        (a1 * b1) % p == c1 % p,
        (a2 * b2) % p == (u2 * c2 + e2) % p,
    ensures
        (((a1 + r * a2) % p) * ((b1 + r * b2) % p)) % p == (((1 + r * u2) % p) * ((c1 + r * c2) % p) + (r * ((
        a2 * b1 + a1 * b2 - c2 - u2 * c1) % p) + r * r * e2) % p) % p,
{
    let x = a1 + r * a2;
    let y = b1 + r * b2;
    let uu = 1 + r * u2;
    let cc = c1 + r * c2;
    let t = a2 * b1 + a1 * b2 - c2 - u2 * c1;
    // Left side: reduce the factors away.
    lemma_mul_mod_noop_left(x, y % p, p);
    lemma_mul_mod_noop_right(x, y, p);
    // Right side: product and slack.
    lemma_mul_mod_noop_left(uu, cc % p, p);
    lemma_mul_mod_noop_right(uu, cc, p);
    lemma_mul_mod_noop_right(r, t, p);
    vstd::arithmetic::div_mod::lemma_mod_twice(r * (t % p) + r * r * e2, p);
    lemma_add_cong(r * (t % p), r * r * e2, r * t, r * r * e2, p);
    lemma_add_cong(
        (uu % p) * (cc % p),
        (r * (t % p) + r * r * e2) % p,
        uu * cc,
        r * t + r * r * e2,
        p,
    );
    // The two sides differ by multiples of p.
    let k1 = lemma_diff_of_cong(a1 * b1, c1, p);
    let k2 = lemma_diff_of_cong(a2 * b2, u2 * c2 + e2, p);
    let rr = r * r;
    let pp = a1 * b1;
    let qq = a2 * b2;
    let m1 = a1 * b2 + a2 * b1;
    {
        lemma_mul_is_distributive_add_other_way(y, a1, r * a2);
        lemma_mul_is_distributive_add(a1, b1, r * b2);
        lemma_mul_is_distributive_add(r * a2, b1, r * b2);
        lemma_mul_is_associative(r, a2, b1);
        lemma_mul_is_commutative(a1, r);
        lemma_mul_is_associative(a1, r, b2);
        lemma_mul_is_associative(r, a1, b2);
        lemma_mul_is_associative(r * a2, r, b2);
        lemma_mul_is_associative(r, a2, r);
        lemma_mul_is_commutative(a2, r);
        lemma_mul_is_associative(r, r, a2);
        lemma_mul_is_associative(rr, a2, b2);
        lemma_mul_is_distributive_add(r, a1 * b2, a2 * b1);
        assert(x * y == a1 * y + (r * a2) * y);
        assert(a1 * y == pp + r * (a1 * b2));
        assert((r * a2) * y == r * (a2 * b1) + rr * qq);
    }
    let n1 = u2 * c1;
    let n2 = u2 * c2;
    assert(uu * cc == c1 + r * c2 + r * n1 + rr * n2) by (nonlinear_arith)
        requires
            uu == 1 + r * u2,
            cc == c1 + r * c2,
            rr == r * r,
            n1 == u2 * c1,
            n2 == u2 * c2,
    ;
    assert(r * t == r * m1 - r * c2 - r * n1) by (nonlinear_arith)
        requires
            t == a2 * b1 + a1 * b2 - c2 - u2 * c1,
            m1 == a1 * b2 + a2 * b1,
            n1 == u2 * c1,
    ;
    assert(rr * qq - rr * n2 - rr * e2 == rr * (k2 * p)) by (nonlinear_arith)
        requires
            qq - (n2 + e2) == k2 * p,
    ;
    assert(k1 * p + rr * (k2 * p) == (k1 + rr * k2) * p) by (nonlinear_arith);
    assert(x * y - (uu * cc + (r * t + r * r * e2)) == (k1 + r * r * k2) * p);
    lemma_cong_of_diff(x * y, uu * cc + (r * t + r * r * e2), k1 + r * r * k2, p);
}

/// Row `i` of `m (z1 + r z2)` is `row_i(z1) + r row_i(z2)` modulo `p`.
pub proof fn lemma_row_fold(m: Seq<Seq<nat>>, i: int, z1: Seq<nat>, r: nat, z2: Seq<nat>, p: nat)
    requires
        p > 0,
        0 <= i < m.len(),
        z1.len() == z2.len(),
        m[i].len() <= z1.len(),
    ensures
        row_dot(m, i, fold_vec(z1, r, z2, p), p) == (row_dot(m, i, z1, p) + r * row_dot(m, i, z2, p)) % p,
{
    let pi = p as int;
    lemma_dot_linear(m[i], z1, r, z2, p);
    let d1 = dot(m[i], z1);
    let d2 = dot(m[i], z2);
    lemma_mul_mod_noop_right(r as int, d2, pi);
    vstd::arithmetic::div_mod::lemma_mod_twice(d1, pi);
    lemma_add_cong(d1 % pi, r * (d2 % pi), d1, r * d2, pi);
}

/// The zero slack vector of a plain instance.
pub open spec fn zeros(m: nat) -> Seq<nat> {
    Seq::new(m, |i: int| 0nat)
}

/// The cross term of a plain `z1` and a relaxed `(u2, z2)`.
pub open spec fn cross_term(
    a: Seq<Seq<nat>>,
    b: Seq<Seq<nat>>,
    c: Seq<Seq<nat>>,
    z1: Seq<nat>,
    u2: nat,
    z2: Seq<nat>,
    p: nat,
) -> Seq<nat> {
    Seq::new(a.len(), |i: int| cross_term_at(a, b, c, z1, u2, z2, p, i))
}

pub open spec fn folded_error(t: Seq<nat>, r: nat, e2: Seq<nat>, p: nat) -> Seq<nat> {
    Seq::new(t.len(), |i: int| folded_error_at(t, r, e2, p, i))
}

/// Every row of every matrix fits the assignment length `n`.
pub open spec fn rows_fit(m: Seq<Seq<nat>>, n: nat) -> bool {
    forall|i: int| 0 <= i < m.len() ==> (#[trigger] m[i]).len() <= n
}

/// Folding soundness: folding a satisfying plain pair `(z1)` with a satisfying
/// relaxed pair `(u2, z2, E2)` under any challenge `r` yields a pair that
/// satisfies the relaxed relation with `u' = 1 + r u2`, `z' = z1 + r z2` and
/// `E' = r T + r^2 E2`. Applied step after step it covers chains of any length.
pub proof fn lemma_folding_soundness(
    a: Seq<Seq<nat>>,
    b: Seq<Seq<nat>>,
    c: Seq<Seq<nat>>,
    z1: Seq<nat>,
    u2: nat,
    z2: Seq<nat>,
    e2: Seq<nat>,
    r: nat,
    p: nat,
)
    requires
        p > 0,
        z1.len() == z2.len(),
        rows_fit(a, z1.len()) && rows_fit(b, z1.len()) && rows_fit(c, z1.len()),
        relaxed_holds(a, b, c, 1, z1, zeros(a.len()), p),
        relaxed_holds(a, b, c, u2, z2, e2, p),
    ensures
        relaxed_holds(
            a,
            b,
            c,
            (1 + r * u2) % p,
            fold_vec(z1, r, z2, p),
            folded_error(cross_term(a, b, c, z1, u2, z2, p), r, e2, p),
            p,
        ),
{
    let zf = fold_vec(z1, r, z2, p);
    let t = cross_term(a, b, c, z1, u2, z2, p);
    let ef = folded_error(t, r, e2, p);
    let uf = (1 + r * u2) % p;
    assert forall|i: int| 0 <= i < a.len() implies (#[trigger] row_dot(a, i, zf, p) * row_dot(b, i, zf, p)) % p
        == (uf * row_dot(c, i, zf, p) + ef[i]) % p by {
        let a1 = row_dot(a, i, z1, p);
        let b1 = row_dot(b, i, z1, p);
        let c1 = row_dot(c, i, z1, p);
        let a2 = row_dot(a, i, z2, p);
        let b2 = row_dot(b, i, z2, p);
        let c2 = row_dot(c, i, z2, p);
        lemma_row_fold(a, i, z1, r, z2, p);
        lemma_row_fold(b, i, z1, r, z2, p);
        lemma_row_fold(c, i, z1, r, z2, p);
        assert((a1 * b1) % p == (1 * c1 + zeros(a.len())[i]) % p);
        assert((a1 * b1) % p == c1 % p);
        assert((a2 * b2) % p == (u2 * c2 + e2[i]) % p);
        lemma_fold_row(a1 as int, b1 as int, c1 as int, a2 as int, b2 as int, c2 as int, u2 as int, e2[i] as int, r as int, p as int);
        assert(t[i] == cross_term_at(a, b, c, z1, u2, z2, p, i));
        assert(ef[i] == (r * t[i] + r * r * e2[i]) % p);
    }
}

/// Values of a matrix stored as rows.
pub open spec fn mat_vals<S: PrimeField>(m: Seq<Vec<S>>) -> Seq<Seq<nat>> {
    m.map_values(|row: Vec<S>| vals(row@))
}

/// `row . z` over the row's length, reduced.
fn dot_row<S: PrimeField>(row: &Vec<S>, z: &Vec<S>) -> (r: S)
    requires
        row@.len() <= z@.len(),
    ensures
        r.val() == (dot(vals(row@), vals(z@)) % (S::modulus() as int)) as nat,
{
    let ghost rv = vals(row@);
    let ghost zv = vals(z@);
    let ghost p = S::modulus() as int;
    proof {
        S::lemma_modulus();
        assert(rv.subrange(0, 0).len() == 0);
        lemma_small_mod(0, p as nat);
    }
    let mut acc = S::zero();
    let mut j: usize = 0;
    while j < row.len()
        invariant
            rv == vals(row@),
            zv == vals(z@),
            p == S::modulus() as int,
            p > 0,
            row@.len() <= z@.len(),
            j <= row@.len(),
            acc.val() == dot(rv.subrange(0, j as int), zv) % p,
        decreases row@.len() - j,
    {
        let prod = row[j].mul(&z[j]);
        let next = acc.add(&prod);
        proof {
            let pre = rv.subrange(0, j + 1);
            assert(pre.drop_last() =~= rv.subrange(0, j as int));
            assert(pre.last() == rv[j as int]);
            let d = dot(rv.subrange(0, j as int), zv);
            assert(dot(pre, zv) == d + rv[j as int] * zv[j as int]);
            let t = (rv[j as int] * zv[j as int]) as int;
            vstd::arithmetic::div_mod::lemma_mod_twice(d, p);
            vstd::arithmetic::div_mod::lemma_mod_twice(t, p);
            lemma_add_cong(d % p, t % p, d, t, p);
        }
        acc = next;
        j = j + 1;
    }
    proof {
        assert(rv.subrange(0, rv.len() as int) =~= rv);
    }
    acc
}

/// `m z`, row by row.
pub fn mat_vec_mul<S: PrimeField>(m: &Vec<Vec<S>>, z: &Vec<S>) -> (r: Vec<S>)
    requires
        rows_fit(mat_vals(m@), z@.len()),
    ensures
        vals(r@) == mat_vec(mat_vals(m@), vals(z@), S::modulus()),
{
    let ghost mv = mat_vals(m@);
    let mut out: Vec<S> = Vec::new();
    let mut i: usize = 0;
    while i < m.len()
        invariant
            mv == mat_vals(m@),
            rows_fit(mv, z@.len()),
            i <= m@.len(),
            vals(out@) == mat_vec(mv, vals(z@), S::modulus()).subrange(0, i as int),
        decreases m@.len() - i,
    {
        assert(mv[i as int].len() <= z@.len());
        assert(mv[i as int] == vals(m@[i as int]@));
        let d = dot_row(&m[i], z);
        let ghost before = out@;
        out.push(d);
        proof {
            let full = mat_vec(mv, vals(z@), S::modulus());
            assert(full.len() == mv.len());
            assert(mv.len() == m@.len());
            assert(full[i as int] == row_dot(mv, i as int, vals(z@), S::modulus()));
            assert(vals(out@) =~= vals(before).push(d.val()));
            assert(vals(out@) =~= mat_vec(mv, vals(z@), S::modulus()).subrange(0, i + 1));
        }
        i = i + 1;
    }
    proof {
        assert(mat_vec(mv, vals(z@), S::modulus()).len() == m@.len());
        assert(mat_vec(mv, vals(z@), S::modulus()).subrange(0, m@.len() as int) =~= mat_vec(
            mv,
            vals(z@),
            S::modulus(),
        ));
    }
    out
}

/// Constraint matrices `A`, `B`, `C`, one row per constraint.
pub struct R1csShape<S: PrimeField> {
    pub a: Vec<Vec<S>>,
    pub b: Vec<Vec<S>>,
    pub c: Vec<Vec<S>>,
}

impl<S: PrimeField> R1csShape<S> {
    pub open spec fn am(&self) -> Seq<Seq<nat>> {
        mat_vals(self.a@)
    }

    pub open spec fn bm(&self) -> Seq<Seq<nat>> {
        mat_vals(self.b@)
    }

    pub open spec fn cm(&self) -> Seq<Seq<nat>> {
        mat_vals(self.c@)
    }

    /// Same number of rows in each matrix, each row at most `n` long.
    pub open spec fn fits(&self, n: nat) -> bool {
        &&& self.a@.len() == self.b@.len() && self.b@.len() == self.c@.len()
        &&& rows_fit(self.am(), n) && rows_fit(self.bm(), n) && rows_fit(self.cm(), n)
    }

    /// Whether `A z o B z = u C z + E` holds in every row.
    pub fn is_satisfied(&self, u: &S, z: &Vec<S>, e: &Vec<S>) -> (r: bool)
        requires
            self.fits(z@.len() as nat),
        ensures
            r == relaxed_holds(self.am(), self.bm(), self.cm(), u.val(), vals(z@), vals(e@), S::modulus()),
    {
        if e.len() != self.a.len() {
            return false;
        }
        let az = mat_vec_mul(&self.a, z);
        let bz = mat_vec_mul(&self.b, z);
        let cz = mat_vec_mul(&self.c, z);
        let ghost p = S::modulus();
        proof {
            S::lemma_modulus();
            assert(vals(az@).len() == az@.len());
            assert(vals(bz@).len() == bz@.len());
            assert(vals(cz@).len() == cz@.len());
            assert(mat_vec(self.am(), vals(z@), p).len() == self.a@.len());
            assert(mat_vec(self.bm(), vals(z@), p).len() == self.b@.len());
            assert(mat_vec(self.cm(), vals(z@), p).len() == self.c@.len());
        }
        let mut i: usize = 0;
        while i < az.len()
            invariant
                p == S::modulus(),
                p > 1,
                self.fits(z@.len() as nat),
                e@.len() == self.a@.len(),
                vals(az@) == mat_vec(self.am(), vals(z@), p),
                vals(bz@) == mat_vec(self.bm(), vals(z@), p),
                vals(cz@) == mat_vec(self.cm(), vals(z@), p),
                az@.len() == self.a@.len(),
                bz@.len() == self.a@.len(),
                cz@.len() == self.a@.len(),
                i <= az@.len(),
                forall|k: int|
                    0 <= k < i ==> (#[trigger] row_dot(self.am(), k, vals(z@), p) * row_dot(self.bm(), k, vals(z@), p)) % p
                        == (u.val() * row_dot(self.cm(), k, vals(z@), p) + vals(e@)[k]) % p,
            decreases az@.len() - i,
        {
            let lhs = az[i].mul(&bz[i]);
            let uc = u.mul(&cz[i]);
            let rhs = uc.add(&e[i]);
            proof {
                let cv = row_dot(self.cm(), i as int, vals(z@), p);
                assert(vals(cz@)[i as int] == cv);
                assert(vals(az@)[i as int] == row_dot(self.am(), i as int, vals(z@), p));
                assert(vals(bz@)[i as int] == row_dot(self.bm(), i as int, vals(z@), p));
                vstd::arithmetic::div_mod::lemma_mod_twice((u.val() * cv) as int, p as int);
                lemma_add_cong((u.val() * cv) as int % (p as int), e@[i as int].val() as int, (u.val() * cv) as int, e@[i as int].val() as int, p as int);
            }
            if !lhs.equals(&rhs) {
                return false;
            }
            i = i + 1;
        }
        true
    }
}

/// `v1 + r v2`, entry by entry.
pub fn fold_vector<S: PrimeField>(v1: &Vec<S>, r: &S, v2: &Vec<S>) -> (out: Vec<S>)
    requires
        v1@.len() == v2@.len(),
    ensures
        vals(out@) == fold_vec(vals(v1@), r.val(), vals(v2@), S::modulus()),
{
    let ghost p = S::modulus();
    let mut out: Vec<S> = Vec::new();
    let mut j: usize = 0;
    while j < v1.len()
        invariant
            p == S::modulus(),
            v1@.len() == v2@.len(),
            j <= v1@.len(),
            vals(out@) == fold_vec(vals(v1@), r.val(), vals(v2@), p).subrange(0, j as int),
        decreases v1@.len() - j,
    {
        let t = r.mul(&v2[j]);
        let f = v1[j].add(&t);
        proof {
            S::lemma_modulus();
            let a = v1@[j as int].val();
            let b = v2@[j as int].val();
            vstd::arithmetic::div_mod::lemma_add_mod_noop_right(a as int, (r.val() * b) as int, p as int);
            assert(f.val() == fold_at(vals(v1@), r.val(), vals(v2@), p, j as int));
        }
        out_push(&mut out, f);
        proof {
            assert(fold_vec(vals(v1@), r.val(), vals(v2@), p).len() == v1@.len());
            assert(vals(out@) =~= fold_vec(vals(v1@), r.val(), vals(v2@), p).subrange(0, j + 1));
        }
        j = j + 1;
    }
    proof {
        assert(fold_vec(vals(v1@), r.val(), vals(v2@), p).subrange(0, v1@.len() as int) =~= fold_vec(
            vals(v1@),
            r.val(),
            vals(v2@),
            p,
        ));
    }
    out
}

/// `r T + r^2 E2`, entry by entry.
fn fold_error<S: PrimeField>(t: &Vec<S>, r: &S, e2: &Vec<S>) -> (out: Vec<S>)
    requires
        t@.len() == e2@.len(),
    ensures
        vals(out@) == folded_error(vals(t@), r.val(), vals(e2@), S::modulus()),
{
    let ghost p = S::modulus();
    let rr = r.mul(r);
    let mut out: Vec<S> = Vec::new();
    let mut j: usize = 0;
    while j < t.len()
        invariant
            p == S::modulus(),
            rr.val() == (r.val() * r.val()) % p,
            t@.len() == e2@.len(),
            j <= t@.len(),
            vals(out@) == folded_error(vals(t@), r.val(), vals(e2@), p).subrange(0, j as int),
        decreases t@.len() - j,
    {
        let a = r.mul(&t[j]);
        let b = rr.mul(&e2[j]);
        let f = a.add(&b);
        proof {
            S::lemma_modulus();
            let pi = p as int;
            let tv = t@[j as int].val() as int;
            let ev = e2@[j as int].val() as int;
            let rv = r.val() as int;
            lemma_mul_mod_noop_left(rv * rv, ev, pi);
            lemma_mul_mod_noop_left(rv, tv, pi);
            vstd::arithmetic::div_mod::lemma_mod_twice(rv * tv, pi);
            vstd::arithmetic::div_mod::lemma_mod_twice(rv * rv * ev, pi);
            lemma_add_cong((rv * tv) % pi, (rv * rv * ev) % pi, rv * tv, rv * rv * ev, pi);
            assert(f.val() == folded_error_at(vals(t@), r.val(), vals(e2@), p, j as int));
        }
        out_push(&mut out, f);
        proof {
            assert(folded_error(vals(t@), r.val(), vals(e2@), p).len() == t@.len());
            assert(vals(out@) =~= folded_error(vals(t@), r.val(), vals(e2@), p).subrange(0, j + 1));
        }
        j = j + 1;
    }
    proof {
        assert(folded_error(vals(t@), r.val(), vals(e2@), p).subrange(0, t@.len() as int) =~= folded_error(
            vals(t@),
            r.val(),
            vals(e2@),
            p,
        ));
    }
    out
}

/// A running relaxed pair: the instance `{commit_W, commit_E, u, x}` and the
/// witness `{w, E, r_w, r_e}`, with `z = x ++ w`.
pub struct RelaxedPair<G: CurveExtended, S: PrimeField> {
    pub commit_w: G,
    pub commit_e: G,
    pub u: S,
    pub x: Vec<S>,
    pub w: Vec<S>,
    pub e: Vec<S>,
    pub r_w: S,
    pub r_e: S,
}

/// A fresh step: the plain instance `{commit_W, x}` (`u = 1`, `E = 0`) and the
/// witness `{w, r_w}`.
pub struct StepPair<G: CurveExtended, S: PrimeField> {
    pub commit_w: G,
    pub x: Vec<S>,
    pub w: Vec<S>,
    pub r_w: S,
}

/// `z = x ++ w` as values.
pub open spec fn z_of<S: PrimeField>(x: Seq<S>, w: Seq<S>) -> Seq<nat> {
    vals(x) + vals(w)
}

/// A coordinate read in a field of size `p`.
pub open spec fn reduce(c: u64, p: nat) -> nat {
    c as nat % p
}

/// What a transcript absorbs for a group element.
pub open spec fn point_input<G: CurveExtended>(e: G::Elem, p: nat) -> Seq<nat> {
    Seq::new(G::coords_of(e).len(), |i: int| reduce(G::coords_of(e)[i], p))
}

/// Folds fresh steps into a running relaxed pair, committing with `pp`.
pub struct Prover<G: CurveExtended, S: PrimeField> {
    pub shape: R1csShape<S>,
    pub pp: PedersenCommitment<G>,
}

impl<G: CurveExtended, S: PrimeField> Prover<G, S> {
    /// The cross term of a step and a running pair.
    pub open spec fn cross(&self, step: &StepPair<G, S>, running: &RelaxedPair<G, S>) -> Seq<nat> {
        cross_term(
            self.shape.am(),
            self.shape.bm(),
            self.shape.cm(),
            z_of(step.x@, step.w@),
            running.u.val(),
            z_of(running.x@, running.w@),
            S::modulus(),
        )
    }

    /// `commit(T, r_T)`.
    pub open spec fn commit_t(&self, step: &StepPair<G, S>, running: &RelaxedPair<G, S>, r_t: nat) -> G::Elem {
        commit_spec::<G>(elems(self.pp.basis@), self.pp.h.elem(), self.cross(step, running), r_t)
    }

    /// The transcript input of the challenge: both instances (commitments,
    /// `u`, `x`) and `commit_T`.
    pub open spec fn challenge_input(&self, step: &StepPair<G, S>, running: &RelaxedPair<G, S>, ct: G::Elem) -> Seq<nat> {
        let p = S::modulus();
        point_input::<G>(step.commit_w.elem(), p) + vals(step.x@) + point_input::<G>(running.commit_w.elem(), p)
            + point_input::<G>(running.commit_e.elem(), p) + seq![running.u.val()] + vals(running.x@)
            + point_input::<G>(ct, p)
    }

    /// The folding challenge `r`.
    pub open spec fn challenge(&self, step: &StepPair<G, S>, running: &RelaxedPair<G, S>, r_t: nat) -> nat {
        squeeze_spec(
            mimc_constants(S::modulus()),
            0,
            self.challenge_input(step, running, self.commit_t(step, running, r_t)),
            S::modulus(),
        )
    }

    /// A fresh step satisfies the plain relation and its commitment opens to its witness.
    pub open spec fn step_accepts(&self, step: &StepPair<G, S>) -> bool {
        &&& relaxed_holds(self.shape.am(), self.shape.bm(), self.shape.cm(), 1, z_of(step.x@, step.w@), zeros(self.shape.a@.len() as nat), S::modulus())
        &&& self.pp.opens(step.commit_w.elem(), vals(step.w@), step.r_w.val())
    }

    /// A relaxed pair satisfies the relaxed relation and both commitments open.
    pub open spec fn accepts(&self, pair: &RelaxedPair<G, S>) -> bool {
        &&& relaxed_holds(self.shape.am(), self.shape.bm(), self.shape.cm(), pair.u.val(), z_of(pair.x@, pair.w@), vals(pair.e@), S::modulus())
        &&& self.pp.opens(pair.commit_w.elem(), vals(pair.w@), pair.r_w.val())
        &&& self.pp.opens(pair.commit_e.elem(), vals(pair.e@), pair.r_e.val())
    }

    /// `out` is the fold of `step` into `running` under the challenge `r`:
    /// `u' = 1 + r u2`, `x' = x1 + r x2`, `w' = w1 + r w2`, `E' = r T + r^2 E2`,
    /// `commit_W' = commit_W1 + r commit_W2`,
    /// `commit_E' = 0 + r commit_T + r^2 commit_E2`,
    /// `r_w' = r_w1 + r r_w2`, `r_e' = 0 + r r_T + r^2 r_e2`.
    pub open spec fn folds_to(&self, step: &StepPair<G, S>, running: &RelaxedPair<G, S>, r_t: nat, out: &RelaxedPair<G, S>) -> bool {
        let p = S::modulus();
        let t = self.cross(step, running);
        let ct = self.commit_t(step, running, r_t);
        let r = self.challenge(step, running, r_t);
        &&& out.u.val() == (1 + r * running.u.val()) % p
        &&& vals(out.x@) == fold_vec(vals(step.x@), r, vals(running.x@), p)
        &&& vals(out.w@) == fold_vec(vals(step.w@), r, vals(running.w@), p)
        &&& vals(out.e@) == folded_error(t, r, vals(running.e@), p)
        &&& out.commit_w.elem() == G::add_elem(step.commit_w.elem(), smul::<G>(r, running.commit_w.elem()))
        &&& out.commit_e.elem() == G::add_elem(
            G::add_elem(G::zero_elem(), smul::<G>(r, ct)),
            smul::<G>(r * r, running.commit_e.elem()),
        )
        &&& out.r_w.val() == (step.r_w.val() + r * running.r_w.val()) % p
        &&& out.r_e.val() == (0 + r * r_t + r * r * running.r_e.val()) % p
    }

    /// A fold of an accepted step into an accepted running pair is accepted:
    /// it satisfies the relaxed relation and its commitments open to the
    /// folded witness and slack (for parameters whose order divides `p`).
    pub proof fn lemma_fold_accepts(&self, step: &StepPair<G, S>, running: &RelaxedPair<G, S>, r_t: nat, out: &RelaxedPair<G, S>)
        requires
            step.x@.len() == running.x@.len(),
            step.w@.len() == running.w@.len(),
            running.e@.len() == self.shape.a@.len(),
            self.shape.fits((step.x@.len() + step.w@.len()) as nat),
            self.shape.a@.len() <= self.pp.basis@.len(),
            self.folds_to(step, running, r_t, out),
            self.pp.order_divides(S::modulus()),
            self.step_accepts(step),
            self.accepts(running),
        ensures
            self.accepts(out),
    {
        let p = S::modulus();
        let pi = p as int;
        let t = self.cross(step, running);
        let ct = self.commit_t(step, running, r_t);
        let r = self.challenge(step, running, r_t);
        let basis = elems(self.pp.basis@);
        let h = self.pp.h.elem();
        let ce2 = running.commit_e.elem();
        S::lemma_modulus();
        self.pp.lemma_params_valid();
        G::lemma_elem_valid(running.commit_e);
        G::lemma_zero_valid();
        // The relation.
        assert(z_of(out.x@, out.w@) =~= fold_vec(z_of(step.x@, step.w@), r, z_of(running.x@, running.w@), p));
        lemma_folding_soundness(
            self.shape.am(),
            self.shape.bm(),
            self.shape.cm(),
            z_of(step.x@, step.w@),
            running.u.val(),
            z_of(running.x@, running.w@),
            vals(running.e@),
            r,
            p,
        );
        assert(t.len() == self.shape.a@.len());
        // commit_W'.
        lemma_commit_fold::<G>(basis, h, vals(step.w@), step.r_w.val(), r, vals(running.w@), running.r_w.val(), p);
        assert(fold_mod(vals(step.w@), r, vals(running.w@), p) =~= vals(out.w@));
        // commit_E' = 0 + r commit_T + r^2 commit_E2 = r (commit_T + r commit_E2).
        let inner = r_t + r * running.r_e.val();
        lemma_commit_fold::<G>(basis, h, t, r_t, r, vals(running.e@), running.r_e.val(), p);
        let a = fold_mod(t, r, vals(running.e@), p);
        lemma_commit_scale::<G>(basis, h, a, inner % p, r, p);
        lemma_lincomb_valid::<G>(t, basis);
        lemma_smul_valid::<G>(r_t, h);
        G::lemma_group(lincomb::<G>(t, basis), smul::<G>(r_t, h), smul::<G>(r_t, h));
        G::lemma_group(smul::<G>(r_t, h), ce2, ce2);
        lemma_smul_valid::<G>(r, ce2);
        lemma_smul_distrib::<G>(r, ct, smul::<G>(r, ce2));
        lemma_smul_mul::<G>(r, r, ce2);
        lemma_smul_valid::<G>(r, ct);
        lemma_smul_valid::<G>(r * r, ce2);
        G::lemma_group(G::zero_elem(), smul::<G>(r, ct), smul::<G>(r * r, ce2));
        G::lemma_group(smul::<G>(r, ct), G::zero_elem(), G::zero_elem());
        assert forall|j: int| 0 <= j < t.len() implies #[trigger] vscale_mod(r, a, p)[j] == vals(out.e@)[j] by {
            let tj = t[j] as int;
            let ej = vals(running.e@)[j] as int;
            vstd::arithmetic::div_mod::lemma_mul_mod_noop_right(r as int, tj + r * ej, pi);
            assert(r * (tj + r * ej) == r * tj + r * r * ej) by (nonlinear_arith);
        }
        assert(vscale_mod(r, a, p) =~= vals(out.e@));
        vstd::arithmetic::div_mod::lemma_mul_mod_noop_right(r as int, inner as int, pi);
        assert(r * inner == r * r_t + r * r * running.r_e.val()) by (nonlinear_arith)
            requires
                inner == r_t + r * running.r_e.val(),
        ;
    }

    /// Two folds of accepted steps, starting from an accepted pair, stay
    /// accepted: the state after each step passes [`Self::verify`].
    pub proof fn lemma_two_step_chain(
        &self,
        s1: &StepPair<G, S>,
        s2: &StepPair<G, S>,
        r0: &RelaxedPair<G, S>,
        r1: &RelaxedPair<G, S>,
        r2: &RelaxedPair<G, S>,
        t1: nat,
        t2: nat,
    )
        requires
            s1.x@.len() == r0.x@.len() && s2.x@.len() == r0.x@.len(),
            s1.w@.len() == r0.w@.len() && s2.w@.len() == r0.w@.len(),
            r0.e@.len() == self.shape.a@.len(),
            self.shape.fits((r0.x@.len() + r0.w@.len()) as nat),
            self.shape.a@.len() <= self.pp.basis@.len(),
            self.pp.order_divides(S::modulus()),
            self.accepts(r0),
            self.step_accepts(s1),
            self.step_accepts(s2),
            self.folds_to(s1, r0, t1, r1),
            self.folds_to(s2, r1, t2, r2),
        ensures
            self.accepts(r1),
            self.accepts(r2),
    {
        self.lemma_fold_accepts(s1, r0, t1, r1);
        assert(vals(r1.x@).len() == s1.x@.len());
        assert(vals(r1.w@).len() == s1.w@.len());
        self.lemma_fold_accepts(s2, r1, t2, r2);
    }

    /// Folding is deterministic: two folds of the same inputs carry the same
    /// values, hence the same canonical bytes.
    pub proof fn lemma_prove_deterministic(
        &self,
        step: &StepPair<G, S>,
        running: &RelaxedPair<G, S>,
        r_t: nat,
        out1: &RelaxedPair<G, S>,
        out2: &RelaxedPair<G, S>,
    )
        requires
            self.folds_to(step, running, r_t, out1),
            self.folds_to(step, running, r_t, out2),
        ensures
            out1.u.val() == out2.u.val(),
            vals(out1.x@) == vals(out2.x@),
            vals(out1.w@) == vals(out2.w@),
            vals(out1.e@) == vals(out2.e@),
            out1.commit_w.elem() == out2.commit_w.elem(),
            out1.commit_e.elem() == out2.commit_e.elem(),
            out1.r_w.val() == out2.r_w.val(),
            out1.r_e.val() == out2.r_e.val(),
    {
    }

    /// `T = A z2 o B z1 + A z1 o B z2 - C z2 - u2 C z1` for a plain `z1`.
    pub fn compute_cross_term(&self, z1: &Vec<S>, u2: &S, z2: &Vec<S>) -> (t: Vec<S>)
        requires
            z1@.len() == z2@.len(),
            self.shape.fits(z1@.len() as nat),
        ensures
            vals(t@) == cross_term(self.shape.am(), self.shape.bm(), self.shape.cm(), vals(z1@), u2.val(), vals(z2@), S::modulus()),
    {
        let ghost p = S::modulus();
        let az1 = mat_vec_mul(&self.shape.a, z1);
        let bz1 = mat_vec_mul(&self.shape.b, z1);
        let cz1 = mat_vec_mul(&self.shape.c, z1);
        let az2 = mat_vec_mul(&self.shape.a, z2);
        let bz2 = mat_vec_mul(&self.shape.b, z2);
        let cz2 = mat_vec_mul(&self.shape.c, z2);
        let ghost want = cross_term(self.shape.am(), self.shape.bm(), self.shape.cm(), vals(z1@), u2.val(), vals(z2@), p);
        proof {
            S::lemma_modulus();
            assert(self.shape.bm().len() == self.shape.b@.len());
            assert(self.shape.cm().len() == self.shape.c@.len());
            assert(mat_vec(self.shape.am(), vals(z1@), p).len() == self.shape.a@.len());
            assert(mat_vec(self.shape.bm(), vals(z1@), p).len() == self.shape.a@.len());
            assert(mat_vec(self.shape.cm(), vals(z1@), p).len() == self.shape.a@.len());
            assert(mat_vec(self.shape.am(), vals(z2@), p).len() == self.shape.a@.len());
            assert(mat_vec(self.shape.bm(), vals(z2@), p).len() == self.shape.a@.len());
            assert(mat_vec(self.shape.cm(), vals(z2@), p).len() == self.shape.a@.len());
            assert(vals(az1@).len() == az1@.len());
            assert(vals(bz1@).len() == bz1@.len());
            assert(vals(cz1@).len() == cz1@.len());
            assert(vals(az2@).len() == az2@.len());
            assert(vals(bz2@).len() == bz2@.len());
            assert(vals(cz2@).len() == cz2@.len());
        }
        let mut t: Vec<S> = Vec::new();
        let mut i: usize = 0;
        while i < az1.len()
            invariant
                p == S::modulus(),
                p > 1,
                want == cross_term(self.shape.am(), self.shape.bm(), self.shape.cm(), vals(z1@), u2.val(), vals(z2@), p),
                want.len() == self.shape.a@.len(),
                self.shape.fits(z1@.len() as nat),
                self.shape.am().len() == self.shape.a@.len(),
                self.shape.bm().len() == self.shape.a@.len(),
                self.shape.cm().len() == self.shape.a@.len(),
                az1@.len() == self.shape.a@.len() && bz1@.len() == self.shape.a@.len() && cz1@.len() == self.shape.a@.len(),
                az2@.len() == self.shape.a@.len() && bz2@.len() == self.shape.a@.len() && cz2@.len() == self.shape.a@.len(),
                vals(az1@) == mat_vec(self.shape.am(), vals(z1@), p),
                vals(bz1@) == mat_vec(self.shape.bm(), vals(z1@), p),
                vals(cz1@) == mat_vec(self.shape.cm(), vals(z1@), p),
                vals(az2@) == mat_vec(self.shape.am(), vals(z2@), p),
                vals(bz2@) == mat_vec(self.shape.bm(), vals(z2@), p),
                vals(cz2@) == mat_vec(self.shape.cm(), vals(z2@), p),
                i <= az1@.len(),
                vals(t@) == want.subrange(0, i as int),
            decreases az1@.len() - i,
        {
            let x1 = az2[i].mul(&bz1[i]);
            let x2 = az1[i].mul(&bz2[i]);
            let y1 = u2.mul(&cz1[i]);
            let s1 = x1.add(&x2);
            let s2 = s1.sub(&cz2[i]);
            let v = s2.sub(&y1);
            proof {
                let pi = p as int;
                let ii = i as int;
                let a1 = row_dot(self.shape.am(), ii, vals(z1@), p) as int;
                let b1 = row_dot(self.shape.bm(), ii, vals(z1@), p) as int;
                let c1 = row_dot(self.shape.cm(), ii, vals(z1@), p) as int;
                let a2 = row_dot(self.shape.am(), ii, vals(z2@), p) as int;
                let b2 = row_dot(self.shape.bm(), ii, vals(z2@), p) as int;
                let c2 = row_dot(self.shape.cm(), ii, vals(z2@), p) as int;
                let uu = u2.val() as int;
                assert(vals(az1@)[ii] == a1);
                assert(vals(bz1@)[ii] == b1);
                assert(vals(cz1@)[ii] == c1);
                assert(vals(az2@)[ii] == a2);
                assert(vals(bz2@)[ii] == b2);
                assert(vals(cz2@)[ii] == c2);
                vstd::arithmetic::div_mod::lemma_mod_twice(a2 * b1, pi);
                vstd::arithmetic::div_mod::lemma_mod_twice(a1 * b2, pi);
                lemma_add_cong((a2 * b1) % pi, (a1 * b2) % pi, a2 * b1, a1 * b2, pi);
                let m = a2 * b1 + a1 * b2;
                assert(s1.val() as int == m % pi);
                vstd::arithmetic::div_mod::lemma_sub_mod_noop(m, c2, pi);
                lemma_small_mod(c2 as nat, p);
                assert(c2 % pi == c2);
                assert(s2.val() as int == (s1.val() as int - c2) % pi);
                assert(s2.val() as int == (m - c2) % pi);
                vstd::arithmetic::div_mod::lemma_sub_mod_noop(m - c2, uu * c1, pi);
                vstd::arithmetic::div_mod::lemma_mod_twice(uu * c1, pi);
                vstd::arithmetic::div_mod::lemma_mod_twice(m - c2, pi);
                assert(v.val() as int == (m - c2 - uu * c1) % pi);
                assert(v.val() == want[ii]);
            }
            out_push(&mut t, v);
            proof {
                assert(vals(t@) =~= want.subrange(0, i + 1));
            }
            i = i + 1;
        }
        proof {
            assert(want.subrange(0, want.len() as int) =~= want);
        }
        t
    }

    /// The folding challenge: the transcript squeeze over both instances and `commit_T`.
    pub fn derive_challenge(step: &StepPair<G, S>, running: &RelaxedPair<G, S>, commit_t: &G) -> (r: S)
        ensures
            ({
                let p = S::modulus();
                r.val() == squeeze_spec(
                    mimc_constants(p),
                    0,
                    point_input::<G>(step.commit_w.elem(), p) + vals(step.x@) + point_input::<G>(running.commit_w.elem(), p)
                        + point_input::<G>(running.commit_e.elem(), p) + seq![running.u.val()] + vals(running.x@)
                        + point_input::<G>(commit_t.elem(), p),
                    p,
                )
            }),
    {
        let mut tr = MimcRO::<S>::new();
        absorb_point(&mut tr, &step.commit_w);
        absorb_all(&mut tr, &step.x);
        absorb_point(&mut tr, &running.commit_w);
        absorb_point(&mut tr, &running.commit_e);
        tr.append(running.u);
        absorb_all(&mut tr, &running.x);
        absorb_point(&mut tr, commit_t);
        proof {
            let p = S::modulus();
            assert(tr.absorbed() =~= point_input::<G>(step.commit_w.elem(), p) + vals(step.x@) + point_input::<G>(running.commit_w.elem(), p)
                + point_input::<G>(running.commit_e.elem(), p) + seq![running.u.val()] + vals(running.x@)
                + point_input::<G>(commit_t.elem(), p));
        }
        tr.squeeze()
    }

    /// Folds a fresh step into the running pair; `r_t` blinds the commitment to `T`.
    pub fn prove(&self, step: &StepPair<G, S>, running: &RelaxedPair<G, S>, r_t: &S) -> (out: RelaxedPair<G, S>)
        requires
            step.x@.len() == running.x@.len(),
            step.w@.len() == running.w@.len(),
            running.e@.len() == self.shape.a@.len(),
            self.shape.fits((step.x@.len() + step.w@.len()) as nat),
            self.shape.a@.len() <= self.pp.basis@.len(),
            self.pp.basis@.len() < 0x100_0000_0000,
            S::num_bytes() == 8,
        ensures
            self.folds_to(step, running, r_t.val(), &out),
            self.pp.order_divides(S::modulus()) && self.step_accepts(step) && self.accepts(running)
                ==> self.accepts(&out),
    {
        let z1 = concat(&step.x, &step.w);
        let z2 = concat(&running.x, &running.w);
        let t = self.compute_cross_term(&z1, &running.u, &z2);
        proof {
            assert(vals(t@).len() == self.shape.a@.len());
        }
        let commit_t = match self.pp.commit(&t, r_t) {
            Some(c) => c,
            None => {
                proof {
                    assert(false);
                }
                G::identity()
            },
        };
        let r = Self::derive_challenge(step, running, &commit_t);
        let x = fold_vector(&step.x, &r, &running.x);
        let w = fold_vector(&step.w, &r, &running.w);
        let e = fold_error(&t, &r, &running.e);
        let u = S::one().add(&r.mul(&running.u));
        let commit_w = fold_commitment(&step.commit_w, &r, &running.commit_w);
        let te = fold_commitment(&commit_t, &r, &running.commit_e);
        let commit_e = fold_commitment(&G::identity(), &r, &te);
        let r_w = step.r_w.add(&r.mul(&running.r_w));
        let r_e = r.mul(&r_t.add(&r.mul(&running.r_e)));
        let out = RelaxedPair { commit_w, commit_e, u, x, w, e, r_w, r_e };
        proof {
            let p = S::modulus();
            let pi = p as int;
            let rv = r.val();
            S::lemma_modulus();
            self.pp.lemma_params_valid();
            G::lemma_zero_valid();
            G::lemma_elem_valid(commit_t);
            G::lemma_elem_valid(running.commit_e);
            let ct = commit_t.elem();
            let ce2 = running.commit_e.elem();
            vstd::arithmetic::div_mod::lemma_add_mod_noop_right(1, (rv * running.u.val()) as int, pi);
            vstd::arithmetic::div_mod::lemma_add_mod_noop_right(step.r_w.val() as int, (rv * running.r_w.val()) as int, pi);
            let inner = r_t.val() + rv * running.r_e.val();
            vstd::arithmetic::div_mod::lemma_add_mod_noop_right(r_t.val() as int, (rv * running.r_e.val()) as int, pi);
            vstd::arithmetic::div_mod::lemma_mul_mod_noop_right(rv as int, inner as int, pi);
            assert(rv * inner == rv * r_t.val() + rv * rv * running.r_e.val()) by (nonlinear_arith)
                requires
                    inner == r_t.val() + rv * running.r_e.val(),
            ;
            lemma_smul_valid::<G>(rv, ce2);
            lemma_smul_distrib::<G>(rv, ct, smul::<G>(rv, ce2));
            lemma_smul_mul::<G>(rv, rv, ce2);
            lemma_smul_valid::<G>(rv, ct);
            lemma_smul_valid::<G>(rv * rv, ce2);
            G::lemma_group(G::zero_elem(), smul::<G>(rv, ct), smul::<G>(rv * rv, ce2));
            assert(z_of(x@, w@) =~= fold_vec(z_of(step.x@, step.w@), rv, z_of(running.x@, running.w@), p));
            if self.pp.order_divides(p) && self.step_accepts(step) && self.accepts(running) {
                self.lemma_fold_accepts(step, running, r_t.val(), &out);
            }
        }
        out
    }

    /// Accepts a relaxed pair when it satisfies the relaxed relation and both
    /// commitments open to its witness.
    pub fn verify(&self, pair: &RelaxedPair<G, S>) -> (ok: bool)
        requires
            self.shape.fits((pair.x@.len() + pair.w@.len()) as nat),
            self.pp.basis@.len() < 0x100_0000_0000,
            S::num_bytes() == 8,
        ensures
            ok == self.accepts(pair),
    {
        let z = concat(&pair.x, &pair.w);
        if !self.shape.is_satisfied(&pair.u, &z, &pair.e) {
            return false;
        }
        match (self.pp.commit(&pair.w, &pair.r_w), self.pp.commit(&pair.e, &pair.r_e)) {
            (Some(cw), Some(ce)) => cw.equals(&pair.commit_w) && ce.equals(&pair.commit_e),
            _ => false,
        }
    }
}

/// `x ++ w`.
fn concat<S: PrimeField>(x: &Vec<S>, w: &Vec<S>) -> (z: Vec<S>)
    ensures
        vals(z@) == vals(x@) + vals(w@),
        z@.len() == x@.len() + w@.len(),
{
    let mut z: Vec<S> = Vec::new();
    let mut i: usize = 0;
    while i < x.len()
        invariant
            i <= x@.len(),
            z@ =~= x@.subrange(0, i as int),
        decreases x@.len() - i,
    {
        z.push(x[i]);
        i = i + 1;
    }
    let mut j: usize = 0;
    while j < w.len()
        invariant
            j <= w@.len(),
            z@ =~= x@ + w@.subrange(0, j as int),
        decreases w@.len() - j,
    {
        z.push(w[j]);
        j = j + 1;
    }
    proof {
        assert(z@ =~= x@ + w@);
        assert(vals(z@) =~= vals(x@) + vals(w@));
    }
    z
}

/// Appends the transcript coordinates of a group element.
fn absorb_point<G: CurveExtended, S: PrimeField>(t: &mut MimcRO<S>, pt: &G)
    ensures
        final(t).absorbed() == old(t).absorbed() + point_input::<G>(pt.elem(), S::modulus()),
        final(t).key_val() == old(t).key_val(),
        final(t).constant_vals() == old(t).constant_vals(),
{
    let cs = pt.coordinates();
    let ghost want = point_input::<G>(pt.elem(), S::modulus());
    let mut i: usize = 0;
    proof {
        assert(old(t).absorbed() + want.subrange(0, 0) =~= old(t).absorbed());
    }
    while i < cs.len()
        invariant
            cs@ == G::coords_of(pt.elem()),
            want == point_input::<G>(pt.elem(), S::modulus()),
            i <= cs@.len(),
            t.absorbed() == old(t).absorbed() + want.subrange(0, i as int),
            t.key_val() == old(t).key_val(),
            t.constant_vals() == old(t).constant_vals(),
        decreases cs@.len() - i,
    {
        t.append(S::from_u64(cs[i]));
        proof {
            assert(old(t).absorbed() + want.subrange(0, i + 1) =~= (old(t).absorbed() + want.subrange(0, i as int)).push(want[i as int]));
        }
        i = i + 1;
    }
    proof {
        assert(want.subrange(0, want.len() as int) =~= want);
    }
}

fn out_push<S: PrimeField>(t: &mut Vec<S>, v: S)
    ensures
        final(t)@ == old(t)@.push(v),
        vals(final(t)@) == vals(old(t)@).push(v.val()),
{
    t.push(v);
    proof {
        assert(vals(t@) =~= vals(old(t)@).push(v.val()));
    }
}

} // verus!
