//! Pedersen vector commitment: `MSM(basis, v) + r H`.
use crate::curve::{CurveExtended, GoldilocksAdditive};
use crate::field::Goldilocks;
use crate::field::{vals, PrimeField};
use crate::msm::{
    all_valid, elems, lemma_lincomb_add, lemma_lincomb_valid, lemma_smul_add, lemma_smul_valid, lemma_swap4,
    lincomb, msm_curve_addition, smul, vadd,
};
use vstd::prelude::*;

verus! {

/// `lincomb(v, basis) + r h`.
pub open spec fn commit_spec<G: CurveExtended>(basis: Seq<G::Elem>, h: G::Elem, v: Seq<nat>, r: nat) -> G::Elem {
    G::add_elem(lincomb::<G>(v, basis), smul::<G>(r, h))
}

/// `(x + y) mod q`.
pub open spec fn add_mod(x: nat, y: nat, q: nat) -> nat {
    (x + y) % q
}

/// Entry-wise field sum of two coefficient vectors.
pub open spec fn vadd_mod(a: Seq<nat>, b: Seq<nat>, q: nat) -> Seq<nat> {
    Seq::new(a.len(), |i: int| add_mod(a[i], b[i], q))
}

/// `(q t) P` is zero when `q P` is.
pub proof fn lemma_smul_order_multiple<G: CurveExtended>(q: nat, t: nat, p: G::Elem)
    requires
        G::valid(p),
        smul::<G>(q, p) == G::zero_elem(),
    ensures
        smul::<G>(q * t, p) == G::zero_elem(),
    decreases t,
{
    G::lemma_zero_valid();
    if t > 0 {
        lemma_smul_order_multiple::<G>(q, (t - 1) as nat, p);
        assert(q * t == q * (t - 1) + q) by (nonlinear_arith) requires t > 0;
        lemma_smul_add::<G>(q * ((t - 1) as nat), q, p);
        G::lemma_group(G::zero_elem(), G::zero_elem(), G::zero_elem());
    } else {
        assert(q * 0 == 0);
    }
}

/// Coefficients matter only modulo the order `q`.
pub proof fn lemma_smul_mod<G: CurveExtended>(x: nat, q: nat, p: G::Elem)
    requires
        q > 0,
        G::valid(p),
        smul::<G>(q, p) == G::zero_elem(),
    ensures
        smul::<G>(x % q, p) == smul::<G>(x, p),
{
    vstd::arithmetic::div_mod::lemma_fundamental_div_mod(x as int, q as int);
    let t = x / q;
    assert(x == q * t + x % q);
    lemma_smul_add::<G>(q * t, x % q, p);
    lemma_smul_order_multiple::<G>(q, t, p);
    lemma_smul_valid::<G>(x % q, p);
    G::lemma_zero_valid();
    G::lemma_group(smul::<G>(x % q, p), G::zero_elem(), G::zero_elem());
    G::lemma_group(G::zero_elem(), smul::<G>(x % q, p), G::zero_elem());
}

/// Combinations agree when their coefficients agree modulo the order of each point.
pub proof fn lemma_lincomb_mod<G: CurveExtended>(c: Seq<nat>, d: Seq<nat>, q: nat, pts: Seq<G::Elem>)
    requires
        q > 0,
        c.len() == d.len(),
        c.len() <= pts.len(),
        all_valid::<G>(pts),
        forall|i: int| 0 <= i < pts.len() ==> smul::<G>(q, #[trigger] pts[i]) == G::zero_elem(),
        forall|i: int| 0 <= i < c.len() ==> #[trigger] c[i] == d[i] % q,
    ensures
        lincomb::<G>(c, pts) == lincomb::<G>(d, pts),
    decreases c.len(),
{
    if c.len() > 0 {
        let n = c.len() - 1;
        lemma_lincomb_mod::<G>(c.drop_last(), d.drop_last(), q, pts);
        lemma_smul_mod::<G>(d[n], q, pts[n]);
    }
}

/// Commitment homomorphism: `commit(a, ra) + commit(b, rb) == commit(a + b, ra + rb)`,
/// sums taken in the scalar field of order `q`, for a basis and `H` whose
/// order divides `q`.
pub proof fn lemma_commit_homomorphic<G: CurveExtended>(
    basis: Seq<G::Elem>,
    h: G::Elem,
    a: Seq<nat>,
    ra: nat,
    b: Seq<nat>,
    rb: nat,
    q: nat,
)
    requires
        q > 0,
        all_valid::<G>(basis),
        G::valid(h),
        a.len() == b.len(),
        a.len() <= basis.len(),
        forall|i: int| 0 <= i < basis.len() ==> smul::<G>(q, #[trigger] basis[i]) == G::zero_elem(),
        smul::<G>(q, h) == G::zero_elem(),
    ensures
        G::add_elem(commit_spec::<G>(basis, h, a, ra), commit_spec::<G>(basis, h, b, rb)) == commit_spec::<G>(
            basis,
            h,
            vadd_mod(a, b, q),
            add_mod(ra, rb, q),
        ),
{
    lemma_lincomb_add::<G>(a, b, basis);
    lemma_lincomb_mod::<G>(vadd_mod(a, b, q), vadd(a, b), q, basis);
    lemma_smul_add::<G>(ra, rb, h);
    lemma_smul_mod::<G>(ra + rb, q, h);
    lemma_lincomb_valid::<G>(a, basis);
    lemma_lincomb_valid::<G>(b, basis);
    lemma_smul_valid::<G>(ra, h);
    lemma_smul_valid::<G>(rb, h);
    lemma_swap4::<G>(lincomb::<G>(a, basis), smul::<G>(ra, h), lincomb::<G>(b, basis), smul::<G>(rb, h));
}

/// `(a b) P == a (b P)`.
pub proof fn lemma_smul_mul<G: CurveExtended>(a: nat, b: nat, p: G::Elem)
    requires
        G::valid(p),
    ensures
        smul::<G>(a * b, p) == smul::<G>(a, smul::<G>(b, p)),
    decreases a,
{
    if a > 0 {
        lemma_smul_mul::<G>((a - 1) as nat, b, p);
        assert(a * b == (a - 1) * b + b) by (nonlinear_arith) requires a > 0;
        lemma_smul_add::<G>(((a - 1) * b) as nat, b, p);
    } else {
        assert(0 * b == 0);
    }
}

/// `k (X + Y) == k X + k Y`.
pub proof fn lemma_smul_distrib<G: CurveExtended>(k: nat, x: G::Elem, y: G::Elem)
    requires
        G::valid(x),
        G::valid(y),
    ensures
        smul::<G>(k, G::add_elem(x, y)) == G::add_elem(smul::<G>(k, x), smul::<G>(k, y)),
    decreases k,
{
    G::lemma_zero_valid();
    G::lemma_group(x, y, y);
    if k > 0 {
        lemma_smul_distrib::<G>((k - 1) as nat, x, y);
        lemma_smul_valid::<G>((k - 1) as nat, x);
        lemma_smul_valid::<G>((k - 1) as nat, y);
        lemma_swap4::<G>(smul::<G>((k - 1) as nat, x), smul::<G>((k - 1) as nat, y), x, y);
    } else {
        G::lemma_group(G::zero_elem(), G::zero_elem(), G::zero_elem());
    }
}

/// `v1 + r v2` modulo `q`, entry by entry.
pub open spec fn fold_mod(v1: Seq<nat>, r: nat, v2: Seq<nat>, q: nat) -> Seq<nat> {
    Seq::new(v1.len(), |j: int| crate::folding::fold_at(v1, r, v2, q, j))
}

/// `r c`, entry by entry.
pub open spec fn vscale(r: nat, c: Seq<nat>) -> Seq<nat> {
    Seq::new(c.len(), |j: int| r * c[j])
}

/// `r lincomb(c) == lincomb(r c)`.
pub proof fn lemma_smul_lincomb<G: CurveExtended>(r: nat, c: Seq<nat>, pts: Seq<G::Elem>)
    requires
        c.len() <= pts.len(),
        all_valid::<G>(pts),
    ensures
        smul::<G>(r, lincomb::<G>(c, pts)) == lincomb::<G>(vscale(r, c), pts),
    decreases c.len(),
{
    G::lemma_zero_valid();
    if c.len() == 0 {
        lemma_smul_zero::<G>(r);
    } else {
        let n = c.len() - 1;
        assert(vscale(r, c).drop_last() =~= vscale(r, c.drop_last()));
        lemma_smul_lincomb::<G>(r, c.drop_last(), pts);
        lemma_lincomb_valid::<G>(c.drop_last(), pts);
        lemma_smul_valid::<G>(c[n], pts[n]);
        lemma_smul_distrib::<G>(r, lincomb::<G>(c.drop_last(), pts), smul::<G>(c[n], pts[n]));
        lemma_smul_mul::<G>(r, c[n], pts[n]);
    }
}

/// `k 0 == 0`.
pub proof fn lemma_smul_zero<G: CurveExtended>(k: nat)
    ensures
        smul::<G>(k, G::zero_elem()) == G::zero_elem(),
    decreases k,
{
    G::lemma_zero_valid();
    G::lemma_group(G::zero_elem(), G::zero_elem(), G::zero_elem());
    if k > 0 {
        lemma_smul_zero::<G>((k - 1) as nat);
    }
}

/// Committing to a folded vector is folding the commitments:
/// `commit(v1 + r v2, r1 + r r2) == commit(v1, r1) + r commit(v2, r2)`,
/// for a basis and `H` whose order divides `q`.
pub proof fn lemma_commit_fold<G: CurveExtended>(
    basis: Seq<G::Elem>,
    h: G::Elem,
    v1: Seq<nat>,
    r1: nat,
    r: nat,
    v2: Seq<nat>,
    r2: nat,
    q: nat,
)
    requires
        q > 0,
        all_valid::<G>(basis),
        G::valid(h),
        v1.len() == v2.len(),
        v1.len() <= basis.len(),
        forall|i: int| 0 <= i < basis.len() ==> smul::<G>(q, #[trigger] basis[i]) == G::zero_elem(),
        smul::<G>(q, h) == G::zero_elem(),
    ensures
        commit_spec::<G>(basis, h, fold_mod(v1, r, v2, q), (r1 + r * r2) % q) == G::add_elem(
            commit_spec::<G>(basis, h, v1, r1),
            smul::<G>(r, commit_spec::<G>(basis, h, v2, r2)),
        ),
{
    let l1 = lincomb::<G>(v1, basis);
    let l2 = lincomb::<G>(v2, basis);
    lemma_lincomb_valid::<G>(v1, basis);
    lemma_lincomb_valid::<G>(v2, basis);
    lemma_smul_valid::<G>(r1, h);
    lemma_smul_valid::<G>(r2, h);
    // r (l2 + r2 h) == r l2 + (r r2) h
    lemma_smul_distrib::<G>(r, l2, smul::<G>(r2, h));
    lemma_smul_mul::<G>(r, r2, h);
    lemma_smul_lincomb::<G>(r, v2, basis);
    // regroup
    lemma_lincomb_valid::<G>(vscale(r, v2), basis);
    lemma_smul_valid::<G>(r * r2, h);
    lemma_swap4::<G>(l1, smul::<G>(r1, h), lincomb::<G>(vscale(r, v2), basis), smul::<G>(r * r2, h));
    lemma_lincomb_add::<G>(v1, vscale(r, v2), basis);
    lemma_smul_add::<G>(r1, r * r2, h);
    // reduce modulo q
    assert forall|j: int| 0 <= j < v1.len() implies #[trigger] fold_mod(v1, r, v2, q)[j] == vadd(v1, vscale(r, v2))[j] % q by {
    }
    lemma_lincomb_mod::<G>(fold_mod(v1, r, v2, q), vadd(v1, vscale(r, v2)), q, basis);
    lemma_smul_mod::<G>(r1 + r * r2, q, h);
}

/// `(r x) mod q`.
pub open spec fn mul_mod(r: nat, x: nat, q: nat) -> nat {
    (r * x) % q
}

/// `r v` modulo `q`, entry by entry.
pub open spec fn vscale_mod(r: nat, v: Seq<nat>, q: nat) -> Seq<nat> {
    Seq::new(v.len(), |j: int| mul_mod(r, v[j], q))
}

/// Scaling a committed vector scales its commitment:
/// `commit(r v, r rho) == r commit(v, rho)`, for a basis and `H` whose order divides `q`.
pub proof fn lemma_commit_scale<G: CurveExtended>(basis: Seq<G::Elem>, h: G::Elem, v: Seq<nat>, rho: nat, r: nat, q: nat)
    requires
        q > 0,
        all_valid::<G>(basis),
        G::valid(h),
        v.len() <= basis.len(),
        forall|i: int| 0 <= i < basis.len() ==> smul::<G>(q, #[trigger] basis[i]) == G::zero_elem(),
        smul::<G>(q, h) == G::zero_elem(),
    ensures
        commit_spec::<G>(basis, h, vscale_mod(r, v, q), (r * rho) % q) == smul::<G>(r, commit_spec::<G>(basis, h, v, rho)),
{
    let l = lincomb::<G>(v, basis);
    lemma_lincomb_valid::<G>(v, basis);
    lemma_smul_valid::<G>(rho, h);
    lemma_smul_distrib::<G>(r, l, smul::<G>(rho, h));
    lemma_smul_mul::<G>(r, rho, h);
    lemma_smul_lincomb::<G>(r, v, basis);
    assert forall|j: int| 0 <= j < v.len() implies #[trigger] vscale_mod(r, v, q)[j] == vscale(r, v)[j] % q by {
    }
    lemma_lincomb_mod::<G>(vscale_mod(r, v, q), vscale(r, v), q, basis);
    lemma_smul_mod::<G>(r * rho, q, h);
}

/// `c1 + r c2` for commitments.
pub fn fold_commitment<G: CurveExtended, S: PrimeField>(c1: &G, r: &S, c2: &G) -> (out: G)
    requires
        S::num_bytes() == 8,
    ensures
        out.elem() == G::add_elem(c1.elem(), smul::<G>(r.val(), c2.elem())),
{
    let pts = vec![*c2];
    let ks = vec![*r];
    let rc = msm_curve_addition(&pts, &ks);
    proof {
        G::lemma_zero_valid();
        G::lemma_elem_valid(*c2);
        lemma_smul_valid::<G>(r.val(), c2.elem());
        G::lemma_group(G::zero_elem(), smul::<G>(r.val(), c2.elem()), G::zero_elem());
        G::lemma_group(smul::<G>(r.val(), c2.elem()), G::zero_elem(), G::zero_elem());
        let cs = vals(ks@);
        let ps = elems(pts@);
        assert(cs.drop_last().len() == 0);
        assert(lincomb::<G>(cs.drop_last(), ps) == G::zero_elem());
        assert(lincomb::<G>(cs, ps) == G::add_elem(lincomb::<G>(cs.drop_last(), ps), smul::<G>(cs.last(), ps[0])));
    }
    c1.add(&rc)
}

/// In the additive group of Goldilocks, `k x` is `k x mod p`.
pub proof fn lemma_goldilocks_smul(k: nat, x: nat)
    requires
        x < Goldilocks::modulus(),
    ensures
        smul::<GoldilocksAdditive>(k, x) == (k * x) % Goldilocks::modulus(),
    decreases k,
{
    let p = Goldilocks::modulus();
    Goldilocks::lemma_modulus();
    if k == 0 {
        assert(0 * x == 0);
        vstd::arithmetic::div_mod::lemma_small_mod(0, p);
    } else {
        lemma_goldilocks_smul((k - 1) as nat, x);
        vstd::arithmetic::div_mod::lemma_add_mod_noop(((k - 1) * x) as int, x as int, p as int);
        vstd::arithmetic::div_mod::lemma_mod_twice(((k - 1) * x) as int, p as int);
        vstd::arithmetic::div_mod::lemma_small_mod(x, p);
        assert((k - 1) * x + x == k * x) by (nonlinear_arith) requires k > 0;
        let prev = ((k - 1) * x) as nat;
        assert((prev % p + x) % p == (prev + x) % p);
    }
}

/// Every element of the additive group of Goldilocks has order dividing `p`,
/// so commitment parameters over it meet the hypothesis of the laws above
/// with Goldilocks scalars.
pub proof fn lemma_goldilocks_order(pp: &PedersenCommitment<GoldilocksAdditive>)
    ensures
        pp.order_divides(Goldilocks::modulus()),
{
    let p = Goldilocks::modulus();
    assert forall|i: int| 0 <= i < pp.basis@.len() implies smul::<GoldilocksAdditive>(p, #[trigger] elems(pp.basis@)[i])
        == GoldilocksAdditive::zero_elem() by {
        let x = elems(pp.basis@)[i];
        GoldilocksAdditive::lemma_elem_valid(pp.basis@[i]);
        lemma_goldilocks_smul(p, x);
        vstd::arithmetic::div_mod::lemma_mod_multiples_vanish(x as int, 0, p as int);
        assert(p * x == x * p) by (nonlinear_arith);
    }
    GoldilocksAdditive::lemma_elem_valid(pp.h);
    lemma_goldilocks_smul(p, pp.h.elem());
    vstd::arithmetic::div_mod::lemma_mod_multiples_vanish(pp.h.elem() as int, 0, p as int);
    assert(p * pp.h.elem() == pp.h.elem() * p) by (nonlinear_arith);
}

/// Commitment parameters: a basis and an independent point `H`.
pub struct PedersenCommitment<G: CurveExtended> {
    pub basis: Vec<G>,
    pub h: G,
}

impl<G: CurveExtended> PedersenCommitment<G> {
    /// Every basis point and `H` has an order dividing `q`, the scalar field's size.
    pub open spec fn order_divides(&self, q: nat) -> bool {
        &&& forall|i: int| 0 <= i < self.basis@.len() ==> smul::<G>(q, #[trigger] elems(self.basis@)[i]) == G::zero_elem()
        &&& smul::<G>(q, self.h.elem()) == G::zero_elem()
    }

    pub proof fn lemma_params_valid(&self)
        ensures
            all_valid::<G>(elems(self.basis@)),
            G::valid(self.h.elem()),
    {
        assert forall|j: int| 0 <= j < elems(self.basis@).len() implies G::valid(#[trigger] elems(self.basis@)[j]) by {
            G::lemma_elem_valid(self.basis@[j]);
        }
        G::lemma_elem_valid(self.h);
    }

    /// `c` opens to `v` with blinding `rho`.
    pub open spec fn opens(&self, c: G::Elem, v: Seq<nat>, rho: nat) -> bool {
        v.len() <= self.basis@.len() && c == commit_spec::<G>(elems(self.basis@), self.h.elem(), v, rho)
    }

    /// `MSM(basis, v) + r H`, or `None` when `v` is longer than the basis.
    pub fn commit<S: PrimeField>(&self, v: &Vec<S>, r: &S) -> (c: Option<G>)
        requires
            self.basis@.len() < 0x100_0000_0000,
            S::num_bytes() == 8,
        ensures
            c is None <==> v@.len() > self.basis@.len(),
            c matches Some(x) ==> x.elem() == commit_spec::<G>(elems(self.basis@), self.h.elem(), vals(v@), r.val()),
    {
        if v.len() > self.basis.len() {
            return None;
        }
        let mut prefix: Vec<G> = Vec::new();
        let mut i: usize = 0;
        while i < v.len()
            invariant
                v@.len() <= self.basis@.len(),
                i <= v@.len(),
                prefix@ =~= self.basis@.subrange(0, i as int),
            decreases v@.len() - i,
        {
            prefix.push(self.basis[i]);
            proof {
                assert(self.basis@.subrange(0, i + 1) =~= self.basis@.subrange(0, i as int).push(self.basis@[i as int]));
            }
            i = i + 1;
        }
        let m = msm_curve_addition(&prefix, v);
        let hs = vec![self.h];
        let rs = vec![*r];
        let rh = msm_curve_addition(&hs, &rs);
        proof {
            lemma_lincomb_prefix::<G>(vals(v@), elems(prefix@), elems(self.basis@));
            G::lemma_zero_valid();
            G::lemma_elem_valid(self.h);
            lemma_smul_valid::<G>(r.val(), self.h.elem());
            G::lemma_group(smul::<G>(r.val(), self.h.elem()), G::zero_elem(), G::zero_elem());
            G::lemma_group(G::zero_elem(), smul::<G>(r.val(), self.h.elem()), G::zero_elem());
            let cs = vals(rs@);
            let ps = elems(hs@);
            assert(cs.len() == 1);
            assert(ps.len() == 1);
            assert(cs.drop_last().len() == 0);
            assert(cs.last() == r.val());
            assert(ps[0] == self.h.elem());
            assert(lincomb::<G>(cs.drop_last(), ps) == G::zero_elem());
            assert(lincomb::<G>(cs, ps) == G::add_elem(lincomb::<G>(cs.drop_last(), ps), smul::<G>(cs.last(), ps[0])));
            assert(rh.elem() == smul::<G>(r.val(), self.h.elem()));
            assert(elems(prefix@).len() == v@.len());
            assert(m.elem() == lincomb::<G>(vals(v@), elems(self.basis@)));
        }
        Some(m.add(&rh))
    }
}

/// A combination reads only the points its coefficients reach.
pub proof fn lemma_lincomb_prefix<G: CurveExtended>(c: Seq<nat>, short: Seq<G::Elem>, long: Seq<G::Elem>)
    requires
        c.len() <= short.len(),
        short.len() <= long.len(),
        forall|i: int| 0 <= i < short.len() ==> #[trigger] short[i] == long[i],
    ensures
        lincomb::<G>(c, short) == lincomb::<G>(c, long),
    decreases c.len(),
{
    if c.len() > 0 {
        lemma_lincomb_prefix::<G>(c.drop_last(), short, long);
    }
}

} // verus!
