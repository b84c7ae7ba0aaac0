//! Multi-scalar multiplication by the bucket method: each group value the
//! algorithm builds is followed, in ghost state, as an integer combination of
//! the input points.
use crate::curve::CurveExtended;
use crate::field::{le_value, pow256, vals, PrimeField};
use vstd::prelude::*;

verus! {

/// `k a`: `a` added to itself `k` times.
pub open spec fn smul<G: CurveExtended>(k: nat, a: G::Elem) -> G::Elem
    decreases k,
{
    if k == 0 {
        G::zero_elem()
    } else {
        G::add_elem(smul::<G>((k - 1) as nat, a), a)
    }
}

/// `sum(c[j] pts[j])` over `j < c.len()`.
pub open spec fn lincomb<G: CurveExtended>(c: Seq<nat>, pts: Seq<G::Elem>) -> G::Elem
    decreases c.len(),
{
    if c.len() == 0 || pts.len() < c.len() {
        G::zero_elem()
    } else {
        G::add_elem(lincomb::<G>(c.drop_last(), pts), smul::<G>(c.last(), pts[c.len() - 1]))
    }
}

pub open spec fn all_valid<G: CurveExtended>(pts: Seq<G::Elem>) -> bool {
    forall|j: int| 0 <= j < pts.len() ==> G::valid(#[trigger] pts[j])
}

/// Entry-wise sum of two coefficient vectors.
pub open spec fn vadd(c: Seq<nat>, d: Seq<nat>) -> Seq<nat> {
    Seq::new(c.len(), |j: int| c[j] + d[j])
}

pub open spec fn unit(n: nat, i: int) -> Seq<nat> {
    Seq::new(n, |j: int| if j == i { 1nat } else { 0nat })
}

pub open spec fn zero_coeffs(n: nat) -> Seq<nat> {
    Seq::new(n, |j: int| 0nat)
}

/// The group elements of a sequence of values.
pub open spec fn elems<G: CurveExtended>(s: Seq<G>) -> Seq<G::Elem> {
    s.map_values(|x: G| x.elem())
}

pub proof fn lemma_smul_valid<G: CurveExtended>(k: nat, a: G::Elem)
    requires
        G::valid(a),
    ensures
        G::valid(smul::<G>(k, a)),
    decreases k,
{
    G::lemma_zero_valid();
    G::lemma_group(a, a, a);
    if k > 0 {
        lemma_smul_valid::<G>((k - 1) as nat, a);
        G::lemma_group(smul::<G>((k - 1) as nat, a), a, a);
    }
}

pub proof fn lemma_lincomb_valid<G: CurveExtended>(c: Seq<nat>, pts: Seq<G::Elem>)
    requires
        all_valid::<G>(pts),
    ensures
        G::valid(lincomb::<G>(c, pts)),
    decreases c.len(),
{
    G::lemma_zero_valid();
    if c.len() > 0 && pts.len() >= c.len() {
        lemma_lincomb_valid::<G>(c.drop_last(), pts);
        lemma_smul_valid::<G>(c.last(), pts[c.len() - 1]);
        G::lemma_group(lincomb::<G>(c.drop_last(), pts), smul::<G>(c.last(), pts[c.len() - 1]), G::zero_elem());
    }
}

/// `(a + b) P == a P + b P`.
pub proof fn lemma_smul_add<G: CurveExtended>(a: nat, b: nat, p: G::Elem)
    requires
        G::valid(p),
    ensures
        smul::<G>(a + b, p) == G::add_elem(smul::<G>(a, p), smul::<G>(b, p)),
    decreases b,
{
    lemma_smul_valid::<G>(a, p);
    G::lemma_group(smul::<G>(a, p), p, p);
    if b == 0 {
        assert(smul::<G>(0, p) == G::zero_elem());
    } else {
        lemma_smul_add::<G>(a, (b - 1) as nat, p);
        lemma_smul_valid::<G>((b - 1) as nat, p);
        G::lemma_group(smul::<G>(a, p), smul::<G>((b - 1) as nat, p), p);
        assert(smul::<G>(a + b, p) == G::add_elem(smul::<G>((a + b - 1) as nat, p), p));
    }
}

/// `(A + B) + (C + D) == (A + C) + (B + D)`.
pub proof fn lemma_swap4<G: CurveExtended>(a: G::Elem, b: G::Elem, c: G::Elem, d: G::Elem)
    requires
        G::valid(a),
        G::valid(b),
        G::valid(c),
        G::valid(d),
    ensures
        G::add_elem(G::add_elem(a, b), G::add_elem(c, d)) == G::add_elem(G::add_elem(a, c), G::add_elem(b, d)),
{
    G::lemma_group(a, b, c);
    G::lemma_group(c, d, a);
    G::lemma_group(a, c, d);
    G::lemma_group(b, c, d);
    let ab = G::add_elem(a, b);
    let cd = G::add_elem(c, d);
    let ac = G::add_elem(a, c);
    G::lemma_group(ab, c, d);
    G::lemma_group(a, b, c);
    G::lemma_group(ac, b, d);
    G::lemma_group(b, c, a);
    G::lemma_group(a, c, b);
    // (a + b) + (c + d) = ((a + b) + c) + d = (a + (b + c)) + d
    //   = (a + (c + b)) + d = ((a + c) + b) + d = (a + c) + (b + d)
    G::lemma_group(b, c, c);
    G::lemma_group(a, G::add_elem(b, c), d);
    G::lemma_group(a, G::add_elem(c, b), d);
}

/// A linear combination is additive in its coefficients.
pub proof fn lemma_lincomb_add<G: CurveExtended>(c: Seq<nat>, d: Seq<nat>, pts: Seq<G::Elem>)
    requires
        c.len() == d.len(),
        c.len() <= pts.len(),
        all_valid::<G>(pts),
    ensures
        lincomb::<G>(vadd(c, d), pts) == G::add_elem(lincomb::<G>(c, pts), lincomb::<G>(d, pts)),
    decreases c.len(),
{
    let s = vadd(c, d);
    if c.len() == 0 {
        assert(lincomb::<G>(s, pts) == G::zero_elem());
        G::lemma_zero_valid();
        G::lemma_group(G::zero_elem(), G::zero_elem(), G::zero_elem());
    } else {
        let n = c.len() - 1;
        assert(s.drop_last() =~= vadd(c.drop_last(), d.drop_last()));
        lemma_lincomb_add::<G>(c.drop_last(), d.drop_last(), pts);
        let p = pts[n];
        lemma_smul_add::<G>(c[n], d[n], p);
        lemma_lincomb_valid::<G>(c.drop_last(), pts);
        lemma_lincomb_valid::<G>(d.drop_last(), pts);
        lemma_smul_valid::<G>(c[n], p);
        lemma_smul_valid::<G>(d[n], p);
        lemma_swap4::<G>(
            lincomb::<G>(c.drop_last(), pts),
            lincomb::<G>(d.drop_last(), pts),
            smul::<G>(c[n], p),
            smul::<G>(d[n], p),
        );
        assert(s.last() == c[n] + d[n]);
    }
}

/// The all-zero combination is the zero element.
pub proof fn lemma_lincomb_zero<G: CurveExtended>(n: nat, pts: Seq<G::Elem>)
    requires
        n <= pts.len(),
        all_valid::<G>(pts),
    ensures
        lincomb::<G>(zero_coeffs(n), pts) == G::zero_elem(),
    decreases n,
{
    if n > 0 {
        assert(zero_coeffs(n).drop_last() =~= zero_coeffs((n - 1) as nat));
        lemma_lincomb_zero::<G>((n - 1) as nat, pts);
        G::lemma_zero_valid();
        G::lemma_group(G::zero_elem(), G::zero_elem(), G::zero_elem());
        assert(smul::<G>(0, pts[n - 1]) == G::zero_elem());
    }
}

/// The `i`-th unit combination is the `i`-th point.
pub proof fn lemma_lincomb_unit<G: CurveExtended>(n: nat, i: int, pts: Seq<G::Elem>)
    requires
        0 <= i < n,
        n <= pts.len(),
        all_valid::<G>(pts),
    ensures
        lincomb::<G>(unit(n, i), pts) == pts[i],
    decreases n,
{
    let u = unit(n, i);
    G::lemma_group(pts[i], pts[i], pts[i]);
    if n - 1 == i {
        assert(u.drop_last() =~= zero_coeffs((n - 1) as nat));
        lemma_lincomb_zero::<G>((n - 1) as nat, pts);
        assert(smul::<G>(1, pts[i]) == G::add_elem(smul::<G>(0, pts[i]), pts[i]));
        G::lemma_group(pts[i], G::zero_elem(), G::zero_elem());
        G::lemma_group(G::zero_elem(), pts[i], G::zero_elem());
    } else {
        assert(u.drop_last() =~= unit((n - 1) as nat, i));
        lemma_lincomb_unit::<G>((n - 1) as nat, i, pts);
        assert(smul::<G>(0, pts[n - 1]) == G::zero_elem());
    }
}

/// `2^n`.
pub open spec fn two_pow(n: nat) -> nat
    decreases n,
{
    if n == 0 {
        1
    } else {
        2 * two_pow((n - 1) as nat)
    }
}

pub proof fn lemma_two_pow_add(a: nat, b: nat)
    ensures
        two_pow(a + b) == two_pow(a) * two_pow(b),
        two_pow(a) > 0,
    decreases b,
{
    if b > 0 {
        lemma_two_pow_add(a, (b - 1) as nat);
        assert(two_pow(a + b) == 2 * two_pow((a + b - 1) as nat));
        assert(two_pow(b) == 2 * two_pow((b - 1) as nat));
        assert(two_pow(a) * (2 * two_pow((b - 1) as nat)) == 2 * (two_pow(a) * two_pow((b - 1) as nat)))
            by (nonlinear_arith);
    } else {
        lemma_two_pow_pos(a);
        assert(two_pow(0) == 1);
        assert(a + b == a);
    }
}

pub proof fn lemma_two_pow_pos(a: nat)
    ensures
        two_pow(a) > 0,
    decreases a,
{
    if a > 0 {
        lemma_two_pow_pos((a - 1) as nat);
    }
}

pub proof fn lemma_two_pow_mono(a: nat, b: nat)
    requires
        a <= b,
    ensures
        two_pow(a) <= two_pow(b),
    decreases b,
{
    lemma_two_pow_pos(b);
    if a < b {
        lemma_two_pow_mono(a, (b - 1) as nat);
    }
}

/// Window `w` of width `c` of `k`: `(k / 2^(c w)) mod 2^c`.
pub open spec fn digit(k: nat, c: nat, w: nat) -> nat {
    (k / two_pow(c * w)) % two_pow(c)
}

/// The low `c (w + 1)` bits are the low `c w` bits plus window `w`.
pub proof fn lemma_digit_step(k: nat, c: nat, w: nat)
    ensures
        k % two_pow(c * (w + 1)) == k % two_pow(c * w) + digit(k, c, w) * two_pow(c * w),
{
    let y = two_pow(c * w);
    let z = two_pow(c);
    assert(c * (w + 1) == c * w + c) by (nonlinear_arith);
    lemma_two_pow_add(c * w, c);
    lemma_two_pow_pos(c);
    vstd::arithmetic::div_mod::lemma_mod_breakdown(k as int, y as int, z as int);
    assert(y * ((k / y) % z) == ((k / y) % z) * y) by (nonlinear_arith);
}

/// `2^(8 n) == 256^n`.
pub proof fn lemma_two_pow_bytes(n: nat)
    ensures
        two_pow(8 * n) == pow256(n),
    decreases n,
{
    reveal_with_fuel(two_pow, 9);
    if n > 0 {
        lemma_two_pow_bytes((n - 1) as nat);
        assert(8 * n == 8 * (n - 1) + 8) by (nonlinear_arith) requires n > 0;
        lemma_two_pow_add(8 * ((n - 1) as nat), 8);
        assert(two_pow(8) == 256);
    }
}

/// The canonical value of a scalar whose encoding is eight bytes.
pub fn scalar_to_u64<S: PrimeField>(s: &S) -> (r: u64)
    requires
        S::num_bytes() == 8,
    ensures
        r as nat == s.val(),
{
    let b = s.to_le_bytes();
    let mut acc: u64 = 0;
    let mut i: usize = 8;
    proof {
        reveal_with_fuel(pow256, 9);
        assert(b@.subrange(8, 8) =~= Seq::<u8>::empty());
    }
    while i > 0
        invariant
            b@.len() == 8,
            i <= 8,
            acc as nat == le_value(b@.subrange(i as int, 8)),
            (acc as nat) < pow256((8 - i) as nat),
        decreases i,
    {
        proof {
            let tail = b@.subrange(i as int, 8);
            let longer = b@.subrange(i - 1, 8);
            assert(longer.drop_first() =~= tail);
            assert(longer[0] == b@[i - 1]);
            assert(pow256((8 - i + 1) as nat) == 256 * pow256((8 - i) as nat));
            reveal_with_fuel(pow256, 9);
            assert(acc * 256 + b@[i - 1] < 256 * pow256((8 - i) as nat)) by (nonlinear_arith)
                requires
                    (acc as nat) < pow256((8 - i) as nat),
                    b@[i - 1] < 256,
            ;
            assert(pow256(8) == 0x1_0000_0000_0000_0000);
            lemma_pow256_mono((8 - i + 1) as nat, 8);
        }
        acc = acc * 256 + b[i - 1] as u64;
        i = i - 1;
    }
    proof {
        assert(b@.subrange(0, 8) =~= b@);
    }
    acc
}

pub proof fn lemma_pow256_mono(a: nat, b: nat)
    requires
        a <= b,
    ensures
        pow256(a) <= pow256(b),
    decreases b,
{
    if a < b {
        lemma_pow256_mono(a, (b - 1) as nat);
    }
}

/// `2^n` as an integer.
fn pow2_u128(n: usize) -> (r: u128)
    requires
        n < 128,
    ensures
        r as nat == two_pow(n as nat),
{
    let mut r: u128 = 1;
    let mut i: usize = 0;
    proof {
        lemma_two_pow_mono(0, 127);
    }
    while i < n
        invariant
            i <= n,
            n < 128,
            r as nat == two_pow(i as nat),
            two_pow(i as nat) <= two_pow(127),
        decreases n - i,
    {
        proof {
            lemma_two_pow_mono((i + 1) as nat, 127);
            assert(two_pow(127) < 0x1_0000_0000_0000_0000_0000_0000_0000_0000) by {
                lemma_two_pow_bytes(16);
                lemma_two_pow_mono(127, 128);
                reveal_with_fuel(pow256, 17);
            }
        }
        r = r * 2;
        i = i + 1;
    }
    r
}

/// Window `segment` of width `c` of the scalar `k`.
pub fn get_at(segment: usize, c: usize, k: u64) -> (r: usize)
    requires
        1 <= c <= 30,
        segment <= 64,
    ensures
        r as nat == digit(k as nat, c as nat, segment as nat),
        (r as nat) < two_pow(c as nat),
{
    assert(c * segment <= 30 * 64) by (nonlinear_arith)
        requires
            c <= 30,
            segment <= 64,
    ;
    let skip = c * segment;
    proof {
        lemma_two_pow_pos(c as nat);
        lemma_two_pow_pos(skip as nat);
    }
    if skip >= 64 {
        proof {
            lemma_two_pow_bytes(8);
            reveal_with_fuel(pow256, 9);
            lemma_two_pow_mono(64, skip as nat);
            vstd::arithmetic::div_mod::lemma_basic_div(k as int, two_pow(skip as nat) as int);
            vstd::arithmetic::div_mod::lemma_small_mod(0, two_pow(c as nat));
        }
        0
    } else {
        let d = pow2_u128(skip);
        let m = pow2_u128(c);
        let v = ((k as u128) / d) % m;
        proof {
            lemma_two_pow_mono(c as nat, 30);
            reveal_with_fuel(two_pow, 31);
            assert(two_pow(30) == 0x4000_0000);
        }
        v as usize
    }
}

/// A bucket: empty, holding one point as given, or holding an accumulated sum.
#[derive(Clone, Copy)]
pub enum Bucket<G: CurveExtended> {
    Empty,
    Single(G),
    Accumulated(G),
}

impl<G: CurveExtended> Bucket<G> {
    /// The sum of the points routed into the bucket.
    pub open spec fn elem_of(&self) -> G::Elem {
        match *self {
            Bucket::Empty => G::zero_elem(),
            Bucket::Single(a) => a.elem(),
            Bucket::Accumulated(a) => a.elem(),
        }
    }

    /// Routes one more point into the bucket.
    pub fn add_assign(&mut self, other: &G)
        ensures
            final(self).elem_of() == G::add_elem(old(self).elem_of(), other.elem()),
            *old(self) is Empty ==> *final(self) == Bucket::Single(*other),
            !(*old(self) is Empty) ==> *final(self) is Accumulated,
    {
        proof {
            G::lemma_zero_valid();
            G::lemma_elem_valid(*other);
            G::lemma_group(other.elem(), G::zero_elem(), G::zero_elem());
            G::lemma_group(G::zero_elem(), other.elem(), G::zero_elem());
        }
        *self = match *self {
            Bucket::Empty => Bucket::Single(*other),
            Bucket::Single(a) => Bucket::Accumulated(a.add(other)),
            Bucket::Accumulated(a) => Bucket::Accumulated(a.add(other)),
        };
    }

    /// `other + bucket`.
    pub fn add(&self, other: &G) -> (r: G)
        ensures
            r.elem() == G::add_elem(other.elem(), self.elem_of()),
    {
        proof {
            G::lemma_zero_valid();
            G::lemma_elem_valid(*other);
            G::lemma_group(other.elem(), G::zero_elem(), G::zero_elem());
        }
        match self {
            Bucket::Empty => *other,
            Bucket::Single(a) => other.add(a),
            Bucket::Accumulated(a) => other.add(a),
        }
    }
}

/// The scalars as integers.
pub open spec fn nats(ks: Seq<u64>) -> Seq<nat> {
    ks.map_values(|k: u64| k as nat)
}

/// Points whose window-`w` digit is `b + 1`, among the first `i`.
pub open spec fn ind(ks: Seq<nat>, c: nat, w: nat, i: int, b: int) -> Seq<nat> {
    Seq::new(ks.len(), |j: int| if j < i && digit(ks[j], c, w) == b + 1 { 1nat } else { 0nat })
}

/// `[d_j > k]`: the running bucket sum from the top down to bucket `k`.
pub open spec fn above(ks: Seq<nat>, c: nat, w: nat, k: nat) -> Seq<nat> {
    Seq::new(ks.len(), |j: int| if digit(ks[j], c, w) > k { 1nat } else { 0nat })
}

/// `[d_j > k] (d_j - k)`: the accumulated sum from the top down to bucket `k`.
pub open spec fn above_weighted(ks: Seq<nat>, c: nat, w: nat, k: nat) -> Seq<nat> {
    Seq::new(ks.len(), |j: int| if digit(ks[j], c, w) > k { (digit(ks[j], c, w) - k) as nat } else { 0nat })
}

/// `d_j 2^t`.
pub open spec fn scaled_digits(ks: Seq<nat>, c: nat, w: nat, t: nat) -> Seq<nat> {
    Seq::new(ks.len(), |j: int| digit(ks[j], c, w) * two_pow(t))
}

/// Routes each point into the bucket of its window-`w` digit (digit 0 is skipped):
/// bucket `b` ends up holding the points whose digit is `b + 1`.
fn fill_buckets<G: CurveExtended>(bases: &Vec<G>, ks: &Vec<u64>, c: usize, w: usize, nb: usize) -> (buckets: Vec<Bucket<G>>)
    requires
        bases@.len() == ks@.len(),
        1 <= c <= 30,
        w <= 64,
        nb as nat + 1 == two_pow(c as nat),
    ensures
        buckets@.len() == nb,
        forall|x: int|
            0 <= x < nb ==> (#[trigger] buckets@[x]).elem_of() == lincomb::<G>(
                ind(nats(ks@), c as nat, w as nat, ks@.len() as int, x),
                elems(bases@),
            ),
{
    let ghost kn = nats(ks@);
    let ghost pts = elems(bases@);
    let ghost n = ks@.len();
    let ghost cn = c as nat;
    let ghost wn = w as nat;
    proof {
        assert forall|j: int| 0 <= j < pts.len() implies G::valid(#[trigger] pts[j]) by {
            G::lemma_elem_valid(bases@[j]);
        }
        lemma_lincomb_zero::<G>(n, pts);
    }
    let mut buckets: Vec<Bucket<G>> = Vec::new();
    let mut b: usize = 0;
    while b < nb
        invariant
            b <= nb,
            buckets@.len() == b,
            forall|x: int| 0 <= x < b ==> (#[trigger] buckets@[x]).elem_of() == G::zero_elem(),
        decreases nb - b,
    {
        buckets.push(Bucket::Empty);
        b = b + 1;
    }
    proof {
        assert forall|x: int| 0 <= x < nb implies (#[trigger] buckets@[x]).elem_of() == lincomb::<G>(ind(kn, cn, wn, 0, x), pts) by {
            assert(ind(kn, cn, wn, 0, x) =~= zero_coeffs(n));
        }
    }
    let mut i: usize = 0;
    while i < bases.len()
        invariant
            kn == nats(ks@),
            pts == elems(bases@),
            n == ks@.len(),
            bases@.len() == n,
            all_valid::<G>(pts),
            1 <= c <= 30,
            w <= 64,
            nb as nat + 1 == two_pow(cn),
            cn == c,
            wn == w,
            i <= n,
            buckets@.len() == nb,
            forall|x: int| 0 <= x < nb ==> (#[trigger] buckets@[x]).elem_of() == lincomb::<G>(ind(kn, cn, wn, i as int, x), pts),
        decreases n - i,
    {
        let seg = get_at(w, c, ks[i]);
        let ghost old_buckets = buckets@;
        proof {
            assert(kn[i as int] == ks@[i as int] as nat);
        }
        if seg != 0 {
            let mut bk = buckets[seg - 1];
            bk.add_assign(&bases[i]);
            buckets.set(seg - 1, bk);
        }
        proof {
            let sx = seg as int - 1;
            assert forall|x: int| 0 <= x < nb implies (#[trigger] buckets@[x]).elem_of() == lincomb::<G>(ind(kn, cn, wn, i + 1, x), pts) by {
                if x == sx {
                    let before = ind(kn, cn, wn, i as int, x);
                    assert(vadd(before, unit(n, i as int)) =~= ind(kn, cn, wn, i + 1, x));
                    lemma_lincomb_add::<G>(before, unit(n, i as int), pts);
                    lemma_lincomb_unit::<G>(n, i as int, pts);
                    assert(pts[i as int] == bases@[i as int].elem());
                } else {
                    assert(buckets@[x] == old_buckets[x]);
                    assert(ind(kn, cn, wn, i + 1, x) =~= ind(kn, cn, wn, i as int, x));
                }
            }
        }
        i = i + 1;
    }
    buckets
}

/// The window-`w` sum scaled to its place: `sum_j d_j 2^(c w) P_j`.
fn window_sum<G: CurveExtended>(bases: &Vec<G>, ks: &Vec<u64>, c: usize, w: usize) -> (r: G)
    requires
        bases@.len() == ks@.len(),
        1 <= c <= 30,
        w <= 64,
    ensures
        r.elem() == lincomb::<G>(scaled_digits(nats(ks@), c as nat, w as nat, (c * w) as nat), elems(bases@)),
{
    let ghost kn = nats(ks@);
    let ghost pts = elems(bases@);
    let ghost n = ks@.len();
    let ghost cn = c as nat;
    let ghost wn = w as nat;
    proof {
        assert forall|j: int| 0 <= j < pts.len() implies G::valid(#[trigger] pts[j]) by {
            G::lemma_elem_valid(bases@[j]);
        }
        lemma_lincomb_zero::<G>(n, pts);
        assert(two_pow(cn) <= 0x4000_0000) by {
            lemma_two_pow_mono(cn, 30);
            reveal_with_fuel(two_pow, 31);
        }
        lemma_two_pow_pos(cn);
    }
    let nb = (pow2_u128(c) - 1) as usize;
    let buckets = fill_buckets(bases, ks, c, w, nb);
    // Summation by parts, from the top bucket down.
    let mut sum = G::identity();
    let mut acc = G::identity();
    let mut k: usize = nb;
    proof {
        assert forall|j: int| 0 <= j < n implies digit(#[trigger] kn[j], cn, wn) < two_pow(cn) by {
            vstd::arithmetic::div_mod::lemma_mod_bound((kn[j] / two_pow(cn * wn)) as int, two_pow(cn) as int);
        }
        assert(above(kn, cn, wn, nb as nat) =~= zero_coeffs(n));
        assert(above_weighted(kn, cn, wn, nb as nat) =~= zero_coeffs(n));
    }
    while k > 0
        invariant
            kn == nats(ks@),
            pts == elems(bases@),
            n == ks@.len(),
            bases@.len() == n,
            all_valid::<G>(pts),
            cn == c,
            wn == w,
            k <= nb,
            buckets@.len() == nb,
            forall|x: int| 0 <= x < nb ==> (#[trigger] buckets@[x]).elem_of() == lincomb::<G>(ind(kn, cn, wn, n as int, x), pts),
            sum.elem() == lincomb::<G>(above(kn, cn, wn, k as nat), pts),
            acc.elem() == lincomb::<G>(above_weighted(kn, cn, wn, k as nat), pts),
        decreases k,
    {
        k = k - 1;
        let ghost s_old = sum.elem();
        sum = buckets[k].add(&sum);
        proof {
            let kk = k as nat;
            assert(vadd(above(kn, cn, wn, kk + 1), ind(kn, cn, wn, n as int, k as int)) =~= above(kn, cn, wn, kk));
            lemma_lincomb_add::<G>(above(kn, cn, wn, kk + 1), ind(kn, cn, wn, n as int, k as int), pts);
        }
        acc = acc.add(&sum);
        proof {
            let kk = k as nat;
            assert(vadd(above_weighted(kn, cn, wn, kk + 1), above(kn, cn, wn, kk)) =~= above_weighted(kn, cn, wn, kk));
            lemma_lincomb_add::<G>(above_weighted(kn, cn, wn, kk + 1), above(kn, cn, wn, kk), pts);
        }
    }
    proof {
        assert(two_pow(0) == 1);
        assert forall|j: int| 0 <= j < n implies #[trigger] above_weighted(kn, cn, wn, 0)[j] == scaled_digits(kn, cn, wn, 0)[j] by {
            let d = digit(kn[j], cn, wn);
            assert(d * 1 == d);
            assert(scaled_digits(kn, cn, wn, 0)[j] == d * two_pow(0));
            if d > 0 {
                assert(above_weighted(kn, cn, wn, 0)[j] == (d - 0) as nat);
            } else {
                assert(above_weighted(kn, cn, wn, 0)[j] == 0);
            }
        }
        assert(above_weighted(kn, cn, wn, 0) =~= scaled_digits(kn, cn, wn, 0));
    }
    // Scale by 2^(c w).
    assert(c * w <= 30 * 64) by (nonlinear_arith)
        requires
            c <= 30,
            w <= 64,
    ;
    let steps = c * w;
    let mut t: usize = 0;
    while t < steps
        invariant
            pts == elems(bases@),
            all_valid::<G>(pts),
            n == ks@.len(),
            kn.len() == n,
            n <= pts.len(),
            t <= steps,
            acc.elem() == lincomb::<G>(scaled_digits(kn, cn, wn, t as nat), pts),
        decreases steps - t,
    {
        acc = acc.double();
        proof {
            let tt = t as nat;
            assert(two_pow(tt + 1) == 2 * two_pow(tt));
            assert forall|j: int| 0 <= j < n implies #[trigger] vadd(scaled_digits(kn, cn, wn, tt), scaled_digits(kn, cn, wn, tt))[j]
                == scaled_digits(kn, cn, wn, tt + 1)[j] by {
                let d = digit(kn[j], cn, wn);
                assert(d * two_pow(tt) + d * two_pow(tt) == d * (2 * two_pow(tt))) by (nonlinear_arith);
            }
            assert(vadd(scaled_digits(kn, cn, wn, tt), scaled_digits(kn, cn, wn, tt)) =~= scaled_digits(kn, cn, wn, tt + 1));
            lemma_lincomb_add::<G>(scaled_digits(kn, cn, wn, tt), scaled_digits(kn, cn, wn, tt), pts);
        }
        t = t + 1;
    }
    acc
}

/// Number of bits needed to write `n`.
fn bit_length(n: usize) -> (r: usize)
    requires
        n < 0x100_0000_0000,
    ensures
        r <= 40,
{
    let mut m: usize = n;
    let mut b: usize = 0;
    proof {
        lemma_two_pow_bytes(5);
        reveal_with_fuel(pow256, 6);
        assert(two_pow(40) == 0x100_0000_0000);
    }
    while m > 0
        invariant
            b <= 40,
            (m as nat) < two_pow((40 - b) as nat),
        decreases m,
    {
        proof {
            if b == 40 {
                assert(two_pow(0) == 1);
            }
            assert(two_pow((40 - b) as nat) == 2 * two_pow((40 - b - 1) as nat));
        }
        m = m / 2;
        b = b + 1;
    }
    b
}

/// Window width for `n` points: 1 below 4 points, 3 below 32, else
/// `floor(0.69 log2 n) + 2`.
pub fn window_width(n: usize) -> (c: usize)
    requires
        n < 0x100_0000_0000,
    ensures
        1 <= c <= 30,
{
    if n < 4 {
        1
    } else if n < 32 {
        3
    } else {
        let log2 = bit_length(n);
        log2 * 69 / 100 + 2
    }
}

/// Low `m` bits of `k`.
pub open spec fn low(k: nat, m: nat) -> nat {
    k % two_pow(m)
}

pub open spec fn low_bits(ks: Seq<nat>, m: nat) -> Seq<nat> {
    Seq::new(ks.len(), |j: int| low(ks[j], m))
}

/// Variable-base multi-scalar multiplication `sum(coeffs[i] bases[i])` by the
/// bucket method; the identity for no points.
pub fn msm_curve_addition<G: CurveExtended, S: PrimeField>(bases: &Vec<G>, coeffs: &Vec<S>) -> (r: G)
    requires
        bases@.len() == coeffs@.len(),
        bases@.len() < 0x100_0000_0000,
        S::num_bytes() == 8,
    ensures
        r.elem() == lincomb::<G>(vals(coeffs@), elems(bases@)),
{
    let mut ks: Vec<u64> = Vec::new();
    let mut i: usize = 0;
    while i < coeffs.len()
        invariant
            S::num_bytes() == 8,
            i <= coeffs@.len(),
            nats(ks@) == vals(coeffs@).subrange(0, i as int),
        decreases coeffs@.len() - i,
    {
        let k = scalar_to_u64(&coeffs[i]);
        let ghost before = ks@;
        ks.push(k);
        proof {
            assert(nats(ks@) =~= nats(before).push(k as nat));
            assert(nats(ks@) =~= vals(coeffs@).subrange(0, i + 1));
        }
        i = i + 1;
    }
    proof {
        assert(vals(coeffs@).subrange(0, coeffs@.len() as int) =~= vals(coeffs@));
    }
    let ghost kn = nats(ks@);
    let ghost pts = elems(bases@);
    let ghost n = bases@.len();
    let c = window_width(bases.len());
    let windows = 64 / c + 1;
    let mut total = G::identity();
    let mut w: usize = 0;
    proof {
        assert forall|j: int| 0 <= j < pts.len() implies G::valid(#[trigger] pts[j]) by {
            G::lemma_elem_valid(bases@[j]);
        }
        assert(low_bits(kn, 0) =~= zero_coeffs(n)) by {
            assert forall|j: int| 0 <= j < n implies #[trigger] low_bits(kn, 0)[j] == 0 by {
                assert(two_pow(0) == 1);
            }
        }
        lemma_lincomb_zero::<G>(n, pts);
    }
    while w < windows
        invariant
            kn == nats(ks@),
            pts == elems(bases@),
            n == bases@.len(),
            ks@.len() == n,
            all_valid::<G>(pts),
            1 <= c <= 30,
            windows == 64usize / c + 1,
            w <= windows,
            total.elem() == lincomb::<G>(low_bits(kn, (c * w) as nat), pts),
        decreases windows - w,
    {
        let ws = window_sum(bases, &ks, c, w);
        total = total.add(&ws);
        proof {
            let cw = (c * w) as nat;
            assert((c * (w + 1)) as nat == c * w + c) by (nonlinear_arith);
            assert forall|j: int| 0 <= j < n implies #[trigger] vadd(low_bits(kn, cw), scaled_digits(kn, c as nat, w as nat, cw))[j]
                == low_bits(kn, (c * (w + 1)) as nat)[j] by {
                lemma_digit_step(kn[j], c as nat, w as nat);
                assert(c * (w + 1) == c * w + c) by (nonlinear_arith);
                assert((c as nat) * ((w as nat) + 1) == (c * (w + 1)) as nat);
            }
            assert(vadd(low_bits(kn, cw), scaled_digits(kn, c as nat, w as nat, cw)) =~= low_bits(kn, (c * (w + 1)) as nat));
            lemma_lincomb_add::<G>(low_bits(kn, cw), scaled_digits(kn, c as nat, w as nat, cw), pts);
        }
        w = w + 1;
    }
    proof {
        let m = (c * windows) as nat;
        assert(c * windows >= 64) by (nonlinear_arith)
            requires
                windows == 64usize / c + 1,
                c >= 1,
        ;
        lemma_two_pow_bytes(8);
        reveal_with_fuel(pow256, 9);
        lemma_two_pow_mono(64, m);
        assert forall|j: int| 0 <= j < n implies #[trigger] low_bits(kn, m)[j] == kn[j] by {
            assert(kn[j] == ks@[j] as nat);
            vstd::arithmetic::div_mod::lemma_small_mod(kn[j], two_pow(m));
        }
        assert(low_bits(kn, m) =~= kn);
    }
    total
}

} // verus!
