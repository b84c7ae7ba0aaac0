//! BigNat limbs: an element of one field written as fixed-width limbs, so that
//! a circuit over another field can carry it. The value is
//! `sum(limb_i * 2^(width * i))`.
use crate::field::{le_value, pow256, PrimeField};
use vstd::prelude::*;

verus! {

/// Bits per limb.
pub const BN_LIMB_WIDTH: usize = 32;

/// Bytes per limb.
pub const BN_LIMB_BYTES: usize = 4;

/// Number of limbs.
pub const BN_N_LIMBS: usize = 2;

/// `2^BN_LIMB_WIDTH`.
pub const BN_LIMB_BASE: u64 = 0x1_0000_0000;

/// `sum(limbs[i] * 2^(32 i))`.
pub open spec fn limb_value(limbs: Seq<nat>) -> nat
    decreases limbs.len(),
{
    if limbs.len() == 0 {
        0
    } else {
        limbs[0] + (BN_LIMB_BASE as nat) * limb_value(limbs.drop_first())
    }
}

/// The limbs of `v`: `v mod 2^32`, then `(v / 2^32) mod 2^32`.
pub open spec fn bn_limbs(v: nat) -> Seq<nat> {
    seq![v % (BN_LIMB_BASE as nat), (v / (BN_LIMB_BASE as nat)) % (BN_LIMB_BASE as nat)]
}

/// Two limbs below the base are the limbs of their value.
pub proof fn lemma_bn_limbs_unique(limbs: Seq<nat>)
    requires
        limbs.len() == BN_N_LIMBS,
        forall|i: int| 0 <= i < limbs.len() ==> #[trigger] limbs[i] < BN_LIMB_BASE,
    ensures
        bn_limbs(limb_value(limbs)) == limbs,
{
    let b = BN_LIMB_BASE as nat;
    let v = limb_value(limbs);
    let t = limbs.drop_first();
    assert(t.drop_first().len() == 0);
    assert(limb_value(t.drop_first()) == 0);
    assert(limb_value(t) == t[0] + b * limb_value(t.drop_first()));
    assert(limb_value(t) == t[0]);
    assert(t[0] == limbs[1]);
    assert(v == limbs[0] + b * limbs[1]);
    vstd::arithmetic::div_mod::lemma_fundamental_div_mod_converse(v as int, b as int, limbs[1] as int, limbs[0] as int);
    vstd::arithmetic::div_mod::lemma_small_mod(limbs[1], b);
    assert(bn_limbs(v) =~= limbs);
}

/// Limbs of `u64` values as integers.
pub open spec fn limb_nats(limbs: Seq<u64>) -> Seq<nat> {
    limbs.map_values(|l: u64| l as nat)
}

pub proof fn lemma_le_value_concat(a: Seq<u8>, b: Seq<u8>)
    ensures
        le_value(a + b) == le_value(a) + pow256(a.len()) * le_value(b),
    decreases a.len(),
{
    if a.len() == 0 {
        assert(a + b =~= b);
        assert(pow256(0) == 1);
        assert(le_value(a) == 0);
    } else {
        assert((a + b).drop_first() =~= a.drop_first() + b);
        assert(le_value(a + b) == (a + b)[0] as nat + 256 * le_value((a + b).drop_first()));
        assert(le_value(a) == a[0] as nat + 256 * le_value(a.drop_first()));
        lemma_le_value_concat(a.drop_first(), b);
        assert((a + b)[0] == a[0]);
        let x = pow256((a.len() - 1) as nat);
        assert(pow256(a.len()) == 256 * x);
        assert(256 * (le_value(a.drop_first()) + x * le_value(b)) == 256 * le_value(a.drop_first()) + (256
            * x) * le_value(b)) by (nonlinear_arith);
    }
}

pub proof fn lemma_le_value_4(s: Seq<u8>)
    requires
        s.len() == 4,
    ensures
        le_value(s) == s[0] + 256 * (s[1] + 256 * (s[2] + 256 * (s[3] as nat))),
{
    let s1 = s.drop_first();
    let s2 = s1.drop_first();
    let s3 = s2.drop_first();
    let s4 = s3.drop_first();
    assert(s4.len() == 0);
    assert(le_value(s4) == 0);
    assert(le_value(s3) == s[3] as nat);
    assert(le_value(s2) == s[2] + 256 * le_value(s3));
    assert(le_value(s1) == s[1] + 256 * le_value(s2));
}

/// Bytes read in chunks of four give the same value as limbs.
pub proof fn lemma_chunks(b: Seq<u8>, limbs: Seq<nat>)
    requires
        b.len() == 4 * limbs.len(),
        forall|k: int| 0 <= k < limbs.len() ==> #[trigger] limbs[k] == le_value(b.subrange(4 * k, 4 * k + 4)),
    ensures
        le_value(b) == limb_value(limbs),
    decreases limbs.len(),
{
    if limbs.len() == 0 {
        assert(b.len() == 0);
    } else {
        let head = b.subrange(0, 4);
        let rest = b.subrange(4, b.len() as int);
        assert(b =~= head + rest);
        lemma_le_value_concat(head, rest);
        reveal_with_fuel(pow256, 5);
        assert forall|k: int| 0 <= k < limbs.drop_first().len() implies #[trigger] limbs.drop_first()[k]
            == le_value(rest.subrange(4 * k, 4 * k + 4)) by {
            assert(rest.subrange(4 * k, 4 * k + 4) =~= b.subrange(4 * (k + 1), 4 * (k + 1) + 4));
            assert(limbs.drop_first()[k] == limbs[k + 1]);
        }
        lemma_chunks(rest, limbs.drop_first());
        assert(limbs[0] == le_value(b.subrange(0, 4)));
    }
}

/// Splits the canonical value of `x` into `BN_N_LIMBS` limbs of `BN_LIMB_WIDTH` bits.
pub fn f_to_nat<G: PrimeField>(x: &G) -> (r: Vec<u64>)
    requires
        G::num_bytes() == BN_LIMB_BYTES * BN_N_LIMBS,
    ensures
        r@.len() == BN_N_LIMBS,
        forall|i: int| 0 <= i < r@.len() ==> #[trigger] r@[i] < BN_LIMB_BASE,
        limb_value(limb_nats(r@)) == x.val(),
        limb_nats(r@) == bn_limbs(x.val()),
{
    let bytes = x.to_le_bytes();
    let mut r: Vec<u64> = Vec::new();
    let mut k: usize = 0;
    while k < BN_N_LIMBS
        invariant
            bytes@.len() == 4 * BN_N_LIMBS,
            k <= BN_N_LIMBS,
            r@.len() == k,
            forall|j: int| 0 <= j < k ==> #[trigger] r@[j] < BN_LIMB_BASE,
            forall|j: int| 0 <= j < k ==> #[trigger] limb_nats(r@)[j] == le_value(bytes@.subrange(4 * j, 4 * j + 4)),
        decreases BN_N_LIMBS - k,
    {
        let o = 4 * k;
        let limb = bytes[o] as u64 + 256 * (bytes[o + 1] as u64 + 256 * (bytes[o + 2] as u64 + 256
            * (bytes[o + 3] as u64)));
        proof {
            let s = bytes@.subrange(o as int, o + 4);
            lemma_le_value_4(s);
            assert(s[0] == bytes@[o as int] && s[1] == bytes@[o + 1] && s[2] == bytes@[o + 2] && s[3]
                == bytes@[o + 3]);
        }
        let ghost before = r@;
        r.push(limb);
        proof {
            assert(limb_nats(r@) =~= limb_nats(before).push(limb as nat));
        }
        k = k + 1;
    }
    proof {
        lemma_chunks(bytes@, limb_nats(r@));
        lemma_bn_limbs_unique(limb_nats(r@));
    }
    r
}

/// Writes a limb as four little-endian bytes.
fn limb_bytes(limb: u64) -> (r: Vec<u8>)
    requires
        limb < BN_LIMB_BASE,
    ensures
        r@.len() == 4,
        le_value(r@) == limb,
{
    let b0 = (limb % 256) as u8;
    let b1 = ((limb / 256) % 256) as u8;
    let b2 = ((limb / 65536) % 256) as u8;
    let b3 = (limb / 16777216) as u8;
    let r = vec![b0, b1, b2, b3];
    proof {
        lemma_le_value_4(r@);
    }
    r
}

/// Reassembles limbs into an element of `G`, reducing modulo its prime.
pub fn nat_to_f<G: PrimeField>(limbs: &Vec<u64>) -> (r: G)
    requires
        limbs@.len() == BN_N_LIMBS,
        forall|i: int| 0 <= i < limbs@.len() ==> #[trigger] limbs@[i] < BN_LIMB_BASE,
    ensures
        r.val() == limb_value(limb_nats(limbs@)) % G::modulus(),
{
    let mut bytes: Vec<u8> = Vec::new();
    let mut k: usize = 0;
    while k < BN_N_LIMBS
        invariant
            limbs@.len() == BN_N_LIMBS,
            forall|i: int| 0 <= i < limbs@.len() ==> #[trigger] limbs@[i] < BN_LIMB_BASE,
            k <= BN_N_LIMBS,
            bytes@.len() == 4 * k,
            forall|j: int| 0 <= j < k ==> #[trigger] limb_nats(limbs@)[j] == le_value(bytes@.subrange(4 * j, 4 * j + 4)),
        decreases BN_N_LIMBS - k,
    {
        let chunk = limb_bytes(limbs[k]);
        let ghost before = bytes@;
        let mut i: usize = 0;
        while i < 4
            invariant
                chunk@.len() == 4,
                i <= 4,
                bytes@ == before + chunk@.subrange(0, i as int),
            decreases 4 - i,
        {
            bytes.push(chunk[i]);
            proof {
                assert(chunk@.subrange(0, i + 1) =~= chunk@.subrange(0, i as int).push(chunk@[i as int]));
            }
            i = i + 1;
        }
        proof {
            assert(chunk@.subrange(0, 4) =~= chunk@);
            assert forall|j: int| 0 <= j < k + 1 implies #[trigger] limb_nats(limbs@)[j] == le_value(bytes@.subrange(4 * j, 4 * j + 4)) by {
                if j < k {
                    assert(bytes@.subrange(4 * j, 4 * j + 4) =~= before.subrange(4 * j, 4 * j + 4));
                } else {
                    assert(bytes@.subrange(4 * j, 4 * j + 4) =~= chunk@);
                }
            }
        }
        k = k + 1;
    }
    proof {
        lemma_chunks(bytes@, limb_nats(limbs@));
    }
    G::from_le_bytes(&bytes)
}

/// Encoding into limbs and decoding back returns the same element: for
/// every `x` of a field whose encoding fills the limbs, the limbs of its value
/// ([`f_to_nat`]) reassemble and reduce ([`nat_to_f`]) to its value.
pub proof fn lemma_limbs_round_trip<G: PrimeField>(x: G)
    requires
        G::num_bytes() == BN_LIMB_BYTES * BN_N_LIMBS,
    ensures
        limb_value(bn_limbs(x.val())) == x.val(),
        limb_value(bn_limbs(x.val())) % G::modulus() == x.val(),
{
    G::lemma_bounds(x);
    let v = x.val();
    let b = BN_LIMB_BASE as nat;
    reveal_with_fuel(pow256, 9);
    assert(v < b * b);
    let l = bn_limbs(v);
    assert(l.drop_first().drop_first().len() == 0);
    assert(limb_value(l.drop_first()) == l[1] + b * limb_value(l.drop_first().drop_first()));
    assert(limb_value(l) == l[0] + b * l[1]);
    assert(v / b < b) by {
        vstd::arithmetic::div_mod::lemma_fundamental_div_mod(v as int, b as int);
        assert(b * (v / b) <= v);
        assert(v / b < b) by (nonlinear_arith)
            requires
                b * (v / b) <= v,
                v < b * b,
                b > 0,
        ;
    }
    vstd::arithmetic::div_mod::lemma_small_mod(v / b, b);
    vstd::arithmetic::div_mod::lemma_fundamental_div_mod(v as int, b as int);
    vstd::arithmetic::div_mod::lemma_small_mod(v, G::modulus());
}

} // verus!
