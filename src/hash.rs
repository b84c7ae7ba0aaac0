//! Native MiMC permutation and the random-oracle transcript built on it.
use crate::curve::Point;
use crate::field::{le_value, vals, PrimeField};
use vstd::prelude::*;

verus! {

/// Number of MiMC rounds.
pub const MIMC_ROUNDS: usize = 322;

/// The BLAKE2b-512 digest of a byte string.
pub uninterp spec fn blake2b_of(data: Seq<u8>) -> Seq<u8>;

/// Relies on `blake2b_simd::blake2b`: the default-parameter BLAKE2b digest,
/// 64 bytes long, a function of the input alone.
#[verifier::external_body]
fn blake2b_digest(data: &Vec<u8>) -> (r: Vec<u8>)
    ensures
        r@ == blake2b_of(data@),
        r@.len() == 64,
{
    blake2b_simd::blake2b(data.as_slice()).as_bytes().to_vec()
}

/// Public seed of the round-constant chain.
pub open spec fn constant_seed() -> Seq<u8> {
    seq![109u8, 105, 109, 99]
}

/// `i`-th digest of the chain `seed, H(seed), H(H(seed)), ...` (after the seed).
pub open spec fn digest_chain(i: nat) -> Seq<u8>
    decreases i,
{
    if i == 0 {
        blake2b_of(constant_seed())
    } else {
        blake2b_of(digest_chain((i - 1) as nat))
    }
}

/// One MiMC round: `(x_left + c)^3 + x_right`, all modulo `p`.
pub open spec fn mimc_round(c: nat, xl: nat, xr: nat, p: nat) -> nat {
    let t = (xl + c) % p;
    let sq = (t * t) % p;
    let cube = (sq * t) % p;
    (cube + xr) % p
}

/// The MiMC permutation with constants `cs`; the output is the final left half.
pub open spec fn mimc_spec(cs: Seq<nat>, xl: nat, xr: nat, p: nat) -> nat
    decreases cs.len(),
{
    if cs.len() == 0 {
        xl
    } else {
        mimc_spec(cs.drop_first(), mimc_round(cs[0], xl, xr, p), xl, p)
    }
}

/// Squeeze of an absorbed sequence: `acc := acc + e + MiMC(e, acc)` from `acc = key`.
pub open spec fn squeeze_spec(cs: Seq<nat>, key: nat, state: Seq<nat>, p: nat) -> nat
    decreases state.len(),
{
    if state.len() == 0 {
        key
    } else {
        let acc = squeeze_spec(cs, key, state.drop_last(), p);
        let e = state.last();
        ((acc + e) % p + mimc_spec(cs, e, acc, p)) % p
    }
}

/// Round constants in a field of modulus `p`: each digest of the chain, reduced.
pub open spec fn mimc_constants(p: nat) -> Seq<nat> {
    Seq::new(MIMC_ROUNDS as nat, |i: int| round_constant(i as nat, p))
}

/// The `i`-th round constant: the `i`-th digest read as an integer, reduced modulo `p`.
pub open spec fn round_constant(i: nat, p: nat) -> nat {
    le_value(digest_chain(i)) % p
}

/// The MiMC permutation over the field `F`.
pub struct Mimc<F: PrimeField> {
    constants: Vec<F>,
}

impl<F: PrimeField> Mimc<F> {
    /// Values of the round constants.
    pub closed spec fn constant_vals(&self) -> Seq<nat> {
        vals(self.constants@)
    }

    /// Round constants derived from the public seed by iterated BLAKE2b.
    pub fn new() -> (r: Self)
        ensures
            r.constant_vals() == mimc_constants(F::modulus()),
    {
        let mut constants: Vec<F> = Vec::new();
        let seed: Vec<u8> = vec![109u8, 105, 109, 99];
        proof {
            assert(seed@ =~= constant_seed());
            assert(vals(constants@) =~= mimc_constants(F::modulus()).subrange(0, 0));
        }
        let mut digest = blake2b_digest(&seed);
        let mut i: usize = 0;
        while i < MIMC_ROUNDS
            invariant
                i <= MIMC_ROUNDS,
                constants@.len() == i,
                digest@ == digest_chain(i as nat),
                vals(constants@) == mimc_constants(F::modulus()).subrange(0, i as int),
            decreases MIMC_ROUNDS - i,
        {
            let c = F::from_le_bytes(&digest);
            let ghost before = constants@;
            constants.push(c);
            proof {
                assert(vals(constants@) =~= vals(before).push(c.val()));
                assert(vals(constants@) =~= mimc_constants(F::modulus()).subrange(0, i + 1));
            }
            digest = blake2b_digest(&digest);
            i = i + 1;
        }
        proof {
            let want = mimc_constants(F::modulus());
            assert(want.subrange(0, MIMC_ROUNDS as int) =~= want);
        }
        Mimc { constants }
    }

    /// The round constants.
    pub fn constants(&self) -> (r: &Vec<F>)
        ensures
            vals(r@) == self.constant_vals(),
    {
        &self.constants
    }

    /// The permutation on `(xl, xr)`.
    pub fn hash(&self, xl: F, xr: F) -> (r: F)
        ensures
            r.val() == mimc_spec(self.constant_vals(), xl.val(), xr.val(), F::modulus()),
    {
        let mut l = xl;
        let mut r = xr;
        let mut i: usize = 0;
        let ghost cs = self.constant_vals();
        proof {
            assert(cs.subrange(0, cs.len() as int) =~= cs);
        }
        while i < self.constants.len()
            invariant
                cs == self.constant_vals(),
                i <= cs.len(),
                cs.len() == self.constants@.len(),
                mimc_spec(cs.subrange(i as int, cs.len() as int), l.val(), r.val(), F::modulus())
                    == mimc_spec(cs, xl.val(), xr.val(), F::modulus()),
            decreases cs.len() - i,
        {
            let c = self.constants[i];
            let cxl = l.add(&c);
            let sq = cxl.mul(&cxl);
            let cube = sq.mul(&cxl);
            let next = cube.add(&r);
            proof {
                let rest = cs.subrange(i as int, cs.len() as int);
                assert(rest.drop_first() =~= cs.subrange(i + 1, cs.len() as int));
                assert(rest[0] == c.val());
            }
            r = l;
            l = next;
            i = i + 1;
        }
        proof {
            assert(cs.subrange(cs.len() as int, cs.len() as int) =~= Seq::<nat>::empty());
        }
        l
    }
}

/// Native random-oracle transcript: an ordered buffer of absorbed elements
/// and a fixed key, squeezed through MiMC.
pub struct MimcRO<F: PrimeField> {
    hasher: Mimc<F>,
    state: Vec<F>,
    key: F,
}

impl<F: PrimeField> MimcRO<F> {
    /// Values absorbed so far, in order.
    pub closed spec fn absorbed(&self) -> Seq<nat> {
        vals(self.state@)
    }

    pub closed spec fn key_val(&self) -> nat {
        self.key.val()
    }

    pub closed spec fn constant_vals(&self) -> Seq<nat> {
        self.hasher.constant_vals()
    }

    /// An empty transcript with key zero and the public round constants.
    pub fn new() -> (r: Self)
        ensures
            r.absorbed() == Seq::<nat>::empty(),
            r.key_val() == 0,
            r.constant_vals() == mimc_constants(F::modulus()),
    {
        let hasher = Mimc::new();
        let r = MimcRO { hasher, state: Vec::new(), key: F::zero() };
        proof {
            assert(r.absorbed() =~= Seq::<nat>::empty());
        }
        r
    }

    /// Pushes one field element.
    pub fn append(&mut self, absorb: F)
        ensures
            final(self).absorbed() == old(self).absorbed().push(absorb.val()),
            final(self).key_val() == old(self).key_val(),
            final(self).constant_vals() == old(self).constant_vals(),
    {
        self.state.push(absorb);
        proof {
            assert(vals(self.state@) =~= vals(old(self).state@).push(absorb.val()));
        }
    }

    /// Absorbs `x`, `y` and the identity indicator (0 for the identity, else 1).
    pub fn append_point(&mut self, point: &Point<F>)
        ensures
            final(self).absorbed() == old(self).absorbed() + point_absorption(*point),
            final(self).key_val() == old(self).key_val(),
            final(self).constant_vals() == old(self).constant_vals(),
    {
        self.append(point.x);
        self.append(point.y);
        let flag = if point.is_identity {
            F::zero()
        } else {
            F::one()
        };
        self.append(flag);
        proof {
            assert(self.absorbed() =~= old(self).absorbed() + point_absorption(*point));
        }
    }

    /// Folds the absorbed elements from the key through MiMC.
    pub fn squeeze(&self) -> (r: F)
        ensures
            r.val() == squeeze_spec(
                self.constant_vals(),
                self.key_val(),
                self.absorbed(),
                F::modulus(),
            ),
    {
        let ghost st = self.absorbed();
        let ghost cs = self.constant_vals();
        let mut acc = self.key;
        let mut i: usize = 0;
        proof {
            assert(st.subrange(0, 0) =~= Seq::<nat>::empty());
        }
        while i < self.state.len()
            invariant
                st == self.absorbed(),
                cs == self.constant_vals(),
                i <= st.len(),
                st.len() == self.state@.len(),
                acc.val() == squeeze_spec(cs, self.key_val(), st.subrange(0, i as int), F::modulus()),
            decreases st.len() - i,
        {
            let e = self.state[i];
            let h = self.hasher.hash(e, acc);
            let sum = acc.add(&e);
            let next = sum.add(&h);
            proof {
                let pre = st.subrange(0, i + 1);
                assert(pre.drop_last() =~= st.subrange(0, i as int));
                assert(pre.last() == e.val());
            }
            acc = next;
            i = i + 1;
        }
        proof {
            assert(st.subrange(0, st.len() as int) =~= st);
        }
        acc
    }
}

/// The three values a point contributes to a transcript.
pub open spec fn point_absorption<F: PrimeField>(p: Point<F>) -> Seq<nat> {
    seq![p.x.val(), p.y.val(), if p.is_identity { 0nat } else { 1nat }]
}

} // verus!
