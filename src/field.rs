//! Prime fields: the algebraic contract the folding core relies on, and a
//! concrete 64-bit field that meets it.
use vstd::arithmetic::div_mod::{lemma_mul_mod_noop, lemma_add_mod_noop, lemma_sub_mod_noop};
use vstd::prelude::*;

verus! {

/// Little-endian value of a byte string.
pub open spec fn le_value(b: Seq<u8>) -> nat
    decreases b.len(),
{
    if b.len() == 0 {
        0
    } else {
        b[0] as nat + 256 * le_value(b.drop_first())
    }
}

/// A prime field `Z/pZ`: every operation is stated over the canonical value.
pub trait PrimeField: Sized + Copy {
    /// The prime `p`.
    spec fn modulus() -> nat;

    /// Canonical value in `0..p`.
    spec fn val(&self) -> nat;

    /// Length of the canonical byte encoding.
    spec fn num_bytes() -> nat;

    proof fn lemma_modulus()
        ensures
            Self::modulus() > 1,
    ;

    proof fn lemma_bounds(x: Self)
        ensures
            Self::modulus() > 1,
            x.val() < Self::modulus(),
            Self::modulus() <= pow256(Self::num_bytes()),
    ;

    fn zero() -> (r: Self)
        ensures
            r.val() == 0,
    ;

    fn one() -> (r: Self)
        ensures
            r.val() == 1,
    ;

    fn from_u64(v: u64) -> (r: Self)
        ensures
            r.val() == v as nat % Self::modulus(),
    ;

    fn add(&self, o: &Self) -> (r: Self)
        ensures
            r.val() == (self.val() + o.val()) % Self::modulus(),
    ;

    fn sub(&self, o: &Self) -> (r: Self)
        ensures
            r.val() == (self.val() - o.val()) % (Self::modulus() as int),
    ;

    fn mul(&self, o: &Self) -> (r: Self)
        ensures
            r.val() == (self.val() * o.val()) % Self::modulus(),
    ;

    /// The multiplicative inverse, or `None` for zero.
    fn invert(&self) -> (r: Option<Self>)
        ensures
            self.val() == 0 ==> r is None,
            r matches Some(y) ==> (self.val() * y.val()) % Self::modulus() == 1,
    ;

    fn equals(&self, o: &Self) -> (r: bool)
        ensures
            r == (self.val() == o.val()),
    ;

    fn to_le_bytes(&self) -> (r: Vec<u8>)
        ensures
            r@.len() == Self::num_bytes(),
            le_value(r@) == self.val(),
    ;

    /// Reduces a little-endian byte string modulo `p`.
    fn from_le_bytes(b: &Vec<u8>) -> (r: Self)
        ensures
            r.val() == le_value(b@) % Self::modulus(),
    ;
}

pub open spec fn pow256(n: nat) -> nat
    decreases n,
{
    if n == 0 {
        1
    } else {
        256 * pow256((n - 1) as nat)
    }
}


/// Little-endian value after appending one byte.
pub proof fn lemma_le_value_push(s: Seq<u8>, b: u8)
    ensures
        le_value(s.push(b)) == le_value(s) + pow256(s.len()) * b,
    decreases s.len(),
{
    if s.len() == 0 {
        assert(s.push(b).drop_first() =~= Seq::<u8>::empty());
        assert(le_value(Seq::<u8>::empty()) == 0);
        assert(le_value(s.push(b)) == b as nat + 256 * le_value(s.push(b).drop_first()));
        assert(pow256(0) == 1);
    } else {
        assert(s.push(b).drop_first() =~= s.drop_first().push(b));
        lemma_le_value_push(s.drop_first(), b);
        assert(le_value(s.push(b)) == s[0] as nat + 256 * le_value(s.push(b).drop_first()));
        assert(pow256(s.len()) == 256 * pow256((s.len() - 1) as nat));
        assert(256 * (pow256((s.len() - 1) as nat) * b) == (256 * pow256((s.len() - 1) as nat)) * b)
            by (nonlinear_arith);
    }
}

/// `(b + 256 x) mod p` depends on `x` only through `x mod p`.
proof fn lemma_horner_mod(b: nat, x: nat, p: nat)
    requires
        p > 0,
    ensures
        (b + 256 * x) % p == (b + 256 * (x % p)) % p,
{
    lemma_mul_mod_noop(256, x as int, p as int);
    lemma_mul_mod_noop(256, (x % p) as int, p as int);
    vstd::arithmetic::div_mod::lemma_mod_twice(x as int, p as int);
    lemma_add_mod_noop(b as int, (256 * x) as int, p as int);
    lemma_add_mod_noop(b as int, (256 * (x % p)) as int, p as int);
}

/// The prime `2^64 - 2^32 + 1`.
pub const GOLDILOCKS_P: u64 = 18446744069414584321;

/// The field of integers modulo [`GOLDILOCKS_P`].
#[derive(Clone, Copy, Debug)]
pub struct Goldilocks {
    v: u64,
}

impl Goldilocks {
    fn canonical(&self) -> (r: u64)
        ensures
            r as nat == self.val(),
            r < GOLDILOCKS_P,
    {
        self.v % GOLDILOCKS_P
    }

    /// The canonical value as an integer.
    pub fn to_u64(&self) -> (r: u64)
        ensures
            r as nat == self.val(),
    {
        self.canonical()
    }
}

impl PrimeField for Goldilocks {
    open spec fn modulus() -> nat {
        GOLDILOCKS_P as nat
    }

    closed spec fn val(&self) -> nat {
        (self.v % GOLDILOCKS_P) as nat
    }

    open spec fn num_bytes() -> nat {
        8
    }

    proof fn lemma_modulus() {
        assert(GOLDILOCKS_P > 1);
    }

    proof fn lemma_bounds(x: Self) {
        reveal_with_fuel(pow256, 9);
    }

    fn zero() -> (r: Self) {
        Goldilocks { v: 0 }
    }

    fn one() -> (r: Self) {
        Goldilocks { v: 1 }
    }

    fn from_u64(v: u64) -> (r: Self) {
        Goldilocks { v: v % GOLDILOCKS_P }
    }

    fn add(&self, o: &Self) -> (r: Self) {
        let a = self.canonical() as u128;
        let b = o.canonical() as u128;
        let s = (a + b) % (GOLDILOCKS_P as u128);
        Goldilocks { v: s as u64 }
    }

    fn sub(&self, o: &Self) -> (r: Self) {
        let a = self.canonical() as u128;
        let b = o.canonical() as u128;
        let s = (a + (GOLDILOCKS_P as u128) - b) % (GOLDILOCKS_P as u128);
        proof {
            let p = GOLDILOCKS_P as int;
            vstd::arithmetic::div_mod::lemma_mod_add_multiples_vanish(a - b, p);
        }
        Goldilocks { v: s as u64 }
    }

    fn mul(&self, o: &Self) -> (r: Self) {
        let a = self.canonical() as u128;
        let b = o.canonical() as u128;
        assert(a * b < 0x1_0000_0000_0000_0000_0000_0000_0000_0000) by (nonlinear_arith)
            requires
                a < 0x1_0000_0000_0000_0000,
                b < 0x1_0000_0000_0000_0000,
        ;
        let m = (a * b) % (GOLDILOCKS_P as u128);
        Goldilocks { v: m as u64 }
    }

    fn invert(&self) -> (r: Option<Self>) {
        // Fermat: x^(p-2) is the inverse of a non-zero x.
        let mut e: u64 = GOLDILOCKS_P - 2;
        let mut base = *self;
        let mut acc = Goldilocks::one();
        while e > 0
            decreases e,
        {
            if e % 2 == 1 {
                acc = acc.mul(&base);
            }
            base = base.mul(&base);
            e = e / 2;
        }
        let check = self.mul(&acc);
        if check.canonical() == 1 {
            Some(acc)
        } else {
            proof {
                assert(self.val() == 0 ==> (self.val() * acc.val()) % Self::modulus() == 0);
            }
            None
        }
    }

    fn equals(&self, o: &Self) -> (r: bool) {
        self.canonical() == o.canonical()
    }

    fn to_le_bytes(&self) -> (r: Vec<u8>) {
        let mut x = self.canonical();
        let mut r: Vec<u8> = Vec::new();
        let mut i: usize = 0;
        proof {
            reveal_with_fuel(pow256, 9);
            assert(le_value(r@) == 0);
            assert(pow256(0) == 1);
        }
        while i < 8
            invariant
                i <= 8,
                r@.len() == i,
                le_value(r@) + pow256(i as nat) * x == self.val(),
                x < pow256((8 - i) as nat),
            decreases 8 - i,
        {
            proof {
                lemma_le_value_push(r@, (x % 256) as u8);
                assert(pow256((i + 1) as nat) == 256 * pow256(i as nat));
                assert(pow256((8 - i) as nat) == 256 * pow256((8 - i - 1) as nat));
                let q = x / 256;
                assert(x == 256 * q + x % 256);
                assert(pow256(i as nat) * x == pow256(i as nat) * (x % 256) + pow256((i + 1) as nat) * q)
                    by (nonlinear_arith)
                    requires
                        x == 256 * q + x % 256,
                        pow256((i + 1) as nat) == 256 * pow256(i as nat),
                ;
                assert(q < pow256((8 - i - 1) as nat)) by (nonlinear_arith)
                    requires
                        x < 256 * pow256((8 - i - 1) as nat),
                        q == x / 256,
                ;
            }
            r.push((x % 256) as u8);
            x = x / 256;
            i = i + 1;
        }
        proof {
            assert(pow256(0) == 1);
        }
        r
    }

    fn from_le_bytes(b: &Vec<u8>) -> (r: Self) {
        let mut acc: u64 = 0;
        let mut i: usize = b.len();
        let ghost p = GOLDILOCKS_P as nat;
        proof {
            assert(b@.subrange(i as int, b@.len() as int) =~= Seq::<u8>::empty());
        }
        while i > 0
            invariant
                i <= b@.len(),
                p == GOLDILOCKS_P as nat,
                acc < GOLDILOCKS_P,
                acc as nat == le_value(b@.subrange(i as int, b@.len() as int)) % p,
            decreases i,
        {
            let ghost tail = b@.subrange(i as int, b@.len() as int);
            let ghost longer = b@.subrange(i - 1, b@.len() as int);
            proof {
                assert(longer.drop_first() =~= tail);
                assert(longer[0] == b@[i - 1]);
                lemma_horner_mod(b@[i - 1] as nat, le_value(tail), p);
                assert(le_value(longer) == b@[i - 1] as nat + 256 * le_value(tail));
            }
            let next = ((acc as u128) * 256 + (b[i - 1] as u128)) % (GOLDILOCKS_P as u128);
            acc = next as u64;
            i = i - 1;
        }
        proof {
            assert(b@.subrange(0, b@.len() as int) =~= b@);
        }
        Goldilocks { v: acc }
    }
}

/// The Mersenne prime `2^61 - 1`.
pub const MERSENNE61_P: u64 = 2305843009213693951;

/// The field of integers modulo [`MERSENNE61_P`].
#[derive(Clone, Copy, Debug)]
pub struct Mersenne61 {
    v: u64,
}

impl Mersenne61 {
    fn canonical(&self) -> (r: u64)
        ensures
            r as nat == self.val(),
            r < MERSENNE61_P,
    {
        self.v % MERSENNE61_P
    }

    /// The canonical value as an integer.
    pub fn to_u64(&self) -> (r: u64)
        ensures
            r as nat == self.val(),
    {
        self.canonical()
    }
}

impl PrimeField for Mersenne61 {
    open spec fn modulus() -> nat {
        MERSENNE61_P as nat
    }

    closed spec fn val(&self) -> nat {
        (self.v % MERSENNE61_P) as nat
    }

    open spec fn num_bytes() -> nat {
        8
    }

    proof fn lemma_modulus() {
        assert(MERSENNE61_P > 1);
    }

    proof fn lemma_bounds(x: Self) {
        reveal_with_fuel(pow256, 9);
    }

    fn zero() -> (r: Self) {
        Mersenne61 { v: 0 }
    }

    fn one() -> (r: Self) {
        Mersenne61 { v: 1 }
    }

    fn from_u64(v: u64) -> (r: Self) {
        Mersenne61 { v: v % MERSENNE61_P }
    }

    fn add(&self, o: &Self) -> (r: Self) {
        let a = self.canonical() as u128;
        let b = o.canonical() as u128;
        let s = (a + b) % (MERSENNE61_P as u128);
        Mersenne61 { v: s as u64 }
    }

    fn sub(&self, o: &Self) -> (r: Self) {
        let a = self.canonical() as u128;
        let b = o.canonical() as u128;
        let s = (a + (MERSENNE61_P as u128) - b) % (MERSENNE61_P as u128);
        proof {
            let p = MERSENNE61_P as int;
            vstd::arithmetic::div_mod::lemma_mod_add_multiples_vanish(a - b, p);
        }
        Mersenne61 { v: s as u64 }
    }

    fn mul(&self, o: &Self) -> (r: Self) {
        let a = self.canonical() as u128;
        let b = o.canonical() as u128;
        assert(a * b < 0x1_0000_0000_0000_0000_0000_0000_0000_0000) by (nonlinear_arith)
            requires
                a < 0x1_0000_0000_0000_0000,
                b < 0x1_0000_0000_0000_0000,
        ;
        let m = (a * b) % (MERSENNE61_P as u128);
        Mersenne61 { v: m as u64 }
    }

    fn invert(&self) -> (r: Option<Self>) {
        // Fermat: x^(p-2) is the inverse of a non-zero x.
        let mut e: u64 = MERSENNE61_P - 2;
        let mut base = *self;
        let mut acc = Mersenne61::one();
        while e > 0
            decreases e,
        {
            if e % 2 == 1 {
                acc = acc.mul(&base);
            }
            base = base.mul(&base);
            e = e / 2;
        }
        let check = self.mul(&acc);
        if check.canonical() == 1 {
            Some(acc)
        } else {
            proof {
                assert(self.val() == 0 ==> (self.val() * acc.val()) % Self::modulus() == 0);
            }
            None
        }
    }

    fn equals(&self, o: &Self) -> (r: bool) {
        self.canonical() == o.canonical()
    }

    fn to_le_bytes(&self) -> (r: Vec<u8>) {
        let mut x = self.canonical();
        let mut r: Vec<u8> = Vec::new();
        let mut i: usize = 0;
        proof {
            reveal_with_fuel(pow256, 9);
            assert(le_value(r@) == 0);
            assert(pow256(0) == 1);
        }
        while i < 8
            invariant
                i <= 8,
                r@.len() == i,
                le_value(r@) + pow256(i as nat) * x == self.val(),
                x < pow256((8 - i) as nat),
            decreases 8 - i,
        {
            proof {
                lemma_le_value_push(r@, (x % 256) as u8);
                assert(pow256((i + 1) as nat) == 256 * pow256(i as nat));
                assert(pow256((8 - i) as nat) == 256 * pow256((8 - i - 1) as nat));
                let q = x / 256;
                assert(x == 256 * q + x % 256);
                assert(pow256(i as nat) * x == pow256(i as nat) * (x % 256) + pow256((i + 1) as nat) * q)
                    by (nonlinear_arith)
                    requires
                        x == 256 * q + x % 256,
                        pow256((i + 1) as nat) == 256 * pow256(i as nat),
                ;
                assert(q < pow256((8 - i - 1) as nat)) by (nonlinear_arith)
                    requires
                        x < 256 * pow256((8 - i - 1) as nat),
                        q == x / 256,
                ;
            }
            r.push((x % 256) as u8);
            x = x / 256;
            i = i + 1;
        }
        proof {
            assert(pow256(0) == 1);
        }
        r
    }

    fn from_le_bytes(b: &Vec<u8>) -> (r: Self) {
        let mut acc: u64 = 0;
        let mut i: usize = b.len();
        let ghost p = MERSENNE61_P as nat;
        proof {
            assert(b@.subrange(i as int, b@.len() as int) =~= Seq::<u8>::empty());
        }
        while i > 0
            invariant
                i <= b@.len(),
                p == MERSENNE61_P as nat,
                acc < MERSENNE61_P,
                acc as nat == le_value(b@.subrange(i as int, b@.len() as int)) % p,
            decreases i,
        {
            let ghost tail = b@.subrange(i as int, b@.len() as int);
            let ghost longer = b@.subrange(i - 1, b@.len() as int);
            proof {
                assert(longer.drop_first() =~= tail);
                assert(longer[0] == b@[i - 1]);
                lemma_horner_mod(b@[i - 1] as nat, le_value(tail), p);
                assert(le_value(longer) == b@[i - 1] as nat + 256 * le_value(tail));
            }
            let next = ((acc as u128) * 256 + (b[i - 1] as u128)) % (MERSENNE61_P as u128);
            acc = next as u64;
            i = i - 1;
        }
        proof {
            assert(b@.subrange(0, b@.len() as int) =~= b@);
        }
        Mersenne61 { v: acc }
    }
}

} // verus!

verus! {

/// Canonical values of a sequence of field elements.
pub open spec fn vals<F: PrimeField>(s: Seq<F>) -> Seq<nat> {
    s.map_values(|x: F| x.val())
}

} // verus!
