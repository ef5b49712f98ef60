//! Elements of the BLS12-377 scalar field, held as four little-endian limbs.
use vstd::prelude::*;
use vstd::arithmetic::div_mod::{
    lemma_fundamental_div_mod, lemma_fundamental_div_mod_converse, lemma_mod_bound, lemma_mul_mod_noop,
    lemma_mul_mod_noop_left, lemma_mul_mod_noop_right,
};
use ark_bls12_377::Fr;
use ark_ff::{BigInt, PrimeField};

verus! {

/// The prime order of the scalar field.
pub open spec fn modulus() -> int {
    725501752471715841 + limb_base() * (6461107452199829505 + limb_base() * (6968279316240510977
        + limb_base() * 1345280370688173398))
}

pub open spec fn limb_base() -> int {
    18446744073709551616
}

pub open spec fn fadd(a: int, b: int) -> int {
    (a + b) % modulus()
}

pub open spec fn fsub(a: int, b: int) -> int {
    (a - b) % modulus()
}

pub open spec fn fmul(a: int, b: int) -> int {
    (a * b) % modulus()
}

/// Exponentiation in the field: `x^k mod p`.
pub open spec fn powm(x: int, k: nat) -> int
    decreases k,
{
    if k == 0 {
        1
    } else {
        (powm(x, (k - 1) as nat) * x) % modulus()
    }
}

/// A field element in canonical form: the integer `Σ limbs[i]·2^(64·i)`,
/// which must be below the modulus.
#[derive(Clone, Copy, Debug, PartialEq, Eq)]
pub struct Scalar {
    pub limbs: [u64; 4],
}

impl Scalar {
    pub open spec fn value(self) -> int {
        let l = self.limbs@;
        l[0] + limb_base() * (l[1] + limb_base() * (l[2] + limb_base() * l[3]))
    }

    pub open spec fn wf(self) -> bool {
        self.value() < modulus()
    }

    /// Whether the limbs encode an integer below the modulus.
    pub fn is_canonical(&self) -> (r: bool)
        ensures
            r == self.wf(),
    {
        let l = self.limbs;
        let m: [u64; 4] = [725501752471715841, 6461107452199829505, 6968279316240510977, 1345280370688173398];
        let ghost base = limb_base();
        let ghost (x, y) = (l@, m@);
        let ghost (r2, q2) = (x[2] + base * x[3], y[2] + base * y[3]);
        let ghost (r1, q1) = (x[1] + base * r2, y[1] + base * q2);
        proof {
            assert(m@ =~= seq![725501752471715841u64, 6461107452199829505u64, 6968279316240510977u64, 1345280370688173398u64]);
            assert(self.value() == x[0] + base * r1);
            assert(modulus() == y[0] + base * q1);
            lemma_digit_order(x[2] as int, x[3] as int, y[2] as int, y[3] as int);
            lemma_digit_order(x[1] as int, r2, y[1] as int, q2);
            lemma_digit_order(x[0] as int, r1, y[0] as int, q1);
        }
        if l[3] != m[3] {
            return l[3] < m[3];
        }
        if l[2] != m[2] {
            return l[2] < m[2];
        }
        if l[1] != m[1] {
            return l[1] < m[1];
        }
        l[0] < m[0]
    }

    pub fn zero() -> (r: Scalar)
        ensures
            r.wf(),
            r.value() == 0,
    {
        Scalar { limbs: [0, 0, 0, 0] }
    }

    pub fn one() -> (r: Scalar)
        ensures
            r.wf(),
            r.value() == 1,
    {
        Scalar { limbs: [1, 0, 0, 0] }
    }

    pub fn from_u64(v: u64) -> (r: Scalar)
        ensures
            r.wf(),
            r.value() == v,
    {
        Scalar { limbs: [v, 0, 0, 0] }
    }

    /// Field equality; canonical limbs make it limb equality.
    pub fn equals(&self, other: &Scalar) -> (r: bool)
        requires
            self.wf(),
            other.wf(),
        ensures
            r == (self.value() == other.value()),
    {
        proof {
            lemma_value_injective(*self, *other);
        }
        self.limbs[0] == other.limbs[0] && self.limbs[1] == other.limbs[1] && self.limbs[2]
            == other.limbs[2] && self.limbs[3] == other.limbs[3]
    }

    pub fn add(&self, other: &Scalar) -> (r: Scalar)
        requires
            self.wf(),
            other.wf(),
        ensures
            r.wf(),
            r.value() == (self.value() + other.value()) % modulus(),
    {
        fr_add(self, other)
    }

    pub fn sub(&self, other: &Scalar) -> (r: Scalar)
        requires
            self.wf(),
            other.wf(),
        ensures
            r.wf(),
            r.value() == (self.value() - other.value()) % modulus(),
    {
        fr_sub(self, other)
    }

    pub fn mul(&self, other: &Scalar) -> (r: Scalar)
        requires
            self.wf(),
            other.wf(),
        ensures
            r.wf(),
            r.value() == (self.value() * other.value()) % modulus(),
    {
        fr_mul(self, other)
    }

    /// `self^exp` by repeated multiplication.
    pub fn pow(&self, exp: u64) -> (r: Scalar)
        requires
            self.wf(),
        ensures
            r.wf(),
            r.value() == powm(self.value(), exp as nat),
    {
        let mut acc = Scalar::one();
        let mut i: u64 = 0;
        while i < exp
            invariant
                self.wf(),
                i <= exp,
                acc.wf(),
                acc.value() == powm(self.value(), i as nat),
            decreases exp - i,
        {
            acc = acc.mul(self);
            i = i + 1;
        }
        acc
    }
}

/// Two-digit numbers in base `2^64` compare by their high digits first.
proof fn lemma_digit_order(lo1: int, hi1: int, lo2: int, hi2: int)
    requires
        0 <= lo1 < limb_base(),
        0 <= lo2 < limb_base(),
    ensures
        hi1 != hi2 ==> lo1 + limb_base() * hi1 != lo2 + limb_base() * hi2 && ((lo1 + limb_base() * hi1
            < lo2 + limb_base() * hi2) == (hi1 < hi2)),
{
    let b = limb_base();
    if hi1 < hi2 {
        assert(lo1 + b * hi1 < lo2 + b * hi2) by (nonlinear_arith)
            requires
                0 <= lo1 < b,
                0 <= lo2,
                hi1 < hi2,
        ;
    } else if hi2 < hi1 {
        assert(lo2 + b * hi2 < lo1 + b * hi1) by (nonlinear_arith)
            requires
                0 <= lo2 < b,
                0 <= lo1,
                hi2 < hi1,
        ;
    }
}

pub proof fn lemma_value_injective(a: Scalar, b: Scalar)
    ensures
        (a.value() == b.value()) <==> (a.limbs@ == b.limbs@),
{
    let (x, y) = (a.limbs@, b.limbs@);
    if a.value() == b.value() {
        let base = limb_base();
        let ya = x[1] + base * (x[2] + base * x[3]);
        let yb = y[1] + base * (y[2] + base * y[3]);
        lemma_fundamental_div_mod_converse(a.value(), base, ya, x[0] as int);
        lemma_fundamental_div_mod_converse(b.value(), base, yb, y[0] as int);
        let za = x[2] + base * x[3];
        let zb = y[2] + base * y[3];
        lemma_fundamental_div_mod_converse(ya, base, za, x[1] as int);
        lemma_fundamental_div_mod_converse(yb, base, zb, y[1] as int);
        lemma_fundamental_div_mod_converse(za, base, x[3] as int, x[2] as int);
        lemma_fundamental_div_mod_converse(zb, base, y[3] as int, y[2] as int);
        assert(x =~= y);
    }
}

pub proof fn lemma_powm_range(x: int, k: nat)
    ensures
        0 <= powm(x, k) < modulus(),
{
    if k > 0 {
        lemma_mod_bound(powm(x, (k - 1) as nat) * x, modulus());
    }
}

/// `(a·b)^k = a^k · b^k` in the field.
pub proof fn lemma_powm_mul(a: int, b: int, k: nat)
    ensures
        powm((a * b) % modulus(), k) == (powm(a, k) * powm(b, k)) % modulus(),
    decreases k,
{
    let p = modulus();
    if k == 0 {
        lemma_fundamental_div_mod_converse(1, p, 0, 1);
    } else {
        let k1 = (k - 1) as nat;
        lemma_powm_mul(a, b, k1);
        let (pa, pb) = (powm(a, k1), powm(b, k1));
        // powm(ab, k) = ((pa·pb mod p) · (ab mod p)) mod p = (pa·pb·a·b) mod p
        lemma_mul_mod_noop(pa * pb, a * b, p);
        assert((pa * pb) * (a * b) == (pa * a) * (pb * b)) by (nonlinear_arith);
        lemma_mul_mod_noop(pa * a, pb * b, p);
    }
}

/// `x^(a+b) = x^a · x^b` in the field.
pub proof fn lemma_powm_add(x: int, a: nat, b: nat)
    ensures
        powm(x, a + b) == (powm(x, a) * powm(x, b)) % modulus(),
    decreases b,
{
    let p = modulus();
    if b == 0 {
        lemma_powm_range(x, a);
        lemma_fundamental_div_mod_converse(powm(x, a), p, 0, powm(x, a));
    } else {
        let b1 = (b - 1) as nat;
        lemma_powm_add(x, a, b1);
        let (pa, pb) = (powm(x, a), powm(x, b1));
        assert(powm(x, a + b) == (powm(x, a + b1) * x) % p);
        lemma_mul_mod_noop_left(pa * pb, x, p);
        assert((pa * pb) * x == pa * (pb * x)) by (nonlinear_arith);
        lemma_mul_mod_noop_right(pa, pb * x, p);
    }
}

/// When `x^n = 1`, also `x^(n·m) = 1`.
pub proof fn lemma_powm_cycle(x: int, n: nat, m: nat)
    requires
        powm(x, n) == 1,
    ensures
        powm(x, n * m) == 1,
    decreases m,
{
    if m == 0 {
        assert(n * m == 0) by (nonlinear_arith)
            requires
                m == 0,
        ;
    } else {
        let m1 = (m - 1) as nat;
        lemma_powm_cycle(x, n, m1);
        lemma_fundamental_div_mod_converse(1, modulus(), 0, 1);
        assert(n * m == n * m1 + n) by (nonlinear_arith)
            requires
                m1 == m - 1,
        ;
        lemma_powm_add(x, n * m1, n);
    }
}

/// When `x^n = 1`, the exponent counts modulo `n`.
pub proof fn lemma_powm_mod_order(x: int, n: nat, e: nat)
    requires
        n > 0,
        powm(x, n) == 1,
    ensures
        powm(x, e) == powm(x, e % n),
{
    lemma_fundamental_div_mod(e as int, n as int);
    let q = (e / n) as nat;
    let r = (e % n) as nat;
    assert(e == n * q + r);
    lemma_powm_add(x, n * q, r);
    lemma_powm_cycle(x, n, q);
    lemma_powm_range(x, r);
    lemma_fundamental_div_mod_converse(powm(x, r), modulus(), 0, powm(x, r));
}

/// Relies on ark-ff's `Fp` addition on `ark_bls12_377::Fr`: the sum modulo the field order.
#[verifier::external_body]
fn fr_add(a: &Scalar, b: &Scalar) -> (r: Scalar)
    requires
        a.wf(),
        b.wf(),
    ensures
        r.wf(),
        r.value() == (a.value() + b.value()) % modulus(),
{
    let x = Fr::from_bigint(BigInt(a.limbs)).unwrap();
    let y = Fr::from_bigint(BigInt(b.limbs)).unwrap();
    Scalar { limbs: (x + y).into_bigint().0 }
}

/// Relies on ark-ff's `Fp` subtraction on `ark_bls12_377::Fr`: the difference modulo the
/// field order.
#[verifier::external_body]
fn fr_sub(a: &Scalar, b: &Scalar) -> (r: Scalar)
    requires
        a.wf(),
        b.wf(),
    ensures
        r.wf(),
        r.value() == (a.value() - b.value()) % modulus(),
{
    let x = Fr::from_bigint(BigInt(a.limbs)).unwrap();
    let y = Fr::from_bigint(BigInt(b.limbs)).unwrap();
    Scalar { limbs: (x - y).into_bigint().0 }
}

/// Relies on ark-ff's `Fp` multiplication on `ark_bls12_377::Fr`: the product modulo the
/// field order.
#[verifier::external_body]
fn fr_mul(a: &Scalar, b: &Scalar) -> (r: Scalar)
    requires
        a.wf(),
        b.wf(),
    ensures
        r.wf(),
        r.value() == (a.value() * b.value()) % modulus(),
{
    let x = Fr::from_bigint(BigInt(a.limbs)).unwrap();
    let y = Fr::from_bigint(BigInt(b.limbs)).unwrap();
    Scalar { limbs: (x * y).into_bigint().0 }
}

} // verus!
