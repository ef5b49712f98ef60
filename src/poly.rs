//! Univariate polynomials over the scalar field, in coefficient form.
use vstd::prelude::*;
use vstd::arithmetic::div_mod::lemma_fundamental_div_mod_converse;
use vstd::arithmetic::div_mod::{
    lemma_add_mod_noop, lemma_add_mod_noop_right, lemma_mod_add_multiples_vanish, lemma_mod_bound,
    lemma_mod_twice,
    lemma_mul_mod_noop_left, lemma_mul_mod_noop_right, lemma_small_mod, lemma_sub_mod_noop,
};
use crate::field::{
    Scalar, fadd, fmul, fsub, lemma_powm_add, lemma_powm_range, lemma_powm_mod_order, lemma_powm_mul, modulus, powm,
};
use ark_bls12_377::Fr;
use ark_ff::{BigInt, PrimeField};
use ark_poly::univariate::DensePolynomial;
use ark_poly::{DenseUVPolynomial, EvaluationDomain, Evaluations, Radix2EvaluationDomain};

verus! {

/// Coefficient `j` of `s`, zero outside its range.
pub open spec fn coef(s: Seq<int>, j: int) -> int {
    if 0 <= j < s.len() {
        s[j]
    } else {
        0
    }
}

/// The value of the polynomial with coefficients `s` at `x`, in the field.
pub open spec fn eval_poly(s: Seq<int>, x: int) -> int
    decreases s.len(),
{
    if s.len() == 0 {
        0
    } else {
        (eval_poly(s.drop_last(), x) + (s.last() * powm(x, (s.len() - 1) as nat)) % modulus())
            % modulus()
    }
}

pub open spec fn max_len(a: Seq<int>, b: Seq<int>) -> nat {
    if a.len() >= b.len() {
        a.len()
    } else {
        b.len()
    }
}

pub open spec fn sum_spec(a: Seq<int>, b: Seq<int>) -> Seq<int> {
    Seq::new(max_len(a, b), |j: int| (coef(a, j) + coef(b, j)) % modulus())
}

pub open spec fn difference_spec(a: Seq<int>, b: Seq<int>) -> Seq<int> {
    Seq::new(max_len(a, b), |j: int| (coef(a, j) - coef(b, j)) % modulus())
}

pub open spec fn scale_spec(a: Seq<int>, c: int) -> Seq<int> {
    Seq::new(a.len(), |j: int| (a[j] * c) % modulus())
}

/// `X^n - 1`.
pub open spec fn vanishing_spec(n: nat) -> Seq<int> {
    Seq::new(
        n + 1,
        |j: int|
            if j == 0 {
                modulus() - 1
            } else if j == n {
                1
            } else {
                0
            },
    )
}

/// Coefficient `k` of the quotient of `f` by `X^n - 1`: `q_k = f_{k+n} + q_{k+n}`.
pub open spec fn vanishing_quotient_coef(f: Seq<int>, n: nat, k: int) -> int
    decreases f.len() - k,
{
    if n == 0 || k < 0 || k + n >= f.len() {
        0
    } else {
        (f[k + n] + vanishing_quotient_coef(f, n, k + n)) % modulus()
    }
}

/// The quotient of `f` by `X^n - 1`.
pub open spec fn vanishing_quotient(f: Seq<int>, n: nat) -> Seq<int> {
    let len: nat = if f.len() > n {
        (f.len() - n) as nat
    } else {
        0
    };
    Seq::new(len, |k: int| vanishing_quotient_coef(f, n, k))
}

/// `X^n - 1` divides `f`: every coefficient of the remainder `f_j + q_j` (j < n) is zero.
pub open spec fn vanishing_divides(f: Seq<int>, n: nat) -> bool {
    forall|j: int|
        0 <= j < n && j < f.len() ==> (f[j] + #[trigger] vanishing_quotient_coef(f, n, j))
            % modulus() == 0
}

/// Coefficient `k` of the quotient of `f` by `X - z`: `q_k = f_{k+1} + z·q_{k+1}`.
pub open spec fn linear_quotient_coef(f: Seq<int>, z: int, k: int) -> int
    decreases f.len() - k,
{
    if k < 0 || k + 1 >= f.len() {
        0
    } else {
        (f[k + 1] + (z * linear_quotient_coef(f, z, k + 1)) % modulus()) % modulus()
    }
}

/// The quotient of `f` by `X - z`, the remainder `f(z)` left out.
pub open spec fn linear_quotient(f: Seq<int>, z: int) -> Seq<int> {
    let len: nat = if f.len() > 0 {
        (f.len() - 1) as nat
    } else {
        0
    };
    Seq::new(len, |k: int| linear_quotient_coef(f, z, k))
}

/// Sum of `a_t · b_{k-t}` over `t < i`.
pub open spec fn product_coef_upto(a: Seq<int>, b: Seq<int>, k: int, i: nat) -> int
    decreases i,
{
    if i == 0 {
        0
    } else {
        (product_coef_upto(a, b, k, (i - 1) as nat) + coef(a, i - 1) * coef(b, k - (i - 1)))
            % modulus()
    }
}

/// Coefficient `k` of the product `a · b`.
pub open spec fn product_coef(a: Seq<int>, b: Seq<int>, k: int) -> int {
    product_coef_upto(a, b, k, (k + 1) as nat)
}

/// `s` without its trailing zero coefficients.
pub open spec fn trim(s: Seq<int>) -> Seq<int>
    decreases s.len(),
{
    if s.len() == 0 {
        s
    } else if s.last() == 0 {
        trim(s.drop_last())
    } else {
        s
    }
}

/// The coefficients of the product `a · b`.
pub open spec fn full_product(a: Seq<int>, b: Seq<int>) -> Seq<int> {
    let len: nat = if a.len() == 0 || b.len() == 0 {
        0
    } else {
        (a.len() + b.len() - 1) as nat
    };
    Seq::new(len, |k: int| product_coef(a, b, k))
}

/// The product `a · b`, trimmed.
pub open spec fn product_spec(a: Seq<int>, b: Seq<int>) -> Seq<int> {
    trim(full_product(a, b))
}

pub open spec fn is_pow2(n: nat) -> bool
    decreases n,
{
    if n <= 1 {
        n == 1
    } else {
        n % 2 == 0 && is_pow2(n / 2)
    }
}

/// The largest evaluation domain the field admits: its two-adicity is 47.
pub open spec fn max_domain_size() -> nat {
    0x8000_0000_0000
}

/// The generator of the multiplicative subgroup of order `n` (a power of two): `22^((p-1)/n)`,
/// where 22 generates the whole multiplicative group of the field.
pub open spec fn root_of_unity_of(n: nat) -> int {
    powm(22, ((modulus() - 1) / (n as int)) as nat)
}

/// The polynomial that interpolates `evals` over the domain of size `evals.len()`.
pub uninterp spec fn interpolation_of(evals: Seq<int>) -> Seq<int>;

/// The scalars held in `v`.
pub open spec fn values_of(v: Seq<Scalar>) -> Seq<int> {
    v.map_values(|s: Scalar| s.value())
}

pub open spec fn all_wf(v: Seq<Scalar>) -> bool {
    forall|i: int| 0 <= i < v.len() ==> #[trigger] v[i].wf()
}

/// Relies on ark-poly's `Radix2EvaluationDomain::new(n)` and its `group_gen`, which is
/// ark-ff's `get_root_of_unity(n)`: for `n` a power of two no larger than `2^47`, the 2-adic
/// root of unity `22^((p-1)/2^47)` squared `47 - log2(n)` times, that is `22^((p-1)/n)`, of
/// order `n`.
#[verifier::external_body]
fn domain_generator(n: usize) -> (r: Scalar)
    requires
        is_pow2(n as nat),
        n as nat <= max_domain_size(),
    ensures
        r.wf(),
        r.value() == root_of_unity_of(n as nat),
        powm(r.value(), n as nat) == 1,
        forall|i: nat| 0 < i < n ==> #[trigger] powm(r.value(), i) != 1,
{
    let g = Radix2EvaluationDomain::<Fr>::new(n).unwrap().group_gen;
    Scalar { limbs: g.into_bigint().0 }
}

/// Relies on ark-poly's `Evaluations::interpolate` over `Radix2EvaluationDomain`: the
/// polynomial of degree below `n = evals.len()` whose value at `ω^i` is `evals[i]`, with
/// trailing zero coefficients trimmed.
#[verifier::external_body]
fn interpolate(evals: &Vec<Scalar>) -> (r: Poly)
    requires
        is_pow2(evals.len() as nat),
        evals.len() as nat <= max_domain_size(),
        all_wf(evals@),
    ensures
        r.wf(),
        r@ == interpolation_of(values_of(evals@)),
        r@.len() <= evals.len(),
        forall|i: nat|
            i < evals.len() ==> #[trigger] eval_poly(
                r@,
                powm(root_of_unity_of(evals.len() as nat), i),
            ) == evals@[i as int].value(),
{
    let v: Vec<Fr> = evals.iter().map(|s| Fr::from_bigint(BigInt(s.limbs)).unwrap()).collect();
    let domain = Radix2EvaluationDomain::<Fr>::new(v.len()).unwrap();
    let p = Evaluations::from_vec_and_domain(v, domain).interpolate();
    Poly { coeffs: p.coeffs.iter().map(|c| Scalar { limbs: c.into_bigint().0 }).collect() }
}

/// Relies on ark-poly's `Mul` for `&DensePolynomial`: the product polynomial, with
/// trailing zero coefficients trimmed.
#[verifier::external_body]
pub(crate) fn poly_product(a: &Poly, b: &Poly) -> (r: Poly)
    requires
        a.wf(),
        b.wf(),
        a.coeffs.len() + b.coeffs.len() <= max_domain_size(),
    ensures
        r.wf(),
        r@ == product_spec(a@, b@),
{
    let x: Vec<Fr> = a.coeffs.iter().map(|s| Fr::from_bigint(BigInt(s.limbs)).unwrap()).collect();
    let y: Vec<Fr> = b.coeffs.iter().map(|s| Fr::from_bigint(BigInt(s.limbs)).unwrap()).collect();
    let p = &DensePolynomial::from_coefficients_vec(x) * &DensePolynomial::from_coefficients_vec(y);
    Poly { coeffs: p.coeffs.iter().map(|c| Scalar { limbs: c.into_bigint().0 }).collect() }
}

/// Index of the highest nonzero coefficient; zero for the zero polynomial.
pub open spec fn degree_spec(s: Seq<int>) -> nat
    decreases s.len(),
{
    if s.len() <= 1 {
        0
    } else if s.last() != 0 {
        (s.len() - 1) as nat
    } else {
        degree_spec(s.drop_last())
    }
}

/// A polynomial as the list of its coefficients, lowest degree first.
#[derive(Clone, Debug)]
pub struct Poly {
    pub coeffs: Vec<Scalar>,
}

impl View for Poly {
    type V = Seq<int>;

    open spec fn view(&self) -> Seq<int> {
        self.coeffs@.map_values(|s: Scalar| s.value())
    }
}

impl Poly {
    pub open spec fn wf(&self) -> bool {
        forall|i: int| 0 <= i < self.coeffs.len() ==> #[trigger] self.coeffs@[i].wf()
    }

    /// The value of the polynomial at `x`.
    pub fn evaluate(&self, x: &Scalar) -> (r: Scalar)
        requires
            self.wf(),
            x.wf(),
        ensures
            r.wf(),
            r.value() == eval_poly(self@, x.value()),
    {
        let mut acc = Scalar::zero();
        let mut xpow = Scalar::one();
        let mut k: usize = 0;
        while k < self.coeffs.len()
            invariant
                self.wf(),
                x.wf(),
                k <= self.coeffs.len(),
                acc.wf(),
                xpow.wf(),
                acc.value() == eval_poly(self@.take(k as int), x.value()),
                xpow.value() == powm(x.value(), k as nat),
            decreases self.coeffs.len() - k,
        {
            let term = self.coeffs[k].mul(&xpow);
            acc = acc.add(&term);
            xpow = xpow.mul(x);
            assert(self@.take(k + 1).drop_last() =~= self@.take(k as int));
            k = k + 1;
        }
        assert(self@.take(k as int) =~= self@);
        acc
    }

    /// Index of the highest nonzero coefficient; zero for the zero polynomial.
    pub fn degree(&self) -> (r: usize)
        requires
            self.wf(),
        ensures
            r == degree_spec(self@),
            self.coeffs.len() > 0 ==> r < self.coeffs.len(),
            forall|j: int| r < j < self.coeffs.len() ==> self@[j] == 0,
            r > 0 ==> self@[r as int] != 0,
    {
        let zero = Scalar::zero();
        let mut d: usize = self.coeffs.len();
        assert(self@.take(d as int) =~= self@);
        while d > 1
            invariant
                self.wf(),
                zero.value() == 0,
                d <= self.coeffs.len(),
                degree_spec(self@) == degree_spec(self@.take(d as int)),
                forall|j: int| d <= j < self.coeffs.len() ==> self@[j] == 0,
            decreases d,
        {
            assert(self@.take(d as int).drop_last() =~= self@.take(d - 1));
            if !self.coeffs[d - 1].equals(&zero) {
                return d - 1;
            }
            d = d - 1;
        }
        0
    }
}

/// A copy of `f`.
pub fn copy_poly(f: &Poly) -> (r: Poly)
    requires
        f.wf(),
    ensures
        r.wf(),
        r@ == f@,
        r.coeffs.len() == f.coeffs.len(),
{
    let mut coeffs: Vec<Scalar> = Vec::new();
    let mut i: usize = 0;
    while i < f.coeffs.len()
        invariant
            f.wf(),
            i <= f.coeffs.len(),
            coeffs@ == f.coeffs@.take(i as int),
        decreases f.coeffs.len() - i,
    {
        coeffs.push(f.coeffs[i]);
        assert(f.coeffs@.take(i + 1) =~= f.coeffs@.take(i as int).push(f.coeffs@[i as int]));
        i = i + 1;
    }
    assert(f.coeffs@.take(i as int) =~= f.coeffs@);
    Poly { coeffs }
}

/// The constant polynomial `c`.
pub fn compute_constant_poly(c: &Scalar) -> (r: Poly)
    requires
        c.wf(),
    ensures
        r.wf(),
        r@ == seq![c.value()],
{
    let r = Poly { coeffs: vec![*c] };
    assert(r@ =~= seq![c.value()]);
    r
}

/// The vanishing polynomial `X^n - 1` of the domain of size `n`.
pub fn compute_vanishing_poly(n: usize) -> (r: Poly)
    requires
        1 <= n < usize::MAX,
    ensures
        r.wf(),
        r@ == vanishing_spec(n as nat),
{
    let zero = Scalar::zero();
    let one = Scalar::one();
    let minus_one = zero.sub(&one);
    proof {
        lemma_fundamental_div_mod_converse(-1, modulus(), -1, modulus() - 1);
    }
    let mut coeffs: Vec<Scalar> = Vec::new();
    let mut i: usize = 0;
    while i <= n
        invariant
            1 <= n < usize::MAX,
            i <= n + 1,
            coeffs.len() == i,
            zero.value() == 0,
            one.value() == 1,
            minus_one.wf(),
            minus_one.value() == modulus() - 1,
            forall|j: int| 0 <= j < i ==> #[trigger] coeffs@[j].wf(),
            forall|j: int| 0 <= j < i ==> #[trigger] coeffs@[j].value() == vanishing_spec(n as nat)[j],
        decreases n + 1 - i,
    {
        if i == 0 {
            coeffs.push(minus_one);
        } else if i == n {
            coeffs.push(one);
        } else {
            coeffs.push(zero);
        }
        i = i + 1;
    }
    let r = Poly { coeffs };
    assert(r@ =~= vanishing_spec(n as nat));
    r
}

/// `c · f`.
pub fn poly_eval_mult_const(f: &Poly, c: &Scalar) -> (r: Poly)
    requires
        f.wf(),
        c.wf(),
    ensures
        r.wf(),
        r@ == scale_spec(f@, c.value()),
        r.coeffs.len() == f.coeffs.len(),
{
    let mut coeffs: Vec<Scalar> = Vec::new();
    let mut i: usize = 0;
    while i < f.coeffs.len()
        invariant
            f.wf(),
            c.wf(),
            i <= f.coeffs.len(),
            coeffs.len() == i,
            forall|j: int| 0 <= j < i ==> #[trigger] coeffs@[j].wf(),
            forall|j: int| 0 <= j < i ==> #[trigger] coeffs@[j].value() == scale_spec(f@, c.value())[j],
        decreases f.coeffs.len() - i,
    {
        coeffs.push(f.coeffs[i].mul(c));
        i = i + 1;
    }
    let r = Poly { coeffs };
    assert(r@ =~= scale_spec(f@, c.value()));
    r
}

fn coef_at(f: &Poly, j: usize) -> (r: Scalar)
    requires
        f.wf(),
    ensures
        r.wf(),
        r.value() == coef(f@, j as int),
{
    if j < f.coeffs.len() {
        f.coeffs[j]
    } else {
        Scalar::zero()
    }
}

/// `a + b`.
pub fn poly_add(a: &Poly, b: &Poly) -> (r: Poly)
    requires
        a.wf(),
        b.wf(),
    ensures
        r.wf(),
        r@ == sum_spec(a@, b@),
        r.coeffs.len() == if a.coeffs.len() >= b.coeffs.len() {
            a.coeffs.len()
        } else {
            b.coeffs.len()
        },
{
    let n = if a.coeffs.len() >= b.coeffs.len() { a.coeffs.len() } else { b.coeffs.len() };
    let mut coeffs: Vec<Scalar> = Vec::new();
    let mut i: usize = 0;
    while i < n
        invariant
            a.wf(),
            b.wf(),
            n == max_len(a@, b@),
            i <= n,
            coeffs.len() == i,
            forall|j: int| 0 <= j < i ==> #[trigger] coeffs@[j].wf(),
            forall|j: int| 0 <= j < i ==> #[trigger] coeffs@[j].value() == sum_spec(a@, b@)[j],
        decreases n - i,
    {
        coeffs.push(coef_at(a, i).add(&coef_at(b, i)));
        i = i + 1;
    }
    let r = Poly { coeffs };
    assert(r@ =~= sum_spec(a@, b@));
    r
}

/// `a - b`.
pub fn poly_sub(a: &Poly, b: &Poly) -> (r: Poly)
    requires
        a.wf(),
        b.wf(),
    ensures
        r.wf(),
        r@ == difference_spec(a@, b@),
        r.coeffs.len() == if a.coeffs.len() >= b.coeffs.len() {
            a.coeffs.len()
        } else {
            b.coeffs.len()
        },
{
    let n = if a.coeffs.len() >= b.coeffs.len() { a.coeffs.len() } else { b.coeffs.len() };
    let mut coeffs: Vec<Scalar> = Vec::new();
    let mut i: usize = 0;
    while i < n
        invariant
            a.wf(),
            b.wf(),
            n == max_len(a@, b@),
            i <= n,
            coeffs.len() == i,
            forall|j: int| 0 <= j < i ==> #[trigger] coeffs@[j].wf(),
            forall|j: int| 0 <= j < i ==> #[trigger] coeffs@[j].value() == difference_spec(a@, b@)[j],
        decreases n - i,
    {
        coeffs.push(coef_at(a, i).sub(&coef_at(b, i)));
        i = i + 1;
    }
    let r = Poly { coeffs };
    assert(r@ =~= difference_spec(a@, b@));
    r
}

/// The evaluation vector that is one at index `i` and zero elsewhere.
pub open spec fn indicator(n: nat, i: int) -> Seq<int> {
    Seq::new(n, |j: int| if j == i { 1 } else { 0 })
}

/// `f(w·X)`: coefficient `k` multiplied by `w^k`.
pub open spec fn shift_spec(f: Seq<int>, w: int) -> Seq<int> {
    Seq::new(f.len(), |k: int| (f[k] * powm(w, k as nat)) % modulus())
}

/// The domain point `ω^i` of the domain of size `n`; `ω` has order exactly `n`.
pub fn domain_element(n: usize, i: u64) -> (r: Scalar)
    requires
        is_pow2(n as nat),
        n as nat <= max_domain_size(),
    ensures
        r.wf(),
        r.value() == powm(root_of_unity_of(n as nat), i as nat),
        powm(root_of_unity_of(n as nat), n as nat) == 1,
        forall|j: nat| 0 < j < n ==> #[trigger] powm(root_of_unity_of(n as nat), j) != 1,
{
    domain_generator(n).pow(i)
}

/// The Lagrange basis polynomial of the domain of size `n` that is one at `ω^i` and zero at
/// every other point of the domain.
pub fn lagrange_poly(n: usize, i: usize) -> (r: Poly)
    requires
        is_pow2(n as nat),
        n as nat <= max_domain_size(),
        i < n,
    ensures
        r.wf(),
        r@ == interpolation_of(indicator(n as nat, i as int)),
        r@.len() <= n,
        forall|j: nat|
            j < n ==> #[trigger] eval_poly(r@, powm(root_of_unity_of(n as nat), j)) == if j == i {
                1int
            } else {
                0int
            },
{
    let mut evals: Vec<Scalar> = Vec::new();
    let mut j: usize = 0;
    while j < n
        invariant
            j <= n,
            i < n,
            evals.len() == j,
            forall|t: int| 0 <= t < j ==> #[trigger] evals@[t].wf(),
            forall|t: int| 0 <= t < j ==> #[trigger] evals@[t].value() == if t == i {
                1int
            } else {
                0int
            },
        decreases n - j,
    {
        if i == j {
            evals.push(Scalar::one());
        } else {
            evals.push(Scalar::zero());
        }
        j = j + 1;
    }
    assert(values_of(evals@) =~= indicator(n as nat, i as int));
    let r = interpolate(&evals);
    assert forall|j: nat| j < n implies #[trigger] eval_poly(
        r@,
        powm(root_of_unity_of(n as nat), j),
    ) == if j == i {
        1int
    } else {
        0int
    } by {
        assert(evals@[j as int].value() == if j == i {
            1int
        } else {
            0int
        });
    }
    r
}

/// The record polynomial: the polynomial of degree below `n` whose value at `ω^i` is field
/// `i` of the record.
pub fn coin_poly(n: usize, coin: &Vec<Scalar>) -> (r: Poly)
    requires
        is_pow2(n as nat),
        n as nat <= max_domain_size(),
        coin.len() == n,
        all_wf(coin@),
    ensures
        r.wf(),
        r@ == interpolation_of(values_of(coin@)),
        r@.len() <= n,
        forall|i: nat|
            i < n ==> #[trigger] eval_poly(r@, powm(root_of_unity_of(n as nat), i))
                == coin@[i as int].value(),
{
    interpolate(coin)
}

/// `f(ω^offset · X)` on the domain of size `n`: its value at `ω^i` is the value of `f` at
/// `ω^(i + offset)`.
pub fn poly_domain_shift(f: &Poly, n: usize, offset: u64) -> (r: Poly)
    requires
        f.wf(),
        is_pow2(n as nat),
        n as nat <= max_domain_size(),
    ensures
        r.wf(),
        r@ == shift_spec(f@, powm(root_of_unity_of(n as nat), offset as nat)),
        r.coeffs.len() == f.coeffs.len(),
        powm(root_of_unity_of(n as nat), n as nat) == 1,
{
    let omega = domain_generator(n);
    let w = omega.pow(offset);
    let mut wk = Scalar::one();
    let mut coeffs: Vec<Scalar> = Vec::new();
    let mut k: usize = 0;
    while k < f.coeffs.len()
        invariant
            f.wf(),
            w.wf(),
            wk.wf(),
            k <= f.coeffs.len(),
            coeffs.len() == k,
            wk.value() == powm(w.value(), k as nat),
            forall|t: int| 0 <= t < k ==> #[trigger] coeffs@[t].wf(),
            forall|t: int|
                0 <= t < k ==> #[trigger] coeffs@[t].value() == shift_spec(f@, w.value())[t],
        decreases f.coeffs.len() - k,
    {
        coeffs.push(f.coeffs[k].mul(&wk));
        wk = wk.mul(&w);
        k = k + 1;
    }
    let r = Poly { coeffs };
    assert(r@ =~= shift_spec(f@, w.value()));
    r
}

/// The quotient of `f` by the vanishing polynomial `X^n - 1`, the remainder dropped.
pub fn vanishing_quotient_poly(f: &Poly, n: usize) -> (r: Poly)
    requires
        f.wf(),
        n >= 1,
    ensures
        r.wf(),
        r@ == vanishing_quotient(f@, n as nat),
{
    let m = f.coeffs.len();
    let qlen: usize = if m > n { m - n } else { 0 };
    let mut q: Vec<Scalar> = Vec::new();
    let mut i: usize = 0;
    while i < qlen
        invariant
            i <= qlen,
            q.len() == i,
            forall|t: int| 0 <= t < i ==> #[trigger] q@[t].wf(),
        decreases qlen - i,
    {
        q.push(Scalar::zero());
        i = i + 1;
    }
    let mut k: usize = qlen;
    while k > 0
        invariant
            f.wf(),
            n >= 1,
            m == f.coeffs.len(),
            qlen == if m > n { m - n } else { 0 },
            k <= qlen,
            q.len() == qlen,
            forall|t: int| 0 <= t < qlen ==> #[trigger] q@[t].wf(),
            forall|t: int|
                k <= t < qlen ==> #[trigger] q@[t].value() == vanishing_quotient_coef(
                    f@,
                    n as nat,
                    t,
                ),
        decreases k,
    {
        let idx = k - 1;
        let upper = if idx + n < qlen { q[idx + n] } else { Scalar::zero() };
        let val = f.coeffs[idx + n].add(&upper);
        assert(upper.value() == vanishing_quotient_coef(f@, n as nat, idx + n));
        assert(val.value() == vanishing_quotient_coef(f@, n as nat, idx as int));
        q.set(idx, val);
        k = idx;
    }
    let r = Poly { coeffs: q };
    assert(r@ =~= vanishing_quotient(f@, n as nat));
    r
}

/// The quotient of `f` by the vanishing polynomial `X^n - 1`, or `None` when the division
/// leaves a remainder.
pub fn divide_by_vanishing(f: &Poly, n: usize) -> (r: Option<Poly>)
    requires
        f.wf(),
        n >= 1,
    ensures
        r.is_some() <==> vanishing_divides(f@, n as nat),
        r matches Some(q) ==> q.wf() && q@ == vanishing_quotient(f@, n as nat),
{
    let m = f.coeffs.len();
    let qp = vanishing_quotient_poly(f, n);
    let mut j: usize = 0;
    while j < n && j < m
        invariant
            f.wf(),
            qp.wf(),
            m == f.coeffs.len(),
            qp@ == vanishing_quotient(f@, n as nat),
            n >= 1,
            forall|t: int|
                0 <= t < j ==> (f@[t] + #[trigger] vanishing_quotient_coef(f@, n as nat, t))
                    % modulus() == 0,
        decreases m - j,
    {
        assert(coef(qp@, j as int) == vanishing_quotient_coef(f@, n as nat, j as int));
        let rem = f.coeffs[j].add(&coef_at(&qp, j));
        if !rem.equals(&Scalar::zero()) {
            assert((f@[j as int] + vanishing_quotient_coef(f@, n as nat, j as int)) % modulus()
                != 0);
            return None;
        }
        j = j + 1;
    }
    Some(qp)
}

/// The quotient of `f` by `X - z`; the remainder, `f(z)`, is dropped.
pub fn divide_by_linear(f: &Poly, z: &Scalar) -> (r: Poly)
    requires
        f.wf(),
        z.wf(),
    ensures
        r.wf(),
        r@ == linear_quotient(f@, z.value()),
{
    let m = f.coeffs.len();
    let qlen: usize = if m > 0 { m - 1 } else { 0 };
    let mut q: Vec<Scalar> = Vec::new();
    let mut i: usize = 0;
    while i < qlen
        invariant
            i <= qlen,
            q.len() == i,
            forall|t: int| 0 <= t < i ==> #[trigger] q@[t].wf(),
        decreases qlen - i,
    {
        q.push(Scalar::zero());
        i = i + 1;
    }
    let mut carry = Scalar::zero();
    let mut k: usize = qlen;
    while k > 0
        invariant
            f.wf(),
            z.wf(),
            m == f.coeffs.len(),
            qlen == if m > 0 { m - 1 } else { 0 },
            k <= qlen,
            q.len() == qlen,
            carry.wf(),
            carry.value() == linear_quotient_coef(f@, z.value(), k as int),
            forall|t: int| 0 <= t < qlen ==> #[trigger] q@[t].wf(),
            forall|t: int|
                k <= t < qlen ==> #[trigger] q@[t].value() == linear_quotient_coef(
                    f@,
                    z.value(),
                    t,
                ),
        decreases k,
    {
        let idx = k - 1;
        let val = f.coeffs[k].add(&z.mul(&carry));
        q.set(idx, val);
        carry = val;
        k = idx;
    }
    let r = Poly { coeffs: q };
    assert(r@ =~= linear_quotient(f@, z.value()));
    r
}

/// Scaling coefficient `k` by `w^k` is evaluating at `w·x`.
pub proof fn lemma_eval_shift(f: Seq<int>, w: int, x: int)
    ensures
        eval_poly(shift_spec(f, w), x) == eval_poly(f, (w * x) % modulus()),
    decreases f.len(),
{
    if f.len() > 0 {
        let p = modulus();
        let l = (f.len() - 1) as nat;
        assert(shift_spec(f, w).drop_last() =~= shift_spec(f.drop_last(), w));
        lemma_eval_shift(f.drop_last(), w, x);
        let (c, pw, px) = (f.last(), powm(w, l), powm(x, l));
        lemma_powm_mul(w, x, l);
        // left term: ((c·pw mod p)·px) mod p; right term: (c·(pw·px mod p)) mod p
        lemma_mul_mod_noop_left(c * pw, px, p);
        lemma_mul_mod_noop_right(c, pw * px, p);
        assert((c * pw) * px == c * (pw * px)) by (nonlinear_arith);
    }
}

pub proof fn lemma_trim_len(s: Seq<int>)
    ensures
        trim(s).len() <= s.len(),
    decreases s.len(),
{
    if s.len() > 0 && s.last() == 0 {
        lemma_trim_len(s.drop_last());
    }
}

pub proof fn lemma_product_len(a: Seq<int>, b: Seq<int>)
    ensures
        product_spec(a, b).len() <= a.len() + b.len(),
{
    lemma_trim_len(full_product(a, b));
}

/// Horner's step: `f(x) = f_0 + x · (f_1 + f_2 x + ...)`.
pub proof fn lemma_eval_first(f: Seq<int>, x: int)
    requires
        f.len() >= 1,
    ensures
        eval_poly(f, x) == (f[0] + x * eval_poly(f.drop_first(), x)) % modulus(),
    decreases f.len(),
{
    let p = modulus();
    if f.len() == 1 {
        assert(f.drop_first().len() == 0);
        assert(f.drop_last().len() == 0);
        assert(powm(x, 0) == 1);
        assert(eval_poly(f.drop_last(), x) == 0);
        assert(f.last() == f[0]);
        assert(eval_poly(f, x) == (eval_poly(f.drop_last(), x) + (f.last() * powm(x, 0)) % p) % p);
        assert(f[0] * 1 == f[0]);
        lemma_mod_twice(f[0], p);
        assert(x * 0 == 0) by (nonlinear_arith);
        assert(eval_poly(f.drop_first(), x) == 0);
    } else {
        let g = f.drop_last();
        let l = (f.len() - 1) as nat;
        lemma_eval_first(g, x);
        let fd = f.drop_first();
        assert(fd.drop_last() =~= g.drop_first());
        assert(fd.last() == f.last());
        assert(g[0] == f[0]);
        let e = eval_poly(g.drop_first(), x);
        let c = f.last();
        let p1 = powm(x, (l - 1) as nat);
        let pw = powm(x, l);
        let a = f[0] + x * e;
        assert(pw == (p1 * x) % p);
        assert(eval_poly(g, x) == a % p);
        assert(eval_poly(f, x) == (a % p + (c * pw) % p) % p);
        lemma_add_mod_noop(a, c * pw, p);
        lemma_add_mod_noop_right(a, c * pw, p);
        lemma_mul_mod_noop_right(c, p1 * x, p);
        lemma_add_mod_noop_right(a, c * (p1 * x), p);
        assert(eval_poly(f, x) == (a + c * (p1 * x)) % p);
        let t = (c * p1) % p;
        let b = e + t;
        assert(eval_poly(fd, x) == b % p);
        lemma_add_mod_noop_right(f[0], x * (b % p), p);
        lemma_mul_mod_noop_right(x, b, p);
        lemma_add_mod_noop_right(f[0], x * b, p);
        assert((f[0] + x * eval_poly(fd, x)) % p == (f[0] + x * b) % p);
        assert(x * b == x * e + x * t) by (nonlinear_arith)
            requires
                b == e + t,
        ;
        assert(f[0] + x * b == a + x * t);
        lemma_add_mod_noop_right(a, x * t, p);
        lemma_mul_mod_noop_right(x, c * p1, p);
        lemma_add_mod_noop_right(a, x * (c * p1), p);
        assert(x * (c * p1) == c * (p1 * x)) by (nonlinear_arith);
    }
}

/// Coefficient `k` of the quotient by `X - z` is the value at `z` of `f_{k+1} + f_{k+2} X + ...`.
pub proof fn lemma_linear_quotient_tail(f: Seq<int>, z: int, k: int)
    requires
        0 <= k,
    ensures
        k + 1 <= f.len() ==> linear_quotient_coef(f, z, k) == eval_poly(f.subrange(k + 1, f.len() as int), z),
    decreases f.len() - k,
{
    if k + 1 < f.len() {
        lemma_linear_quotient_tail(f, z, k + 1);
        let tail = f.subrange(k + 1, f.len() as int);
        lemma_eval_first(tail, z);
        assert(tail.drop_first() =~= f.subrange(k + 2, f.len() as int));
        lemma_add_mod_noop_right(f[k + 1], z * eval_poly(tail.drop_first(), z), modulus());
    } else if k + 1 == f.len() {
        assert(f.subrange(k + 1, f.len() as int).len() == 0);
    }
}

proof fn lemma_cancel(a: int, b: int)
    requires
        0 <= a < modulus(),
        0 <= b < modulus(),
    ensures
        fsub((a + b) % modulus(), b) == a,
{
    let p = modulus();
    lemma_small_mod(b as nat, p as nat);
    lemma_sub_mod_noop(a + b, b, p);
    lemma_small_mod(a as nat, p as nat);
}

/// The opening witness `w = (f - f(z)) / (X - z)` divides exactly:
/// `f(X) = w(X)·(X - z) + f(z)`, coefficient by coefficient.
pub proof fn lemma_opening_witness(f: Seq<int>, z: int)
    requires
        f.len() >= 1,
        forall|i: int| 0 <= i < f.len() ==> 0 <= #[trigger] f[i] < modulus(),
        0 <= z < modulus(),
    ensures
        f[0] == fsub(eval_poly(f, z), fmul(z, coef(linear_quotient(f, z), 0))),
        forall|j: int|
            1 <= j < f.len() ==> f[j] == fsub(
                #[trigger] coef(linear_quotient(f, z), j - 1),
                fmul(z, coef(linear_quotient(f, z), j)),
            ),
{
    let p = modulus();
    let w = linear_quotient(f, z);
    assert forall|j: int| 1 <= j < f.len() implies f[j] == fsub(
        #[trigger] coef(w, j - 1),
        fmul(z, coef(w, j)),
    ) by {
        assert(coef(w, j - 1) == linear_quotient_coef(f, z, j - 1));
        assert(coef(w, j) == linear_quotient_coef(f, z, j));
        lemma_mod_bound(z * linear_quotient_coef(f, z, j), p);
        lemma_cancel(f[j], (z * linear_quotient_coef(f, z, j)) % p);
    }
    lemma_eval_first(f, z);
    lemma_linear_quotient_tail(f, z, 0);
    if f.len() == 1 {
        assert(f.drop_first().len() == 0);
        lemma_cancel(f[0], 0);
        lemma_small_mod(0, p as nat);
    } else {
        assert(f.drop_first() =~= f.subrange(1, f.len() as int));
        let w0 = linear_quotient_coef(f, z, 0);
        assert(coef(w, 0) == w0);
        lemma_add_mod_noop_right(f[0], z * w0, p);
        lemma_mod_bound(z * w0, p);
        lemma_cancel(f[0], (z * w0) % p);
    }
}

proof fn lemma_vanishing_coef_range(f: Seq<int>, n: nat, k: int)
    ensures
        0 <= vanishing_quotient_coef(f, n, k) < modulus(),
    decreases f.len() - k,
{
    if !(n == 0 || k < 0 || k + n >= f.len()) {
        lemma_mod_bound(f[k + n] + vanishing_quotient_coef(f, n, k + n), modulus());
    }
}

/// Exact division by the vanishing polynomial: when `X^n - 1` divides `f`, the quotient `q`
/// satisfies `f = q · (X^n - 1)`, that is `f_j = q_{j-n} - q_j` for every coefficient.
pub proof fn lemma_vanishing_division(f: Seq<int>, n: nat)
    requires
        n >= 1,
        forall|i: int| 0 <= i < f.len() ==> 0 <= #[trigger] f[i] < modulus(),
        vanishing_divides(f, n),
    ensures
        forall|j: int|
            0 <= j < f.len() ==> f[j] == fsub(
                coef(vanishing_quotient(f, n), j - n),
                #[trigger] coef(vanishing_quotient(f, n), j),
            ),
{
    let p = modulus();
    let q = vanishing_quotient(f, n);
    assert forall|j: int| 0 <= j < f.len() implies f[j] == fsub(
        coef(q, j - n),
        #[trigger] coef(q, j),
    ) by {
        let v = vanishing_quotient_coef(f, n, j);
        lemma_vanishing_coef_range(f, n, j);
        assert(coef(q, j) == v);
        if j >= n {
            assert(coef(q, j - n) == vanishing_quotient_coef(f, n, j - n));
            assert(vanishing_quotient_coef(f, n, j - n) == (f[j] + v) % p);
            lemma_cancel(f[j], v);
        } else {
            assert(coef(q, j - n) == 0);
            assert((f[j] + v) % p == 0);
            lemma_small_mod(v as nat, p as nat);
            lemma_sub_mod_noop(f[j] + v, v, p);
            lemma_small_mod(f[j] as nat, p as nat);
        }
    }
}

/// `Σ_{j<k} c(j)·x^j` in the field.
pub open spec fn partial_eval(c: spec_fn(int) -> int, k: nat, x: int) -> int
    decreases k,
{
    if k == 0 {
        0
    } else {
        (partial_eval(c, (k - 1) as nat, x) + (c(k - 1) * powm(x, (k - 1) as nat)) % modulus())
            % modulus()
    }
}

pub open spec fn coef_fn(s: Seq<int>) -> spec_fn(int) -> int {
    |j: int| coef(s, j)
}

pub open spec fn diff_fn(a: spec_fn(int) -> int, b: spec_fn(int) -> int) -> spec_fn(int) -> int {
    |j: int| fsub(a(j), b(j))
}

pub open spec fn shifted_fn(c: spec_fn(int) -> int, n: nat) -> spec_fn(int) -> int {
    |j: int| c(j - n)
}

proof fn lemma_partial_range(c: spec_fn(int) -> int, k: nat, x: int)
    ensures
        0 <= partial_eval(c, k, x) < modulus(),
{
    if k > 0 {
        lemma_mod_bound(
            partial_eval(c, (k - 1) as nat, x) + (c(k - 1) * powm(x, (k - 1) as nat)) % modulus(),
            modulus(),
        );
    }
}

/// Partial sums only see the coefficients below their bound.
proof fn lemma_partial_agree(c1: spec_fn(int) -> int, c2: spec_fn(int) -> int, k: nat, x: int)
    requires
        forall|j: int| 0 <= j < k ==> #[trigger] c1(j) == c2(j),
    ensures
        partial_eval(c1, k, x) == partial_eval(c2, k, x),
    decreases k,
{
    if k > 0 {
        lemma_partial_agree(c1, c2, (k - 1) as nat, x);
    }
}

/// Zero coefficients from `k` on add nothing.
proof fn lemma_partial_zeros(c: spec_fn(int) -> int, k: nat, k2: nat, x: int)
    requires
        k <= k2,
        forall|j: int| k <= j < k2 ==> #[trigger] c(j) == 0,
    ensures
        partial_eval(c, k2, x) == partial_eval(c, k, x),
    decreases k2,
{
    if k2 > k {
        let k1 = (k2 - 1) as nat;
        lemma_partial_zeros(c, k, k1, x);
        lemma_partial_range(c, k1, x);
        assert(c(k1 as int) == 0);
        assert(c(k1 as int) * powm(x, k1) == 0);
        lemma_small_mod(0, modulus() as nat);
        lemma_small_mod(partial_eval(c, k1, x) as nat, modulus() as nat);
    }
}

proof fn lemma_eval_is_partial(s: Seq<int>, x: int)
    ensures
        eval_poly(s, x) == partial_eval(coef_fn(s), s.len(), x),
    decreases s.len(),
{
    if s.len() > 0 {
        let t = s.drop_last();
        lemma_eval_is_partial(t, x);
        assert forall|j: int| 0 <= j < t.len() implies #[trigger] coef_fn(t)(j) == coef_fn(s)(j) by {}
        lemma_partial_agree(coef_fn(t), coef_fn(s), t.len(), x);
        assert(coef_fn(s)(s.len() - 1) == s.last());
    }
}

/// Partial sums are linear: the sum of differences is the difference of sums.
proof fn lemma_partial_sub(a: spec_fn(int) -> int, b: spec_fn(int) -> int, k: nat, x: int)
    ensures
        partial_eval(diff_fn(a, b), k, x) == fsub(partial_eval(a, k, x), partial_eval(b, k, x)),
    decreases k,
{
    let p = modulus();
    if k == 0 {
        lemma_small_mod(0, p as nat);
    } else {
        let k1 = (k - 1) as nat;
        lemma_partial_sub(a, b, k1, x);
        let (pa, pb) = (partial_eval(a, k1, x), partial_eval(b, k1, x));
        let pw = powm(x, k1);
        let (ak, bk) = (a(k1 as int), b(k1 as int));
        let target = pa - pb + (ak - bk) * pw;
        // left: ((pa - pb) mod p + (((ak - bk) mod p) · pw) mod p) mod p
        lemma_mul_mod_noop_left(ak - bk, pw, p);
        lemma_add_mod_noop(pa - pb, (ak - bk) * pw, p);
        assert(diff_fn(a, b)(k1 as int) == (ak - bk) % p);
        assert(partial_eval(diff_fn(a, b), k, x) == ((pa - pb) % p + (((ak - bk) % p) * pw) % p) % p);
        assert(partial_eval(diff_fn(a, b), k, x) == target % p);
        // right: ((pa + (ak·pw) mod p) mod p - (pb + (bk·pw) mod p) mod p) mod p
        lemma_add_mod_noop_right(pa, ak * pw, p);
        lemma_add_mod_noop_right(pb, bk * pw, p);
        lemma_sub_mod_noop(pa + ak * pw, pb + bk * pw, p);
        assert((pa + ak * pw) - (pb + bk * pw) == target) by (nonlinear_arith)
            requires
                target == pa - pb + (ak - bk) * pw,
        ;
    }
}

/// Shifting the coefficients up by `n` multiplies the sum by `x^n`.
proof fn lemma_partial_shift(c: spec_fn(int) -> int, n: nat, k: nat, x: int)
    requires
        forall|j: int| j < 0 ==> #[trigger] c(j) == 0,
    ensures
        partial_eval(shifted_fn(c, n), k + n, x) == fmul(powm(x, n), partial_eval(c, k, x)),
    decreases k,
{
    let p = modulus();
    let xn = powm(x, n);
    if k == 0 {
        assert forall|j: int| 0 <= j < n implies #[trigger] shifted_fn(c, n)(j) == 0 by {}
        lemma_partial_zeros(shifted_fn(c, n), 0, n, x);
        assert(xn * 0 == 0);
        lemma_small_mod(0, p as nat);
    } else {
        let k1 = (k - 1) as nat;
        lemma_partial_shift(c, n, k1, x);
        let pc = partial_eval(c, k1, x);
        let ck = c(k1 as int);
        let pwk = powm(x, k1);
        assert(shifted_fn(c, n)((k1 + n) as int) == ck);
        assert((k1 + n) as nat == (k + n - 1) as nat);
        lemma_powm_add(x, n, k1);
        assert(powm(x, (k1 + n) as nat) == (xn * pwk) % p);
        let target = xn * pc + xn * (ck * pwk);
        // left: ((xn·pc) mod p + (ck · ((xn·pwk) mod p)) mod p) mod p
        lemma_mul_mod_noop_right(ck, xn * pwk, p);
        lemma_add_mod_noop(xn * pc, ck * (xn * pwk), p);
        assert(ck * (xn * pwk) == xn * (ck * pwk)) by (nonlinear_arith);
        assert(partial_eval(shifted_fn(c, n), k + n, x) == target % p);
        // right: (xn · ((pc + (ck·pwk) mod p) mod p)) mod p
        lemma_mul_mod_noop_right(xn, pc + (ck * pwk) % p, p);
        lemma_mul_mod_noop_right(xn, ck * pwk, p);
        assert(xn * (pc + (ck * pwk) % p) == xn * pc + xn * ((ck * pwk) % p)) by (nonlinear_arith);
        lemma_add_mod_noop_right(xn * pc, xn * ((ck * pwk) % p), p);
        lemma_add_mod_noop_right(xn * pc, xn * (ck * pwk), p);
    }
}

/// `Z(x) = x^n - 1`.
proof fn lemma_eval_vanishing(n: nat, x: int)
    requires
        n >= 1,
    ensures
        eval_poly(vanishing_spec(n), x) == fsub(powm(x, n), 1),
{
    let p = modulus();
    let z = vanishing_spec(n);
    let c = coef_fn(z);
    lemma_eval_is_partial(z, x);
    assert(c(0) == p - 1);
    assert(powm(x, 0) == 1);
    lemma_small_mod((p - 1) as nat, p as nat);
    assert(partial_eval(c, 0, x) == 0);
    assert(partial_eval(c, 1, x) == (0 + ((p - 1) * 1) % p) % p);
    assert(partial_eval(c, 1, x) == p - 1);
    assert forall|j: int| 1 <= j < n implies #[trigger] c(j) == 0 by {}
    lemma_partial_zeros(c, 1, n, x);
    assert(c(n as int) == 1);
    let xn = powm(x, n);
    lemma_powm_range(x, n);
    lemma_small_mod(xn as nat, p as nat);
    assert(partial_eval(c, n + 1, x) == (p - 1 + (1 * xn) % p) % p);
    assert(1 * xn == xn);
    lemma_mod_add_multiples_vanish(xn - 1, p);
    assert(p - 1 + xn == p + (xn - 1));
}

/// Exact division at every point: when `X^n - 1` divides `f`, its quotient `q` satisfies
/// `f(x) = q(x) · (x^n - 1)` for every `x`.
pub proof fn lemma_quotient_identity(f: Seq<int>, n: nat, x: int)
    requires
        n >= 1,
        forall|i: int| 0 <= i < f.len() ==> 0 <= #[trigger] f[i] < modulus(),
        vanishing_divides(f, n),
    ensures
        eval_poly(f, x) == fmul(eval_poly(vanishing_quotient(f, n), x), eval_poly(vanishing_spec(n), x)),
{
    let p = modulus();
    let q = vanishing_quotient(f, n);
    let m = f.len();
    let big = m + n;
    lemma_vanishing_division(f, n);
    let d = diff_fn(shifted_fn(coef_fn(q), n), coef_fn(q));
    assert forall|j: int| 0 <= j < big implies #[trigger] d(j) == coef_fn(f)(j) by {
        if j < m {
            assert(f[j] == fsub(coef(q, j - n), coef(q, j)));
        } else {
            assert(coef(q, j - n) == 0);
            assert(coef(q, j) == 0);
            lemma_small_mod(0, p as nat);
        }
    }
    lemma_eval_is_partial(f, x);
    assert forall|j: int| m <= j < big implies #[trigger] coef_fn(f)(j) == 0 by {}
    lemma_partial_zeros(coef_fn(f), m, big, x);
    lemma_partial_agree(d, coef_fn(f), big, x);
    lemma_partial_sub(shifted_fn(coef_fn(q), n), coef_fn(q), big, x);
    let ql = q.len();
    assert(ql + n <= big);
    assert forall|j: int| ql + n <= j < big implies #[trigger] shifted_fn(coef_fn(q), n)(j) == 0 by {}
    lemma_partial_zeros(shifted_fn(coef_fn(q), n), ql + n, big, x);
    lemma_partial_shift(coef_fn(q), n, ql, x);
    assert forall|j: int| ql <= j < big implies #[trigger] coef_fn(q)(j) == 0 by {}
    lemma_partial_zeros(coef_fn(q), ql, big, x);
    lemma_eval_is_partial(q, x);
    // f(x) = x^n·q(x) - q(x) = q(x)·(x^n - 1)
    let qx = eval_poly(q, x);
    let xn = powm(x, n);
    lemma_eval_vanishing(n, x);
    lemma_mul_mod_noop_right(qx, xn - 1, p);
    lemma_mul_mod_noop_left(xn, qx, p);
    lemma_sub_mod_noop(xn * qx, qx, p);
    lemma_partial_range(coef_fn(q), ql, x);
    lemma_small_mod(qx as nat, p as nat);
    assert(qx * (xn - 1) == xn * qx - qx) by (nonlinear_arith);
}

proof fn lemma_powm_one(k: nat)
    ensures
        powm(1, k) == 1,
    decreases k,
{
    if k > 0 {
        lemma_powm_one((k - 1) as nat);
        lemma_small_mod(1, modulus() as nat);
    }
}

/// Shifting with `w^a` and then with `w^b` is shifting with `w^(a+b)`; shifting with `w^0`,
/// or with `w^n` for an `n`-th root of unity `w`, leaves a canonical polynomial unchanged.
pub proof fn lemma_shift_laws(f: Seq<int>, w: int, n: nat, a: nat, b: nat)
    requires
        forall|i: int| 0 <= i < f.len() ==> 0 <= #[trigger] f[i] < modulus(),
        powm(w, n) == 1,
    ensures
        shift_spec(shift_spec(f, powm(w, a)), powm(w, b)) == shift_spec(f, powm(w, a + b)),
        shift_spec(f, powm(w, 0)) == f,
        shift_spec(f, powm(w, n)) == f,
{
    let p = modulus();
    let (wa, wb) = (powm(w, a), powm(w, b));
    lemma_powm_add(w, a, b);
    assert forall|k: int| 0 <= k < f.len() implies #[trigger] shift_spec(
        shift_spec(f, wa),
        wb,
    )[k] == shift_spec(f, powm(w, a + b))[k] by {
        let kk = k as nat;
        let (pa, pb) = (powm(wa, kk), powm(wb, kk));
        lemma_powm_mul(wa, wb, kk);
        lemma_mul_mod_noop_left(f[k] * pa, pb, p);
        lemma_mul_mod_noop_right(f[k], pa * pb, p);
        assert((f[k] * pa) * pb == f[k] * (pa * pb)) by (nonlinear_arith);
    }
    assert(shift_spec(shift_spec(f, wa), wb) =~= shift_spec(f, powm(w, a + b)));
    assert(powm(w, 0) == 1);
    assert forall|k: int| 0 <= k < f.len() implies #[trigger] shift_spec(f, 1)[k] == f[k] by {
        lemma_powm_one(k as nat);
        lemma_small_mod(f[k] as nat, p as nat);
    }
    assert(shift_spec(f, 1) =~= f);
}

/// Shifting is linear: the shift of a sum is the sum of the shifts.
pub proof fn lemma_shift_linear(f: Seq<int>, g: Seq<int>, w: int)
    ensures
        shift_spec(sum_spec(f, g), w) == sum_spec(shift_spec(f, w), shift_spec(g, w)),
{
    let p = modulus();
    assert forall|k: int| 0 <= k < max_len(f, g) implies #[trigger] shift_spec(sum_spec(f, g), w)[k]
        == sum_spec(shift_spec(f, w), shift_spec(g, w))[k] by {
        let pw = powm(w, k as nat);
        let (x, y) = (coef(f, k), coef(g, k));
        assert(coef(shift_spec(f, w), k) == (x * pw) % p) by {
            if k >= f.len() {
                assert(x * pw == 0);
                lemma_small_mod(0, p as nat);
            }
        }
        assert(coef(shift_spec(g, w), k) == (y * pw) % p) by {
            if k >= g.len() {
                assert(y * pw == 0);
                lemma_small_mod(0, p as nat);
            }
        }
        lemma_mul_mod_noop_left(x + y, pw, p);
        lemma_add_mod_noop(x * pw, y * pw, p);
        assert((x + y) * pw == x * pw + y * pw) by (nonlinear_arith);
    }
    assert(shift_spec(sum_spec(f, g), w) =~= sum_spec(shift_spec(f, w), shift_spec(g, w)));
}

pub open spec fn add_fn(a: spec_fn(int) -> int, b: spec_fn(int) -> int) -> spec_fn(int) -> int {
    |j: int| fadd(a(j), b(j))
}

pub open spec fn scaled_fn(a: spec_fn(int) -> int, c: int) -> spec_fn(int) -> int {
    |j: int| fmul(c, a(j))
}

proof fn lemma_partial_add(a: spec_fn(int) -> int, b: spec_fn(int) -> int, k: nat, x: int)
    ensures
        partial_eval(add_fn(a, b), k, x) == fadd(partial_eval(a, k, x), partial_eval(b, k, x)),
    decreases k,
{
    let p = modulus();
    if k == 0 {
        lemma_small_mod(0, p as nat);
    } else {
        let k1 = (k - 1) as nat;
        lemma_partial_add(a, b, k1, x);
        let (pa, pb) = (partial_eval(a, k1, x), partial_eval(b, k1, x));
        let pw = powm(x, k1);
        let (ak, bk) = (a(k1 as int), b(k1 as int));
        let target = pa + pb + (ak + bk) * pw;
        lemma_mul_mod_noop_left(ak + bk, pw, p);
        lemma_add_mod_noop(pa + pb, (ak + bk) * pw, p);
        assert(add_fn(a, b)(k1 as int) == (ak + bk) % p);
        assert(partial_eval(add_fn(a, b), k, x) == target % p);
        lemma_add_mod_noop_right(pa, ak * pw, p);
        lemma_add_mod_noop_right(pb, bk * pw, p);
        lemma_add_mod_noop(pa + ak * pw, pb + bk * pw, p);
        assert((pa + ak * pw) + (pb + bk * pw) == target) by (nonlinear_arith)
            requires
                target == pa + pb + (ak + bk) * pw,
        ;
    }
}

proof fn lemma_partial_scale(a: spec_fn(int) -> int, c: int, k: nat, x: int)
    ensures
        partial_eval(scaled_fn(a, c), k, x) == fmul(c, partial_eval(a, k, x)),
    decreases k,
{
    let p = modulus();
    if k == 0 {
        assert(c * 0 == 0);
        lemma_small_mod(0, p as nat);
    } else {
        let k1 = (k - 1) as nat;
        lemma_partial_scale(a, c, k1, x);
        let pa = partial_eval(a, k1, x);
        let pw = powm(x, k1);
        let ak = a(k1 as int);
        let target = c * pa + c * (ak * pw);
        // left: ((c·pa) mod p + (((c·ak) mod p)·pw) mod p) mod p
        lemma_mul_mod_noop_left(c * ak, pw, p);
        lemma_add_mod_noop(c * pa, (c * ak) * pw, p);
        assert((c * ak) * pw == c * (ak * pw)) by (nonlinear_arith);
        assert(partial_eval(scaled_fn(a, c), k, x) == target % p);
        // right: (c · ((pa + (ak·pw) mod p) mod p)) mod p
        lemma_mul_mod_noop_right(c, pa + (ak * pw) % p, p);
        assert(c * (pa + (ak * pw) % p) == c * pa + c * ((ak * pw) % p)) by (nonlinear_arith);
        lemma_add_mod_noop_right(c * pa, c * ((ak * pw) % p), p);
        lemma_mul_mod_noop_right(c, ak * pw, p);
        lemma_add_mod_noop_right(c * pa, c * (ak * pw), p);
    }
}

/// `eval(s)` through a partial sum to any bound at least `s.len()`.
proof fn lemma_eval_partial_to(s: Seq<int>, k: nat, x: int)
    requires
        s.len() <= k,
    ensures
        eval_poly(s, x) == partial_eval(coef_fn(s), k, x),
{
    lemma_eval_is_partial(s, x);
    assert forall|j: int| s.len() <= j < k implies #[trigger] coef_fn(s)(j) == 0 by {}
    lemma_partial_zeros(coef_fn(s), s.len(), k, x);
}

/// Evaluation respects sums.
pub proof fn lemma_eval_sum(a: Seq<int>, b: Seq<int>, x: int)
    ensures
        eval_poly(sum_spec(a, b), x) == fadd(eval_poly(a, x), eval_poly(b, x)),
{
    let s = sum_spec(a, b);
    let k = max_len(a, b);
    lemma_eval_partial_to(a, k, x);
    lemma_eval_partial_to(b, k, x);
    lemma_eval_partial_to(s, k, x);
    assert forall|j: int| 0 <= j < k implies #[trigger] coef_fn(s)(j) == add_fn(coef_fn(a), coef_fn(b))(j) by {}
    lemma_partial_agree(coef_fn(s), add_fn(coef_fn(a), coef_fn(b)), k, x);
    lemma_partial_add(coef_fn(a), coef_fn(b), k, x);
}

/// Evaluation respects differences.
pub proof fn lemma_eval_difference(a: Seq<int>, b: Seq<int>, x: int)
    ensures
        eval_poly(difference_spec(a, b), x) == fsub(eval_poly(a, x), eval_poly(b, x)),
{
    let s = difference_spec(a, b);
    let k = max_len(a, b);
    lemma_eval_partial_to(a, k, x);
    lemma_eval_partial_to(b, k, x);
    lemma_eval_partial_to(s, k, x);
    assert forall|j: int| 0 <= j < k implies #[trigger] coef_fn(s)(j) == diff_fn(coef_fn(a), coef_fn(b))(j) by {}
    lemma_partial_agree(coef_fn(s), diff_fn(coef_fn(a), coef_fn(b)), k, x);
    lemma_partial_sub(coef_fn(a), coef_fn(b), k, x);
}

/// Evaluation respects scaling.
pub proof fn lemma_eval_scale(a: Seq<int>, c: int, x: int)
    ensures
        eval_poly(scale_spec(a, c), x) == fmul(eval_poly(a, x), c),
{
    let s = scale_spec(a, c);
    let k = a.len();
    lemma_eval_is_partial(a, x);
    lemma_eval_is_partial(s, x);
    assert forall|j: int| 0 <= j < k implies #[trigger] coef_fn(s)(j) == scaled_fn(coef_fn(a), c)(j) by {
        assert(a[j] * c == c * a[j]) by (nonlinear_arith);
    }
    lemma_partial_agree(coef_fn(s), scaled_fn(coef_fn(a), c), k, x);
    lemma_partial_scale(coef_fn(a), c, k, x);
    assert(c * eval_poly(a, x) == eval_poly(a, x) * c) by (nonlinear_arith);
}

/// Trimming trailing zeros keeps every coefficient.
proof fn lemma_trim_coef(s: Seq<int>, j: int)
    ensures
        coef(trim(s), j) == coef(s, j),
    decreases s.len(),
{
    if s.len() > 0 && s.last() == 0 {
        lemma_trim_coef(s.drop_last(), j);
        lemma_trim_len(s.drop_last());
    }
}

/// Evaluation ignores trailing zeros.
pub proof fn lemma_eval_trim(s: Seq<int>, x: int)
    ensures
        eval_poly(trim(s), x) == eval_poly(s, x),
{
    let t = trim(s);
    lemma_trim_len(s);
    lemma_eval_partial_to(t, s.len(), x);
    lemma_eval_is_partial(s, x);
    assert forall|j: int| 0 <= j < s.len() implies #[trigger] coef_fn(t)(j) == coef_fn(s)(j) by {
        lemma_trim_coef(s, j);
    }
    lemma_partial_agree(coef_fn(t), coef_fn(s), s.len(), x);
}

pub open spec fn pc_fn(a: Seq<int>, b: Seq<int>) -> spec_fn(int) -> int {
    |j: int|
        if j >= 0 {
            product_coef(a, b, j)
        } else {
            0
        }
}

proof fn lemma_upto_range(a: Seq<int>, b: Seq<int>, j: int, i: nat)
    ensures
        0 <= product_coef_upto(a, b, j, i) < modulus(),
{
    if i > 0 {
        lemma_mod_bound(
            product_coef_upto(a, b, j, (i - 1) as nat) + coef(a, i - 1) * coef(b, j - (i - 1)),
            modulus(),
        );
    }
}

/// With one factor all zero, every partial convolution sum is zero.
proof fn lemma_upto_zero(a: Seq<int>, b: Seq<int>, j: int, i: nat)
    requires
        a.len() == 0 || b.len() == 0,
    ensures
        product_coef_upto(a, b, j, i) == 0,
    decreases i,
{
    if i > 0 {
        lemma_upto_zero(a, b, j, (i - 1) as nat);
        assert(coef(a, i - 1) * coef(b, j - (i - 1)) == 0);
        lemma_small_mod(0, modulus() as nat);
    }
}

/// Splitting off the top coefficient `c` of `a` (at index `l`) adds `c · b_{j-l}`.
proof fn lemma_upto_last(a: Seq<int>, b: Seq<int>, j: int, i: nat)
    requires
        a.len() >= 1,
    ensures
        product_coef_upto(a, b, j, i) == if i <= a.len() - 1 {
            product_coef_upto(a.drop_last(), b, j, i)
        } else {
            (product_coef_upto(a.drop_last(), b, j, i) + a.last() * coef(b, j - (a.len() - 1)))
                % modulus()
        },
    decreases i,
{
    let p = modulus();
    let l = a.len() - 1;
    let a1 = a.drop_last();
    if i > 0 {
        let i1 = (i - 1) as nat;
        lemma_upto_last(a, b, j, i1);
        lemma_upto_range(a1, b, j, i1);
        lemma_upto_range(a, b, j, i1);
        if i1 < l {
            assert(coef(a, i1 as int) == coef(a1, i1 as int));
        } else if i1 == l {
            assert(coef(a1, i1 as int) == 0);
            assert(coef(a1, i1 as int) * coef(b, j - i1) == 0);
            lemma_small_mod(product_coef_upto(a1, b, j, i1) as nat, p as nat);
            assert(coef(a, i1 as int) == a.last());
        } else {
            assert(coef(a, i1 as int) == 0 && coef(a1, i1 as int) == 0);
            assert(coef(a, i1 as int) * coef(b, j - i1) == 0);
            assert(coef(a1, i1 as int) * coef(b, j - i1) == 0);
            lemma_small_mod(product_coef_upto(a1, b, j, i1) as nat, p as nat);
            lemma_small_mod(product_coef_upto(a, b, j, i1) as nat, p as nat);
        }
    }
}

proof fn lemma_pc_last(a: Seq<int>, b: Seq<int>, j: int)
    requires
        a.len() >= 1,
        j >= 0,
    ensures
        product_coef(a, b, j) == (product_coef(a.drop_last(), b, j) + a.last() * coef(
            b,
            j - (a.len() - 1),
        )) % modulus(),
{
    lemma_upto_last(a, b, j, (j + 1) as nat);
    if j + 1 <= a.len() - 1 {
        assert(coef(b, j - (a.len() - 1)) == 0);
        assert(a.last() * coef(b, j - (a.len() - 1)) == 0);
        lemma_upto_range(a.drop_last(), b, j, (j + 1) as nat);
        lemma_small_mod(product_coef(a.drop_last(), b, j) as nat, modulus() as nat);
    }
}

/// Coefficients of the product vanish past `a.len() + b.len() - 2`.
proof fn lemma_pc_beyond(a: Seq<int>, b: Seq<int>, j: int)
    requires
        j >= 0,
        j >= a.len() + b.len() - 1,
    ensures
        product_coef(a, b, j) == 0,
    decreases a.len(),
{
    if a.len() == 0 || b.len() == 0 {
        lemma_upto_zero(a, b, j, (j + 1) as nat);
    } else {
        lemma_pc_last(a, b, j);
        lemma_pc_beyond(a.drop_last(), b, j);
        assert(coef(b, j - (a.len() - 1)) == 0);
        assert(a.last() * coef(b, j - (a.len() - 1)) == 0);
        lemma_small_mod(0, modulus() as nat);
    }
}

proof fn lemma_ring(a1: int, bv: int, c: int, xl: int)
    ensures
        fmul(fadd(a1, fmul(c, xl)), bv) == fadd(fmul(a1, bv), fmul(c, fmul(xl, bv))),
{
    let p = modulus();
    let t = a1 * bv + c * xl * bv;
    // left
    lemma_mul_mod_noop_left(a1 + (c * xl) % p, bv, p);
    assert((a1 + (c * xl) % p) * bv == a1 * bv + ((c * xl) % p) * bv) by (nonlinear_arith);
    lemma_add_mod_noop_right(a1 * bv, ((c * xl) % p) * bv, p);
    lemma_mul_mod_noop_left(c * xl, bv, p);
    lemma_add_mod_noop_right(a1 * bv, (c * xl) * bv, p);
    // right
    lemma_mul_mod_noop_right(c, xl * bv, p);
    lemma_add_mod_noop(a1 * bv, c * (xl * bv), p);
    assert(c * (xl * bv) == (c * xl) * bv) by (nonlinear_arith);
}

proof fn lemma_partial_product(a: Seq<int>, b: Seq<int>, k: nat, x: int)
    requires
        k >= a.len() + b.len(),
    ensures
        partial_eval(pc_fn(a, b), k, x) == fmul(eval_poly(a, x), eval_poly(b, x)),
    decreases a.len(),
{
    let p = modulus();
    if a.len() == 0 {
        assert forall|j: int| 0 <= j < k implies #[trigger] pc_fn(a, b)(j) == 0 by {
            lemma_upto_zero(a, b, j, (j + 1) as nat);
        }
        lemma_partial_zeros(pc_fn(a, b), 0, k, x);
        assert(eval_poly(a, x) == 0);
        assert(0 * eval_poly(b, x) == 0);
        lemma_small_mod(0, p as nat);
    } else {
        let a1 = a.drop_last();
        let l = (a.len() - 1) as nat;
        let c = a.last();
        lemma_partial_product(a1, b, k, x);
        let sb = shifted_fn(coef_fn(b), l);
        let g = add_fn(pc_fn(a1, b), scaled_fn(sb, c));
        assert forall|j: int| 0 <= j < k implies #[trigger] pc_fn(a, b)(j) == g(j) by {
            lemma_pc_last(a, b, j);
            lemma_add_mod_noop_right(product_coef(a1, b, j), c * coef(b, j - l), p);
        }
        lemma_partial_agree(pc_fn(a, b), g, k, x);
        lemma_partial_add(pc_fn(a1, b), scaled_fn(sb, c), k, x);
        lemma_partial_scale(sb, c, k, x);
        let kb = (k - l) as nat;
        assert forall|j: int| j < 0 implies #[trigger] coef_fn(b)(j) == 0 by {}
        lemma_partial_shift(coef_fn(b), l, kb, x);
        assert(kb + l == k);
        lemma_eval_partial_to(b, kb, x);
        lemma_ring(eval_poly(a1, x), eval_poly(b, x), c, powm(x, l));
    }
}

/// Evaluation respects products.
pub proof fn lemma_eval_product(a: Seq<int>, b: Seq<int>, x: int)
    ensures
        eval_poly(product_spec(a, b), x) == fmul(eval_poly(a, x), eval_poly(b, x)),
{
    let f = full_product(a, b);
    let k = a.len() + b.len();
    lemma_eval_trim(f, x);
    lemma_eval_partial_to(f, k, x);
    assert forall|j: int| 0 <= j < k implies #[trigger] coef_fn(f)(j) == pc_fn(a, b)(j) by {
        if j >= f.len() {
            if a.len() == 0 || b.len() == 0 {
                lemma_upto_zero(a, b, j, (j + 1) as nat);
            } else {
                lemma_pc_beyond(a, b, j);
            }
        }
    }
    lemma_partial_agree(coef_fn(f), pc_fn(a, b), k, x);
    lemma_partial_product(a, b, k, x);
}

/// Evaluation at `x` is a ring homomorphism on the operations the applications use.
pub proof fn lemma_eval_ops(x: int)
    ensures
        forall|a: Seq<int>, b: Seq<int>|
            #[trigger] eval_poly(sum_spec(a, b), x) == fadd(eval_poly(a, x), eval_poly(b, x)),
        forall|a: Seq<int>, b: Seq<int>|
            #[trigger] eval_poly(difference_spec(a, b), x) == fsub(eval_poly(a, x), eval_poly(b, x)),
        forall|a: Seq<int>, c: int| #[trigger] eval_poly(scale_spec(a, c), x) == fmul(eval_poly(a, x), c),
        forall|a: Seq<int>, b: Seq<int>|
            #[trigger] eval_poly(product_spec(a, b), x) == fmul(eval_poly(a, x), eval_poly(b, x)),
{
    assert forall|a: Seq<int>, b: Seq<int>| #[trigger] eval_poly(sum_spec(a, b), x) == fadd(
        eval_poly(a, x),
        eval_poly(b, x),
    ) by {
        lemma_eval_sum(a, b, x);
    }
    assert forall|a: Seq<int>, b: Seq<int>| #[trigger] eval_poly(difference_spec(a, b), x) == fsub(
        eval_poly(a, x),
        eval_poly(b, x),
    ) by {
        lemma_eval_difference(a, b, x);
    }
    assert forall|a: Seq<int>, c: int| #[trigger] eval_poly(scale_spec(a, c), x) == fmul(
        eval_poly(a, x),
        c,
    ) by {
        lemma_eval_scale(a, c, x);
    }
    assert forall|a: Seq<int>, b: Seq<int>| #[trigger] eval_poly(product_spec(a, b), x) == fmul(
        eval_poly(a, x),
        eval_poly(b, x),
    ) by {
        lemma_eval_product(a, b, x);
    }
}

/// Domain shift: for an `n`-th root of unity `w`, the polynomial shifted by `offset` takes at
/// `w^i` the value that `f` takes at `w^((i + offset) mod n)`.
pub proof fn lemma_domain_shift(f: Seq<int>, w: int, n: nat, offset: nat, i: nat)
    requires
        n > 0,
        powm(w, n) == 1,
    ensures
        eval_poly(shift_spec(f, powm(w, offset)), powm(w, i)) == eval_poly(
            f,
            powm(w, (i + offset) % n),
        ),
{
    lemma_eval_shift(f, powm(w, offset), powm(w, i));
    lemma_powm_add(w, offset, i);
    lemma_powm_mod_order(w, n, i + offset);
}

} // verus!
