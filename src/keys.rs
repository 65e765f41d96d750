//! Secret, public and relinearization keys, and their generation.
use vstd::prelude::*;
use vstd::arithmetic::power::*;
use vstd::arithmetic::div_mod::*;
use vstd::arithmetic::power2::*;
use rand::rngs::StdRng;
use crate::poly::{Poly, residues, ring_add, ring_neg, ring_mul, ring_scale};
use crate::sampling::{uniform_poly, ternary_poly, is_ternary};

verus! {

/// Why a key could not be generated. Every case is detected before any
/// randomness is drawn.
#[derive(Clone, Copy, Debug, PartialEq, Eq, Structural)]
pub enum KeyGenError {
    /// A modulus at most 1, a derived base at most 1, an empty dimension, or
    /// a scaling factor below 1.
    ConfigurationError,
    /// A noise polynomial whose dimension differs from the secret key's, or
    /// a number of noise polynomials other than the number of key elements.
    DimensionMismatch,
    /// A derived modulus that does not fit in an `i64`.
    ArithmeticRangeError,
}

/// A secret key: a polynomial with coefficients in {-1, 0, 1}.
#[derive(Clone, Debug)]
pub struct SecretKey {
    pub poly: Poly,
}

/// A public key `(p_0, p_1) = (-(a*s + e), a)` modulo `q`.
#[derive(Clone, Debug)]
pub struct PublicKey {
    pub p_0: Poly,
    pub p_1: Poly,
}

/// A digit-decomposition relinearization key: the pairs
/// `(-(a_i*s + e_i) + base^i * s^2, a_i)` for `i` in `0..l`.
#[derive(Clone, Debug)]
pub struct RelinearizationKey1 {
    pub rlk: Vec<(Poly, Poly)>,
    pub base: i64,
    pub l: i64,
}

/// A single-pair relinearization key `(-(a*s + e) + s^2, a)`.
#[derive(Clone, Debug)]
pub struct RelinearizationKeySimple {
    pub ek_0: Poly,
    pub ek_1: Poly,
}

/// A relinearization key under the raised modulus `p*q`:
/// `(-(a*s + e) + p * s^2, a)`.
#[derive(Clone, Debug)]
pub struct RelinearizationKey2 {
    pub rlk_0: Poly,
    pub rlk_1: Poly,
    pub p: i64,
}

/// `-(a*s + e)` in Z_q[x]/(x^n + 1).
pub open spec fn rlwe_mask(s: Seq<int>, a: Seq<int>, e: Seq<int>, q: int) -> Seq<int> {
    ring_neg(ring_add(ring_mul(a, s, q), e, q), q)
}

/// `-(a*s + e) + f * s^2` in Z_q[x]/(x^n + 1).
pub open spec fn switching_term(s: Seq<int>, a: Seq<int>, e: Seq<int>, f: int, q: int) -> Seq<int> {
    ring_add(rlwe_mask(s, a, e, q), ring_scale(ring_mul(s, s, q), f, q), q)
}

/// `f * s^2 - e` in Z_q[x]/(x^n + 1): what a key-switching pair encodes.
pub open spec fn scaled_square_minus(s: Seq<int>, e: Seq<int>, f: int, q: int) -> Seq<int> {
    ring_add(ring_scale(ring_mul(s, s, q), f, q), ring_neg(e, q), q)
}

/// `b` is the ceiling of the square root of `q`.
pub open spec fn is_ceil_sqrt(b: int, q: int) -> bool {
    b >= 1 && b * b >= q && (b - 1) * (b - 1) < q
}

/// `l` is the floor of the base-`b` logarithm of `q`.
pub open spec fn is_floor_log(l: int, b: int, q: int) -> bool {
    l >= 0 && pow(b, l as nat) <= q < pow(b, (l + 1) as nat)
}

/// The digit base chosen for modulus `q`: `ceil(sqrt(q))`.
pub open spec fn ceil_sqrt(q: int) -> int {
    choose|b: int| is_ceil_sqrt(b, q)
}

/// The number of digits for modulus `q`: `floor(log_base(q))` with the base
/// `ceil(sqrt(q))`.
pub open spec fn digit_count_of(q: int) -> int {
    floor_log(ceil_sqrt(q), q)
}

/// `floor(log_b(q))`.
pub open spec fn floor_log(b: int, q: int) -> int {
    choose|l: int| is_floor_log(l, b, q)
}

/// The residues modulo `q` of each noise vector.
pub open spec fn noise_residues(noise: Seq<Vec<i64>>, q: int) -> Seq<Seq<int>> {
    Seq::new(noise.len(), |i: int| residues(noise[i]@, q))
}

/// There are `l` noise vectors, each with `n` coefficients.
pub open spec fn noise_fits(noise: Seq<Vec<i64>>, l: int, n: int) -> bool {
    noise.len() == l && forall|i: int| 0 <= i < noise.len() ==> #[trigger] noise[i].len() == n
}

proof fn lemma_ceil_sqrt_unique(b1: int, b2: int, q: int)
    requires
        is_ceil_sqrt(b1, q),
        is_ceil_sqrt(b2, q),
    ensures
        b1 == b2,
{
    if b1 < b2 {
        assert((b2 - 1) * (b2 - 1) >= b1 * b1) by (nonlinear_arith)
            requires b1 <= b2 - 1, b1 >= 1;
    } else if b2 < b1 {
        assert((b1 - 1) * (b1 - 1) >= b2 * b2) by (nonlinear_arith)
            requires b2 <= b1 - 1, b2 >= 1;
    }
}

proof fn lemma_floor_log_unique(l1: int, l2: int, b: int, q: int)
    requires
        b > 1,
        is_floor_log(l1, b, q),
        is_floor_log(l2, b, q),
    ensures
        l1 == l2,
{
    if l1 < l2 {
        lemma_pow_increases(b as nat, (l1 + 1) as nat, l2 as nat);
    } else if l2 < l1 {
        lemma_pow_increases(b as nat, (l2 + 1) as nat, l1 as nat);
    }
}

/// The digit base `ceil(sqrt(q))`, computed with integers only.
pub fn digit_base(q: i64) -> (r: Result<i64, KeyGenError>)
    ensures
        q <= 1 <==> r == Err::<i64, KeyGenError>(KeyGenError::ConfigurationError),
        r is Ok ==> is_ceil_sqrt(r->Ok_0 as int, q as int) && r->Ok_0 == ceil_sqrt(q as int)
            && r->Ok_0 > 1,
        r is Err ==> r == Err::<i64, KeyGenError>(KeyGenError::ConfigurationError),
{
    if q <= 1 {
        return Err(KeyGenError::ConfigurationError);
    }
    let qq = q as u128;
    let mut lo: u128 = 1;
    let mut hi: u128 = 3_037_000_500;
    assert(3_037_000_500u128 * 3_037_000_500u128 > 0x7fff_ffff_ffff_ffffu128);
    while hi - lo > 1
        invariant
            qq == q,
            q > 1,
            1 <= lo < hi <= 3_037_000_500,
            lo * lo < qq,
            hi * hi >= qq,
        decreases hi - lo,
    {
        let mid = lo + (hi - lo) / 2;
        assert(mid * mid <= 3_037_000_500 * 3_037_000_500) by (nonlinear_arith)
            requires mid <= 3_037_000_500u128;
        if mid * mid >= qq {
            hi = mid;
        } else {
            lo = mid;
        }
    }
    let b = hi as i64;
    proof {
        assert(is_ceil_sqrt(b as int, q as int));
        lemma_ceil_sqrt_unique(b as int, ceil_sqrt(q as int), q as int);
    }
    Ok(b)
}

/// The digit count `floor(log_base(q))`: the largest `l` with `base^l <= q`,
/// found by repeated multiplication.
pub fn digit_count(q: i64, base: i64) -> (r: Result<i64, KeyGenError>)
    ensures
        (q <= 1 || base <= 1) <==> r == Err::<i64, KeyGenError>(KeyGenError::ConfigurationError),
        r is Ok ==> is_floor_log(r->Ok_0 as int, base as int, q as int) && r->Ok_0 < 63,
        r is Err ==> r == Err::<i64, KeyGenError>(KeyGenError::ConfigurationError),
{
    if q <= 1 || base <= 1 {
        return Err(KeyGenError::ConfigurationError);
    }
    let qq = q as u128;
    let bb = base as u128;
    let mut acc: u128 = 1;
    let mut l: i64 = 0;
    proof {
        lemma_pow0(base as int);
        lemma2_to64();
    }
    loop
        invariant
            qq == q,
            bb == base,
            1 < base,
            1 <= acc <= qq,
            0 <= l <= acc,
            pow2(l as nat) <= acc,
            acc as int == pow(base as int, l as nat),
        ensures
            pow2(l as nat) <= acc,
            1 <= acc <= qq,
            0 <= l,
            acc as int == pow(base as int, l as nat),
            acc * bb > qq,
        decreases qq - acc,
    {
        assert(acc * bb <= 0x7fff_ffff_ffff_ffff * 0x7fff_ffff_ffff_ffff) by (nonlinear_arith)
            requires
                acc <= 0x7fff_ffff_ffff_ffffu128,
                bb <= 0x7fff_ffff_ffff_ffffu128,
        ;
        assert(acc * bb >= acc + acc) by (nonlinear_arith)
            requires
                bb >= 2,
                acc >= 1,
        ;
        let next = acc * bb;
        if next > qq {
            break;
        }
        proof {
            lemma_pow_adds(base as int, l as nat, 1);
            lemma_pow1(base as int);
            lemma_pow2_unfold((l + 1) as nat);
        }
        acc = next;
        l = l + 1;
    }
    proof {
        lemma_pow_adds(base as int, l as nat, 1);
        lemma_pow1(base as int);
        lemma2_to64();
        lemma2_to64_rest();
        if l > 63 {
            lemma_pow2_strictly_increases(63, l as nat);
        }
        assert(l < 63);
    }
    Ok(l)
}

/// `-(a*s + e) + f * s^2`: the first half of a key-switching pair whose
/// second half is `a`.
pub fn key_switch_pair(s: &Poly, a: &Poly, e: &Poly, factor: i64) -> (r: Poly)
    requires
        s.compatible(a),
        s.compatible(e),
    ensures
        r.q == s.q,
        r.coeffs.len() == s.coeffs.len(),
        r.is_reduced(),
        r.view_residues() == switching_term(
            s.view_residues(),
            a.view_residues(),
            e.view_residues(),
            factor as int,
            s.q as int,
        ),
{
    let mask = a.times(s).plus(e).negate();
    let square = s.times(s).scale(factor);
    mask.plus(&square)
}

proof fn lemma_coeff_reconstruct(x: int, y: int, e: int, q: int)
    requires
        q > 0,
    ensures
        (((-((x + e) % q)) % q + y) % q + x) % q == (y + (-e) % q) % q,
{
    lemma_sub_mod_noop_right(0, x + e, q);
    assert(0 - (x + e) == -(x + e));
    assert(0 - ((x + e) % q) == -((x + e) % q));
    let m1 = (-((x + e) % q)) % q;
    lemma_add_mod_noop_right(y, -(x + e), q);
    assert(m1 + y == y + m1);
    lemma_add_mod_noop_right(x, y - x - e, q);
    assert((m1 + y) % q + x == x + (m1 + y) % q);
    assert(y + -(x + e) == y - x - e);
    assert(x + (y - x - e) == y - e);
    lemma_add_mod_noop_right(y, -e, q);
}

/// Adding `a*s` to the first half of a key-switching pair leaves
/// `f * s^2 - e`: the pair encodes `f * s^2` up to the noise `e`.
pub proof fn lemma_switching_term_reconstructs(s: Seq<int>, a: Seq<int>, e: Seq<int>, f: int, q: int)
    requires
        q > 1,
        a.len() == s.len(),
        e.len() == s.len(),
    ensures
        ring_add(switching_term(s, a, e, f, q), ring_mul(a, s, q), q)
            == scaled_square_minus(s, e, f, q),
{
    let lhs = ring_add(switching_term(s, a, e, f, q), ring_mul(a, s, q), q);
    let rhs = scaled_square_minus(s, e, f, q);
    assert forall|k: int| 0 <= k < s.len() implies lhs[k] == rhs[k] by {
        let x = ring_mul(a, s, q)[k];
        let y = ring_scale(ring_mul(s, s, q), f, q)[k];
        lemma_coeff_reconstruct(x, y, e[k], q);
    }
    assert(lhs =~= rhs);
}

/// `(k0, k1)` is a key-switching pair modulo `q` for the secret `s`, noise
/// `e` and factor `f`: both are reduced and `k0 = -(k1*s + e) + f * s^2`.
pub open spec fn encodes(k0: Poly, k1: Poly, s: Seq<int>, e: Seq<int>, f: int, q: int) -> bool {
    &&& k0.q == q
    &&& k1.q == q
    &&& k0.coeffs.len() == s.len()
    &&& k1.coeffs.len() == s.len()
    &&& e.len() == s.len()
    &&& k0.is_reduced()
    &&& k1.is_reduced()
    &&& k0.view_residues() == switching_term(s, k1.view_residues(), e, f, q)
}

impl PublicKey {
    /// Both halves are reduced modulo `q` and `p_0 = -(p_1*s + e)`.
    pub open spec fn is_key_for(&self, s: Seq<int>, e: Seq<int>, q: int) -> bool {
        &&& self.p_0.q == q
        &&& self.p_1.q == q
        &&& self.p_0.coeffs.len() == s.len()
        &&& self.p_1.coeffs.len() == s.len()
        &&& e.len() == s.len()
        &&& self.p_0.is_reduced()
        &&& self.p_1.is_reduced()
        &&& self.p_0.view_residues() == rlwe_mask(s, self.p_1.view_residues(), e, q)
    }
}

impl RelinearizationKey1 {
    /// The base is `ceil(sqrt(q))` and the key is a digit key for that base.
    pub open spec fn is_key_for(&self, s: Seq<int>, noise: Seq<Seq<int>>, q: int) -> bool {
        &&& is_ceil_sqrt(self.base as int, q)
        &&& self.base == ceil_sqrt(q)
        &&& self.l == digit_count_of(q)
        &&& self.is_key_with_base(s, noise, q)
    }

    /// `1 < base <= q`, `l` is `floor(log_base(q))`, and pair `i` is a
    /// key-switching pair for `base^i * s^2` with noise `noise[i]`.
    pub open spec fn is_key_with_base(&self, s: Seq<int>, noise: Seq<Seq<int>>, q: int) -> bool {
        &&& 1 < self.base <= q
        &&& is_floor_log(self.l as int, self.base as int, q)
        &&& self.l == floor_log(self.base as int, q)
        &&& self.rlk.len() == self.l
        &&& noise.len() == self.l
        &&& forall|i: int|
            0 <= i < self.l ==> encodes(
                #[trigger] self.rlk@[i].0,
                self.rlk@[i].1,
                s,
                noise[i],
                pow(self.base as int, i as nat),
                q,
            )
    }
}

impl RelinearizationKeySimple {
    /// `(ek_0, ek_1)` is a key-switching pair for `s^2` with noise `e`.
    pub open spec fn is_key_for(&self, s: Seq<int>, e: Seq<int>, q: int) -> bool {
        encodes(self.ek_0, self.ek_1, s, e, 1, q)
    }
}

impl RelinearizationKey2 {
    /// `p >= 1` and `(rlk_0, rlk_1)` is a key-switching pair for `p * s^2`
    /// modulo `p*q`, with `s` and `e` taken modulo `p*q`.
    pub open spec fn is_key_for(&self, s: Seq<int>, e: Seq<int>, q: int) -> bool {
        &&& self.p >= 1
        &&& encodes(self.rlk_0, self.rlk_1, s, e, self.p as int, self.p * q)
    }
}

/// Whether there are `count` noise vectors of `n` coefficients each.
fn noise_matches(noise: &Vec<Vec<i64>>, count: usize, n: usize) -> (r: bool)
    ensures
        r == noise_fits(noise@, count as int, n as int),
{
    if noise.len() != count {
        return false;
    }
    for i in 0..noise.len()
        invariant
            noise.len() == count,
            forall|j: int| 0 <= j < i ==> #[trigger] noise@[j].len() == n,
    {
        if noise[i].len() != n {
            return false;
        }
    }
    true
}

impl SecretKey {
    /// The secret key is usable under modulus `q`: `q > 1` and the dimension
    /// is not empty.
    pub open spec fn usable_under(&self, q: int) -> bool {
        q > 1 && self.poly.coeffs.len() > 0
    }

    /// The secret's coefficients, reread modulo `q`.
    pub open spec fn secret_under(&self, q: int) -> Seq<int> {
        residues(self.poly.coeffs@, q)
    }

    /// The secret's coefficients as a polynomial of modulus `q`.
    fn poly_under(&self, q: i64) -> (r: Poly)
        ensures
            r.q == q,
            r.coeffs@ == self.poly.coeffs@,
    {
        let coeffs = self.poly.coeffs.clone();
        assert(coeffs@ =~= self.poly.coeffs@);
        Poly { coeffs, q }
    }

    /// A secret key of `dimension` coefficients drawn uniformly from
    /// {-1, 0, 1}, as a polynomial of modulus `modulus`.
    pub fn generate(dimension: usize, modulus: i64, rng: &mut StdRng) -> (r: Result<
        SecretKey,
        KeyGenError,
    >)
        ensures
            (dimension == 0 || modulus <= 1) <==> r == Err::<SecretKey, KeyGenError>(
                KeyGenError::ConfigurationError,
            ),
            (dimension > 0 && modulus > 1) ==> r is Ok,
            r is Ok ==> r->Ok_0.poly.q == modulus && r->Ok_0.poly.coeffs.len() == dimension
                && is_ternary(r->Ok_0.poly.coeffs@),
            r is Err ==> *final(rng) == *old(rng),
    {
        if dimension == 0 || modulus <= 1 {
            return Err(KeyGenError::ConfigurationError);
        }
        Ok(SecretKey { poly: ternary_poly(dimension, modulus, rng) })
    }

    /// A public key `(-(a*s + e), a)` modulo `q`, with `a` drawn uniformly
    /// and `e` the given noise.
    pub fn public_key_gen(&self, q: i64, noise: &Vec<i64>, rng: &mut StdRng) -> (r: Result<
        PublicKey,
        KeyGenError,
    >)
        ensures
            !self.usable_under(q as int) <==> r == Err::<PublicKey, KeyGenError>(
                KeyGenError::ConfigurationError,
            ),
            (self.usable_under(q as int) && noise.len() != self.poly.coeffs.len()) <==> r == Err::<
                PublicKey,
                KeyGenError,
            >(KeyGenError::DimensionMismatch),
            (self.usable_under(q as int) && noise.len() == self.poly.coeffs.len()) ==> r is Ok,
            r is Err ==> *final(rng) == *old(rng),
            r is Ok ==> r->Ok_0.is_key_for(
                self.secret_under(q as int),
                residues(noise@, q as int),
                q as int,
            ),
    {
        let n = self.poly.coeffs.len();
        if q <= 1 || n == 0 {
            return Err(KeyGenError::ConfigurationError);
        }
        if noise.len() != n {
            return Err(KeyGenError::DimensionMismatch);
        }
        let s = self.poly_under(q);
        let e = Poly { coeffs: noise.clone(), q };
        assert(e.coeffs@ =~= noise@);
        let a = uniform_poly(n, q, rng);
        let p_0 = a.times(&s).plus(&e).negate();
        Ok(PublicKey { p_0, p_1: a })
    }

    /// A single-pair relinearization key `(-(a*s + e) + s^2, a)` modulo the
    /// secret's own modulus, with `a` drawn uniformly and `e` the given noise.
    pub fn relinearization_key_gen_simple(&self, noise: &Vec<i64>, rng: &mut StdRng) -> (r: Result<
        RelinearizationKeySimple,
        KeyGenError,
    >)
        ensures
            !self.usable_under(self.poly.q as int) <==> r == Err::<
                RelinearizationKeySimple,
                KeyGenError,
            >(KeyGenError::ConfigurationError),
            (self.usable_under(self.poly.q as int) && noise.len() != self.poly.coeffs.len())
                <==> r == Err::<RelinearizationKeySimple, KeyGenError>(
                KeyGenError::DimensionMismatch,
            ),
            (self.usable_under(self.poly.q as int) && noise.len() == self.poly.coeffs.len())
                ==> r is Ok,
            r is Err ==> *final(rng) == *old(rng),
            r is Ok ==> r->Ok_0.is_key_for(
                self.secret_under(self.poly.q as int),
                residues(noise@, self.poly.q as int),
                self.poly.q as int,
            ),
    {
        let q = self.poly.q;
        let n = self.poly.coeffs.len();
        if q <= 1 || n == 0 {
            return Err(KeyGenError::ConfigurationError);
        }
        if noise.len() != n {
            return Err(KeyGenError::DimensionMismatch);
        }
        let s = self.poly_under(q);
        let e = Poly { coeffs: noise.clone(), q };
        assert(e.coeffs@ =~= noise@);
        let a = uniform_poly(n, q, rng);
        let ek_0 = key_switch_pair(&s, &a, &e, 1);
        Ok(RelinearizationKeySimple { ek_0, ek_1: a })
    }

    /// A digit-decomposition relinearization key modulo the secret's own
    /// modulus `q`: base `T = ceil(sqrt(q))`, `l = floor(log_T(q))` pairs, and
    /// pair `i` is `(-(a_i*s + e_i) + T^i * s^2, a_i)` with `a_i` drawn
    /// uniformly and `e_i = noise[i]`.
    pub fn relinearization_key_gen_1(&self, noise: &Vec<Vec<i64>>, rng: &mut StdRng) -> (r: Result<
        RelinearizationKey1,
        KeyGenError,
    >)
        ensures
            !self.usable_under(self.poly.q as int) <==> r == Err::<
                RelinearizationKey1,
                KeyGenError,
            >(KeyGenError::ConfigurationError),
            (self.usable_under(self.poly.q as int) && !noise_fits(
                noise@,
                digit_count_of(self.poly.q as int),
                self.poly.coeffs.len() as int,
            )) <==> r == Err::<RelinearizationKey1, KeyGenError>(KeyGenError::DimensionMismatch),
            (self.usable_under(self.poly.q as int) && noise_fits(
                noise@,
                digit_count_of(self.poly.q as int),
                self.poly.coeffs.len() as int,
            )) ==> r is Ok,
            r is Err ==> *final(rng) == *old(rng),
            r is Ok ==> r->Ok_0.is_key_for(
                self.secret_under(self.poly.q as int),
                noise_residues(noise@, self.poly.q as int),
                self.poly.q as int,
            ),
    {
        let q = self.poly.q;
        let n = self.poly.coeffs.len();
        if q <= 1 || n == 0 {
            return Err(KeyGenError::ConfigurationError);
        }
        let base = match digit_base(q) {
            Ok(b) => b,
            Err(e) => return Err(e),
        };
        proof {
            assert(base <= q) by (nonlinear_arith)
                requires
                    is_ceil_sqrt(base as int, q as int),
                    q > 1,
            ;
        }
        self.relinearization_key_gen_1_with_base(base, noise, rng)
    }

    /// A digit-decomposition relinearization key modulo the secret's own
    /// modulus `q` for a chosen base `T` with `1 < T <= q`: `l =
    /// floor(log_T(q))` pairs, and pair `i` is `(-(a_i*s + e_i) + T^i * s^2,
    /// a_i)` with `a_i` drawn uniformly and `e_i = noise[i]`. A base outside
    /// that range would leave no digit and is a configuration error.
    pub fn relinearization_key_gen_1_with_base(
        &self,
        base: i64,
        noise: &Vec<Vec<i64>>,
        rng: &mut StdRng,
    ) -> (r: Result<RelinearizationKey1, KeyGenError>)
        ensures
            (!self.usable_under(self.poly.q as int) || base <= 1 || base > self.poly.q) <==> r
                == Err::<RelinearizationKey1, KeyGenError>(KeyGenError::ConfigurationError),
            (self.usable_under(self.poly.q as int) && 1 < base <= self.poly.q && !noise_fits(
                noise@,
                floor_log(base as int, self.poly.q as int),
                self.poly.coeffs.len() as int,
            )) <==> r == Err::<RelinearizationKey1, KeyGenError>(KeyGenError::DimensionMismatch),
            (self.usable_under(self.poly.q as int) && 1 < base <= self.poly.q && noise_fits(
                noise@,
                floor_log(base as int, self.poly.q as int),
                self.poly.coeffs.len() as int,
            )) ==> r is Ok,
            r is Err ==> *final(rng) == *old(rng),
            r is Ok ==> r->Ok_0.base == base && r->Ok_0.is_key_with_base(
                self.secret_under(self.poly.q as int),
                noise_residues(noise@, self.poly.q as int),
                self.poly.q as int,
            ),
    {
        let q = self.poly.q;
        let n = self.poly.coeffs.len();
        if q <= 1 || n == 0 || base <= 1 || base > q {
            return Err(KeyGenError::ConfigurationError);
        }
        let l = match digit_count(q, base) {
            Ok(l) => l,
            Err(e) => return Err(e),
        };
        proof {
            lemma_floor_log_unique(l as int, floor_log(base as int, q as int), base as int, q as int);
        }
        let count = l as usize;
        if !noise_matches(noise, count, n) {
            return Err(KeyGenError::DimensionMismatch);
        }
        let s = self.poly_under(q);
        let ghost sr = self.secret_under(q as int);
        let ghost nr = noise_residues(noise@, q as int);
        let mut rlk: Vec<(Poly, Poly)> = Vec::new();
        let mut factor: i64 = 1;
        proof {
            lemma_pow0(base as int);
        }
        for i in 0..count
            invariant
                count == l,
                1 < base,
                q > 1,
                s.q == q,
                s.coeffs@ == self.poly.coeffs@,
                sr == s.view_residues(),
                n == s.coeffs.len(),
                noise_fits(noise@, l as int, n as int),
                nr == noise_residues(noise@, q as int),
                is_floor_log(l as int, base as int, q as int),
                i < count ==> factor as int == pow(base as int, i as nat),
                rlk.len() == i,
                forall|j: int|
                    0 <= j < i ==> encodes(
                        #[trigger] rlk@[j].0,
                        rlk@[j].1,
                        sr,
                        nr[j],
                        pow(base as int, j as nat),
                        q as int,
                    ),
        {
            let a = uniform_poly(n, q, rng);
            let e = Poly { coeffs: noise[i].clone(), q };
            assert(e.coeffs@ =~= noise@[i as int]@);
            let k0 = key_switch_pair(&s, &a, &e, factor);
            rlk.push((k0, a));
            if i + 1 < count {
                proof {
                    lemma_pow_increases(base as nat, (i + 1) as nat, l as nat);
                    lemma_pow_adds(base as int, i as nat, 1);
                    lemma_pow1(base as int);
                    lemma_pow_positive(base as int, i as nat);
                    assert(factor * base == pow(base as int, (i + 1) as nat));
                    assert(pow(base as int, (i + 1) as nat) <= q);
                }
                factor = factor * base;
            }
        }
        Ok(RelinearizationKey1 { rlk, base, l })
    }

    /// A relinearization key under the raised modulus `p*q`, where `q` is the
    /// secret's own modulus: `(-(a*s + e) + p * s^2, a)` with `a` drawn
    /// uniformly modulo `p*q` and `e` the given noise.
    pub fn relinearization_key_gen_2(&self, noise: &Vec<i64>, rng: &mut StdRng, p: i64) -> (r:
        Result<RelinearizationKey2, KeyGenError>)
        ensures
            (!self.usable_under(self.poly.q as int) || p < 1) <==> r == Err::<
                RelinearizationKey2,
                KeyGenError,
            >(KeyGenError::ConfigurationError),
            (self.usable_under(self.poly.q as int) && p >= 1 && p * self.poly.q > i64::MAX)
                <==> r == Err::<RelinearizationKey2, KeyGenError>(
                KeyGenError::ArithmeticRangeError,
            ),
            (self.usable_under(self.poly.q as int) && p >= 1 && p * self.poly.q <= i64::MAX
                && noise.len() != self.poly.coeffs.len()) <==> r == Err::<
                RelinearizationKey2,
                KeyGenError,
            >(KeyGenError::DimensionMismatch),
            (self.usable_under(self.poly.q as int) && p >= 1 && p * self.poly.q <= i64::MAX
                && noise.len() == self.poly.coeffs.len()) ==> r is Ok,
            r is Err ==> *final(rng) == *old(rng),
            r is Ok ==> r->Ok_0.p == p && r->Ok_0.is_key_for(
                self.secret_under(p * self.poly.q),
                residues(noise@, p * self.poly.q),
                self.poly.q as int,
            ),
    {
        let q = self.poly.q;
        let n = self.poly.coeffs.len();
        if q <= 1 || n == 0 || p < 1 {
            return Err(KeyGenError::ConfigurationError);
        }
        assert(p * q >= q) by (nonlinear_arith)
            requires
                p >= 1,
                q > 1,
        ;
        let pq = match p.checked_mul(q) {
            Some(v) => v,
            None => return Err(KeyGenError::ArithmeticRangeError),
        };
        if noise.len() != n {
            return Err(KeyGenError::DimensionMismatch);
        }
        let s = self.poly_under(pq);
        let e = Poly { coeffs: noise.clone(), q: pq };
        assert(e.coeffs@ =~= noise@);
        let a = uniform_poly(n, pq, rng);
        let rlk_0 = key_switch_pair(&s, &a, &e, p);
        Ok(RelinearizationKey2 { rlk_0, rlk_1: a, p })
    }
}


/// Digit reconstruction: for each digit `i` of a digit-decomposition key,
/// `rlk_i + a_i*s = base^i * s^2 - e_i` modulo `q`.
pub proof fn lemma_digit_key_reconstructs(
    k: RelinearizationKey1,
    s: Seq<int>,
    noise: Seq<Seq<int>>,
    q: int,
)
    requires
        q > 1,
        k.is_key_with_base(s, noise, q),
    ensures
        forall|i: int|
            0 <= i < k.l ==> ring_add(
                (#[trigger] k.rlk@[i]).0.view_residues(),
                ring_mul(k.rlk@[i].1.view_residues(), s, q),
                q,
            ) == scaled_square_minus(s, noise[i], pow(k.base as int, i as nat), q),
{
    assert forall|i: int| 0 <= i < k.l implies ring_add(
        (#[trigger] k.rlk@[i]).0.view_residues(),
        ring_mul(k.rlk@[i].1.view_residues(), s, q),
        q,
    ) == scaled_square_minus(s, noise[i], pow(k.base as int, i as nat), q) by {
        assert(encodes(
            k.rlk@[i].0,
            k.rlk@[i].1,
            s,
            noise[i],
            pow(k.base as int, i as nat),
            q,
        ));
        lemma_switching_term_reconstructs(
            s,
            k.rlk@[i].1.view_residues(),
            noise[i],
            pow(k.base as int, i as nat),
            q,
        );
    }
}

/// A single-pair key is digit 0 of a digit decomposition, whatever the base:
/// `ek_0 = -(ek_1*s + e) + base^0 * s^2`, so `ek_0 + ek_1*s = s^2 - e`
/// modulo `q`.
pub proof fn lemma_simple_key_reconstructs(
    k: RelinearizationKeySimple,
    s: Seq<int>,
    e: Seq<int>,
    q: int,
    base: int,
)
    requires
        q > 1,
        k.is_key_for(s, e, q),
    ensures
        encodes(k.ek_0, k.ek_1, s, e, pow(base, 0), q),
        ring_add(k.ek_0.view_residues(), ring_mul(k.ek_1.view_residues(), s, q), q)
            == scaled_square_minus(s, e, 1, q),
{
    lemma_pow0(base);
    lemma_switching_term_reconstructs(s, k.ek_1.view_residues(), e, 1, q);
}

/// A raised-modulus key works modulo `p*q`: `rlk_1` was drawn modulo `p*q`,
/// and `rlk_0 + rlk_1*s = p * s^2 - e` modulo `p*q`.
pub proof fn lemma_raised_key_reconstructs(
    k: RelinearizationKey2,
    s: Seq<int>,
    e: Seq<int>,
    q: int,
)
    requires
        q > 1,
        k.is_key_for(s, e, q),
    ensures
        k.rlk_1.q == k.p * q,
        k.rlk_0.q == k.p * q,
        ring_add(
            k.rlk_0.view_residues(),
            ring_mul(k.rlk_1.view_residues(), s, k.p * q),
            k.p * q,
        ) == scaled_square_minus(s, e, k.p as int, k.p * q),
{
    assert(k.p * q > 1) by (nonlinear_arith)
        requires
            k.p >= 1,
            q > 1,
    ;
    lemma_switching_term_reconstructs(s, k.rlk_1.view_residues(), e, k.p as int, k.p * q);
}


proof fn lemma_coeff_mask(x: int, e: int, q: int)
    requires
        q > 0,
    ensures
        ((-((x + e) % q)) % q + x) % q == (-e) % q,
{
    lemma_sub_mod_noop_right(0, x + e, q);
    assert(0 - (x + e) == -(x + e));
    assert(0 - ((x + e) % q) == -((x + e) % q));
    let m = (-((x + e) % q)) % q;
    lemma_add_mod_noop_right(x, -(x + e), q);
    assert(m + x == x + m);
    assert(x + -(x + e) == -e);
}

/// A public key hides its secret behind noise alone: `p_0 + p_1*s = -e`
/// modulo `q`.
pub proof fn lemma_public_key_reconstructs(k: PublicKey, s: Seq<int>, e: Seq<int>, q: int)
    requires
        q > 1,
        k.is_key_for(s, e, q),
    ensures
        ring_add(k.p_0.view_residues(), ring_mul(k.p_1.view_residues(), s, q), q) == ring_neg(e, q),
{
    let a = k.p_1.view_residues();
    let lhs = ring_add(k.p_0.view_residues(), ring_mul(a, s, q), q);
    assert forall|i: int| 0 <= i < s.len() implies lhs[i] == ring_neg(e, q)[i] by {
        lemma_coeff_mask(ring_mul(a, s, q)[i], e[i], q);
    }
    assert(lhs =~= ring_neg(e, q));
}

} // verus!
