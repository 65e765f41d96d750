//! Polynomials of the ring Z_q[x]/(x^n + 1), held as coefficient vectors.
use vstd::prelude::*;
use vstd::arithmetic::div_mod::*;

verus! {

/// A polynomial of Z_q[x]/(x^n + 1): `n` is the length of `coeffs`.
///
/// A coefficient may be any `i64`; it stands for its residue modulo `q`.
/// Every ring operation returns a polynomial whose coefficients are already
/// reduced into `[0, q)`.
#[derive(Clone, Debug)]
pub struct Poly {
    pub coeffs: Vec<i64>,
    pub q: i64,
}

/// The residues modulo `q` of a coefficient vector.
pub open spec fn residues(c: Seq<i64>, q: int) -> Seq<int> {
    Seq::new(c.len(), |i: int| (c[i] as int) % q)
}

/// Coefficient-wise negation modulo `q`.
pub open spec fn ring_neg(a: Seq<int>, q: int) -> Seq<int> {
    Seq::new(a.len(), |i: int| (-a[i]) % q)
}

/// Coefficient-wise sum modulo `q`.
pub open spec fn ring_add(a: Seq<int>, b: Seq<int>, q: int) -> Seq<int> {
    Seq::new(a.len(), |i: int| (a[i] + b[i]) % q)
}

/// Multiplication by the integer `k` modulo `q`.
pub open spec fn ring_scale(a: Seq<int>, k: int, q: int) -> Seq<int> {
    Seq::new(a.len(), |i: int| (a[i] * k) % q)
}

/// The `i`-th summand of coefficient `k` of the product modulo x^n + 1:
/// a wrapped-around term changes sign since x^n = -1.
pub open spec fn nega_term(a: Seq<int>, b: Seq<int>, k: int, i: int) -> int {
    if i <= k {
        a[i] * b[k - i]
    } else {
        -(a[i] * b[a.len() + k - i])
    }
}

/// The sum of the first `m` summands of coefficient `k` of the product.
pub open spec fn nega_sum(a: Seq<int>, b: Seq<int>, k: int, m: nat) -> int
    decreases m,
{
    if m == 0 {
        0
    } else {
        nega_sum(a, b, k, (m - 1) as nat) + nega_term(a, b, k, m - 1)
    }
}

/// The product in Z_q[x]/(x^n + 1), with n the length of `a`.
pub open spec fn ring_mul(a: Seq<int>, b: Seq<int>, q: int) -> Seq<int> {
    Seq::new(a.len(), |k: int| nega_sum(a, b, k, a.len()) % q)
}

/// Every entry lies in `[0, q)`.
pub open spec fn all_reduced(c: Seq<i64>, q: int) -> bool {
    forall|i: int| 0 <= i < c.len() ==> 0 <= #[trigger] c[i] < q
}

impl Poly {
    /// A usable polynomial: its modulus is at least 2.
    pub open spec fn wf(&self) -> bool {
        self.q > 1
    }

    /// The coefficients as residues modulo `q`.
    pub open spec fn view_residues(&self) -> Seq<int> {
        residues(self.coeffs@, self.q as int)
    }

    /// Coefficients in `[0, q)`.
    pub open spec fn is_reduced(&self) -> bool {
        all_reduced(self.coeffs@, self.q as int)
    }

    /// Two polynomials that ring operations may combine.
    pub open spec fn compatible(&self, o: &Poly) -> bool {
        self.wf() && self.q == o.q && self.coeffs.len() == o.coeffs.len()
    }

    /// The ring dimension n.
    pub fn dimension(&self) -> (r: usize)
        ensures
            r == self.coeffs.len(),
    {
        self.coeffs.len()
    }
}

/// `c mod q`, in `[0, q)`.
pub fn reduce(c: i64, q: i64) -> (r: i64)
    requires
        q > 1,
    ensures
        r == c % q,
        0 <= r < q,
{
    proof {
        lemma_mod_bound(c as int, q as int);
    }
    match c.checked_rem_euclid(q) {
        Some(r) => r,
        None => 0,
    }
}

/// The residues of `p`'s coefficients, as unsigned values below `q`.
fn reduced_coeffs(p: &Poly) -> (r: Vec<u64>)
    requires
        p.wf(),
    ensures
        r.len() == p.coeffs.len(),
        forall|i: int| 0 <= i < r.len() ==> #[trigger] r[i] as int == p.view_residues()[i],
        forall|i: int| 0 <= i < r.len() ==> #[trigger] r[i] < p.q,
{
    let mut r: Vec<u64> = Vec::new();
    let n = p.coeffs.len();
    for i in 0..n
        invariant
            n == p.coeffs.len(),
            p.wf(),
            r.len() == i,
            forall|j: int| 0 <= j < i ==> #[trigger] r[j] as int == p.view_residues()[j],
            forall|j: int| 0 <= j < i ==> #[trigger] r[j] < p.q,
    {
        let c = reduce(p.coeffs[i], p.q);
        r.push(c as u64);
    }
    r
}

/// `(s mod q + x mod q) mod q` and `(s mod q + q - x mod q) mod q` are the
/// residues of `s + x` and `s - x`.
proof fn lemma_acc_step(s: int, x: int, q: int)
    requires
        q > 0,
    ensures
        (s % q + x % q) % q == (s + x) % q,
        (s % q + (q - x % q)) % q == (s - x) % q,
{
    lemma_add_mod_noop(s, x, q);
    lemma_mod_add_multiples_vanish(s % q - x % q, q);
    assert(s % q + (q - x % q) == q + (s % q - x % q));
    lemma_sub_mod_noop(s, x, q);
}

impl Poly {
    /// The additive inverse.
    pub fn negate(&self) -> (r: Poly)
        requires
            self.wf(),
        ensures
            r.q == self.q,
            r.coeffs.len() == self.coeffs.len(),
            r.is_reduced(),
            r.view_residues() == ring_neg(self.view_residues(), self.q as int),
    {
        let a = reduced_coeffs(self);
        let q = self.q;
        let n = a.len();
        let mut out: Vec<i64> = Vec::new();
        for i in 0..n
            invariant
                n == a.len(),
                n == self.coeffs.len(),
                q == self.q,
                q > 1,
                out.len() == i,
                forall|j: int| 0 <= j < n ==> #[trigger] a[j] as int == self.view_residues()[j],
                forall|j: int| 0 <= j < n ==> #[trigger] a[j] < q,
                forall|j: int| 0 <= j < i ==> 0 <= #[trigger] out[j] < q,
                forall|j: int| 0 <= j < i ==> #[trigger] out[j] as int == (-(a[j] as int)) % (q as int),
        {
            let c = a[i];
            let v: i64 = if c == 0 { 0 } else { q - c as i64 };
            proof {
                if c == 0 {
                    assert(-(c as int) == 0);
                    lemma_small_mod(0, q as nat);
                } else {
                    lemma_fundamental_div_mod_converse_mod(-(c as int), q as int, -1, q - c);
                }
            }
            out.push(v);
        }
        let r = Poly { coeffs: out, q };
        assert(r.view_residues() =~= ring_neg(self.view_residues(), q as int)) by {
            assert forall|j: int| 0 <= j < n implies (out[j] as int) % (q as int) == out[j] by {
                lemma_small_mod(out[j] as nat, q as nat);
            }
        }
        r
    }

    /// The sum of two polynomials of one ring.
    pub fn plus(&self, o: &Poly) -> (r: Poly)
        requires
            self.compatible(o),
        ensures
            r.q == self.q,
            r.coeffs.len() == self.coeffs.len(),
            r.is_reduced(),
            r.view_residues() == ring_add(self.view_residues(), o.view_residues(), self.q as int),
    {
        let a = reduced_coeffs(self);
        let b = reduced_coeffs(o);
        let q = self.q;
        let n = a.len();
        let mut out: Vec<i64> = Vec::new();
        for i in 0..n
            invariant
                n == a.len(),
                n == b.len(),
                n == self.coeffs.len(),
                q == self.q,
                q == o.q,
                q > 1,
                out.len() == i,
                forall|j: int| 0 <= j < n ==> #[trigger] a[j] as int == self.view_residues()[j],
                forall|j: int| 0 <= j < n ==> #[trigger] a[j] < q,
                forall|j: int| 0 <= j < n ==> #[trigger] b[j] as int == o.view_residues()[j],
                forall|j: int| 0 <= j < n ==> #[trigger] b[j] < q,
                forall|j: int| 0 <= j < i ==> 0 <= #[trigger] out[j] < q,
                forall|j: int| 0 <= j < i ==> #[trigger] out[j] as int == (a[j] as int + b[j] as int) % (q as int),
        {
            let v = (a[i] + b[i]) % (q as u64);
            out.push(v as i64);
        }
        let r = Poly { coeffs: out, q };
        assert(r.view_residues() =~= ring_add(self.view_residues(), o.view_residues(), q as int)) by {
            assert forall|j: int| 0 <= j < n implies (out[j] as int) % (q as int) == out[j] by {
                lemma_small_mod(out[j] as nat, q as nat);
            }
        }
        r
    }

    /// The product of the polynomial with the integer `k`.
    pub fn scale(&self, k: i64) -> (r: Poly)
        requires
            self.wf(),
        ensures
            r.q == self.q,
            r.coeffs.len() == self.coeffs.len(),
            r.is_reduced(),
            r.view_residues() == ring_scale(self.view_residues(), k as int, self.q as int),
    {
        let a = reduced_coeffs(self);
        let q = self.q;
        let kr = reduce(k, q) as u64;
        let n = a.len();
        let mut out: Vec<i64> = Vec::new();
        for i in 0..n
            invariant
                n == a.len(),
                n == self.coeffs.len(),
                q == self.q,
                q > 1,
                kr as int == (k as int) % (q as int),
                kr < q,
                out.len() == i,
                forall|j: int| 0 <= j < n ==> #[trigger] a[j] as int == self.view_residues()[j],
                forall|j: int| 0 <= j < n ==> #[trigger] a[j] < q,
                forall|j: int| 0 <= j < i ==> 0 <= #[trigger] out[j] < q,
                forall|j: int| 0 <= j < i ==> #[trigger] out[j] as int == (a[j] as int * k as int) % (q as int),
        {
            let ai = a[i];
            assert((ai as int) * (kr as int) <= 0xffff_ffff_ffff_ffff * 0xffff_ffff_ffff_ffff)
                by (nonlinear_arith)
                requires
                    ai <= 0xffff_ffff_ffff_ffffu64,
                    kr <= 0xffff_ffff_ffff_ffffu64,
            ;
            let v = (ai as u128 * kr as u128) % (q as u128);
            proof {
                lemma_mul_mod_noop_right(ai as int, k as int, q as int);
            }
            out.push(v as i64);
        }
        let r = Poly { coeffs: out, q };
        assert(r.view_residues() =~= ring_scale(self.view_residues(), k as int, q as int)) by {
            assert forall|j: int| 0 <= j < n implies (out[j] as int) % (q as int) == out[j] by {
                lemma_small_mod(out[j] as nat, q as nat);
            }
        }
        r
    }

    /// The product of two polynomials of one ring, reduced modulo x^n + 1.
    pub fn times(&self, o: &Poly) -> (r: Poly)
        requires
            self.compatible(o),
        ensures
            r.q == self.q,
            r.coeffs.len() == self.coeffs.len(),
            r.is_reduced(),
            r.view_residues() == ring_mul(self.view_residues(), o.view_residues(), self.q as int),
    {
        let a = reduced_coeffs(self);
        let b = reduced_coeffs(o);
        let q = self.q;
        let qq = q as u128;
        let n = a.len();
        let ghost ar = self.view_residues();
        let ghost br = o.view_residues();
        let mut out: Vec<i64> = Vec::new();
        for k in 0..n
            invariant
                n == a.len(),
                n == b.len(),
                n == self.coeffs.len(),
                ar == self.view_residues(),
                br == o.view_residues(),
                ar.len() == n,
                br.len() == n,
                q == self.q,
                q == o.q,
                qq == q,
                q > 1,
                out.len() == k,
                forall|j: int| 0 <= j < n ==> #[trigger] a[j] as int == ar[j],
                forall|j: int| 0 <= j < n ==> #[trigger] a[j] < q,
                forall|j: int| 0 <= j < n ==> #[trigger] b[j] as int == br[j],
                forall|j: int| 0 <= j < n ==> #[trigger] b[j] < q,
                forall|j: int| 0 <= j < k ==> 0 <= #[trigger] out[j] < q,
                forall|j: int|
                    0 <= j < k ==> #[trigger] out[j] as int == nega_sum(ar, br, j, n as nat) % (q as int),
        {
            let mut acc: u128 = 0;
            proof {
                lemma_small_mod(0, q as nat);
            }
            for i in 0..n
                invariant
                    n == a.len(),
                    n == b.len(),
                    ar.len() == n,
                    br.len() == n,
                    0 <= k < n,
                    qq == q,
                    q > 1,
                    forall|j: int| 0 <= j < n ==> #[trigger] a[j] as int == ar[j],
                    forall|j: int| 0 <= j < n ==> #[trigger] a[j] < q,
                    forall|j: int| 0 <= j < n ==> #[trigger] b[j] as int == br[j],
                    forall|j: int| 0 <= j < n ==> #[trigger] b[j] < q,
                    acc < qq,
                    acc as int == nega_sum(ar, br, k as int, i as nat) % (q as int),
            {
                let ai = a[i];
                let bj = if i <= k { b[k - i] } else { b[n - i + k] };
                assert((ai as int) * (bj as int) <= 0xffff_ffff_ffff_ffff * 0xffff_ffff_ffff_ffff)
                    by (nonlinear_arith)
                    requires
                        ai <= 0xffff_ffff_ffff_ffffu64,
                        bj <= 0xffff_ffff_ffff_ffffu64,
                ;
                let prod = ai as u128 * bj as u128;
                let t = prod % qq;
                let ghost s_prev = nega_sum(ar, br, k as int, i as nat);
                proof {
                    lemma_acc_step(s_prev, prod as int, q as int);
                }
                if i <= k {
                    acc = (acc + t) % qq;
                } else {
                    acc = (acc + (qq - t)) % qq;
                }
                assert(nega_sum(ar, br, k as int, (i + 1) as nat) == s_prev + nega_term(ar, br, k as int, i as int));
            }
            out.push(acc as i64);
        }
        let r = Poly { coeffs: out, q };
        assert(r.view_residues() =~= ring_mul(ar, br, q as int)) by {
            assert forall|j: int| 0 <= j < n implies (out[j] as int) % (q as int) == out[j] by {
                lemma_small_mod(out[j] as nat, q as nat);
            }
        }
        r
    }
}

} // verus!
