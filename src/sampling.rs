//! Uniform sampling of polynomials from a cryptographically secure generator.
use vstd::prelude::*;
use rand::Rng;
use rand::rngs::StdRng;
use crate::poly::{Poly, all_reduced};

verus! {

/// rand's `StdRng`, a cryptographically secure generator, carried through
/// the sampling functions as an opaque value.
#[verifier::external_type_specification]
#[verifier::external_body]
pub struct ExStdRng(StdRng);

/// Relies on rand's `Rng::gen_range` over `0..bound`: a value drawn uniformly
/// from the half-open range; the range must not be empty.
#[verifier::external_body]
fn draw_below(rng: &mut StdRng, bound: u64) -> (r: u64)
    requires
        bound > 0,
    ensures
        r < bound,
{
    rng.gen_range(0..bound)
}

/// Every coefficient lies in {-1, 0, 1}.
pub open spec fn is_ternary(c: Seq<i64>) -> bool {
    forall|i: int| 0 <= i < c.len() ==> -1 <= #[trigger] c[i] <= 1
}

/// A polynomial of modulus `q` whose `dimension` coefficients are drawn
/// uniformly from `[0, q)`.
pub fn uniform_poly(dimension: usize, q: i64, rng: &mut StdRng) -> (r: Poly)
    requires
        q > 1,
    ensures
        r.q == q,
        r.coeffs.len() == dimension,
        r.is_reduced(),
{
    let mut coeffs: Vec<i64> = Vec::new();
    for i in 0..dimension
        invariant
            q > 1,
            coeffs.len() == i,
            all_reduced(coeffs@, q as int),
    {
        let c = draw_below(rng, q as u64);
        coeffs.push(c as i64);
    }
    Poly { coeffs, q }
}

/// A polynomial of modulus `q` whose `dimension` coefficients are drawn
/// uniformly from {-1, 0, 1}.
pub fn ternary_poly(dimension: usize, q: i64, rng: &mut StdRng) -> (r: Poly)
    ensures
        r.q == q,
        r.coeffs.len() == dimension,
        is_ternary(r.coeffs@),
{
    let mut coeffs: Vec<i64> = Vec::new();
    for i in 0..dimension
        invariant
            coeffs.len() == i,
            is_ternary(coeffs@),
    {
        let c = draw_below(rng, 3);
        coeffs.push(c as i64 - 1);
    }
    Poly { coeffs, q }
}

} // verus!
