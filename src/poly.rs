//! Univariate polynomials given by their values at `0, 1, ..., d-1`, and the
//! line through two points of the field's vector space.
use vstd::prelude::*;
use crate::field::{fadd, finv, fmul, fsub, valid_modulus, add_mod, inv_mod, mul_mod, reduce, sub_mod};
use crate::mle::all_reduced;

verus! {

/// The product over the nodes `j < k` other than `i` of `(x - j)`.
pub open spec fn basis_num(i: nat, x: int, k: nat, p: int) -> int
    decreases k,
{
    if k == 0 {
        1int % p
    } else {
        let prev = basis_num(i, x, (k - 1) as nat, p);
        if (k - 1) as nat == i {
            prev
        } else {
            fmul(prev, fsub(x, (k - 1) as int % p, p), p)
        }
    }
}

/// The product over the nodes `j < k` other than `i` of `(i - j)`.
pub open spec fn basis_den(i: nat, k: nat, p: int) -> int
    decreases k,
{
    if k == 0 {
        1int % p
    } else {
        let prev = basis_den(i, (k - 1) as nat, p);
        if (k - 1) as nat == i {
            prev
        } else {
            fmul(prev, fsub(i as int % p, (k - 1) as int % p, p), p)
        }
    }
}

/// The Lagrange term of node `i`: `evals[i] * num_i(x) / den_i`.
pub open spec fn lagrange_term(evals: Seq<u64>, i: nat, x: int, p: int) -> int {
    fmul(
        fmul(evals[i as int] as int, basis_num(i, x, evals.len(), p), p),
        finv(basis_den(i, evals.len(), p), p),
        p,
    )
}

pub open spec fn interp_prefix(evals: Seq<u64>, x: int, k: nat, p: int) -> int
    decreases k,
{
    if k == 0 {
        0
    } else {
        fadd(interp_prefix(evals, x, (k - 1) as nat, p), lagrange_term(evals, (k - 1) as nat, x, p), p)
    }
}

/// The value at `x` of the polynomial of degree below `evals.len()` that
/// takes the value `evals[j]` at each node `j`.
pub open spec fn interp_eval(evals: Seq<u64>, x: int, p: int) -> int {
    interp_prefix(evals, x, evals.len(), p)
}

/// The point `r0 + t * (r1 - r0)` of the line through `r0` and `r1`.
pub open spec fn line_at(r0: Seq<u64>, r1: Seq<u64>, t: int, p: int) -> Seq<u64> {
    Seq::new(r0.len(), |k: int| fadd(r0[k] as int, fmul(t, fsub(r1[k] as int, r0[k] as int, p), p), p) as u64)
}

/// Evaluates at `x` the polynomial given by its values at the nodes `0..evals.len()`.
pub fn interpolate(evals: &[u64], x: u64, p: u64) -> (r: u64)
    requires
        valid_modulus(p),
        x < p,
        all_reduced(evals@, p),
    ensures
        r == interp_eval(evals@, x as int, p as int),
        r < p,
{
    let d = evals.len();
    let mut acc: u64 = 0;
    let mut i: usize = 0;
    while i < d
        invariant
            valid_modulus(p),
            x < p,
            all_reduced(evals@, p),
            d == evals@.len(),
            i <= d,
            acc == interp_prefix(evals@, x as int, i as nat, p as int),
            acc < p,
        decreases d - i,
    {
        let ni = reduce(i as u64, p);
        let mut num: u64 = 1 % p;
        let mut den: u64 = 1 % p;
        let mut j: usize = 0;
        while j < d
            invariant
                valid_modulus(p),
                x < p,
                i < d,
                j <= d,
                ni == (i as int) % (p as int),
                num == basis_num(i as nat, x as int, j as nat, p as int),
                den == basis_den(i as nat, j as nat, p as int),
                num < p,
                den < p,
            decreases d - j,
        {
            if j != i {
                let nj = reduce(j as u64, p);
                num = mul_mod(num, sub_mod(x, nj, p), p);
                den = mul_mod(den, sub_mod(ni, nj, p), p);
            }
            j = j + 1;
        }
        let term = mul_mod(mul_mod(evals[i], num, p), inv_mod(den, p), p);
        acc = add_mod(acc, term, p);
        i = i + 1;
    }
    acc
}

/// The point at parameter `t` on the line through `r0` (at 0) and `r1` (at 1).
pub fn line_point(r0: &[u64], r1: &[u64], t: u64, p: u64) -> (r: Vec<u64>)
    requires
        valid_modulus(p),
        t < p,
        r0@.len() == r1@.len(),
        all_reduced(r0@, p),
        all_reduced(r1@, p),
    ensures
        r@ == line_at(r0@, r1@, t as int, p as int),
        all_reduced(r@, p),
{
    let mut out: Vec<u64> = Vec::new();
    let mut k: usize = 0;
    while k < r0.len()
        invariant
            valid_modulus(p),
            t < p,
            r0@.len() == r1@.len(),
            all_reduced(r0@, p),
            all_reduced(r1@, p),
            k <= r0@.len(),
            out@ =~= line_at(r0@, r1@, t as int, p as int).subrange(0, k as int),
            all_reduced(out@, p),
        decreases r0@.len() - k,
    {
        let v = add_mod(r0[k], mul_mod(t, sub_mod(r1[k], r0[k], p), p), p);
        out.push(v);
        k = k + 1;
    }
    assert(out@ =~= line_at(r0@, r1@, t as int, p as int));
    out
}

} // verus!
