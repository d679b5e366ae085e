//! Binary labels, the Lagrange basis polynomial of the boolean hypercube and
//! multilinear extensions of value tables.
use vstd::prelude::*;
use vstd::arithmetic::div_mod::lemma_small_mod;
use crate::field::{fadd, fmul, fsub, valid_modulus, add_mod, mul_mod, sub_mod};

verus! {

pub open spec fn two_pow(n: nat) -> nat
    decreases n,
{
    if n == 0 {
        1
    } else {
        2 * two_pow((n - 1) as nat)
    }
}

/// The little-endian label of `n` on `w` bits: entry `j` is bit `j` of `n`.
pub open spec fn label_bits(n: nat, w: nat) -> Seq<u64>
    decreases w,
{
    if w == 0 {
        Seq::<u64>::empty()
    } else {
        seq![(n % 2) as u64] + label_bits(n / 2, (w - 1) as nat)
    }
}

pub open spec fn is_bool_vec(s: Seq<u64>) -> bool {
    forall|i: int| 0 <= i < s.len() ==> (#[trigger] s[i] == 0 || s[i] == 1)
}

/// Every entry of `s` is reduced modulo `p`.
pub open spec fn all_reduced(s: Seq<u64>, p: u64) -> bool {
    forall|i: int| 0 <= i < s.len() ==> #[trigger] s[i] < p
}

/// One factor of the basis polynomial: `x` where the bit is one, `1 - x` elsewhere.
pub open spec fn eq_factor(b: u64, x: u64, p: int) -> int {
    if b == 1 {
        x as int
    } else {
        fsub(1, x as int, p)
    }
}

/// The product of the first `k` factors of the basis polynomial.
pub open spec fn eq_prefix(bits: Seq<u64>, pt: Seq<u64>, k: nat, p: int) -> int
    decreases k,
{
    if k == 0 {
        1int % p
    } else {
        fmul(eq_prefix(bits, pt, (k - 1) as nat, p), eq_factor(bits[k - 1], pt[k - 1], p), p)
    }
}

/// `eq(bits, pt)`: the multilinear polynomial that is one at `bits` and zero
/// at every other point of the hypercube, evaluated at `pt`.
pub open spec fn eq_poly(bits: Seq<u64>, pt: Seq<u64>, p: int) -> int {
    eq_prefix(bits, pt, bits.len(), p)
}

/// The sum of `vals[j] * eq(label(j), pt)` over the first `k` entries.
pub open spec fn mle_prefix(vals: Seq<u64>, pt: Seq<u64>, n: nat, k: nat, p: int) -> int
    decreases k,
{
    if k == 0 {
        0
    } else {
        fadd(
            mle_prefix(vals, pt, n, (k - 1) as nat, p),
            fmul(vals[k - 1] as int, eq_poly(label_bits((k - 1) as nat, n), pt, p), p),
            p,
        )
    }
}

/// The multilinear extension of the table `vals`, whose entry `j` sits at
/// the `n`-bit label of `j`, evaluated at `pt`.
pub open spec fn mle_eval(vals: Seq<u64>, pt: Seq<u64>, n: nat, p: int) -> int {
    mle_prefix(vals, pt, n, vals.len(), p)
}

/// The `w`-bit little-endian label of `n`.
pub fn into_bit_arr(n: usize, w: usize) -> (r: Vec<u64>)
    ensures
        r@ == label_bits(n as nat, w as nat),
{
    let mut v: Vec<u64> = Vec::new();
    let mut m: usize = n;
    let mut j: usize = 0;
    while j < w
        invariant
            j <= w,
            v@ + label_bits(m as nat, (w - j) as nat) == label_bits(n as nat, w as nat),
        decreases w - j,
    {
        let bit: u64 = (m % 2) as u64;
        let ghost old_v = v@;
        v.push(bit);
        proof {
            let rest = label_bits((m / 2) as nat, (w - j - 1) as nat);
            assert(label_bits(m as nat, (w - j) as nat) == seq![bit] + rest);
            assert(old_v + (seq![bit] + rest) =~= v@ + rest);
        }
        m = m / 2;
        j = j + 1;
    }
    assert(v@ + label_bits(m as nat, 0) =~= v@);
    v
}

/// Evaluates `eq(bits, pt)` as the product of its factors.
pub fn mle_interpolate(bits: &[u64], pt: &[u64], p: u64) -> (r: u64)
    requires
        valid_modulus(p),
        bits@.len() == pt@.len(),
        all_reduced(pt@, p),
    ensures
        r == eq_poly(bits@, pt@, p as int),
        r < p,
{
    let mut acc: u64 = 1 % p;
    let mut i: usize = 0;
    while i < bits.len()
        invariant
            valid_modulus(p),
            bits@.len() == pt@.len(),
            all_reduced(pt@, p),
            i <= bits@.len(),
            acc == eq_prefix(bits@, pt@, i as nat, p as int),
            acc < p,
        decreases bits@.len() - i,
    {
        let x: u64 = pt[i];
        let f: u64 = if bits[i] == 1 {
            x
        } else {
            sub_mod(1, x, p)
        };
        acc = mul_mod(acc, f, p);
        i = i + 1;
    }
    acc
}

/// Evaluates the multilinear extension of `vals` at `pt`, labels on `n` bits.
pub fn mle_values(vals: &Vec<u64>, pt: &[u64], n: usize, p: u64) -> (r: u64)
    requires
        valid_modulus(p),
        pt@.len() == n,
        all_reduced(vals@, p),
        all_reduced(pt@, p),
    ensures
        r == mle_eval(vals@, pt@, n as nat, p as int),
        r < p,
{
    let mut acc: u64 = 0;
    let mut k: usize = 0;
    while k < vals.len()
        invariant
            valid_modulus(p),
            pt@.len() == n,
            all_reduced(vals@, p),
            all_reduced(pt@, p),
            k <= vals@.len(),
            acc == mle_prefix(vals@, pt@, n as nat, k as nat, p as int),
            acc < p,
        decreases vals@.len() - k,
    {
        let lbl = into_bit_arr(k, n);
        proof {
            lemma_label_len(k as nat, n as nat);
        }
        let e = mle_interpolate(lbl.as_slice(), pt, p);
        let term = mul_mod(vals[k], e, p);
        acc = add_mod(acc, term, p);
        k = k + 1;
    }
    acc
}

pub proof fn lemma_two_pow_mono(a: nat, b: nat)
    requires
        a <= b,
    ensures
        two_pow(a) <= two_pow(b),
    decreases b,
{
    if a < b {
        lemma_two_pow_mono(a, (b - 1) as nat);
    }
}

pub proof fn lemma_two_pow_add(a: nat, b: nat)
    ensures
        two_pow(a + b) == two_pow(a) * two_pow(b),
    decreases a,
{
    if a > 0 {
        lemma_two_pow_add((a - 1) as nat, b);
        assert(two_pow(a + b) == 2 * two_pow((a - 1 + b) as nat));
        let x = two_pow((a - 1) as nat);
        let y = two_pow(b);
        assert(2 * (x * y) == (2 * x) * y) by (nonlinear_arith);
    } else {
        assert(two_pow(0) == 1);
        assert(a + b == b);
    }
}

pub proof fn lemma_two_pow_64()
    ensures
        two_pow(64) == 0x1_0000_0000_0000_0000,
{
    reveal_with_fuel(two_pow, 9);
    assert(two_pow(8) == 256);
    lemma_two_pow_add(8, 8);
    assert(two_pow(16) == 0x1_0000);
    lemma_two_pow_add(16, 16);
    assert(two_pow(32) == 0x1_0000_0000);
    lemma_two_pow_add(32, 32);
}

pub proof fn lemma_label_len(n: nat, w: nat)
    ensures
        label_bits(n, w).len() == w,
        is_bool_vec(label_bits(n, w)),
    decreases w,
{
    if w > 0 {
        lemma_label_len(n / 2, (w - 1) as nat);
        let s = label_bits(n, w);
        assert forall|i: int| 0 <= i < s.len() implies (#[trigger] s[i] == 0 || s[i] == 1) by {
            if i > 0 {
                assert(s[i] == label_bits(n / 2, (w - 1) as nat)[i - 1]);
            }
        }
    }
}

proof fn lemma_eq_prefix_basis(b: Seq<u64>, c: Seq<u64>, k: nat, p: int)
    requires
        p >= 2,
        b.len() == c.len(),
        k <= b.len(),
        is_bool_vec(b),
        is_bool_vec(c),
    ensures
        eq_prefix(b, c, k, p) == (if b.subrange(0, k as int) == c.subrange(0, k as int) {
            1int
        } else {
            0int
        }),
    decreases k,
{
    if k == 0 {
        lemma_small_mod(1, p as nat);
        assert(b.subrange(0, 0) =~= c.subrange(0, 0));
    } else {
        let j = (k - 1) as int;
        lemma_eq_prefix_basis(b, c, (k - 1) as nat, p);
        assert(b[j] == 0 || b[j] == 1);
        assert(c[j] == 0 || c[j] == 1);
        lemma_small_mod(1, p as nat);
        lemma_small_mod(0, p as nat);
        let f = eq_factor(b[j], c[j], p);
        assert(f == if b[j] == c[j] { 1int } else { 0int });
        let prev = eq_prefix(b, c, (k - 1) as nat, p);
        assert(prev * f == 0 || prev * f == 1);
        if b.subrange(0, k as int) == c.subrange(0, k as int) {
            assert(b.subrange(0, j) =~= b.subrange(0, k as int).subrange(0, j));
            assert(c.subrange(0, j) =~= c.subrange(0, k as int).subrange(0, j));
            assert(b.subrange(0, k as int)[j] == b[j]);
            assert(c.subrange(0, k as int)[j] == c[j]);
        } else {
            if b.subrange(0, j) == c.subrange(0, j) && b[j] == c[j] {
                assert(b.subrange(0, k as int) =~= c.subrange(0, k as int));
            }
        }
    }
}

/// The basis polynomial on boolean points is an indicator: `eq(b, c)` is one
/// when `b == c` and zero otherwise, for boolean vectors of one length.
pub proof fn lemma_eq_basis(b: Seq<u64>, c: Seq<u64>, p: int)
    requires
        p >= 2,
        b.len() == c.len(),
        is_bool_vec(b),
        is_bool_vec(c),
    ensures
        eq_poly(b, c, p) == (if b == c { 1int } else { 0int }),
{
    lemma_eq_prefix_basis(b, c, b.len(), p);
    assert(b.subrange(0, b.len() as int) =~= b);
    assert(c.subrange(0, c.len() as int) =~= c);
}

/// Distinct numbers below `2^w` have distinct `w`-bit labels.
pub proof fn lemma_label_injective(a: nat, b: nat, w: nat)
    requires
        a < two_pow(w),
        b < two_pow(w),
        label_bits(a, w) == label_bits(b, w),
    ensures
        a == b,
    decreases w,
{
    if w > 0 {
        let la = label_bits(a, w);
        let lb = label_bits(b, w);
        assert(la[0] == (a % 2) as u64);
        assert(lb[0] == (b % 2) as u64);
        assert(label_bits(a / 2, (w - 1) as nat) =~= la.subrange(1, la.len() as int));
        assert(label_bits(b / 2, (w - 1) as nat) =~= lb.subrange(1, lb.len() as int));
        lemma_label_injective(a / 2, b / 2, (w - 1) as nat);
    }
}

proof fn lemma_mle_prefix_at_label(vals: Seq<u64>, n: nat, i: nat, k: nat, p: int)
    requires
        p >= 2,
        vals.len() <= two_pow(n),
        i < vals.len(),
        k <= vals.len(),
        forall|j: int| 0 <= j < vals.len() ==> #[trigger] vals[j] < p,
    ensures
        mle_prefix(vals, label_bits(i, n), n, k, p) == (if i < k { vals[i as int] as int } else { 0int }),
    decreases k,
{
    if k > 0 {
        let j = (k - 1) as nat;
        lemma_mle_prefix_at_label(vals, n, i, j, p);
        lemma_label_len(i, n);
        lemma_label_len(j, n);
        lemma_eq_basis(label_bits(j, n), label_bits(i, n), p);
        if j == i {
            lemma_small_mod(vals[i as int] as nat, p as nat);
        } else {
            if label_bits(j, n) == label_bits(i, n) {
                lemma_label_injective(j, i, n);
            }
            lemma_small_mod(0, p as nat);
            if i < j {
                lemma_small_mod(vals[i as int] as nat, p as nat);
            }
        }
    }
}

/// The multilinear extension agrees with its table on the hypercube: at the
/// label of entry `i` it takes the value `vals[i]`.
pub proof fn lemma_mle_agrees(vals: Seq<u64>, n: nat, i: nat, p: int)
    requires
        p >= 2,
        vals.len() <= two_pow(n),
        i < vals.len(),
        forall|j: int| 0 <= j < vals.len() ==> #[trigger] vals[j] < p,
    ensures
        mle_eval(vals, label_bits(i, n), n, p) == vals[i as int],
{
    lemma_mle_prefix_at_label(vals, n, i, vals.len(), p);
}

} // verus!
