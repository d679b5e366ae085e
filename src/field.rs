//! Arithmetic modulo a prime `p` that is passed explicitly to every operation.
use vstd::prelude::*;

verus! {

/// The largest modulus accepted: products of two reduced values fit in a `u64`.
pub const MAX_MODULUS: u64 = 0x1_0000_0000;

/// A modulus that the executable operations can work with.
pub open spec fn valid_modulus(p: u64) -> bool {
    2 <= p <= MAX_MODULUS
}

/// A value reduced modulo `p`.
pub open spec fn reduced(a: u64, p: u64) -> bool {
    a < p
}

pub open spec fn fadd(a: int, b: int, p: int) -> int {
    (a + b) % p
}

pub open spec fn fsub(a: int, b: int, p: int) -> int {
    (a - b) % p
}

pub open spec fn fmul(a: int, b: int, p: int) -> int {
    (a * b) % p
}

/// `a` raised to the power `e`, reduced modulo `p`.
pub open spec fn fpow(a: int, e: nat, p: int) -> int
    decreases e,
{
    if e == 0 {
        1int % p
    } else {
        fmul(fpow(a, (e - 1) as nat, p), a, p)
    }
}

/// The inverse by Fermat's little theorem: `a^(p-2)`, meaningful for prime `p`.
pub open spec fn finv(a: int, p: int) -> int {
    fpow(a, (p - 2) as nat, p)
}

/// Reduces an arbitrary `u64` modulo `p`.
pub fn reduce(a: u64, p: u64) -> (r: u64)
    requires
        valid_modulus(p),
    ensures
        r == a % p,
        r < p,
{
    a % p
}

pub fn add_mod(a: u64, b: u64, p: u64) -> (r: u64)
    requires
        valid_modulus(p),
        a < p,
        b < p,
    ensures
        r == fadd(a as int, b as int, p as int),
        r < p,
{
    let s: u64 = a + b;
    s % p
}

pub fn sub_mod(a: u64, b: u64, p: u64) -> (r: u64)
    requires
        valid_modulus(p),
        a < p,
        b < p,
    ensures
        r == fsub(a as int, b as int, p as int),
        r < p,
{
    if a >= b {
        proof {
            vstd::arithmetic::div_mod::lemma_small_mod((a - b) as nat, p as nat);
        }
        a - b
    } else {
        let r: u64 = p - (b - a);
        assert(((a - b) as int) % (p as int) == r) by {
            vstd::arithmetic::div_mod::lemma_mod_add_multiples_vanish((a - b) as int, p as int);
            vstd::arithmetic::div_mod::lemma_small_mod(r as nat, p as nat);
        }
        r
    }
}

pub fn neg_mod(a: u64, p: u64) -> (r: u64)
    requires
        valid_modulus(p),
        a < p,
    ensures
        r == fsub(0, a as int, p as int),
        r < p,
{
    sub_mod(0, a, p)
}

pub fn mul_mod(a: u64, b: u64, p: u64) -> (r: u64)
    requires
        valid_modulus(p),
        a < p,
        b < p,
    ensures
        r == fmul(a as int, b as int, p as int),
        r < p,
{
    assert(a * b <= (MAX_MODULUS - 1) * (MAX_MODULUS - 1)) by (nonlinear_arith)
        requires
            a < MAX_MODULUS,
            b < MAX_MODULUS,
    ;
    let m: u64 = a * b;
    m % p
}

/// `a^e mod p` by square and multiply.
pub fn pow_mod(a: u64, e: u64, p: u64) -> (r: u64)
    requires
        valid_modulus(p),
        a < p,
    ensures
        r == fpow(a as int, e as nat, p as int),
        r < p,
{
    let mut r: u64 = 1 % p;
    let mut i: u64 = 0;
    while i < e
        invariant
            valid_modulus(p),
            a < p,
            i <= e,
            r == fpow(a as int, i as nat, p as int),
            r < p,
        decreases e - i,
    {
        r = mul_mod(r, a, p);
        i = i + 1;
    }
    r
}

/// The inverse of `a` modulo a prime `p`, as `a^(p-2)`.
pub fn inv_mod(a: u64, p: u64) -> (r: u64)
    requires
        valid_modulus(p),
        a < p,
    ensures
        r == finv(a as int, p as int),
        r < p,
{
    pow_mod(a, p - 2, p)
}

} // verus!
