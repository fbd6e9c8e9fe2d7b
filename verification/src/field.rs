//! Arithmetic in the prime field of integers modulo `p`, with elements
//! carried as `u64` values strictly below `p`, together with the batched
//! inversion primitive (Montgomery's trick) used by the trace generator.

use vstd::arithmetic::div_mod::{
    lemma_fundamental_div_mod, lemma_mod_add_multiples_vanish, lemma_mod_bound,
    lemma_mul_mod_noop, lemma_mul_mod_noop_left, lemma_mul_mod_noop_right, lemma_small_mod,
    lemma_sub_mod_noop,
};
use vstd::prelude::*;

verus! {

/// Product as a named function, so that quantifiers over divisibility
/// witnesses have a syntactic trigger.
spec fn times(a: int, b: int) -> int {
    a * b
}

/// `d` divides `n` over the integers.
spec fn divides(d: int, n: int) -> bool {
    exists|k: int| n == #[trigger] times(d, k)
}

/// `a` has a multiplicative inverse modulo `p`.
pub open spec fn has_inverse(a: int, p: int) -> bool {
    exists|w: int| 0 <= w < p && #[trigger] ((a * w) % p) == 1
}

/// The canonical inverse of `a` modulo `p`; meaningful under `has_inverse`.
pub open spec fn inv_mod(a: int, p: int) -> int {
    choose|w: int| 0 <= w < p && #[trigger] ((a * w) % p) == 1
}

/// `r^k mod p`, with `r^0 = 1 mod p`.
pub open spec fn pow_mod_spec(r: int, k: nat, p: int) -> int
    decreases k,
{
    if k == 0 {
        1int % p
    } else {
        (pow_mod_spec(r, (k - 1) as nat, p) * r) % p
    }
}

/// `(a * b) mod p`.
pub fn mul_mod(a: u64, b: u64, p: u64) -> (r: u64)
    requires
        1 <= p,
    ensures
        r as int == (a as int * b as int) % (p as int),
        r < p,
{
    proof {
        vstd::arithmetic::mul::lemma_mul_upper_bound(
            a as int,
            u64::MAX as int,
            b as int,
            u64::MAX as int,
        );
    }
    let prod: u128 = (a as u128) * (b as u128);
    let r: u128 = prod % (p as u128);
    proof {
        lemma_mod_bound(prod as int, p as int);
    }
    r as u64
}

/// `(a + b) mod p`.
pub fn add_mod(a: u64, b: u64, p: u64) -> (r: u64)
    requires
        1 <= p,
    ensures
        r as int == (a as int + b as int) % (p as int),
        r < p,
{
    let s: u128 = (a as u128) + (b as u128);
    let r: u128 = s % (p as u128);
    proof {
        lemma_mod_bound(s as int, p as int);
    }
    r as u64
}

/// `(a - b) mod p`, for reduced operands.
pub fn sub_mod(a: u64, b: u64, p: u64) -> (r: u64)
    requires
        1 <= p,
        a < p,
        b < p,
    ensures
        r as int == (a as int - b as int) % (p as int),
        r < p,
{
    let s: u128 = (a as u128) + (p as u128) - (b as u128);
    let r: u128 = s % (p as u128);
    proof {
        lemma_mod_add_multiples_vanish(a as int - b as int, p as int);
        lemma_mod_bound(s as int, p as int);
    }
    r as u64
}

/// `r^k mod p` by repeated multiplication.
pub fn pow_mod(r: u64, k: u64, p: u64) -> (res: u64)
    requires
        1 <= p,
    ensures
        res as int == pow_mod_spec(r as int, k as nat, p as int),
        res < p,
{
    let mut acc: u64 = 1 % p;
    let mut i: u64 = 0;
    while i < k
        invariant
            1 <= p,
            i <= k,
            acc < p,
            acc as int == pow_mod_spec(r as int, i as nat, p as int),
        decreases k - i,
    {
        acc = mul_mod(acc, r, p);
        i = i + 1;
    }
    acc
}

/// Any two inverses of `a` modulo `p` coincide, so `inv_mod` names the one
/// inverse of an invertible element.
pub proof fn lemma_inverse_unique(a: int, p: int, x: int, y: int)
    requires
        1 <= p,
        0 <= x < p,
        0 <= y < p,
        (a * x) % p == 1,
        (a * y) % p == 1,
    ensures
        x == y,
{
    lemma_small_mod(x as nat, p as nat);
    lemma_small_mod(y as nat, p as nat);
    lemma_mul_mod_noop_right(x, a * y, p);
    assert(x * (a * y) == (a * x) * y) by (nonlinear_arith);
    lemma_mul_mod_noop_left(a * x, y, p);
    assert((x * ((a * y) % p)) % p == ((a * x) % p * y) % p);
    assert((x * 1) % p == x);
    assert((1 * y) % p == y);
}

/// For an invertible `a`, `inv_mod(a, p)` is reduced and inverts `a`.
pub proof fn lemma_inv_mod_works(a: int, p: int)
    requires
        1 <= p,
        has_inverse(a, p),
    ensures
        0 <= inv_mod(a, p) < p,
        (a * inv_mod(a, p)) % p == 1,
{
    let w = choose|w: int| 0 <= w < p && #[trigger] ((a * w) % p) == 1;
    assert(0 <= w < p && (a * w) % p == 1);
}

/// A common divisor `d >= 2` of two values also divides any combination
/// `a + q * b`.
proof fn lemma_divides_combo(d: int, a: int, b: int, q: int)
    requires
        divides(d, a),
        divides(d, b),
    ensures
        divides(d, a + q * b),
{
    let ka = choose|k: int| a == #[trigger] times(d, k);
    let kb = choose|k: int| b == #[trigger] times(d, k);
    assert(a + q * b == d * (ka + q * kb)) by (nonlinear_arith)
        requires
            a == d * ka,
            b == d * kb,
    ;
    assert(a + q * b == times(d, ka + q * kb));
}

/// A modulus and an element with a common divisor of two or more admit no
/// inverse.
proof fn lemma_common_divisor_no_inverse(g: int, v: int, p: int)
    requires
        2 <= g,
        1 <= p,
        divides(g, v),
        divides(g, p),
    ensures
        !has_inverse(v, p),
{
    if has_inverse(v, p) {
        let w = choose|w: int| 0 <= w < p && #[trigger] ((v * w) % p) == 1;
        lemma_fundamental_div_mod(v * w, p);
        let q = (v * w) / p;
        let kv = choose|k: int| v == #[trigger] times(g, k);
        let kp = choose|k: int| p == #[trigger] times(g, k);
        let t = kv * w - kp * q;
        assert(g * t == 1) by (nonlinear_arith)
            requires
                v == g * kv,
                p == g * kp,
                v * w == p * q + 1,
                t == kv * w - kp * q,
        ;
        assert(false) by (nonlinear_arith)
            requires
                2 <= g,
                g * t == 1,
        ;
    }
}

/// The multiplicative inverse of `v` modulo `p`, by the extended Euclidean
/// algorithm with coefficients tracked modulo `p`.
pub fn inverse(v: u64, p: u64) -> (r: u64)
    requires
        2 <= p,
        v < p,
        has_inverse(v as int, p as int),
    ensures
        r < p,
        (v as int * r as int) % (p as int) == 1,
        r as int == inv_mod(v as int, p as int),
{
    let mut r0: u64 = p;
    let mut r1: u64 = v;
    let mut a0: u64 = 0;
    let mut a1: u64 = 1;
    proof {
        assert(times(1int, 0int) == 0) by (nonlinear_arith);
        assert(0int * v as int == 0) by (nonlinear_arith);
        vstd::arithmetic::div_mod::lemma_mod_self_0(p as int);
        lemma_small_mod(0nat, p as nat);
    }
    while r1 != 0
        invariant
            2 <= p,
            v < p,
            1 <= r0 <= p,
            r1 < p,
            a0 < p,
            a1 < p,
            (a0 as int * v as int) % (p as int) == (r0 as int) % (p as int),
            (a1 as int * v as int) % (p as int) == (r1 as int) % (p as int),
            forall|d: int|
                2 <= d && divides(d, r0 as int) && divides(d, r1 as int) ==> divides(d, v as int)
                    && divides(d, p as int),
        decreases r1,
    {
        let q = r0 / r1;
        let r2 = r0 % r1;
        let qa = mul_mod(q, a1, p);
        let a2 = sub_mod(a0, qa, p);
        proof {
            let pi = p as int;
            let vi = v as int;
            lemma_fundamental_div_mod(r0 as int, r1 as int);
            assert(r2 as int == r0 as int - q as int * r1 as int);
            // (a2 * v) % p == (r0 - q * r1) % p
            lemma_mul_mod_noop_left(a0 as int - qa as int, vi, pi);
            assert((a2 as int * vi) % pi == ((a0 as int - qa as int) * vi) % pi);
            assert((a0 as int - qa as int) * vi == a0 as int * vi - qa as int * vi)
                by (nonlinear_arith);
            // replace qa * v by (q * a1) * v under the modulus
            lemma_mul_mod_noop_left(q as int * a1 as int, vi, pi);
            lemma_sub_mod_noop(a0 as int * vi, qa as int * vi, pi);
            lemma_sub_mod_noop(a0 as int * vi, q as int * a1 as int * vi, pi);
            assert((a0 as int * vi - qa as int * vi) % pi == (a0 as int * vi - q as int * a1
                as int * vi) % pi);
            // q * (a1 * v) == (q * a1) * v, and congruent to q * r1
            assert(q as int * a1 as int * vi == q as int * (a1 as int * vi))
                by (nonlinear_arith);
            lemma_mul_mod_noop_right(q as int, a1 as int * vi, pi);
            lemma_mul_mod_noop_right(q as int, r1 as int, pi);
            lemma_small_mod(r1 as nat, p as nat);
            assert((q as int * (a1 as int * vi)) % pi == (q as int * r1 as int) % pi);
            lemma_sub_mod_noop(a0 as int * vi, q as int * (a1 as int * vi), pi);
            lemma_sub_mod_noop(r0 as int, q as int * r1 as int, pi);
            assert((a0 as int * vi - q as int * (a1 as int * vi)) % pi == (r0 as int - q
                as int * r1 as int) % pi);
            assert((a2 as int * vi) % pi == (r2 as int) % pi);
            // the divisor invariant carries to the new pair
            assert forall|d: int|
                2 <= d && divides(d, r1 as int) && divides(d, r2 as int) implies divides(
                d,
                vi,
            ) && divides(d, pi) by {
                lemma_divides_combo(d, r2 as int, r1 as int, q as int);
                assert(divides(d, r2 as int + q as int * r1 as int));
                assert(r2 as int + q as int * r1 as int == r0 as int);
            }
        }
        r0 = r1;
        r1 = r2;
        a0 = a1;
        a1 = a2;
    }
    if r0 == 1 {
        proof {
            lemma_small_mod(1nat, p as nat);
            lemma_small_mod(r0 as nat, p as nat);
            assert((a0 as int * v as int) % (p as int) == 1);
            assert((v as int * a0 as int) % (p as int) == 1) by (nonlinear_arith)
                requires
                    (a0 as int * v as int) % (p as int) == 1,
            ;
            lemma_inv_mod_works(v as int, p as int);
            lemma_inverse_unique(
                v as int,
                p as int,
                a0 as int,
                inv_mod(v as int, p as int),
            );
        }
        a0
    } else {
        proof {
            assert(r0 as int == times(r0 as int, 1int)) by (nonlinear_arith);
            assert(divides(r0 as int, r0 as int));
            assert(0int == times(r0 as int, 0int)) by (nonlinear_arith);
            assert(divides(r0 as int, 0int));
            assert(divides(r0 as int, v as int) && divides(r0 as int, p as int));
            lemma_common_divisor_no_inverse(r0 as int, v as int, p as int);
            assert(false);
        }
        0
    }
}

/// Product of the first `k` elements of `s`, modulo `p`.
pub open spec fn prod_prefix(s: Seq<u64>, k: nat, p: int) -> int
    decreases k,
{
    if k == 0 {
        1int % p
    } else {
        (prod_prefix(s, (k - 1) as nat, p) * s[k - 1] as int) % p
    }
}

/// A product of invertible elements is invertible.
proof fn lemma_mul_preserves_inverse(a: int, b: int, p: int)
    requires
        2 <= p,
        has_inverse(a, p),
        has_inverse(b, p),
    ensures
        has_inverse((a * b) % p, p),
{
    let x = choose|w: int| 0 <= w < p && #[trigger] ((a * w) % p) == 1;
    let y = choose|w: int| 0 <= w < p && #[trigger] ((b * w) % p) == 1;
    let w = (x * y) % p;
    lemma_mod_bound(x * y, p);
    lemma_mul_mod_noop(a * b, x * y, p);
    assert((a * b) * (x * y) == (a * x) * (b * y)) by (nonlinear_arith);
    lemma_mul_mod_noop(a * x, b * y, p);
    lemma_small_mod(1nat, p as nat);
    assert((((a * b) % p) * w) % p == 1);
}

/// Inverts every element of `values` modulo `p` using a single field
/// inversion: forward prefix products, one extended-Euclid inversion of the
/// total, then a backward sweep (Montgomery's trick).
pub fn batch_invert(values: Vec<u64>, p: u64) -> (res: Vec<u64>)
    requires
        2 <= p,
        forall|i: int|
            0 <= i < values.len() ==> values[i] < p && has_inverse(values[i] as int, p as int),
    ensures
        res.len() == values.len(),
        forall|i: int|
            0 <= i < values.len() ==> res[i] < p && (values[i] as int * res[i] as int) % (
            p as int) == 1,
        forall|i: int| 0 <= i < values.len() ==> res[i] as int == inv_mod(values[i] as int, p as int),
{
    let n = values.len();
    let mut res: Vec<u64> = Vec::new();
    let mut prod: u64 = 1;
    proof {
        lemma_small_mod(1nat, p as nat);
        assert((1int * 1int) % (p as int) == 1);
        assert(has_inverse(1int, p as int));
    }
    let mut i: usize = 0;
    while i < n
        invariant
            2 <= p,
            n == values.len(),
            i <= n,
            res.len() == i,
            prod < p,
            prod as int == prod_prefix(values@, i as nat, p as int),
            has_inverse(prod as int, p as int),
            forall|i2: int|
                0 <= i2 < values.len() ==> values[i2] < p && has_inverse(
                    values[i2] as int,
                    p as int,
                ),
            forall|j: int| 0 <= j < i ==> res[j] as int == prod_prefix(values@, j as nat, p as int),
        decreases n - i,
    {
        res.push(prod);
        let value = values[i];
        proof {
            lemma_small_mod(value as nat, p as nat);
            assert(has_inverse(value as int, p as int));
            lemma_mul_preserves_inverse(prod as int, value as int, p as int);
        }
        prod = mul_mod(prod, value, p);
        i = i + 1;
    }
    let mut inv = inverse(prod, p);
    let mut k: usize = n;
    while k > 0
        invariant
            2 <= p,
            n == values.len(),
            res.len() == n,
            k <= n,
            inv < p,
            (prod_prefix(values@, k as nat, p as int) * inv as int) % (p as int) == 1,
            forall|i2: int|
                0 <= i2 < values.len() ==> values[i2] < p && has_inverse(
                    values[i2] as int,
                    p as int,
                ),
            forall|j: int| 0 <= j < k ==> res[j] as int == prod_prefix(values@, j as nat, p as int),
            forall|j: int|
                k <= j < n ==> res[j] < p && (values[j] as int * res[j] as int) % (p as int) == 1,
            forall|j: int| k <= j < n ==> res[j] as int == inv_mod(values[j] as int, p as int),
        decreases k,
    {
        k = k - 1;
        let rk = res[k];
        let out = mul_mod(rk, inv, p);
        let value = values[k];
        proof {
            let pi = p as int;
            let pre = prod_prefix(values@, k as nat, pi);
            let pre1 = prod_prefix(values@, (k + 1) as nat, pi);
            assert(pre1 == (pre * value as int) % pi);
            // out == (pre * inv) % p since rk == pre (reduced)
            // value * out == value * pre * inv == pre1 * inv == 1 (mod p)
            lemma_mul_mod_noop_right(value as int, rk as int * inv as int, pi);
            assert(value as int * (rk as int * inv as int) == (rk as int * value as int) * inv
                as int) by (nonlinear_arith);
            lemma_mul_mod_noop_left(rk as int * value as int, inv as int, pi);
            assert((rk as int * value as int) % pi == pre1) by {
                lemma_mul_mod_noop_left(pre, value as int, pi);
                lemma_mod_bound(pre, pi);
                lemma_small_mod(rk as nat, p as nat);
            }
            assert((value as int * out as int) % pi == (pre1 * inv as int) % pi) by {
                lemma_mul_mod_noop_left(pre1, inv as int, pi);
                lemma_mod_bound(pre1, pi);
            }
            assert((value as int * out as int) % pi == 1);
            // pin down out as the canonical inverse
            lemma_mod_bound(value as int * out as int, pi);
            lemma_inv_mod_works(value as int, pi);
            lemma_inverse_unique(value as int, pi, out as int, inv_mod(value as int, pi));
            // the new suffix product inverse: (pre * (inv * value)) % p == 1
            lemma_mul_mod_noop_right(pre, inv as int * value as int, pi);
            assert(pre * (inv as int * value as int) == (pre * value as int) * inv as int)
                by (nonlinear_arith);
            lemma_mul_mod_noop_left(pre * value as int, inv as int, pi);
            assert((pre * ((inv as int * value as int) % pi)) % pi == (pre1 * inv as int) % pi)
                by {
                lemma_mul_mod_noop_left(pre1, inv as int, pi);
                lemma_mod_bound(pre1, pi);
            }
        }
        res.set(k, out);
        inv = mul_mod(inv, value, p);
    }
    res
}

} // verus!
