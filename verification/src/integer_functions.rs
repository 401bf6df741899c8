//! Integer functions: a mapping from the sorted bag of a decomposition node
//! into the vertices `0..n` of the target graph, packed into one integer.
//! The image of the bag's `s`-th smallest vertex is the digit of
//! significance `s` of the integer written in base `n`.

use std::collections::HashMap;
use vstd::arithmetic::div_mod::lemma_fundamental_div_mod;
use vstd::arithmetic::div_mod::lemma_fundamental_div_mod_converse;
use vstd::arithmetic::power::lemma_pow_increases;
use vstd::arithmetic::power::lemma_pow_positive;
use vstd::arithmetic::power::pow;
use vstd::prelude::*;
use vstd::std_specs::hash::group_hash_axioms;

verus! {

broadcast use group_hash_axioms;

/// A mapping is an unsigned integer read in base `n`.
pub type Mapping = u64;

/// `n` to the power `e`, as a natural number.
pub open spec fn power_of(n: nat, e: nat) -> nat {
    pow(n as int, e) as nat
}

/// The digit of significance `s` of `f` in base `n`.
pub open spec fn digit(n: nat, f: nat, s: nat) -> nat {
    (f / power_of(n, s)) % n
}

/// `f` with the digits of significance `s` and above moved up by one place
/// and `v` put at significance `s`.
pub open spec fn insert_digit(n: nat, f: nat, s: nat, v: nat) -> nat {
    let r = f % power_of(n, s);
    (n * (f - r) + power_of(n, s) * v + r) as nat
}

/// `f` without its digit of significance `s`: the digits above it move down
/// by one place.
pub open spec fn remove_digit(n: nat, f: nat, s: nat) -> nat {
    let r = f % power_of(n, s);
    ((f - f % power_of(n, s + 1)) / (n as int) + r) as nat
}

/// Unfolds one step of the power: `n^(e+1) = n * n^e`, and `n^e` is
/// positive for a positive base.
pub proof fn lemma_power_step(n: nat, e: nat)
    ensures
        power_of(n, e + 1) == n * power_of(n, e),
        power_of(n, 0) == 1,
        pow(n as int, e) >= 0,
        n >= 1 ==> power_of(n, e) >= 1,
{
    reveal(pow);
    assert(pow(n as int, e + 1) == n * pow(n as int, e));
    assert(pow(n as int, 0) == 1);
    lemma_power_nonnegative(n, e);
    if n >= 1 {
        lemma_pow_positive(n as int, e);
    }
}

proof fn lemma_power_nonnegative(n: nat, e: nat)
    ensures
        pow(n as int, e) >= 0,
    decreases e,
{
    reveal(pow);
    if e > 0 {
        lemma_power_nonnegative(n, (e - 1) as nat);
        assert(pow(n as int, e) == n * pow(n as int, (e - 1) as nat));
        assert(n * pow(n as int, (e - 1) as nat) >= 0) by (nonlinear_arith)
            requires
                n >= 0,
                pow(n as int, (e - 1) as nat) >= 0,
        ;
    }
}

/// The power grows with the exponent for a positive base.
pub proof fn lemma_power_monotonic(n: nat, e1: nat, e2: nat)
    requires
        n >= 1,
        e1 <= e2,
    ensures
        power_of(n, e1) <= power_of(n, e2),
{
    lemma_pow_increases(n, e1, e2);
    lemma_power_nonnegative(n, e1);
    lemma_power_nonnegative(n, e2);
}

/// How an inserted digit sits in the result: with `b = n^s`, `q = f / b` and
/// `r = f % b`, the result is `b * (n * q + v) + r`.
proof fn lemma_insert_shape(n: nat, f: nat, s: nat, v: nat)
    requires
        n >= 1,
    ensures
        insert_digit(n, f, s, v) == power_of(n, s) * (n * (f / power_of(n, s)) + v) + f
            % power_of(n, s),
        insert_digit(n, f, s, v) == (power_of(n, s) * n) * (f / power_of(n, s)) + (power_of(n, s)
            * v + f % power_of(n, s)),
        0 <= f % power_of(n, s) < power_of(n, s),
{
    let b = power_of(n, s) as int;
    lemma_power_step(n, s);
    let q = (f as int) / b;
    let r = (f as int) % b;
    lemma_fundamental_div_mod(f as int, b);
    assert(f - r == b * q);
    assert(n * (b * q) + b * v + r == b * (n * q + v) + r) by (nonlinear_arith);
    assert(n * (b * q) + b * v + r == (b * n) * q + (b * v + r)) by (nonlinear_arith);
    assert(b * (n * q + v) + r >= 0) by (nonlinear_arith)
        requires
            b >= 1,
            n >= 1,
            q >= 0,
            v >= 0,
            r >= 0,
    ;
    assert(q >= 0) by (nonlinear_arith)
        requires
            b >= 1,
            f >= 0,
            f == b * q + r,
            0 <= r < b,
    ;
}

/// Reading back the digit that was inserted gives the value that was put
/// there: `digit(insert_digit(f, s, v), s) == v`, for every base `n >= 1`,
/// every position `s`, every mapping `f` and every value `v < n`.
pub proof fn lemma_digit_of_insert(n: nat, f: nat, s: nat, v: nat)
    requires
        n >= 1,
        v < n,
    ensures
        digit(n, insert_digit(n, f, s, v), s) == v,
{
    let b = power_of(n, s) as int;
    lemma_power_step(n, s);
    lemma_insert_shape(n, f, s, v);
    let q = (f as int) / b;
    let r = (f as int) % b;
    let x = insert_digit(n, f, s, v) as int;
    assert(q >= 0) by {
        lemma_fundamental_div_mod(f as int, b);
        assert(q >= 0) by (nonlinear_arith)
            requires
                b >= 1,
                f >= 0,
                f == b * q + r,
                0 <= r < b,
        ;
    }
    assert(x == (n * q + v) * b + r) by (nonlinear_arith)
        requires
            x == b * (n * q + v) + r,
    ;
    lemma_fundamental_div_mod_converse(x, b, n * q + v, r);
    assert(n * q + v == q * n + v) by (nonlinear_arith);
    lemma_fundamental_div_mod_converse(n * q + v, n as int, q, v as int);
}

/// Removing the digit that was inserted gives the mapping back:
/// `remove_digit(insert_digit(f, s, v), s) == f`, for every base `n >= 1`,
/// every position `s`, every mapping `f` and every value `v < n`.
pub proof fn lemma_remove_of_insert(n: nat, f: nat, s: nat, v: nat)
    requires
        n >= 1,
        v < n,
    ensures
        remove_digit(n, insert_digit(n, f, s, v), s) == f,
{
    let b = power_of(n, s) as int;
    lemma_power_step(n, s);
    lemma_insert_shape(n, f, s, v);
    let q = (f as int) / b;
    let r = (f as int) % b;
    let x = insert_digit(n, f, s, v) as int;
    lemma_fundamental_div_mod(f as int, b);
    assert(q >= 0) by (nonlinear_arith)
        requires
            b >= 1,
            f >= 0,
            f == b * q + r,
            0 <= r < b,
    ;
    // the low part of x
    assert(x == (n * q + v) * b + r) by (nonlinear_arith)
        requires
            x == b * (n * q + v) + r,
    ;
    lemma_fundamental_div_mod_converse(x, b, n * q + v, r);
    // x modulo n^(s+1)
    let bn = power_of(n, s + 1) as int;
    assert(bn == n * b);
    assert(0 <= b * v + r < bn) by (nonlinear_arith)
        requires
            0 <= v < n,
            0 <= r < b,
            bn == n * b,
    ;
    assert(x == q * bn + (b * v + r)) by (nonlinear_arith)
        requires
            x == (b * n) * q + (b * v + r),
            bn == n * b,
    ;
    lemma_fundamental_div_mod_converse(x, bn, q, b * v + r);
    assert(x - x % bn == (b * q) * n) by (nonlinear_arith)
        requires
            x == q * bn + (b * v + r),
            x % bn == b * v + r,
            bn == n * b,
    ;
    lemma_fundamental_div_mod_converse((b * q) * n, n as int, b * q, 0);
}

/// Putting back the digit that was removed gives the mapping back:
/// `insert_digit(remove_digit(f, s), s, digit(f, s)) == f`.
pub proof fn lemma_insert_of_remove(n: nat, f: nat, s: nat)
    requires
        n >= 1,
    ensures
        insert_digit(n, remove_digit(n, f, s), s, digit(n, f, s)) == f,
        digit(n, f, s) < n,
{
    let b = power_of(n, s) as int;
    let bn = power_of(n, s + 1) as int;
    lemma_power_step(n, s);
    assert(bn == n * b);
    assert(bn >= 1) by (nonlinear_arith)
        requires
            bn == n * b,
            n >= 1,
            b >= 1,
    ;
    let x = f as int;
    let hi = x / bn;
    let rest = x % bn;
    lemma_fundamental_div_mod(x, bn);
    let d = rest / b;
    let r = rest % b;
    lemma_fundamental_div_mod(rest, b);
    assert(0 <= d < n) by (nonlinear_arith)
        requires
            rest == b * d + r,
            0 <= r < b,
            0 <= rest < bn,
            bn == n * b,
            b >= 1,
    ;
    assert(hi >= 0) by (nonlinear_arith)
        requires
            x == bn * hi + rest,
            0 <= rest < bn,
            x >= 0,
            bn >= 1,
    ;
    // the digits of x at and above s
    assert(x == (n * hi + d) * b + r) by (nonlinear_arith)
        requires
            x == bn * hi + rest,
            rest == b * d + r,
            bn == n * b,
    ;
    lemma_fundamental_div_mod_converse(x, b, n * hi + d, r);
    assert(n * hi + d == hi * n + d) by (nonlinear_arith);
    lemma_fundamental_div_mod_converse(n * hi + d, n as int, hi, d);
    assert(digit(n, f, s) == d);
    // the mapping without the digit
    assert(x - rest == (b * hi) * n) by (nonlinear_arith)
        requires
            x == bn * hi + rest,
            bn == n * b,
    ;
    lemma_fundamental_div_mod_converse((b * hi) * n, n as int, b * hi, 0);
    let g = b * hi + r;
    assert(b * hi >= 0) by (nonlinear_arith)
        requires
            b >= 1,
            hi >= 0,
    ;
    assert(remove_digit(n, f, s) == g);
    assert(g == hi * b + r) by (nonlinear_arith)
        requires
            g == b * hi + r,
    ;
    lemma_fundamental_div_mod_converse(g, b, hi, r);
    assert(n * (g - r) + b * d + r == x) by (nonlinear_arith)
        requires
            g == b * hi + r,
            x == (n * hi + d) * b + r,
    ;
}

/// An insertion into a mapping of `d` digits gives a mapping of `d + 1`
/// digits.
pub proof fn lemma_insert_range(n: nat, f: nat, s: nat, v: nat, d: nat)
    requires
        n >= 1,
        v < n,
        s <= d,
        f < power_of(n, d),
    ensures
        insert_digit(n, f, s, v) < power_of(n, d + 1),
{
    let b = power_of(n, s) as int;
    let top = power_of(n, d) as int;
    lemma_power_step(n, s);
    lemma_power_step(n, d);
    lemma_power_monotonic(n, s, d);
    lemma_insert_shape(n, f, s, v);
    let r = (f as int) % b;
    let l = f - r;
    // l is a multiple of b below top, and so is top: l <= top - b
    let q = (f as int) / b;
    lemma_fundamental_div_mod(f as int, b);
    lemma_power_split(n, s, d);
    let k = power_of(n, (d - s) as nat) as int;
    assert(top == b * k);
    assert(q < k) by (nonlinear_arith)
        requires
            f == b * q + r,
            0 <= r < b,
            f < b * k,
    ;
    assert(n * (b * q) + b * v + r < n * (b * k)) by (nonlinear_arith)
        requires
            q + 1 <= k,
            0 <= v < n,
            0 <= r < b,
            b >= 1,
            n >= 1,
    ;
}

/// `n^d = n^s * n^(d-s)` for `s <= d`.
pub proof fn lemma_power_split(n: nat, s: nat, d: nat)
    requires
        s <= d,
    ensures
        power_of(n, d) == power_of(n, s) * power_of(n, (d - s) as nat),
{
    vstd::arithmetic::power::lemma_pow_adds(n as int, s, (d - s) as nat);
    lemma_power_nonnegative(n, s);
    lemma_power_nonnegative(n, (d - s) as nat);
    lemma_power_nonnegative(n, d);
}

/// A removal from a mapping of `d + 1` digits gives a mapping of `d`
/// digits.
pub proof fn lemma_remove_range(n: nat, f: nat, s: nat, d: nat)
    requires
        n >= 1,
        s <= d,
        f < power_of(n, d + 1),
    ensures
        remove_digit(n, f, s) < power_of(n, d),
{
    lemma_insert_of_remove(n, f, s);
    let g = remove_digit(n, f, s);
    let v = digit(n, f, s);
    if g >= power_of(n, d) {
        // then the mapping put together again would be too large
        let b = power_of(n, s) as int;
        lemma_power_step(n, s);
        lemma_power_step(n, d);
        lemma_insert_shape(n, g, s, v);
        lemma_power_split(n, s, d);
        let k = power_of(n, (d - s) as nat) as int;
        let q = (g as int) / b;
        let r = (g as int) % b;
        lemma_fundamental_div_mod(g as int, b);
        assert(q >= k) by (nonlinear_arith)
            requires
                g == b * q + r,
                0 <= r < b,
                g >= b * k,
        ;
        assert(n * (b * q) + b * v + r >= n * (b * k)) by (nonlinear_arith)
            requires
                q >= k,
                v >= 0,
                r >= 0,
                b >= 1,
                n >= 1,
        ;
        assert(f - (f as int) % b == b * ((f as int) / b)) by {
            lemma_fundamental_div_mod(f as int, b);
        }
        assert(false);
    }
}

/// `n` to the power `e`.
pub fn power(n: u64, e: u64) -> (r: u64)
    requires
        power_of(n as nat, e as nat) <= u64::MAX,
    ensures
        r == power_of(n as nat, e as nat),
{
    if n == 0 {
        if e == 0 {
            proof {
                lemma_power_step(0, 0);
            }
            1
        } else {
            proof {
                vstd::arithmetic::power::lemma0_pow(e as nat);
            }
            0
        }
    } else if n == 1 {
        proof {
            vstd::arithmetic::power::lemma1_pow(e as nat);
        }
        1
    } else {
        let mut r: u64 = 1;
        let mut i: u64 = 0;
        proof {
            lemma_power_step(n as nat, 0);
        }
        while i < e
            invariant
                n >= 2,
                i <= e,
                r == power_of(n as nat, i as nat),
                power_of(n as nat, e as nat) <= u64::MAX,
            decreases e - i,
        {
            proof {
                lemma_power_step(n as nat, i as nat);
                lemma_power_monotonic(n as nat, (i + 1) as nat, e as nat);
            }
            r = r * n;
            i = i + 1;
        }
        r
    }
}

/// The image of the bag position of significance `s` under the mapping `f`
/// in base `n`.
pub fn apply(n: Mapping, f: Mapping, s: Mapping) -> (r: Mapping)
    requires
        n >= 1,
        power_of(n as nat, s as nat) <= u64::MAX,
    ensures
        r == digit(n as nat, f as nat, s as nat),
        r < n,
{
    proof {
        lemma_power_step(n as nat, s as nat);
    }
    let b: u64 = power(n, s);
    (f / b) % n
}

/// The mapping `f` with one more digit: the digits of significance `s` and
/// above move up by one place and `v` becomes the digit of significance `s`.
pub fn extend(n: Mapping, f: Mapping, s: Mapping, v: Mapping) -> (r: Mapping)
    requires
        n >= 1,
        power_of(n as nat, s as nat) <= u64::MAX,
        insert_digit(n as nat, f as nat, s as nat, v as nat) <= u64::MAX,
    ensures
        r == insert_digit(n as nat, f as nat, s as nat, v as nat),
{
    proof {
        lemma_power_step(n as nat, s as nat);
    }
    let b: u64 = power(n, s);
    let r: u64 = f % b;
    proof {
        vstd::arithmetic::div_mod::lemma_mod_decreases(f as nat, b as nat);
    }
    let l: u64 = f - r;
    assert(n * l >= 0 && b * v >= 0) by (nonlinear_arith)
        requires
            n >= 0,
            l >= 0,
            b >= 0,
            v >= 0,
    ;
    (n * l) + b * v + r
}

/// The mapping `f` with one digit less: the digit of significance `s` is
/// deleted and the digits above it move down by one place.
pub fn reduce(n: Mapping, f: Mapping, s: Mapping) -> (r: Mapping)
    requires
        n >= 1,
        power_of(n as nat, s as nat + 1) <= u64::MAX,
    ensures
        r == remove_digit(n as nat, f as nat, s as nat),
{
    proof {
        lemma_power_step(n as nat, s as nat);
        lemma_power_monotonic(n as nat, s as nat, s as nat + 1);
    }
    let b: u64 = power(n, s);
    assert(b * n == n * b) by (nonlinear_arith);
    let bn: u64 = b * n;
    let r: u64 = f % b;
    proof {
        vstd::arithmetic::div_mod::lemma_mod_decreases(f as nat, bn as nat);
    }
    let l: u64 = f - (f % bn);
    let h: u64 = l / n;
    assert(h + r <= u64::MAX) by {
        // h <= f / n and r < b, and h is a multiple of b
        lemma_reduce_fits(n as nat, f as nat, s as nat);
    }
    h + r
}

proof fn lemma_reduce_fits(n: nat, f: nat, s: nat)
    requires
        n >= 1,
    ensures
        remove_digit(n, f, s) <= f,
{
    let b = power_of(n, s) as int;
    let bn = power_of(n, s + 1) as int;
    lemma_power_step(n, s);
    let x = f as int;
    let hi = x / bn;
    let rest = x % bn;
    assert(bn >= 1) by (nonlinear_arith)
        requires
            bn == n * b,
            n >= 1,
            b >= 1,
    ;
    lemma_fundamental_div_mod(x, bn);
    let d = rest / b;
    let r = rest % b;
    lemma_fundamental_div_mod(rest, b);
    assert(x == (n * hi + d) * b + r) by (nonlinear_arith)
        requires
            x == bn * hi + rest,
            rest == b * d + r,
            bn == n * b,
    ;
    assert(hi >= 0) by (nonlinear_arith)
        requires
            x == bn * hi + rest,
            0 <= rest < bn,
            x >= 0,
            bn >= 1,
    ;
    assert(d >= 0) by (nonlinear_arith)
        requires
            rest == b * d + r,
            0 <= r < b,
            rest >= 0,
            b >= 1,
    ;
    lemma_fundamental_div_mod_converse(x, b, n * hi + d, r);
    assert(x - rest == (b * hi) * n) by (nonlinear_arith)
        requires
            x == bn * hi + rest,
            bn == n * b,
    ;
    lemma_fundamental_div_mod_converse((b * hi) * n, n as int, b * hi, 0);
    assert(b * hi + r <= x) by (nonlinear_arith)
        requires
            x == (n * hi + d) * b + r,
            n >= 1,
            hi >= 0,
            d >= 0,
            b >= 1,
    ;
}

/// The number of mappings from a bag of `d` vertices into `n` vertices:
/// they are the integers below it.
pub fn max_mappings(d: Mapping, n: Mapping) -> (r: Mapping)
    requires
        power_of(n as nat, d as nat) <= u64::MAX,
    ensures
        r == power_of(n as nat, d as nat),
{
    power(n, d)
}

/// The digits of `f` above the place `s` are the digits of `f / n^s`:
/// dividing once more by `n` moves to the next place.
proof fn lemma_next_place(n: nat, f: nat, s: nat)
    requires
        n >= 1,
    ensures
        (f / power_of(n, s)) / n == f / power_of(n, s + 1),
{
    lemma_power_step(n, s);
    vstd::arithmetic::div_mod::lemma_div_denominator(f as int, power_of(n, s) as int, n as int);
    assert(power_of(n, s) * n == n * power_of(n, s)) by (nonlinear_arith);
}

/// The mapping `f` in base `n` as a table from each place to its digit,
/// for the places up to the highest digit that is not 0 (none at all for
/// the mapping 0).
pub fn to_hashmap(n: Mapping, f: Mapping) -> (mapping: HashMap<Mapping, Mapping>)
    requires
        n >= 2 || f == 0,
    ensures
        forall|s: Mapping| #[trigger]
            mapping@.contains_key(s) <==> f > 0 && power_of(n as nat, s as nat) <= f,
        forall|s: Mapping| #[trigger]
            mapping@.contains_key(s) ==> mapping@[s] == digit(n as nat, f as nat, s as nat),
{
    let mut mapping: HashMap<Mapping, Mapping> = HashMap::new();
    let mut rest: Mapping = f;
    let mut pos: Mapping = 0;
    proof {
        lemma_power_step(n as nat, 0);
        vstd::arithmetic::power2::lemma2_to64();
    }
    while rest > 0
        invariant
            n >= 2 || f == 0,
            rest == (f as nat) / power_of(n as nat, pos as nat),
            rest <= f,
            pos > 0 ==> f > 0,
            pos <= 64,
            rest * vstd::arithmetic::power2::pow2(pos as nat) <= f,
            pos == 0 || power_of(n as nat, (pos - 1) as nat) <= f,
            forall|s: Mapping| #[trigger] mapping@.contains_key(s) <==> s < pos,
            forall|s: Mapping| #[trigger]
                mapping@.contains_key(s) ==> mapping@[s] == digit(n as nat, f as nat, s as nat),
        decreases rest,
    {
        proof {
            vstd::arithmetic::power2::lemma2_to64();
            lemma_power_step(n as nat, pos as nat);
            lemma_next_place(n as nat, f as nat, pos as nat);
            let b = power_of(n as nat, pos as nat) as int;
            lemma_fundamental_div_mod(f as int, b);
            // the place is taken: n^pos <= f
            assert(b <= f) by (nonlinear_arith)
                requires
                    f == b * (f as int / b) + (f as int % b),
                    f as int / b >= 1,
                    f as int % b >= 0,
                    b >= 1,
            ;
            // and there are fewer than 64 places
            let two_power = vstd::arithmetic::power2::pow2(pos as nat) as int;
            vstd::arithmetic::power2::lemma_pow2_unfold((pos + 1) as nat);
            vstd::arithmetic::power2::lemma_pow2_pos(pos as nat);
            assert(two_power <= f) by (nonlinear_arith)
                requires
                    rest * two_power <= f,
                    rest >= 1,
                    two_power >= 1,
            ;
            if pos >= 64 {
                assert(false);
            }
            let next = (rest / n) as int;
            lemma_fundamental_div_mod(rest as int, n as int);
            assert(next * (2 * two_power) <= f) by (nonlinear_arith)
                requires
                    rest == n * next + (rest as int % n as int),
                    rest as int % n as int >= 0,
                    n >= 2,
                    next >= 0,
                    two_power >= 1,
                    rest * two_power <= f,
            ;
            assert(next < rest) by (nonlinear_arith)
                requires
                    rest == n * next + (rest as int % n as int),
                    rest as int % n as int >= 0,
                    n >= 2,
                    next >= 0,
                    rest >= 1,
            ;
        }
        mapping.insert(pos, rest % n);
        pos = pos + 1;
        rest = rest / n;
    }
    proof {
        // no place from pos on is taken: f < n^pos <= n^s
        if f > 0 {
            let b = power_of(n as nat, pos as nat) as int;
            lemma_power_step(n as nat, pos as nat);
            lemma_fundamental_div_mod(f as int, b);
            assert(f < b) by (nonlinear_arith)
                requires
                    f == b * (f as int / b) + (f as int % b),
                    f as int / b == 0,
                    f as int % b < b,
            ;
            assert forall|s: Mapping| #[trigger]
                mapping@.contains_key(s) <==> f > 0 && power_of(n as nat, s as nat) <= f by {
                if s < pos {
                    lemma_power_monotonic(n as nat, s as nat, (pos - 1) as nat);
                } else {
                    lemma_power_monotonic(n as nat, pos as nat, s as nat);
                }
            }
        }
    }
    mapping
}

} // verus!
