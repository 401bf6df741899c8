//! The digits of a mapping: how inserting and removing a digit moves the
//! others, and the mapping with given digits.

use crate::integer_functions::digit;
use crate::integer_functions::insert_digit;
use crate::integer_functions::lemma_insert_of_remove;
use crate::integer_functions::lemma_power_split;
use crate::integer_functions::lemma_power_step;
use crate::integer_functions::power_of;
use crate::integer_functions::remove_digit;
use vstd::arithmetic::div_mod::lemma_div_denominator;
use vstd::arithmetic::div_mod::lemma_fundamental_div_mod;
use vstd::arithmetic::div_mod::lemma_fundamental_div_mod_converse;
use vstd::arithmetic::div_mod::lemma_hoist_over_denominator;
use vstd::arithmetic::div_mod::lemma_mod_multiples_vanish;
use vstd::prelude::*;

verus! {

/// The digits below the place `s` are those of the remainder modulo
/// `n^s`.
pub proof fn lemma_low_digits(n: nat, x: nat, s: nat, k: nat)
    requires
        n >= 1,
        k < s,
    ensures
        digit(n, x, k) == digit(n, x % power_of(n, s), k),
{
    let big = power_of(n, s) as int;
    let small = power_of(n, k) as int;
    let between = power_of(n, (s - k) as nat) as int;
    let rest = power_of(n, (s - k - 1) as nat) as int;
    lemma_power_step(n, s);
    lemma_power_step(n, k);
    lemma_power_step(n, (s - k - 1) as nat);
    lemma_power_split(n, k, s);
    assert(((s - k - 1) as nat + 1) as nat == (s - k) as nat);
    assert(between == n * rest);
    assert(big == small * between);
    let t = (x as int) / big;
    let r = (x as int) % big;
    lemma_fundamental_div_mod(x as int, big);
    // x / n^k == n^(s-k) * t + r / n^k
    assert(x == r + (between * t) * small) by (nonlinear_arith)
        requires
            x == big * t + r,
            big == small * between,
    ;
    lemma_hoist_over_denominator(r, between * t, small as nat);
    assert((x as int) / small == r / small + between * t);
    // and n^(s-k) * t is a multiple of n
    assert(between * t == n * (rest * t)) by (nonlinear_arith)
        requires
            between == n * rest,
    ;
    lemma_mod_multiples_vanish(rest * t, r / small, n as int);
    assert(t >= 0) by (nonlinear_arith)
        requires
            x == big * t + r,
            0 <= r < big,
            x >= 0,
            big >= 1,
    ;
}

/// Inserting a digit at the place `s` leaves the digits below in place,
/// puts the new digit at `s` and moves the digits above up by one place.
pub proof fn lemma_digits_of_insert(n: nat, f: nat, s: nat, v: nat, k: nat)
    requires
        n >= 1,
        v < n,
    ensures
        digit(n, insert_digit(n, f, s, v), k) == if k < s {
            digit(n, f, k)
        } else if k == s {
            v
        } else {
            digit(n, f, (k - 1) as nat)
        },
{
    let big = power_of(n, s) as int;
    lemma_power_step(n, s);
    let q = (f as int) / big;
    let r = (f as int) % big;
    lemma_fundamental_div_mod(f as int, big);
    assert(q >= 0) by (nonlinear_arith)
        requires
            f == big * q + r,
            0 <= r < big,
            f >= 0,
            big >= 1,
    ;
    let x = insert_digit(n, f, s, v);
    assert(x == (n * q + v) * big + r) by (nonlinear_arith)
        requires
            x == n * (f - r) + big * v + r,
            f == big * q + r,
    ;
    lemma_fundamental_div_mod_converse(x as int, big, n * q + v, r);
    if k < s {
        lemma_low_digits(n, x, s, k);
        lemma_low_digits(n, f, s, k);
    } else if k == s {
        crate::integer_functions::lemma_digit_of_insert(n, f, s, v);
    } else {
        let above = power_of(n, (k - s) as nat) as int;
        let higher = power_of(n, (k - s - 1) as nat) as int;
        lemma_power_step(n, (k - s - 1) as nat);
        lemma_power_step(n, (k - s) as nat);
        assert(((k - s - 1) as nat + 1) as nat == (k - s) as nat);
        lemma_power_split(n, s, k);
        lemma_power_split(n, s, (k - 1) as nat);
        assert(((k - 1) as nat - s) as nat == (k - s - 1) as nat);
        // x / n^k == ((x / n^s) / n) / n^(k-s-1)
        lemma_div_denominator(x as int, big, above);
        assert(n * q + v == q * n + v) by (nonlinear_arith);
        lemma_fundamental_div_mod_converse(n * q + v, n as int, q, v as int);
        lemma_div_denominator(n * q + v, n as int, higher);
        assert(n * higher == above);
        // f / n^(k-1) == (f / n^s) / n^(k-s-1)
        lemma_div_denominator(f as int, big, higher);
        assert((x as int) / (big * above) == q / higher);
        assert((f as int) / (big * higher) == q / higher);
    }
}

/// The mapping of `h` places whose digit at each place `i` is `digits(i)`.
pub open spec fn encode(n: nat, h: nat, digits: spec_fn(nat) -> nat) -> nat
    decreases h,
{
    if h == 0 {
        0
    } else {
        encode(n, (h - 1) as nat, digits) + digits((h - 1) as nat) * power_of(n, (h - 1) as nat)
    }
}

/// The mapping with given digits depends on the digits at its places
/// only.
pub proof fn lemma_encode_same(
    n: nat,
    h: nat,
    first: spec_fn(nat) -> nat,
    second: spec_fn(nat) -> nat,
)
    requires
        forall|i: nat| i < h ==> #[trigger] first(i) == second(i),
    ensures
        encode(n, h, first) == encode(n, h, second),
    decreases h,
{
    if h > 0 {
        lemma_encode_same(n, (h - 1) as nat, first, second);
        assert(first((h - 1) as nat) == second((h - 1) as nat));
    }
}

/// The mapping with given digits, each below `n`, is a mapping of `h`
/// places, and it has these digits.
pub proof fn lemma_encode(n: nat, h: nat, digits: spec_fn(nat) -> nat)
    requires
        n >= 1,
        forall|i: nat| i < h ==> #[trigger] digits(i) < n,
    ensures
        encode(n, h, digits) < power_of(n, h),
        forall|i: nat| i < h ==> digit(n, encode(n, h, digits), i) == #[trigger] digits(i),
    decreases h,
{
    lemma_power_step(n, 0);
    if h > 0 {
        let below = (h - 1) as nat;
        let low = encode(n, below, digits);
        let top = digits(below);
        let big = power_of(n, below) as int;
        lemma_encode(n, below, digits);
        lemma_power_step(n, below);
        let x = encode(n, h, digits);
        assert(x == top * big + low);
        assert(top < n);
        assert(top * big + low < n * big) by (nonlinear_arith)
            requires
                0 <= top < n,
                0 <= low < big,
        ;
        lemma_fundamental_div_mod_converse(x as int, big, top as int, low as int);
        assert forall|i: nat| i < h implies digit(n, x, i) == #[trigger] digits(i) by {
            if i < below {
                lemma_low_digits(n, x, below, i);
                assert(digit(n, low, i) == digits(i));
            } else {
                lemma_fundamental_div_mod_converse(top as int, n as int, 0, top as int);
            }
        }
    }
}

/// A mapping of `h` places is the mapping with its own digits.
pub proof fn lemma_encode_digits(n: nat, h: nat, f: nat)
    requires
        n >= 1,
        f < power_of(n, h),
    ensures
        encode(n, h, |i: nat| digit(n, f, i)) == f,
    decreases h,
{
    lemma_power_step(n, 0);
    if h > 0 {
        let below = (h - 1) as nat;
        let big = power_of(n, below) as int;
        lemma_power_step(n, below);
        let low = (f as int) % big;
        let top = (f as int) / big;
        lemma_fundamental_div_mod(f as int, big);
        assert(0 <= top < n) by (nonlinear_arith)
            requires
                f == big * top + low,
                0 <= low < big,
                0 <= f < n * big,
                big >= 1,
        ;
        lemma_fundamental_div_mod_converse(top, n as int, 0, top);
        assert(digit(n, f, below) == top);
        lemma_encode_digits(n, below, low as nat);
        assert forall|i: nat| i < below implies #[trigger] digit(n, f, i) == digit(
            n,
            low as nat,
            i,
        ) by {
            lemma_low_digits(n, f, below, i);
        }
        lemma_encode_same(n, below, |i: nat| digit(n, f, i), |i: nat| digit(n, low as nat, i));
        assert(top * big == big * top) by (nonlinear_arith);
    }
}

/// Two mappings of `h` places with the same digits are the same mapping.
pub proof fn lemma_same_digits(n: nat, h: nat, f: nat, g: nat)
    requires
        n >= 1,
        f < power_of(n, h),
        g < power_of(n, h),
        forall|i: nat| i < h ==> #[trigger] digit(n, f, i) == digit(n, g, i),
    ensures
        f == g,
{
    lemma_encode_digits(n, h, f);
    lemma_encode_digits(n, h, g);
    lemma_encode_same(n, h, |i: nat| digit(n, f, i), |i: nat| digit(n, g, i));
}

/// Every digit is below the base.
pub proof fn lemma_digit_bound(n: nat, f: nat, k: nat)
    requires
        n >= 1,
    ensures
        digit(n, f, k) < n,
{
    lemma_power_step(n, k);
    vstd::arithmetic::div_mod::lemma_mod_bound((f / power_of(n, k)) as int, n as int);
}

} // verus!
