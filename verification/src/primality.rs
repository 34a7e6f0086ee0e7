//! What it means for a number to be prime, how many primes lie below a
//! bound, and which they are. Everything here is specification and proof.

use vstd::arithmetic::div_mod::{
    lemma_fundamental_div_mod,
    lemma_fundamental_div_mod_converse,
};
use vstd::prelude::*;

verus! {

/// `d` is a positive number that `n` is a multiple of.
pub open spec fn divides(d: nat, n: nat) -> bool {
    d > 0 && n % d == 0
}

/// `n` is at least two and no number strictly between one and `n` divides it.
pub open spec fn is_prime(n: nat) -> bool {
    n >= 2 && forall|d: nat| 2 <= d < n ==> !#[trigger] divides(d, n)
}

/// The number of primes in the closed range from one to `n`.
pub open spec fn prime_count(n: nat) -> nat
    decreases n,
{
    if n == 0 {
        0
    } else if is_prime(n) {
        prime_count((n - 1) as nat) + 1
    } else {
        prime_count((n - 1) as nat)
    }
}

/// The primes in the closed range from one to `n`, smallest first.
pub open spec fn primes_upto(n: nat) -> Seq<nat>
    decreases n,
{
    if n == 0 {
        Seq::empty()
    } else if is_prime(n) {
        primes_upto((n - 1) as nat).push(n)
    } else {
        primes_upto((n - 1) as nat)
    }
}

/// Nothing from two up to, but not including, `bound` whose square is at
/// most `v` divides `v`.
pub open spec fn no_factor_below(v: nat, bound: nat) -> bool {
    forall|d: nat| 2 <= d < bound && d * d <= v ==> !#[trigger] divides(d, v)
}

/// A product is a multiple of each of its factors.
pub proof fn lemma_divides_product(d: nat, k: nat)
    requires
        d > 0,
    ensures
        divides(d, d * k),
        divides(d, k * d),
{
    assert(d * k == k * d) by (nonlinear_arith);
    lemma_fundamental_div_mod_converse((d * k) as int, d as int, k as int, 0);
}

/// A multiple of `d` is `d` times its quotient by `d`.
pub proof fn lemma_divides_quotient(d: nat, n: nat)
    requires
        divides(d, n),
    ensures
        n == d * (n / d),
{
    lemma_fundamental_div_mod(n as int, d as int);
}

/// Divisibility is transitive.
pub proof fn lemma_divides_transitive(a: nat, b: nat, c: nat)
    requires
        divides(a, b),
        divides(b, c),
    ensures
        divides(a, c),
{
    lemma_divides_quotient(a, b);
    lemma_divides_quotient(b, c);
    let x = b / a;
    let y = c / b;
    assert(c == a * (x * y)) by (nonlinear_arith)
        requires
            b == a * x,
            c == b * y,
    ;
    lemma_divides_product(a, x * y);
}

/// An even number divides no odd number.
pub proof fn lemma_even_divides_no_odd(d: nat, v: nat)
    requires
        d % 2 == 0,
        v % 2 == 1,
    ensures
        !divides(d, v),
{
    if divides(d, v) {
        lemma_divides_quotient(d, v);
        let h = d / 2;
        let q = v / d;
        assert(v == 2 * (h * q)) by (nonlinear_arith)
            requires
                d == 2 * h,
                v == d * q,
        ;
    }
}

/// The two smallest primes, and the numbers below them.
pub proof fn lemma_small_primes()
    ensures
        !is_prime(0),
        !is_prime(1),
        is_prime(2),
        is_prime(3),
{
    assert forall|d: nat| 2 <= d < 3 implies !#[trigger] divides(d, 3) by {
        assert(d == 2);
    }
}

/// An even number is prime only if it is two.
pub proof fn lemma_even_prime_is_two(n: nat)
    requires
        n % 2 == 0,
    ensures
        is_prime(n) <==> n == 2,
{
    if n > 2 {
        assert(divides(2, n));
    }
}

/// A number whose square is at least two times itself: every number from two on.
proof fn lemma_square_exceeds(d: nat)
    requires
        d >= 2,
    ensures
        d < d * d,
{
    assert(d < d * d) by (nonlinear_arith)
        requires
            d >= 2,
    ;
}

/// Trial division needs to go no further than the square root: for `v` of
/// at least two and a bound whose square exceeds `v`, `v` is prime exactly
/// when nothing below the bound, with a square of at most `v`, divides it.
pub proof fn lemma_prime_iff_no_factor_below(v: nat, bound: nat)
    requires
        v >= 2,
        bound * bound > v,
    ensures
        is_prime(v) <==> no_factor_below(v, bound),
{
    if is_prime(v) {
        assert forall|d: nat| 2 <= d < bound && d * d <= v implies !#[trigger] divides(d, v) by {
            lemma_square_exceeds(d);
        }
    }
    if no_factor_below(v, bound) {
        assert forall|d: nat| 2 <= d < v implies !#[trigger] divides(d, v) by {
            if divides(d, v) {
                lemma_divides_quotient(d, v);
                let e = v / d;
                assert(v == e * d) by (nonlinear_arith)
                    requires
                        v == d * e,
                ;
                assert(e >= 2) by (nonlinear_arith)
                    requires
                        v == d * e,
                        d < v,
                        d >= 2,
                ;
                lemma_divides_product(e, d);
                if d * d <= v {
                    assert(d < bound) by (nonlinear_arith)
                        requires
                            d * d <= v,
                            bound * bound > v,
                    ;
                    assert(!divides(d, v));
                } else {
                    assert(e * e <= v && e < bound) by (nonlinear_arith)
                        requires
                            d * d > v,
                            v == d * e,
                            bound * bound > v,
                    ;
                    assert(!divides(e, v));
                }
            }
        }
    }
}

/// Every number survives trial division by two alone when it is odd.
pub proof fn lemma_no_factor_below_three(v: nat)
    requires
        v % 2 == 1,
    ensures
        no_factor_below(v, 3),
{
    assert forall|d: nat| 2 <= d < 3 && d * d <= v implies !#[trigger] divides(d, v) by {
        assert(d == 2);
    }
}

/// Raising the bound of trial division from an odd `i` to `i + 2` adds one
/// test for an odd `v`: whether `i` itself, with a square of at most `v`,
/// divides it.
pub proof fn lemma_no_factor_below_step(v: nat, i: nat)
    requires
        v % 2 == 1,
        i % 2 == 1,
        i >= 3,
    ensures
        no_factor_below(v, i + 2) <==> no_factor_below(v, i) && !(i * i <= v && divides(i, v)),
{
    if no_factor_below(v, i + 2) {
        assert forall|d: nat| 2 <= d < i && d * d <= v implies !#[trigger] divides(d, v) by {}
    }
    if no_factor_below(v, i) && !(i * i <= v && divides(i, v)) {
        assert forall|d: nat| 2 <= d < i + 2 && d * d <= v implies !#[trigger] divides(d, v) by {
            if d == i + 1 {
                lemma_even_divides_no_odd(d, v);
            }
        }
    }
}

/// A number with a proper factor hands that factor on to its multiples:
/// where trial division below `i` already rejects `i`, it rejects every
/// multiple of `i` that is at least the square of `i`.
pub proof fn lemma_composite_multiples_rejected(v: nat, i: nat)
    requires
        i >= 2,
        !no_factor_below(i, i),
        divides(i, v),
        i * i <= v,
    ensures
        !no_factor_below(v, i),
{
    let d = choose|d: nat| 2 <= d < i && d * d <= i && #[trigger] divides(d, i);
    lemma_divides_transitive(d, i, v);
    lemma_square_exceeds(i);
}

/// There are no more primes up to `n` than numbers.
pub proof fn lemma_prime_count_bound(n: nat)
    ensures
        prime_count(n) <= n,
        n >= 1 ==> prime_count(n) < n,
    decreases n,
{
    if n > 0 {
        lemma_prime_count_bound((n - 1) as nat);
        if n == 1 {
            assert(!is_prime(1));
        }
    }
}

/// The list of the primes up to `n` is as long as their count, holds primes
/// up to `n` only, holds every one of them, and is strictly ascending, so
/// that none occurs twice.
pub proof fn lemma_primes_upto_is_exact(n: nat)
    ensures
        primes_upto(n).len() == prime_count(n),
        forall|i: int|
            0 <= i < primes_upto(n).len() ==> is_prime(#[trigger] primes_upto(n)[i])
                && primes_upto(n)[i] <= n,
        forall|v: nat| v <= n && is_prime(v) ==> #[trigger] primes_upto(n).contains(v),
        forall|i: int, j: int|
            0 <= i < j < primes_upto(n).len() ==> #[trigger] primes_upto(n)[i]
                < #[trigger] primes_upto(n)[j],
    decreases n,
{
    if n > 0 {
        let shorter = primes_upto((n - 1) as nat);
        let list = primes_upto(n);
        lemma_primes_upto_is_exact((n - 1) as nat);
        assert forall|v: nat| v <= n && is_prime(v) implies #[trigger] list.contains(v) by {
            if v == n {
                assert(list[list.len() - 1] == v);
            } else {
                assert(shorter.contains(v));
                let i = choose|i: int| 0 <= i < shorter.len() && shorter[i] == v;
                assert(list[i] == v);
            }
        }
    }
}

} // verus!
