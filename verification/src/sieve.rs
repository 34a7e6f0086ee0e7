//! The sieve of Eratosthenes over odd numbers, packed sixteen numbers to a
//! byte, and the two ways of reading it: counting and listing.

use crate::bitfield::{count_set, Bitfield};
use crate::isqrt::{is_floor_sqrt, isqrt};
use crate::primality::{
    divides,
    is_prime,
    lemma_composite_multiples_rejected,
    lemma_divides_product,
    lemma_divides_quotient,
    lemma_even_prime_is_two,
    lemma_no_factor_below_step,
    lemma_no_factor_below_three,
    lemma_prime_count_bound,
    lemma_prime_iff_no_factor_below,
    lemma_primes_upto_is_exact,
    lemma_small_primes,
    no_factor_below,
    prime_count,
    primes_upto,
};
use vstd::arithmetic::div_mod::{lemma_div_is_ordered, lemma_fundamental_div_mod_converse};
use vstd::prelude::*;

verus! {

/// How many numbers one block of the field stands for: the eight odd numbers
/// that it stores and the eight even numbers between them that it leaves out.
pub const BLOCK_SPAN: u64 = 16;

/// The number of blocks that cover the numbers from one to `n`: `n` over
/// the span of a block, rounded up.
pub open spec fn block_count(n: nat) -> nat {
    (n + 15) / 16
}

/// The position in the field of the odd number `v`.
pub open spec fn position_of(v: nat) -> nat {
    v / 2
}

/// The odd number that the flag at `position` stands for.
pub open spec fn value_at(position: nat) -> nat {
    2 * position + 1
}

/// The odd number that bit `offset` of block `block` stands for.
pub open spec fn value_in_block(block: nat, offset: nat) -> nat {
    16 * block + 2 * offset + 1
}

/// The finished sieve for the bound `n`: one flag for each odd number that
/// the blocks cover, raised exactly where that number is at most `n` and prime.
pub open spec fn odd_prime_flags(n: nat) -> Seq<bool> {
    Seq::new(8 * block_count(n), |p: int| value_at(p as nat) <= n && is_prime(value_at(p as nat)))
}

/// Odd numbers and positions correspond one to one, a position is one bit
/// of one block, and the blocks for the bound `n` hold a position for
/// every odd number up to `n`.
pub proof fn lemma_mapping_is_bijective(v: nat, position: nat, n: nat)
    ensures
        position_of(value_at(position)) == position,
        v % 2 == 1 ==> value_at(position_of(v)) == v,
        value_at(position) % 2 == 1,
        value_in_block(position / 8, position % 8) == value_at(position),
        v % 2 == 1 && v <= n ==> position_of(v) < 8 * block_count(n),
{
}

/// `v` is one of the multiples `i * j` of `i` with `i <= j < k`.
spec fn struck(v: nat, i: nat, k: nat) -> bool {
    divides(i, v) && i <= v / i < k
}

/// For a positive `i`, `i * i <= v` says the same as `i <= v / i`.
proof fn lemma_square_le_iff(i: nat, v: nat)
    requires
        i > 0,
    ensures
        i * i <= v <==> i <= v / i,
{
    lemma_fundamental_div_mod_converse((i * i) as int, i as int, i as int, 0);
    if i * i <= v {
        lemma_div_is_ordered((i * i) as int, v as int, i as int);
    }
    if i <= v / i {
        let q = v / i;
        vstd::arithmetic::div_mod::lemma_fundamental_div_mod(v as int, i as int);
        assert(i * i <= i * q) by (nonlinear_arith)
            requires
                i <= q,
        ;
    }
}

/// The product of two odd numbers is odd.
proof fn lemma_odd_product(a: nat, b: nat)
    requires
        a % 2 == 1,
        b % 2 == 1,
    ensures
        (a * b) % 2 == 1,
{
    let x = a / 2;
    let y = b / 2;
    assert(a * b == 2 * (2 * x * y + x + y) + 1) by (nonlinear_arith)
        requires
            a == 2 * x + 1,
            b == 2 * y + 1,
    ;
}

/// Striking `i * k` is what takes the multiples struck below `k` to those
/// struck below `k + 2`, as far as odd numbers go: `i * (k + 1)` is even.
proof fn lemma_struck_step(v: nat, i: nat, k: nat)
    requires
        v % 2 == 1,
        i % 2 == 1,
        k % 2 == 1,
        i <= k,
    ensures
        struck(v, i, k + 2) <==> struck(v, i, k) || v == i * k,
{
    if struck(v, i, k + 2) && !struck(v, i, k) {
        lemma_divides_quotient(i, v);
        let q = v / i;
        if q == k + 1 {
            let h = (k + 1) / 2;
            assert(v == 2 * (i * h)) by (nonlinear_arith)
                requires
                    v == i * q,
                    q == 2 * h,
            ;
        }
    }
    if v == i * k {
        lemma_divides_product(i, k);
        lemma_fundamental_div_mod_converse(v as int, i as int, k as int, 0);
    }
}

/// Once `k` is past `n / i`, every multiple of `i` up to `n` that is at
/// least the square of `i` has been struck.
proof fn lemma_struck_all(v: nat, i: nat, k: nat, n: nat)
    requires
        i > 0,
        v <= n,
        k > n / i,
    ensures
        struck(v, i, k) <==> divides(i, v) && i * i <= v,
{
    lemma_div_is_ordered(v as int, n as int, i as int);
    lemma_square_le_iff(i, v);
}

/// Whether this machine can address the blocks that the sieve for the
/// bound `n` takes. Every function that sieves asks for this.
pub fn bound_is_supported(n: u64) -> (supported: bool)
    ensures
        supported == (block_count(n as nat) <= usize::MAX),
{
    let whole: u64 = n / BLOCK_SPAN;
    let blocks: u64 = if n % BLOCK_SPAN == 0 {
        whole
    } else {
        whole + 1
    };
    blocks <= usize::MAX as u64
}

/// The sieve for the bound `n`: a field with a flag for each odd number
/// that its blocks cover, raised exactly for the odd primes up to `n`.
///
/// Every flag starts raised. The flag of one is lowered. Then, for each odd
/// `i` from three to the square root of `n` whose flag still stands, the
/// flags of `i * i`, `i * (i + 2)`, `i * (i + 4)` and so on up to `n` are
/// lowered. What is left raised past `n` in the last block is lowered at the end.
pub fn sieve(n: u64) -> (field: Bitfield)
    requires
        block_count(n as nat) <= usize::MAX,
    ensures
        field@ == odd_prime_flags(n as nat),
{
    let blocks: u64 = if n % BLOCK_SPAN == 0 {
        n / BLOCK_SPAN
    } else {
        n / BLOCK_SPAN + 1
    };
    assert(blocks == block_count(n as nat));
    let mut field = Bitfield::new(blocks as usize);
    if blocks == 0 {
        assert(field@ =~= odd_prime_flags(n as nat));
        return field;
    }
    let total: u64 = 8 * blocks;
    field.clear(0);
    let root: u64 = isqrt(n);
    let mut i: u64 = 3;
    proof {
        assert forall|p: int| 0 <= p < total && value_at(p as nat) <= n implies (
        #[trigger] field@[p] <==> p != 0 && no_factor_below(value_at(p as nat), 3)) by {
            lemma_no_factor_below_three(value_at(p as nat));
        }
    }
    while i <= root
        invariant
            3 <= i,
            i % 2 == 1,
            root <= 0xffff_ffff,
            is_floor_sqrt(n as nat, root as nat),
            total == 8 * blocks,
            blocks == block_count(n as nat),
            field@.len() == total,
            forall|p: int|
                0 <= p < total && value_at(p as nat) <= n ==> (#[trigger] field@[p] <==> p != 0
                    && no_factor_below(value_at(p as nat), i as nat)),
        decreases root + 2 - i,
    {
        assert(i <= n) by (nonlinear_arith)
            requires
                3 <= i <= root,
                root * root <= n,
        ;
        let ghost before = field@;
        if field.get(i / 2) {
            let limit: u64 = n / i;
            let mut k: u64 = i;
            proof {
                assert(i * i <= n) by (nonlinear_arith)
                    requires
                        i <= root,
                        root * root <= n,
                ;
                lemma_square_le_iff(i as nat, n as nat);
                assert(3 * limit <= n) by (nonlinear_arith)
                    requires
                        limit == n / i,
                        i >= 3,
                ;
            }
            while k <= limit
                invariant
                    3 <= i <= k <= limit + 2,
                    3 * limit <= n,
                    i % 2 == 1,
                    k % 2 == 1,
                    limit == n / i,
                    total == 8 * blocks,
                    blocks == block_count(n as nat),
                    field@.len() == total,
                    before.len() == total,
                    forall|p: int|
                        0 <= p < total ==> (#[trigger] field@[p] <==> before[p] && !struck(
                            value_at(p as nat),
                            i as nat,
                            k as nat,
                        )),
                decreases limit + 2 - k,
            {
                assert(i * k <= n) by (nonlinear_arith)
                    requires
                        k <= n / i,
                        i > 0,
                ;
                let multiple: u64 = i * k;
                assert(multiple % 2 == 1) by {
                    lemma_odd_product(i as nat, k as nat);
                }
                let ghost earlier = field@;
                field.clear(multiple / 2);
                proof {
                    assert forall|p: int| 0 <= p < total implies (#[trigger] field@[p]
                        <==> before[p] && !struck(
                        value_at(p as nat),
                        i as nat,
                        (k + 2) as nat,
                    )) by {
                        lemma_struck_step(value_at(p as nat), i as nat, k as nat);
                        assert(earlier[p] <==> before[p] && !struck(
                            value_at(p as nat),
                            i as nat,
                            k as nat,
                        ));
                    }
                }
                k = k + 2;
            }
            proof {
                assert forall|p: int| 0 <= p < total && value_at(p as nat) <= n implies (
                #[trigger] field@[p] <==> p != 0 && no_factor_below(
                    value_at(p as nat),
                    (i + 2) as nat,
                )) by {
                    let v = value_at(p as nat);
                    lemma_struck_all(v, i as nat, k as nat, n as nat);
                    lemma_no_factor_below_step(v, i as nat);
                    assert(before[p] <==> p != 0 && no_factor_below(v, i as nat));
                }
            }
        } else {
            proof {
                assert(value_at((i / 2) as nat) == i);
                assert(!no_factor_below(i as nat, i as nat));
                assert forall|p: int| 0 <= p < total && value_at(p as nat) <= n implies (
                #[trigger] field@[p] <==> p != 0 && no_factor_below(
                    value_at(p as nat),
                    (i + 2) as nat,
                )) by {
                    let v = value_at(p as nat);
                    lemma_no_factor_below_step(v, i as nat);
                    if i * i <= v && divides(i as nat, v) {
                        lemma_composite_multiples_rejected(v, i as nat);
                    }
                }
            }
        }
        i = i + 2;
    }
    let first_unused: u64 = n / 2 + n % 2;
    let mut position: u64 = first_unused;
    let ghost marked = field@;
    while position < total
        invariant
            first_unused <= position <= total,
            field@.len() == total,
            marked.len() == total,
            forall|p: int| 0 <= p < first_unused ==> #[trigger] field@[p] == marked[p],
            forall|p: int| first_unused <= p < position ==> !#[trigger] field@[p],
        decreases total - position,
    {
        field.clear(position);
        position = position + 1;
    }
    proof {
        assert((root + 1) * (root + 1) <= i * i) by (nonlinear_arith)
            requires
                root + 1 <= i,
        ;
        assert forall|p: int| 0 <= p < total implies #[trigger] field@[p] == odd_prime_flags(
            n as nat,
        )[p] by {
            let v = value_at(p as nat);
            if p >= first_unused {
                assert(v > n);
            } else if p == 0 {
                assert(!is_prime(1));
                assert(marked[p] <==> p != 0 && no_factor_below(v, i as nat));
            } else {
                assert(v <= n);
                lemma_prime_iff_no_factor_below(v, i as nat);
                assert(marked[p] <==> p != 0 && no_factor_below(v, i as nat));
            }
        }
        assert(field@ =~= odd_prime_flags(n as nat));
    }
    field
}

/// How far the numbers are accounted for once the prime two and the first
/// `positions` flags have been read: up to twice the number of positions,
/// but at least up to two and at most up to `n`.
spec fn covered(n: nat, positions: nat) -> nat {
    let reach = if positions == 0 {
        2
    } else {
        2 * positions
    };
    if reach < n {
        reach
    } else {
        n
    }
}

/// Whether the flag at `position` of the finished sieve for `n` is raised.
spec fn flag_at(n: nat, position: nat) -> bool {
    value_at(position) <= n && is_prime(value_at(position))
}

/// Reading one more flag extends what is accounted for by at most one prime:
/// the odd number of that flag, if the flag is raised. The even number after
/// it is never prime, two having been accounted for from the start.
proof fn lemma_covered_step(n: nat, position: nat)
    ensures
        prime_count(covered(n, position + 1)) == prime_count(covered(n, position)) + (if flag_at(
            n,
            position,
        ) {
            1nat
        } else {
            0nat
        }),
        primes_upto(covered(n, position + 1)) == (if flag_at(n, position) {
            primes_upto(covered(n, position)).push(value_at(position))
        } else {
            primes_upto(covered(n, position))
        }),
{
    let odd = value_at(position);
    if position == 0 {
        assert(!is_prime(1));
    } else if n > odd {
        lemma_even_prime_is_two(odd + 1);
        assert(covered(n, position + 1) == odd + 1);
        assert(prime_count(odd + 1) == prime_count(odd));
        assert(primes_upto(odd + 1) == primes_upto(odd));
        assert(covered(n, position) == odd - 1);
    } else if n == odd {
        assert(covered(n, position + 1) == odd);
        assert(covered(n, position) == odd - 1);
    }
}

/// What is accounted for before any flag is read: the prime two, where the
/// bound reaches it.
proof fn lemma_covered_start(n: nat)
    ensures
        prime_count(covered(n, 0)) == (if n >= 2 {
            1nat
        } else {
            0nat
        }),
        primes_upto(covered(n, 0)) == (if n >= 2 {
            seq![2nat]
        } else {
            Seq::<nat>::empty()
        }),
{
    lemma_small_primes();
    reveal_with_fuel(prime_count, 3);
    reveal_with_fuel(primes_upto, 3);
    if n >= 2 {
        assert(primes_upto(2) =~= seq![2nat]);
    }
}

/// The raised flags among the first `positions` of the finished sieve for
/// `n`, with the prime two, count the primes that are accounted for.
proof fn lemma_count_prefix(n: nat, positions: nat)
    requires
        positions <= 8 * block_count(n),
    ensures
        count_set(odd_prime_flags(n).take(positions as int)) + (if n >= 2 {
            1nat
        } else {
            0nat
        }) == prime_count(covered(n, positions)),
    decreases positions,
{
    let flags = odd_prime_flags(n);
    if positions == 0 {
        lemma_covered_start(n);
        assert(flags.take(0).len() == 0);
    } else {
        let before = (positions - 1) as nat;
        lemma_count_prefix(n, before);
        lemma_covered_step(n, before);
        let prefix = flags.take(positions as int);
        assert(prefix.drop_last() =~= flags.take(before as int));
        assert(prefix.last() == flag_at(n, before));
    }
}

/// The raised flags of the finished sieve count the odd primes up to `n`;
/// with two, where `n` reaches it, they count all the primes up to `n`.
pub proof fn lemma_flags_count_primes(n: nat)
    ensures
        count_set(odd_prime_flags(n)) + (if n >= 2 {
            1nat
        } else {
            0nat
        }) == prime_count(n),
{
    let flags = odd_prime_flags(n);
    lemma_count_prefix(n, flags.len());
    assert(flags.take(flags.len() as int) =~= flags);
}

/// The numbers of a list as natural numbers.
pub open spec fn as_naturals(list: Seq<u64>) -> Seq<nat> {
    list.map_values(|v: u64| v as nat)
}

/// The number of primes up to and including `n`, counted off the sieve.
pub fn count_primes(n: u64) -> (count: u64)
    requires
        block_count(n as nat) <= usize::MAX,
    ensures
        count == prime_count(n as nat),
{
    let field = sieve(n);
    let odd_primes: u64 = field.count_ones();
    proof {
        lemma_flags_count_primes(n as nat);
        lemma_prime_count_bound(n as nat);
    }
    if n >= 2 {
        odd_primes + 1
    } else {
        odd_primes
    }
}

/// The primes up to and including `n`, in ascending order, read off the sieve.
///
/// Two comes first, where `n` reaches it. Then every block is gone through
/// in order, and within it every bit from the lowest up, and each raised
/// flag yields its odd number.
pub fn list_primes(n: u64) -> (primes: Vec<u64>)
    requires
        block_count(n as nat) <= usize::MAX,
    ensures
        as_naturals(primes@) == primes_upto(n as nat),
{
    let field = sieve(n);
    let mut primes: Vec<u64> = Vec::new();
    if n >= 2 {
        primes.push(2);
    }
    proof {
        lemma_covered_start(n as nat);
        assert(as_naturals(primes@) =~= primes_upto(covered(n as nat, 0)));
    }
    let blocks: usize = field.block_count();
    let mut block: usize = 0;
    while block < blocks
        invariant
            block <= blocks,
            blocks == block_count(n as nat),
            field@ == odd_prime_flags(n as nat),
            as_naturals(primes@) == primes_upto(covered(n as nat, 8 * (block as nat))),
        decreases blocks - block,
    {
        let mut offset: u64 = 0;
        while offset < 8
            invariant
                offset <= 8,
                block < blocks,
                blocks == block_count(n as nat),
                field@ == odd_prime_flags(n as nat),
                as_naturals(primes@) == primes_upto(
                    covered(n as nat, 8 * (block as nat) + (offset as nat)),
                ),
            decreases 8 - offset,
        {
            let position: u64 = 8 * (block as u64) + offset;
            proof {
                lemma_covered_step(n as nat, position as nat);
            }
            if field.get(position) {
                let ghost listed = primes@;
                let value: u64 = BLOCK_SPAN * (block as u64) + 2 * offset + 1;
                primes.push(value);
                proof {
                    assert(value == value_at(position as nat));
                    assert(as_naturals(primes@) =~= as_naturals(listed).push(value as nat));
                }
            }
            offset = offset + 1;
        }
        block = block + 1;
    }
    primes
}

/// What a run of the sieve reports: the number of primes up to the bound
/// and, where a listing was asked for, the primes themselves.
#[derive(Debug, Clone, PartialEq, Eq)]
pub struct PrimeReport {
    /// The number of primes up to and including the bound.
    pub count: u64,
    /// The primes up to and including the bound, smallest first, if they
    /// were asked for.
    pub listing: Option<Vec<u64>>,
}

impl PrimeReport {
    /// The report is the one that is due for the bound `n`, with a listing
    /// exactly if `listed`.
    pub open spec fn is_report_of(&self, n: nat, listed: bool) -> bool {
        &&& self.count == prime_count(n)
        &&& match self.listing {
            Some(primes) => listed && as_naturals(primes@) == primes_upto(n),
            None => !listed,
        }
    }
}

/// Two reports for the same bound and the same choice of listing agree in
/// everything: the count, whether there is a listing, and the listing itself.
pub proof fn lemma_report_is_determined(a: PrimeReport, b: PrimeReport, n: nat, listed: bool)
    requires
        a.is_report_of(n, listed),
        b.is_report_of(n, listed),
    ensures
        a.count == b.count,
        a.listing is Some <==> b.listing is Some,
        a.listing is Some ==> a.listing->Some_0@ == b.listing->Some_0@,
{
    if a.listing is Some {
        let x = a.listing->Some_0@;
        let y = b.listing->Some_0@;
        assert(as_naturals(x).len() == as_naturals(y).len());
        assert forall|i: int| 0 <= i < x.len() implies x[i] == y[i] by {
            assert(as_naturals(x)[i] == as_naturals(y)[i]);
        }
        assert(x =~= y);
    }
}

/// Sieves the numbers up to `num` and reports the number of primes among
/// them, together with the primes themselves if `show_primes` is set.
pub fn num_primes(num: u64, show_primes: bool) -> (report: PrimeReport)
    requires
        block_count(num as nat) <= usize::MAX,
    ensures
        report.is_report_of(num as nat, show_primes),
{
    if show_primes {
        let primes = list_primes(num);
        proof {
            lemma_primes_upto_is_exact(num as nat);
            lemma_prime_count_bound(num as nat);
        }
        let count: u64 = primes.len() as u64;
        PrimeReport { count, listing: Some(primes) }
    } else {
        PrimeReport { count: count_primes(num), listing: None }
    }
}

} // verus!
