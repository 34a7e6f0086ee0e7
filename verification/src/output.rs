//! The text of a report: the listing, if there is one, and the summary line.

use crate::primality::{is_prime, lemma_primes_upto_is_exact, prime_count, primes_upto};
use crate::sieve::{as_naturals, PrimeReport};
use vstd::prelude::*;

verus! {

/// The byte of the decimal digit `d`.
pub open spec fn digit_byte(d: nat) -> u8 {
    (48 + d) as u8
}

/// `n` in decimal, without leading zeros: the bytes of its digits, the
/// most significant first.
pub open spec fn decimal(n: nat) -> Seq<u8>
    decreases n,
{
    if n < 10 {
        seq![digit_byte(n)]
    } else {
        decimal(n / 10).push(digit_byte(n % 10))
    }
}

/// What follows each number of a listing: a comma and a space.
pub open spec fn separator() -> Seq<u8> {
    seq![44u8, 32u8]
}

/// What follows the count in the summary line: ` primes` and a line feed.
pub open spec fn summary_tail() -> Seq<u8> {
    seq![32u8, 112u8, 114u8, 105u8, 109u8, 101u8, 115u8, 10u8]
}

/// The text of a listing: each number in decimal, in order, each followed
/// by a comma and a space, the last one too.
pub open spec fn listing_text(numbers: Seq<nat>) -> Seq<u8>
    decreases numbers.len(),
{
    if numbers.len() == 0 {
        Seq::empty()
    } else {
        listing_text(numbers.drop_last()) + decimal(numbers.last()) + separator()
    }
}

/// The text of the summary: an empty line, then the count, ` primes` and
/// a line feed.
pub open spec fn summary_text(count: nat) -> Seq<u8> {
    seq![10u8] + decimal(count) + summary_tail()
}

/// The text of a report: the listing on a line of its own, if there is a
/// listing, and then the summary.
pub open spec fn report_text(count: nat, listing: Option<Seq<nat>>) -> Seq<u8> {
    match listing {
        Some(numbers) => listing_text(numbers) + seq![10u8] + summary_text(count),
        None => summary_text(count),
    }
}

/// Appends `value` in decimal to `out`.
pub fn push_decimal(out: &mut Vec<u8>, value: u64)
    ensures
        final(out)@ == old(out)@ + decimal(value as nat),
{
    let mut digits: Vec<u8> = Vec::new();
    let mut rest: u64 = value;
    while rest >= 10
        invariant
            decimal(value as nat) == decimal(rest as nat) + digits@.reverse(),
        decreases rest,
    {
        let digit: u8 = 48 + (rest % 10) as u8;
        proof {
            let shorter = decimal((rest / 10) as nat);
            assert(digits@.push(digit).reverse() =~= seq![digit] + digits@.reverse());
            assert(shorter.push(digit) + digits@.reverse() =~= shorter + (seq![digit]
                + digits@.reverse()));
        }
        digits.push(digit);
        rest = rest / 10;
    }
    let leading: u8 = 48 + rest as u8;
    proof {
        assert(digits@.push(leading).reverse() =~= seq![leading] + digits@.reverse());
    }
    digits.push(leading);
    let ghost before = out@;
    let ghost text = digits@.reverse();
    let mut index: usize = digits.len();
    while index > 0
        invariant
            index <= digits@.len(),
            text == digits@.reverse(),
            text == decimal(value as nat),
            out@ == before + text.take(digits@.len() - index),
        decreases index,
    {
        index = index - 1;
        out.push(digits[index]);
        proof {
            let taken = digits@.len() - index;
            assert(text.take(taken) =~= text.take(taken - 1).push(digits@[index as int]));
            assert(out@ =~= before + text.take(taken));
        }
    }
    proof {
        assert(text.take(digits@.len() as int) =~= text);
    }
}

/// The text of a listing of `numbers`.
pub fn render_listing(numbers: &Vec<u64>) -> (text: Vec<u8>)
    ensures
        text@ == listing_text(as_naturals(numbers@)),
{
    let mut text: Vec<u8> = Vec::new();
    let mut index: usize = 0;
    while index < numbers.len()
        invariant
            index <= numbers@.len(),
            text@ == listing_text(as_naturals(numbers@.take(index as int))),
        decreases numbers@.len() - index,
    {
        let ghost listed = as_naturals(numbers@.take(index as int));
        let ghost longer = as_naturals(numbers@.take(index + 1));
        proof {
            assert(longer.drop_last() =~= listed);
            assert(longer.last() == numbers@[index as int] as nat);
        }
        push_decimal(&mut text, numbers[index]);
        text.push(44);
        text.push(32);
        proof {
            assert(text@ =~= listing_text(listed) + decimal(numbers@[index as int] as nat)
                + separator());
        }
        index = index + 1;
    }
    proof {
        assert(numbers@.take(index as int) =~= numbers@);
    }
    text
}

/// The listing of a report, if it has one, as natural numbers.
pub open spec fn listing_of(report: PrimeReport) -> Option<Seq<nat>> {
    match report.listing {
        Some(numbers) => Some(as_naturals(numbers@)),
        None => None,
    }
}

/// The text of `report`, as it is to be written out.
pub fn render_report(report: &PrimeReport) -> (text: Vec<u8>)
    ensures
        text@ == report_text(report.count as nat, listing_of(*report)),
{
    let mut text: Vec<u8> = match &report.listing {
        Some(numbers) => {
            let mut text = render_listing(numbers);
            text.push(10);
            text
        },
        None => Vec::new(),
    };
    let ghost head = text@;
    text.push(10);
    push_decimal(&mut text, report.count);
    let ghost counted = text@;
    text.push(32);
    text.push(112);
    text.push(114);
    text.push(105);
    text.push(109);
    text.push(101);
    text.push(115);
    text.push(10);
    proof {
        assert(text@ =~= counted + summary_tail());
        assert(text@ =~= head + summary_text(report.count as nat));
    }
    text
}

/// `byte` is the byte of a decimal digit.
pub open spec fn is_digit_byte(byte: u8) -> bool {
    48 <= byte <= 57
}

/// The number that the bytes of decimal digits stand for, the most
/// significant digit first.
pub open spec fn decimal_value(digits: Seq<u8>) -> nat
    decreases digits.len(),
{
    if digits.len() == 0 {
        0
    } else {
        10 * decimal_value(digits.drop_last()) + (digits.last() - 48) as nat
    }
}

/// The length of the longest run of digits that `text` ends in.
pub open spec fn trailing_digits(text: Seq<u8>) -> nat
    decreases text.len(),
{
    if text.len() == 0 || !is_digit_byte(text.last()) {
        0
    } else {
        trailing_digits(text.drop_last()) + 1
    }
}

/// A text ends in no more digits than it has bytes.
pub proof fn lemma_trailing_digits_bound(text: Seq<u8>)
    ensures
        trailing_digits(text) <= text.len(),
    decreases text.len(),
{
    if text.len() > 0 && is_digit_byte(text.last()) {
        lemma_trailing_digits_bound(text.drop_last());
    }
}

/// The numbers of a listing, read back from its text: the text's last two
/// bytes are taken for a separator, the digits before them for the last
/// number, and what is before those for the listing of the other numbers.
pub open spec fn listed_numbers(text: Seq<u8>) -> Seq<nat>
    decreases text.len(),
{
    if text.len() < 2 {
        Seq::empty()
    } else {
        let body = text.take(text.len() - 2);
        let split = (body.len() - trailing_digits(body)) as nat;
        proof {
            lemma_trailing_digits_bound(body);
        }
        listed_numbers(body.take(split as int)).push(
            decimal_value(body.subrange(split as int, body.len() as int)),
        )
    }
}

/// A number in decimal is one digit at least and digits only, and stands
/// for that number.
pub proof fn lemma_decimal_reads_back(n: nat)
    ensures
        decimal(n).len() >= 1,
        forall|i: int| 0 <= i < decimal(n).len() ==> is_digit_byte(#[trigger] decimal(n)[i]),
        decimal_value(decimal(n)) == n,
    decreases n,
{
    if n < 10 {
        assert(decimal(n).drop_last() =~= Seq::<u8>::empty());
        assert(decimal_value(decimal(n).drop_last()) == 0);
    } else {
        lemma_decimal_reads_back(n / 10);
        assert(decimal(n).drop_last() =~= decimal(n / 10));
    }
}

/// Digits appended to a text that does not end in a digit are the whole
/// run of digits that the result ends in.
proof fn lemma_trailing_digits_appended(head: Seq<u8>, digits: Seq<u8>)
    requires
        head.len() == 0 || !is_digit_byte(head.last()),
        forall|i: int| 0 <= i < digits.len() ==> is_digit_byte(#[trigger] digits[i]),
    ensures
        trailing_digits(head + digits) == digits.len(),
    decreases digits.len(),
{
    if digits.len() == 0 {
        assert(head + digits =~= head);
    } else {
        lemma_trailing_digits_appended(head, digits.drop_last());
        assert((head + digits).drop_last() =~= head + digits.drop_last());
        assert((head + digits).last() == digits.last());
    }
}

/// The text of a listing is empty or ends in the separator's space.
proof fn lemma_listing_text_end(numbers: Seq<nat>)
    ensures
        listing_text(numbers).len() == 0 || listing_text(numbers).last() == 32,
{
    if numbers.len() > 0 {
        let text = listing_text(numbers);
        assert(text.last() == separator()[1]);
    }
}

/// The text of a listing, read back, gives the numbers that were listed.
pub proof fn lemma_listing_reads_back(numbers: Seq<nat>)
    ensures
        listed_numbers(listing_text(numbers)) == numbers,
    decreases numbers.len(),
{
    if numbers.len() == 0 {
        assert(listed_numbers(listing_text(numbers)) =~= numbers);
    } else {
        let others = numbers.drop_last();
        let head = listing_text(others);
        let digits = decimal(numbers.last());
        let text = listing_text(numbers);
        lemma_listing_reads_back(others);
        lemma_decimal_reads_back(numbers.last());
        lemma_listing_text_end(others);
        lemma_trailing_digits_appended(head, digits);
        let body = text.take(text.len() - 2);
        assert(body =~= head + digits);
        let split = (body.len() - trailing_digits(body)) as nat;
        assert(split == head.len());
        assert(body.take(split as int) =~= head);
        assert(body.subrange(split as int, body.len() as int) =~= digits);
        assert(listed_numbers(text) =~= numbers);
    }
}

/// What is written for a listing of the primes up to `n`, read back as
/// numbers, is strictly ascending, so that nothing occurs in it twice, holds
/// primes only, and holds as many numbers as there are primes up to `n`.
pub proof fn lemma_listed_primes_read_back(n: nat)
    ensures
        ({
            let back = listed_numbers(listing_text(primes_upto(n)));
            &&& back == primes_upto(n)
            &&& back.len() == prime_count(n)
            &&& forall|i: int, j: int| 0 <= i < j < back.len() ==> back[i] < back[j]
            &&& forall|i: int| 0 <= i < back.len() ==> is_prime(back[i]) && back[i] <= n
        }),
{
    lemma_listing_reads_back(primes_upto(n));
    lemma_primes_upto_is_exact(n);
}

/// Two runs for the same bound and the same choice of listing write the
/// same text, byte for byte.
pub proof fn lemma_report_text_is_determined(a: PrimeReport, b: PrimeReport, n: nat, listed: bool)
    requires
        a.is_report_of(n, listed),
        b.is_report_of(n, listed),
    ensures
        report_text(a.count as nat, listing_of(a)) == report_text(b.count as nat, listing_of(b)),
{
}

} // verus!
