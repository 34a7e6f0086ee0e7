//! Reading the bound and the display mode off the command line's arguments.

use vstd::prelude::*;
use vstd::string::is_ascii_spec_bytes;

verus! {

/// Why the arguments are refused.
#[derive(Debug, Clone, Copy, PartialEq, Eq, Structural)]
pub enum InputError {
    /// No bound was given.
    MissingArgument,
    /// The bound is not a numeral.
    ParseError,
    /// The bound is a numeral for a number that a `u64` cannot hold.
    RangeOverflow,
}

/// What the arguments ask for.
#[derive(Debug, Clone, Copy, PartialEq, Eq, Structural)]
pub struct Request {
    /// The inclusive upper limit of the numbers to sieve.
    pub bound: u64,
    /// Whether the primes are to be listed, not only counted.
    pub list: bool,
}

/// `c` is one of the ten decimal digits.
pub open spec fn is_digit(c: char) -> bool {
    '0' <= c <= '9'
}

/// The number that the decimal digit `c` stands for.
pub open spec fn digit_value(c: char) -> nat {
    (c as u32 - '0' as u32) as nat
}

/// The number that a sequence of decimal digits stands for, the most
/// significant digit first. The empty sequence stands for zero.
pub open spec fn digits_value(digits: Seq<char>) -> nat
    decreases digits.len(),
{
    if digits.len() == 0 {
        0
    } else {
        10 * digits_value(digits.drop_last()) + digit_value(digits.last())
    }
}

/// The digits of a numeral: the text itself, or what follows its plus sign.
pub open spec fn numeral_digits(text: Seq<char>) -> Seq<char> {
    if text.len() > 0 && text[0] == '+' {
        text.subrange(1, text.len() as int)
    } else {
        text
    }
}

/// `text` is a numeral: one or more decimal digits, with or without a plus
/// sign before them, and nothing else.
pub open spec fn is_numeral(text: Seq<char>) -> bool {
    let digits = numeral_digits(text);
    digits.len() > 0 && forall|i: int| 0 <= i < digits.len() ==> is_digit(#[trigger] digits[i])
}

/// The bound that `text` gives, or why it gives none.
pub open spec fn bound_of(text: Seq<char>) -> Result<u64, InputError> {
    if !is_numeral(text) {
        Err(InputError::ParseError)
    } else if digits_value(numeral_digits(text)) > u64::MAX {
        Err(InputError::RangeOverflow)
    } else {
        Ok(digits_value(numeral_digits(text)) as u64)
    }
}

/// `token` is one of the two spellings that ask for a listing: `-l` and `l`.
pub open spec fn asks_for_listing(token: Seq<char>) -> bool {
    token == seq!['-', 'l'] || token == seq!['l']
}

/// What the arguments ask for, or why they are refused. The arguments are
/// the whole command line: the program's name, then the bound, then the
/// display mode, if any. What follows the display mode is ignored.
pub open spec fn request_of(args: Seq<Seq<char>>) -> Result<Request, InputError> {
    if args.len() < 2 {
        Err(InputError::MissingArgument)
    } else {
        match bound_of(args[1]) {
            Ok(bound) => Ok(Request { bound, list: args.len() > 2 && asks_for_listing(args[2]) }),
            Err(error) => Err(error),
        }
    }
}

/// One more digit at the end multiplies what the digits stand for by ten
/// and adds the digit.
pub proof fn lemma_digits_value_push(digits: Seq<char>, c: char)
    ensures
        digits_value(digits.push(c)) == 10 * digits_value(digits) + digit_value(c),
{
    assert(digits.push(c).drop_last() =~= digits);
}

/// The bound that `text` gives.
///
/// A bound is written in decimal digits, with or without a plus sign
/// before them. Anything else is refused as no numeral, and a numeral for
/// a number beyond the range of `u64` as too large.
pub fn parse_bound(text: &str) -> (result: Result<u64, InputError>)
    ensures
        result == bound_of(text@),
{
    if !text.is_ascii() {
        proof {
            let i = choose|i: int|
                0 <= i < text@.len() && !('\0' <= #[trigger] text@[i] <= '\u{7f}');
            let digits = numeral_digits(text@);
            if digits.len() < text@.len() {
                assert(i > 0);
                assert(digits[i - 1] == text@[i]);
            } else {
                assert(digits[i] == text@[i]);
            }
        }
        return Err(InputError::ParseError);
    }
    let bytes = text.as_bytes();
    proof {
        is_ascii_spec_bytes(text);
    }
    let len: usize = bytes.len();
    let start: usize = if len > 0 && bytes[0] == 43 {
        1
    } else {
        0
    };
    let ghost digits = numeral_digits(text@);
    assert(digits =~= text@.subrange(start as int, len as int)) by {
        if len > 0 {
            assert(bytes@[0] == text@[0] as u8);
        }
    }
    if start == len {
        return Err(InputError::ParseError);
    }
    let mut value: u64 = 0;
    let mut too_large = false;
    let mut index: usize = start;
    while index < len
        invariant
            start <= index <= len,
            len == text@.len(),
            bytes@.len() == len,
            forall|i: int| 0 <= i < len ==> bytes@[i] == #[trigger] text@[i] as u8,
            forall|i: int| 0 <= i < len ==> '\0' <= #[trigger] text@[i] <= '\u{7f}',
            digits == text@.subrange(start as int, len as int),
            digits == numeral_digits(text@),
            forall|i: int| 0 <= i < index - start ==> is_digit(#[trigger] digits[i]),
            !too_large ==> value == digits_value(digits.take(index - start)),
            too_large ==> digits_value(digits.take(index - start)) > u64::MAX,
        decreases len - index,
    {
        let byte: u8 = bytes[index];
        assert(byte == text@[index as int] as u8);
        assert(digits[index - start] == text@[index as int]);
        if byte < 48 || byte > 57 {
            assert(!is_digit(digits[index - start]));
            return Err(InputError::ParseError);
        }
        let digit: u64 = (byte - 48) as u64;
        proof {
            let c = digits[index - start];
            assert(is_digit(c));
            assert(digit == digit_value(c));
            lemma_digits_value_push(digits.take(index - start), c);
            assert(digits.take(index - start).push(c) =~= digits.take(index - start + 1));
        }
        if !too_large {
            if value > (u64::MAX - digit) / 10 {
                too_large = true;
            } else {
                value = value * 10 + digit;
            }
        }
        index = index + 1;
    }
    proof {
        assert(digits.take(len - start) =~= digits);
    }
    if too_large {
        Err(InputError::RangeOverflow)
    } else {
        Ok(value)
    }
}

/// Whether `token` asks for the primes to be listed: it does if it is `-l`
/// or `l`, in lower case, and not otherwise.
pub fn parse_mode(token: &str) -> (list: bool)
    ensures
        list == asks_for_listing(token@),
{
    if !token.is_ascii() {
        proof {
            let i = choose|i: int|
                0 <= i < token@.len() && !('\0' <= #[trigger] token@[i] <= '\u{7f}');
            if token@.len() == 2 {
                assert(seq!['-', 'l'][i] != token@[i]);
            }
            if token@.len() == 1 {
                assert(seq!['l'][i] != token@[i]);
            }
        }
        return false;
    }
    let bytes = token.as_bytes();
    proof {
        is_ascii_spec_bytes(token);
    }
    let len: usize = bytes.len();
    if len == 1 {
        assert(bytes@[0] == token@[0] as u8);
        let list = bytes[0] == 108;
        proof {
            if list {
                assert(token@ =~= seq!['l']);
            } else {
                assert(seq!['l'][0] != token@[0]);
            }
            assert(seq!['-', 'l'].len() != token@.len());
        }
        list
    } else if len == 2 {
        assert(bytes@[0] == token@[0] as u8);
        assert(bytes@[1] == token@[1] as u8);
        let list = bytes[0] == 45 && bytes[1] == 108;
        proof {
            if list {
                assert(token@ =~= seq!['-', 'l']);
            } else {
                assert(seq!['-', 'l'][0] != token@[0] || seq!['-', 'l'][1] != token@[1]);
            }
            assert(seq!['l'].len() != token@.len());
        }
        list
    } else {
        proof {
            assert(seq!['l'].len() != token@.len());
            assert(seq!['-', 'l'].len() != token@.len());
        }
        false
    }
}

/// The arguments as sequences of characters.
pub open spec fn texts_of(args: Seq<String>) -> Seq<Seq<char>> {
    args.map_values(|arg: String| arg@)
}

/// What the arguments ask for, or why they are refused.
///
/// `args` is the whole command line: the program's name first, then the
/// bound, then, if there is one, the display mode. A missing bound is
/// reported before anything else; a bound that is no numeral, or too large,
/// is reported whatever the display mode is.
pub fn parse_request(args: &Vec<String>) -> (result: Result<Request, InputError>)
    ensures
        result == request_of(texts_of(args@)),
{
    if args.len() < 2 {
        return Err(InputError::MissingArgument);
    }
    match parse_bound(args[1].as_str()) {
        Ok(bound) => {
            let list = args.len() > 2 && parse_mode(args[2].as_str());
            Ok(Request { bound, list })
        },
        Err(error) => Err(error),
    }
}

} // verus!
