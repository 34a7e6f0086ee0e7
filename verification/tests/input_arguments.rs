use speed_primes::input::{parse_bound, parse_mode, parse_request, InputError, Request};

fn args(words: &[&str]) -> Vec<String> {
    words.iter().map(|w| w.to_string()).collect()
}

#[test]
fn bound_in_plain_digits() {
    assert_eq!(parse_bound("0"), Ok(0));
    assert_eq!(parse_bound("7"), Ok(7));
    assert_eq!(parse_bound("100"), Ok(100));
    assert_eq!(parse_bound("1234567890"), Ok(1_234_567_890));
}

#[test]
fn bound_may_have_leading_zeros_and_a_plus_sign() {
    assert_eq!(parse_bound("000"), Ok(0));
    assert_eq!(parse_bound("0042"), Ok(42));
    assert_eq!(parse_bound("+42"), Ok(42));
    assert_eq!(parse_bound("+0"), Ok(0));
}

#[test]
fn bound_agrees_with_the_standard_parser() {
    for text in ["0", "1", "+9", "10", "0010", "65536", "18446744073709551615", "4294967296"] {
        assert_eq!(parse_bound(text).ok(), text.parse::<u64>().ok(), "{:?}", text);
    }
    for text in ["", "+", "-", "-1", "1 ", " 1", "1_000", "0x10", "1e3", "1.0", "++1", "١٢"] {
        assert!(text.parse::<u64>().is_err());
        assert_eq!(parse_bound(text), Err(InputError::ParseError), "{:?}", text);
    }
}

#[test]
fn bound_at_the_edge_of_the_range() {
    assert_eq!(parse_bound("18446744073709551615"), Ok(u64::MAX));
    assert_eq!(parse_bound("18446744073709551616"), Err(InputError::RangeOverflow));
    assert_eq!(parse_bound("18446744073709551620"), Err(InputError::RangeOverflow));
    assert_eq!(parse_bound("99999999999999999999"), Err(InputError::RangeOverflow));
    assert_eq!(parse_bound("000018446744073709551615"), Ok(u64::MAX));
    assert_eq!(
        parse_bound("100000000000000000000000000000000000000000"),
        Err(InputError::RangeOverflow)
    );
}

#[test]
fn bound_that_is_no_numeral() {
    assert_eq!(parse_bound(""), Err(InputError::ParseError));
    assert_eq!(parse_bound("+"), Err(InputError::ParseError));
    assert_eq!(parse_bound("-5"), Err(InputError::ParseError));
    assert_eq!(parse_bound("12a"), Err(InputError::ParseError));
    assert_eq!(parse_bound("a12"), Err(InputError::ParseError));
    assert_eq!(parse_bound("1 2"), Err(InputError::ParseError));
    assert_eq!(parse_bound("ten"), Err(InputError::ParseError));
    assert_eq!(parse_bound("１２"), Err(InputError::ParseError));
    assert_eq!(parse_bound("12é"), Err(InputError::ParseError));
}

#[test]
fn bound_with_a_stray_character_is_no_numeral_however_long() {
    assert_eq!(parse_bound("99999999999999999999x"), Err(InputError::ParseError));
    assert_eq!(parse_bound("x99999999999999999999"), Err(InputError::ParseError));
}

#[test]
fn mode_spellings_that_ask_for_a_listing() {
    assert!(parse_mode("-l"));
    assert!(parse_mode("l"));
}

#[test]
fn mode_spellings_that_do_not() {
    for token in ["", "L", "-L", "--l", "-l ", " l", "ll", "list", "-", "1", "-ł", "ł"] {
        assert!(!parse_mode(token), "{:?}", token);
    }
}

#[test]
fn request_with_a_bound_only() {
    assert_eq!(parse_request(&args(&["primes", "100"])), Ok(Request { bound: 100, list: false }));
}

#[test]
fn request_with_a_listing() {
    assert_eq!(
        parse_request(&args(&["primes", "100", "-l"])),
        Ok(Request { bound: 100, list: true })
    );
    assert_eq!(parse_request(&args(&["primes", "5", "l"])), Ok(Request { bound: 5, list: true }));
}

#[test]
fn request_with_another_second_argument_only_counts() {
    assert_eq!(
        parse_request(&args(&["primes", "100", "-x"])),
        Ok(Request { bound: 100, list: false })
    );
    assert_eq!(
        parse_request(&args(&["primes", "100", "L"])),
        Ok(Request { bound: 100, list: false })
    );
}

#[test]
fn request_ignores_what_follows_the_mode() {
    assert_eq!(
        parse_request(&args(&["primes", "9", "x", "-l"])),
        Ok(Request { bound: 9, list: false })
    );
    assert_eq!(
        parse_request(&args(&["primes", "9", "-l", "x"])),
        Ok(Request { bound: 9, list: true })
    );
}

#[test]
fn request_without_a_bound() {
    assert_eq!(parse_request(&args(&["primes"])), Err(InputError::MissingArgument));
    assert_eq!(parse_request(&args(&[])), Err(InputError::MissingArgument));
}

#[test]
fn request_with_a_bad_bound() {
    assert_eq!(parse_request(&args(&["primes", "many"])), Err(InputError::ParseError));
    assert_eq!(parse_request(&args(&["primes", "-l"])), Err(InputError::ParseError));
    assert_eq!(parse_request(&args(&["primes", "-l", "100"])), Err(InputError::ParseError));
    assert_eq!(
        parse_request(&args(&["primes", "18446744073709551616", "-l"])),
        Err(InputError::RangeOverflow)
    );
}
