use speed_primes::output::{push_decimal, render_listing, render_report};
use speed_primes::sieve::{count_primes, list_primes, num_primes, PrimeReport};

fn read_back(listing: &[u8]) -> Vec<u64> {
    let text = std::str::from_utf8(listing).unwrap();
    let mut numbers = Vec::new();
    let mut rest = text;
    while !rest.is_empty() {
        let end = rest.find(", ").unwrap();
        numbers.push(rest[..end].parse::<u64>().unwrap());
        rest = &rest[end + 2..];
    }
    numbers
}

#[test]
fn decimal_of_single_digits() {
    for d in 0..10u64 {
        let mut out = Vec::new();
        push_decimal(&mut out, d);
        assert_eq!(out, vec![b'0' + d as u8]);
    }
}

#[test]
fn decimal_is_appended_to_what_is_there() {
    let mut out = b"n = ".to_vec();
    push_decimal(&mut out, 1_024);
    assert_eq!(out, b"n = 1024".to_vec());
    push_decimal(&mut out, 0);
    assert_eq!(out, b"n = 10240".to_vec());
}

#[test]
fn decimal_agrees_with_the_standard_formatter() {
    for v in [0u64, 9, 10, 11, 99, 100, 101, 12_345, 1_000_000, u32::MAX as u64, u64::MAX] {
        let mut out = Vec::new();
        push_decimal(&mut out, v);
        assert_eq!(out, format!("{}", v).into_bytes());
    }
}

#[test]
fn listing_text_of_a_few_numbers() {
    assert_eq!(render_listing(&vec![2, 3, 5, 7]), b"2, 3, 5, 7, ".to_vec());
    assert_eq!(render_listing(&vec![97]), b"97, ".to_vec());
}

#[test]
fn listing_text_of_nothing_is_empty() {
    assert_eq!(render_listing(&Vec::new()), Vec::<u8>::new());
}

#[test]
fn report_text_in_count_mode() {
    assert_eq!(render_report(&num_primes(10, false)), b"\n4 primes\n".to_vec());
    assert_eq!(render_report(&num_primes(100, false)), b"\n25 primes\n".to_vec());
    assert_eq!(render_report(&num_primes(0, false)), b"\n0 primes\n".to_vec());
}

#[test]
fn report_text_in_list_mode() {
    assert_eq!(render_report(&num_primes(10, true)), b"2, 3, 5, 7, \n\n4 primes\n".to_vec());
    assert_eq!(render_report(&num_primes(2, true)), b"2, \n\n1 primes\n".to_vec());
    assert_eq!(render_report(&num_primes(1, true)), b"\n\n0 primes\n".to_vec());
}

#[test]
fn report_text_of_a_report_made_by_hand() {
    let report = PrimeReport { count: 3, listing: Some(vec![10, 200, 3_000]) };
    assert_eq!(render_report(&report), b"10, 200, 3000, \n\n3 primes\n".to_vec());
}

#[test]
fn summary_is_the_last_line() {
    let text = render_report(&num_primes(1_000, true));
    let text = String::from_utf8(text).unwrap();
    assert_eq!(text.lines().last(), Some("168 primes"));
    assert!(text.ends_with('\n'));
}

#[test]
fn listing_read_back_is_ascending_prime_and_as_long_as_the_count() {
    for n in [0u64, 1, 2, 3, 10, 15, 16, 17, 100, 1_000, 10_007] {
        let numbers = read_back(&render_listing(&list_primes(n)));
        assert_eq!(numbers, list_primes(n));
        assert_eq!(numbers.len() as u64, count_primes(n));
        for pair in numbers.windows(2) {
            assert!(pair[0] < pair[1]);
        }
        for &p in &numbers {
            assert!(p >= 2 && (2..p).take_while(|d| d * d <= p).all(|d| p % d != 0));
        }
    }
}

#[test]
fn two_runs_write_the_same_bytes() {
    for n in [0u64, 1, 2, 100, 4_096] {
        for list in [false, true] {
            let first = render_report(&num_primes(n, list));
            let second = render_report(&num_primes(n, list));
            assert_eq!(first, second);
        }
    }
}
