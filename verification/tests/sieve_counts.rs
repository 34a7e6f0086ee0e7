use speed_primes::sieve::{bound_is_supported, count_primes, list_primes, num_primes, sieve};

fn is_prime_by_trial_division(v: u64) -> bool {
    if v < 2 {
        return false;
    }
    let mut d = 2;
    while d * d <= v {
        if v % d == 0 {
            return false;
        }
        d += 1;
    }
    true
}

#[test]
fn count_matches_trial_division_up_to_ten_thousand() {
    let mut expected = 0;
    for n in 0..=10_000u64 {
        if is_prime_by_trial_division(n) {
            expected += 1;
        }
        assert_eq!(count_primes(n), expected, "bound {}", n);
    }
}

#[test]
fn count_of_the_smallest_bounds() {
    assert_eq!(count_primes(0), 0);
    assert_eq!(count_primes(1), 0);
    assert_eq!(count_primes(2), 1);
    assert_eq!(count_primes(3), 2);
}

#[test]
fn count_up_to_ten_and_a_hundred() {
    assert_eq!(count_primes(10), 4);
    assert_eq!(count_primes(100), 25);
}

#[test]
fn count_at_known_milestones() {
    assert_eq!(count_primes(1_000), 168);
    assert_eq!(count_primes(10_000), 1_229);
    assert_eq!(count_primes(100_000), 9_592);
    assert_eq!(count_primes(1_000_000), 78_498);
}

#[test]
fn count_around_block_boundaries() {
    assert_eq!(count_primes(15), 6);
    assert_eq!(count_primes(16), 6);
    assert_eq!(count_primes(17), 7);
    assert_eq!(count_primes(31), 11);
    assert_eq!(count_primes(32), 11);
    assert_eq!(count_primes(33), 11);
    assert_eq!(count_primes(47), 15);
    assert_eq!(count_primes(48), 15);
    assert_eq!(count_primes(49), 15);
}

#[test]
fn count_at_squares_of_primes() {
    assert_eq!(count_primes(8), 4);
    assert_eq!(count_primes(9), 4);
    assert_eq!(count_primes(24), 9);
    assert_eq!(count_primes(25), 9);
    assert_eq!(count_primes(120), 30);
    assert_eq!(count_primes(121), 30);
    assert_eq!(count_primes(127), 31);
}

#[test]
fn listing_of_the_smallest_bounds() {
    assert_eq!(list_primes(0), Vec::<u64>::new());
    assert_eq!(list_primes(1), Vec::<u64>::new());
    assert_eq!(list_primes(2), vec![2]);
    assert_eq!(list_primes(3), vec![2, 3]);
    assert_eq!(list_primes(10), vec![2, 3, 5, 7]);
}

#[test]
fn listing_up_to_a_hundred() {
    assert_eq!(
        list_primes(100),
        vec![
            2, 3, 5, 7, 11, 13, 17, 19, 23, 29, 31, 37, 41, 43, 47, 53, 59, 61, 67, 71, 73, 79,
            83, 89, 97
        ]
    );
}

#[test]
fn listing_is_ascending_prime_and_as_long_as_the_count() {
    for n in [0u64, 1, 2, 3, 15, 16, 17, 100, 255, 256, 257, 1_000, 5_003] {
        let primes = list_primes(n);
        assert_eq!(primes.len() as u64, count_primes(n), "bound {}", n);
        for pair in primes.windows(2) {
            assert!(pair[0] < pair[1], "bound {}", n);
        }
        for &p in &primes {
            assert!(p <= n);
            assert!(is_prime_by_trial_division(p), "{} listed for bound {}", p, n);
        }
        let expected: Vec<u64> = (0..=n).filter(|&v| is_prime_by_trial_division(v)).collect();
        assert_eq!(primes, expected, "bound {}", n);
    }
}

#[test]
fn listing_includes_a_prime_bound() {
    assert_eq!(list_primes(17).last(), Some(&17));
    assert_eq!(list_primes(31).last(), Some(&31));
    assert_eq!(list_primes(97).last(), Some(&97));
    assert_eq!(list_primes(7919).last(), Some(&7919));
}

#[test]
fn sieve_holds_a_flag_for_each_odd_number_of_its_blocks() {
    let field = sieve(17);
    assert_eq!(field.block_count(), 2);
    let raised: Vec<u64> = (0..16).filter(|&p| field.get(p)).map(|p| 2 * p + 1).collect();
    assert_eq!(raised, vec![3, 5, 7, 11, 13, 17]);
    assert_eq!(field.count_ones(), 6);
}

#[test]
fn sieve_of_nothing_is_empty() {
    let field = sieve(0);
    assert_eq!(field.block_count(), 0);
    assert_eq!(field.count_ones(), 0);
}

#[test]
fn sieve_lowers_the_flags_past_the_bound() {
    for n in 1..=64u64 {
        let field = sieve(n);
        let flags = 8 * field.block_count() as u64;
        assert_eq!(flags, 8 * ((n + 15) / 16));
        for p in 0..flags {
            let v = 2 * p + 1;
            assert_eq!(field.get(p), v <= n && is_prime_by_trial_division(v), "{} of {}", v, n);
        }
    }
}

#[test]
fn report_counts_without_a_listing() {
    let report = num_primes(100, false);
    assert_eq!(report.count, 25);
    assert_eq!(report.listing, None);
}

#[test]
fn report_lists_when_asked() {
    let report = num_primes(20, true);
    assert_eq!(report.count, 8);
    assert_eq!(report.listing, Some(vec![2, 3, 5, 7, 11, 13, 17, 19]));
}

#[test]
fn report_for_bounds_below_two_is_empty() {
    for n in [0u64, 1] {
        let counted = num_primes(n, false);
        assert_eq!(counted.count, 0);
        assert_eq!(counted.listing, None);
        let listed = num_primes(n, true);
        assert_eq!(listed.count, 0);
        assert_eq!(listed.listing, Some(Vec::new()));
    }
}

#[test]
fn report_counts_two_from_the_bound_two_on() {
    assert_eq!(num_primes(2, false).count, 1);
    let listed = num_primes(2, true);
    assert_eq!(listed.count, 1);
    assert_eq!(listed.listing, Some(vec![2]));
}

#[test]
fn two_runs_give_the_same_report() {
    for n in [0u64, 2, 17, 1_000] {
        for list in [false, true] {
            let first = num_primes(n, list);
            let second = num_primes(n, list);
            assert_eq!(first.count, second.count);
            assert_eq!(first.listing, second.listing);
        }
    }
}

#[test]
fn both_modes_count_the_same() {
    for n in 0..=300u64 {
        assert_eq!(num_primes(n, true).count, num_primes(n, false).count, "bound {}", n);
    }
}

#[test]
fn every_bound_is_supported_where_addresses_are_as_wide_as_bounds() {
    assert!(bound_is_supported(0));
    assert!(bound_is_supported(1_000_000));
    if usize::BITS >= 64 {
        assert!(bound_is_supported(u64::MAX));
    }
}
