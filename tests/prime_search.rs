use prime_image::{
    grayscale, is_probably_prime, prime_proximity_search, search_with_trials, try_trial,
    BigInteger, Change, DigitError, DigitSequence, SearchError,
};

fn seq(digits: &[u8]) -> DigitSequence {
    DigitSequence::from_digits(digits.to_vec()).unwrap()
}

fn big(v: u64) -> BigInteger {
    BigInteger::from_bytes_le(v.to_le_bytes().to_vec())
}

fn value_of(s: &DigitSequence) -> u64 {
    s.to_vec().iter().fold(0u64, |acc, d| acc * 10 + *d as u64)
}

#[test]
fn round_trip_keeps_leading_zeros() {
    let s = seq(&[0, 0, 4, 2, 0, 7]);
    let back = DigitSequence::from_integer(&s.to_integer(), 6).unwrap();
    assert_eq!(back.to_vec(), vec![0, 0, 4, 2, 0, 7]);
}

#[test]
fn round_trip_all_zeros() {
    let s = seq(&[0, 0, 0]);
    let back = DigitSequence::from_integer(&s.to_integer(), 3).unwrap();
    assert_eq!(back.to_vec(), vec![0, 0, 0]);
}

#[test]
fn round_trip_long_sequence() {
    let digits: Vec<u8> = (0..300).map(|i| ((i * 7 + 3) % 10) as u8).collect();
    let s = seq(&digits);
    let back = DigitSequence::from_integer(&s.to_integer(), 300).unwrap();
    assert_eq!(back.to_vec(), digits);
}

#[test]
fn to_integer_gives_little_endian_bytes() {
    assert_eq!(seq(&[2, 5, 6]).to_integer().to_bytes_le(), vec![0, 1]);
    assert_eq!(seq(&[0, 0, 1, 1, 2, 5]).to_integer().to_bytes_le(), vec![101, 4]);
}

#[test]
fn decimal_digits_of_integer() {
    assert_eq!(BigInteger::from_bytes_le(vec![0, 1]).to_decimal_digits(), vec![2, 5, 6]);
    assert_eq!(BigInteger::from_bytes_le(vec![]).to_decimal_digits(), vec![0]);
    assert_eq!(big(0).to_decimal_digits(), vec![0]);
}

#[test]
fn from_integer_pads_with_zeros() {
    let s = DigitSequence::from_integer(&big(42), 5).unwrap();
    assert_eq!(s.to_vec(), vec![0, 0, 0, 4, 2]);
    let exact = DigitSequence::from_integer(&big(12345), 5).unwrap();
    assert_eq!(exact.to_vec(), vec![1, 2, 3, 4, 5]);
}

#[test]
fn from_integer_refuses_too_long() {
    assert_eq!(
        DigitSequence::from_integer(&big(123), 2).unwrap_err(),
        DigitError::LengthOverflow
    );
    assert_eq!(
        DigitSequence::from_integer(&big(0), 0).unwrap_err(),
        DigitError::LengthOverflow
    );
}

#[test]
fn from_digits_refuses_non_digit() {
    assert_eq!(
        DigitSequence::from_digits(vec![1, 10, 3]).unwrap_err(),
        DigitError::InvalidDigit
    );
    assert_eq!(DigitSequence::from_digits(vec![]).unwrap().len(), 0);
}

#[test]
fn from_pixels_takes_remainders() {
    let pixels = vec![0u8, 9, 10, 255, 128];
    assert_eq!(DigitSequence::from_pixels(&pixels, 10).to_vec(), vec![0, 9, 0, 5, 8]);
    assert_eq!(DigitSequence::from_pixels(&pixels, 9).to_vec(), vec![0, 0, 1, 3, 2]);
}

#[test]
fn substitute_replaces_one_digit() {
    let mut s = seq(&[1, 2, 3]);
    s.substitute(1, 9);
    assert_eq!(s.to_vec(), vec![1, 9, 3]);
    assert_eq!(s.get(1), 9);
    assert_eq!(s.len(), 3);
}

#[test]
fn grid_rows_are_row_major() {
    let s = seq(&[1, 2, 3, 4, 5, 6]);
    assert_eq!(s.grid_rows(3, 2), vec![vec![1, 2, 3], vec![4, 5, 6]]);
    assert_eq!(s.grid_rows(2, 3), vec![vec![1, 2], vec![3, 4], vec![5, 6]]);
}

#[test]
fn grayscale_is_mean_rounded_down() {
    assert_eq!(grayscale(10, 20, 31), 20);
    assert_eq!(grayscale(255, 255, 255), 255);
    assert_eq!(grayscale(0, 0, 2), 0);
}

#[test]
fn oracle_known_values() {
    assert!(is_probably_prime(&big(2), 2));
    assert!(!is_probably_prime(&big(1), 2));
    assert!(!is_probably_prime(&big(0), 2));
    assert!(is_probably_prime(&big(97), 2));
    assert!(!is_probably_prime(&big(100), 2));
}

#[test]
fn oracle_larger_values() {
    assert!(is_probably_prime(&big(2305843009213693951), 2));
    assert!(!is_probably_prime(&big(2305843009213693953), 2));
    let mersenne_127 = seq(&[
        1, 7, 0, 1, 4, 1, 1, 8, 3, 4, 6, 0, 4, 6, 9, 2, 3, 1, 7, 3, 1, 6, 8, 7, 3, 0, 3, 7, 1,
        5, 8, 8, 4, 1, 0, 5, 7, 2, 7,
    ]);
    assert!(is_probably_prime(&mersenne_127.to_integer(), 2));
    let composite = seq(&[
        1, 7, 0, 1, 4, 1, 1, 8, 3, 4, 6, 0, 4, 6, 9, 2, 3, 1, 7, 3, 1, 6, 8, 7, 3, 0, 3, 7, 1,
        5, 8, 8, 4, 1, 0, 5, 7, 2, 9,
    ]);
    assert!(!is_probably_prime(&composite.to_integer(), 2));
}

#[test]
fn rejected_trial_rolls_back() {
    let mut s = seq(&[1, 4, 2]);
    let trial = vec![
        Change { position: 2, digit: 8 },
        Change { position: 1, digit: 0 },
        Change { position: 2, digit: 0 },
    ];
    assert!(!try_trial(&mut s, &trial, 2));
    assert_eq!(s.to_vec(), vec![1, 4, 2]);
}

#[test]
fn accepted_trial_keeps_changes() {
    let mut s = seq(&[1, 4]);
    let trial = vec![Change { position: 1, digit: 6 }, Change { position: 1, digit: 3 }];
    assert!(try_trial(&mut s, &trial, 2));
    assert_eq!(s.to_vec(), vec![1, 3]);
}

#[test]
fn search_with_trials_takes_first_prime() {
    let s = seq(&[1, 4]);
    let trials = vec![
        vec![Change { position: 1, digit: 5 }],
        vec![Change { position: 1, digit: 6 }],
        vec![Change { position: 1, digit: 7 }],
        vec![Change { position: 1, digit: 9 }],
    ];
    let found = search_with_trials(&s, &trials, 2).unwrap();
    assert_eq!(found.to_vec(), vec![1, 7]);
    assert_eq!(s.to_vec(), vec![1, 4]);
}

#[test]
fn search_with_trials_none_when_all_rejected() {
    let s = seq(&[1, 4]);
    let trials = vec![
        vec![Change { position: 1, digit: 5 }],
        vec![Change { position: 0, digit: 2 }, Change { position: 1, digit: 2 }],
    ];
    assert!(search_with_trials(&s, &trials, 2).is_none());
}

#[test]
fn search_with_trials_start_already_prime() {
    let s = seq(&[1, 3]);
    let trials = vec![vec![Change { position: 1, digit: 7 }]];
    assert_eq!(search_with_trials(&s, &trials, 2).unwrap().to_vec(), vec![1, 3]);
}

#[test]
fn search_from_fourteen_keeps_leading_digit() {
    let s = seq(&[1, 4]);
    let found = prime_proximity_search(&s, 2, true, 1, 100_000).unwrap();
    assert_eq!(found.len(), 2);
    assert_eq!(found.get(0), 1);
    assert!([11u64, 13, 17, 19].contains(&value_of(&found)));
}

#[test]
fn search_from_prime_returns_it_unchanged() {
    let s = seq(&[1, 3]);
    let found = prime_proximity_search(&s, 2, true, 1, 100_000).unwrap();
    assert_eq!(found.to_vec(), vec![1, 3]);
}

#[test]
fn search_exhausted_without_free_positions() {
    let s = seq(&[4]);
    assert_eq!(
        prime_proximity_search(&s, 2, true, 1, 100).unwrap_err(),
        SearchError::SearchExhausted
    );
    let t = seq(&[1, 4]);
    assert_eq!(
        prime_proximity_search(&t, 2, true, 1, 0).unwrap_err(),
        SearchError::SearchExhausted
    );
}

#[test]
fn search_on_long_sequence_keeps_length_and_leading_digit() {
    let digits: Vec<u8> = (0..60).map(|i| ((i * 3 + 2) % 10) as u8).collect();
    let s = seq(&digits);
    let found = prime_proximity_search(&s, 2, true, 2, 1_000_000).unwrap();
    assert_eq!(found.len(), 60);
    assert_eq!(found.get(0), digits[0]);
    assert!(is_probably_prime(&found.to_integer(), 2));
    let changed = found
        .to_vec()
        .iter()
        .zip(digits.iter())
        .filter(|(a, b)| a != b)
        .count();
    assert!(changed <= 2);
}

#[test]
fn search_single_digit_may_change_it() {
    let s = seq(&[4]);
    let found = prime_proximity_search(&s, 2, false, 1, 100_000).unwrap();
    assert_eq!(found.len(), 1);
    assert!([2u64, 3, 5, 7].contains(&value_of(&found)));
}

#[test]
fn search_without_changes_is_exhausted() {
    let s = seq(&[1, 4]);
    assert_eq!(
        prime_proximity_search(&s, 2, true, 0, 1000).unwrap_err(),
        SearchError::SearchExhausted
    );
}
