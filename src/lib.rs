//! Turns a grid of pixel intensities into a long decimal number and searches,
//! by single-digit perturbations, for a prime of the same length nearby.
mod bigint;
mod digits;
mod oracle;
mod search;

pub use bigint::{bytes_value, BigInteger};
pub use digits::{
    all_digits, decimal_of, digits_value, grayscale, lemma_decimal_digits, lemma_leading_zeros,
    lemma_round_trip, padded, DigitError, DigitSequence,
};
pub use oracle::{is_prime, is_probably_prime, probably_prime_of};
pub use search::{
    accepts, apply_changes, drawn_trials, first_free, first_prime_from, lemma_apply_changes,
    lemma_first_prime_concat, lemma_first_prime_is_a_trial, prime_proximity_search,
    search_with_trials, trials_view, try_trial, valid_changes, Change, SearchError,
};
