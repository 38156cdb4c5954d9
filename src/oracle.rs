use vstd::prelude::*;
use crate::bigint::{bytes_value, BigInteger};

verus! {

/// `n` is prime: at least 2, with no divisor strictly between 1 and `n`.
pub open spec fn is_prime(n: nat) -> bool {
    n >= 2 && forall|d: nat| 2 <= d < n ==> #[trigger] (n % d) != 0
}

/// The verdict of num_bigint_dig's probabilistic test on `n` with `rounds` extra
/// Miller-Rabin rounds; its witnesses are drawn from a generator seeded by `n` itself.
pub uninterp spec fn probably_prime_of(n: nat, rounds: nat) -> bool;

/// Relies on num_bigint_dig::prime::probably_prime, handed the integer through
/// num_bigint_dig's BigUint::from_bytes_le: a prime is always reported prime, the
/// verdict is exact below 2^64, and it depends on the integer and `rounds` alone.
/// `rounds + 1` is computed inside, so `rounds` stays below `usize::MAX`.
#[verifier::external_body]
fn probably_prime_le(bytes: &Vec<u8>, rounds: usize) -> (r: bool)
    requires
        rounds < usize::MAX,
    ensures
        r == probably_prime_of(bytes_value(bytes@), rounds as nat),
        is_prime(bytes_value(bytes@)) ==> r,
        bytes_value(bytes@) < 0x1_0000_0000_0000_0000 ==> (r <==> is_prime(bytes_value(bytes@))),
{
    let n = num_bigint_dig::BigUint::from_bytes_le(bytes.as_slice());
    num_bigint_dig::prime::probably_prime(&n, rounds)
}

/// Probabilistic primality test with `rounds` witness trials: never wrong on a prime,
/// exact below 2^64, and 0 and 1 are never prime.
pub fn is_probably_prime(n: &BigInteger, rounds: usize) -> (r: bool)
    requires
        rounds < usize::MAX,
    ensures
        r == probably_prime_of(n@, rounds as nat),
        is_prime(n@) ==> r,
        n@ < 0x1_0000_0000_0000_0000 ==> (r <==> is_prime(n@)),
        n@ < 2 ==> !r,
{
    let bytes = n.to_bytes_le();
    probably_prime_le(&bytes, rounds)
}

} // verus!
