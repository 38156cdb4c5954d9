use vstd::prelude::*;
use crate::digits::{all_digits, decimal_of, digits_value, padded, DigitError, DigitSequence};

verus! {

/// The value of a little-endian sequence of bytes.
pub open spec fn bytes_value(s: Seq<u8>) -> nat
    decreases s.len(),
{
    if s.len() == 0 {
        0
    } else {
        s[0] as nat + 256 * bytes_value(s.drop_first())
    }
}

/// A non-negative integer of any size, held as little-endian bytes.
#[derive(Clone, Debug)]
pub struct BigInteger {
    bytes: Vec<u8>,
}

impl View for BigInteger {
    type V = nat;

    closed spec fn view(&self) -> nat {
        bytes_value(self.bytes@)
    }
}

/// Relies on num_bigint's BigUint::from_radix_be (radix 10) and BigUint::to_bytes_le:
/// the decimal digits are read as one integer, which comes back as little-endian bytes.
#[verifier::external_body]
fn decimal_to_bytes_le(digits: &Vec<u8>) -> (r: Vec<u8>)
    requires
        all_digits(digits@),
    ensures
        bytes_value(r@) == digits_value(digits@),
{
    num_bigint::BigUint::from_radix_be(digits.as_slice(), 10).unwrap().to_bytes_le()
}

/// Relies on num_bigint's BigUint::from_bytes_le and BigUint::to_radix_be (radix 10):
/// the natural decimal digits of the integer, most significant first, `[0]` for zero.
#[verifier::external_body]
fn bytes_le_to_decimal(bytes: &Vec<u8>) -> (r: Vec<u8>)
    ensures
        r@ == decimal_of(bytes_value(bytes@)),
{
    num_bigint::BigUint::from_bytes_le(bytes.as_slice()).to_radix_be(10)
}

impl BigInteger {
    /// The integer whose little-endian bytes are `bytes`.
    pub fn from_bytes_le(bytes: Vec<u8>) -> (r: BigInteger)
        ensures
            r@ == bytes_value(bytes@),
    {
        BigInteger { bytes }
    }

    /// Little-endian bytes of the integer.
    pub fn to_bytes_le(&self) -> (r: Vec<u8>)
        ensures
            bytes_value(r@) == self@,
    {
        self.bytes.clone()
    }

    /// The natural decimal digits of the integer, most significant first.
    pub fn to_decimal_digits(&self) -> (r: Vec<u8>)
        ensures
            r@ == decimal_of(self@),
    {
        bytes_le_to_decimal(&self.bytes)
    }
}

impl DigitSequence {
    /// The integer that the digits spell out; leading zeros do not count.
    pub fn to_integer(&self) -> (r: BigInteger)
        requires
            self.wf(),
        ensures
            r@ == digits_value(self@),
    {
        let digits = self.to_vec();
        BigInteger { bytes: decimal_to_bytes_le(&digits) }
    }

    /// The decimal digits of `value`, left-padded with zeros to `length`; fails when
    /// the natural representation is longer than `length`.
    pub fn from_integer(value: &BigInteger, length: usize) -> (r: Result<DigitSequence, DigitError>)
        ensures
            r is Ok <==> decimal_of(value@).len() <= length,
            r is Ok ==> r->Ok_0.wf() && r->Ok_0@ == padded(value@, length as nat),
            r is Ok ==> r->Ok_0@.len() == length && digits_value(r->Ok_0@) == value@,
            r is Err ==> r->Err_0 == DigitError::LengthOverflow,
    {
        let dec = value.to_decimal_digits();
        if dec.len() > length {
            return Err(DigitError::LengthOverflow);
        }
        proof {
            crate::digits::lemma_decimal_digits(value@);
            crate::digits::lemma_leading_zeros((length - dec@.len()) as nat, dec@);
        }
        let pad = length - dec.len();
        let mut out: Vec<u8> = Vec::new();
        let mut i: usize = 0;
        while i < pad
            invariant
                i <= pad,
                out@ == Seq::new(i as nat, |k: int| 0u8),
            decreases pad - i,
        {
            out.push(0);
            i = i + 1;
            assert(out@ =~= Seq::new(i as nat, |k: int| 0u8));
        }
        let mut j: usize = 0;
        while j < dec.len()
            invariant
                j <= dec.len(),
                out@ == Seq::new(pad as nat, |k: int| 0u8) + dec@.take(j as int),
            decreases dec.len() - j,
        {
            out.push(dec[j]);
            assert(dec@.take(j + 1) =~= dec@.take(j as int).push(dec@[j as int]));
            j = j + 1;
        }
        assert(dec@.take(j as int) =~= dec@);
        assert(out@ =~= padded(value@, length as nat));
        let r = DigitSequence::from_digits(out);
        proof {
            assert(all_digits(out@));
        }
        r
    }
}

} // verus!
