use vstd::prelude::*;

verus! {

/// The value of a sequence of decimal digits, most significant first.
pub open spec fn digits_value(s: Seq<u8>) -> nat
    decreases s.len(),
{
    if s.len() == 0 {
        0
    } else {
        digits_value(s.drop_last()) * 10 + s.last() as nat
    }
}

/// The natural decimal representation of `n`: no leading zero, and `[0]` for zero.
pub open spec fn decimal_of(n: nat) -> Seq<u8>
    decreases n,
{
    if n < 10 {
        seq![n as u8]
    } else {
        decimal_of(n / 10).push((n % 10) as u8)
    }
}

/// `decimal_of(n)` left-padded with zeros to `len` digits.
pub open spec fn padded(n: nat, len: nat) -> Seq<u8> {
    Seq::new((len - decimal_of(n).len()) as nat, |i: int| 0u8) + decimal_of(n)
}

pub open spec fn all_digits(s: Seq<u8>) -> bool {
    forall|i: int| 0 <= i < s.len() ==> #[trigger] s[i] < 10
}

/// Every digit of `decimal_of(n)` is below 10, and the first is nonzero unless `n` is.
pub proof fn lemma_decimal_digits(n: nat)
    ensures
        all_digits(decimal_of(n)),
        decimal_of(n).len() >= 1,
        digits_value(decimal_of(n)) == n,
    decreases n,
{
    if n >= 10 {
        lemma_decimal_digits(n / 10);
        let d = decimal_of(n);
        assert(d.drop_last() =~= decimal_of(n / 10));
        assert(d.last() as nat == n % 10);
        assert((n / 10) * 10 + n % 10 == n);
        assert(digits_value(d) == digits_value(d.drop_last()) * 10 + d.last() as nat);
    } else {
        let d = decimal_of(n);
        assert(d.drop_last() =~= Seq::<u8>::empty());
        assert(digits_value(d) == digits_value(d.drop_last()) * 10 + d.last() as nat);
    }
}

proof fn lemma_zeros_value(s: Seq<u8>)
    requires
        digits_value(s) == 0,
    ensures
        s =~= Seq::new(s.len(), |i: int| 0u8),
    decreases s.len(),
{
    if s.len() > 0 {
        lemma_zeros_value(s.drop_last());
        assert(s =~= s.drop_last().push(s.last()));
    }
}

/// Leading zeros do not change the value of a digit sequence.
pub proof fn lemma_leading_zeros(k: nat, x: Seq<u8>)
    ensures
        digits_value(Seq::new(k, |i: int| 0u8) + x) == digits_value(x),
    decreases x.len() + k,
{
    let z = Seq::new(k, |i: int| 0u8);
    if x.len() == 0 {
        assert(z + x =~= z);
        if k > 0 {
            assert(z.drop_last() =~= Seq::new((k - 1) as nat, |i: int| 0u8) + x);
            lemma_leading_zeros((k - 1) as nat, x);
        }
    } else {
        assert((z + x).drop_last() =~= z + x.drop_last());
        lemma_leading_zeros(k, x.drop_last());
    }
}

/// Reading a digit sequence of length `L >= 1` as an integer and writing that
/// integer back with `L` digits gives the sequence again.
pub proof fn lemma_round_trip(s: Seq<u8>)
    requires
        s.len() >= 1,
        all_digits(s),
    ensures
        decimal_of(digits_value(s)).len() <= s.len(),
        padded(digits_value(s), s.len()) == s,
    decreases s.len(),
{
    let v = digits_value(s);
    let p = s.drop_last();
    let d = s.last();
    assert(s =~= p.push(d));
    assert(d < 10) by {
        assert(s[s.len() - 1] < 10);
    }
    if digits_value(p) == 0 {
        lemma_zeros_value(p);
        assert(v == d as nat);
        assert(decimal_of(v) =~= seq![d]);
        assert(padded(v, s.len()) =~= s);
    } else {
        assert(all_digits(p)) by {
            assert forall|i: int| 0 <= i < p.len() implies #[trigger] p[i] < 10 by {
                assert(p[i] == s[i]);
            }
        }
        lemma_round_trip(p);
        assert(v / 10 == digits_value(p));
        assert(v % 10 == d as nat);
        assert(decimal_of(v) == decimal_of(digits_value(p)).push(d));
        assert(padded(v, s.len()) =~= padded(digits_value(p), p.len()).push(d));
    }
}

/// The grey level of a colour: the mean of its three channels, rounded down.
pub fn grayscale(r: u8, g: u8, b: u8) -> (gray: u8)
    ensures
        gray as nat == (r as nat + g as nat + b as nat) / 3,
{
    let sum: u32 = r as u32 + g as u32 + b as u32;
    (sum / 3) as u8
}

#[derive(Clone, Copy, Debug, PartialEq, Eq, Structural)]
pub enum DigitError {
    /// The decimal representation needs more digits than the fixed length.
    LengthOverflow,
    /// A digit outside `0..=9`.
    InvalidDigit,
}

/// A fixed-length sequence of decimal digits, most significant first.
#[derive(Clone, Debug)]
pub struct DigitSequence {
    digits: Vec<u8>,
}

impl View for DigitSequence {
    type V = Seq<u8>;

    closed spec fn view(&self) -> Seq<u8> {
        self.digits@
    }
}

impl DigitSequence {
    /// Every element is a decimal digit.
    pub open spec fn wf(&self) -> bool {
        all_digits(self@)
    }

    /// Wraps `digits`, refusing any element above 9.
    pub fn from_digits(digits: Vec<u8>) -> (r: Result<DigitSequence, DigitError>)
        ensures
            all_digits(digits@) <==> r is Ok,
            r is Ok ==> r->Ok_0@ == digits@ && r->Ok_0.wf(),
            r is Err ==> r->Err_0 == DigitError::InvalidDigit,
    {
        let mut i: usize = 0;
        while i < digits.len()
            invariant
                i <= digits.len(),
                all_digits(digits@.take(i as int)),
            decreases digits.len() - i,
        {
            if digits[i] >= 10 {
                return Err(DigitError::InvalidDigit);
            }
            assert(digits@.take(i + 1) =~= digits@.take(i as int).push(digits@[i as int]));
            i = i + 1;
        }
        assert(digits@.take(i as int) =~= digits@);
        Ok(DigitSequence { digits })
    }

    /// One digit per pixel, each intensity taken modulo `modulus`, in the pixels' order.
    pub fn from_pixels(pixels: &Vec<u8>, modulus: u8) -> (r: DigitSequence)
        requires
            modulus == 9 || modulus == 10,
        ensures
            r.wf(),
            r@.len() == pixels@.len(),
            forall|i: int| 0 <= i < pixels@.len() ==> #[trigger] r@[i] == pixels@[i] % modulus,
    {
        let mut digits: Vec<u8> = Vec::new();
        let mut i: usize = 0;
        while i < pixels.len()
            invariant
                i <= pixels.len(),
                modulus == 9 || modulus == 10,
                digits@.len() == i,
                forall|j: int| 0 <= j < i ==> #[trigger] digits@[j] == pixels@[j] % modulus,
                all_digits(digits@),
            decreases pixels.len() - i,
        {
            digits.push(pixels[i] % modulus);
            i = i + 1;
        }
        DigitSequence { digits }
    }

    /// A second sequence with the same digits.
    pub fn duplicate(&self) -> (r: DigitSequence)
        ensures
            r@ == self@,
    {
        DigitSequence { digits: self.digits.clone() }
    }

    pub fn len(&self) -> (r: usize)
        ensures
            r == self@.len(),
    {
        self.digits.len()
    }

    pub fn get(&self, position: usize) -> (r: u8)
        requires
            position < self@.len(),
        ensures
            r == self@[position as int],
    {
        self.digits[position]
    }

    /// The digits as a vector, most significant first.
    pub fn to_vec(&self) -> (r: Vec<u8>)
        ensures
            r@ == self@,
    {
        self.digits.clone()
    }

    /// The digits laid out row-major as `height` rows of `width` digits each: row `y`
    /// holds positions `y * width .. (y + 1) * width`.
    pub fn grid_rows(&self, width: usize, height: usize) -> (r: Vec<Vec<u8>>)
        requires
            width * height == self@.len(),
        ensures
            r@.len() == height,
            forall|y: int|
                0 <= y < height ==> (#[trigger] r@[y])@ == self@.subrange(y * width, (y + 1) * width),
    {
        let n = self.digits.len();
        let mut rows: Vec<Vec<u8>> = Vec::new();
        let mut y: usize = 0;
        let mut start: usize = 0;
        while y < height
            invariant
                y <= height,
                width * height == self@.len(),
                n == self@.len(),
                start == y * width,
                rows@.len() == y,
                forall|k: int|
                    0 <= k < y ==> (#[trigger] rows@[k])@ == self@.subrange(k * width, (k + 1) * width),
            decreases height - y,
        {
            assert(start + width <= width * height) by (nonlinear_arith)
                requires
                    start == y * width,
                    y < height,
            ;
            let mut row: Vec<u8> = Vec::new();
            let mut x: usize = 0;
            while x < width
                invariant
                    x <= width,
                    start + width <= self@.len(),
                    n == self@.len(),
                    row@ == self@.subrange(start as int, start + x),
                decreases width - x,
            {
                row.push(self.digits[start + x]);
                x = x + 1;
                assert(row@ =~= self@.subrange(start as int, start + x));
            }
            rows.push(row);
            assert((y + 1) * width == start + width) by (nonlinear_arith)
                requires
                    start == y * width,
            ;
            y = y + 1;
            start = start + width;
        }
        rows
    }

    /// Replaces the digit at `position` by `digit`.
    pub fn substitute(&mut self, position: usize, digit: u8)
        requires
            old(self).wf(),
            position < old(self)@.len(),
            digit < 10,
        ensures
            final(self)@ == old(self)@.update(position as int, digit),
            final(self).wf(),
    {
        self.digits.set(position, digit);
    }
}

} // verus!
