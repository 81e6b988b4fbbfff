//! The digit-correspondence table: two bases, a digit count, and the digit
//! that each source digit becomes.
use crate::digits::{
    digits_below, digits_of, horner, lemma_digits_of_value, lemma_digits_unique, lemma_horner_append,
    lemma_horner_bound, lemma_horner_nonneg, lemma_horner_nonzero, lemma_horner_zeros,
};
use crate::field::{le_value, Felt};
use vstd::arithmetic::power::pow;
use vstd::prelude::*;

verus! {

/// Why a conversion could not be laid out.
#[derive(Clone, Copy, Debug, PartialEq, Eq, Structural)]
pub enum ConversionError {
    /// The value has more source digits than the table holds.
    Decomposition,
    /// The table's digit count is below two, so the recurrence has no last row.
    DegenerateLength,
}

/// A digit-correspondence table: each source digit `d < input_base` stands
/// beside `digit_map[d]`, a digit in `output_base`; a value is read as
/// `num_digits` source digits.
#[derive(Clone, Debug)]
pub struct BaseInfo {
    pub input_base: u32,
    pub output_base: u64,
    pub num_digits: usize,
    pub digit_map: Vec<u64>,
}

impl BaseInfo {
    pub open spec fn wf(&self) -> bool {
        &&& 2 <= self.input_base <= 256
        &&& self.digit_map@.len() == self.input_base
        &&& digits_below(self.digit_map@, self.output_base as int)
    }

    /// `(i, o)` is one of the table's valid pairs.
    pub open spec fn in_table(&self, i: int, o: int) -> bool {
        0 <= i < self.input_base && o == self.digit_map@[i] as int
    }

    /// The values the table can decompose.
    pub open spec fn in_domain(&self, x: int) -> bool {
        0 <= x < pow(self.input_base as int, self.num_digits as nat)
    }

    /// The source digits of `x`.
    pub open spec fn source_digits(&self, x: int) -> Seq<u64> {
        digits_of(x as nat, self.input_base as nat, self.num_digits as nat)
    }

    /// Each source digit replaced by the digit beside it.
    pub open spec fn map_digits(&self, s: Seq<u64>) -> Seq<u64> {
        s.map_values(|d: u64| self.digit_map@[d as int])
    }

    /// The destination digits of `x`.
    pub open spec fn dest_digits(&self, x: int) -> Seq<u64> {
        self.map_digits(self.source_digits(x))
    }

    /// The converted value of `x`: its destination digits read in the
    /// output base.
    pub open spec fn convert(&self, x: int) -> int {
        horner(self.dest_digits(x), self.output_base as int)
    }

    /// Reading the source digits of a value in the domain back through the
    /// running sum in the input base gives the value again.
    pub proof fn lemma_round_trip(&self, x: int)
        requires
            self.wf(),
            self.in_domain(x),
        ensures
            horner(self.source_digits(x), self.input_base as int) == x,
    {
        lemma_digits_of_value(x as nat, self.input_base as nat, self.num_digits as nat);
    }

    /// The place value of a source digit.
    pub fn input_pob(&self) -> (r: Felt)
        ensures
            r.wf(),
            r.val() == self.input_base,
    {
        Felt::from_u64(self.input_base as u64)
    }

    /// The place value of a destination digit.
    pub fn output_pob(&self) -> (r: Felt)
        ensures
            r.wf(),
            r.val() == self.output_base,
    {
        Felt::from_u64(self.output_base)
    }

    /// Whether `(i, o)` is one of the table's valid pairs.
    pub fn lookup(&self, i: &Felt, o: &Felt) -> (r: bool)
        requires
            self.wf(),
            i.wf(),
            o.wf(),
        ensures
            r == self.in_table(i.val(), o.val()),
    {
        proof {
            crate::field::lemma_le_value_nonneg(i.repr@);
        }
        let mut d: u32 = 0;
        while d < self.input_base
            invariant
                self.wf(),
                i.wf(),
                o.wf(),
                0 <= d <= self.input_base,
                !(0 <= i.val() < d),
            decreases self.input_base - d,
        {
            if i.eq_val(&Felt::from_u64(d as u64)) {
                return o.eq_val(&Felt::from_u64(self.digit_map[d as usize]));
            }
            d = d + 1;
        }
        false
    }

    /// Splits a value into its source digits and the destination digits
    /// beside them, most significant first.
    pub fn compute_coefs(&self, value: &Felt) -> (r: Result<(Vec<u64>, Vec<u64>), ConversionError>)
        requires
            self.wf(),
        ensures
            match r {
                Ok((ins, outs)) => self.in_domain(value.val()) && ins@ == self.source_digits(
                    value.val(),
                ) && outs@ == self.dest_digits(value.val()),
                Err(e) => !self.in_domain(value.val()) && e == ConversionError::Decomposition,
            },
    {
        let n = self.num_digits;
        let b = self.input_base;
        let r = radix_digits(&value.repr, b);
        let len = r.len();
        let ghost x = value.val();
        let ghost bi = b as int;
        proof {
            lemma_horner_nonneg(r@, bi);
        }
        // Digits above the table's count must all be zero.
        let mut k: usize = 0;
        while k < len && len - k > n
            invariant
                0 <= k <= len,
                len == r@.len(),
                bi == b as int,
                b == self.input_base,
                n == self.num_digits,
                2 <= b <= 256,
                horner(r@, bi) == value.val(),
                digits_below(r@, bi),
                forall|j: int| 0 <= j < k ==> r@[j] == 0,
            decreases len - k,
        {
            if r[k] != 0 {
                proof {
                    let head = r@.subrange(0, len - n);
                    let tail = r@.subrange(len - n, len as int);
                    assert(r@ =~= head + tail);
                    lemma_horner_append(head, tail, bi);
                    lemma_horner_nonzero(head, bi, k as int);
                    lemma_horner_nonneg(tail, bi);
                    vstd::arithmetic::power::lemma_pow_positive(bi, n as nat);
                    let p = pow(bi, n as nat);
                    assert(horner(head, bi) * p >= p) by (nonlinear_arith)
                        requires horner(head, bi) >= 1, p >= 1;
                }
                return Err(ConversionError::Decomposition);
            }
            k = k + 1;
        }
        let mut ins: Vec<u64> = Vec::new();
        let mut i: usize = 0;
        while i < n
            invariant
                0 <= i <= n,
                len == r@.len(),
                ins@.len() == i,
                forall|j: int|
                    0 <= j < i ==> ins@[j] == (if j + len >= n {
                        r@[j + len - n]
                    } else {
                        0u64
                    }),
            decreases n - i,
        {
            if len >= n {
                ins.push(r[i + (len - n)]);
            } else if i >= n - len {
                ins.push(r[i - (n - len)]);
            } else {
                ins.push(0);
            }
            i = i + 1;
        }
        proof {
            if len >= n {
                let head = r@.subrange(0, len - n);
                assert(r@ =~= head + ins@);
                lemma_horner_append(head, ins@, bi);
                lemma_horner_zeros(head, bi);
            } else {
                let zeros = ins@.subrange(0, n - len);
                assert(ins@ =~= zeros + r@);
                lemma_horner_append(zeros, r@, bi);
                lemma_horner_zeros(zeros, bi);
            }
            assert(digits_below(ins@, bi));
            lemma_horner_bound(ins@, bi);
            lemma_digits_unique(ins@, b as nat);
        }
        let mut outs: Vec<u64> = Vec::new();
        let mut i: usize = 0;
        while i < n
            invariant
                self.wf(),
                b == self.input_base,
                0 <= i <= n,
                ins@.len() == n,
                digits_below(ins@, b as int),
                outs@.len() == i,
                forall|j: int| 0 <= j < i ==> outs@[j] == self.digit_map@[ins@[j] as int],
            decreases n - i,
        {
            outs.push(self.digit_map[ins[i] as usize]);
            i = i + 1;
        }
        assert(outs@ =~= self.map_digits(ins@));
        Ok((ins, outs))
    }
}

/// Relies on num-bigint's `BigUint::to_radix_be` (after
/// `BigUint::from_bytes_le`, which reads the bytes): the digits of the value
/// in the radix, most significant first.
#[verifier::external_body]
fn radix_digits(bytes: &[u8; 32], radix: u32) -> (r: Vec<u64>)
    requires
        2 <= radix <= 256,
    ensures
        digits_below(r@, radix as int),
        horner(r@, radix as int) == le_value(bytes@),
{
    num_bigint::BigUint::from_bytes_le(bytes).to_radix_be(radix).into_iter().map(u64::from).collect()
}

} // verus!
