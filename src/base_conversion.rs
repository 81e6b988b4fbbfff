//! Base conversion in a circuit: the rows a conversion lays out, the identities
//! they must satisfy, and the witness that satisfies them.
use crate::digits::{horner, lemma_digits_of_value};
use crate::field::{felt_add, felt_mul, felt_sub, modulus, Felt};
use crate::table::{BaseInfo, ConversionError};
use vstd::prelude::*;

verus! {

/// One row of a conversion: the two selectors and the five advice cells.
#[derive(Clone, Copy, Debug)]
pub struct Row {
    pub q_lookup: bool,
    pub q_running_sum: bool,
    pub flag: Felt,
    pub input_coef: Felt,
    pub input_acc: Felt,
    pub output_coef: Felt,
    pub output_acc: Felt,
}

impl Row {
    pub open spec fn wf(&self) -> bool {
        &&& self.flag.wf()
        &&& self.input_coef.wf()
        &&& self.input_acc.wf()
        &&& self.output_coef.wf()
        &&& self.output_acc.wf()
    }
}

/// The rows of one conversion and the last output accumulator cell, which
/// holds the converted value.
#[derive(Clone, Debug)]
pub struct Conversion {
    pub rows: Vec<Row>,
    pub output: Felt,
}

/// `flag * (acc - prev * pob - coef)` vanishes in the field.
pub open spec fn running_sum_vanishes(flag: int, prev: int, acc: int, coef: int, pob: int) -> bool {
    (flag * (acc - prev * pob - coef)) % modulus() == 0
}

/// One more digit in the running sum, reduced by the modulus at each step.
proof fn lemma_running_step(s: Seq<u64>, k: int, b: int)
    requires
        0 <= k < s.len(),
        b >= 0,
    ensures
        ((horner(s.take(k), b) % modulus()) * b % modulus() + s[k] as int) % modulus()
            == horner(s.take(k + 1), b) % modulus(),
{
    assert(s.take(k + 1).drop_last() =~= s.take(k));
    let h = horner(s.take(k), b);
    let m = modulus();
    vstd::arithmetic::div_mod::lemma_mul_mod_noop_left(h, b, m);
    vstd::arithmetic::div_mod::lemma_add_mod_noop(h * b, s[k] as int, m);
    vstd::arithmetic::div_mod::lemma_mod_twice(h * b, m);
    vstd::arithmetic::div_mod::lemma_small_mod(s[k] as nat, m as nat);
}

/// Consecutive running sums of a digit string meet the running-sum identity.
proof fn lemma_running_sum_honest(f: int, s: Seq<u64>, i: int, b: int)
    requires
        0 < i < s.len(),
        b >= 0,
    ensures
        running_sum_vanishes(
            f,
            horner(s.take(i), b) % modulus(),
            horner(s.take(i + 1), b) % modulus(),
            s[i] as int,
            b,
        ),
{
    assert(s.take(i + 1).drop_last() =~= s.take(i));
    let m = modulus();
    let h0 = horner(s.take(i), b);
    let h1 = horner(s.take(i + 1), b);
    let d = s[i] as int;
    vstd::arithmetic::div_mod::lemma_fundamental_div_mod(h0, m);
    vstd::arithmetic::div_mod::lemma_fundamental_div_mod(h1, m);
    let k = (h0 / m) * b - h1 / m;
    assert(h1 % m - (h0 % m) * b - d == m * k) by (nonlinear_arith)
        requires
            h1 == h0 * b + d,
            h0 == m * (h0 / m) + h0 % m,
            h1 == m * (h1 / m) + h1 % m,
            k == (h0 / m) * b - h1 / m,
    ;
    assert(f * (m * k) == (f * k) * m) by (nonlinear_arith);
    vstd::arithmetic::div_mod::lemma_mod_multiples_basic(f * k, m);
}

/// With the flag set, the identity fixes the accumulator given the digit, and
/// the digit given the accumulator.
proof fn lemma_vanish_unique(p: int, b: int, a1: int, c1: int, a2: int, c2: int)
    requires
        running_sum_vanishes(1, p, a1, c1, b),
        running_sum_vanishes(1, p, a2, c2, b),
        0 <= a1 < modulus(),
        0 <= a2 < modulus(),
        0 <= c1 < modulus(),
        0 <= c2 < modulus(),
        a1 == a2 || c1 == c2,
    ensures
        a1 == a2 && c1 == c2,
{
    let m = modulus();
    let k = p * b;
    assert(1 * (a1 - k - c1) == a1 - k - c1);
    assert(1 * (a2 - k - c2) == a2 - k - c2);
    vstd::arithmetic::div_mod::lemma_fundamental_div_mod(a1 - k - c1, m);
    vstd::arithmetic::div_mod::lemma_fundamental_div_mod(a2 - k - c2, m);
    let q1 = (a1 - k - c1) / m;
    let q2 = (a2 - k - c2) / m;
    assert((a1 - a2) - (c1 - c2) == m * (q1 - q2)) by (nonlinear_arith)
        requires
            a1 - k - c1 == m * q1,
            a2 - k - c2 == m * q2,
    ;
    if q1 != q2 {
        assert(false) by (nonlinear_arith)
            requires
                (a1 - a2) - (c1 - c2) == m * (q1 - q2),
                q1 != q2,
                a1 == a2 || c1 == c2,
                0 <= a1 < m,
                0 <= a2 < m,
                0 <= c1 < m,
                0 <= c2 < m,
        ;
    }
}

/// The value a witness cell carries: zero when the value is not known.
pub open spec fn witness_value(input: Option<Felt>) -> int {
    match input {
        Some(v) => v.val(),
        None => 0,
    }
}

/// Base-conversion constraints over one digit-correspondence table.
#[derive(Clone, Debug)]
pub struct BaseConversionConfig {
    pub base_info: BaseInfo,
}

impl BaseConversionConfig {
    pub open spec fn wf(&self) -> bool {
        self.base_info.wf()
    }

    pub open spec fn input_pob(&self) -> int {
        self.base_info.input_base as int
    }

    pub open spec fn output_pob(&self) -> int {
        self.base_info.output_base as int
    }

    /// The three identities at row `i`. The parent flag is taken to be
    /// binary, so the lookup applies exactly where the flag is on.
    pub open spec fn row_holds(&self, rows: Seq<Row>, i: int) -> bool {
        let r = rows[i];
        &&& r.q_running_sum ==> i > 0 && running_sum_vanishes(
            r.flag.val(),
            rows[i - 1].input_acc.val(),
            r.input_acc.val(),
            r.input_coef.val(),
            self.input_pob(),
        ) && running_sum_vanishes(
            r.flag.val(),
            rows[i - 1].output_acc.val(),
            r.output_acc.val(),
            r.output_coef.val(),
            self.output_pob(),
        )
        &&& (r.q_lookup && r.flag.val() != 0) ==> self.base_info.in_table(
            r.input_coef.val(),
            r.output_coef.val(),
        )
    }

    /// The rows satisfy every identity and every copy constraint: each
    /// row's flag is the parent flag, and row 0's accumulators equal its
    /// digits.
    pub open spec fn satisfied(&self, rows: Seq<Row>, flag: Felt) -> bool {
        &&& rows.len() >= 1
        &&& forall|i: int| 0 <= i < rows.len() ==> #[trigger] rows[i].wf()
        &&& rows[0].input_acc.val() == rows[0].input_coef.val()
        &&& rows[0].output_acc.val() == rows[0].output_coef.val()
        &&& forall|i: int| 0 <= i < rows.len() ==> (#[trigger] rows[i]).flag.val() == flag.val()
        &&& forall|i: int| 0 <= i < rows.len() ==> #[trigger] self.row_holds(rows, i)
    }

    /// Row `i` of an honest conversion of `x`: the `i`-th digits and the
    /// running sums of the digits up to it.
    pub open spec fn row_honest(&self, r: Row, i: int, x: int, flag: Felt) -> bool {
        let ins = self.base_info.source_digits(x);
        let outs = self.base_info.dest_digits(x);
        &&& r.wf()
        &&& r.q_lookup
        &&& r.q_running_sum == (i != 0)
        &&& r.flag == flag
        &&& r.input_coef.val() == ins[i] as int
        &&& r.output_coef.val() == outs[i] as int
        &&& r.input_acc.val() == horner(ins.take(i + 1), self.input_pob()) % modulus()
        &&& r.output_acc.val() == horner(outs.take(i + 1), self.output_pob()) % modulus()
    }

    /// The rows an honest conversion of `x` lays out.
    pub open spec fn honest(&self, rows: Seq<Row>, x: int, flag: Felt) -> bool {
        &&& rows.len() == self.base_info.num_digits
        &&& forall|i: int| 0 <= i < rows.len() ==> self.row_honest(#[trigger] rows[i], i, x, flag)
    }

    /// The rows of an honest conversion satisfy every identity and copy
    /// constraint.
    pub proof fn lemma_honest_satisfied(&self, rows: Seq<Row>, x: int, flag: Felt)
        requires
            self.wf(),
            self.base_info.in_domain(x),
            self.honest(rows, x, flag),
            rows.len() >= 1,
        ensures
            self.satisfied(rows, flag),
    {
        let info = self.base_info;
        lemma_digits_of_value(x as nat, info.input_base as nat, info.num_digits as nat);
        let ins = info.source_digits(x);
        let outs = info.dest_digits(x);
        assert(self.row_honest(rows[0], 0, x, flag));
        assert(ins.take(1).drop_last() =~= Seq::<u64>::empty());
        assert(outs.take(1).drop_last() =~= Seq::<u64>::empty());
        assert(horner(Seq::<u64>::empty(), self.input_pob()) == 0);
        assert(horner(Seq::<u64>::empty(), self.output_pob()) == 0);
        assert(horner(ins.take(1), self.input_pob()) == ins[0]);
        assert(horner(outs.take(1), self.output_pob()) == outs[0]);
        vstd::arithmetic::div_mod::lemma_small_mod(ins[0] as nat, modulus() as nat);
        vstd::arithmetic::div_mod::lemma_small_mod(outs[0] as nat, modulus() as nat);
        assert forall|i: int| 0 <= i < rows.len() implies #[trigger] self.row_holds(rows, i) by {
            assert(self.row_honest(rows[i], i, x, flag));
            if i > 0 {
                assert(self.row_honest(rows[i - 1], i - 1, x, flag));
                lemma_running_sum_honest(flag.val(), ins, i, self.input_pob());
                lemma_running_sum_honest(flag.val(), outs, i, self.output_pob());
            }
        }
        assert forall|i: int| 0 <= i < rows.len() implies (#[trigger] rows[i]).wf()
            && rows[i].flag.val() == flag.val() by {
            assert(self.row_honest(rows[i], i, x, flag));
        }
        assert(rows[0].input_acc.val() == rows[0].input_coef.val());
        assert(rows[0].output_acc.val() == rows[0].output_coef.val());
    }

    /// Whether the running-sum identity holds for these cells.
    fn running_sum_check(flag: &Felt, prev: &Felt, acc: &Felt, coef: &Felt, pob: &Felt) -> (r: bool)
        requires
            flag.wf(),
            prev.wf(),
            acc.wf(),
            coef.wf(),
            pob.wf(),
        ensures
            r == running_sum_vanishes(flag.val(), prev.val(), acc.val(), coef.val(), pob.val()),
    {
        let shifted = felt_mul(prev, pob);
        let t = felt_mul(flag, &felt_sub(&felt_sub(acc, &shifted), coef));
        proof {
            let m = modulus();
            let (f, a, p, b, c) = (flag.val(), acc.val(), prev.val(), pob.val(), coef.val());
            crate::field::lemma_le_value_nonneg(acc.repr@);
            crate::field::lemma_le_value_nonneg(coef.repr@);
            vstd::arithmetic::div_mod::lemma_small_mod(a as nat, m as nat);
            vstd::arithmetic::div_mod::lemma_small_mod(c as nat, m as nat);
            vstd::arithmetic::div_mod::lemma_sub_mod_noop(a, p * b, m);
            vstd::arithmetic::div_mod::lemma_sub_mod_noop(a - p * b, c, m);
            vstd::arithmetic::div_mod::lemma_mod_twice(a - p * b, m);
            vstd::arithmetic::div_mod::lemma_mod_twice(p * b, m);
            vstd::arithmetic::div_mod::lemma_mul_mod_noop_right(f, a - p * b - c, m);
        }
        t.is_zero()
    }

    /// Whether the rows satisfy every identity and copy constraint, with
    /// `flag` as the parent flag.
    pub fn check_rows(&self, rows: &Vec<Row>, flag: &Felt) -> (r: bool)
        requires
            self.wf(),
            flag.wf(),
            forall|i: int| 0 <= i < rows@.len() ==> #[trigger] rows@[i].wf(),
        ensures
            r == self.satisfied(rows@, *flag),
    {
        if rows.len() == 0 {
            return false;
        }
        assert(rows@[0].wf());
        if !rows[0].input_acc.eq_val(&rows[0].input_coef) || !rows[0].output_acc.eq_val(
            &rows[0].output_coef,
        ) {
            return false;
        }
        let input_pob = self.base_info.input_pob();
        let output_pob = self.base_info.output_pob();
        let mut i: usize = 0;
        while i < rows.len()
            invariant
                self.wf(),
                flag.wf(),
                forall|j: int| 0 <= j < rows@.len() ==> #[trigger] rows@[j].wf(),
                input_pob.wf() && input_pob.val() == self.input_pob(),
                output_pob.wf() && output_pob.val() == self.output_pob(),
                0 <= i <= rows@.len(),
                forall|j: int| 0 <= j < i ==> #[trigger] self.row_holds(rows@, j),
                forall|j: int| 0 <= j < i ==> (#[trigger] rows@[j]).flag.val() == flag.val(),
            decreases rows@.len() - i,
        {
            let r = &rows[i];
            assert(r.wf());
            if !r.flag.eq_val(flag) {
                assert(!(rows@[i as int].flag.val() == flag.val()));
                return false;
            }
            if r.q_running_sum {
                if i == 0 {
                    assert(!self.row_holds(rows@, i as int));
                    return false;
                }
                let prev = &rows[i - 1];
                assert(prev.wf());
                if !Self::running_sum_check(&r.flag, &prev.input_acc, &r.input_acc, &r.input_coef, &input_pob)
                    || !Self::running_sum_check(&r.flag, &prev.output_acc, &r.output_acc, &r.output_coef, &output_pob) {
                    assert(!self.row_holds(rows@, i as int));
                    return false;
                }
            }
            if r.q_lookup && !r.flag.is_zero() {
                if !self.base_info.lookup(&r.input_coef, &r.output_coef) {
                    assert(!self.row_holds(rows@, i as int));
                    return false;
                }
            }
            assert(self.row_holds(rows@, i as int));
            i = i + 1;
        }
        true
    }

    /// With the flag at zero, the running-sum identities hold at a row
    /// whatever its digit and accumulator cells hold.
    pub proof fn lemma_flag_off_vacuous(&self, rows: Seq<Row>, i: int)
        requires
            0 < i < rows.len(),
            rows[i].flag.val() == 0,
        ensures
            running_sum_vanishes(
                rows[i].flag.val(),
                rows[i - 1].input_acc.val(),
                rows[i].input_acc.val(),
                rows[i].input_coef.val(),
                self.input_pob(),
            ),
            running_sum_vanishes(
                rows[i].flag.val(),
                rows[i - 1].output_acc.val(),
                rows[i].output_acc.val(),
                rows[i].output_coef.val(),
                self.output_pob(),
            ),
    {
        vstd::arithmetic::div_mod::lemma_small_mod(0, modulus() as nat);
    }

    /// With the flag at one, changing any single digit or accumulator cell
    /// of an honest conversion breaks the constraints.
    pub proof fn lemma_flag_on_sound(
        &self,
        rows: Seq<Row>,
        altered: Seq<Row>,
        x: int,
        flag: Felt,
        i: int,
    )
        requires
            self.wf(),
            self.base_info.in_domain(x),
            self.honest(rows, x, flag),
            flag.val() == 1,
            0 <= i < rows.len(),
            altered.len() == rows.len(),
            forall|j: int| 0 <= j < rows.len() && j != i ==> altered[j] == rows[j],
            altered[i].wf(),
            altered[i].q_lookup == rows[i].q_lookup,
            altered[i].q_running_sum == rows[i].q_running_sum,
            altered[i].flag == rows[i].flag,
            ({
                let (a, r) = (altered[i], rows[i]);
                let same_in_coef = a.input_coef.val() == r.input_coef.val();
                let same_in_acc = a.input_acc.val() == r.input_acc.val();
                let same_out_coef = a.output_coef.val() == r.output_coef.val();
                let same_out_acc = a.output_acc.val() == r.output_acc.val();
                ||| !same_in_coef && same_in_acc && same_out_coef && same_out_acc
                ||| same_in_coef && !same_in_acc && same_out_coef && same_out_acc
                ||| same_in_coef && same_in_acc && !same_out_coef && same_out_acc
                ||| same_in_coef && same_in_acc && same_out_coef && !same_out_acc
            }),
        ensures
            !self.satisfied(altered, flag),
    {
        self.lemma_honest_satisfied(rows, x, flag);
        let (a, r) = (altered[i], rows[i]);
        assert(self.row_honest(rows[i], i, x, flag));
        crate::field::lemma_le_value_nonneg(a.input_coef.repr@);
        crate::field::lemma_le_value_nonneg(a.input_acc.repr@);
        crate::field::lemma_le_value_nonneg(a.output_coef.repr@);
        crate::field::lemma_le_value_nonneg(a.output_acc.repr@);
        crate::field::lemma_le_value_nonneg(r.input_coef.repr@);
        crate::field::lemma_le_value_nonneg(r.input_acc.repr@);
        crate::field::lemma_le_value_nonneg(r.output_coef.repr@);
        crate::field::lemma_le_value_nonneg(r.output_acc.repr@);
        if self.satisfied(altered, flag) && i > 0 {
            assert(self.row_holds(altered, i));
            assert(self.row_holds(rows, i));
            assert(altered[i - 1] == rows[i - 1]);
            let pi = rows[i - 1].input_acc.val();
            let po = rows[i - 1].output_acc.val();
            lemma_vanish_unique(
                pi,
                self.input_pob(),
                r.input_acc.val(),
                r.input_coef.val(),
                a.input_acc.val(),
                a.input_coef.val(),
            );
            lemma_vanish_unique(
                po,
                self.output_pob(),
                r.output_acc.val(),
                r.output_coef.val(),
                a.output_acc.val(),
                a.output_coef.val(),
            );
        }
    }

    /// Every digit pair at a row whose lookup selector and flag are on is one
    /// of the table's valid pairs, and a pair outside the table is rejected.
    pub proof fn lemma_lookup_membership(&self, rows: Seq<Row>, flag: Felt, i: int)
        requires
            0 <= i < rows.len(),
            rows[i].q_lookup,
            rows[i].flag.val() != 0,
        ensures
            self.satisfied(rows, flag) ==> self.base_info.in_table(
                rows[i].input_coef.val(),
                rows[i].output_coef.val(),
            ),
            !self.base_info.in_table(rows[i].input_coef.val(), rows[i].output_coef.val())
                ==> !self.satisfied(rows, flag),
    {
        if self.satisfied(rows, flag) {
            assert(self.row_holds(rows, i));
        }
    }

    pub fn new(base_info: BaseInfo) -> (r: Self)
        ensures
            r.base_info == base_info,
    {
        BaseConversionConfig { base_info }
    }

    /// Lays out the conversion of the input cell's value (zero when it is not
    /// known): one row per digit, with the running sums of both digit
    /// strings, and hands back the last output accumulator.
    pub fn assign_region(&self, input: Option<Felt>, flag: Felt) -> (r: Result<
        Conversion,
        ConversionError,
    >)
        requires
            self.wf(),
            flag.wf(),
            input matches Some(v) ==> v.wf(),
        ensures
            match r {
                Ok(c) => {
                    let x = witness_value(input);
                    let n = c.rows@.len();
                    &&& self.base_info.in_domain(x)
                    &&& self.base_info.num_digits >= 2
                    &&& self.honest(c.rows@, x, flag)
                    &&& c.output == c.rows@[n - 1].output_acc
                    &&& c.output.val() == self.base_info.convert(x) % modulus()
                    &&& c.rows@[n - 1].input_acc.val() == x
                    &&& self.satisfied(c.rows@, flag)
                },
                Err(ConversionError::Decomposition) => !self.base_info.in_domain(
                    witness_value(input),
                ),
                Err(ConversionError::DegenerateLength) => self.base_info.in_domain(
                    witness_value(input),
                ) && self.base_info.num_digits < 2,
            },
    {
        let value = match input {
            Some(v) => v,
            None => Felt::zero(),
        };
        let ghost x = value.val();
        let coefs = self.base_info.compute_coefs(&value);
        if coefs.is_err() {
            return Err(ConversionError::Decomposition);
        }
        let (input_coefs, output_coefs) = coefs.unwrap();
        assert(self.base_info.in_domain(x));
        let n = input_coefs.len();
        proof {
            lemma_digits_of_value(
                x as nat,
                self.base_info.input_base as nat,
                self.base_info.num_digits as nat,
            );
        }
        if n < 2 {
            return Err(ConversionError::DegenerateLength);
        }
        let ghost ins = input_coefs@;
        let ghost outs = output_coefs@;
        let input_pob = self.base_info.input_pob();
        let output_pob = self.base_info.output_pob();
        let mut input_acc = Felt::zero();
        let mut output_acc = Felt::zero();
        let mut rows: Vec<Row> = Vec::new();
        let mut offset: usize = 0;
        while offset < n
            invariant
                self.wf(),
                flag.wf(),
                n == self.base_info.num_digits,
                n >= 2,
                ins == input_coefs@,
                outs == output_coefs@,
                ins == self.base_info.source_digits(x),
                outs == self.base_info.dest_digits(x),
                ins.len() == n,
                crate::digits::digits_below(ins, self.input_pob()),
                0 <= offset <= n,
                input_pob.wf() && input_pob.val() == self.input_pob(),
                output_pob.wf() && output_pob.val() == self.output_pob(),
                input_acc.wf(),
                output_acc.wf(),
                input_acc.val() == horner(ins.take(offset as int), self.input_pob()) % modulus(),
                output_acc.val() == horner(outs.take(offset as int), self.output_pob()) % modulus(),
                rows@.len() == offset,
                offset > 0 ==> rows@[offset - 1].output_acc == output_acc,
                forall|i: int| 0 <= i < offset ==> self.row_honest(#[trigger] rows@[i], i, x, flag),
            decreases n - offset,
        {
            let input_coef = Felt::from_u64(input_coefs[offset]);
            let output_coef = Felt::from_u64(output_coefs[offset]);
            proof {
                lemma_running_step(ins, offset as int, self.input_pob());
                lemma_running_step(outs, offset as int, self.output_pob());
            }
            input_acc = felt_add(&felt_mul(&input_acc, &input_pob), &input_coef);
            output_acc = felt_add(&felt_mul(&output_acc, &output_pob), &output_coef);
            rows.push(
                Row {
                    q_lookup: true,
                    q_running_sum: offset != 0,
                    flag,
                    input_coef,
                    input_acc,
                    output_coef,
                    output_acc,
                },
            );
            offset = offset + 1;
        }
        let output = output_acc;
        proof {
            assert(ins.take(n as int) =~= ins);
            assert(outs.take(n as int) =~= outs);
            vstd::arithmetic::div_mod::lemma_small_mod(x as nat, modulus() as nat);
            self.lemma_honest_satisfied(rows@, x, flag);
            assert(self.row_honest(rows@[n - 1], n - 1, x, flag));
        }
        Ok(Conversion { rows, output })
    }
}

} // verus!
