//! Positional notation: the value of a digit string and the digits of a value.
use vstd::arithmetic::power::pow;
use vstd::prelude::*;

verus! {

/// The value of a digit string, most significant digit first, in base `b`:
/// the running sum `acc = acc * b + digit` over the digits.
pub open spec fn horner(s: Seq<u64>, b: int) -> int
    decreases s.len(),
{
    if s.len() == 0 {
        0
    } else {
        horner(s.drop_last(), b) * b + s.last()
    }
}

/// The `n` lowest digits of `x` in base `b`, most significant first.
pub open spec fn digits_of(x: nat, b: nat, n: nat) -> Seq<u64>
    decreases n,
{
    if n == 0 || b == 0 {
        Seq::empty()
    } else {
        digits_of(x / b, b, (n - 1) as nat).push((x % b) as u64)
    }
}

/// Every digit is below `b`.
pub open spec fn digits_below(s: Seq<u64>, b: int) -> bool {
    forall|i: int| 0 <= i < s.len() ==> s[i] < b
}

pub proof fn lemma_horner_append(a: Seq<u64>, c: Seq<u64>, b: int)
    ensures
        horner(a + c, b) == horner(a, b) * pow(b, c.len() as nat) + horner(c, b),
    decreases c.len(),
{
    if c.len() == 0 {
        assert(a + c =~= a);
        vstd::arithmetic::power::lemma_pow0(b);
    } else {
        assert((a + c).drop_last() =~= a + c.drop_last());
        lemma_horner_append(a, c.drop_last(), b);
        vstd::arithmetic::power::lemma_pow_adds(b, (c.len() - 1) as nat, 1);
        vstd::arithmetic::power::lemma_pow1(b);
        let h = horner(a, b);
        let p = pow(b, (c.len() - 1) as nat);
        assert((h * p + horner(c.drop_last(), b)) * b == h * (p * b) + horner(c.drop_last(), b) * b)
            by (nonlinear_arith);
    }
}

pub proof fn lemma_horner_bound(s: Seq<u64>, b: int)
    requires
        b >= 1,
        digits_below(s, b),
    ensures
        0 <= horner(s, b) < pow(b, s.len() as nat),
    decreases s.len(),
{
    if s.len() == 0 {
        vstd::arithmetic::power::lemma_pow0(b);
    } else {
        let t = s.drop_last();
        lemma_horner_bound(t, b);
        vstd::arithmetic::power::lemma_pow_adds(b, t.len() as nat, 1);
        vstd::arithmetic::power::lemma_pow1(b);
        let h = horner(t, b);
        let p = pow(b, t.len() as nat);
        let d = s.last() as int;
        assert(0 <= h * b + d < p * b) by (nonlinear_arith)
            requires 0 <= h < p, 0 <= d < b;
    }
}

pub proof fn lemma_horner_nonneg(s: Seq<u64>, b: int)
    requires
        b >= 0,
    ensures
        horner(s, b) >= 0,
    decreases s.len(),
{
    if s.len() > 0 {
        lemma_horner_nonneg(s.drop_last(), b);
        assert(horner(s.drop_last(), b) * b >= 0) by (nonlinear_arith)
            requires horner(s.drop_last(), b) >= 0, b >= 0;
    }
}

/// A string with a nonzero digit has a positive value.
pub proof fn lemma_horner_nonzero(s: Seq<u64>, b: int, k: int)
    requires
        b >= 1,
        0 <= k < s.len(),
        s[k] != 0,
    ensures
        horner(s, b) >= 1,
    decreases s.len(),
{
    let t = s.drop_last();
    lemma_horner_nonneg(t, b);
    if k == s.len() - 1 {
        assert(horner(t, b) * b >= 0) by (nonlinear_arith) requires horner(t, b) >= 0, b >= 1;
    } else {
        lemma_horner_nonzero(t, b, k);
        assert(horner(t, b) * b >= 1) by (nonlinear_arith) requires horner(t, b) >= 1, b >= 1;
    }
}

/// A string of zeros has value zero.
pub proof fn lemma_horner_zeros(s: Seq<u64>, b: int)
    requires
        forall|i: int| 0 <= i < s.len() ==> s[i] == 0,
    ensures
        horner(s, b) == 0,
    decreases s.len(),
{
    if s.len() > 0 {
        lemma_horner_zeros(s.drop_last(), b);
    }
}

/// The digits of `x` spell `x` back when it has no more than `n` of them.
pub proof fn lemma_digits_of_value(x: nat, b: nat, n: nat)
    requires
        2 <= b <= u64::MAX,
        x < pow(b as int, n),
    ensures
        digits_of(x, b, n).len() == n,
        digits_below(digits_of(x, b, n), b as int),
        horner(digits_of(x, b, n), b as int) == x,
    decreases n,
{
    if n == 0 {
        vstd::arithmetic::power::lemma_pow0(b as int);
    } else {
        vstd::arithmetic::power::lemma_pow_adds(b as int, (n - 1) as nat, 1);
        vstd::arithmetic::power::lemma_pow1(b as int);
        vstd::arithmetic::power::lemma_pow_positive(b as int, (n - 1) as nat);
        let p = pow(b as int, (n - 1) as nat);
        vstd::arithmetic::div_mod::lemma_fundamental_div_mod(x as int, b as int);
        assert(x / b < p) by (nonlinear_arith)
            requires x < p * b, b >= 2, x == b * (x / b) + x % b, 0 <= x % b < b, p >= 1;
        lemma_digits_of_value(x / b, b, (n - 1) as nat);
        let s = digits_of(x, b, n);
        assert(s.drop_last() =~= digits_of(x / b, b, (n - 1) as nat));
        vstd::arithmetic::div_mod::lemma_mod_bound(x as int, b as int);
        assert(s.last() as int == x % b);
        assert(horner(s, b as int) == (x / b) * b + x % b);
    }
}

/// A string of `n` digits below `b` is the only one that spells its value.
pub proof fn lemma_digits_unique(s: Seq<u64>, b: nat)
    requires
        b >= 2,
        digits_below(s, b as int),
    ensures
        horner(s, b as int) >= 0,
        digits_of(horner(s, b as int) as nat, b, s.len() as nat) == s,
    decreases s.len(),
{
    lemma_horner_bound(s, b as int);
    if s.len() == 0 {
        assert(digits_of(0, b, 0) =~= s);
    } else {
        let t = s.drop_last();
        lemma_digits_unique(t, b);
        let h = horner(t, b as int);
        let d = s.last() as int;
        let x = horner(s, b as int);
        vstd::arithmetic::div_mod::lemma_fundamental_div_mod_converse(x, b as int, h, d);
        assert(digits_of(x as nat, b, s.len() as nat) =~= t.push(s.last()));
        assert(t.push(s.last()) =~= s);
    }
}

} // verus!
