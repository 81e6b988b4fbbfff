//! Elements of the Pallas base field, held as canonical little-endian bytes.
use pasta_curves::group::ff::PrimeField;
use vstd::prelude::*;

verus! {

/// The prime order of the field.
pub open spec fn modulus() -> int {
    (0x4000_0000_0000_0000_0000_0000_0000_0000 * 0x8000_0000_0000_0000_0000_0000_0000_0000 * 2
        + 0x2246_98fc_094c_f91b_992d_30ed_0000_0001) as int
}

/// The integer that a little-endian byte string denotes.
pub open spec fn le_value(b: Seq<u8>) -> int
    decreases b.len(),
{
    if b.len() == 0 {
        0
    } else {
        b[0] as int + 256 * le_value(b.subrange(1, b.len() as int))
    }
}

/// A field element in canonical form: its 32 bytes, least significant first.
#[derive(Clone, Copy, Debug)]
pub struct Felt {
    pub repr: [u8; 32],
}

impl Felt {
    /// The element as an integer in `[0, modulus())` when well formed.
    pub open spec fn val(&self) -> int {
        le_value(self.repr@)
    }

    pub open spec fn wf(&self) -> bool {
        self.val() < modulus()
    }

    /// The additive identity.
    pub fn zero() -> (r: Felt)
        ensures
            r.wf(),
            r.val() == 0,
    {
        felt_from_u64(0)
    }

    /// The element whose value is `v`.
    pub fn from_u64(v: u64) -> (r: Felt)
        ensures
            r.wf(),
            r.val() == v,
    {
        felt_from_u64(v)
    }

    /// Whether the element is zero.
    pub fn is_zero(&self) -> (r: bool)
        ensures
            r == (self.val() == 0),
    {
        let mut i: usize = 0;
        while i < 32
            invariant
                0 <= i <= 32,
                forall|j: int| 0 <= j < i ==> self.repr@[j] == 0,
            decreases 32 - i,
        {
            if self.repr[i] != 0 {
                proof {
                    lemma_le_value_zero(self.repr@);
                }
                return false;
            }
            i = i + 1;
        }
        proof {
            lemma_le_value_zero(self.repr@);
        }
        true
    }

    /// Whether two elements are equal in the field.
    pub fn eq_val(&self, other: &Felt) -> (r: bool)
        requires
            self.wf(),
            other.wf(),
        ensures
            r == (self.val() == other.val()),
    {
        let d = felt_sub(self, other);
        proof {
            let m = modulus();
            let a = self.val();
            let b = other.val();
            lemma_le_value_nonneg(self.repr@);
            lemma_le_value_nonneg(other.repr@);
            vstd::arithmetic::div_mod::lemma_fundamental_div_mod(a - b, m);
            let q = (a - b) / m;
            if (a - b) % m == 0 && a != b {
                assert(false) by (nonlinear_arith)
                    requires
                        a - b == m * q,
                        0 <= a < m,
                        0 <= b < m,
                        a != b,
                ;
            }
            if a == b {
                vstd::arithmetic::div_mod::lemma_small_mod(0, m as nat);
            }
        }
        d.is_zero()
    }
}

/// The value of a byte string is never negative.
pub proof fn lemma_le_value_nonneg(b: Seq<u8>)
    ensures
        le_value(b) >= 0,
    decreases b.len(),
{
    if b.len() > 0 {
        lemma_le_value_nonneg(b.subrange(1, b.len() as int));
    }
}

/// A byte string has value zero exactly when every byte is zero.
pub proof fn lemma_le_value_zero(b: Seq<u8>)
    ensures
        le_value(b) == 0 <==> forall|j: int| 0 <= j < b.len() ==> b[j] == 0,
    decreases b.len(),
{
    if b.len() > 0 {
        let t = b.subrange(1, b.len() as int);
        lemma_le_value_zero(t);
        lemma_le_value_nonneg(t);
        if le_value(b) == 0 {
            assert forall|j: int| 0 <= j < b.len() implies b[j] == 0 by {
                if j > 0 {
                    assert(b[j] == t[j - 1]);
                }
            }
        }
        if forall|j: int| 0 <= j < b.len() ==> b[j] == 0 {
            assert forall|j: int| 0 <= j < t.len() implies t[j] == 0 by {
                assert(t[j] == b[j + 1]);
            }
        }
    }
}

/// Relies on pasta_curves' `From<u64> for Fp` and `Fp::to_repr`: the element
/// with the integer's value, as canonical little-endian bytes.
#[verifier::external_body]
fn felt_from_u64(v: u64) -> (r: Felt)
    ensures
        r.wf(),
        r.val() == v,
{
    Felt { repr: pasta_curves::Fp::from(v).to_repr() }
}

/// Relies on pasta_curves' `Fp` addition (`Fp::from_repr` and `Fp::to_repr`
/// only convert): the sum reduced by the modulus.
#[verifier::external_body]
pub(crate) fn felt_add(a: &Felt, b: &Felt) -> (r: Felt)
    requires
        a.wf(),
        b.wf(),
    ensures
        r.wf(),
        r.val() == (a.val() + b.val()) % modulus(),
{
    let x = pasta_curves::Fp::from_repr(a.repr).unwrap();
    let y = pasta_curves::Fp::from_repr(b.repr).unwrap();
    Felt { repr: (x + y).to_repr() }
}

/// Relies on pasta_curves' `Fp` subtraction (`Fp::from_repr` and
/// `Fp::to_repr` only convert): the difference reduced by the modulus.
#[verifier::external_body]
pub(crate) fn felt_sub(a: &Felt, b: &Felt) -> (r: Felt)
    requires
        a.wf(),
        b.wf(),
    ensures
        r.wf(),
        r.val() == (a.val() - b.val()) % modulus(),
{
    let x = pasta_curves::Fp::from_repr(a.repr).unwrap();
    let y = pasta_curves::Fp::from_repr(b.repr).unwrap();
    Felt { repr: (x - y).to_repr() }
}

/// Relies on pasta_curves' `Fp` multiplication (`Fp::from_repr` and
/// `Fp::to_repr` only convert): the product reduced by the modulus.
#[verifier::external_body]
pub(crate) fn felt_mul(a: &Felt, b: &Felt) -> (r: Felt)
    requires
        a.wf(),
        b.wf(),
    ensures
        r.wf(),
        r.val() == (a.val() * b.val()) % modulus(),
{
    let x = pasta_curves::Fp::from_repr(a.repr).unwrap();
    let y = pasta_curves::Fp::from_repr(b.repr).unwrap();
    Felt { repr: (x * y).to_repr() }
}

/// Relies on pasta_curves' `Fp::from_repr`: it accepts exactly the byte
/// strings whose little-endian value is below the modulus.
#[verifier::external_body]
pub(crate) fn is_canonical(repr: [u8; 32]) -> (r: bool)
    ensures
        r == (le_value(repr@) < modulus()),
{
    bool::from(pasta_curves::Fp::from_repr(repr).is_some())
}

} // verus!
