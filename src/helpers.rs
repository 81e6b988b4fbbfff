//! Cells that carry a lane, and field elements to and from integers.
use crate::field::{is_canonical, le_value, lemma_le_value_nonneg, lemma_le_value_zero, modulus, Felt};
use vstd::arithmetic::power::pow;
use vstd::prelude::*;

verus! {

/// Where a cell stands in a circuit layout.
#[derive(Clone, Copy, Debug, PartialEq, Eq, Structural)]
pub struct CellRef {
    pub region_index: usize,
    pub row_offset: usize,
    pub column: usize,
}

/// A lane of the permutation state: the cell that holds it and its value.
#[derive(Clone, Copy, Debug)]
pub struct Lane {
    pub cell: CellRef,
    pub value: Felt,
}

/// The block counter: the cell that holds it and its value.
#[derive(Clone, Copy, Debug)]
pub struct BlockCount {
    pub cell: CellRef,
    pub value: Felt,
}

/// Splitting a byte string splits its value by a power of 256.
pub proof fn lemma_le_value_append(a: Seq<u8>, b: Seq<u8>)
    ensures
        le_value(a + b) == le_value(a) + pow(256, a.len() as nat) * le_value(b),
    decreases a.len(),
{
    if a.len() == 0 {
        assert(a + b =~= b);
        vstd::arithmetic::power::lemma_pow0(256);
    } else {
        let t = a.subrange(1, a.len() as int);
        assert((a + b).subrange(1, (a + b).len() as int) =~= t + b);
        lemma_le_value_append(t, b);
        vstd::arithmetic::power::lemma_pow_adds(256, 1, t.len() as nat);
        vstd::arithmetic::power::lemma_pow1(256);
        let p = pow(256, t.len() as nat);
        assert(256 * (le_value(t) + p * le_value(b)) == 256 * le_value(t) + (256 * p) * le_value(b))
            by (nonlinear_arith);
    }
}

/// The field element whose value is the integer with these little-endian
/// bytes, when that integer is below the modulus.
#[allow(non_snake_case)]
pub fn biguint_to_F(x: &Vec<u8>) -> (r: Option<Felt>)
    ensures
        r matches Some(f) ==> f.wf() && f.val() == le_value(x@),
        r is None <==> le_value(x@) >= modulus(),
{
    let len = x.len();
    let mut k: usize = 32;
    while k < len
        invariant
            32 <= k,
            len == x@.len(),
            forall|j: int| 32 <= j < k && j < len ==> x@[j] == 0,
        decreases len - k,
    {
        if x[k] != 0 {
            proof {
                let head = x@.subrange(0, 32);
                let rest = x@.subrange(32, len as int);
                assert(x@ =~= head + rest);
                lemma_le_value_append(head, rest);
                lemma_le_value_zero(rest);
                assert(rest[k - 32] == x@[k as int]);
                lemma_le_value_nonneg(rest);
                lemma_le_value_nonneg(head);
                let p = pow(256, 32);
                vstd::arithmetic::power::lemma_pow1(256);
                vstd::arithmetic::power::lemma_pow_adds(256, 1, 1);
                vstd::arithmetic::power::lemma_pow_adds(256, 2, 2);
                vstd::arithmetic::power::lemma_pow_adds(256, 4, 4);
                vstd::arithmetic::power::lemma_pow_adds(256, 8, 8);
                vstd::arithmetic::power::lemma_pow_adds(256, 16, 16);
                assert(pow(256, 2) == 0x1_0000);
                assert(pow(256, 4) == pow(256, 2) * pow(256, 2));
                let (p2, p4, p8, p16) = (pow(256, 2), pow(256, 4), pow(256, 8), pow(256, 16));
                assert(p4 == 0x1_0000_0000) by (nonlinear_arith)
                    requires p4 == p2 * p2, p2 == 0x1_0000;
                assert(pow(256, 8) == pow(256, 4) * pow(256, 4));
                assert(p8 == 0x1_0000_0000 * 0x1_0000_0000) by (nonlinear_arith)
                    requires p8 == p4 * p4, p4 == 0x1_0000_0000;
                let h = 0x8000_0000_0000_0000_0000_0000_0000_0000 * 2;
                assert(pow(256, 16) == pow(256, 8) * pow(256, 8));
                assert(p16 == h) by (nonlinear_arith)
                    requires p16 == p8 * p8, p8 == 0x1_0000_0000 * 0x1_0000_0000, h == 0x8000_0000_0000_0000_0000_0000_0000_0000 * 2;
                assert(p == p16 * p16);
                assert(p >= modulus()) by (nonlinear_arith)
                    requires p == p16 * p16, p16 == h, h == 0x8000_0000_0000_0000_0000_0000_0000_0000 * 2;
                assert(p == h * h);
                assert(p * le_value(rest) >= p) by (nonlinear_arith)
                    requires le_value(rest) >= 1, p >= 1;
            }
            return None;
        }
        k = k + 1;
    }
    let mut repr: [u8; 32] = [0u8; 32];
    let mut i: usize = 0;
    while i < 32
        invariant
            0 <= i <= 32,
            len == x@.len(),
            forall|j: int| 0 <= j < i ==> repr@[j] == (if j < len { x@[j] } else { 0u8 }),
            forall|j: int| i <= j < 32 ==> repr@[j] == 0,
        decreases 32 - i,
    {
        if i < len {
            repr[i] = x[i];
        }
        i = i + 1;
    }
    proof {
        if len <= 32 {
            let zeros = repr@.subrange(len as int, 32);
            assert(repr@ =~= x@ + zeros);
            lemma_le_value_append(x@, zeros);
            lemma_le_value_zero(zeros);
        } else {
            let rest = x@.subrange(32, len as int);
            assert(x@ =~= repr@ + rest);
            lemma_le_value_append(repr@, rest);
            lemma_le_value_zero(rest);
        }
    }
    if is_canonical(repr) {
        Some(Felt { repr })
    } else {
        None
    }
}

/// The little-endian bytes of a field element's value.
#[allow(non_snake_case)]
pub fn F_to_biguint(x: Felt) -> (r: Vec<u8>)
    ensures
        r@.len() == 32,
        le_value(r@) == x.val(),
{
    let mut r: Vec<u8> = Vec::new();
    let mut i: usize = 0;
    while i < 32
        invariant
            0 <= i <= 32,
            r@ == x.repr@.subrange(0, i as int),
        decreases 32 - i,
    {
        r.push(x.repr[i]);
        i = i + 1;
    }
    assert(r@ =~= x.repr@);
    r
}

} // verus!
