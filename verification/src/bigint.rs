//! Natural numbers of any size as base-2^32 digits, with the arithmetic of `num-bigint`,
//! and their conversion from and to field elements.

use crate::field::{limbs_value, modulus, weight1, weight2, weight3, Fr};
use num_bigint::BigUint;
use num_integer::Integer;
use vstd::prelude::*;

verus! {

/// The base of the digits, `2^32`.
pub open spec fn base() -> nat {
    0x1_0000_0000
}

/// The number that digits denote, least significant digit first.
pub open spec fn digits_value(d: Seq<u32>) -> nat
    decreases d.len(),
{
    if d.len() == 0 {
        0
    } else {
        d[0] as nat + base() * digits_value(d.drop_first())
    }
}

/// `BigUint`'s `*`: the digits of the product.
#[verifier::external_body]
fn big_mul(a: &Vec<u32>, b: &Vec<u32>) -> (r: Vec<u32>)
    ensures
        digits_value(r@) == digits_value(a@) * digits_value(b@),
{
    (BigUint::from_slice(a) * BigUint::from_slice(b)).to_u32_digits()
}

/// `BigUint`'s `+`: the digits of the sum.
#[verifier::external_body]
fn big_add(a: &Vec<u32>, b: &Vec<u32>) -> (r: Vec<u32>)
    ensures
        digits_value(r@) == digits_value(a@) + digits_value(b@),
{
    (BigUint::from_slice(a) + BigUint::from_slice(b)).to_u32_digits()
}

/// `Integer::mod_floor` on `BigUint`: the digits of the remainder, for a modulus that
/// is not zero.
#[verifier::external_body]
fn big_mod_floor(a: &Vec<u32>, m: &Vec<u32>) -> (r: Vec<u32>)
    requires
        digits_value(m@) != 0,
    ensures
        digits_value(r@) == digits_value(a@) % digits_value(m@),
{
    BigUint::from_slice(a).mod_floor(&BigUint::from_slice(m)).to_u32_digits()
}

/// A zero digit at the end changes nothing.
pub proof fn lemma_push_zero(d: Seq<u32>)
    ensures
        digits_value(d.push(0)) == digits_value(d),
    decreases d.len(),
{
    if d.len() == 0 {
        assert(d.push(0).drop_first() =~= Seq::<u32>::empty());
        assert(digits_value(Seq::<u32>::empty()) == 0);
    } else {
        assert(d.push(0).drop_first() =~= d.drop_first().push(0));
        lemma_push_zero(d.drop_first());
    }
}

/// Digits that are all zero denote zero, and any others do not.
pub proof fn lemma_zero_digits(d: Seq<u32>)
    ensures
        (digits_value(d) == 0) == (forall|i: int| 0 <= i < d.len() ==> #[trigger] d[i] == 0),
    decreases d.len(),
{
    if d.len() > 0 {
        let rest = d.drop_first();
        lemma_zero_digits(rest);
        assert(base() * digits_value(rest) >= 0) by (nonlinear_arith);
        assert(digits_value(rest) != 0 ==> base() * digits_value(rest) != 0) by (nonlinear_arith)
            requires
                base() == 0x1_0000_0000,
        ;
        if forall|i: int| 0 <= i < d.len() ==> #[trigger] d[i] == 0 {
            assert forall|i: int| 0 <= i < rest.len() implies #[trigger] rest[i] == 0 by {
                assert(rest[i] == d[i + 1]);
            }
            assert(d[0] == 0);
            assert(base() * 0 == 0) by (nonlinear_arith);
        }
        if digits_value(d) == 0 {
            assert forall|i: int| 0 <= i < d.len() implies #[trigger] d[i] == 0 by {
                if i > 0 {
                    assert(rest[i - 1] == d[i]);
                }
            }
        }
    }
}

/// The number that eight digits and a tail denote.
pub proof fn lemma_eight_digits(d: Seq<u32>)
    requires
        d.len() >= 8,
    ensures
        digits_value(d) == limbs_value(
            (d[0] as nat + base() * d[1] as nat) as u64,
            (d[2] as nat + base() * d[3] as nat) as u64,
            (d[4] as nat + base() * d[5] as nat) as u64,
            (d[6] as nat + base() * d[7] as nat) as u64,
        ) + weight3() * weight1() * digits_value(d.skip(8)),
{
    let b = base();
    let d1 = d.drop_first();
    let d2 = d1.drop_first();
    let d3 = d2.drop_first();
    let d4 = d3.drop_first();
    let d5 = d4.drop_first();
    let d6 = d5.drop_first();
    let d7 = d6.drop_first();
    let d8 = d7.drop_first();
    assert(d8 =~= d.skip(8));
    let t = digits_value(d8);
    assert(digits_value(d7) == d[7] as nat + b * t);
    assert(digits_value(d6) == d[6] as nat + b * digits_value(d7));
    assert(digits_value(d5) == d[5] as nat + b * digits_value(d6));
    assert(digits_value(d4) == d[4] as nat + b * digits_value(d5));
    assert(digits_value(d3) == d[3] as nat + b * digits_value(d4));
    assert(digits_value(d2) == d[2] as nat + b * digits_value(d3));
    assert(digits_value(d1) == d[1] as nat + b * digits_value(d2));
    assert(digits_value(d) == d[0] as nat + b * digits_value(d1));
    assert(weight1() == b * b);
    assert(weight2() == weight1() * weight1());
    assert(weight3() == weight2() * weight1());
    let (x0, x1, x2, x3, x4, x5, x6, x7) = (
        d[0] as nat,
        d[1] as nat,
        d[2] as nat,
        d[3] as nat,
        d[4] as nat,
        d[5] as nat,
        d[6] as nat,
        d[7] as nat,
    );
    assert(x0 + b * x1 <= u64::MAX && x2 + b * x3 <= u64::MAX && x4 + b * x5 <= u64::MAX && x6 + b
        * x7 <= u64::MAX) by (nonlinear_arith)
        requires
            b == 0x1_0000_0000,
            x0 < b,
            x1 < b,
            x2 < b,
            x3 < b,
            x4 < b,
            x5 < b,
            x6 < b,
            x7 < b,
    ;
    assert(b == 0x1_0000_0000);
    let w1: nat = 0x1_0000_0000_0000_0000;
    assert(weight1() == w1);
    assert(digits_value(d7) == x7 + 0x1_0000_0000 * t);
    assert(digits_value(d6) == x6 + 0x1_0000_0000 * x7 + w1 * t);
    let low3 = x6 + 0x1_0000_0000 * x7;
    assert(digits_value(d4) == x4 + 0x1_0000_0000 * x5 + w1 * low3 + weight2() * t);
    let low2 = x4 + 0x1_0000_0000 * x5;
    assert(digits_value(d2) == x2 + 0x1_0000_0000 * x3 + w1 * low2 + weight2() * low3 + weight3()
        * t);
    let low1 = x2 + 0x1_0000_0000 * x3;
    let low0 = x0 + 0x1_0000_0000 * x1;
    assert(weight3() * weight1() * t == weight1() * (weight3() * t)) by (nonlinear_arith);
    assert(digits_value(d) == low0 + w1 * low1 + weight2() * low2 + weight3() * low3 + w1 * (
    weight3() * t));
}

/// The digits of a field element.
pub fn scalar_digits(f: &Fr) -> (r: Vec<u32>)
    ensures
        digits_value(r@) == f@,
        r@.len() == 8,
{
    let limbs = f.to_limbs();
    let mut r: Vec<u32> = Vec::new();
    let mut i: usize = 0;
    while i < 4
        invariant
            0 <= i <= 4,
            r@.len() == 2 * i,
            forall|j: int|
                0 <= j < i ==> (#[trigger] r@[2 * j]) as nat + base() * r@[2 * j + 1] as nat
                    == limbs[j] as nat,
        decreases 4 - i,
    {
        let l = limbs[i];
        let lo = (l & 0xffff_ffff) as u32;
        let hi = (l >> 32) as u32;
        proof {
            assert((l & 0xffff_ffff) + 0x1_0000_0000 * (l >> 32) == l) by (bit_vector);
            assert((l & 0xffff_ffff) <= 0xffff_ffff) by (bit_vector);
            assert((l >> 32) <= 0xffff_ffff) by (bit_vector);
            let before = r@;
            assert forall|j: int| 0 <= j < i implies (#[trigger] before.push(lo).push(hi)[2 * j]) as nat
                + base() * before.push(lo).push(hi)[2 * j + 1] as nat == limbs[j] as nat by {
                assert(before.push(lo).push(hi)[2 * j] == before[2 * j]);
                assert(before.push(lo).push(hi)[2 * j + 1] == before[2 * j + 1]);
            }
        }
        r.push(lo);
        r.push(hi);
        i += 1;
    }
    proof {
        lemma_eight_digits(r@);
        assert(r@.skip(8) =~= Seq::<u32>::empty());
        assert(digits_value(Seq::<u32>::empty()) == 0);
        assert(weight3() * weight1() * 0 == 0) by (nonlinear_arith);
        assert(r@[2 * 0int] as nat + base() * r@[2 * 0int + 1] as nat == limbs[0] as nat);
        assert(r@[2 * 1int] as nat + base() * r@[2 * 1int + 1] as nat == limbs[1] as nat);
        assert(r@[2 * 2int] as nat + base() * r@[2 * 2int + 1] as nat == limbs[2] as nat);
        assert(r@[2 * 3int] as nat + base() * r@[2 * 3int + 1] as nat == limbs[3] as nat);
    }
    r
}

/// The field element that digits denote, if they denote a reduced value.
pub fn digits_to_scalar(d: &Vec<u32>) -> (r: Option<Fr>)
    ensures
        r is Some <==> digits_value(d@) < modulus(),
        r is Some ==> r.unwrap()@ == digits_value(d@),
{
    let mut padded: Vec<u32> = Vec::new();
    let mut i: usize = 0;
    while i < d.len()
        invariant
            0 <= i <= d@.len(),
            padded@ == d@.take(i as int),
        decreases d@.len() - i,
    {
        padded.push(d[i]);
        proof {
            assert(d@.take(i as int).push(d@[i as int]) =~= d@.take(i + 1));
        }
        i += 1;
    }
    proof {
        assert(d@.take(d@.len() as int) =~= d@);
    }
    while padded.len() < 8
        invariant
            digits_value(padded@) == digits_value(d@),
        decreases 8 - padded@.len(),
    {
        proof {
            lemma_push_zero(padded@);
        }
        padded.push(0);
    }
    let mut k: usize = 8;
    while k < padded.len()
        invariant
            8 <= k <= padded@.len(),
            digits_value(padded@) == digits_value(d@),
            forall|j: int| 8 <= j < k ==> #[trigger] padded@[j] == 0,
        decreases padded@.len() - k,
    {
        if padded[k] != 0 {
            proof {
                let tail = padded@.skip(8);
                lemma_eight_digits(padded@);
                lemma_zero_digits(tail);
                assert(tail[k - 8] == padded@[k as int]);
                assert(digits_value(tail) >= 1);
                assert(weight3() * weight1() * digits_value(tail) >= weight3() * weight1())
                    by (nonlinear_arith)
                    requires
                        digits_value(tail) >= 1,
                ;
                assert(weight3() * weight1() > modulus());
            }
            return None;
        }
        k += 1;
    }
    let l0 = lower(padded[0], padded[1]);
    let l1 = lower(padded[2], padded[3]);
    let l2 = lower(padded[4], padded[5]);
    let l3 = lower(padded[6], padded[7]);
    proof {
        let tail = padded@.skip(8);
        lemma_eight_digits(padded@);
        lemma_zero_digits(tail);
        assert forall|j: int| 0 <= j < tail.len() implies #[trigger] tail[j] == 0 by {
            assert(tail[j] == padded@[j + 8]);
        }
        assert(weight3() * weight1() * 0 == 0) by (nonlinear_arith);
    }
    Fr::from_limbs([l0, l1, l2, l3])
}

/// The 64-bit limb that two digits make up.
fn lower(lo: u32, hi: u32) -> (r: u64)
    ensures
        r == lo as nat + base() * hi as nat,
{
    let l = lo as u64;
    let h = hi as u64;
    proof {
        assert(l + 0x1_0000_0000 * h <= 0xffff_ffff_ffff_ffff) by (nonlinear_arith)
            requires
                l <= 0xffff_ffff,
                h <= 0xffff_ffff,
        ;
    }
    l + 0x1_0000_0000 * h
}

/// `(r + h * a) mod order`, as a field element: the scalar of a signature.
pub fn combine(r: &Fr, h: &Fr, a: &Fr, order: &Vec<u32>) -> (s: Option<Fr>)
    requires
        digits_value(order@) != 0,
    ensures
        s is Some <==> (r@ + h@ * a@) % digits_value(order@) < modulus(),
        s is Some ==> s.unwrap()@ == (r@ + h@ * a@) % digits_value(order@),
{
    let ha = big_mul(&scalar_digits(h), &scalar_digits(a));
    let sum = big_add(&scalar_digits(r), &ha);
    let reduced = big_mod_floor(&sum, order);
    digits_to_scalar(&reduced)
}

} // verus!
