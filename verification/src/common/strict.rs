//! The strict bit decomposition of a field variable: 255 boolean variables that are the
//! bits of the value itself, and of no other number that is congruent to it.
//!
//! The bits are allocated from the most significant down. Along the way one bit records
//! whether the bits so far equal those of the largest field value, `-1`. Where that
//! value has a one, the record is conjoined with the new bit; where it has a zero, the
//! new bit must be zero as long as the record holds. So the bits never denote a number
//! above the largest field value.

use crate::common::uint::bit_at;
use crate::common::wire::{bit_nat, both, AllocatedBit, AllocatedNum, Boolean};
use crate::cs::{value_of, ConstraintSystem, CsModel, SynthesisError};
use crate::field::{
    bit_of, field_neg, lemma_div_step, lemma_low_bits_step, lemma_mul_neg, lemma_mul_unit, lemma_neg_cancels, lemma_pow2_field, lemma_prefix_exceeds, lemma_sub_is_add_neg, lemma_top_bit, modulus, pow2_field, Fr,
};
use crate::lc::{lc_add_term, lc_terms, lc_zero, Term, Variable};
use vstd::arithmetic::div_mod::{
    lemma_add_mod_noop, lemma_mod_decreases, lemma_mul_mod_noop_left, lemma_small_mod,
};
use vstd::arithmetic::power2::{lemma_pow2_pos, pow2};
use vstd::prelude::*;

verus! {

/// The largest field value.
pub open spec fn top() -> nat {
    (modulus() - 1) as nat
}

/// A constraint system with the bit that records whether the bits allocated so far equal
/// those of the largest field value; none before the first bit.
pub struct Prefix {
    pub cs: CsModel,
    pub eq: Option<AllocatedBit>,
}

/// A system paired with a record.
pub open spec fn prefix(cs: CsModel, eq: Option<AllocatedBit>) -> Prefix {
    Prefix { cs, eq }
}

/// The state after the bit at position `i` is allocated.
pub open spec fn strict_step(h: Prefix, value: Option<nat>, i: nat) -> Prefix {
    let a_val = bit_at(value, i);
    let a = AllocatedBit { variable: h.cs.next_aux(), value: h.cs.kept_bit(a_val) };
    if bit_of(top(), i) {
        let c1 = AllocatedBit::allocate_cs(h.cs, a_val);
        match h.eq {
            None => Prefix { cs: c1, eq: Some(a) },
            Some(e) => Prefix {
                cs: AllocatedBit::and_cs(c1, e, a),
                eq: Some(AllocatedBit { variable: c1.next_aux(), value: both(e.value, a.value) }),
            },
        }
    } else {
        match h.eq {
            Some(e) => Prefix {
                cs: AllocatedBit::allocate_conditionally_cs(h.cs, a_val, e),
                eq: h.eq,
            },
            None => h,
        }
    }
}

/// The state after the `k` most significant bits are allocated.
pub open spec fn strict_prefix(cs: CsModel, value: Option<nat>, k: nat) -> Prefix
    decreases k,
{
    if k == 0 {
        Prefix { cs, eq: None }
    } else {
        strict_step(strict_prefix(cs, value, (k - 1) as nat), value, (255 - k) as nat)
    }
}

/// The bit at position `i`, least significant first.
pub open spec fn strict_bit(cs: CsModel, value: Option<nat>, i: nat) -> AllocatedBit {
    let h = strict_prefix(cs, value, (254 - i) as nat);
    AllocatedBit { variable: h.cs.next_aux(), value: h.cs.kept_bit(bit_at(value, i)) }
}

/// The combination `sum of 2^i * bit_i` over the first `n` bits.
pub open spec fn packed(cs: CsModel, value: Option<nat>, n: nat) -> Seq<Term> {
    Seq::new(
        n,
        |i: int| Term { var: strict_bit(cs, value, i as nat).variable, coeff: pow2_field(i as nat) },
    )
}

/// The system after `to_bits_le_strict`.
pub open spec fn strict_cs(cs: CsModel, variable: Variable, value: Option<nat>) -> CsModel {
    strict_prefix(cs, value, 255).cs.enforce(
        Seq::empty(),
        Seq::empty(),
        packed(cs, value, 255).push(Term { var: variable, coeff: field_neg(1) }),
    )
}

/// Twice a number is not odd, and doubling is one to one.
pub proof fn lemma_doubles(a: nat, b: nat)
    ensures
        2 * a != 2 * b + 1,
        2 * a + 1 != 2 * b,
        (2 * a == 2 * b) == (a == b),
        (2 * a + 1 == 2 * b + 1) == (a == b),
{
    assert((2 * a) % 2 == 0);
    assert((2 * b + 1) % 2 == 1);
}

/// The 255 bits of the value of `num`, least significant first, with
/// `sum of 2^i * bit_i - num = 0`, and such that the bits denote a field value.
#[verifier::rlimit(100)]
pub fn to_bits_le_strict(cs: &mut ConstraintSystem, num: &AllocatedNum) -> (r: Result<
    Vec<Boolean>,
    SynthesisError,
>)
    requires
        old(cs).wf(),
        num.valid(old(cs)@),
    ensures
        final(cs).wf(),
        final(cs)@.extends(old(cs)@),
        r is Ok,
        final(cs)@ == strict_cs(old(cs)@, num.variable, value_of(num.value)),
        r.unwrap()@.len() == 255,
        forall|i: int|
            0 <= i < 255 ==> {
                &&& (#[trigger] r.unwrap()@[i]) == Boolean::Is(
                    strict_bit(old(cs)@, value_of(num.value), i as nat),
                )
                &&& r.unwrap()@[i].value() == bit_at(value_of(num.value), i as nat)
                &&& r.unwrap()@[i].valid(final(cs)@)
            },
        old(cs)@.proving && old(cs)@.satisfied() ==> final(cs)@.satisfied(),
{
    let ghost start = cs@;
    let ghost value = value_of(num.value);
    let bound = Fr::one().neg();
    proof {
        lemma_top_bit(0);
        if start.proving {
            num.lemma_valid_value(start);
            lemma_top_bit(value.unwrap());
        }
    }
    let mut be: Vec<AllocatedBit> = Vec::new();
    let mut eq: Option<AllocatedBit> = None;
    let mut k: usize = 0;
    while k < 255
        invariant
            0 <= k <= 255,
            start == old(cs)@,
            value == value_of(num.value),
            bound@ == top(),
            num.valid(start),
            start.wf(),
            cs.wf(),
            cs@.extends(start),
            prefix(cs@, eq) == strict_prefix(start, value, k as nat),
            be@.len() == k,
            forall|j: int|
                0 <= j < k ==> (#[trigger] be@[j]) == strict_bit(start, value, (254 - j) as nat)
                    && be@[j].valid(cs@) && be@[j].value == bit_at(value, (254 - j) as nat),
            k >= 1 ==> eq is Some,
            eq is Some ==> eq.unwrap().valid(cs@),
            start.proving ==> value is Some && value.unwrap() < modulus(),
            start.proving && eq is Some ==> eq.unwrap().value == Some(
                value.unwrap() / pow2((255 - k) as nat) == top() / pow2((255 - k) as nat),
            ),
            start.proving && start.satisfied() ==> cs@.satisfied(),
        decreases 255 - k,
    {
        let ghost before = cs@;
        let ghost old_eq = eq;
        let i = 254 - k;
        let a_val = match num.value {
            Some(v) => Some(v.bit(i)),
            None => None,
        };
        proof {
            lemma_top_bit(0);
            lemma_top_bit(top());
            if start.proving {
                let v = value.unwrap();
                lemma_top_bit(v);
                lemma_div_step(v, i as nat);
                lemma_div_step(top(), i as nat);
                if eq is Some && eq.unwrap().value == Some(true) && !bit_of(top(), i as nat)
                    && bit_of(v, i as nat) {
                    lemma_prefix_exceeds(v, top(), i as nat);
                }
                if eq is Some {
                    eq.unwrap().lemma_valid_value(before);
                }
            }
        }
        let top_bit = bound.bit(i);
        let a = if top_bit {
            let a = match AllocatedBit::allocate(cs, a_val) {
                Ok(b) => b,
                Err(e) => {
                    return Err(e);
                },
            };
            eq = match eq {
                None => Some(a),
                Some(e) => {
                    proof {
                        e.lemma_valid_extends(before, cs@);
                    }
                    match AllocatedBit::and(cs, &e, &a) {
                        Ok(b) => Some(b),
                        Err(e) => {
                            return Err(e);
                        },
                    }
                },
            };
            a
        } else {
            let e = match eq {
                Some(e) => e,
                None => {
                    return Err(SynthesisError::AssignmentMissing);
                },
            };
            match AllocatedBit::allocate_conditionally(cs, a_val, &e) {
                Ok(b) => b,
                Err(e) => {
                    return Err(e);
                },
            }
        };
        proof {
            let now = cs@;
            if start.proving {
                let v = value.unwrap();
                let hv = v / pow2((i + 1) as nat);
                let ht = top() / pow2((i + 1) as nat);
                let lv = v / pow2(i as nat);
                let lt = top() / pow2(i as nat);
                lemma_doubles(hv, ht);
                if !top_bit && hv == ht {
                    assert(!bit_of(v, i as nat));
                }
                assert(eq.unwrap().value == Some(lv == lt));
            }
            assert(a == strict_bit(start, value, i as nat));
            assert forall|j: int| 0 <= j < k + 1 implies (#[trigger] be@.push(a)[j]) == strict_bit(
                start,
                value,
                (254 - j) as nat,
            ) && be@.push(a)[j].valid(now) && be@.push(a)[j].value == bit_at(
                value,
                (254 - j) as nat,
            ) by {
                if j < k {
                    assert(be@.push(a)[j] == be@[j]);
                    be@[j].lemma_valid_extends(before, now);
                } else {
                    a.lemma_valid_extends(
                        if top_bit {
                            AllocatedBit::allocate_cs(before, a_val)
                        } else {
                            now
                        },
                        now,
                    );
                }
            }
            if eq is Some {
                eq.unwrap().lemma_valid_extends(
                    if top_bit {
                        now
                    } else {
                        before
                    },
                    now,
                );
            }
        }
        be.push(a);
        k += 1;
    }
    let ghost mid = cs@;
    let mut result: Vec<Boolean> = Vec::new();
    let mut lc = lc_zero();
    let mut coeff = Fr::one();
    proof {
        num.lemma_valid_extends(start, mid);
        assert(lc_terms(lc) =~= packed(start, value, 0));
        if start.proving {
            vstd::arithmetic::power2::lemma2_to64();
        }
    }
    let mut i: usize = 0;
    while i < 255
        invariant
            0 <= i <= 255,
            be@.len() == 255,
            mid == cs@,
            mid.wf(),
            num.valid(mid),
            value == value_of(num.value),
            mid.proving == start.proving,
            forall|j: int|
                0 <= j < 255 ==> (#[trigger] be@[j]) == strict_bit(start, value, (254 - j) as nat)
                    && be@[j].valid(mid) && be@[j].value == bit_at(value, (254 - j) as nat),
            result@.len() == i,
            forall|j: int|
                0 <= j < i ==> (#[trigger] result@[j]) == Boolean::Is(
                    strict_bit(start, value, j as nat),
                ) && result@[j].value() == bit_at(value, j as nat) && result@[j].valid(mid),
            lc_terms(lc) == packed(start, value, i as nat),
            coeff@ == pow2_field(i as nat),
            mid.covers(lc_terms(lc)),
            start.proving ==> value is Some && mid.eval(lc_terms(lc)) == value.unwrap() % pow2(
                i as nat,
            ),
        decreases 255 - i,
    {
        let bit = be[254 - i];
        let ghost terms = lc_terms(lc);
        assert(bit == strict_bit(start, value, i as nat));
        lc = lc_add_term(lc, &coeff, bit.variable);
        proof {
            let t = Term { var: bit.variable, coeff: coeff@ };
            assert(lc_terms(lc) =~= packed(start, value, (i + 1) as nat));
            mid.lemma_eval_push(terms, t);
            assert(mid.covers(lc_terms(lc))) by {
                assert forall|j: int| 0 <= j < lc_terms(lc).len() implies mid.has(
                    (#[trigger] lc_terms(lc)[j]).var,
                ) by {
                    if j < terms.len() {
                        assert(lc_terms(lc)[j] == terms[j]);
                    }
                }
            }
            if start.proving {
                let v = value.unwrap();
                bit.lemma_valid_value(mid);
                lemma_low_bits_step(v, i as nat);
                lemma_pow2_field(i as nat);
                let m = modulus() as int;
                let bn = bit_nat(bit_of(v, i as nat));
                let lo = v % pow2(i as nat);
                lemma_mul_mod_noop_left(pow2(i as nat) as int, bn as int, m);
                lemma_add_mod_noop(lo as int, (pow2(i as nat) * bn) as int, m);
                lemma_pow2_pos(i as nat);
                lemma_pow2_pos((i + 1) as nat);
                lemma_mod_decreases(v, pow2(i as nat));
                lemma_mod_decreases(v, pow2((i + 1) as nat));
                num.lemma_valid_value(mid);
                lemma_small_mod(lo, modulus());
                lemma_small_mod(v % pow2((i + 1) as nat), modulus());
            }
        }
        result.push(Boolean::Is(bit));
        coeff = coeff.double();
        i += 1;
    }
    let minus_one = Fr::one().neg();
    let ghost packed_terms = lc_terms(lc);
    lc = lc_add_term(lc, &minus_one, num.variable);
    proof {
        let t = Term { var: num.variable, coeff: field_neg(1) };
        let e = Seq::<Term>::empty();
        num.lemma_valid_extends(start, mid);
        mid.lemma_eval_push(packed_terms, t);
        assert(mid.eval(e) == 0);
        assert(mid.covers(e));
        assert(mid.covers(lc_terms(lc))) by {
            assert forall|j: int| 0 <= j < lc_terms(lc).len() implies mid.has(
                (#[trigger] lc_terms(lc)[j]).var,
            ) by {
                if j < packed_terms.len() {
                    assert(lc_terms(lc)[j] == packed_terms[j]);
                }
            }
        }
        if start.proving {
            let v = value.unwrap();
            num.lemma_valid_value(mid);
            lemma_top_bit(v);
            lemma_small_mod(v, pow2(255));
            lemma_mul_neg(1, v);
            lemma_mul_unit(v);
            lemma_sub_is_add_neg(v, v);
            lemma_neg_cancels(v);
            lemma_mul_unit(0);
        }
    }
    cs.enforce(lc_zero(), lc_zero(), lc);
    proof {
        assert forall|j: int| 0 <= j < 255 implies (#[trigger] result@[j]).valid(cs@) by {
            result@[j].lemma_valid_extends(mid, cs@);
        }
    }
    Ok(result)
}

} // verus!
