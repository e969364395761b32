//! Unsigned integers: a variable together with its constrained bit decomposition, and
//! the comparisons built on it.

use crate::common::not;
use crate::common::wire::{bit_nat, negation, AllocatedBit, AllocatedNum};
use crate::cs::{value_of, ConstraintSystem, CsModel, SynthesisError};
use crate::field::{
    bit_of, field_add, field_sub, lemma_low_bits_step, lemma_mul_unit, lemma_pow2_field, lemma_pow2_small, modulus, pow2_field, Fr,
};
use crate::lc::{lc_add_term, lc_terms, lc_var, lc_zero, single, Term, Variable};
use vstd::arithmetic::div_mod::{
    lemma_add_mod_noop, lemma_fundamental_div_mod_converse, lemma_mod_bound,
    lemma_mul_mod_noop_left, lemma_small_mod,
};
use vstd::arithmetic::mul::lemma_mul_is_commutative;
use vstd::arithmetic::power2::{lemma_pow2_pos, lemma_pow2_unfold, pow2};
use vstd::prelude::*;

verus! {

/// Bit `i` of an optional value.
pub open spec fn bit_at(value: Option<nat>, i: nat) -> Option<bool> {
    match value {
        Some(v) => Some(bit_of(v, i)),
        None => None,
    }
}

/// The system after allocating the low `n` bits of `value`, one boolean variable each.
pub open spec fn bits_cs(cs: CsModel, value: Option<nat>, n: nat) -> CsModel
    decreases n,
{
    if n == 0 {
        cs
    } else {
        AllocatedBit::allocate_cs(bits_cs(cs, value, (n - 1) as nat), bit_at(value, (n - 1) as nat))
    }
}

/// The combination `sum of 2^i * Aux(first + i)` over `i < n`.
pub open spec fn weighted(first: nat, n: nat) -> Seq<Term> {
    Seq::new(
        n,
        |i: int| Term { var: Variable::Aux((first + i) as usize), coeff: pow2_field(i as nat) },
    )
}

/// The system after `UnsignedInteger::constrain` on a variable with the given value.
pub open spec fn constrain_cs(cs: CsModel, variable: Variable, value: Option<nat>, n: nat) -> CsModel {
    bits_cs(cs, value, n).enforce(
        weighted(cs.aux.len(), n),
        single(Variable::Input(0), 1),
        single(variable, 1),
    )
}

/// The value that `lt` decomposes: `a - b + 2^(n+1)`.
pub open spec fn shifted_difference(a: Option<nat>, b: Option<nat>, n: nat) -> Option<nat> {
    match (a, b) {
        (Some(x), Some(y)) => Some(field_add(field_sub(x, y), pow2_field(n + 1))),
        _ => None,
    }
}

/// The combination `a - b + 2^(n+1)`.
pub open spec fn shifted_difference_lc(a: Variable, b: Variable, n: nat) -> Seq<Term> {
    seq![
        Term { var: a, coeff: 1 },
        Term { var: b, coeff: crate::field::field_neg(1) },
        Term { var: Variable::Input(0), coeff: pow2_field(n + 1) },
    ]
}

/// The system after `lt`, before the decomposition of the shifted difference.
pub open spec fn lt_sub_cs(cs: CsModel, a: AllocatedNum, b: AllocatedNum, n: nat) -> CsModel {
    cs.allocate(shifted_difference(value_of(a.value), value_of(b.value), n)).enforce(
        shifted_difference_lc(a.variable, b.variable, n),
        single(Variable::Input(0), 1),
        single(cs.next_aux(), 1),
    )
}

/// For operands below `2^n`, bit `n` of `a - b + 2^(n+1)` says whether `a < b`, and the
/// shifted difference fits in `n + 2` bits.
pub proof fn lemma_sign_bit(a: nat, b: nat, n: nat)
    requires
        a < pow2(n),
        b < pow2(n),
        n <= 252,
    ensures
        field_add(field_sub(a, b), pow2_field(n + 1)) == a + pow2(n + 1) - b,
        a + pow2(n + 1) - b < pow2(n + 2),
        bit_of((a + pow2(n + 1) - b) as nat, n) == (a < b),
{
    let p = pow2(n) as int;
    let m = modulus() as int;
    lemma_pow2_pos(n);
    lemma_pow2_unfold(n + 1);
    lemma_pow2_unfold(n + 2);
    lemma_pow2_small(n + 2);
    lemma_pow2_small(n + 1);
    let c = a as int + 2 * p - b as int;
    assert(p < c < 3 * p);
    assert(4 * p < m);
    // the field computation does not wrap
    lemma_add_mod_noop(a as int - b as int, 2 * p, m);
    lemma_small_mod((2 * p) as nat, modulus());
    lemma_small_mod(c as nat, modulus());
    assert(field_add(field_sub(a, b), pow2_field(n + 1)) == c);
    // the sign bit
    if a < b {
        lemma_fundamental_div_mod_converse(c, p, 1, c - p);
    } else {
        lemma_mul_is_commutative(2, p);
        lemma_fundamental_div_mod_converse(c, p, 2, c - 2 * p);
    }
}

/// A variable with its little-endian bit decomposition.
pub struct UnsignedInteger {
    bits: Vec<AllocatedBit>,
    num: AllocatedNum,
}

impl UnsignedInteger {
    /// The variable that was decomposed.
    pub closed spec fn num(&self) -> AllocatedNum {
        self.num
    }

    /// The bits, least significant first.
    pub closed spec fn bit_seq(&self) -> Seq<AllocatedBit> {
        self.bits@
    }

    /// Whether the variable and every bit are valid in `cs`.
    pub open spec fn valid(&self, cs: CsModel) -> bool {
        &&& self.num().valid(cs)
        &&& forall|i: int| 0 <= i < self.bit_seq().len() ==> (#[trigger] self.bit_seq()[i]).valid(cs)
    }

    /// An integer that was valid stays valid when the system grows.
    pub proof fn lemma_valid_extends(&self, base: CsModel, ext: CsModel)
        requires
            self.valid(base),
            ext.extends(base),
        ensures
            self.valid(ext),
    {
        assert forall|i: int| 0 <= i < self.bit_seq().len() implies (#[trigger] self.bit_seq()[i]).valid(
            ext,
        ) by {
            self.bit_seq()[i].lemma_valid_extends(base, ext);
        }
    }

    pub fn get_variable(&self) -> (r: Variable)
        ensures
            r == self.num().variable,
    {
        self.num.variable
    }

    pub fn get_value(&self) -> (r: Option<Fr>)
        ensures
            r == self.num().value,
    {
        self.num.value
    }

    /// The variable that was decomposed.
    pub fn get_num(&self) -> (r: AllocatedNum)
        ensures
            r == self.num(),
    {
        self.num
    }

    pub fn bits(&self) -> (r: &Vec<AllocatedBit>)
        ensures
            r@ == self.bit_seq(),
    {
        &self.bits
    }

    pub fn num_bits(&self) -> (r: usize)
        ensures
            r == self.bit_seq().len(),
    {
        self.bits.len()
    }

    /// Decomposes `num` into `num_bits` boolean variables and enforces
    /// `sum of 2^i * bit_i = num`. A value that needs more bits leaves the system
    /// unsatisfied: that is how the range is enforced.
    pub fn constrain(cs: &mut ConstraintSystem, num: AllocatedNum, num_bits: usize) -> (r: Result<
        UnsignedInteger,
        SynthesisError,
    >)
        requires
            old(cs).wf(),
            num.valid(old(cs)@),
            num_bits <= 256,
        ensures
            final(cs).wf(),
            final(cs)@.extends(old(cs)@),
            r is Ok,
            final(cs)@ == constrain_cs(
                old(cs)@,
                num.variable,
                value_of(num.value),
                num_bits as nat,
            ),
            final(cs)@.aux.len() == old(cs)@.aux.len() + num_bits,
            r.unwrap().num() == num,
            r.unwrap().bit_seq().len() == num_bits,
            forall|i: int|
                0 <= i < num_bits ==> {
                    &&& (#[trigger] r.unwrap().bit_seq()[i]).variable == Variable::Aux(
                        (old(cs)@.aux.len() + i) as usize,
                    )
                    &&& r.unwrap().bit_seq()[i].value == bit_at(value_of(num.value), i as nat)
                },
            r.unwrap().valid(final(cs)@),
            old(cs)@.proving && old(cs)@.satisfied() ==> (final(cs)@.satisfied() <==> value_of(
                num.value,
            ).unwrap() < pow2(num_bits as nat)),
    {
        let ghost start = cs@;
        let ghost first = cs@.aux.len();
        let ghost value = value_of(num.value);
        let mut bits: Vec<AllocatedBit> = Vec::new();
        let mut coeff = Fr::one();
        let mut all = lc_zero();
        proof {
            if start.proving {
                num.lemma_valid_value(start);
                lemma_pow2_pos(0);
                vstd::arithmetic::power2::lemma2_to64();
            }
            assert(lc_terms(all) =~= weighted(first, 0));
        }
        let mut i: usize = 0;
        while i < num_bits
            invariant
                0 <= i <= num_bits <= 256,
                start == old(cs)@,
                first == start.aux.len(),
                value == value_of(num.value),
                start.wf(),
                num.valid(start),
                cs.wf(),
                cs@.extends(start),
                cs@ == bits_cs(start, value, i as nat),
                cs@.aux.len() == first + i,
                bits@.len() == i,
                forall|j: int|
                    0 <= j < i ==> {
                        &&& (#[trigger] bits@[j]).variable == Variable::Aux((first + j) as usize)
                        &&& bits@[j].value == bit_at(value, j as nat)
                        &&& bits@[j].valid(cs@)
                    },
                lc_terms(all) == weighted(first, i as nat),
                coeff@ == pow2_field(i as nat),
                cs@.covers(lc_terms(all)),
                start.proving ==> value is Some && cs@.eval(lc_terms(all)) == value.unwrap() % pow2(
                    i as nat,
                ),
                start.proving && start.satisfied() ==> cs@.satisfied(),
            decreases num_bits - i,
        {
            let ghost before = cs@;
            let ghost terms = lc_terms(all);
            let bit_val = match num.value {
                Some(v) => Some(v.bit(i)),
                None => None,
            };
            let bit = match AllocatedBit::allocate(cs, bit_val) {
                Ok(b) => b,
                Err(e) => {
                    return Err(e);
                },
            };
            all = lc_add_term(all, &coeff, bit.variable);
            proof {
                let now = cs@;
                let t = Term { var: bit.variable, coeff: coeff@ };
                assert(lc_terms(all) =~= weighted(first, (i + 1) as nat));
                now.lemma_eval_extends(before, terms);
                now.lemma_eval_push(terms, t);
                assert(now.covers(lc_terms(all))) by {
                    assert forall|j: int| 0 <= j < lc_terms(all).len() implies now.has(
                        (#[trigger] lc_terms(all)[j]).var,
                    ) by {
                        if j < terms.len() {
                            assert(lc_terms(all)[j] == terms[j]);
                        }
                    }
                }
                assert forall|j: int| 0 <= j < i + 1 implies {
                    &&& (#[trigger] bits@.push(bit)[j]).variable == Variable::Aux(
                        (first + j) as usize,
                    )
                    &&& bits@.push(bit)[j].value == bit_at(value, j as nat)
                    &&& bits@.push(bit)[j].valid(now)
                } by {
                    if j < i {
                        assert(bits@.push(bit)[j] == bits@[j]);
                        bits@[j].lemma_valid_extends(before, now);
                    }
                }
                if start.proving {
                    let v = value.unwrap();
                    bit.lemma_valid_value(now);
                    lemma_low_bits_step(v, i as nat);
                    lemma_pow2_field(i as nat);
                    let m = modulus() as int;
                    let bn = bit_nat(bit_of(v, i as nat));
                    let lo = v % pow2(i as nat);
                    lemma_mul_mod_noop_left(pow2(i as nat) as int, bn as int, m);
                    lemma_add_mod_noop(lo as int, (pow2(i as nat) * bn) as int, m);
                    lemma_small_mod(lo, modulus());
                    lemma_pow2_pos((i + 1) as nat);
                    lemma_mod_bound(v as int, pow2((i + 1) as nat) as int);
                    vstd::arithmetic::div_mod::lemma_mod_decreases(v, pow2((i + 1) as nat));
                    lemma_small_mod(v % pow2((i + 1) as nat), modulus());
                    lemma_pow2_pos(i as nat);
                    vstd::arithmetic::div_mod::lemma_mod_decreases(v, pow2(i as nat));
                }
            }
            bits.push(bit);
            coeff = coeff.double();
            i += 1;
        }
        proof {
            let mid = cs@;
            num.lemma_valid_extends(start, mid);
            mid.lemma_eval_single(Variable::Input(0), 1);
            mid.lemma_eval_single(num.variable, 1);
            if mid.proving {
                let v = value.unwrap();
                mid.lemma_value(num.variable);
                mid.lemma_eval_reduced(lc_terms(all));
                lemma_mul_unit(mid.eval(lc_terms(all)));
                lemma_pow2_pos(num_bits as nat);
                if v < pow2(num_bits as nat) {
                    lemma_small_mod(v, pow2(num_bits as nat));
                } else {
                    lemma_mod_bound(v as int, pow2(num_bits as nat) as int);
                }
            }
        }
        cs.enforce(all, lc_var(Variable::Input(0)), lc_var(num.variable));
        let r = UnsignedInteger { bits, num };
        proof {
            assert forall|j: int| 0 <= j < r.bit_seq().len() implies (#[trigger] r.bit_seq()[j]).valid(
                cs@,
            ) by {
                r.bit_seq()[j].lemma_valid_extends(bits_cs(start, value, num_bits as nat), cs@);
            }
            num.lemma_valid_extends(start, cs@);
        }
        Ok(r)
    }

    /// The system after `lt`.
    pub open spec fn lt_cs(cs: CsModel, a: AllocatedNum, b: AllocatedNum, n: nat) -> CsModel {
        constrain_cs(
            lt_sub_cs(cs, a, b, n),
            cs.next_aux(),
            shifted_difference(value_of(a.value), value_of(b.value), n),
            n + 2,
        )
    }

    /// Whether `self < other`, for operands of the same width `n` that fit it: the bit
    /// `n` of `self - other + 2^(n+1)`, which is decomposed into `n + 2` bits.
    pub fn lt(&self, cs: &mut ConstraintSystem, other: &UnsignedInteger) -> (r: Result<
        AllocatedBit,
        SynthesisError,
    >)
        requires
            old(cs).wf(),
            self.valid(old(cs)@),
            other.valid(old(cs)@),
            self.bit_seq().len() == other.bit_seq().len(),
            self.bit_seq().len() <= 254,
        ensures
            final(cs).wf(),
            final(cs)@.extends(old(cs)@),
            r is Ok,
            final(cs)@ == Self::lt_cs(old(cs)@, self.num(), other.num(), self.bit_seq().len()),
            final(cs)@.aux.len() == old(cs)@.aux.len() + self.bit_seq().len() + 3,
            final(cs)@.constraints.len() == old(cs)@.constraints.len() + self.bit_seq().len() + 4,
            r.unwrap().variable == Variable::Aux(
                (old(cs)@.aux.len() + 1 + self.bit_seq().len()) as usize,
            ),
            r.unwrap().value == bit_at(
                shifted_difference(
                    value_of(self.num().value),
                    value_of(other.num().value),
                    self.bit_seq().len(),
                ),
                self.bit_seq().len(),
            ),
            r.unwrap().valid(final(cs)@),
            old(cs)@.proving && self.fits() && other.fits() && self.bit_seq().len() <= 252 ==> {
                &&& r.unwrap().value == Some(
                    value_of(self.num().value).unwrap() < value_of(other.num().value).unwrap(),
                )
                &&& old(cs)@.satisfied() ==> final(cs)@.satisfied()
            },
            old(cs)@.proving && old(cs)@.satisfied() ==> (final(cs)@.satisfied() <==> shifted_difference(
                value_of(self.num().value),
                value_of(other.num().value),
                self.bit_seq().len(),
            ).unwrap() < pow2(self.bit_seq().len() + 2)),
    {
        let ghost start = cs@;
        let num_bits = self.bits.len();
        let ghost n = num_bits as nat;
        let two_bits = Fr::power_of_two(num_bits + 1);
        proof {
            if start.proving {
                self.num.lemma_valid_value(start);
                other.num.lemma_valid_value(start);
            }
        }
        let sub_value = match (self.num.value, other.num.value) {
            (Some(a), Some(b)) => Some(a.sub(&b).add(&two_bits)),
            _ => None,
        };
        let sub = match AllocatedNum::allocate(cs, sub_value) {
            Ok(s) => s,
            Err(e) => {
                return Err(e);
            },
        };
        let one = Fr::one();
        let minus_one = one.neg();
        let lc = lc_add_term(
            lc_add_term(lc_add_term(lc_zero(), &one, self.num.variable), &minus_one, other.num.variable),
            &two_bits,
            Variable::Input(0),
        );
        proof {
            let mid = cs@;
            let a = self.num.variable;
            let b = other.num.variable;
            self.num.lemma_valid_extends(start, mid);
            other.num.lemma_valid_extends(start, mid);
            assert(lc_terms(lc) =~= shifted_difference_lc(a, b, n));
            let t0 = single(a, 1);
            let t1 = single(b, 1);
            let t2 = single(Variable::Input(0), pow2_field(n + 1));
            assert(lc_terms(lc) =~= (t0 + crate::lc::negated(t1)) + t2);
            mid.lemma_eval_minus(t0, t1);
            mid.lemma_eval_concat(t0 + crate::lc::negated(t1), t2);
            mid.lemma_eval_single(a, 1);
            mid.lemma_eval_single(b, 1);
            mid.lemma_eval_single(Variable::Input(0), pow2_field(n + 1));
            mid.lemma_eval_single(Variable::Input(0), 1);
            mid.lemma_eval_single(sub.variable, 1);
            if mid.proving {
                mid.lemma_value(a);
                mid.lemma_value(b);
                mid.lemma_value(sub.variable);
                lemma_pow2_field(n + 1);
                vstd::arithmetic::div_mod::lemma_mod_bound(
                    pow2(n + 1) as int,
                    modulus() as int,
                );
                lemma_mul_unit(pow2_field(n + 1));
                lemma_mul_unit(mid.eval(lc_terms(lc)));
                mid.lemma_eval_reduced(lc_terms(lc));
            }
        }
        cs.enforce(lc, lc_var(Variable::Input(0)), lc_var(sub.variable));
        proof {
            assert(sub.valid(cs@));
            if start.proving && self.fits() && other.fits() && n <= 252 {
                lemma_sign_bit(
                    value_of(self.num.value).unwrap(),
                    value_of(other.num.value).unwrap(),
                    n,
                );
            }
        }
        let ghost mid = cs@;
        let sub_bits = match UnsignedInteger::constrain(cs, sub, num_bits + 2) {
            Ok(u) => u,
            Err(e) => {
                return Err(e);
            },
        };
        let r = sub_bits.bits[num_bits];
        proof {
            if cs@.satisfied() {
                cs@.lemma_satisfied_before(mid);
            }
            assert(r == sub_bits.bit_seq()[num_bits as int]);
            assert(mid.constraints.len() == start.constraints.len() + 1);
            lemma_bits_cs_len(mid, value_of(sub.value), n + 2);
        }
        Ok(r)
    }

    /// Whether the value of the integer fits its width.
    pub open spec fn fits(&self) -> bool {
        match value_of(self.num().value) {
            Some(v) => v < pow2(self.bit_seq().len()),
            None => false,
        }
    }

    /// Whether `self > other`: `other.lt(self)`.
    pub fn gt(&self, cs: &mut ConstraintSystem, other: &UnsignedInteger) -> (r: Result<
        AllocatedBit,
        SynthesisError,
    >)
        requires
            old(cs).wf(),
            self.valid(old(cs)@),
            other.valid(old(cs)@),
            self.bit_seq().len() == other.bit_seq().len(),
            self.bit_seq().len() <= 254,
        ensures
            final(cs).wf(),
            final(cs)@.extends(old(cs)@),
            r is Ok,
            final(cs)@ == Self::lt_cs(old(cs)@, other.num(), self.num(), self.bit_seq().len()),
            r.unwrap().variable == Variable::Aux(
                (old(cs)@.aux.len() + 1 + self.bit_seq().len()) as usize,
            ),
            final(cs)@.aux.len() == old(cs)@.aux.len() + self.bit_seq().len() + 3,
            final(cs)@.constraints.len() == old(cs)@.constraints.len() + self.bit_seq().len() + 4,
            r.unwrap().value == bit_at(
                shifted_difference(
                    value_of(other.num().value),
                    value_of(self.num().value),
                    self.bit_seq().len(),
                ),
                self.bit_seq().len(),
            ),
            r.unwrap().valid(final(cs)@),
            old(cs)@.proving && self.fits() && other.fits() && self.bit_seq().len() <= 252 ==> {
                &&& r.unwrap().value == Some(
                    value_of(self.num().value).unwrap() > value_of(other.num().value).unwrap(),
                )
                &&& old(cs)@.satisfied() ==> final(cs)@.satisfied()
            },
            old(cs)@.proving && old(cs)@.satisfied() ==> (final(cs)@.satisfied() <==> shifted_difference(
                value_of(other.num().value),
                value_of(self.num().value),
                self.bit_seq().len(),
            ).unwrap() < pow2(self.bit_seq().len() + 2)),
    {
        other.lt(cs, self)
    }

    /// The system after `lte`: that of `other < self`, then the negation of its result.
    pub open spec fn lte_cs(cs: CsModel, a: AllocatedNum, b: AllocatedNum, n: nat) -> CsModel {
        let c1 = Self::lt_cs(cs, b, a, n);
        crate::common::not_cs(
            c1,
            AllocatedBit {
                variable: Variable::Aux((cs.aux.len() + 1 + n) as usize),
                value: bit_at(shifted_difference(value_of(b.value), value_of(a.value), n), n),
            },
        )
    }

    /// Whether `self <= other`: the negation of `gt`.
    pub fn lte(&self, cs: &mut ConstraintSystem, other: &UnsignedInteger) -> (r: Result<
        AllocatedBit,
        SynthesisError,
    >)
        requires
            old(cs).wf(),
            self.valid(old(cs)@),
            other.valid(old(cs)@),
            self.bit_seq().len() == other.bit_seq().len(),
            self.bit_seq().len() <= 254,
        ensures
            final(cs).wf(),
            final(cs)@.extends(old(cs)@),
            r is Ok,
            final(cs)@ == Self::lte_cs(old(cs)@, self.num(), other.num(), self.bit_seq().len()),
            r.unwrap().variable == Variable::Aux(
                (old(cs)@.aux.len() + 3 + self.bit_seq().len()) as usize,
            ),
            final(cs)@.aux.len() == old(cs)@.aux.len() + self.bit_seq().len() + 4,
            final(cs)@.constraints.len() == old(cs)@.constraints.len() + self.bit_seq().len() + 6,
            r.unwrap().value == negation(
                bit_at(
                    shifted_difference(
                        value_of(other.num().value),
                        value_of(self.num().value),
                        self.bit_seq().len(),
                    ),
                    self.bit_seq().len(),
                ),
            ),
            r.unwrap().valid(final(cs)@),
            old(cs)@.proving && self.fits() && other.fits() && self.bit_seq().len() <= 252 ==> {
                &&& r.unwrap().value == Some(
                    value_of(self.num().value).unwrap() <= value_of(other.num().value).unwrap(),
                )
                &&& old(cs)@.satisfied() ==> final(cs)@.satisfied()
            },
            old(cs)@.proving && old(cs)@.satisfied() ==> (final(cs)@.satisfied() <==> shifted_difference(
                value_of(other.num().value),
                value_of(self.num().value),
                self.bit_seq().len(),
            ).unwrap() < pow2(self.bit_seq().len() + 2)),
    {
        let gt = match self.gt(cs, other) {
            Ok(b) => b,
            Err(e) => {
                return Err(e);
            },
        };
        let ghost mid = cs@;
        let r = not(cs, gt);
        proof {
            if cs@.satisfied() {
                cs@.lemma_satisfied_before(mid);
            }
        }
        r
    }

    /// Whether `self >= other`: the negation of `lt`.
    pub fn gte(&self, cs: &mut ConstraintSystem, other: &UnsignedInteger) -> (r: Result<
        AllocatedBit,
        SynthesisError,
    >)
        requires
            old(cs).wf(),
            self.valid(old(cs)@),
            other.valid(old(cs)@),
            self.bit_seq().len() == other.bit_seq().len(),
            self.bit_seq().len() <= 254,
        ensures
            final(cs).wf(),
            final(cs)@.extends(old(cs)@),
            r is Ok,
            final(cs)@ == Self::lte_cs(old(cs)@, other.num(), self.num(), self.bit_seq().len()),
            r.unwrap().variable == Variable::Aux(
                (old(cs)@.aux.len() + 3 + self.bit_seq().len()) as usize,
            ),
            final(cs)@.aux.len() == old(cs)@.aux.len() + self.bit_seq().len() + 4,
            final(cs)@.constraints.len() == old(cs)@.constraints.len() + self.bit_seq().len() + 6,
            r.unwrap().value == negation(
                bit_at(
                    shifted_difference(
                        value_of(self.num().value),
                        value_of(other.num().value),
                        self.bit_seq().len(),
                    ),
                    self.bit_seq().len(),
                ),
            ),
            r.unwrap().valid(final(cs)@),
            old(cs)@.proving && self.fits() && other.fits() && self.bit_seq().len() <= 252 ==> {
                &&& r.unwrap().value == Some(
                    value_of(self.num().value).unwrap() >= value_of(other.num().value).unwrap(),
                )
                &&& old(cs)@.satisfied() ==> final(cs)@.satisfied()
            },
            old(cs)@.proving && old(cs)@.satisfied() ==> (final(cs)@.satisfied() <==> shifted_difference(
                value_of(self.num().value),
                value_of(other.num().value),
                self.bit_seq().len(),
            ).unwrap() < pow2(self.bit_seq().len() + 2)),
    {
        let lt = match self.lt(cs, other) {
            Ok(b) => b,
            Err(e) => {
                return Err(e);
            },
        };
        let ghost mid = cs@;
        let r = not(cs, lt);
        proof {
            if cs@.satisfied() {
                cs@.lemma_satisfied_before(mid);
            }
        }
        r
    }
}

/// Allocating `n` bits adds `n` variables and `n` constraints.
pub proof fn lemma_bits_cs_len(cs: CsModel, value: Option<nat>, n: nat)
    ensures
        bits_cs(cs, value, n).aux.len() == cs.aux.len() + n,
        bits_cs(cs, value, n).constraints.len() == cs.constraints.len() + n,
        bits_cs(cs, value, n).inputs == cs.inputs,
        bits_cs(cs, value, n).proving == cs.proving,
    decreases n,
{
    if n > 0 {
        lemma_bits_cs_len(cs, value, (n - 1) as nat);
    }
}

} // verus!
