//! Allocated wires: field-valued variables, boolean variables, and boolean expressions.

use crate::cs::{value_of, ConstraintSystem, CsModel, SynthesisError};
use crate::field::{field_mul, field_neg, lemma_mul_unit, modulus, Fr};
use crate::lc::{
    lc_add_term, lc_one_minus, lc_terms, lc_var, lc_zero, one_minus, single, Term, Variable,
};
use vstd::arithmetic::div_mod::lemma_small_mod;
use vstd::prelude::*;

verus! {

/// The field value that stands for a boolean.
pub open spec fn bit_nat(b: bool) -> nat {
    if b {
        1
    } else {
        0
    }
}

/// The field value that stands for an optional boolean.
pub open spec fn bit_value(b: Option<bool>) -> Option<nat> {
    match b {
        Some(x) => Some(bit_nat(x)),
        None => None,
    }
}

/// The product of two optional field values.
pub open spec fn product(a: Option<nat>, b: Option<nat>) -> Option<nat> {
    match (a, b) {
        (Some(x), Some(y)) => Some(field_mul(x, y)),
        _ => None,
    }
}

/// The conjunction of two optional booleans.
pub open spec fn both(a: Option<bool>, b: Option<bool>) -> Option<bool> {
    match (a, b) {
        (Some(x), Some(y)) => Some(x && y),
        _ => None,
    }
}

/// The negation of an optional boolean.
pub open spec fn negation(a: Option<bool>) -> Option<bool> {
    match a {
        Some(x) => Some(!x),
        None => None,
    }
}

/// The field element that stands for a boolean.
pub fn bit_element(b: Option<bool>) -> (r: Option<Fr>)
    ensures
        value_of(r) == bit_value(b),
{
    match b {
        Some(true) => Some(Fr::one()),
        Some(false) => Some(Fr::zero()),
        None => None,
    }
}

/// A private variable together with its witness value.
#[derive(Clone, Copy, Debug)]
pub struct AllocatedNum {
    pub variable: Variable,
    pub value: Option<Fr>,
}

/// A variable with its witness value, as a field value.
pub struct Wire {
    pub variable: Variable,
    pub value: Option<nat>,
}

impl View for AllocatedNum {
    type V = Wire;

    open spec fn view(&self) -> Wire {
        Wire { variable: self.variable, value: value_of(self.value) }
    }
}

impl AllocatedNum {
    /// Whether the variable belongs to `cs` and carries the value recorded there.
    pub open spec fn valid(&self, cs: CsModel) -> bool {
        cs.has(self.variable) && cs.slot(self.variable) == value_of(self.value)
    }

    /// A number that was valid stays valid when the system grows.
    pub proof fn lemma_valid_extends(&self, base: CsModel, ext: CsModel)
        requires
            self.valid(base),
            ext.extends(base),
        ensures
            self.valid(ext),
    {
    }

    /// While proving, a valid number carries the value of its variable.
    pub proof fn lemma_valid_value(&self, cs: CsModel)
        requires
            cs.wf(),
            cs.proving,
            self.valid(cs),
        ensures
            self.value is Some,
            self.value.unwrap()@ == cs.value(self.variable),
            cs.value(self.variable) < modulus(),
            cs.eval(single(self.variable, 1)) == cs.value(self.variable),
            cs.covers(single(self.variable, 1)),
    {
        cs.lemma_value(self.variable);
        cs.lemma_eval_single(self.variable, 1);
    }

    /// The system after `allocate`.
    pub open spec fn allocate_cs(cs: CsModel, value: Option<nat>) -> CsModel {
        cs.allocate(value)
    }

    /// Allocates a private variable for `value`. In a structure-only system the value is
    /// dropped.
    pub fn allocate(cs: &mut ConstraintSystem, value: Option<Fr>) -> (r: Result<
        AllocatedNum,
        SynthesisError,
    >)
        requires
            old(cs).wf(),
        ensures
            final(cs).wf(),
            final(cs)@.extends(old(cs)@),
            r is Err <==> old(cs)@.proving && value is None,
            r is Err ==> *final(cs) == *old(cs),
            r is Ok ==> {
                &&& final(cs)@ == Self::allocate_cs(old(cs)@, value_of(value))
                &&& r.unwrap().variable == old(cs)@.next_aux()
                &&& value_of(r.unwrap().value) == old(cs)@.kept(value_of(value))
                &&& r.unwrap().valid(final(cs)@)
                &&& old(cs)@.proving && old(cs)@.satisfied() ==> final(cs)@.satisfied()
            },
    {
        let kept = if cs.is_proving() {
            value
        } else {
            None
        };
        match cs.allocate(value) {
            Ok(variable) => Ok(AllocatedNum { variable, value: kept }),
            Err(e) => Err(e),
        }
    }

    pub fn get_value(&self) -> (r: Option<Fr>)
        ensures
            r == self.value,
    {
        self.value
    }

    pub fn get_variable(&self) -> (r: Variable)
        ensures
            r == self.variable,
    {
        self.variable
    }

    /// The system after `inputize`.
    pub open spec fn inputize_cs(cs: CsModel, variable: Variable, value: Option<nat>) -> CsModel {
        cs.allocate_public(value).enforce(
            single(cs.next_input(), 1),
            single(Variable::Input(0), 1),
            single(variable, 1),
        )
    }

    /// Exposes the number as a public input: a fresh input with the same value, and the
    /// constraint `input * 1 = self`.
    pub fn inputize(&self, cs: &mut ConstraintSystem) -> (r: Result<(), SynthesisError>)
        requires
            old(cs).wf(),
            self.valid(old(cs)@),
        ensures
            final(cs).wf(),
            final(cs)@.extends(old(cs)@),
            r is Ok,
            final(cs)@ == Self::inputize_cs(old(cs)@, self.variable, value_of(self.value)),
            old(cs)@.proving && old(cs)@.satisfied() ==> final(cs)@.satisfied(),
    {
        proof {
            if cs@.proving {
                self.lemma_valid_value(cs@);
            }
        }
        let input = match cs.allocate_public(self.value) {
            Ok(v) => v,
            Err(e) => {
                return Err(e);
            },
        };
        proof {
            let mid = cs@;
            mid.lemma_eval_single(input, 1);
            mid.lemma_eval_single(Variable::Input(0), 1);
            mid.lemma_eval_single(self.variable, 1);
            self.lemma_valid_extends(old(cs)@, mid);
            if mid.proving {
                mid.lemma_value(input);
                mid.lemma_value(self.variable);
                lemma_mul_unit(mid.value(input));
            }
        }
        cs.enforce(lc_var(input), lc_var(Variable::Input(0)), lc_var(self.variable));
        Ok(())
    }

    /// The system after `mul`.
    pub open spec fn mul_cs(cs: CsModel, a: AllocatedNum, b: AllocatedNum) -> CsModel {
        cs.allocate(product(value_of(a.value), value_of(b.value))).enforce(
            single(a.variable, 1),
            single(b.variable, 1),
            single(cs.next_aux(), 1),
        )
    }

    /// A fresh variable constrained to the product: `self * other = result`.
    pub fn mul(&self, cs: &mut ConstraintSystem, other: &AllocatedNum) -> (r: Result<
        AllocatedNum,
        SynthesisError,
    >)
        requires
            old(cs).wf(),
            self.valid(old(cs)@),
            other.valid(old(cs)@),
        ensures
            final(cs).wf(),
            final(cs)@.extends(old(cs)@),
            r is Ok,
            final(cs)@ == Self::mul_cs(old(cs)@, *self, *other),
            r.unwrap().variable == old(cs)@.next_aux(),
            value_of(r.unwrap().value) == product(value_of(self.value), value_of(other.value)),
            r.unwrap().valid(final(cs)@),
            old(cs)@.proving && old(cs)@.satisfied() ==> final(cs)@.satisfied(),
    {
        proof {
            if cs@.proving {
                self.lemma_valid_value(cs@);
                other.lemma_valid_value(cs@);
            }
        }
        let value = match (self.value, other.value) {
            (Some(a), Some(b)) => Some(a.mul(&b)),
            _ => None,
        };
        let result = match AllocatedNum::allocate(cs, value) {
            Ok(n) => n,
            Err(e) => {
                return Err(e);
            },
        };
        proof {
            let mid = cs@;
            mid.lemma_eval_single(self.variable, 1);
            mid.lemma_eval_single(other.variable, 1);
            mid.lemma_eval_single(result.variable, 1);
            self.lemma_valid_extends(old(cs)@, mid);
            other.lemma_valid_extends(old(cs)@, mid);
            if mid.proving {
                mid.lemma_value(self.variable);
                mid.lemma_value(other.variable);
                mid.lemma_value(result.variable);
            }
        }
        cs.enforce(lc_var(self.variable), lc_var(other.variable), lc_var(result.variable));
        Ok(result)
    }
}

/// A private variable constrained to zero or one, together with its witness value.
#[derive(Clone, Copy, Debug)]
pub struct AllocatedBit {
    pub variable: Variable,
    pub value: Option<bool>,
}

impl AllocatedBit {
    /// Whether the variable belongs to `cs` and carries the value recorded there.
    pub open spec fn valid(&self, cs: CsModel) -> bool {
        cs.has(self.variable) && cs.slot(self.variable) == bit_value(self.value)
    }

    /// A bit that was valid stays valid when the system grows.
    pub proof fn lemma_valid_extends(&self, base: CsModel, ext: CsModel)
        requires
            self.valid(base),
            ext.extends(base),
        ensures
            self.valid(ext),
    {
    }

    /// While proving, a valid bit carries the value of its variable.
    pub proof fn lemma_valid_value(&self, cs: CsModel)
        requires
            cs.wf(),
            cs.proving,
            self.valid(cs),
        ensures
            self.value is Some,
            cs.value(self.variable) == bit_nat(self.value.unwrap()),
            cs.eval(single(self.variable, 1)) == bit_nat(self.value.unwrap()),
            cs.covers(single(self.variable, 1)),
            cs.eval(one_minus(self.variable)) == bit_nat(!self.value.unwrap()),
            cs.covers(one_minus(self.variable)),
    {
        cs.lemma_value(self.variable);
        cs.lemma_eval_single(self.variable, 1);
        cs.lemma_eval_one_minus(self.variable);
        lemma_small_mod(1, modulus());
        lemma_small_mod(0, modulus());
    }

    pub fn get_value(&self) -> (r: Option<bool>)
        ensures
            r == self.value,
    {
        self.value
    }

    pub fn get_variable(&self) -> (r: Variable)
        ensures
            r == self.variable,
    {
        self.variable
    }

    /// The system after `allocate`.
    pub open spec fn allocate_cs(cs: CsModel, value: Option<bool>) -> CsModel {
        cs.allocate(bit_value(value)).enforce(
            one_minus(cs.next_aux()),
            single(cs.next_aux(), 1),
            Seq::empty(),
        )
    }

    /// Allocates a boolean variable: a fresh variable `a` with `(1 - a) * a = 0`.
    pub fn allocate(cs: &mut ConstraintSystem, value: Option<bool>) -> (r: Result<
        AllocatedBit,
        SynthesisError,
    >)
        requires
            old(cs).wf(),
        ensures
            final(cs).wf(),
            final(cs)@.extends(old(cs)@),
            r is Err <==> old(cs)@.proving && value is None,
            r is Err ==> *final(cs) == *old(cs),
            r is Ok ==> {
                &&& final(cs)@ == Self::allocate_cs(old(cs)@, value)
                &&& r.unwrap().variable == old(cs)@.next_aux()
                &&& r.unwrap().value == (if old(cs)@.proving {
                    value
                } else {
                    None
                })
                &&& r.unwrap().valid(final(cs)@)
                &&& old(cs)@.proving && old(cs)@.satisfied() ==> final(cs)@.satisfied()
            },
    {
        let kept = if cs.is_proving() {
            value
        } else {
            None
        };
        let variable = match cs.allocate(bit_element(value)) {
            Ok(v) => v,
            Err(e) => {
                return Err(e);
            },
        };
        let bit = AllocatedBit { variable, value: kept };
        proof {
            let mid = cs@;
            mid.lemma_eval_single(variable, 1);
            assert(mid.eval(Seq::<Term>::empty()) == 0);
            if mid.proving {
                bit.lemma_valid_value(mid);
                lemma_mul_unit(0);
                lemma_mul_unit(1);
            } else {
                assert(mid.covers(one_minus(variable))) by {
                    assert(mid.has(Variable::Input(0)));
                }
            }
        }
        cs.enforce(lc_one_minus(variable), lc_var(variable), lc_zero());
        Ok(bit)
    }

    /// The system after `allocate_conditionally`.
    pub open spec fn allocate_conditionally_cs(cs: CsModel, value: Option<bool>, must_be_false: AllocatedBit) -> CsModel {
        cs.allocate(bit_value(value)).enforce(
            one_minus(must_be_false.variable).push(Term { var: cs.next_aux(), coeff: field_neg(1) }),
            single(cs.next_aux(), 1),
            Seq::empty(),
        )
    }

    /// Allocates a boolean variable that must be false where `must_be_false` is true:
    /// a fresh variable `a` with `(1 - must_be_false - a) * a = 0`.
    pub fn allocate_conditionally(
        cs: &mut ConstraintSystem,
        value: Option<bool>,
        must_be_false: &AllocatedBit,
    ) -> (r: Result<AllocatedBit, SynthesisError>)
        requires
            old(cs).wf(),
            must_be_false.valid(old(cs)@),
        ensures
            final(cs).wf(),
            final(cs)@.extends(old(cs)@),
            r is Err <==> old(cs)@.proving && value is None,
            r is Err ==> *final(cs) == *old(cs),
            r is Ok ==> {
                &&& final(cs)@ == Self::allocate_conditionally_cs(old(cs)@, value, *must_be_false)
                &&& r.unwrap().variable == old(cs)@.next_aux()
                &&& r.unwrap().value == old(cs)@.kept_bit(value)
                &&& r.unwrap().valid(final(cs)@)
                &&& old(cs)@.proving && old(cs)@.satisfied() && !(must_be_false.value == Some(true)
                    && value == Some(true)) ==> final(cs)@.satisfied()
            },
    {
        let ghost start = cs@;
        let kept = if cs.is_proving() {
            value
        } else {
            None
        };
        let variable = match cs.allocate(bit_element(value)) {
            Ok(v) => v,
            Err(e) => {
                return Err(e);
            },
        };
        let bit = AllocatedBit { variable, value: kept };
        let minus_one = Fr::one().neg();
        let a = lc_add_term(lc_one_minus(must_be_false.variable), &minus_one, variable);
        proof {
            let mid = cs@;
            let t = Term { var: variable, coeff: field_neg(1) };
            must_be_false.lemma_valid_extends(start, mid);
            mid.lemma_eval_single(variable, 1);
            mid.lemma_eval_push(one_minus(must_be_false.variable), t);
            assert(mid.eval(Seq::<Term>::empty()) == 0);
            assert(mid.has(Variable::Input(0)));
            assert(mid.covers(one_minus(must_be_false.variable)));
            assert(mid.covers(lc_terms(a))) by {
                assert forall|i: int| 0 <= i < lc_terms(a).len() implies mid.has(
                    (#[trigger] lc_terms(a)[i]).var,
                ) by {
                    if i < 2 {
                        assert(lc_terms(a)[i] == one_minus(must_be_false.variable)[i]);
                    }
                }
            }
            if mid.proving {
                must_be_false.lemma_valid_value(mid);
                bit.lemma_valid_value(mid);
                lemma_mul_unit(0);
                lemma_mul_unit(1);
                lemma_small_mod(1, modulus());
                lemma_small_mod(0, modulus());
                crate::field::lemma_mul_neg(1, 1);
                crate::field::lemma_neg_cancels(1);
                crate::field::lemma_sub_is_add_neg(1, 1);
                crate::field::lemma_reduced(1, 1);
                crate::field::lemma_mul_unit(field_neg(1));
                crate::field::lemma_add_zero(field_neg(1));
            }
        }
        cs.enforce(a, lc_var(variable), lc_zero());
        Ok(bit)
    }

    /// The system after `and`.
    pub open spec fn and_cs(cs: CsModel, a: AllocatedBit, b: AllocatedBit) -> CsModel {
        cs.allocate(bit_value(both(a.value, b.value))).enforce(
            single(a.variable, 1),
            single(b.variable, 1),
            single(cs.next_aux(), 1),
        )
    }

    /// A fresh bit constrained to `a AND b`: `a * b = result`.
    pub fn and(cs: &mut ConstraintSystem, a: &AllocatedBit, b: &AllocatedBit) -> (r: Result<
        AllocatedBit,
        SynthesisError,
    >)
        requires
            old(cs).wf(),
            a.valid(old(cs)@),
            b.valid(old(cs)@),
        ensures
            final(cs).wf(),
            final(cs)@.extends(old(cs)@),
            r is Ok,
            final(cs)@ == Self::and_cs(old(cs)@, *a, *b),
            r.unwrap().variable == old(cs)@.next_aux(),
            r.unwrap().value == both(a.value, b.value),
            r.unwrap().valid(final(cs)@),
            old(cs)@.proving && old(cs)@.satisfied() ==> final(cs)@.satisfied(),
    {
        proof {
            if cs@.proving {
                a.lemma_valid_value(cs@);
                b.lemma_valid_value(cs@);
            }
        }
        let value = match (a.value, b.value) {
            (Some(x), Some(y)) => Some(x && y),
            _ => None,
        };
        let variable = match cs.allocate(bit_element(value)) {
            Ok(v) => v,
            Err(e) => {
                return Err(e);
            },
        };
        let bit = AllocatedBit { variable, value };
        proof {
            let mid = cs@;
            mid.lemma_eval_single(a.variable, 1);
            mid.lemma_eval_single(b.variable, 1);
            mid.lemma_eval_single(variable, 1);
            a.lemma_valid_extends(old(cs)@, mid);
            b.lemma_valid_extends(old(cs)@, mid);
            if mid.proving {
                a.lemma_valid_value(mid);
                b.lemma_valid_value(mid);
                bit.lemma_valid_value(mid);
                lemma_mul_unit(0);
                lemma_mul_unit(1);
            }
        }
        cs.enforce(lc_var(a.variable), lc_var(b.variable), lc_var(variable));
        Ok(bit)
    }

    /// The system after `and_not`.
    pub open spec fn and_not_cs(cs: CsModel, a: AllocatedBit, b: AllocatedBit) -> CsModel {
        cs.allocate(bit_value(both(a.value, negation(b.value)))).enforce(
            single(a.variable, 1),
            one_minus(b.variable),
            single(cs.next_aux(), 1),
        )
    }

    /// A fresh bit constrained to `a AND NOT b`: `a * (1 - b) = result`.
    pub fn and_not(cs: &mut ConstraintSystem, a: &AllocatedBit, b: &AllocatedBit) -> (r: Result<
        AllocatedBit,
        SynthesisError,
    >)
        requires
            old(cs).wf(),
            a.valid(old(cs)@),
            b.valid(old(cs)@),
        ensures
            final(cs).wf(),
            final(cs)@.extends(old(cs)@),
            r is Ok,
            final(cs)@ == Self::and_not_cs(old(cs)@, *a, *b),
            r.unwrap().variable == old(cs)@.next_aux(),
            r.unwrap().value == both(a.value, negation(b.value)),
            r.unwrap().valid(final(cs)@),
            old(cs)@.proving && old(cs)@.satisfied() ==> final(cs)@.satisfied(),
    {
        proof {
            if cs@.proving {
                a.lemma_valid_value(cs@);
                b.lemma_valid_value(cs@);
            }
        }
        let value = match (a.value, b.value) {
            (Some(x), Some(y)) => Some(x && !y),
            _ => None,
        };
        let variable = match cs.allocate(bit_element(value)) {
            Ok(v) => v,
            Err(e) => {
                return Err(e);
            },
        };
        let bit = AllocatedBit { variable, value };
        proof {
            let mid = cs@;
            mid.lemma_eval_single(a.variable, 1);
            mid.lemma_eval_single(variable, 1);
            a.lemma_valid_extends(old(cs)@, mid);
            b.lemma_valid_extends(old(cs)@, mid);
            if mid.proving {
                a.lemma_valid_value(mid);
                b.lemma_valid_value(mid);
                bit.lemma_valid_value(mid);
                lemma_mul_unit(0);
                lemma_mul_unit(1);
            } else {
                assert(mid.covers(one_minus(b.variable))) by {
                    assert(mid.has(Variable::Input(0)));
                }
            }
        }
        cs.enforce(lc_var(a.variable), lc_one_minus(b.variable), lc_var(variable));
        Ok(bit)
    }

    /// The system after `nor`.
    pub open spec fn nor_cs(cs: CsModel, a: AllocatedBit, b: AllocatedBit) -> CsModel {
        cs.allocate(bit_value(both(negation(a.value), negation(b.value)))).enforce(
            one_minus(a.variable),
            one_minus(b.variable),
            single(cs.next_aux(), 1),
        )
    }

    /// A fresh bit constrained to `NOT a AND NOT b`: `(1 - a) * (1 - b) = result`.
    pub fn nor(cs: &mut ConstraintSystem, a: &AllocatedBit, b: &AllocatedBit) -> (r: Result<
        AllocatedBit,
        SynthesisError,
    >)
        requires
            old(cs).wf(),
            a.valid(old(cs)@),
            b.valid(old(cs)@),
        ensures
            final(cs).wf(),
            final(cs)@.extends(old(cs)@),
            r is Ok,
            final(cs)@ == Self::nor_cs(old(cs)@, *a, *b),
            r.unwrap().variable == old(cs)@.next_aux(),
            r.unwrap().value == both(negation(a.value), negation(b.value)),
            r.unwrap().valid(final(cs)@),
            old(cs)@.proving && old(cs)@.satisfied() ==> final(cs)@.satisfied(),
    {
        proof {
            if cs@.proving {
                a.lemma_valid_value(cs@);
                b.lemma_valid_value(cs@);
            }
        }
        let value = match (a.value, b.value) {
            (Some(x), Some(y)) => Some(!x && !y),
            _ => None,
        };
        let variable = match cs.allocate(bit_element(value)) {
            Ok(v) => v,
            Err(e) => {
                return Err(e);
            },
        };
        let bit = AllocatedBit { variable, value };
        proof {
            let mid = cs@;
            mid.lemma_eval_single(variable, 1);
            a.lemma_valid_extends(old(cs)@, mid);
            b.lemma_valid_extends(old(cs)@, mid);
            if mid.proving {
                a.lemma_valid_value(mid);
                b.lemma_valid_value(mid);
                bit.lemma_valid_value(mid);
                lemma_mul_unit(0);
                lemma_mul_unit(1);
            } else {
                assert(mid.has(Variable::Input(0)));
                assert(mid.covers(one_minus(a.variable)));
                assert(mid.covers(one_minus(b.variable)));
            }
        }
        cs.enforce(lc_one_minus(a.variable), lc_one_minus(b.variable), lc_var(variable));
        Ok(bit)
    }
}

/// A boolean that is a bit, the negation of a bit, or a constant.
#[derive(Clone, Copy, Debug)]
pub enum Boolean {
    /// The bit itself.
    Is(AllocatedBit),
    /// The negation of the bit.
    Not(AllocatedBit),
    /// A constant, which takes up no variable.
    Constant(bool),
}

impl Boolean {
    /// Whether the bit underneath, if there is one, is valid in `cs`.
    pub open spec fn valid(&self, cs: CsModel) -> bool {
        match *self {
            Boolean::Is(b) => b.valid(cs),
            Boolean::Not(b) => b.valid(cs),
            Boolean::Constant(_) => true,
        }
    }

    /// The witness value of the boolean.
    pub open spec fn value(&self) -> Option<bool> {
        match *self {
            Boolean::Is(b) => b.value,
            Boolean::Not(b) => negation(b.value),
            Boolean::Constant(c) => Some(c),
        }
    }

    /// The negated boolean.
    pub open spec fn negated(&self) -> Boolean {
        match *self {
            Boolean::Is(b) => Boolean::Not(b),
            Boolean::Not(b) => Boolean::Is(b),
            Boolean::Constant(c) => Boolean::Constant(!c),
        }
    }

    /// A boolean that was valid stays valid when the system grows.
    pub proof fn lemma_valid_extends(&self, base: CsModel, ext: CsModel)
        requires
            self.valid(base),
            ext.extends(base),
        ensures
            self.valid(ext),
    {
    }

    pub fn get_value(&self) -> (r: Option<bool>)
        ensures
            r == self.value(),
    {
        match *self {
            Boolean::Is(b) => b.value,
            Boolean::Not(b) => match b.value {
                Some(x) => Some(!x),
                None => None,
            },
            Boolean::Constant(c) => Some(c),
        }
    }

    /// The boolean that is always `b`.
    pub fn constant(b: bool) -> (r: Boolean)
        ensures
            r == Boolean::Constant(b),
    {
        Boolean::Constant(b)
    }

    /// The negation, which costs no constraint.
    pub fn not(&self) -> (r: Boolean)
        ensures
            r == self.negated(),
            r.value() == negation(self.value()),
            forall|cs: CsModel| self.valid(cs) ==> #[trigger] r.valid(cs),
    {
        match *self {
            Boolean::Is(b) => Boolean::Not(b),
            Boolean::Not(b) => Boolean::Is(b),
            Boolean::Constant(c) => Boolean::Constant(!c),
        }
    }

    /// The system after `and`.
    pub open spec fn and_cs(cs: CsModel, a: Boolean, b: Boolean) -> CsModel {
        match (a, b) {
            (Boolean::Constant(_), _) => cs,
            (_, Boolean::Constant(_)) => cs,
            (Boolean::Is(x), Boolean::Not(y)) => AllocatedBit::and_not_cs(cs, x, y),
            (Boolean::Not(y), Boolean::Is(x)) => AllocatedBit::and_not_cs(cs, x, y),
            (Boolean::Not(x), Boolean::Not(y)) => AllocatedBit::nor_cs(cs, x, y),
            (Boolean::Is(x), Boolean::Is(y)) => AllocatedBit::and_cs(cs, x, y),
        }
    }

    /// The result of `and`.
    pub open spec fn and_out(cs: CsModel, a: Boolean, b: Boolean) -> Boolean {
        match (a, b) {
            (Boolean::Constant(false), _) => Boolean::Constant(false),
            (_, Boolean::Constant(false)) => Boolean::Constant(false),
            (Boolean::Constant(true), x) => x,
            (x, Boolean::Constant(true)) => x,
            _ => Boolean::Is(
                AllocatedBit { variable: cs.next_aux(), value: both(a.value(), b.value()) },
            ),
        }
    }

    /// The conjunction. A constant operand costs nothing; otherwise one fresh bit and
    /// one constraint.
    pub fn and(cs: &mut ConstraintSystem, a: &Boolean, b: &Boolean) -> (r: Result<
        Boolean,
        SynthesisError,
    >)
        requires
            old(cs).wf(),
            a.valid(old(cs)@),
            b.valid(old(cs)@),
        ensures
            final(cs).wf(),
            final(cs)@.extends(old(cs)@),
            r is Ok,
            final(cs)@ == Self::and_cs(old(cs)@, *a, *b),
            r.unwrap() == Self::and_out(old(cs)@, *a, *b),
            a.value() is Some && b.value() is Some ==> r.unwrap().value() == both(
                a.value(),
                b.value(),
            ),
            r.unwrap().valid(final(cs)@),
            old(cs)@.proving && old(cs)@.satisfied() ==> final(cs)@.satisfied(),
    {
        match (*a, *b) {
            (Boolean::Constant(false), _) => Ok(Boolean::Constant(false)),
            (_, Boolean::Constant(false)) => Ok(Boolean::Constant(false)),
            (Boolean::Constant(true), x) => Ok(x),
            (x, Boolean::Constant(true)) => Ok(x),
            (Boolean::Is(x), Boolean::Not(y)) => {
                match AllocatedBit::and_not(cs, &x, &y) {
                    Ok(bit) => Ok(Boolean::Is(bit)),
                    Err(e) => Err(e),
                }
            },
            (Boolean::Not(y), Boolean::Is(x)) => {
                match AllocatedBit::and_not(cs, &x, &y) {
                    Ok(bit) => Ok(Boolean::Is(bit)),
                    Err(e) => Err(e),
                }
            },
            (Boolean::Not(x), Boolean::Not(y)) => {
                match AllocatedBit::nor(cs, &x, &y) {
                    Ok(bit) => Ok(Boolean::Is(bit)),
                    Err(e) => Err(e),
                }
            },
            (Boolean::Is(x), Boolean::Is(y)) => {
                match AllocatedBit::and(cs, &x, &y) {
                    Ok(bit) => Ok(Boolean::Is(bit)),
                    Err(e) => Err(e),
                }
            },
        }
    }
}

} // verus!
