//! The linear term: an affine combination of variables with its witness value.

use crate::common::uint::UnsignedInteger;
use crate::common::wire::{bit_element, bit_value, product, AllocatedBit, AllocatedNum};
use crate::cs::{value_of, ConstraintSystem, CsModel, SynthesisError};
use crate::field::{field_add, field_sub, lemma_mul_comm, lemma_mul_unit, modulus, Fr};
use crate::lc::{
    lc_add, lc_add_term, lc_clone, lc_single, lc_sub, lc_terms, lc_var, lc_zero, negated, single,
    LinearCombination, Term, Variable,
};
use vstd::prelude::*;

verus! {

/// An affine combination of variables, with the value it takes under the witness where
/// that value is known. Every operation moves the combination and the value together.
pub struct Number(pub LinearCombination, pub Option<Fr>);

/// The mathematical content of a linear term.
pub struct NumberModel {
    pub lc: Seq<Term>,
    pub value: Option<nat>,
}

impl View for Number {
    type V = NumberModel;

    open spec fn view(&self) -> NumberModel {
        NumberModel { lc: lc_terms(self.0), value: value_of(self.1) }
    }
}

/// The sum of two optional field values.
pub open spec fn sum(a: Option<nat>, b: Option<nat>) -> Option<nat> {
    match (a, b) {
        (Some(x), Some(y)) => Some(field_add(x, y)),
        _ => None,
    }
}

/// The difference of two optional field values.
pub open spec fn difference(a: Option<nat>, b: Option<nat>) -> Option<nat> {
    match (a, b) {
        (Some(x), Some(y)) => Some(field_sub(x, y)),
        _ => None,
    }
}

impl NumberModel {
    /// Whether the term speaks of variables of `cs` only and, while proving, carries the
    /// value that its combination takes under the witness.
    pub open spec fn valid(self, cs: CsModel) -> bool {
        &&& cs.covers(self.lc)
        &&& cs.proving && self.value is Some ==> cs.eval(self.lc) == self.value.unwrap()
    }

    /// The term without summands, worth zero.
    pub open spec fn zero() -> NumberModel {
        NumberModel { lc: Seq::empty(), value: Some(0nat) }
    }

    /// The constant `v`, as a multiple of the first input.
    pub open spec fn constant(v: nat) -> NumberModel {
        NumberModel { lc: single(Variable::Input(0), v), value: Some(v) }
    }

    /// The term that is one variable.
    pub open spec fn of_var(variable: Variable, value: Option<nat>) -> NumberModel {
        NumberModel { lc: single(variable, 1), value }
    }

    /// The term `coeff * variable`.
    pub open spec fn of_scaled(coeff: nat, variable: Variable, value: Option<nat>) -> NumberModel {
        NumberModel { lc: single(variable, coeff), value: product(value, Some(coeff)) }
    }

    /// The sum of two terms.
    pub open spec fn plus(self, other: NumberModel) -> NumberModel {
        NumberModel { lc: self.lc + other.lc, value: sum(self.value, other.value) }
    }

    /// The difference of two terms.
    pub open spec fn minus(self, other: NumberModel) -> NumberModel {
        NumberModel { lc: self.lc + negated(other.lc), value: difference(self.value, other.value) }
    }

    /// The term plus the constant `c`.
    pub open spec fn plus_constant(self, c: nat) -> NumberModel {
        NumberModel {
            lc: self.lc.push(Term { var: Variable::Input(0), coeff: c }),
            value: sum(self.value, Some(c)),
        }
    }

    /// The term plus `coeff * variable`.
    pub open spec fn plus_scaled(self, coeff: nat, variable: Variable, value: Option<nat>) -> NumberModel {
        NumberModel {
            lc: self.lc.push(Term { var: variable, coeff }),
            value: sum(product(value, Some(coeff)), self.value),
        }
    }

    /// A term that was valid stays valid when the system grows.
    pub proof fn lemma_valid_extends(self, base: CsModel, ext: CsModel)
        requires
            self.valid(base),
            ext.extends(base),
        ensures
            self.valid(ext),
    {
        ext.lemma_eval_extends(base, self.lc);
    }

    /// A constant is valid in every well-formed system.
    pub proof fn lemma_constant_valid(v: nat, cs: CsModel)
        requires
            cs.wf(),
            v < modulus(),
        ensures
            Self::constant(v).valid(cs),
    {
        cs.lemma_eval_single(Variable::Input(0), v);
        if cs.proving {
            cs.lemma_value(Variable::Input(0));
            lemma_mul_unit(v);
        }
    }

    /// The term of a valid variable is valid.
    pub proof fn lemma_of_var_valid(n: AllocatedNum, cs: CsModel)
        requires
            cs.wf(),
            n.valid(cs),
        ensures
            Self::of_var(n.variable, value_of(n.value)).valid(cs),
    {
        cs.lemma_eval_single(n.variable, 1);
        if cs.proving {
            n.lemma_valid_value(cs);
        }
    }

    /// The term of a valid bit is valid.
    pub proof fn lemma_of_bit_valid(b: AllocatedBit, cs: CsModel)
        requires
            cs.wf(),
            b.valid(cs),
        ensures
            Self::of_var(b.variable, bit_value(b.value)).valid(cs),
    {
        cs.lemma_eval_single(b.variable, 1);
        if cs.proving {
            b.lemma_valid_value(cs);
        }
    }

    /// A multiple of a valid variable is valid.
    pub proof fn lemma_of_scaled_valid(coeff: nat, n: AllocatedNum, cs: CsModel)
        requires
            cs.wf(),
            n.valid(cs),
        ensures
            Self::of_scaled(coeff, n.variable, value_of(n.value)).valid(cs),
    {
        cs.lemma_eval_single(n.variable, coeff);
        if cs.proving {
            n.lemma_valid_value(cs);
            lemma_mul_comm(coeff, cs.value(n.variable));
        }
    }

    /// The sum of valid terms is valid.
    pub proof fn lemma_plus_valid(self, other: NumberModel, cs: CsModel)
        requires
            self.valid(cs),
            other.valid(cs),
        ensures
            self.plus(other).valid(cs),
    {
        cs.lemma_eval_concat(self.lc, other.lc);
    }

    /// The difference of valid terms is valid.
    pub proof fn lemma_minus_valid(self, other: NumberModel, cs: CsModel)
        requires
            self.valid(cs),
            other.valid(cs),
        ensures
            self.minus(other).valid(cs),
    {
        cs.lemma_eval_minus(self.lc, other.lc);
    }

    /// A valid term plus a constant is valid.
    pub proof fn lemma_plus_constant_valid(self, c: nat, cs: CsModel)
        requires
            cs.wf(),
            self.valid(cs),
            c < modulus(),
        ensures
            self.plus_constant(c).valid(cs),
    {
        let t = Term { var: Variable::Input(0), coeff: c };
        cs.lemma_eval_push(self.lc, t);
        assert(self.lc.push(t) =~= self.lc + seq![t]);
        cs.lemma_eval_term(t);
        cs.lemma_eval_concat(self.lc, seq![t]);
        if cs.proving {
            cs.lemma_value(Variable::Input(0));
            lemma_mul_unit(c);
        }
    }

    /// A valid term plus a multiple of a valid variable is valid.
    pub proof fn lemma_plus_scaled_valid(self, coeff: nat, n: AllocatedNum, cs: CsModel)
        requires
            cs.wf(),
            self.valid(cs),
            n.valid(cs),
        ensures
            self.plus_scaled(coeff, n.variable, value_of(n.value)).valid(cs),
    {
        let t = Term { var: n.variable, coeff };
        cs.lemma_eval_push(self.lc, t);
        assert(self.lc.push(t) =~= self.lc + seq![t]);
        cs.lemma_eval_term(t);
        cs.lemma_eval_concat(self.lc, seq![t]);
        if cs.proving {
            n.lemma_valid_value(cs);
            lemma_mul_comm(coeff, cs.value(n.variable));
        }
    }
}

impl Clone for Number {
    fn clone(&self) -> (r: Self)
        ensures
            r@ == self@,
    {
        Number(lc_clone(&self.0), self.1)
    }
}

impl Number {
    pub fn get_lc(&self) -> (r: &LinearCombination)
        ensures
            lc_terms(*r) == self@.lc,
    {
        &self.0
    }

    pub fn get_value(&self) -> (r: Option<Fr>)
        ensures
            r == self.1,
    {
        self.1
    }

    /// Adds the constant `num`.
    pub fn add_constant(&mut self, num: Fr)
        ensures
            final(self)@ == old(self)@.plus_constant(num@),
            forall|cs: CsModel| cs.wf() && old(self)@.valid(cs) ==> #[trigger] final(self)@.valid(cs),
    {
        num.reduced();
        let ghost before = self@;
        let lc = lc_add_term(lc_clone(&self.0), &num, Variable::Input(0));
        let value = match self.1 {
            Some(v) => Some(v.add(&num)),
            None => None,
        };
        self.0 = lc;
        self.1 = value;
        proof {
            assert forall|cs: CsModel| cs.wf() && before.valid(cs) implies #[trigger] self@.valid(
                cs,
            ) by {
                before.lemma_plus_constant_valid(num@, cs);
            }
        }
    }

    /// Adds `coeff * num`.
    pub fn add_num(&mut self, coeff: Fr, num: &AllocatedNum)
        ensures
            final(self)@ == old(self)@.plus_scaled(coeff@, num.variable, value_of(num.value)),
            forall|cs: CsModel|
                cs.wf() && old(self)@.valid(cs) && num.valid(cs) ==> #[trigger] final(self)@.valid(
                    cs,
                ),
    {
        let ghost before = self@;
        let lc = lc_add_term(lc_clone(&self.0), &coeff, num.variable);
        let value = match (self.1, num.value) {
            (Some(v), Some(n)) => Some(n.mul(&coeff).add(&v)),
            _ => None,
        };
        self.0 = lc;
        self.1 = value;
        proof {
            assert forall|cs: CsModel| cs.wf() && before.valid(cs) && num.valid(cs) implies
                #[trigger] self@.valid(cs) by {
                before.lemma_plus_scaled_valid(coeff@, *num, cs);
            }
        }
    }

    /// The constant `v`.
    pub fn constant(v: Fr) -> (r: Number)
        ensures
            r@ == NumberModel::constant(v@),
            forall|cs: CsModel| cs.wf() ==> #[trigger] r@.valid(cs),
    {
        v.reduced();
        let r = Number(lc_single(&v, Variable::Input(0)), Some(v));
        proof {
            assert forall|cs: CsModel| cs.wf() implies #[trigger] r@.valid(cs) by {
                NumberModel::lemma_constant_valid(v@, cs);
            }
        }
        r
    }

    /// The term without summands, worth zero.
    pub fn zero() -> (r: Number)
        ensures
            r@ == NumberModel::zero(),
            forall|cs: CsModel| #[trigger] r@.valid(cs),
    {
        Number(lc_zero(), Some(Fr::zero()))
    }

    /// The constant one.
    pub fn one() -> (r: Number)
        ensures
            r@ == NumberModel::constant(1),
            forall|cs: CsModel| cs.wf() ==> #[trigger] r@.valid(cs),
    {
        Number::constant(Fr::one())
    }

    /// The system after `mul`.
    pub open spec fn mul_cs(cs: CsModel, a: NumberModel, b: NumberModel) -> CsModel {
        cs.allocate(product(a.value, b.value)).enforce(a.lc, b.lc, single(cs.next_aux(), 1))
    }

    /// A fresh variable constrained to the product of two terms: `self * other = result`.
    /// This is the one operation on terms that costs a constraint.
    pub fn mul(&self, cs: &mut ConstraintSystem, other: &Number) -> (r: Result<
        AllocatedNum,
        SynthesisError,
    >)
        requires
            old(cs).wf(),
            self@.valid(old(cs)@),
            other@.valid(old(cs)@),
        ensures
            final(cs).wf(),
            final(cs)@.extends(old(cs)@),
            r is Err <==> old(cs)@.proving && (self@.value is None || other@.value is None),
            r is Err ==> *final(cs) == *old(cs),
            r is Ok ==> {
                &&& final(cs)@ == Self::mul_cs(old(cs)@, self@, other@)
                &&& r.unwrap().variable == old(cs)@.next_aux()
                &&& value_of(r.unwrap().value) == old(cs)@.kept(product(self@.value, other@.value))
                &&& r.unwrap().valid(final(cs)@)
                &&& old(cs)@.proving && old(cs)@.satisfied() ==> final(cs)@.satisfied()
            },
    {
        let value = match (self.1, other.1) {
            (Some(a), Some(b)) => Some(a.mul(&b)),
            _ => None,
        };
        let result = match AllocatedNum::allocate(cs, value) {
            Ok(n) => n,
            Err(e) => {
                return Err(e);
            },
        };
        proof {
            let mid = cs@;
            self@.lemma_valid_extends(old(cs)@, mid);
            other@.lemma_valid_extends(old(cs)@, mid);
            mid.lemma_eval_single(result.variable, 1);
            if mid.proving {
                mid.lemma_value(result.variable);
            }
        }
        cs.enforce(lc_clone(&self.0), lc_clone(&other.0), lc_var(result.variable));
        Ok(result)
    }

    /// The system after `compress`.
    pub open spec fn compress_cs(cs: CsModel, a: NumberModel) -> CsModel {
        Self::mul_cs(cs, a, NumberModel::constant(1))
    }

    /// A fresh variable constrained to equal the term: `self * 1 = result`.
    pub fn compress(&self, cs: &mut ConstraintSystem) -> (r: Result<AllocatedNum, SynthesisError>)
        requires
            old(cs).wf(),
            self@.valid(old(cs)@),
        ensures
            final(cs).wf(),
            final(cs)@.extends(old(cs)@),
            r is Err <==> old(cs)@.proving && self@.value is None,
            r is Err ==> *final(cs) == *old(cs),
            r is Ok ==> {
                &&& final(cs)@ == Self::compress_cs(old(cs)@, self@)
                &&& r.unwrap().variable == old(cs)@.next_aux()
                &&& value_of(r.unwrap().value) == old(cs)@.kept(product(self@.value, Some(1nat)))
                &&& r.unwrap().valid(final(cs)@)
                &&& old(cs)@.proving && old(cs)@.satisfied() ==> final(cs)@.satisfied()
            },
    {
        let one = Number::one();
        self.mul(cs, &one)
    }

    /// Asserts that the two terms are equal: `self * 1 = other`.
    pub fn assert_equal(&self, cs: &mut ConstraintSystem, other: &Number)
        requires
            old(cs).wf(),
            self@.valid(old(cs)@),
            other@.valid(old(cs)@),
        ensures
            final(cs).wf(),
            final(cs)@.extends(old(cs)@),
            final(cs)@ == old(cs)@.enforce(self@.lc, single(Variable::Input(0), 1), other@.lc),
            old(cs)@.proving ==> (final(cs)@.satisfied() <==> old(cs)@.satisfied() && old(cs)@.eval(
                self@.lc,
            ) == old(cs)@.eval(other@.lc)),
    {
        proof {
            let c = cs@;
            c.lemma_eval_single(Variable::Input(0), 1);
            if c.proving {
                c.lemma_value(Variable::Input(0));
                c.lemma_eval_reduced(self@.lc);
                lemma_mul_unit(c.eval(self@.lc));
            }
        }
        cs.enforce(lc_clone(&self.0), lc_var(Variable::Input(0)), lc_clone(&other.0));
    }

    /// The sum of two terms.
    pub fn add(self, other: Number) -> (r: Number)
        ensures
            r@ == self@.plus(other@),
            forall|cs: CsModel| self@.valid(cs) && other@.valid(cs) ==> #[trigger] r@.valid(cs),
    {
        let value = match (self.1, other.1) {
            (Some(a), Some(b)) => Some(a.add(&b)),
            _ => None,
        };
        let r = Number(lc_add(self.0, &other.0), value);
        proof {
            assert forall|cs: CsModel| self@.valid(cs) && other@.valid(cs) implies #[trigger] r@.valid(
                cs,
            ) by {
                self@.lemma_plus_valid(other@, cs);
            }
        }
        r
    }

    /// The difference of two terms.
    pub fn sub(self, other: Number) -> (r: Number)
        ensures
            r@ == self@.minus(other@),
            forall|cs: CsModel| self@.valid(cs) && other@.valid(cs) ==> #[trigger] r@.valid(cs),
    {
        let value = match (self.1, other.1) {
            (Some(a), Some(b)) => Some(a.sub(&b)),
            _ => None,
        };
        let r = Number(lc_sub(self.0, &other.0), value);
        proof {
            assert forall|cs: CsModel| self@.valid(cs) && other@.valid(cs) implies #[trigger] r@.valid(
                cs,
            ) by {
                self@.lemma_minus_valid(other@, cs);
            }
        }
        r
    }

    /// The term that is the variable of `a`.
    pub fn from_num(a: AllocatedNum) -> (r: Number)
        ensures
            r@ == NumberModel::of_var(a.variable, value_of(a.value)),
            forall|cs: CsModel| cs.wf() && a.valid(cs) ==> #[trigger] r@.valid(cs),
    {
        let r = Number(lc_var(a.variable), a.value);
        proof {
            assert forall|cs: CsModel| cs.wf() && a.valid(cs) implies #[trigger] r@.valid(cs) by {
                NumberModel::lemma_of_var_valid(a, cs);
            }
        }
        r
    }

    /// The term `coeff * a`.
    pub fn from_scaled(coeff: Fr, a: AllocatedNum) -> (r: Number)
        ensures
            r@ == NumberModel::of_scaled(coeff@, a.variable, value_of(a.value)),
            forall|cs: CsModel| cs.wf() && a.valid(cs) ==> #[trigger] r@.valid(cs),
    {
        let value = match a.value {
            Some(v) => Some(v.mul(&coeff)),
            None => None,
        };
        let r = Number(lc_single(&coeff, a.variable), value);
        proof {
            assert forall|cs: CsModel| cs.wf() && a.valid(cs) implies #[trigger] r@.valid(cs) by {
                NumberModel::lemma_of_scaled_valid(coeff@, a, cs);
            }
        }
        r
    }

    /// The term that is the variable of a bit, worth one or zero.
    pub fn from_bit(a: AllocatedBit) -> (r: Number)
        ensures
            r@ == NumberModel::of_var(a.variable, bit_value(a.value)),
            forall|cs: CsModel| cs.wf() && a.valid(cs) ==> #[trigger] r@.valid(cs),
    {
        let r = Number(lc_var(a.variable), bit_element(a.value));
        proof {
            assert forall|cs: CsModel| cs.wf() && a.valid(cs) implies #[trigger] r@.valid(cs) by {
                NumberModel::lemma_of_bit_valid(a, cs);
            }
        }
        r
    }

    /// The term that is the variable of an unsigned integer.
    pub fn from_uint(a: &UnsignedInteger) -> (r: Number)
        ensures
            r@ == NumberModel::of_var(a.num().variable, value_of(a.num().value)),
            forall|cs: CsModel| cs.wf() && a.num().valid(cs) ==> #[trigger] r@.valid(cs),
    {
        Number::from_num(a.get_num())
    }
}

} // verus!
