//! The core gadgets: linear terms, wires, and the tests and selections built on them.

pub mod mux;
pub mod number;
pub mod strict;
pub mod uint;
pub mod wire;

use crate::common::number::{Number, NumberModel};
use crate::common::wire::{bit_nat, bit_value, negation, AllocatedBit, AllocatedNum, Boolean};
use crate::cs::{value_of, ConstraintSystem, CsModel, SynthesisError};
use crate::field::{
    field_inv, field_neg, lemma_mul_comm, lemma_mul_neg, lemma_mul_unit, lemma_sub_zero_iff, modulus, Fr,
};
use crate::lc::{
    lc_add_term, lc_clone, lc_one_minus, lc_sub, lc_terms, lc_var, lc_zero, negated, one_minus,
    single, Term, Variable,
};
use vstd::arithmetic::div_mod::lemma_small_mod;
use vstd::prelude::*;

verus! {

/// Whether an optional value is zero.
pub open spec fn zero_test(v: Option<nat>) -> Option<bool> {
    match v {
        Some(x) => Some(x == 0),
        None => None,
    }
}

/// The inverse of an optional value, with zero for zero.
pub open spec fn inverse(v: Option<nat>) -> Option<nat> {
    match v {
        Some(x) => Some(field_inv(x)),
        None => None,
    }
}

/// The combination `var - 1`.
pub open spec fn minus_one(var: Variable) -> Seq<Term> {
    seq![Term { var, coeff: 1 }, Term { var: Variable::Input(0), coeff: field_neg(1) }]
}

/// The system after `is_zero`.
pub open spec fn is_zero_cs(cs: CsModel, num: NumberModel) -> CsModel {
    let bit = cs.next_aux();
    let c1 = AllocatedBit::allocate_cs(cs, zero_test(num.value));
    let inv = c1.next_aux();
    c1.allocate(inverse(num.value)).enforce(negated(num.lc), single(inv, 1), minus_one(bit)).enforce(
        single(bit, 1),
        num.lc,
        Seq::empty(),
    )
}

/// Whether `num` is zero, as a fresh bit `r` with a helper `inv`:
/// `-num * inv = r - 1` and `r * num = 0`.
pub fn is_zero(cs: &mut ConstraintSystem, num: &Number) -> (r: Result<AllocatedBit, SynthesisError>)
    requires
        old(cs).wf(),
        num@.valid(old(cs)@),
    ensures
        final(cs).wf(),
        final(cs)@.extends(old(cs)@),
        r is Err <==> old(cs)@.proving && num@.value is None,
        r is Err ==> *final(cs) == *old(cs),
        r is Ok ==> {
            &&& final(cs)@ == is_zero_cs(old(cs)@, num@)
            &&& r.unwrap().variable == old(cs)@.next_aux()
            &&& r.unwrap().value == old(cs)@.kept_bit(zero_test(num@.value))
            &&& r.unwrap().valid(final(cs)@)
            &&& old(cs)@.proving && old(cs)@.satisfied() ==> final(cs)@.satisfied()
        },
{
    let ghost start = cs@;
    let is_zero_value = match num.1 {
        Some(v) => Some(v.is_zero()),
        None => None,
    };
    let bit = match AllocatedBit::allocate(cs, is_zero_value) {
        Ok(b) => b,
        Err(e) => {
            return Err(e);
        },
    };
    let inv_value = match num.1 {
        Some(v) => match v.invert() {
            Some(w) => Some(w),
            None => Some(Fr::zero()),
        },
        None => None,
    };
    let inv = match AllocatedNum::allocate(cs, inv_value) {
        Ok(n) => n,
        Err(e) => {
            return Err(e);
        },
    };
    let one = Fr::one();
    let neg_one = one.neg();
    let a1 = lc_sub(lc_zero(), &num.0);
    let c1 = lc_add_term(lc_var(bit.variable), &neg_one, Variable::Input(0));
    proof {
        let mid = cs@;
        let e = Seq::<Term>::empty();
        num@.lemma_valid_extends(start, mid);
        bit.lemma_valid_extends(AllocatedBit::allocate_cs(start, zero_test(num@.value)), mid);
        assert(lc_terms(a1) =~= negated(num@.lc));
        assert(lc_terms(c1) =~= minus_one(bit.variable));
        assert(e + negated(num@.lc) =~= negated(num@.lc));
        mid.lemma_eval_negated(num@.lc);
        let z = single(bit.variable, 1);
        let o = single(Variable::Input(0), 1);
        assert(minus_one(bit.variable) =~= z + negated(o));
        mid.lemma_eval_minus(z, o);
        mid.lemma_eval_single(bit.variable, 1);
        mid.lemma_eval_single(Variable::Input(0), 1);
        mid.lemma_eval_single(inv.variable, 1);
        if mid.proving {
            let v = num@.value.unwrap();
            bit.lemma_valid_value(mid);
            inv.lemma_valid_value(mid);
            mid.lemma_value(Variable::Input(0));
            mid.lemma_eval_reduced(num@.lc);
            lemma_small_mod(0, modulus());
            lemma_small_mod(1, modulus());
            lemma_mul_unit(0);
            lemma_mul_unit(v);
            if v != 0 {
                let w = field_inv(v);
                lemma_mul_neg(v, w);
                lemma_mul_comm(v, w);
            }
        }
    }
    cs.enforce(a1, lc_var(inv.variable), c1);
    cs.enforce(lc_var(bit.variable), lc_clone(&num.0), lc_zero());
    Ok(bit)
}

/// The system after `is_equal`.
pub open spec fn is_equal_cs(cs: CsModel, a: NumberModel, b: NumberModel) -> CsModel {
    is_zero_cs(cs, a.minus(b))
}

/// Whether two optional values are equal.
pub open spec fn equal_test(a: Option<nat>, b: Option<nat>) -> Option<bool> {
    match (a, b) {
        (Some(x), Some(y)) => Some(x == y),
        _ => None,
    }
}

/// Whether `a` equals `b`, as a fresh bit: the zero test of `a - b`.
pub fn is_equal(cs: &mut ConstraintSystem, a: &Number, b: &Number) -> (r: Result<
    AllocatedBit,
    SynthesisError,
>)
    requires
        old(cs).wf(),
        a@.valid(old(cs)@),
        b@.valid(old(cs)@),
    ensures
        final(cs).wf(),
        final(cs)@.extends(old(cs)@),
        r is Err <==> old(cs)@.proving && (a@.value is None || b@.value is None),
        r is Err ==> *final(cs) == *old(cs),
        r is Ok ==> {
            &&& final(cs)@ == is_equal_cs(old(cs)@, a@, b@)
            &&& r.unwrap().variable == old(cs)@.next_aux()
            &&& r.unwrap().value == old(cs)@.kept_bit(equal_test(a@.value, b@.value))
            &&& r.unwrap().valid(final(cs)@)
            &&& old(cs)@.proving && old(cs)@.satisfied() ==> final(cs)@.satisfied()
        },
{
    proof {
        if let (Some(x), Some(y)) = (a.1, b.1) {
            use_type_invariant(&x);
            use_type_invariant(&y);
            lemma_sub_zero_iff(x@, y@);
        }
    }
    let d = a.clone().sub(b.clone());
    is_zero(cs, &d)
}

/// The system after `not`.
pub open spec fn not_cs(cs: CsModel, a: AllocatedBit) -> CsModel {
    AllocatedBit::allocate_cs(cs, negation(a.value)).enforce(
        one_minus(a.variable),
        single(Variable::Input(0), 1),
        single(cs.next_aux(), 1),
    )
}

/// The negation of a bit, as a fresh bit `r` with `(1 - a) * 1 = r`.
pub fn not(cs: &mut ConstraintSystem, a: AllocatedBit) -> (r: Result<AllocatedBit, SynthesisError>)
    requires
        old(cs).wf(),
        a.valid(old(cs)@),
    ensures
        final(cs).wf(),
        final(cs)@.extends(old(cs)@),
        r is Ok,
        final(cs)@ == not_cs(old(cs)@, a),
        final(cs)@.aux.len() == old(cs)@.aux.len() + 1,
        final(cs)@.constraints.len() == old(cs)@.constraints.len() + 2,
        r.unwrap().variable == old(cs)@.next_aux(),
        r.unwrap().value == negation(a.value),
        r.unwrap().valid(final(cs)@),
        old(cs)@.proving && old(cs)@.satisfied() ==> final(cs)@.satisfied(),
{
    let ghost start = cs@;
    proof {
        if start.proving {
            a.lemma_valid_value(start);
        }
    }
    let value = match a.value {
        Some(b) => Some(!b),
        None => None,
    };
    let bit = match AllocatedBit::allocate(cs, value) {
        Ok(b) => b,
        Err(e) => {
            return Err(e);
        },
    };
    proof {
        let mid = cs@;
        a.lemma_valid_extends(start, mid);
        mid.lemma_eval_single(Variable::Input(0), 1);
        mid.lemma_eval_single(bit.variable, 1);
        if mid.proving {
            a.lemma_valid_value(mid);
            bit.lemma_valid_value(mid);
            mid.lemma_value(Variable::Input(0));
            lemma_mul_unit(0);
            lemma_mul_unit(1);
        } else {
            assert(mid.has(Variable::Input(0)));
            assert(mid.covers(one_minus(a.variable)));
        }
    }
    cs.enforce(lc_one_minus(a.variable), lc_var(Variable::Input(0)), lc_var(bit.variable));
    Ok(bit)
}

/// What the helper variable of a gated equality holds: `a` when enabled, zero otherwise.
pub open spec fn gated(enabled: Option<bool>, a: Option<nat>) -> Option<nat> {
    match enabled {
        Some(true) => a,
        Some(false) => Some(0nat),
        None => None,
    }
}

/// The system after a gated equality: a helper `x` with `enabled * a = x` and
/// `enabled * b = x`.
pub open spec fn gated_equal_cs(cs: CsModel, enabled: AllocatedBit, a: NumberModel, b: NumberModel) -> CsModel {
    let x = cs.next_aux();
    cs.allocate(gated(enabled.value, a.value)).enforce(
        single(enabled.variable, 1),
        a.lc,
        single(x, 1),
    ).enforce(single(enabled.variable, 1), b.lc, single(x, 1))
}

/// Whether a gated equality is met by the values: equal, or not enabled.
pub open spec fn gated_equal_holds(enabled: Option<bool>, cs: CsModel, a: NumberModel, b: NumberModel) -> bool {
    enabled == Some(true) ==> cs.eval(a.lc) == cs.eval(b.lc)
}

/// Asserts `a == b` where the bit `enabled` is set, and nothing where it is not.
fn gated_equal(cs: &mut ConstraintSystem, enabled: &AllocatedBit, a: &Number, b: &Number) -> (r:
    Result<(), SynthesisError>)
    requires
        old(cs).wf(),
        enabled.valid(old(cs)@),
        a@.valid(old(cs)@),
        b@.valid(old(cs)@),
    ensures
        final(cs).wf(),
        final(cs)@.extends(old(cs)@),
        r is Err <==> old(cs)@.proving && enabled.value == Some(true) && a@.value is None,
        r is Err ==> *final(cs) == *old(cs),
        r is Ok ==> {
            &&& final(cs)@ == gated_equal_cs(old(cs)@, *enabled, a@, b@)
            &&& old(cs)@.proving ==> (final(cs)@.satisfied() <==> old(cs)@.satisfied()
                && gated_equal_holds(enabled.value, old(cs)@, a@, b@))
        },
{
    let ghost start = cs@;
    proof {
        if start.proving {
            enabled.lemma_valid_value(start);
        }
    }
    let value = match enabled.value {
        Some(true) => a.1,
        Some(false) => Some(Fr::zero()),
        None => None,
    };
    let x = match cs.allocate(value) {
        Ok(v) => v,
        Err(e) => {
            return Err(e);
        },
    };
    proof {
        let mid = cs@;
        a@.lemma_valid_extends(start, mid);
        b@.lemma_valid_extends(start, mid);
        enabled.lemma_valid_extends(start, mid);
        mid.lemma_eval_extends(start, a@.lc);
        mid.lemma_eval_extends(start, b@.lc);
        mid.lemma_eval_single(enabled.variable, 1);
        mid.lemma_eval_single(x, 1);
        if mid.proving {
            enabled.lemma_valid_value(mid);
            mid.lemma_value(x);
            mid.lemma_eval_reduced(a@.lc);
            mid.lemma_eval_reduced(b@.lc);
            lemma_mul_unit(mid.eval(a@.lc));
            lemma_mul_unit(mid.eval(b@.lc));
        }
    }
    cs.enforce(lc_var(enabled.variable), lc_clone(&a.0), lc_var(x));
    proof {
        let mid = cs@;
        mid.lemma_eval_extends(start, b@.lc);
    }
    cs.enforce(lc_var(enabled.variable), lc_clone(&b.0), lc_var(x));
    Ok(())
}

/// Asserts that two variables are equal where the bit `enabled` is set.
pub fn assert_equal(
    cs: &mut ConstraintSystem,
    enabled: AllocatedBit,
    a: AllocatedNum,
    b: AllocatedNum,
) -> (r: Result<(), SynthesisError>)
    requires
        old(cs).wf(),
        enabled.valid(old(cs)@),
        a.valid(old(cs)@),
        b.valid(old(cs)@),
    ensures
        final(cs).wf(),
        final(cs)@.extends(old(cs)@),
        r is Ok,
        final(cs)@ == gated_equal_cs(
            old(cs)@,
            enabled,
            NumberModel::of_var(a.variable, value_of(a.value)),
            NumberModel::of_var(b.variable, value_of(b.value)),
        ),
        old(cs)@.proving ==> (final(cs)@.satisfied() <==> old(cs)@.satisfied() && (enabled.value
            == Some(true) ==> value_of(a.value) == value_of(b.value))),
{
    proof {
        if cs@.proving {
            a.lemma_valid_value(cs@);
            b.lemma_valid_value(cs@);
        }
    }
    let na = Number::from_num(a);
    let nb = Number::from_num(b);
    gated_equal(cs, &enabled, &na, &nb)
}

/// The system after `Number::assert_equal`.
pub open spec fn assert_equal_cs(cs: CsModel, a: NumberModel, b: NumberModel) -> CsModel {
    cs.enforce(a.lc, single(Variable::Input(0), 1), b.lc)
}

/// The system after `assert_equal_if_enabled`.
pub open spec fn assert_equal_if_enabled_cs(cs: CsModel, enabled: Boolean, a: NumberModel, b: NumberModel) -> CsModel {
    match enabled {
        Boolean::Is(e) => gated_equal_cs(cs, e, a, b),
        Boolean::Not(_) => cs,
        Boolean::Constant(true) => assert_equal_cs(cs, a, b),
        Boolean::Constant(false) => cs,
    }
}

/// Asserts `a == b` where `enabled` holds, so that a disabled slot never makes the
/// system unsatisfiable. `enabled` is a bit or a constant.
pub fn assert_equal_if_enabled(cs: &mut ConstraintSystem, enabled: &Boolean, a: &Number, b: &Number) -> (r:
    Result<(), SynthesisError>)
    requires
        old(cs).wf(),
        enabled.valid(old(cs)@),
        !(enabled is Not),
        a@.valid(old(cs)@),
        b@.valid(old(cs)@),
    ensures
        final(cs).wf(),
        final(cs)@.extends(old(cs)@),
        r is Err <==> old(cs)@.proving && enabled is Is && enabled.value() == Some(true)
            && a@.value is None,
        r is Err ==> *final(cs) == *old(cs),
        r is Ok ==> {
            &&& final(cs)@ == assert_equal_if_enabled_cs(old(cs)@, *enabled, a@, b@)
            &&& old(cs)@.proving ==> (final(cs)@.satisfied() <==> old(cs)@.satisfied()
                && gated_equal_holds(enabled.value(), old(cs)@, a@, b@))
        },
{
    match *enabled {
        Boolean::Is(e) => gated_equal(cs, &e, a, b),
        Boolean::Not(_) => Ok(()),
        Boolean::Constant(c) => {
            if c {
                a.assert_equal(cs, b);
            }
            Ok(())
        },
    }
}

/// The term that stands for a boolean: the bit, one minus the bit, or a constant.
pub open spec fn extract_bool_model(b: Boolean) -> NumberModel {
    match b {
        Boolean::Is(x) => NumberModel::of_var(x.variable, bit_value(x.value)),
        Boolean::Not(x) => NumberModel::constant(1).minus(
            NumberModel::of_var(x.variable, bit_value(x.value)),
        ),
        Boolean::Constant(true) => NumberModel::constant(1),
        Boolean::Constant(false) => NumberModel::zero(),
    }
}

/// The term that stands for a boolean, worth one where it holds and zero where not.
pub fn extract_bool(b: &Boolean) -> (r: Number)
    ensures
        r@ == extract_bool_model(*b),
        b.value() is Some ==> r@.value == bit_value(b.value()),
        forall|cs: CsModel| cs.wf() && b.valid(cs) ==> #[trigger] r@.valid(cs),
{
    proof {
        lemma_small_mod(1, modulus());
        lemma_small_mod(0, modulus());
    }
    match *b {
        Boolean::Is(x) => Number::from_bit(x),
        Boolean::Not(x) => Number::one().sub(Number::from_bit(x)),
        Boolean::Constant(c) => {
            if c {
                Number::one()
            } else {
                Number::zero()
            }
        },
    }
}

/// Asserts that `b` holds.
pub fn assert_true(cs: &mut ConstraintSystem, b: &Boolean)
    requires
        old(cs).wf(),
        b.valid(old(cs)@),
    ensures
        final(cs).wf(),
        final(cs)@.extends(old(cs)@),
        final(cs)@ == assert_equal_cs(old(cs)@, extract_bool_model(*b), NumberModel::constant(1)),
        old(cs)@.proving ==> (final(cs)@.satisfied() <==> old(cs)@.satisfied() && b.value()
            == Some(true)),
{
    proof {
        if cs@.proving {
            lemma_bool_eval(cs@, *b);
        }
        NumberModel::lemma_constant_valid(1, cs@);
    }
    let n = extract_bool(b);
    let one = Number::one();
    n.assert_equal(cs, &one);
}

/// While proving, the term of a valid boolean is worth one or zero as the boolean says.
pub proof fn lemma_bool_eval(cs: CsModel, b: Boolean)
    requires
        cs.wf(),
        cs.proving,
        b.valid(cs),
    ensures
        b.value() is Some,
        cs.eval(extract_bool_model(b).lc) == bit_nat(b.value().unwrap()),
        cs.eval(NumberModel::constant(1).lc) == 1,
        extract_bool_model(b).valid(cs),
{
    let one = Variable::Input(0);
    cs.lemma_value(one);
    cs.lemma_eval_single(one, 1);
    lemma_small_mod(1, modulus());
    lemma_small_mod(0, modulus());
    match b {
        Boolean::Is(x) => {
            x.lemma_valid_value(cs);
        },
        Boolean::Not(x) => {
            x.lemma_valid_value(cs);
            cs.lemma_eval_minus(single(one, 1), single(x.variable, 1));
        },
        Boolean::Constant(c) => {
            assert(cs.eval(Seq::<Term>::empty()) == 0);
        },
    }
}

/// Asserts that `cond` holds where `enabled` does.
pub fn assert_true_if_enabled(cs: &mut ConstraintSystem, enabled: &Boolean, cond: &Boolean) -> (r:
    Result<(), SynthesisError>)
    requires
        old(cs).wf(),
        enabled.valid(old(cs)@),
        !(enabled is Not),
        cond.valid(old(cs)@),
    ensures
        final(cs).wf(),
        final(cs)@.extends(old(cs)@),
        r is Ok,
        final(cs)@ == assert_equal_if_enabled_cs(
            old(cs)@,
            *enabled,
            extract_bool_model(*cond),
            NumberModel::constant(1),
        ),
        old(cs)@.proving ==> (final(cs)@.satisfied() <==> old(cs)@.satisfied() && (enabled.value()
            == Some(true) ==> cond.value() == Some(true))),
{
    proof {
        if cs@.proving {
            lemma_bool_eval(cs@, *cond);
        }
    }
    let n = extract_bool(cond);
    let one = Number::one();
    assert_equal_if_enabled(cs, enabled, &n, &one)
}

/// The disjunction of two optional booleans.
pub open spec fn either(a: Option<bool>, b: Option<bool>) -> Option<bool> {
    match (a, b) {
        (Some(x), Some(y)) => Some(x || y),
        _ => None,
    }
}

/// The disjunction, as the negation of `NOT a AND NOT b`.
pub fn boolean_or(cs: &mut ConstraintSystem, a: &Boolean, b: &Boolean) -> (r: Result<
    Boolean,
    SynthesisError,
>)
    requires
        old(cs).wf(),
        a.valid(old(cs)@),
        b.valid(old(cs)@),
    ensures
        final(cs).wf(),
        final(cs)@.extends(old(cs)@),
        r is Ok,
        final(cs)@ == Boolean::and_cs(old(cs)@, a.negated(), b.negated()),
        r.unwrap() == Boolean::and_out(old(cs)@, a.negated(), b.negated()).negated(),
        a.value() is Some && b.value() is Some ==> r.unwrap().value() == either(
            a.value(),
            b.value(),
        ),
        r.unwrap().valid(final(cs)@),
        old(cs)@.proving && old(cs)@.satisfied() ==> final(cs)@.satisfied(),
{
    let na = a.not();
    let nb = b.not();
    match Boolean::and(cs, &na, &nb) {
        Ok(x) => Ok(x.not()),
        Err(e) => Err(e),
    }
}

} // verus!
