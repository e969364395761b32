//! The multiplexer: one of two terms, chosen by a boolean.

use crate::common::number::{Number, NumberModel};
use crate::common::wire::{AllocatedBit, AllocatedNum, Boolean};
use crate::cs::{value_of, ConstraintSystem, CsModel, SynthesisError};
use crate::field::{lemma_mul_unit, lemma_neg_cancels, lemma_reduced};
use crate::lc::{lc_clone, lc_sub, lc_var, negated, single, Variable};
use vstd::prelude::*;

verus! {

/// The value a multiplexer picks: `b` where the bit is set, `a` where it is not.
pub open spec fn pick(s: Option<bool>, a: Option<nat>, b: Option<nat>) -> Option<nat> {
    match s {
        Some(true) => b,
        Some(false) => a,
        None => None,
    }
}

/// The system after a multiplexer over the bit `s`: a fresh `r` with
/// `(a - b) * s = a - r`.
pub open spec fn mux_bit_cs(cs: CsModel, s: AllocatedBit, a: NumberModel, b: NumberModel) -> CsModel {
    cs.allocate(pick(s.value, a.value, b.value)).enforce(
        a.lc + negated(b.lc),
        single(s.variable, 1),
        a.lc + negated(single(cs.next_aux(), 1)),
    )
}

/// The system after `mux`.
pub open spec fn mux_cs(cs: CsModel, select: Boolean, a: NumberModel, b: NumberModel) -> CsModel {
    match select {
        Boolean::Is(s) => mux_bit_cs(cs, s, a, b),
        Boolean::Not(s) => mux_bit_cs(cs, s, b, a),
        Boolean::Constant(_) => cs,
    }
}

/// `a` where `select` is false and `b` where it is true, as a fresh variable `r` with
/// `(a - b) * select = a - r`. `select` is a bit or the negation of one.
pub fn mux(cs: &mut ConstraintSystem, select: &Boolean, a: &Number, b: &Number) -> (r: Result<
    AllocatedNum,
    SynthesisError,
>)
    requires
        old(cs).wf(),
        select.valid(old(cs)@),
        !(select is Constant),
        a@.valid(old(cs)@),
        b@.valid(old(cs)@),
    ensures
        final(cs).wf(),
        final(cs)@.extends(old(cs)@),
        r is Err <==> old(cs)@.proving && pick(select.value(), a@.value, b@.value) is None,
        r is Err ==> *final(cs) == *old(cs),
        r is Ok ==> {
            &&& final(cs)@ == mux_cs(old(cs)@, *select, a@, b@)
            &&& r.unwrap().variable == old(cs)@.next_aux()
            &&& value_of(r.unwrap().value) == old(cs)@.kept(pick(select.value(), a@.value, b@.value))
            &&& r.unwrap().valid(final(cs)@)
            &&& old(cs)@.proving && old(cs)@.satisfied() ==> final(cs)@.satisfied()
        },
{
    match *select {
        Boolean::Is(s) => mux_bit(cs, &s, a, b),
        Boolean::Not(s) => mux_bit(cs, &s, b, a),
        Boolean::Constant(_) => Ok(AllocatedNum { variable: Variable::Input(0), value: None }),
    }
}

/// The multiplexer over a plain bit.
fn mux_bit(cs: &mut ConstraintSystem, s: &AllocatedBit, a: &Number, b: &Number) -> (r: Result<
    AllocatedNum,
    SynthesisError,
>)
    requires
        old(cs).wf(),
        s.valid(old(cs)@),
        a@.valid(old(cs)@),
        b@.valid(old(cs)@),
    ensures
        final(cs).wf(),
        final(cs)@.extends(old(cs)@),
        r is Err <==> old(cs)@.proving && pick(s.value, a@.value, b@.value) is None,
        r is Err ==> *final(cs) == *old(cs),
        r is Ok ==> {
            &&& final(cs)@ == mux_bit_cs(old(cs)@, *s, a@, b@)
            &&& r.unwrap().variable == old(cs)@.next_aux()
            &&& value_of(r.unwrap().value) == old(cs)@.kept(pick(s.value, a@.value, b@.value))
            &&& r.unwrap().valid(final(cs)@)
            &&& old(cs)@.proving && old(cs)@.satisfied() ==> final(cs)@.satisfied()
        },
{
    let ghost start = cs@;
    let value = match s.value {
        Some(true) => b.1,
        Some(false) => a.1,
        None => None,
    };
    let ret = match AllocatedNum::allocate(cs, value) {
        Ok(n) => n,
        Err(e) => {
            return Err(e);
        },
    };
    let left = lc_sub(lc_clone(&a.0), &b.0);
    let right = lc_sub(lc_clone(&a.0), &lc_var(ret.variable));
    proof {
        let mid = cs@;
        let rv = single(ret.variable, 1);
        a@.lemma_valid_extends(start, mid);
        b@.lemma_valid_extends(start, mid);
        s.lemma_valid_extends(start, mid);
        mid.lemma_eval_minus(a@.lc, b@.lc);
        mid.lemma_eval_single(ret.variable, 1);
        mid.lemma_eval_minus(a@.lc, rv);
        mid.lemma_eval_single(s.variable, 1);
        if mid.proving {
            let ea = mid.eval(a@.lc);
            let eb = mid.eval(b@.lc);
            s.lemma_valid_value(mid);
            ret.lemma_valid_value(mid);
            mid.lemma_eval_reduced(a@.lc);
            mid.lemma_eval_reduced(b@.lc);
            lemma_reduced(ea, eb);
            lemma_mul_unit(crate::field::field_sub(ea, eb));
            lemma_neg_cancels(ea);
        }
    }
    cs.enforce(left, lc_var(s.variable), right);
    Ok(ret)
}

} // verus!
