//! The MiMC hash as constraints: two constraints for every round.

use crate::common::number::sum;
use crate::common::wire::{product, AllocatedNum, Wire};
use crate::cs::{value_of, ConstraintSystem, CsModel, SynthesisError};
use crate::field::{
    field_add, field_mul, field_neg, field_sub, lemma_mul_neg, lemma_mul_unit,
    lemma_sub_is_add_neg, modulus, Fr,
};
use crate::lc::{lc_pair, lc_var, pair, single, Term, Variable};
use crate::mimc::{double_mimc_value, mimc_rounds, mimc_value, round_constant, round_value, Halves};
use vstd::arithmetic::div_mod::lemma_small_mod;
use vstd::prelude::*;

verus! {

/// A constraint system with the two halves of the state on it.
pub struct Feistel {
    pub cs: CsModel,
    pub xl: Wire,
    pub xr: Wire,
}

/// A system paired with two halves.
pub open spec fn feistel(cs: CsModel, xl: Wire, xr: Wire) -> Feistel {
    Feistel { cs, xl, xr }
}

/// The combination `xl + c`.
pub open spec fn shifted(xl: Variable, c: nat) -> Seq<Term> {
    pair(xl, 1, Variable::Input(0), c)
}

/// The system and the halves after a round with constant `c`: a fresh `tmp` with
/// `(xl + c) * (xl + c) = tmp` and a fresh `new_xl` with
/// `tmp * (xl + c) = new_xl - xr`.
pub open spec fn round_model(f: Feistel, c: nat) -> Feistel {
    let t = sum(f.xl.value, Some(c));
    let tmp = f.cs.next_aux();
    let c1 = f.cs.allocate(product(t, t)).enforce(
        shifted(f.xl.variable, c),
        shifted(f.xl.variable, c),
        single(tmp, 1),
    );
    let new_xl = c1.next_aux();
    let value = round_value(f.xl.value, f.xr.value, c);
    let c2 = c1.allocate(value).enforce(
        single(tmp, 1),
        shifted(f.xl.variable, c),
        pair(new_xl, 1, f.xr.variable, field_neg(1)),
    );
    Feistel { cs: c2, xl: Wire { variable: new_xl, value: c1.kept(value) }, xr: f.xl }
}

/// The system and the halves after the first `k` rounds.
pub open spec fn rounds_model(f: Feistel, k: nat) -> Feistel
    decreases k,
{
    if k == 0 {
        f
    } else {
        round_model(rounds_model(f, (k - 1) as nat), round_constant((k - 1) as nat))
    }
}

/// One round of the gadget.
#[verifier::rlimit(100)]
fn round(cs: &mut ConstraintSystem, c: Fr, xl: AllocatedNum, xr: AllocatedNum) -> (r: Result<
    AllocatedNum,
    SynthesisError,
>)
    requires
        old(cs).wf(),
        xl.valid(old(cs)@),
        xr.valid(old(cs)@),
    ensures
        final(cs).wf(),
        final(cs)@.extends(old(cs)@),
        r is Ok,
        feistel(final(cs)@, r.unwrap()@, xl@) == round_model(feistel(old(cs)@, xl@, xr@), c@),
        r.unwrap()@.value == round_value(xl@.value, xr@.value, c@),
        r.unwrap().valid(final(cs)@),
        old(cs)@.proving && old(cs)@.satisfied() ==> final(cs)@.satisfied(),
{
    let ghost start = cs@;
    proof {
        if start.proving {
            xl.lemma_valid_value(start);
            xr.lemma_valid_value(start);
        }
    }
    c.reduced();
    let shifted_value = match xl.value {
        Some(e) => Some(e.add(&c)),
        None => None,
    };
    let tmp_value = match shifted_value {
        Some(e) => Some(e.square()),
        None => None,
    };
    let tmp = match AllocatedNum::allocate(cs, tmp_value) {
        Ok(n) => n,
        Err(e) => {
            return Err(e);
        },
    };
    let one = Fr::one();
    let minus_one = one.neg();
    proof {
        let mid = cs@;
        xl.lemma_valid_extends(start, mid);
        mid.lemma_eval_pair(xl.variable, 1, Variable::Input(0), c@);
        mid.lemma_eval_single(tmp.variable, 1);
        if mid.proving {
            xl.lemma_valid_value(mid);
            tmp.lemma_valid_value(mid);
            mid.lemma_value(Variable::Input(0));
            lemma_mul_unit(mid.value(xl.variable));
            lemma_mul_unit(c@);
        }
    }
    cs.enforce(
        lc_pair(&one, xl.variable, &c, Variable::Input(0)),
        lc_pair(&one, xl.variable, &c, Variable::Input(0)),
        lc_var(tmp.variable),
    );
    let ghost c1 = cs@;
    let new_value = match (shifted_value, tmp_value, xr.value) {
        (Some(e), Some(t), Some(r)) => Some(t.mul(&e).add(&r)),
        _ => None,
    };
    let new_xl = match AllocatedNum::allocate(cs, new_value) {
        Ok(n) => n,
        Err(e) => {
            return Err(e);
        },
    };
    proof {
        let mid = cs@;
        xl.lemma_valid_extends(start, mid);
        xr.lemma_valid_extends(start, mid);
        tmp.lemma_valid_extends(c1, mid);
        mid.lemma_eval_pair(xl.variable, 1, Variable::Input(0), c@);
        mid.lemma_eval_pair(new_xl.variable, 1, xr.variable, field_neg(1));
        mid.lemma_eval_single(tmp.variable, 1);
        if mid.proving {
            xl.lemma_valid_value(mid);
            xr.lemma_valid_value(mid);
            tmp.lemma_valid_value(mid);
            new_xl.lemma_valid_value(mid);
            mid.lemma_value(Variable::Input(0));
            let vl = mid.value(xl.variable);
            let vr = mid.value(xr.variable);
            let t = field_add(vl, c@);
            let cube = field_mul(field_mul(t, t), t);
            lemma_mul_unit(vl);
            lemma_mul_unit(c@);
            lemma_mul_unit(mid.value(new_xl.variable));
            lemma_mul_neg(1, vr);
            lemma_mul_unit(vr);
            lemma_sub_is_add_neg(field_add(cube, vr), vr);
            lemma_add_sub_cancel(cube, vr);
        }
    }
    cs.enforce(
        lc_var(tmp.variable),
        lc_pair(&one, xl.variable, &c, Variable::Input(0)),
        lc_pair(&one, new_xl.variable, &minus_one, xr.variable),
    );
    proof {
        new_xl.lemma_valid_extends(c1.allocate(value_of(new_value)), cs@);
    }
    Ok(new_xl)
}

/// Adding a value and taking it away again changes nothing.
pub proof fn lemma_add_sub_cancel(a: nat, b: nat)
    requires
        a < modulus(),
    ensures
        field_sub(field_add(a, b), b) == a,
{
    let m = modulus() as int;
    vstd::arithmetic::div_mod::lemma_sub_mod_noop(((a + b) % modulus()) as int, b as int, m);
    vstd::arithmetic::div_mod::lemma_mod_twice((a + b) as int, m);
    vstd::arithmetic::div_mod::lemma_sub_mod_noop((a + b) as int, b as int, m);
    lemma_small_mod(a, modulus());
}

/// The hash of two variables: 322 rounds, each a fresh `tmp` and a fresh left half.
pub fn double_mimc(cs: &mut ConstraintSystem, xl: AllocatedNum, xr: AllocatedNum) -> (r: Result<
    AllocatedNum,
    SynthesisError,
>)
    requires
        old(cs).wf(),
        xl.valid(old(cs)@),
        xr.valid(old(cs)@),
    ensures
        final(cs).wf(),
        final(cs)@.extends(old(cs)@),
        r is Ok,
        final(cs)@ == rounds_model(feistel(old(cs)@, xl@, xr@), 322).cs,
        r.unwrap()@ == rounds_model(feistel(old(cs)@, xl@, xr@), 322).xl,
        r.unwrap()@.value == double_mimc_value(xl@.value, xr@.value),
        r.unwrap().valid(final(cs)@),
        old(cs)@.proving && old(cs)@.satisfied() ==> final(cs)@.satisfied(),
{
    let ghost start = cs@;
    let mut l = xl;
    let mut r = xr;
    let mut i: u64 = 0;
    while i < 322
        invariant
            0 <= i <= 322,
            start == old(cs)@,
            cs.wf(),
            cs@.extends(start),
            l.valid(cs@),
            r.valid(cs@),
            feistel(cs@, l@, r@) == rounds_model(feistel(start, xl@, xr@), i as nat),
            mimc_rounds(xl@.value, xr@.value, i as nat) == (Halves { xl: l@.value, xr: r@.value }),
            start.proving && start.satisfied() ==> cs@.satisfied(),
        decreases 322 - i,
    {
        let ghost before = cs@;
        let c = Fr::from_u64(i);
        let next = match round(cs, c, l, r) {
            Ok(n) => n,
            Err(e) => {
                return Err(e);
            },
        };
        proof {
            l.lemma_valid_extends(before, cs@);
        }
        r = l;
        l = next;
        i += 1;
    }
    Ok(l)
}

/// The values of variables.
pub open spec fn wire_values(data: Seq<AllocatedNum>) -> Seq<Option<nat>> {
    Seq::new(data.len(), |i: int| data[i]@.value)
}

/// The system and the running hash after the first `k` variables of at least two.
pub open spec fn mimc_model(cs: CsModel, data: Seq<AllocatedNum>, k: nat) -> Feistel
    decreases k,
{
    if k <= 2 {
        rounds_model(feistel(cs, data[0]@, data[1]@), 322)
    } else {
        let f = mimc_model(cs, data, (k - 1) as nat);
        rounds_model(feistel(f.cs, f.xl, data[k - 1]@), 322)
    }
}

/// The hash of at least two variables: the running hash of the first two, hashed on with
/// every further variable.
pub fn mimc(cs: &mut ConstraintSystem, data: &Vec<AllocatedNum>) -> (r: Result<
    AllocatedNum,
    SynthesisError,
>)
    requires
        old(cs).wf(),
        data@.len() >= 2,
        forall|i: int| 0 <= i < data@.len() ==> (#[trigger] data@[i]).valid(old(cs)@),
    ensures
        final(cs).wf(),
        final(cs)@.extends(old(cs)@),
        r is Ok,
        final(cs)@ == mimc_model(old(cs)@, data@, data@.len()).cs,
        r.unwrap()@ == mimc_model(old(cs)@, data@, data@.len()).xl,
        r.unwrap()@.value == mimc_value(wire_values(data@), data@.len()),
        r.unwrap().valid(final(cs)@),
        old(cs)@.proving && old(cs)@.satisfied() ==> final(cs)@.satisfied(),
{
    let ghost start = cs@;
    assert(data@[0].valid(start) && data@[1].valid(start));
    let mut accum = match double_mimc(cs, data[0], data[1]) {
        Ok(n) => n,
        Err(e) => {
            return Err(e);
        },
    };
    let mut k: usize = 2;
    while k < data.len()
        invariant
            2 <= k <= data@.len(),
            start == old(cs)@,
            forall|i: int| 0 <= i < data@.len() ==> (#[trigger] data@[i]).valid(start),
            cs.wf(),
            cs@.extends(start),
            accum.valid(cs@),
            cs@ == mimc_model(start, data@, k as nat).cs,
            accum@ == mimc_model(start, data@, k as nat).xl,
            accum@.value == mimc_value(wire_values(data@), k as nat),
            start.proving && start.satisfied() ==> cs@.satisfied(),
        decreases data@.len() - k,
    {
        let w = data[k];
        proof {
            assert(data@[k as int].valid(start));
            w.lemma_valid_extends(start, cs@);
        }
        accum = match double_mimc(cs, accum, w) {
            Ok(n) => n,
            Err(e) => {
                return Err(e);
            },
        };
        k += 1;
    }
    Ok(accum)
}

} // verus!
