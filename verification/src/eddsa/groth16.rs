//! The curve and signature gadgets: point addition, scalar multiplication and EdDSA
//! verification as constraints.

use crate::common::mux::{mux, mux_cs, pick};
use crate::common::number::{Number, NumberModel};
use crate::common::strict::{strict_bit, strict_cs, to_bits_le_strict};
use crate::common::uint::bit_at;
use crate::common::wire::{both, product, AllocatedBit, AllocatedNum, Boolean, Wire};
use crate::common::{
    assert_equal_if_enabled, assert_equal_if_enabled_cs, is_zero, is_zero_cs, zero_test,
};
use crate::poseidon::{
    all_valid, models, poseidon, poseidon_model, some_missing, values, ParamsModel, PoseidonParams,
};
use crate::cs::{value_of, ConstraintSystem, CsModel, SynthesisError};
use crate::eddsa::challenge;
use crate::eddsa::curve::{
    addable, bits_be, cofactor_addable, cross, identity, on_curve, point_add, sum_x_denominator,
    sum_x_numerator, sum_y_denominator, sum_y_numerator, witness_add, witness_addable,
    witness_cofactor, witness_double, witness_ladder, witness_ladder_addable, witness_mul,
    witness_mul_const, CurveModel, CurveParams, PointAffine, PointModel,
};
use crate::field::{
    field_add, field_mul, field_neg, field_sub, lemma_mul_assoc, lemma_mul_comm, lemma_mul_neg, lemma_mul_unit, lemma_sub_is_add_neg, modulus, Fr,
};
use crate::lc::{lc_pair, lc_var, pair, single, Term, Variable};
use vstd::arithmetic::div_mod::lemma_small_mod;
use vstd::prelude::*;

verus! {

/// A point whose coordinates are private variables.
#[derive(Clone, Copy, Debug)]
pub struct AllocatedPoint {
    pub x: AllocatedNum,
    pub y: AllocatedNum,
}

/// The point that two optional coordinates give.
pub open spec fn point_of(x: Option<nat>, y: Option<nat>) -> Option<PointModel> {
    match (x, y) {
        (Some(a), Some(b)) => Some(PointModel { x: a, y: b }),
        _ => None,
    }
}

/// The abscissa of an optional point.
pub open spec fn x_of(p: Option<PointModel>) -> Option<nat> {
    match p {
        Some(q) => Some(q.x),
        None => None,
    }
}

/// The ordinate of an optional point.
pub open spec fn y_of(p: Option<PointModel>) -> Option<nat> {
    match p {
        Some(q) => Some(q.y),
        None => None,
    }
}

/// The witness of a sum of optional points.
pub open spec fn witness_sum(c: CurveModel, p: Option<PointModel>, q: Option<PointModel>) -> Option<
    PointModel,
> {
    match (p, q) {
        (Some(a), Some(b)) => Some(witness_add(c, a, b)),
        _ => None,
    }
}

/// The coordinates of an optional native point.
pub open spec fn point_value(p: Option<PointAffine>) -> Option<PointModel> {
    match p {
        Some(q) => Some(q@),
        None => None,
    }
}

/// The term of a variable.
pub open spec fn term_of(w: Wire) -> NumberModel {
    NumberModel::of_var(w.variable, w.value)
}

/// The two coordinates of a point, each a variable with its value.
pub struct PointWires {
    pub x: Wire,
    pub y: Wire,
}

impl PointWires {
    /// The witness value of the point.
    pub open spec fn value(self) -> Option<PointModel> {
        point_of(self.x.value, self.y.value)
    }
}

impl View for AllocatedPoint {
    type V = PointWires;

    open spec fn view(&self) -> PointWires {
        PointWires { x: self.x@, y: self.y@ }
    }
}

impl AllocatedPoint {
    /// Whether both coordinates are valid in `cs`.
    pub open spec fn valid(&self, cs: CsModel) -> bool {
        self.x.valid(cs) && self.y.valid(cs)
    }

    /// The witness value of the point.
    pub open spec fn value(&self) -> Option<PointModel> {
        point_of(value_of(self.x.value), value_of(self.y.value))
    }

    /// A point that was valid stays valid when the system grows.
    pub proof fn lemma_valid_extends(&self, base: CsModel, ext: CsModel)
        requires
            self.valid(base),
            ext.extends(base),
        ensures
            self.valid(ext),
    {
    }

    /// While proving, a valid point carries the values of its variables.
    pub proof fn lemma_valid_value(&self, cs: CsModel)
        requires
            cs.wf(),
            cs.proving,
            self.valid(cs),
        ensures
            self.value() is Some,
            self.value().unwrap().x == cs.value(self.x.variable),
            self.value().unwrap().y == cs.value(self.y.variable),
            self.value().unwrap().x < modulus(),
            self.value().unwrap().y < modulus(),
    {
        self.x.lemma_valid_value(cs);
        self.y.lemma_valid_value(cs);
    }

    /// The system after `allocate`.
    pub open spec fn allocate_cs(cs: CsModel, p: PointModel) -> CsModel {
        cs.allocate(Some(p.x)).allocate(Some(p.y))
    }

    /// Allocates the two coordinates of a point. The point is required, also where only
    /// the structure is laid down.
    pub fn allocate(cs: &mut ConstraintSystem, value: Option<PointAffine>) -> (r: Result<
        AllocatedPoint,
        SynthesisError,
    >)
        requires
            old(cs).wf(),
        ensures
            final(cs).wf(),
            final(cs)@.extends(old(cs)@),
            r is Err <==> value is None,
            r is Err ==> *final(cs) == *old(cs),
            r is Ok ==> {
                &&& final(cs)@ == Self::allocate_cs(old(cs)@, value.unwrap()@)
                &&& r.unwrap().x.variable == old(cs)@.next_aux()
                &&& r.unwrap().y.variable == Variable::Aux((old(cs)@.aux.len() + 1) as usize)
                &&& old(cs)@.proving ==> r.unwrap().value() == Some(value.unwrap()@)
                &&& r.unwrap().valid(final(cs)@)
                &&& old(cs)@.proving && old(cs)@.satisfied() ==> final(cs)@.satisfied()
            },
    {
        let pnt = match value {
            Some(p) => p,
            None => {
                return Err(SynthesisError::AssignmentMissing);
            },
        };
        let x = match AllocatedNum::allocate(cs, Some(pnt.0)) {
            Ok(n) => n,
            Err(e) => {
                return Err(e);
            },
        };
        let y = match AllocatedNum::allocate(cs, Some(pnt.1)) {
            Ok(n) => n,
            Err(e) => {
                return Err(e);
            },
        };
        Ok(AllocatedPoint { x, y })
    }
}

/// The combination `1 + coeff * var`.
pub open spec fn one_plus(var: Variable, coeff: nat) -> Seq<Term> {
    pair(Variable::Input(0), 1, var, coeff)
}

/// The system after the first half of a point addition: the two coordinates of the sum,
/// the shared product, and the constraint on the abscissa.
#[verifier::opaque]
pub open spec fn add_point_x_cs(cs: CsModel, c: CurveModel, a: PointWires, b: PointWires) -> CsModel {
    let s = witness_sum(c, a.value(), b.value());
    let ax = term_of(a.x);
    let ay = term_of(a.y);
    let bx = term_of(b.x);
    let by = term_of(b.y);
    let c2 = cs.allocate(x_of(s)).allocate(y_of(s));
    let c3 = Number::mul_cs(c2, ax, bx);
    let t1 = NumberModel::of_var(c2.next_aux(), product(ax.value, bx.value));
    let c4 = Number::mul_cs(c3, t1, ay);
    let t2 = NumberModel::of_var(c3.next_aux(), product(t1.value, ay.value));
    let c5 = Number::mul_cs(c4, t2, by);
    let c6 = Number::mul_cs(c5, ax, by);
    let c7 = Number::mul_cs(c6, ay, bx);
    c7.enforce(
        one_plus(c4.next_aux(), c.d),
        single(cs.next_aux(), 1),
        pair(c5.next_aux(), 1, c6.next_aux(), 1),
    )
}

/// The system after a point addition.
#[verifier::opaque]
pub open spec fn add_point_cs(cs: CsModel, c: CurveModel, a: PointWires, b: PointWires) -> CsModel {
    let ax = term_of(a.x);
    let ay = term_of(a.y);
    let bx = term_of(b.x);
    let by = term_of(b.y);
    let c8 = add_point_x_cs(cs, c, a, b);
    let c9 = Number::mul_cs(c8, ay, by);
    let c10 = Number::mul_cs(c9, ax, bx);
    c10.enforce(
        one_plus(Variable::Aux((cs.aux.len() + 4) as usize), field_neg(c.d)),
        single(Variable::Aux((cs.aux.len() + 1) as usize), 1),
        pair(c8.next_aux(), 1, c9.next_aux(), field_neg(c.a)),
    )
}

/// The point that a point addition returns.
pub open spec fn add_point_out(cs: CsModel, c: CurveModel, a: PointWires, b: PointWires) -> PointWires {
    let s = witness_sum(c, a.value(), b.value());
    PointWires {
        x: Wire { variable: cs.next_aux(), value: cs.kept(x_of(s)) },
        y: Wire { variable: Variable::Aux((cs.aux.len() + 1) as usize), value: cs.kept(y_of(s)) },
    }
}

/// What the first half of a point addition hands to the second.
pub struct HalfSum {
    pub sum_x: AllocatedNum,
    pub sum_y: AllocatedNum,
    pub common: AllocatedNum,
}

/// The witness of a sum, for the two operands as they are known.
fn sum_witness(curve: &CurveParams, a: &AllocatedPoint, b: &AllocatedPoint) -> (r: Option<
    PointAffine,
>)
    ensures
        point_value(r) == witness_sum(curve@, a.value(), b.value()),
        r is Some && !(a.value().unwrap().x == 0 && a.value().unwrap().y == 0) ==> {
            let p = a.value().unwrap();
            let q = b.value().unwrap();
            &&& sum_x_denominator(curve@, p, q) != 0 ==> field_mul(
                sum_x_denominator(curve@, p, q),
                r.unwrap()@.x,
            ) == sum_x_numerator(p, q)
            &&& sum_y_denominator(curve@, p, q) != 0 ==> field_mul(
                sum_y_denominator(curve@, p, q),
                r.unwrap()@.y,
            ) == sum_y_numerator(curve@, p, q)
        },
{
    match (a.x.value, a.y.value, b.x.value, b.y.value) {
        (Some(ax), Some(ay), Some(bx), Some(by)) => {
            if ax.is_zero() && ay.is_zero() {
                Some(PointAffine(Fr::zero(), Fr::zero()))
            } else {
                Some(PointAffine(ax, ay).add(&PointAffine(bx, by), curve))
            }
        },
        _ => None,
    }
}

/// The first half of a point addition: allocates the sum, lays down the shared product
/// and the constraint `(1 + d*common) * sum_x = x1*y2 + y1*x2`.
#[verifier::rlimit(100)]
fn add_point_x(cs: &mut ConstraintSystem, curve: &CurveParams, a: &AllocatedPoint, b: &AllocatedPoint) -> (r:
    Result<HalfSum, SynthesisError>)
    requires
        old(cs).wf(),
        a.valid(old(cs)@),
        b.valid(old(cs)@),
    ensures
        final(cs).wf(),
        final(cs)@.extends(old(cs)@),
        r is Ok,
        final(cs)@ == add_point_x_cs(old(cs)@, curve@, a@, b@),
        final(cs)@.aux.len() == old(cs)@.aux.len() + 7,
        r.unwrap().sum_x.variable == old(cs)@.next_aux(),
        r.unwrap().sum_y.variable == Variable::Aux((old(cs)@.aux.len() + 1) as usize),
        r.unwrap().common.variable == Variable::Aux((old(cs)@.aux.len() + 4) as usize),
        point_of(value_of(r.unwrap().sum_x.value), value_of(r.unwrap().sum_y.value)) == witness_sum(
            curve@,
            a.value(),
            b.value(),
        ),
        old(cs)@.proving ==> value_of(r.unwrap().common.value) == Some(
            cross(a.value().unwrap(), b.value().unwrap()),
        ),
        r.unwrap().sum_x.valid(final(cs)@),
        r.unwrap().sum_y.valid(final(cs)@),
        r.unwrap().common.valid(final(cs)@),
        old(cs)@.proving && old(cs)@.satisfied() && witness_addable(
            curve@,
            a.value().unwrap(),
            b.value().unwrap(),
        ) ==> final(cs)@.satisfied(),
        old(cs)@.proving ==> {
            let p = a.value().unwrap();
            let q = b.value().unwrap();
            let s = witness_add(curve@, p, q);
            witness_addable(curve@, p, q) ==> field_mul(sum_y_denominator(curve@, p, q), s.y)
                == sum_y_numerator(curve@, p, q)
        },
{
    reveal(add_point_x_cs);
    let ghost start = cs@;
    proof {
        if start.proving {
            a.lemma_valid_value(start);
            b.lemma_valid_value(start);
        }
    }
    let sum_value = sum_witness(curve, a, b);
    let (vx, vy) = match sum_value {
        Some(p) => (Some(p.0), Some(p.1)),
        None => (None, None),
    };
    let sum_x = match AllocatedNum::allocate(cs, vx) {
        Ok(n) => n,
        Err(e) => {
            return Err(e);
        },
    };
    let sum_y = match AllocatedNum::allocate(cs, vy) {
        Ok(n) => n,
        Err(e) => {
            return Err(e);
        },
    };
    let ghost c2 = cs@;
    proof {
        a.lemma_valid_extends(start, c2);
        b.lemma_valid_extends(start, c2);
    }
    let t1 = match a.x.mul(cs, &b.x) {
        Ok(n) => n,
        Err(e) => {
            return Err(e);
        },
    };
    let ghost c3 = cs@;
    proof {
        a.lemma_valid_extends(start, c3);
        b.lemma_valid_extends(start, c3);
    }
    let t2 = match t1.mul(cs, &a.y) {
        Ok(n) => n,
        Err(e) => {
            return Err(e);
        },
    };
    let ghost c4 = cs@;
    proof {
        a.lemma_valid_extends(start, c4);
        b.lemma_valid_extends(start, c4);
    }
    let common = match t2.mul(cs, &b.y) {
        Ok(n) => n,
        Err(e) => {
            return Err(e);
        },
    };
    let ghost c5 = cs@;
    proof {
        a.lemma_valid_extends(start, c5);
        b.lemma_valid_extends(start, c5);
    }
    let x_1 = match a.x.mul(cs, &b.y) {
        Ok(n) => n,
        Err(e) => {
            return Err(e);
        },
    };
    let ghost c6 = cs@;
    proof {
        a.lemma_valid_extends(start, c6);
        b.lemma_valid_extends(start, c6);
    }
    let x_2 = match a.y.mul(cs, &b.x) {
        Ok(n) => n,
        Err(e) => {
            return Err(e);
        },
    };
    let ghost c7 = cs@;
    let one = Fr::one();
    proof {
        sum_x.lemma_valid_extends(start.allocate(x_of(witness_sum(curve@, a.value(), b.value()))), c7);
        sum_y.lemma_valid_extends(c2, c7);
        common.lemma_valid_extends(c5, c7);
        x_1.lemma_valid_extends(c6, c7);
        c7.lemma_eval_pair(Variable::Input(0), 1, common.variable, curve.d@);
        c7.lemma_eval_pair(x_1.variable, 1, x_2.variable, 1);
        c7.lemma_eval_single(sum_x.variable, 1);
        if c7.proving {
            let p = a.value().unwrap();
            let q = b.value().unwrap();
            c7.lemma_value(Variable::Input(0));
            sum_x.lemma_valid_value(c7);
            common.lemma_valid_value(c7);
            x_1.lemma_valid_value(c7);
            x_2.lemma_valid_value(c7);
            lemma_mul_unit(1);
            lemma_mul_unit(c7.value(x_1.variable));
            lemma_mul_unit(c7.value(x_2.variable));
            lemma_small_mod(1, modulus());
            lemma_small_mod(0, modulus());
            if p.x == 0 && p.y == 0 {
                lemma_zero_products(q.x, q.y, curve@.a);
            }
        }
    }
    cs.enforce(
        lc_pair(&one, Variable::Input(0), &curve.d, common.variable),
        lc_var(sum_x.variable),
        lc_pair(&one, x_1.variable, &one, x_2.variable),
    );
    Ok(HalfSum { sum_x, sum_y, common })
}

/// Products and sums with a zero operand.
pub proof fn lemma_zero_products(x: nat, y: nat, a: nat)
    ensures
        field_mul(0, x) == 0,
        field_mul(0, y) == 0,
        field_add(field_mul(0, y), field_mul(0, x)) == 0,
        field_sub(field_mul(0, y), field_mul(a, field_mul(0, x))) == 0,
        forall|z: nat| #[trigger] field_mul(z, 0) == 0,
{
    lemma_small_mod(0, modulus());
    assert(0 * x == 0 && 0 * y == 0) by (nonlinear_arith);
    assert(a * 0 == 0) by (nonlinear_arith);
    assert forall|z: nat| #[trigger] field_mul(z, 0) == 0 by {
        assert(z * 0 == 0) by (nonlinear_arith);
    }
}

/// The sum of two points, as a fresh point `(sum_x, sum_y)` with
/// `(1 + d*c) * sum_x = x1*y2 + y1*x2` and `(1 - d*c) * sum_y = y1*y2 - a*x1*x2`, where
/// `c = x1*x2*y1*y2`: division is enforced by multiplication.
#[verifier::rlimit(100)]
pub fn add_point(cs: &mut ConstraintSystem, curve: &CurveParams, a: &AllocatedPoint, b: &AllocatedPoint) -> (r:
    Result<AllocatedPoint, SynthesisError>)
    requires
        old(cs).wf(),
        a.valid(old(cs)@),
        b.valid(old(cs)@),
    ensures
        final(cs).wf(),
        final(cs)@.extends(old(cs)@),
        r is Ok,
        final(cs)@ == add_point_cs(old(cs)@, curve@, a@, b@),
        final(cs)@.aux.len() == old(cs)@.aux.len() + 9,
        r.unwrap()@ == add_point_out(old(cs)@, curve@, a@, b@),
        r.unwrap().value() == witness_sum(curve@, a.value(), b.value()),
        r.unwrap().valid(final(cs)@),
        old(cs)@.proving && old(cs)@.satisfied() && witness_addable(
            curve@,
            a.value().unwrap(),
            b.value().unwrap(),
        ) ==> final(cs)@.satisfied(),
{
    reveal(add_point_cs);
    let ghost start = cs@;
    let half = match add_point_x(cs, curve, a, b) {
        Ok(h) => h,
        Err(e) => {
            return Err(e);
        },
    };
    let ghost c8 = cs@;
    proof {
        a.lemma_valid_extends(start, c8);
        b.lemma_valid_extends(start, c8);
    }
    let y_1 = match a.y.mul(cs, &b.y) {
        Ok(n) => n,
        Err(e) => {
            return Err(e);
        },
    };
    let ghost c9 = cs@;
    proof {
        a.lemma_valid_extends(start, c9);
        b.lemma_valid_extends(start, c9);
    }
    let y_2 = match a.x.mul(cs, &b.x) {
        Ok(n) => n,
        Err(e) => {
            return Err(e);
        },
    };
    let ghost c10 = cs@;
    let one = Fr::one();
    let neg_d = curve.d.neg();
    let neg_a = curve.a.neg();
    proof {
        half.sum_x.lemma_valid_extends(c8, c10);
        half.sum_y.lemma_valid_extends(c8, c10);
        half.common.lemma_valid_extends(c8, c10);
        y_1.lemma_valid_extends(c9, c10);
        c10.lemma_eval_pair(Variable::Input(0), 1, half.common.variable, neg_d@);
        c10.lemma_eval_pair(y_1.variable, 1, y_2.variable, neg_a@);
        c10.lemma_eval_single(half.sum_y.variable, 1);
        if c10.proving {
            let p = a.value().unwrap();
            let q = b.value().unwrap();
            a.lemma_valid_value(start);
            b.lemma_valid_value(start);
            c10.lemma_value(Variable::Input(0));
            half.sum_y.lemma_valid_value(c10);
            half.common.lemma_valid_value(c10);
            y_1.lemma_valid_value(c10);
            y_2.lemma_valid_value(c10);
            lemma_mul_unit(1);
            lemma_mul_unit(c10.value(y_1.variable));
            lemma_small_mod(1, modulus());
            lemma_mul_neg(curve.d@, cross(p, q));
            lemma_sub_is_add_neg(1, field_mul(curve.d@, cross(p, q)));
            lemma_mul_neg(curve.a@, field_mul(p.x, q.x));
            lemma_sub_is_add_neg(field_mul(p.y, q.y), field_mul(curve.a@, field_mul(p.x, q.x)));
        }
    }
    cs.enforce(
        lc_pair(&one, Variable::Input(0), &neg_d, half.common.variable),
        lc_var(half.sum_y.variable),
        lc_pair(&one, y_1.variable, &neg_a, y_2.variable),
    );
    Ok(AllocatedPoint { x: half.sum_x, y: half.sum_y })
}

/// The witness of the sum of an optional point and a constant point.
pub open spec fn const_sum(c: CurveModel, p: Option<PointModel>, b: PointModel) -> Option<PointModel> {
    match p {
        Some(a) => Some(point_add(c, a, b)),
        None => None,
    }
}

/// The system after the addition of a constant point.
#[verifier::opaque]
pub open spec fn add_const_point_cs(cs: CsModel, c: CurveModel, a: PointWires, b: PointModel) -> CsModel {
    let s = const_sum(c, a.value(), b);
    let k = field_mul(field_mul(c.d, b.x), b.y);
    let c2 = cs.allocate(x_of(s)).allocate(y_of(s));
    let c3 = Number::mul_cs(c2, term_of(a.x), term_of(a.y));
    let common = c2.next_aux();
    c3.enforce(
        one_plus(common, k),
        single(cs.next_aux(), 1),
        pair(a.x.variable, b.y, a.y.variable, b.x),
    ).enforce(
        one_plus(common, field_neg(k)),
        single(Variable::Aux((cs.aux.len() + 1) as usize), 1),
        pair(a.y.variable, b.y, a.x.variable, field_neg(field_mul(c.a, b.x))),
    )
}

/// The point that the addition of a constant point returns.
pub open spec fn add_const_point_out(cs: CsModel, c: CurveModel, a: PointWires, b: PointModel) -> PointWires {
    let s = const_sum(c, a.value(), b);
    PointWires {
        x: Wire { variable: cs.next_aux(), value: cs.kept(x_of(s)) },
        y: Wire { variable: Variable::Aux((cs.aux.len() + 1) as usize), value: cs.kept(y_of(s)) },
    }
}

/// With a constant second operand, the denominators and numerators of the addition law
/// as the circuit groups their factors.
pub proof fn lemma_const_grouping(c: CurveModel, p: PointModel, b: PointModel)
    ensures
        field_mul(field_mul(field_mul(c.d, b.x), b.y), field_mul(p.x, p.y)) == field_mul(
            c.d,
            cross(p, b),
        ),
        field_add(field_mul(b.y, p.x), field_mul(b.x, p.y)) == sum_x_numerator(p, b),
        field_sub(field_mul(b.y, p.y), field_mul(field_mul(c.a, b.x), p.x)) == sum_y_numerator(
            c,
            p,
            b,
        ),
{
    // d*bx*by*(ax*ay) == d*((ax*ay)*(bx*by))
    lemma_mul_assoc(c.d, b.x, b.y);
    lemma_mul_assoc(c.d, field_mul(b.x, b.y), field_mul(p.x, p.y));
    lemma_mul_comm(field_mul(b.x, b.y), field_mul(p.x, p.y));
    // ((ax*bx)*ay)*by == (ax*ay)*(bx*by)
    lemma_mul_assoc(p.x, b.x, p.y);
    lemma_mul_comm(b.x, p.y);
    lemma_mul_assoc(p.x, p.y, b.x);
    lemma_mul_assoc(field_mul(p.x, p.y), b.x, b.y);
    // numerators
    lemma_mul_comm(b.y, p.x);
    lemma_mul_comm(b.x, p.y);
    lemma_mul_comm(b.y, p.y);
    lemma_mul_assoc(c.a, b.x, p.x);
    lemma_mul_comm(b.x, p.x);
}

/// The sum of a point and a constant point, with the constant's coordinates folded into
/// the coefficients: one product and two constraints.
#[verifier::rlimit(100)]
pub fn add_const_point(cs: &mut ConstraintSystem, curve: &CurveParams, a: &AllocatedPoint, b: &PointAffine) -> (r:
    Result<AllocatedPoint, SynthesisError>)
    requires
        old(cs).wf(),
        a.valid(old(cs)@),
    ensures
        final(cs).wf(),
        final(cs)@.extends(old(cs)@),
        r is Ok,
        final(cs)@ == add_const_point_cs(old(cs)@, curve@, a@, b@),
        final(cs)@.aux.len() == old(cs)@.aux.len() + 3,
        r.unwrap()@ == add_const_point_out(old(cs)@, curve@, a@, b@),
        r.unwrap().value() == const_sum(curve@, a.value(), b@),
        r.unwrap().valid(final(cs)@),
        old(cs)@.proving && old(cs)@.satisfied() && addable(curve@, a.value().unwrap(), b@)
            ==> final(cs)@.satisfied(),
{
    reveal(add_const_point_cs);
    let ghost start = cs@;
    proof {
        if start.proving {
            a.lemma_valid_value(start);
        }
    }
    let sum_value = match (a.x.value, a.y.value) {
        (Some(ax), Some(ay)) => Some(PointAffine(ax, ay).add(b, curve)),
        _ => None,
    };
    let (vx, vy) = match sum_value {
        Some(p) => (Some(p.0), Some(p.1)),
        None => (None, None),
    };
    let sum_x = match AllocatedNum::allocate(cs, vx) {
        Ok(n) => n,
        Err(e) => {
            return Err(e);
        },
    };
    let sum_y = match AllocatedNum::allocate(cs, vy) {
        Ok(n) => n,
        Err(e) => {
            return Err(e);
        },
    };
    let ghost c2 = cs@;
    proof {
        a.lemma_valid_extends(start, c2);
    }
    let bx = b.0;
    let by = b.1;
    let k = curve.d.mul(&bx).mul(&by);
    let common = match a.x.mul(cs, &a.y) {
        Ok(n) => n,
        Err(e) => {
            return Err(e);
        },
    };
    let ghost c3 = cs@;
    let one = Fr::one();
    let neg_k = k.neg();
    let neg_abx = curve.a.mul(&bx).neg();
    proof {
        a.lemma_valid_extends(start, c3);
        sum_x.lemma_valid_extends(start.allocate(x_of(const_sum(curve@, a.value(), b@))), c3);
        sum_y.lemma_valid_extends(c2, c3);
        c3.lemma_eval_pair(Variable::Input(0), 1, common.variable, k@);
        c3.lemma_eval_pair(Variable::Input(0), 1, common.variable, neg_k@);
        c3.lemma_eval_pair(a.x.variable, by@, a.y.variable, bx@);
        c3.lemma_eval_pair(a.y.variable, by@, a.x.variable, neg_abx@);
        c3.lemma_eval_single(sum_x.variable, 1);
        c3.lemma_eval_single(sum_y.variable, 1);
        if c3.proving {
            let p = a.value().unwrap();
            a.lemma_valid_value(c3);
            c3.lemma_value(Variable::Input(0));
            sum_x.lemma_valid_value(c3);
            sum_y.lemma_valid_value(c3);
            common.lemma_valid_value(c3);
            lemma_mul_unit(1);
            lemma_small_mod(1, modulus());
            lemma_const_grouping(curve@, p, b@);
            lemma_mul_neg(k@, field_mul(p.x, p.y));
            lemma_sub_is_add_neg(1, field_mul(k@, field_mul(p.x, p.y)));
            lemma_mul_neg(field_mul(curve.a@, bx@), p.x);
            lemma_sub_is_add_neg(field_mul(by@, p.y), field_mul(field_mul(curve.a@, bx@), p.x));
        }
    }
    cs.enforce(
        lc_pair(&one, Variable::Input(0), &k, common.variable),
        lc_var(sum_x.variable),
        lc_pair(&by, a.x.variable, &bx, a.y.variable),
    );
    cs.enforce(
        lc_pair(&one, Variable::Input(0), &neg_k, common.variable),
        lc_var(sum_y.variable),
        lc_pair(&by, a.y.variable, &neg_abx, a.x.variable),
    );
    proof {
        sum_x.lemma_valid_extends(c3, cs@);
        sum_y.lemma_valid_extends(c3, cs@);
    }
    Ok(AllocatedPoint { x: sum_x, y: sum_y })
}

/// The witness of a doubling of an optional point.
pub open spec fn double_value(c: CurveModel, p: Option<PointModel>) -> Option<PointModel> {
    witness_sum(c, p, p)
}

/// The system after `mul_cofactor`.
#[verifier::opaque]
pub open spec fn mul_cofactor_cs(cs: CsModel, c: CurveModel, p: PointWires) -> CsModel {
    let c1 = add_point_cs(cs, c, p, p);
    let twice = add_point_out(cs, c, p, p);
    let c2 = add_point_cs(c1, c, twice, twice);
    let fourfold = add_point_out(c1, c, twice, twice);
    add_point_cs(c2, c, fourfold, fourfold)
}

/// The point that `mul_cofactor` returns.
#[verifier::opaque]
pub open spec fn mul_cofactor_out(cs: CsModel, c: CurveModel, p: PointWires) -> PointWires {
    let c1 = add_point_cs(cs, c, p, p);
    let twice = add_point_out(cs, c, p, p);
    let c2 = add_point_cs(c1, c, twice, twice);
    let fourfold = add_point_out(c1, c, twice, twice);
    add_point_out(c2, c, fourfold, fourfold)
}

/// The point times the cofactor 8: three doublings.
pub fn mul_cofactor(cs: &mut ConstraintSystem, curve: &CurveParams, point: &AllocatedPoint) -> (r:
    Result<AllocatedPoint, SynthesisError>)
    requires
        old(cs).wf(),
        point.valid(old(cs)@),
    ensures
        final(cs).wf(),
        final(cs)@.extends(old(cs)@),
        r is Ok,
        final(cs)@ == mul_cofactor_cs(old(cs)@, curve@, point@),
        r.unwrap()@ == mul_cofactor_out(old(cs)@, curve@, point@),
        r.unwrap().value() == double_value(
            curve@,
            double_value(curve@, double_value(curve@, point.value())),
        ),
        old(cs)@.proving ==> r.unwrap().value() == Some(
            witness_cofactor(curve@, point.value().unwrap()),
        ),
        r.unwrap().valid(final(cs)@),
        old(cs)@.proving && old(cs)@.satisfied() && cofactor_addable(
            curve@,
            point.value().unwrap(),
        ) ==> final(cs)@.satisfied(),
{
    reveal(mul_cofactor_cs);
    reveal(mul_cofactor_out);
    proof {
        if cs@.proving {
            point.lemma_valid_value(cs@);
        }
    }
    let twice = match add_point(cs, curve, point, point) {
        Ok(p) => p,
        Err(e) => {
            return Err(e);
        },
    };
    let fourfold = match add_point(cs, curve, &twice, &twice) {
        Ok(p) => p,
        Err(e) => {
            return Err(e);
        },
    };
    add_point(cs, curve, &fourfold, &fourfold)
}

/// A constraint system and the running point of a double-and-add on it.
pub struct Walk {
    pub cs: CsModel,
    pub acc: PointWires,
}

/// A system paired with a running point.
pub open spec fn walk(cs: CsModel, acc: PointWires) -> Walk {
    Walk { cs, acc }
}

/// The variable that a multiplexer returns.
pub open spec fn mux_wire(cs: CsModel, select: Boolean, a: NumberModel, b: NumberModel) -> Wire {
    Wire { variable: cs.next_aux(), value: cs.kept(pick(select.value(), a.value, b.value)) }
}

/// The start of a double-and-add: the top bit picks the neutral element `(0, 1)` or the
/// base, by one multiplexer for each coordinate.
pub open spec fn ladder_start(cs: CsModel, bit: Boolean, base_x: NumberModel, base_y: NumberModel) -> Walk {
    let c1 = mux_cs(cs, bit, NumberModel::zero(), base_x);
    let x = mux_wire(cs, bit, NumberModel::zero(), base_x);
    let c2 = mux_cs(c1, bit, NumberModel::constant(1), base_y);
    let y = mux_wire(c1, bit, NumberModel::constant(1), base_y);
    Walk { cs: c2, acc: PointWires { x, y } }
}

/// One step of a double-and-add with a variable base: the running point doubled, that
/// plus the base, and the bit's pick between the two.
pub open spec fn ladder_step(w: Walk, c: CurveModel, bit: Boolean, base: PointWires) -> Walk {
    let c1 = add_point_cs(w.cs, c, w.acc, w.acc);
    let d = add_point_out(w.cs, c, w.acc, w.acc);
    let c2 = add_point_cs(c1, c, d, base);
    let e = add_point_out(c1, c, d, base);
    let c3 = mux_cs(c2, bit, term_of(d.x), term_of(e.x));
    let x = mux_wire(c2, bit, term_of(d.x), term_of(e.x));
    let c4 = mux_cs(c3, bit, term_of(d.y), term_of(e.y));
    let y = mux_wire(c3, bit, term_of(d.y), term_of(e.y));
    Walk { cs: c4, acc: PointWires { x, y } }
}

/// One step of a double-and-add with a constant base.
pub open spec fn ladder_step_const(w: Walk, c: CurveModel, bit: Boolean, base: PointModel) -> Walk {
    let c1 = add_point_cs(w.cs, c, w.acc, w.acc);
    let d = add_point_out(w.cs, c, w.acc, w.acc);
    let c2 = add_const_point_cs(c1, c, d, base);
    let e = add_const_point_out(c1, c, d, base);
    let c3 = mux_cs(c2, bit, term_of(d.x), term_of(e.x));
    let x = mux_wire(c2, bit, term_of(d.x), term_of(e.x));
    let c4 = mux_cs(c3, bit, term_of(d.y), term_of(e.y));
    let y = mux_wire(c3, bit, term_of(d.y), term_of(e.y));
    Walk { cs: c4, acc: PointWires { x, y } }
}

/// The walk after the first `k` bits, most significant first, with a variable base.
pub open spec fn ladder_model(cs: CsModel, c: CurveModel, bits: Seq<Boolean>, base: PointWires, k: nat) -> Walk
    decreases k,
{
    if k <= 1 {
        ladder_start(cs, bits[0], term_of(base.x), term_of(base.y))
    } else {
        ladder_step(ladder_model(cs, c, bits, base, (k - 1) as nat), c, bits[k - 1], base)
    }
}

/// The walk after the first `k` bits, most significant first, with a constant base.
pub open spec fn ladder_model_const(cs: CsModel, c: CurveModel, bits: Seq<Boolean>, base: PointModel, k: nat) -> Walk
    decreases k,
{
    if k <= 1 {
        ladder_start(cs, bits[0], NumberModel::constant(base.x), NumberModel::constant(base.y))
    } else {
        ladder_step_const(ladder_model_const(cs, c, bits, base, (k - 1) as nat), c, bits[k - 1], base)
    }
}

/// The strict bits of a value, most significant first.
pub open spec fn strict_bits_be(cs: CsModel, value: Option<nat>) -> Seq<Boolean> {
    Seq::new(255, |j: int| Boolean::Is(strict_bit(cs, value, (254 - j) as nat)))
}

/// The walk of `mul_point`.
#[verifier::opaque]
pub open spec fn mul_point_model(cs: CsModel, c: CurveModel, base: PointWires, b: Wire) -> Walk {
    ladder_model(strict_cs(cs, b.variable, b.value), c, strict_bits_be(cs, b.value), base, 255)
}

/// The walk of `mul_const_point`.
#[verifier::opaque]
pub open spec fn mul_const_point_model(cs: CsModel, c: CurveModel, base: PointModel, b: Wire) -> Walk {
    ladder_model_const(strict_cs(cs, b.variable, b.value), c, strict_bits_be(cs, b.value), base, 255)
}

/// The start of a double-and-add.
fn ladder_first(cs: &mut ConstraintSystem, bit: &Boolean, base_x: &Number, base_y: &Number) -> (r: Result<
    AllocatedPoint,
    SynthesisError,
>)
    requires
        old(cs).wf(),
        bit.valid(old(cs)@),
        bit is Is,
        base_x@.valid(old(cs)@),
        base_y@.valid(old(cs)@),
        old(cs)@.proving ==> base_x@.value is Some && base_y@.value is Some,
    ensures
        final(cs).wf(),
        final(cs)@.extends(old(cs)@),
        r is Ok,
        walk(final(cs)@, r.unwrap()@) == ladder_start(old(cs)@, *bit, base_x@, base_y@),
        r.unwrap().valid(final(cs)@),
        old(cs)@.proving ==> r.unwrap().value() == Some(
            if bit.value().unwrap() {
                PointModel { x: base_x@.value.unwrap(), y: base_y@.value.unwrap() }
            } else {
                identity()
            },
        ),
        old(cs)@.proving && old(cs)@.satisfied() ==> final(cs)@.satisfied(),
{
    let ghost start = cs@;
    proof {
        if let Boolean::Is(b) = *bit {
            if start.proving {
                b.lemma_valid_value(start);
            }
        }
    }
    let zero = Number::zero();
    let one = Number::constant(Fr::one());
    let x = match mux(cs, bit, &zero, base_x) {
        Ok(n) => n,
        Err(e) => {
            return Err(e);
        },
    };
    proof {
        bit.lemma_valid_extends(start, cs@);
        base_y@.lemma_valid_extends(start, cs@);
    }
    let ghost c1 = cs@;
    let y = match mux(cs, bit, &one, base_y) {
        Ok(n) => n,
        Err(e) => {
            return Err(e);
        },
    };
    proof {
        x.lemma_valid_extends(c1, cs@);
    }
    Ok(AllocatedPoint { x, y })
}

/// The pick of a multiplexer between the coordinates of two points.
fn ladder_pick(cs: &mut ConstraintSystem, bit: &Boolean, d: &AllocatedPoint, e: &AllocatedPoint) -> (r:
    Result<AllocatedPoint, SynthesisError>)
    requires
        old(cs).wf(),
        bit.valid(old(cs)@),
        bit is Is,
        d.valid(old(cs)@),
        e.valid(old(cs)@),
    ensures
        final(cs).wf(),
        final(cs)@.extends(old(cs)@),
        r is Ok,
        final(cs)@ == mux_cs(
            mux_cs(old(cs)@, *bit, term_of(d@.x), term_of(e@.x)),
            *bit,
            term_of(d@.y),
            term_of(e@.y),
        ),
        r.unwrap()@.x == mux_wire(old(cs)@, *bit, term_of(d@.x), term_of(e@.x)),
        r.unwrap()@.y == mux_wire(
            mux_cs(old(cs)@, *bit, term_of(d@.x), term_of(e@.x)),
            *bit,
            term_of(d@.y),
            term_of(e@.y),
        ),
        r.unwrap().valid(final(cs)@),
        old(cs)@.proving ==> r.unwrap().value() == (if bit.value().unwrap() {
            e.value()
        } else {
            d.value()
        }),
        old(cs)@.proving && old(cs)@.satisfied() ==> final(cs)@.satisfied(),
{
    let ghost start = cs@;
    proof {
        if let Boolean::Is(b) = *bit {
            if start.proving {
                b.lemma_valid_value(start);
                d.lemma_valid_value(start);
                e.lemma_valid_value(start);
            }
        }
    }
    let dx = Number::from_num(d.x);
    let ex = Number::from_num(e.x);
    let dy = Number::from_num(d.y);
    let ey = Number::from_num(e.y);
    let x = match mux(cs, bit, &dx, &ex) {
        Ok(n) => n,
        Err(e) => {
            return Err(e);
        },
    };
    let ghost c1 = cs@;
    proof {
        bit.lemma_valid_extends(start, c1);
        d.lemma_valid_extends(start, c1);
        e.lemma_valid_extends(start, c1);
    }
    let y = match mux(cs, bit, &dy, &ey) {
        Ok(n) => n,
        Err(e) => {
            return Err(e);
        },
    };
    proof {
        x.lemma_valid_extends(c1, cs@);
    }
    Ok(AllocatedPoint { x, y })
}

/// One step of a double-and-add with a variable base.
#[verifier::rlimit(100)]
fn ladder_advance(
    cs: &mut ConstraintSystem,
    curve: &CurveParams,
    bit: &Boolean,
    base: &AllocatedPoint,
    acc: &AllocatedPoint,
) -> (r: Result<AllocatedPoint, SynthesisError>)
    requires
        old(cs).wf(),
        bit.valid(old(cs)@),
        bit is Is,
        base.valid(old(cs)@),
        acc.valid(old(cs)@),
    ensures
        final(cs).wf(),
        final(cs)@.extends(old(cs)@),
        r is Ok,
        walk(final(cs)@, r.unwrap()@) == ladder_step(walk(old(cs)@, acc@), curve@, *bit, base@),
        r.unwrap().valid(final(cs)@),
        old(cs)@.proving ==> {
            let p = acc.value().unwrap();
            let d = witness_double(curve@, p);
            &&& r.unwrap().value() == Some(
                if bit.value().unwrap() {
                    witness_add(curve@, d, base.value().unwrap())
                } else {
                    d
                },
            )
            &&& old(cs)@.satisfied() && witness_addable(curve@, p, p) && witness_addable(
                curve@,
                d,
                base.value().unwrap(),
            ) ==> final(cs)@.satisfied()
        },
{
    let ghost before = cs@;
    proof {
        if before.proving {
            acc.lemma_valid_value(before);
            base.lemma_valid_value(before);
        }
    }
    let doubled = match add_point(cs, curve, acc, acc) {
        Ok(p) => p,
        Err(e) => {
            return Err(e);
        },
    };
    let ghost c1 = cs@;
    proof {
        base.lemma_valid_extends(before, c1);
        if before.proving {
            doubled.lemma_valid_value(c1);
        }
    }
    let plus = match add_point(cs, curve, &doubled, base) {
        Ok(p) => p,
        Err(e) => {
            return Err(e);
        },
    };
    let ghost c2 = cs@;
    proof {
        bit.lemma_valid_extends(before, c2);
        doubled.lemma_valid_extends(c1, c2);
    }
    ladder_pick(cs, bit, &doubled, &plus)
}

/// One step of a double-and-add with a constant base.
#[verifier::rlimit(100)]
fn ladder_advance_const(
    cs: &mut ConstraintSystem,
    curve: &CurveParams,
    bit: &Boolean,
    base: &PointAffine,
    acc: &AllocatedPoint,
) -> (r: Result<AllocatedPoint, SynthesisError>)
    requires
        old(cs).wf(),
        bit.valid(old(cs)@),
        bit is Is,
        acc.valid(old(cs)@),
    ensures
        final(cs).wf(),
        final(cs)@.extends(old(cs)@),
        r is Ok,
        walk(final(cs)@, r.unwrap()@) == ladder_step_const(walk(old(cs)@, acc@), curve@, *bit, base@),
        r.unwrap().valid(final(cs)@),
        old(cs)@.proving ==> {
            let p = acc.value().unwrap();
            let d = witness_double(curve@, p);
            &&& r.unwrap().value() == Some(
                if bit.value().unwrap() {
                    point_add(curve@, d, base@)
                } else {
                    d
                },
            )
            &&& old(cs)@.satisfied() && witness_addable(curve@, p, p) && addable(curve@, d, base@)
                ==> final(cs)@.satisfied()
        },
{
    let ghost before = cs@;
    proof {
        if before.proving {
            acc.lemma_valid_value(before);
        }
    }
    let doubled = match add_point(cs, curve, acc, acc) {
        Ok(p) => p,
        Err(e) => {
            return Err(e);
        },
    };
    let ghost c1 = cs@;
    proof {
        if before.proving {
            doubled.lemma_valid_value(c1);
        }
    }
    let plus = match add_const_point(cs, curve, &doubled, base) {
        Ok(p) => p,
        Err(e) => {
            return Err(e);
        },
    };
    let ghost c2 = cs@;
    proof {
        bit.lemma_valid_extends(before, c2);
        doubled.lemma_valid_extends(c1, c2);
    }
    ladder_pick(cs, bit, &doubled, &plus)
}

/// The multiple `b * base` of a variable point: double-and-add over the strict bits of
/// `b`, most significant first. The running point starts from the top bit's pick of the
/// neutral element or the base, so that no addition with the neutral element is needed.
#[verifier::rlimit(100)]
pub fn mul_point(cs: &mut ConstraintSystem, curve: &CurveParams, base: &AllocatedPoint, b: &AllocatedNum) -> (r:
    Result<AllocatedPoint, SynthesisError>)
    requires
        old(cs).wf(),
        base.valid(old(cs)@),
        b.valid(old(cs)@),
    ensures
        final(cs).wf(),
        final(cs)@.extends(old(cs)@),
        r is Ok,
        walk(final(cs)@, r.unwrap()@) == mul_point_model(old(cs)@, curve@, base@, b@),
        r.unwrap().valid(final(cs)@),
        old(cs)@.proving ==> r.unwrap().value() == Some(
            witness_mul(curve@, base.value().unwrap(), b@.value.unwrap()),
        ),
        old(cs)@.proving && old(cs)@.satisfied() && witness_ladder_addable(
            curve@,
            base.value().unwrap(),
            bits_be(b@.value.unwrap()),
            255,
            false,
        ) ==> final(cs)@.satisfied(),
{
    reveal(mul_point_model);
    let ghost start = cs@;
    let bits_le = match to_bits_le_strict(cs, b) {
        Ok(v) => v,
        Err(e) => {
            return Err(e);
        },
    };
    let ghost c0 = cs@;
    let ghost bits = strict_bits_be(start, b@.value);
    let ghost base_value = base.value();
    let ghost flags = if b@.value is Some {
        bits_be(b@.value.unwrap())
    } else {
        Seq::empty()
    };
    proof {
        base.lemma_valid_extends(start, c0);
        if start.proving {
            base.lemma_valid_value(start);
            b.lemma_valid_value(start);
        }
        assert(bits_le@[254] == bits[0]);
    }
    let base_x = Number::from_num(base.x);
    let base_y = Number::from_num(base.y);
    let mut result = match ladder_first(cs, &bits_le[254], &base_x, &base_y) {
        Ok(p) => p,
        Err(e) => {
            return Err(e);
        },
    };
    proof {
        if start.proving {
            assert(bits_le@[254].value() == Some(flags[0]));
        }
    }
    let mut k: usize = 1;
    while k < 255
        invariant
            1 <= k <= 255,
            start == old(cs)@,
            bits == strict_bits_be(start, b@.value),
            base_value == base.value(),
            bits_le@.len() == 255,
            forall|i: int|
                0 <= i < 255 ==> (#[trigger] bits_le@[i]) == bits[254 - i] && bits_le@[i].value()
                    == bit_at(b@.value, i as nat) && bits_le@[i].valid(c0),
            c0 == strict_cs(start, b@.variable, b@.value),
            c0.extends(start),
            base.valid(c0),
            cs.wf(),
            cs@.extends(c0),
            walk(cs@, result@) == ladder_model(c0, curve@, bits, base@, k as nat),
            result.valid(cs@),
            start.proving == cs@.proving,
            start.proving ==> base_value is Some && b@.value is Some && flags == bits_be(
                b@.value.unwrap(),
            ),
            start.proving ==> result.value() == Some(
                witness_ladder(curve@, base_value.unwrap(), flags, k as nat, false),
            ),
            start.proving && start.satisfied() && witness_ladder_addable(
                curve@,
                base_value.unwrap(),
                flags,
                k as nat,
                false,
            ) ==> cs@.satisfied(),
        decreases 255 - k,
    {
        let ghost before = cs@;
        let bit = bits_le[254 - k];
        proof {
            assert(bit == bits[k as int]);
            bit.lemma_valid_extends(c0, before);
            base.lemma_valid_extends(c0, before);
            if start.proving {
                result.lemma_valid_value(before);
                assert(bit.value() == Some(flags[k as int]));
            }
        }
        result = match ladder_advance(cs, curve, &bit, base, &result) {
            Ok(p) => p,
            Err(e) => {
                return Err(e);
            },
        };
        k += 1;
    }
    Ok(result)
}

/// The multiple `b * base` of a constant point: double-and-add over the strict bits of
/// `b`, with the base folded into the coefficients of every addition.
#[verifier::rlimit(100)]
pub fn mul_const_point(cs: &mut ConstraintSystem, curve: &CurveParams, base: &PointAffine, b: &AllocatedNum) -> (r:
    Result<AllocatedPoint, SynthesisError>)
    requires
        old(cs).wf(),
        b.valid(old(cs)@),
    ensures
        final(cs).wf(),
        final(cs)@.extends(old(cs)@),
        r is Ok,
        walk(final(cs)@, r.unwrap()@) == mul_const_point_model(old(cs)@, curve@, base@, b@),
        r.unwrap().valid(final(cs)@),
        old(cs)@.proving ==> r.unwrap().value() == Some(
            witness_mul_const(curve@, base@, b@.value.unwrap()),
        ),
        old(cs)@.proving && old(cs)@.satisfied() && witness_ladder_addable(
            curve@,
            base@,
            bits_be(b@.value.unwrap()),
            255,
            true,
        ) ==> final(cs)@.satisfied(),
{
    reveal(mul_const_point_model);
    let ghost start = cs@;
    let bits_le = match to_bits_le_strict(cs, b) {
        Ok(v) => v,
        Err(e) => {
            return Err(e);
        },
    };
    let ghost c0 = cs@;
    let ghost bits = strict_bits_be(start, b@.value);
    let ghost flags = if b@.value is Some {
        bits_be(b@.value.unwrap())
    } else {
        Seq::empty()
    };
    proof {
        if start.proving {
            b.lemma_valid_value(start);
        }
        assert(bits_le@[254] == bits[0]);
    }
    let base_x = Number::constant(base.0);
    let base_y = Number::constant(base.1);
    let mut result = match ladder_first(cs, &bits_le[254], &base_x, &base_y) {
        Ok(p) => p,
        Err(e) => {
            return Err(e);
        },
    };
    proof {
        if start.proving {
            assert(bits_le@[254].value() == Some(flags[0]));
        }
    }
    let mut k: usize = 1;
    while k < 255
        invariant
            1 <= k <= 255,
            start == old(cs)@,
            bits == strict_bits_be(start, b@.value),
            bits_le@.len() == 255,
            forall|i: int|
                0 <= i < 255 ==> (#[trigger] bits_le@[i]) == bits[254 - i] && bits_le@[i].value()
                    == bit_at(b@.value, i as nat) && bits_le@[i].valid(c0),
            c0 == strict_cs(start, b@.variable, b@.value),
            c0.extends(start),
            cs.wf(),
            cs@.extends(c0),
            walk(cs@, result@) == ladder_model_const(c0, curve@, bits, base@, k as nat),
            result.valid(cs@),
            start.proving == cs@.proving,
            start.proving ==> b@.value is Some && flags == bits_be(b@.value.unwrap()),
            start.proving ==> result.value() == Some(
                witness_ladder(curve@, base@, flags, k as nat, true),
            ),
            start.proving && start.satisfied() && witness_ladder_addable(
                curve@,
                base@,
                flags,
                k as nat,
                true,
            ) ==> cs@.satisfied(),
        decreases 255 - k,
    {
        let ghost before = cs@;
        let bit = bits_le[254 - k];
        proof {
            assert(bit == bits[k as int]);
            bit.lemma_valid_extends(c0, before);
            if start.proving {
                result.lemma_valid_value(before);
                assert(bit.value() == Some(flags[k as int]));
            }
        }
        result = match ladder_advance_const(cs, curve, &bit, base, &result) {
            Ok(p) => p,
            Err(e) => {
                return Err(e);
            },
        };
        k += 1;
    }
    Ok(result)
}

/// The two terms that the curve equation compares: `a*x^2 + y^2` and `1 + d*x^2*y^2`,
/// over the variables of the squares and of their product.
pub open spec fn curve_sides(c: CurveModel, x2: Wire, y2: Wire, x2y2: Wire) -> (NumberModel, NumberModel) {
    (
        term_of(y2).plus(NumberModel::of_scaled(c.a, x2.variable, x2.value)),
        NumberModel::of_scaled(c.d, x2y2.variable, x2y2.value).plus(NumberModel::constant(1)),
    )
}

/// The system after `assert_on_curve`.
pub open spec fn assert_on_curve_cs(cs: CsModel, c: CurveModel, p: PointWires, enabled: Boolean) -> CsModel {
    let c1 = Number::mul_cs(cs, term_of(p.x), term_of(p.x));
    let x2 = Wire { variable: cs.next_aux(), value: product(p.x.value, p.x.value) };
    let c2 = Number::mul_cs(c1, term_of(p.y), term_of(p.y));
    let y2 = Wire { variable: c1.next_aux(), value: product(p.y.value, p.y.value) };
    let c3 = Number::mul_cs(c2, term_of(x2), term_of(y2));
    let x2y2 = Wire { variable: c2.next_aux(), value: product(x2.value, y2.value) };
    let sides = curve_sides(c, x2, y2, x2y2);
    assert_equal_if_enabled_cs(c3, enabled, sides.0, sides.1)
}

/// The system after `is_null`.
pub open spec fn is_null_cs(cs: CsModel, p: PointWires) -> CsModel {
    let c1 = is_zero_cs(cs, term_of(p.x));
    let xz = AllocatedBit { variable: cs.next_aux(), value: cs.kept_bit(zero_test(p.x.value)) };
    let c2 = is_zero_cs(c1, term_of(p.y));
    let yz = AllocatedBit { variable: c1.next_aux(), value: c1.kept_bit(zero_test(p.y.value)) };
    Boolean::and_cs(c2, Boolean::Is(xz), Boolean::Is(yz))
}

impl AllocatedPoint {
    /// Whether the point is the sentinel `(0, 0)`: both coordinates zero.
    pub fn is_null(&self, cs: &mut ConstraintSystem) -> (r: Result<Boolean, SynthesisError>)
        requires
            old(cs).wf(),
            self.valid(old(cs)@),
        ensures
            final(cs).wf(),
            final(cs)@.extends(old(cs)@),
            r is Ok,
            final(cs)@ == is_null_cs(old(cs)@, self@),
            old(cs)@.proving ==> r.unwrap().value() == Some(
                self.value().unwrap().x == 0 && self.value().unwrap().y == 0,
            ),
            r.unwrap().valid(final(cs)@),
            old(cs)@.proving && old(cs)@.satisfied() ==> final(cs)@.satisfied(),
    {
        let ghost start = cs@;
        proof {
            if start.proving {
                self.lemma_valid_value(start);
            }
        }
        let nx = Number::from_num(self.x);
        let ny = Number::from_num(self.y);
        let x_is_zero = match is_zero(cs, &nx) {
            Ok(b) => b,
            Err(e) => {
                return Err(e);
            },
        };
        let ghost c1 = cs@;
        proof {
            self.lemma_valid_extends(start, c1);
        }
        let y_is_zero = match is_zero(cs, &ny) {
            Ok(b) => b,
            Err(e) => {
                return Err(e);
            },
        };
        proof {
            x_is_zero.lemma_valid_extends(c1, cs@);
        }
        Boolean::and(cs, &Boolean::Is(x_is_zero), &Boolean::Is(y_is_zero))
    }

    /// Asserts, where `enabled` holds, that the point meets the curve equation
    /// `a*x^2 + y^2 = 1 + d*x^2*y^2`.
    #[verifier::rlimit(100)]
    pub fn assert_on_curve(&self, cs: &mut ConstraintSystem, curve: &CurveParams, enabled: &Boolean) -> (r:
        Result<(), SynthesisError>)
        requires
            old(cs).wf(),
            self.valid(old(cs)@),
            enabled.valid(old(cs)@),
            !(enabled is Not),
        ensures
            final(cs).wf(),
            final(cs)@.extends(old(cs)@),
            r is Ok,
            final(cs)@ == assert_on_curve_cs(old(cs)@, curve@, self@, *enabled),
            old(cs)@.proving && old(cs)@.satisfied() ==> (final(cs)@.satisfied() <==> (enabled.value()
                == Some(true) ==> on_curve(curve@, self.value().unwrap()))),
    {
        let ghost start = cs@;
        proof {
            if start.proving {
                self.lemma_valid_value(start);
            }
        }
        let x2 = match self.x.mul(cs, &self.x) {
            Ok(n) => n,
            Err(e) => {
                return Err(e);
            },
        };
        let ghost c1 = cs@;
        proof {
            self.lemma_valid_extends(start, c1);
        }
        let y2 = match self.y.mul(cs, &self.y) {
            Ok(n) => n,
            Err(e) => {
                return Err(e);
            },
        };
        let ghost c2 = cs@;
        proof {
            x2.lemma_valid_extends(c1, c2);
        }
        let x2y2 = match x2.mul(cs, &y2) {
            Ok(n) => n,
            Err(e) => {
                return Err(e);
            },
        };
        let ghost c3 = cs@;
        let lhs = Number::from_num(y2).add(Number::from_scaled(curve.a, x2));
        let rhs = Number::from_scaled(curve.d, x2y2).add(Number::one());
        proof {
            x2.lemma_valid_extends(c2, c3);
            y2.lemma_valid_extends(c2, c3);
            enabled.lemma_valid_extends(start, c3);
            assert(lhs@.valid(c3));
            assert(rhs@.valid(c3));
            if start.proving {
                let p = self.value().unwrap();
                x2.lemma_valid_value(c3);
                y2.lemma_valid_value(c3);
                x2y2.lemma_valid_value(c3);
                let vx2 = field_mul(p.x, p.x);
                let vy2 = field_mul(p.y, p.y);
                lemma_mul_comm(vx2, curve.a@);
                lemma_mul_comm(field_mul(vx2, vy2), curve.d@);
                assert(field_add(vy2, field_mul(curve.a@, vx2)) == field_add(
                    field_mul(curve.a@, vx2),
                    vy2,
                ));
                assert(field_add(field_mul(curve.d@, field_mul(vx2, vy2)), 1) == field_add(
                    1,
                    field_mul(curve.d@, field_mul(vx2, vy2)),
                ));
            }
        }
        assert_equal_if_enabled(cs, enabled, &lhs, &rhs)
    }
}

/// The values that the signature gadget hashes: `R.x`, `R.y`, `A.x`, `A.y` and the
/// message.
pub open spec fn challenge_inputs(pk: PointWires, msg: NumberModel, sig_r: PointWires) -> Seq<NumberModel> {
    seq![term_of(sig_r.x), term_of(sig_r.y), term_of(pk.x), term_of(pk.y), msg]
}

/// The left side of the signature equation in the circuit: `8 * (h * A + R)`.
#[verifier::opaque]
pub open spec fn eddsa_left(c: CurveModel, pk: PointModel, h: nat, sig_r: PointModel) -> PointModel {
    witness_cofactor(c, witness_add(c, witness_mul(c, pk, h), sig_r))
}

/// The right side of the signature equation in the circuit: `s * (8 * B)`.
#[verifier::opaque]
pub open spec fn eddsa_right(c: CurveModel, base_cofactor: PointModel, s: nat) -> PointModel {
    witness_mul_const(c, base_cofactor, s)
}

/// Whether the witnesses of all additions of the signature gadget meet their
/// constraints.
#[verifier::opaque]
pub open spec fn eddsa_addable(
    c: CurveModel,
    base_cofactor: PointModel,
    pk: PointModel,
    h: nat,
    sig_r: PointModel,
    s: nat,
) -> bool {
    let ha = witness_mul(c, pk, h);
    &&& witness_ladder_addable(c, base_cofactor, bits_be(s), 255, true)
    &&& witness_ladder_addable(c, pk, bits_be(h), 255, false)
    &&& witness_addable(c, ha, sig_r)
    &&& cofactor_addable(c, witness_add(c, ha, sig_r))
}

/// The system after the challenge of a signature is hashed and grounded in one variable.
#[verifier::opaque]
pub open spec fn challenge_cs(cs: CsModel, p: ParamsModel, pk: PointWires, msg: NumberModel, sig_r: PointWires) -> CsModel {
    let hashed = poseidon_model(cs, p, challenge_inputs(pk, msg, sig_r));
    Number::compress_cs(hashed.cs, hashed.state[1])
}

/// The variable of the challenge.
#[verifier::opaque]
pub open spec fn challenge_wire(cs: CsModel, p: ParamsModel, pk: PointWires, msg: NumberModel, sig_r: PointWires) -> Wire {
    let hashed = poseidon_model(cs, p, challenge_inputs(pk, msg, sig_r));
    Wire {
        variable: hashed.cs.next_aux(),
        value: hashed.cs.kept(product(hashed.state[1].value, Some(1nat))),
    }
}

/// A constraint system with the two sides of the signature equation on it.
pub struct Sides {
    pub cs: CsModel,
    pub left: PointWires,
    pub right: PointWires,
}

/// A system paired with two points.
pub open spec fn sides(cs: CsModel, left: PointWires, right: PointWires) -> Sides {
    Sides { cs, left, right }
}

/// The system and the two sides `8 * (h * A + R)` and `s * (8 * B)` of the signature
/// equation.
#[verifier::opaque]
pub open spec fn sides_model(
    cs: CsModel,
    c: CurveModel,
    base_cofactor: PointModel,
    pk: PointWires,
    h: Wire,
    sig_r: PointWires,
    sig_s: Wire,
) -> Sides {
    let sb = mul_const_point_model(cs, c, base_cofactor, sig_s);
    let ha = mul_point_model(sb.cs, c, pk, h);
    let c4 = add_point_cs(ha.cs, c, ha.acc, sig_r);
    let sum = add_point_out(ha.cs, c, ha.acc, sig_r);
    Sides { cs: mul_cofactor_cs(c4, c, sum), left: mul_cofactor_out(c4, c, sum), right: sb.acc }
}

/// The system after `verify_eddsa`.
pub open spec fn verify_eddsa_cs(
    cs: CsModel,
    c: CurveModel,
    base_cofactor: PointModel,
    p: ParamsModel,
    enabled: Boolean,
    pk: PointWires,
    msg: NumberModel,
    sig_r: PointWires,
    sig_s: Wire,
) -> CsModel {
    let c1 = challenge_cs(cs, p, pk, msg, sig_r);
    let h = challenge_wire(cs, p, pk, msg, sig_r);
    let s = sides_model(c1, c, base_cofactor, pk, h, sig_r, sig_s);
    let c6 = assert_equal_if_enabled_cs(s.cs, enabled, term_of(s.left.x), term_of(s.right.x));
    assert_equal_if_enabled_cs(c6, enabled, term_of(s.left.y), term_of(s.right.y))
}

/// The challenge `h = H(R.x, R.y, A.x, A.y, M)`, grounded in one variable.
#[verifier::rlimit(100)]
fn eddsa_challenge(
    cs: &mut ConstraintSystem,
    params: &PoseidonParams,
    pk: &AllocatedPoint,
    msg: &Number,
    sig_r: &AllocatedPoint,
) -> (r: Result<AllocatedNum, SynthesisError>)
    requires
        old(cs).wf(),
        params.wf(),
        params@.width() == 6,
        pk.valid(old(cs)@),
        msg@.valid(old(cs)@),
        sig_r.valid(old(cs)@),
    ensures
        final(cs).wf(),
        final(cs)@.extends(old(cs)@),
        r is Err <==> old(cs)@.proving && params@.rounds() > 0 && msg@.value is None,
        r is Ok ==> {
            &&& final(cs)@ == challenge_cs(old(cs)@, params@, pk@, msg@, sig_r@)
            &&& r.unwrap()@ == challenge_wire(old(cs)@, params@, pk@, msg@, sig_r@)
            &&& r.unwrap().valid(final(cs)@)
            &&& old(cs)@.proving && msg@.value is Some ==> r.unwrap()@.value == challenge(
                params@,
                pk.value().unwrap(),
                msg@.value.unwrap(),
                sig_r.value().unwrap(),
            )
            &&& old(cs)@.proving && old(cs)@.satisfied() ==> final(cs)@.satisfied()
        },
{
    reveal(challenge_cs);
    reveal(challenge_wire);
    let ghost start = cs@;
    proof {
        if start.proving {
            pk.lemma_valid_value(start);
            sig_r.lemma_valid_value(start);
        }
    }
    let mut inputs: Vec<Number> = Vec::new();
    inputs.push(Number::from_num(sig_r.x));
    inputs.push(Number::from_num(sig_r.y));
    inputs.push(Number::from_num(pk.x));
    inputs.push(Number::from_num(pk.y));
    inputs.push(msg.clone());
    proof {
        let m = models(inputs@);
        assert(m =~= challenge_inputs(pk@, msg@, sig_r@));
        assert(all_valid(m, start));
        if start.proving {
            if some_missing(m) {
                let w = choose|i: int| 0 <= i < m.len() && (#[trigger] m[i]).value is None;
                assert(w == 4);
            }
            if msg@.value is None {
                assert(m[4].value is None);
            } else {
                assert(values(m) =~= seq![
                    Some(sig_r.value().unwrap().x),
                    Some(sig_r.value().unwrap().y),
                    Some(pk.value().unwrap().x),
                    Some(pk.value().unwrap().y),
                    Some(msg@.value.unwrap()),
                ]);
            }
        }
    }
    let hashed = match poseidon(cs, params, &inputs) {
        Ok(n) => n,
        Err(e) => {
            return Err(e);
        },
    };
    proof {
        let mid = cs@;
        if start.proving {
            if hashed@.value is None {
                // without rounds the hash is its first input
                let m = models(inputs@);
                assert((seq![Some(0nat)] + values(m))[1] == values(m)[0]);
                assert(values(m)[0] == m[0].value);
            }
            mid.lemma_eval_reduced(hashed@.lc);
            lemma_mul_unit(hashed@.value.unwrap());
        }
    }
    hashed.compress(cs)
}

/// The two sides of the signature equation: `8 * (h * A + R)` and `s * (8 * B)`.
#[verifier::rlimit(100)]
fn eddsa_sides(
    cs: &mut ConstraintSystem,
    curve: &CurveParams,
    pk: &AllocatedPoint,
    h: &AllocatedNum,
    sig_r: &AllocatedPoint,
    sig_s: &AllocatedNum,
) -> (r: Result<(AllocatedPoint, AllocatedPoint), SynthesisError>)
    requires
        old(cs).wf(),
        pk.valid(old(cs)@),
        h.valid(old(cs)@),
        sig_r.valid(old(cs)@),
        sig_s.valid(old(cs)@),
    ensures
        final(cs).wf(),
        final(cs)@.extends(old(cs)@),
        r is Ok,
        sides(final(cs)@, r.unwrap().0@, r.unwrap().1@) == sides_model(
            old(cs)@,
            curve@,
            curve.base_cofactor@,
            pk@,
            h@,
            sig_r@,
            sig_s@,
        ),
        r.unwrap().0.valid(final(cs)@),
        r.unwrap().1.valid(final(cs)@),
        old(cs)@.proving ==> {
            let a = pk.value().unwrap();
            let rr = sig_r.value().unwrap();
            let s = sig_s@.value.unwrap();
            let hv = h@.value.unwrap();
            &&& r.unwrap().0.value() == Some(eddsa_left(curve@, a, hv, rr))
            &&& r.unwrap().1.value() == Some(eddsa_right(curve@, curve.base_cofactor@, s))
            &&& old(cs)@.satisfied() && eddsa_addable(curve@, curve.base_cofactor@, a, hv, rr, s)
                ==> final(cs)@.satisfied()
        },
{
    reveal(sides_model);
    reveal(eddsa_left);
    reveal(eddsa_right);
    reveal(eddsa_addable);
    let ghost start = cs@;
    proof {
        if start.proving {
            pk.lemma_valid_value(start);
            sig_r.lemma_valid_value(start);
            sig_s.lemma_valid_value(start);
            h.lemma_valid_value(start);
        }
    }
    let sb = match mul_const_point(cs, curve, &curve.base_cofactor, sig_s) {
        Ok(p) => p,
        Err(e) => {
            return Err(e);
        },
    };
    let ghost c2 = cs@;
    proof {
        pk.lemma_valid_extends(start, c2);
        h.lemma_valid_extends(start, c2);
    }
    let ha = match mul_point(cs, curve, pk, h) {
        Ok(p) => p,
        Err(e) => {
            return Err(e);
        },
    };
    let ghost c3 = cs@;
    proof {
        sig_r.lemma_valid_extends(start, c3);
        if start.proving {
            ha.lemma_valid_value(c3);
        }
    }
    let sum = match add_point(cs, curve, &ha, sig_r) {
        Ok(p) => p,
        Err(e) => {
            return Err(e);
        },
    };
    let ghost c4 = cs@;
    proof {
        if start.proving {
            sum.lemma_valid_value(c4);
        }
    }
    let left = match mul_cofactor(cs, curve, &sum) {
        Ok(p) => p,
        Err(e) => {
            return Err(e);
        },
    };
    proof {
        sb.lemma_valid_extends(c2, cs@);
    }
    Ok((left, sb))
}

/// Verifies an EdDSA signature `(R, s)` of `msg` under the public key `pk`, where
/// `enabled` holds: with `h = H(R.x, R.y, A.x, A.y, M)`, asserts that both coordinates
/// of `8 * (h * A + R)` and of `s * (8 * B)` are equal.
#[verifier::rlimit(100)]
pub fn verify_eddsa(
    cs: &mut ConstraintSystem,
    curve: &CurveParams,
    params: &PoseidonParams,
    enabled: &Boolean,
    pk: &AllocatedPoint,
    msg: &Number,
    sig_r: &AllocatedPoint,
    sig_s: &AllocatedNum,
) -> (r: Result<(), SynthesisError>)
    requires
        old(cs).wf(),
        params.wf(),
        params@.width() == 6,
        enabled.valid(old(cs)@),
        !(enabled is Not),
        pk.valid(old(cs)@),
        msg@.valid(old(cs)@),
        sig_r.valid(old(cs)@),
        sig_s.valid(old(cs)@),
    ensures
        final(cs).wf(),
        final(cs)@.extends(old(cs)@),
        r is Err <==> old(cs)@.proving && params@.rounds() > 0 && msg@.value is None,
        r is Ok ==> {
            &&& final(cs)@ == verify_eddsa_cs(
                old(cs)@,
                curve@,
                curve.base_cofactor@,
                params@,
                *enabled,
                pk@,
                msg@,
                sig_r@,
                sig_s@,
            )
            &&& old(cs)@.proving && old(cs)@.satisfied() && msg@.value is Some ==> {
                let a = pk.value().unwrap();
                let rr = sig_r.value().unwrap();
                let s = sig_s@.value.unwrap();
                let h = challenge(params@, a, msg@.value.unwrap(), rr).unwrap();
                eddsa_addable(curve@, curve.base_cofactor@, a, h, rr, s) ==> (
                final(cs)@.satisfied() <==> (enabled.value() == Some(true) ==> eddsa_left(
                    curve@,
                    a,
                    h,
                    rr,
                ) == eddsa_right(curve@, curve.base_cofactor@, s)))
            }
        },
{
    let ghost start = cs@;
    let h = match eddsa_challenge(cs, params, pk, msg, sig_r) {
        Ok(n) => n,
        Err(e) => {
            return Err(e);
        },
    };
    let ghost c1 = cs@;
    proof {
        pk.lemma_valid_extends(start, c1);
        sig_r.lemma_valid_extends(start, c1);
        sig_s.lemma_valid_extends(start, c1);
        if start.proving {
            pk.lemma_valid_value(start);
            sig_r.lemma_valid_value(start);
            sig_s.lemma_valid_value(start);
            h.lemma_valid_value(c1);
        }
    }
    let (left, sb) = match eddsa_sides(cs, curve, pk, &h, sig_r, sig_s) {
        Ok(p) => p,
        Err(e) => {
            return Err(e);
        },
    };
    let ghost c5 = cs@;
    let lx = Number::from_num(left.x);
    let ly = Number::from_num(left.y);
    let sx = Number::from_num(sb.x);
    let sy = Number::from_num(sb.y);
    proof {
        enabled.lemma_valid_extends(start, c5);
        if start.proving {
            left.lemma_valid_value(c5);
            sb.lemma_valid_value(c5);
            left.x.lemma_valid_value(c5);
            left.y.lemma_valid_value(c5);
            sb.x.lemma_valid_value(c5);
            sb.y.lemma_valid_value(c5);
            assert(c5.eval(lx@.lc) == left.value().unwrap().x);
            assert(c5.eval(sx@.lc) == sb.value().unwrap().x);
            assert(c5.eval(ly@.lc) == left.value().unwrap().y);
            assert(c5.eval(sy@.lc) == sb.value().unwrap().y);
            if msg@.value is Some {
                let a = pk.value().unwrap();
                let rr = sig_r.value().unwrap();
                let s = sig_s@.value.unwrap();
                let hv = challenge(params@, a, msg@.value.unwrap(), rr).unwrap();
                assert(h@.value == Some(hv));
                assert(left.value() == Some(eddsa_left(curve@, a, hv, rr)));
                assert(sb.value() == Some(eddsa_right(curve@, curve.base_cofactor@, s)));
                if start.satisfied() && eddsa_addable(curve@, curve.base_cofactor@, a, hv, rr, s) {
                    assert(c1.satisfied());
                    assert(c5.satisfied());
                }
            }
        }
    }
    match assert_equal_if_enabled(cs, enabled, &lx, &sx) {
        Ok(()) => {},
        Err(e) => {
            return Err(e);
        },
    }
    let ghost c6 = cs@;
    proof {
        enabled.lemma_valid_extends(c5, c6);
        ly@.lemma_valid_extends(c5, c6);
        sy@.lemma_valid_extends(c5, c6);
        c6.lemma_eval_extends(c5, ly@.lc);
        c6.lemma_eval_extends(c5, sy@.lc);
    }
    assert_equal_if_enabled(cs, enabled, &ly, &sy)
}

} // verus!
