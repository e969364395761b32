//! Points of a twisted Edwards curve `a*x^2 + y^2 = 1 + d*x^2*y^2` over the scalar field.

use crate::field::{
    bit_of, field_add, field_inv, field_mul, field_neg, field_sub, lemma_mul_unit, lemma_reduced,
    modulus, Fr,
};
use vstd::prelude::*;

verus! {

/// A point in affine coordinates.
#[derive(Clone, Copy, Debug, PartialEq, Eq, Structural)]
pub struct PointAffine(pub Fr, pub Fr);

/// A point as its abscissa and the parity of its ordinate.
#[derive(Clone, Copy, Debug, PartialEq, Eq, Structural)]
pub struct PointCompressed(pub Fr, pub bool);

/// The constants of the curve, with the base point of signatures and that point times
/// the cofactor.
pub struct CurveParams {
    pub a: Fr,
    pub d: Fr,
    pub base: PointAffine,
    pub base_cofactor: PointAffine,
}

/// The coordinates of a point, as field values.
pub struct PointModel {
    pub x: nat,
    pub y: nat,
}

/// The constants `a` and `d` of the curve, as field values.
pub struct CurveModel {
    pub a: nat,
    pub d: nat,
}

impl View for PointAffine {
    type V = PointModel;

    open spec fn view(&self) -> PointModel {
        PointModel { x: self.0@, y: self.1@ }
    }
}

impl View for CurveParams {
    type V = CurveModel;

    open spec fn view(&self) -> CurveModel {
        CurveModel { a: self.a@, d: self.d@ }
    }
}

/// The neutral element of the group, `(0, 1)`.
pub open spec fn identity() -> PointModel {
    PointModel { x: 0, y: 1 }
}

/// The product `x1 * x2 * y1 * y2` that both denominators of the addition law share.
pub open spec fn cross(p: PointModel, q: PointModel) -> nat {
    field_mul(field_mul(field_mul(p.x, q.x), p.y), q.y)
}

/// The numerator of the abscissa of a sum, `x1*y2 + y1*x2`.
pub open spec fn sum_x_numerator(p: PointModel, q: PointModel) -> nat {
    field_add(field_mul(p.x, q.y), field_mul(p.y, q.x))
}

/// The numerator of the ordinate of a sum, `y1*y2 - a*x1*x2`.
pub open spec fn sum_y_numerator(c: CurveModel, p: PointModel, q: PointModel) -> nat {
    field_sub(field_mul(p.y, q.y), field_mul(c.a, field_mul(p.x, q.x)))
}

/// The denominator of the abscissa of a sum, `1 + d*x1*x2*y1*y2`.
pub open spec fn sum_x_denominator(c: CurveModel, p: PointModel, q: PointModel) -> nat {
    field_add(1, field_mul(c.d, cross(p, q)))
}

/// The denominator of the ordinate of a sum, `1 - d*x1*x2*y1*y2`.
pub open spec fn sum_y_denominator(c: CurveModel, p: PointModel, q: PointModel) -> nat {
    field_sub(1, field_mul(c.d, cross(p, q)))
}

/// The sum of two points by the addition law of the curve. A quotient by zero counts as
/// zero.
pub open spec fn point_add(c: CurveModel, p: PointModel, q: PointModel) -> PointModel {
    PointModel {
        x: field_mul(sum_x_numerator(p, q), field_inv(sum_x_denominator(c, p, q))),
        y: field_mul(sum_y_numerator(c, p, q), field_inv(sum_y_denominator(c, p, q))),
    }
}

/// The sum that the circuit takes as witness: the sentinel `(0, 0)` where the first
/// operand is that sentinel, the sum by the addition law otherwise.
pub open spec fn witness_add(c: CurveModel, p: PointModel, q: PointModel) -> PointModel {
    if p.x == 0 && p.y == 0 {
        PointModel { x: 0, y: 0 }
    } else {
        point_add(c, p, q)
    }
}

/// Whether the witness of a sum meets the two constraints of the addition: the first
/// operand is the sentinel, or neither denominator vanishes.
pub open spec fn witness_addable(c: CurveModel, p: PointModel, q: PointModel) -> bool {
    (p.x == 0 && p.y == 0) || addable(c, p, q)
}

/// Whether neither denominator of the sum vanishes.
pub open spec fn addable(c: CurveModel, p: PointModel, q: PointModel) -> bool {
    sum_x_denominator(c, p, q) != 0 && sum_y_denominator(c, p, q) != 0
}

/// Whether the point meets the curve equation.
pub open spec fn on_curve(c: CurveModel, p: PointModel) -> bool {
    let x2 = field_mul(p.x, p.x);
    let y2 = field_mul(p.y, p.y);
    field_add(field_mul(c.a, x2), y2) == field_add(1, field_mul(c.d, field_mul(x2, y2)))
}

/// The point after `k` steps of double-and-add over the bits `bits`, most significant
/// first: the first bit picks the identity or the base, every later bit doubles and
/// then adds the base or not.
pub open spec fn ladder(c: CurveModel, base: PointModel, bits: Seq<bool>, k: nat) -> PointModel
    decreases k,
{
    if k == 0 {
        identity()
    } else if k == 1 {
        if bits[0] {
            base
        } else {
            identity()
        }
    } else {
        let acc = ladder(c, base, bits, (k - 1) as nat);
        let doubled = point_add(c, acc, acc);
        if bits[k - 1] {
            point_add(c, doubled, base)
        } else {
            doubled
        }
    }
}

/// Whether no addition of the first `k` ladder steps divides by zero.
pub open spec fn ladder_addable(c: CurveModel, base: PointModel, bits: Seq<bool>, k: nat) -> bool
    decreases k,
{
    if k <= 1 {
        true
    } else {
        let acc = ladder(c, base, bits, (k - 1) as nat);
        let doubled = point_add(c, acc, acc);
        &&& ladder_addable(c, base, bits, (k - 1) as nat)
        &&& addable(c, acc, acc)
        &&& addable(c, doubled, base)
    }
}

/// The witness of a doubling.
pub open spec fn witness_double(c: CurveModel, p: PointModel) -> PointModel {
    witness_add(c, p, p)
}

/// The witness of a point times the cofactor 8: three doublings.
pub open spec fn witness_cofactor(c: CurveModel, p: PointModel) -> PointModel {
    witness_double(c, witness_double(c, witness_double(c, p)))
}

/// Whether the witnesses of the three doublings meet their constraints.
pub open spec fn cofactor_addable(c: CurveModel, p: PointModel) -> bool {
    let twice = witness_double(c, p);
    let fourfold = witness_double(c, twice);
    witness_addable(c, p, p) && witness_addable(c, twice, twice) && witness_addable(c, fourfold, fourfold)
}

/// The witness after `k` steps of the circuit's double-and-add over the bits `bits`,
/// most significant first, where the base is added by `plus`.
pub open spec fn witness_ladder(
    c: CurveModel,
    base: PointModel,
    bits: Seq<bool>,
    k: nat,
    constant: bool,
) -> PointModel
    decreases k,
{
    if k == 0 {
        identity()
    } else if k == 1 {
        if bits[0] {
            base
        } else {
            identity()
        }
    } else {
        let acc = witness_ladder(c, base, bits, (k - 1) as nat, constant);
        let doubled = witness_double(c, acc);
        let plus = if constant {
            point_add(c, doubled, base)
        } else {
            witness_add(c, doubled, base)
        };
        if bits[k - 1] {
            plus
        } else {
            doubled
        }
    }
}

/// Whether the witnesses of all additions of the first `k` ladder steps meet their
/// constraints. Both branches of every step are laid down, so both must.
pub open spec fn witness_ladder_addable(
    c: CurveModel,
    base: PointModel,
    bits: Seq<bool>,
    k: nat,
    constant: bool,
) -> bool
    decreases k,
{
    if k <= 1 {
        true
    } else {
        let acc = witness_ladder(c, base, bits, (k - 1) as nat, constant);
        let doubled = witness_double(c, acc);
        &&& witness_ladder_addable(c, base, bits, (k - 1) as nat, constant)
        &&& witness_addable(c, acc, acc)
        &&& if constant {
            addable(c, doubled, base)
        } else {
            witness_addable(c, doubled, base)
        }
    }
}

/// Whether a point is the sentinel `(0, 0)`.
pub open spec fn is_sentinel(p: PointModel) -> bool {
    p.x == 0 && p.y == 0
}

/// Whether no running point of the first `k` ladder steps, before or after its
/// doubling, is the sentinel.
pub open spec fn ladder_clear(c: CurveModel, base: PointModel, bits: Seq<bool>, k: nat) -> bool
    decreases k,
{
    if k <= 1 {
        true
    } else {
        let acc = ladder(c, base, bits, (k - 1) as nat);
        &&& ladder_clear(c, base, bits, (k - 1) as nat)
        &&& !is_sentinel(acc)
        &&& !is_sentinel(point_add(c, acc, acc))
    }
}

/// Where the sentinel does not occur, the circuit's double-and-add takes the same
/// values as the double-and-add on points, with a variable base and with a constant
/// one.
pub proof fn lemma_witness_ladder(c: CurveModel, base: PointModel, bits: Seq<bool>, k: nat, constant: bool)
    requires
        ladder_clear(c, base, bits, k),
    ensures
        witness_ladder(c, base, bits, k, constant) == ladder(c, base, bits, k),
    decreases k,
{
    if k > 1 {
        lemma_witness_ladder(c, base, bits, (k - 1) as nat, constant);
    }
}

/// The witness of `v * p` in the circuit, for a variable point `p`.
pub open spec fn witness_mul(c: CurveModel, p: PointModel, v: nat) -> PointModel {
    witness_ladder(c, p, bits_be(v), scalar_bits(), false)
}

/// The witness of `v * p` in the circuit, for a constant point `p`.
pub open spec fn witness_mul_const(c: CurveModel, p: PointModel, v: nat) -> PointModel {
    witness_ladder(c, p, bits_be(v), scalar_bits(), true)
}

/// The number of bits of a scalar.
pub open spec fn scalar_bits() -> nat {
    255
}

/// The bits of a scalar, most significant first.
pub open spec fn bits_be(v: nat) -> Seq<bool> {
    Seq::new(scalar_bits(), |i: int| bit_of(v, (scalar_bits() - 1 - i) as nat))
}

/// The multiple `v * p`, by double-and-add over the 255 bits of `v`.
pub open spec fn point_mul(c: CurveModel, p: PointModel, v: nat) -> PointModel {
    ladder(c, p, bits_be(v), scalar_bits())
}

/// The point times the cofactor 8: three doublings.
pub open spec fn point_mul_cofactor(c: CurveModel, p: PointModel) -> PointModel {
    let twice = point_add(c, p, p);
    let fourfold = point_add(c, twice, twice);
    point_add(c, fourfold, fourfold)
}

/// The inverse of an element, or zero for zero.
pub fn invert_or_zero(a: &Fr) -> (r: Fr)
    ensures
        r@ == field_inv(a@),
        a@ != 0 ==> field_mul(r@, a@) == 1,
{
    match a.invert() {
        Some(w) => w,
        None => Fr::zero(),
    }
}

/// The quotient `num / den`, zero where `den` is zero.
pub fn divide(num: &Fr, den: &Fr) -> (r: Fr)
    ensures
        r@ == field_mul(num@, field_inv(den@)),
        den@ != 0 ==> field_mul(den@, r@) == num@,
{
    let w = invert_or_zero(den);
    let r = num.mul(&w);
    num.reduced();
    proof {
        if den@ != 0 {
            crate::field::lemma_mul_comm(num@, w@);
            crate::field::lemma_mul_comm(den@, r@);
            crate::field::lemma_mul_assoc(num@, w@, den@);
            lemma_mul_unit(num@);
        }
    }
    r
}

impl PointAffine {
    /// The neutral element `(0, 1)`.
    pub fn zero() -> (r: PointAffine)
        ensures
            r@ == identity(),
    {
        PointAffine(Fr::zero(), Fr::one())
    }

    /// The sum of two points. Where a denominator of the addition law does not vanish,
    /// the quotient times the denominator is the numerator.
    pub fn add(&self, other: &PointAffine, curve: &CurveParams) -> (r: PointAffine)
        ensures
            r@ == point_add(curve@, self@, other@),
            sum_x_denominator(curve@, self@, other@) != 0 ==> field_mul(
                sum_x_denominator(curve@, self@, other@),
                r@.x,
            ) == sum_x_numerator(self@, other@),
            sum_y_denominator(curve@, self@, other@) != 0 ==> field_mul(
                sum_y_denominator(curve@, self@, other@),
                r@.y,
            ) == sum_y_numerator(curve@, self@, other@),
    {
        let one = Fr::one();
        let common = self.0.mul(&other.0).mul(&self.1).mul(&other.1);
        let dc = curve.d.mul(&common);
        let x_num = self.0.mul(&other.1).add(&self.1.mul(&other.0));
        let y_num = self.1.mul(&other.1).sub(&curve.a.mul(&self.0.mul(&other.0)));
        let x_den = one.add(&dc);
        let y_den = one.sub(&dc);
        let x = divide(&x_num, &x_den);
        let y = divide(&y_num, &y_den);
        PointAffine(x, y)
    }

    /// The point added to itself.
    pub fn double(&self, curve: &CurveParams) -> (r: PointAffine)
        ensures
            r@ == point_add(curve@, self@, self@),
    {
        self.add(self, curve)
    }

    /// The multiple `scalar * self`, by double-and-add over the 255 bits of the scalar.
    pub fn multiply(&self, scalar: &Fr, curve: &CurveParams) -> (r: PointAffine)
        ensures
            r@ == point_mul(curve@, self@, scalar@),
    {
        let ghost bits = bits_be(scalar@);
        let mut acc = if scalar.bit(254) {
            *self
        } else {
            PointAffine::zero()
        };
        let mut k: usize = 1;
        while k < 255
            invariant
                1 <= k <= 255,
                bits == bits_be(scalar@),
                acc@ == ladder(curve@, self@, bits, k as nat),
            decreases 255 - k,
        {
            let doubled = acc.double(curve);
            let bit = scalar.bit(254 - k);
            assert(bits[k as int] == bit);
            acc = if bit {
                doubled.add(self, curve)
            } else {
                doubled
            };
            k += 1;
        }
        acc
    }

    /// The point times the cofactor 8.
    pub fn mul_cofactor(&self, curve: &CurveParams) -> (r: PointAffine)
        ensures
            r@ == point_mul_cofactor(curve@, self@),
    {
        let twice = self.double(curve);
        let fourfold = twice.double(curve);
        fourfold.double(curve)
    }

    /// Whether the point meets the curve equation.
    pub fn is_on_curve(&self, curve: &CurveParams) -> (r: bool)
        ensures
            r == on_curve(curve@, self@),
    {
        let x2 = self.0.mul(&self.0);
        let y2 = self.1.mul(&self.1);
        let lhs = curve.a.mul(&x2).add(&y2);
        let rhs = Fr::one().add(&curve.d.mul(&x2.mul(&y2)));
        lhs.equals(&rhs)
    }

    /// The abscissa and the parity of the ordinate.
    pub fn compress(&self) -> (r: PointCompressed)
        ensures
            r.0 == self.0,
            r.1 == bit_of(self.1@, 0),
    {
        PointCompressed(self.0, self.1.bit(0))
    }
}

/// The square of the ordinate that the curve equation gives for an abscissa:
/// `(1 - a*x^2) / (1 - d*x^2)`.
pub open spec fn ordinate_square(c: CurveModel, x: nat) -> nat {
    let x2 = field_mul(x, x);
    field_mul(field_sub(1, field_mul(c.a, x2)), field_inv(field_sub(1, field_mul(c.d, x2))))
}

impl PointCompressed {
    /// The point with this abscissa whose ordinate, a square root of
    /// `(1 - a*x^2) / (1 - d*x^2)`, has the recorded parity; none where there is no such
    /// root.
    pub fn decompress(&self, curve: &CurveParams) -> (r: Option<PointAffine>)
        ensures
            r is None <==> forall|y: nat| #[trigger] field_mul(y, y) != ordinate_square(curve@, self.0@),
            r is Some ==> {
                &&& r.unwrap().0 == self.0
                &&& field_mul(r.unwrap()@.y, r.unwrap()@.y) == ordinate_square(curve@, self.0@)
                &&& r.unwrap()@.y != 0 ==> bit_of(r.unwrap()@.y, 0) == self.1
            },
    {
        let one = Fr::one();
        let x2 = self.0.mul(&self.0);
        let num = one.sub(&curve.a.mul(&x2));
        let den = one.sub(&curve.d.mul(&x2));
        let t = num.mul(&invert_or_zero(&den));
        match t.sqrt() {
            None => None,
            Some(y) => {
                if y.bit(0) == self.1 {
                    Some(PointAffine(self.0, y))
                } else {
                    let ny = y.neg();
                    y.reduced();
                    proof {
                        lemma_neg_square(y@);
                        if y@ != 0 {
                            lemma_neg_parity(y@);
                        }
                    }
                    Some(PointAffine(self.0, ny))
                }
            },
        }
    }
}

/// A value and its negative have the same square.
pub proof fn lemma_neg_square(y: nat)
    ensures
        field_mul(field_neg(y), field_neg(y)) == field_mul(y, y),
{
    crate::field::lemma_mul_neg(y, field_neg(y));
    crate::field::lemma_mul_comm(y, field_neg(y));
    crate::field::lemma_mul_neg(y, y);
    lemma_reduced(y, y);
    crate::field::lemma_neg_neg(field_mul(y, y));
}

/// A nonzero reduced value and its negative differ in parity, the field order being odd.
pub proof fn lemma_neg_parity(y: nat)
    requires
        0 < y < modulus(),
    ensures
        bit_of(field_neg(y), 0) != bit_of(y, 0),
        field_neg(y) != 0,
{
    let m = modulus() as int;
    vstd::arithmetic::div_mod::lemma_mod_add_multiples_vanish(0 - y as int, m);
    vstd::arithmetic::div_mod::lemma_small_mod((m - y) as nat, modulus());
    assert(field_neg(y) == m - y);
    vstd::arithmetic::power2::lemma2_to64();
    assert(vstd::arithmetic::power2::pow2(0) == 1);
}

} // verus!
