//! The scalar field of BLS12-381: elements, their mathematical value, and arithmetic.

use bls12_381::Scalar;
use vstd::arithmetic::div_mod::*;
use vstd::arithmetic::mul::*;
use vstd::arithmetic::power2::*;
use vstd::prelude::*;

verus! {

/// The prime order of the scalar field.
pub open spec fn modulus() -> nat {
    52435875175126190479447740508185965837690552500527637822603658699938581184513nat
}

/// Sum of two field values.
pub open spec fn field_add(a: nat, b: nat) -> nat {
    (a + b) % modulus()
}

/// Difference of two field values.
pub open spec fn field_sub(a: nat, b: nat) -> nat {
    ((a as int - b as int) % (modulus() as int)) as nat
}

/// Product of two field values.
pub open spec fn field_mul(a: nat, b: nat) -> nat {
    (a * b) % modulus()
}

/// Additive inverse of a field value.
pub open spec fn field_neg(a: nat) -> nat {
    field_sub(0, a)
}

/// Bit `i` of the binary expansion of `v`, least significant first.
pub open spec fn bit_of(v: nat, i: nat) -> bool {
    (v / pow2(i)) % 2 == 1
}

pub open spec fn weight1() -> nat {
    0x1_0000_0000_0000_0000
}

pub open spec fn weight2() -> nat {
    340282366920938463463374607431768211456nat
}

pub open spec fn weight3() -> nat {
    6277101735386680763835789423207666416102355444464034512896nat
}

/// The number that four 64-bit limbs denote, least significant limb first.
pub open spec fn limbs_value(l0: u64, l1: u64, l2: u64, l3: u64) -> nat {
    l0 as nat + l1 as nat * weight1() + l2 as nat * weight2() + l3 as nat * weight3()
}

/// An element of the scalar field, held in canonical form as four little-endian limbs.
#[derive(Clone, Copy, Debug, PartialEq, Eq, Structural)]
pub struct Fr {
    pub(crate) l0: u64,
    pub(crate) l1: u64,
    pub(crate) l2: u64,
    pub(crate) l3: u64,
}

impl View for Fr {
    type V = nat;

    closed spec fn view(&self) -> nat {
        limbs_value(self.l0, self.l1, self.l2, self.l3)
    }
}

/// Adds two elements with `bls12_381::Scalar`'s `+`: the result is the sum reduced
/// modulo the field order.
#[verifier::external_body]
fn scalar_add(a: &Fr, b: &Fr) -> (r: Fr)
    ensures
        r@ == field_add(a@, b@),
{
    let x = Scalar::from_raw([a.l0, a.l1, a.l2, a.l3]);
    let y = Scalar::from_raw([b.l0, b.l1, b.l2, b.l3]);
    let z = (x + y).to_bytes();
    Fr {
        l0: u64::from_le_bytes(z[0..8].try_into().unwrap()),
        l1: u64::from_le_bytes(z[8..16].try_into().unwrap()),
        l2: u64::from_le_bytes(z[16..24].try_into().unwrap()),
        l3: u64::from_le_bytes(z[24..32].try_into().unwrap()),
    }
}

/// Subtracts with `bls12_381::Scalar`'s `-`: the result is the difference reduced
/// modulo the field order.
#[verifier::external_body]
fn scalar_sub(a: &Fr, b: &Fr) -> (r: Fr)
    ensures
        r@ == field_sub(a@, b@),
{
    let x = Scalar::from_raw([a.l0, a.l1, a.l2, a.l3]);
    let y = Scalar::from_raw([b.l0, b.l1, b.l2, b.l3]);
    let z = (x - y).to_bytes();
    Fr {
        l0: u64::from_le_bytes(z[0..8].try_into().unwrap()),
        l1: u64::from_le_bytes(z[8..16].try_into().unwrap()),
        l2: u64::from_le_bytes(z[16..24].try_into().unwrap()),
        l3: u64::from_le_bytes(z[24..32].try_into().unwrap()),
    }
}

/// Multiplies with `bls12_381::Scalar`'s `*`: the result is the product reduced
/// modulo the field order.
#[verifier::external_body]
fn scalar_mul(a: &Fr, b: &Fr) -> (r: Fr)
    ensures
        r@ == field_mul(a@, b@),
{
    let x = Scalar::from_raw([a.l0, a.l1, a.l2, a.l3]);
    let y = Scalar::from_raw([b.l0, b.l1, b.l2, b.l3]);
    let z = (x * y).to_bytes();
    Fr {
        l0: u64::from_le_bytes(z[0..8].try_into().unwrap()),
        l1: u64::from_le_bytes(z[8..16].try_into().unwrap()),
        l2: u64::from_le_bytes(z[16..24].try_into().unwrap()),
        l3: u64::from_le_bytes(z[24..32].try_into().unwrap()),
    }
}

/// Inverts with `bls12_381::Scalar::invert`, which fails on zero and on every other
/// element gives the multiplicative inverse.
#[verifier::external_body]
fn scalar_invert(a: &Fr) -> (r: Option<Fr>)
    ensures
        a@ % modulus() == 0 <==> r is None,
        r is Some ==> r.unwrap()@ < modulus() && field_mul(r.unwrap()@, a@) == 1,
{
    let x: Option<Scalar> = Scalar::from_raw([a.l0, a.l1, a.l2, a.l3]).invert().into();
    match x {
        None => None,
        Some(s) => {
            let z = s.to_bytes();
            Some(Fr {
                l0: u64::from_le_bytes(z[0..8].try_into().unwrap()),
                l1: u64::from_le_bytes(z[8..16].try_into().unwrap()),
                l2: u64::from_le_bytes(z[16..24].try_into().unwrap()),
                l3: u64::from_le_bytes(z[24..32].try_into().unwrap()),
            })
        },
    }
}

/// Takes a square root with `bls12_381::Scalar::sqrt`, which gives one if the element
/// has any.
#[verifier::external_body]
fn scalar_sqrt(a: &Fr) -> (r: Option<Fr>)
    ensures
        r is Some ==> r.unwrap()@ < modulus() && field_mul(r.unwrap()@, r.unwrap()@) == a@
            % modulus(),
        r is None ==> forall|x: nat| #[trigger] field_mul(x, x) != a@ % modulus(),
{
    let x: Option<Scalar> = Scalar::from_raw([a.l0, a.l1, a.l2, a.l3]).sqrt().into();
    match x {
        None => None,
        Some(s) => {
            let z = s.to_bytes();
            Some(Fr {
                l0: u64::from_le_bytes(z[0..8].try_into().unwrap()),
                l1: u64::from_le_bytes(z[8..16].try_into().unwrap()),
                l2: u64::from_le_bytes(z[16..24].try_into().unwrap()),
                l3: u64::from_le_bytes(z[24..32].try_into().unwrap()),
            })
        },
    }
}

/// Addition is associative.
pub proof fn lemma_add_assoc(a: nat, b: nat, c: nat)
    ensures
        field_add(field_add(a, b), c) == field_add(a, field_add(b, c)),
{
    let m = modulus() as int;
    lemma_add_mod_noop_right(c as int, (a + b) as int, m);
    lemma_add_mod_noop_right(a as int, (b + c) as int, m);
}

/// Adding zero changes nothing.
pub proof fn lemma_add_zero(a: nat)
    requires
        a < modulus(),
    ensures
        field_add(a, 0) == a,
        field_add(0, a) == a,
{
    lemma_small_mod(a, modulus());
}

/// Multiplying by one changes nothing; multiplying by zero gives zero.
pub proof fn lemma_mul_unit(a: nat)
    requires
        a < modulus(),
    ensures
        field_mul(a, 1) == a,
        field_mul(1, a) == a,
        field_mul(a, 0) == 0,
        field_mul(0, a) == 0,
{
    lemma_small_mod(a, modulus());
    assert(a * 1 == a && 1 * a == a && a * 0 == 0 && 0 * a == 0) by (nonlinear_arith);
}

/// Multiplication is commutative.
pub proof fn lemma_mul_comm(a: nat, b: nat)
    ensures
        field_mul(a, b) == field_mul(b, a),
{
    assert(a * b == b * a) by (nonlinear_arith);
}

/// Multiplication is associative.
pub proof fn lemma_mul_assoc(a: nat, b: nat, c: nat)
    ensures
        field_mul(field_mul(a, b), c) == field_mul(a, field_mul(b, c)),
{
    let m = modulus() as int;
    lemma_mul_mod_noop_left((a * b) as int, c as int, m);
    lemma_mul_mod_noop_right(a as int, (b * c) as int, m);
    assert((a * b) * c == a * (b * c)) by (nonlinear_arith);
}

/// Multiplication distributes over addition.
pub proof fn lemma_mul_distributes(a: nat, b: nat, k: nat)
    ensures
        field_mul(field_add(a, b), k) == field_add(field_mul(a, k), field_mul(b, k)),
        field_mul(k, field_add(a, b)) == field_add(field_mul(k, a), field_mul(k, b)),
{
    let m = modulus() as int;
    lemma_mul_mod_noop_left((a + b) as int, k as int, m);
    lemma_add_mod_noop((a * k) as int, (b * k) as int, m);
    assert((a + b) * k == a * k + b * k) by (nonlinear_arith);
    lemma_mul_comm(k, field_add(a, b));
    lemma_mul_comm(k, a);
    lemma_mul_comm(k, b);
}

/// Subtracting is adding the negative.
pub proof fn lemma_sub_is_add_neg(a: nat, b: nat)
    ensures
        field_sub(a, b) == field_add(a, field_neg(b)),
{
    let m = modulus() as int;
    lemma_add_mod_noop_right(a as int, 0 - b as int, m);
}

/// A value and its negative add up to zero.
pub proof fn lemma_neg_cancels(a: nat)
    ensures
        field_add(a, field_neg(a)) == 0,
        field_sub(a, a) == 0,
{
    lemma_sub_is_add_neg(a, a);
}

/// The negative of a sum is the sum of the negatives.
pub proof fn lemma_neg_add(a: nat, b: nat)
    ensures
        field_neg(field_add(a, b)) == field_add(field_neg(a), field_neg(b)),
{
    let m = modulus() as int;
    lemma_sub_mod_noop_right(0, (a + b) as int, m);
    lemma_add_mod_noop(0 - a as int, 0 - b as int, m);
}

/// A negated factor negates the product.
pub proof fn lemma_mul_neg(c: nat, v: nat)
    ensures
        field_mul(field_neg(c), v) == field_neg(field_mul(c, v)),
{
    let m = modulus() as int;
    lemma_mul_mod_noop_left(0 - c as int, v as int, m);
    lemma_sub_mod_noop_right(0, (c * v) as int, m);
    assert((0 - c as int) * (v as int) == 0 - (c * v) as int) by (nonlinear_arith);
}

/// Negating twice gives the value back.
pub proof fn lemma_neg_neg(a: nat)
    requires
        a < modulus(),
    ensures
        field_neg(field_neg(a)) == a,
{
    let m = modulus() as int;
    lemma_sub_mod_noop_right(0, 0 - a as int, m);
    lemma_small_mod(a, modulus());
}

/// Bit `j` of the 64-bit digit `d` is bit `s + j` of a number in which `d` stands at
/// weight `2^s`.
pub proof fn lemma_bit_of_digit(lo: nat, d: nat, hi: nat, s: nat, j: nat)
    requires
        lo < pow2(s),
        d < pow2(64),
        j < 64,
    ensures
        bit_of(lo + pow2(s) * (d + pow2(64) * hi), s + j) == bit_of(d, j),
{
    let h = d + pow2(64) * hi;
    let v = lo + pow2(s) * h;
    let ps = pow2(s) as int;
    let pj = pow2(j) as int;
    lemma_pow2_pos(s);
    lemma_pow2_pos(j);
    lemma_pow2_adds(s, j);
    lemma_div_denominator(v as int, ps, pj);
    lemma_mul_is_commutative(ps, h as int);
    lemma_fundamental_div_mod_converse(v as int, ps, h as int, lo as int);
    assert(v as int / ps == h);
    let e = (63 - j) as nat;
    lemma_pow2_adds(j, (64 - j) as nat);
    lemma_pow2_unfold((64 - j) as nat);
    let t = pow2(e) * hi;
    let q = d as int / pj;
    let r = d as int % pj;
    lemma_fundamental_div_mod(d as int, pj);
    lemma_mod_bound(d as int, pj);
    assert(h as int == (q + 2 * t) * pj + r) by (nonlinear_arith)
        requires
            h == d + pow2(64) * hi,
            pow2(64) == pow2(j) * pow2((64 - j) as nat),
            pow2((64 - j) as nat) == 2 * pow2(e),
            t == pow2(e) * hi,
            pj == pow2(j) as int,
            d as int == pj * q + r,
    ;
    lemma_fundamental_div_mod_converse(h as int, pj, q + 2 * t, r);
    assert(h as int / pj == q + 2 * t);
    assert((q + 2 * t) % 2 == q % 2);
}

/// The field value of `2^i`, by repeated doubling.
pub open spec fn pow2_field(i: nat) -> nat
    decreases i,
{
    if i == 0 {
        1
    } else {
        field_add(pow2_field((i - 1) as nat), pow2_field((i - 1) as nat))
    }
}

/// Repeated doubling gives the power of two, reduced.
pub proof fn lemma_pow2_field(i: nat)
    ensures
        pow2_field(i) == pow2(i) % modulus(),
    decreases i,
{
    if i == 0 {
        lemma2_to64();
        lemma_small_mod(1, modulus());
    } else {
        let j = (i - 1) as nat;
        lemma_pow2_field(j);
        lemma_pow2_unfold(i);
        lemma_mul_mod_noop_right(2, pow2(j) as int, modulus() as int);
    }
}

/// Powers of two up to `2^254` are below the field order.
pub proof fn lemma_pow2_small(i: nat)
    requires
        i <= 254,
    ensures
        pow2(i) < modulus(),
        pow2_field(i) == pow2(i),
{
    lemma2_to64();
    lemma2_to64_rest();
    lemma_pow2_adds(64, 64);
    lemma_pow2_adds(128, 64);
    lemma_pow2_adds(192, 62);
    assert(pow2(254) < modulus());
    if i < 254 {
        lemma_pow2_strictly_increases(i, 254);
    }
    lemma_pow2_field(i);
    lemma_small_mod(pow2(i), modulus());
}

/// The low `i + 1` bits of a number are its low `i` bits and bit `i`.
pub proof fn lemma_low_bits_step(v: nat, i: nat)
    ensures
        v % pow2(i + 1) == v % pow2(i) + pow2(i) * (if bit_of(v, i) {
            1nat
        } else {
            0nat
        }),
{
    let p = pow2(i) as int;
    lemma_pow2_pos(i);
    lemma_pow2_unfold(i + 1);
    let q = v as int / p;
    let r = v as int % p;
    lemma_fundamental_div_mod(v as int, p);
    lemma_mod_bound(v as int, p);
    let h = q / 2;
    let b = q % 2;
    assert(v as int == (2 * p) * h + (p * b + r)) by (nonlinear_arith)
        requires
            v as int == p * q + r,
            q == 2 * h + b,
    ;
    assert(0 <= p * b + r < 2 * p) by (nonlinear_arith)
        requires
            0 <= r < p,
            0 <= b <= 1,
    ;
    lemma_mul_is_commutative(2 * p, h);
    lemma_fundamental_div_mod_converse(v as int, 2 * p, h, p * b + r);
    assert(p * b == pow2(i) * (if bit_of(v, i) {
        1nat
    } else {
        0nat
    })) by (nonlinear_arith)
        requires
            p == pow2(i) as int,
            b == (if bit_of(v, i) {
                1int
            } else {
                0int
            }),
    ;
}

/// The multiplicative inverse of a reduced nonzero value; zero for zero.
pub open spec fn field_inv(a: nat) -> nat {
    if a == 0 {
        0
    } else {
        choose|w: nat| w < modulus() && field_mul(w, a) == 1
    }
}

/// A value has at most one inverse.
pub proof fn lemma_inverse_unique(a: nat, w1: nat, w2: nat)
    requires
        w1 < modulus(),
        w2 < modulus(),
        field_mul(w1, a) == 1,
        field_mul(w2, a) == 1,
    ensures
        w1 == w2,
{
    lemma_mul_assoc(w1, a, w2);
    lemma_mul_comm(a, w2);
    lemma_mul_unit(w1);
    lemma_mul_unit(w2);
}

/// An inverse that was found is the inverse.
pub proof fn lemma_inverse_found(a: nat, w: nat)
    requires
        a != 0,
        w < modulus(),
        field_mul(w, a) == 1,
    ensures
        field_inv(a) == w,
{
    let c = choose|x: nat| x < modulus() && field_mul(x, a) == 1;
    lemma_inverse_unique(a, c, w);
}

/// Two reduced values are equal exactly when their difference is zero.
pub proof fn lemma_sub_zero_iff(a: nat, b: nat)
    requires
        a < modulus(),
        b < modulus(),
    ensures
        (field_sub(a, b) == 0) == (a == b),
{
    let m = modulus() as int;
    if a >= b {
        lemma_small_mod((a - b) as nat, modulus());
    } else {
        lemma_mod_add_multiples_vanish(a as int - b as int, m);
        lemma_small_mod((a as int - b as int + m) as nat, modulus());
    }
}

/// Every result of a field operation is reduced.
pub proof fn lemma_reduced(a: nat, b: nat)
    ensures
        field_add(a, b) < modulus(),
        field_sub(a, b) < modulus(),
        field_mul(a, b) < modulus(),
        field_neg(a) < modulus(),
{
    lemma_mod_bound((a + b) as int, modulus() as int);
    lemma_mod_bound(a as int - b as int, modulus() as int);
    lemma_mod_bound((a * b) as int, modulus() as int);
    lemma_mod_bound(0 - a as int, modulus() as int);
}

/// A number without its low `i` bits is twice the number without its low `i + 1` bits,
/// plus bit `i`.
pub proof fn lemma_div_step(x: nat, i: nat)
    ensures
        x / pow2(i) == 2 * (x / pow2(i + 1)) + (if bit_of(x, i) {
            1nat
        } else {
            0nat
        }),
{
    let p = pow2(i) as int;
    lemma_pow2_pos(i);
    lemma_pow2_unfold(i + 1);
    lemma_div_denominator(x as int, p, 2);
    lemma_mul_is_commutative(p, 2);
    let q = x as int / p;
    lemma_fundamental_div_mod(q, 2);
}

/// Two numbers that agree above bit `i` and differ at bit `i` are ordered as that bit.
pub proof fn lemma_prefix_exceeds(v: nat, m: nat, i: nat)
    requires
        v / pow2(i + 1) == m / pow2(i + 1),
        bit_of(v, i),
        !bit_of(m, i),
    ensures
        v > m,
{
    lemma_div_step(v, i);
    lemma_div_step(m, i);
    lemma_pow2_pos(i);
    if v <= m {
        lemma_div_is_ordered(v as int, m as int, pow2(i) as int);
    }
}

/// The field order has 255 bits, and so has the largest field value, `-1`.
pub proof fn lemma_top_bit(v: nat)
    requires
        v < modulus(),
    ensures
        v / pow2(255) == 0,
        v < pow2(255),
        field_neg(1) == modulus() - 1,
        bit_of((modulus() - 1) as nat, 254),
{
    lemma2_to64();
    lemma2_to64_rest();
    lemma_pow2_adds(64, 64);
    lemma_pow2_adds(128, 64);
    lemma_pow2_adds(192, 62);
    lemma_pow2_adds(192, 63);
    assert(pow2(254) <= modulus() - 1);
    assert(modulus() < pow2(255));
    lemma_basic_div(v as int, pow2(255) as int);
    let m = (modulus() - 1) as nat;
    lemma_pow2_unfold(255);
    lemma_fundamental_div_mod_converse(m as int, pow2(254) as int, 1, m - pow2(254));
    lemma_mod_add_multiples_vanish(0 - 1, modulus() as int);
    lemma_small_mod(m, modulus());
}

/// Limbs that differ denote different numbers.
pub proof fn lemma_limbs_injective(a0: u64, a1: u64, a2: u64, a3: u64, b0: u64, b1: u64, b2: u64, b3: u64)
    requires
        limbs_value(a0, a1, a2, a3) == limbs_value(b0, b1, b2, b3),
    ensures
        a0 == b0,
        a1 == b1,
        a2 == b2,
        a3 == b3,
{
    assert(weight2() == weight1() * weight1());
    assert(weight3() == weight1() * weight2());
    let w = weight1() as int;
    let ha = a1 as int + w * (a2 as int + w * a3 as int);
    let hb = b1 as int + w * (b2 as int + w * b3 as int);
    assert(limbs_value(a0, a1, a2, a3) == a0 as int + w * ha) by (nonlinear_arith)
        requires
            limbs_value(a0, a1, a2, a3) == a0 as nat + a1 as nat * weight1() + a2 as nat * weight2()
                + a3 as nat * weight3(),
            weight2() == weight1() * weight1(),
            weight3() == weight1() * weight2(),
            w == weight1() as int,
            ha == a1 as int + w * (a2 as int + w * a3 as int),
    ;
    assert(limbs_value(b0, b1, b2, b3) == b0 as int + w * hb) by (nonlinear_arith)
        requires
            limbs_value(b0, b1, b2, b3) == b0 as nat + b1 as nat * weight1() + b2 as nat * weight2()
                + b3 as nat * weight3(),
            weight2() == weight1() * weight1(),
            weight3() == weight1() * weight2(),
            w == weight1() as int,
            hb == b1 as int + w * (b2 as int + w * b3 as int),
    ;
    lemma_digits_injective(a0 as int, ha, b0 as int, hb, w);
    lemma_digits_injective(
        a1 as int,
        a2 as int + w * a3 as int,
        b1 as int,
        b2 as int + w * b3 as int,
        w,
    );
    lemma_digits_injective(a2 as int, a3 as int, b2 as int, b3 as int, w);
}

/// A number splits in one way into a digit below `w` and a multiple of `w`.
pub proof fn lemma_digits_injective(a: int, ha: int, b: int, hb: int, w: int)
    requires
        0 <= a < w,
        0 <= b < w,
        a + w * ha == b + w * hb,
    ensures
        a == b,
        ha == hb,
{
    lemma_mul_is_commutative(w, ha);
    lemma_mul_is_commutative(w, hb);
    lemma_fundamental_div_mod_converse(a + w * ha, w, ha, a);
    lemma_fundamental_div_mod_converse(b + w * hb, w, hb, b);
}

impl Fr {
    /// Every element is held reduced.
    #[verifier::type_invariant]
    pub open spec fn canonical(self) -> bool {
        self@ < modulus()
    }

    /// Two elements with the same value are the same element.
    pub proof fn lemma_value_injective(self, other: Fr)
        ensures
            (self@ == other@) == (self == other),
    {
        if self@ == other@ {
            lemma_limbs_injective(
                self.l0,
                self.l1,
                self.l2,
                self.l3,
                other.l0,
                other.l1,
                other.l2,
                other.l3,
            );
        }
    }

    /// The value of an element is below the field order.
    pub fn reduced(&self)
        ensures
            self@ < modulus(),
    {
        proof {
            use_type_invariant(self);
        }
    }

    /// The additive identity.
    pub fn zero() -> (r: Fr)
        ensures
            r@ == 0,
    {
        Fr { l0: 0, l1: 0, l2: 0, l3: 0 }
    }

    /// The multiplicative identity.
    pub fn one() -> (r: Fr)
        ensures
            r@ == 1,
    {
        Fr { l0: 1, l1: 0, l2: 0, l3: 0 }
    }

    /// The element whose value is `v`.
    pub fn from_u64(v: u64) -> (r: Fr)
        ensures
            r@ == v,
    {
        Fr { l0: v, l1: 0, l2: 0, l3: 0 }
    }

    /// The element that four little-endian limbs denote, if they denote a reduced value.
    pub fn from_limbs(limbs: [u64; 4]) -> (r: Option<Fr>)
        ensures
            r is Some <==> limbs_value(limbs[0], limbs[1], limbs[2], limbs[3]) < modulus(),
            r is Some ==> r.unwrap()@ == limbs_value(limbs[0], limbs[1], limbs[2], limbs[3]),
    {
        let m0: u64 = 0xffff_ffff_0000_0001;
        let m1: u64 = 0x53bd_a402_fffe_5bfe;
        let m2: u64 = 0x3339_d808_09a1_d805;
        let m3: u64 = 0x73ed_a753_299d_7d48;
        assert(limbs_value(m0, m1, m2, m3) == modulus());
        let l0 = limbs[0];
        let l1 = limbs[1];
        let l2 = limbs[2];
        let l3 = limbs[3];
        let below = l3 < m3 || (l3 == m3 && (l2 < m2 || (l2 == m2 && (l1 < m1 || (l1 == m1 && l0
            < m0)))));
        if below {
            Some(Fr { l0, l1, l2, l3 })
        } else {
            None
        }
    }

    /// The four little-endian limbs of the value.
    pub fn to_limbs(&self) -> (r: [u64; 4])
        ensures
            limbs_value(r[0], r[1], r[2], r[3]) == self@,
    {
        [self.l0, self.l1, self.l2, self.l3]
    }

    /// Bit `i` of the value, least significant first.
    pub fn bit(&self, i: usize) -> (r: bool)
        requires
            i < 256,
        ensures
            r == bit_of(self@, i as nat),
    {
        let limb = if i < 64 {
            self.l0
        } else if i < 128 {
            self.l1
        } else if i < 192 {
            self.l2
        } else {
            self.l3
        };
        let j = (i % 64) as u64;
        let shifted = limb >> j;
        let r = shifted & 1 == 1;
        proof {
            lemma2_to64();
            lemma2_to64_rest();
            lemma_pow2_adds(64, 64);
            lemma_pow2_adds(128, 64);
            assert(pow2(64) == weight1());
            assert(pow2(128) == weight2());
            assert(pow2(192) == weight3());
            let w = weight1();
            let (a, b, c, d) = (self.l0 as nat, self.l1 as nat, self.l2 as nat, self.l3 as nat);
            vstd::bits::lemma_u64_shr_is_div(limb, j);
            assert((shifted & 1 == 1) == (shifted % 2 == 1)) by (bit_vector);
            assert(r == bit_of(limb as nat, j as nat));
            if i < 64 {
                lemma_bit_of_digit(0, a, b + w * c + w * w * d, 0, j as nat);
                assert(self@ == 0 + pow2(0) * (a + pow2(64) * (b + w * c + w * w * d)))
                    by (nonlinear_arith)
                    requires
                        self@ == a + b * w + c * weight2() + d * weight3(),
                        weight2() == w * w,
                        weight3() == w * w * w,
                        pow2(0) == 1,
                        pow2(64) == w,
                ;
            } else if i < 128 {
                lemma_bit_of_digit(a, b, c + w * d, 64, j as nat);
                assert(self@ == a + pow2(64) * (b + pow2(64) * (c + w * d))) by (nonlinear_arith)
                    requires
                        self@ == a + b * w + c * weight2() + d * weight3(),
                        weight2() == w * w,
                        weight3() == w * w * w,
                        pow2(64) == w,
                ;
            } else if i < 192 {
                lemma_bit_of_digit(a + w * b, c, d, 128, j as nat);
                assert(self@ == (a + w * b) + pow2(128) * (c + pow2(64) * d)) by (nonlinear_arith)
                    requires
                        self@ == a + b * w + c * weight2() + d * weight3(),
                        weight2() == w * w,
                        weight3() == w * w * w,
                        pow2(64) == w,
                        pow2(128) == w * w,
                ;
                assert(a + w * b < pow2(128)) by (nonlinear_arith)
                    requires
                        a < w,
                        b < w,
                        pow2(128) == w * w,
                ;
            } else {
                lemma_bit_of_digit(a + w * b + w * w * c, d, 0, 192, j as nat);
                assert(self@ == (a + w * b + w * w * c) + pow2(192) * (d + pow2(64) * 0))
                    by (nonlinear_arith)
                    requires
                        self@ == a + b * w + c * weight2() + d * weight3(),
                        weight2() == w * w,
                        weight3() == w * w * w,
                        pow2(192) == w * w * w,
                ;
                assert(a + w * b + w * w * c < pow2(192)) by (nonlinear_arith)
                    requires
                        a < w,
                        b < w,
                        c < w,
                        pow2(192) == w * w * w,
                ;
            }
        }
        r
    }

    /// The element `2^k`.
    pub fn power_of_two(k: usize) -> (r: Fr)
        ensures
            r@ == pow2_field(k as nat),
    {
        let mut r = Fr::one();
        let mut i: usize = 0;
        while i < k
            invariant
                0 <= i <= k,
                r@ == pow2_field(i as nat),
            decreases k - i,
        {
            r = r.double();
            i += 1;
        }
        r
    }

    /// Whether the value is zero.
    pub fn is_zero(&self) -> (r: bool)
        ensures
            r == (self@ == 0),
    {
        self.l0 == 0 && self.l1 == 0 && self.l2 == 0 && self.l3 == 0
    }

    /// Whether two elements have the same value.
    pub fn equals(&self, other: &Fr) -> (r: bool)
        ensures
            r == (self@ == other@),
    {
        proof {
            self.lemma_value_injective(*other);
        }
        self.l0 == other.l0 && self.l1 == other.l1 && self.l2 == other.l2 && self.l3 == other.l3
    }

    /// Field addition.
    pub fn add(&self, other: &Fr) -> (r: Fr)
        ensures
            r@ == field_add(self@, other@),
    {
        scalar_add(self, other)
    }

    /// Field subtraction.
    pub fn sub(&self, other: &Fr) -> (r: Fr)
        ensures
            r@ == field_sub(self@, other@),
    {
        scalar_sub(self, other)
    }

    /// Field multiplication.
    pub fn mul(&self, other: &Fr) -> (r: Fr)
        ensures
            r@ == field_mul(self@, other@),
    {
        scalar_mul(self, other)
    }

    /// The additive inverse.
    pub fn neg(&self) -> (r: Fr)
        ensures
            r@ == field_neg(self@),
    {
        let z = Fr::zero();
        scalar_sub(&z, self)
    }

    /// The element added to itself.
    pub fn double(&self) -> (r: Fr)
        ensures
            r@ == field_add(self@, self@),
    {
        scalar_add(self, self)
    }

    /// The element multiplied by itself.
    pub fn square(&self) -> (r: Fr)
        ensures
            r@ == field_mul(self@, self@),
    {
        scalar_mul(self, self)
    }

    /// The multiplicative inverse, which every element but zero has.
    pub fn invert(&self) -> (r: Option<Fr>)
        ensures
            r is None <==> self@ == 0,
            r is Some ==> field_mul(r.unwrap()@, self@) == 1 && r.unwrap()@ == field_inv(self@),
    {
        proof {
            use_type_invariant(self);
            lemma_small_mod(self@, modulus());
        }
        let r = scalar_invert(self);
        proof {
            if let Some(w) = r {
                lemma_inverse_found(self@, w@);
            }
        }
        r
    }

    /// A square root, if the element is a square.
    pub fn sqrt(&self) -> (r: Option<Fr>)
        ensures
            r is Some ==> field_mul(r.unwrap()@, r.unwrap()@) == self@,
            r is None ==> forall|x: nat| #[trigger] field_mul(x, x) != self@,
    {
        proof {
            use_type_invariant(self);
            lemma_small_mod(self@, modulus());
        }
        scalar_sqrt(self)
    }
}

} // verus!
