use bellman::gadgets::num::AllocatedNum as BellmanNum;
use bellman::gadgets::test::TestConstraintSystem;
use bellman::ConstraintSystem as BellmanSystem;
use bls12_381::Scalar;
use zeekit::bigint::{combine, digits_to_scalar, scalar_digits};
use zeekit::common::mux::mux;
use zeekit::common::number::Number;
use zeekit::common::strict::to_bits_le_strict;
use zeekit::common::uint::UnsignedInteger;
use zeekit::common::wire::{AllocatedBit, AllocatedNum, Boolean};
use zeekit::common::{
    assert_equal, assert_equal_if_enabled, assert_true, assert_true_if_enabled, is_zero, not,
};
use zeekit::cs::{ConstraintSystem, SynthesisError};
use zeekit::eddsa::curve::{CurveParams, PointAffine, PointCompressed};
use zeekit::field::Fr;
use zeekit::lc::Variable;
use zeekit::mimc;
use zeekit::poseidon::{
    add_constants, chunk_count, full_round, hash, hash_chain, partial_round, poseidon,
    poseidon_chain, product_mds, sbox, PoseidonParams,
};

fn fr(v: u64) -> Fr {
    Fr::from_u64(v)
}

fn to_scalar(f: &Fr) -> Scalar {
    Scalar::from_raw(f.to_limbs())
}

const MODULUS: [u64; 4] = [
    0xffff_ffff_0000_0001,
    0x53bd_a402_fffe_5bfe,
    0x3339_d808_09a1_d805,
    0x73ed_a753_299d_7d48,
];

fn minus_one() -> Fr {
    Fr::from_limbs([MODULUS[0] - 1, MODULUS[1], MODULUS[2], MODULUS[3]]).unwrap()
}

/// The Jubjub constants `a = -1` and `d = -(10240/10241)`, with a base point found
/// from a small abscissa and multiplied into the prime-order subgroup.
fn curve() -> CurveParams {
    let a = fr(1).neg();
    let d = fr(10240).mul(&fr(10241).invert().unwrap()).neg();
    let mut c = CurveParams {
        a,
        d,
        base: PointAffine(fr(0), fr(1)),
        base_cofactor: PointAffine(fr(0), fr(1)),
    };
    let mut x = 2u64;
    let any = loop {
        if let Some(p) = PointCompressed(fr(x), false).decompress(&c) {
            if p.is_on_curve(&c) {
                break p;
            }
        }
        x += 1;
    };
    c.base = any.mul_cofactor(&c);
    c.base_cofactor = c.base.mul_cofactor(&c);
    c
}

#[test]
fn test_public_key_compression() {
    let c = curve();
    let point = c.base.multiply(&fr(123), &c);
    let back = point.compress().decompress(&c).unwrap();

    assert_eq!(point, back);
}

#[test]
fn compression_keeps_the_parity_of_the_ordinate() {
    let c = curve();
    for k in 1..20u64 {
        let p = c.base.multiply(&fr(k), &c);
        let q = PointAffine(p.0, p.1.neg());
        assert_ne!(p.compress().1, q.compress().1);
        assert_eq!(p.compress().decompress(&c), Some(p));
        assert_eq!(q.compress().decompress(&c), Some(q));
    }
}

#[test]
fn decompress_finds_no_point_where_the_abscissa_has_none() {
    let c = curve();
    let mut misses = 0;
    for x in 2..40u64 {
        match PointCompressed(fr(x), false).decompress(&c) {
            Some(p) => assert!(p.is_on_curve(&c)),
            None => misses += 1,
        }
    }
    assert!(misses > 0);
}

#[test]
fn field_addition_subtraction_multiplication() {
    assert_eq!(fr(2).add(&fr(3)), fr(5));
    assert_eq!(fr(5).sub(&fr(3)), fr(2));
    assert_eq!(fr(6).mul(&fr(7)), fr(42));
    assert_eq!(fr(0).sub(&fr(1)), minus_one());
    assert_eq!(minus_one().add(&fr(1)), Fr::zero());
    assert_eq!(minus_one().add(&fr(2)), Fr::one());
    assert_eq!(minus_one().mul(&minus_one()), Fr::one());
    assert_eq!(fr(9).neg().add(&fr(9)), Fr::zero());
    assert_eq!(fr(21).double(), fr(42));
    assert_eq!(fr(12).square(), fr(144));
    assert_eq!(Fr::zero().neg(), Fr::zero());
}

#[test]
fn field_inverse_and_square_root() {
    assert_eq!(Fr::zero().invert(), None);
    assert_eq!(fr(1).invert(), Some(fr(1)));
    let half = fr(2).invert().unwrap();
    assert_ne!(half, fr(2));
    assert_eq!(half.mul(&fr(2)), Fr::one());
    assert_eq!(half.add(&half), Fr::one());

    let root = fr(4).sqrt().unwrap();
    assert!(root == fr(2) || root == fr(2).neg());
    assert_eq!(fr(0).sqrt(), Some(fr(0)));
    let root = fr(1234567).square().sqrt().unwrap();
    assert!(root == fr(1234567) || root == fr(1234567).neg());
    // 7 generates the multiplicative group and so is no square
    assert_eq!(fr(7).sqrt(), None);
}

#[test]
fn field_limbs_bits_and_powers() {
    assert_eq!(Fr::from_limbs(MODULUS), None);
    assert_eq!(Fr::from_limbs([0, 0, 0, u64::MAX]), None);
    assert_eq!(minus_one().to_limbs(), [MODULUS[0] - 1, MODULUS[1], MODULUS[2], MODULUS[3]]);
    assert_eq!(fr(77).to_limbs(), [77, 0, 0, 0]);
    assert!(Fr::zero().is_zero());
    assert!(!Fr::one().is_zero());
    assert!(fr(5).equals(&fr(5)));
    assert!(!fr(5).equals(&fr(6)));

    let v = fr(0b1011);
    assert_eq!(
        (0..6).map(|i| v.bit(i)).collect::<Vec<bool>>(),
        vec![true, true, false, true, false, false]
    );
    for i in 0..255 {
        let p = Fr::power_of_two(i);
        for j in 0..256 {
            assert_eq!(p.bit(j), i == j);
        }
    }
    assert_eq!(Fr::power_of_two(10), fr(1024));
    // 2^255 wraps around the field order
    assert_eq!(Fr::power_of_two(255), Fr::power_of_two(254).double());
    assert!(minus_one().bit(254));
    assert!(!minus_one().bit(255));
}

#[test]
fn field_agrees_with_the_scalar_type() {
    let a = fr(0xdead_beef).mul(&minus_one()).add(&fr(17));
    let b = fr(0x1234_5678_9abc_def0).invert().unwrap();
    let (sa, sb) = (to_scalar(&a), to_scalar(&b));
    assert_eq!(to_scalar(&a.add(&b)), sa + sb);
    assert_eq!(to_scalar(&a.sub(&b)), sa - sb);
    assert_eq!(to_scalar(&a.mul(&b)), sa * sb);
    assert_eq!(to_scalar(&a.neg()), -sa);
    assert_eq!(to_scalar(&a.invert().unwrap()), sa.invert().unwrap());
    assert_eq!(to_scalar(&fr(5)), Scalar::from(5));
}

fn terms(n: &Number) -> Vec<(Variable, Fr)> {
    n.get_lc().terms()
}

#[test]
fn linear_terms_move_combination_and_value_together() {
    let mut cs = ConstraintSystem::new(true);
    let x = AllocatedNum::allocate(&mut cs, Some(fr(10))).unwrap();
    let y = AllocatedNum::allocate(&mut cs, Some(fr(3))).unwrap();
    let (vx, vy) = (Variable::Aux(0), Variable::Aux(1));
    assert_eq!(x.get_variable(), vx);
    assert_eq!(y.get_variable(), vy);
    let one = Variable::Input(0);

    assert_eq!(terms(&Number::zero()), vec![]);
    assert_eq!(Number::zero().get_value(), Some(fr(0)));
    assert_eq!(terms(&Number::one()), vec![(one, fr(1))]);
    assert_eq!(terms(&Number::constant(fr(9))), vec![(one, fr(9))]);
    assert_eq!(Number::constant(fr(9)).get_value(), Some(fr(9)));

    let nx = Number::from_num(x);
    let ny = Number::from_num(y);
    assert_eq!(terms(&nx), vec![(vx, fr(1))]);

    let s = nx.clone().add(ny.clone());
    assert_eq!(terms(&s), vec![(vx, fr(1)), (vy, fr(1))]);
    assert_eq!(s.get_value(), Some(fr(13)));

    let d = nx.clone().sub(ny.clone());
    assert_eq!(terms(&d), vec![(vx, fr(1)), (vy, fr(1).neg())]);
    assert_eq!(d.get_value(), Some(fr(7)));

    let dd = d.clone().sub(d.clone());
    assert_eq!(
        terms(&dd),
        vec![(vx, fr(1)), (vy, fr(1).neg()), (vx, fr(1).neg()), (vy, fr(1))]
    );
    assert_eq!(dd.get_value(), Some(fr(0)));

    let mut t = Number::from_scaled(fr(5), x);
    assert_eq!(terms(&t), vec![(vx, fr(5))]);
    assert_eq!(t.get_value(), Some(fr(50)));
    t.add_constant(fr(4));
    assert_eq!(terms(&t), vec![(vx, fr(5)), (one, fr(4))]);
    assert_eq!(t.get_value(), Some(fr(54)));
    t.add_num(fr(2), &y);
    assert_eq!(terms(&t), vec![(vx, fr(5)), (one, fr(4)), (vy, fr(2))]);
    assert_eq!(t.get_value(), Some(fr(60)));
    assert_eq!(cs.eval(t.get_lc()), fr(60));

    let product = s.mul(&mut cs, &d).unwrap();
    assert_eq!(product.get_value(), Some(fr(91)));
    assert_eq!(product.get_variable(), Variable::Aux(2));
    assert_eq!(cs.num_constraints(), 1);
    let (a, b, c) = cs.constraint(0);
    assert_eq!(a, terms(&s));
    assert_eq!(b, terms(&d));
    assert_eq!(c, vec![(Variable::Aux(2), fr(1))]);

    let compressed = t.compress(&mut cs).unwrap();
    assert_eq!(compressed.get_value(), Some(fr(60)));
    assert_eq!(cs.num_constraints(), 2);
    assert!(cs.is_satisfied());

    let bit = AllocatedBit::allocate(&mut cs, Some(true)).unwrap();
    assert_eq!(Number::from_bit(bit).get_value(), Some(fr(1)));
    let u = UnsignedInteger::constrain(&mut cs, x, 4).unwrap();
    assert_eq!(Number::from_uint(&u).get_value(), Some(fr(10)));
    assert_eq!(terms(&Number::from_uint(&u)), vec![(vx, fr(1))]);
    assert_eq!(u.num_bits(), 4);
    assert_eq!(u.get_value(), Some(fr(10)));
    assert_eq!(u.get_variable(), vx);
    assert_eq!(
        u.bits().iter().map(|b| b.get_value().unwrap()).collect::<Vec<bool>>(),
        vec![false, true, false, true]
    );
    assert!(cs.is_satisfied());
}

#[test]
fn a_missing_witness_fails_only_while_proving() {
    let mut proving = ConstraintSystem::new(true);
    assert_eq!(
        AllocatedNum::allocate(&mut proving, None).err(),
        Some(SynthesisError::AssignmentMissing)
    );
    assert_eq!(
        AllocatedBit::allocate(&mut proving, None).err(),
        Some(SynthesisError::AssignmentMissing)
    );
    assert_eq!(proving.num_aux(), 0);
    let x = AllocatedNum::allocate(&mut proving, Some(fr(2))).unwrap();
    let unknown = Number(Number::from_num(x).get_lc().clone_terms(), None);
    assert_eq!(
        unknown.mul(&mut proving, &Number::one()).err(),
        Some(SynthesisError::AssignmentMissing)
    );
    assert_eq!(is_zero(&mut proving, &unknown).err(), Some(SynthesisError::AssignmentMissing));

    let mut structure = ConstraintSystem::new(false);
    let x = AllocatedNum::allocate(&mut structure, Some(fr(2))).unwrap();
    assert_eq!(x.get_value(), None);
    let y = AllocatedNum::allocate(&mut structure, None).unwrap();
    let z = x.mul(&mut structure, &y).unwrap();
    assert_eq!(z.get_value(), None);
    assert_eq!(structure.num_aux(), 3);
    assert_eq!(structure.num_constraints(), 1);
    assert!(!structure.is_proving());
}

#[test]
fn zero_test_and_negation() {
    for (v, expected) in [(0u64, true), (1, false), (123, false)] {
        let mut cs = ConstraintSystem::new(true);
        let x = AllocatedNum::allocate(&mut cs, Some(fr(v))).unwrap();
        let z = is_zero(&mut cs, &Number::from_num(x)).unwrap();
        assert_eq!(z.get_value(), Some(expected));
        assert_eq!(cs.num_constraints(), 3);
        let n = not(&mut cs, z).unwrap();
        assert_eq!(n.get_value(), Some(!expected));
        assert!(cs.is_satisfied());
    }
    let mut cs = ConstraintSystem::new(true);
    let x = AllocatedNum::allocate(&mut cs, Some(minus_one())).unwrap();
    let y = AllocatedNum::allocate(&mut cs, Some(fr(0).sub(&fr(1)))).unwrap();
    let e = zeekit::common::is_equal(&mut cs, &Number::from_num(x), &Number::from_num(y)).unwrap();
    assert_eq!(e.get_value(), Some(true));
    let zero = zeekit::common::is_equal(&mut cs, &Number::zero(), &Number::zero()).unwrap();
    assert_eq!(zero.get_value(), Some(true));
    assert!(cs.is_satisfied());
}

#[test]
fn multiplexer_picks_by_the_bit() {
    for s in [false, true] {
        let mut cs = ConstraintSystem::new(true);
        let bit = AllocatedBit::allocate(&mut cs, Some(s)).unwrap();
        let a = Number::constant(fr(10));
        let b = Number::constant(fr(20));
        let before = cs.num_constraints();
        let r = mux(&mut cs, &Boolean::Is(bit), &a, &b).unwrap();
        assert_eq!(cs.num_constraints() - before, 1);
        assert_eq!(r.get_value(), Some(if s { fr(20) } else { fr(10) }));
        let r = mux(&mut cs, &Boolean::Not(bit), &a, &b).unwrap();
        assert_eq!(r.get_value(), Some(if s { fr(10) } else { fr(20) }));
        assert!(cs.is_satisfied());
    }
}

#[test]
fn gated_assertions() {
    for (enabled, a, b, expected) in [
        (true, 5u64, 5u64, true),
        (true, 5, 6, false),
        (false, 5, 5, true),
        (false, 5, 6, true),
    ] {
        let mut cs = ConstraintSystem::new(true);
        let e = AllocatedBit::allocate(&mut cs, Some(enabled)).unwrap();
        let x = AllocatedNum::allocate(&mut cs, Some(fr(a))).unwrap();
        let y = AllocatedNum::allocate(&mut cs, Some(fr(b))).unwrap();
        assert_equal(&mut cs, e, x, y).unwrap();
        assert_eq!(cs.is_satisfied(), expected);

        let mut cs = ConstraintSystem::new(true);
        let e = AllocatedBit::allocate(&mut cs, Some(enabled)).unwrap();
        let x = AllocatedNum::allocate(&mut cs, Some(fr(a))).unwrap();
        let y = AllocatedNum::allocate(&mut cs, Some(fr(b))).unwrap();
        assert_equal_if_enabled(
            &mut cs,
            &Boolean::Is(e),
            &Number::from_num(x),
            &Number::from_num(y),
        )
        .unwrap();
        assert_eq!(cs.is_satisfied(), expected);

        let mut cs = ConstraintSystem::new(true);
        assert_equal_if_enabled(
            &mut cs,
            &Boolean::Constant(enabled),
            &Number::constant(fr(a)),
            &Number::constant(fr(b)),
        )
        .unwrap();
        assert_eq!(cs.num_constraints(), if enabled { 1 } else { 0 });
        assert_eq!(cs.is_satisfied(), expected);
    }
    for (enabled, cond, expected) in
        [(true, true, true), (true, false, false), (false, true, true), (false, false, true)]
    {
        let mut cs = ConstraintSystem::new(true);
        let e = AllocatedBit::allocate(&mut cs, Some(enabled)).unwrap();
        let c = AllocatedBit::allocate(&mut cs, Some(cond)).unwrap();
        assert_true_if_enabled(&mut cs, &Boolean::Is(e), &Boolean::Not(c).not()).unwrap();
        assert_eq!(cs.is_satisfied(), expected);
    }
    for cond in [true, false] {
        let mut cs = ConstraintSystem::new(true);
        let c = AllocatedBit::allocate(&mut cs, Some(cond)).unwrap();
        assert_true(&mut cs, &Boolean::Is(c));
        assert_eq!(cs.is_satisfied(), cond);
    }
}

#[test]
fn boolean_conjunction_in_every_form() {
    for a in [false, true] {
        for b in [false, true] {
            let mut cs = ConstraintSystem::new(true);
            let x = AllocatedBit::allocate(&mut cs, Some(a)).unwrap();
            let y = AllocatedBit::allocate(&mut cs, Some(b)).unwrap();
            let forms = [
                (Boolean::Is(x), Boolean::Is(y), a && b),
                (Boolean::Is(x), Boolean::Not(y), a && !b),
                (Boolean::Not(x), Boolean::Is(y), !a && b),
                (Boolean::Not(x), Boolean::Not(y), !a && !b),
                (Boolean::Constant(true), Boolean::Is(y), b),
                (Boolean::Is(x), Boolean::Constant(false), false),
            ];
            for (p, q, expected) in forms {
                let r = Boolean::and(&mut cs, &p, &q).unwrap();
                assert_eq!(r.get_value(), Some(expected));
            }
            assert_eq!(cs.num_constraints(), 2 + 4);
            assert!(cs.is_satisfied());
        }
    }
}

#[test]
fn comparisons_of_eight_bit_numbers() {
    for (a, b) in [(0u64, 0u64), (123, 0), (122, 123), (123, 123), (124, 123), (253, 253), (254, 253), (0, 255), (255, 0)] {
        let mut cs = ConstraintSystem::new(true);
        let x = AllocatedNum::allocate(&mut cs, Some(fr(a))).unwrap();
        let y = AllocatedNum::allocate(&mut cs, Some(fr(b))).unwrap();
        let x = UnsignedInteger::constrain(&mut cs, x, 8).unwrap();
        let y = UnsignedInteger::constrain(&mut cs, y, 8).unwrap();
        let before = cs.num_constraints();
        assert_eq!(x.lt(&mut cs, &y).unwrap().get_value(), Some(a < b));
        assert_eq!(cs.num_constraints() - before, 8 + 4);
        assert_eq!(x.gt(&mut cs, &y).unwrap().get_value(), Some(a > b));
        assert_eq!(x.lte(&mut cs, &y).unwrap().get_value(), Some(a <= b));
        assert_eq!(x.gte(&mut cs, &y).unwrap().get_value(), Some(a >= b));
        assert!(cs.is_satisfied());
    }
    let mut cs = ConstraintSystem::new(true);
    let x = AllocatedNum::allocate(&mut cs, Some(fr(256))).unwrap();
    UnsignedInteger::constrain(&mut cs, x, 8).unwrap();
    assert!(!cs.is_satisfied());
}

#[test]
fn strict_bits_are_the_bits_of_the_value() {
    for v in [Fr::zero(), Fr::one(), fr(0xdead_beef_1234), minus_one(), minus_one().sub(&fr(5))] {
        let mut cs = ConstraintSystem::new(true);
        let x = AllocatedNum::allocate(&mut cs, Some(v)).unwrap();
        let bits = to_bits_le_strict(&mut cs, &x).unwrap();
        assert_eq!(bits.len(), 255);
        for (i, b) in bits.iter().enumerate() {
            assert_eq!(b.get_value(), Some(v.bit(i)));
        }
        assert!(cs.is_satisfied());

        let mut theirs = TestConstraintSystem::<Scalar>::new();
        let n = BellmanNum::alloc(theirs.namespace(|| "x"), || Ok(to_scalar(&v))).unwrap();
        let their_bits = n.to_bits_le_strict(theirs.namespace(|| "bits")).unwrap();
        assert_eq!(their_bits.len(), bits.len());
        for (a, b) in their_bits.iter().zip(bits.iter()) {
            assert_eq!(a.get_value(), b.get_value());
        }
        assert_eq!(theirs.num_constraints(), cs.num_constraints());
        assert!(theirs.is_satisfied());
    }
}

#[test]
fn scalar_of_a_signature_is_reduced_by_the_order() {
    assert_eq!(combine(&fr(5), &fr(7), &fr(11), &vec![13]), Some(fr(4)));
    assert_eq!(combine(&fr(5), &fr(7), &fr(11), &vec![83]), Some(fr(82)));
    assert_eq!(combine(&fr(5), &fr(7), &fr(11), &vec![82]), Some(fr(0)));
    // (p - 1) + (p - 1)^2 = p * (p - 1), a multiple of p - 1
    let m = minus_one();
    assert_eq!(combine(&m, &m, &m, &scalar_digits(&m)), Some(fr(0)));
    // modulo 2^256 + 1 nothing below the field order is left out, but the residue
    // may be too large for a field element
    let wide = vec![1, 0, 0, 0, 0, 0, 0, 0, 1];
    assert_eq!(combine(&fr(5), &fr(7), &fr(11), &wide), Some(fr(82)));
    assert_eq!(combine(&m, &m, &m, &wide), None);

    assert_eq!(scalar_digits(&fr(0x1_0000_0002)), vec![2, 1, 0, 0, 0, 0, 0, 0]);
    assert_eq!(digits_to_scalar(&vec![2, 1]), Some(fr(0x1_0000_0002)));
    assert_eq!(digits_to_scalar(&vec![]), Some(fr(0)));
    assert_eq!(digits_to_scalar(&vec![7, 0, 0, 0, 0, 0, 0, 0, 0, 0]), Some(fr(7)));
    assert_eq!(digits_to_scalar(&vec![0, 0, 0, 0, 0, 0, 0, 0, 1]), None);
    assert_eq!(digits_to_scalar(&scalar_digits(&m)), Some(m));
}

fn double_mimc_by_scalars(xl: Scalar, xr: Scalar) -> Scalar {
    let (mut xl, mut xr) = (xl, xr);
    for i in 0..322u64 {
        let t = xl + Scalar::from(i);
        let next = t.square() * t + xr;
        xr = xl;
        xl = next;
    }
    xl
}

#[test]
fn mimc_on_values_and_as_constraints() {
    let (a, b, c) = (fr(123), fr(234), fr(345));
    let h = mimc::double_mimc(a, b);
    assert_eq!(to_scalar(&h), double_mimc_by_scalars(Scalar::from(123), Scalar::from(234)));
    assert_ne!(h, mimc::double_mimc(b, a));
    let h3 = mimc::mimc(&vec![a, b, c]);
    assert_eq!(h3, mimc::double_mimc(h, c));
    assert_eq!(mimc::mimc(&vec![a, b]), h);

    let mut cs = ConstraintSystem::new(true);
    let x = AllocatedNum::allocate(&mut cs, Some(a)).unwrap();
    let y = AllocatedNum::allocate(&mut cs, Some(b)).unwrap();
    let z = AllocatedNum::allocate(&mut cs, Some(c)).unwrap();
    let g = mimc::groth16::double_mimc(&mut cs, x, y).unwrap();
    assert_eq!(g.get_value(), Some(h));
    assert_eq!(cs.num_constraints(), 2 * 322);
    let g3 = mimc::groth16::mimc(&mut cs, &vec![x, y, z]).unwrap();
    assert_eq!(g3.get_value(), Some(h3));
    assert!(cs.is_satisfied());
}

#[test]
fn recording_twice_gives_the_same_system() {
    let record = || {
        let mut cs = ConstraintSystem::new(true);
        let x = AllocatedNum::allocate(&mut cs, Some(fr(77))).unwrap();
        let y = AllocatedNum::allocate(&mut cs, Some(fr(78))).unwrap();
        let x = UnsignedInteger::constrain(&mut cs, x, 8).unwrap();
        let y = UnsignedInteger::constrain(&mut cs, y, 8).unwrap();
        let r = x.lte(&mut cs, &y).unwrap();
        let m = mux(&mut cs, &Boolean::Is(r), &Number::from_uint(&x), &Number::from_uint(&y)).unwrap();
        mimc::groth16::double_mimc(&mut cs, m, x.get_num()).unwrap();
        cs
    };
    let (a, b) = (record(), record());
    assert_eq!(a.num_inputs(), b.num_inputs());
    assert_eq!(a.num_aux(), b.num_aux());
    assert_eq!(a.num_constraints(), b.num_constraints());
    for i in 0..a.num_aux() {
        assert_eq!(a.aux_value(i), b.aux_value(i));
    }
    for i in 0..a.num_constraints() {
        assert_eq!(a.constraint(i), b.constraint(i));
    }
    assert_eq!(a.input_value(0), Some(Fr::one()));
    assert_eq!(ConstraintSystem::one(), Variable::Input(0));
    assert_eq!(a.value(Variable::Aux(0)), fr(77));
    assert!(a.is_satisfied());
}

/// Parameters without round constants and with the identity for a matrix, so that a
/// full round is the fifth power of every slot.
fn plain_params(width: usize, full: usize, partial: usize) -> PoseidonParams {
    let mut mds_constants = Vec::new();
    for j in 0..width {
        mds_constants.push((0..width).map(|k| if j == k { fr(1) } else { fr(0) }).collect());
    }
    PoseidonParams {
        full_rounds: full,
        partial_rounds: partial,
        round_constants: vec![fr(0); (full + partial) * width],
        mds_constants,
    }
}

fn small_params() -> PoseidonParams {
    PoseidonParams {
        full_rounds: 2,
        partial_rounds: 1,
        round_constants: (1..=9).map(fr).collect(),
        mds_constants: vec![
            vec![fr(1), fr(2), fr(3)],
            vec![fr(4), fr(5), fr(6)],
            vec![fr(7), fr(8), fr(10)],
        ],
    }
}

#[test]
fn hash_with_plain_parameters_is_a_power() {
    // two full rounds: x -> x^5 -> x^25
    assert_eq!(hash(&plain_params(2, 2, 0), &vec![fr(2)]), fr(33554432));
    // a partial round leaves slot 1 alone
    assert_eq!(hash(&plain_params(2, 2, 3), &vec![fr(2)]), fr(33554432));
    // without rounds the hash is the first input
    assert_eq!(hash(&plain_params(3, 0, 0), &vec![fr(11), fr(12)]), fr(11));
    // an odd number of full rounds is split evenly: one round is dropped
    assert_eq!(hash(&plain_params(2, 3, 0), &vec![fr(2)]), fr(33554432));
}

#[test]
fn rounds_step_by_step() {
    let p = small_params();
    let mut cs = ConstraintSystem::new(true);
    let x = AllocatedNum::allocate(&mut cs, Some(fr(3))).unwrap();
    let y = AllocatedNum::allocate(&mut cs, Some(fr(5))).unwrap();
    let state = || vec![Number::zero(), Number::from_num(x), Number::from_num(y)];

    let fifth = sbox(&mut cs, &Number::from_num(x)).unwrap();
    assert_eq!(fifth.get_value(), Some(fr(243)));
    assert_eq!(cs.num_constraints(), 3);

    let mut shifted = state();
    add_constants(&mut shifted, &p, 3);
    assert_eq!(
        shifted.iter().map(|n| n.get_value().unwrap()).collect::<Vec<Fr>>(),
        vec![fr(4), fr(3 + 5), fr(5 + 6)]
    );
    assert_eq!(
        terms(&shifted[1]),
        vec![(Variable::Aux(0), fr(1)), (Variable::Input(0), fr(5))]
    );

    let mixed = product_mds(state(), &p).unwrap();
    assert_eq!(
        mixed.iter().map(|n| n.get_value().unwrap()).collect::<Vec<Fr>>(),
        vec![fr(2 * 3 + 3 * 5), fr(5 * 3 + 6 * 5), fr(8 * 3 + 10 * 5)]
    );
    assert_eq!(
        terms(&mixed[2]),
        vec![(Variable::Aux(0), fr(8)), (Variable::Aux(1), fr(10))]
    );

    // (0 + 1)^5, (3 + 2)^5, (5 + 3)^5, then the matrix
    let before = cs.num_constraints();
    let full = full_round(&mut cs, &p, 0, state()).unwrap();
    assert_eq!(cs.num_constraints() - before, 9);
    let (a, b, c) = (1u64, 3125, 32768);
    assert_eq!(
        full.iter().map(|n| n.get_value().unwrap()).collect::<Vec<Fr>>(),
        vec![fr(a + 2 * b + 3 * c), fr(4 * a + 5 * b + 6 * c), fr(7 * a + 8 * b + 10 * c)]
    );

    // (0 + 1)^5, 3 + 2, 5 + 3, then the matrix
    let before = cs.num_constraints();
    let partial = partial_round(&mut cs, &p, 0, state()).unwrap();
    assert_eq!(cs.num_constraints() - before, 3 + 2);
    let (a, b, c) = (1u64, 5, 8);
    assert_eq!(
        partial.iter().map(|n| n.get_value().unwrap()).collect::<Vec<Fr>>(),
        vec![fr(a + 2 * b + 3 * c), fr(4 * a + 5 * b + 6 * c), fr(7 * a + 8 * b + 10 * c)]
    );

    let h = poseidon(&mut cs, &p, &vec![Number::from_num(x), Number::from_num(y)]).unwrap();
    assert_eq!(h.get_value(), Some(hash(&p, &vec![fr(3), fr(5)])));
    assert!(cs.is_satisfied());
}

#[test]
fn chained_hash_on_values_and_as_constraints() {
    let p = {
        let mut round_constants = Vec::new();
        let mut x = fr(12);
        for i in 0..(4 + 3) * 5 {
            x = x.mul(&x).add(&fr(i as u64 + 1));
            round_constants.push(x);
        }
        let mut mds_constants = Vec::new();
        for j in 0..5u64 {
            mds_constants.push((0..5u64).map(|k| fr(j + k + 6).invert().unwrap()).collect());
        }
        PoseidonParams { full_rounds: 4, partial_rounds: 3, round_constants, mds_constants }
    };
    for (n, chunks) in [(0usize, 0usize), (1, 1), (3, 1), (4, 2), (6, 2), (7, 3)] {
        assert_eq!(chunk_count(n), chunks);
        let vals: Vec<Fr> = (0..n as u64).map(|i| fr(100 + i)).collect();
        let mut expected = Fr::zero();
        for c in vals.chunks(3) {
            let mut group = vec![expected];
            group.extend_from_slice(c);
            group.resize(4, Fr::zero());
            expected = hash(&p, &group);
        }
        assert_eq!(hash_chain(&p, &vals), expected);

        let mut cs = ConstraintSystem::new(true);
        let nums: Vec<Number> = vals
            .iter()
            .map(|v| Number::from_num(AllocatedNum::allocate(&mut cs, Some(*v)).unwrap()))
            .collect();
        let h = poseidon_chain(&mut cs, &p, &nums).unwrap();
        assert_eq!(h.get_value(), Some(expected));
        assert_eq!(cs.num_constraints(), chunks * (4 * 5 * 3 + 3 * (3 + 4)));
        assert!(cs.is_satisfied());
    }
}

#[test]
fn parameters_are_well_formed_or_not() {
    assert!(small_params().is_well_formed());
    assert!(plain_params(2, 3, 0).is_well_formed());
    assert!(plain_params(6, 8, 56).is_well_formed());
    // one slot is not enough
    assert!(!plain_params(1, 2, 0).is_well_formed());
    // a row too short
    let mut p = small_params();
    p.mds_constants[1].pop();
    assert!(!p.is_well_formed());
    // a round constant too few
    let mut p = small_params();
    p.round_constants.pop();
    assert!(!p.is_well_formed());
    // an odd full round is not run and needs no constants
    let mut p = small_params();
    p.full_rounds = 3;
    assert!(p.is_well_formed());
    p.full_rounds = 4;
    assert!(!p.is_well_formed());
    let mut p = small_params();
    p.partial_rounds = usize::MAX;
    assert!(!p.is_well_formed());
}
