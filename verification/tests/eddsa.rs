use zeekit::common::number::Number;
use zeekit::common::wire::{AllocatedBit, AllocatedNum, Boolean};
use zeekit::cs::ConstraintSystem;
use zeekit::eddsa::curve::{CurveParams, PointAffine, PointCompressed};
use zeekit::eddsa::groth16::{
    add_const_point, add_point, mul_cofactor, mul_const_point, mul_point, verify_eddsa,
    AllocatedPoint,
};
use zeekit::eddsa::{generate_keys, sign, verify, verify_point, Signature};
use zeekit::field::Fr;
use zeekit::poseidon::PoseidonParams;

fn fr(v: u64) -> Fr {
    Fr::from_u64(v)
}

fn params(width: usize, full: usize, partial: usize) -> PoseidonParams {
    let mut round_constants = Vec::new();
    let mut x = fr(7 + width as u64);
    for i in 0..(full + partial) * width {
        x = x.mul(&x).add(&fr(i as u64 + 1));
        round_constants.push(x);
    }
    let mut mds_constants = Vec::new();
    for j in 0..width {
        let mut row = Vec::new();
        for k in 0..width {
            row.push(fr((j + width + k + 1) as u64).invert().unwrap());
        }
        mds_constants.push(row);
    }
    PoseidonParams { full_rounds: full, partial_rounds: partial, round_constants, mds_constants }
}

/// The order of the prime-order subgroup of Jubjub, least significant digit first.
fn order() -> Vec<u32> {
    vec![
        0xd6f72cb7, 0xd0970e5e, 0xccc81082, 0xa6682093, 0x01343b00, 0x06673b01, 0x6533afa9,
        0x0e7db4ea,
    ]
}

fn order_scalar() -> Fr {
    let d = order();
    let mut limbs = [0u64; 4];
    for i in 0..4 {
        limbs[i] = d[2 * i] as u64 + ((d[2 * i + 1] as u64) << 32);
    }
    Fr::from_limbs(limbs).unwrap()
}

/// The Jubjub constants `a = -1` and `d = -(10240/10241)`, with a base point found
/// from a small abscissa and multiplied into the prime-order subgroup.
fn curve() -> CurveParams {
    let a = fr(1).neg();
    let d = fr(10240).mul(&fr(10241).invert().unwrap()).neg();
    let mut c = CurveParams {
        a,
        d,
        base: PointAffine(fr(0), fr(1)),
        base_cofactor: PointAffine(fr(0), fr(1)),
    };
    let mut x = 2u64;
    let any = loop {
        if let Some(p) = PointCompressed(fr(x), false).decompress(&c) {
            if p.is_on_curve(&c) {
                break p;
            }
        }
        x += 1;
    };
    c.base = any.mul_cofactor(&c);
    c.base_cofactor = c.base.mul_cofactor(&c);
    c
}

#[test]
fn base_point_has_the_subgroup_order() {
    let c = curve();
    assert!(c.base.is_on_curve(&c));
    assert_ne!(c.base, PointAffine::zero());
    assert_eq!(c.base.multiply(&order_scalar(), &c), PointAffine::zero());
}

#[test]
fn test_signature_verification() {
    let c = curve();
    let (pk, sk) = generate_keys(&c, fr(123), fr(234));
    let msg = fr(345);
    let fake_msg = fr(456);
    let sig = sign(&c, &params(3, 8, 8), &params(6, 8, 8), &order(), &sk, msg);
    assert!(verify(&c, &params(6, 8, 8), &pk, msg, &sig));
    assert!(!verify(&c, &params(6, 8, 8), &pk, fake_msg, &sig));
}

#[test]
fn point_addition_agrees_with_doubling_and_scalar_multiples() {
    let c = curve();
    let b = c.base;
    let b2 = b.double(&c);
    let b3 = b2.add(&b, &c);
    assert_eq!(b.multiply(&fr(2), &c), b2);
    assert_eq!(b.multiply(&fr(3), &c), b3);
    assert_eq!(b.multiply(&fr(8), &c), b.mul_cofactor(&c));
    assert_eq!(b.multiply(&fr(0), &c), PointAffine::zero());
    assert_eq!(b.add(&PointAffine::zero(), &c), b);
    assert!(b3.is_on_curve(&c));
    assert!(!PointAffine(fr(0), fr(0)).is_on_curve(&c));
}

fn alloc_point(cs: &mut ConstraintSystem, p: PointAffine) -> AllocatedPoint {
    AllocatedPoint::allocate(cs, Some(p)).unwrap()
}

fn value_of(p: &AllocatedPoint) -> PointAffine {
    PointAffine(p.x.get_value().unwrap(), p.y.get_value().unwrap())
}

#[test]
fn curve_gadgets_agree_with_the_curve() {
    let c = curve();
    let p = c.base.multiply(&fr(5), &c);
    let q = c.base.multiply(&fr(11), &c);
    let mut cs = ConstraintSystem::new(true);
    let ap = alloc_point(&mut cs, p);
    let aq = alloc_point(&mut cs, q);

    let before = cs.num_constraints();
    let sum = add_point(&mut cs, &c, &ap, &aq).unwrap();
    assert_eq!(cs.num_constraints() - before, 9);
    assert_eq!(value_of(&sum), p.add(&q, &c));

    let before = cs.num_constraints();
    let sum = add_const_point(&mut cs, &c, &ap, &q).unwrap();
    assert_eq!(cs.num_constraints() - before, 3);
    assert_eq!(value_of(&sum), p.add(&q, &c));

    let eight = mul_cofactor(&mut cs, &c, &ap).unwrap();
    assert_eq!(value_of(&eight), p.mul_cofactor(&c));

    let s = AllocatedNum::allocate(&mut cs, Some(fr(1000003))).unwrap();
    let m = mul_point(&mut cs, &c, &ap, &s).unwrap();
    assert_eq!(value_of(&m), p.multiply(&fr(1000003), &c));
    let m = mul_const_point(&mut cs, &c, &q, &s).unwrap();
    assert_eq!(value_of(&m), q.multiply(&fr(1000003), &c));

    let enabled = Boolean::Is(AllocatedBit::allocate(&mut cs, Some(true)).unwrap());
    ap.assert_on_curve(&mut cs, &c, &enabled).unwrap();
    assert_eq!(ap.is_null(&mut cs).unwrap().get_value(), Some(false));
    assert!(cs.is_satisfied());

    let off = alloc_point(&mut cs, PointAffine(fr(3), fr(4)));
    off.assert_on_curve(&mut cs, &c, &enabled).unwrap();
    assert!(!cs.is_satisfied());
}

#[test]
fn off_curve_point_passes_where_the_check_is_disabled() {
    let c = curve();
    let mut cs = ConstraintSystem::new(true);
    let off = alloc_point(&mut cs, PointAffine(fr(3), fr(4)));
    let disabled = Boolean::Is(AllocatedBit::allocate(&mut cs, Some(false)).unwrap());
    off.assert_on_curve(&mut cs, &c, &disabled).unwrap();
    let null = alloc_point(&mut cs, PointAffine(fr(0), fr(0)));
    assert_eq!(null.is_null(&mut cs).unwrap().get_value(), Some(true));
    assert!(cs.is_satisfied());
}

fn record_verify(
    c: &CurveParams,
    p: &PoseidonParams,
    enabled: bool,
    pk: PointAffine,
    msg: Fr,
    sig: &Signature,
) -> ConstraintSystem {
    let mut cs = ConstraintSystem::new(true);
    let enabled = Boolean::Is(AllocatedBit::allocate(&mut cs, Some(enabled)).unwrap());
    let pk = alloc_point(&mut cs, pk);
    let msg = AllocatedNum::allocate(&mut cs, Some(msg)).unwrap();
    let sig_r = alloc_point(&mut cs, sig.r);
    let sig_s = AllocatedNum::allocate(&mut cs, Some(sig.s)).unwrap();
    verify_eddsa(&mut cs, c, p, &enabled, &pk, &Number::from_num(msg), &sig_r, &sig_s).unwrap();
    cs
}

#[test]
fn signature_gadget_accepts_what_verifies_and_rejects_an_altered_message() {
    let c = curve();
    let p = params(6, 8, 8);
    let (pk, sk) = generate_keys(&c, fr(123), fr(234));
    let msg = fr(345);
    let fake_msg = fr(456);
    let sig = sign(&c, &params(3, 8, 8), &p, &order(), &sk, msg);
    assert!(verify(&c, &p, &pk, msg, &sig));
    assert!(verify_point(&c, &p, &sk.public_key, msg, &sig));

    assert!(record_verify(&c, &p, true, sk.public_key, msg, &sig).is_satisfied());
    assert!(!record_verify(&c, &p, true, sk.public_key, fake_msg, &sig).is_satisfied());
    assert!(record_verify(&c, &p, false, sk.public_key, fake_msg, &sig).is_satisfied());

    let forged = Signature { r: sig.r, s: sig.s.add(&Fr::one()) };
    assert!(!verify(&c, &p, &pk, msg, &forged));
    assert!(!record_verify(&c, &p, true, sk.public_key, msg, &forged).is_satisfied());
}

#[test]
fn signature_gadget_lays_down_the_same_structure_without_a_witness() {
    let c = curve();
    let p = params(6, 8, 8);
    let (_, sk) = generate_keys(&c, fr(123), fr(234));
    let sig = sign(&c, &params(3, 8, 8), &p, &order(), &sk, fr(345));
    let with = record_verify(&c, &p, true, sk.public_key, fr(345), &sig);

    let mut cs = ConstraintSystem::new(false);
    let enabled = Boolean::Is(AllocatedBit::allocate(&mut cs, None).unwrap());
    let pk = alloc_point(&mut cs, sk.public_key);
    let msg = AllocatedNum::allocate(&mut cs, None).unwrap();
    let sig_r = alloc_point(&mut cs, sig.r);
    let sig_s = AllocatedNum::allocate(&mut cs, None).unwrap();
    verify_eddsa(&mut cs, &c, &p, &enabled, &pk, &Number::from_num(msg), &sig_r, &sig_s).unwrap();

    assert_eq!(cs.num_constraints(), with.num_constraints());
    assert_eq!(cs.num_aux(), with.num_aux());
    assert_eq!(cs.num_inputs(), with.num_inputs());
    for i in 0..cs.num_constraints() {
        assert_eq!(cs.constraint(i), with.constraint(i));
    }
    for i in 0..cs.num_aux() {
        assert_eq!(cs.aux_value(i), None);
    }
}
