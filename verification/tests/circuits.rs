use bellman::gadgets::test::TestConstraintSystem;
use bellman::{groth16, Circuit, LinearCombination, SynthesisError, Variable};
use bls12_381::{Bls12, Scalar};
use rand::rngs::OsRng;
use zeekit::common::number::Number;
use zeekit::common::uint::UnsignedInteger;
use zeekit::common::wire::{AllocatedBit, AllocatedNum, Boolean};
use zeekit::common::{boolean_or, extract_bool, is_equal};
use zeekit::cs::ConstraintSystem;
use zeekit::field::Fr;
use zeekit::poseidon::{hash, hash_chain, poseidon, poseidon4, PoseidonParams};
use zeekit::state::{reveal_state, AllocatedState, StateShape};

fn to_scalar(f: &Fr) -> Scalar {
    Scalar::from_raw(f.to_limbs())
}

fn fr(v: u64) -> Fr {
    Fr::from_u64(v)
}

fn bit_scalar(b: bool) -> Fr {
    if b {
        Fr::one()
    } else {
        Fr::zero()
    }
}

/// Round constants and a Cauchy matrix for a state of `width` slots.
fn params(width: usize, full: usize, partial: usize) -> PoseidonParams {
    let mut round_constants = Vec::new();
    let mut x = fr(7 + width as u64);
    for i in 0..(full + partial) * width {
        x = x.mul(&x).add(&fr(i as u64 + 1));
        round_constants.push(x);
    }
    let mut mds_constants = Vec::new();
    for j in 0..width {
        let mut row = Vec::new();
        for k in 0..width {
            row.push(fr((j + width + k + 1) as u64).invert().unwrap());
        }
        mds_constants.push(row);
    }
    PoseidonParams { full_rounds: full, partial_rounds: partial, round_constants, mds_constants }
}

/// Hands a recorded system to a backend: every variable in order, then every
/// constraint over the backend's own variables.
fn replay<CS: bellman::ConstraintSystem<Scalar>>(
    cs: &mut CS,
    rec: &ConstraintSystem,
) -> Result<(), SynthesisError> {
    let mut inputs = vec![CS::one()];
    for i in 1..rec.num_inputs() {
        let v = rec.input_value(i);
        inputs.push(cs.alloc_input(
            || format!("input {}", i),
            || v.map(|f| to_scalar(&f)).ok_or(SynthesisError::AssignmentMissing),
        )?);
    }
    let mut aux = Vec::new();
    for i in 0..rec.num_aux() {
        let v = rec.aux_value(i);
        aux.push(cs.alloc(
            || format!("aux {}", i),
            || v.map(|f| to_scalar(&f)).ok_or(SynthesisError::AssignmentMissing),
        )?);
    }
    let lc = |terms: &Vec<(zeekit::lc::Variable, Fr)>| {
        let mut out = LinearCombination::<Scalar>::zero();
        for (var, coeff) in terms.iter() {
            let v: Variable = match var {
                zeekit::lc::Variable::Input(i) => inputs[*i],
                zeekit::lc::Variable::Aux(i) => aux[*i],
            };
            out = out + (to_scalar(coeff), v);
        }
        out
    };
    for i in 0..rec.num_constraints() {
        let (a, b, c) = rec.constraint(i);
        cs.enforce(|| format!("constraint {}", i), |_| lc(&a), |_| lc(&b), |_| lc(&c));
    }
    Ok(())
}

/// A recorded system as a circuit.
struct Recorded(ConstraintSystem);

impl Circuit<Scalar> for Recorded {
    fn synthesize<CS: bellman::ConstraintSystem<Scalar>>(
        self,
        cs: &mut CS,
    ) -> Result<(), SynthesisError> {
        replay(cs, &self.0)
    }
}

/// Whether the recorded witness satisfies the recorded constraints, by the library's
/// own count and by bellman's test system; the two must agree.
fn satisfied(rec: &ConstraintSystem) -> bool {
    let mut cs = TestConstraintSystem::<Scalar>::new();
    replay(&mut cs, rec).unwrap();
    assert_eq!(cs.num_constraints(), rec.num_constraints());
    assert_eq!(cs.is_satisfied(), rec.is_satisfied());
    rec.is_satisfied()
}

fn enforce_equal(cs: &mut ConstraintSystem, a: &Number, b: &Number) {
    cs.enforce(
        a.get_lc().clone_terms(),
        Number::one().get_lc().clone_terms(),
        b.get_lc().clone_terms(),
    );
}

fn record_is_equal(a: Option<Fr>, b: Option<Fr>, eq: Option<bool>) -> ConstraintSystem {
    let mut cs = ConstraintSystem::new(a.is_some());
    let a = AllocatedNum::allocate(&mut cs, a).unwrap();
    a.inputize(&mut cs).unwrap();
    let b = AllocatedNum::allocate(&mut cs, b).unwrap();
    b.inputize(&mut cs).unwrap();
    let eq = AllocatedNum::allocate(&mut cs, eq.map(bit_scalar)).unwrap();
    eq.inputize(&mut cs).unwrap();

    let res_bool = is_equal(&mut cs, &Number::from_num(a), &Number::from_num(b)).unwrap();
    let res = extract_bool(&Boolean::Is(res_bool));
    enforce_equal(&mut cs, &res, &Number::from_num(eq));
    cs
}

fn run_is_equal() {
    let params = groth16::generate_random_parameters::<Bls12, _, _>(
        Recorded(record_is_equal(None, None, None)),
        &mut OsRng,
    )
    .unwrap();

    let pvk = groth16::prepare_verifying_key(&params.vk);

    for (a, b, eq, expected) in [
        (123, 123, false, false),
        (123, 123, true, true),
        (123, 234, false, true),
        (123, 234, true, false),
    ] {
        let rec = record_is_equal(Some(fr(a)), Some(fr(b)), Some(eq));
        assert_eq!(satisfied(&rec), expected);
        let proof = groth16::create_random_proof(Recorded(rec), &params, &mut OsRng).unwrap();
        assert_eq!(
            groth16::verify_proof(
                &pvk,
                &proof,
                &[to_scalar(&fr(a)), to_scalar(&fr(b)), to_scalar(&bit_scalar(eq))]
            )
            .is_ok(),
            expected
        );
    }
}

#[test]
fn test_is_equal_circuit() {
    run_is_equal();
}

#[test]
fn groth16_test_is_equal_circuit() {
    run_is_equal();
}

#[test]
fn test_test_is_equal_circuit() {
    run_is_equal();
}

fn record_lte(num_bits: usize, a: Option<Fr>, b: Option<Fr>, is_lte: Option<bool>) -> ConstraintSystem {
    let mut cs = ConstraintSystem::new(a.is_some());
    let a = AllocatedNum::allocate(&mut cs, a).unwrap();
    a.inputize(&mut cs).unwrap();
    let a_64 = UnsignedInteger::constrain(&mut cs, a, num_bits).unwrap();
    let b = AllocatedNum::allocate(&mut cs, b).unwrap();
    b.inputize(&mut cs).unwrap();
    let b_64 = UnsignedInteger::constrain(&mut cs, b, num_bits).unwrap();
    let is_lte = AllocatedNum::allocate(&mut cs, is_lte.map(bit_scalar)).unwrap();
    is_lte.inputize(&mut cs).unwrap();

    let res_bool = a_64.lte(&mut cs, &b_64).unwrap();
    let res = extract_bool(&Boolean::Is(res_bool));
    enforce_equal(&mut cs, &res, &Number::from_num(is_lte));
    cs
}

fn run_lte() {
    let params = groth16::generate_random_parameters::<Bls12, _, _>(
        Recorded(record_lte(8, None, None, None)),
        &mut OsRng,
    )
    .unwrap();

    let pvk = groth16::prepare_verifying_key(&params.vk);

    for (a, b, eq, expected) in [
        (0, 0, true, true),
        (0, 0, false, false),
        (0, 123, true, true),
        (0, 123, false, false),
        (123, 0, true, false),
        (123, 0, false, true),
        (122, 123, true, true),
        (123, 123, true, true),
        (124, 123, false, true),
        (122, 123, false, false),
        (123, 123, false, false),
        (124, 123, true, false),
        (252, 253, true, true),
        (253, 253, true, true),
        (254, 253, false, true),
        (252, 253, false, false),
        (253, 253, false, false),
        (254, 253, true, false),
        (254, 255, true, true),
        (255, 256, false, false),
        (255, 256, true, false),
        (256, 255, false, false),
        (256, 255, true, false),
        (255, 257, false, false),
        (255, 257, true, false),
        (257, 255, false, false),
        (257, 255, true, false),
    ] {
        let rec = record_lte(8, Some(fr(a)), Some(fr(b)), Some(eq));
        assert_eq!(satisfied(&rec), expected);
        let proof = groth16::create_random_proof(Recorded(rec), &params, &mut OsRng).unwrap();
        assert_eq!(
            groth16::verify_proof(
                &pvk,
                &proof,
                &[to_scalar(&fr(a)), to_scalar(&fr(b)), to_scalar(&bit_scalar(eq))]
            )
            .is_ok(),
            expected
        );
    }
}

#[test]
fn test_lte_circuit() {
    run_lte();
}

#[test]
fn groth16_test_lte_circuit() {
    run_lte();
}

#[test]
fn test_test_lte_circuit() {
    run_lte();
}

fn record_or(a: Option<bool>, b: Option<bool>, or_result: Option<bool>) -> ConstraintSystem {
    let mut cs = ConstraintSystem::new(a.is_some());
    let a = Boolean::Is(AllocatedBit::allocate(&mut cs, a).unwrap());
    let b = Boolean::Is(AllocatedBit::allocate(&mut cs, b).unwrap());
    let expected = AllocatedNum::allocate(&mut cs, or_result.map(bit_scalar)).unwrap();
    expected.inputize(&mut cs).unwrap();
    let or = boolean_or(&mut cs, &a, &b).unwrap();
    let or_num = extract_bool(&or);
    or_num.assert_equal(&mut cs, &Number::from_num(expected));
    cs
}

#[test]
fn test_or_circuit() {
    let params = groth16::generate_random_parameters::<Bls12, _, _>(
        Recorded(record_or(None, None, None)),
        &mut OsRng,
    )
    .unwrap();

    let pvk = groth16::prepare_verifying_key(&params.vk);

    for (a, b, or, expected) in [
        (false, false, false, true),
        (true, false, true, true),
        (false, true, true, true),
        (true, true, true, true),
        (false, false, true, false),
        (true, false, false, false),
        (false, true, false, false),
        (true, true, false, false),
    ] {
        let rec = record_or(Some(a), Some(b), Some(or));
        assert_eq!(satisfied(&rec), expected);
        let proof = groth16::create_random_proof(Recorded(rec), &params, &mut OsRng).unwrap();
        assert_eq!(
            groth16::verify_proof(&pvk, &proof, &[to_scalar(&bit_scalar(or))]).is_ok(),
            expected
        );
    }
}

fn record_poseidon4(vals: Option<[Fr; 4]>, out: Option<Fr>) -> ConstraintSystem {
    let mut cs = ConstraintSystem::new(out.is_some());
    let out = AllocatedNum::allocate(&mut cs, out).unwrap();
    out.inputize(&mut cs).unwrap();
    let mut nums = Vec::new();
    for i in 0..4 {
        nums.push(Number::from_num(
            AllocatedNum::allocate(&mut cs, vals.map(|v| v[i])).unwrap(),
        ));
    }
    let res = poseidon(&mut cs, &params(5, 8, 56), &nums).unwrap();
    enforce_equal(&mut cs, &Number::from_num(out), &res);
    cs
}

fn run_poseidon4() {
    let params_ = groth16::generate_random_parameters::<Bls12, _, _>(
        Recorded(record_poseidon4(None, None)),
        &mut OsRng,
    )
    .unwrap();

    let pvk = groth16::prepare_verifying_key(&params_.vk);

    let expected = hash(&params(5, 8, 56), &vec![fr(123), fr(234), fr(345), fr(456)]);

    let rec = record_poseidon4(Some([fr(123), fr(234), fr(345), fr(456)]), Some(expected));
    assert!(satisfied(&rec));
    let proof = groth16::create_random_proof(Recorded(rec), &params_, &mut OsRng).unwrap();
    assert!(groth16::verify_proof(&pvk, &proof, &[to_scalar(&expected)]).is_ok());

    let rec = record_poseidon4(Some([fr(123), fr(234), fr(345), fr(457)]), Some(expected));
    assert!(!satisfied(&rec));
    let proof = groth16::create_random_proof(Recorded(rec), &params_, &mut OsRng).unwrap();
    assert!(!groth16::verify_proof(&pvk, &proof, &[to_scalar(&expected)]).is_ok());
}

#[test]
fn test_poseidon_circuit() {
    run_poseidon4();
}

#[test]
fn groth16_test_poseidon_circuit() {
    run_poseidon4();
}

fn record_poseidon_all(vals: Option<[Fr; 5]>, outs: Option<[Fr; 5]>) -> ConstraintSystem {
    let mut cs = ConstraintSystem::new(outs.is_some());
    let mut out_nums = Vec::new();
    for i in 0..5 {
        out_nums.push(AllocatedNum::allocate(&mut cs, outs.map(|o| o[i])).unwrap());
    }
    for o in out_nums.iter() {
        o.inputize(&mut cs).unwrap();
    }
    let mut nums = Vec::new();
    for i in 0..5 {
        nums.push(AllocatedNum::allocate(&mut cs, vals.map(|v| v[i])).unwrap());
    }
    for n in 1..=5 {
        let inputs: Vec<Number> = nums.iter().take(n).map(|a| Number::from_num(*a)).collect();
        let res = poseidon(&mut cs, &params(n + 1, 8, 8), &inputs).unwrap();
        enforce_equal(&mut cs, &Number::from_num(out_nums[n - 1]), &res);
    }
    cs
}

#[test]
fn mod_test_poseidon_circuit() {
    let params_ = groth16::generate_random_parameters::<Bls12, _, _>(
        Recorded(record_poseidon_all(None, None)),
        &mut OsRng,
    )
    .unwrap();

    let pvk = groth16::prepare_verifying_key(&params_.vk);

    let all = [fr(123), fr(234), fr(345), fr(456), fr(567)];
    let mut expecteds = [Fr::zero(); 5];
    for i in 0..5 {
        expecteds[i] = hash(&params(i + 2, 8, 8), &all[..i + 1].to_vec());
    }
    let publics: Vec<Scalar> = expecteds.iter().map(to_scalar).collect();

    let rec = record_poseidon_all(Some(all), Some(expecteds));
    assert!(satisfied(&rec));
    let proof = groth16::create_random_proof(Recorded(rec), &params_, &mut OsRng).unwrap();
    assert!(groth16::verify_proof(&pvk, &proof, &publics).is_ok());

    let rec = record_poseidon_all(
        Some([fr(123), fr(234), fr(345), fr(457), fr(567)]),
        Some(expecteds),
    );
    assert!(!satisfied(&rec));
    let proof = groth16::create_random_proof(Recorded(rec), &params_, &mut OsRng).unwrap();
    assert!(!groth16::verify_proof(&pvk, &proof, &publics).is_ok());
}

#[test]
fn poseidon_perturbing_any_input_changes_the_hash() {
    let p = params(5, 8, 56);
    let vals = [fr(123), fr(234), fr(345), fr(456)];
    let expected = hash(&p, &vals.to_vec());
    for i in 0..4 {
        let mut other = vals;
        other[i] = other[i].add(&Fr::one());
        assert_ne!(hash(&p, &other.to_vec()), expected);
        assert!(!satisfied(&record_poseidon4(Some(other), Some(expected))));
    }
}

#[test]
fn poseidon4_is_poseidon_on_four_terms() {
    let p = params(5, 8, 56);
    let vals = [fr(1), fr(2), fr(3), fr(4)];
    let mut cs = ConstraintSystem::new(true);
    let mut nums = Vec::new();
    for v in vals.iter() {
        nums.push(Number::from_num(AllocatedNum::allocate(&mut cs, Some(*v)).unwrap()));
    }
    let h = poseidon4(
        &mut cs,
        &p,
        nums[0].clone(),
        nums[1].clone(),
        nums[2].clone(),
        nums[3].clone(),
    )
    .unwrap();
    assert_eq!(h.get_value(), Some(hash(&p, &vals.to_vec())));
    assert_eq!(cs.num_constraints(), 8 * 5 * 3 + 56 * (3 + 4));
    assert!(satisfied(&cs));
}

fn scalar_state(cs: &mut ConstraintSystem, v: Option<Fr>) -> AllocatedState {
    AllocatedState::Value(Number::from_num(AllocatedNum::allocate(cs, v).unwrap()))
}

/// A struct of a scalar, a list of sixteen scalars, and two more scalars.
fn record_reveal(data: Option<(Fr, [Fr; 16], Fr, Fr)>, out: Option<Fr>) -> ConstraintSystem {
    let shape = StateShape::Struct {
        field_types: vec![
            StateShape::Scalar,
            StateShape::List { item_type: Box::new(StateShape::Scalar), log4_size: 2 },
            StateShape::Scalar,
            StateShape::Scalar,
        ],
    };
    let mut cs = ConstraintSystem::new(out.is_some());
    let out = AllocatedNum::allocate(&mut cs, out).unwrap();
    out.inputize(&mut cs).unwrap();
    let first = scalar_state(&mut cs, data.map(|d| d.0));
    let mut items = Vec::new();
    for i in 0..16 {
        items.push(scalar_state(&mut cs, data.map(|d| d.1[i])));
    }
    let third = scalar_state(&mut cs, data.map(|d| d.2));
    let fourth = scalar_state(&mut cs, data.map(|d| d.3));
    let state = AllocatedState::Children(vec![
        first,
        AllocatedState::Children(items),
        third,
        fourth,
    ]);
    let root = reveal_state(&mut cs, &params(5, 8, 56), &shape, &state).unwrap();
    enforce_equal(&mut cs, &root, &Number::from_num(out));
    cs
}

#[test]
fn test_reveal_circuit() {
    let params_ = groth16::generate_random_parameters::<Bls12, _, _>(
        Recorded(record_reveal(None, None)),
        &mut OsRng,
    )
    .unwrap();

    let pvk = groth16::prepare_verifying_key(&params_.vk);

    let mut items = [Fr::zero(); 16];
    items[2] = fr(10);
    items[4] = fr(10);
    items[10] = fr(15);
    let data = (fr(123), items, Fr::zero(), Fr::zero());

    let p = params(5, 8, 56);
    let mut level = Vec::new();
    for c in items.chunks(4) {
        level.push(hash(&p, &c.to_vec()));
    }
    let list = hash(&p, &level);
    let expected = hash_chain(&p, &vec![data.0, list, data.2, data.3]);

    let rec = record_reveal(Some(data), Some(expected));
    assert!(satisfied(&rec));
    let proof = groth16::create_random_proof(Recorded(rec), &params_, &mut OsRng).unwrap();
    assert!(groth16::verify_proof(&pvk, &proof, &[to_scalar(&expected)]).is_ok());

    let rec = record_reveal(Some(data), Some(expected.add(&Fr::one())));
    assert!(!satisfied(&rec));
}
