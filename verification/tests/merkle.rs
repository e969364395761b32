use bellman::{groth16, Circuit, LinearCombination, SynthesisError, Variable};
use bls12_381::{Bls12, Scalar};
use rand::rngs::OsRng;
use zeekit::common::number::Number;
use zeekit::common::uint::UnsignedInteger;
use zeekit::common::wire::{AllocatedBit, AllocatedNum, Boolean};
use zeekit::cs::ConstraintSystem;
use zeekit::field::Fr;
use zeekit::merkle::binary;
use zeekit::merkle::{calc_root, check_proof_poseidon4, Proof};
use zeekit::mimc;
use zeekit::poseidon::{hash, PoseidonParams};

fn to_scalar(f: &Fr) -> Scalar {
    Scalar::from_raw(f.to_limbs())
}

fn fr(v: u64) -> Fr {
    Fr::from_u64(v)
}

fn params(width: usize, full: usize, partial: usize) -> PoseidonParams {
    let mut round_constants = Vec::new();
    let mut x = fr(7 + width as u64);
    for i in 0..(full + partial) * width {
        x = x.mul(&x).add(&fr(i as u64 + 1));
        round_constants.push(x);
    }
    let mut mds_constants = Vec::new();
    for j in 0..width {
        let mut row = Vec::new();
        for k in 0..width {
            row.push(fr((j + width + k + 1) as u64).invert().unwrap());
        }
        mds_constants.push(row);
    }
    PoseidonParams { full_rounds: full, partial_rounds: partial, round_constants, mds_constants }
}

fn replay<CS: bellman::ConstraintSystem<Scalar>>(
    cs: &mut CS,
    rec: &ConstraintSystem,
) -> Result<(), SynthesisError> {
    let mut inputs = vec![CS::one()];
    for i in 1..rec.num_inputs() {
        let v = rec.input_value(i);
        inputs.push(cs.alloc_input(
            || "",
            || v.map(|f| to_scalar(&f)).ok_or(SynthesisError::AssignmentMissing),
        )?);
    }
    let mut aux = Vec::new();
    for i in 0..rec.num_aux() {
        let v = rec.aux_value(i);
        aux.push(cs.alloc(
            || "",
            || v.map(|f| to_scalar(&f)).ok_or(SynthesisError::AssignmentMissing),
        )?);
    }
    let lc = |terms: &Vec<(zeekit::lc::Variable, Fr)>| {
        let mut out = LinearCombination::<Scalar>::zero();
        for (var, coeff) in terms.iter() {
            let v: Variable = match var {
                zeekit::lc::Variable::Input(i) => inputs[*i],
                zeekit::lc::Variable::Aux(i) => aux[*i],
            };
            out = out + (to_scalar(coeff), v);
        }
        out
    };
    for i in 0..rec.num_constraints() {
        let (a, b, c) = rec.constraint(i);
        cs.enforce(|| "", |_| lc(&a), |_| lc(&b), |_| lc(&c));
    }
    Ok(())
}

struct Recorded(ConstraintSystem);

impl Circuit<Scalar> for Recorded {
    fn synthesize<CS: bellman::ConstraintSystem<Scalar>>(
        self,
        cs: &mut CS,
    ) -> Result<(), SynthesisError> {
        replay(cs, &self.0)
    }
}

/// The layers of the tree over 256 leaves `0, 1, .., 255`, from the leaves up.
fn tree(p: &PoseidonParams) -> Vec<Vec<Fr>> {
    let mut layers = vec![(0..256u64).map(fr).collect::<Vec<Fr>>()];
    while layers.last().unwrap().len() > 1 {
        let next = layers
            .last()
            .unwrap()
            .chunks(4)
            .map(|c| hash(p, &c.to_vec()))
            .collect();
        layers.push(next);
    }
    layers
}

/// The three siblings of leaf `index` at every level.
fn prove(layers: &Vec<Vec<Fr>>, index: usize) -> Vec<[Fr; 3]> {
    let mut proof = Vec::new();
    let mut i = index;
    for layer in layers.iter().take(layers.len() - 1) {
        let start = i - i % 4;
        let mut sibs = Vec::new();
        for j in 0..4 {
            if start + j != i {
                sibs.push(layer[start + j]);
            }
        }
        proof.push([sibs[0], sibs[1], sibs[2]]);
        i /= 4;
    }
    proof
}

fn record(
    p: &PoseidonParams,
    index: Option<Fr>,
    val: Option<Fr>,
    root: Option<Fr>,
    proof: Vec<[Option<Fr>; 3]>,
) -> ConstraintSystem {
    let mut cs = ConstraintSystem::new(index.is_some());
    let index = AllocatedNum::allocate(&mut cs, index).unwrap();
    let val = AllocatedNum::allocate(&mut cs, val).unwrap();
    let root = AllocatedNum::allocate(&mut cs, root).unwrap();
    index.inputize(&mut cs).unwrap();
    val.inputize(&mut cs).unwrap();
    root.inputize(&mut cs).unwrap();

    let mut siblings = Vec::new();
    for level in proof {
        siblings.push([
            AllocatedNum::allocate(&mut cs, level[0]).unwrap(),
            AllocatedNum::allocate(&mut cs, level[1]).unwrap(),
            AllocatedNum::allocate(&mut cs, level[2]).unwrap(),
        ]);
    }

    let enabled = Boolean::Is(AllocatedBit::allocate(&mut cs, Some(true)).unwrap());
    let index = UnsignedInteger::constrain(&mut cs, index, 8).unwrap();

    check_proof_poseidon4(
        &mut cs,
        p,
        &enabled,
        &index,
        &Number::from_num(val),
        &siblings,
        &Number::from_num(root),
    )
    .unwrap();
    cs
}

/// Every leaf in `range` proves against the true root and fails against the doubled
/// root.
fn run(range: std::ops::Range<usize>) {
    let p = params(5, 4, 3);
    let setup = groth16::generate_random_parameters::<Bls12, _, _>(
        Recorded(record(&p, None, None, None, vec![[None; 3]; 4])),
        &mut OsRng,
    )
    .unwrap();

    let pvk = groth16::prepare_verifying_key(&setup.vk);

    let layers = tree(&p);
    let root = layers[4][0];
    for i in range {
        let siblings = prove(&layers, i);
        let index = fr(i as u64);
        let val = fr(i as u64);
        assert_eq!(calc_root(&p, i as u64, val, &siblings), root);

        let proof: Vec<[Option<Fr>; 3]> = siblings
            .iter()
            .map(|s| [Some(s[0]), Some(s[1]), Some(s[2])])
            .collect();
        let rec = record(&p, Some(index), Some(val), Some(root), proof.clone());
        assert!(rec.is_satisfied());
        let proof_ = groth16::create_random_proof(Recorded(rec), &setup, &mut OsRng).unwrap();
        assert!(groth16::verify_proof(
            &pvk,
            &proof_,
            &[to_scalar(&index), to_scalar(&val), to_scalar(&root)]
        )
        .is_ok());

        assert!(!groth16::verify_proof(
            &pvk,
            &proof_,
            &[to_scalar(&index), to_scalar(&val), to_scalar(&root.double())]
        )
        .is_ok());
        assert!(!record(&p, Some(index), Some(val), Some(root.double()), proof).is_satisfied());
    }
}

#[test]
fn test_poseidon4_merkle_proofs() {
    run(0..16);
}

#[test]
fn test_poseidon4_merkle_proofs_leaves_16_to_31() {
    run(16..32);
}

#[test]
fn test_poseidon4_merkle_proofs_leaves_32_to_47() {
    run(32..48);
}

#[test]
fn test_poseidon4_merkle_proofs_leaves_48_to_63() {
    run(48..64);
}

#[test]
fn test_poseidon4_merkle_proofs_leaves_64_to_79() {
    run(64..80);
}

#[test]
fn test_poseidon4_merkle_proofs_leaves_80_to_95() {
    run(80..96);
}

#[test]
fn test_poseidon4_merkle_proofs_leaves_96_to_111() {
    run(96..112);
}

#[test]
fn test_poseidon4_merkle_proofs_leaves_112_to_127() {
    run(112..128);
}

#[test]
fn test_poseidon4_merkle_proofs_leaves_128_to_143() {
    run(128..144);
}

#[test]
fn test_poseidon4_merkle_proofs_leaves_144_to_159() {
    run(144..160);
}

#[test]
fn test_poseidon4_merkle_proofs_leaves_160_to_175() {
    run(160..176);
}

#[test]
fn test_poseidon4_merkle_proofs_leaves_176_to_191() {
    run(176..192);
}

#[test]
fn test_poseidon4_merkle_proofs_leaves_192_to_207() {
    run(192..208);
}

#[test]
fn test_poseidon4_merkle_proofs_leaves_208_to_223() {
    run(208..224);
}

#[test]
fn test_poseidon4_merkle_proofs_leaves_224_to_239() {
    run(224..240);
}

#[test]
fn test_poseidon4_merkle_proofs_leaves_240_to_255() {
    run(240..256);
}

#[test]
fn merkle_proofs_with_full_size_rounds() {
    let p = params(5, 8, 56);
    let layers = tree(&p);
    let root = layers[4][0];
    for i in 0..256usize {
        let siblings = prove(&layers, i);
        assert_eq!(calc_root(&p, i as u64, fr(i as u64), &siblings), root);
        if i % 16 == 5 {
            let proof: Vec<[Option<Fr>; 3]> = siblings
                .iter()
                .map(|s| [Some(s[0]), Some(s[1]), Some(s[2])])
                .collect();
            let i_ = fr(i as u64);
            assert!(record(&p, Some(i_), Some(i_), Some(root), proof.clone()).is_satisfied());
            assert!(!record(&p, Some(i_), Some(i_), Some(root.double()), proof.clone())
                .is_satisfied());
            assert!(!record(&p, Some(i_), Some(fr(i as u64 + 1)), Some(root), proof).is_satisfied());
        }
    }
}

#[test]
fn disabled_proof_never_fails() {
    let p = params(5, 4, 3);
    let mut cs = ConstraintSystem::new(true);
    let index = AllocatedNum::allocate(&mut cs, Some(fr(3))).unwrap();
    let val = AllocatedNum::allocate(&mut cs, Some(fr(99))).unwrap();
    let root = AllocatedNum::allocate(&mut cs, Some(fr(12345))).unwrap();
    let sib = AllocatedNum::allocate(&mut cs, Some(fr(1))).unwrap();
    let enabled = Boolean::Is(AllocatedBit::allocate(&mut cs, Some(false)).unwrap());
    let index = UnsignedInteger::constrain(&mut cs, index, 2).unwrap();
    check_proof_poseidon4(
        &mut cs,
        &p,
        &enabled,
        &index,
        &Number::from_num(val),
        &vec![[sib, sib, sib]],
        &Number::from_num(root),
    )
    .unwrap();
    assert!(cs.is_satisfied());
}

#[test]
fn default_proof_has_full_depth_and_zero_siblings() {
    let p: Proof<4> = Default::default();
    assert_eq!(p.0.len(), 4);
    for level in p.0.iter() {
        assert_eq!(*level, [Fr::zero(); 3]);
    }
}

/// The layers of the binary tree over eight leaves `0, 1, .., 7`, from the leaves up.
fn binary_tree() -> Vec<Vec<Fr>> {
    let mut layers = vec![(0..8u64).map(fr).collect::<Vec<Fr>>()];
    while layers.last().unwrap().len() > 1 {
        let next = layers
            .last()
            .unwrap()
            .chunks(2)
            .map(|c| mimc::double_mimc(c[0], c[1]))
            .collect();
        layers.push(next);
    }
    layers
}

#[test]
fn binary_merkle_proofs() {
    let layers = binary_tree();
    let root = layers[3][0];
    for i in 0..8usize {
        let mut siblings = Vec::new();
        let mut k = i;
        for layer in layers.iter().take(3) {
            siblings.push(layer[k ^ 1]);
            k /= 2;
        }
        assert_eq!(binary::calc_root_native(i as u64, fr(i as u64), &siblings), root);

        for (enabled, claimed, expected) in [
            (true, root, true),
            (true, root.double(), false),
            (false, root.double(), true),
        ] {
            let mut cs = ConstraintSystem::new(true);
            let index = AllocatedNum::allocate(&mut cs, Some(fr(i as u64))).unwrap();
            let val = AllocatedNum::allocate(&mut cs, Some(fr(i as u64))).unwrap();
            let claimed = AllocatedNum::allocate(&mut cs, Some(claimed)).unwrap();
            let proof: Vec<AllocatedNum> = siblings
                .iter()
                .map(|s| AllocatedNum::allocate(&mut cs, Some(*s)).unwrap())
                .collect();
            let enabled = AllocatedBit::allocate(&mut cs, Some(enabled)).unwrap();
            let index = UnsignedInteger::constrain(&mut cs, index, 3).unwrap();
            let before = cs.num_constraints();
            let computed = binary::calc_root(&mut cs, &index, val, &proof).unwrap();
            assert_eq!(computed.get_value(), Some(root));
            assert_eq!(cs.num_constraints() - before, 3 * (2 + 2 * 322));
            binary::check_proof(&mut cs, enabled, &index, val, &proof, claimed).unwrap();
            assert_eq!(cs.is_satisfied(), expected);
        }
    }
}

#[test]
fn a_system_knows_its_own_variables() {
    let mut cs = ConstraintSystem::new(true);
    let x = AllocatedNum::allocate(&mut cs, Some(fr(1))).unwrap();
    let mut other = ConstraintSystem::new(true);
    AllocatedNum::allocate(&mut other, Some(fr(1))).unwrap();
    let y = AllocatedNum::allocate(&mut other, Some(fr(2))).unwrap();
    assert!(cs.contains(Number::from_num(x).get_lc()));
    assert!(!cs.contains(Number::from_num(y).get_lc()));
    assert!(other.contains(Number::from_num(y).get_lc()));
    assert!(cs.contains(Number::one().get_lc()));
}
