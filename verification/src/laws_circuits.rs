//! The structure of the composite circuits does not depend on the witness either: the
//! strict bit decomposition, the curve gadgets, signature verification, MiMC and the
//! Merkle gadgets.

use crate::common::mux::mux_cs;
use crate::common::number::NumberModel;
use crate::common::strict::{packed, strict_bit, strict_cs, strict_prefix, Prefix};
use crate::common::wire::{AllocatedBit, AllocatedNum, Boolean, Wire};
use crate::common::{assert_equal_if_enabled_cs, gated_equal_cs};
use crate::cs::CsModel;
use crate::eddsa::curve::{CurveModel, PointModel};
use crate::eddsa::groth16::{
    add_const_point_cs, add_const_point_out, add_point_cs, add_point_out, add_point_x_cs,
    challenge_cs, challenge_inputs, challenge_wire, ladder_model, ladder_model_const,
    ladder_start, ladder_step, ladder_step_const, mul_cofactor_cs, mul_cofactor_out,
    mul_const_point_model, mul_point_model, sides_model, strict_bits_be, verify_eddsa_cs,
    PointWires, Sides, Walk,
};
use crate::laws::{
    lemma_structure_poseidon, same_bit, same_boolean, same_combinations, same_structure,
};
use crate::merkle;
use crate::mimc::groth16::{mimc_model, round_model, rounds_model, Feistel};
use crate::poseidon::ParamsModel;
use vstd::prelude::*;

verus! {

/// Whether two wires stand on the same variable.
pub open spec fn same_wire(a: Wire, b: Wire) -> bool {
    a.variable == b.variable
}

/// Whether two points stand on the same variables.
pub open spec fn same_point(a: PointWires, b: PointWires) -> bool {
    same_wire(a.x, b.x) && same_wire(a.y, b.y)
}

/// Whether two walks stand on systems of the same structure and on the same variables.
pub open spec fn same_walk(a: Walk, b: Walk) -> bool {
    same_structure(a.cs, b.cs) && same_point(a.acc, b.acc)
}

/// Whether two sequences of bits stand on the same variables.
pub open spec fn same_bits(a: Seq<AllocatedBit>, b: Seq<AllocatedBit>) -> bool {
    &&& a.len() == b.len()
    &&& forall|i: int| 0 <= i < a.len() ==> (#[trigger] a[i]).variable == b[i].variable
}

/// Whether two sequences of booleans have the same forms over the same variables.
pub open spec fn same_booleans(a: Seq<Boolean>, b: Seq<Boolean>) -> bool {
    &&& a.len() == b.len()
    &&& forall|i: int| 0 <= i < a.len() ==> same_boolean(#[trigger] a[i], b[i])
}

/// Whether two records of the strict decomposition are both absent or stand on the same
/// variable.
pub open spec fn same_record(a: Option<AllocatedBit>, b: Option<AllocatedBit>) -> bool {
    match (a, b) {
        (Some(x), Some(y)) => x.variable == y.variable,
        (None, None) => true,
        _ => false,
    }
}

/// The structure during the strict bit decomposition depends on the structure before
/// alone.
pub proof fn lemma_structure_strict_prefix(c1: CsModel, c2: CsModel, v1: Option<nat>, v2: Option<nat>, k: nat)
    requires
        same_structure(c1, c2),
    ensures
        same_structure(strict_prefix(c1, v1, k).cs, strict_prefix(c2, v2, k).cs),
        same_record(strict_prefix(c1, v1, k).eq, strict_prefix(c2, v2, k).eq),
    decreases k,
{
    if k > 0 {
        lemma_structure_strict_prefix(c1, c2, v1, v2, (k - 1) as nat);
    }
}

/// The structure after the strict bit decomposition, and the variables of the bits,
/// depend on the structure before and on the decomposed variable alone.
pub proof fn lemma_structure_strict(c1: CsModel, c2: CsModel, x1: Wire, x2: Wire)
    requires
        same_structure(c1, c2),
        same_wire(x1, x2),
    ensures
        same_structure(
            strict_cs(c1, x1.variable, x1.value),
            strict_cs(c2, x2.variable, x2.value),
        ),
        same_booleans(strict_bits_be(c1, x1.value), strict_bits_be(c2, x2.value)),
{
    lemma_structure_strict_prefix(c1, c2, x1.value, x2.value, 255);
    assert forall|i: nat| i < 255 implies (#[trigger] strict_bit(c1, x1.value, i)).variable
        == strict_bit(c2, x2.value, i).variable by {
        lemma_structure_strict_prefix(c1, c2, x1.value, x2.value, (254 - i) as nat);
    }
    assert(packed(c1, x1.value, 255) =~= packed(c2, x2.value, 255)) by {
        assert forall|i: int| 0 <= i < 255 implies (#[trigger] packed(c1, x1.value, 255)[i])
            == packed(c2, x2.value, 255)[i] by {
            assert(strict_bit(c1, x1.value, i as nat).variable == strict_bit(
                c2,
                x2.value,
                i as nat,
            ).variable);
        }
    }
    let b1 = strict_bits_be(c1, x1.value);
    let b2 = strict_bits_be(c2, x2.value);
    assert forall|j: int| 0 <= j < b1.len() implies same_boolean(#[trigger] b1[j], b2[j]) by {
        assert(strict_bit(c1, x1.value, (254 - j) as nat).variable == strict_bit(
            c2,
            x2.value,
            (254 - j) as nat,
        ).variable);
    }
}

/// The structure after a point addition, and the variables of the sum, depend on the
/// structure before and on the variables of the operands alone.
pub proof fn lemma_structure_add_point(c1: CsModel, c2: CsModel, c: CurveModel, a1: PointWires, b1: PointWires, a2: PointWires, b2: PointWires)
    requires
        same_structure(c1, c2),
        same_point(a1, a2),
        same_point(b1, b2),
    ensures
        same_structure(add_point_cs(c1, c, a1, b1), add_point_cs(c2, c, a2, b2)),
        same_point(add_point_out(c1, c, a1, b1), add_point_out(c2, c, a2, b2)),
{
    reveal(add_point_x_cs);
    reveal(add_point_cs);
}

/// The structure after the addition of a constant point depends on the structure
/// before, on the variables of the operand and on the constant alone.
pub proof fn lemma_structure_add_const_point(c1: CsModel, c2: CsModel, c: CurveModel, a1: PointWires, a2: PointWires, b: PointModel)
    requires
        same_structure(c1, c2),
        same_point(a1, a2),
    ensures
        same_structure(add_const_point_cs(c1, c, a1, b), add_const_point_cs(c2, c, a2, b)),
        same_point(add_const_point_out(c1, c, a1, b), add_const_point_out(c2, c, a2, b)),
{
    reveal(add_const_point_cs);
}

/// The structure after the multiplication by the cofactor depends on the structure
/// before and on the variables of the point alone.
pub proof fn lemma_structure_mul_cofactor(c1: CsModel, c2: CsModel, c: CurveModel, a1: PointWires, a2: PointWires)
    requires
        same_structure(c1, c2),
        same_point(a1, a2),
    ensures
        same_structure(mul_cofactor_cs(c1, c, a1), mul_cofactor_cs(c2, c, a2)),
        same_point(mul_cofactor_out(c1, c, a1), mul_cofactor_out(c2, c, a2)),
{
    reveal(mul_cofactor_cs);
    reveal(mul_cofactor_out);
    lemma_structure_add_point(c1, c2, c, a1, a1, a2, a2);
    let d1 = add_point_cs(c1, c, a1, a1);
    let d2 = add_point_cs(c2, c, a2, a2);
    let q1 = add_point_out(c1, c, a1, a1);
    let q2 = add_point_out(c2, c, a2, a2);
    lemma_structure_add_point(d1, d2, c, q1, q1, q2, q2);
    let e1 = add_point_cs(d1, c, q1, q1);
    let e2 = add_point_cs(d2, c, q2, q2);
    let r1 = add_point_out(d1, c, q1, q1);
    let r2 = add_point_out(d2, c, q2, q2);
    lemma_structure_add_point(e1, e2, c, r1, r1, r2, r2);
    assert(mul_cofactor_cs(c1, c, a1) == add_point_cs(e1, c, r1, r1));
    assert(mul_cofactor_cs(c2, c, a2) == add_point_cs(e2, c, r2, r2));
}

/// The structure after one step of a double-and-add depends on the structure before,
/// on the form of the bit and on the variables of the points alone.
pub proof fn lemma_structure_ladder_step(w1: Walk, w2: Walk, c: CurveModel, s1: Boolean, s2: Boolean, b1: PointWires, b2: PointWires, k: PointModel)
    requires
        same_walk(w1, w2),
        same_boolean(s1, s2),
        same_point(b1, b2),
    ensures
        same_walk(ladder_step(w1, c, s1, b1), ladder_step(w2, c, s2, b2)),
        same_walk(ladder_step_const(w1, c, s1, k), ladder_step_const(w2, c, s2, k)),
{
    lemma_structure_add_point(w1.cs, w2.cs, c, w1.acc, w1.acc, w2.acc, w2.acc);
    let d1 = add_point_cs(w1.cs, c, w1.acc, w1.acc);
    let d2 = add_point_cs(w2.cs, c, w2.acc, w2.acc);
    let q1 = add_point_out(w1.cs, c, w1.acc, w1.acc);
    let q2 = add_point_out(w2.cs, c, w2.acc, w2.acc);
    lemma_structure_add_point(d1, d2, c, q1, b1, q2, b2);
    lemma_structure_add_const_point(d1, d2, c, q1, q2, k);
}

/// The structure after a double-and-add with a variable base depends on the structure
/// before, on the forms of the bits and on the variables of the base alone.
pub proof fn lemma_structure_ladder(c1: CsModel, c2: CsModel, c: CurveModel, s1: Seq<Boolean>, s2: Seq<Boolean>, b1: PointWires, b2: PointWires, k: nat)
    requires
        same_structure(c1, c2),
        same_booleans(s1, s2),
        same_point(b1, b2),
        1 <= k <= s1.len(),
    ensures
        same_walk(ladder_model(c1, c, s1, b1, k), ladder_model(c2, c, s2, b2, k)),
    decreases k,
{
    assert(same_boolean(s1[0], s2[0]));
    if k > 1 {
        lemma_structure_ladder(c1, c2, c, s1, s2, b1, b2, (k - 1) as nat);
        assert(same_boolean(s1[k - 1], s2[k - 1]));
        lemma_structure_ladder_step(
            ladder_model(c1, c, s1, b1, (k - 1) as nat),
            ladder_model(c2, c, s2, b2, (k - 1) as nat),
            c,
            s1[k - 1],
            s2[k - 1],
            b1,
            b2,
            PointModel { x: 0, y: 0 },
        );
    }
}

/// The structure after a double-and-add with a constant base depends on the structure
/// before, on the forms of the bits and on the base alone.
pub proof fn lemma_structure_ladder_const(c1: CsModel, c2: CsModel, c: CurveModel, s1: Seq<Boolean>, s2: Seq<Boolean>, base: PointModel, k: nat)
    requires
        same_structure(c1, c2),
        same_booleans(s1, s2),
        1 <= k <= s1.len(),
    ensures
        same_walk(ladder_model_const(c1, c, s1, base, k), ladder_model_const(c2, c, s2, base, k)),
    decreases k,
{
    assert(same_boolean(s1[0], s2[0]));
    if k > 1 {
        lemma_structure_ladder_const(c1, c2, c, s1, s2, base, (k - 1) as nat);
        assert(same_boolean(s1[k - 1], s2[k - 1]));
        let w1 = ladder_model_const(c1, c, s1, base, (k - 1) as nat);
        let w2 = ladder_model_const(c2, c, s2, base, (k - 1) as nat);
        lemma_structure_ladder_step(w1, w2, c, s1[k - 1], s2[k - 1], w1.acc, w2.acc, base);
    }
}

/// The structure after a scalar multiplication depends on the structure before and on
/// the variables of the base and of the scalar alone.
pub proof fn lemma_structure_mul_point(c1: CsModel, c2: CsModel, c: CurveModel, b1: PointWires, b2: PointWires, x1: Wire, x2: Wire, base: PointModel)
    requires
        same_structure(c1, c2),
        same_point(b1, b2),
        same_wire(x1, x2),
    ensures
        same_walk(mul_point_model(c1, c, b1, x1), mul_point_model(c2, c, b2, x2)),
        same_walk(mul_const_point_model(c1, c, base, x1), mul_const_point_model(c2, c, base, x2)),
{
    reveal(mul_point_model);
    reveal(mul_const_point_model);
    lemma_structure_strict(c1, c2, x1, x2);
    lemma_structure_ladder(
        strict_cs(c1, x1.variable, x1.value),
        strict_cs(c2, x2.variable, x2.value),
        c,
        strict_bits_be(c1, x1.value),
        strict_bits_be(c2, x2.value),
        b1,
        b2,
        255,
    );
    lemma_structure_ladder_const(
        strict_cs(c1, x1.variable, x1.value),
        strict_cs(c2, x2.variable, x2.value),
        c,
        strict_bits_be(c1, x1.value),
        strict_bits_be(c2, x2.value),
        base,
        255,
    );
}

/// The structure after the verification of a signature depends on the structure before,
/// on the form of the enabling boolean, on the variables of the key and of the
/// signature and on the combination of the message alone: with and without a witness
/// the same circuit is laid down.
pub proof fn lemma_structure_verify_eddsa(
    c1: CsModel,
    c2: CsModel,
    c: CurveModel,
    base_cofactor: PointModel,
    p: ParamsModel,
    e1: Boolean,
    e2: Boolean,
    pk1: PointWires,
    pk2: PointWires,
    m1: NumberModel,
    m2: NumberModel,
    r1: PointWires,
    r2: PointWires,
    s1: Wire,
    s2: Wire,
)
    requires
        same_structure(c1, c2),
        same_boolean(e1, e2),
        same_point(pk1, pk2),
        m1.lc == m2.lc,
        same_point(r1, r2),
        same_wire(s1, s2),
    ensures
        same_structure(
            verify_eddsa_cs(c1, c, base_cofactor, p, e1, pk1, m1, r1, s1),
            verify_eddsa_cs(c2, c, base_cofactor, p, e2, pk2, m2, r2, s2),
        ),
{
    reveal(challenge_cs);
    reveal(challenge_wire);
    reveal(sides_model);
    let i1 = challenge_inputs(pk1, m1, r1);
    let i2 = challenge_inputs(pk2, m2, r2);
    assert(same_combinations(i1, i2));
    lemma_structure_poseidon(c1, c2, i1, i2, p);
    let d1 = challenge_cs(c1, p, pk1, m1, r1);
    let d2 = challenge_cs(c2, p, pk2, m2, r2);
    let h1 = challenge_wire(c1, p, pk1, m1, r1);
    let h2 = challenge_wire(c2, p, pk2, m2, r2);
    assert(same_structure(d1, d2));
    assert(same_wire(h1, h2));
    lemma_structure_mul_point(d1, d2, c, pk1, pk2, s1, s2, base_cofactor);
    let sb1 = mul_const_point_model(d1, c, base_cofactor, s1);
    let sb2 = mul_const_point_model(d2, c, base_cofactor, s2);
    lemma_structure_mul_point(sb1.cs, sb2.cs, c, pk1, pk2, h1, h2, base_cofactor);
    let ha1 = mul_point_model(sb1.cs, c, pk1, h1);
    let ha2 = mul_point_model(sb2.cs, c, pk2, h2);
    lemma_structure_add_point(ha1.cs, ha2.cs, c, ha1.acc, r1, ha2.acc, r2);
    lemma_structure_mul_cofactor(
        add_point_cs(ha1.cs, c, ha1.acc, r1),
        add_point_cs(ha2.cs, c, ha2.acc, r2),
        c,
        add_point_out(ha1.cs, c, ha1.acc, r1),
        add_point_out(ha2.cs, c, ha2.acc, r2),
    );
}

/// Whether two Feistel states stand on systems of the same structure and on the same
/// variables.
pub open spec fn same_feistel(a: Feistel, b: Feistel) -> bool {
    same_structure(a.cs, b.cs) && same_wire(a.xl, b.xl) && same_wire(a.xr, b.xr)
}

/// The structure after any number of MiMC rounds depends on the structure before and on
/// the variables of the two halves alone.
pub proof fn lemma_structure_mimc_rounds(f1: Feistel, f2: Feistel, k: nat)
    requires
        same_feistel(f1, f2),
    ensures
        same_feistel(rounds_model(f1, k), rounds_model(f2, k)),
    decreases k,
{
    if k > 0 {
        lemma_structure_mimc_rounds(f1, f2, (k - 1) as nat);
    }
}

/// Whether two sequences of variables are the same.
pub open spec fn same_nums(a: Seq<AllocatedNum>, b: Seq<AllocatedNum>) -> bool {
    &&& a.len() == b.len()
    &&& forall|i: int| 0 <= i < a.len() ==> (#[trigger] a[i]).variable == b[i].variable
}

/// The structure after the MiMC hash of several variables depends on the structure
/// before and on the variables alone.
pub proof fn lemma_structure_mimc(c1: CsModel, c2: CsModel, d1: Seq<AllocatedNum>, d2: Seq<AllocatedNum>, k: nat)
    requires
        same_structure(c1, c2),
        same_nums(d1, d2),
        2 <= k <= d1.len(),
    ensures
        same_feistel(mimc_model(c1, d1, k), mimc_model(c2, d2, k)),
    decreases k,
{
    assert(d1[0].variable == d2[0].variable && d1[1].variable == d2[1].variable);
    if k <= 2 {
        lemma_structure_mimc_rounds(
            crate::mimc::groth16::feistel(c1, d1[0]@, d1[1]@),
            crate::mimc::groth16::feistel(c2, d2[0]@, d2[1]@),
            322,
        );
    } else {
        lemma_structure_mimc(c1, c2, d1, d2, (k - 1) as nat);
        let f1 = mimc_model(c1, d1, (k - 1) as nat);
        let f2 = mimc_model(c2, d2, (k - 1) as nat);
        assert(d1[k - 1].variable == d2[k - 1].variable);
        lemma_structure_mimc_rounds(
            crate::mimc::groth16::feistel(f1.cs, f1.xl, d1[k - 1]@),
            crate::mimc::groth16::feistel(f2.cs, f2.xl, d2[k - 1]@),
            322,
        );
    }
}

/// The structure after the binary Merkle root depends on the structure before and on
/// the variables of the index bits, the leaf and the siblings alone.
pub proof fn lemma_structure_binary_root(c1: CsModel, c2: CsModel, b1: Seq<AllocatedBit>, b2: Seq<AllocatedBit>, l1: Wire, l2: Wire, p1: Seq<AllocatedNum>, p2: Seq<AllocatedNum>, k: nat)
    requires
        same_structure(c1, c2),
        same_bits(b1, b2),
        same_wire(l1, l2),
        same_nums(p1, p2),
        k <= p1.len(),
        k <= b1.len(),
    ensures
        same_structure(
            merkle::binary::calc_root_model(c1, b1, l1, p1, k).cs,
            merkle::binary::calc_root_model(c2, b2, l2, p2, k).cs,
        ),
        same_wire(
            merkle::binary::calc_root_model(c1, b1, l1, p1, k).xl,
            merkle::binary::calc_root_model(c2, b2, l2, p2, k).xl,
        ),
    decreases k,
{
    if k > 0 {
        lemma_structure_binary_root(c1, c2, b1, b2, l1, l2, p1, p2, (k - 1) as nat);
        let f1 = merkle::binary::calc_root_model(c1, b1, l1, p1, (k - 1) as nat);
        let f2 = merkle::binary::calc_root_model(c2, b2, l2, p2, (k - 1) as nat);
        assert(b1[k - 1].variable == b2[k - 1].variable);
        assert(p1[k - 1].variable == p2[k - 1].variable);
        let s1 = Boolean::Is(b1[k - 1]);
        let s2 = Boolean::Is(b2[k - 1]);
        let t = |w: Wire| merkle::binary::term_of(w);
        let m1 = mux_cs(f1.cs, s1, t(f1.xl), t(p1[k - 1]@));
        let m2 = mux_cs(f2.cs, s2, t(f2.xl), t(p2[k - 1]@));
        assert(same_structure(m1, m2));
        let n1 = mux_cs(m1, s1, t(p1[k - 1]@), t(f1.xl));
        let n2 = mux_cs(m2, s2, t(p2[k - 1]@), t(f2.xl));
        assert(same_structure(n1, n2));
        let left1 = Wire { variable: f1.cs.next_aux(), value: f1.cs.kept(crate::common::mux::pick(b1[k - 1].value, f1.xl.value, p1[k - 1]@.value)) };
        let left2 = Wire { variable: f2.cs.next_aux(), value: f2.cs.kept(crate::common::mux::pick(b2[k - 1].value, f2.xl.value, p2[k - 1]@.value)) };
        let right1 = Wire { variable: m1.next_aux(), value: m1.kept(crate::common::mux::pick(b1[k - 1].value, p1[k - 1]@.value, f1.xl.value)) };
        let right2 = Wire { variable: m2.next_aux(), value: m2.kept(crate::common::mux::pick(b2[k - 1].value, p2[k - 1]@.value, f2.xl.value)) };
        lemma_structure_mimc_rounds(
            crate::mimc::groth16::feistel(n1, left1, right1),
            crate::mimc::groth16::feistel(n2, left2, right2),
            322,
        );
    }
}

/// Whether two lists of sibling triples stand on the same variables.
pub open spec fn same_siblings(a: Seq<[AllocatedNum; 3]>, b: Seq<[AllocatedNum; 3]>) -> bool {
    &&& a.len() == b.len()
    &&& forall|i: int|
        0 <= i < a.len() ==> (#[trigger] a[i])[0].variable == b[i][0].variable && a[i][1].variable
            == b[i][1].variable && a[i][2].variable == b[i][2].variable
}

/// The structure after a level of the quaternary Merkle root depends on the structure
/// before and on the variables and combinations alone.
pub proof fn lemma_structure_merge(c1: CsModel, c2: CsModel, p: ParamsModel, a1: AllocatedBit, a2: AllocatedBit, b1: AllocatedBit, b2: AllocatedBit, v1: NumberModel, v2: NumberModel, q1: [AllocatedNum; 3], q2: [AllocatedNum; 3])
    requires
        same_structure(c1, c2),
        same_bit(a1, a2),
        same_bit(b1, b2),
        v1.lc == v2.lc,
        q1[0].variable == q2[0].variable,
        q1[1].variable == q2[1].variable,
        q1[2].variable == q2[2].variable,
    ensures
        same_structure(
            merkle::merge_model(c1, p, a1, b1, v1, q1).cs,
            merkle::merge_model(c2, p, a2, b2, v2, q2).cs,
        ),
        merkle::merge_model(c1, p, a1, b1, v1, q1).state[1].lc == merkle::merge_model(
            c2,
            p,
            a2,
            b2,
            v2,
            q2,
        ).state[1].lc,
{
    let h1 = merkle::slots_model(c1, a1, b1, v1, q1);
    let h2 = merkle::slots_model(c2, a2, b2, v2, q2);
    assert(same_structure(h1.cs, h2.cs));
    assert(same_combinations(h1.state, h2.state));
    lemma_structure_poseidon(h1.cs, h2.cs, h1.state, h2.state, p);
}

/// The structure after the quaternary Merkle root depends on the structure before and
/// on the variables of the index bits and the siblings and the combination of the leaf
/// alone.
pub proof fn lemma_structure_root(c1: CsModel, c2: CsModel, p: ParamsModel, b1: Seq<AllocatedBit>, b2: Seq<AllocatedBit>, l1: NumberModel, l2: NumberModel, q1: Seq<[AllocatedNum; 3]>, q2: Seq<[AllocatedNum; 3]>, k: nat)
    requires
        same_structure(c1, c2),
        same_bits(b1, b2),
        l1.lc == l2.lc,
        same_siblings(q1, q2),
        k <= q1.len(),
        2 * k <= b1.len(),
    ensures
        same_structure(
            merkle::calc_root_model(c1, p, b1, l1, q1, k).cs,
            merkle::calc_root_model(c2, p, b2, l2, q2, k).cs,
        ),
        merkle::calc_root_model(c1, p, b1, l1, q1, k).state[1].lc == merkle::calc_root_model(
            c2,
            p,
            b2,
            l2,
            q2,
            k,
        ).state[1].lc,
    decreases k,
{
    if k > 0 {
        lemma_structure_root(c1, c2, p, b1, b2, l1, l2, q1, q2, (k - 1) as nat);
        let h1 = merkle::calc_root_model(c1, p, b1, l1, q1, (k - 1) as nat);
        let h2 = merkle::calc_root_model(c2, p, b2, l2, q2, (k - 1) as nat);
        assert(b1[2 * (k - 1)].variable == b2[2 * (k - 1)].variable);
        assert(b1[2 * (k - 1) + 1].variable == b2[2 * (k - 1) + 1].variable);
        assert(q1[k - 1][0].variable == q2[k - 1][0].variable);
        lemma_structure_merge(
            h1.cs,
            h2.cs,
            p,
            b1[2 * (k - 1)],
            b2[2 * (k - 1)],
            b1[2 * (k - 1) + 1],
            b2[2 * (k - 1) + 1],
            h1.state[1],
            h2.state[1],
            q1[k - 1],
            q2[k - 1],
        );
    }
}

} // verus!
