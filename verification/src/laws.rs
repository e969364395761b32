//! What holds of every circuit that the gadgets lay down.
//!
//! A circuit is laid down twice: once with its witness, to prove, and once without, to
//! derive the keys. The two systems must have the same structure. Every gadget
//! fixes its system as a function of the system before and of its operands; the
//! lemmas here show, for the core gadgets, that the structure of the result depends on
//! the structure before and on the combinations and variables of the operands alone,
//! never on a witness value.

use crate::common::mux::mux_cs;
use crate::common::number::{Number, NumberModel};
use crate::common::uint::{bits_cs, constrain_cs, lt_sub_cs, UnsignedInteger};
use crate::common::wire::{AllocatedBit, AllocatedNum, Boolean};
use crate::common::{assert_equal_if_enabled_cs, is_equal_cs, is_zero_cs, not_cs};
use crate::cs::CsModel;
use crate::field::{
    field_mul, field_neg, field_sub, lemma_mul_assoc, lemma_mul_unit, lemma_reduced, modulus,
};
use crate::lc::Term;
use crate::poseidon::{
    add_constants_model, compressed, full_round_model, initial, is_full, mds_row,
    partial_round_model, poseidon_model, product_mds_model, rounds_model, sbox_cs, sbox_out,
    sboxed, Hashing, ParamsModel,
};
use crate::field::lemma_pow2_small;
use vstd::arithmetic::div_mod::lemma_small_mod;
use vstd::arithmetic::power2::{lemma_pow2_pos, lemma_pow2_unfold, pow2};
use vstd::prelude::*;

verus! {

/// Whether two systems have the same numbers of variables and the same constraints.
pub open spec fn same_structure(a: CsModel, b: CsModel) -> bool {
    &&& a.inputs.len() == b.inputs.len()
    &&& a.aux.len() == b.aux.len()
    &&& a.constraints == b.constraints
}

/// Whether two bits stand on the same variable.
pub open spec fn same_bit(a: AllocatedBit, b: AllocatedBit) -> bool {
    a.variable == b.variable
}

/// Whether two booleans have the same form over the same variable.
pub open spec fn same_boolean(a: Boolean, b: Boolean) -> bool {
    match (a, b) {
        (Boolean::Is(x), Boolean::Is(y)) => x.variable == y.variable,
        (Boolean::Not(x), Boolean::Not(y)) => x.variable == y.variable,
        (Boolean::Constant(x), Boolean::Constant(y)) => x == y,
        _ => false,
    }
}

/// Allocating a variable and enforcing a constraint change the structure in the same
/// way whatever the witness.
pub proof fn lemma_structure_steps(c1: CsModel, c2: CsModel, v1: Option<nat>, v2: Option<nat>, a: Seq<Term>, b: Seq<Term>, c: Seq<Term>)
    requires
        same_structure(c1, c2),
    ensures
        same_structure(c1.allocate(v1), c2.allocate(v2)),
        same_structure(c1.allocate_public(v1), c2.allocate_public(v2)),
        same_structure(c1.enforce(a, b, c), c2.enforce(a, b, c)),
        c1.next_aux() == c2.next_aux(),
        c1.next_input() == c2.next_input(),
{
}

/// The structure after a product of terms depends on the combinations alone.
pub proof fn lemma_structure_mul(c1: CsModel, c2: CsModel, a1: NumberModel, b1: NumberModel, a2: NumberModel, b2: NumberModel)
    requires
        same_structure(c1, c2),
        a1.lc == a2.lc,
        b1.lc == b2.lc,
    ensures
        same_structure(Number::mul_cs(c1, a1, b1), Number::mul_cs(c2, a2, b2)),
{
}

/// The structure after a zero test depends on the combination alone.
pub proof fn lemma_structure_is_zero(c1: CsModel, c2: CsModel, n1: NumberModel, n2: NumberModel)
    requires
        same_structure(c1, c2),
        n1.lc == n2.lc,
    ensures
        same_structure(is_zero_cs(c1, n1), is_zero_cs(c2, n2)),
{
}

/// The structure after an equality test depends on the combinations alone.
pub proof fn lemma_structure_is_equal(c1: CsModel, c2: CsModel, a1: NumberModel, b1: NumberModel, a2: NumberModel, b2: NumberModel)
    requires
        same_structure(c1, c2),
        a1.lc == a2.lc,
        b1.lc == b2.lc,
    ensures
        same_structure(is_equal_cs(c1, a1, b1), is_equal_cs(c2, a2, b2)),
{
    lemma_structure_is_zero(c1, c2, a1.minus(b1), a2.minus(b2));
}

/// The structure after a negation depends on the variable alone.
pub proof fn lemma_structure_not(c1: CsModel, c2: CsModel, a1: AllocatedBit, a2: AllocatedBit)
    requires
        same_structure(c1, c2),
        same_bit(a1, a2),
    ensures
        same_structure(not_cs(c1, a1), not_cs(c2, a2)),
{
}

/// The structure after a multiplexer depends on the form of the selector and on the
/// combinations alone.
pub proof fn lemma_structure_mux(c1: CsModel, c2: CsModel, s1: Boolean, s2: Boolean, a1: NumberModel, b1: NumberModel, a2: NumberModel, b2: NumberModel)
    requires
        same_structure(c1, c2),
        same_boolean(s1, s2),
        a1.lc == a2.lc,
        b1.lc == b2.lc,
    ensures
        same_structure(mux_cs(c1, s1, a1, b1), mux_cs(c2, s2, a2, b2)),
{
}

/// The structure after a conditional equality depends on the form of the enabling
/// boolean and on the combinations alone.
pub proof fn lemma_structure_assert_equal_if_enabled(c1: CsModel, c2: CsModel, e1: Boolean, e2: Boolean, a1: NumberModel, b1: NumberModel, a2: NumberModel, b2: NumberModel)
    requires
        same_structure(c1, c2),
        same_boolean(e1, e2),
        a1.lc == a2.lc,
        b1.lc == b2.lc,
    ensures
        same_structure(
            assert_equal_if_enabled_cs(c1, e1, a1, b1),
            assert_equal_if_enabled_cs(c2, e2, a2, b2),
        ),
{
}

/// The structure after the allocation of `n` bits depends on `n` alone.
pub proof fn lemma_structure_bits(c1: CsModel, c2: CsModel, v1: Option<nat>, v2: Option<nat>, n: nat)
    requires
        same_structure(c1, c2),
    ensures
        same_structure(bits_cs(c1, v1, n), bits_cs(c2, v2, n)),
    decreases n,
{
    if n > 0 {
        lemma_structure_bits(c1, c2, v1, v2, (n - 1) as nat);
    }
}

/// The structure after a range check depends on the variable and the width alone.
pub proof fn lemma_structure_constrain(c1: CsModel, c2: CsModel, x1: AllocatedNum, x2: AllocatedNum, n: nat)
    requires
        same_structure(c1, c2),
        x1.variable == x2.variable,
    ensures
        same_structure(
            constrain_cs(c1, x1@.variable, x1@.value, n),
            constrain_cs(c2, x2@.variable, x2@.value, n),
        ),
{
    lemma_structure_bits(c1, c2, x1@.value, x2@.value, n);
}

/// The structure after a comparison depends on the variables and the width alone.
pub proof fn lemma_structure_lt(c1: CsModel, c2: CsModel, a1: AllocatedNum, b1: AllocatedNum, a2: AllocatedNum, b2: AllocatedNum, n: nat)
    requires
        same_structure(c1, c2),
        a1.variable == a2.variable,
        b1.variable == b2.variable,
    ensures
        same_structure(UnsignedInteger::lt_cs(c1, a1, b1, n), UnsignedInteger::lt_cs(c2, a2, b2, n)),
{
    let s1 = lt_sub_cs(c1, a1, b1, n);
    let s2 = lt_sub_cs(c2, a2, b2, n);
    assert(same_structure(s1, s2));
    lemma_structure_bits(
        s1,
        s2,
        crate::common::uint::shifted_difference(a1@.value, b1@.value, n),
        crate::common::uint::shifted_difference(a2@.value, b2@.value, n),
        n + 2,
    );
}

/// The structure after an S-box depends on the combination alone.
pub proof fn lemma_structure_sbox(c1: CsModel, c2: CsModel, a1: NumberModel, a2: NumberModel)
    requires
        same_structure(c1, c2),
        a1.lc == a2.lc,
    ensures
        same_structure(sbox_cs(c1, a1), sbox_cs(c2, a2)),
{
}

/// Whether two states have the same combinations, slot by slot.
pub open spec fn same_combinations(a: Seq<NumberModel>, b: Seq<NumberModel>) -> bool {
    &&& a.len() == b.len()
    &&& forall|i: int| 0 <= i < a.len() ==> (#[trigger] a[i]).lc == b[i].lc
}

/// Whether two hash states stand on systems of the same structure and have the same
/// combinations.
pub open spec fn same_hashing(a: Hashing, b: Hashing) -> bool {
    same_structure(a.cs, b.cs) && same_combinations(a.state, b.state)
}

/// The combinations after the S-box on the first `n` slots depend on the structure and
/// the combinations alone.
pub proof fn lemma_structure_sboxed(c1: CsModel, c2: CsModel, s1: Seq<NumberModel>, s2: Seq<NumberModel>, n: nat)
    requires
        same_structure(c1, c2),
        same_combinations(s1, s2),
        n <= s1.len(),
    ensures
        same_hashing(sboxed(c1, s1, n), sboxed(c2, s2, n)),
        sboxed(c1, s1, n).state.len() == s1.len(),
    decreases n,
{
    if n > 0 {
        lemma_structure_sboxed(c1, c2, s1, s2, (n - 1) as nat);
        let h1 = sboxed(c1, s1, (n - 1) as nat);
        let h2 = sboxed(c2, s2, (n - 1) as nat);
        lemma_structure_sbox(h1.cs, h2.cs, h1.state[n - 1], h2.state[n - 1]);
    }
}

/// The combinations after the compression of slots `1` to `n - 1` depend on the
/// structure and the combinations alone.
pub proof fn lemma_structure_compressed(c1: CsModel, c2: CsModel, s1: Seq<NumberModel>, s2: Seq<NumberModel>, n: nat)
    requires
        same_structure(c1, c2),
        same_combinations(s1, s2),
        n <= s1.len(),
    ensures
        same_hashing(compressed(c1, s1, n), compressed(c2, s2, n)),
        compressed(c1, s1, n).state.len() == s1.len(),
    decreases n,
{
    if n > 1 {
        lemma_structure_compressed(c1, c2, s1, s2, (n - 1) as nat);
    }
}

/// The combination of a row of the matrix depends on the combinations alone.
pub proof fn lemma_structure_mds_row(s1: Seq<NumberModel>, s2: Seq<NumberModel>, row: Seq<nat>, k: nat)
    requires
        same_combinations(s1, s2),
        k <= s1.len(),
    ensures
        mds_row(s1, row, k).lc == mds_row(s2, row, k).lc,
    decreases k,
{
    if k > 0 {
        lemma_structure_mds_row(s1, s2, row, (k - 1) as nat);
    }
}

/// The combinations after the MDS matrix depend on the combinations alone.
pub proof fn lemma_structure_mds(s1: Seq<NumberModel>, s2: Seq<NumberModel>, p: ParamsModel)
    requires
        same_combinations(s1, s2),
    ensures
        same_combinations(product_mds_model(s1, p), product_mds_model(s2, p)),
{
    let a = product_mds_model(s1, p);
    let b = product_mds_model(s2, p);
    assert forall|i: int| 0 <= i < a.len() implies (#[trigger] a[i]).lc == b[i].lc by {
        lemma_structure_mds_row(s1, s2, p.mds[i], s1.len());
    }
}

/// The structure after a round depends on the structure and the combinations alone.
pub proof fn lemma_structure_round(c1: CsModel, c2: CsModel, s1: Seq<NumberModel>, s2: Seq<NumberModel>, p: ParamsModel, offset: nat)
    requires
        same_structure(c1, c2),
        same_combinations(s1, s2),
        s1.len() >= 1,
    ensures
        same_hashing(full_round_model(c1, s1, p, offset), full_round_model(c2, s2, p, offset)),
        same_hashing(partial_round_model(c1, s1, p, offset), partial_round_model(c2, s2, p, offset)),
        full_round_model(c1, s1, p, offset).state.len() == s1.len(),
        partial_round_model(c1, s1, p, offset).state.len() == s1.len(),
{
    let a1 = add_constants_model(s1, p, offset);
    let a2 = add_constants_model(s2, p, offset);
    assert(same_combinations(a1, a2)) by {
        assert forall|i: int| 0 <= i < a1.len() implies (#[trigger] a1[i]).lc == a2[i].lc by {
            assert(s1[i].lc == s2[i].lc);
        }
    }
    lemma_structure_sboxed(c1, c2, a1, a2, s1.len());
    lemma_structure_mds(sboxed(c1, a1, s1.len()).state, sboxed(c2, a2, s1.len()).state, p);
    lemma_structure_sboxed(c1, c2, a1, a2, 1);
    let h1 = sboxed(c1, a1, 1);
    let h2 = sboxed(c2, a2, 1);
    lemma_structure_compressed(h1.cs, h2.cs, h1.state, h2.state, s1.len());
    lemma_structure_mds(
        compressed(h1.cs, h1.state, s1.len()).state,
        compressed(h2.cs, h2.state, s1.len()).state,
        p,
    );
}

/// The structure after any number of rounds depends on the structure and the
/// combinations alone.
pub proof fn lemma_structure_rounds(c1: CsModel, c2: CsModel, s1: Seq<NumberModel>, s2: Seq<NumberModel>, p: ParamsModel, r: nat)
    requires
        same_structure(c1, c2),
        same_combinations(s1, s2),
        s1.len() >= 1,
    ensures
        same_hashing(rounds_model(c1, s1, p, r), rounds_model(c2, s2, p, r)),
        rounds_model(c1, s1, p, r).state.len() == s1.len(),
    decreases r,
{
    if r > 0 {
        lemma_structure_rounds(c1, c2, s1, s2, p, (r - 1) as nat);
        let h1 = rounds_model(c1, s1, p, (r - 1) as nat);
        let h2 = rounds_model(c2, s2, p, (r - 1) as nat);
        lemma_structure_round(h1.cs, h2.cs, h1.state, h2.state, p, ((r - 1) * s1.len()) as nat);
    }
}

/// The structure after a hash, and the combination of the hash, depend on the structure
/// before and on the combinations of the inputs alone: with and without a witness the
/// same circuit is laid down.
pub proof fn lemma_structure_poseidon(c1: CsModel, c2: CsModel, s1: Seq<NumberModel>, s2: Seq<NumberModel>, p: ParamsModel)
    requires
        same_structure(c1, c2),
        same_combinations(s1, s2),
    ensures
        same_structure(poseidon_model(c1, p, s1).cs, poseidon_model(c2, p, s2).cs),
        s1.len() >= 1 ==> poseidon_model(c1, p, s1).state[1].lc == poseidon_model(
            c2,
            p,
            s2,
        ).state[1].lc,
{
    let i1 = initial(s1);
    let i2 = initial(s2);
    assert(same_combinations(i1, i2)) by {
        assert forall|i: int| 0 <= i < i1.len() implies (#[trigger] i1[i]).lc == i2[i].lc by {
            if i > 0 {
                assert(s1[i - 1].lc == s2[i - 1].lc);
            }
        }
    }
    lemma_structure_rounds(c1, c2, i1, i2, p, p.rounds());
}

/// The two constraints of the zero test force the result: for any values with
/// `-a * inv = r - 1` and `r * a = 0`, a zero `a` gives `r = 1`, and an `a` that has an
/// inverse gives `r = 0`.
pub proof fn lemma_zero_test_forces(a: nat, inv: nat, r: nat, a_inverse: nat)
    requires
        a < modulus(),
        r < modulus(),
        field_mul(field_neg(a), inv) == field_sub(r, 1),
        field_mul(r, a) == 0,
    ensures
        a == 0 ==> r == 1,
        a != 0 && field_mul(a, a_inverse) == 1 ==> r == 0,
{
    if a == 0 {
        lemma_small_mod(0, modulus());
        assert(field_neg(0) == 0);
        assert(0 * inv == 0) by (nonlinear_arith);
        crate::field::lemma_sub_zero_iff(r, 1);
    } else if field_mul(a, a_inverse) == 1 {
        // r = r * (a * a_inverse) = (r * a) * a_inverse = 0
        lemma_mul_assoc(r, a, a_inverse);
        lemma_mul_unit(r);
        assert(0 * a_inverse == 0) by (nonlinear_arith);
        lemma_small_mod(0, modulus());
    }
}

/// The number that bits denote, least significant first.
pub open spec fn bits_value(bits: Seq<bool>) -> nat
    decreases bits.len(),
{
    if bits.len() == 0 {
        0
    } else {
        bits_value(bits.drop_last()) + pow2((bits.len() - 1) as nat) * (if bits.last() {
            1nat
        } else {
            0nat
        })
    }
}

/// The number that `n` bits denote is below `2^n`.
pub proof fn lemma_bits_value_bound(bits: Seq<bool>)
    ensures
        bits_value(bits) < pow2(bits.len()),
    decreases bits.len(),
{
    if bits.len() == 0 {
        lemma_pow2_pos(0);
    } else {
        lemma_bits_value_bound(bits.drop_last());
        lemma_pow2_unfold(bits.len());
    }
}

/// The range check admits no value that needs more bits: whatever bits are put on the
/// boolean variables, if the number they denote is congruent to a field value `v` and
/// there are at most 254 of them, then `v` is below `2^n`.
pub proof fn lemma_range_check_forces(bits: Seq<bool>, v: nat)
    requires
        bits.len() <= 254,
        v < modulus(),
        bits_value(bits) % modulus() == v,
    ensures
        v == bits_value(bits),
        v < pow2(bits.len()),
{
    lemma_bits_value_bound(bits);
    lemma_pow2_small(bits.len());
    lemma_small_mod(bits_value(bits), modulus());
}

/// The constraint of the multiplexer forces the result: for any values with
/// `(a - b) * s = a - r` and a boolean `s`, `r` is `a` where `s` is zero and `b` where
/// it is one.
pub proof fn lemma_mux_forces(a: nat, b: nat, s: nat, r: nat)
    requires
        a < modulus(),
        b < modulus(),
        r < modulus(),
        s == 0 || s == 1,
        field_mul(field_sub(a, b), s) == field_sub(a, r),
    ensures
        s == 0 ==> r == a,
        s == 1 ==> r == b,
{
    lemma_reduced(a, b);
    lemma_mul_unit(field_sub(a, b));
    if s == 0 {
        crate::field::lemma_sub_zero_iff(a, r);
    } else {
        lemma_sub_injective(a, b, r);
    }
}

/// Subtraction from a fixed value is one to one.
pub proof fn lemma_sub_injective(a: nat, b: nat, r: nat)
    requires
        a < modulus(),
        b < modulus(),
        r < modulus(),
        field_sub(a, b) == field_sub(a, r),
    ensures
        b == r,
{
    let m = modulus() as int;
    let x = a as int - b as int;
    let y = a as int - r as int;
    vstd::arithmetic::div_mod::lemma_mod_equivalence(x, y, m);
    // m divides x - y = r - b, which lies strictly between -m and m
    let d = r as int - b as int;
    assert((x - y) % m == 0);
    assert(x - y == d);
    if d != 0 {
        if d > 0 {
            lemma_small_mod(d as nat, modulus());
        } else {
            vstd::arithmetic::div_mod::lemma_mod_add_multiples_vanish(d, m);
            lemma_small_mod((d + m) as nat, modulus());
        }
    }
}

} // verus!
