//! Membership in a binary Merkle tree: one sibling for every level. A bit of the leaf
//! index swaps the running value and the sibling or not, and the two are hashed, with
//! MiMC, into the running value of the next level.

use crate::common::mux::{mux, mux_cs, pick};
use crate::common::number::{Number, NumberModel};
use crate::common::uint::UnsignedInteger;
use crate::common::wire::{AllocatedBit, AllocatedNum, Boolean, Wire};
use crate::common::{assert_equal, gated_equal_cs};
use crate::cs::{ConstraintSystem, CsModel, SynthesisError};
use crate::field::{bit_of, Fr};
use crate::mimc::double_mimc_value;
use crate::mimc::groth16::{double_mimc, feistel, rounds_model, Feistel};
use vstd::prelude::*;

verus! {

/// The term of a variable.
pub open spec fn term_of(w: Wire) -> NumberModel {
    NumberModel::of_var(w.variable, w.value)
}

/// The hash of a level: of the running value and the sibling where the bit is zero, of
/// the sibling and the running value where it is one.
pub open spec fn merged(dir: Option<bool>, v: Option<nat>, sibling: Option<nat>) -> Option<nat> {
    double_mimc_value(pick(dir, v, sibling), pick(dir, sibling, v))
}

/// The system and the running value after one level.
pub open spec fn merge_model(cs: CsModel, dir: AllocatedBit, v: Wire, sibling: Wire) -> Feistel {
    let select = Boolean::Is(dir);
    let c1 = mux_cs(cs, select, term_of(v), term_of(sibling));
    let left = Wire { variable: cs.next_aux(), value: cs.kept(pick(dir.value, v.value, sibling.value)) };
    let c2 = mux_cs(c1, select, term_of(sibling), term_of(v));
    let right = Wire {
        variable: c1.next_aux(),
        value: c1.kept(pick(dir.value, sibling.value, v.value)),
    };
    rounds_model(feistel(c2, left, right), 322)
}

/// One level: swaps the running value and the sibling by the bit, and hashes the two.
fn merge_hash(cs: &mut ConstraintSystem, dir: &AllocatedBit, a: &AllocatedNum, b: &AllocatedNum) -> (r:
    Result<AllocatedNum, SynthesisError>)
    requires
        old(cs).wf(),
        dir.valid(old(cs)@),
        a.valid(old(cs)@),
        b.valid(old(cs)@),
    ensures
        final(cs).wf(),
        final(cs)@.extends(old(cs)@),
        r is Ok,
        final(cs)@ == merge_model(old(cs)@, *dir, a@, b@).cs,
        r.unwrap()@ == merge_model(old(cs)@, *dir, a@, b@).xl,
        r.unwrap()@.value == merged(dir.value, a@.value, b@.value),
        r.unwrap().valid(final(cs)@),
        old(cs)@.proving && old(cs)@.satisfied() ==> final(cs)@.satisfied(),
{
    let ghost start = cs@;
    proof {
        if start.proving {
            dir.lemma_valid_value(start);
            a.lemma_valid_value(start);
            b.lemma_valid_value(start);
        }
    }
    let select = Boolean::Is(*dir);
    let na = Number::from_num(*a);
    let nb = Number::from_num(*b);
    let left = match mux(cs, &select, &na, &nb) {
        Ok(n) => n,
        Err(e) => {
            return Err(e);
        },
    };
    let ghost c1 = cs@;
    proof {
        select.lemma_valid_extends(start, c1);
        a.lemma_valid_extends(start, c1);
        b.lemma_valid_extends(start, c1);
    }
    let right = match mux(cs, &select, &nb, &na) {
        Ok(n) => n,
        Err(e) => {
            return Err(e);
        },
    };
    proof {
        left.lemma_valid_extends(c1, cs@);
    }
    double_mimc(cs, left, right)
}

/// The running value after the first `k` levels.
pub open spec fn root_value(bits: Seq<Option<bool>>, leaf: Option<nat>, siblings: Seq<Option<nat>>, k: nat) -> Option<
    nat,
>
    decreases k,
{
    if k == 0 {
        leaf
    } else {
        merged(bits[k - 1], root_value(bits, leaf, siblings, (k - 1) as nat), siblings[k - 1])
    }
}

/// The system and the running value after the first `k` levels.
pub open spec fn calc_root_model(cs: CsModel, bits: Seq<AllocatedBit>, leaf: Wire, proof: Seq<AllocatedNum>, k: nat) -> Feistel
    decreases k,
{
    if k == 0 {
        Feistel { cs, xl: leaf, xr: leaf }
    } else {
        let f = calc_root_model(cs, bits, leaf, proof, (k - 1) as nat);
        merge_model(f.cs, bits[k - 1], f.xl, proof[k - 1]@)
    }
}

/// The values of the bits.
pub open spec fn bit_values(bits: Seq<AllocatedBit>) -> Seq<Option<bool>> {
    Seq::new(bits.len(), |i: int| bits[i].value)
}

/// The values of the siblings.
pub open spec fn sibling_values(proof: Seq<AllocatedNum>) -> Seq<Option<nat>> {
    Seq::new(proof.len(), |i: int| proof[i]@.value)
}

/// Whether every sibling is valid in `cs`.
pub open spec fn proof_valid(proof: Seq<AllocatedNum>, cs: CsModel) -> bool {
    forall|i: int| 0 <= i < proof.len() ==> (#[trigger] proof[i]).valid(cs)
}

/// The root that a leaf, its index and its proof give: level after level, a bit of the
/// index swaps the running value and the sibling or not, and the two are hashed.
pub fn calc_root(cs: &mut ConstraintSystem, index: &UnsignedInteger, val: AllocatedNum, proof: &Vec<AllocatedNum>) -> (r:
    Result<AllocatedNum, SynthesisError>)
    requires
        old(cs).wf(),
        index.valid(old(cs)@),
        val.valid(old(cs)@),
        proof_valid(proof@, old(cs)@),
        index.bit_seq().len() == proof@.len(),
    ensures
        final(cs).wf(),
        final(cs)@.extends(old(cs)@),
        r is Ok,
        final(cs)@ == calc_root_model(old(cs)@, index.bit_seq(), val@, proof@, proof@.len()).cs,
        r.unwrap()@ == calc_root_model(old(cs)@, index.bit_seq(), val@, proof@, proof@.len()).xl,
        r.unwrap()@.value == root_value(
            bit_values(index.bit_seq()),
            val@.value,
            sibling_values(proof@),
            proof@.len(),
        ),
        r.unwrap().valid(final(cs)@),
        old(cs)@.proving && old(cs)@.satisfied() ==> final(cs)@.satisfied(),
{
    let ghost start = cs@;
    let bits = index.bits();
    let depth = proof.len();
    let mut curr = val;
    let mut k: usize = 0;
    while k < depth
        invariant
            0 <= k <= depth,
            depth == proof@.len(),
            bits@ == index.bit_seq(),
            bits@.len() == depth,
            start == old(cs)@,
            index.valid(start),
            proof_valid(proof@, start),
            cs.wf(),
            cs@.extends(start),
            curr.valid(cs@),
            cs@ == calc_root_model(start, bits@, val@, proof@, k as nat).cs,
            curr@ == calc_root_model(start, bits@, val@, proof@, k as nat).xl,
            curr@.value == root_value(
                bit_values(bits@),
                val@.value,
                sibling_values(proof@),
                k as nat,
            ),
            start.proving && start.satisfied() ==> cs@.satisfied(),
        decreases depth - k,
    {
        let ghost before = cs@;
        let dir = &bits[k];
        let sibling = &proof[k];
        proof {
            assert(proof@[k as int].valid(start));
            assert(index.bit_seq()[k as int].valid(start));
            dir.lemma_valid_extends(start, before);
            sibling.lemma_valid_extends(start, before);
            assert(bit_values(bits@)[k as int] == dir.value);
            assert(sibling_values(proof@)[k as int] == sibling@.value);
        }
        curr = match merge_hash(cs, dir, &curr, sibling) {
            Ok(n) => n,
            Err(e) => {
                return Err(e);
            },
        };
        k += 1;
    }
    Ok(curr)
}

/// The system after `check_proof`.
pub open spec fn check_proof_model(cs: CsModel, enabled: AllocatedBit, bits: Seq<AllocatedBit>, leaf: Wire, proof: Seq<AllocatedNum>, root: Wire) -> CsModel {
    let f = calc_root_model(cs, bits, leaf, proof, proof.len());
    gated_equal_cs(f.cs, enabled, term_of(f.xl), term_of(root))
}

/// Asserts, where the bit `enabled` is set, that `val` is the leaf at `index` of the
/// tree with the given `root`.
pub fn check_proof(
    cs: &mut ConstraintSystem,
    enabled: AllocatedBit,
    index: &UnsignedInteger,
    val: AllocatedNum,
    proof: &Vec<AllocatedNum>,
    root: AllocatedNum,
) -> (r: Result<(), SynthesisError>)
    requires
        old(cs).wf(),
        enabled.valid(old(cs)@),
        index.valid(old(cs)@),
        val.valid(old(cs)@),
        root.valid(old(cs)@),
        proof_valid(proof@, old(cs)@),
        index.bit_seq().len() == proof@.len(),
    ensures
        final(cs).wf(),
        final(cs)@.extends(old(cs)@),
        r is Ok,
        final(cs)@ == check_proof_model(
            old(cs)@,
            enabled,
            index.bit_seq(),
            val@,
            proof@,
            root@,
        ),
        old(cs)@.proving && old(cs)@.satisfied() ==> (final(cs)@.satisfied() <==> (enabled.value
            == Some(true) ==> root@.value == root_value(
            bit_values(index.bit_seq()),
            val@.value,
            sibling_values(proof@),
            proof@.len(),
        ))),
{
    let ghost start = cs@;
    let new_root = match calc_root(cs, index, val, proof) {
        Ok(n) => n,
        Err(e) => {
            return Err(e);
        },
    };
    proof {
        enabled.lemma_valid_extends(start, cs@);
        root.lemma_valid_extends(start, cs@);
    }
    assert_equal(cs, enabled, new_root, root)
}

/// The low `n` bits of an index, least significant first.
pub open spec fn index_bits(index: u64, n: nat) -> Seq<Option<bool>> {
    Seq::new(n, |i: int| Some(bit_of(index as nat, i as nat)))
}

/// The root that a leaf, its index and its proof give, on field elements.
pub fn calc_root_native(index: u64, leaf: Fr, proof: &Vec<Fr>) -> (r: Fr)
    requires
        proof@.len() <= 64,
    ensures
        Some(r@) == root_value(
            index_bits(index, proof@.len()),
            Some(leaf@),
            crate::poseidon::known(proof@),
            proof@.len(),
        ),
{
    let depth = proof.len();
    let mut curr = leaf;
    let mut k: usize = 0;
    while k < depth
        invariant
            0 <= k <= depth <= 64,
            depth == proof@.len(),
            Some(curr@) == root_value(
                index_bits(index, proof@.len()),
                Some(leaf@),
                crate::poseidon::known(proof@),
                k as nat,
            ),
        decreases depth - k,
    {
        let shift = k as u64;
        let shifted = index >> shift;
        let dir = shifted & 1 == 1;
        proof {
            vstd::bits::lemma_u64_shr_is_div(index, shift);
            assert((shifted & 1 == 1) == (shifted % 2 == 1)) by (bit_vector);
            assert(index_bits(index, proof@.len())[k as int] == Some(dir));
            assert(crate::poseidon::known(proof@)[k as int] == Some(proof@[k as int]@));
        }
        curr = if dir {
            crate::mimc::double_mimc(proof[k], curr)
        } else {
            crate::mimc::double_mimc(curr, proof[k])
        };
        k += 1;
    }
    curr
}

} // verus!
