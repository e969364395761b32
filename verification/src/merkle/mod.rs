//! Membership in a quaternary Merkle tree of fixed depth.
//!
//! A proof holds three siblings for every level. Two bits of the leaf index choose, at
//! each level, which of the four slots the running value takes among them; the four
//! slots are hashed into the running value of the next level.

pub mod binary;

use crate::common::mux::{mux, mux_cs, pick};
use crate::common::number::{Number, NumberModel};
use crate::common::uint::UnsignedInteger;
use crate::common::wire::{both, negation, AllocatedBit, AllocatedNum, Boolean};
use crate::common::{assert_equal_if_enabled, assert_equal_if_enabled_cs};
use crate::cs::{value_of, ConstraintSystem, CsModel, SynthesisError};
use crate::field::{bit_of, Fr};
use crate::poseidon::{
    hash, hash_value, known, models, poseidon, poseidon_model, values, Hashing, PoseidonParams, ParamsModel,
};
use vstd::prelude::*;

verus! {

/// The disjunction by De Morgan, as the hash gadget computes it.
pub open spec fn either_way(a: Option<bool>, b: Option<bool>) -> Option<bool> {
    negation(both(negation(a), negation(b)))
}

/// The four slots of a level: the running value `v` placed among the siblings at the
/// position that the bits `s0` (low) and `s1` (high) give.
pub open spec fn placed(
    s0: Option<bool>,
    s1: Option<bool>,
    v: Option<nat>,
    sib0: Option<nat>,
    sib1: Option<nat>,
    sib2: Option<nat>,
) -> Seq<Option<nat>> {
    seq![
        pick(either_way(s0, s1), v, sib0),
        pick(s1, pick(s0, sib0, v), sib1),
        pick(s1, sib1, pick(s0, v, sib2)),
        pick(both(s0, s1), sib2, v),
    ]
}

/// With known bits, the running value stands at position `s0 + 2 * s1` and the siblings
/// fill the other slots in order.
pub proof fn lemma_placed(s0: bool, s1: bool, v: Option<nat>, sib0: Option<nat>, sib1: Option<nat>, sib2: Option<nat>)
    ensures
        placed(Some(s0), Some(s1), v, sib0, sib1, sib2) == (if !s0 && !s1 {
            seq![v, sib0, sib1, sib2]
        } else if s0 && !s1 {
            seq![sib0, v, sib1, sib2]
        } else if !s0 && s1 {
            seq![sib0, sib1, v, sib2]
        } else {
            seq![sib0, sib1, sib2, v]
        }),
{
    let l = placed(Some(s0), Some(s1), v, sib0, sib1, sib2);
    if !s0 && !s1 {
        assert(l =~= seq![v, sib0, sib1, sib2]);
    } else if s0 && !s1 {
        assert(l =~= seq![sib0, v, sib1, sib2]);
    } else if !s0 && s1 {
        assert(l =~= seq![sib0, sib1, v, sib2]);
    } else {
        assert(l =~= seq![sib0, sib1, sib2, v]);
    }
}

/// The result of a multiplexer.
pub open spec fn mux_out(cs: CsModel, select: Boolean, a: NumberModel, b: NumberModel) -> NumberModel {
    NumberModel::of_var(cs.next_aux(), cs.kept(pick(select.value(), a.value, b.value)))
}

/// The term of a variable.
pub open spec fn term_of(n: AllocatedNum) -> NumberModel {
    NumberModel::of_var(n.variable, value_of(n.value))
}

/// The system after the six multiplexers of a level, with the four slots they fill.
pub open spec fn slots_model(
    cs: CsModel,
    s0: AllocatedBit,
    s1: AllocatedBit,
    v: NumberModel,
    p: [AllocatedNum; 3],
) -> Hashing {
    let a = Boolean::Is(s0);
    let b = Boolean::Is(s1);
    let c1 = Boolean::and_cs(cs, a, b);
    let and = Boolean::and_out(cs, a, b);
    let c2 = Boolean::and_cs(c1, a.negated(), b.negated());
    let or = Boolean::and_out(c1, a.negated(), b.negated()).negated();
    let c3 = mux_cs(c2, or, v, term_of(p[0]));
    let v0 = mux_out(c2, or, v, term_of(p[0]));
    let c4 = mux_cs(c3, a, term_of(p[0]), v);
    let v1p = mux_out(c3, a, term_of(p[0]), v);
    let c5 = mux_cs(c4, b, v1p, term_of(p[1]));
    let v1 = mux_out(c4, b, v1p, term_of(p[1]));
    let c6 = mux_cs(c5, a, v, term_of(p[2]));
    let v2p = mux_out(c5, a, v, term_of(p[2]));
    let c7 = mux_cs(c6, b, term_of(p[1]), v2p);
    let v2 = mux_out(c6, b, term_of(p[1]), v2p);
    let c8 = mux_cs(c7, and, term_of(p[2]), v);
    let v3 = mux_out(c7, and, term_of(p[2]), v);
    Hashing { cs: c8, state: seq![v0, v1, v2, v3] }
}

/// The system and the running value after one level.
pub open spec fn merge_model(
    cs: CsModel,
    params: ParamsModel,
    s0: AllocatedBit,
    s1: AllocatedBit,
    v: NumberModel,
    p: [AllocatedNum; 3],
) -> Hashing {
    let h = slots_model(cs, s0, s1, v, p);
    poseidon_model(h.cs, params, h.state)
}

/// Whether the three siblings are valid in `cs`.
pub open spec fn siblings_valid(p: [AllocatedNum; 3], cs: CsModel) -> bool {
    p[0].valid(cs) && p[1].valid(cs) && p[2].valid(cs)
}

/// One level: places `v` among the siblings `p` by the bits `select` and hashes the four
/// slots.
#[verifier::rlimit(80)]
fn merge_hash_poseidon4(
    cs: &mut ConstraintSystem,
    params: &PoseidonParams,
    select: (&AllocatedBit, &AllocatedBit),
    v: &Number,
    p: &[AllocatedNum; 3],
) -> (r: Result<Number, SynthesisError>)
    requires
        old(cs).wf(),
        params.wf(),
        params@.width() == 5,
        select.0.valid(old(cs)@),
        select.1.valid(old(cs)@),
        v@.valid(old(cs)@),
        siblings_valid(*p, old(cs)@),
    ensures
        final(cs).wf(),
        final(cs)@.extends(old(cs)@),
        r is Err <==> old(cs)@.proving && v@.value is None,
        r is Ok ==> {
            &&& final(cs)@ == merge_model(old(cs)@, params@, *select.0, *select.1, v@, *p).cs
            &&& r.unwrap()@ == merge_model(old(cs)@, params@, *select.0, *select.1, v@, *p).state[1]
            &&& r.unwrap()@.valid(final(cs)@)
            &&& old(cs)@.proving ==> r.unwrap()@.value == hash_value(
                params@,
                placed(
                    select.0.value,
                    select.1.value,
                    v@.value,
                    value_of(p[0].value),
                    value_of(p[1].value),
                    value_of(p[2].value),
                ),
            )
            &&& old(cs)@.proving ==> r.unwrap()@.value is Some
            &&& old(cs)@.proving && old(cs)@.satisfied() ==> final(cs)@.satisfied()
        },
{
    let ghost start = cs@;
    let a = Boolean::Is(*select.0);
    let b = Boolean::Is(*select.1);
    proof {
        if start.proving {
            select.0.lemma_valid_value(start);
            select.1.lemma_valid_value(start);
            p[0].lemma_valid_value(start);
            p[1].lemma_valid_value(start);
            p[2].lemma_valid_value(start);
        }
    }
    let and = match Boolean::and(cs, &a, &b) {
        Ok(x) => x,
        Err(e) => {
            return Err(e);
        },
    };
    let na = a.not();
    let nb = b.not();
    proof {
        a.lemma_valid_extends(start, cs@);
        b.lemma_valid_extends(start, cs@);
    }
    let or = match Boolean::and(cs, &na, &nb) {
        Ok(x) => x.not(),
        Err(e) => {
            return Err(e);
        },
    };
    let sib0 = Number::from_num(p[0]);
    let sib1 = Number::from_num(p[1]);
    let sib2 = Number::from_num(p[2]);
    let ghost c2 = cs@;
    proof {
        v@.lemma_valid_extends(start, c2);
        p[0].lemma_valid_extends(start, c2);
        p[1].lemma_valid_extends(start, c2);
        p[2].lemma_valid_extends(start, c2);
        a.lemma_valid_extends(start, c2);
        b.lemma_valid_extends(start, c2);
        and.lemma_valid_extends(Boolean::and_cs(start, a, b), c2);
    }
    let v0 = match mux(cs, &or, v, &sib0) {
        Ok(x) => x,
        Err(e) => {
            return Err(e);
        },
    };
    let ghost c3 = cs@;
    proof {
        v@.lemma_valid_extends(c2, c3);
        sib0@.lemma_valid_extends(c2, c3);
        sib1@.lemma_valid_extends(c2, c3);
        sib2@.lemma_valid_extends(c2, c3);
    }
    let v1p = match mux(cs, &a, &sib0, v) {
        Ok(x) => x,
        Err(e) => {
            return Err(e);
        },
    };
    let ghost c4 = cs@;
    let n1p = Number::from_num(v1p);
    proof {
        v@.lemma_valid_extends(c3, c4);
        sib1@.lemma_valid_extends(c3, c4);
        sib2@.lemma_valid_extends(c3, c4);
    }
    let v1 = match mux(cs, &b, &n1p, &sib1) {
        Ok(x) => x,
        Err(e) => {
            return Err(e);
        },
    };
    let ghost c5 = cs@;
    proof {
        v@.lemma_valid_extends(c4, c5);
        sib1@.lemma_valid_extends(c4, c5);
        sib2@.lemma_valid_extends(c4, c5);
    }
    let v2p = match mux(cs, &a, v, &sib2) {
        Ok(x) => x,
        Err(e) => {
            return Err(e);
        },
    };
    let ghost c6 = cs@;
    let n2p = Number::from_num(v2p);
    proof {
        v@.lemma_valid_extends(c5, c6);
        sib1@.lemma_valid_extends(c5, c6);
        sib2@.lemma_valid_extends(c5, c6);
    }
    let v2 = match mux(cs, &b, &sib1, &n2p) {
        Ok(x) => x,
        Err(e) => {
            return Err(e);
        },
    };
    let ghost c7 = cs@;
    proof {
        v@.lemma_valid_extends(c6, c7);
        sib2@.lemma_valid_extends(c6, c7);
        and.lemma_valid_extends(c2, c7);
    }
    let v3 = match mux(cs, &and, &sib2, v) {
        Ok(x) => x,
        Err(e) => {
            return Err(e);
        },
    };
    let ghost c8 = cs@;
    let mut slots: Vec<Number> = Vec::new();
    slots.push(Number::from_num(v0));
    slots.push(Number::from_num(v1));
    slots.push(Number::from_num(v2));
    slots.push(Number::from_num(v3));
    proof {
        let h = slots_model(start, *select.0, *select.1, v@, *p);
        assert(models(slots@) =~= h.state);
        assert(c8 == h.cs);
        v0.lemma_valid_extends(c3, c8);
        v1.lemma_valid_extends(c5, c8);
        v2.lemma_valid_extends(c7, c8);
        if start.proving {
            assert(values(models(slots@)) =~= placed(
                select.0.value,
                select.1.value,
                v@.value,
                value_of(p[0].value),
                value_of(p[1].value),
                value_of(p[2].value),
            ));
            assert(models(slots@)[0].value is Some);
            assert(models(slots@)[1].value is Some);
            assert(models(slots@)[2].value is Some);
            assert(models(slots@)[3].value is Some);
            if params@.rounds() == 0 {
                let s = values(models(slots@));
                assert((seq![Some(0nat)] + s)[1] == s[0]);
            }
        }
    }
    poseidon(cs, params, &slots)
}

/// The running value after the first `k` levels: the hash, level after level, of the
/// four slots that the index bits and the siblings give.
pub open spec fn root_value(
    params: ParamsModel,
    bits: Seq<Option<bool>>,
    leaf: Option<nat>,
    siblings: Seq<Seq<Option<nat>>>,
    k: nat,
) -> Option<nat>
    decreases k,
{
    if k == 0 {
        leaf
    } else {
        let below = root_value(params, bits, leaf, siblings, (k - 1) as nat);
        let p = siblings[k - 1];
        hash_value(params, placed(bits[2 * (k - 1)], bits[2 * (k - 1) + 1], below, p[0], p[1], p[2]))
    }
}

/// The system and the running value after the first `k` levels.
pub open spec fn calc_root_model(
    cs: CsModel,
    params: ParamsModel,
    bits: Seq<AllocatedBit>,
    leaf: NumberModel,
    proof: Seq<[AllocatedNum; 3]>,
    k: nat,
) -> Hashing
    decreases k,
{
    if k == 0 {
        Hashing { cs, state: seq![leaf, leaf] }
    } else {
        let h = calc_root_model(cs, params, bits, leaf, proof, (k - 1) as nat);
        merge_model(h.cs, params, bits[2 * (k - 1)], bits[2 * (k - 1) + 1], h.state[1], proof[k - 1])
    }
}

/// The values of the bits.
pub open spec fn bit_values(bits: Seq<AllocatedBit>) -> Seq<Option<bool>> {
    Seq::new(bits.len(), |i: int| bits[i].value)
}

/// The values of the siblings.
pub open spec fn sibling_values(proof: Seq<[AllocatedNum; 3]>) -> Seq<Seq<Option<nat>>> {
    Seq::new(
        proof.len(),
        |i: int| seq![value_of(proof[i][0].value), value_of(proof[i][1].value), value_of(proof[i][2].value)],
    )
}

/// Whether every sibling of the proof is valid in `cs`.
pub open spec fn proof_valid(proof: Seq<[AllocatedNum; 3]>, cs: CsModel) -> bool {
    forall|i: int| 0 <= i < proof.len() ==> siblings_valid(#[trigger] proof[i], cs)
}

/// The root that a leaf, its index and its proof give: level after level, the running
/// value is placed among the three siblings by two bits of the index and the four slots
/// are hashed.
pub fn calc_root_poseidon4(
    cs: &mut ConstraintSystem,
    params: &PoseidonParams,
    index: &UnsignedInteger,
    val: &Number,
    proof: &Vec<[AllocatedNum; 3]>,
) -> (r: Result<Number, SynthesisError>)
    requires
        old(cs).wf(),
        params.wf(),
        params@.width() == 5,
        index.valid(old(cs)@),
        val@.valid(old(cs)@),
        proof_valid(proof@, old(cs)@),
        index.bit_seq().len() == proof@.len() * 2,
    ensures
        final(cs).wf(),
        final(cs)@.extends(old(cs)@),
        r is Err <==> old(cs)@.proving && val@.value is None && proof@.len() > 0,
        r is Ok ==> {
            &&& final(cs)@ == calc_root_model(
                old(cs)@,
                params@,
                index.bit_seq(),
                val@,
                proof@,
                proof@.len(),
            ).cs
            &&& r.unwrap()@ == calc_root_model(
                old(cs)@,
                params@,
                index.bit_seq(),
                val@,
                proof@,
                proof@.len(),
            ).state[1]
            &&& r.unwrap()@.valid(final(cs)@)
            &&& old(cs)@.proving ==> r.unwrap()@.value == root_value(
                params@,
                bit_values(index.bit_seq()),
                val@.value,
                sibling_values(proof@),
                proof@.len(),
            )
            &&& old(cs)@.proving && val@.value is Some ==> r.unwrap()@.value is Some
            &&& old(cs)@.proving && old(cs)@.satisfied() ==> final(cs)@.satisfied()
        },
{
    let ghost start = cs@;
    let depth = proof.len();
    let bits = index.bits();
    let width = bits.len();
    let mut curr = val.clone();
    let mut k: usize = 0;
    while k < depth
        invariant
            0 <= k <= depth,
            depth == proof@.len(),
            bits@ == index.bit_seq(),
            width == bits@.len(),
            width == depth * 2,
            params.wf(),
            params@.width() == 5,
            start == old(cs)@,
            index.valid(start),
            proof_valid(proof@, start),
            cs.wf(),
            cs@.extends(start),
            cs@ == calc_root_model(start, params@, bits@, val@, proof@, k as nat).cs,
            curr@ == calc_root_model(start, params@, bits@, val@, proof@, k as nat).state[1],
            curr@.valid(cs@),
            start.proving ==> curr@.value == root_value(
                params@,
                bit_values(bits@),
                val@.value,
                sibling_values(proof@),
                k as nat,
            ),
            k > 0 && start.proving ==> val@.value is Some,
            k == 0 ==> curr@ == val@,
            start.proving && val@.value is Some ==> curr@.value is Some,
            start.proving && start.satisfied() ==> cs@.satisfied(),
        decreases depth - k,
    {
        let ghost before = cs@;
        let p = &proof[k];
        let s0 = &bits[2 * k];
        let s1 = &bits[2 * k + 1];
        proof {
            assert(siblings_valid(proof@[k as int], start));
            assert(index.bit_seq()[2 * k].valid(start));
            assert(index.bit_seq()[2 * k + 1].valid(start));
            p[0].lemma_valid_extends(start, before);
            p[1].lemma_valid_extends(start, before);
            p[2].lemma_valid_extends(start, before);
            s0.lemma_valid_extends(start, before);
            s1.lemma_valid_extends(start, before);
            assert(bit_values(bits@)[2 * k] == s0.value);
            assert(bit_values(bits@)[2 * k + 1] == s1.value);
            assert(sibling_values(proof@)[k as int] =~= seq![
                value_of(p[0].value),
                value_of(p[1].value),
                value_of(p[2].value),
            ]);
        }
        curr = match merge_hash_poseidon4(cs, params, (s0, s1), &curr, p) {
            Ok(x) => x,
            Err(e) => {
                return Err(e);
            },
        };
        k += 1;
    }
    Ok(curr)
}

/// The system after `check_proof_poseidon4`.
pub open spec fn check_proof_model(
    cs: CsModel,
    params: ParamsModel,
    enabled: Boolean,
    bits: Seq<AllocatedBit>,
    leaf: NumberModel,
    proof: Seq<[AllocatedNum; 3]>,
    root: NumberModel,
) -> CsModel {
    let h = calc_root_model(cs, params, bits, leaf, proof, proof.len());
    assert_equal_if_enabled_cs(h.cs, enabled, root, h.state[1])
}

/// Asserts, where `enabled` holds, that `val` is the leaf at `index` of the tree with
/// the given `root`.
pub fn check_proof_poseidon4(
    cs: &mut ConstraintSystem,
    params: &PoseidonParams,
    enabled: &Boolean,
    index: &UnsignedInteger,
    val: &Number,
    proof: &Vec<[AllocatedNum; 3]>,
    root: &Number,
) -> (r: Result<(), SynthesisError>)
    requires
        old(cs).wf(),
        params.wf(),
        params@.width() == 5,
        enabled.valid(old(cs)@),
        !(enabled is Not),
        index.valid(old(cs)@),
        val@.valid(old(cs)@),
        root@.valid(old(cs)@),
        proof_valid(proof@, old(cs)@),
        index.bit_seq().len() == proof@.len() * 2,
    ensures
        final(cs).wf(),
        final(cs)@.extends(old(cs)@),
        r is Err <==> old(cs)@.proving && ((val@.value is None && proof@.len() > 0) || (enabled is Is
            && enabled.value() == Some(true) && root@.value is None)),
        r is Ok ==> {
            &&& final(cs)@ == check_proof_model(
                old(cs)@,
                params@,
                *enabled,
                index.bit_seq(),
                val@,
                proof@,
                root@,
            )
            &&& old(cs)@.proving && old(cs)@.satisfied() && root@.value is Some && val@.value is Some
                ==> (final(cs)@.satisfied() <==> (enabled.value() == Some(true) ==> root@.value
                == root_value(
                params@,
                bit_values(index.bit_seq()),
                val@.value,
                sibling_values(proof@),
                proof@.len(),
            )))
        },
{
    let ghost start = cs@;
    let new_root = match calc_root_poseidon4(cs, params, index, val, proof) {
        Ok(x) => x,
        Err(e) => {
            return Err(e);
        },
    };
    proof {
        let mid = cs@;
        root@.lemma_valid_extends(start, mid);
        enabled.lemma_valid_extends(start, mid);
    }
    assert_equal_if_enabled(cs, enabled, root, &new_root)
}

/// The low `n` bits of an index, least significant first.
pub open spec fn index_bits(index: u64, n: nat) -> Seq<Option<bool>> {
    Seq::new(n, |i: int| Some(bit_of(index as nat, i as nat)))
}

/// The values of native siblings.
pub open spec fn known_siblings(proof: Seq<[Fr; 3]>) -> Seq<Seq<Option<nat>>> {
    Seq::new(proof.len(), |i: int| seq![Some(proof[i][0]@), Some(proof[i][1]@), Some(proof[i][2]@)])
}

/// Bit `i` of an index.
fn index_bit(index: u64, i: usize) -> (r: bool)
    requires
        i < 64,
    ensures
        r == bit_of(index as nat, i as nat),
{
    let shift = i as u64;
    let shifted = index >> shift;
    proof {
        vstd::bits::lemma_u64_shr_is_div(index, shift);
        assert((shifted & 1 == 1) == (shifted % 2 == 1)) by (bit_vector);
    }
    shifted & 1 == 1
}

/// The root that a leaf, its index and its proof give, on field elements: the value
/// that `calc_root_poseidon4` lays down as constraints.
pub fn calc_root(params: &PoseidonParams, index: u64, leaf: Fr, proof: &Vec<[Fr; 3]>) -> (r: Fr)
    requires
        params.wf(),
        params@.width() == 5,
        proof@.len() <= 32,
    ensures
        Some(r@) == root_value(
            params@,
            index_bits(index, 2 * proof@.len()),
            Some(leaf@),
            known_siblings(proof@),
            proof@.len(),
        ),
{
    let depth = proof.len();
    let ghost bits = index_bits(index, 2 * proof@.len());
    let ghost sibs = known_siblings(proof@);
    let mut curr = leaf;
    let mut k: usize = 0;
    while k < depth
        invariant
            0 <= k <= depth <= 32,
            depth == proof@.len(),
            params.wf(),
            params@.width() == 5,
            bits == index_bits(index, 2 * proof@.len()),
            sibs == known_siblings(proof@),
            Some(curr@) == root_value(params@, bits, Some(leaf@), sibs, k as nat),
        decreases depth - k,
    {
        let p = &proof[k];
        let s0 = index_bit(index, 2 * k);
        let s1 = index_bit(index, 2 * k + 1);
        let mut slots: Vec<Fr> = Vec::new();
        if !s0 && !s1 {
            slots.push(curr);
            slots.push(p[0]);
            slots.push(p[1]);
            slots.push(p[2]);
        } else if s0 && !s1 {
            slots.push(p[0]);
            slots.push(curr);
            slots.push(p[1]);
            slots.push(p[2]);
        } else if !s0 && s1 {
            slots.push(p[0]);
            slots.push(p[1]);
            slots.push(curr);
            slots.push(p[2]);
        } else {
            slots.push(p[0]);
            slots.push(p[1]);
            slots.push(p[2]);
            slots.push(curr);
        }
        proof {
            lemma_placed(s0, s1, Some(curr@), Some(p[0]@), Some(p[1]@), Some(p[2]@));
            assert(bits[2 * k] == Some(s0));
            assert(bits[2 * k + 1] == Some(s1));
            assert(sibs[k as int] =~= seq![Some(p[0]@), Some(p[1]@), Some(p[2]@)]);
            assert(known(slots@) =~= placed(
                Some(s0),
                Some(s1),
                Some(curr@),
                Some(p[0]@),
                Some(p[1]@),
                Some(p[2]@),
            ));
        }
        curr = hash(params, &slots);
        k += 1;
    }
    curr
}

/// A membership proof for a tree of depth `LOG4_TREE_SIZE`: three siblings for every
/// level, from the leaf up.
#[derive(Debug, Clone)]
pub struct Proof<const LOG4_TREE_SIZE: u8>(pub Vec<[Fr; 3]>);

impl<const LOG4_TREE_SIZE: u8> Default for Proof<LOG4_TREE_SIZE> {
    /// The proof of full depth whose siblings are all zero.
    fn default() -> (r: Self)
        ensures
            r.0@.len() == LOG4_TREE_SIZE,
            forall|i: int|
                0 <= i < r.0@.len() ==> (#[trigger] r.0@[i])[0]@ == 0 && r.0@[i][1]@ == 0
                    && r.0@[i][2]@ == 0,
    {
        let mut levels: Vec<[Fr; 3]> = Vec::new();
        let mut k: u8 = 0;
        while k < LOG4_TREE_SIZE
            invariant
                0 <= k <= LOG4_TREE_SIZE,
                levels@.len() == k,
                forall|i: int|
                    0 <= i < levels@.len() ==> (#[trigger] levels@[i])[0]@ == 0 && levels@[i][1]@
                        == 0 && levels@[i][2]@ == 0,
            decreases LOG4_TREE_SIZE - k,
        {
            levels.push([Fr::zero(), Fr::zero(), Fr::zero()]);
            k += 1;
        }
        Proof(levels)
    }
}

} // verus!
