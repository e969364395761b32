//! The commitment of a structured state: a scalar is its own commitment, a struct is
//! committed by the chained hash of its fields' commitments, and a list of `4^k` items
//! by folding their commitments four at a time until one is left.

use crate::common::number::{Number, NumberModel};
use crate::cs::{ConstraintSystem, CsModel, SynthesisError};
use crate::poseidon::{
    all_valid, chain_model, chain_value, chunks, hash_value, lemma_all_valid_extends, models,
    paired, poseidon4, poseidon_chain, poseidon_model, some_missing, values, Hashing,
    ParamsModel, PoseidonParams,
};
use vstd::prelude::*;

verus! {

/// The shape of a state: a scalar, a struct of shaped fields, or a list of `4^log4_size`
/// items of one shape.
pub enum StateShape {
    Scalar,
    Struct { field_types: Vec<StateShape> },
    List { log4_size: u8, item_type: Box<StateShape> },
}

/// A state whose scalars are linear terms: a value, or the children of a struct or a
/// list.
pub enum AllocatedState {
    Value(Number),
    Children(Vec<AllocatedState>),
}

/// The power `4^k`.
pub open spec fn pow4(k: nat) -> nat
    decreases k,
{
    if k == 0 {
        1
    } else {
        4 * pow4((k - 1) as nat)
    }
}

/// Whether the state has the given shape.
pub open spec fn conforms(shape: StateShape, state: AllocatedState) -> bool
    decreases shape,
{
    match shape {
        StateShape::Scalar => state is Value,
        StateShape::Struct { field_types } => {
            &&& state is Children
            &&& state->Children_0@.len() == field_types@.len()
            &&& forall|i: int|
                0 <= i < field_types@.len() ==> conforms(
                    #[trigger] field_types@[i],
                    state->Children_0@[i],
                )
        },
        StateShape::List { log4_size, item_type } => {
            &&& state is Children
            &&& state->Children_0@.len() == pow4(log4_size as nat)
            &&& forall|i: int|
                0 <= i < state->Children_0@.len() ==> conforms(
                    *item_type,
                    #[trigger] state->Children_0@[i],
                )
        },
    }
}

/// Whether every term of the state is valid in `cs`.
pub open spec fn state_valid(state: AllocatedState, cs: CsModel) -> bool
    decreases state,
{
    match state {
        AllocatedState::Value(n) => n@.valid(cs),
        AllocatedState::Children(c) => forall|i: int|
            0 <= i < c@.len() ==> state_valid(#[trigger] c@[i], cs),
    }
}

/// Whether every term of the state carries its value.
pub open spec fn state_known(state: AllocatedState) -> bool
    decreases state,
{
    match state {
        AllocatedState::Value(n) => n@.value is Some,
        AllocatedState::Children(c) => forall|i: int|
            0 <= i < c@.len() ==> state_known(#[trigger] c@[i]),
    }
}

/// A state that was valid stays valid when the system grows.
pub proof fn lemma_state_valid_extends(state: AllocatedState, base: CsModel, ext: CsModel)
    requires
        state_valid(state, base),
        ext.extends(base),
    ensures
        state_valid(state, ext),
    decreases state,
{
    match state {
        AllocatedState::Value(n) => {
            n@.lemma_valid_extends(base, ext);
        },
        AllocatedState::Children(c) => {
            assert forall|i: int| 0 <= i < c@.len() implies state_valid(#[trigger] c@[i], ext) by {
                lemma_state_valid_extends(c@[i], base, ext);
            }
        },
    }
}

/// One folding step: the hashes of the leaves, four at a time.
pub open spec fn folded(p: ParamsModel, leaves: Seq<Option<nat>>) -> Seq<Option<nat>> {
    Seq::new(
        leaves.len() / 4,
        |j: int|
            hash_value(
                p,
                seq![leaves[4 * j], leaves[4 * j + 1], leaves[4 * j + 2], leaves[4 * j + 3]],
            ),
    )
}

/// The one value left after `k` folding steps on `4^k` leaves.
pub open spec fn fold4(p: ParamsModel, leaves: Seq<Option<nat>>, k: nat) -> Option<nat>
    decreases k,
{
    if k == 0 {
        leaves[0]
    } else {
        fold4(p, folded(p, leaves), (k - 1) as nat)
    }
}

/// The commitments of the first `n` children of a struct, each by the shape of its
/// field.
pub open spec fn field_commitments(p: ParamsModel, fields: Seq<StateShape>, children: Seq<AllocatedState>, n: nat) -> Seq<
    Option<nat>,
>
    decreases fields, n,
{
    if n == 0 || n > fields.len() {
        Seq::empty()
    } else {
        field_commitments(p, fields, children, (n - 1) as nat).push(
            commitment(p, fields[n - 1], children[n - 1]),
        )
    }
}

/// The commitments of the first `n` items of a list, all of one shape.
pub open spec fn item_commitments(p: ParamsModel, item: StateShape, children: Seq<AllocatedState>, n: nat) -> Seq<
    Option<nat>,
>
    decreases item, n,
{
    if n == 0 {
        Seq::empty()
    } else {
        item_commitments(p, item, children, (n - 1) as nat).push(commitment(p, item, children[n - 1]))
    }
}

/// The commitment of a state of the given shape.
pub open spec fn commitment(p: ParamsModel, shape: StateShape, state: AllocatedState) -> Option<nat>
    decreases shape, 0nat,
{
    match shape {
        StateShape::Scalar => match state {
            AllocatedState::Value(n) => n@.value,
            AllocatedState::Children(_) => None,
        },
        StateShape::Struct { field_types } => match state {
            AllocatedState::Value(_) => None,
            AllocatedState::Children(c) => {
                let vals = field_commitments(p, field_types@, c@, field_types@.len());
                chain_value(p, vals, chunks(vals.len()))
            },
        },
        StateShape::List { log4_size, item_type } => match state {
            AllocatedState::Value(_) => None,
            AllocatedState::Children(c) => fold4(
                p,
                item_commitments(p, *item_type, c@, c@.len()),
                log4_size as nat,
            ),
        },
    }
}

/// The system and the hashes after the first `j` groups of four leaves are hashed.
pub open spec fn level_model(cs: CsModel, p: ParamsModel, leaves: Seq<NumberModel>, j: nat) -> Hashing
    decreases j,
{
    if j == 0 {
        Hashing { cs, state: Seq::empty() }
    } else {
        let h = level_model(cs, p, leaves, (j - 1) as nat);
        let g = poseidon_model(
            h.cs,
            p,
            seq![leaves[4 * (j - 1)], leaves[4 * (j - 1) + 1], leaves[4 * (j - 1) + 2], leaves[4 * (j
                - 1) + 3]],
        );
        Hashing { cs: g.cs, state: h.state.push(g.state[1]) }
    }
}

/// The system and the one term left after `k` folding steps on `4^k` leaves.
pub open spec fn fold_model(cs: CsModel, p: ParamsModel, leaves: Seq<NumberModel>, k: nat) -> Hashing
    decreases k,
{
    if k == 0 {
        Hashing { cs, state: leaves }
    } else {
        let h = level_model(cs, p, leaves, leaves.len() / 4);
        fold_model(h.cs, p, h.state, (k - 1) as nat)
    }
}

/// The system and the commitments after the first `n` fields of a struct are committed.
pub open spec fn fields_model(
    cs: CsModel,
    p: ParamsModel,
    fields: Seq<StateShape>,
    children: Seq<AllocatedState>,
    n: nat,
) -> Hashing
    decreases fields, n,
{
    if n == 0 || n > fields.len() {
        Hashing { cs, state: Seq::empty() }
    } else {
        let h = fields_model(cs, p, fields, children, (n - 1) as nat);
        let g = commit_model(h.cs, p, fields[n - 1], children[n - 1]);
        Hashing { cs: g.cs, state: h.state.push(g.state[0]) }
    }
}

/// The system and the commitments after the first `n` items of a list are committed.
pub open spec fn items_model(cs: CsModel, p: ParamsModel, item: StateShape, children: Seq<AllocatedState>, n: nat) -> Hashing
    decreases item, n,
{
    if n == 0 {
        Hashing { cs, state: Seq::empty() }
    } else {
        let h = items_model(cs, p, item, children, (n - 1) as nat);
        let g = commit_model(h.cs, p, item, children[n - 1]);
        Hashing { cs: g.cs, state: h.state.push(g.state[0]) }
    }
}

/// The system after a state of the given shape is committed, with the commitment as the
/// one term of the state.
pub open spec fn commit_model(cs: CsModel, p: ParamsModel, shape: StateShape, state: AllocatedState) -> Hashing
    decreases shape, 0nat,
{
    match shape {
        StateShape::Scalar => match state {
            AllocatedState::Value(n) => Hashing { cs, state: seq![n@] },
            AllocatedState::Children(_) => Hashing { cs, state: seq![NumberModel::zero()] },
        },
        StateShape::Struct { field_types } => match state {
            AllocatedState::Value(_) => Hashing { cs, state: seq![NumberModel::zero()] },
            AllocatedState::Children(c) => {
                let h = fields_model(cs, p, field_types@, c@, field_types@.len());
                let g = chain_model(h.cs, p, h.state, chunks(h.state.len()));
                Hashing { cs: g.cs, state: seq![g.state[1]] }
            },
        },
        StateShape::List { log4_size, item_type } => match state {
            AllocatedState::Value(_) => Hashing { cs, state: seq![NumberModel::zero()] },
            AllocatedState::Children(c) => {
                let h = items_model(cs, p, *item_type, c@, c@.len());
                let g = fold_model(h.cs, p, h.state, log4_size as nat);
                Hashing { cs: g.cs, state: seq![g.state[0]] }
            },
        },
    }
}

/// Whether some value of the sequence is missing.
pub open spec fn some_none(vals: Seq<Option<nat>>) -> bool {
    exists|i: int| 0 <= i < vals.len() && (#[trigger] vals[i]) is None
}

/// Whether committing one of the first `n` fields of a struct fails while proving.
pub open spec fn fields_fail(p: ParamsModel, fields: Seq<StateShape>, children: Seq<AllocatedState>, n: nat) -> bool
    decreases fields, n,
{
    if n == 0 || n > fields.len() {
        false
    } else {
        fields_fail(p, fields, children, (n - 1) as nat) || commit_fails(
            p,
            fields[n - 1],
            children[n - 1],
        )
    }
}

/// Whether committing one of the first `n` items of a list fails while proving.
pub open spec fn items_fail(p: ParamsModel, item: StateShape, children: Seq<AllocatedState>, n: nat) -> bool
    decreases item, n,
{
    if n == 0 {
        false
    } else {
        items_fail(p, item, children, (n - 1) as nat) || commit_fails(p, item, children[n - 1])
    }
}

/// Whether committing a state fails while proving: with at least one round, a hash fails
/// where one of its inputs lacks its value. A scalar is never hashed by itself.
pub open spec fn commit_fails(p: ParamsModel, shape: StateShape, state: AllocatedState) -> bool
    decreases shape, 0nat,
{
    match shape {
        StateShape::Scalar => false,
        StateShape::Struct { field_types } => match state {
            AllocatedState::Value(_) => false,
            AllocatedState::Children(c) => {
                ||| fields_fail(p, field_types@, c@, field_types@.len())
                ||| p.rounds() > 0 && some_none(
                    field_commitments(p, field_types@, c@, field_types@.len()),
                )
            },
        },
        StateShape::List { log4_size, item_type } => match state {
            AllocatedState::Value(_) => false,
            AllocatedState::Children(c) => {
                ||| items_fail(p, *item_type, c@, c@.len())
                ||| p.rounds() > 0 && log4_size > 0 && some_none(
                    item_commitments(p, *item_type, c@, c@.len()),
                )
            },
        },
    }
}

/// A failure among the first fields is a failure among more of them.
pub proof fn lemma_fields_fail_grows(p: ParamsModel, fields: Seq<StateShape>, children: Seq<AllocatedState>, n: nat, m: nat)
    requires
        n <= m <= fields.len(),
        fields_fail(p, fields, children, n),
    ensures
        fields_fail(p, fields, children, m),
    decreases m,
{
    if n < m {
        lemma_fields_fail_grows(p, fields, children, n, (m - 1) as nat);
    }
}

/// A failure among the first items is a failure among more of them.
pub proof fn lemma_items_fail_grows(p: ParamsModel, item: StateShape, children: Seq<AllocatedState>, n: nat, m: nat)
    requires
        n <= m,
        items_fail(p, item, children, n),
    ensures
        items_fail(p, item, children, m),
    decreases m,
{
    if n < m {
        lemma_items_fail_grows(p, item, children, n, (m - 1) as nat);
    }
}

/// The values of terms.
pub open spec fn term_values(v: Seq<Number>) -> Seq<Option<nat>> {
    values(models(v))
}

/// Folds `4^k` terms four at a time until one is left.
#[verifier::rlimit(100)]
fn fold_leaves(cs: &mut ConstraintSystem, params: &PoseidonParams, leaves: Vec<Number>, k: u8) -> (r:
    Result<Number, SynthesisError>)
    requires
        old(cs).wf(),
        params.wf(),
        params@.width() == 5,
        leaves@.len() == pow4(k as nat),
        all_valid(models(leaves@), old(cs)@),
    ensures
        final(cs).wf(),
        final(cs)@.extends(old(cs)@),
        r is Err <==> old(cs)@.proving && params@.rounds() > 0 && k > 0 && some_missing(
            models(leaves@),
        ),
        r is Ok ==> {
            &&& final(cs)@ == fold_model(old(cs)@, params@, models(leaves@), k as nat).cs
            &&& r.unwrap()@ == fold_model(old(cs)@, params@, models(leaves@), k as nat).state[0]
            &&& r.unwrap()@.valid(final(cs)@)
            &&& old(cs)@.proving ==> r.unwrap()@.value == fold4(
                params@,
                term_values(leaves@),
                k as nat,
            )
            &&& old(cs)@.proving && !some_missing(models(leaves@)) ==> r.unwrap()@.value is Some
            &&& old(cs)@.proving && old(cs)@.satisfied() ==> final(cs)@.satisfied()
        },
{
    let ghost start = cs@;
    let ghost first = term_values(leaves@);
    let mut level = leaves;
    let mut left: u8 = k;
    while left > 0
        invariant
            0 <= left <= k,
            params.wf(),
            params@.width() == 5,
            start == old(cs)@,
            cs.wf(),
            cs@.extends(start),
            level@.len() == pow4(left as nat),
            all_valid(models(level@), cs@),
            fold_model(cs@, params@, models(level@), left as nat) == fold_model(
                start,
                params@,
                models(leaves@),
                k as nat,
            ),
            start.proving ==> fold4(params@, term_values(level@), left as nat) == fold4(
                params@,
                first,
                k as nat,
            ),
            left < k && start.proving ==> !some_missing(models(level@)) || params@.rounds() == 0,
            left < k && start.proving && params@.rounds() > 0 ==> !some_missing(models(leaves@)),
            start.proving && !some_missing(models(leaves@)) ==> !some_missing(models(level@)),
            left == k ==> term_values(level@) == first && models(level@) == models(leaves@),
            start.proving && start.satisfied() ==> cs@.satisfied(),
        decreases left,
    {
        let ghost before_level = models(level@);
        let ghost before_values = term_values(level@);
        let n = level.len();
        let ghost level_start = cs@;
        let mut next: Vec<Number> = Vec::new();
        let mut j: usize = 0;
        assert(pow4(left as nat) == 4 * pow4((left - 1) as nat));
        assert(models(next@) =~= Seq::<NumberModel>::empty());
        while 4 * j < n
            invariant
                n == level@.len(),
                n == 4 * pow4((left - 1) as nat),
                left > 0,
                4 * j <= n,
                params.wf(),
                params@.width() == 5,
                start == old(cs)@,
                before_level == models(level@),
                before_values == term_values(level@),
                left <= k,
                left < k && start.proving && params@.rounds() > 0 ==> !some_missing(models(leaves@)),
                left == k ==> before_level == models(leaves@),
                left < k && start.proving ==> !some_missing(before_level) || params@.rounds() == 0,
                cs.wf(),
                cs@.extends(start),
                all_valid(before_level, cs@),
                next@.len() == j,
                all_valid(models(next@), cs@),
                paired(cs@, models(next@)) == level_model(
                    level_start,
                    params@,
                    before_level,
                    j as nat,
                ),
                start.proving ==> forall|i: int|
                    0 <= i < j ==> (#[trigger] term_values(next@)[i]) == folded(
                        params@,
                        before_values,
                    )[i],
                start.proving && (params@.rounds() > 0 || !some_missing(before_level)) ==> forall|i: int|
                    0 <= i < j ==> (#[trigger] models(next@)[i]).value is Some,
                start.proving && params@.rounds() > 0 ==> forall|i: int|
                    0 <= i < 4 * j ==> (#[trigger] before_level[i]).value is Some,
                start.proving && start.satisfied() ==> cs@.satisfied(),
            decreases n - 4 * j,
        {
            let ghost before = cs@;
            let ghost old_next = models(next@);
            let a = level[4 * j].clone();
            let b = level[4 * j + 1].clone();
            let c = level[4 * j + 2].clone();
            let d = level[4 * j + 3].clone();
            proof {
                assert(before_level[4 * j].valid(before));
                assert(before_level[4 * j + 1].valid(before));
                assert(before_level[4 * j + 2].valid(before));
                assert(before_level[4 * j + 3].valid(before));
            }
            let h = match poseidon4(cs, params, a, b, c, d) {
                Ok(h) => h,
                Err(e) => {
                    proof {
                        let w = if a@.value is None {
                            4 * j
                        } else if b@.value is None {
                            4 * j + 1
                        } else if c@.value is None {
                            4 * j + 2
                        } else {
                            4 * j + 3
                        };
                        assert(before_level[w as int].value is None);
                        assert(some_missing(before_level));
                    }
                    return Err(e);
                },
            };
            proof {
                let now = cs@;
                assert(a@ == before_level[4 * j]);
                assert(b@ == before_level[4 * j + 1]);
                assert(c@ == before_level[4 * j + 2]);
                assert(d@ == before_level[4 * j + 3]);
                assert(models(next@.push(h)) =~= old_next.push(h@));
                assert(paired(now, old_next.push(h@)) == level_model(
                    level_start,
                    params@,
                    before_level,
                    (j + 1) as nat,
                ));
                lemma_all_valid_extends(before_level, before, now);
                lemma_all_valid_extends(old_next, before, now);
                assert forall|i: int| 0 <= i < j + 1 implies (#[trigger] models(next@.push(h))[i]).valid(
                    now,
                ) by {
                    if i < j {
                        assert(models(next@.push(h))[i] == old_next[i]);
                        assert(old_next[i].valid(now));
                    }
                }
                if start.proving {
                    assert forall|i: int| 0 <= i < j + 1 implies (#[trigger] term_values(
                        next@.push(h),
                    )[i]) == folded(params@, before_values)[i] by {
                        if i < j {
                            assert(term_values(next@.push(h))[i] == term_values(next@)[i]);
                        } else {
                            assert(before_values[4 * j] == a@.value);
                            assert(before_values[4 * j + 1] == b@.value);
                            assert(before_values[4 * j + 2] == c@.value);
                            assert(before_values[4 * j + 3] == d@.value);
                        }
                    }
                    if params@.rounds() > 0 || !some_missing(before_level) {
                        assert forall|i: int| 0 <= i < j + 1 implies (#[trigger] models(
                            next@.push(h),
                        )[i]).value is Some by {
                            if i < j {
                                assert(models(next@.push(h))[i] == old_next[i]);
                            } else if params@.rounds() == 0 {
                                assert(before_level[4 * j].value is Some);
                                let s = seq![a@.value, b@.value, c@.value, d@.value];
                                assert((seq![Some(0nat)] + s)[1] == s[0]);
                            }
                        }
                    }
                }
            }
            next.push(h);
            j += 1;
        }
        proof {
            assert(j as nat == before_level.len() / 4);
            if start.proving {
                assert(term_values(next@) =~= folded(params@, before_values));
                if !some_missing(before_level) {
                    if some_missing(models(next@)) {
                        let w = choose|i: int|
                            0 <= i < models(next@).len() && (#[trigger] models(next@)[i]).value
                                is None;
                        assert(models(next@)[w].value is Some);
                    }
                }
                if params@.rounds() > 0 {
                    if some_missing(models(next@)) {
                        let w = choose|i: int|
                            0 <= i < models(next@).len() && (#[trigger] models(next@)[i]).value
                                is None;
                        assert(models(next@)[w].value is Some);
                    }
                    if some_missing(before_level) {
                        let w = choose|i: int|
                            0 <= i < before_level.len() && (#[trigger] before_level[i]).value
                                is None;
                        assert(before_level[w].value is Some);
                    }
                }
            }
        }
        level = next;
        left = left - 1;
    }
    proof {
        assert(models(level@)[0] == level@[0]@);
        if start.proving && !some_missing(models(leaves@)) {
            if level@[0]@.value is None {
                assert(models(level@)[0].value is None);
            }
        }
    }
    Ok(level[0].clone())
}

/// Commits a state of the given shape to one scalar: a scalar is its own commitment, a
/// struct is committed by the chained hash of its fields' commitments, and a list by
/// folding its items' commitments four at a time until one is left.
pub fn reveal_state(
    cs: &mut ConstraintSystem,
    params: &PoseidonParams,
    state_model: &StateShape,
    state: &AllocatedState,
) -> (r: Result<Number, SynthesisError>)
    requires
        old(cs).wf(),
        params.wf(),
        params@.width() == 5,
        conforms(*state_model, *state),
        state_valid(*state, old(cs)@),
    ensures
        final(cs).wf(),
        final(cs)@.extends(old(cs)@),
        r is Err <==> old(cs)@.proving && commit_fails(params@, *state_model, *state),
        r is Ok ==> {
            &&& final(cs)@ == commit_model(old(cs)@, params@, *state_model, *state).cs
            &&& r.unwrap()@ == commit_model(old(cs)@, params@, *state_model, *state).state[0]
            &&& r.unwrap()@.valid(final(cs)@)
            &&& old(cs)@.proving ==> r.unwrap()@.value == commitment(params@, *state_model, *state)
            &&& old(cs)@.proving && state_known(*state) ==> r.unwrap()@.value is Some
            &&& old(cs)@.proving && old(cs)@.satisfied() ==> final(cs)@.satisfied()
        },
    decreases *state_model,
{
    let ghost start = cs@;
    match state_model {
        StateShape::Scalar => match state {
            AllocatedState::Value(v) => Ok(v.clone()),
            AllocatedState::Children(_) => Err(SynthesisError::AssignmentMissing),
        },
        StateShape::Struct { field_types } => match state {
            AllocatedState::Value(_) => Err(SynthesisError::AssignmentMissing),
            AllocatedState::Children(children) => {
                let mut vals: Vec<Number> = Vec::new();
                let n = field_types.len();
                let mut i: usize = 0;
                assert(models(vals@) =~= Seq::<NumberModel>::empty());
                while i < n
                    invariant
                        0 <= i <= n,
                        n == field_types@.len(),
                        n == children@.len(),
                        params.wf(),
                        params@.width() == 5,
                        start == old(cs)@,
                        *state_model == (StateShape::Struct { field_types: *field_types }),
                        *state == AllocatedState::Children(*children),
                        conforms(*state_model, *state),
                        state_valid(*state, start),
                        cs.wf(),
                        cs@.extends(start),
                        vals@.len() == i,
                        all_valid(models(vals@), cs@),
                        paired(cs@, models(vals@)) == fields_model(
                            start,
                            params@,
                            field_types@,
                            children@,
                            i as nat,
                        ),
                        start.proving ==> term_values(vals@) == field_commitments(
                            params@,
                            field_types@,
                            children@,
                            i as nat,
                        ),
                        start.proving ==> forall|k: int|
                            0 <= k < i && (#[trigger] models(vals@)[k]).value is None
                                ==> !state_known(children@[k]),
                        start.proving ==> !fields_fail(
                            params@,
                            field_types@,
                            children@,
                            i as nat,
                        ),
                        start.proving && start.satisfied() ==> cs@.satisfied(),
                    decreases n - i,
                {
                    let ghost before = cs@;
                    let ghost old_vals = models(vals@);
                    proof {
                        assert(conforms(field_types@[i as int], children@[i as int]));
                        assert(state_valid(children@[i as int], start));
                        lemma_state_valid_extends(children@[i as int], start, before);
                    }
                    let v = match reveal_state(cs, params, &field_types[i], &children[i]) {
                        Ok(v) => v,
                        Err(e) => {
                            proof {
                                assert(fields_fail(
                                    params@,
                                    field_types@,
                                    children@,
                                    (i + 1) as nat,
                                ));
                                lemma_fields_fail_grows(
                                    params@,
                                    field_types@,
                                    children@,
                                    (i + 1) as nat,
                                    n as nat,
                                );
                            }
                            return Err(e);
                        },
                    };
                    proof {
                        let now = cs@;
                        assert(models(vals@.push(v)) =~= old_vals.push(v@));
                        lemma_all_valid_extends(old_vals, before, now);
                        assert forall|k: int| 0 <= k < i + 1 implies (#[trigger] models(
                            vals@.push(v),
                        )[k]).valid(now) by {
                            if k < i {
                                assert(models(vals@.push(v))[k] == old_vals[k]);
                                assert(old_vals[k].valid(now));
                            }
                        }
                        if start.proving {
                            assert(term_values(vals@.push(v)) =~= term_values(vals@).push(v@.value));
                            assert forall|k: int|
                                0 <= k < i + 1 && (#[trigger] models(vals@.push(v))[k]).value
                                    is None implies !state_known(children@[k]) by {
                                if k < i {
                                    assert(models(vals@.push(v))[k] == old_vals[k]);
                                }
                            }
                        }
                    }
                    vals.push(v);
                    i += 1;
                }
                proof {
                    if start.proving {
                        let m = models(vals@);
                        let f = field_commitments(params@, field_types@, children@, n as nat);
                        assert(term_values(vals@) == f);
                        if some_missing(m) {
                            let w = choose|k: int| 0 <= k < m.len() && (#[trigger] m[k]).value is None;
                            assert(f[w] is None);
                        }
                        if some_none(f) {
                            let w = choose|k: int| 0 <= k < f.len() && (#[trigger] f[k]) is None;
                            assert(m[w].value is None);
                        }
                    }
                }
                poseidon_chain(cs, params, &vals)
            },
        },
        StateShape::List { log4_size, item_type } => match state {
            AllocatedState::Value(_) => Err(SynthesisError::AssignmentMissing),
            AllocatedState::Children(children) => {
                let mut leaves: Vec<Number> = Vec::new();
                let n = children.len();
                let mut i: usize = 0;
                assert(models(leaves@) =~= Seq::<NumberModel>::empty());
                while i < n
                    invariant
                        0 <= i <= n,
                        n == children@.len(),
                        params.wf(),
                        params@.width() == 5,
                        start == old(cs)@,
                        *state_model == (StateShape::List {
                            log4_size: *log4_size,
                            item_type: *item_type,
                        }),
                        *state == AllocatedState::Children(*children),
                        conforms(*state_model, *state),
                        state_valid(*state, start),
                        cs.wf(),
                        cs@.extends(start),
                        leaves@.len() == i,
                        all_valid(models(leaves@), cs@),
                        paired(cs@, models(leaves@)) == items_model(
                            start,
                            params@,
                            **item_type,
                            children@,
                            i as nat,
                        ),
                        start.proving ==> term_values(leaves@) == item_commitments(
                            params@,
                            **item_type,
                            children@,
                            i as nat,
                        ),
                        start.proving ==> forall|k: int|
                            0 <= k < i && (#[trigger] models(leaves@)[k]).value is None
                                ==> !state_known(children@[k]),
                        start.proving ==> !items_fail(params@, **item_type, children@, i as nat),
                        start.proving && start.satisfied() ==> cs@.satisfied(),
                    decreases n - i,
                {
                    let ghost before = cs@;
                    let ghost old_vals = models(leaves@);
                    proof {
                        assert(conforms(**item_type, children@[i as int]));
                        assert(state_valid(children@[i as int], start));
                        lemma_state_valid_extends(children@[i as int], start, before);
                    }
                    let v = match reveal_state(cs, params, item_type, &children[i]) {
                        Ok(v) => v,
                        Err(e) => {
                            proof {
                                assert(items_fail(
                                    params@,
                                    **item_type,
                                    children@,
                                    (i + 1) as nat,
                                ));
                                lemma_items_fail_grows(
                                    params@,
                                    **item_type,
                                    children@,
                                    (i + 1) as nat,
                                    n as nat,
                                );
                            }
                            return Err(e);
                        },
                    };
                    proof {
                        let now = cs@;
                        assert(models(leaves@.push(v)) =~= old_vals.push(v@));
                        lemma_all_valid_extends(old_vals, before, now);
                        assert forall|k: int| 0 <= k < i + 1 implies (#[trigger] models(
                            leaves@.push(v),
                        )[k]).valid(now) by {
                            if k < i {
                                assert(models(leaves@.push(v))[k] == old_vals[k]);
                                assert(old_vals[k].valid(now));
                            }
                        }
                        if start.proving {
                            assert(term_values(leaves@.push(v)) =~= term_values(leaves@).push(
                                v@.value,
                            ));
                            assert forall|k: int|
                                0 <= k < i + 1 && (#[trigger] models(leaves@.push(v))[k]).value
                                    is None implies !state_known(children@[k]) by {
                                if k < i {
                                    assert(models(leaves@.push(v))[k] == old_vals[k]);
                                }
                            }
                        }
                    }
                    leaves.push(v);
                    i += 1;
                }
                proof {
                    if start.proving {
                        let m = models(leaves@);
                        let f = item_commitments(params@, **item_type, children@, n as nat);
                        assert(term_values(leaves@) == f);
                        if some_missing(m) {
                            let w = choose|k: int| 0 <= k < m.len() && (#[trigger] m[k]).value is None;
                            assert(f[w] is None);
                        }
                        if some_none(f) {
                            let w = choose|k: int| 0 <= k < f.len() && (#[trigger] f[k]) is None;
                            assert(m[w].value is None);
                        }
                    }
                }
                fold_leaves(cs, params, leaves, *log4_size)
            },
        },
    }
}

} // verus!
