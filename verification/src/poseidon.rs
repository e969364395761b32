//! The Poseidon hash: the permutation on field values, and the gadget that lays the same
//! permutation down as constraints.
//!
//! The state has one slot more than the hash has inputs; slot 0 starts at zero. A round
//! adds the round constants, raises slots to the fifth power (every slot in a full
//! round, slot 0 alone in a partial round) and multiplies the state by the MDS matrix.
//! The hash is slot 1 after the last round.

use crate::common::number::{sum, Number, NumberModel};
use crate::common::wire::product;
use crate::cs::{ConstraintSystem, CsModel, SynthesisError};
use crate::field::{lemma_mul_unit, modulus, Fr};
use crate::lc::{lc_add_scaled, scaled, Term, Variable};
use vstd::prelude::*;

verus! {

/// The round numbers, round constants and MDS matrix of one state width.
pub struct PoseidonParams {
    pub full_rounds: usize,
    pub partial_rounds: usize,
    pub round_constants: Vec<Fr>,
    pub mds_constants: Vec<Vec<Fr>>,
}

/// The mathematical content of the parameters.
pub struct ParamsModel {
    pub full_rounds: nat,
    pub partial_rounds: nat,
    pub round_constants: Seq<nat>,
    pub mds: Seq<Seq<nat>>,
}

impl View for PoseidonParams {
    type V = ParamsModel;

    open spec fn view(&self) -> ParamsModel {
        ParamsModel {
            full_rounds: self.full_rounds as nat,
            partial_rounds: self.partial_rounds as nat,
            round_constants: self.round_constants@.map_values(|f: Fr| f@),
            mds: self.mds_constants@.map_values(|row: Vec<Fr>| row@.map_values(|f: Fr| f@)),
        }
    }
}

impl ParamsModel {
    /// The number of state slots.
    pub open spec fn width(self) -> nat {
        self.mds.len()
    }

    /// The number of rounds: the full rounds, split evenly, around the partial rounds.
    pub open spec fn rounds(self) -> nat {
        2 * (self.full_rounds / 2) + self.partial_rounds
    }

    /// Whether the matrix is square and there is a constant for every slot of every round.
    pub open spec fn wf(self) -> bool {
        &&& self.width() >= 2
        &&& forall|j: int| 0 <= j < self.mds.len() ==> (#[trigger] self.mds[j]).len() == self.width()
        &&& self.round_constants.len() >= self.rounds() * self.width()
    }
}

impl PoseidonParams {
    pub open spec fn wf(&self) -> bool {
        self@.wf()
    }

    /// Whether the matrix is square, of two slots at least, and there is a round
    /// constant for every slot of every round.
    pub fn is_well_formed(&self) -> (r: bool)
        ensures
            r == self.wf(),
    {
        let width = self.mds_constants.len();
        if width < 2 {
            return false;
        }
        let mut j: usize = 0;
        while j < width
            invariant
                0 <= j <= width,
                width == self.mds_constants@.len(),
                width == self@.width(),
                forall|i: int| 0 <= i < j ==> (#[trigger] self@.mds[i]).len() == width,
            decreases width - j,
        {
            assert(self@.mds[j as int] == self.mds_constants@[j as int]@.map_values(|f: Fr| f@));
            if self.mds_constants[j].len() != width {
                return false;
            }
            j += 1;
        }
        let half = self.full_rounds / 2;
        let available = self.round_constants.len() / width;
        proof {
            let n = self.round_constants@.len() as int;
            let w = width as int;
            vstd::arithmetic::div_mod::lemma_fundamental_div_mod(n, w);
            vstd::arithmetic::div_mod::lemma_mod_bound(n, w);
            let a = available as int;
            assert forall|r: int| 0 <= r implies (r <= a) == (#[trigger] (r * w) <= n) by {
                if r <= a {
                    assert(r * w <= a * w) by (nonlinear_arith)
                        requires
                            r <= a,
                            w >= 0,
                    ;
                    vstd::arithmetic::mul::lemma_mul_is_commutative(a, w);
                } else {
                    assert(r * w >= (a + 1) * w) by (nonlinear_arith)
                        requires
                            r >= a + 1,
                            w >= 0,
                    ;
                    assert((a + 1) * w == a * w + w) by (nonlinear_arith);
                    vstd::arithmetic::mul::lemma_mul_is_commutative(a, w);
                }
            }
            assert(self@.round_constants.len() == n);
        }
        if half > available || self.partial_rounds > available {
            proof {
                let a = available as int;
                let w = width as int;
                let total = self@.rounds() as int;
                assert(total > a);
                assert((total * w <= self.round_constants@.len()) == (total <= a));
            }
            return false;
        }
        proof {
            vstd::arithmetic::div_mod::lemma_div_is_ordered_by_denominator(
                self.round_constants@.len() as int,
                2,
                width as int,
            );
        }
        if half + half > available || self.partial_rounds > available - (half + half) {
            proof {
                let a = available as int;
                let w = width as int;
                let total = self@.rounds() as int;
                assert(total > a);
                assert((total * w <= self.round_constants@.len()) == (total <= a));
            }
            return false;
        }
        proof {
            let a = available as int;
            let w = width as int;
            let total = self@.rounds() as int;
            assert((total * w <= self.round_constants@.len()) == (total <= a));
        }
        true
    }
}

/// The fifth power of an optional value.
pub open spec fn quintic(x: Option<nat>) -> Option<nat> {
    let x2 = product(x, x);
    let x4 = product(x2, x2);
    product(x4, x)
}

/// The values after the round constants from `offset` on are added.
pub open spec fn with_constants(vals: Seq<Option<nat>>, p: ParamsModel, offset: nat) -> Seq<
    Option<nat>,
> {
    Seq::new(vals.len(), |i: int| sum(vals[i], Some(p.round_constants[offset + i])))
}

/// The first `k` summands of row `row` of the matrix applied to `vals`.
pub open spec fn dot(vals: Seq<Option<nat>>, row: Seq<nat>, k: nat) -> Option<nat>
    decreases k,
{
    if k == 0 {
        Some(0nat)
    } else {
        sum(dot(vals, row, (k - 1) as nat), product(vals[k - 1], Some(row[k - 1])))
    }
}

/// The values after multiplication by the MDS matrix.
pub open spec fn mixed(vals: Seq<Option<nat>>, p: ParamsModel) -> Seq<Option<nat>> {
    Seq::new(vals.len(), |j: int| dot(vals, p.mds[j], vals.len()))
}

/// The values after a full round.
pub open spec fn full_round_values(vals: Seq<Option<nat>>, p: ParamsModel, offset: nat) -> Seq<
    Option<nat>,
> {
    let c = with_constants(vals, p, offset);
    mixed(Seq::new(c.len(), |i: int| quintic(c[i])), p)
}

/// The values after a partial round.
pub open spec fn partial_round_values(vals: Seq<Option<nat>>, p: ParamsModel, offset: nat) -> Seq<
    Option<nat>,
> {
    let c = with_constants(vals, p, offset);
    mixed(
        Seq::new(
            c.len(),
            |i: int|
                if i == 0 {
                    quintic(c[i])
                } else {
                    product(c[i], Some(1nat))
                },
        ),
        p,
    )
}

/// Whether round `r` is a full round.
pub open spec fn is_full(p: ParamsModel, r: nat) -> bool {
    r < p.full_rounds / 2 || r >= p.full_rounds / 2 + p.partial_rounds
}

/// The values after the first `r` rounds.
pub open spec fn permuted(vals: Seq<Option<nat>>, p: ParamsModel, r: nat) -> Seq<Option<nat>>
    decreases r,
{
    if r == 0 {
        vals
    } else {
        let before = permuted(vals, p, (r - 1) as nat);
        let offset = ((r - 1) * vals.len()) as nat;
        if is_full(p, (r - 1) as nat) {
            full_round_values(before, p, offset)
        } else {
            partial_round_values(before, p, offset)
        }
    }
}

/// The hash of `inputs`: slot 1 of the permuted state that starts as zero and the inputs.
pub open spec fn hash_value(p: ParamsModel, inputs: Seq<Option<nat>>) -> Option<nat> {
    permuted(seq![Some(0nat)] + inputs, p, p.rounds())[1]
}

/// The values of a sequence of terms.
pub open spec fn values(state: Seq<NumberModel>) -> Seq<Option<nat>> {
    Seq::new(state.len(), |i: int| state[i].value)
}

/// The models of a sequence of terms.
pub open spec fn models(v: Seq<Number>) -> Seq<NumberModel> {
    Seq::new(v.len(), |i: int| v[i]@)
}

/// Whether every term of the state is valid in `cs`.
pub open spec fn all_valid(state: Seq<NumberModel>, cs: CsModel) -> bool {
    forall|i: int| 0 <= i < state.len() ==> (#[trigger] state[i]).valid(cs)
}

/// Whether some term of the state lacks its value.
pub open spec fn some_missing(state: Seq<NumberModel>) -> bool {
    exists|i: int| 0 <= i < state.len() && (#[trigger] state[i]).value is None
}

/// A valid state stays valid when the system grows.
pub proof fn lemma_all_valid_extends(state: Seq<NumberModel>, base: CsModel, ext: CsModel)
    requires
        all_valid(state, base),
        ext.extends(base),
    ensures
        all_valid(state, ext),
{
    assert forall|i: int| 0 <= i < state.len() implies (#[trigger] state[i]).valid(ext) by {
        state[i].lemma_valid_extends(base, ext);
    }
}

/// A constraint system and a hash state on it.
pub struct Hashing {
    pub cs: CsModel,
    pub state: Seq<NumberModel>,
}

/// A system paired with a state.
pub open spec fn paired(cs: CsModel, state: Seq<NumberModel>) -> Hashing {
    Hashing { cs, state }
}

/// The system after `sbox`.
pub open spec fn sbox_cs(cs: CsModel, a: NumberModel) -> CsModel {
    let c1 = Number::mul_cs(cs, a, a);
    let a2 = NumberModel::of_var(cs.next_aux(), cs.kept(product(a.value, a.value)));
    let c2 = Number::mul_cs(c1, a2, a2);
    let a4 = NumberModel::of_var(c1.next_aux(), c1.kept(product(a2.value, a2.value)));
    Number::mul_cs(c2, a4, a)
}

/// The result of `sbox`.
pub open spec fn sbox_out(cs: CsModel, a: NumberModel) -> NumberModel {
    NumberModel::of_var(Variable::Aux((cs.aux.len() + 2) as usize), cs.kept(quintic(a.value)))
}

/// The fifth power of a term, as a fresh variable, through `a * a = a2`, `a2 * a2 = a4`
/// and `a4 * a = a5`.
pub fn sbox(cs: &mut ConstraintSystem, a: &Number) -> (r: Result<Number, SynthesisError>)
    requires
        old(cs).wf(),
        a@.valid(old(cs)@),
    ensures
        final(cs).wf(),
        final(cs)@.extends(old(cs)@),
        r is Err <==> old(cs)@.proving && a@.value is None,
        r is Err ==> *final(cs) == *old(cs),
        r is Ok ==> {
            &&& final(cs)@ == sbox_cs(old(cs)@, a@)
            &&& r.unwrap()@ == sbox_out(old(cs)@, a@)
            &&& r.unwrap()@.valid(final(cs)@)
            &&& old(cs)@.proving && old(cs)@.satisfied() ==> final(cs)@.satisfied()
        },
{
    let ghost start = cs@;
    let a2 = match a.mul(cs, a) {
        Ok(n) => n,
        Err(e) => {
            return Err(e);
        },
    };
    let ghost c1 = cs@;
    let n2 = Number::from_num(a2);
    let a4 = match n2.mul(cs, &n2) {
        Ok(n) => n,
        Err(e) => {
            return Err(e);
        },
    };
    let ghost c2 = cs@;
    let n4 = Number::from_num(a4);
    proof {
        a@.lemma_valid_extends(start, c2);
    }
    let a5 = match n4.mul(cs, a) {
        Ok(n) => n,
        Err(e) => {
            return Err(e);
        },
    };
    Ok(Number::from_num(a5))
}

/// The state after the round constants from `offset` on are added.
pub open spec fn add_constants_model(state: Seq<NumberModel>, p: ParamsModel, offset: nat) -> Seq<
    NumberModel,
> {
    Seq::new(state.len(), |i: int| state[i].plus_constant(p.round_constants[offset + i]))
}

/// Adds to every slot its round constant, the first of them at `const_offset`.
pub fn add_constants(vals: &mut Vec<Number>, params: &PoseidonParams, const_offset: usize)
    requires
        const_offset + old(vals)@.len() <= params@.round_constants.len(),
    ensures
        models(final(vals)@) == add_constants_model(
            models(old(vals)@),
            params@,
            const_offset as nat,
        ),
        final(vals)@.len() == old(vals)@.len(),
        values(models(final(vals)@)) == with_constants(
            values(models(old(vals)@)),
            params@,
            const_offset as nat,
        ),
        forall|cs: CsModel|
            cs.wf() && all_valid(models(old(vals)@), cs) ==> #[trigger] all_valid(
                models(final(vals)@),
                cs,
            ),
{
    let ghost before = models(vals@);
    let n = vals.len();
    let total = params.round_constants.len();
    let mut i: usize = 0;
    while i < n
        invariant
            0 <= i <= n,
            n == vals@.len(),
            before.len() == n,
            total == params.round_constants@.len(),
            const_offset + n <= total,
            forall|j: int|
                0 <= j < i ==> (#[trigger] vals@[j])@ == before[j].plus_constant(
                    params@.round_constants[const_offset + j],
                ),
            forall|j: int| i <= j < n ==> (#[trigger] vals@[j])@ == before[j],
            forall|j: int| 0 <= j < i ==> #[trigger] params@.round_constants[const_offset + j] < modulus(),
        decreases n - i,
    {
        let mut v = vals[i].clone();
        let c = params.round_constants[const_offset + i];
        c.reduced();
        v.add_constant(c);
        vals.set(i, v);
        i += 1;
    }
    proof {
        let after = models(vals@);
        let target = add_constants_model(before, params@, const_offset as nat);
        assert(after =~= target);
        assert(values(after) =~= with_constants(values(before), params@, const_offset as nat));
        assert forall|cs: CsModel| cs.wf() && all_valid(before, cs) implies #[trigger] all_valid(
            after,
            cs,
        ) by {
            assert forall|j: int| 0 <= j < after.len() implies (#[trigger] after[j]).valid(cs) by {
                let c = params@.round_constants[const_offset + j];
                assert(before[j].valid(cs));
                before[j].lemma_plus_constant_valid(c, cs);
            }
        }
    }
}

/// Row `row` of the matrix applied to the first `k` slots of the state.
pub open spec fn mds_row(state: Seq<NumberModel>, row: Seq<nat>, k: nat) -> NumberModel
    decreases k,
{
    if k == 0 {
        NumberModel::zero()
    } else {
        let prev = mds_row(state, row, (k - 1) as nat);
        NumberModel {
            lc: prev.lc + scaled(row[k - 1], state[k - 1].lc),
            value: sum(prev.value, product(state[k - 1].value, Some(row[k - 1]))),
        }
    }
}

/// The state after multiplication by the MDS matrix.
pub open spec fn product_mds_model(state: Seq<NumberModel>, p: ParamsModel) -> Seq<NumberModel> {
    Seq::new(state.len(), |j: int| mds_row(state, p.mds[j], state.len()))
}

/// A row of the matrix applied to valid terms is a valid term, worth the dot product.
pub proof fn lemma_mds_row(state: Seq<NumberModel>, row: Seq<nat>, k: nat, cs: CsModel)
    requires
        k <= state.len(),
        all_valid(state, cs),
    ensures
        mds_row(state, row, k).valid(cs),
        mds_row(state, row, k).value == dot(values(state), row, k),
    decreases k,
{
    if k > 0 {
        let prev = mds_row(state, row, (k - 1) as nat);
        lemma_mds_row(state, row, (k - 1) as nat, cs);
        let s = state[k - 1];
        assert(s.valid(cs));
        cs.lemma_eval_scaled(row[k - 1], s.lc);
        cs.lemma_eval_concat(prev.lc, scaled(row[k - 1], s.lc));
    }
}

/// Multiplies the state by the MDS matrix. The step is linear: it costs no constraint
/// and is folded into the combinations of the result.
pub fn product_mds(vals: Vec<Number>, params: &PoseidonParams) -> (r: Result<
    Vec<Number>,
    SynthesisError,
>)
    requires
        params.wf(),
        vals@.len() == params@.width(),
    ensures
        r is Ok,
        models(r.unwrap()@) == product_mds_model(models(vals@), params@),
        r.unwrap()@.len() == vals@.len(),
        values(models(r.unwrap()@)) == mixed(values(models(vals@)), params@),
        forall|cs: CsModel|
            all_valid(models(vals@), cs) ==> #[trigger] all_valid(models(r.unwrap()@), cs),
{
    let ghost state = models(vals@);
    let n = vals.len();
    let mut result: Vec<Number> = Vec::new();
    let mut j: usize = 0;
    while j < n
        invariant
            0 <= j <= n,
            n == vals@.len(),
            n == params@.width(),
            params.wf(),
            state == models(vals@),
            result@.len() == j,
            forall|i: int| 0 <= i < j ==> (#[trigger] result@[i])@ == mds_row(state, params@.mds[i], n as nat),
        decreases n - j,
    {
        let row = &params.mds_constants[j];
        assert(params@.mds[j as int] == row@.map_values(|f: Fr| f@));
        assert(params@.mds[j as int].len() == n);
        let mut acc = Number::zero();
        let mut k: usize = 0;
        while k < n
            invariant
                0 <= k <= n,
                n == vals@.len(),
                row@.len() == n,
                state == models(vals@),
                params@.mds[j as int] == row@.map_values(|f: Fr| f@),
                acc@ == mds_row(state, params@.mds[j as int], k as nat),
            decreases n - k,
        {
            let mat = row[k];
            let lc = lc_add_scaled(acc.0, &mat, &vals[k].0);
            let value = match (acc.1, vals[k].1) {
                (Some(r), Some(v)) => Some(r.add(&v.mul(&mat))),
                _ => None,
            };
            acc = Number(lc, value);
            k += 1;
        }
        result.push(acc);
        j += 1;
    }
    proof {
        let out = models(result@);
        assert(out =~= product_mds_model(state, params@));
        assert(values(out) =~= mixed(values(state), params@)) by {
            assert forall|i: int| 0 <= i < n implies (#[trigger] out[i]).value == dot(
                values(state),
                params@.mds[i],
                n as nat,
            ) by {
                lemma_mds_row_value(state, params@.mds[i], n as nat);
            }
        }
        assert forall|cs: CsModel| all_valid(state, cs) implies #[trigger] all_valid(out, cs) by {
            assert forall|i: int| 0 <= i < out.len() implies (#[trigger] out[i]).valid(cs) by {
                lemma_mds_row(state, params@.mds[i], n as nat, cs);
            }
        }
    }
    Ok(result)
}

/// A row of the matrix applied to terms is worth the dot product of their values.
pub proof fn lemma_mds_row_value(state: Seq<NumberModel>, row: Seq<nat>, k: nat)
    requires
        k <= state.len(),
    ensures
        mds_row(state, row, k).value == dot(values(state), row, k),
    decreases k,
{
    if k > 0 {
        lemma_mds_row_value(state, row, (k - 1) as nat);
    }
}

/// The system and state after the first `n` slots went through the S-box.
pub open spec fn sboxed(cs: CsModel, state: Seq<NumberModel>, n: nat) -> Hashing
    decreases n,
{
    if n == 0 {
        Hashing { cs, state }
    } else {
        let h = sboxed(cs, state, (n - 1) as nat);
        Hashing {
            cs: sbox_cs(h.cs, h.state[n - 1]),
            state: h.state.update(n - 1, sbox_out(h.cs, h.state[n - 1])),
        }
    }
}

/// The system and state after slots `1` to `n - 1` were compressed into fresh variables.
pub open spec fn compressed(cs: CsModel, state: Seq<NumberModel>, n: nat) -> Hashing
    decreases n,
{
    if n <= 1 {
        Hashing { cs, state }
    } else {
        let h = compressed(cs, state, (n - 1) as nat);
        Hashing {
            cs: Number::compress_cs(h.cs, h.state[n - 1]),
            state: h.state.update(
                n - 1,
                NumberModel::of_var(
                    h.cs.next_aux(),
                    h.cs.kept(product(h.state[n - 1].value, Some(1nat))),
                ),
            ),
        }
    }
}

/// The system and state after a full round.
pub open spec fn full_round_model(cs: CsModel, state: Seq<NumberModel>, p: ParamsModel, offset: nat) -> Hashing {
    let h = sboxed(cs, add_constants_model(state, p, offset), state.len());
    Hashing { cs: h.cs, state: product_mds_model(h.state, p) }
}

/// The system and state after a partial round.
pub open spec fn partial_round_model(cs: CsModel, state: Seq<NumberModel>, p: ParamsModel, offset: nat) -> Hashing {
    let h1 = sboxed(cs, add_constants_model(state, p, offset), 1);
    let h = compressed(h1.cs, h1.state, state.len());
    Hashing { cs: h.cs, state: product_mds_model(h.state, p) }
}

/// Whether no value of the sequence is missing.
pub open spec fn all_known(vals: Seq<Option<nat>>) -> bool {
    forall|i: int| 0 <= i < vals.len() ==> (#[trigger] vals[i]) is Some
}

/// The dot product of known values is known.
pub proof fn lemma_dot_known(vals: Seq<Option<nat>>, row: Seq<nat>, k: nat)
    requires
        all_known(vals),
        k <= vals.len(),
    ensures
        dot(vals, row, k) is Some,
    decreases k,
{
    if k > 0 {
        lemma_dot_known(vals, row, (k - 1) as nat);
        assert(vals[k - 1] is Some);
    }
}

/// A full round: round constants, the S-box on every slot, the MDS matrix.
pub fn full_round(
    cs: &mut ConstraintSystem,
    params: &PoseidonParams,
    const_offset: usize,
    vals: Vec<Number>,
) -> (r: Result<Vec<Number>, SynthesisError>)
    requires
        old(cs).wf(),
        params.wf(),
        vals@.len() == params@.width(),
        const_offset + vals@.len() <= params@.round_constants.len(),
        all_valid(models(vals@), old(cs)@),
    ensures
        final(cs).wf(),
        final(cs)@.extends(old(cs)@),
        r is Err <==> old(cs)@.proving && some_missing(models(vals@)),
        r is Ok ==> {
            &&& paired(final(cs)@, models(r.unwrap()@)) == full_round_model(
                old(cs)@,
                models(vals@),
                params@,
                const_offset as nat,
            )
            &&& r.unwrap()@.len() == vals@.len()
            &&& all_valid(models(r.unwrap()@), final(cs)@)
            &&& old(cs)@.proving ==> values(models(r.unwrap()@)) == full_round_values(
                values(models(vals@)),
                params@,
                const_offset as nat,
            ) && all_known(values(models(r.unwrap()@)))
            &&& old(cs)@.proving && old(cs)@.satisfied() ==> final(cs)@.satisfied()
        },
{
    let ghost start = cs@;
    let ghost input = models(vals@);
    let mut work = vals;
    add_constants(&mut work, params, const_offset);
    let ghost state = models(work@);
    let n = work.len();
    proof {
        assert(all_valid(state, start));
        assert(some_missing(state) == some_missing(input)) by {
            if some_missing(input) {
                let w = choose|i: int| 0 <= i < input.len() && (#[trigger] input[i]).value is None;
                assert(state[w].value is None);
            }
            if some_missing(state) {
                let w = choose|i: int| 0 <= i < state.len() && (#[trigger] state[i]).value is None;
                assert(input[w].value is None);
            }
        }
    }
    let mut i: usize = 0;
    while i < n
        invariant
            0 <= i <= n,
            n == work@.len(),
            n == state.len(),
            n == vals@.len(),
            start == old(cs)@,
            input == models(vals@),
            some_missing(state) == some_missing(input),
            cs.wf(),
            cs@.extends(start),
            paired(cs@, models(work@)) == sboxed(start, state, i as nat),
            all_valid(models(work@), cs@),
            forall|j: int| i <= j < n ==> (#[trigger] work@[j])@ == state[j],
            start.proving ==> forall|j: int| 0 <= j < i ==> (#[trigger] state[j]).value is Some,
            start.proving ==> forall|j: int|
                0 <= j < i ==> (#[trigger] work@[j])@.value == quintic(state[j].value),
            start.proving && start.satisfied() ==> cs@.satisfied(),
        decreases n - i,
    {
        let ghost before = cs@;
        let ghost old_models = models(work@);
        assert(old_models[i as int].valid(before));
        assert(work@[i as int]@ == old_models[i as int]);
        let s = match sbox(cs, &work[i]) {
            Ok(s) => s,
            Err(e) => {
                proof {
                    assert(state[i as int].value is None);
                }
                return Err(e);
            },
        };
        work.set(i, s);
        proof {
            let now = cs@;
            assert(models(work@) =~= old_models.update(i as int, sbox_out(before, old_models[i as int])));
            lemma_all_valid_extends(old_models, before, now);
            assert forall|j: int| 0 <= j < n implies (#[trigger] models(work@)[j]).valid(now) by {
                if j != i {
                    assert(models(work@)[j] == old_models[j]);
                    assert(old_models[j].valid(now));
                }
            }
        }
        i += 1;
    }
    proof {
        let h = models(work@);
        if start.proving {
            assert(!some_missing(state));
            assert(values(h) =~= Seq::new(n as nat, |i: int| quintic(state[i].value)));
            let c = with_constants(values(input), params@, const_offset as nat);
            assert(values(state) == c);
            assert(Seq::new(n as nat, |i: int| quintic(state[i].value)) =~= Seq::new(
                c.len(),
                |i: int| quintic(c[i]),
            ));
            assert(all_known(values(h)));
            assert forall|j: int| 0 <= j < n implies (#[trigger] mixed(values(h), params@)[j]) is Some by {
                lemma_dot_known(values(h), params@.mds[j], n as nat);
            }
        }
    }
    product_mds(work, params)
}

/// A partial round: round constants, the S-box on slot 0, every other slot compressed
/// into a fresh variable, the MDS matrix.
pub fn partial_round(
    cs: &mut ConstraintSystem,
    params: &PoseidonParams,
    const_offset: usize,
    vals: Vec<Number>,
) -> (r: Result<Vec<Number>, SynthesisError>)
    requires
        old(cs).wf(),
        params.wf(),
        vals@.len() == params@.width(),
        const_offset + vals@.len() <= params@.round_constants.len(),
        all_valid(models(vals@), old(cs)@),
    ensures
        final(cs).wf(),
        final(cs)@.extends(old(cs)@),
        r is Err <==> old(cs)@.proving && some_missing(models(vals@)),
        r is Ok ==> {
            &&& paired(final(cs)@, models(r.unwrap()@)) == partial_round_model(
                old(cs)@,
                models(vals@),
                params@,
                const_offset as nat,
            )
            &&& r.unwrap()@.len() == vals@.len()
            &&& all_valid(models(r.unwrap()@), final(cs)@)
            &&& old(cs)@.proving ==> values(models(r.unwrap()@)) == partial_round_values(
                values(models(vals@)),
                params@,
                const_offset as nat,
            ) && all_known(values(models(r.unwrap()@)))
            &&& old(cs)@.proving && old(cs)@.satisfied() ==> final(cs)@.satisfied()
        },
{
    let ghost start = cs@;
    let ghost input = models(vals@);
    let mut work = vals;
    add_constants(&mut work, params, const_offset);
    let ghost state = models(work@);
    let n = work.len();
    proof {
        assert(all_valid(state, start));
        assert(some_missing(state) == some_missing(input)) by {
            if some_missing(input) {
                let w = choose|i: int| 0 <= i < input.len() && (#[trigger] input[i]).value is None;
                assert(state[w].value is None);
            }
            if some_missing(state) {
                let w = choose|i: int| 0 <= i < state.len() && (#[trigger] state[i]).value is None;
                assert(input[w].value is None);
            }
        }
        assert(state[0].valid(start));
        assert(work@[0]@ == state[0]);
    }
    let first = match sbox(cs, &work[0]) {
        Ok(s) => s,
        Err(e) => {
            proof {
                assert(state[0].value is None);
            }
            return Err(e);
        },
    };
    work.set(0, first);
    let ghost c1 = cs@;
    let ghost state1 = models(work@);
    proof {
        assert(state1 =~= state.update(0, sbox_out(start, state[0])));
        assert(sboxed(start, state, 1) == paired(c1, state1)) by {
            assert(sboxed(start, state, 0) == paired(start, state));
        }
        lemma_all_valid_extends(state, start, c1);
        assert forall|j: int| 0 <= j < n implies (#[trigger] state1[j]).valid(c1) by {
            if j != 0 {
                assert(state1[j] == state[j]);
                assert(state[j].valid(c1));
            }
        }
    }
    let mut i: usize = 1;
    while i < n
        invariant
            1 <= i <= n,
            n == work@.len(),
            n == state.len(),
            n == state1.len(),
            n == vals@.len(),
            start == old(cs)@,
            input == models(vals@),
            some_missing(state) == some_missing(input),
            cs.wf(),
            cs@.extends(start),
            paired(cs@, models(work@)) == compressed(c1, state1, i as nat),
            all_valid(models(work@), cs@),
            forall|j: int| i <= j < n ==> (#[trigger] work@[j])@ == state[j],
            start.proving ==> forall|j: int| 0 <= j < i ==> (#[trigger] state[j]).value is Some,
            start.proving ==> work@[0]@.value == quintic(state[0].value),
            start.proving ==> forall|j: int|
                1 <= j < i ==> (#[trigger] work@[j])@.value == product(state[j].value, Some(1nat)),
            start.proving && start.satisfied() ==> cs@.satisfied(),
        decreases n - i,
    {
        let ghost before = cs@;
        let ghost old_models = models(work@);
        assert(old_models[i as int].valid(before));
        assert(work@[i as int]@ == old_models[i as int]);
        let s = match work[i].compress(cs) {
            Ok(s) => s,
            Err(e) => {
                proof {
                    assert(state[i as int].value is None);
                }
                return Err(e);
            },
        };
        work.set(i, Number::from_num(s));
        proof {
            let now = cs@;
            assert(models(work@) =~= old_models.update(
                i as int,
                NumberModel::of_var(
                    before.next_aux(),
                    before.kept(product(old_models[i as int].value, Some(1nat))),
                ),
            ));
            lemma_all_valid_extends(old_models, before, now);
            assert forall|j: int| 0 <= j < n implies (#[trigger] models(work@)[j]).valid(now) by {
                if j != i {
                    assert(models(work@)[j] == old_models[j]);
                    assert(old_models[j].valid(now));
                }
            }
        }
        i += 1;
    }
    proof {
        let h = models(work@);
        if start.proving {
            assert(!some_missing(state));
            let c = with_constants(values(input), params@, const_offset as nat);
            assert(values(state) == c);
            assert(values(h) =~= Seq::new(
                c.len(),
                |i: int|
                    if i == 0 {
                        quintic(c[i])
                    } else {
                        product(c[i], Some(1nat))
                    },
            ));
            assert(all_known(values(h))) by {
                assert forall|j: int| 0 <= j < n implies (#[trigger] values(h)[j]) is Some by {
                    assert(state[j].value is Some);
                }
            }
            assert forall|j: int| 0 <= j < n implies (#[trigger] mixed(values(h), params@)[j]) is Some by {
                lemma_dot_known(values(h), params@.mds[j], n as nat);
            }
        }
    }
    product_mds(work, params)
}

/// The system and state after the first `r` rounds.
pub open spec fn rounds_model(cs: CsModel, state: Seq<NumberModel>, p: ParamsModel, r: nat) -> Hashing
    decreases r,
{
    if r == 0 {
        Hashing { cs, state }
    } else {
        let h = rounds_model(cs, state, p, (r - 1) as nat);
        let offset = ((r - 1) * state.len()) as nat;
        if is_full(p, (r - 1) as nat) {
            full_round_model(h.cs, h.state, p, offset)
        } else {
            partial_round_model(h.cs, h.state, p, offset)
        }
    }
}

/// The state that the permutation starts from: zero, then the inputs.
pub open spec fn initial(inputs: Seq<NumberModel>) -> Seq<NumberModel> {
    seq![NumberModel::zero()] + inputs
}

/// The system and state after hashing `inputs`.
pub open spec fn poseidon_model(cs: CsModel, p: ParamsModel, inputs: Seq<NumberModel>) -> Hashing {
    rounds_model(cs, initial(inputs), p, p.rounds())
}

/// The Poseidon hash of the terms `vals`, with the parameters of their number: slot 1 of
/// the permuted state.
pub fn poseidon(cs: &mut ConstraintSystem, params: &PoseidonParams, vals: &Vec<Number>) -> (r:
    Result<Number, SynthesisError>)
    requires
        old(cs).wf(),
        params.wf(),
        vals@.len() + 1 == params@.width(),
        all_valid(models(vals@), old(cs)@),
    ensures
        final(cs).wf(),
        final(cs)@.extends(old(cs)@),
        r is Err <==> old(cs)@.proving && params@.rounds() > 0 && some_missing(models(vals@)),
        r is Ok ==> {
            &&& final(cs)@ == poseidon_model(old(cs)@, params@, models(vals@)).cs
            &&& r.unwrap()@ == poseidon_model(old(cs)@, params@, models(vals@)).state[1]
            &&& r.unwrap()@.valid(final(cs)@)
            &&& old(cs)@.proving ==> r.unwrap()@.value == hash_value(
                params@,
                values(models(vals@)),
            )
            &&& old(cs)@.proving && params@.rounds() > 0 ==> r.unwrap()@.value is Some
            &&& old(cs)@.proving && old(cs)@.satisfied() ==> final(cs)@.satisfied()
        },
{
    let ghost start = cs@;
    let ghost inputs = models(vals@);
    let mut elems: Vec<Number> = Vec::new();
    elems.push(Number::zero());
    let mut i: usize = 0;
    while i < vals.len()
        invariant
            0 <= i <= vals@.len(),
            elems@.len() == i + 1,
            elems@[0]@ == NumberModel::zero(),
            forall|j: int| 0 <= j < i ==> (#[trigger] elems@[j + 1])@ == vals@[j]@,
        decreases vals@.len() - i,
    {
        elems.push(vals[i].clone());
        i += 1;
    }
    let ghost state0 = models(elems@);
    let n = elems.len();
    let half = params.full_rounds / 2;
    let total_constants = params.round_constants.len();
    proof {
        assert forall|k: int| 0 <= k < state0.len() implies state0[k] == #[trigger] initial(inputs)[k] by {
            if k > 0 {
                assert(elems@[(k - 1) + 1]@ == vals@[k - 1]@);
            }
        }
        assert(state0 =~= initial(inputs));
        assert(values(state0) =~= seq![Some(0nat)] + values(inputs));
        assert forall|j: int| 0 <= j < state0.len() implies (#[trigger] state0[j]).valid(start) by {
            if j > 0 {
                assert(inputs[j - 1].valid(start));
            }
        }
        assert(some_missing(state0) == some_missing(inputs)) by {
            if some_missing(inputs) {
                let w = choose|i: int| 0 <= i < inputs.len() && (#[trigger] inputs[i]).value is None;
                assert(state0[w + 1].value is None);
            }
            if some_missing(state0) {
                let w = choose|i: int| 0 <= i < state0.len() && (#[trigger] state0[i]).value is None;
                assert(inputs[w - 1].value is None);
            }
        }
        assert(params@.rounds() * n >= params@.rounds() * 2) by (nonlinear_arith)
            requires
                n >= 2,
        ;
    }
    let total = half + half + params.partial_rounds;
    let mut round: usize = 0;
    let mut const_offset: usize = 0;
    while round < total
        invariant
            0 <= round <= total,
            total == params@.rounds(),
            half == params@.full_rounds / 2,
            n == params@.width(),
            n == elems@.len(),
            n == state0.len(),
            n == vals@.len() + 1,
            params.wf(),
            total_constants == params@.round_constants.len(),
            const_offset == round * n,
            start == old(cs)@,
            inputs == models(vals@),
            some_missing(state0) == some_missing(inputs),
            cs.wf(),
            cs@.extends(start),
            paired(cs@, models(elems@)) == rounds_model(start, state0, params@, round as nat),
            all_valid(models(elems@), cs@),
            start.proving ==> values(models(elems@)) == permuted(
                values(state0),
                params@,
                round as nat,
            ),
            start.proving && round > 0 ==> all_known(values(models(elems@))) && !some_missing(state0),
            start.proving && start.satisfied() ==> cs@.satisfied(),
        decreases total - round,
    {
        proof {
            assert((round + 1) * n <= total * n) by (nonlinear_arith)
                requires
                    round + 1 <= total,
                    n >= 0,
            ;
            assert((round + 1) * n == round * n + n) by (nonlinear_arith);
            if start.proving && round > 0 {
                let cur = models(elems@);
                if some_missing(cur) {
                    let w = choose|i: int| 0 <= i < cur.len() && (#[trigger] cur[i]).value is None;
                    assert(values(cur)[w] is Some);
                }
            }
        }
        let ghost before = cs@;
        let full = round < half || round >= half + params.partial_rounds;
        let next = if full {
            full_round(cs, params, const_offset, elems)
        } else {
            partial_round(cs, params, const_offset, elems)
        };
        elems = match next {
            Ok(v) => v,
            Err(e) => {
                return Err(e);
            },
        };
        const_offset = const_offset + n;
        round += 1;
    }
    proof {
        if start.proving && total > 0 {
            assert(!some_missing(inputs));
        }
        assert(models(elems@)[1] == elems@[1]@);
        assert(values(models(elems@))[1] == elems@[1]@.value);
        if start.proving && total > 0 {
            assert(values(models(elems@))[1] is Some);
        }
    }
    Ok(elems[1].clone())
}

/// The Poseidon hash of four terms.
pub fn poseidon4(
    cs: &mut ConstraintSystem,
    params: &PoseidonParams,
    a: Number,
    b: Number,
    c: Number,
    d: Number,
) -> (r: Result<Number, SynthesisError>)
    requires
        old(cs).wf(),
        params.wf(),
        params@.width() == 5,
        a@.valid(old(cs)@),
        b@.valid(old(cs)@),
        c@.valid(old(cs)@),
        d@.valid(old(cs)@),
    ensures
        final(cs).wf(),
        final(cs)@.extends(old(cs)@),
        r is Err <==> old(cs)@.proving && params@.rounds() > 0 && (a@.value is None || b@.value is None
            || c@.value is None || d@.value is None),
        r is Ok ==> {
            &&& final(cs)@ == poseidon_model(old(cs)@, params@, seq![a@, b@, c@, d@]).cs
            &&& r.unwrap()@ == poseidon_model(old(cs)@, params@, seq![a@, b@, c@, d@]).state[1]
            &&& r.unwrap()@.valid(final(cs)@)
            &&& old(cs)@.proving ==> r.unwrap()@.value == hash_value(
                params@,
                seq![a@.value, b@.value, c@.value, d@.value],
            )
            &&& old(cs)@.proving && params@.rounds() > 0 ==> r.unwrap()@.value is Some
            &&& old(cs)@.proving && old(cs)@.satisfied() ==> final(cs)@.satisfied()
        },
{
    let ghost inputs = seq![a@, b@, c@, d@];
    let mut vals: Vec<Number> = Vec::new();
    vals.push(a);
    vals.push(b);
    vals.push(c);
    vals.push(d);
    proof {
        assert(models(vals@) =~= inputs);
        assert(values(inputs) =~= seq![a@.value, b@.value, c@.value, d@.value]);
        assert(some_missing(inputs) == (a@.value is None || b@.value is None || c@.value is None
            || d@.value is None)) by {
            if some_missing(inputs) {
                let w = choose|i: int| 0 <= i < inputs.len() && (#[trigger] inputs[i]).value is None;
                assert(w == 0 || w == 1 || w == 2 || w == 3);
            }
            if a@.value is None {
                assert(inputs[0].value is None);
            }
            if b@.value is None {
                assert(inputs[1].value is None);
            }
            if c@.value is None {
                assert(inputs[2].value is None);
            }
            if d@.value is None {
                assert(inputs[3].value is None);
            }
        }
    }
    poseidon(cs, params, &vals)
}

/// The values of field elements, all of them known.
pub open spec fn known(s: Seq<Fr>) -> Seq<Option<nat>> {
    Seq::new(s.len(), |i: int| Some(s[i]@))
}

/// The first `k` summands of a row of the matrix applied to field elements.
pub proof fn lemma_dot_step(vals: Seq<Option<nat>>, row: Seq<nat>, k: nat)
    requires
        k > 0,
    ensures
        dot(vals, row, k) == sum(
            dot(vals, row, (k - 1) as nat),
            product(vals[k - 1], Some(row[k - 1])),
        ),
{
}

/// One round of the permutation on field elements.
fn round_native(params: &PoseidonParams, const_offset: usize, full: bool, state: &Vec<Fr>) -> (r:
    Vec<Fr>)
    requires
        params.wf(),
        state@.len() == params@.width(),
        const_offset + state@.len() <= params@.round_constants.len(),
    ensures
        r@.len() == state@.len(),
        full ==> known(r@) == full_round_values(known(state@), params@, const_offset as nat),
        !full ==> known(r@) == partial_round_values(known(state@), params@, const_offset as nat),
{
    let n = state.len();
    let total = params.round_constants.len();
    let ghost c = with_constants(known(state@), params@, const_offset as nat);
    let ghost boxed = if full {
        Seq::new(c.len(), |i: int| quintic(c[i]))
    } else {
        Seq::new(
            c.len(),
            |i: int|
                if i == 0 {
                    quintic(c[i])
                } else {
                    product(c[i], Some(1nat))
                },
        )
    };
    let mut work: Vec<Fr> = Vec::new();
    let mut i: usize = 0;
    while i < n
        invariant
            0 <= i <= n,
            n == state@.len(),
            total == params.round_constants@.len(),
            const_offset + n <= total,
            c == with_constants(known(state@), params@, const_offset as nat),
            boxed.len() == n,
            forall|j: int|
                0 <= j < n ==> #[trigger] boxed[j] == (if full || j == 0 {
                    quintic(c[j])
                } else {
                    product(c[j], Some(1nat))
                }),
            work@.len() == i,
            forall|j: int| 0 <= j < i ==> Some((#[trigger] work@[j])@) == boxed[j],
        decreases n - i,
    {
        let x = state[i].add(&params.round_constants[const_offset + i]);
        proof {
            assert(c[i as int] == Some(x@));
        }
        if full || i == 0 {
            let x2 = x.mul(&x);
            let x4 = x2.mul(&x2);
            work.push(x4.mul(&x));
        } else {
            x.reduced();
            proof {
                lemma_mul_unit(x@);
            }
            work.push(x);
        }
        i += 1;
    }
    proof {
        assert(known(work@) =~= boxed);
    }
    let mut result: Vec<Fr> = Vec::new();
    let mut j: usize = 0;
    while j < n
        invariant
            0 <= j <= n,
            n == work@.len(),
            n == params@.width(),
            params.wf(),
            result@.len() == j,
            forall|i: int|
                0 <= i < j ==> Some((#[trigger] result@[i])@) == dot(
                    known(work@),
                    params@.mds[i],
                    n as nat,
                ),
        decreases n - j,
    {
        let row = &params.mds_constants[j];
        assert(params@.mds[j as int] == row@.map_values(|f: Fr| f@));
        assert(params@.mds[j as int].len() == n);
        let mut acc = Fr::zero();
        let mut k: usize = 0;
        while k < n
            invariant
                0 <= k <= n,
                n == work@.len(),
                row@.len() == n,
                params@.mds[j as int] == row@.map_values(|f: Fr| f@),
                Some(acc@) == dot(known(work@), params@.mds[j as int], k as nat),
            decreases n - k,
        {
            proof {
                lemma_dot_step(known(work@), params@.mds[j as int], (k + 1) as nat);
            }
            acc = acc.add(&work[k].mul(&row[k]));
            k += 1;
        }
        result.push(acc);
        j += 1;
    }
    proof {
        assert(known(result@) =~= mixed(known(work@), params@));
    }
    result
}

/// The Poseidon hash of field elements, with the parameters of their number.
pub fn hash(params: &PoseidonParams, inputs: &Vec<Fr>) -> (r: Fr)
    requires
        params.wf(),
        inputs@.len() + 1 == params@.width(),
    ensures
        Some(r@) == hash_value(params@, known(inputs@)),
{
    let mut state: Vec<Fr> = Vec::new();
    state.push(Fr::zero());
    let mut i: usize = 0;
    while i < inputs.len()
        invariant
            0 <= i <= inputs@.len(),
            state@.len() == i + 1,
            state@[0]@ == 0,
            forall|j: int| 0 <= j < i ==> (#[trigger] state@[j + 1]) == inputs@[j],
        decreases inputs@.len() - i,
    {
        state.push(inputs[i]);
        i += 1;
    }
    let ghost state0 = known(state@);
    let n = state.len();
    let half = params.full_rounds / 2;
    let total_constants = params.round_constants.len();
    proof {
        assert forall|k: int| 0 <= k < state0.len() implies state0[k] == #[trigger] (seq![Some(0nat)]
            + known(inputs@))[k] by {
            if k > 0 {
                assert(state@[(k - 1) + 1] == inputs@[k - 1]);
            }
        }
        assert(state0 =~= seq![Some(0nat)] + known(inputs@));
        assert(params@.rounds() * n >= params@.rounds() * 2) by (nonlinear_arith)
            requires
                n >= 2,
        ;
    }
    let total = half + half + params.partial_rounds;
    let mut round: usize = 0;
    let mut const_offset: usize = 0;
    while round < total
        invariant
            0 <= round <= total,
            total == params@.rounds(),
            half == params@.full_rounds / 2,
            n == params@.width(),
            n == state@.len(),
            n == state0.len(),
            params.wf(),
            total_constants == params@.round_constants.len(),
            const_offset == round * n,
            known(state@) == permuted(state0, params@, round as nat),
        decreases total - round,
    {
        proof {
            assert((round + 1) * n <= total * n) by (nonlinear_arith)
                requires
                    round + 1 <= total,
                    n >= 0,
            ;
            assert((round + 1) * n == round * n + n) by (nonlinear_arith);
        }
        let full = round < half || round >= half + params.partial_rounds;
        state = round_native(params, const_offset, full, &state);
        const_offset = const_offset + n;
        round += 1;
    }
    proof {
        assert(known(state@)[1] == Some(state@[1]@));
    }
    state[1]
}

/// The number of chunks of three that `n` values fill.
pub open spec fn chunks(n: nat) -> nat {
    (n + 2) / 3
}

/// Value `i` of the sequence, or zero past its end.
pub open spec fn padded(vals: Seq<Option<nat>>, i: int) -> Option<nat> {
    if 0 <= i < vals.len() {
        vals[i]
    } else {
        Some(0nat)
    }
}

/// The running hash after the first `k` chunks of three values: each step hashes the
/// running hash and the next three values, with zeros past the end.
pub open spec fn chain_value(p: ParamsModel, vals: Seq<Option<nat>>, k: nat) -> Option<nat>
    decreases k,
{
    if k == 0 {
        Some(0nat)
    } else {
        let base = 3 * (k - 1);
        hash_value(
            p,
            seq![
                chain_value(p, vals, (k - 1) as nat),
                padded(vals, base),
                padded(vals, base + 1),
                padded(vals, base + 2),
            ],
        )
    }
}

/// Term `i` of the sequence, or the zero term past its end.
pub open spec fn padded_model(vals: Seq<NumberModel>, i: int) -> NumberModel {
    if 0 <= i < vals.len() {
        vals[i]
    } else {
        NumberModel::zero()
    }
}

/// The system and the running hash after the first `k` chunks of three terms.
pub open spec fn chain_model(cs: CsModel, p: ParamsModel, vals: Seq<NumberModel>, k: nat) -> Hashing
    decreases k,
{
    if k == 0 {
        Hashing { cs, state: seq![NumberModel::zero(), NumberModel::zero()] }
    } else {
        let h = chain_model(cs, p, vals, (k - 1) as nat);
        let base = 3 * (k - 1);
        poseidon_model(
            h.cs,
            p,
            seq![
                h.state[1],
                padded_model(vals, base),
                padded_model(vals, base + 1),
                padded_model(vals, base + 2),
            ],
        )
    }
}

/// The hash of any number of field elements: the running hash over chunks of three.
pub fn hash_chain(params: &PoseidonParams, inputs: &Vec<Fr>) -> (r: Fr)
    requires
        params.wf(),
        params@.width() == 5,
    ensures
        Some(r@) == chain_value(params@, known(inputs@), chunks(inputs@.len())),
{
    let n = inputs.len();
    let count = chunk_count(n);
    let mut acc = Fr::zero();
    let mut k: usize = 0;
    while k < count
        invariant
            params.wf(),
            params@.width() == 5,
            n == inputs@.len(),
            count == chunks(n as nat),
            0 <= k <= count,
            Some(acc@) == chain_value(params@, known(inputs@), k as nat),
        decreases count - k,
    {
        let base = 3 * k;
        let a = inputs[base];
        let b = if n - base > 1 {
            inputs[base + 1]
        } else {
            Fr::zero()
        };
        let c = if n - base > 2 {
            inputs[base + 2]
        } else {
            Fr::zero()
        };
        let mut chunk: Vec<Fr> = Vec::new();
        chunk.push(acc);
        chunk.push(a);
        chunk.push(b);
        chunk.push(c);
        proof {
            let v = known(inputs@);
            assert(known(chunk@) =~= seq![
                chain_value(params@, v, k as nat),
                padded(v, 3 * k),
                padded(v, 3 * k + 1),
                padded(v, 3 * k + 2),
            ]);
        }
        acc = hash(params, &chunk);
        k = k + 1;
    }
    acc
}

/// The number of chunks of three that `n` values fill.
pub fn chunk_count(n: usize) -> (r: usize)
    ensures
        r == chunks(n as nat),
        3 * r < n + 3,
        n <= 3 * r,
{
    if n % 3 == 0 {
        n / 3
    } else {
        n / 3 + 1
    }
}

/// The hash of any number of terms: the running hash over chunks of three, each step a
/// four-input hash of the running hash and the next three terms, with zeros past the end.
pub fn poseidon_chain(cs: &mut ConstraintSystem, params: &PoseidonParams, vals: &Vec<Number>) -> (r:
    Result<Number, SynthesisError>)
    requires
        old(cs).wf(),
        params.wf(),
        params@.width() == 5,
        all_valid(models(vals@), old(cs)@),
    ensures
        final(cs).wf(),
        final(cs)@.extends(old(cs)@),
        r is Err <==> old(cs)@.proving && params@.rounds() > 0 && some_missing(models(vals@)),
        r is Ok ==> {
            &&& final(cs)@ == chain_model(
                old(cs)@,
                params@,
                models(vals@),
                chunks(vals@.len()),
            ).cs
            &&& r.unwrap()@ == chain_model(
                old(cs)@,
                params@,
                models(vals@),
                chunks(vals@.len()),
            ).state[1]
            &&& r.unwrap()@.valid(final(cs)@)
            &&& old(cs)@.proving ==> r.unwrap()@.value == chain_value(
                params@,
                values(models(vals@)),
                chunks(vals@.len()),
            )
            &&& old(cs)@.proving ==> r.unwrap()@.value is Some
            &&& old(cs)@.proving && old(cs)@.satisfied() ==> final(cs)@.satisfied()
        },
{
    let ghost start = cs@;
    let ghost inputs = models(vals@);
    let n = vals.len();
    let count = chunk_count(n);
    let mut acc = Number::zero();
    let mut k: usize = 0;
    while k < count
        invariant
            params.wf(),
            params@.width() == 5,
            n == vals@.len(),
            inputs == models(vals@),
            count == chunks(n as nat),
            0 <= k <= count,
            start == old(cs)@,
            cs.wf(),
            cs@.extends(start),
            all_valid(inputs, start),
            cs@ == chain_model(start, params@, inputs, k as nat).cs,
            acc@ == chain_model(start, params@, inputs, k as nat).state[1],
            acc@.valid(cs@),
            start.proving ==> acc@.value == chain_value(params@, values(inputs), k as nat),
            start.proving ==> acc@.value is Some,
            start.proving && params@.rounds() > 0 ==> forall|i: int|
                0 <= i < 3 * k && i < n ==> (#[trigger] inputs[i]).value is Some,
            start.proving && start.satisfied() ==> cs@.satisfied(),
        decreases count - k,
    {
        let ghost before = cs@;
        let base = 3 * k;
        let a = vals[base].clone();
        let b = if n - base > 1 {
            vals[base + 1].clone()
        } else {
            Number::zero()
        };
        let c = if n - base > 2 {
            vals[base + 2].clone()
        } else {
            Number::zero()
        };
        proof {
            lemma_all_valid_extends(inputs, start, before);
            assert(a@ == padded_model(inputs, 3 * k));
            assert(b@ == padded_model(inputs, 3 * k + 1));
            assert(c@ == padded_model(inputs, 3 * k + 2));
            assert(inputs[base as int].valid(before));
            if n - base > 1 {
                assert(inputs[base + 1].valid(before));
            }
            if n - base > 2 {
                assert(inputs[base + 2].valid(before));
            }
            let v = values(inputs);
            assert(a@.value == padded(v, 3 * k));
            assert(b@.value == padded(v, 3 * k + 1));
            assert(c@.value == padded(v, 3 * k + 2));
        }
        acc = match poseidon4(cs, params, acc, a, b, c) {
            Ok(h) => h,
            Err(e) => {
                proof {
                    assert(some_missing(inputs)) by {
                        if a@.value is None {
                            assert(inputs[base as int].value is None);
                        } else if b@.value is None {
                            assert(inputs[base + 1].value is None);
                        } else {
                            assert(inputs[base + 2].value is None);
                        }
                    }
                }
                return Err(e);
            },
        };
        k = k + 1;
    }
    proof {
        if start.proving && params@.rounds() > 0 && some_missing(inputs) {
            let w = choose|i: int| 0 <= i < inputs.len() && (#[trigger] inputs[i]).value is None;
            assert(inputs[w].value is Some);
        }
    }
    Ok(acc)
}

} // verus!
