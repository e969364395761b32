//! A rank-1 constraint system that records what gadgets allocate and enforce.
//!
//! A system is either *proving*, in which case every variable carries its witness value,
//! or *structure-only*, in which case no witness is recorded and only the shape of the
//! circuit is laid down.

use crate::field::{
    field_add, field_mul, field_neg, field_sub, lemma_add_assoc, lemma_add_zero, lemma_mul_assoc,
    lemma_mul_comm, lemma_mul_distributes, lemma_mul_neg, lemma_neg_add, lemma_sub_is_add_neg,
    modulus, Fr,
};
use crate::lc::{
    lc_terms, lc_to_vec, negated, one_minus, pair, scaled, single, LinearCombination, Term,
    Variable,
};
use vstd::arithmetic::div_mod::lemma_small_mod;
use vstd::prelude::*;

verus! {

/// The value of an optional field element.
pub open spec fn value_of(o: Option<Fr>) -> Option<nat> {
    match o {
        Some(f) => Some(f@),
        None => None,
    }
}

/// What a recorded witness slot may hold: a reduced value when proving, nothing otherwise.
pub open spec fn slot_ok(proving: bool, v: Option<nat>) -> bool {
    match v {
        Some(x) => proving && x < modulus(),
        None => !proving,
    }
}

/// The constraint `a * b = c` over linear combinations.
pub struct ConstraintModel {
    pub a: Seq<Term>,
    pub b: Seq<Term>,
    pub c: Seq<Term>,
}

/// The mathematical content of a constraint system.
pub struct CsModel {
    pub proving: bool,
    pub inputs: Seq<Option<nat>>,
    pub aux: Seq<Option<nat>>,
    pub constraints: Seq<ConstraintModel>,
}

impl CsModel {
    /// The system before anything is allocated: only the constant-one input exists.
    pub open spec fn empty(proving: bool) -> CsModel {
        CsModel {
            proving,
            inputs: seq![if proving { Some(1nat) } else { None }],
            aux: Seq::empty(),
            constraints: Seq::empty(),
        }
    }

    /// Whether `v` has been allocated.
    pub open spec fn has(self, v: Variable) -> bool {
        match v {
            Variable::Input(i) => i < self.inputs.len(),
            Variable::Aux(i) => i < self.aux.len(),
        }
    }

    /// The witness value of `v`; zero where none is recorded.
    pub open spec fn value(self, v: Variable) -> nat {
        match v {
            Variable::Input(i) => match self.inputs[i as int] {
                Some(x) => x,
                None => 0,
            },
            Variable::Aux(i) => match self.aux[i as int] {
                Some(x) => x,
                None => 0,
            },
        }
    }

    /// What is recorded for `v`.
    pub open spec fn slot(self, v: Variable) -> Option<nat> {
        match v {
            Variable::Input(i) => self.inputs[i as int],
            Variable::Aux(i) => self.aux[i as int],
        }
    }

    /// Whether every variable of `lc` has been allocated.
    pub open spec fn covers(self, lc: Seq<Term>) -> bool {
        forall|i: int| 0 <= i < lc.len() ==> self.has((#[trigger] lc[i]).var)
    }

    /// The value of a linear combination under the recorded witness.
    pub open spec fn eval(self, lc: Seq<Term>) -> nat
        decreases lc.len(),
    {
        if lc.len() == 0 {
            0
        } else {
            field_add(
                self.eval(lc.drop_last()),
                field_mul(lc.last().coeff, self.value(lc.last().var)),
            )
        }
    }

    /// Whether the recorded witness meets one constraint.
    pub open spec fn holds(self, k: ConstraintModel) -> bool {
        field_mul(self.eval(k.a), self.eval(k.b)) == self.eval(k.c)
    }

    /// Whether the recorded witness meets every constraint.
    pub open spec fn satisfied(self) -> bool {
        forall|i: int| 0 <= i < self.constraints.len() ==> self.holds(#[trigger] self.constraints[i])
    }

    pub open spec fn wf(self) -> bool {
        &&& self.inputs.len() >= 1
        &&& self.inputs[0] == (if self.proving {
            Some(1nat)
        } else {
            None
        })
        &&& forall|i: int| 0 <= i < self.inputs.len() ==> slot_ok(self.proving, #[trigger] self.inputs[i])
        &&& forall|i: int| 0 <= i < self.aux.len() ==> slot_ok(self.proving, #[trigger] self.aux[i])
        &&& forall|i: int|
            0 <= i < self.constraints.len() ==> {
                &&& self.covers((#[trigger] self.constraints[i]).a)
                &&& self.covers(self.constraints[i].b)
                &&& self.covers(self.constraints[i].c)
            }
    }

    /// What a witness slot records for an offered value.
    pub open spec fn kept(self, v: Option<nat>) -> Option<nat> {
        if self.proving {
            v
        } else {
            None
        }
    }

    /// What a bit slot records for an offered boolean.
    pub open spec fn kept_bit(self, b: Option<bool>) -> Option<bool> {
        if self.proving {
            b
        } else {
            None
        }
    }

    /// The system after one more auxiliary variable.
    pub open spec fn allocate(self, v: Option<nat>) -> CsModel {
        CsModel { aux: self.aux.push(self.kept(v)), ..self }
    }

    /// The system after one more public input.
    pub open spec fn allocate_public(self, v: Option<nat>) -> CsModel {
        CsModel { inputs: self.inputs.push(self.kept(v)), ..self }
    }

    /// The system after one more constraint.
    pub open spec fn enforce(self, a: Seq<Term>, b: Seq<Term>, c: Seq<Term>) -> CsModel {
        CsModel { constraints: self.constraints.push(ConstraintModel { a, b, c }), ..self }
    }

    /// The auxiliary variable that the next allocation returns.
    pub open spec fn next_aux(self) -> Variable {
        Variable::Aux(self.aux.len() as usize)
    }

    /// The input variable that the next public allocation returns.
    pub open spec fn next_input(self) -> Variable {
        Variable::Input(self.inputs.len() as usize)
    }

    /// Whether `self` is `base` with more variables and constraints appended.
    pub open spec fn extends(self, base: CsModel) -> bool {
        &&& self.proving == base.proving
        &&& base.inputs.is_prefix_of(self.inputs)
        &&& base.aux.is_prefix_of(self.aux)
        &&& base.constraints.is_prefix_of(self.constraints)
    }

    /// The value of a linear combination is a reduced field value.
    pub proof fn lemma_eval_reduced(self, lc: Seq<Term>)
        ensures
            self.eval(lc) < modulus(),
        decreases lc.len(),
    {
        if lc.len() > 0 {
            self.lemma_eval_reduced(lc.drop_last());
        }
    }

    /// Appending a summand adds its product to the value.
    pub proof fn lemma_eval_push(self, lc: Seq<Term>, t: Term)
        ensures
            self.eval(lc.push(t)) == field_add(self.eval(lc), field_mul(t.coeff, self.value(t.var))),
    {
        assert(lc.push(t).drop_last() =~= lc);
    }

    /// The value of a single summand.
    pub proof fn lemma_eval_term(self, t: Term)
        ensures
            self.eval(seq![t]) == field_mul(t.coeff, self.value(t.var)),
            self.covers(seq![t]) <==> self.has(t.var),
    {
        let e = Seq::<Term>::empty();
        assert(seq![t] =~= e.push(t));
        self.lemma_eval_push(e, t);
        lemma_small_mod(field_mul(t.coeff, self.value(t.var)), modulus());
        assert(seq![t][0] == t);
    }

    /// The value of `coeff * var`.
    pub proof fn lemma_eval_single(self, var: Variable, coeff: nat)
        ensures
            self.eval(single(var, coeff)) == field_mul(coeff, self.value(var)),
            self.covers(single(var, coeff)) <==> self.has(var),
    {
        self.lemma_eval_term(Term { var, coeff });
    }

    /// The value of `c1 * v1 + c2 * v2`.
    pub proof fn lemma_eval_pair(self, v1: Variable, c1: nat, v2: Variable, c2: nat)
        ensures
            self.eval(pair(v1, c1, v2, c2)) == field_add(
                field_mul(c1, self.value(v1)),
                field_mul(c2, self.value(v2)),
            ),
            self.covers(pair(v1, c1, v2, c2)) <==> self.has(v1) && self.has(v2),
    {
        let a = single(v1, c1);
        let b = single(v2, c2);
        assert(pair(v1, c1, v2, c2) =~= a + b);
        self.lemma_eval_concat(a, b);
        self.lemma_eval_single(v1, c1);
        self.lemma_eval_single(v2, c2);
    }

    /// While proving, a variable of a well-formed system is worth what its slot records,
    /// and the first input is worth one.
    pub proof fn lemma_value(self, var: Variable)
        requires
            self.wf(),
            self.proving,
            self.has(var),
        ensures
            self.slot(var) == Some(self.value(var)),
            self.value(var) < modulus(),
            self.value(Variable::Input(0)) == 1,
            self.eval(single(var, 1)) == self.value(var),
    {
        match var {
            Variable::Input(i) => {
                assert(slot_ok(self.proving, self.inputs[i as int]));
            },
            Variable::Aux(i) => {
                assert(slot_ok(self.proving, self.aux[i as int]));
            },
        }
        self.lemma_eval_single(var, 1);
        crate::field::lemma_mul_unit(self.value(var));
    }

    /// While proving, `1 - var` is worth one minus the value of `var`.
    pub proof fn lemma_eval_one_minus(self, var: Variable)
        requires
            self.wf(),
            self.proving,
            self.has(var),
        ensures
            self.eval(one_minus(var)) == field_sub(1, self.value(var)),
            self.covers(one_minus(var)),
    {
        let one = Variable::Input(0);
        self.lemma_value(var);
        self.lemma_value(one);
        let a = single(one, 1);
        let b = single(var, 1);
        assert(one_minus(var) =~= a + negated(b));
        self.lemma_eval_minus(a, b);
        self.lemma_eval_single(one, 1);
        self.lemma_eval_single(var, 1);
    }

    /// The value of a concatenation is the sum of the values.
    pub proof fn lemma_eval_concat(self, a: Seq<Term>, b: Seq<Term>)
        ensures
            self.eval(a + b) == field_add(self.eval(a), self.eval(b)),
            self.covers(a + b) <==> self.covers(a) && self.covers(b),
        decreases b.len(),
    {
        self.lemma_eval_reduced(a);
        if b.len() == 0 {
            assert(a + b =~= a);
            lemma_add_zero(self.eval(a));
        } else {
            assert((a + b).drop_last() =~= a + b.drop_last());
            assert((a + b).last() == b.last());
            self.lemma_eval_concat(a, b.drop_last());
            lemma_add_assoc(
                self.eval(a),
                self.eval(b.drop_last()),
                field_mul(b.last().coeff, self.value(b.last().var)),
            );
        }
        if self.covers(a + b) {
            assert forall|i: int| 0 <= i < a.len() implies self.has((#[trigger] a[i]).var) by {
                assert((a + b)[i] == a[i]);
            }
            assert forall|i: int| 0 <= i < b.len() implies self.has((#[trigger] b[i]).var) by {
                assert((a + b)[a.len() + i] == b[i]);
            }
        }
        if self.covers(a) && self.covers(b) {
            assert forall|i: int| 0 <= i < (a + b).len() implies self.has(
                (#[trigger] (a + b)[i]).var,
            ) by {
                if i < a.len() {
                    assert((a + b)[i] == a[i]);
                } else {
                    assert((a + b)[i] == b[i - a.len()]);
                }
            }
        }
    }

    /// Negating every coefficient negates the value.
    pub proof fn lemma_eval_negated(self, b: Seq<Term>)
        ensures
            self.eval(negated(b)) == field_neg(self.eval(b)),
            self.covers(negated(b)) <==> self.covers(b),
        decreases b.len(),
    {
        if b.len() == 0 {
            lemma_small_mod(0, modulus());
        } else {
            assert(negated(b).drop_last() =~= negated(b.drop_last()));
            self.lemma_eval_negated(b.drop_last());
            let t = b.last();
            lemma_mul_neg(t.coeff, self.value(t.var));
            lemma_neg_add(self.eval(b.drop_last()), field_mul(t.coeff, self.value(t.var)));
        }
        if self.covers(negated(b)) {
            assert forall|i: int| 0 <= i < b.len() implies self.has((#[trigger] b[i]).var) by {
                assert(negated(b)[i].var == b[i].var);
            }
        }
        if self.covers(b) {
            assert forall|i: int| 0 <= i < negated(b).len() implies self.has(
                (#[trigger] negated(b)[i]).var,
            ) by {
                assert(negated(b)[i].var == b[i].var);
            }
        }
    }

    /// Subtracting a combination subtracts its value.
    pub proof fn lemma_eval_minus(self, a: Seq<Term>, b: Seq<Term>)
        ensures
            self.eval(a + negated(b)) == field_sub(self.eval(a), self.eval(b)),
            self.covers(a + negated(b)) <==> self.covers(a) && self.covers(b),
    {
        self.lemma_eval_negated(b);
        self.lemma_eval_concat(a, negated(b));
        lemma_sub_is_add_neg(self.eval(a), self.eval(b));
    }

    /// Scaling every coefficient scales the value.
    pub proof fn lemma_eval_scaled(self, k: nat, b: Seq<Term>)
        ensures
            self.eval(scaled(k, b)) == field_mul(self.eval(b), k),
            self.covers(scaled(k, b)) <==> self.covers(b),
        decreases b.len(),
    {
        if b.len() == 0 {
            assert(0nat * k == 0) by (nonlinear_arith);
            lemma_small_mod(0, modulus());
        } else {
            assert(scaled(k, b).drop_last() =~= scaled(k, b.drop_last()));
            self.lemma_eval_scaled(k, b.drop_last());
            let t = b.last();
            let v = self.value(t.var);
            lemma_mul_assoc(t.coeff, k, v);
            lemma_mul_comm(k, v);
            lemma_mul_assoc(t.coeff, v, k);
            lemma_mul_distributes(self.eval(b.drop_last()), field_mul(t.coeff, v), k);
        }
        if self.covers(scaled(k, b)) {
            assert forall|i: int| 0 <= i < b.len() implies self.has((#[trigger] b[i]).var) by {
                assert(scaled(k, b)[i].var == b[i].var);
            }
        }
        if self.covers(b) {
            assert forall|i: int| 0 <= i < scaled(k, b).len() implies self.has(
                (#[trigger] scaled(k, b)[i]).var,
            ) by {
                assert(scaled(k, b)[i].var == b[i].var);
            }
        }
    }

    /// A linear combination keeps its value when the system grows.
    pub proof fn lemma_eval_extends(self, base: CsModel, lc: Seq<Term>)
        requires
            self.extends(base),
            base.covers(lc),
        ensures
            self.eval(lc) == base.eval(lc),
            self.covers(lc),
        decreases lc.len(),
    {
        if lc.len() > 0 {
            assert forall|i: int| 0 <= i < lc.drop_last().len() implies base.has(
                (#[trigger] lc.drop_last()[i]).var,
            ) by {
                assert(lc.drop_last()[i] == lc[i]);
            }
            self.lemma_eval_extends(base, lc.drop_last());
            let t = lc.last();
            assert(base.has(lc[lc.len() - 1].var));
            assert(self.value(t.var) == base.value(t.var));
        }
        assert forall|i: int| 0 <= i < lc.len() implies self.has((#[trigger] lc[i]).var) by {
            assert(base.has(lc[i].var));
        }
    }

    /// Constraints only accumulate: a system that is satisfied was satisfied at every
    /// earlier stage.
    pub proof fn lemma_satisfied_before(self, base: CsModel)
        requires
            base.wf(),
            self.extends(base),
            self.satisfied(),
        ensures
            base.satisfied(),
    {
        assert forall|i: int| 0 <= i < base.constraints.len() implies base.holds(
            #[trigger] base.constraints[i],
        ) by {
            let k = base.constraints[i];
            assert(self.constraints[i] == k);
            assert(self.holds(self.constraints[i]));
            self.lemma_eval_extends(base, k.a);
            self.lemma_eval_extends(base, k.b);
            self.lemma_eval_extends(base, k.c);
        }
    }

    /// Growing by variables alone keeps a well-formed system well-formed and satisfied.
    pub proof fn lemma_alloc(self, v: Option<nat>)
        requires
            self.wf(),
            slot_ok(self.proving, self.kept(v)),
        ensures
            self.allocate(v).wf(),
            self.allocate(v).extends(self),
            self.satisfied() <==> self.allocate(v).satisfied(),
            self.allocate(v).has(self.next_aux()) || self.aux.len() > usize::MAX,
    {
        let n = self.allocate(v);
        assert forall|i: int| 0 <= i < n.constraints.len() implies {
            &&& n.covers((#[trigger] n.constraints[i]).a)
            &&& n.covers(n.constraints[i].b)
            &&& n.covers(n.constraints[i].c)
        } by {
            let k = self.constraints[i];
            n.lemma_eval_extends(self, k.a);
            n.lemma_eval_extends(self, k.b);
            n.lemma_eval_extends(self, k.c);
        }
        if self.satisfied() {
            assert forall|i: int| 0 <= i < n.constraints.len() implies n.holds(
                #[trigger] n.constraints[i],
            ) by {
                let k = self.constraints[i];
                assert(self.holds(k));
                n.lemma_eval_extends(self, k.a);
                n.lemma_eval_extends(self, k.b);
                n.lemma_eval_extends(self, k.c);
            }
        }
        if n.satisfied() {
            assert forall|i: int| 0 <= i < self.constraints.len() implies self.holds(
                #[trigger] self.constraints[i],
            ) by {
                let k = self.constraints[i];
                assert(n.holds(n.constraints[i]));
                n.lemma_eval_extends(self, k.a);
                n.lemma_eval_extends(self, k.b);
                n.lemma_eval_extends(self, k.c);
            }
        }
    }

    /// Growing by a public input keeps a well-formed system well-formed and satisfied.
    pub proof fn lemma_alloc_input(self, v: Option<nat>)
        requires
            self.wf(),
            slot_ok(self.proving, self.kept(v)),
        ensures
            self.allocate_public(v).wf(),
            self.allocate_public(v).extends(self),
            self.satisfied() <==> self.allocate_public(v).satisfied(),
    {
        let n = self.allocate_public(v);
        assert forall|i: int| 0 <= i < n.constraints.len() implies {
            &&& n.covers((#[trigger] n.constraints[i]).a)
            &&& n.covers(n.constraints[i].b)
            &&& n.covers(n.constraints[i].c)
        } by {
            let k = self.constraints[i];
            n.lemma_eval_extends(self, k.a);
            n.lemma_eval_extends(self, k.b);
            n.lemma_eval_extends(self, k.c);
        }
        if self.satisfied() {
            assert forall|i: int| 0 <= i < n.constraints.len() implies n.holds(
                #[trigger] n.constraints[i],
            ) by {
                let k = self.constraints[i];
                assert(self.holds(k));
                n.lemma_eval_extends(self, k.a);
                n.lemma_eval_extends(self, k.b);
                n.lemma_eval_extends(self, k.c);
            }
        }
        if n.satisfied() {
            assert forall|i: int| 0 <= i < self.constraints.len() implies self.holds(
                #[trigger] self.constraints[i],
            ) by {
                let k = self.constraints[i];
                assert(n.holds(n.constraints[i]));
                n.lemma_eval_extends(self, k.a);
                n.lemma_eval_extends(self, k.b);
                n.lemma_eval_extends(self, k.c);
            }
        }
    }

    /// One more constraint: the system stays well-formed, and it is satisfied exactly
    /// when it was before and the new constraint holds.
    pub proof fn lemma_enforce(self, a: Seq<Term>, b: Seq<Term>, c: Seq<Term>)
        requires
            self.wf(),
            self.covers(a),
            self.covers(b),
            self.covers(c),
        ensures
            self.enforce(a, b, c).wf(),
            self.enforce(a, b, c).extends(self),
            self.enforce(a, b, c).satisfied() <==> self.satisfied() && self.holds(
                ConstraintModel { a, b, c },
            ),
            forall|lc: Seq<Term>| #[trigger] self.enforce(a, b, c).eval(lc) == self.eval(lc),
    {
        let n = self.enforce(a, b, c);
        let k = ConstraintModel { a, b, c };
        assert forall|lc: Seq<Term>| #[trigger] n.eval(lc) == self.eval(lc) by {
            self.lemma_eval_same_witness(n, lc);
        }
        assert(n.covers(a) && n.covers(b) && n.covers(c));
        assert forall|i: int| 0 <= i < n.constraints.len() implies {
            &&& n.covers((#[trigger] n.constraints[i]).a)
            &&& n.covers(n.constraints[i].b)
            &&& n.covers(n.constraints[i].c)
        } by {
            if i < self.constraints.len() {
                let k0 = self.constraints[i];
                assert(self.covers(k0.a));
                assert(n.constraints[i] == k0);
            } else {
                assert(n.constraints[i] == k);
            }
        }
        if n.satisfied() {
            assert forall|i: int| 0 <= i < self.constraints.len() implies self.holds(
                #[trigger] self.constraints[i],
            ) by {
                assert(n.holds(n.constraints[i]));
            }
            assert(n.holds(n.constraints[self.constraints.len() as int]));
        }
        if self.satisfied() && self.holds(k) {
            assert forall|i: int| 0 <= i < n.constraints.len() implies n.holds(
                #[trigger] n.constraints[i],
            ) by {
                if i < self.constraints.len() {
                    assert(self.holds(self.constraints[i]));
                }
            }
        }
    }

    /// Two systems with the same witness give a linear combination the same value.
    pub proof fn lemma_eval_same_witness(self, other: CsModel, lc: Seq<Term>)
        requires
            self.inputs == other.inputs,
            self.aux == other.aux,
        ensures
            self.eval(lc) == other.eval(lc),
        decreases lc.len(),
    {
        if lc.len() > 0 {
            self.lemma_eval_same_witness(other, lc.drop_last());
        }
    }
}

/// Why a synthesis step failed.
#[derive(Clone, Copy, Debug, PartialEq, Eq, Structural)]
pub enum SynthesisError {
    /// A witness value was needed while proving and was not there.
    AssignmentMissing,
}

/// A recorded constraint `a * b = c`.
pub struct Constraint {
    pub a: LinearCombination,
    pub b: LinearCombination,
    pub c: LinearCombination,
}

impl View for Constraint {
    type V = ConstraintModel;

    open spec fn view(&self) -> ConstraintModel {
        ConstraintModel { a: lc_terms(self.a), b: lc_terms(self.b), c: lc_terms(self.c) }
    }
}

/// A constraint system under construction.
pub struct ConstraintSystem {
    proving: bool,
    inputs: Vec<Option<Fr>>,
    aux: Vec<Option<Fr>>,
    constraints: Vec<Constraint>,
}

impl View for ConstraintSystem {
    type V = CsModel;

    closed spec fn view(&self) -> CsModel {
        CsModel {
            proving: self.proving,
            inputs: self.inputs@.map_values(|o: Option<Fr>| value_of(o)),
            aux: self.aux@.map_values(|o: Option<Fr>| value_of(o)),
            constraints: self.constraints@.map_values(|k: Constraint| k@),
        }
    }
}

impl ConstraintSystem {
    pub open spec fn wf(&self) -> bool {
        self@.wf()
    }

    /// A system that holds only the constant-one input. With `proving` it records
    /// witness values and insists on them; without, it records the structure alone.
    pub fn new(proving: bool) -> (r: ConstraintSystem)
        ensures
            r.wf(),
            r@ == CsModel::empty(proving),
    {
        let mut inputs: Vec<Option<Fr>> = Vec::new();
        if proving {
            let one = Fr::one();
            one.reduced();
            inputs.push(Some(one));
        } else {
            inputs.push(None);
        }
        let r = ConstraintSystem { proving, inputs, aux: Vec::new(), constraints: Vec::new() };
        proof {
            assert(r@.inputs =~= CsModel::empty(proving).inputs);
            assert(r@.aux =~= CsModel::empty(proving).aux);
            assert(r@.constraints =~= CsModel::empty(proving).constraints);
        }
        r
    }

    /// Whether witness values are recorded.
    pub fn is_proving(&self) -> (r: bool)
        ensures
            r == self@.proving,
    {
        self.proving
    }

    /// The input variable whose value is always one.
    pub fn one() -> (r: Variable)
        ensures
            r == Variable::Input(0),
    {
        Variable::Input(0)
    }

    /// Allocates a private variable. While proving, the value is required and recorded;
    /// otherwise it is ignored.
    pub fn allocate(&mut self, value: Option<Fr>) -> (r: Result<Variable, SynthesisError>)
        requires
            old(self).wf(),
        ensures
            final(self).wf(),
            r is Err <==> old(self)@.proving && value is None,
            r is Err ==> *final(self) == *old(self),
            r is Ok ==> {
                &&& r.unwrap() == old(self)@.next_aux()
                &&& final(self)@ == old(self)@.allocate(value_of(value))
                &&& final(self)@.has(r.unwrap())
                &&& final(self)@.slot(r.unwrap()) == old(self)@.kept(value_of(value))
                &&& final(self)@.extends(old(self)@)
                &&& old(self)@.satisfied() <==> final(self)@.satisfied()
            },
    {
        if self.proving && value.is_none() {
            return Err(SynthesisError::AssignmentMissing);
        }
        let kept = if self.proving {
            value
        } else {
            None
        };
        let index = self.aux.len();
        proof {
            if let Some(f) = kept {
                use_type_invariant(&f);
            }
            old(self)@.lemma_alloc(value_of(value));
        }
        self.aux.push(kept);
        proof {
            assert(self@.aux =~= old(self)@.allocate(value_of(value)).aux);
            assert(self@.inputs =~= old(self)@.inputs);
            assert(self@.constraints =~= old(self)@.constraints);
        }
        Ok(Variable::Aux(index))
    }

    /// Allocates a public input. While proving, the value is required and recorded;
    /// otherwise it is ignored.
    pub fn allocate_public(&mut self, value: Option<Fr>) -> (r: Result<Variable, SynthesisError>)
        requires
            old(self).wf(),
        ensures
            final(self).wf(),
            r is Err <==> old(self)@.proving && value is None,
            r is Err ==> *final(self) == *old(self),
            r is Ok ==> {
                &&& r.unwrap() == old(self)@.next_input()
                &&& final(self)@ == old(self)@.allocate_public(value_of(value))
                &&& final(self)@.has(r.unwrap())
                &&& final(self)@.slot(r.unwrap()) == old(self)@.kept(value_of(value))
                &&& final(self)@.extends(old(self)@)
                &&& old(self)@.satisfied() <==> final(self)@.satisfied()
            },
    {
        if self.proving && value.is_none() {
            return Err(SynthesisError::AssignmentMissing);
        }
        let kept = if self.proving {
            value
        } else {
            None
        };
        let index = self.inputs.len();
        proof {
            if let Some(f) = kept {
                use_type_invariant(&f);
            }
            old(self)@.lemma_alloc_input(value_of(value));
        }
        self.inputs.push(kept);
        proof {
            assert(self@.inputs =~= old(self)@.allocate_public(value_of(value)).inputs);
            assert(self@.aux =~= old(self)@.aux);
            assert(self@.constraints =~= old(self)@.constraints);
        }
        Ok(Variable::Input(index))
    }

    /// Records the constraint `a * b = c`.
    pub fn enforce(&mut self, a: LinearCombination, b: LinearCombination, c: LinearCombination)
        requires
            old(self).wf(),
            old(self)@.covers(lc_terms(a)),
            old(self)@.covers(lc_terms(b)),
            old(self)@.covers(lc_terms(c)),
        ensures
            final(self).wf(),
            final(self)@ == old(self)@.enforce(lc_terms(a), lc_terms(b), lc_terms(c)),
            final(self)@.extends(old(self)@),
            final(self)@.satisfied() <==> old(self)@.satisfied() && old(self)@.holds(
                ConstraintModel { a: lc_terms(a), b: lc_terms(b), c: lc_terms(c) },
            ),
            forall|lc: Seq<Term>| #[trigger] final(self)@.eval(lc) == old(self)@.eval(lc),
    {
        proof {
            old(self)@.lemma_enforce(lc_terms(a), lc_terms(b), lc_terms(c));
        }
        self.constraints.push(Constraint { a, b, c });
        proof {
            assert(self@.constraints =~= old(self)@.enforce(
                lc_terms(a),
                lc_terms(b),
                lc_terms(c),
            ).constraints);
            assert(self@.inputs =~= old(self)@.inputs);
            assert(self@.aux =~= old(self)@.aux);
        }
    }

    /// The number of public inputs, the constant one among them.
    pub fn num_inputs(&self) -> (r: usize)
        ensures
            r == self@.inputs.len(),
    {
        self.inputs.len()
    }

    /// The number of private variables.
    pub fn num_aux(&self) -> (r: usize)
        ensures
            r == self@.aux.len(),
    {
        self.aux.len()
    }

    /// The number of constraints.
    pub fn num_constraints(&self) -> (r: usize)
        ensures
            r == self@.constraints.len(),
    {
        self.constraints.len()
    }

    /// The recorded value of public input `i`.
    pub fn input_value(&self, i: usize) -> (r: Option<Fr>)
        requires
            i < self@.inputs.len(),
        ensures
            value_of(r) == self@.inputs[i as int],
    {
        self.inputs[i]
    }

    /// The recorded value of private variable `i`.
    pub fn aux_value(&self, i: usize) -> (r: Option<Fr>)
        requires
            i < self@.aux.len(),
        ensures
            value_of(r) == self@.aux[i as int],
    {
        self.aux[i]
    }

    /// The recorded value of a variable; zero where none is recorded.
    pub fn value(&self, v: Variable) -> (r: Fr)
        requires
            self@.has(v),
        ensures
            r@ == self@.value(v),
    {
        let slot = match v {
            Variable::Input(i) => self.inputs[i],
            Variable::Aux(i) => self.aux[i],
        };
        match slot {
            Some(f) => f,
            None => Fr::zero(),
        }
    }

    /// Whether every variable of a linear combination has been allocated here.
    pub fn contains(&self, lc: &LinearCombination) -> (r: bool)
        ensures
            r == self@.covers(lc_terms(*lc)),
    {
        let terms = lc_to_vec(lc);
        let mut i: usize = 0;
        while i < terms.len()
            invariant
                0 <= i <= terms.len(),
                terms@.len() == lc_terms(*lc).len(),
                forall|j: int|
                    0 <= j < terms@.len() ==> (#[trigger] terms@[j]).0 == lc_terms(*lc)[j].var,
                forall|j: int| 0 <= j < i ==> self@.has((#[trigger] lc_terms(*lc)[j]).var),
            decreases terms.len() - i,
        {
            let known = match terms[i].0 {
                Variable::Input(k) => k < self.inputs.len(),
                Variable::Aux(k) => k < self.aux.len(),
            };
            proof {
                assert(terms@[i as int].0 == lc_terms(*lc)[i as int].var);
            }
            if !known {
                return false;
            }
            i += 1;
        }
        true
    }

    /// The value of a linear combination under the recorded witness.
    pub fn eval(&self, lc: &LinearCombination) -> (r: Fr)
        requires
            self@.covers(lc_terms(*lc)),
        ensures
            r@ == self@.eval(lc_terms(*lc)),
    {
        let terms = lc_to_vec(lc);
        let mut acc = Fr::zero();
        let mut i: usize = 0;
        while i < terms.len()
            invariant
                0 <= i <= terms.len(),
                terms@.len() == lc_terms(*lc).len(),
                forall|j: int|
                    0 <= j < terms@.len() ==> (#[trigger] terms@[j]).0 == lc_terms(*lc)[j].var
                        && terms@[j].1@ == lc_terms(*lc)[j].coeff,
                self@.covers(lc_terms(*lc)),
                acc@ == self@.eval(lc_terms(*lc).take(i as int)),
            decreases terms.len() - i,
        {
            let (var, coeff) = terms[i];
            proof {
                assert(terms@[i as int].0 == lc_terms(*lc)[i as int].var);
                assert(self@.has(lc_terms(*lc)[i as int].var));
                let t = lc_terms(*lc);
                assert(t.take(i + 1).drop_last() =~= t.take(i as int));
                assert(t.take(i + 1).last() == t[i as int]);
            }
            let v = self.value(var);
            let p = coeff.mul(&v);
            acc = acc.add(&p);
            i += 1;
        }
        proof {
            assert(lc_terms(*lc).take(i as int) =~= lc_terms(*lc));
        }
        acc
    }

    /// The summands of the three sides of constraint `i`.
    pub fn constraint(&self, i: usize) -> (r: (Vec<(Variable, Fr)>, Vec<(Variable, Fr)>, Vec<
        (Variable, Fr),
    >))
        requires
            i < self@.constraints.len(),
        ensures
            same_terms(r.0@, self@.constraints[i as int].a),
            same_terms(r.1@, self@.constraints[i as int].b),
            same_terms(r.2@, self@.constraints[i as int].c),
    {
        let k = &self.constraints[i];
        (lc_to_vec(&k.a), lc_to_vec(&k.b), lc_to_vec(&k.c))
    }

    /// Whether the recorded witness meets every constraint.
    pub fn is_satisfied(&self) -> (r: bool)
        requires
            self.wf(),
        ensures
            r == self@.satisfied(),
    {
        let mut i: usize = 0;
        while i < self.constraints.len()
            invariant
                0 <= i <= self.constraints.len(),
                self.wf(),
                forall|j: int| 0 <= j < i ==> self@.holds(#[trigger] self@.constraints[j]),
            decreases self.constraints.len() - i,
        {
            let k = &self.constraints[i];
            proof {
                assert(self@.constraints[i as int] == k@);
                assert(self@.covers(self@.constraints[i as int].a));
            }
            let a = self.eval(&k.a);
            let b = self.eval(&k.b);
            let c = self.eval(&k.c);
            let ab = a.mul(&b);
            if !ab.equals(&c) {
                proof {
                    assert(!self@.holds(self@.constraints[i as int]));
                }
                return false;
            }
            i += 1;
        }
        true
    }
}

/// Whether `v` lists the summands `terms`.
pub open spec fn same_terms(v: Seq<(Variable, Fr)>, terms: Seq<Term>) -> bool {
    &&& v.len() == terms.len()
    &&& forall|i: int|
        0 <= i < v.len() ==> (#[trigger] v[i]).0 == terms[i].var && v[i].1@ == terms[i].coeff
}

} // verus!
