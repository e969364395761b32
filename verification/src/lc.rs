//! Linear combinations of circuit variables, kept in `bellman`'s own collection.

use crate::field::{field_mul, field_neg, Fr};
use bls12_381::Scalar;
use vstd::prelude::*;

verus! {

/// A variable of a constraint system: a public input or an auxiliary (private) wire,
/// each numbered in order of allocation.
#[derive(Clone, Copy, Debug, PartialEq, Eq, Structural)]
pub enum Variable {
    Input(usize),
    Aux(usize),
}

/// One summand of a linear combination: a coefficient times a variable.
pub struct Term {
    pub var: Variable,
    pub coeff: nat,
}

/// A linear combination of variables with coefficients in the scalar field: a
/// `bellman::LinearCombination`, which Verus sees only through `lc_terms`.
#[verifier::external_body]
pub struct LinearCombination {
    inner: bellman::LinearCombination<Scalar>,
}

/// The summands that a linear combination holds, in the order in which they were added.
pub uninterp spec fn lc_terms(lc: LinearCombination) -> Seq<Term>;

/// The summands of `terms` with every coefficient negated.
pub open spec fn negated(terms: Seq<Term>) -> Seq<Term> {
    Seq::new(terms.len(), |i: int| Term { var: terms[i].var, coeff: field_neg(terms[i].coeff) })
}

/// The summands of `terms` with every coefficient multiplied by `k`.
pub open spec fn scaled(k: nat, terms: Seq<Term>) -> Seq<Term> {
    Seq::new(terms.len(), |i: int| Term { var: terms[i].var, coeff: field_mul(terms[i].coeff, k) })
}

/// The combination `coeff * var`.
pub open spec fn single(var: Variable, coeff: nat) -> Seq<Term> {
    seq![Term { var, coeff }]
}

/// The combination `1 - var`, with the constant one as the first input.
pub open spec fn one_minus(var: Variable) -> Seq<Term> {
    seq![Term { var: Variable::Input(0), coeff: 1 }, Term { var, coeff: field_neg(1) }]
}

/// The combination `c1 * v1 + c2 * v2`.
pub open spec fn pair(v1: Variable, c1: nat, v2: Variable, c2: nat) -> Seq<Term> {
    seq![Term { var: v1, coeff: c1 }, Term { var: v2, coeff: c2 }]
}

/// `LinearCombination::zero`: the combination without summands.
#[verifier::external_body]
pub(crate) fn lc_zero() -> (r: LinearCombination)
    ensures
        lc_terms(r) == Seq::<Term>::empty(),
{
    LinearCombination { inner: bellman::LinearCombination::zero() }
}

/// `LinearCombination + (Scalar, Variable)`: appends one summand.
#[verifier::external_body]
pub(crate) fn lc_add_term(lc: LinearCombination, coeff: &Fr, var: Variable) -> (r:
    LinearCombination)
    ensures
        lc_terms(r) == lc_terms(lc).push(Term { var, coeff: coeff@ }),
{
    let c = Scalar::from_raw([coeff.l0, coeff.l1, coeff.l2, coeff.l3]);
    let v = match var {
        Variable::Input(i) => bellman::Index::Input(i),
        Variable::Aux(i) => bellman::Index::Aux(i),
    };
    LinearCombination { inner: lc.inner + (c, bellman::Variable::new_unchecked(v)) }
}

/// `LinearCombination + &LinearCombination`: appends the summands of `other` in order.
#[verifier::external_body]
pub(crate) fn lc_add(lc: LinearCombination, other: &LinearCombination) -> (r:
    LinearCombination)
    ensures
        lc_terms(r) == lc_terms(lc) + lc_terms(*other),
{
    LinearCombination { inner: lc.inner + &other.inner }
}

/// `LinearCombination - &LinearCombination`: appends the summands of `other` in order,
/// each with its coefficient negated.
#[verifier::external_body]
pub(crate) fn lc_sub(lc: LinearCombination, other: &LinearCombination) -> (r:
    LinearCombination)
    ensures
        lc_terms(r) == lc_terms(lc) + negated(lc_terms(*other)),
{
    LinearCombination { inner: lc.inner - &other.inner }
}

/// `LinearCombination + (Scalar, &LinearCombination)`: appends the summands of `other`
/// in order, each with its coefficient multiplied by `coeff`.
#[verifier::external_body]
pub(crate) fn lc_add_scaled(
    lc: LinearCombination,
    coeff: &Fr,
    other: &LinearCombination,
) -> (r: LinearCombination)
    ensures
        lc_terms(r) == lc_terms(lc) + scaled(coeff@, lc_terms(*other)),
{
    let c = Scalar::from_raw([coeff.l0, coeff.l1, coeff.l2, coeff.l3]);
    LinearCombination { inner: lc.inner + (c, &other.inner) }
}

/// `LinearCombination::clone`: a combination with the same summands.
#[verifier::external_body]
pub(crate) fn lc_clone(lc: &LinearCombination) -> (r: LinearCombination)
    ensures
        lc_terms(r) == lc_terms(*lc),
{
    LinearCombination { inner: lc.inner.clone() }
}

/// The combination `coeff * var`.
pub fn lc_single(coeff: &Fr, var: Variable) -> (r: LinearCombination)
    ensures
        lc_terms(r) == single(var, coeff@),
{
    let r = lc_add_term(lc_zero(), coeff, var);
    proof {
        assert(lc_terms(r) =~= single(var, coeff@));
    }
    r
}

/// The combination that is just `var`.
pub fn lc_var(var: Variable) -> (r: LinearCombination)
    ensures
        lc_terms(r) == single(var, 1),
{
    let one = Fr::one();
    lc_single(&one, var)
}

/// The combination `c1 * v1 + c2 * v2`.
pub fn lc_pair(c1: &Fr, v1: Variable, c2: &Fr, v2: Variable) -> (r: LinearCombination)
    ensures
        lc_terms(r) == pair(v1, c1@, v2, c2@),
{
    let r = lc_add_term(lc_add_term(lc_zero(), c1, v1), c2, v2);
    proof {
        assert(lc_terms(r) =~= pair(v1, c1@, v2, c2@));
    }
    r
}

/// The combination `1 - var`.
pub fn lc_one_minus(var: Variable) -> (r: LinearCombination)
    ensures
        lc_terms(r) == one_minus(var),
{
    let one = Fr::one();
    let minus_one = one.neg();
    let r = lc_add_term(lc_add_term(lc_zero(), &one, Variable::Input(0)), &minus_one, var);
    proof {
        assert(lc_terms(r) =~= one_minus(var));
    }
    r
}

impl LinearCombination {
    /// A combination with the same summands.
    pub fn clone_terms(&self) -> (r: LinearCombination)
        ensures
            lc_terms(r) == lc_terms(*self),
    {
        lc_clone(self)
    }

    /// The summands, in the order in which they were added.
    pub fn terms(&self) -> (r: Vec<(Variable, Fr)>)
        ensures
            r@.len() == lc_terms(*self).len(),
            forall|i: int|
                0 <= i < r@.len() ==> (#[trigger] r@[i]).0 == lc_terms(*self)[i].var && r@[i].1@
                    == lc_terms(*self)[i].coeff,
    {
        lc_to_vec(self)
    }
}

/// `LinearCombination::as_ref`: hands out the summands, each variable and coefficient
/// as a value of this library.
#[verifier::external_body]
pub(crate) fn lc_to_vec(lc: &LinearCombination) -> (r: Vec<(Variable, Fr)>)
    ensures
        r@.len() == lc_terms(*lc).len(),
        forall|i: int|
            0 <= i < r@.len() ==> (#[trigger] r@[i]).0 == lc_terms(*lc)[i].var && r@[i].1@
                == lc_terms(*lc)[i].coeff,
{
    let mut out = Vec::new();
    for (v, c) in lc.inner.as_ref().iter() {
        let var = match v.get_unchecked() {
            bellman::Index::Input(i) => Variable::Input(i),
            bellman::Index::Aux(i) => Variable::Aux(i),
        };
        let z = c.to_bytes();
        out.push((var, Fr {
            l0: u64::from_le_bytes(z[0..8].try_into().unwrap()),
            l1: u64::from_le_bytes(z[8..16].try_into().unwrap()),
            l2: u64::from_le_bytes(z[16..24].try_into().unwrap()),
            l3: u64::from_le_bytes(z[24..32].try_into().unwrap()),
        }));
    }
    out
}

} // verus!
