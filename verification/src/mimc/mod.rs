//! The MiMC hash, kept for circuits that predate Poseidon: a Feistel network of 322
//! rounds `(xl, xr) -> (xr + (xl + c_i)^3, xl)`, on field values and as constraints.

pub mod groth16;

use crate::common::number::sum;
use crate::common::wire::product;
use crate::field::Fr;
use crate::poseidon::known;
use vstd::prelude::*;

verus! {

/// The number of rounds.
pub open spec fn rounds() -> nat {
    322
}

/// The constant of round `i`, which is `i` itself.
pub open spec fn round_constant(i: nat) -> nat {
    i
}

/// The two halves of the state.
pub struct Halves {
    pub xl: Option<nat>,
    pub xr: Option<nat>,
}

/// The left half after a round with constant `c`: `xr + (xl + c)^3`.
pub open spec fn round_value(xl: Option<nat>, xr: Option<nat>, c: nat) -> Option<nat> {
    let t = sum(xl, Some(c));
    sum(product(product(t, t), t), xr)
}

/// The state after the first `k` rounds.
pub open spec fn mimc_rounds(xl: Option<nat>, xr: Option<nat>, k: nat) -> Halves
    decreases k,
{
    if k == 0 {
        Halves { xl, xr }
    } else {
        let h = mimc_rounds(xl, xr, (k - 1) as nat);
        Halves { xl: round_value(h.xl, h.xr, round_constant((k - 1) as nat)), xr: h.xl }
    }
}

/// The hash of two values: the left half after all rounds.
pub open spec fn double_mimc_value(xl: Option<nat>, xr: Option<nat>) -> Option<nat> {
    mimc_rounds(xl, xr, rounds()).xl
}

/// The hash of the first `k` values of at least two: the running hash of the first two,
/// hashed on with every further value.
pub open spec fn mimc_value(data: Seq<Option<nat>>, k: nat) -> Option<nat>
    decreases k,
{
    if k <= 2 {
        double_mimc_value(data[0], data[1])
    } else {
        double_mimc_value(mimc_value(data, (k - 1) as nat), data[k - 1])
    }
}

/// The hash of two field elements.
pub fn double_mimc(xl: Fr, xr: Fr) -> (r: Fr)
    ensures
        Some(r@) == double_mimc_value(Some(xl@), Some(xr@)),
{
    let mut l = xl;
    let mut r = xr;
    let mut i: u64 = 0;
    while i < 322
        invariant
            0 <= i <= 322,
            mimc_rounds(Some(xl@), Some(xr@), i as nat) == (Halves { xl: Some(l@), xr: Some(r@) }),
        decreases 322 - i,
    {
        let c = Fr::from_u64(i);
        let tmp1 = l.add(&c);
        let tmp2 = tmp1.square().mul(&tmp1).add(&r);
        r = l;
        l = tmp2;
        i += 1;
    }
    l
}

/// The hash of at least two field elements.
pub fn mimc(data: &Vec<Fr>) -> (r: Fr)
    requires
        data@.len() >= 2,
    ensures
        Some(r@) == mimc_value(known(data@), data@.len()),
{
    let mut accum = double_mimc(data[0], data[1]);
    let mut k: usize = 2;
    while k < data.len()
        invariant
            2 <= k <= data@.len(),
            Some(accum@) == mimc_value(known(data@), k as nat),
        decreases data@.len() - k,
    {
        accum = double_mimc(accum, data[k]);
        k += 1;
    }
    accum
}

} // verus!
