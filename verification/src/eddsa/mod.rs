//! EdDSA over a twisted Edwards curve: keys, signatures, and their verification.

pub mod curve;
pub mod groth16;

use crate::bigint::{combine, digits_value};
use crate::eddsa::curve::{
    ordinate_square, point_add, point_mul, CurveModel, CurveParams, PointAffine, PointCompressed,
    PointModel,
};
use crate::field::{bit_of, field_mul, modulus, Fr};
use crate::poseidon::{hash, hash_value, known, ParamsModel, PoseidonParams};
use vstd::prelude::*;

verus! {

/// A private key: the secret scalar, the randomness that nonces are derived from, and the
/// public point.
#[derive(Clone, Copy, Debug)]
pub struct PrivateKey {
    pub public_key: PointAffine,
    pub randomness: Fr,
    pub scalar: Fr,
}

/// A public key: the public point, compressed.
#[derive(Clone, Copy, Debug, PartialEq, Eq, Structural)]
pub struct PublicKey(pub PointCompressed);

/// A signature: the nonce point `R` and the scalar `s`.
#[derive(Clone, Copy, Debug, PartialEq, Eq, Structural)]
pub struct Signature {
    pub r: PointAffine,
    pub s: Fr,
}

/// The nonce of a signature: the hash of the key's randomness and the message.
pub open spec fn nonce(p: ParamsModel, randomness: nat, message: nat) -> Option<nat> {
    hash_value(p, seq![Some(randomness), Some(message)])
}

/// The challenge `h = H(R, A, M)` of a signature.
pub open spec fn challenge(p: ParamsModel, pk: PointModel, message: nat, r: PointModel) -> Option<nat> {
    hash_value(p, seq![Some(r.x), Some(r.y), Some(pk.x), Some(pk.y), Some(message)])
}

/// Whether `s * B = h * A + R`, with `h` the challenge.
pub open spec fn signature_holds(
    c: CurveModel,
    base: PointModel,
    p: ParamsModel,
    pk: PointModel,
    message: nat,
    r: PointModel,
    s: nat,
) -> bool {
    let h = challenge(p, pk, message, r).unwrap();
    point_add(c, point_mul(c, pk, h), r) == point_mul(c, base, s)
}

/// The key pair of a secret scalar: the public point is the scalar times the base.
pub fn generate_keys(curve: &CurveParams, randomness: Fr, scalar: Fr) -> (r: (PublicKey, PrivateKey))
    ensures
        r.1.public_key@ == point_mul(curve@, curve.base@, scalar@),
        r.1.randomness == randomness,
        r.1.scalar == scalar,
        r.0.0.0 == r.1.public_key.0,
        r.0.0.1 == bit_of(r.1.public_key@.y, 0),
{
    let point = curve.base.multiply(&scalar, curve);
    let pk = PublicKey(point.compress());
    (pk, PrivateKey { public_key: point, randomness, scalar })
}

/// The challenge of a signature, hashed from the nonce point, the public point and the
/// message.
pub fn challenge_of(params: &PoseidonParams, pk: &PointAffine, message: &Fr, r: &PointAffine) -> (h: Fr)
    requires
        params.wf(),
        params@.width() == 6,
    ensures
        Some(h@) == challenge(params@, pk@, message@, r@),
{
    let mut inputs: Vec<Fr> = Vec::new();
    inputs.push(r.0);
    inputs.push(r.1);
    inputs.push(pk.0);
    inputs.push(pk.1);
    inputs.push(*message);
    proof {
        assert(known(inputs@) =~= seq![
            Some(r@.x),
            Some(r@.y),
            Some(pk@.x),
            Some(pk@.y),
            Some(message@),
        ]);
    }
    hash(params, &inputs)
}

/// Signs a message: with the nonce `r = H(b, M)`, the nonce point `R = r * B` and the
/// challenge `h = H(R, A, M)`, the scalar is `s = (r + h * a) mod order`. `order` is the
/// order of the base point, as base-2^32 digits, and no larger than the field order.
pub fn sign(
    curve: &CurveParams,
    nonce_params: &PoseidonParams,
    params: &PoseidonParams,
    order: &Vec<u32>,
    sk: &PrivateKey,
    message: Fr,
) -> (sig: Signature)
    requires
        nonce_params.wf(),
        nonce_params@.width() == 3,
        params.wf(),
        params@.width() == 6,
        0 < digits_value(order@) <= modulus(),
    ensures
        ({
            let r = nonce(nonce_params@, sk.randomness@, message@).unwrap();
            let h = challenge(params@, sk.public_key@, message@, sig.r@).unwrap();
            &&& sig.r@ == point_mul(curve@, curve.base@, r)
            &&& sig.s@ == (r + h * sk.scalar@) % digits_value(order@)
        }),
{
    let mut pair: Vec<Fr> = Vec::new();
    pair.push(sk.randomness);
    pair.push(message);
    proof {
        assert(known(pair@) =~= seq![Some(sk.randomness@), Some(message@)]);
    }
    let r = hash(nonce_params, &pair);
    let rr = curve.base.multiply(&r, curve);
    let h = challenge_of(params, &sk.public_key, &message, &rr);
    proof {
        vstd::arithmetic::div_mod::lemma_mod_bound(
            (r@ + h@ * sk.scalar@) as int,
            digits_value(order@) as int,
        );
    }
    let s = match combine(&r, &h, &sk.scalar, order) {
        Some(s) => s,
        None => Fr::zero(),
    };
    Signature { r: rr, s }
}

/// Whether the signature verifies under the public point `pk`: `s * B = h * A + R`.
pub fn verify_point(
    curve: &CurveParams,
    params: &PoseidonParams,
    pk: &PointAffine,
    message: Fr,
    sig: &Signature,
) -> (ok: bool)
    requires
        params.wf(),
        params@.width() == 6,
    ensures
        ok == signature_holds(curve@, curve.base@, params@, pk@, message@, sig.r@, sig.s@),
{
    let h = challenge_of(params, pk, &message, &sig.r);
    let sb = curve.base.multiply(&sig.s, curve);
    let r_plus_ha = pk.multiply(&h, curve).add(&sig.r, curve);
    proof {
        r_plus_ha.0.lemma_value_injective(sb.0);
        r_plus_ha.1.lemma_value_injective(sb.1);
    }
    r_plus_ha == sb
}

/// Whether the point `a` is one that the compressed point stands for: it has the
/// abscissa, its ordinate is a root that the curve equation asks for, and, unless
/// zero, has the recorded parity.
pub open spec fn decompresses_to(c: CurveModel, pk: PointCompressed, a: PointModel) -> bool {
    &&& a.x == pk.0@
    &&& field_mul(a.y, a.y) == ordinate_square(c, pk.0@)
    &&& a.y != 0 ==> bit_of(a.y, 0) == pk.1
}

/// Whether the signature verifies under the public key: the key decompresses to a point,
/// and the signature verifies under that point.
pub fn verify(curve: &CurveParams, params: &PoseidonParams, pk: &PublicKey, message: Fr, sig: &Signature) -> (ok:
    bool)
    requires
        params.wf(),
        params@.width() == 6,
    ensures
        (forall|y: nat| #[trigger] field_mul(y, y) != ordinate_square(curve@, pk.0.0@)) ==> !ok,
        (exists|y: nat| #[trigger] field_mul(y, y) == ordinate_square(curve@, pk.0.0@))
            ==> exists|a: PointModel| #[trigger]
            decompresses_to(curve@, pk.0, a) && ok == signature_holds(
                curve@,
                curve.base@,
                params@,
                a,
                message@,
                sig.r@,
                sig.s@,
            ),
{
    match pk.0.decompress(curve) {
        None => false,
        Some(point) => {
            let ok = verify_point(curve, params, &point, message, sig);
            proof {
                assert(decompresses_to(curve@, pk.0, point@));
            }
            ok
        },
    }
}

} // verus!
