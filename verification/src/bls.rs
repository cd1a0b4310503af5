//! Trusted byte-level wrappers around the external BLS threshold-signature
//! library. Keys, signatures and shares travel through the controller as
//! opaque byte strings; each wrapper names or states what the external call
//! computes from those bytes, and the verified logic builds on that alone.

use vstd::prelude::*;

use threshold_bls::curve::bls12381::G1;
use threshold_bls::poly::Eval;
use threshold_bls::schemes::bls12_381::G1Scheme as SigScheme;
use threshold_bls::sig::Share;
use threshold_bls::sig::SignatureScheme;
use threshold_bls::sig::ThresholdScheme;

verus! {

/// Whether the bytes deserialize as a valid G1 curve point.
pub uninterp spec fn is_g1_point(bytes: Seq<u8>) -> bool;

/// Whether `signature` is a valid BLS signature of `message` under the public
/// key serialized in `public_key`.
pub uninterp spec fn bls_signature_valid(
    public_key: Seq<u8>,
    message: Seq<char>,
    signature: Seq<u8>,
) -> bool;

/// Whether `partial` (an index-tagged partial signature) carries a valid BLS
/// signature of `message` under the partial public key in `public_key`.
pub uninterp spec fn partial_signature_valid(
    public_key: Seq<u8>,
    message: Seq<char>,
    partial: Seq<u8>,
) -> bool;

/// The index-tagged partial signature that the share in `share` produces
/// over `message`, or `None` when the share bytes do not decode or the
/// message cannot be mapped onto the curve (BLS signing is deterministic,
/// so the whole outcome is a function of the two arguments).
pub uninterp spec fn partial_signature_of(share: Seq<u8>, message: Seq<char>) -> Option<Seq<u8>>;

/// The threshold signature recovered from the given partial signatures.
pub uninterp spec fn aggregate_of(threshold: int, partials: Seq<Seq<u8>>) -> Seq<u8>;

/// Whether the bytes decode as an index-tagged partial signature carrying a
/// valid signature point (the two-layer decoding `aggregate` performs).
pub uninterp spec fn is_partial_signature_encoding(partial: Seq<u8>) -> bool;

/// The share index embedded in an index-tagged partial signature, `None`
/// when the outer layer does not decode.
pub uninterp spec fn spec_partial_index(partial: Seq<u8>) -> Option<u32>;

/// Relies on bincode's deserialization of `threshold_bls`'s G1 point: it
/// succeeds exactly on byte strings encoding a valid curve point, and never
/// on the empty string.
#[verifier::external_body]
pub fn g1_point_valid(bytes: &Vec<u8>) -> (r: bool)
    ensures
        r == is_g1_point(bytes@),
        bytes@.len() == 0 ==> r == false,
{
    bincode::deserialize::<G1>(bytes).is_ok()
}

/// Relies on `G1Scheme::verify` of `threshold_bls`: the outcome depends only
/// on the public-key bytes, the message and the signature bytes. Returns
/// `false` as well when the public key is not a valid G1 point.
#[verifier::external_body]
pub fn bls_verify(public_key: &Vec<u8>, message: &str, signature: &Vec<u8>) -> (r: bool)
    ensures
        r == bls_signature_valid(public_key@, message@, signature@),
{
    match bincode::deserialize::<G1>(public_key) {
        Ok(pk) => SigScheme::verify(&pk, message.as_bytes(), signature).is_ok(),
        Err(_) => false,
    }
}

/// Relies on `G1Scheme::verify` of `threshold_bls`, applied to the signature
/// carried inside the bincode-encoded `Eval` partial: deterministic in the
/// bytes; `false` when either deserialization fails.
#[verifier::external_body]
pub fn bls_partial_verify(public_key: &Vec<u8>, message: &str, partial: &Vec<u8>) -> (r: bool)
    ensures
        r == partial_signature_valid(public_key@, message@, partial@),
{
    let eval: Eval<Vec<u8>> = match bincode::deserialize(partial) {
        Ok(e) => e,
        Err(_) => return false,
    };
    match bincode::deserialize::<G1>(public_key) {
        Ok(pk) => SigScheme::verify(&pk, message.as_bytes(), &eval.value).is_ok(),
        Err(_) => false,
    }
}

/// Relies on `G1Scheme::partial_sign` of `threshold_bls`: BLS signing is
/// deterministic, so the whole outcome (the partial signature, or the failure
/// when the share bytes do not decode or hashing the message to the curve
/// fails) is a function of the two arguments.
#[verifier::external_body]
pub fn bls_partial_sign(share: &Vec<u8>, message: &str) -> (r: Option<Vec<u8>>)
    ensures
        r is Some <==> partial_signature_of(share@, message@) is Some,
        r is Some ==> r->0@ == partial_signature_of(share@, message@)->0,
{
    let share: Share<threshold_bls::curve::bls12381::Scalar> = match bincode::deserialize(share) {
        Ok(s) => s,
        Err(_) => return None,
    };
    SigScheme::partial_sign(&share, message.as_bytes()).ok()
}

/// Relies on bincode's decoding of the `Eval` layer of a partial signature:
/// the embedded share index, a function of the bytes alone. A partial that
/// decodes in full also decodes at this outer layer.
#[verifier::external_body]
pub fn partial_signature_index(partial: &Vec<u8>) -> (r: Option<u32>)
    ensures
        r == spec_partial_index(partial@),
        is_partial_signature_encoding(partial@) ==> r is Some,
{
    bincode::deserialize::<Eval<Vec<u8>>>(partial).ok().map(|e| e.index)
}

/// Relies on `G1Scheme::aggregate` of `threshold_bls`: Lagrange recovery of
/// the threshold signature from the first `threshold` partials by share
/// index, a function of its arguments. It fails at once when fewer partials
/// than the threshold are given, and succeeds whenever enough partials are
/// given and every one decodes. Its `share_map` asserts that the chosen
/// share indices are distinct, so partials carrying a duplicate index are
/// excluded here.
#[verifier::external_body]
pub fn bls_aggregate(threshold: usize, partials: &Vec<Vec<u8>>) -> (r: Option<Vec<u8>>)
    requires
        forall|a: int, b: int|
            0 <= a < b < partials@.len() && spec_partial_index(partials@[a]@) is Some
                && spec_partial_index(partials@[b]@) is Some ==> spec_partial_index(
                partials@[a]@,
            ) != spec_partial_index(partials@[b]@),
    ensures
        r is Some ==> r->0@ == aggregate_of(threshold as int, partials.deep_view()),
        threshold > partials.len() ==> r is None,
        (threshold <= partials.len() && forall|i: int|
            0 <= i < partials@.len() ==> is_partial_signature_encoding(
                #[trigger] partials@[i]@,
            )) ==> r is Some,
{
    SigScheme::aggregate(threshold, partials).ok()
}

} // verus!
