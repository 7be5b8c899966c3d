//! Keys and signatures: Schnorr signatures on the Ristretto group.
//!
//! A key or a signature is held by its bytes. What the group computes of them
//! comes from FROST's ristretto255 suite.

use vstd::prelude::*;

use crate::hashing::{address_of_point, blake3_hash, point_address};
use crate::types::Address;

verus! {

/// A generator of random bytes.
#[verifier::external_type_specification]
#[verifier::external_body]
pub struct ExChaCha20Rng(rand_chacha::ChaCha20Rng);

/// The number that bytes stand for, the first byte counting least.
pub open spec fn number(bytes: Seq<u8>) -> nat
    decreases bytes.len(),
{
    if bytes.len() == 0 {
        0
    } else {
        bytes[0] as nat + 256 * number(bytes.skip(1))
    }
}

/// The number of elements of the group.
pub open spec fn group_order() -> nat {
    7237005577332262213973186563042994240857116359379907606001950938285454250989nat
}

/// The bytes are those of a signing key: a number of the scalar field that is not
/// zero.
pub open spec fn is_signing_scalar(bytes: Seq<u8>) -> bool {
    0 < number(bytes) < group_order()
}

/// What the group's `deserialize` accepts: the compressed form of an element that
/// is not the identity.
pub uninterp spec fn is_point(bytes: Seq<u8>) -> bool;

/// The compressed form of the group element that belongs to a signing key.
pub uninterp spec fn public_point(scalar: Seq<u8>) -> [u8; 32];

/// The equation of a signature holds: the signature with the two parts `r` and `z` is
/// one of `message` under the key `point`. Every signature that `SigningKey::sign` makes
/// is one, and the batch verifier accepts every batch of such.
pub uninterp spec fn signature_holds(
    point: Seq<u8>,
    r: Seq<u8>,
    z: Seq<u8>,
    message: Seq<u8>,
) -> bool;

/// Why a signature is refused, as FROST tells it.
#[derive(Clone, Copy, Debug, PartialEq, Eq, Structural)]
pub enum SignatureError {
    /// The bytes of a key are not those of an element of the group other than the
    /// identity.
    MalformedVerifyingKey,
    /// The bytes of a signature are not those of such an element and of a number of the
    /// scalar field.
    MalformedSignature,
    /// The signatures of a batch do not verify, or there are none.
    InvalidSignature,
}

/// A public key: a compressed element of the group.
#[derive(Clone, Copy, Debug, PartialEq, Eq)]
pub struct VerifyingKey(pub [u8; 32]);

/// A signature: a compressed element of the group and a number of its scalar field.
#[derive(Clone, Copy, Debug, PartialEq, Eq)]
pub struct Signature {
    pub r: [u8; 32],
    pub z: [u8; 32],
}

impl VerifyingKey {
    /// The bytes are those of an element of the group other than the identity.
    pub open spec fn well_formed(self) -> bool {
        is_point(self.0@)
    }
}

impl Signature {
    /// The bytes are those of an element of the group other than the identity and
    /// of a number of the scalar field.
    pub open spec fn well_formed(self) -> bool {
        is_point(self.r@) && number(self.z@) < group_order()
    }

    /// The signature is one of `message` under `key`.
    pub open spec fn signs(self, key: VerifyingKey, message: Seq<u8>) -> bool {
        signature_holds(key.0@, self.r@, self.z@, message)
    }
}

/// `SigningKey::deserialize` of FROST's ristretto255 suite: the claim is that it
/// accepts exactly the numbers of the scalar field other than zero.
#[verifier::external_body]
fn call_scalar_decodes(bytes: &[u8; 32]) -> (decodes: bool)
    ensures
        decodes == is_signing_scalar(bytes@),
{
    frost_ristretto255::SigningKey::deserialize(bytes).is_ok()
}

/// `VerifyingKey::from` a signing key of FROST's ristretto255 suite, in its
/// serialized form: the result is named, and the claim is that it is the
/// compressed form of an element other than the identity.
#[verifier::external_body]
fn call_public_point(scalar: &[u8; 32]) -> (point: [u8; 32])
    requires
        is_signing_scalar(scalar@),
    ensures
        point == public_point(scalar@),
        is_point(point@),
{
    let key = frost_ristretto255::SigningKey::deserialize(scalar).expect("a non-zero scalar");
    let point = frost_ristretto255::VerifyingKey::from(&key).serialize();
    point.expect("not the identity").try_into().expect("32 bytes")
}

/// `SigningKey::sign` of FROST's ristretto255 suite: the claim is that the
/// signature, whatever randomness it was made with, is well-formed and one of the
/// message under the public key of the signing key. Which signature it is depends
/// on the randomness and is left unsaid.
#[verifier::external_body]
fn call_sign(
    rng: &mut rand_chacha::ChaCha20Rng,
    scalar: &[u8; 32],
    message: &[u8],
) -> (signature: Signature)
    requires
        is_signing_scalar(scalar@),
    ensures
        signature.well_formed(),
        signature_holds(public_point(scalar@)@, signature.r@, signature.z@, message@),
{
    let key = frost_ristretto255::SigningKey::deserialize(scalar).expect("a non-zero scalar");
    let signature = key.sign(rng, message).serialize().expect("not the identity");
    let r = signature[..32].try_into().expect("32 bytes");
    let z = signature[32..].try_into().expect("32 bytes");
    Signature { r, z }
}

/// A signing key.
#[derive(Clone, Copy)]
pub struct SigningKey {
    scalar: [u8; 32],
}

impl SigningKey {
    #[verifier::type_invariant]
    spec fn decodes(self) -> bool {
        is_signing_scalar(self.scalar@)
    }

    /// The bytes of the key's number.
    pub closed spec fn scalar(self) -> Seq<u8> {
        self.scalar@
    }

    /// The public key that belongs to the signing key.
    pub open spec fn public(self) -> VerifyingKey {
        VerifyingKey(public_point(self.scalar()))
    }

    /// The signing key with the given number.
    pub closed spec fn of(scalar: [u8; 32]) -> SigningKey {
        SigningKey { scalar }
    }

    /// The signing key with the given number, unless the number is zero or not one
    /// of the scalar field.
    pub fn from_scalar(scalar: [u8; 32]) -> (key: Option<SigningKey>)
        ensures
            match key {
                Some(k) => is_signing_scalar(scalar@) && k.scalar() == scalar@ && k
                    == SigningKey::of(scalar),
                None => !is_signing_scalar(scalar@),
            },
    {
        if call_scalar_decodes(&scalar) {
            Some(SigningKey { scalar })
        } else {
            None
        }
    }

    /// The signing key with the given number, which is one of the scalar field and not
    /// zero.
    pub fn from_nonzero_scalar(scalar: [u8; 32]) -> (key: SigningKey)
        requires
            is_signing_scalar(scalar@),
        ensures
            key.scalar() == scalar@,
            key == SigningKey::of(scalar),
    {
        SigningKey { scalar }
    }

    /// The public key that belongs to the signing key.
    pub fn verifying_key(&self) -> (key: VerifyingKey)
        ensures
            key == self.public(),
            key.well_formed(),
    {
        proof {
            use_type_invariant(self);
        }
        VerifyingKey(call_public_point(&self.scalar))
    }

    /// Signs a message.
    pub fn sign(&self, rng: &mut rand_chacha::ChaCha20Rng, message: &[u8]) -> (signature: Signature)
        ensures
            signature.well_formed(),
            signature.signs(self.public(), message@),
    {
        proof {
            use_type_invariant(self);
        }
        call_sign(rng, &self.scalar, message)
    }
}

/// The signing key that is made of a number is the one with that number, and its public
/// key is the element of the group that belongs to the number.
pub proof fn key_has_the_number_it_is_made_of(scalar: [u8; 32])
    ensures
        SigningKey::of(scalar).scalar() == scalar@,
        SigningKey::of(scalar).public().0 == public_point(scalar@),
{
}

/// The address of a public key.
pub open spec fn key_address(key: VerifyingKey) -> Address {
    point_address(key.0@)
}

/// The address that coins for the owner of `verifying_key` are paid to: the first
/// 20 bytes of the hash of the compressed point.
pub fn get_address(verifying_key: VerifyingKey) -> (address: Address)
    ensures
        address == key_address(verifying_key),
        address.0@ == blake3_hash(verifying_key.0@)@.take(20),
{
    address_of_point(&verifying_key.0)
}

/// `rand_chacha::ChaCha20Rng::fill_bytes`: the bytes are random, so nothing is
/// claimed of them.
#[verifier::external_body]
pub(crate) fn call_random_bytes(rng: &mut rand_chacha::ChaCha20Rng) -> (bytes: [u8; 32]) {
    let mut bytes: [u8; 32] = [0; 32];
    rand_chacha::rand_core::RngCore::fill_bytes(rng, &mut bytes);
    bytes
}

/// One item of a batch: who signed, the signature, and what was signed.
pub ghost struct BatchItem {
    pub key: VerifyingKey,
    pub signature: Signature,
    pub message: Seq<u8>,
}

impl BatchItem {
    /// The signature is well-formed and one of the message under the key.
    pub open spec fn holds(self) -> bool {
        &&& self.key.well_formed()
        &&& self.signature.well_formed()
        &&& self.signature.signs(self.key, self.message)
    }
}

/// A batch of signatures to be verified together: a `frost_core` batch verifier.
#[verifier::external_body]
pub struct SignatureBatch {
    inner: frost_core::batch::Verifier<frost_ristretto255::Ristretto255Sha512>,
}

/// The items that were queued in a batch, in order.
pub uninterp spec fn batch_items(batch: SignatureBatch) -> Seq<BatchItem>;

/// What the batch verifier answers on these items when its blinding comes from a
/// ChaCha20 generator with this seed.
pub uninterp spec fn batch_accepts(items: Seq<BatchItem>, seed: Seq<u8>) -> bool;

/// `frost_core::batch::Verifier::new`: an empty batch.
#[verifier::external_body]
pub(crate) fn call_batch_new() -> (batch: SignatureBatch)
    ensures
        batch_items(batch).len() == 0,
{
    SignatureBatch { inner: frost_core::batch::Verifier::new() }
}

/// `frost_core::batch::Verifier::queue` of an item made from the decoded key and
/// signature: the claim is that the item is queued behind the others exactly where
/// the key and the signature are well-formed, and that otherwise nothing is queued.
#[verifier::external_body]
pub(crate) fn call_batch_queue(
    batch: &mut SignatureBatch,
    key: &VerifyingKey,
    signature: &Signature,
    message: &[u8],
) -> (result: Result<(), SignatureError>)
    ensures
        match result {
            Ok(_) => key.well_formed() && signature.well_formed(),
            Err(SignatureError::MalformedVerifyingKey) => !key.well_formed(),
            Err(SignatureError::MalformedSignature) => key.well_formed()
                && !signature.well_formed(),
            Err(SignatureError::InvalidSignature) => false,
        },
        result is Ok ==> batch_items(*final(batch)) == batch_items(*old(batch)).push(
            (BatchItem { key: *key, signature: *signature, message: message@ }),
        ),
        result is Err ==> batch_items(*final(batch)) == batch_items(*old(batch)),
{
    let key = frost_ristretto255::VerifyingKey::deserialize(&key.0)
        .map_err(|_| SignatureError::MalformedVerifyingKey)?;
    let bytes = [signature.r, signature.z].concat();
    let signature = frost_ristretto255::Signature::deserialize(&bytes)
        .map_err(|_| SignatureError::MalformedSignature)?;
    let item = frost_core::batch::Item::new(key, signature, message).expect("not the identity");
    batch.inner.queue(item);
    Ok(())
}

/// `frost_core::batch::Verifier::verify` with a ChaCha20 generator of the given
/// seed: the answer is named. The claims are that its one error is `InvalidSignature`,
/// that an empty batch is refused, and that a batch in which every item holds is
/// accepted. That a batch with an item that does not hold is refused is left unsaid:
/// the blinding factors could cancel the error, so it is true of all but a negligible
/// share of the seeds.
#[verifier::external_body]
pub(crate) fn call_batch_verify(batch: SignatureBatch, seed: &[u8; 32]) -> (result: Result<
    (),
    SignatureError,
>)
    ensures
        match result {
            Ok(_) => batch_accepts(batch_items(batch), seed@),
            Err(e) => !batch_accepts(batch_items(batch), seed@) && e is InvalidSignature,
        },
        batch_items(batch).len() == 0 ==> result is Err,
        batch_items(batch).len() > 0 && (forall|i: int|
            0 <= i < batch_items(batch).len() ==> (#[trigger] batch_items(batch)[i]).holds())
            ==> result is Ok,
{
    let rng = <rand_chacha::ChaCha20Rng as rand_chacha::rand_core::SeedableRng>::from_seed(*seed);
    batch.inner.verify(rng).map_err(|_| SignatureError::InvalidSignature)
}

} // verus!
