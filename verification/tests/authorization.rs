//! Tests of making and verifying authorizations.

use rand_chacha::rand_core::SeedableRng;
use rand_chacha::ChaCha20Rng;

use swap_wallet::amount::Amount;
use swap_wallet::authorization::{
    authorize, get_address, sign, verify_authorizations, verify_authorized_transaction,
    Authorization, AuthorizedTransaction, BatchVerificationContext, Body, Error, Signature,
    SigningKey, VerifyingKey,
};
use swap_wallet::hashing::hash;
use swap_wallet::keys::SignatureError;
use swap_wallet::types::{
    Address, GetAddress, OutPoint, Output, OutputContent, Transaction, Txid,
};

fn rng() -> ChaCha20Rng {
    ChaCha20Rng::from_seed(rand::random())
}

fn scalar(seed: u8) -> [u8; 32] {
    curve25519_dalek::Scalar::from_bytes_mod_order([seed; 32]).to_bytes()
}

fn signing_key(seed: u8) -> SigningKey {
    SigningKey::from_scalar(scalar(seed)).expect("non-zero scalar")
}

fn one_input_tx() -> Transaction {
    Transaction {
        inputs: vec![(OutPoint::Regular { txid: Txid([3; 32]), vout: 0 }, hash(&[0u8; 1]))],
        ..Default::default()
    }
}

#[test]
fn an_address_comes_from_the_compressed_ristretto_point() {
    let key = signing_key(1);
    let verifying_key = key.verifying_key();
    let point = {
        let key = frost_ristretto255::SigningKey::deserialize(&scalar(1)).unwrap();
        frost_ristretto255::VerifyingKey::from(&key).to_element().compress()
    };
    assert_eq!(verifying_key.0, *point.as_bytes());
    let expected = {
        let mut hasher = blake3::Hasher::new();
        let mut reader = hasher.update(point.as_bytes()).finalize_xof();
        let mut output = [0u8; 20];
        reader.fill(&mut output);
        Address(output)
    };
    assert_eq!(get_address(verifying_key), expected);
}

#[test]
fn authorize_puts_the_address_of_the_signer_on_the_authorization() {
    let key = signing_key(2);
    let address = get_address(key.verifying_key());
    let authorized =
        authorize(&mut rng(), &[(address, &key)], one_input_tx()).expect("authorize");
    assert_eq!(authorized.authorizations[0].get_address(), address);
}

#[test]
fn authorize_rejects_a_key_that_does_not_match_the_address() {
    let key = signing_key(3);
    let other_address = get_address(signing_key(4).verifying_key());
    let err = authorize(&mut rng(), &[(other_address, &key)], one_input_tx())
        .expect_err("authorize must reject a key for another address");
    assert!(matches!(err, Error::WrongKeyForAddress { .. }));
    assert_eq!(
        err,
        Error::WrongKeyForAddress {
            address: other_address,
            hash_verifying_key: get_address(key.verifying_key()),
        }
    );
}

#[test]
fn a_good_signature_verifies() {
    let mut rng = rng();
    let key = signing_key(5);
    let address = get_address(key.verifying_key());
    let authorized = authorize(&mut rng, &[(address, &key)], one_input_tx()).expect("authorize");
    let ctxt = BatchVerificationContext::new(&mut rng);
    verify_authorized_transaction(&ctxt, &authorized).expect("a good signature must verify");
}

#[test]
fn a_signature_from_another_key_fails() {
    let mut rng = rng();
    let victim = signing_key(6);
    let attacker = signing_key(7);
    let transaction = one_input_tx();
    let forged = Authorization {
        verifying_key: victim.verifying_key(),
        signature: sign(&mut rng, &attacker, &transaction).expect("sign"),
    };
    let authorized = AuthorizedTransaction { transaction, authorizations: vec![forged] };
    let ctxt = BatchVerificationContext::new(&mut rng);
    assert!(
        verify_authorized_transaction(&ctxt, &authorized).is_err(),
        "a forged signature must not verify"
    );
}

#[test]
fn a_signature_for_another_transaction_fails() {
    let mut rng = rng();
    let key = signing_key(8);
    let address = get_address(key.verifying_key());
    let authorized = authorize(&mut rng, &[(address, &key)], one_input_tx()).expect("authorize");
    let mut other = one_input_tx();
    other.outputs =
        vec![Output { address, content: OutputContent::Value(Amount::from_sat(1)) }];
    let replayed = AuthorizedTransaction {
        transaction: other,
        authorizations: authorized.authorizations,
    };
    let ctxt = BatchVerificationContext::new(&mut rng);
    assert!(
        verify_authorized_transaction(&ctxt, &replayed).is_err(),
        "a signature must not carry over to another transaction"
    );
}

#[test]
fn a_transaction_without_inputs_verifies() {
    let mut rng = rng();
    let authorized =
        AuthorizedTransaction { transaction: Transaction::default(), authorizations: Vec::new() };
    let ctxt = BatchVerificationContext::new(&mut rng);
    verify_authorized_transaction(&ctxt, &authorized)
        .expect("a transaction without inputs needs no signature");
}

#[test]
fn a_missing_authorization_fails() {
    let mut rng = rng();
    let authorized =
        AuthorizedTransaction { transaction: one_input_tx(), authorizations: Vec::new() };
    let ctxt = BatchVerificationContext::new(&mut rng);
    assert!(matches!(
        verify_authorized_transaction(&ctxt, &authorized),
        Err(Error::NotEnoughAuthorizations)
    ));
}

#[test]
fn an_authorization_too_many_fails() {
    let mut rng = rng();
    let key = signing_key(9);
    let address = get_address(key.verifying_key());
    let authorized =
        authorize(&mut rng, &[(address, &key), (address, &key)], one_input_tx()).unwrap();
    let ctxt = BatchVerificationContext::new(&mut rng);
    assert_eq!(
        verify_authorized_transaction(&ctxt, &authorized),
        Err(Error::TooManyAuthorizations)
    );
}

#[test]
fn malformed_keys_and_signatures_fail() {
    let mut rng = rng();
    let key = signing_key(10);
    let transaction = one_input_tx();
    let signature = sign(&mut rng, &key, &transaction).unwrap();
    let good = Authorization { verifying_key: key.verifying_key(), signature };
    let identity_key = Authorization { verifying_key: VerifyingKey([0; 32]), ..good };
    let not_a_point = Authorization { verifying_key: VerifyingKey([0xff; 32]), ..good };
    let no_number =
        Authorization { signature: Signature { r: signature.r, z: [0xff; 32] }, ..good };
    let no_point = Authorization { signature: Signature { r: [1; 32], z: signature.z }, ..good };
    let ctxt = BatchVerificationContext::new(&mut rng);
    for (bad, error) in [
        (identity_key, SignatureError::MalformedVerifyingKey),
        (not_a_point, SignatureError::MalformedVerifyingKey),
        (no_number, SignatureError::MalformedSignature),
        (no_point, SignatureError::MalformedSignature),
    ] {
        let authorized =
            AuthorizedTransaction { transaction: one_input_tx(), authorizations: vec![bad] };
        assert_eq!(
            verify_authorized_transaction(&ctxt, &authorized),
            Err(Error::SignatureVerification(error))
        );
    }
}

#[test]
fn a_signing_key_is_a_number_of_the_scalar_field_other_than_zero() {
    assert!(SigningKey::from_scalar([0; 32]).is_none());
    let mut one = [0; 32];
    one[0] = 1;
    assert!(SigningKey::from_scalar(one).is_some());
    // The order of the group, little-endian: the first number that is out of range.
    let mut order = [0u8; 32];
    order[..16].copy_from_slice(&[
        0xed, 0xd3, 0xf5, 0x5c, 0x1a, 0x63, 0x12, 0x58, 0xd6, 0x9c, 0xf7, 0xa2, 0xde, 0xf9, 0xde,
        0x14,
    ]);
    order[31] = 0x10;
    assert!(SigningKey::from_scalar(order).is_none());
    order[0] -= 1;
    assert!(SigningKey::from_scalar(order).is_some());
}

#[test]
fn the_key_of_one_is_the_generator() {
    let mut one = [0; 32];
    one[0] = 1;
    let key = SigningKey::from_scalar(one).unwrap();
    assert_eq!(
        key.verifying_key().0,
        curve25519_dalek::constants::RISTRETTO_BASEPOINT_COMPRESSED.to_bytes()
    );
}

#[test]
fn a_signature_verifies_on_its_own() {
    let key = signing_key(11);
    let transaction = one_input_tx();
    let message = swap_wallet::encoding::encode_transaction(&transaction).unwrap();
    let signature = sign(&mut rng(), &key, &transaction).unwrap();
    let bytes = [signature.r, signature.z].concat();
    let frost_key = frost_ristretto255::VerifyingKey::deserialize(&key.verifying_key().0).unwrap();
    let frost_signature = frost_ristretto255::Signature::deserialize(&bytes).unwrap();
    assert!(frost_key.verify(&message, &frost_signature).is_ok());
    assert!(frost_key.verify(&message[1..], &frost_signature).is_err());
}

#[test]
fn a_signature_depends_on_the_randomness() {
    let key = signing_key(12);
    let transaction = one_input_tx();
    let mut rng = rng();
    let first = sign(&mut rng, &key, &transaction).unwrap();
    let second = sign(&mut rng, &key, &transaction).unwrap();
    assert_ne!(first, second);
}

#[test]
fn contexts_draw_their_keys_from_the_generator() {
    // The same generator gives the same context, so the same seed and the same answer.
    let mut a = ChaCha20Rng::from_seed([7; 32]);
    let mut b = ChaCha20Rng::from_seed([7; 32]);
    let ctxt = BatchVerificationContext::new(&mut a);
    assert_ne!(a, b);
    let again = BatchVerificationContext::new(&mut b);
    assert_eq!(a, b);
    let empty = ctxt.batch_verifier();
    assert!(empty.verify().is_err());
    let key = signing_key(13);
    let address = get_address(key.verifying_key());
    let authorized = authorize(&mut a, &[(address, &key)], one_input_tx()).unwrap();
    assert_eq!(verify_authorized_transaction(&ctxt, &authorized), Ok(()));
    assert_eq!(verify_authorized_transaction(&again, &authorized), Ok(()));
}

#[test]
fn a_batch_collects_its_items() {
    let mut rng = rng();
    let ctxt = BatchVerificationContext::from_mac_key([4; 32]);
    let mut batch = ctxt.batch_verifier();
    for seed in 20..25u8 {
        let key = signing_key(seed);
        let message = [seed; 10];
        let signature = key.sign(&mut rng, &message);
        batch = batch.queue_item(key.verifying_key(), signature, &message).unwrap();
    }
    assert_eq!(batch.verify(), Ok(()));
    let key = signing_key(30);
    let signature = key.sign(&mut rng, b"one");
    let batch = ctxt
        .batch_verifier()
        .queue_item(key.verifying_key(), signature, b"two")
        .unwrap();
    assert_eq!(batch.verify(), Err(SignatureError::InvalidSignature));
    assert_eq!(ctxt.batch_verifier().verify(), Err(SignatureError::InvalidSignature));
    let refused =
        ctxt.batch_verifier().queue_item(VerifyingKey([0xff; 32]), signature, b"one");
    assert!(matches!(refused, Err(SignatureError::MalformedVerifyingKey)));
}

fn inputs(n: u32) -> Vec<(OutPoint, [u8; 32])> {
    (0..n).map(|vout| (OutPoint::Regular { txid: Txid([9; 32]), vout }, [vout as u8; 32])).collect()
}

fn body() -> Body {
    let mut rng = rng();
    let mut body = Body { transactions: Vec::new(), authorizations: Vec::new() };
    for n in [2u32, 0, 3] {
        let transaction = Transaction { inputs: inputs(n), ..Default::default() };
        let keys: Vec<SigningKey> = (0..n).map(|i| signing_key(40 + n as u8 + i as u8)).collect();
        let pairs: Vec<(Address, &SigningKey)> =
            keys.iter().map(|key| (get_address(key.verifying_key()), key)).collect();
        let authorized = authorize(&mut rng, &pairs, transaction).unwrap();
        body.transactions.push(authorized.transaction);
        body.authorizations.extend(authorized.authorizations);
    }
    body
}

#[test]
fn a_block_of_authorized_transactions_verifies() {
    let ctxt = BatchVerificationContext::new(&mut rng());
    assert_eq!(verify_authorizations(&ctxt, &body()), Ok(()));
    let empty = Body { transactions: Vec::new(), authorizations: Vec::new() };
    assert_eq!(verify_authorizations(&ctxt, &empty), Ok(()));
    let no_inputs =
        Body { transactions: vec![Transaction::default()], authorizations: Vec::new() };
    assert_eq!(verify_authorizations(&ctxt, &no_inputs), Ok(()));
}

#[test]
fn a_block_needs_as_many_authorizations_as_inputs() {
    let ctxt = BatchVerificationContext::new(&mut rng());
    let mut short = body();
    let last = short.authorizations.pop().unwrap();
    assert_eq!(verify_authorizations(&ctxt, &short), Err(Error::NotEnoughAuthorizations));
    short.authorizations.push(last);
    short.authorizations.push(last);
    assert_eq!(verify_authorizations(&ctxt, &short), Err(Error::TooManyAuthorizations));
}

#[test]
fn a_block_with_authorizations_in_the_wrong_place_fails() {
    let ctxt = BatchVerificationContext::new(&mut rng());
    let mut swapped = body();
    // One of the first transaction against one of the third.
    swapped.authorizations.swap(1, 2);
    let invalid = Err(Error::SignatureVerification(SignatureError::InvalidSignature));
    assert_eq!(verify_authorizations(&ctxt, &swapped), invalid);
    // Within one transaction the order does not matter.
    let mut within = body();
    within.authorizations.swap(0, 1);
    assert_eq!(verify_authorizations(&ctxt, &within), Ok(()));
}

#[test]
fn a_block_with_a_malformed_key_fails() {
    let ctxt = BatchVerificationContext::new(&mut rng());
    let mut bad = body();
    bad.authorizations[4].verifying_key = VerifyingKey([0; 32]);
    let malformed = Err(Error::SignatureVerification(SignatureError::MalformedVerifyingKey));
    assert_eq!(verify_authorizations(&ctxt, &bad), malformed);
}

#[test]
fn a_large_block_is_verified_in_parts() {
    let mut rng = rng();
    let key = signing_key(60);
    let good = Authorization {
        verifying_key: key.verifying_key(),
        signature: sign(&mut rng, &key, &one_input_tx()).unwrap(),
    };
    let mut body = Body {
        transactions: (0..16385).map(|_| one_input_tx()).collect(),
        authorizations: vec![good; 16385],
    };
    // The last one stands alone in the second part.
    body.authorizations[16384].verifying_key = signing_key(61).verifying_key();
    let ctxt = BatchVerificationContext::new(&mut rng);
    let invalid = Err(Error::SignatureVerification(SignatureError::InvalidSignature));
    assert_eq!(verify_authorizations(&ctxt, &body), invalid);
}
