//! Authorizations: signatures over transactions, made and verified.

use rayon::iter::ParallelIterator;
use rayon::slice::ParallelSlice;
use vstd::prelude::*;

use crate::encoding::{
    append_bytes, append_framed, append_u64, encodable, encode_transaction, framed, lemma_assoc,
    lemma_framed_prefix, lemma_split, lemma_u64_injective, transaction_bytes, u64_bytes,
    EncodeError,
};
use crate::hashing::{blake3_keyed_hash, call_blake3_keyed_hash};
use crate::keys::{
    batch_accepts, batch_items, call_batch_new, call_batch_queue, call_batch_verify,
    call_random_bytes, key_address, BatchItem, SignatureBatch, SignatureError,
};
use crate::types::{Address, GetAddress, Transaction, TransactionView};

use crate::verdicts::{accepted_block_was_verified_at_every_input, stands_at, was_verified};

pub use crate::keys::{get_address, Signature, SigningKey, VerifyingKey};

verus! {

/// Why authorizations could not be made or are refused.
#[derive(Clone, Copy, Debug, PartialEq, Eq)]
pub enum Error {
    /// A transaction has no encoding.
    BorshSerialize(EncodeError),
    /// There are fewer authorizations than inputs.
    NotEnoughAuthorizations,
    /// A key or a signature is malformed, or the signatures do not verify.
    SignatureVerification(SignatureError),
    /// There are more authorizations than inputs.
    TooManyAuthorizations,
    /// A signing key is not the one of the address that it was given for.
    WrongKeyForAddress { address: Address, hash_verifying_key: Address },
}

/// A signature over a transaction, with the key that it verifies under.
#[derive(Clone, Copy, Debug, PartialEq, Eq)]
pub struct Authorization {
    pub verifying_key: VerifyingKey,
    pub signature: Signature,
}

impl GetAddress for Authorization {
    open spec fn address_spec(&self) -> Address {
        key_address(self.verifying_key)
    }

    fn get_address(&self) -> (address: Address) {
        get_address(self.verifying_key)
    }
}

/// A transaction with an authorization for each of its inputs.
#[derive(Debug, PartialEq, Eq)]
pub struct AuthorizedTransaction {
    pub transaction: Transaction,
    pub authorizations: Vec<Authorization>,
}

/// The transactions of a block, with the authorizations for all of their inputs.
#[derive(Debug, PartialEq, Eq)]
pub struct Body {
    pub transactions: Vec<Transaction>,
    pub authorizations: Vec<Authorization>,
}

/// What an item adds to the transcript of a batch.
pub open spec fn item_bytes(item: BatchItem) -> Seq<u8> {
    item.key.0@ + item.signature.r@ + item.signature.z@ + framed(item.message)
}

/// The transcript of a batch: what its items add, one behind the other.
pub open spec fn transcript(items: Seq<BatchItem>) -> Seq<u8>
    decreases items.len(),
{
    if items.len() == 0 {
        Seq::empty()
    } else {
        transcript(items.drop_last()) + item_bytes(items.last())
    }
}

/// The seed of the generator that blinds a batch: the hash, under the context's
/// key, of the transcript and the number of items.
pub open spec fn batch_seed(mac_key: Seq<u8>, items: Seq<BatchItem>) -> Seq<u8> {
    blake3_keyed_hash(mac_key, transcript(items) + u64_bytes(items.len() as u64))@
}

/// The items before the one at `i` are well-formed, and that one is not.
pub open spec fn first_malformed(items: Seq<BatchItem>, i: int) -> bool {
    &&& 0 <= i < items.len()
    &&& !(items[i].key.well_formed() && items[i].signature.well_formed())
    &&& forall|j: int|
        0 <= j < i ==> (#[trigger] items[j]).key.well_formed() && items[j].signature.well_formed()
}

/// What is wrong with the form of an item.
pub open spec fn malformation(item: BatchItem) -> SignatureError {
    if !item.key.well_formed() {
        SignatureError::MalformedVerifyingKey
    } else {
        SignatureError::MalformedSignature
    }
}

/// What the verification of a batch answers: what is wrong with the first item that is
/// malformed, or else what the batch verifier answers.
pub open spec fn batch_verdict(mac_key: Seq<u8>, items: Seq<BatchItem>) -> Result<
    (),
    SignatureError,
> {
    if exists|i: int| first_malformed(items, i) {
        Err(malformation(items[choose|i: int| first_malformed(items, i)]))
    } else if batch_accepts(items, batch_seed(mac_key, items)) {
        Ok(())
    } else {
        Err(SignatureError::InvalidSignature)
    }
}

/// The verdict on a batch with a malformed item.
proof fn lemma_malformed_verdict(mac_key: Seq<u8>, items: Seq<BatchItem>, i: int)
    requires
        first_malformed(items, i),
    ensures
        batch_verdict(mac_key, items) == Err::<(), SignatureError>(malformation(items[i])),
{
    let k = choose|k: int| first_malformed(items, k);
    assert(first_malformed(items, k));
    if k < i {
        assert(items[k].key.well_formed() && items[k].signature.well_formed());
    } else if i < k {
        assert(items[i].key.well_formed() && items[i].signature.well_formed());
    }
}

/// Every item of a batch holds.
pub open spec fn all_hold(items: Seq<BatchItem>) -> bool {
    forall|i: int| 0 <= i < items.len() ==> (#[trigger] items[i]).holds()
}

/// Collects signatures to be verified together, and the transcript from which the
/// seed of the blinding comes.
pub struct BatchVerifier {
    mac_key: [u8; 32],
    transcript: Vec<u8>,
    inner: SignatureBatch,
    items: usize,
}

impl BatchVerifier {
    #[verifier::type_invariant]
    spec fn in_step(self) -> bool {
        &&& self.transcript@ == transcript(batch_items(self.inner))
        &&& self.items == batch_items(self.inner).len()
        &&& self.items <= self.transcript@.len()
    }

    /// The items collected so far, in order.
    pub closed spec fn queued(self) -> Seq<BatchItem> {
        batch_items(self.inner)
    }

    /// The key of the context that the verifier comes from.
    pub closed spec fn key(self) -> Seq<u8> {
        self.mac_key@
    }

    /// Adds a signature over `message`, unless the key or the signature is malformed.
    pub fn queue_item(
        self,
        verifying_key: VerifyingKey,
        signature: Signature,
        message: &[u8],
    ) -> (result: Result<BatchVerifier, SignatureError>)
        requires
            message@.len() <= u32::MAX,
        ensures
            match result {
                Ok(v) => verifying_key.well_formed() && signature.well_formed() && v.key()
                    == self.key() && v.queued() == self.queued().push(
                    (BatchItem { key: verifying_key, signature, message: message@ }),
                ),
                Err(SignatureError::MalformedVerifyingKey) => !verifying_key.well_formed(),
                Err(SignatureError::MalformedSignature) => verifying_key.well_formed()
                    && !signature.well_formed(),
                Err(SignatureError::InvalidSignature) => false,
            },
    {
        proof {
            use_type_invariant(&self);
        }
        let ghost before = self.queued();
        let ghost item = BatchItem { key: verifying_key, signature, message: message@ };
        let BatchVerifier { mac_key, transcript: mut buffer, mut inner, mut items } = self;
        append_bytes(&mut buffer, verifying_key.0.as_slice());
        append_bytes(&mut buffer, signature.r.as_slice());
        append_bytes(&mut buffer, signature.z.as_slice());
        append_framed(&mut buffer, message).unwrap();
        if let Err(error) = call_batch_queue(&mut inner, &verifying_key, &signature, message) {
            return Err(error);
        }
        proof {
            assert(before.push(item).drop_last() =~= before);
            assert(buffer@ =~= transcript(before) + item_bytes(item));
        }
        let n: usize = buffer.len();
        assert(items < n);
        items = items + 1;
        Ok(BatchVerifier { mac_key, transcript: buffer, inner, items })
    }

    /// Verifies what was collected: an empty batch is refused, and a batch whose
    /// signatures all hold is accepted.
    pub fn verify(self) -> (result: Result<(), SignatureError>)
        ensures
            match result {
                Ok(_) => batch_accepts(self.queued(), batch_seed(self.key(), self.queued())),
                Err(e) => !batch_accepts(self.queued(), batch_seed(self.key(), self.queued()))
                    && e is InvalidSignature,
            },
            self.queued().len() == 0 ==> result is Err,
            self.queued().len() > 0 && all_hold(self.queued()) ==> result is Ok,
    {
        proof {
            use_type_invariant(&self);
        }
        let BatchVerifier { mac_key, transcript: mut buffer, inner, items } = self;
        append_u64(&mut buffer, items as u64);
        let seed: [u8; 32] = call_blake3_keyed_hash(&mac_key, buffer.as_slice());
        call_batch_verify(inner, &seed)
    }
}

/// What batches are verified with: a random key, which may serve for several
/// batches.
#[derive(Clone, Copy)]
pub struct BatchVerificationContext {
    mac_key: [u8; 32],
}

impl BatchVerificationContext {
    /// The context's key.
    pub closed spec fn key(self) -> Seq<u8> {
        self.mac_key@
    }

    /// A context with a random key: the one that `from_mac_key` makes of 32 bytes drawn
    /// from `rng`. Which bytes are drawn is up to chance, and is left unsaid.
    pub fn new(rng: &mut rand_chacha::ChaCha20Rng) -> (context: Self)
        ensures
            context.key().len() == 32,
    {
        BatchVerificationContext::from_mac_key(call_random_bytes(rng))
    }

    /// The context with the given key.
    pub fn from_mac_key(mac_key: [u8; 32]) -> (context: Self)
        ensures
            context.key() == mac_key@,
    {
        BatchVerificationContext { mac_key }
    }

    /// A verifier that has collected nothing yet.
    pub fn batch_verifier(&self) -> (batch: BatchVerifier)
        ensures
            batch.key() == self.key(),
            batch.queued() == Seq::<BatchItem>::empty(),
    {
        let inner = call_batch_new();
        assert(batch_items(inner) =~= Seq::<BatchItem>::empty());
        BatchVerifier { mac_key: self.mac_key, transcript: Vec::new(), inner, items: 0 }
    }
}

/// The batch items of authorizations, each with the message that it is for.
pub open spec fn items_for(
    authorizations: Seq<Authorization>,
    messages: Seq<Seq<u8>>,
) -> Seq<BatchItem> {
    Seq::new(
        authorizations.len(),
        |i: int|
            BatchItem {
                key: authorizations[i].verifying_key,
                signature: authorizations[i].signature,
                message: messages[i],
            },
    )
}

/// The messages that the authorizations of one transaction sign: its encoding, once
/// for each input.
pub open spec fn messages_of(transaction: TransactionView) -> Seq<Seq<u8>> {
    Seq::new(transaction.inputs.len(), |i: int| transaction_bytes(transaction))
}

/// What the verification of a transaction answers.
pub open spec fn transaction_verdict(
    mac_key: Seq<u8>,
    transaction: TransactionView,
    authorizations: Seq<Authorization>,
) -> Result<(), Error> {
    if authorizations.len() < transaction.inputs.len() {
        Err(Error::NotEnoughAuthorizations)
    } else if authorizations.len() > transaction.inputs.len() {
        Err(Error::TooManyAuthorizations)
    } else if authorizations.len() == 0 {
        Ok(())
    } else if !encodable(transaction) {
        Err(Error::BorshSerialize(EncodeError::InvalidData))
    } else {
        match batch_verdict(mac_key, items_for(authorizations, messages_of(transaction))) {
            Ok(_) => Ok(()),
            Err(error) => Err(Error::SignatureVerification(error)),
        }
    }
}

/// Each input of the transaction has a well-formed authorization that holds of the
/// transaction.
pub open spec fn authorized(
    transaction: TransactionView,
    authorizations: Seq<Authorization>,
) -> bool {
    &&& authorizations.len() == transaction.inputs.len()
    &&& encodable(transaction)
    &&& all_hold(items_for(authorizations, messages_of(transaction)))
}

/// Verifies the authorizations of a transaction.
pub fn verify_authorized_transaction(
    ctxt: &BatchVerificationContext,
    transaction: &AuthorizedTransaction,
) -> (result: Result<(), Error>)
    requires
        encodable(transaction.transaction@) && transaction.authorizations@.len()
            == transaction.transaction.inputs@.len() && transaction.authorizations@.len() > 0
            ==> transaction_bytes(transaction.transaction@).len() <= u32::MAX,
    ensures
        result == transaction_verdict(
            ctxt.key(),
            transaction.transaction@,
            transaction.authorizations@,
        ),
        authorized(transaction.transaction@, transaction.authorizations@) ==> result is Ok,
        result is Ok && transaction.authorizations@.len() > 0 ==> exists|items: Seq<BatchItem>|
            #[trigger]
            batch_accepts(items, batch_seed(ctxt.key(), items)) && items.len()
                == transaction.authorizations@.len() && items.len()
                == transaction.transaction.inputs@.len() && forall|i: int|
                0 <= i < items.len() ==> (#[trigger] items[i]).key
                    == transaction.authorizations@[i].verifying_key && items[i].signature
                    == transaction.authorizations@[i].signature && items[i].message
                    == transaction_bytes(transaction.transaction@),
{
    let required: usize = transaction.transaction.inputs.len();
    let given: usize = transaction.authorizations.len();
    if given < required {
        return Err(Error::NotEnoughAuthorizations);
    }
    if given > required {
        return Err(Error::TooManyAuthorizations);
    }
    if given == 0 {
        return Ok(());
    }
    let ghost items = items_for(
        transaction.authorizations@,
        messages_of(transaction.transaction@),
    );
    let message: Vec<u8> = match encode_transaction(&transaction.transaction) {
        Ok(bytes) => bytes,
        Err(error) => {
            return Err(Error::BorshSerialize(error));
        },
    };
    let mut batch = ctxt.batch_verifier();
    let mut i: usize = 0;
    assert(items.take(0) =~= Seq::<BatchItem>::empty());
    while i < given
        invariant
            given == transaction.authorizations@.len(),
            given == transaction.transaction.inputs@.len(),
            message@ == transaction_bytes(transaction.transaction@),
            message@.len() <= u32::MAX,
            items == items_for(transaction.authorizations@, messages_of(transaction.transaction@)),
            i <= given,
            batch.key() == ctxt.key(),
            batch.queued() == items.take(i as int),
            forall|j: int|
                0 <= j < i ==> (#[trigger] items[j]).key.well_formed()
                    && items[j].signature.well_formed(),
            encodable(transaction.transaction@),
            given > 0,
        decreases given - i,
    {
        let authorization: Authorization = transaction.authorizations[i];
        let ghost item = items[i as int];
        batch =
        match batch.queue_item(
            authorization.verifying_key,
            authorization.signature,
            message.as_slice(),
        ) {
            Ok(next) => next,
            Err(error) => {
                proof {
                    assert(first_malformed(items, i as int));
                    lemma_malformed_verdict(ctxt.key(), items, i as int);
                }
                return Err(Error::SignatureVerification(error));
            },
        };
        assert(items.take(i as int).push(item) =~= items.take(i + 1));
        i = i + 1;
    }
    assert(items.take(i as int) =~= items);
    match batch.verify() {
        Ok(_) => Ok(()),
        Err(error) => Err(Error::SignatureVerification(error)),
    }
}

/// The item of a batch that an authorization and its message make.
pub open spec fn item_of(pair: (Authorization, &[u8])) -> BatchItem {
    BatchItem { key: pair.0.verifying_key, signature: pair.0.signature, message: pair.1@ }
}

/// The items of a batch that authorizations and their messages make.
pub open spec fn items_of(pairs: Seq<(Authorization, &[u8])>) -> Seq<BatchItem> {
    Seq::new(pairs.len(), |i: int| item_of(pairs[i]))
}

/// Verifies authorizations, each with its message, in one batch.
pub fn verify_chunk(
    ctxt: &BatchVerificationContext,
    chunk: &[(Authorization, &[u8])],
) -> (result: Result<(), SignatureError>)
    requires
        forall|i: int| 0 <= i < chunk@.len() ==> (#[trigger] chunk@[i]).1@.len() <= u32::MAX,
    ensures
        result == batch_verdict(ctxt.key(), items_of(chunk@)),
        chunk@.len() > 0 && all_hold(items_of(chunk@)) ==> result is Ok,
{
    let ghost items = items_of(chunk@);
    let mut batch = ctxt.batch_verifier();
    let mut i: usize = 0;
    assert(items.take(0) =~= Seq::<BatchItem>::empty());
    while i < chunk.len()
        invariant
            forall|j: int| 0 <= j < chunk@.len() ==> (#[trigger] chunk@[j]).1@.len() <= u32::MAX,
            items == items_of(chunk@),
            i <= chunk@.len(),
            batch.key() == ctxt.key(),
            batch.queued() == items.take(i as int),
            forall|j: int|
                0 <= j < i ==> (#[trigger] items[j]).key.well_formed()
                    && items[j].signature.well_formed(),
        decreases chunk@.len() - i,
    {
        let authorization: Authorization = chunk[i].0;
        let message: &[u8] = chunk[i].1;
        let ghost item = items[i as int];
        batch =
        match batch.queue_item(authorization.verifying_key, authorization.signature, message) {
            Ok(next) => next,
            Err(error) => {
                proof {
                    assert(first_malformed(items, i as int));
                    lemma_malformed_verdict(ctxt.key(), items, i as int);
                }
                return Err(error);
            },
        };
        assert(items.take(i as int).push(item) =~= items.take(i + 1));
        i = i + 1;
    }
    assert(items.take(i as int) =~= items);
    match batch.verify() {
        Ok(_) => Ok(()),
        Err(error) => Err(error),
    }
}

/// The part with the number `c` of a list that is cut into parts of `size`, of which
/// the last may be shorter.
pub open spec fn part<T>(list: Seq<T>, size: int, c: int) -> Seq<T> {
    let end = if (c + 1) * size < list.len() {
        (c + 1) * size
    } else {
        list.len() as int
    };
    list.subrange(c * size, end)
}

/// `c` is the number of a part of a list of length `len` cut into parts of `size`.
pub open spec fn is_part(len: int, size: int, c: int) -> bool {
    0 <= c && c * size < len
}

/// `par_chunks` and `try_for_each` of rayon: the claim is that the list is cut into
/// parts of `size`, and that the answer is `Ok` where `check` answered `Ok` on each
/// of them, and else an error that `check` answered on one of them.
#[verifier::external_body]
fn call_par_chunks<T: Sync, F: Fn(&[T]) -> Result<(), SignatureError> + Send + Sync>(
    list: &[T],
    size: usize,
    check: F,
) -> (result: Result<(), SignatureError>)
    requires
        size > 0,
        forall|c: int, s: &[T]| #[trigger]
            is_part(list@.len() as int, size as int, c) && s@ == part(list@, size as int, c)
                ==> #[trigger] check.requires((s,)),
    ensures
        result is Ok ==> forall|c: int| #[trigger]
            is_part(list@.len() as int, size as int, c) ==> exists|s: &[T]|
                s@ == part(list@, size as int, c) && #[trigger] check.ensures((s,), Ok(())),
        result is Err ==> exists|c: int, s: &[T]| #[trigger]
            is_part(list@.len() as int, size as int, c) && s@ == part(list@, size as int, c)
                && #[trigger] check.ensures((s,), result),
{
    list.par_chunks(size).try_for_each(check)
}

/// How many authorizations are verified in one batch.
pub const CHUNK_SIZE: usize = 16384;

/// The messages that the authorizations of a block sign, in order.
pub open spec fn body_messages(transactions: Seq<Transaction>) -> Seq<Seq<u8>>
    decreases transactions.len(),
{
    if transactions.len() == 0 {
        Seq::empty()
    } else {
        body_messages(transactions.drop_last()) + messages_of(transactions.last()@)
    }
}

/// Every transaction has an encoding.
pub open spec fn all_encodable(transactions: Seq<Transaction>) -> bool {
    forall|t: int| 0 <= t < transactions.len() ==> encodable((#[trigger] transactions[t])@)
}

/// Every batch of the items is accepted, where they are cut into batches of
/// `CHUNK_SIZE`.
pub open spec fn parts_ok(mac_key: Seq<u8>, items: Seq<BatchItem>) -> bool {
    forall|c: int| #[trigger]
        is_part(items.len() as int, CHUNK_SIZE as int, c) ==> batch_verdict(
            mac_key,
            part(items, CHUNK_SIZE as int, c),
        ) is Ok
}

/// What the verification of a block may answer: where several batches are refused, the
/// error is that of one of them.
pub open spec fn body_verdict(
    mac_key: Seq<u8>,
    transactions: Seq<Transaction>,
    authorizations: Seq<Authorization>,
    result: Result<(), Error>,
) -> bool {
    let messages = body_messages(transactions);
    let items = items_for(authorizations, messages);
    if authorizations.len() < messages.len() {
        result == Err::<(), Error>(Error::NotEnoughAuthorizations)
    } else if authorizations.len() > messages.len() {
        result == Err::<(), Error>(Error::TooManyAuthorizations)
    } else if messages.len() == 0 {
        result is Ok
    } else if !all_encodable(transactions) {
        result == Err::<(), Error>(Error::BorshSerialize(EncodeError::InvalidData))
    } else if parts_ok(mac_key, items) {
        result is Ok
    } else {
        exists|c: int| #[trigger]
            is_part(items.len() as int, CHUNK_SIZE as int, c) && match batch_verdict(
                mac_key,
                part(items, CHUNK_SIZE as int, c),
            ) {
                Ok(_) => false,
                Err(error) => result == Err::<(), Error>(Error::SignatureVerification(error)),
            }
    }
}

/// Each input of each transaction has a well-formed authorization that holds of its
/// transaction.
pub open spec fn body_authorized(
    transactions: Seq<Transaction>,
    authorizations: Seq<Authorization>,
) -> bool {
    &&& authorizations.len() == body_messages(transactions).len()
    &&& all_encodable(transactions)
    &&& all_hold(items_for(authorizations, body_messages(transactions)))
}

/// The messages of the first transactions stand in front of those of all.
proof fn lemma_message_at(transactions: Seq<Transaction>, t: int)
    requires
        0 <= t < transactions.len(),
    ensures
        body_messages(transactions.take(t + 1)) == body_messages(transactions.take(t))
            + messages_of(transactions[t]@),
        body_messages(transactions.take(t + 1)).is_prefix_of(body_messages(transactions)),
    decreases transactions.len(),
{
    assert(transactions.take(t + 1).drop_last() =~= transactions.take(t));
    assert(transactions.take(t + 1).last() == transactions[t]);
    if t + 1 < transactions.len() {
        let front = transactions.drop_last();
        lemma_message_at(front, t);
        assert(front.take(t + 1) =~= transactions.take(t + 1));
    } else {
        assert(transactions.take(t + 1) =~= transactions);
    }
}

/// The number of authorizations that the transactions need, unless it is too great
/// to count.
fn count_inputs(transactions: &Vec<Transaction>) -> (count: Option<usize>)
    ensures
        match count {
            Some(n) => n == body_messages(transactions@).len(),
            None => body_messages(transactions@).len() > usize::MAX,
        },
{
    let mut count: usize = 0;
    let mut t: usize = 0;
    while t < transactions.len()
        invariant
            t <= transactions@.len(),
            count == body_messages(transactions@.take(t as int)).len(),
        decreases transactions@.len() - t,
    {
        proof {
            lemma_message_at(transactions@, t as int);
        }
        count =
        match count.checked_add(transactions[t].inputs.len()) {
            Some(sum) => sum,
            None => {
                return None;
            },
        };
        t = t + 1;
    }
    assert(transactions@.take(t as int) =~= transactions@);
    Some(count)
}

/// The encodings of transactions, unless one has none.
fn encode_all(transactions: &Vec<Transaction>) -> (encoded: Result<Vec<Vec<u8>>, EncodeError>)
    ensures
        match encoded {
            Ok(e) => all_encodable(transactions@) && e@.len() == transactions@.len() && forall|
                t: int,
            |
                0 <= t < e@.len() ==> (#[trigger] e@[t])@ == transaction_bytes(transactions@[t]@),
            Err(error) => !all_encodable(transactions@) && error is InvalidData,
        },
{
    let mut encoded: Vec<Vec<u8>> = Vec::new();
    let mut t: usize = 0;
    while t < transactions.len()
        invariant
            t <= transactions@.len(),
            encoded@.len() == t,
            forall|j: int| 0 <= j < t ==> encodable((#[trigger] transactions@[j])@),
            forall|j: int|
                0 <= j < t ==> (#[trigger] encoded@[j])@ == transaction_bytes(transactions@[j]@),
        decreases transactions@.len() - t,
    {
        match encode_transaction(&transactions[t]) {
            Ok(bytes) => {
                encoded.push(bytes);
            },
            Err(error) => {
                assert(!encodable(transactions@[t as int]@));
                return Err(error);
            },
        }
        t = t + 1;
    }
    Ok(encoded)
}

/// Pairs each authorization with the encoding of the transaction that it is for.
fn pair_up<'a>(body: &Body, encoded: &'a Vec<Vec<u8>>) -> (pairs: Vec<(Authorization, &'a [u8])>)
    requires
        body.authorizations@.len() == body_messages(body.transactions@).len(),
        encoded@.len() == body.transactions@.len(),
        forall|t: int|
            0 <= t < encoded@.len() ==> (#[trigger] encoded@[t])@ == transaction_bytes(
                body.transactions@[t]@,
            ),
    ensures
        items_of(pairs@) == items_for(body.authorizations@, body_messages(body.transactions@)),
{
    let ghost messages = body_messages(body.transactions@);
    let mut pairs: Vec<(Authorization, &'a [u8])> = Vec::new();
    let mut t: usize = 0;
    while t < body.transactions.len()
        invariant
            t <= body.transactions@.len(),
            messages == body_messages(body.transactions@),
            body.authorizations@.len() == messages.len(),
            encoded@.len() == body.transactions@.len(),
            forall|j: int|
                0 <= j < encoded@.len() ==> (#[trigger] encoded@[j])@ == transaction_bytes(
                    body.transactions@[j]@,
                ),
            pairs@.len() == body_messages(body.transactions@.take(t as int)).len(),
            forall|j: int|
                0 <= j < pairs@.len() ==> (#[trigger] pairs@[j]).0 == body.authorizations@[j]
                    && pairs@[j].1@ == messages[j],
        decreases body.transactions@.len() - t,
    {
        proof {
            lemma_message_at(body.transactions@, t as int);
        }
        let ghost start = body_messages(body.transactions@.take(t as int));
        let ghost end = body_messages(body.transactions@.take(t + 1));
        let n: usize = body.transactions[t].inputs.len();
        let mut k: usize = 0;
        while k < n
            invariant
                t < body.transactions@.len(),
                n == body.transactions@[t as int].inputs@.len(),
                k <= n,
                end == start + messages_of(body.transactions@[t as int]@),
                end.is_prefix_of(messages),
                body.authorizations@.len() == messages.len(),
                encoded@.len() == body.transactions@.len(),
                encoded@[t as int]@ == transaction_bytes(body.transactions@[t as int]@),
                pairs@.len() == start.len() + k,
                forall|j: int|
                    0 <= j < pairs@.len() ==> (#[trigger] pairs@[j]).0 == body.authorizations@[j]
                        && pairs@[j].1@ == messages[j],
            decreases n - k,
        {
            let position: usize = pairs.len();
            assert(messages[position as int] == end[position as int]);
            assert(end[position as int] == transaction_bytes(body.transactions@[t as int]@));
            pairs.push((body.authorizations[position], encoded[t].as_slice()));
            k = k + 1;
        }
        t = t + 1;
    }
    assert(body.transactions@.take(t as int) =~= body.transactions@);
    assert(items_of(pairs@) =~= items_for(body.authorizations@, messages));
    pairs
}

/// Verifies the authorizations of all transactions of a block.
pub fn verify_authorizations(ctxt: &BatchVerificationContext, body: &Body) -> (result: Result<
    (),
    Error,
>)
    requires
        all_encodable(body.transactions@) && body.authorizations@.len() == body_messages(
            body.transactions@,
        ).len() ==> forall|i: int|
            0 <= i < body_messages(body.transactions@).len() ==> (#[trigger] body_messages(
                body.transactions@,
            )[i]).len() <= u32::MAX,
    ensures
        body_verdict(ctxt.key(), body.transactions@, body.authorizations@, result),
        body_authorized(body.transactions@, body.authorizations@) ==> result is Ok,
        result is Ok ==> forall|t: int, k: int, p: int| #[trigger]
            stands_at(body.transactions@, t, k, p) ==> p < body.authorizations@.len()
                && was_verified(
                ctxt.key(),
                body.authorizations@[p],
                transaction_bytes(body.transactions@[t]@),
            ),
{
    let given: usize = body.authorizations.len();
    let required: usize = match count_inputs(&body.transactions) {
        Some(n) => n,
        None => {
            return Err(Error::NotEnoughAuthorizations);
        },
    };
    if given < required {
        return Err(Error::NotEnoughAuthorizations);
    }
    if given > required {
        return Err(Error::TooManyAuthorizations);
    }
    if required == 0 {
        proof {
            assert forall|t: int, k: int, p: int| !#[trigger] stands_at(
                body.transactions@,
                t,
                k,
                p,
            ) by {
                if stands_at(body.transactions@, t, k, p) {
                    accepted_block_was_verified_at_every_input(
                        ctxt.key(),
                        body.transactions@,
                        body.authorizations@,
                        t,
                        k,
                    );
                }
            }
        }
        return Ok(());
    }
    let encoded: Vec<Vec<u8>> = match encode_all(&body.transactions) {
        Ok(encoded) => encoded,
        Err(error) => {
            return Err(Error::BorshSerialize(error));
        },
    };
    let pairs: Vec<(Authorization, &[u8])> = pair_up(body, &encoded);
    let ghost items = items_of(pairs@);
    assert(items.len() == pairs@.len());
    assert forall|i: int| 0 <= i < pairs@.len() implies (#[trigger] pairs@[i]).1@.len()
        <= u32::MAX by {
        assert(items[i] == item_of(pairs@[i]));
        assert(items[i].message == body_messages(body.transactions@)[i]);
    }
    let check = |chunk: &[(Authorization, &[u8])]| -> (r: Result<(), SignatureError>)
        requires
            forall|i: int| 0 <= i < chunk@.len() ==> (#[trigger] chunk@[i]).1@.len() <= u32::MAX,
        ensures
            r == batch_verdict(ctxt.key(), items_of(chunk@)),
            chunk@.len() > 0 && all_hold(items_of(chunk@)) ==> r is Ok,
        { verify_chunk(ctxt, chunk) };
    proof {
        assert forall|c: int| #[trigger]
            is_part(pairs@.len() as int, CHUNK_SIZE as int, c) implies items_of(
            part(pairs@, CHUNK_SIZE as int, c),
        ) == part(items, CHUNK_SIZE as int, c) by {
            assert(items_of(part(pairs@, CHUNK_SIZE as int, c)) =~= part(
                items,
                CHUNK_SIZE as int,
                c,
            ));
        }
    }
    match call_par_chunks(pairs.as_slice(), CHUNK_SIZE, check) {
        Ok(_) => {
            proof {
                let (transactions, authorizations) = (body.transactions@, body.authorizations@);
                let verdict = Ok::<(), Error>(());
                assert(body_verdict(ctxt.key(), transactions, authorizations, verdict));
                assert forall|t: int, k: int, p: int| #[trigger]
                    stands_at(transactions, t, k, p) implies p < authorizations.len()
                    && was_verified(
                    ctxt.key(),
                    authorizations[p],
                    transaction_bytes(transactions[t]@),
                ) by {
                    accepted_block_was_verified_at_every_input(
                        ctxt.key(),
                        transactions,
                        authorizations,
                        t,
                        k,
                    );
                }
            }
            Ok(())
        },
        Err(error) => Err(Error::SignatureVerification(error)),
    }
}

/// Signs a transaction.
pub fn sign(
    rng: &mut rand_chacha::ChaCha20Rng,
    signing_key: &SigningKey,
    transaction: &Transaction,
) -> (result: Result<Signature, Error>)
    ensures
        match result {
            Ok(s) => encodable(transaction@) && s.well_formed() && s.signs(
                signing_key.public(),
                transaction_bytes(transaction@),
            ),
            Err(e) => !encodable(transaction@) && e == Error::BorshSerialize(
                EncodeError::InvalidData,
            ),
        },
{
    match encode_transaction(transaction) {
        Ok(message) => Ok(signing_key.sign(rng, message.as_slice())),
        Err(error) => Err(Error::BorshSerialize(error)),
    }
}

/// The address at `i` is the one of the key at `i`.
pub open spec fn key_fits(keys: Seq<(Address, &SigningKey)>, i: int) -> bool {
    keys[i].0 == key_address(keys[i].1.public())
}

/// The authorization is made with the key: it carries the public key, and its
/// signature is well-formed and one of the transaction.
pub open spec fn made_with(
    authorization: Authorization,
    key: SigningKey,
    transaction: TransactionView,
) -> bool {
    &&& authorization.verifying_key == key.public()
    &&& authorization.verifying_key.well_formed()
    &&& authorization.signature.well_formed()
    &&& authorization.signature.signs(key.public(), transaction_bytes(transaction))
}

/// The keys up to the one at `i` fit their addresses, and that one does not.
pub open spec fn first_misfit(keys: Seq<(Address, &SigningKey)>, i: int) -> bool {
    &&& 0 <= i < keys.len()
    &&& !key_fits(keys, i)
    &&& forall|j: int| 0 <= j < i ==> #[trigger] key_fits(keys, j)
}

/// Signs a transaction with each of the given keys, unless it has no encoding, or
/// one of the keys is not that of the address beside it.
pub fn authorize(
    rng: &mut rand_chacha::ChaCha20Rng,
    addresses_signing_keys: &[(Address, &SigningKey)],
    transaction: Transaction,
) -> (result: Result<AuthorizedTransaction, Error>)
    ensures
        match result {
            Ok(a) => {
                &&& encodable(transaction@)
                &&& a.transaction == transaction
                &&& a.authorizations@.len() == addresses_signing_keys@.len()
                &&& forall|i: int|
                    0 <= i < addresses_signing_keys@.len() ==> key_fits(addresses_signing_keys@, i)
                        && made_with(
                        #[trigger] a.authorizations@[i],
                        *addresses_signing_keys@[i].1,
                        transaction@,
                    )
            },
            Err(Error::BorshSerialize(EncodeError::InvalidData)) => !encodable(transaction@),
            Err(Error::WrongKeyForAddress { address, hash_verifying_key }) => encodable(
                transaction@,
            ) && exists|i: int| #[trigger]
                first_misfit(addresses_signing_keys@, i) && address == addresses_signing_keys@[i].0
                    && hash_verifying_key == key_address(addresses_signing_keys@[i].1.public()),
            Err(_) => false,
        },
        result is Ok && addresses_signing_keys@.len() == transaction.inputs@.len() ==> authorized(
            transaction@,
            result->Ok_0.authorizations@,
        ),
{
    let mut authorizations: Vec<Authorization> = Vec::new();
    let message: Vec<u8> = match encode_transaction(&transaction) {
        Ok(bytes) => bytes,
        Err(error) => {
            return Err(Error::BorshSerialize(error));
        },
    };
    let mut i: usize = 0;
    while i < addresses_signing_keys.len()
        invariant
            i <= addresses_signing_keys@.len(),
            encodable(transaction@),
            message@ == transaction_bytes(transaction@),
            authorizations@.len() == i,
            forall|j: int| 0 <= j < i ==> #[trigger] key_fits(addresses_signing_keys@, j),
            forall|j: int|
                0 <= j < i ==> made_with(
                    #[trigger] authorizations@[j],
                    *addresses_signing_keys@[j].1,
                    transaction@,
                ),
        decreases addresses_signing_keys@.len() - i,
    {
        let address: Address = addresses_signing_keys[i].0;
        let signing_key: &SigningKey = addresses_signing_keys[i].1;
        let verifying_key: VerifyingKey = signing_key.verifying_key();
        let hash_verifying_key: Address = get_address(verifying_key);
        if !address.same(&hash_verifying_key) {
            assert(first_misfit(addresses_signing_keys@, i as int));
            return Err(Error::WrongKeyForAddress { address, hash_verifying_key });
        }
        let signature: Signature = signing_key.sign(rng, message.as_slice());
        authorizations.push(Authorization { verifying_key, signature });
        i = i + 1;
    }
    proof {
        let items = items_for(authorizations@, messages_of(transaction@));
        if addresses_signing_keys@.len() == transaction.inputs@.len() {
            assert forall|j: int| 0 <= j < items.len() implies (#[trigger] items[j]).holds() by {
                assert(made_with(
                    authorizations@[j],
                    *addresses_signing_keys@[j].1,
                    transaction@,
                ));
            }
        }
    }
    Ok(AuthorizedTransaction { transaction, authorizations })
}

/// What one item adds to a transcript can be told from what stands behind it.
proof fn lemma_item_prefix(a: BatchItem, s: Seq<u8>, b: BatchItem, t: Seq<u8>)
    requires
        item_bytes(a) + s == item_bytes(b) + t,
        a.message.len() <= u32::MAX,
        b.message.len() <= u32::MAX,
    ensures
        a == b,
        s == t,
{
    let (ha, hb) = (
        a.key.0@ + a.signature.r@ + a.signature.z@,
        b.key.0@ + b.signature.r@ + b.signature.z@,
    );
    lemma_assoc(ha, framed(a.message), s);
    lemma_assoc(hb, framed(b.message), t);
    lemma_split(ha, framed(a.message) + s, hb, framed(b.message) + t);
    lemma_framed_prefix(a.message, s, b.message, t);
    let (ka, kb) = (a.key.0@ + a.signature.r@, b.key.0@ + b.signature.r@);
    lemma_split(ka, a.signature.z@, kb, b.signature.z@);
    lemma_split(a.key.0@, a.signature.r@, b.key.0@, b.signature.r@);
    assert(a.key.0 =~= b.key.0);
    assert(a.signature.r =~= b.signature.r);
    assert(a.signature.z =~= b.signature.z);
}

/// Every message of a batch has a length that fits its transcript.
pub open spec fn messages_fit(items: Seq<BatchItem>) -> bool {
    forall|i: int| 0 <= i < items.len() ==> (#[trigger] items[i]).message.len() <= u32::MAX
}

proof fn lemma_transcript_prefix(
    a: Seq<BatchItem>,
    s: Seq<u8>,
    b: Seq<BatchItem>,
    t: Seq<u8>,
)
    requires
        a.len() == b.len(),
        messages_fit(a),
        messages_fit(b),
        transcript(a) + s == transcript(b) + t,
    ensures
        a == b,
        s == t,
    decreases a.len(),
{
    if a.len() == 0 {
        assert(a =~= b);
        assert(transcript(a) + s =~= s);
        assert(transcript(b) + t =~= t);
    } else {
        let (fa, fb) = (a.drop_last(), b.drop_last());
        let (la, lb) = (item_bytes(a.last()), item_bytes(b.last()));
        assert(messages_fit(fa)) by {
            assert forall|i: int| 0 <= i < fa.len() implies (#[trigger] fa[i]).message.len()
                <= u32::MAX by {
                assert(fa[i] == a[i]);
            }
        }
        assert(messages_fit(fb)) by {
            assert forall|i: int| 0 <= i < fb.len() implies (#[trigger] fb[i]).message.len()
                <= u32::MAX by {
                assert(fb[i] == b[i]);
            }
        }
        lemma_assoc(transcript(fa), la, s);
        lemma_assoc(transcript(fb), lb, t);
        lemma_transcript_prefix(fa, la + s, fb, lb + t);
        lemma_item_prefix(a.last(), s, b.last(), t);
        assert(a =~= fa.push(a.last()));
        assert(b =~= fb.push(b.last()));
    }
}

/// What the seed of a batch is computed from tells the batch: no two batches, of
/// whatever numbers of items, have the same transcript with their number of items
/// behind it.
pub proof fn transcripts_tell_batches_apart(a: Seq<BatchItem>, b: Seq<BatchItem>)
    requires
        messages_fit(a),
        messages_fit(b),
        a.len() <= u64::MAX,
        b.len() <= u64::MAX,
        transcript(a) + u64_bytes(a.len() as u64) == transcript(b) + u64_bytes(b.len() as u64),
    ensures
        a == b,
{
    let (na, nb) = (u64_bytes(a.len() as u64), u64_bytes(b.len() as u64));
    let (ta, tb) = (transcript(a), transcript(b));
    assert((ta + na).len() == ta.len() + 8 && (tb + nb).len() == tb.len() + 8);
    lemma_split(ta, na, tb, nb);
    lemma_u64_injective(a.len() as u64, b.len() as u64);
    assert(ta + Seq::<u8>::empty() =~= tb + Seq::<u8>::empty());
    lemma_transcript_prefix(a, Seq::empty(), b, Seq::empty());
}

/// A block of authorized transactions, with their authorizations one behind the
/// other, is an authorized block.
pub proof fn authorized_transactions_make_an_authorized_body(
    transactions: Seq<Transaction>,
    authorizations: Seq<Authorization>,
    transaction: Transaction,
    more: Seq<Authorization>,
)
    requires
        body_authorized(transactions, authorizations),
        authorized(transaction@, more),
    ensures
        body_authorized(transactions.push(transaction), authorizations + more),
{
    let all = transactions.push(transaction);
    let messages = body_messages(transactions);
    assert(all.drop_last() =~= transactions);
    assert(body_messages(all) == messages + messages_of(transaction@));
    let old_items = items_for(authorizations, messages);
    let new_items = items_for(more, messages_of(transaction@));
    let items = items_for(authorizations + more, body_messages(all));
    assert forall|i: int| 0 <= i < items.len() implies (#[trigger] items[i]).holds() by {
        if i < authorizations.len() {
            assert(items[i] == old_items[i]);
        } else {
            assert(items[i] == new_items[i - authorizations.len()]);
        }
    }
    assert forall|t: int| 0 <= t < all.len() implies encodable((#[trigger] all[t])@) by {
        if t < transactions.len() {
            assert(all[t] == transactions[t]);
        }
    }
}

} // verus!
