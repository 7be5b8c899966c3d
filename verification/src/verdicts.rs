//! What the verification of authorizations shows, said of each of them.

use vstd::prelude::*;

use crate::authorization::{
    authorized, batch_seed, batch_verdict, body_authorized, body_messages, body_verdict,
    first_malformed, first_misfit, is_part, items_for, key_fits, made_with, messages_of, part,
    transaction_verdict, transcript, Authorization, Error, CHUNK_SIZE,
};
use crate::encoding::{encodable, transaction_bytes, EncodeError};
use crate::hashing::blake3_keyed_hash;
use crate::keys::{
    batch_accepts, group_order, is_point, number, public_point, signature_holds, BatchItem,
    SignatureError, SigningKey, VerifyingKey,
};
use crate::types::{Address, GetAddress, Transaction, TransactionView};

verus! {

/// The bytes of a key are those of a point, and those of a signature are those of a
/// point and of a number of the scalar field.
pub open spec fn decodes(authorization: Authorization) -> bool {
    &&& is_point(authorization.verifying_key.0@)
    &&& is_point(authorization.signature.r@)
    &&& number(authorization.signature.z@) < group_order()
}

/// The signature is one of the message under the key.
pub open spec fn holds_of(authorization: Authorization, message: Seq<u8>) -> bool {
    &&& decodes(authorization)
    &&& signature_holds(
        authorization.verifying_key.0@,
        authorization.signature.r@,
        authorization.signature.z@,
        message,
    )
}

/// The item of a batch is the authorization with the message.
pub open spec fn is_item_of(
    item: BatchItem,
    authorization: Authorization,
    message: Seq<u8>,
) -> bool {
    &&& item.key == authorization.verifying_key
    &&& item.signature == authorization.signature
    &&& item.message == message
}

/// The bytes of an item: the key, the two parts of the signature, and the message behind
/// its length.
proof fn lemma_transcript_next(items: Seq<BatchItem>, item: BatchItem)
    ensures
        transcript(items.push(item)) == transcript(items) + (item.key.0@ + item.signature.r@
            + item.signature.z@ + (crate::encoding::u32_bytes(item.message.len() as u32)
            + item.message)),
{
    assert(items.push(item).drop_last() =~= items);
}

/// The seed of a batch is the hash, under the key of the context, of every key, signature
/// and message of the batch, one behind the other, and of their number.
pub proof fn seed_depends_on_the_whole_batch(
    mac_key: Seq<u8>,
    items: Seq<BatchItem>,
    item: BatchItem,
)
    ensures
        transcript(Seq::<BatchItem>::empty()) == Seq::<u8>::empty(),
        transcript(items.push(item)) == transcript(items) + (item.key.0@ + item.signature.r@
            + item.signature.z@ + (crate::encoding::u32_bytes(item.message.len() as u32)
            + item.message)),
        batch_seed(mac_key, items) == blake3_keyed_hash(
            mac_key,
            transcript(items) + crate::encoding::u64_bytes(items.len() as u64),
        )@,
{
    lemma_transcript_next(items, item);
}

/// A batch is accepted exactly where every item of it is well-formed and the batch
/// verifier accepts all of them together. Else the error tells what is wrong with the
/// first item that is malformed, or that the signatures are not valid.
pub proof fn batch_is_judged_as_a_whole(mac_key: Seq<u8>, items: Seq<BatchItem>)
    ensures
        batch_verdict(mac_key, items) is Ok <==> (forall|i: int|
            0 <= i < items.len() ==> is_point((#[trigger] items[i]).key.0@) && is_point(
                items[i].signature.r@,
            ) && number(items[i].signature.z@) < group_order()) && batch_accepts(
            items,
            batch_seed(mac_key, items),
        ),
        batch_verdict(mac_key, items) == Err::<(), SignatureError>(
            SignatureError::InvalidSignature,
        ) <==> (forall|i: int|
            0 <= i < items.len() ==> is_point((#[trigger] items[i]).key.0@) && is_point(
                items[i].signature.r@,
            ) && number(items[i].signature.z@) < group_order()) && !batch_accepts(
            items,
            batch_seed(mac_key, items),
        ),
        batch_verdict(mac_key, items) == Err::<(), SignatureError>(
            SignatureError::MalformedVerifyingKey,
        ) ==> exists|i: int| 0 <= i < items.len() && !is_point((#[trigger] items[i]).key.0@),
        batch_verdict(mac_key, items) == Err::<(), SignatureError>(
            SignatureError::MalformedSignature,
        ) ==> exists|i: int|
            0 <= i < items.len() && is_point((#[trigger] items[i]).key.0@) && !(is_point(
                items[i].signature.r@,
            ) && number(items[i].signature.z@) < group_order()),
{
    if exists|i: int| first_malformed(items, i) {
        let i = choose|i: int| first_malformed(items, i);
        assert(!(items[i].key.well_formed() && items[i].signature.well_formed()));
    } else {
        lemma_none_malformed(items, items.len() as int);
        assert forall|i: int| 0 <= i < items.len() implies is_point((#[trigger] items[i]).key.0@)
            && is_point(items[i].signature.r@) && number(items[i].signature.z@) < group_order() by {
            assert(items[i].key.well_formed() && items[i].signature.well_formed());
        }
    }
}

/// Where no item is the first malformed one, none is malformed.
proof fn lemma_none_malformed(items: Seq<BatchItem>, n: int)
    requires
        0 <= n <= items.len(),
        forall|i: int| !first_malformed(items, i),
    ensures
        forall|i: int|
            0 <= i < n ==> (#[trigger] items[i]).key.well_formed()
                && items[i].signature.well_formed(),
    decreases n,
{
    if n > 0 {
        lemma_none_malformed(items, n - 1);
        assert(!first_malformed(items, n - 1));
    }
}

/// A transaction is accepted only with as many authorizations as it has inputs, and only
/// if the batch verifier accepts a batch that holds every one of them, each with the
/// encoding of the transaction. So a malformed key or signature at any of them is an
/// error.
pub proof fn accepted_transaction_was_verified_at_every_input(
    mac_key: Seq<u8>,
    transaction: TransactionView,
    authorizations: Seq<Authorization>,
)
    requires
        transaction_verdict(mac_key, transaction, authorizations) is Ok,
    ensures
        authorizations.len() == transaction.inputs.len(),
        forall|i: int| 0 <= i < authorizations.len() ==> decodes(#[trigger] authorizations[i]),
        authorizations.len() > 0 ==> exists|items: Seq<BatchItem>| #[trigger]
            batch_accepts(items, batch_seed(mac_key, items)) && items.len()
                == authorizations.len() && forall|i: int|
                0 <= i < items.len() ==> is_item_of(
                    #[trigger] items[i],
                    authorizations[i],
                    transaction_bytes(transaction),
                ),
{
    if authorizations.len() > 0 {
        let items = items_for(authorizations, messages_of(transaction));
        batch_is_judged_as_a_whole(mac_key, items);
        assert(batch_accepts(items, batch_seed(mac_key, items)));
        assert forall|i: int| 0 <= i < authorizations.len() implies decodes(
            #[trigger] authorizations[i],
        ) by {
            assert(is_point(items[i].key.0@));
        }
    }
}

/// Every length of the transaction fits in 32 bits.
pub open spec fn lengths_fit(transaction: TransactionView) -> bool {
    &&& transaction.inputs.len() <= u32::MAX
    &&& transaction.outputs.len() <= u32::MAX
    &&& transaction.data is SwapCreate ==> transaction.data->l1_txid_bytes.len() <= u32::MAX
        && vstd::utf8::encode_utf8(transaction.data->l1_recipient_address).len() <= u32::MAX
    &&& transaction.data is SwapClaim && transaction.data->proof_data is Some
        ==> transaction.data->proof_data->0.len() <= u32::MAX
}

/// A transaction has an encoding exactly where its lengths fit.
pub proof fn only_lengths_stand_in_the_way_of_an_encoding(transaction: TransactionView)
    ensures
        encodable(transaction) <==> lengths_fit(transaction),
{
}

/// A transaction is refused for the number of its authorizations, for a length that does
/// not fit, for a malformed authorization, or because the batch verifier refuses the batch
/// of all of them, and for nothing else.
pub proof fn transaction_is_refused_for_a_reason(
    mac_key: Seq<u8>,
    transaction: TransactionView,
    authorizations: Seq<Authorization>,
    items: Seq<BatchItem>,
)
    requires
        items.len() == authorizations.len(),
        forall|i: int|
            0 <= i < items.len() ==> is_item_of(
                #[trigger] items[i],
                authorizations[i],
                transaction_bytes(transaction),
            ),
    ensures
        ({
            let verdict = transaction_verdict(mac_key, transaction, authorizations);
            let n = transaction.inputs.len();
            &&& authorizations.len() < n <==> verdict == Err::<(), Error>(
                Error::NotEnoughAuthorizations,
            )
            &&& authorizations.len() > n <==> verdict == Err::<(), Error>(
                Error::TooManyAuthorizations,
            )
            &&& authorizations.len() == n && n == 0 ==> verdict is Ok
            &&& authorizations.len() == n && n > 0 && !lengths_fit(transaction) <==> verdict
                == Err::<(), Error>(Error::BorshSerialize(EncodeError::InvalidData))
            &&& authorizations.len() == n && n > 0 && lengths_fit(transaction) ==> match verdict {
                Ok(_) => batch_accepts(items, batch_seed(mac_key, items)),
                Err(Error::SignatureVerification(SignatureError::InvalidSignature)) => {
                    &&& forall|i: int| 0 <= i < n ==> decodes(#[trigger] authorizations[i])
                    &&& !batch_accepts(items, batch_seed(mac_key, items))
                },
                Err(Error::SignatureVerification(SignatureError::MalformedVerifyingKey)) => exists|
                    i: int,
                |
                    0 <= i < n && !is_point((#[trigger] authorizations[i]).verifying_key.0@),
                Err(Error::SignatureVerification(SignatureError::MalformedSignature)) => exists|
                    i: int,
                |
                    0 <= i < n && is_point((#[trigger] authorizations[i]).verifying_key.0@)
                        && !decodes(authorizations[i]),
                _ => false,
            }
        }),
{
    let queued = items_for(authorizations, messages_of(transaction));
    assert(encodable(transaction) == lengths_fit(transaction));
    if authorizations.len() == transaction.inputs.len() {
        assert forall|i: int| 0 <= i < items.len() implies #[trigger] items[i] == queued[i] by {
            assert(is_item_of(items[i], authorizations[i], transaction_bytes(transaction)));
        }
        assert(items =~= queued);
        batch_is_judged_as_a_whole(mac_key, queued);
        assert forall|i: int| 0 <= i < items.len() implies items[i].key
            == (#[trigger] authorizations[i]).verifying_key && items[i].signature
            == authorizations[i].signature by {
            assert(is_item_of(items[i], authorizations[i], transaction_bytes(transaction)));
        }
        let verdict = batch_verdict(mac_key, queued);
        if verdict == Err::<(), SignatureError>(SignatureError::MalformedVerifyingKey) {
            let i = choose|i: int| 0 <= i < items.len() && !is_point((#[trigger] items[i]).key.0@);
            assert(!is_point(authorizations[i].verifying_key.0@));
        }
        if verdict == Err::<(), SignatureError>(SignatureError::MalformedSignature) {
            let i = choose|i: int|
                0 <= i < items.len() && is_point((#[trigger] items[i]).key.0@) && !(is_point(
                    items[i].signature.r@,
                ) && number(items[i].signature.z@) < group_order());
            assert(is_point(authorizations[i].verifying_key.0@));
        }
        if verdict == Err::<(), SignatureError>(SignatureError::InvalidSignature) {
            assert forall|i: int| 0 <= i < items.len() implies decodes(
                #[trigger] authorizations[i],
            ) by {
                assert(is_point(items[i].key.0@));
            }
        }
    }
}

/// A transaction whose authorizations all hold of it, one for each input, is one of
/// authorized inputs.
pub proof fn holding_authorizations_authorize(
    transaction: TransactionView,
    authorizations: Seq<Authorization>,
)
    requires
        lengths_fit(transaction),
        authorizations.len() == transaction.inputs.len(),
        forall|i: int|
            0 <= i < authorizations.len() ==> holds_of(
                #[trigger] authorizations[i],
                transaction_bytes(transaction),
            ),
    ensures
        authorized(transaction, authorizations),
{
    let items = items_for(authorizations, messages_of(transaction));
    assert forall|i: int| 0 <= i < items.len() implies (#[trigger] items[i]).holds() by {
        assert(holds_of(authorizations[i], transaction_bytes(transaction)));
    }
}

/// How many inputs the first `t` transactions have.
pub open spec fn inputs_before(transactions: Seq<Transaction>, t: int) -> nat
    decreases t,
{
    if t <= 0 {
        0
    } else {
        inputs_before(transactions, t - 1) + transactions[t - 1].inputs@.len()
    }
}

/// A block has a message for each input.
proof fn lemma_message_count(transactions: Seq<Transaction>, n: int)
    requires
        0 <= n <= transactions.len(),
    ensures
        body_messages(transactions.take(n)).len() == inputs_before(transactions, n),
    decreases n,
{
    if n > 0 {
        lemma_message_count(transactions, n - 1);
        assert(transactions.take(n).drop_last() =~= transactions.take(n - 1));
    } else {
        assert(transactions.take(0) =~= Seq::<Transaction>::empty());
    }
}

/// The messages of a block stand where the inputs of its transactions stand.
proof fn lemma_message_of(transactions: Seq<Transaction>, n: int, t: int, k: int)
    requires
        0 <= t < n <= transactions.len(),
        0 <= k < transactions[t].inputs@.len(),
    ensures
        inputs_before(transactions, t) + k < inputs_before(transactions, n),
        body_messages(transactions.take(n))[inputs_before(transactions, t) + k]
            == transaction_bytes(transactions[t]@),
    decreases n,
{
    let (all, front) = (transactions.take(n), transactions.take(n - 1));
    assert(all.drop_last() =~= front);
    assert(body_messages(all) == body_messages(front) + messages_of(transactions[n - 1]@));
    lemma_message_count(transactions, n - 1);
    if t < n - 1 {
        lemma_message_of(transactions, n - 1, t, k);
    }
}

/// Position `p` of a list stands in one of its parts.
proof fn lemma_part_of<T>(list: Seq<T>, size: int, p: int)
    requires
        0 <= p < list.len(),
        size > 0,
    ensures
        is_part(list.len() as int, size, p / size),
        0 <= p % size < part(list, size, p / size).len(),
        part(list, size, p / size)[p % size] == list[p],
{
    let c = p / size;
    assert(p == c * size + p % size && 0 <= p % size < size) by (nonlinear_arith)
        requires
            c == p / size,
            size > 0,
    ;
    assert(0 <= c) by (nonlinear_arith)
        requires
            c == p / size,
            size > 0,
            p >= 0,
    ;
    assert((c + 1) * size == c * size + size) by (nonlinear_arith);
    assert(0 <= c * size) by (nonlinear_arith)
        requires
            0 <= c,
            size > 0,
    ;
}

/// The authorization stands, with the message, in a batch that is accepted.
pub open spec fn was_verified(
    mac_key: Seq<u8>,
    authorization: Authorization,
    message: Seq<u8>,
) -> bool {
    exists|items: Seq<BatchItem>, j: int| #[trigger]
        batch_accepts(items, batch_seed(mac_key, items)) && 0 <= j < items.len() && is_item_of(
            #[trigger] items[j],
            authorization,
            message,
        )
}

/// A block is accepted only with as many authorizations as its transactions have inputs,
/// and only if the authorization of every input of every transaction stands in a batch
/// that is accepted, with the encoding of that transaction. The authorizations stand in
/// the order of the inputs.
pub proof fn accepted_block_was_verified_at_every_input(
    mac_key: Seq<u8>,
    transactions: Seq<Transaction>,
    authorizations: Seq<Authorization>,
    t: int,
    k: int,
)
    requires
        body_verdict(mac_key, transactions, authorizations, Ok::<(), Error>(())),
    ensures
        authorizations.len() == inputs_before(transactions, transactions.len() as int),
        0 <= t < transactions.len() && 0 <= k < transactions[t].inputs@.len() ==> {
            let p = inputs_before(transactions, t) + k;
            &&& 0 <= p < authorizations.len()
            &&& decodes(authorizations[p as int])
            &&& was_verified(
                mac_key,
                authorizations[p as int],
                transaction_bytes(transactions[t]@),
            )
        },
{
    let messages = body_messages(transactions);
    let items = items_for(authorizations, messages);
    lemma_message_count(transactions, transactions.len() as int);
    assert(transactions.take(transactions.len() as int) =~= transactions);
    if 0 <= t < transactions.len() && 0 <= k < transactions[t].inputs@.len() {
        let p = inputs_before(transactions, t) + k;
        lemma_message_of(transactions, transactions.len() as int, t, k);
        assert(messages[p as int] == transaction_bytes(transactions[t]@));
        let size = CHUNK_SIZE as int;
        lemma_part_of(items, size, p as int);
        let batch = part(items, size, p as int / size);
        batch_is_judged_as_a_whole(mac_key, batch);
        assert(is_item_of(
            batch[p as int % size],
            authorizations[p as int],
            transaction_bytes(transactions[t]@),
        ));
        assert(batch_accepts(batch, batch_seed(mac_key, batch)));
    }
}

/// The authorization of input `k` of transaction `t` stands at `p`.
pub open spec fn stands_at(transactions: Seq<Transaction>, t: int, k: int, p: int) -> bool {
    &&& 0 <= t < transactions.len()
    &&& 0 <= k < transactions[t].inputs@.len()
    &&& p == inputs_before(transactions, t) + k
}

/// The items are the authorizations of a block from `start` on, each with the encoding of
/// the transaction whose input it is for.
pub open spec fn is_run_of(
    items: Seq<BatchItem>,
    start: int,
    transactions: Seq<Transaction>,
    authorizations: Seq<Authorization>,
) -> bool {
    &&& 0 <= start && start + items.len() <= authorizations.len()
    &&& forall|j: int|
        0 <= j < items.len() ==> (#[trigger] items[j]).key == authorizations[start
            + j].verifying_key && items[j].signature == authorizations[start + j].signature
    &&& forall|t: int, k: int, p: int| #[trigger]
        stands_at(transactions, t, k, p) && start <= p < start + items.len() ==> items[p
            - start].message == transaction_bytes(transactions[t]@)
}

/// A block is refused for the number of its authorizations, for a transaction that has no
/// encoding, or for its signatures, and for nothing else.
pub proof fn block_is_refused_for_a_reason(
    mac_key: Seq<u8>,
    transactions: Seq<Transaction>,
    authorizations: Seq<Authorization>,
    result: Result<(), Error>,
)
    requires
        body_verdict(mac_key, transactions, authorizations, result),
    ensures
        ({
            let n = inputs_before(transactions, transactions.len() as int);
            &&& authorizations.len() < n <==> result == Err::<(), Error>(
                Error::NotEnoughAuthorizations,
            )
            &&& authorizations.len() > n <==> result == Err::<(), Error>(
                Error::TooManyAuthorizations,
            )
            &&& authorizations.len() == n && n == 0 ==> result is Ok
            &&& authorizations.len() == n && n > 0 && (exists|t: int|
                0 <= t < transactions.len() && !lengths_fit((#[trigger] transactions[t])@))
                <==> result == Err::<(), Error>(Error::BorshSerialize(EncodeError::InvalidData))
            &&& result matches Err(error) ==> !(error is WrongKeyForAddress)
        }),
{
    lemma_message_count(transactions, transactions.len() as int);
    assert(transactions.take(transactions.len() as int) =~= transactions);
    assert forall|t: int| 0 <= t < transactions.len() implies encodable(
        (#[trigger] transactions[t])@,
    ) == lengths_fit(transactions[t]@) by {}
}

/// A part of a list begins within the list and ends within it.
proof fn lemma_part_within<T>(list: Seq<T>, size: int, c: int)
    requires
        is_part(list.len() as int, size, c),
        size > 0,
    ensures
        0 <= c * size,
        part(list, size, c).len() > 0,
        c * size + part(list, size, c).len() <= list.len(),
{
    assert((c + 1) * size == c * size + size) by (nonlinear_arith);
    assert(0 <= c * size) by (nonlinear_arith)
        requires
            0 <= c,
            size > 0,
    ;
}

/// Items of a block that stand side by side are a run of its authorizations.
proof fn lemma_is_run(
    transactions: Seq<Transaction>,
    authorizations: Seq<Authorization>,
    batch: Seq<BatchItem>,
    start: int,
)
    requires
        authorizations.len() == body_messages(transactions).len(),
        0 <= start && start + batch.len() <= authorizations.len(),
        batch == items_for(authorizations, body_messages(transactions)).subrange(
            start,
            start + batch.len(),
        ),
    ensures
        is_run_of(batch, start, transactions, authorizations),
{
    let items = items_for(authorizations, body_messages(transactions));
    assert(transactions.take(transactions.len() as int) =~= transactions);
    assert forall|j: int| 0 <= j < batch.len() implies (#[trigger] batch[j]).key
        == authorizations[start + j].verifying_key && batch[j].signature == authorizations[start
        + j].signature by {
        assert(batch[j] == items[start + j]);
    }
    assert forall|t: int, k: int, p: int| #[trigger]
        stands_at(transactions, t, k, p) && start <= p < start + batch.len() implies batch[p
        - start].message == transaction_bytes(transactions[t]@) by {
        lemma_message_of(transactions, transactions.len() as int, t, k);
        assert(batch[p - start] == items[p]);
    }
}

/// A block that is refused for its signatures has a run of authorizations that is refused
/// as a batch: one of them is malformed, or the batch verifier refuses them together.
pub proof fn refused_block_has_a_refused_batch(
    mac_key: Seq<u8>,
    transactions: Seq<Transaction>,
    authorizations: Seq<Authorization>,
    error: SignatureError,
)
    requires
        body_verdict(
            mac_key,
            transactions,
            authorizations,
            Err::<(), Error>(Error::SignatureVerification(error)),
        ),
    ensures
        authorizations.len() == inputs_before(transactions, transactions.len() as int),
        authorizations.len() > 0,
        exists|items: Seq<BatchItem>, start: int| #[trigger]
            is_run_of(items, start, transactions, authorizations) && match error {
                SignatureError::MalformedVerifyingKey => exists|j: int|
                    0 <= j < items.len() && !is_point((#[trigger] items[j]).key.0@),
                SignatureError::MalformedSignature => exists|j: int|
                    0 <= j < items.len() && is_point((#[trigger] items[j]).key.0@) && !(is_point(
                        items[j].signature.r@,
                    ) && number(items[j].signature.z@) < group_order()),
                SignatureError::InvalidSignature => !batch_accepts(
                    items,
                    batch_seed(mac_key, items),
                ),
            },
{
    let size = CHUNK_SIZE as int;
    let items = items_for(authorizations, body_messages(transactions));
    lemma_message_count(transactions, transactions.len() as int);
    assert(transactions.take(transactions.len() as int) =~= transactions);
    let c = choose|c: int| #[trigger]
        is_part(items.len() as int, size, c) && batch_verdict(mac_key, part(items, size, c))
            == Err::<(), SignatureError>(error);
    let batch = part(items, size, c);
    batch_is_judged_as_a_whole(mac_key, batch);
    lemma_part_within(items, size, c);
    let start = c * size;
    assert((c + 1) * size == c * size + size) by (nonlinear_arith);
    lemma_is_run(transactions, authorizations, batch, start);
    assert(is_run_of(batch, start, transactions, authorizations));
}

/// A block in which the authorization of every input of every transaction holds of that
/// transaction is one of authorized inputs.
pub proof fn holding_authorizations_authorize_a_block(
    transactions: Seq<Transaction>,
    authorizations: Seq<Authorization>,
)
    requires
        authorizations.len() == inputs_before(transactions, transactions.len() as int),
        forall|t: int| 0 <= t < transactions.len() ==> lengths_fit((#[trigger] transactions[t])@),
        forall|t: int, k: int|
            0 <= t < transactions.len() && 0 <= k < transactions[t].inputs@.len() ==> holds_of(
                #[trigger] authorizations[inputs_before(transactions, t) + k],
                transaction_bytes(transactions[t]@),
            ),
    ensures
        body_authorized(transactions, authorizations),
{
    let messages = body_messages(transactions);
    let items = items_for(authorizations, messages);
    lemma_message_count(transactions, transactions.len() as int);
    assert(transactions.take(transactions.len() as int) =~= transactions);
    assert forall|t: int| 0 <= t < transactions.len() implies encodable(
        (#[trigger] transactions[t])@,
    ) by {
        assert(lengths_fit(transactions[t]@));
    }
    assert forall|i: int| 0 <= i < items.len() implies (#[trigger] items[i]).holds() by {
        let (t, k) = lemma_input_at(transactions, transactions.len() as int, i);
        lemma_message_of(transactions, transactions.len() as int, t, k);
        assert(holds_of(
            authorizations[inputs_before(transactions, t) + k],
            transaction_bytes(transactions[t]@),
        ));
        assert(messages[inputs_before(transactions, t) + k] == transaction_bytes(
            transactions[t]@,
        ));
    }
}

/// Every position stands for an input of a transaction.
proof fn lemma_input_at(transactions: Seq<Transaction>, n: int, i: int) -> (at: (int, int))
    requires
        0 <= n <= transactions.len(),
        0 <= i < inputs_before(transactions, n),
    ensures
        0 <= at.0 < n,
        0 <= at.1 < transactions[at.0].inputs@.len(),
        i == inputs_before(transactions, at.0) + at.1,
    decreases n,
{
    if i >= inputs_before(transactions, n - 1) {
        (n - 1, i - inputs_before(transactions, n - 1))
    } else {
        lemma_input_at(transactions, n - 1, i)
    }
}

/// An authorization that is made with a key carries the public key that belongs to it,
/// and holds of the transaction.
pub proof fn made_authorization_holds(
    authorization: Authorization,
    key: SigningKey,
    transaction: TransactionView,
)
    requires
        made_with(authorization, key, transaction),
    ensures
        authorization.verifying_key == VerifyingKey(public_point(key.scalar())),
        holds_of(authorization, transaction_bytes(transaction)),
{
}

/// A key fits an address exactly where the address is made of the first bytes of the hash
/// of its public key.
pub proof fn key_fits_its_own_address(keys: Seq<(Address, &SigningKey)>, i: int)
    ensures
        key_fits(keys, i) <==> keys[i].0 == crate::hashing::point_address(
            public_point(keys[i].1.scalar())@,
        ),
{
}

/// The first key that does not fit is one whose address is not made of its public key,
/// while those of all keys before it are.
pub proof fn first_misfit_has_another_address(keys: Seq<(Address, &SigningKey)>, i: int)
    ensures
        first_misfit(keys, i) <==> {
            &&& 0 <= i < keys.len()
            &&& keys[i].0 != crate::hashing::point_address(public_point(keys[i].1.scalar())@)
            &&& forall|j: int|
                0 <= j < i ==> (#[trigger] keys[j]).0 == crate::hashing::point_address(
                    public_point(keys[j].1.scalar())@,
                )
        },
{
    if 0 <= i < keys.len() {
        if forall|j: int|
            0 <= j < i ==> (#[trigger] keys[j]).0 == crate::hashing::point_address(
                public_point(keys[j].1.scalar())@,
            ) {
            assert forall|j: int| 0 <= j < i implies #[trigger] key_fits(keys, j) by {
                assert(keys[j].0 == crate::hashing::point_address(
                    public_point(keys[j].1.scalar())@,
                ));
            }
        }
        if first_misfit(keys, i) {
            assert forall|j: int| 0 <= j < i implies (#[trigger] keys[j]).0
                == crate::hashing::point_address(public_point(keys[j].1.scalar())@) by {
                assert(key_fits(keys, j));
            }
        }
    }
}

/// The address of an authorization is the one that its key is paid at.
pub proof fn authorization_stands_for_the_address_of_its_key(authorization: Authorization)
    ensures
        authorization.address_spec() == crate::hashing::point_address(
            authorization.verifying_key.0@,
        ),
{
}

} // verus!
