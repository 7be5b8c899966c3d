//! What holds of the keys that a wallet signs with, said of the coins that it spends.

use vstd::prelude::*;

use crate::authorization::{made_with, Authorization};
use crate::derivation::{DeriveError, KeyTree, Step, Xpriv};
use crate::encoding::{encodable, transaction_bytes, EncodeError};
use crate::hashing::point_address;
use crate::keys::{key_address, SigningKey};
use crate::types::{Address, Output, TransactionView};
use crate::verdicts::{holds_of, made_authorization_holds};

use super::addresses::indexed;
use super::laws::{follows_from_seed, key_is_that_of_the_coin, signing_follows_from_seed};
use super::records::indexing_finds_the_first_index;
use super::signing::{all_made_with, key_for, keys_for};
use super::{Error, WalletView};

verus! {

/// One of the first `n` inputs spends a coin of the wallet at the address.
pub open spec fn spends_at(
    w: WalletView,
    transaction: TransactionView,
    n: int,
    address: Address,
) -> bool {
    exists|i: int|
        0 <= i < n && w.utxos.contains_key((#[trigger] transaction.inputs[i]).0)
            && w.utxos[transaction.inputs[i].0].address == address
}

/// Signing leaves everything as it is, but for the addresses of the coins that are spent:
/// one that was not recorded may be recorded, at the first index at which the seed gives
/// it.
pub proof fn signing_records_spent_addresses_alone<D: Fn(Step) -> Result<Xpriv, DeriveError>>(
    tree: KeyTree<D>,
    w: WalletView,
    transaction: TransactionView,
    n: nat,
)
    ensures
        ({
            let after = keys_for(tree, w, transaction, n).1;
            &&& after.seed == w.seed
            &&& after.utxos == w.utxos
            &&& after.stxos == w.stxos
            &&& after.version == w.version
            &&& forall|a: Address| #[trigger]
                w.address_to_index.contains_key(a) ==> after.address_to_index.contains_key(a)
                    && after.address_to_index[a] == w.address_to_index[a]
            &&& forall|a: Address| #[trigger]
                after.address_to_index.contains_key(a) && !w.address_to_index.contains_key(a) ==> {
                    &&& spends_at(w, transaction, n as int, a)
                    &&& w.seed is Some
                    &&& after.address_to_index[a] < 100_000
                    &&& tree.address(w.seed->0, after.address_to_index[a]) == Ok::<
                        Address,
                        DeriveError,
                    >(a)
                    &&& forall|j: u32|
                        j < after.address_to_index[a] ==> #[trigger] tree.address(w.seed->0, j)
                            != Ok::<Address, DeriveError>(a)
                }
        }),
    decreases n,
{
    if n > 0 {
        let m = (n - 1) as nat;
        signing_records_spent_addresses_alone(tree, w, transaction, m);
        let middle = keys_for(tree, w, transaction, m).1;
        let after = keys_for(tree, w, transaction, n).1;
        let outpoint = transaction.inputs[n - 1].0;
        if middle.utxos.contains_key(outpoint) {
            indexing_finds_the_first_index(tree, middle, middle.utxos[outpoint].address);
        }
        assert forall|a: Address| #[trigger]
            after.address_to_index.contains_key(a) && !w.address_to_index.contains_key(
                a,
            ) implies spends_at(w, transaction, n as int, a) by {
            if middle.address_to_index.contains_key(a) {
                assert(spends_at(w, transaction, m as int, a));
                let i = choose|i: int|
                    0 <= i < m && w.utxos.contains_key((#[trigger] transaction.inputs[i]).0)
                        && w.utxos[transaction.inputs[i].0].address == a;
                assert(w.utxos.contains_key(transaction.inputs[i].0));
            } else {
                assert(w.utxos.contains_key(transaction.inputs[n - 1].0));
            }
        }
    }
}

/// Every input is signed for with the key of the coin that it spends. The one exception is
/// a coin of a swap that a claim spends and whose address the wallet has not recorded: it
/// is signed for with the key with index 0.
pub proof fn each_input_is_signed_for_by_its_owner<D: Fn(Step) -> Result<Xpriv, DeriveError>>(
    tree: KeyTree<D>,
    w: WalletView,
    transaction: TransactionView,
    n: nat,
    keys: Seq<SigningKey>,
    i: int,
)
    requires
        follows_from_seed(tree, w),
        n <= transaction.inputs.len(),
        keys_for(tree, w, transaction, n).0 == Ok::<Seq<SigningKey>, Error>(keys),
        0 <= i < n,
    ensures
        keys.len() == n,
        w.utxos.contains_key(transaction.inputs[i].0),
        key_address(keys[i].public()) == w.utxos[transaction.inputs[i].0].address || {
            &&& transaction.data is SwapClaim
            &&& w.utxos[transaction.inputs[i].0].content is SwapPending
            &&& !w.address_to_index.contains_key(w.utxos[transaction.inputs[i].0].address)
            &&& w.seed is Some
            &&& tree.key(w.seed->0, 0) == Ok::<SigningKey, DeriveError>(keys[i])
        },
        encodable(transaction),
    decreases n,
{
    let m = (n - 1) as nat;
    signing_follows_from_seed(tree, w, transaction, m);
    signing_records_spent_addresses_alone(tree, w, transaction, m);
    let middle = keys_for(tree, w, transaction, m).1;
    lemma_one_key_each(tree, w, transaction, n);
    lemma_one_key_each(tree, w, transaction, m);
    let claims = transaction.data is SwapClaim;
    if i == m {
        key_is_that_of_the_coin(tree, middle, claims, transaction.inputs[i].0);
        assert(keys[i] == key_for(tree, middle, claims, transaction.inputs[i].0).0->Ok_0);
    } else {
        each_input_is_signed_for_by_its_owner(
            tree,
            w,
            transaction,
            m,
            keys_for(tree, w, transaction, m).0->Ok_0,
            i,
        );
    }
}

/// An input that spends a coin of a recorded address is signed for with the key with the
/// index that is recorded.
pub proof fn recorded_address_is_signed_for_at_its_index<
    D: Fn(Step) -> Result<Xpriv, DeriveError>,
>(
    tree: KeyTree<D>,
    w: WalletView,
    transaction: TransactionView,
    n: nat,
    keys: Seq<SigningKey>,
    i: int,
)
    requires
        keys_for(tree, w, transaction, n).0 == Ok::<Seq<SigningKey>, Error>(keys),
        0 <= i < n,
    ensures
        keys.len() == n,
        w.seed is Some,
        w.utxos.contains_key(transaction.inputs[i].0),
        w.address_to_index.contains_key(w.utxos[transaction.inputs[i].0].address) ==> tree.key(
            w.seed->0,
            w.address_to_index[w.utxos[transaction.inputs[i].0].address],
        ) == Ok::<SigningKey, DeriveError>(keys[i]),
    decreases n,
{
    let m = (n - 1) as nat;
    signing_records_spent_addresses_alone(tree, w, transaction, m);
    lemma_one_key_each(tree, w, transaction, n);
    lemma_one_key_each(tree, w, transaction, m);
    if i == m {
        let middle = keys_for(tree, w, transaction, m).1;
        let outpoint = transaction.inputs[i].0;
        if w.utxos.contains_key(outpoint) {
            indexing_finds_the_first_index(tree, middle, w.utxos[outpoint].address);
        }
    } else {
        recorded_address_is_signed_for_at_its_index(
            tree,
            w,
            transaction,
            m,
            keys_for(tree, w, transaction, m).0->Ok_0,
            i,
        );
    }
}

/// There is one key for each input.
proof fn lemma_one_key_each<D: Fn(Step) -> Result<Xpriv, DeriveError>>(
    tree: KeyTree<D>,
    w: WalletView,
    transaction: TransactionView,
    n: nat,
)
    requires
        keys_for(tree, w, transaction, n).0 is Ok,
    ensures
        keys_for(tree, w, transaction, n).0->Ok_0.len() == n,
    decreases n,
{
    if n > 0 {
        lemma_one_key_each(tree, w, transaction, (n - 1) as nat);
    }
}

/// What a wallet signs carries one authorization for each input. It holds of the whole
/// transaction, and its key is the one of the coin that the input spends, but for the coins
/// of a swap that a claim spends.
pub proof fn signed_transaction_is_authorized_by_its_owners<
    D: Fn(Step) -> Result<Xpriv, DeriveError>,
>(
    tree: KeyTree<D>,
    w: WalletView,
    transaction: TransactionView,
    keys: Seq<SigningKey>,
    authorizations: Seq<Authorization>,
    i: int,
)
    requires
        follows_from_seed(tree, w),
        keys_for(tree, w, transaction, transaction.inputs.len()).0 == Ok::<
            Seq<SigningKey>,
            Error,
        >(keys),
        all_made_with(authorizations, keys, transaction),
        0 <= i < transaction.inputs.len(),
    ensures
        authorizations.len() == transaction.inputs.len(),
        holds_of(authorizations[i], transaction_bytes(transaction)),
        w.utxos.contains_key(transaction.inputs[i].0),
        point_address(authorizations[i].verifying_key.0@)
            == w.utxos[transaction.inputs[i].0].address || {
            &&& transaction.data is SwapClaim
            &&& w.utxos[transaction.inputs[i].0].content is SwapPending
            &&& !w.address_to_index.contains_key(w.utxos[transaction.inputs[i].0].address)
            &&& w.seed is Some
            &&& tree.address(w.seed->0, 0) == Ok::<Address, DeriveError>(
                point_address(authorizations[i].verifying_key.0@),
            )
        },
{
    each_input_is_signed_for_by_its_owner(
        tree,
        w,
        transaction,
        transaction.inputs.len(),
        keys,
        i,
    );
    assert(made_with(authorizations[i], keys[i], transaction));
    made_authorization_holds(authorizations[i], keys[i], transaction);
}

/// The coin that an input spends cannot be signed for.
pub open spec fn cannot_be_signed_for<D: Fn(Step) -> Result<Xpriv, DeriveError>>(
    tree: KeyTree<D>,
    w: WalletView,
    claims: bool,
    coin: Output,
    error: Error,
) -> bool {
    ||| w.seed is None && error == Error::NoSeed
    ||| {
        &&& w.seed is Some
        &&& !w.address_to_index.contains_key(coin.address)
        &&& !(claims && coin.content is SwapPending)
        &&& error == (Error::AddressNotRecoverable { address: coin.address, max_index: 100_000 })
        &&& forall|j: u32|
            j < 100_000 ==> #[trigger] tree.address(w.seed->0, j) != Ok::<Address, DeriveError>(
                coin.address,
            )
    }
    ||| {
        &&& w.seed is Some
        &&& error is Bip32
        &&& exists|j: u32| #[trigger]
            tree.key(w.seed->0, j) == Err::<SigningKey, DeriveError>(error->Bip32_0)
    }
}

/// A transaction that cannot be signed has a first input that cannot: its coin is not the
/// wallet's, there is no key for it, or the transaction has no encoding.
pub proof fn signing_fails_for_a_reason<D: Fn(Step) -> Result<Xpriv, DeriveError>>(
    tree: KeyTree<D>,
    w: WalletView,
    transaction: TransactionView,
    n: nat,
    error: Error,
)
    requires
        n <= transaction.inputs.len(),
        keys_for(tree, w, transaction, n).0 == Err::<Seq<SigningKey>, Error>(error),
    ensures
        exists|i: int|
            {
                &&& 0 <= i < n
                &&& forall|j: int|
                    0 <= j < i ==> w.utxos.contains_key((#[trigger] transaction.inputs[j]).0)
                &&& {
                    ||| {
                        &&& !w.utxos.contains_key((#[trigger] transaction.inputs[i]).0)
                        &&& error == Error::NoUtxo
                    }
                    ||| {
                        &&& w.utxos.contains_key(transaction.inputs[i].0)
                        &&& cannot_be_signed_for(
                            tree,
                            w,
                            transaction.data is SwapClaim,
                            w.utxos[transaction.inputs[i].0],
                            error,
                        )
                    }
                    ||| {
                        &&& w.utxos.contains_key(transaction.inputs[i].0)
                        &&& !encodable(transaction)
                        &&& error == Error::Authorization(
                            crate::authorization::Error::BorshSerialize(EncodeError::InvalidData),
                        )
                    }
                }
            },
    decreases n,
{
    let m = (n - 1) as nat;
    let before = keys_for(tree, w, transaction, m);
    if before.0 is Err {
        signing_fails_for_a_reason(tree, w, transaction, m, error);
    } else {
        signing_records_spent_addresses_alone(tree, w, transaction, m);
        let middle = before.1;
        let outpoint = transaction.inputs[n - 1].0;
        assert forall|j: int| 0 <= j < m implies w.utxos.contains_key(
            (#[trigger] transaction.inputs[j]).0,
        ) by {
            lemma_coins_before(tree, w, transaction, m, j);
        }
        if w.utxos.contains_key(outpoint) {
            let coin = w.utxos[outpoint];
            indexing_finds_the_first_index(tree, middle, coin.address);
            let made = key_for(tree, middle, transaction.data is SwapClaim, outpoint);
            if made.0 is Err {
                assert(made.0->Err_0 == error);
                let address = coin.address;
                if middle.address_to_index.contains_key(address) {
                    let j = middle.address_to_index[address];
                    assert(tree.key(w.seed->0, j) is Err || w.seed is None);
                } else if !(transaction.data is SwapClaim && coin.content is SwapPending) {
                    assert(!w.address_to_index.contains_key(address));
                    let found = indexed(tree, middle, address);
                    if found.0 is Ok {
                        let j = found.1.address_to_index[address];
                        assert(tree.address(w.seed->0, j) is Ok);
                    }
                } else {
                    assert(tree.key(w.seed->0, 0) is Err || w.seed is None);
                }
                assert(cannot_be_signed_for(
                    tree,
                    w,
                    transaction.data is SwapClaim,
                    coin,
                    error,
                ));
            }
        }
        assert(transaction.inputs[n - 1].0 == outpoint);
    }
}

/// Inputs that have keys spend coins of the wallet.
proof fn lemma_coins_before<D: Fn(Step) -> Result<Xpriv, DeriveError>>(
    tree: KeyTree<D>,
    w: WalletView,
    transaction: TransactionView,
    n: nat,
    j: int,
)
    requires
        keys_for(tree, w, transaction, n).0 is Ok,
        0 <= j < n,
    ensures
        w.utxos.contains_key(transaction.inputs[j].0),
    decreases n,
{
    let m = (n - 1) as nat;
    signing_records_spent_addresses_alone(tree, w, transaction, m);
    if j < m {
        lemma_coins_before(tree, w, transaction, m, j);
    }
}

} // verus!
