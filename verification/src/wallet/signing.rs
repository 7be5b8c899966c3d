//! Signing the wallet's transactions.

use vstd::prelude::*;

use crate::authorization::{
    authorized, items_for, made_with, messages_of, sign, Authorization, AuthorizedTransaction,
    Signature,
};
use crate::derivation::{DeriveError, KeyTree, Step, Xpriv};
use crate::encoding::{encodable, EncodeError};
use crate::keys::SigningKey;
use crate::types::{OutPoint, Output, Transaction, TransactionView, TxData};

use super::addresses::indexed;
use super::{key_at, Error, Wallet, WalletView};

verus! {

/// The key that signs for the coin at an outpoint: that of the coin's address, which
/// is first recorded where it is not. Of a claim, an input that belongs to a swap and
/// is not the wallet's own is signed for with the key with index 0.
pub open spec fn key_for<D: Fn(Step) -> Result<Xpriv, DeriveError>>(
    tree: KeyTree<D>,
    w: WalletView,
    claims: bool,
    outpoint: OutPoint,
) -> (Result<SigningKey, Error>, WalletView) {
    if !w.utxos.contains_key(outpoint) {
        (Err(Error::NoUtxo), w)
    } else {
        let output = w.utxos[outpoint];
        if w.address_to_index.contains_key(output.address) {
            (key_at(tree, w, w.address_to_index[output.address]), w)
        } else if claims && output.content is SwapPending {
            (key_at(tree, w, 0), w)
        } else {
            match indexed(tree, w, output.address) {
                (Err(error), after) => (Err(error), after),
                (Ok(_), after) => (
                    key_at(tree, after, after.address_to_index[output.address]),
                    after,
                ),
            }
        }
    }
}

/// The keys that sign for the first `n` inputs of a transaction. The first input for
/// which there is no key is an error, and so is a transaction that has an input but
/// no encoding.
pub open spec fn keys_for<D: Fn(Step) -> Result<Xpriv, DeriveError>>(
    tree: KeyTree<D>,
    w: WalletView,
    transaction: TransactionView,
    n: nat,
) -> (Result<Seq<SigningKey>, Error>, WalletView)
    decreases n,
{
    if n == 0 {
        (Ok(Seq::empty()), w)
    } else {
        match keys_for(tree, w, transaction, (n - 1) as nat) {
            (Err(error), after) => (Err(error), after),
            (Ok(keys), middle) => match key_for(
                tree,
                middle,
                transaction.data is SwapClaim,
                transaction.inputs[n - 1].0,
            ) {
                (Err(error), after) => (Err(error), after),
                (Ok(key), after) => if encodable(transaction) {
                    (Ok(keys.push(key)), after)
                } else {
                    (
                        Err(
                            Error::Authorization(
                                crate::authorization::Error::BorshSerialize(EncodeError::InvalidData),
                            ),
                        ),
                        after,
                    )
                },
            },
        }
    }
}

/// A failure at one input is the failure of the whole.
proof fn lemma_failure_stays<D: Fn(Step) -> Result<Xpriv, DeriveError>>(
    tree: KeyTree<D>,
    w: WalletView,
    transaction: TransactionView,
    n: nat,
    m: nat,
)
    requires
        n <= m,
        keys_for(tree, w, transaction, n).0 is Err,
    ensures
        keys_for(tree, w, transaction, m).0 is Err,
        keys_for(tree, w, transaction, m).0->Err_0 == keys_for(tree, w, transaction, n).0->Err_0,
        keys_for(tree, w, transaction, m).1 == keys_for(tree, w, transaction, n).1,
    decreases m,
{
    if n < m {
        lemma_failure_stays(tree, w, transaction, n, (m - 1) as nat);
    }
}

/// Each authorization is made with its key.
pub open spec fn all_made_with(
    authorizations: Seq<Authorization>,
    keys: Seq<SigningKey>,
    transaction: TransactionView,
) -> bool {
    &&& authorizations.len() == keys.len()
    &&& forall|i: int|
        0 <= i < keys.len() ==> made_with(#[trigger] authorizations[i], keys[i], transaction)
}

impl<D: Fn(Step) -> Result<Xpriv, DeriveError>> Wallet<D> {
    /// The key that signs for the coin at an outpoint.
    pub fn key_for_input(&mut self, claims: bool, outpoint: &OutPoint) -> (result: Result<
        SigningKey,
        Error,
    >)
        ensures
            final(self).tree == old(self).tree,
            (result, final(self)@) == key_for(old(self).tree, old(self)@, claims, *outpoint),
    {
        let output: Output = match self.tables.utxos.get(outpoint) {
            Some(output) => *output,
            None => {
                return Err(Error::NoUtxo);
            },
        };
        let found: Option<u32> = match self.tables.address_to_index.get(&output.address) {
            Some(index) => Some(*index),
            None => None,
        };
        if let Some(index) = found {
            return self.get_signing_key(index);
        }
        if claims && output.content.is_swap_pending() {
            return self.get_signing_key(0);
        }
        if let Err(error) = self.ensure_address_indexed(&output.address) {
            return Err(error);
        }
        match self.tables.address_to_index.get(&output.address) {
            Some(index) => self.get_signing_key(*index),
            None => {
                assert(false);
                Err(Error::NoIndex { address: output.address })
            },
        }
    }

    /// Signs a transaction, once for each of its inputs.
    pub fn authorize(
        &mut self,
        rng: &mut rand_chacha::ChaCha20Rng,
        transaction: Transaction,
    ) -> (result: Result<AuthorizedTransaction, Error>)
        ensures
            final(self).tree == old(self).tree,
            final(self)@ == keys_for(
                old(self).tree,
                old(self)@,
                transaction@,
                transaction.inputs@.len(),
            ).1,
            match (result, keys_for(
                old(self).tree,
                old(self)@,
                transaction@,
                transaction.inputs@.len(),
            ).0) {
                (Ok(a), Ok(keys)) => a.transaction == transaction && all_made_with(
                    a.authorizations@,
                    keys,
                    transaction@,
                ),
                (Err(e), Err(error)) => e == error,
                _ => false,
            },
            result is Ok ==> result->Ok_0.authorizations@.len() == transaction.inputs@.len(),
            result is Ok && transaction.inputs@.len() > 0 ==> authorized(
                transaction@,
                result->Ok_0.authorizations@,
            ),
    {
        let claims: bool = match transaction.data {
            TxData::SwapClaim { .. } => true,
            _ => false,
        };
        let ghost tree = self.tree;
        let ghost before = self@;
        let ghost mut keys: Seq<SigningKey> = Seq::empty();
        let ghost n = transaction.inputs@.len();
        let mut authorizations: Vec<Authorization> = Vec::new();
        let mut i: usize = 0;
        while i < transaction.inputs.len()
            invariant
                i <= transaction.inputs@.len(),
                n == transaction.inputs@.len(),
                tree == old(self).tree,
                before == old(self)@,
                self.tree == tree,
                claims == (transaction@.data is SwapClaim),
                keys.len() == i,
                i > 0 ==> encodable(transaction@),
                keys_for(tree, before, transaction@, i as nat) == (
                    Ok::<Seq<SigningKey>, Error>(keys),
                    self@,
                ),
                all_made_with(authorizations@, keys, transaction@),
            decreases transaction.inputs@.len() - i,
        {
            let outpoint: OutPoint = transaction.inputs[i].0;
            let signing_key: SigningKey = match self.key_for_input(claims, &outpoint) {
                Ok(key) => key,
                Err(error) => {
                    proof {
                        assert(keys_for(tree, before, transaction@, (i + 1) as nat) == (
                            Err::<Seq<SigningKey>, Error>(error),
                            self@,
                        ));
                        lemma_failure_stays(tree, before, transaction@, (i + 1) as nat, n);
                    }
                    return Err(error);
                },
            };
            let signature: Signature = match sign(rng, &signing_key, &transaction) {
                Ok(signature) => signature,
                Err(error) => {
                    proof {
                        assert(keys_for(tree, before, transaction@, (i + 1) as nat) == (
                            Err::<Seq<SigningKey>, Error>(Error::Authorization(error)),
                            self@,
                        ));
                        lemma_failure_stays(tree, before, transaction@, (i + 1) as nat, n);
                    }
                    return Err(Error::Authorization(error));
                },
            };
            authorizations.push(
                Authorization { verifying_key: signing_key.verifying_key(), signature },
            );
            proof {
                assert(keys_for(tree, before, transaction@, (i + 1) as nat) == (
                    Ok::<Seq<SigningKey>, Error>(keys.push(signing_key)),
                    self@,
                ));
                keys = keys.push(signing_key);
            }
            i = i + 1;
        }
        proof {
            let items = items_for(authorizations@, messages_of(transaction@));
            if n > 0 {
                assert forall|j: int| 0 <= j < items.len() implies (
                #[trigger] items[j]).holds() by {
                    assert(made_with(authorizations@[j], keys[j], transaction@));
                }
            }
        }
        Ok(AuthorizedTransaction { transaction, authorizations })
    }
}

} // verus!
