//! When a transaction is refused, said of the coins that were chosen for it.

use vstd::prelude::*;

use crate::accumulator::{Accumulator, UtreexoError};
use crate::amount::Amount;
use crate::derivation::{DeriveError, KeyTree, Step, Xpriv};
use crate::encoding::{encodable, pointed_output_bytes};
use crate::hashing::blake3_hash;
use crate::types::{
    Address, Digest, OutPoint, Output, OutputContent, ParentChainType, SwapId, TransactionView,
    TxDataView,
};

use super::addresses::indexed;
use super::coins::may_choose;
use super::laws::{follows_from_seed, signing_follows_from_seed};
use super::outcomes::{can_reserve, lemma_provable, sats};
use super::records::indexing_finds_the_first_index;
use super::signing::keys_for;
use super::transactions::{
    accepted, funded, is_candidate, is_least_candidate, may_accept, may_fund, may_offer,
    may_withdraw, offered, possible, reservation_made, swap_made, swap_offer, transfer_made,
    withdrawal_made, withdrawn,
};
use super::{Error, WalletView};

verus! {

/// The hash of each coin is in the set of unspent outputs.
pub open spec fn all_unspent(accumulator: Accumulator, coins: Seq<(OutPoint, Output)>) -> bool {
    forall|i: int|
        0 <= i < coins.len() ==> accumulator.leaves().contains(
            blake3_hash(pointed_output_bytes((#[trigger] coins[i]).0, coins[i].1)),
        )
}

/// The error that was given, if one was.
pub open spec fn refusal<T>(result: Option<Result<T, Error>>) -> Option<Error> {
    match result {
        Some(Err(error)) => Some(error),
        _ => None,
    }
}

/// The choice of coins settles the outcome. Where there is none, its error is given. Where
/// one of the chosen coins is not in the set of unspent outputs, that is the error. Either
/// way nothing changes. Otherwise it is not for the coins that anything is refused.
pub open spec fn is_settled_by_the_coins<F: Fn(&OutPoint) -> bool>(
    utxos: Map<OutPoint, Output>,
    accumulator: Accumulator,
    is_locked: F,
    cost: int,
    refused: Option<Error>,
    unchanged: bool,
) -> bool {
    exists|choice: Result<(Amount, Seq<(OutPoint, Output)>), Error>|
        {
            &&& #[trigger] may_choose(utxos, is_locked, Amount { sats: cost as u64 }, choice)
            &&& match choice {
                Err(error) => refused == Some(error) && unchanged,
                Ok((_, coins)) => if all_unspent(accumulator, coins) {
                    refused is Some ==> refused->0 is NoSeed || refused->0 is Bip32
                } else {
                    refused == Some(Error::Utreexo(UtreexoError)) && unchanged
                },
            }
        }
}

/// A transfer is refused for its coins exactly where they cannot be chosen, or where one of
/// the chosen ones is not in the set of unspent outputs.
pub proof fn transfer_is_settled_by_its_coins<
    D: Fn(Step) -> Result<Xpriv, DeriveError>,
    F: Fn(&OutPoint) -> bool,
>(
    tree: KeyTree<D>,
    w: WalletView,
    accumulator: Accumulator,
    payments: Seq<Output>,
    cost: int,
    is_locked: F,
    result: Option<Result<TransactionView, Error>>,
    after: WalletView,
)
    requires
        0 <= cost <= u64::MAX,
        transfer_made(tree, w, accumulator, payments, cost, is_locked, result, after),
    ensures
        is_settled_by_the_coins(
            w.utxos,
            accumulator,
            is_locked,
            cost,
            refusal(result),
            after == w,
        ),
{
    let choice = choose|choice: Result<(Amount, Seq<(OutPoint, Output)>), Error>| #[trigger]
        may_choose(w.utxos, is_locked, Amount { sats: cost as u64 }, choice) && (result, after)
            == match choice {
            Err(error) => (Some(Err(error)), w),
            Ok((total, coins)) => if may_fund(w, accumulator, coins) {
                possible(
                    funded(
                        tree,
                        w,
                        accumulator,
                        total,
                        coins,
                        cost,
                        payments,
                        TxDataView::Regular,
                    ),
                )
            } else {
                (None, w)
            },
        };
    if choice is Ok {
        lemma_provable(accumulator, choice->Ok_0.1);
    }
    assert(may_choose(w.utxos, is_locked, Amount { sats: cost as u64 }, choice));
}

/// A withdrawal is refused for its coins exactly where they cannot be chosen, or where one
/// of the chosen ones is not in the set of unspent outputs.
pub proof fn withdrawal_is_settled_by_its_coins<
    D: Fn(Step) -> Result<Xpriv, DeriveError>,
    F: Fn(&OutPoint) -> bool,
>(
    tree: KeyTree<D>,
    w: WalletView,
    accumulator: Accumulator,
    withdrawal: OutputContent,
    cost: int,
    is_locked: F,
    result: Option<Result<TransactionView, Error>>,
    after: WalletView,
)
    requires
        0 <= cost <= u64::MAX,
        withdrawal_made(tree, w, accumulator, withdrawal, cost, is_locked, result, after),
    ensures
        is_settled_by_the_coins(
            w.utxos,
            accumulator,
            is_locked,
            cost,
            refusal(result),
            after == w,
        ),
{
    let choice = choose|choice: Result<(Amount, Seq<(OutPoint, Output)>), Error>| #[trigger]
        may_choose(w.utxos, is_locked, Amount { sats: cost as u64 }, choice) && (result, after)
            == match choice {
            Err(error) => (Some(Err(error)), w),
            Ok((total, coins)) => if may_withdraw(tree, w, accumulator, coins) {
                possible(withdrawn(tree, w, accumulator, withdrawal, total, coins, cost))
            } else {
                (None, w)
            },
        };
    if choice is Ok {
        lemma_provable(accumulator, choice->Ok_0.1);
    }
    assert(may_choose(w.utxos, is_locked, Amount { sats: cost as u64 }, choice));
}

/// The creation of a swap that costs something is refused for its coins exactly where they
/// cannot be chosen, or where one of the chosen ones is not in the set of unspent outputs.
pub proof fn swap_is_settled_by_its_coins<
    D: Fn(Step) -> Result<Xpriv, DeriveError>,
    F: Fn(&OutPoint) -> bool,
>(
    tree: KeyTree<D>,
    w: WalletView,
    accumulator: Accumulator,
    parent_chain: ParentChainType,
    l1_recipient_address: Seq<char>,
    l1_amount: Amount,
    l2_recipient: Option<Address>,
    l2_amount: Amount,
    required_confirmations: Option<u32>,
    fee: Amount,
    is_locked: F,
    result: Option<Result<(TransactionView, Digest), Error>>,
    after: WalletView,
)
    requires
        0 < l2_amount.sats + fee.sats <= u64::MAX,
        swap_made(
            tree,
            w,
            accumulator,
            parent_chain,
            l1_recipient_address,
            l1_amount,
            l2_recipient,
            l2_amount,
            required_confirmations,
            fee,
            is_locked,
            result,
            after,
        ),
    ensures
        is_settled_by_the_coins(
            w.utxos,
            accumulator,
            is_locked,
            l2_amount.sats + fee.sats,
            refusal(result),
            after == w,
        ),
{
    let cost = l2_amount.sats + fee.sats;
    let choice = choose|choice: Result<(Amount, Seq<(OutPoint, Output)>), Error>| #[trigger]
        may_choose(w.utxos, is_locked, Amount { sats: cost as u64 }, choice) && (result, after)
            == match choice {
            Err(error) => (Some(Err(error)), w),
            Ok((total, coins)) => if may_offer(w, accumulator, coins) {
                possible(
                    offered(
                        tree,
                        w,
                        accumulator,
                        total,
                        coins,
                        cost,
                        l2_recipient,
                        l2_amount,
                        swap_offer(
                            parent_chain,
                            l1_recipient_address,
                            l1_amount,
                            l2_recipient,
                            l2_amount,
                            required_confirmations,
                            coins[0].1.address,
                        ),
                    ),
                )
            } else {
                (None, w)
            },
        };
    if choice is Ok {
        let (total, coins) = choice->Ok_0;
        lemma_provable(accumulator, coins);
        super::records::selection_of_something_takes_a_coin(w.utxos, is_locked, cost, total, coins);
    }
    assert(may_choose(w.utxos, is_locked, Amount { sats: cost as u64 }, choice));
}

/// A reservation that finds a coin is refused for it exactly where the smallest coin that
/// it could spend is not in the set of unspent outputs.
pub proof fn reservation_is_settled_by_the_smallest_coin<
    D: Fn(Step) -> Result<Xpriv, DeriveError>,
>(
    tree: KeyTree<D>,
    w: WalletView,
    accumulator: Accumulator,
    swap_id: SwapId,
    l2_claimer_address: Option<Address>,
    fee: Amount,
    locked: Map<OutPoint, bool>,
    candidate: OutPoint,
    result: Option<Result<TransactionView, Error>>,
    after: WalletView,
)
    requires
        w.utxos.contains_key(candidate),
        !locked[candidate],
        can_reserve(w.utxos[candidate], l2_claimer_address, fee),
        reservation_made(
            tree,
            w,
            accumulator,
            swap_id,
            l2_claimer_address,
            fee,
            locked,
            result,
            after,
        ),
    ensures
        exists|o: OutPoint|
            {
                &&& #[trigger] w.utxos.contains_key(o)
                &&& !locked[o]
                &&& can_reserve(w.utxos[o], l2_claimer_address, fee)
                &&& forall|p: OutPoint| #[trigger]
                    w.utxos.contains_key(p) && !locked[p] && can_reserve(
                        w.utxos[p],
                        l2_claimer_address,
                        fee,
                    ) ==> sats(w.utxos[o]) <= sats(w.utxos[p])
                &&& if accumulator.leaves().contains(
                    blake3_hash(pointed_output_bytes(o, w.utxos[o])),
                ) {
                    refusal(result) is Some ==> refusal(result)->0 is NoSeed || refusal(
                        result,
                    )->0 is Bip32
                } else {
                    refusal(result) == Some(Error::Utreexo(UtreexoError)) && after == w
                }
            },
{
    assert(is_candidate(w.utxos, locked, l2_claimer_address, fee, candidate));
    let o = choose|o: OutPoint| #[trigger]
        is_least_candidate(w.utxos, locked, l2_claimer_address, fee, o) && (result, after)
            == if may_accept(w, accumulator, fee, (o, w.utxos[o])) {
            possible(
                accepted(
                    tree,
                    w,
                    accumulator,
                    swap_id,
                    l2_claimer_address,
                    fee,
                    (o, w.utxos[o]),
                ),
            )
        } else {
            (None, w)
        };
    let coins = seq![(o, w.utxos[o])];
    lemma_provable(accumulator, coins);
    assert(coins[0] == (o, w.utxos[o]));
    if accumulator.leaves().contains(blake3_hash(pointed_output_bytes(o, w.utxos[o]))) {
        assert(all_unspent(accumulator, coins));
    } else {
        assert(!all_unspent(accumulator, coins));
    }
    assert forall|p: OutPoint| #[trigger]
        w.utxos.contains_key(p) && !locked[p] && can_reserve(
            w.utxos[p],
            l2_claimer_address,
            fee,
        ) implies sats(w.utxos[o]) <= sats(w.utxos[p]) by {
        assert(is_candidate(w.utxos, locked, l2_claimer_address, fee, p));
    }
    assert(w.utxos.contains_key(o));
}

/// A wallet signs any transaction that has an encoding and spends coins of addresses that
/// it has recorded or can recover. Of a claim, it also signs for the coins of a swap.
pub proof fn recoverable_coins_can_be_signed_for<D: Fn(Step) -> Result<Xpriv, DeriveError>>(
    tree: KeyTree<D>,
    w: WalletView,
    transaction: TransactionView,
    n: nat,
)
    requires
        follows_from_seed(tree, w),
        w.seed is Some,
        n <= transaction.inputs.len(),
        encodable(transaction),
        forall|i: int|
            0 <= i < n ==> w.utxos.contains_key((#[trigger] transaction.inputs[i]).0) && (
            w.address_to_index.contains_key(w.utxos[transaction.inputs[i].0].address)
                || if transaction.data is SwapClaim
                && w.utxos[transaction.inputs[i].0].content is SwapPending {
                tree.key(w.seed->0, 0) is Ok
            } else {
                is_recoverable(tree, w, w.utxos[transaction.inputs[i].0].address)
            }),
    ensures
        keys_for(tree, w, transaction, n).0 is Ok,
    decreases n,
{
    if n > 0 {
        let m = (n - 1) as nat;
        recoverable_coins_can_be_signed_for(tree, w, transaction, m);
        signing_follows_from_seed(tree, w, transaction, m);
        super::signers::signing_records_spent_addresses_alone(tree, w, transaction, m);
        let middle = keys_for(tree, w, transaction, m).1;
        let outpoint = transaction.inputs[n - 1].0;
        assert(w.utxos.contains_key(outpoint));
        let address = w.utxos[outpoint].address;
        if middle.address_to_index.contains_key(address) {
            assert(tree.address(w.seed->0, middle.address_to_index[address]) is Ok);
        } else if !(transaction.data is SwapClaim && w.utxos[outpoint].content is SwapPending) {
            indexing_finds_the_first_index(tree, middle, address);
            let j = choose|j: u32|
                j < 100_000 && #[trigger] tree.address(w.seed->0, j) == Ok::<Address, DeriveError>(
                    address,
                );
            assert(tree.address(w.seed->0, j) == Ok::<Address, DeriveError>(address));
            let after = indexed(tree, middle, address).1;
            let i = choose|i: u32|
                i < 100_000 && #[trigger] tree.address(w.seed->0, i) == Ok::<Address, DeriveError>(
                    address,
                ) && after.address_to_index == middle.address_to_index.insert(address, i)
                    && after.seed == w.seed;
            assert(after.address_to_index[address] == i);
        }
    }
}

/// The seed gives the address at one of the first hundred thousand indices.
pub open spec fn is_recoverable<D: Fn(Step) -> Result<Xpriv, DeriveError>>(
    tree: KeyTree<D>,
    w: WalletView,
    address: Address,
) -> bool {
    exists|j: u32|
        j < 100_000 && #[trigger] tree.address(w.seed->0, j) == Ok::<Address, DeriveError>(address)
}

} // verus!
