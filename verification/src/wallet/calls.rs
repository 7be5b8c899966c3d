//! What calls of a wallet, one after the other, do to its addresses.

use vstd::prelude::*;

use crate::accumulator::Accumulator;
use crate::amount::Amount;
use crate::derivation::{DeriveError, KeyTree, Step, Xpriv};
use crate::types::{
    Address, Digest, InPoint, OutPoint, Output, OutputContent, ParentChainType, SwapId,
    TransactionView, TxDataView,
};

use super::addresses::{
    address_or_new, indexed, is_first_failure, is_first_index, is_search_end, new_address,
    next_index, receive_address, recovery, searched,
};
use super::coins::{may_choose, spent};
use super::laws::{follows_from_seed, spending_moves_outputs};
use super::signing::{key_for, keys_for};
use super::transactions::{
    accepted, funded, is_least_candidate, may_accept, may_fund, may_offer, may_withdraw, offered,
    reservation_made, swap_made, swap_offer, transfer_made, withdrawal_made, withdrawn,
};
use super::{
    empty_with, index_zero_adopted, mnemonic_seed, recorded, seed_set, versioned, Error, Language,
    Version, WalletView,
};

verus! {

/// A call that may change what a wallet stores, with what it depends on.
pub ghost enum Call {
    AdoptIndexZero,
    RecordVersion { version: Version },
    OverwriteSeed { seed: [u8; 64] },
    SetSeed { seed: [u8; 64] },
    SetSeedFromMnemonic { mnemonic: Seq<char> },
    GetNewAddress,
    GetAddressOrNew,
    GetReceiveAddress,
    EnsureAddressIndexed { address: Address },
    /// A search for the addresses of a set that went over the first `n` indices.
    RecoverAddresses { set: Set<Address>, n: nat },
    PutUtxos { utxos: Map<OutPoint, Output> },
    DeleteUtxos { outpoints: Set<OutPoint> },
    SpendUtxos { list: Seq<(OutPoint, InPoint)> },
    /// A transfer that spends the given coins.
    Fund {
        accumulator: Accumulator,
        total: Amount,
        coins: Seq<(OutPoint, Output)>,
        cost: int,
        payments: Seq<Output>,
        data: TxDataView,
    },
    /// A withdrawal that spends the given coins.
    Withdraw {
        accumulator: Accumulator,
        withdrawal: OutputContent,
        total: Amount,
        coins: Seq<(OutPoint, Output)>,
        cost: int,
    },
    /// A swap's creation that spends the given coins.
    OfferSwap {
        accumulator: Accumulator,
        total: Amount,
        coins: Seq<(OutPoint, Output)>,
        cost: int,
        l2_recipient: Option<Address>,
        l2_amount: Amount,
        offer: (TxDataView, Digest),
    },
    /// A reservation that spends the given coin.
    AcceptSwap {
        accumulator: Accumulator,
        swap_id: SwapId,
        l2_claimer_address: Option<Address>,
        fee: Amount,
        coin: (OutPoint, Output),
    },
    KeyForInput { claims: bool, outpoint: OutPoint },
    Authorize { transaction: TransactionView },
}

/// The stores after a call.
pub open spec fn after_call<D: Fn(Step) -> Result<Xpriv, DeriveError>>(
    tree: KeyTree<D>,
    w: WalletView,
    call: Call,
) -> WalletView {
    match call {
        Call::AdoptIndexZero => index_zero_adopted(tree, w).1,
        Call::RecordVersion { version } => versioned(w, version),
        Call::OverwriteSeed { seed } => empty_with(Some(seed), w.version),
        Call::SetSeed { seed } => seed_set(w, seed).1,
        Call::SetSeedFromMnemonic { mnemonic } => match mnemonic_seed(
            mnemonic,
            Language::English,
            ""@,
        ) {
            Ok(seed) => seed_set(w, seed).1,
            Err(_) => w,
        },
        Call::GetNewAddress => new_address(tree, w).1,
        Call::GetAddressOrNew => address_or_new(tree, w).1,
        Call::GetReceiveAddress => receive_address(tree, w).1,
        Call::EnsureAddressIndexed { address } => indexed(tree, w, address).1,
        Call::RecoverAddresses { set, n } => match w.seed {
            Some(seed) => searched(tree, seed, set, w, n).0,
            None => w,
        },
        Call::PutUtxos { utxos } => WalletView {
            utxos: w.utxos.union_prefer_right(utxos),
            ..w
        },
        Call::DeleteUtxos { outpoints } => WalletView {
            utxos: w.utxos.remove_keys(outpoints),
            ..w
        },
        Call::SpendUtxos { list } => spent(w, list),
        Call::Fund { accumulator, total, coins, cost, payments, data } => funded(
            tree,
            w,
            accumulator,
            total,
            coins,
            cost,
            payments,
            data,
        ).1,
        Call::Withdraw { accumulator, withdrawal, total, coins, cost } => withdrawn(
            tree,
            w,
            accumulator,
            withdrawal,
            total,
            coins,
            cost,
        ).1,
        Call::OfferSwap {
            accumulator,
            total,
            coins,
            cost,
            l2_recipient,
            l2_amount,
            offer,
        } => offered(tree, w, accumulator, total, coins, cost, l2_recipient, l2_amount, offer).1,
        Call::AcceptSwap { accumulator, swap_id, l2_claimer_address, fee, coin } => accepted(
            tree,
            w,
            accumulator,
            swap_id,
            l2_claimer_address,
            fee,
            coin,
        ).1,
        Call::KeyForInput { claims, outpoint } => key_for(tree, w, claims, outpoint).1,
        Call::Authorize { transaction } => keys_for(
            tree,
            w,
            transaction,
            transaction.inputs.len(),
        ).1,
    }
}

/// The stores after calls, one after the other.
pub open spec fn after_calls<D: Fn(Step) -> Result<Xpriv, DeriveError>>(
    tree: KeyTree<D>,
    w: WalletView,
    calls: Seq<Call>,
) -> WalletView
    decreases calls.len(),
{
    if calls.len() == 0 {
        w
    } else {
        after_call(tree, after_calls(tree, w, calls.drop_last()), calls.last())
    }
}

/// One call at most leads from one state of the stores to another.
pub open spec fn leads_to<D: Fn(Step) -> Result<Xpriv, DeriveError>>(
    tree: KeyTree<D>,
    w: WalletView,
    after: WalletView,
) -> bool {
    after == w || exists|call: Call| after == #[trigger] after_call(tree, w, call)
}

/// An address is recorded as one of the wallet's exactly where it stands at an index.
pub open spec fn address_maps_agree(w: WalletView) -> bool {
    forall|a: Address| #[trigger]
        w.address_to_index.contains_key(a) <==> w.index_to_address.values().contains(a)
}

/// The two maps of addresses agree, and hold only what follows from the seed.
pub open spec fn addresses_in_step<D: Fn(Step) -> Result<Xpriv, DeriveError>>(
    tree: KeyTree<D>,
    w: WalletView,
) -> bool {
    follows_from_seed(tree, w) && address_maps_agree(w)
}

/// Recording an address where the seed gives it replaces no other address.
pub proof fn recording_keeps_addresses_in_step<D: Fn(Step) -> Result<Xpriv, DeriveError>>(
    tree: KeyTree<D>,
    w: WalletView,
    index: u32,
    address: Address,
)
    requires
        addresses_in_step(tree, w),
        w.seed is Some,
        tree.address(w.seed->0, index) == Ok::<Address, DeriveError>(address),
    ensures
        addresses_in_step(tree, recorded(w, index, address)),
{
    let after = recorded(w, index, address);
    assert forall|a: Address| #[trigger]
        after.address_to_index.contains_key(a) <==> after.index_to_address.values().contains(a) by {
        if after.address_to_index.contains_key(a) {
            if a == address {
                assert(after.index_to_address.dom().contains(index)
                    && after.index_to_address[index] == a);
            } else {
                assert(w.index_to_address.values().contains(a));
                let i = choose|i: u32|
                    w.index_to_address.dom().contains(i) && w.index_to_address[i] == a;
                assert(w.index_to_address.contains_key(i));
                assert(after.index_to_address.dom().contains(i) && after.index_to_address[i] == a);
            }
        }
        if after.index_to_address.values().contains(a) && a != address {
            let i = choose|i: u32|
                after.index_to_address.dom().contains(i) && after.index_to_address[i] == a;
            assert(w.index_to_address.dom().contains(i) && w.index_to_address[i] == a);
            assert(w.index_to_address.values().contains(a));
        }
    }
}

/// Stores that hold nothing are in step.
pub proof fn empty_stores_are_in_step<D: Fn(Step) -> Result<Xpriv, DeriveError>>(
    tree: KeyTree<D>,
    seed: Option<[u8; 64]>,
    version: Option<Version>,
)
    ensures
        addresses_in_step(tree, empty_with(seed, version)),
{
}

proof fn lemma_new_address_in_step<D: Fn(Step) -> Result<Xpriv, DeriveError>>(
    tree: KeyTree<D>,
    w: WalletView,
)
    requires
        addresses_in_step(tree, w),
    ensures
        addresses_in_step(tree, new_address(tree, w).1),
{
    if new_address(tree, w).0 is Ok {
        recording_keeps_addresses_in_step(
            tree,
            w,
            next_index(w.index_to_address) as u32,
            new_address(tree, w).0->Ok_0,
        );
    }
}

proof fn lemma_indexed_in_step<D: Fn(Step) -> Result<Xpriv, DeriveError>>(
    tree: KeyTree<D>,
    w: WalletView,
    address: Address,
)
    requires
        addresses_in_step(tree, w),
    ensures
        addresses_in_step(tree, indexed(tree, w, address).1),
{
    if w.seed is Some && exists|i: u32| is_first_index(tree, w.seed->0, address, i) {
        let index = choose|i: u32| is_first_index(tree, w.seed->0, address, i);
        recording_keeps_addresses_in_step(tree, w, index, address);
    }
}

proof fn lemma_searched_in_step<D: Fn(Step) -> Result<Xpriv, DeriveError>>(
    tree: KeyTree<D>,
    seed: [u8; 64],
    set: Set<Address>,
    w: WalletView,
    n: nat,
)
    requires
        addresses_in_step(tree, w),
        w.seed == Some(seed),
    ensures
        addresses_in_step(tree, searched(tree, seed, set, w, n).0),
        searched(tree, seed, set, w, n).0.seed == w.seed,
    decreases n,
{
    if n > 0 {
        lemma_searched_in_step(tree, seed, set, w, (n - 1) as nat);
        let before = searched(tree, seed, set, w, (n - 1) as nat).0;
        let index = (n - 1) as u32;
        if tree.address(seed, index) is Ok {
            recording_keeps_addresses_in_step(tree, before, index, tree.address(seed, index)->Ok_0);
        }
    }
}

proof fn lemma_key_in_step<D: Fn(Step) -> Result<Xpriv, DeriveError>>(
    tree: KeyTree<D>,
    w: WalletView,
    claims: bool,
    outpoint: OutPoint,
)
    requires
        addresses_in_step(tree, w),
    ensures
        addresses_in_step(tree, key_for(tree, w, claims, outpoint).1),
{
    if w.utxos.contains_key(outpoint) {
        lemma_indexed_in_step(tree, w, w.utxos[outpoint].address);
    }
}

proof fn lemma_keys_in_step<D: Fn(Step) -> Result<Xpriv, DeriveError>>(
    tree: KeyTree<D>,
    w: WalletView,
    transaction: TransactionView,
    n: nat,
)
    requires
        addresses_in_step(tree, w),
    ensures
        addresses_in_step(tree, keys_for(tree, w, transaction, n).1),
    decreases n,
{
    if n > 0 {
        lemma_keys_in_step(tree, w, transaction, (n - 1) as nat);
        let middle = keys_for(tree, w, transaction, (n - 1) as nat).1;
        lemma_key_in_step(
            tree,
            middle,
            transaction.data is SwapClaim,
            transaction.inputs[n - 1].0,
        );
    }
}

/// Every call keeps the addresses in step.
pub proof fn every_call_keeps_addresses_in_step<D: Fn(Step) -> Result<Xpriv, DeriveError>>(
    tree: KeyTree<D>,
    w: WalletView,
    call: Call,
)
    requires
        addresses_in_step(tree, w),
    ensures
        addresses_in_step(tree, after_call(tree, w, call)),
{
    lemma_new_address_in_step(tree, w);
    match call {
        Call::AdoptIndexZero => {
            if w.seed is Some && tree.address(w.seed->0, 0) is Ok {
                recording_keeps_addresses_in_step(
                    tree,
                    w,
                    0,
                    tree.address(w.seed->0, 0)->Ok_0,
                );
            }
        },
        Call::OverwriteSeed { seed } => {
            empty_stores_are_in_step(tree, Some(seed), w.version);
        },
        Call::SetSeed { seed } => {
            empty_stores_are_in_step(tree, Some(seed), w.version);
        },
        Call::SetSeedFromMnemonic { mnemonic } => {
            if let Ok(seed) = mnemonic_seed(mnemonic, Language::English, ""@) {
                empty_stores_are_in_step(tree, Some(seed), w.version);
            }
        },
        Call::EnsureAddressIndexed { address } => {
            lemma_indexed_in_step(tree, w, address);
        },
        Call::RecoverAddresses { set, n } => {
            if let Some(seed) = w.seed {
                lemma_searched_in_step(tree, seed, set, w, n);
            }
        },
        Call::SpendUtxos { list } => {
            spending_moves_outputs(w, list);
        },
        Call::Withdraw { .. } => {
            lemma_new_address_in_step(tree, new_address(tree, w).1);
        },
        Call::KeyForInput { claims, outpoint } => {
            lemma_key_in_step(tree, w, claims, outpoint);
        },
        Call::Authorize { transaction } => {
            lemma_keys_in_step(tree, w, transaction, transaction.inputs.len());
        },
        _ => {},
    }
}

/// However a wallet is used from the start, `has_address` and `get_addresses` agree: an
/// address is recorded as one of the wallet's exactly where it stands at an index.
pub proof fn address_maps_always_agree<D: Fn(Step) -> Result<Xpriv, DeriveError>>(
    tree: KeyTree<D>,
    calls: Seq<Call>,
)
    ensures
        address_maps_agree(after_calls(tree, empty_with(None, None), calls)),
        addresses_in_step(tree, after_calls(tree, empty_with(None, None), calls)),
    decreases calls.len(),
{
    if calls.len() > 0 {
        address_maps_always_agree(tree, calls.drop_last());
        every_call_keeps_addresses_in_step(
            tree,
            after_calls(tree, empty_with(None, None), calls.drop_last()),
            calls.last(),
        );
    }
}

/// The making of a withdrawal is such a call, whichever coins it spends.
pub proof fn making_a_withdrawal_is_a_call<
    D: Fn(Step) -> Result<Xpriv, DeriveError>,
    F: Fn(&OutPoint) -> bool,
>(
    tree: KeyTree<D>,
    w: WalletView,
    accumulator: Accumulator,
    withdrawal: OutputContent,
    cost: int,
    is_locked: F,
    result: Option<Result<TransactionView, Error>>,
    after: WalletView,
)
    requires
        withdrawal_made(tree, w, accumulator, withdrawal, cost, is_locked, result, after),
    ensures
        leads_to(tree, w, after),
{
    if after != w {
        let choice = choose|choice: Result<(Amount, Seq<(OutPoint, Output)>), Error>| #[trigger]
            may_choose(w.utxos, is_locked, Amount { sats: cost as u64 }, choice) && choice is Ok
                && may_withdraw(tree, w, accumulator, choice->Ok_0.1) && after == withdrawn(
                tree,
                w,
                accumulator,
                withdrawal,
                choice->Ok_0.0,
                choice->Ok_0.1,
                cost,
            ).1;
        let (total, coins) = choice->Ok_0;
        let call = Call::Withdraw { accumulator, withdrawal, total, coins, cost };
        assert(after == after_call(tree, w, call));
    }
}

/// The making of a transfer is such a call, whichever coins it spends.
pub proof fn making_a_transfer_is_a_call<
    D: Fn(Step) -> Result<Xpriv, DeriveError>,
    F: Fn(&OutPoint) -> bool,
>(
    tree: KeyTree<D>,
    w: WalletView,
    accumulator: Accumulator,
    payments: Seq<Output>,
    cost: int,
    is_locked: F,
    result: Option<Result<TransactionView, Error>>,
    after: WalletView,
)
    requires
        transfer_made(tree, w, accumulator, payments, cost, is_locked, result, after),
    ensures
        leads_to(tree, w, after),
{
    if after != w {
        let data = TxDataView::Regular;
        let choice = choose|choice: Result<(Amount, Seq<(OutPoint, Output)>), Error>| #[trigger]
            may_choose(w.utxos, is_locked, Amount { sats: cost as u64 }, choice) && choice is Ok
                && may_fund(w, accumulator, choice->Ok_0.1) && after == funded(
                tree,
                w,
                accumulator,
                choice->Ok_0.0,
                choice->Ok_0.1,
                cost,
                payments,
                data,
            ).1;
        let (total, coins) = choice->Ok_0;
        let call = Call::Fund { accumulator, total, coins, cost, payments, data };
        assert(after == after_call(tree, w, call));
    }
}

/// The creation of a swap is such a call, whichever coins it spends.
pub proof fn making_a_swap_is_a_call<
    D: Fn(Step) -> Result<Xpriv, DeriveError>,
    F: Fn(&OutPoint) -> bool,
>(
    tree: KeyTree<D>,
    w: WalletView,
    accumulator: Accumulator,
    parent_chain: ParentChainType,
    l1_recipient_address: Seq<char>,
    l1_amount: Amount,
    l2_recipient: Option<Address>,
    l2_amount: Amount,
    required_confirmations: Option<u32>,
    fee: Amount,
    is_locked: F,
    result: Option<Result<(TransactionView, Digest), Error>>,
    after: WalletView,
)
    requires
        swap_made(
            tree,
            w,
            accumulator,
            parent_chain,
            l1_recipient_address,
            l1_amount,
            l2_recipient,
            l2_amount,
            required_confirmations,
            fee,
            is_locked,
            result,
            after,
        ),
    ensures
        leads_to(tree, w, after),
{
    if after != w {
        let cost = l2_amount.sats + fee.sats;
        let choice = choose|choice: Result<(Amount, Seq<(OutPoint, Output)>), Error>| #[trigger]
            may_choose(w.utxos, is_locked, Amount { sats: cost as u64 }, choice) && choice is Ok
                && may_offer(w, accumulator, choice->Ok_0.1) && after == offered(
                tree,
                w,
                accumulator,
                choice->Ok_0.0,
                choice->Ok_0.1,
                cost,
                l2_recipient,
                l2_amount,
                swap_offer(
                    parent_chain,
                    l1_recipient_address,
                    l1_amount,
                    l2_recipient,
                    l2_amount,
                    required_confirmations,
                    choice->Ok_0.1[0].1.address,
                ),
            ).1;
        let (total, coins) = choice->Ok_0;
        let offer = swap_offer(
            parent_chain,
            l1_recipient_address,
            l1_amount,
            l2_recipient,
            l2_amount,
            required_confirmations,
            coins[0].1.address,
        );
        let call = Call::OfferSwap {
            accumulator,
            total,
            coins,
            cost,
            l2_recipient,
            l2_amount,
            offer,
        };
        assert(after == after_call(tree, w, call));
    }
}

/// The making of a reservation is such a call, whatever `is_locked` answers.
pub proof fn making_a_reservation_is_a_call<D: Fn(Step) -> Result<Xpriv, DeriveError>>(
    tree: KeyTree<D>,
    w: WalletView,
    accumulator: Accumulator,
    swap_id: SwapId,
    l2_claimer_address: Option<Address>,
    fee: Amount,
    locked: Map<OutPoint, bool>,
    result: Option<Result<TransactionView, Error>>,
    after: WalletView,
)
    requires
        reservation_made(
            tree,
            w,
            accumulator,
            swap_id,
            l2_claimer_address,
            fee,
            locked,
            result,
            after,
        ),
    ensures
        leads_to(tree, w, after),
{
    if after != w {
        let o = choose|o: OutPoint| #[trigger]
            is_least_candidate(w.utxos, locked, l2_claimer_address, fee, o) && may_accept(
                w,
                accumulator,
                fee,
                (o, w.utxos[o]),
            ) && after == accepted(
                tree,
                w,
                accumulator,
                swap_id,
                l2_claimer_address,
                fee,
                (o, w.utxos[o]),
            ).1;
        let coin = (o, w.utxos[o]);
        let call = Call::AcceptSwap { accumulator, swap_id, l2_claimer_address, fee, coin };
        assert(after == after_call(tree, w, call));
    }
}

/// A search for the addresses of a set is such a call, however far it goes.
pub proof fn recovering_is_a_call<D: Fn(Step) -> Result<Xpriv, DeriveError>>(
    tree: KeyTree<D>,
    w: WalletView,
    set: Set<Address>,
    result: Result<usize, Error>,
    after: WalletView,
)
    requires
        recovery(tree, w, set, result, after),
    ensures
        leads_to(tree, w, after),
{
    if let Some(seed) = w.seed {
        if set.len() > 0 {
            let n = if result is Ok {
                choose|n: int| #[trigger]
                    is_search_end(tree, seed, set, n) && after == searched(
                        tree,
                        seed,
                        set,
                        w,
                        n as nat,
                    ).0
            } else {
                choose|n: int| #[trigger]
                    is_first_failure(tree, seed, set, n) && after == searched(
                        tree,
                        seed,
                        set,
                        w,
                        n as nat,
                    ).0
            };
            let call = Call::RecoverAddresses { set, n: n as nat };
            assert(after == after_call(tree, w, call));
        }
    }
}

} // verus!
