//! The transactions that the wallet makes.

use vstd::prelude::*;

use crate::accumulator::{forest_proof, provable, Accumulator, UtreexoError};
use crate::amount::{Amount, AmountOverflowError};
use crate::derivation::{DeriveError, KeyTree, Step, Xpriv};
use crate::encoding::swap_bytes;
use crate::hashing::{blake3_hash, utxo_hash, PointedOutput};
use crate::table::{keys_distinct, lemma_map_len, lemma_row_in_map, map_of, Table};
use crate::types::{
    value_of, Address, Digest, GetValue, MainAddress, OutPoint, Output, OutputContent,
    ParentChainType, Proof, ProofView, SwapId, Transaction, TransactionView, TxData, TxDataView,
};

use super::addresses::{
    is_last, lemma_last_index, lemma_new_address_is_last, new_address, next_index,
};
use super::coins::{
    choice_view, coin_choice, is_shortest, lemma_sum_next, may_choose, spendable, worth,
};
use super::{address_at, Error, Wallet, WalletView};

verus! {

/// The inputs that spend coins: each coin's outpoint with the coin's hash.
pub open spec fn inputs_of(coins: Seq<(OutPoint, Output)>) -> Seq<(OutPoint, Digest)> {
    Seq::new(coins.len(), |i: int| (coins[i].0, utxo_hash(coins[i].0, coins[i].1)))
}

/// The hashes of inputs.
pub open spec fn hashes_of(inputs: Seq<(OutPoint, Digest)>) -> Seq<Digest> {
    Seq::new(inputs.len(), |i: int| inputs[i].1)
}

/// The proof that inputs are unspent, unless one is not.
pub open spec fn proof_of(accumulator: Accumulator, inputs: Seq<(OutPoint, Digest)>) -> Result<
    ProofView,
    Error,
> {
    if provable(accumulator.leaves(), hashes_of(inputs)) {
        Ok(forest_proof(accumulator.history(), hashes_of(inputs)))
    } else {
        Err(Error::Utreexo(UtreexoError))
    }
}

/// The output that pays `sats` to an address.
pub open spec fn payment(address: Address, sats: int) -> Output {
    Output { address, content: OutputContent::Value(Amount { sats: sats as u64 }) }
}

/// A made transaction as a mathematical value.
pub open spec fn made(result: Result<Transaction, Error>) -> Result<TransactionView, Error> {
    match result {
        Ok(transaction) => Ok(transaction@),
        Err(error) => Err(error),
    }
}

/// A transaction, made if an index was left for each address it needed, as a
/// mathematical value.
pub open spec fn made_if_possible(result: Option<Result<Transaction, Error>>) -> Option<
    Result<TransactionView, Error>,
> {
    match result {
        Some(result) => Some(made(result)),
        None => None,
    }
}

/// What came of a transaction that could be made, and the stores behind it.
pub open spec fn possible<T>(outcome: (Result<T, Error>, WalletView)) -> (
    Option<Result<T, Error>>,
    WalletView,
) {
    (Some(outcome.0), outcome.1)
}

/// The change of a transaction that spends coins can be paid to a new address: an
/// index is left for it, or the coins cannot be proven, so that none is needed.
pub open spec fn may_fund(
    w: WalletView,
    accumulator: Accumulator,
    coins: Seq<(OutPoint, Output)>,
) -> bool {
    proof_of(accumulator, inputs_of(coins)) is Ok ==> next_index(w.index_to_address) <= u32::MAX
}

/// Indices are left for the addresses that a withdrawal of coins needs: none where the
/// coins cannot be proven, and a second one only where the first address can be made.
pub open spec fn may_withdraw<D: Fn(Step) -> Result<Xpriv, DeriveError>>(
    tree: KeyTree<D>,
    w: WalletView,
    accumulator: Accumulator,
    coins: Seq<(OutPoint, Output)>,
) -> bool {
    let next = next_index(w.index_to_address);
    proof_of(accumulator, inputs_of(coins)) is Ok ==> next <= u32::MAX && (address_at(
        tree,
        w,
        next as u32,
    ) is Ok ==> next < u32::MAX)
}

/// An index is left for the address that a reservation needs: none where the coin
/// cannot be proven, or where the fee takes all of it.
pub open spec fn may_accept(
    w: WalletView,
    accumulator: Accumulator,
    fee: Amount,
    coin: (OutPoint, Output),
) -> bool {
    value_of(coin.1).sats > fee.sats ==> may_fund(w, accumulator, seq![coin])
}

/// A transaction that spends coins worth `total` on `payments`, of which `cost` is the
/// worth together with the fee, and pays the change to a new address.
pub open spec fn funded<D: Fn(Step) -> Result<Xpriv, DeriveError>>(
    tree: KeyTree<D>,
    w: WalletView,
    accumulator: Accumulator,
    total: Amount,
    coins: Seq<(OutPoint, Output)>,
    cost: int,
    payments: Seq<Output>,
    data: TxDataView,
) -> (Result<TransactionView, Error>, WalletView) {
    let inputs = inputs_of(coins);
    match proof_of(accumulator, inputs) {
        Err(error) => (Err(error), w),
        Ok(proven) => match new_address(tree, w) {
            (Err(error), after) => (Err(error), after),
            (Ok(address), after) => (
                Ok(
                    TransactionView {
                        inputs,
                        proof: proven,
                        outputs: payments.push(payment(address, total.sats - cost)),
                        data,
                    },
                ),
                after,
            ),
        },
    }
}

/// A withdrawal to the parent chain that spends coins worth `total`: it pays the
/// withdrawal to a new address and the change to another.
pub open spec fn withdrawn<D: Fn(Step) -> Result<Xpriv, DeriveError>>(
    tree: KeyTree<D>,
    w: WalletView,
    accumulator: Accumulator,
    withdrawal: OutputContent,
    total: Amount,
    coins: Seq<(OutPoint, Output)>,
    cost: int,
) -> (Result<TransactionView, Error>, WalletView) {
    let inputs = inputs_of(coins);
    match proof_of(accumulator, inputs) {
        Err(error) => (Err(error), w),
        Ok(proven) => match new_address(tree, w) {
            (Err(error), after) => (Err(error), after),
            (Ok(address), middle) => match new_address(tree, middle) {
                (Err(error), after) => (Err(error), after),
                (Ok(change), after) => (
                    Ok(
                        TransactionView {
                            inputs,
                            proof: proven,
                            outputs: seq![
                                Output { address, content: withdrawal },
                                payment(change, total.sats - cost),
                            ],
                            data: TxDataView::Regular,
                        },
                    ),
                    after,
                ),
            },
        },
    }
}

/// What a swap's creation says, and the identifier of the swap: the sender is the
/// owner of the first coin that is spent.
pub open spec fn swap_offer(
    parent_chain: ParentChainType,
    l1_recipient_address: Seq<char>,
    l1_amount: Amount,
    l2_recipient: Option<Address>,
    l2_amount: Amount,
    required_confirmations: Option<u32>,
    sender: Address,
) -> (TxDataView, Digest) {
    let id = blake3_hash(swap_bytes(l1_recipient_address, l1_amount, sender, l2_recipient));
    let data = TxDataView::SwapCreate {
        swap_id: id,
        parent_chain,
        l1_txid_bytes: Seq::new(32, |i: int| 0u8),
        required_confirmations: match required_confirmations {
            Some(n) => n,
            None => parent_chain.default_confirmations_spec(),
        },
        l2_recipient,
        l2_amount: l2_amount.sats,
        l1_recipient_address,
        l1_amount: l1_amount.sats,
    };
    (data, id)
}

/// The output that a swap's creation locks: it belongs to the recipient, or to the
/// sender as long as the recipient is open.
pub open spec fn swap_output(
    l2_recipient: Option<Address>,
    sender: Address,
    l2_amount: Amount,
    id: Digest,
) -> Output {
    Output {
        address: match l2_recipient {
            Some(recipient) => recipient,
            None => sender,
        },
        content: OutputContent::SwapPending { value: l2_amount, swap_id: id },
    }
}

/// A transaction that claims a swap's outputs for `recipient`.
pub open spec fn claimed(
    accumulator: Accumulator,
    swap_id: SwapId,
    recipient: Address,
    locked_outputs: Seq<(OutPoint, Output)>,
    l2_claimer_address: Option<Address>,
) -> Result<TransactionView, Error> {
    let inputs = inputs_of(locked_outputs);
    match proof_of(accumulator, inputs) {
        Err(error) => Err(error),
        Ok(proven) => if worth(locked_outputs) > u64::MAX {
            Err(Error::AmountOverflow(AmountOverflowError))
        } else {
            Ok(
                TransactionView {
                    inputs,
                    proof: proven,
                    outputs: seq![payment(recipient, worth(locked_outputs) as int)],
                    data: TxDataView::SwapClaim {
                        swap_id: swap_id.0,
                        l2_claimer_address,
                        proof_data: None,
                    },
                },
            )
        },
    }
}

/// A transaction that reserves a swap by spending one coin. What the fee leaves of the
/// coin is paid to a new address.
pub open spec fn accepted<D: Fn(Step) -> Result<Xpriv, DeriveError>>(
    tree: KeyTree<D>,
    w: WalletView,
    accumulator: Accumulator,
    swap_id: SwapId,
    l2_claimer_address: Option<Address>,
    fee: Amount,
    coin: (OutPoint, Output),
) -> (Result<TransactionView, Error>, WalletView) {
    let inputs = inputs_of(seq![coin]);
    let data = TxDataView::SwapAccept {
        swap_id: swap_id.0,
        l2_claimer_address: match l2_claimer_address {
            Some(claimer) => claimer,
            None => coin.1.address,
        },
    };
    let change = value_of(coin.1).sats - fee.sats;
    match proof_of(accumulator, inputs) {
        Err(error) => (Err(error), w),
        Ok(proven) => if change > 0 {
            match new_address(tree, w) {
                (Err(error), after) => (Err(error), after),
                (Ok(address), after) => (
                    Ok(
                        TransactionView {
                            inputs,
                            proof: proven,
                            outputs: seq![payment(address, change)],
                            data,
                        },
                    ),
                    after,
                ),
            }
        } else {
            (Ok(TransactionView { inputs, proof: proven, outputs: Seq::empty(), data }), w)
        },
    }
}

/// The inputs that spend coins.
fn make_inputs(coins: &Vec<(OutPoint, Output)>) -> (inputs: Vec<(OutPoint, Digest)>)
    ensures
        inputs@ == inputs_of(coins@),
{
    let mut inputs: Vec<(OutPoint, Digest)> = Vec::new();
    let mut i: usize = 0;
    while i < coins.len()
        invariant
            i <= coins@.len(),
            inputs@.len() == i,
            forall|j: int|
                0 <= j < i ==> #[trigger] inputs@[j] == (
                    coins@[j].0,
                    utxo_hash(coins@[j].0, coins@[j].1),
                ),
        decreases coins@.len() - i,
    {
        let (outpoint, output) = coins[i];
        let digest: Digest = PointedOutput { outpoint, output }.digest();
        inputs.push((outpoint, digest));
        i = i + 1;
    }
    assert(inputs@ =~= inputs_of(coins@));
    inputs
}

/// Proves that inputs are unspent.
fn prove_inputs(accumulator: &Accumulator, inputs: &Vec<(OutPoint, Digest)>) -> (result: Result<
    Proof,
    Error,
>)
    ensures
        match result {
            Ok(p) => proof_of(*accumulator, inputs@) == Ok::<ProofView, Error>(p@),
            Err(e) => proof_of(*accumulator, inputs@) == Err::<ProofView, Error>(e),
        },
{
    let mut hashes: Vec<Digest> = Vec::new();
    let mut i: usize = 0;
    while i < inputs.len()
        invariant
            i <= inputs@.len(),
            hashes@.len() == i,
            forall|j: int| 0 <= j < i ==> #[trigger] hashes@[j] == inputs@[j].1,
        decreases inputs@.len() - i,
    {
        hashes.push(inputs[i].1);
        i = i + 1;
    }
    assert(hashes@ =~= hashes_of(inputs@));
    match accumulator.prove(hashes.as_slice()) {
        Ok(p) => Ok(p),
        Err(error) => Err(Error::Utreexo(error)),
    }
}

impl<D: Fn(Step) -> Result<Xpriv, DeriveError>> Wallet<D> {
    /// A transaction that spends the given coins on `payments`, and pays what is left
    /// over `cost` to a new address.
    pub fn fund(
        &mut self,
        accumulator: &Accumulator,
        total: Amount,
        coins: &Vec<(OutPoint, Output)>,
        cost: Amount,
        payments: Vec<Output>,
        data: TxData,
    ) -> (result: Result<Transaction, Error>)
        requires
            cost.sats <= total.sats,
            may_fund(old(self)@, *accumulator, coins@),
        ensures
            final(self).tree == old(self).tree,
            (made(result), final(self)@) == funded(
                old(self).tree,
                old(self)@,
                *accumulator,
                total,
                coins@,
                cost.sats as int,
                payments@,
                data@,
            ),
    {
        let change = Amount::from_sat(total.sats - cost.sats);
        let inputs: Vec<(OutPoint, Digest)> = make_inputs(coins);
        let proven: Proof = match prove_inputs(accumulator, &inputs) {
            Ok(p) => p,
            Err(error) => {
                return Err(error);
            },
        };
        let address: Address = match self.get_new_address() {
            Ok(address) => address,
            Err(error) => {
                return Err(error);
            },
        };
        let mut outputs: Vec<Output> = payments;
        outputs.push(Output { address, content: OutputContent::Value(change) });
        Ok(Transaction { inputs, proof: proven, outputs, data })
    }

    /// A withdrawal to the parent chain that spends the given coins.
    pub fn withdraw_coins(
        &mut self,
        accumulator: &Accumulator,
        main_address: MainAddress,
        value: Amount,
        main_fee: Amount,
        fee: Amount,
        total: Amount,
        coins: &Vec<(OutPoint, Output)>,
    ) -> (result: Result<Transaction, Error>)
        requires
            value.sats + fee.sats + main_fee.sats <= total.sats,
            may_withdraw(old(self).tree, old(self)@, *accumulator, coins@),
        ensures
            final(self).tree == old(self).tree,
            (made(result), final(self)@) == withdrawn(
                old(self).tree,
                old(self)@,
                *accumulator,
                OutputContent::Withdrawal { value, main_fee, main_address },
                total,
                coins@,
                value.sats + fee.sats + main_fee.sats,
            ),
    {
        let change = Amount::from_sat(total.sats - value.sats - fee.sats - main_fee.sats);
        let inputs: Vec<(OutPoint, Digest)> = make_inputs(coins);
        let proven: Proof = match prove_inputs(accumulator, &inputs) {
            Ok(p) => p,
            Err(error) => {
                return Err(error);
            },
        };
        let ghost before = self@;
        let address: Address = match self.get_new_address() {
            Ok(address) => address,
            Err(error) => {
                return Err(error);
            },
        };
        proof {
            lemma_new_address_is_last(self.tree, before);
        }
        let change_address: Address = match self.get_new_address() {
            Ok(address) => address,
            Err(error) => {
                return Err(error);
            },
        };
        let mut outputs: Vec<Output> = Vec::new();
        outputs.push(
            Output {
                address,
                content: OutputContent::Withdrawal { value, main_fee, main_address },
            },
        );
        outputs.push(Output { address: change_address, content: OutputContent::Value(change) });
        proof {
            assert(outputs@ =~= seq![
                Output {
                    address,
                    content: OutputContent::Withdrawal { value, main_fee, main_address },
                },
                payment(change_address, total.sats - (value.sats + fee.sats + main_fee.sats)),
            ]);
        }
        Ok(Transaction { inputs, proof: proven, outputs, data: TxData::Regular })
    }

    /// Tells whether coins can be spent with one new address for the change.
    fn can_fund(&self, accumulator: &Accumulator, coins: &Vec<(OutPoint, Output)>) -> (possible: bool)
        ensures
            possible == may_fund(self@, *accumulator, coins@),
    {
        if self.has_free_index() {
            return true;
        }
        let inputs: Vec<(OutPoint, Digest)> = make_inputs(coins);
        prove_inputs(accumulator, &inputs).is_err()
    }

    /// Tells whether coins can be withdrawn with the new addresses that this needs.
    fn can_withdraw(&self, accumulator: &Accumulator, coins: &Vec<(OutPoint, Output)>) -> (possible:
        bool)
        ensures
            possible == may_withdraw(self.tree, self@, *accumulator, coins@),
    {
        let last: u32 = match self.tables.index_to_address.last() {
            Some(row) => {
                proof {
                    assert(is_last(self.tables.index_to_address@, row.0));
                    lemma_last_index(self.tables.index_to_address@, row.0);
                }
                row.0
            },
            None => {
                return true;
            },
        };
        if last < u32::MAX - 1 {
            return true;
        }
        if last < u32::MAX && self.get_signing_key(last + 1).is_err() {
            return true;
        }
        let inputs: Vec<(OutPoint, Digest)> = make_inputs(coins);
        prove_inputs(accumulator, &inputs).is_err()
    }

    /// A withdrawal to the parent chain. `is_locked` tells which outpoints are locked
    /// to a swap. There is none where a new address is needed for which no index is left.
    pub fn try_create_withdrawal<F: Fn(&OutPoint) -> bool>(
        &mut self,
        accumulator: &Accumulator,
        main_address: MainAddress,
        value: Amount,
        main_fee: Amount,
        fee: Amount,
        is_locked: F,
    ) -> (result: Option<Result<Transaction, Error>>)
        requires
            forall|o: &OutPoint| is_locked.requires((o,)),
        ensures
            final(self).tree == old(self).tree,
            withdrawal_made(
                old(self).tree,
                old(self)@,
                *accumulator,
                OutputContent::Withdrawal { value, main_fee, main_address },
                value.sats + fee.sats + main_fee.sats,
                is_locked,
                made_if_possible(result),
                final(self)@,
            ),
    {
        let cost: Amount = match value.checked_add(fee) {
            Some(sum) => match sum.checked_add(main_fee) {
                Some(sum) => sum,
                None => {
                    return Some(Err(Error::AmountOverflow(AmountOverflowError)));
                },
            },
            None => {
                return Some(Err(Error::AmountOverflow(AmountOverflowError)));
            },
        };
        let choice = self.select_coins_with_filter(cost, is_locked);
        let ghost chosen = choice_view(choice);
        assert(may_choose(
            self@.utxos,
            is_locked,
            Amount { sats: (value.sats + fee.sats + main_fee.sats) as u64 },
            chosen,
        ));
        let (total, coins) = match choice {
            Ok(choice) => choice,
            Err(error) => {
                return Some(Err(error));
            },
        };
        proof {
            lemma_choice_suffices(self@, is_locked, cost, chosen);
        }
        if !self.can_withdraw(accumulator, &coins) {
            return None;
        }
        Some(self.withdraw_coins(accumulator, main_address, value, main_fee, fee, total, &coins))
    }

    /// A withdrawal to the parent chain. `is_locked` tells which outpoints are locked
    /// to a swap.
    /// An index must be left for each address that it needs; `try_create_withdrawal` tells
    /// where none is.
    pub fn create_withdrawal<F: Fn(&OutPoint) -> bool>(
        &mut self,
        accumulator: &Accumulator,
        main_address: MainAddress,
        value: Amount,
        main_fee: Amount,
        fee: Amount,
        is_locked: F,
    ) -> (result: Result<Transaction, Error>)
        requires
            forall|o: &OutPoint| is_locked.requires((o,)),
            withdrawal_possible(
                old(self).tree,
                old(self)@,
                *accumulator,
                value.sats + fee.sats + main_fee.sats,
                is_locked,
            ),
        ensures
            final(self).tree == old(self).tree,
            withdrawal_made(
                old(self).tree,
                old(self)@,
                *accumulator,
                OutputContent::Withdrawal { value, main_fee, main_address },
                value.sats + fee.sats + main_fee.sats,
                is_locked,
                Some(made(result)),
                final(self)@,
            ),
    {
        self.try_create_withdrawal(
            accumulator,
            main_address,
            value,
            main_fee,
            fee,
            is_locked,
        ).unwrap()
    }
}

/// Indices are left for the addresses that a withdrawal needs, whichever coins it
/// spends.
pub open spec fn withdrawal_possible<
    D: Fn(Step) -> Result<Xpriv, DeriveError>,
    F: Fn(&OutPoint) -> bool,
>(
    tree: KeyTree<D>,
    w: WalletView,
    accumulator: Accumulator,
    cost: int,
    is_locked: F,
) -> bool {
    forall|choice: Result<(Amount, Seq<(OutPoint, Output)>), Error>|
        cost <= u64::MAX && #[trigger] may_choose(
            w.utxos,
            is_locked,
            Amount { sats: cost as u64 },
            choice,
        ) && choice is Ok ==> may_withdraw(tree, w, accumulator, choice->Ok_0.1)
}

/// An index is left for the change address that a transaction needs, whichever coins it
/// spends.
pub open spec fn funding_possible<F: Fn(&OutPoint) -> bool>(
    w: WalletView,
    accumulator: Accumulator,
    cost: int,
    is_locked: F,
) -> bool {
    forall|choice: Result<(Amount, Seq<(OutPoint, Output)>), Error>|
        cost <= u64::MAX && #[trigger] may_choose(
            w.utxos,
            is_locked,
            Amount { sats: cost as u64 },
            choice,
        ) && choice is Ok ==> may_fund(w, accumulator, choice->Ok_0.1)
}

/// What the making of a withdrawal may result in: which coins it spends is up to
/// `is_locked` and to the order of coins of one value. There is none where a new address
/// is needed for which no index is left.
pub open spec fn withdrawal_made<
    D: Fn(Step) -> Result<Xpriv, DeriveError>,
    F: Fn(&OutPoint) -> bool,
>(
    tree: KeyTree<D>,
    w: WalletView,
    accumulator: Accumulator,
    withdrawal: OutputContent,
    cost: int,
    is_locked: F,
    result: Option<Result<TransactionView, Error>>,
    after: WalletView,
) -> bool {
    if cost > u64::MAX {
        &&& result == Some(
            Err::<TransactionView, Error>(Error::AmountOverflow(AmountOverflowError)),
        )
        &&& after == w
    } else {
        exists|choice: Result<(Amount, Seq<(OutPoint, Output)>), Error>| #[trigger]
            may_choose(w.utxos, is_locked, Amount { sats: cost as u64 }, choice) && (result, after)
                == match choice {
                Err(error) => (Some(Err(error)), w),
                Ok((total, coins)) => if may_withdraw(tree, w, accumulator, coins) {
                    possible(withdrawn(tree, w, accumulator, withdrawal, total, coins, cost))
                } else {
                    (None, w)
                },
            }
    }
}

/// Chosen coins are worth what was asked for.
proof fn lemma_choice_suffices<F: Fn(&OutPoint) -> bool>(
    w: WalletView,
    is_locked: F,
    value: Amount,
    choice: Result<(Amount, Seq<(OutPoint, Output)>), Error>,
)
    requires
        may_choose(w.utxos, is_locked, value, choice),
        choice is Ok,
    ensures
        choice->Ok_0.0.sats >= value.sats,
        choice->Ok_0.0.sats == worth(choice->Ok_0.1),
{
    let (order, locked) = choose|order: Seq<(OutPoint, Output)>, locked: Seq<bool>| #[trigger]
        super::coins::is_ordering(w.utxos, order) && #[trigger] super::coins::answers(
            is_locked,
            order,
            locked,
        ) && choice == coin_choice(spendable(order, locked), value.sats);
    lemma_shortest_exists(spendable(order, locked), value.sats);
}

/// To pay nothing, no coin is chosen.
proof fn lemma_nothing_is_chosen<F: Fn(&OutPoint) -> bool>(
    w: WalletView,
    is_locked: F,
    choice: Result<(Amount, Seq<(OutPoint, Output)>), Error>,
)
    requires
        may_choose(w.utxos, is_locked, Amount { sats: 0 }, choice),
    ensures
        choice is Ok,
        choice->Ok_0.1.len() == 0,
{
    let (order, locked) = choose|order: Seq<(OutPoint, Output)>, locked: Seq<bool>| #[trigger]
        super::coins::is_ordering(w.utxos, order) && #[trigger] super::coins::answers(
            is_locked,
            order,
            locked,
        ) && choice == coin_choice(spendable(order, locked), 0);
    let coins = spendable(order, locked);
    lemma_shortest_exists(coins, 0);
    let k = choose|k: int| is_shortest(coins, 0, k);
    if k > 0 {
        assert(worth(coins.take(0)) < 0);
    }
    assert(coins.take(0) =~= Seq::<(OutPoint, Output)>::empty());
    assert(worth(coins.take(0)) == 0);
}

/// Where all coins suffice, some number of them is the shortest that does.
pub proof fn lemma_shortest_exists(coins: Seq<(OutPoint, Output)>, value: u64)
    requires
        worth(coins) >= value,
    ensures
        is_shortest(coins, value, choose|k: int| is_shortest(coins, value, k)),
{
    assert(coins.take(coins.len() as int) =~= coins);
    lemma_shortest_below(coins, value, coins.len() as int);
}

proof fn lemma_shortest_below(coins: Seq<(OutPoint, Output)>, value: u64, n: int)
    requires
        0 <= n <= coins.len(),
        worth(coins.take(n)) >= value,
    ensures
        exists|k: int| is_shortest(coins, value, k),
    decreases n,
{
    if exists|j: int| 0 <= j < n && worth(#[trigger] coins.take(j)) >= value {
        let j = choose|j: int| 0 <= j < n && worth(#[trigger] coins.take(j)) >= value;
        lemma_shortest_below(coins, value, j);
    } else {
        assert(is_shortest(coins, value, n));
    }
}

/// The outputs that pay a list of destinations, in order.
pub open spec fn payments_to(dests: Seq<(Address, Amount)>) -> Seq<Output> {
    Seq::new(dests.len(), |i: int| payment(dests[i].0, dests[i].1.sats as int))
}

/// What a list of destinations is to be paid.
pub open spec fn paid_to(dests: Seq<(Address, Amount)>) -> nat
    decreases dests.len(),
{
    if dests.len() == 0 {
        0
    } else {
        paid_to(dests.drop_last()) + dests.last().1.sats as nat
    }
}

/// The front of a list of destinations is paid no more than the list.
proof fn lemma_paid_next(dests: Seq<(Address, Amount)>, n: int)
    requires
        0 <= n < dests.len(),
    ensures
        paid_to(dests.take(n + 1)) == paid_to(dests.take(n)) + dests[n].1.sats,
        paid_to(dests.take(n + 1)) <= paid_to(dests),
    decreases dests.len(),
{
    assert(dests.take(n + 1).drop_last() =~= dests.take(n));
    if n + 1 < dests.len() {
        let front = dests.drop_last();
        lemma_paid_next(front, n);
        assert(front.take(n + 1) =~= dests.take(n + 1));
    } else {
        assert(dests.take(n + 1) =~= dests);
    }
}

/// What the making of a transfer may result in: which coins it spends is up to
/// `is_locked` and to the order of coins of one value. There is none where a new address
/// is needed for which no index is left.
pub open spec fn transfer_made<
    D: Fn(Step) -> Result<Xpriv, DeriveError>,
    F: Fn(&OutPoint) -> bool,
>(
    tree: KeyTree<D>,
    w: WalletView,
    accumulator: Accumulator,
    payments: Seq<Output>,
    cost: int,
    is_locked: F,
    result: Option<Result<TransactionView, Error>>,
    after: WalletView,
) -> bool {
    if cost > u64::MAX {
        &&& result == Some(
            Err::<TransactionView, Error>(Error::AmountOverflow(AmountOverflowError)),
        )
        &&& after == w
    } else {
        exists|choice: Result<(Amount, Seq<(OutPoint, Output)>), Error>| #[trigger]
            may_choose(w.utxos, is_locked, Amount { sats: cost as u64 }, choice) && (result, after)
                == match choice {
                Err(error) => (Some(Err(error)), w),
                Ok((total, coins)) => if may_fund(w, accumulator, coins) {
                    possible(
                        funded(
                            tree,
                            w,
                            accumulator,
                            total,
                            coins,
                            cost,
                            payments,
                            TxDataView::Regular,
                        ),
                    )
                } else {
                    (None, w)
                },
            }
    }
}

/// A made swap creation as a mathematical value.
pub open spec fn made_swap(result: Result<(Transaction, SwapId), Error>) -> Result<
    (TransactionView, Digest),
    Error,
> {
    match result {
        Ok((transaction, id)) => Ok((transaction@, id.0)),
        Err(error) => Err(error),
    }
}

/// A swap creation, made if an index was left for each address it needed, as a
/// mathematical value.
pub open spec fn made_swap_if_possible(result: Option<Result<(Transaction, SwapId), Error>>) -> Option<
    Result<(TransactionView, Digest), Error>,
> {
    match result {
        Some(result) => Some(made_swap(result)),
        None => None,
    }
}

/// A transaction that creates a swap and spends coins worth `total`. Without coins it
/// would have no sender, so that coins are wanting.
pub open spec fn offered<D: Fn(Step) -> Result<Xpriv, DeriveError>>(
    tree: KeyTree<D>,
    w: WalletView,
    accumulator: Accumulator,
    total: Amount,
    coins: Seq<(OutPoint, Output)>,
    cost: int,
    l2_recipient: Option<Address>,
    l2_amount: Amount,
    offer: (TxDataView, Digest),
) -> (Result<(TransactionView, Digest), Error>, WalletView) {
    let locked = swap_output(l2_recipient, coins[0].1.address, l2_amount, offer.1);
    if coins.len() == 0 {
        (Err(Error::NotEnoughFunds), w)
    } else {
        match funded(tree, w, accumulator, total, coins, cost, seq![locked], offer.0) {
            (Ok(transaction), after) => (Ok((transaction, offer.1)), after),
            (Err(error), after) => (Err(error), after),
        }
    }
}

/// The change of a swap's creation can be paid to a new address: an index is left for
/// it, or none is needed.
pub open spec fn may_offer(
    w: WalletView,
    accumulator: Accumulator,
    coins: Seq<(OutPoint, Output)>,
) -> bool {
    coins.len() > 0 ==> may_fund(w, accumulator, coins)
}

/// An index is left for the change address that a swap's creation needs, whichever
/// coins it spends. One that costs nothing needs none.
pub open spec fn swap_possible<F: Fn(&OutPoint) -> bool>(
    w: WalletView,
    accumulator: Accumulator,
    cost: int,
    is_locked: F,
) -> bool {
    forall|choice: Result<(Amount, Seq<(OutPoint, Output)>), Error>|
        0 < cost <= u64::MAX && #[trigger] may_choose(
            w.utxos,
            is_locked,
            Amount { sats: cost as u64 },
            choice,
        ) && choice is Ok ==> may_offer(w, accumulator, choice->Ok_0.1)
}

/// What the creation of a swap may result in: which coins it spends is up to
/// `is_locked` and to the order of coins of one value. One that costs nothing spends no
/// coin and has no sender, so that coins are wanting. There is none where a new address
/// is needed for which no index is left.
pub open spec fn swap_made<
    D: Fn(Step) -> Result<Xpriv, DeriveError>,
    F: Fn(&OutPoint) -> bool,
>(
    tree: KeyTree<D>,
    w: WalletView,
    accumulator: Accumulator,
    parent_chain: ParentChainType,
    l1_recipient_address: Seq<char>,
    l1_amount: Amount,
    l2_recipient: Option<Address>,
    l2_amount: Amount,
    required_confirmations: Option<u32>,
    fee: Amount,
    is_locked: F,
    result: Option<Result<(TransactionView, Digest), Error>>,
    after: WalletView,
) -> bool {
    let cost = l2_amount.sats + fee.sats;
    if cost > u64::MAX {
        &&& result == Some(
            Err::<(TransactionView, Digest), Error>(Error::AmountOverflow(AmountOverflowError)),
        )
        &&& after == w
    } else if cost == 0 {
        &&& result == Some(Err::<(TransactionView, Digest), Error>(Error::NotEnoughFunds))
        &&& after == w
    } else {
        exists|choice: Result<(Amount, Seq<(OutPoint, Output)>), Error>| #[trigger]
            may_choose(w.utxos, is_locked, Amount { sats: cost as u64 }, choice) && (result, after)
                == match choice {
                Err(error) => (Some(Err(error)), w),
                Ok((total, coins)) => if may_offer(w, accumulator, coins) {
                    possible(
                        offered(
                            tree,
                            w,
                            accumulator,
                            total,
                            coins,
                            cost,
                            l2_recipient,
                            l2_amount,
                            swap_offer(
                                parent_chain,
                                l1_recipient_address,
                                l1_amount,
                                l2_recipient,
                                l2_amount,
                                required_confirmations,
                                coins[0].1.address,
                            ),
                        ),
                    )
                } else {
                    (None, w)
                },
            }
    }
}

/// A coin that may be spent to reserve a swap for the claimer, as far as the coin
/// itself tells.
pub open spec fn may_reserve(output: Output, l2_claimer_address: Option<Address>, fee: Amount) -> bool {
    &&& !(output.content is Withdrawal)
    &&& !(output.content is SwapPending)
    &&& (l2_claimer_address matches Some(claimer) ==> output.address == claimer)
    &&& value_of(output).sats >= fee.sats
}

/// The coin at `o` may be spent to reserve a swap.
pub open spec fn is_candidate(
    utxos: Map<OutPoint, Output>,
    locked: Map<OutPoint, bool>,
    l2_claimer_address: Option<Address>,
    fee: Amount,
    o: OutPoint,
) -> bool {
    &&& utxos.contains_key(o)
    &&& may_reserve(utxos[o], l2_claimer_address, fee)
    &&& !locked[o]
}

/// The coin at `o` may be spent to reserve a swap, and none that may is worth less.
pub open spec fn is_least_candidate(
    utxos: Map<OutPoint, Output>,
    locked: Map<OutPoint, bool>,
    l2_claimer_address: Option<Address>,
    fee: Amount,
    o: OutPoint,
) -> bool {
    &&& is_candidate(utxos, locked, l2_claimer_address, fee, o)
    &&& forall|p: OutPoint| #[trigger]
        is_candidate(utxos, locked, l2_claimer_address, fee, p) ==> value_of(utxos[o]).sats
            <= value_of(utxos[p]).sats
}

/// What `is_locked` answered on the coins that are neither withdrawals nor part of a
/// swap.
pub open spec fn lock_answers<F: Fn(&OutPoint) -> bool>(
    is_locked: F,
    utxos: Map<OutPoint, Output>,
    locked: Map<OutPoint, bool>,
) -> bool {
    forall|o: OutPoint| #[trigger]
        utxos.contains_key(o) && !(utxos[o].content is Withdrawal) && !(
        utxos[o].content is SwapPending) ==> is_locked.ensures((&o,), locked[o])
}

/// An index is left for the change address that a reservation needs, whatever
/// `is_locked` answers.
pub open spec fn reservation_possible<F: Fn(&OutPoint) -> bool>(
    w: WalletView,
    accumulator: Accumulator,
    l2_claimer_address: Option<Address>,
    fee: Amount,
    is_locked: F,
) -> bool {
    forall|locked: Map<OutPoint, bool>, o: OutPoint| #[trigger]
        lock_answers(is_locked, w.utxos, locked) && #[trigger] is_least_candidate(
            w.utxos,
            locked,
            l2_claimer_address,
            fee,
            o,
        ) ==> may_accept(w, accumulator, fee, (o, w.utxos[o]))
}

/// What the making of a reservation may result in, for given answers of `is_locked`.
/// There is none where a new address is needed for which no index is left.
pub open spec fn reservation_made<D: Fn(Step) -> Result<Xpriv, DeriveError>>(
    tree: KeyTree<D>,
    w: WalletView,
    accumulator: Accumulator,
    swap_id: SwapId,
    l2_claimer_address: Option<Address>,
    fee: Amount,
    locked: Map<OutPoint, bool>,
    result: Option<Result<TransactionView, Error>>,
    after: WalletView,
) -> bool {
    if forall|o: OutPoint| !#[trigger] is_candidate(w.utxos, locked, l2_claimer_address, fee, o) {
        &&& result == Some(Err::<TransactionView, Error>(Error::NotEnoughFunds))
        &&& after == w
    } else {
        exists|o: OutPoint| #[trigger]
            is_least_candidate(w.utxos, locked, l2_claimer_address, fee, o) && (result, after) == if may_accept(
                w,
                accumulator,
                fee,
                (o, w.utxos[o]),
            ) {
                possible(
                    accepted(
                        tree,
                        w,
                        accumulator,
                        swap_id,
                        l2_claimer_address,
                        fee,
                        (o, w.utxos[o]),
                    ),
                )
            } else {
                (None, w)
            }
    }
}

impl<D: Fn(Step) -> Result<Xpriv, DeriveError>> Wallet<D> {
    /// A transfer that pays each destination, and the change to a new address.
    /// `is_locked` tells which outpoints are locked to a swap. There is none where a new
    /// address is needed for which no index is left.
    pub fn try_create_transaction_many<F: Fn(&OutPoint) -> bool>(
        &mut self,
        accumulator: &Accumulator,
        dests: &Table<Address, Amount>,
        fee: Amount,
        is_locked: F,
    ) -> (result: Option<Result<Transaction, Error>>)
        requires
            forall|o: &OutPoint| is_locked.requires((o,)),
        ensures
            final(self).tree == old(self).tree,
            dests.listing().len() == 0 ==> made_if_possible(result) == Some(
                Err::<TransactionView, Error>(Error::NoTransferDestination),
            ) && final(self)@ == old(self)@,
            dests.listing().len() > 0 ==> transfer_made(
                old(self).tree,
                old(self)@,
                *accumulator,
                payments_to(dests.listing()),
                paid_to(dests.listing()) + fee.sats,
                is_locked,
                made_if_possible(result),
                final(self)@,
            ),
    {
        let rows: &Vec<(Address, Amount)> = dests.rows();
        if rows.len() == 0 {
            return Some(Err(Error::NoTransferDestination));
        }
        let mut value: Amount = Amount::from_sat(0);
        let mut payments: Vec<Output> = Vec::new();
        let mut i: usize = 0;
        while i < rows.len()
            invariant
                i <= rows@.len(),
                rows@ == dests.listing(),
                rows@.len() > 0,
                *self == *old(self),
                value.sats == paid_to(rows@.take(i as int)),
                payments@.len() == i,
                forall|j: int|
                    0 <= j < i ==> #[trigger] payments@[j] == payment(
                        rows@[j].0,
                        rows@[j].1.sats as int,
                    ),
            decreases rows@.len() - i,
        {
            let (address, part) = rows[i];
            proof {
                lemma_paid_next(rows@, i as int);
            }
            value =
            match value.checked_add(part) {
                Some(sum) => sum,
                None => {
                    return Some(Err(Error::AmountOverflow(AmountOverflowError)));
                },
            };
            payments.push(Output { address, content: OutputContent::Value(part) });
            i = i + 1;
        }
        assert(rows@.take(i as int) =~= rows@);
        assert(payments@ =~= payments_to(rows@));
        let cost: Amount = match value.checked_add(fee) {
            Some(sum) => sum,
            None => {
                return Some(Err(Error::AmountOverflow(AmountOverflowError)));
            },
        };
        let choice = self.select_coins_with_filter(cost, is_locked);
        let ghost chosen = choice_view(choice);
        assert(may_choose(
            self@.utxos,
            is_locked,
            Amount { sats: (paid_to(rows@) + fee.sats) as u64 },
            chosen,
        ));
        let (total, coins) = match choice {
            Ok(choice) => choice,
            Err(error) => {
                return Some(Err(error));
            },
        };
        proof {
            lemma_choice_suffices(self@, is_locked, cost, chosen);
        }
        if !self.can_fund(accumulator, &coins) {
            return None;
        }
        Some(self.fund(accumulator, total, &coins, cost, payments, TxData::Regular))
    }

    /// A transfer that pays each destination, and the change to a new address.
    /// `is_locked` tells which outpoints are locked to a swap.
    /// An index must be left for the address of the change, where one is needed;
    /// `try_create_transaction_many` tells where none is.
    pub fn create_transaction_many<F: Fn(&OutPoint) -> bool>(
        &mut self,
        accumulator: &Accumulator,
        dests: &Table<Address, Amount>,
        fee: Amount,
        is_locked: F,
    ) -> (result: Result<Transaction, Error>)
        requires
            forall|o: &OutPoint| is_locked.requires((o,)),
            dests.listing().len() > 0 ==> funding_possible(
                old(self)@,
                *accumulator,
                paid_to(dests.listing()) + fee.sats,
                is_locked,
            ),
        ensures
            final(self).tree == old(self).tree,
            dests.listing().len() == 0 ==> made(result) == Err::<TransactionView, Error>(
                Error::NoTransferDestination,
            ) && final(self)@ == old(self)@,
            dests.listing().len() > 0 ==> transfer_made(
                old(self).tree,
                old(self)@,
                *accumulator,
                payments_to(dests.listing()),
                paid_to(dests.listing()) + fee.sats,
                is_locked,
                Some(made(result)),
                final(self)@,
            ),
    {
        self.try_create_transaction_many(accumulator, dests, fee, is_locked).unwrap()
    }

    /// A transfer that pays `value` to one address, and the change to a new address.
    /// `is_locked` tells which outpoints are locked to a swap. There is none where a new
    /// address is needed for which no index is left.
    pub fn try_create_transaction<F: Fn(&OutPoint) -> bool>(
        &mut self,
        accumulator: &Accumulator,
        address: Address,
        value: Amount,
        fee: Amount,
        is_locked: F,
    ) -> (result: Option<Result<Transaction, Error>>)
        requires
            forall|o: &OutPoint| is_locked.requires((o,)),
        ensures
            final(self).tree == old(self).tree,
            transfer_made(
                old(self).tree,
                old(self)@,
                *accumulator,
                seq![payment(address, value.sats as int)],
                value.sats + fee.sats,
                is_locked,
                made_if_possible(result),
                final(self)@,
            ),
    {
        let mut dests: Table<Address, Amount> = Table::new();
        dests.put(address, value);
        let rows = dests.rows();
        proof {
            let list = dests.listing();
            lemma_map_len(list);
            assert(dests@.dom() =~= set![address]);
            assert(list.len() == 1);
            lemma_row_in_map(list, 0);
            assert(list[0].0 == address);
            assert(list =~= seq![(address, value)]);
            assert(payments_to(list) =~= seq![payment(address, value.sats as int)]);
            assert(list.drop_last() =~= Seq::<(Address, Amount)>::empty());
            assert(paid_to(list.drop_last()) == 0);
            assert(paid_to(list) == value.sats);
        }
        self.try_create_transaction_many(accumulator, &dests, fee, is_locked)
    }

    /// A transfer that pays `value` to one address, and the change to a new address.
    /// `is_locked` tells which outpoints are locked to a swap.
    /// An index must be left for the address of the change, where one is needed;
    /// `try_create_transaction` tells where none is.
    pub fn create_transaction<F: Fn(&OutPoint) -> bool>(
        &mut self,
        accumulator: &Accumulator,
        address: Address,
        value: Amount,
        fee: Amount,
        is_locked: F,
    ) -> (result: Result<Transaction, Error>)
        requires
            forall|o: &OutPoint| is_locked.requires((o,)),
            funding_possible(old(self)@, *accumulator, value.sats + fee.sats, is_locked),
        ensures
            final(self).tree == old(self).tree,
            transfer_made(
                old(self).tree,
                old(self)@,
                *accumulator,
                seq![payment(address, value.sats as int)],
                value.sats + fee.sats,
                is_locked,
                Some(made(result)),
                final(self)@,
            ),
    {
        self.try_create_transaction(accumulator, address, value, fee, is_locked).unwrap()
    }

    /// A transaction that offers a swap against the parent chain, and locks
    /// `l2_amount` for it. Where `l2_recipient` is `None`, anyone may fill the swap.
    /// `is_locked` tells which outpoints are locked to a swap. There is none where a new
    /// address is needed for which no index is left.
    pub fn try_create_swap_create_tx<F: Fn(&OutPoint) -> bool>(
        &mut self,
        accumulator: &Accumulator,
        parent_chain: ParentChainType,
        l1_recipient_address: String,
        l1_amount: Amount,
        l2_recipient: Option<Address>,
        l2_amount: Amount,
        required_confirmations: Option<u32>,
        fee: Amount,
        is_locked: F,
    ) -> (result: Option<Result<(Transaction, SwapId), Error>>)
        requires
            forall|o: &OutPoint| is_locked.requires((o,)),
        ensures
            final(self).tree == old(self).tree,
            swap_made(
                old(self).tree,
                old(self)@,
                *accumulator,
                parent_chain,
                l1_recipient_address@,
                l1_amount,
                l2_recipient,
                l2_amount,
                required_confirmations,
                fee,
                is_locked,
                made_swap_if_possible(result),
                final(self)@,
            ),
    {
        let cost: Amount = match l2_amount.checked_add(fee) {
            Some(sum) => sum,
            None => {
                return Some(Err(Error::AmountOverflow(AmountOverflowError)));
            },
        };
        let choice = self.select_coins_with_filter(cost, is_locked);
        let ghost chosen = choice_view(choice);
        assert(may_choose(
            self@.utxos,
            is_locked,
            Amount { sats: (l2_amount.sats + fee.sats) as u64 },
            chosen,
        ));
        proof {
            if cost.sats == 0 {
                lemma_nothing_is_chosen(self@, is_locked, chosen);
            }
        }
        let (total, coins) = match choice {
            Ok(choice) => choice,
            Err(error) => {
                return Some(Err(error));
            },
        };
        proof {
            lemma_choice_suffices(self@, is_locked, cost, chosen);
        }
        if coins.len() > 0 && !self.can_fund(accumulator, &coins) {
            return None;
        }
        Some(
            self.offer_swap(
                accumulator,
                parent_chain,
                l1_recipient_address,
                l1_amount,
                l2_recipient,
                l2_amount,
                required_confirmations,
                cost,
                total,
                &coins,
            ),
        )
    }

    /// A transaction that offers a swap against the parent chain, and locks
    /// `l2_amount` for it. Where `l2_recipient` is `None`, anyone may fill the swap.
    /// `is_locked` tells which outpoints are locked to a swap.
    /// An index must be left for the address of the change, where one is needed;
    /// `try_create_swap_create_tx` tells where none is.
    pub fn create_swap_create_tx<F: Fn(&OutPoint) -> bool>(
        &mut self,
        accumulator: &Accumulator,
        parent_chain: ParentChainType,
        l1_recipient_address: String,
        l1_amount: Amount,
        l2_recipient: Option<Address>,
        l2_amount: Amount,
        required_confirmations: Option<u32>,
        fee: Amount,
        is_locked: F,
    ) -> (result: Result<(Transaction, SwapId), Error>)
        requires
            forall|o: &OutPoint| is_locked.requires((o,)),
            swap_possible(old(self)@, *accumulator, l2_amount.sats + fee.sats, is_locked),
        ensures
            final(self).tree == old(self).tree,
            swap_made(
                old(self).tree,
                old(self)@,
                *accumulator,
                parent_chain,
                l1_recipient_address@,
                l1_amount,
                l2_recipient,
                l2_amount,
                required_confirmations,
                fee,
                is_locked,
                Some(made_swap(result)),
                final(self)@,
            ),
    {
        self.try_create_swap_create_tx(
            accumulator,
            parent_chain,
            l1_recipient_address,
            l1_amount,
            l2_recipient,
            l2_amount,
            required_confirmations,
            fee,
            is_locked,
        ).unwrap()
    }

    /// A transaction that offers a swap and spends the given coins. The sender is the
    /// owner of the first coin, since the swap's identifier is computed from the
    /// owner of the first input. Without coins there is no sender, and coins are wanting.
    pub fn offer_swap(
        &mut self,
        accumulator: &Accumulator,
        parent_chain: ParentChainType,
        l1_recipient_address: String,
        l1_amount: Amount,
        l2_recipient: Option<Address>,
        l2_amount: Amount,
        required_confirmations: Option<u32>,
        cost: Amount,
        total: Amount,
        coins: &Vec<(OutPoint, Output)>,
    ) -> (result: Result<(Transaction, SwapId), Error>)
        requires
            cost.sats <= total.sats,
            may_offer(old(self)@, *accumulator, coins@),
        ensures
            final(self).tree == old(self).tree,
            (made_swap(result), final(self)@) == offered(
                old(self).tree,
                old(self)@,
                *accumulator,
                total,
                coins@,
                cost.sats as int,
                l2_recipient,
                l2_amount,
                swap_offer(
                    parent_chain,
                    l1_recipient_address@,
                    l1_amount,
                    l2_recipient,
                    l2_amount,
                    required_confirmations,
                    coins@[0].1.address,
                ),
            ),
    {
        if coins.len() == 0 {
            return Err(Error::NotEnoughFunds);
        }
        let sender: Address = coins[0].1.address;
        let swap_id: SwapId = SwapId::from_l2_to_l1(
            l1_recipient_address.as_str(),
            l1_amount,
            &sender,
            &l2_recipient,
        );
        let ghost offer = swap_offer(
            parent_chain,
            l1_recipient_address@,
            l1_amount,
            l2_recipient,
            l2_amount,
            required_confirmations,
            sender,
        );
        let address: Address = match l2_recipient {
            Some(recipient) => recipient,
            None => sender,
        };
        let mut payments: Vec<Output> = Vec::new();
        payments.push(
            Output {
                address,
                content: OutputContent::SwapPending { value: l2_amount, swap_id: swap_id.0 },
            },
        );
        let confirmations: u32 = match required_confirmations {
            Some(n) => n,
            None => parent_chain.default_confirmations(),
        };
        let mut l1_txid_bytes: Vec<u8> = Vec::new();
        let mut i: usize = 0;
        while i < 32
            invariant
                i <= 32,
                l1_txid_bytes@ == Seq::new(i as nat, |j: int| 0u8),
            decreases 32 - i,
        {
            l1_txid_bytes.push(0);
            i = i + 1;
            assert(l1_txid_bytes@ =~= Seq::new(i as nat, |j: int| 0u8));
        }
        let data = TxData::SwapCreate {
            swap_id: swap_id.0,
            parent_chain,
            l1_txid_bytes,
            required_confirmations: confirmations,
            l2_recipient,
            l2_amount: l2_amount.to_sat(),
            l1_recipient_address,
            l1_amount: l1_amount.to_sat(),
        };
        proof {
            assert(data@ == offer.0);
            assert(payments@ =~= seq![swap_output(l2_recipient, sender, l2_amount, offer.1)]);
        }
        match self.fund(accumulator, total, coins, cost, payments, data) {
            Ok(transaction) => Ok((transaction, swap_id)),
            Err(error) => Err(error),
        }
    }

    /// A transaction that claims the outputs that are locked to a swap. For an open
    /// swap the claimer's address is part of it.
    pub fn create_swap_claim_tx(
        &self,
        accumulator: &Accumulator,
        swap_id: SwapId,
        recipient: Address,
        locked_outputs: Vec<(OutPoint, Output)>,
        l2_claimer_address: Option<Address>,
    ) -> (result: Result<Transaction, Error>)
        ensures
            made(result) == claimed(
                *accumulator,
                swap_id,
                recipient,
                locked_outputs@,
                l2_claimer_address,
            ),
    {
        let inputs: Vec<(OutPoint, Digest)> = make_inputs(&locked_outputs);
        let proven: Proof = match prove_inputs(accumulator, &inputs) {
            Ok(p) => p,
            Err(error) => {
                return Err(error);
            },
        };
        let mut total: Amount = Amount::from_sat(0);
        let mut i: usize = 0;
        while i < locked_outputs.len()
            invariant
                i <= locked_outputs@.len(),
                inputs@ == inputs_of(locked_outputs@),
                proof_of(*accumulator, inputs@) is Ok,
                total.sats == worth(locked_outputs@.take(i as int)),
            decreases locked_outputs@.len() - i,
        {
            proof {
                lemma_sum_next(locked_outputs@, i as int, true);
            }
            total =
            match total.checked_add(locked_outputs[i].1.get_value()) {
                Some(sum) => sum,
                None => {
                    return Err(Error::AmountOverflow(AmountOverflowError));
                },
            };
            i = i + 1;
        }
        assert(locked_outputs@.take(i as int) =~= locked_outputs@);
        let mut outputs: Vec<Output> = Vec::new();
        outputs.push(Output { address: recipient, content: OutputContent::Value(total) });
        assert(outputs@ =~= seq![payment(recipient, worth(locked_outputs@) as int)]);
        Ok(
            Transaction {
                inputs,
                proof: proven,
                outputs,
                data: TxData::SwapClaim { swap_id: swap_id.0, l2_claimer_address, proof_data: None },
            },
        )
    }

    /// A transaction that reserves a swap by spending the given coin.
    pub fn accept_with_coin(
        &mut self,
        accumulator: &Accumulator,
        swap_id: SwapId,
        l2_claimer_address: Option<Address>,
        fee: Amount,
        coin: (OutPoint, Output),
    ) -> (result: Result<Transaction, Error>)
        requires
            fee.sats <= value_of(coin.1).sats,
            may_accept(old(self)@, *accumulator, fee, coin),
        ensures
            final(self).tree == old(self).tree,
            (made(result), final(self)@) == accepted(
                old(self).tree,
                old(self)@,
                *accumulator,
                swap_id,
                l2_claimer_address,
                fee,
                coin,
            ),
    {
        let claimer: Address = match l2_claimer_address {
            Some(claimer) => claimer,
            None => coin.1.address,
        };
        let change: u64 = coin.1.get_value().to_sat() - fee.to_sat();
        let mut coins: Vec<(OutPoint, Output)> = Vec::new();
        coins.push(coin);
        assert(coins@ =~= seq![coin]);
        let inputs: Vec<(OutPoint, Digest)> = make_inputs(&coins);
        let proven: Proof = match prove_inputs(accumulator, &inputs) {
            Ok(p) => p,
            Err(error) => {
                return Err(error);
            },
        };
        let mut outputs: Vec<Output> = Vec::new();
        if change > 0 {
            let address: Address = match self.get_new_address() {
                Ok(address) => address,
                Err(error) => {
                    return Err(error);
                },
            };
            outputs.push(
                Output { address, content: OutputContent::Value(Amount::from_sat(change)) },
            );
            assert(outputs@ =~= seq![payment(address, change as int)]);
        }
        Ok(
            Transaction {
                inputs,
                proof: proven,
                outputs,
                data: TxData::SwapAccept { swap_id: swap_id.0, l2_claimer_address: claimer },
            },
        )
    }

    /// A transaction that reserves an open swap for a claimer.
    ///
    /// A reservation counts only if the transaction spends an input that belongs to
    /// the address it reserves for, so only coins of that address are considered.
    /// Where `l2_claimer_address` is `None`, the swap is reserved for the owner of
    /// the coin. The smallest coin that covers the fee is spent, which leaves the
    /// larger ones for the payment that the reservation commits to.
    ///
    /// `is_locked` tells which outpoints are locked to a swap. There is none
    /// where a new address is needed for which no index is left.
    pub fn try_create_swap_accept_tx<F: Fn(&OutPoint) -> bool>(
        &mut self,
        accumulator: &Accumulator,
        swap_id: SwapId,
        l2_claimer_address: Option<Address>,
        fee: Amount,
        is_locked: F,
    ) -> (result: Option<Result<Transaction, Error>>)
        requires
            forall|o: &OutPoint| is_locked.requires((o,)),
        ensures
            final(self).tree == old(self).tree,
            exists|locked: Map<OutPoint, bool>| #[trigger]
                lock_answers(is_locked, old(self)@.utxos, locked) && reservation_made(
                    old(self).tree,
                    old(self)@,
                    *accumulator,
                    swap_id,
                    l2_claimer_address,
                    fee,
                    locked,
                    made_if_possible(result),
                    final(self)@,
                ),
    {
        let ghost utxos = self@.utxos;
        let ghost mut locked: Map<OutPoint, bool> = Map::empty();
        let rows: &Vec<(OutPoint, Output)> = self.tables.utxos.rows();
        let ghost list = rows@;
        let mut best: Option<(OutPoint, Output)> = None;
        let mut i: usize = 0;
        while i < rows.len()
            invariant
                i <= rows@.len(),
                rows@ == list,
                keys_distinct(list),
                utxos == map_of(list),
                forall|o: &OutPoint| is_locked.requires((o,)),
                forall|j: int|
                    0 <= j < i && !((#[trigger] list[j]).1.content is Withdrawal) && !(
                    list[j].1.content is SwapPending) ==> is_locked.ensures(
                        (&list[j].0,),
                        locked[list[j].0],
                    ),
                match best {
                    Some(coin) => {
                        &&& exists|j: int| 0 <= j < i && #[trigger] list[j] == coin
                        &&& may_reserve(coin.1, l2_claimer_address, fee)
                        &&& !locked[coin.0]
                        &&& forall|j: int|
                            0 <= j < i && may_reserve(
                                (#[trigger] list[j]).1,
                                l2_claimer_address,
                                fee,
                            ) && !locked[list[j].0] ==> value_of(coin.1).sats <= value_of(
                                list[j].1,
                            ).sats
                    },
                    None => forall|j: int|
                        0 <= j < i && may_reserve(
                            (#[trigger] list[j]).1,
                            l2_claimer_address,
                            fee,
                        ) ==> locked[list[j].0],
                },
            decreases rows@.len() - i,
        {
            let (outpoint, output) = rows[i];
            proof {
                assert forall|j: int| 0 <= j < i implies (#[trigger] list[j]).0 != outpoint by {
                    assert(list[j].0 != list[i as int].0);
                }
            }
            if !output.content.is_withdrawal() && !output.content.is_swap_pending() {
                let lock: bool = is_locked(&outpoint);
                proof {
                    locked = locked.insert(outpoint, lock);
                }
                let owned: bool = match l2_claimer_address {
                    Some(claimer) => output.address.same(&claimer),
                    None => true,
                };
                if !lock && owned && output.get_value().sats >= fee.sats {
                    let better: bool = match best {
                        Some(coin) => output.get_value().sats < coin.1.get_value().sats,
                        None => true,
                    };
                    if better {
                        best = Some((outpoint, output));
                        assert(list[i as int] == (outpoint, output));
                    }
                }
            }
            i = i + 1;
        }
        proof {
            assert forall|o: OutPoint| #[trigger] utxos.contains_key(o) implies exists|j: int|
                0 <= j < list.len() && #[trigger] list[j] == (o, utxos[o]) by {
                let j = choose|j: int| 0 <= j < list.len() && (#[trigger] list[j]).0 == o;
                lemma_row_in_map(list, j);
                assert(list[j] == (o, utxos[o]));
            }
            assert(lock_answers(is_locked, utxos, locked));
        }
        match best {
            Some(coin) => {
                proof {
                    let j = choose|j: int| 0 <= j < list.len() && #[trigger] list[j] == coin;
                    lemma_row_in_map(list, j);
                    assert(is_candidate(utxos, locked, l2_claimer_address, fee, coin.0));
                    assert(is_least_candidate(utxos, locked, l2_claimer_address, fee, coin.0));
                }
                if coin.1.get_value().sats > fee.sats {
                    let mut coins: Vec<(OutPoint, Output)> = Vec::new();
                    coins.push(coin);
                    assert(coins@ =~= seq![coin]);
                    if !self.can_fund(accumulator, &coins) {
                        return None;
                    }
                }
                Some(self.accept_with_coin(accumulator, swap_id, l2_claimer_address, fee, coin))
            },
            None => Some(Err(Error::NotEnoughFunds)),
        }
    }

    /// A transaction that reserves an open swap for a claimer.
    ///
    /// A reservation counts only if the transaction spends an input that belongs to
    /// the address it reserves for, so only coins of that address are considered.
    /// Where `l2_claimer_address` is `None`, the swap is reserved for the owner of
    /// the coin. The smallest coin that covers the fee is spent, which leaves the
    /// larger ones for the payment that the reservation commits to.
    ///
    /// `is_locked` tells which outpoints are locked to a swap.
    /// An index must be left for the address of the change, where one is needed;
    /// `try_create_swap_accept_tx` tells where none is.
    pub fn create_swap_accept_tx<F: Fn(&OutPoint) -> bool>(
        &mut self,
        accumulator: &Accumulator,
        swap_id: SwapId,
        l2_claimer_address: Option<Address>,
        fee: Amount,
        is_locked: F,
    ) -> (result: Result<Transaction, Error>)
        requires
            forall|o: &OutPoint| is_locked.requires((o,)),
            reservation_possible(old(self)@, *accumulator, l2_claimer_address, fee, is_locked),
        ensures
            final(self).tree == old(self).tree,
            exists|locked: Map<OutPoint, bool>| #[trigger]
                lock_answers(is_locked, old(self)@.utxos, locked) && reservation_made(
                    old(self).tree,
                    old(self)@,
                    *accumulator,
                    swap_id,
                    l2_claimer_address,
                    fee,
                    locked,
                    Some(made(result)),
                    final(self)@,
                ),
    {
        self.try_create_swap_accept_tx(
            accumulator,
            swap_id,
            l2_claimer_address,
            fee,
            is_locked,
        ).unwrap()
    }
}

} // verus!
