//! What holds of the coins that are chosen and of the transactions that are made, said
//! of the results themselves.

use vstd::prelude::*;

use crate::accumulator::{forest_proof, Accumulator, UtreexoError};
use crate::amount::{Amount, AmountOverflowError};
use crate::derivation::{DeriveError, KeyTree, Step, Xpriv};
use crate::encoding::{pointed_output_bytes, swap_bytes};
use crate::hashing::blake3_hash;
use crate::table::{keys_distinct, lemma_row_in_map, map_of};
use crate::types::{
    value_of, Address, Digest, GetValue, MainAddress, OutPoint, Output, OutputContent,
    ParentChainType, SwapId, TransactionView, TxDataView,
};

use super::addresses::{lemma_last_exists, new_address, next_index};
use super::coins::{answers, coin_choice, is_ordering, may_choose, spendable, worth};
use super::laws::{
    chosen_coins_are_own_and_unlocked, selection_does_not_overshoot,
    selection_fails_only_for_want_of_funds, spendable_coins_are_unlocked,
};
use super::transactions::{
    accepted, claimed, funded, hashes_of, inputs_of, is_candidate, is_least_candidate, lock_answers,
    may_accept, may_fund, may_offer, may_withdraw, offered, paid_to, payment, payments_to,
    proof_of, reservation_made, swap_made, swap_offer, transfer_made, withdrawal_made, withdrawn,
};
use super::{Error, WalletView};

verus! {

/// The number of sats that an output holds.
pub open spec fn sats(output: Output) -> nat {
    match output.content {
        OutputContent::Value(amount) => amount.sats as nat,
        OutputContent::Withdrawal { value, .. } => value.sats as nat,
        OutputContent::SwapPending { value, .. } => value.sats as nat,
    }
}

/// The value of an output is what it holds, whatever it holds it for.
pub proof fn value_of_an_output_is_what_it_holds(output: Output)
    ensures
        value_of(output).sats == sats(output),
        output.value_spec() == value_of(output),
{
}

/// What outputs hold in all.
pub open spec fn total_of(outputs: Seq<Output>) -> nat
    decreases outputs.len(),
{
    if outputs.len() == 0 {
        0
    } else {
        total_of(outputs.drop_last()) + sats(outputs.last())
    }
}

/// What the coins hold in all that inputs spend.
pub open spec fn spent_by(
    utxos: Map<OutPoint, Output>,
    inputs: Seq<(OutPoint, Digest)>,
) -> nat
    decreases inputs.len(),
{
    if inputs.len() == 0 {
        0
    } else {
        spent_by(utxos, inputs.drop_last()) + sats(utxos[inputs.last().0])
    }
}

/// What coins hold in all.
pub open spec fn held(coins: Seq<(OutPoint, Output)>) -> nat
    decreases coins.len(),
{
    if coins.len() == 0 {
        0
    } else {
        held(coins.drop_last()) + sats(coins.last().1)
    }
}

/// The worth of coins is what they hold in all.
pub proof fn worth_is_what_coins_hold(coins: Seq<(OutPoint, Output)>)
    ensures
        worth(coins) == held(coins),
        forall|i: int|
            0 <= i < coins.len() ==> value_of((#[trigger] coins[i]).1).sats == sats(coins[i].1),
    decreases coins.len(),
{
    if coins.len() > 0 {
        worth_is_what_coins_hold(coins.drop_last());
        assert forall|i: int| 0 <= i < coins.len() implies value_of(
            (#[trigger] coins[i]).1,
        ).sats == sats(coins[i].1) by {
            if i < coins.len() - 1 {
                assert(coins.drop_last()[i] == coins[i]);
            }
        }
    }
}

/// Inputs that spend own coins spend what the coins hold.
proof fn lemma_spent_by(
    utxos: Map<OutPoint, Output>,
    inputs: Seq<(OutPoint, Digest)>,
    coins: Seq<(OutPoint, Output)>,
)
    requires
        inputs.len() == coins.len(),
        forall|i: int|
            0 <= i < coins.len() ==> (#[trigger] inputs[i]).0 == coins[i].0
                && utxos[coins[i].0] == coins[i].1,
    ensures
        spent_by(utxos, inputs) == held(coins),
    decreases coins.len(),
{
    if coins.len() > 0 {
        let (a, b) = (inputs.drop_last(), coins.drop_last());
        assert forall|i: int| 0 <= i < b.len() implies (#[trigger] a[i]).0 == b[i].0
            && utxos[b[i].0] == b[i].1 by {
            assert(inputs[i].0 == coins[i].0);
        }
        lemma_spent_by(utxos, a, b);
        assert(inputs[coins.len() - 1].0 == coins[coins.len() - 1].0);
    }
}

/// One of the coins stands at the outpoint.
pub open spec fn is_among(coins: Seq<(OutPoint, Output)>, o: OutPoint) -> bool {
    exists|i: int| 0 <= i < coins.len() && (#[trigger] coins[i]).0 == o
}

/// Chosen coins are coins of the wallet that are neither withdrawals nor locked, each
/// once. They hold what was asked for, and without the last of them they do not. No coin
/// that could have been chosen and was not is smaller than one that was.
pub proof fn selection_takes_the_smallest_that_suffice<F: Fn(&OutPoint) -> bool>(
    utxos: Map<OutPoint, Output>,
    is_locked: F,
    value: Amount,
    total: Amount,
    chosen: Seq<(OutPoint, Output)>,
)
    requires
        may_choose(
            utxos,
            is_locked,
            value,
            Ok::<(Amount, Seq<(OutPoint, Output)>), Error>((total, chosen)),
        ),
    ensures
        forall|i: int|
            0 <= i < chosen.len() ==> utxos.contains_key((#[trigger] chosen[i]).0)
                && utxos[chosen[i].0] == chosen[i].1 && !(chosen[i].1.content is Withdrawal)
                && is_locked.ensures((&chosen[i].0,), false),
        forall|i: int, j: int|
            0 <= i < j < chosen.len() ==> (#[trigger] chosen[i]).0 != (#[trigger] chosen[j]).0,
        forall|i: int, j: int|
            0 <= i < j < chosen.len() ==> sats((#[trigger] chosen[i]).1) <= sats(
                (#[trigger] chosen[j]).1,
            ),
        total.sats == held(chosen),
        held(chosen) >= value.sats,
        chosen.len() > 0 ==> held(chosen.drop_last()) < value.sats,
        forall|o: OutPoint|
            utxos.contains_key(o) && !(utxos[o].content is Withdrawal) && !#[trigger] is_among(
                chosen,
                o,
            ) ==> is_locked.ensures((&o,), true) || forall|i: int|
                0 <= i < chosen.len() ==> sats((#[trigger] chosen[i]).1) <= sats(utxos[o]),
{
    let choice = Ok::<(Amount, Seq<(OutPoint, Output)>), Error>((total, chosen));
    let (order, locked) = choose|order: Seq<(OutPoint, Output)>, locked: Seq<bool>| #[trigger]
        is_ordering(utxos, order) && #[trigger] answers(is_locked, order, locked) && choice
            == coin_choice(spendable(order, locked), value.sats);
    let coins = spendable(order, locked);
    chosen_coins_are_own_and_unlocked(utxos, is_locked, value, total, chosen);
    selection_does_not_overshoot(coins, value.sats);
    spendable_coins_are_unlocked(order, locked);
    worth_is_what_coins_hold(chosen);
    worth_is_what_coins_hold(coins);
    if chosen.len() > 0 {
        worth_is_what_coins_hold(chosen.drop_last());
    }
    assert forall|i: int, j: int| 0 <= i < j < chosen.len() implies sats(
        (#[trigger] chosen[i]).1,
    ) <= sats((#[trigger] chosen[j]).1) by {
        assert(value_of(chosen[i].1).sats <= value_of(chosen[j].1).sats);
    }
    assert forall|o: OutPoint|
        utxos.contains_key(o) && !(utxos[o].content is Withdrawal) && !#[trigger] is_among(
            chosen,
            o,
        ) && !is_locked.ensures((&o,), true) implies forall|i: int|
        0 <= i < chosen.len() ==> sats((#[trigger] chosen[i]).1) <= sats(utxos[o]) by {
        assert(map_of(order).contains_key(o));
        let j = choose|j: int| 0 <= j < order.len() && (#[trigger] order[j]).0 == o;
        lemma_row_in_map(order, j);
        assert(is_locked.ensures((&order[j].0,), locked[j]));
        assert(order[j] == (o, utxos[o]));
        assert(coins.contains(order[j]));
        let p = choose|p: int| 0 <= p < coins.len() && coins[p] == order[j];
        if p < chosen.len() {
            assert(chosen[p] == coins[p]);
            assert(chosen[p].0 == o);
            assert(is_among(chosen, o));
        }
        assert forall|i: int| 0 <= i < chosen.len() implies sats((#[trigger] chosen[i]).1) <= sats(
            utxos[o],
        ) by {
            assert(chosen[i] == coins[i]);
            assert(value_of(coins[i].1).sats <= value_of(coins[p].1).sats);
        }
    }
}

/// The coins are exactly those of the wallet that are no withdrawals and of which
/// `is_locked` said that they are not locked, each once.
pub open spec fn are_the_spendable_coins<F: Fn(&OutPoint) -> bool>(
    utxos: Map<OutPoint, Output>,
    is_locked: F,
    coins: Seq<(OutPoint, Output)>,
) -> bool {
    &&& forall|i: int|
        0 <= i < coins.len() ==> utxos.contains_key((#[trigger] coins[i]).0)
            && utxos[coins[i].0] == coins[i].1 && !(coins[i].1.content is Withdrawal)
            && is_locked.ensures((&coins[i].0,), false)
    &&& forall|i: int, j: int|
        0 <= i < j < coins.len() ==> (#[trigger] coins[i]).0 != (#[trigger] coins[j]).0
    &&& forall|o: OutPoint|
        utxos.contains_key(o) && !(utxos[o].content is Withdrawal) && !#[trigger] is_among(
            coins,
            o,
        ) ==> is_locked.ensures((&o,), true)
}

/// A selection fails only where the spendable coins hold less than was asked for, or
/// where those that are needed hold more than an amount can.
pub proof fn selection_fails_for_a_reason<F: Fn(&OutPoint) -> bool>(
    utxos: Map<OutPoint, Output>,
    is_locked: F,
    value: Amount,
    choice: Result<(Amount, Seq<(OutPoint, Output)>), Error>,
)
    requires
        may_choose(utxos, is_locked, value, choice),
    ensures
        exists|coins: Seq<(OutPoint, Output)>| #[trigger]
            are_the_spendable_coins(utxos, is_locked, coins) && match choice {
                Ok(_) => held(coins) >= value.sats,
                Err(error) => if held(coins) < value.sats {
                    error == Error::NotEnoughFunds
                } else {
                    error == Error::AmountOverflow(AmountOverflowError) && held(coins) > u64::MAX
                },
            },
{
    let (order, locked) = choose|order: Seq<(OutPoint, Output)>, locked: Seq<bool>| #[trigger]
        is_ordering(utxos, order) && #[trigger] answers(is_locked, order, locked) && choice
            == coin_choice(spendable(order, locked), value.sats);
    let coins = spendable(order, locked);
    selection_fails_only_for_want_of_funds(coins, value.sats);
    spendable_coins_are_unlocked(order, locked);
    super::laws::lemma_spendable_distinct(order, locked);
    worth_is_what_coins_hold(coins);
    assert forall|i: int| 0 <= i < coins.len() implies utxos.contains_key(
        (#[trigger] coins[i]).0,
    ) && utxos[coins[i].0] == coins[i].1 && !(coins[i].1.content is Withdrawal)
        && is_locked.ensures((&coins[i].0,), false) by {
        assert(coins.contains(coins[i]));
        let j = choose|j: int|
            0 <= j < order.len() && #[trigger] order[j] == coins[i] && !(
            coins[i].1.content is Withdrawal) && !locked[j];
        lemma_row_in_map(order, j);
        assert(is_locked.ensures((&order[j].0,), locked[j]));
    }
    assert forall|o: OutPoint|
        utxos.contains_key(o) && !(utxos[o].content is Withdrawal) && !#[trigger] is_among(
            coins,
            o,
        ) implies is_locked.ensures((&o,), true) by {
        assert(map_of(order).contains_key(o));
        let j = choose|j: int| 0 <= j < order.len() && (#[trigger] order[j]).0 == o;
        lemma_row_in_map(order, j);
        assert(is_locked.ensures((&order[j].0,), locked[j]));
        assert(order[j] == (o, utxos[o]));
        if !locked[j] {
            assert(coins.contains(order[j]));
            let p = choose|p: int| 0 <= p < coins.len() && coins[p] == order[j];
            assert(coins[p].0 == o);
        }
    }
    assert(are_the_spendable_coins(utxos, is_locked, coins));
}

/// The transaction spends coins, all of them and no others, in their order: each input
/// is the outpoint of a coin with the hash of the coin's encoding. Each of the hashes is
/// in the set of unspent outputs, and the proof is the one of these hashes.
pub open spec fn spends_all(
    accumulator: Accumulator,
    coins: Seq<(OutPoint, Output)>,
    transaction: TransactionView,
) -> bool {
    &&& transaction.inputs.len() == coins.len()
    &&& forall|i: int|
        0 <= i < coins.len() ==> (#[trigger] transaction.inputs[i]).0 == coins[i].0
            && transaction.inputs[i].1 == blake3_hash(
            pointed_output_bytes(coins[i].0, coins[i].1),
        ) && accumulator.leaves().contains(transaction.inputs[i].1)
    &&& transaction.proof == forest_proof(
        accumulator.history(),
        Seq::new(transaction.inputs.len(), |i: int| transaction.inputs[i].1),
    )
}

/// The transaction spends coins of the wallet to pay `cost`: each once, none that is a
/// withdrawal or locked, and no more than suffice. No coin that could have been spent
/// instead is smaller than one that is.
pub open spec fn spends_for<F: Fn(&OutPoint) -> bool>(
    utxos: Map<OutPoint, Output>,
    accumulator: Accumulator,
    is_locked: F,
    cost: int,
    transaction: TransactionView,
) -> bool {
    let inputs = transaction.inputs;
    &&& forall|i: int|
        0 <= i < inputs.len() ==> utxos.contains_key((#[trigger] inputs[i]).0)
            && inputs[i].1 == blake3_hash(pointed_output_bytes(inputs[i].0, utxos[inputs[i].0]))
            && accumulator.leaves().contains(inputs[i].1) && !(
        utxos[inputs[i].0].content is Withdrawal) && is_locked.ensures((&inputs[i].0,), false)
    &&& forall|i: int, j: int|
        0 <= i < j < inputs.len() ==> (#[trigger] inputs[i]).0 != (#[trigger] inputs[j]).0
    &&& transaction.proof == forest_proof(
        accumulator.history(),
        Seq::new(inputs.len(), |i: int| inputs[i].1),
    )
    &&& spent_by(utxos, inputs) >= cost
    &&& inputs.len() > 0 ==> spent_by(utxos, inputs.drop_last()) < cost
    &&& forall|o: OutPoint|
        #![trigger utxos.contains_key(o)]
        utxos.contains_key(o) && !(utxos[o].content is Withdrawal) && (forall|i: int|
            0 <= i < inputs.len() ==> (#[trigger] inputs[i]).0 != o) ==> is_locked.ensures(
            (&o,),
            true,
        ) || forall|i: int|
            0 <= i < inputs.len() ==> sats(utxos[(#[trigger] inputs[i]).0]) <= sats(utxos[o])
}

/// The address is a new one: the seed gives it at the index behind the last one that is
/// taken. It is recorded there, and nothing else changes.
pub open spec fn takes_new_address<D: Fn(Step) -> Result<Xpriv, DeriveError>>(
    tree: KeyTree<D>,
    w: WalletView,
    address: Address,
    after: WalletView,
) -> bool {
    exists|index: u32|
        {
            &&& w.seed is Some
            &&& #[trigger] tree.address(w.seed->0, index) == Ok::<Address, DeriveError>(address)
            &&& forall|k: u32| #[trigger] w.index_to_address.contains_key(k) ==> k < index
            &&& index > 0 ==> w.index_to_address.contains_key((index - 1) as u32)
            &&& after.index_to_address == w.index_to_address.insert(index, address)
            &&& after.address_to_index == w.address_to_index.insert(address, index)
            &&& after.seed == w.seed && after.utxos == w.utxos && after.stxos == w.stxos
                && after.version == w.version
        }
}

/// A new address is the one that the seed gives at the index behind the last one.
pub proof fn new_address_stands_behind_the_last<D: Fn(Step) -> Result<Xpriv, DeriveError>>(
    tree: KeyTree<D>,
    w: WalletView,
)
    requires
        next_index(w.index_to_address) <= u32::MAX,
    ensures
        match new_address(tree, w) {
            (Ok(address), after) => takes_new_address(tree, w, address, after),
            (Err(error), after) => after == w && match w.seed {
                None => error == Error::NoSeed,
                Some(seed) => exists|index: u32|
                    {
                        &&& #[trigger] tree.address(seed, index) is Err
                        &&& error == Error::Bip32(tree.address(seed, index)->Err_0)
                        &&& forall|k: u32| #[trigger]
                            w.index_to_address.contains_key(k) ==> k < index
                        &&& index > 0 ==> w.index_to_address.contains_key((index - 1) as u32)
                    },
            },
        },
{
    let m = w.index_to_address;
    let index = next_index(m) as u32;
    if m != Map::<u32, Address>::empty() {
        lemma_last_exists(m);
    }
    if w.seed is Some {
        let key = tree.address(w.seed->0, index);
        assert(forall|k: u32| #[trigger] m.contains_key(k) ==> k < index);
        assert(index > 0 ==> m.contains_key((index - 1) as u32));
    }
}

/// Coins whose inputs can be proven are all spent.
proof fn lemma_spends_all(
    accumulator: Accumulator,
    coins: Seq<(OutPoint, Output)>,
    transaction: TransactionView,
)
    requires
        proof_of(accumulator, inputs_of(coins)) == Ok::<_, Error>(transaction.proof),
        transaction.inputs == inputs_of(coins),
    ensures
        spends_all(accumulator, coins, transaction),
{
    let inputs = transaction.inputs;
    assert(hashes_of(inputs) =~= Seq::new(inputs.len(), |i: int| inputs[i].1));
    assert forall|i: int| 0 <= i < coins.len() implies (#[trigger] inputs[i]).0 == coins[i].0
        && inputs[i].1 == blake3_hash(pointed_output_bytes(coins[i].0, coins[i].1))
        && accumulator.leaves().contains(inputs[i].1) by {
        assert(hashes_of(inputs)[i] == inputs[i].1);
    }
}

/// A transaction that spends all of the chosen coins spends them to pay what they were
/// chosen for.
proof fn lemma_spends_for<F: Fn(&OutPoint) -> bool>(
    utxos: Map<OutPoint, Output>,
    accumulator: Accumulator,
    is_locked: F,
    cost: Amount,
    total: Amount,
    coins: Seq<(OutPoint, Output)>,
    transaction: TransactionView,
)
    requires
        may_choose(
            utxos,
            is_locked,
            cost,
            Ok::<(Amount, Seq<(OutPoint, Output)>), Error>((total, coins)),
        ),
        spends_all(accumulator, coins, transaction),
    ensures
        spends_for(utxos, accumulator, is_locked, cost.sats as int, transaction),
        spent_by(utxos, transaction.inputs) == total.sats,
        total.sats >= cost.sats,
{
    let inputs = transaction.inputs;
    selection_takes_the_smallest_that_suffice(utxos, is_locked, cost, total, coins);
    lemma_spent_by(utxos, inputs, coins);
    if coins.len() > 0 {
        lemma_spent_by(utxos, inputs.drop_last(), coins.drop_last());
    }
    assert forall|o: OutPoint|
        #![trigger utxos.contains_key(o)]
        utxos.contains_key(o) && !(utxos[o].content is Withdrawal) && (forall|i: int|
            0 <= i < inputs.len() ==> (#[trigger] inputs[i]).0 != o) && !is_locked.ensures(
            (&o,),
            true,
        ) implies forall|i: int|
        0 <= i < inputs.len() ==> sats(utxos[(#[trigger] inputs[i]).0]) <= sats(utxos[o]) by {
        if is_among(coins, o) {
            let i = choose|i: int| 0 <= i < coins.len() && (#[trigger] coins[i]).0 == o;
            assert(inputs[i].0 == o);
        }
        assert forall|i: int| 0 <= i < inputs.len() implies sats(
            utxos[(#[trigger] inputs[i]).0],
        ) <= sats(utxos[o]) by {
            assert(sats(coins[i].1) <= sats(utxos[o]));
        }
    }
    assert forall|i: int, j: int| 0 <= i < j < inputs.len() implies (#[trigger] inputs[i]).0 != (
    #[trigger] inputs[j]).0 by {
        assert(coins[i].0 != coins[j].0);
    }
}

/// What a list of destinations is owed.
pub open spec fn owed(dests: Seq<(Address, Amount)>) -> nat
    decreases dests.len(),
{
    if dests.len() == 0 {
        0
    } else {
        owed(dests.drop_last()) + dests.last().1.sats as nat
    }
}

proof fn lemma_owed(dests: Seq<(Address, Amount)>)
    ensures
        paid_to(dests) == owed(dests),
        total_of(payments_to(dests)) == owed(dests),
    decreases dests.len(),
{
    if dests.len() > 0 {
        lemma_owed(dests.drop_last());
        assert(payments_to(dests).drop_last() =~= payments_to(dests.drop_last()));
    }
}

/// A made transfer pays each destination what it is owed, once, and in the order of the
/// destinations. It pays what is left to a new address of the wallet: what it spends is
/// what it pays and the fee.
#[verifier::rlimit(40)]
pub proof fn transfer_pays_each_destination<
    D: Fn(Step) -> Result<Xpriv, DeriveError>,
    F: Fn(&OutPoint) -> bool,
>(
    tree: KeyTree<D>,
    w: WalletView,
    accumulator: Accumulator,
    dests: Seq<(Address, Amount)>,
    fee: Amount,
    is_locked: F,
    transaction: TransactionView,
    after: WalletView,
)
    requires
        keys_distinct(dests),
        transfer_made(
            tree,
            w,
            accumulator,
            payments_to(dests),
            paid_to(dests) + fee.sats,
            is_locked,
            Some(Ok::<TransactionView, Error>(transaction)),
            after,
        ),
    ensures
        transaction.outputs.len() == dests.len() + 1,
        forall|i: int|
            0 <= i < dests.len() ==> (#[trigger] transaction.outputs[i]).address == dests[i].0
                && transaction.outputs[i].content == OutputContent::Value(dests[i].1),
        forall|i: int, j: int|
            0 <= i < j < dests.len() ==> (#[trigger] transaction.outputs[i]).address != (
            #[trigger] transaction.outputs[j]).address,
        transaction.outputs.last().content is Value,
        takes_new_address(tree, w, transaction.outputs.last().address, after),
        spends_for(w.utxos, accumulator, is_locked, owed(dests) + fee.sats, transaction),
        spent_by(w.utxos, transaction.inputs) == total_of(transaction.outputs) + fee.sats,
        transaction.data is Regular,
{
    let cost = paid_to(dests) + fee.sats;
    let payments = payments_to(dests);
    lemma_owed(dests);
    let choice = choose|choice: Result<(Amount, Seq<(OutPoint, Output)>), Error>| #[trigger]
        may_choose(w.utxos, is_locked, Amount { sats: cost as u64 }, choice) && choice is Ok
            && may_fund(w, accumulator, choice->Ok_0.1) && (
            Ok::<TransactionView, Error>(transaction),
            after,
        ) == funded(
            tree,
            w,
            accumulator,
            choice->Ok_0.0,
            choice->Ok_0.1,
            cost,
            payments,
            TxDataView::Regular,
        );
    let (total, coins) = choice->Ok_0;
    lemma_spends_all(accumulator, coins, transaction);
    lemma_spends_for(
        w.utxos,
        accumulator,
        is_locked,
        Amount { sats: cost as u64 },
        total,
        coins,
        transaction,
    );
    new_address_stands_behind_the_last(tree, w);
    assert(transaction.outputs.drop_last() =~= payments);
    assert forall|i: int| 0 <= i < dests.len() implies (#[trigger] transaction.outputs[i]).address
        == dests[i].0 && transaction.outputs[i].content == OutputContent::Value(dests[i].1) by {
        assert(transaction.outputs[i] == payments[i]);
    }
    assert forall|i: int, j: int| 0 <= i < j < dests.len() implies (
    #[trigger] transaction.outputs[i]).address != (#[trigger] transaction.outputs[j]).address by {
        assert(dests[i].0 != dests[j].0);
    }
}

/// A made transfer to one address pays it what it is owed, and the rest to a new address
/// of the wallet.
pub proof fn transfer_pays_the_address<
    D: Fn(Step) -> Result<Xpriv, DeriveError>,
    F: Fn(&OutPoint) -> bool,
>(
    tree: KeyTree<D>,
    w: WalletView,
    accumulator: Accumulator,
    address: Address,
    value: Amount,
    fee: Amount,
    is_locked: F,
    transaction: TransactionView,
    after: WalletView,
)
    requires
        transfer_made(
            tree,
            w,
            accumulator,
            seq![payment(address, value.sats as int)],
            value.sats + fee.sats,
            is_locked,
            Some(Ok::<TransactionView, Error>(transaction)),
            after,
        ),
    ensures
        transaction.outputs.len() == 2,
        transaction.outputs[0].address == address,
        transaction.outputs[0].content == OutputContent::Value(value),
        transaction.outputs[1].content is Value,
        takes_new_address(tree, w, transaction.outputs[1].address, after),
        spends_for(w.utxos, accumulator, is_locked, value.sats + fee.sats, transaction),
        spent_by(w.utxos, transaction.inputs) == total_of(transaction.outputs) + fee.sats,
        transaction.data is Regular,
{
    let dests = seq![(address, value)];
    assert(payments_to(dests) =~= seq![payment(address, value.sats as int)]);
    assert(dests.drop_last() =~= Seq::<(Address, Amount)>::empty());
    assert(paid_to(dests.drop_last()) == 0 && owed(dests.drop_last()) == 0);
    assert(paid_to(dests) == value.sats && owed(dests) == value.sats);
    transfer_pays_each_destination(
        tree,
        w,
        accumulator,
        dests,
        fee,
        is_locked,
        transaction,
        after,
    );
    assert(transaction.outputs[0].address == dests[0].0);
}

/// A made withdrawal has two outputs: the withdrawal, at a new address of the wallet,
/// and the rest, at the next one. It spends all of the chosen coins: what it spends is
/// what it pays and the two fees.
#[verifier::rlimit(40)]
pub proof fn withdrawal_pays_the_parent_chain<
    D: Fn(Step) -> Result<Xpriv, DeriveError>,
    F: Fn(&OutPoint) -> bool,
>(
    tree: KeyTree<D>,
    w: WalletView,
    accumulator: Accumulator,
    main_address: MainAddress,
    value: Amount,
    main_fee: Amount,
    fee: Amount,
    is_locked: F,
    transaction: TransactionView,
    after: WalletView,
)
    requires
        withdrawal_made(
            tree,
            w,
            accumulator,
            OutputContent::Withdrawal { value, main_fee, main_address },
            value.sats + fee.sats + main_fee.sats,
            is_locked,
            Some(Ok::<TransactionView, Error>(transaction)),
            after,
        ),
    ensures
        transaction.outputs.len() == 2,
        transaction.outputs[0].content == (OutputContent::Withdrawal {
            value,
            main_fee,
            main_address,
        }),
        transaction.outputs[1].content is Value,
        exists|middle: WalletView| #[trigger]
            takes_new_address(tree, w, transaction.outputs[0].address, middle)
                && takes_new_address(tree, middle, transaction.outputs[1].address, after),
        spends_for(
            w.utxos,
            accumulator,
            is_locked,
            value.sats + fee.sats + main_fee.sats,
            transaction,
        ),
        spent_by(w.utxos, transaction.inputs) == total_of(transaction.outputs) + fee.sats
            + main_fee.sats,
        transaction.data is Regular,
{
    let cost = value.sats + fee.sats + main_fee.sats;
    let withdrawal = OutputContent::Withdrawal { value, main_fee, main_address };
    let choice = choose|choice: Result<(Amount, Seq<(OutPoint, Output)>), Error>| #[trigger]
        may_choose(w.utxos, is_locked, Amount { sats: cost as u64 }, choice) && choice is Ok
            && may_withdraw(tree, w, accumulator, choice->Ok_0.1) && (
            Ok::<TransactionView, Error>(transaction),
            after,
        ) == withdrawn(
            tree,
            w,
            accumulator,
            withdrawal,
            choice->Ok_0.0,
            choice->Ok_0.1,
            cost,
        );
    let (total, coins) = choice->Ok_0;
    lemma_spends_all(accumulator, coins, transaction);
    lemma_spends_for(
        w.utxos,
        accumulator,
        is_locked,
        Amount { sats: cost as u64 },
        total,
        coins,
        transaction,
    );
    let middle = new_address(tree, w).1;
    new_address_stands_behind_the_last(tree, w);
    super::addresses::lemma_new_address_is_last(tree, w);
    new_address_stands_behind_the_last(tree, middle);
    assert(takes_new_address(tree, w, transaction.outputs[0].address, middle));
    let first = transaction.outputs.drop_last();
    assert(first.drop_last() =~= Seq::<Output>::empty());
    assert(total_of(first.drop_last()) == 0);
    assert(total_of(first) == value.sats);
}

/// The offer of a swap says what was asked for, field by field.
pub proof fn offer_says_what_was_asked_for(
    parent_chain: ParentChainType,
    l1_recipient_address: Seq<char>,
    l1_amount: Amount,
    l2_recipient: Option<Address>,
    l2_amount: Amount,
    required_confirmations: Option<u32>,
    sender: Address,
    data: TxDataView,
    id: Digest,
)
    requires
        (data, id) == swap_offer(
            parent_chain,
            l1_recipient_address,
            l1_amount,
            l2_recipient,
            l2_amount,
            required_confirmations,
            sender,
        ),
    ensures
        data is SwapCreate,
        data->SwapCreate_swap_id == id,
        data->parent_chain == parent_chain,
        data->l1_recipient_address == l1_recipient_address,
        data->l1_amount == l1_amount.sats,
        data->l2_recipient == l2_recipient,
        data->l2_amount == l2_amount.sats,
        data->l1_txid_bytes.len() == 32,
        forall|i: int| 0 <= i < 32 ==> #[trigger] data->l1_txid_bytes[i] == 0,
        required_confirmations is Some ==> data->required_confirmations
            == required_confirmations->0,
        required_confirmations is None ==> data->required_confirmations == (if parent_chain is BTC {
            6u32
        } else {
            3u32
        }),
        id == blake3_hash(
            swap_bytes(
                data->l1_recipient_address,
                Amount { sats: data->l1_amount },
                sender,
                data->l2_recipient,
            ),
        ),
{
    assert(Amount { sats: l1_amount.sats } == l1_amount);
}

/// A made swap says what was asked for, field by field. Its sender is the owner of the
/// coin that the first input spends, and its identifier is the hash of what it says
/// itself and of the sender. It locks what was offered under that identifier, for the
/// recipient or, as long as there is none, for the sender, and pays the rest to a new
/// address of the wallet.
#[verifier::rlimit(40)]
pub proof fn swap_says_what_was_asked_for<
    D: Fn(Step) -> Result<Xpriv, DeriveError>,
    F: Fn(&OutPoint) -> bool,
>(
    tree: KeyTree<D>,
    w: WalletView,
    accumulator: Accumulator,
    parent_chain: ParentChainType,
    l1_recipient_address: Seq<char>,
    l1_amount: Amount,
    l2_recipient: Option<Address>,
    l2_amount: Amount,
    required_confirmations: Option<u32>,
    fee: Amount,
    is_locked: F,
    transaction: TransactionView,
    id: Digest,
    after: WalletView,
)
    requires
        swap_made(
            tree,
            w,
            accumulator,
            parent_chain,
            l1_recipient_address,
            l1_amount,
            l2_recipient,
            l2_amount,
            required_confirmations,
            fee,
            is_locked,
            Some(Ok::<(TransactionView, Digest), Error>((transaction, id))),
            after,
        ),
    ensures
        transaction.inputs.len() > 0,
        transaction.data is SwapCreate,
        transaction.data->SwapCreate_swap_id == id,
        transaction.data->parent_chain == parent_chain,
        transaction.data->l1_recipient_address == l1_recipient_address,
        transaction.data->l1_amount == l1_amount.sats,
        transaction.data->l2_recipient == l2_recipient,
        transaction.data->l2_amount == l2_amount.sats,
        transaction.data->l1_txid_bytes.len() == 32,
        forall|i: int| 0 <= i < 32 ==> #[trigger] transaction.data->l1_txid_bytes[i] == 0,
        required_confirmations is Some ==> transaction.data->required_confirmations
            == required_confirmations->0,
        required_confirmations is None ==> transaction.data->required_confirmations == (
        if parent_chain is BTC {
            6u32
        } else {
            3u32
        }),
        id == blake3_hash(
            swap_bytes(
                transaction.data->l1_recipient_address,
                Amount { sats: transaction.data->l1_amount },
                w.utxos[transaction.inputs[0].0].address,
                transaction.data->l2_recipient,
            ),
        ),
        transaction.outputs.len() == 2,
        transaction.outputs[0].content == (OutputContent::SwapPending {
            value: l2_amount,
            swap_id: id,
        }),
        l2_recipient is Some ==> transaction.outputs[0].address == l2_recipient->0,
        l2_recipient is None ==> transaction.outputs[0].address
            == w.utxos[transaction.inputs[0].0].address,
        transaction.outputs[1].content is Value,
        takes_new_address(tree, w, transaction.outputs[1].address, after),
        spends_for(w.utxos, accumulator, is_locked, l2_amount.sats + fee.sats, transaction),
        spent_by(w.utxos, transaction.inputs) == total_of(transaction.outputs) + fee.sats,
{
    let cost = l2_amount.sats + fee.sats;
    let choice = choose|choice: Result<(Amount, Seq<(OutPoint, Output)>), Error>| #[trigger]
        may_choose(w.utxos, is_locked, Amount { sats: cost as u64 }, choice) && choice is Ok
            && may_offer(w, accumulator, choice->Ok_0.1) && (
            Ok::<(TransactionView, Digest), Error>((transaction, id)),
            after,
        ) == offered(
            tree,
            w,
            accumulator,
            choice->Ok_0.0,
            choice->Ok_0.1,
            cost,
            l2_recipient,
            l2_amount,
            swap_offer(
                parent_chain,
                l1_recipient_address,
                l1_amount,
                l2_recipient,
                l2_amount,
                required_confirmations,
                choice->Ok_0.1[0].1.address,
            ),
        );
    let (total, coins) = choice->Ok_0;
    lemma_spends_all(accumulator, coins, transaction);
    lemma_spends_for(
        w.utxos,
        accumulator,
        is_locked,
        Amount { sats: cost as u64 },
        total,
        coins,
        transaction,
    );
    selection_takes_the_smallest_that_suffice(
        w.utxos,
        is_locked,
        Amount { sats: cost as u64 },
        total,
        coins,
    );
    assert(transaction.inputs[0].0 == coins[0].0);
    new_address_stands_behind_the_last(tree, w);
    offer_says_what_was_asked_for(
        parent_chain,
        l1_recipient_address,
        l1_amount,
        l2_recipient,
        l2_amount,
        required_confirmations,
        coins[0].1.address,
        transaction.data,
        id,
    );
    let first = transaction.outputs.drop_last();
    assert(first.drop_last() =~= Seq::<Output>::empty());
    assert(total_of(first.drop_last()) == 0);
    assert(total_of(first) == l2_amount.sats);
}

/// Coins can be proven exactly where the hash of each is in the set of unspent outputs.
pub(crate) proof fn lemma_provable(accumulator: Accumulator, coins: Seq<(OutPoint, Output)>)
    ensures
        proof_of(accumulator, inputs_of(coins)) is Ok <==> forall|i: int|
            0 <= i < coins.len() ==> accumulator.leaves().contains(
                blake3_hash(pointed_output_bytes((#[trigger] coins[i]).0, coins[i].1)),
            ),
        proof_of(accumulator, inputs_of(coins)) is Err ==> proof_of(
            accumulator,
            inputs_of(coins),
        )->Err_0 == Error::Utreexo(UtreexoError),
{
    let hashes = hashes_of(inputs_of(coins));
    assert forall|i: int| 0 <= i < coins.len() implies #[trigger] hashes[i] == blake3_hash(
        pointed_output_bytes(coins[i].0, coins[i].1),
    ) by {}
    if proof_of(accumulator, inputs_of(coins)) is Ok {
        assert forall|i: int| 0 <= i < coins.len() implies accumulator.leaves().contains(
            blake3_hash(pointed_output_bytes((#[trigger] coins[i]).0, coins[i].1)),
        ) by {
            assert(accumulator.leaves().contains(hashes[i]));
        }
    }
}

/// Any coins fund payments: the transaction spends each of them and makes each payment,
/// and what the cost leaves of the total is paid to a new address behind these. It fails
/// where a coin cannot be proven or where there is no new address.
pub proof fn funding_makes_each_payment<D: Fn(Step) -> Result<Xpriv, DeriveError>>(
    tree: KeyTree<D>,
    w: WalletView,
    accumulator: Accumulator,
    total: Amount,
    coins: Seq<(OutPoint, Output)>,
    cost: int,
    payments: Seq<Output>,
    data: TxDataView,
    result: Result<TransactionView, Error>,
    after: WalletView,
)
    requires
        0 <= cost <= total.sats,
        may_fund(w, accumulator, coins),
        (result, after) == funded(tree, w, accumulator, total, coins, cost, payments, data),
    ensures
        result matches Ok(transaction) ==> {
            let outputs = transaction.outputs;
            &&& spends_all(accumulator, coins, transaction)
            &&& outputs.len() == payments.len() + 1
            &&& forall|i: int| 0 <= i < payments.len() ==> #[trigger] outputs[i] == payments[i]
            &&& outputs.last().content is Value
            &&& sats(outputs.last()) == total.sats - cost
            &&& takes_new_address(tree, w, outputs.last().address, after)
            &&& transaction.data == data
        },
        result matches Err(error) ==> after == w && (has_no_next_address(tree, w, error) || (error
            == Error::Utreexo(UtreexoError) && exists|i: int|
            0 <= i < coins.len() && !accumulator.leaves().contains(
                blake3_hash(pointed_output_bytes((#[trigger] coins[i]).0, coins[i].1)),
            ))),
{
    lemma_provable(accumulator, coins);
    if proof_of(accumulator, inputs_of(coins)) is Ok {
        new_address_stands_behind_the_last(tree, w);
        if result is Ok {
            lemma_spends_all(accumulator, coins, result->Ok_0);
        } else {
            lemma_next_address(tree, w);
        }
    }
}

/// Any coins fund a withdrawal: the transaction spends each of them, and its two outputs
/// are the withdrawal and what the cost leaves of the total, each at a new address.
pub proof fn withdrawing_makes_the_withdrawal<D: Fn(Step) -> Result<Xpriv, DeriveError>>(
    tree: KeyTree<D>,
    w: WalletView,
    accumulator: Accumulator,
    withdrawal: OutputContent,
    total: Amount,
    coins: Seq<(OutPoint, Output)>,
    cost: int,
    transaction: TransactionView,
    after: WalletView,
)
    requires
        0 <= cost <= total.sats,
        may_withdraw(tree, w, accumulator, coins),
        withdrawn(tree, w, accumulator, withdrawal, total, coins, cost) == (
            Ok::<TransactionView, Error>(transaction),
            after,
        ),
    ensures
        ({
            let outputs = transaction.outputs;
            &&& spends_all(accumulator, coins, transaction)
            &&& outputs.len() == 2
            &&& outputs[0].content == withdrawal
            &&& outputs[1].content is Value
            &&& sats(outputs[1]) == total.sats - cost
            &&& exists|middle: WalletView| #[trigger]
                takes_new_address(tree, w, outputs[0].address, middle) && takes_new_address(
                    tree,
                    middle,
                    outputs[1].address,
                    after,
                )
            &&& transaction.data is Regular
        }),
{
    lemma_spends_all(accumulator, coins, transaction);
    let middle = new_address(tree, w).1;
    new_address_stands_behind_the_last(tree, w);
    super::addresses::lemma_new_address_is_last(tree, w);
    new_address_stands_behind_the_last(tree, middle);
    assert(takes_new_address(tree, w, transaction.outputs[0].address, middle));
}

/// Any coins fund an offer: the transaction spends each of them, and its two outputs are
/// the amount that is locked for the recipient, or for the owner of the first coin as long
/// as there is none, and what the cost leaves of the total. Without coins there is no
/// sender.
pub proof fn offering_locks_the_amount<D: Fn(Step) -> Result<Xpriv, DeriveError>>(
    tree: KeyTree<D>,
    w: WalletView,
    accumulator: Accumulator,
    total: Amount,
    coins: Seq<(OutPoint, Output)>,
    cost: int,
    l2_recipient: Option<Address>,
    l2_amount: Amount,
    offer: (TxDataView, Digest),
    result: Result<(TransactionView, Digest), Error>,
    after: WalletView,
)
    requires
        0 <= cost <= total.sats,
        may_offer(w, accumulator, coins),
        (result, after) == offered(
            tree,
            w,
            accumulator,
            total,
            coins,
            cost,
            l2_recipient,
            l2_amount,
            offer,
        ),
    ensures
        coins.len() == 0 ==> result is Err && result->Err_0 == Error::NotEnoughFunds && after == w,
        result matches Ok((transaction, id)) ==> {
            let outputs = transaction.outputs;
            &&& coins.len() > 0
            &&& spends_all(accumulator, coins, transaction)
            &&& outputs.len() == 2
            &&& outputs[0].content is SwapPending
            &&& sats(outputs[0]) == l2_amount.sats
            &&& outputs[0].content->swap_id == offer.1
            &&& l2_recipient is Some ==> outputs[0].address == l2_recipient->0
            &&& l2_recipient is None ==> outputs[0].address == coins[0].1.address
            &&& outputs[1].content is Value
            &&& sats(outputs[1]) == total.sats - cost
            &&& takes_new_address(tree, w, outputs[1].address, after)
            &&& transaction.data == offer.0
            &&& id == offer.1
        },
{
    if coins.len() > 0 {
        let locked = super::transactions::swap_output(
            l2_recipient,
            coins[0].1.address,
            l2_amount,
            offer.1,
        );
        let (made, kept) = funded(
            tree,
            w,
            accumulator,
            total,
            coins,
            cost,
            seq![locked],
            offer.0,
        );
        funding_makes_each_payment(
            tree,
            w,
            accumulator,
            total,
            coins,
            cost,
            seq![locked],
            offer.0,
            made,
            kept,
        );
        if made is Ok {
            assert(made->Ok_0.outputs[0] == seq![locked][0]);
        }
    }
}

/// Each destination is paid what it is owed, and nobody else is.
pub proof fn each_destination_is_paid_what_it_is_owed(dests: Seq<(Address, Amount)>, i: int)
    requires
        0 <= i < dests.len(),
    ensures
        payments_to(dests).len() == dests.len(),
        payments_to(dests)[i].address == dests[i].0,
        payments_to(dests)[i].content is Value,
        sats(payments_to(dests)[i]) == dests[i].1.sats,
{
}

/// Any coin makes a reservation: the transaction spends it alone, and pays what the fee
/// leaves of it, if anything, to a new address. The claimer is the one that is named, or
/// else the owner of the coin.
pub proof fn accepting_spends_the_coin<D: Fn(Step) -> Result<Xpriv, DeriveError>>(
    tree: KeyTree<D>,
    w: WalletView,
    accumulator: Accumulator,
    swap_id: SwapId,
    l2_claimer_address: Option<Address>,
    fee: Amount,
    coin: (OutPoint, Output),
    transaction: TransactionView,
    after: WalletView,
)
    requires
        sats(coin.1) >= fee.sats,
        may_accept(w, accumulator, fee, coin),
        accepted(tree, w, accumulator, swap_id, l2_claimer_address, fee, coin) == (
            Ok::<TransactionView, Error>(transaction),
            after,
        ),
    ensures
        ({
            let outputs = transaction.outputs;
            &&& spends_all(accumulator, seq![coin], transaction)
            &&& sats(coin.1) == fee.sats ==> outputs.len() == 0 && after == w
            &&& sats(coin.1) > fee.sats ==> outputs.len() == 1 && outputs[0].content is Value
                && sats(outputs[0]) == sats(coin.1) - fee.sats && takes_new_address(
                tree,
                w,
                outputs[0].address,
                after,
            )
            &&& transaction.data is SwapAccept
            &&& transaction.data->SwapAccept_swap_id == swap_id.0
            &&& l2_claimer_address is Some ==> transaction.data->SwapAccept_l2_claimer_address
                == l2_claimer_address->0
            &&& l2_claimer_address is None ==> transaction.data->SwapAccept_l2_claimer_address
                == coin.1.address
        }),
{
    lemma_spends_all(accumulator, seq![coin], transaction);
    if sats(coin.1) > fee.sats {
        new_address_stands_behind_the_last(tree, w);
    }
}

/// A made claim has one output. It pays the recipient all that the locked outputs hold,
/// and spends each of them.
pub proof fn claim_pays_the_recipient(
    accumulator: Accumulator,
    swap_id: SwapId,
    recipient: Address,
    locked_outputs: Seq<(OutPoint, Output)>,
    l2_claimer_address: Option<Address>,
    result: Result<TransactionView, Error>,
)
    requires
        result == claimed(accumulator, swap_id, recipient, locked_outputs, l2_claimer_address),
    ensures
        result matches Ok(transaction) ==> {
            &&& transaction.outputs.len() == 1
            &&& transaction.outputs[0].address == recipient
            &&& transaction.outputs[0].content is Value
            &&& sats(transaction.outputs[0]) == held(locked_outputs)
            &&& spends_all(accumulator, locked_outputs, transaction)
            &&& transaction.data is SwapClaim
            &&& transaction.data->SwapClaim_swap_id == swap_id.0
            &&& transaction.data->SwapClaim_l2_claimer_address == l2_claimer_address
            &&& transaction.data->proof_data is None
        },
        result is Ok <==> (forall|i: int|
            0 <= i < locked_outputs.len() ==> accumulator.leaves().contains(
                blake3_hash(
                    pointed_output_bytes((#[trigger] locked_outputs[i]).0, locked_outputs[i].1),
                ),
            )) && held(locked_outputs) <= u64::MAX,
        result matches Err(error) ==> error == Error::Utreexo(UtreexoError) || (error
            == Error::AmountOverflow(AmountOverflowError) && held(locked_outputs) > u64::MAX),
        result is Err && result->Err_0 is Utreexo <==> exists|i: int|
            0 <= i < locked_outputs.len() && !accumulator.leaves().contains(
                blake3_hash(
                    pointed_output_bytes((#[trigger] locked_outputs[i]).0, locked_outputs[i].1),
                ),
            ),
{
    lemma_provable(accumulator, locked_outputs);
    worth_is_what_coins_hold(locked_outputs);
    let inputs = inputs_of(locked_outputs);
    if result is Ok {
        lemma_spends_all(accumulator, locked_outputs, result->Ok_0);
        assert forall|i: int| 0 <= i < locked_outputs.len() implies accumulator.leaves().contains(
            blake3_hash(
                pointed_output_bytes((#[trigger] locked_outputs[i]).0, locked_outputs[i].1),
            ),
        ) by {
            assert(result->Ok_0.inputs[i].0 == locked_outputs[i].0);
        }
    } else if forall|i: int|
        0 <= i < locked_outputs.len() ==> accumulator.leaves().contains(
            blake3_hash(
                pointed_output_bytes((#[trigger] locked_outputs[i]).0, locked_outputs[i].1),
            ),
        ) {
        assert forall|i: int| 0 <= i < hashes_of(inputs).len() implies accumulator.leaves().contains(
            #[trigger] hashes_of(inputs)[i],
        ) by {
            assert(hashes_of(inputs)[i] == blake3_hash(
                pointed_output_bytes(locked_outputs[i].0, locked_outputs[i].1),
            ));
        }
    }
}

/// The coin may pay the fee of a reservation for the claimer: it is neither a withdrawal
/// nor part of a swap, it belongs to the claimer if one is named, and it holds the fee.
pub open spec fn can_reserve(
    output: Output,
    l2_claimer_address: Option<Address>,
    fee: Amount,
) -> bool {
    &&& output.content is Value
    &&& l2_claimer_address is Some ==> output.address == l2_claimer_address->0
    &&& sats(output) >= fee.sats
}

/// A made reservation spends one coin of the claimer: no coin that is not locked and could
/// have been spent instead is smaller. What the fee leaves of it is paid to a new address
/// of the wallet; where it leaves nothing, there is no output and no new address.
pub proof fn reservation_spends_the_smallest_coin<D: Fn(Step) -> Result<Xpriv, DeriveError>>(
    tree: KeyTree<D>,
    w: WalletView,
    accumulator: Accumulator,
    swap_id: SwapId,
    l2_claimer_address: Option<Address>,
    fee: Amount,
    locked: Map<OutPoint, bool>,
    transaction: TransactionView,
    after: WalletView,
)
    requires
        reservation_made(
            tree,
            w,
            accumulator,
            swap_id,
            l2_claimer_address,
            fee,
            locked,
            Some(Ok::<TransactionView, Error>(transaction)),
            after,
        ),
    ensures
        transaction.inputs.len() == 1,
        ({
            let o = transaction.inputs[0].0;
            let coin = w.utxos[o];
            &&& w.utxos.contains_key(o) && !locked[o]
            &&& can_reserve(coin, l2_claimer_address, fee)
            &&& spends_all(accumulator, seq![(o, coin)], transaction)
            &&& forall|p: OutPoint| #[trigger]
                w.utxos.contains_key(p) && !locked[p] && can_reserve(
                    w.utxos[p],
                    l2_claimer_address,
                    fee,
                ) ==> sats(coin) <= sats(w.utxos[p])
            &&& sats(coin) == total_of(transaction.outputs) + fee.sats
            &&& sats(coin) == fee.sats ==> transaction.outputs.len() == 0 && after == w
            &&& sats(coin) > fee.sats ==> transaction.outputs.len() == 1
                && transaction.outputs[0].content is Value && takes_new_address(
                tree,
                w,
                transaction.outputs[0].address,
                after,
            )
            &&& transaction.data is SwapAccept
            &&& transaction.data->SwapAccept_swap_id == swap_id.0
            &&& transaction.data->SwapAccept_l2_claimer_address == coin.address
        }),
{
    let o = choose|o: OutPoint| #[trigger]
        is_least_candidate(w.utxos, locked, l2_claimer_address, fee, o) && may_accept(
            w,
            accumulator,
            fee,
            (o, w.utxos[o]),
        ) && (Ok::<TransactionView, Error>(transaction), after) == accepted(
            tree,
            w,
            accumulator,
            swap_id,
            l2_claimer_address,
            fee,
            (o, w.utxos[o]),
        );
    let coin = w.utxos[o];
    assert(is_candidate(w.utxos, locked, l2_claimer_address, fee, o));
    assert(inputs_of(seq![(o, coin)])[0].0 == o);
    lemma_spends_all(accumulator, seq![(o, coin)], transaction);
    assert forall|p: OutPoint| #[trigger]
        w.utxos.contains_key(p) && !locked[p] && can_reserve(
            w.utxos[p],
            l2_claimer_address,
            fee,
        ) implies sats(coin) <= sats(w.utxos[p]) by {
        assert(is_candidate(w.utxos, locked, l2_claimer_address, fee, p));
    }
    if sats(coin) > fee.sats {
        new_address_stands_behind_the_last(tree, w);
        assert(transaction.outputs.drop_last() =~= Seq::<Output>::empty());
        assert(total_of(transaction.outputs.drop_last()) == 0);
    }
}

/// A reservation is refused for want of funds exactly where no coin that is not locked
/// could be spent for it.
pub proof fn reservation_fails_for_want_of_a_coin<D: Fn(Step) -> Result<Xpriv, DeriveError>>(
    tree: KeyTree<D>,
    w: WalletView,
    accumulator: Accumulator,
    swap_id: SwapId,
    l2_claimer_address: Option<Address>,
    fee: Amount,
    locked: Map<OutPoint, bool>,
    result: Result<TransactionView, Error>,
    after: WalletView,
)
    requires
        reservation_made(
            tree,
            w,
            accumulator,
            swap_id,
            l2_claimer_address,
            fee,
            locked,
            Some(result),
            after,
        ),
    ensures
        result == Err::<TransactionView, Error>(Error::NotEnoughFunds) <==> forall|p: OutPoint|
            #[trigger]
            w.utxos.contains_key(p) && !locked[p] ==> !can_reserve(
                w.utxos[p],
                l2_claimer_address,
                fee,
            ),
        result is Err ==> after == w,
{
    if forall|p: OutPoint| #[trigger]
        w.utxos.contains_key(p) && !locked[p] ==> !can_reserve(
            w.utxos[p],
            l2_claimer_address,
            fee,
        ) {
        assert forall|o: OutPoint| !#[trigger] is_candidate(
            w.utxos,
            locked,
            l2_claimer_address,
            fee,
            o,
        ) by {
            if is_candidate(w.utxos, locked, l2_claimer_address, fee, o) {
                assert(can_reserve(w.utxos[o], l2_claimer_address, fee));
            }
        }
    } else {
        let p = choose|p: OutPoint| #[trigger]
            w.utxos.contains_key(p) && !locked[p] && can_reserve(
                w.utxos[p],
                l2_claimer_address,
                fee,
            );
        assert(is_candidate(w.utxos, locked, l2_claimer_address, fee, p));
    }
}

/// The index is the one behind the last that is taken.
pub open spec fn is_next_index(m: Map<u32, Address>, index: u32) -> bool {
    &&& forall|k: u32| #[trigger] m.contains_key(k) ==> k < index
    &&& index > 0 ==> m.contains_key((index - 1) as u32)
}

/// The seed gives no address at the index behind the last, for this reason.
pub open spec fn has_no_next_address<D: Fn(Step) -> Result<Xpriv, DeriveError>>(
    tree: KeyTree<D>,
    w: WalletView,
    error: Error,
) -> bool {
    match w.seed {
        None => error == Error::NoSeed,
        Some(seed) => exists|index: u32|
            {
                &&& #[trigger] tree.address(seed, index) is Err
                &&& error == Error::Bip32(tree.address(seed, index)->Err_0)
                &&& is_next_index(w.index_to_address, index)
            },
    }
}

/// Why coins cannot be found and proven to pay `cost`: it is more than an amount can
/// hold, the spendable coins hold less or more than an amount can, or one of them is not
/// in the set of unspent outputs.
pub open spec fn cannot_be_paid<F: Fn(&OutPoint) -> bool>(
    utxos: Map<OutPoint, Output>,
    accumulator: Accumulator,
    is_locked: F,
    cost: int,
    error: Error,
) -> bool {
    match error {
        Error::AmountOverflow(_) => cost > u64::MAX || exists|coins: Seq<(OutPoint, Output)>|
            #[trigger]
            are_the_spendable_coins(utxos, is_locked, coins) && held(coins) > u64::MAX,
        Error::NotEnoughFunds => exists|coins: Seq<(OutPoint, Output)>| #[trigger]
            are_the_spendable_coins(utxos, is_locked, coins) && held(coins) < cost,
        Error::Utreexo(_) => exists|o: OutPoint| #[trigger]
            utxos.contains_key(o) && !(utxos[o].content is Withdrawal) && is_locked.ensures(
                (&o,),
                false,
            ) && !accumulator.leaves().contains(blake3_hash(pointed_output_bytes(o, utxos[o]))),
        _ => false,
    }
}

/// Chosen coins that cannot be proven hold one that is not in the set.
proof fn lemma_unproven<F: Fn(&OutPoint) -> bool>(
    utxos: Map<OutPoint, Output>,
    accumulator: Accumulator,
    is_locked: F,
    cost: Amount,
    total: Amount,
    coins: Seq<(OutPoint, Output)>,
)
    requires
        may_choose(
            utxos,
            is_locked,
            cost,
            Ok::<(Amount, Seq<(OutPoint, Output)>), Error>((total, coins)),
        ),
        proof_of(accumulator, inputs_of(coins)) is Err,
    ensures
        proof_of(accumulator, inputs_of(coins))->Err_0 == Error::Utreexo(UtreexoError),
        cannot_be_paid(
            utxos,
            accumulator,
            is_locked,
            cost.sats as int,
            Error::Utreexo(UtreexoError),
        ),
{
    selection_takes_the_smallest_that_suffice(utxos, is_locked, cost, total, coins);
    let hashes = hashes_of(inputs_of(coins));
    let i = choose|i: int|
        0 <= i < hashes.len() && !accumulator.leaves().contains(#[trigger] hashes[i]);
    let o = coins[i].0;
    assert(hashes[i] == blake3_hash(pointed_output_bytes(o, utxos[o])));
    assert(utxos.contains_key(o));
}

/// A selection that failed gives a reason why coins cannot be found.
proof fn lemma_unchosen<F: Fn(&OutPoint) -> bool>(
    utxos: Map<OutPoint, Output>,
    accumulator: Accumulator,
    is_locked: F,
    cost: Amount,
    error: Error,
)
    requires
        may_choose(
            utxos,
            is_locked,
            cost,
            Err::<(Amount, Seq<(OutPoint, Output)>), Error>(error),
        ),
    ensures
        cannot_be_paid(utxos, accumulator, is_locked, cost.sats as int, error),
{
    let choice = Err::<(Amount, Seq<(OutPoint, Output)>), Error>(error);
    selection_fails_for_a_reason(utxos, is_locked, cost, choice);
}

/// A transfer is refused only where the coins cannot be found and proven, or where the
/// seed gives no address for the change. It then changes nothing. There is none at all
/// only where every index up to the last is behind the wallet.
pub proof fn transfer_is_refused_for_a_reason<
    D: Fn(Step) -> Result<Xpriv, DeriveError>,
    F: Fn(&OutPoint) -> bool,
>(
    tree: KeyTree<D>,
    w: WalletView,
    accumulator: Accumulator,
    dests: Seq<(Address, Amount)>,
    fee: Amount,
    is_locked: F,
    result: Option<Result<TransactionView, Error>>,
    after: WalletView,
)
    requires
        transfer_made(
            tree,
            w,
            accumulator,
            payments_to(dests),
            paid_to(dests) + fee.sats,
            is_locked,
            result,
            after,
        ),
    ensures
        result is None ==> after == w && w.index_to_address.contains_key(u32::MAX),
        result is Some && result->0 is Err ==> after == w && (cannot_be_paid(
            w.utxos,
            accumulator,
            is_locked,
            owed(dests) + fee.sats,
            result->0->Err_0,
        ) || has_no_next_address(tree, w, result->0->Err_0)),
        owed(dests) + fee.sats > u64::MAX ==> result == Some(
            Err::<TransactionView, Error>(Error::AmountOverflow(AmountOverflowError)),
        ),
{
    let cost = paid_to(dests) + fee.sats;
    lemma_owed(dests);
    if cost <= u64::MAX {
        let amount = Amount { sats: cost as u64 };
        let choice = choose|choice: Result<(Amount, Seq<(OutPoint, Output)>), Error>| #[trigger]
            may_choose(w.utxos, is_locked, amount, choice) && (result, after) == match choice {
                Err(error) => (Some(Err(error)), w),
                Ok((total, coins)) => if may_fund(w, accumulator, coins) {
                    super::transactions::possible(
                        funded(
                            tree,
                            w,
                            accumulator,
                            total,
                            coins,
                            cost,
                            payments_to(dests),
                            TxDataView::Regular,
                        ),
                    )
                } else {
                    (None, w)
                },
            };
        match choice {
            Err(error) => {
                lemma_unchosen(w.utxos, accumulator, is_locked, amount, error);
            },
            Ok((total, coins)) => {
                lemma_funding_refused(tree, w, accumulator, is_locked, amount, total, coins);
            },
        }
    }
}

/// Why chosen coins are not spent.
proof fn lemma_funding_refused<
    D: Fn(Step) -> Result<Xpriv, DeriveError>,
    F: Fn(&OutPoint) -> bool,
>(
    tree: KeyTree<D>,
    w: WalletView,
    accumulator: Accumulator,
    is_locked: F,
    cost: Amount,
    total: Amount,
    coins: Seq<(OutPoint, Output)>,
)
    requires
        may_choose(
            w.utxos,
            is_locked,
            cost,
            Ok::<(Amount, Seq<(OutPoint, Output)>), Error>((total, coins)),
        ),
    ensures
        !may_fund(w, accumulator, coins) ==> w.index_to_address.contains_key(u32::MAX),
        proof_of(accumulator, inputs_of(coins)) is Err ==> proof_of(
            accumulator,
            inputs_of(coins),
        )->Err_0 == Error::Utreexo(UtreexoError) && cannot_be_paid(
            w.utxos,
            accumulator,
            is_locked,
            cost.sats as int,
            Error::Utreexo(UtreexoError),
        ),
        next_index(w.index_to_address) <= u32::MAX && new_address(tree, w).0 is Err
            ==> has_no_next_address(tree, w, new_address(tree, w).0->Err_0),
{
    if proof_of(accumulator, inputs_of(coins)) is Err {
        lemma_unproven(w.utxos, accumulator, is_locked, cost, total, coins);
    }
    if w.index_to_address != Map::<u32, Address>::empty() {
        lemma_last_exists(w.index_to_address);
    }
    lemma_next_address(tree, w);
}

/// Why there is no new address.
pub(crate) proof fn lemma_next_address<D: Fn(Step) -> Result<Xpriv, DeriveError>>(
    tree: KeyTree<D>,
    w: WalletView,
)
    ensures
        next_index(w.index_to_address) <= u32::MAX && new_address(tree, w).0 is Err
            ==> has_no_next_address(tree, w, new_address(tree, w).0->Err_0),
{
    let m = w.index_to_address;
    if m != Map::<u32, Address>::empty() {
        lemma_last_exists(m);
    }
    if next_index(m) <= u32::MAX && w.seed is Some {
        let index = next_index(m) as u32;
        let key = tree.address(w.seed->0, index);
        assert(is_next_index(m, index));
    }
}

/// A withdrawal is refused only where the coins cannot be found and proven, or where the
/// seed gives no address for the withdrawal or for the change. It then changes nothing,
/// but for the address of the withdrawal where only the other is missing.
pub proof fn withdrawal_is_refused_for_a_reason<
    D: Fn(Step) -> Result<Xpriv, DeriveError>,
    F: Fn(&OutPoint) -> bool,
>(
    tree: KeyTree<D>,
    w: WalletView,
    accumulator: Accumulator,
    main_address: MainAddress,
    value: Amount,
    main_fee: Amount,
    fee: Amount,
    is_locked: F,
    result: Option<Result<TransactionView, Error>>,
    after: WalletView,
)
    requires
        withdrawal_made(
            tree,
            w,
            accumulator,
            OutputContent::Withdrawal { value, main_fee, main_address },
            value.sats + fee.sats + main_fee.sats,
            is_locked,
            result,
            after,
        ),
    ensures
        result is None ==> after == w && (w.index_to_address.contains_key(u32::MAX)
            || w.index_to_address.contains_key((u32::MAX - 1) as u32)),
        result is Some && result->0 is Err ==> (after == w && cannot_be_paid(
            w.utxos,
            accumulator,
            is_locked,
            value.sats + fee.sats + main_fee.sats,
            result->0->Err_0,
        )) || (after == w && has_no_next_address(tree, w, result->0->Err_0)) || exists|
            address: Address,
        | #[trigger]
            takes_new_address(tree, w, address, after) && has_no_next_address(
                tree,
                after,
                result->0->Err_0,
            ),
        value.sats + fee.sats + main_fee.sats > u64::MAX ==> result == Some(
            Err::<TransactionView, Error>(Error::AmountOverflow(AmountOverflowError)),
        ),
{
    let cost = value.sats + fee.sats + main_fee.sats;
    let withdrawal = OutputContent::Withdrawal { value, main_fee, main_address };
    if cost <= u64::MAX {
        let amount = Amount { sats: cost as u64 };
        let choice = choose|choice: Result<(Amount, Seq<(OutPoint, Output)>), Error>| #[trigger]
            may_choose(w.utxos, is_locked, amount, choice) && (result, after) == match choice {
                Err(error) => (Some(Err(error)), w),
                Ok((total, coins)) => if may_withdraw(tree, w, accumulator, coins) {
                    super::transactions::possible(
                        withdrawn(tree, w, accumulator, withdrawal, total, coins, cost),
                    )
                } else {
                    (None, w)
                },
            };
        match choice {
            Err(error) => {
                lemma_unchosen(w.utxos, accumulator, is_locked, amount, error);
            },
            Ok((total, coins)) => {
                lemma_funding_refused(tree, w, accumulator, is_locked, amount, total, coins);
                if w.index_to_address != Map::<u32, Address>::empty() {
                    lemma_last_exists(w.index_to_address);
                }
                if may_withdraw(tree, w, accumulator, coins) && proof_of(
                    accumulator,
                    inputs_of(coins),
                ) is Ok && new_address(tree, w).0 is Ok {
                    let (address, middle) = (new_address(tree, w).0->Ok_0, new_address(tree, w).1);
                    new_address_stands_behind_the_last(tree, w);
                    super::addresses::lemma_new_address_is_last(tree, w);
                    lemma_next_address(tree, middle);
                    assert(takes_new_address(tree, w, address, middle));
                }
            },
        }
    }
}

/// A swap's creation is refused only where it costs nothing, where the coins cannot be
/// found and proven, or where the seed gives no address for the change. It then changes
/// nothing.
pub proof fn swap_is_refused_for_a_reason<
    D: Fn(Step) -> Result<Xpriv, DeriveError>,
    F: Fn(&OutPoint) -> bool,
>(
    tree: KeyTree<D>,
    w: WalletView,
    accumulator: Accumulator,
    parent_chain: ParentChainType,
    l1_recipient_address: Seq<char>,
    l1_amount: Amount,
    l2_recipient: Option<Address>,
    l2_amount: Amount,
    required_confirmations: Option<u32>,
    fee: Amount,
    is_locked: F,
    result: Option<Result<(TransactionView, Digest), Error>>,
    after: WalletView,
)
    requires
        swap_made(
            tree,
            w,
            accumulator,
            parent_chain,
            l1_recipient_address,
            l1_amount,
            l2_recipient,
            l2_amount,
            required_confirmations,
            fee,
            is_locked,
            result,
            after,
        ),
    ensures
        result is None ==> after == w && w.index_to_address.contains_key(u32::MAX),
        l2_amount.sats + fee.sats == 0 ==> result == Some(
            Err::<(TransactionView, Digest), Error>(Error::NotEnoughFunds),
        ) && after == w,
        result is Some && result->0 is Err && l2_amount.sats + fee.sats > 0 ==> after == w && (
        cannot_be_paid(
            w.utxos,
            accumulator,
            is_locked,
            l2_amount.sats + fee.sats,
            result->0->Err_0,
        ) || has_no_next_address(tree, w, result->0->Err_0)),
        l2_amount.sats + fee.sats > u64::MAX ==> result == Some(
            Err::<(TransactionView, Digest), Error>(Error::AmountOverflow(AmountOverflowError)),
        ),
{
    let cost = l2_amount.sats + fee.sats;
    if 0 < cost <= u64::MAX {
        let amount = Amount { sats: cost as u64 };
        let choice = choose|choice: Result<(Amount, Seq<(OutPoint, Output)>), Error>| #[trigger]
            may_choose(w.utxos, is_locked, amount, choice) && (result, after) == match choice {
                Err(error) => (Some(Err(error)), w),
                Ok((total, coins)) => if may_offer(w, accumulator, coins) {
                    super::transactions::possible(
                        offered(
                            tree,
                            w,
                            accumulator,
                            total,
                            coins,
                            cost,
                            l2_recipient,
                            l2_amount,
                            swap_offer(
                                parent_chain,
                                l1_recipient_address,
                                l1_amount,
                                l2_recipient,
                                l2_amount,
                                required_confirmations,
                                coins[0].1.address,
                            ),
                        ),
                    )
                } else {
                    (None, w)
                },
            };
        match choice {
            Err(error) => {
                lemma_unchosen(w.utxos, accumulator, is_locked, amount, error);
            },
            Ok((total, coins)) => {
                lemma_funding_refused(tree, w, accumulator, is_locked, amount, total, coins);
                selection_takes_the_smallest_that_suffice(
                    w.utxos,
                    is_locked,
                    amount,
                    total,
                    coins,
                );
            },
        }
    }
}

/// A reservation that finds a coin is refused only where a coin that it could spend is
/// not in the set of unspent outputs, or where the seed gives no address for the change.
pub proof fn reservation_is_refused_for_a_reason<D: Fn(Step) -> Result<Xpriv, DeriveError>>(
    tree: KeyTree<D>,
    w: WalletView,
    accumulator: Accumulator,
    swap_id: SwapId,
    l2_claimer_address: Option<Address>,
    fee: Amount,
    locked: Map<OutPoint, bool>,
    result: Option<Result<TransactionView, Error>>,
    after: WalletView,
)
    requires
        reservation_made(
            tree,
            w,
            accumulator,
            swap_id,
            l2_claimer_address,
            fee,
            locked,
            result,
            after,
        ),
    ensures
        result is None ==> after == w && w.index_to_address.contains_key(u32::MAX),
        result is Some && result->0 is Err ==> after == w && match result->0->Err_0 {
            Error::NotEnoughFunds => forall|p: OutPoint| #[trigger]
                w.utxos.contains_key(p) && !locked[p] ==> !can_reserve(
                    w.utxos[p],
                    l2_claimer_address,
                    fee,
                ),
            Error::Utreexo(_) => exists|p: OutPoint| #[trigger]
                w.utxos.contains_key(p) && !locked[p] && can_reserve(
                    w.utxos[p],
                    l2_claimer_address,
                    fee,
                ) && !accumulator.leaves().contains(
                    blake3_hash(pointed_output_bytes(p, w.utxos[p])),
                ),
            error => has_no_next_address(tree, w, error),
        },
{
    if result is Some {
        reservation_fails_for_want_of_a_coin(
            tree,
            w,
            accumulator,
            swap_id,
            l2_claimer_address,
            fee,
            locked,
            result->0,
            after,
        );
    }
    if w.index_to_address != Map::<u32, Address>::empty() {
        lemma_last_exists(w.index_to_address);
    }
    lemma_next_address(tree, w);
    if !(forall|o: OutPoint| !#[trigger] is_candidate(
        w.utxos,
        locked,
        l2_claimer_address,
        fee,
        o,
    )) {
        let o = choose|o: OutPoint| #[trigger]
            is_least_candidate(w.utxos, locked, l2_claimer_address, fee, o) && (result, after)
                == if may_accept(w, accumulator, fee, (o, w.utxos[o])) {
                super::transactions::possible(
                    accepted(
                        tree,
                        w,
                        accumulator,
                        swap_id,
                        l2_claimer_address,
                        fee,
                        (o, w.utxos[o]),
                    ),
                )
            } else {
                (None, w)
            };
        let hashes = hashes_of(inputs_of(seq![(o, w.utxos[o])]));
        assert(is_candidate(w.utxos, locked, l2_claimer_address, fee, o));
        if proof_of(accumulator, inputs_of(seq![(o, w.utxos[o])])) is Err {
            let i = choose|i: int|
                0 <= i < hashes.len() && !accumulator.leaves().contains(#[trigger] hashes[i]);
            assert(hashes[i] == blake3_hash(pointed_output_bytes(o, w.utxos[o])));
            assert(w.utxos.contains_key(o) && can_reserve(w.utxos[o], l2_claimer_address, fee));
        }
    }
}

/// What `is_locked` is asked for a reservation is answered of every coin that could be
/// spent for it.
pub proof fn reservation_asks_of_every_coin<F: Fn(&OutPoint) -> bool>(
    is_locked: F,
    utxos: Map<OutPoint, Output>,
    locked: Map<OutPoint, bool>,
    l2_claimer_address: Option<Address>,
    fee: Amount,
    o: OutPoint,
)
    requires
        lock_answers(is_locked, utxos, locked),
        utxos.contains_key(o),
        can_reserve(utxos[o], l2_claimer_address, fee),
    ensures
        is_locked.ensures((&o,), locked[o]),
{
}

} // verus!
