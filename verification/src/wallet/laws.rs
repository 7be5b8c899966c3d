//! What holds of the wallet as a whole.

use vstd::prelude::*;

use crate::accumulator::{in_set_after, Accumulator};
use crate::amount::Amount;
use crate::derivation::{DeriveError, KeyTree, Step, Xpriv};
use crate::encoding::{encodable, swap_bytes};
use crate::hashing::blake3_hash;
use crate::keys::key_address;
use crate::types::{
    value_of, Address, Digest, InPoint, OutPoint, Output, OutputContent, ParentChainType, SwapId,
    TransactionView, TxDataView,
};

use super::addresses::{
    address_or_new, indexed, is_hit, last_address, last_index, lemma_last_exists,
    lemma_new_address_is_last, new_address, next_index, receive_address, received, searched,
};
use super::coins::{
    answers, coin_choice, is_ordering, is_shortest, lemma_map_sum_remove, map_sum, may_choose,
    sorted_by_value, spendable, spent, worth,
};
use super::signing::{key_for, keys_for};
use super::transactions::{
    accepted, claimed, funded, inputs_of, is_candidate, lemma_shortest_exists, offered, swap_offer,
    swap_output, withdrawn,
};
use super::{
    address_at, empty_with, index_zero_adopted, seed_set, versioned, Error, Version, WalletView,
};

verus! {

/// Every recorded address is the one that the seed gives at its index.
pub open spec fn follows_from_seed<D: Fn(Step) -> Result<Xpriv, DeriveError>>(
    tree: KeyTree<D>,
    w: WalletView,
) -> bool {
    &&& forall|i: u32| #[trigger]
        w.index_to_address.contains_key(i) ==> w.seed is Some && tree.address(w.seed->0, i) == Ok::<
            Address,
            DeriveError,
        >(w.index_to_address[i])
    &&& forall|a: Address| #[trigger]
        w.address_to_index.contains_key(a) ==> w.seed is Some && tree.address(
            w.seed->0,
            w.address_to_index[a],
        ) == Ok::<Address, DeriveError>(a)
}

/// A wallet that was just given a seed has recorded nothing that does not follow from
/// it.
pub proof fn fresh_wallet_follows_from_seed<D: Fn(Step) -> Result<Xpriv, DeriveError>>(
    tree: KeyTree<D>,
    seed: Option<[u8; 64]>,
    version: Option<Version>,
)
    ensures
        follows_from_seed(tree, empty_with(seed, version)),
{
}

/// A new address follows from the seed, as the others do.
pub proof fn new_address_follows_from_seed<D: Fn(Step) -> Result<Xpriv, DeriveError>>(
    tree: KeyTree<D>,
    w: WalletView,
)
    requires
        follows_from_seed(tree, w),
    ensures
        follows_from_seed(tree, new_address(tree, w).1),
        new_address(tree, w).1.seed == w.seed,
{
}

/// Adopting index 0 records an address that follows from the seed.
pub proof fn adoption_follows_from_seed<D: Fn(Step) -> Result<Xpriv, DeriveError>>(
    tree: KeyTree<D>,
    w: WalletView,
)
    requires
        follows_from_seed(tree, w),
    ensures
        follows_from_seed(tree, index_zero_adopted(tree, w).1),
{
}

/// An address is recorded only at an index where the seed gives it.
pub proof fn indexing_follows_from_seed<D: Fn(Step) -> Result<Xpriv, DeriveError>>(
    tree: KeyTree<D>,
    w: WalletView,
    address: Address,
)
    requires
        follows_from_seed(tree, w),
    ensures
        follows_from_seed(tree, indexed(tree, w, address).1),
        indexed(tree, w, address).1.seed == w.seed,
        indexed(tree, w, address).1.utxos == w.utxos,
{
}

/// A search for addresses records only what follows from the seed.
pub proof fn search_follows_from_seed<D: Fn(Step) -> Result<Xpriv, DeriveError>>(
    tree: KeyTree<D>,
    seed: [u8; 64],
    set: Set<Address>,
    w: WalletView,
    n: nat,
)
    requires
        follows_from_seed(tree, w),
        w.seed == Some(seed),
    ensures
        follows_from_seed(tree, searched(tree, seed, set, w, n).0),
        searched(tree, seed, set, w, n).0.seed == w.seed,
    decreases n,
{
    if n > 0 {
        search_follows_from_seed(tree, seed, set, w, (n - 1) as nat);
    }
}

/// Signing records only addresses that follow from the seed, and leaves the coins as
/// they are.
pub proof fn signing_follows_from_seed<D: Fn(Step) -> Result<Xpriv, DeriveError>>(
    tree: KeyTree<D>,
    w: WalletView,
    transaction: TransactionView,
    n: nat,
)
    requires
        follows_from_seed(tree, w),
    ensures
        follows_from_seed(tree, keys_for(tree, w, transaction, n).1),
        keys_for(tree, w, transaction, n).1.seed == w.seed,
        keys_for(tree, w, transaction, n).1.utxos == w.utxos,
    decreases n,
{
    if n > 0 {
        signing_follows_from_seed(tree, w, transaction, (n - 1) as nat);
        let middle = keys_for(tree, w, transaction, (n - 1) as nat).1;
        let outpoint = transaction.inputs[n - 1].0;
        if middle.utxos.contains_key(outpoint) {
            indexing_follows_from_seed(tree, middle, middle.utxos[outpoint].address);
        }
    }
}

/// Making a transaction records only addresses that follow from the seed. It does not
/// touch the coins: a coin is spent only once the wallet is told so.
pub proof fn making_follows_from_seed<D: Fn(Step) -> Result<Xpriv, DeriveError>>(
    tree: KeyTree<D>,
    w: WalletView,
    accumulator: Accumulator,
    total: Amount,
    coins: Seq<(OutPoint, Output)>,
    cost: int,
    payments: Seq<Output>,
    data: TxDataView,
    withdrawal: OutputContent,
    swap_id: SwapId,
    l2_claimer_address: Option<Address>,
    fee: Amount,
    coin: (OutPoint, Output),
)
    requires
        follows_from_seed(tree, w),
    ensures
        ({
            let after = funded(tree, w, accumulator, total, coins, cost, payments, data).1;
            follows_from_seed(tree, after) && after.seed == w.seed && after.utxos == w.utxos
                && after.stxos == w.stxos
        }),
        ({
            let after = withdrawn(tree, w, accumulator, withdrawal, total, coins, cost).1;
            follows_from_seed(tree, after) && after.seed == w.seed && after.utxos == w.utxos
                && after.stxos == w.stxos
        }),
        ({
            let after = accepted(
                tree,
                w,
                accumulator,
                swap_id,
                l2_claimer_address,
                fee,
                coin,
            ).1;
            follows_from_seed(tree, after) && after.seed == w.seed && after.utxos == w.utxos
                && after.stxos == w.stxos
        }),
{
    new_address_follows_from_seed(tree, w);
    new_address_follows_from_seed(tree, new_address(tree, w).1);
}

/// The first address of a wallet is the one with index 0.
pub proof fn first_address_has_index_zero<D: Fn(Step) -> Result<Xpriv, DeriveError>>(
    tree: KeyTree<D>,
    w: WalletView,
)
    requires
        w.index_to_address == Map::<u32, Address>::empty(),
    ensures
        new_address(tree, w).0 == address_at(tree, w, 0),
{
}

/// A new address is one that the wallet never recorded, as long as the seed does not
/// give one address at two indices: no two change outputs share an address.
pub proof fn new_address_was_never_recorded<D: Fn(Step) -> Result<Xpriv, DeriveError>>(
    tree: KeyTree<D>,
    w: WalletView,
)
    requires
        follows_from_seed(tree, w),
        next_index(w.index_to_address) <= u32::MAX,
        new_address(tree, w).0 is Ok,
        forall|i: u32|
            i != next_index(w.index_to_address) ==> #[trigger] tree.address(w.seed->0, i) != Ok::<
                Address,
                DeriveError,
            >(new_address(tree, w).0->Ok_0),
    ensures
        !w.index_to_address.values().contains(new_address(tree, w).0->Ok_0),
{
    let address = new_address(tree, w).0->Ok_0;
    lemma_new_address_is_last(tree, w);
    if w.index_to_address.values().contains(address) {
        let i = choose|i: u32| w.index_to_address.contains_key(i) && w.index_to_address[i] == address;
        assert(tree.address(w.seed->0, i) == Ok::<Address, DeriveError>(address));
        assert(i == next_index(w.index_to_address));
    }
}

/// Each new address takes the index behind the one before it, and addresses that
/// were recorded at an index stay there.
pub proof fn new_addresses_take_successive_indices<D: Fn(Step) -> Result<Xpriv, DeriveError>>(
    tree: KeyTree<D>,
    w: WalletView,
)
    requires
        next_index(w.index_to_address) <= u32::MAX,
        new_address(tree, w).0 is Ok,
    ensures
        next_index(new_address(tree, w).1.index_to_address) == next_index(w.index_to_address) + 1,
        forall|i: u32| #[trigger]
            w.index_to_address.contains_key(i) ==> new_address(tree, w).1.index_to_address.contains_key(
                i,
            ) && new_address(tree, w).1.index_to_address[i] == w.index_to_address[i],
{
    lemma_new_address_is_last(tree, w);
}

/// The receive address stays the same until it has received.
pub proof fn receive_address_waits_for_a_payment<D: Fn(Step) -> Result<Xpriv, DeriveError>>(
    tree: KeyTree<D>,
    w: WalletView,
)
    requires
        next_index(w.index_to_address) <= u32::MAX,
        receive_address(tree, w).0 is Ok,
        !received(receive_address(tree, w).1, receive_address(tree, w).0->Ok_0),
    ensures
        receive_address(tree, receive_address(tree, w).1) == (
            Ok::<Address, Error>(receive_address(tree, w).0->Ok_0),
            receive_address(tree, w).1,
        ),
{
    if new_address(tree, w).0 is Ok {
        lemma_new_address_is_last(tree, w);
    }
}

/// The receive address moves on once it has received: it is then a new one, with an
/// index that had no address.
pub proof fn receive_address_moves_on<D: Fn(Step) -> Result<Xpriv, DeriveError>>(
    tree: KeyTree<D>,
    w: WalletView,
    address: Address,
)
    requires
        last_address(w) == Some(address),
        received(w, address),
    ensures
        receive_address(tree, w) == new_address(tree, w),
        receive_address(tree, w).0 is Ok && last_index(w.index_to_address) < u32::MAX
            ==> !w.index_to_address.contains_key((last_index(w.index_to_address) + 1) as u32),
{
    if w.index_to_address != Map::<u32, Address>::empty() {
        lemma_last_exists(w.index_to_address);
    }
}

/// Asked for its last address again, the wallet gives the same one.
pub proof fn address_or_new_is_stable<D: Fn(Step) -> Result<Xpriv, DeriveError>>(
    tree: KeyTree<D>,
    w: WalletView,
)
    requires
        address_or_new(tree, w).0 is Ok,
    ensures
        address_or_new(tree, address_or_new(tree, w).1) == address_or_new(tree, w),
{
    if last_address(w) is None {
        lemma_new_address_is_last(tree, w);
    }
}

/// Adopting index 0 twice is adopting it once.
pub proof fn adoption_is_idempotent<D: Fn(Step) -> Result<Xpriv, DeriveError>>(
    tree: KeyTree<D>,
    w: WalletView,
)
    requires
        index_zero_adopted(tree, w).0 is Ok,
    ensures
        index_zero_adopted(tree, index_zero_adopted(tree, w).1) == (
            Ok::<(), Error>(()),
            index_zero_adopted(tree, w).1,
        ),
{
}

/// A wallet with a seed and an address has the address with index 0 once that is
/// adopted, and the addresses that it had.
pub proof fn adoption_adds_index_zero_alone<D: Fn(Step) -> Result<Xpriv, DeriveError>>(
    tree: KeyTree<D>,
    w: WalletView,
)
    requires
        index_zero_adopted(tree, w).0 is Ok,
        w.seed is Some,
        w.index_to_address != Map::<u32, Address>::empty(),
    ensures
        index_zero_adopted(tree, w).1.index_to_address.contains_key(0),
        forall|i: u32| #[trigger]
            w.index_to_address.contains_key(i) ==> index_zero_adopted(
                tree,
                w,
            ).1.index_to_address[i] == w.index_to_address[i],
        forall|i: u32| #[trigger]
            index_zero_adopted(tree, w).1.index_to_address.contains_key(i)
                ==> w.index_to_address.contains_key(i) || i == 0,
{
}

/// Opening stores keeps the seed, the coins and a version that they have. It adds the
/// address with index 0 exactly where there is a seed and an address but not that one,
/// and the version exactly where there is none. Opening them again changes nothing.
pub proof fn opening_keeps_what_is_stored<D: Fn(Step) -> Result<Xpriv, DeriveError>>(
    tree: KeyTree<D>,
    w: WalletView,
    version: Version,
    later: Version,
    after: WalletView,
)
    requires
        index_zero_adopted(tree, versioned(w, version)) == (Ok::<(), Error>(()), after),
    ensures
        after.seed == w.seed,
        after.utxos == w.utxos,
        after.stxos == w.stxos,
        w.version is Some ==> after.version == w.version,
        w.version is None ==> after.version == Some(version),
        w.seed is Some && w.index_to_address != Map::<u32, Address>::empty()
            && !w.index_to_address.contains_key(0) ==> address_at(tree, w, 0) is Ok
            && after.index_to_address == w.index_to_address.insert(
            0,
            address_at(tree, w, 0)->Ok_0,
        ) && after.address_to_index == w.address_to_index.insert(
            address_at(tree, w, 0)->Ok_0,
            0,
        ),
        !(w.seed is Some && w.index_to_address != Map::<u32, Address>::empty()
            && !w.index_to_address.contains_key(0)) ==> after.index_to_address
            == w.index_to_address && after.address_to_index == w.address_to_index,
        index_zero_adopted(tree, versioned(after, later)) == (Ok::<(), Error>(()), after),
{
}

/// Setting the seed that is set changes nothing, and setting another is refused.
pub proof fn seed_is_set_once(w: WalletView, first: [u8; 64], second: [u8; 64])
    requires
        seed_set(w, first).0 is Ok,
    ensures
        second@ == first@ ==> seed_set(seed_set(w, first).1, second) == (
            Ok::<(), Error>(()),
            seed_set(w, first).1,
        ),
        second@ != first@ ==> seed_set(seed_set(w, first).1, second) == (
            Err::<(), Error>(Error::SeedAlreadyExists),
            seed_set(w, first).1,
        ),
{
}

/// An address that was indexed is recorded, and indexing it again changes nothing.
pub proof fn indexing_is_idempotent<D: Fn(Step) -> Result<Xpriv, DeriveError>>(
    tree: KeyTree<D>,
    w: WalletView,
    address: Address,
)
    requires
        indexed(tree, w, address).0 is Ok,
    ensures
        indexed(tree, w, address).1.address_to_index.contains_key(address),
        indexed(tree, indexed(tree, w, address).1, address) == (
            Ok::<(), Error>(()),
            indexed(tree, w, address).1,
        ),
        forall|a: Address| #[trigger]
            w.address_to_index.contains_key(a) ==> indexed(
                tree,
                w,
                address,
            ).1.address_to_index.contains_key(a) && indexed(
                tree,
                w,
                address,
            ).1.address_to_index[a] == w.address_to_index[a],
{
}

/// A search records every address of the set that stands at a searched index, keeps
/// what was recorded for an address, and counts what it records.
pub proof fn search_records_every_hit<D: Fn(Step) -> Result<Xpriv, DeriveError>>(
    tree: KeyTree<D>,
    seed: [u8; 64],
    set: Set<Address>,
    w: WalletView,
    n: nat,
)
    requires
        n <= u32::MAX,
        w.address_to_index.dom().finite(),
    ensures
        forall|i: int|
            0 <= i < n && #[trigger] is_hit(tree, seed, set, i) ==> searched(
                tree,
                seed,
                set,
                w,
                n,
            ).0.address_to_index.contains_key(tree.address(seed, i as u32)->Ok_0),
        forall|a: Address| #[trigger]
            w.address_to_index.contains_key(a) ==> searched(
                tree,
                seed,
                set,
                w,
                n,
            ).0.address_to_index.contains_key(a) && searched(
                tree,
                seed,
                set,
                w,
                n,
            ).0.address_to_index[a] == w.address_to_index[a],
        searched(tree, seed, set, w, n).0.address_to_index.dom().finite(),
        searched(tree, seed, set, w, n).0.address_to_index.dom().len()
            == w.address_to_index.dom().len() + searched(tree, seed, set, w, n).1,
    decreases n,
{
    if n > 0 {
        search_records_every_hit(tree, seed, set, w, (n - 1) as nat);
        let before = searched(tree, seed, set, w, (n - 1) as nat).0.address_to_index;
        let after = searched(tree, seed, set, w, n).0.address_to_index;
        if tree.address(seed, (n - 1) as u32) is Ok {
            let address = tree.address(seed, (n - 1) as u32)->Ok_0;
            if set.contains(address) && !before.contains_key(address) {
                assert(after.dom() =~= before.dom().insert(address));
            }
        }
        assert forall|i: int| 0 <= i < n && #[trigger] is_hit(tree, seed, set, i) implies after.contains_key(
            tree.address(seed, i as u32)->Ok_0,
        ) by {
            if i < n - 1 {
                assert(before.contains_key(tree.address(seed, i as u32)->Ok_0));
            }
        }
    }
}

/// The outpoint is in the list.
pub open spec fn is_listed(list: Seq<(OutPoint, InPoint)>, o: OutPoint) -> bool {
    exists|i: int| 0 <= i < list.len() && (#[trigger] list[i]).0 == o
}

/// Spending takes exactly the listed outputs out of the unspent ones, and each of
/// them is then a spent one, with a place where it was spent.
pub proof fn spending_moves_outputs(w: WalletView, list: Seq<(OutPoint, InPoint)>)
    ensures
        forall|o: OutPoint| #[trigger]
            spent(w, list).utxos.contains_key(o) <==> w.utxos.contains_key(o) && !is_listed(list, o),
        forall|o: OutPoint| #[trigger]
            spent(w, list).utxos.contains_key(o) ==> spent(w, list).utxos[o] == w.utxos[o],
        forall|o: OutPoint|
            w.utxos.contains_key(o) && is_listed(list, o) ==> #[trigger] spent(
                w,
                list,
            ).stxos.contains_key(o) && spent(w, list).stxos[o].output == w.utxos[o] && list.contains(
                (o, spent(w, list).stxos[o].inpoint),
            ),
        forall|o: OutPoint|
            !(w.utxos.contains_key(o) && is_listed(list, o)) ==> #[trigger] spent(
                w,
                list,
            ).stxos.contains_key(o) == w.stxos.contains_key(o) && (w.stxos.contains_key(o) ==> spent(
                w,
                list,
            ).stxos[o] == w.stxos[o]),
        spent(w, list).seed == w.seed,
        spent(w, list).address_to_index == w.address_to_index,
        spent(w, list).index_to_address == w.index_to_address,
    decreases list.len(),
{
    if list.len() > 0 {
        let front = list.drop_last();
        let (o, inpoint) = list.last();
        spending_moves_outputs(w, front);
        let before = spent(w, front);
        let after = spent(w, list);
        assert(list[list.len() - 1].0 == o);
        assert forall|p: OutPoint| is_listed(front, p) implies is_listed(list, p) by {
            let i = choose|i: int| 0 <= i < front.len() && (#[trigger] front[i]).0 == p;
            assert(list[i].0 == p);
        }
        assert forall|p: OutPoint| is_listed(list, p) && p != o implies is_listed(front, p) by {
            let i = choose|i: int| 0 <= i < list.len() && (#[trigger] list[i]).0 == p;
            assert(front[i].0 == p);
        }
        assert(is_listed(list, o));
        assert forall|p: OutPoint|
            w.utxos.contains_key(p) && is_listed(list, p) implies #[trigger] after.stxos.contains_key(
            p,
        ) && after.stxos[p].output == w.utxos[p] && list.contains(
            (p, after.stxos[p].inpoint),
        ) by {
            if is_listed(front, p) {
                assert(!before.utxos.contains_key(p));
                assert(before.stxos.contains_key(p));
                let pair = (p, before.stxos[p].inpoint);
                assert(front.contains(pair));
                let i = choose|i: int| 0 <= i < front.len() && front[i] == pair;
                assert(list[i] == pair);
            } else {
                assert(p == o);
                assert(before.utxos.contains_key(p));
                assert(list[list.len() - 1] == (o, inpoint));
            }
        }
    }
}

/// Spending an output lowers the balance by what the output counts for, and spending
/// what is not there leaves the balance as it is.
pub proof fn spending_lowers_the_balance(w: WalletView, o: OutPoint, inpoint: InPoint, all: bool)
    requires
        w.utxos.dom().finite(),
    ensures
        w.utxos.contains_key(o) ==> map_sum(spent(w, seq![(o, inpoint)]).utxos, all)
            + super::coins::weight(w.utxos[o], all) == map_sum(w.utxos, all),
        !w.utxos.contains_key(o) ==> spent(w, seq![(o, inpoint)]) == w,
{
    let list = seq![(o, inpoint)];
    assert(list.drop_last() =~= Seq::<(OutPoint, InPoint)>::empty());
    assert(spent(w, list.drop_last()) == w);
    if w.utxos.contains_key(o) {
        lemma_map_sum_remove(w.utxos, o, all);
    }
}

/// Receiving an output raises the balance by what the output counts for.
pub proof fn receiving_raises_the_balance(
    utxos: Map<OutPoint, Output>,
    o: OutPoint,
    output: Output,
    all: bool,
)
    requires
        utxos.dom().finite(),
        !utxos.contains_key(o),
    ensures
        map_sum(utxos.insert(o, output), all) == map_sum(utxos, all) + super::coins::weight(
            output,
            all,
        ),
{
    lemma_map_sum_remove(utxos.insert(o, output), o, all);
    assert(utxos.insert(o, output).remove(o) =~= utxos);
}

/// What is available is never more than the total.
pub proof fn available_is_within_total(utxos: Map<OutPoint, Output>)
    ensures
        map_sum(utxos, false) <= map_sum(utxos, true),
    decreases utxos.dom().len(),
{
    if utxos.dom().finite() && utxos.dom().len() > 0 {
        let o = utxos.dom().choose();
        assert(utxos.remove(o).dom() =~= utxos.dom().remove(o));
        available_is_within_total(utxos.remove(o));
    }
}

/// Chosen coins suffice, and without the last of them they do not: coin selection
/// does not overshoot.
pub proof fn selection_does_not_overshoot(coins: Seq<(OutPoint, Output)>, value: u64)
    requires
        coin_choice(coins, value) is Ok,
    ensures
        worth(coin_choice(coins, value)->Ok_0.1) >= value,
        worth(coin_choice(coins, value)->Ok_0.1) == coin_choice(coins, value)->Ok_0.0.sats,
        coin_choice(coins, value)->Ok_0.1.is_prefix_of(coins),
        coin_choice(coins, value)->Ok_0.1.len() > 0 ==> worth(
            coin_choice(coins, value)->Ok_0.1.drop_last(),
        ) < value,
{
    lemma_shortest_exists(coins, value);
    let k = choose|k: int| is_shortest(coins, value, k);
    if k > 0 {
        assert(coins.take(k).drop_last() =~= coins.take(k - 1));
    }
}

/// Coin selection fails for want of funds exactly where all spendable coins together
/// do not suffice.
pub proof fn selection_fails_only_for_want_of_funds(coins: Seq<(OutPoint, Output)>, value: u64)
    ensures
        coin_choice(coins, value) == Err::<(Amount, Seq<(OutPoint, Output)>), Error>(
            Error::NotEnoughFunds,
        ) <==> worth(coins) < value,
        worth(coins) <= u64::MAX && value <= worth(coins) ==> coin_choice(coins, value) is Ok,
{
    if worth(coins) >= value {
        lemma_shortest_exists(coins, value);
        let k = choose|k: int| is_shortest(coins, value, k);
        super::coins::lemma_sum_take(coins, k, true);
    }
}

/// Spendable coins are coins of the list that are neither withdrawals nor locked, in
/// the order of the list, and every such coin is spendable.
pub proof fn spendable_coins_are_unlocked(coins: Seq<(OutPoint, Output)>, locked: Seq<bool>)
    ensures
        forall|coin: (OutPoint, Output)| #[trigger]
            spendable(coins, locked).contains(coin) <==> exists|i: int|
                0 <= i < coins.len() && #[trigger] coins[i] == coin && !(
                coin.1.content is Withdrawal) && !locked[i],
        sorted_by_value(coins) ==> sorted_by_value(spendable(coins, locked)),
    decreases coins.len(),
{
    if coins.len() > 0 {
        let front = coins.drop_last();
        let last = coins.last();
        spendable_coins_are_unlocked(front, locked);
        let before = spendable(front, locked);
        let after = spendable(coins, locked);
        assert forall|coin: (OutPoint, Output)| #[trigger] after.contains(coin) implies exists|i: int|
            0 <= i < coins.len() && #[trigger] coins[i] == coin && !(
            coin.1.content is Withdrawal) && !locked[i] by {
            if before.contains(coin) {
                let i = choose|i: int|
                    0 <= i < front.len() && #[trigger] front[i] == coin && !(
                    coin.1.content is Withdrawal) && !locked[i];
                assert(coins[i] == coin);
            } else {
                let j = choose|j: int| 0 <= j < after.len() && after[j] == coin;
                if j < before.len() {
                    assert(before[j] == coin);
                }
                assert(coins[coins.len() - 1] == coin);
            }
        }
        assert forall|i: int|
            0 <= i < coins.len() && !((#[trigger] coins[i]).1.content is Withdrawal)
                && !locked[i] implies after.contains(coins[i]) by {
            if i < front.len() {
                assert(front[i] == coins[i]);
                assert(before.contains(coins[i]));
                let j = choose|j: int| 0 <= j < before.len() && before[j] == coins[i];
                assert(after[j] == coins[i]);
            } else {
                assert(after[after.len() - 1] == last);
            }
        }
        if sorted_by_value(coins) {
            assert(sorted_by_value(front)) by {
                assert forall|i: int, j: int| 0 <= i <= j < front.len() implies value_of(
                    (#[trigger] front[i]).1,
                ).sats <= value_of((#[trigger] front[j]).1).sats by {
                    assert(value_of(coins[i].1).sats <= value_of(coins[j].1).sats);
                }
            }
            assert forall|i: int, j: int| 0 <= i <= j < after.len() implies value_of(
                (#[trigger] after[i]).1,
            ).sats <= value_of((#[trigger] after[j]).1).sats by {
                if j < before.len() {
                    assert(after[i] == before[i] && after[j] == before[j]);
                } else if i < before.len() {
                    assert(before.contains(before[i]));
                    let k = choose|k: int|
                        0 <= k < front.len() && #[trigger] front[k] == before[i] && !(
                        before[i].1.content is Withdrawal) && !locked[k];
                    assert(coins[k] == before[i]);
                    assert(value_of(coins[k].1).sats <= value_of(coins[coins.len() - 1].1).sats);
                }
            }
        }
    }
}

/// Chosen coins are the wallet's own, each once. None is a withdrawal, and of none has
/// `is_locked` said that it is locked. They are worth what was asked for.
pub proof fn chosen_coins_are_own_and_unlocked<F: Fn(&OutPoint) -> bool>(
    utxos: Map<OutPoint, Output>,
    is_locked: F,
    value: Amount,
    total: Amount,
    chosen: Seq<(OutPoint, Output)>,
)
    requires
        may_choose(
            utxos,
            is_locked,
            value,
            Ok::<(Amount, Seq<(OutPoint, Output)>), Error>((total, chosen)),
        ),
    ensures
        total.sats == worth(chosen),
        value.sats <= total.sats,
        forall|i: int|
            0 <= i < chosen.len() ==> utxos.contains_key((#[trigger] chosen[i]).0)
                && utxos[chosen[i].0] == chosen[i].1 && !(chosen[i].1.content is Withdrawal)
                && is_locked.ensures((&chosen[i].0,), false),
        sorted_by_value(chosen),
        crate::table::keys_distinct(chosen),
{
    let choice = Ok::<(Amount, Seq<(OutPoint, Output)>), Error>((total, chosen));
    let (order, locked) = choose|order: Seq<(OutPoint, Output)>, locked: Seq<bool>| #[trigger]
        is_ordering(utxos, order) && #[trigger] answers(is_locked, order, locked) && choice
            == coin_choice(spendable(order, locked), value.sats);
    let coins = spendable(order, locked);
    selection_does_not_overshoot(coins, value.sats);
    spendable_coins_are_unlocked(order, locked);
    lemma_spendable_distinct(order, locked);
    assert forall|i: int| 0 <= i < chosen.len() implies #[trigger] chosen[i] == coins[i] by {}
    assert forall|i: int| 0 <= i < chosen.len() implies utxos.contains_key(
        (#[trigger] chosen[i]).0,
    ) && utxos[chosen[i].0] == chosen[i].1 && !(chosen[i].1.content is Withdrawal)
        && is_locked.ensures((&chosen[i].0,), false) by {
        assert(coins.contains(coins[i]));
        let j = choose|j: int|
            0 <= j < order.len() && #[trigger] order[j] == coins[i] && !(
            coins[i].1.content is Withdrawal) && !locked[j];
        crate::table::lemma_row_in_map(order, j);
        assert(is_locked.ensures((&order[j].0,), locked[j]));
    }
    assert(crate::table::keys_distinct(chosen)) by {
        assert forall|i: int, j: int|
            0 <= i < chosen.len() && 0 <= j < chosen.len() && i != j implies (
        #[trigger] chosen[i]).0 != (#[trigger] chosen[j]).0 by {
            assert(coins[i].0 != coins[j].0);
        }
    }
}

/// Spendable coins stand at distinct outpoints where all coins do.
pub(crate) proof fn lemma_spendable_distinct(coins: Seq<(OutPoint, Output)>, locked: Seq<bool>)
    requires
        crate::table::keys_distinct(coins),
    ensures
        crate::table::keys_distinct(spendable(coins, locked)),
    decreases coins.len(),
{
    if coins.len() > 0 {
        let front = coins.drop_last();
        let last = coins.last();
        assert(crate::table::keys_distinct(front)) by {
            assert forall|i: int, j: int|
                0 <= i < front.len() && 0 <= j < front.len() && i != j implies (
            #[trigger] front[i]).0 != (#[trigger] front[j]).0 by {
                assert(coins[i].0 != coins[j].0);
            }
        }
        lemma_spendable_distinct(front, locked);
        spendable_coins_are_unlocked(front, locked);
        let before = spendable(front, locked);
        let after = spendable(coins, locked);
        assert forall|i: int| 0 <= i < before.len() implies (#[trigger] before[i]).0
            != last.0 by {
            assert(before.contains(before[i]));
            let k = choose|k: int|
                0 <= k < front.len() && #[trigger] front[k] == before[i] && !(
                before[i].1.content is Withdrawal) && !locked[k];
            assert(coins[k].0 != coins[coins.len() - 1].0);
        }
        assert forall|i: int, j: int|
            0 <= i < after.len() && 0 <= j < after.len() && i != j implies (
        #[trigger] after[i]).0 != (#[trigger] after[j]).0 by {
            if i < before.len() {
                assert(after[i] == before[i]);
            }
            if j < before.len() {
                assert(after[j] == before[j]);
            }
        }
    }
}

/// A swap's identifier is computed from the owner of the first input: the transaction
/// says the same identifier in what it does and in the output that it locks.
pub proof fn swap_belongs_to_the_owner_of_the_first_input<D: Fn(Step) -> Result<Xpriv, DeriveError>>(
    tree: KeyTree<D>,
    w: WalletView,
    accumulator: Accumulator,
    total: Amount,
    coins: Seq<(OutPoint, Output)>,
    cost: int,
    parent_chain: ParentChainType,
    l1_recipient_address: Seq<char>,
    l1_amount: Amount,
    l2_recipient: Option<Address>,
    l2_amount: Amount,
    required_confirmations: Option<u32>,
)
    requires
        coins.len() > 0,
        offered(
            tree,
            w,
            accumulator,
            total,
            coins,
            cost,
            l2_recipient,
            l2_amount,
            swap_offer(
                parent_chain,
                l1_recipient_address,
                l1_amount,
                l2_recipient,
                l2_amount,
                required_confirmations,
                coins[0].1.address,
            ),
        ).0 is Ok,
    ensures
        ({
            let (transaction, id) = offered(
                tree,
                w,
                accumulator,
                total,
                coins,
                cost,
                l2_recipient,
                l2_amount,
                swap_offer(
                    parent_chain,
                    l1_recipient_address,
                    l1_amount,
                    l2_recipient,
                    l2_amount,
                    required_confirmations,
                    coins[0].1.address,
                ),
            ).0->Ok_0;
            &&& transaction.inputs[0].0 == coins[0].0
            &&& id == blake3_hash(
                swap_bytes(l1_recipient_address, l1_amount, coins[0].1.address, l2_recipient),
            )
            &&& transaction.data->SwapCreate_swap_id == id
            &&& transaction.outputs[0] == swap_output(
                l2_recipient,
                coins[0].1.address,
                l2_amount,
                id,
            )
        }),
{
    assert(inputs_of(coins)[0].0 == coins[0].0);
}

/// A reservation names as claimer the owner of the coin that it spends.
pub proof fn reservation_spends_a_coin_of_the_claimer<D: Fn(Step) -> Result<Xpriv, DeriveError>>(
    tree: KeyTree<D>,
    w: WalletView,
    accumulator: Accumulator,
    swap_id: SwapId,
    l2_claimer_address: Option<Address>,
    fee: Amount,
    locked: Map<OutPoint, bool>,
    o: OutPoint,
)
    requires
        is_candidate(w.utxos, locked, l2_claimer_address, fee, o),
        accepted(
            tree,
            w,
            accumulator,
            swap_id,
            l2_claimer_address,
            fee,
            (o, w.utxos[o]),
        ).0 is Ok,
    ensures
        ({
            let transaction = accepted(
                tree,
                w,
                accumulator,
                swap_id,
                l2_claimer_address,
                fee,
                (o, w.utxos[o]),
            ).0->Ok_0;
            &&& transaction.inputs.len() == 1
            &&& transaction.inputs[0].0 == o
            &&& transaction.data->SwapAccept_l2_claimer_address == w.utxos[o].address
            &&& l2_claimer_address is Some ==> l2_claimer_address->0 == w.utxos[o].address
        }),
{
}

/// What outputs pay in all.
pub open spec fn paid_out(outputs: Seq<Output>) -> nat
    decreases outputs.len(),
{
    if outputs.len() == 0 {
        0
    } else {
        paid_out(outputs.drop_last()) + value_of(outputs.last()).sats as nat
    }
}

/// A transfer or a swap's creation pays out what it spends, but for the fee.
pub proof fn funding_conserves_value<D: Fn(Step) -> Result<Xpriv, DeriveError>>(
    tree: KeyTree<D>,
    w: WalletView,
    accumulator: Accumulator,
    total: Amount,
    coins: Seq<(OutPoint, Output)>,
    fee: int,
    payments: Seq<Output>,
    data: TxDataView,
)
    requires
        total.sats == worth(coins),
        0 <= fee,
        paid_out(payments) + fee <= total.sats,
        funded(tree, w, accumulator, total, coins, paid_out(payments) + fee, payments, data).0 is Ok,
    ensures
        paid_out(
            funded(
                tree,
                w,
                accumulator,
                total,
                coins,
                paid_out(payments) + fee,
                payments,
                data,
            ).0->Ok_0.outputs,
        ) + fee == worth(coins),
{
    let outputs = funded(
        tree,
        w,
        accumulator,
        total,
        coins,
        paid_out(payments) + fee,
        payments,
        data,
    ).0->Ok_0.outputs;
    assert(outputs.drop_last() =~= payments);
}

/// A withdrawal pays out what it spends, but for the two fees.
pub proof fn withdrawal_conserves_value<D: Fn(Step) -> Result<Xpriv, DeriveError>>(
    tree: KeyTree<D>,
    w: WalletView,
    accumulator: Accumulator,
    withdrawal: OutputContent,
    total: Amount,
    coins: Seq<(OutPoint, Output)>,
    cost: int,
)
    requires
        withdrawal is Withdrawal,
        total.sats == worth(coins),
        0 <= cost <= total.sats,
        withdrawn(tree, w, accumulator, withdrawal, total, coins, cost).0 is Ok,
    ensures
        paid_out(withdrawn(tree, w, accumulator, withdrawal, total, coins, cost).0->Ok_0.outputs)
            + (cost - withdrawal->Withdrawal_value.sats) == worth(coins),
{
    let outputs = withdrawn(
        tree,
        w,
        accumulator,
        withdrawal,
        total,
        coins,
        cost,
    ).0->Ok_0.outputs;
    let first = outputs.drop_last();
    assert(first.drop_last() =~= Seq::<Output>::empty());
    assert(paid_out(first.drop_last()) == 0);
    assert(paid_out(first) == withdrawal->Withdrawal_value.sats);
}

/// A claim pays out what it spends.
pub proof fn claim_conserves_value(
    accumulator: Accumulator,
    swap_id: SwapId,
    recipient: Address,
    locked_outputs: Seq<(OutPoint, Output)>,
    l2_claimer_address: Option<Address>,
)
    requires
        claimed(accumulator, swap_id, recipient, locked_outputs, l2_claimer_address) is Ok,
    ensures
        paid_out(
            claimed(
                accumulator,
                swap_id,
                recipient,
                locked_outputs,
                l2_claimer_address,
            )->Ok_0.outputs,
        ) == worth(locked_outputs),
{
    let outputs = claimed(
        accumulator,
        swap_id,
        recipient,
        locked_outputs,
        l2_claimer_address,
    )->Ok_0.outputs;
    assert(outputs.drop_last() =~= Seq::<Output>::empty());
    assert(paid_out(outputs.drop_last()) == 0);
}

/// A reservation pays out what it spends, but for the fee.
pub proof fn reservation_conserves_value<D: Fn(Step) -> Result<Xpriv, DeriveError>>(
    tree: KeyTree<D>,
    w: WalletView,
    accumulator: Accumulator,
    swap_id: SwapId,
    l2_claimer_address: Option<Address>,
    fee: Amount,
    coin: (OutPoint, Output),
)
    requires
        fee.sats <= value_of(coin.1).sats,
        accepted(tree, w, accumulator, swap_id, l2_claimer_address, fee, coin).0 is Ok,
    ensures
        paid_out(
            accepted(
                tree,
                w,
                accumulator,
                swap_id,
                l2_claimer_address,
                fee,
                coin,
            ).0->Ok_0.outputs,
        ) + fee.sats == value_of(coin.1).sats,
{
    let outputs = accepted(
        tree,
        w,
        accumulator,
        swap_id,
        l2_claimer_address,
        fee,
        coin,
    ).0->Ok_0.outputs;
    if outputs.len() > 0 {
        assert(outputs.drop_last() =~= Seq::<Output>::empty());
        assert(paid_out(outputs.drop_last()) == 0);
    }
}

/// The change of a transfer or a swap's creation is paid to an address that the
/// wallet has recorded, and a transaction that could not be made leaves the wallet as
/// it was.
pub proof fn change_is_paid_to_the_wallet<D: Fn(Step) -> Result<Xpriv, DeriveError>>(
    tree: KeyTree<D>,
    w: WalletView,
    accumulator: Accumulator,
    total: Amount,
    coins: Seq<(OutPoint, Output)>,
    cost: int,
    payments: Seq<Output>,
    data: TxDataView,
)
    ensures
        ({
            let (result, after) = funded(
                tree,
                w,
                accumulator,
                total,
                coins,
                cost,
                payments,
                data,
            );
            match result {
                Ok(transaction) => after.index_to_address.values().contains(
                    transaction.outputs.last().address,
                ) && after.address_to_index.contains_key(transaction.outputs.last().address),
                Err(_) => after == w,
            }
        }),
{
    let (result, after) = funded(tree, w, accumulator, total, coins, cost, payments, data);
    if result is Ok {
        let index = next_index(w.index_to_address) as u32;
        assert(after.index_to_address.contains_key(index));
        assert(after.index_to_address[index] == result->Ok_0.outputs.last().address);
    }
}

/// The key that signs for a coin is the one of the coin's address. The exception is an
/// input of a claim that belongs to a swap and is not the wallet's own.
pub proof fn key_is_that_of_the_coin<D: Fn(Step) -> Result<Xpriv, DeriveError>>(
    tree: KeyTree<D>,
    w: WalletView,
    claims: bool,
    outpoint: OutPoint,
)
    requires
        follows_from_seed(tree, w),
        key_for(tree, w, claims, outpoint).0 is Ok,
    ensures
        w.utxos.contains_key(outpoint),
        !(claims && w.utxos[outpoint].content is SwapPending && !w.address_to_index.contains_key(
            w.utxos[outpoint].address,
        )) ==> key_address(key_for(tree, w, claims, outpoint).0->Ok_0.public())
            == w.utxos[outpoint].address,
{
    if w.utxos.contains_key(outpoint) {
        let address = w.utxos[outpoint].address;
        indexing_follows_from_seed(tree, w, address);
        if indexed(tree, w, address).0 is Ok {
            indexing_is_idempotent(tree, w, address);
        }
    }
}

/// Each signature of a transaction is made with the key of the coin that its input
/// spends, unless the transaction is a claim.
pub proof fn signatures_are_those_of_the_coins<D: Fn(Step) -> Result<Xpriv, DeriveError>>(
    tree: KeyTree<D>,
    w: WalletView,
    transaction: TransactionView,
    n: nat,
    i: int,
)
    requires
        follows_from_seed(tree, w),
        n <= transaction.inputs.len(),
        keys_for(tree, w, transaction, n).0 is Ok,
        0 <= i < n,
        !(transaction.data is SwapClaim),
    ensures
        keys_for(tree, w, transaction, n).0->Ok_0.len() == n,
        w.utxos.contains_key(transaction.inputs[i].0),
        key_address(keys_for(tree, w, transaction, n).0->Ok_0[i].public())
            == w.utxos[transaction.inputs[i].0].address,
    decreases n,
{
    let m = (n - 1) as nat;
    signing_follows_from_seed(tree, w, transaction, m);
    let middle = keys_for(tree, w, transaction, m).1;
    lemma_keys_len(tree, w, transaction, n);
    lemma_keys_len(tree, w, transaction, m);
    if i == m {
        key_is_that_of_the_coin(tree, middle, false, transaction.inputs[i].0);
    } else {
        signatures_are_those_of_the_coins(tree, w, transaction, m, i);
    }
}

/// There is one key for each input.
proof fn lemma_keys_len<D: Fn(Step) -> Result<Xpriv, DeriveError>>(
    tree: KeyTree<D>,
    w: WalletView,
    transaction: TransactionView,
    n: nat,
)
    requires
        keys_for(tree, w, transaction, n).0 is Ok,
    ensures
        keys_for(tree, w, transaction, n).0->Ok_0.len() == n,
    decreases n,
{
    if n > 0 {
        lemma_keys_len(tree, w, transaction, (n - 1) as nat);
    }
}

/// A wallet signs any transaction that has an encoding and spends coins of its own
/// recorded addresses, and signing it records nothing.
pub proof fn own_coins_can_be_signed_for<D: Fn(Step) -> Result<Xpriv, DeriveError>>(
    tree: KeyTree<D>,
    w: WalletView,
    transaction: TransactionView,
    n: nat,
)
    requires
        follows_from_seed(tree, w),
        n <= transaction.inputs.len(),
        encodable(transaction),
        forall|i: int|
            0 <= i < n ==> w.utxos.contains_key((#[trigger] transaction.inputs[i]).0)
                && w.address_to_index.contains_key(w.utxos[transaction.inputs[i].0].address),
    ensures
        keys_for(tree, w, transaction, n).0 is Ok,
        keys_for(tree, w, transaction, n).1 == w,
    decreases n,
{
    if n > 0 {
        own_coins_can_be_signed_for(tree, w, transaction, (n - 1) as nat);
        let outpoint = transaction.inputs[n - 1].0;
        let address = w.utxos[outpoint].address;
        assert(tree.address(w.seed->0, w.address_to_index[address]) is Ok);
    }
}

/// An output that was put into the set of unspent outputs can be proven, and one that
/// was taken out cannot.
pub proof fn changes_decide_what_is_provable(
    leaves: Set<Digest>,
    after: Set<Digest>,
    changes: Map<Digest, bool>,
    h: Digest,
)
    requires
        changes.contains_key(h),
        forall|x: Digest| #[trigger] after.contains(x) == in_set_after(leaves, changes, x),
    ensures
        crate::accumulator::provable(after, seq![h]) == changes[h],
{
    assert(seq![h][0] == h);
}

} // verus!
