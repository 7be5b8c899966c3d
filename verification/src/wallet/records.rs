//! What holds of the addresses, the seed and the coins that a wallet keeps, said of what
//! is stored.

use vstd::prelude::*;

use crate::amount::Amount;
use crate::derivation::{DeriveError, KeyTree, Step, Xpriv};
use crate::table::{lemma_row_in_map, map_of};
use crate::types::{Address, InPoint, OutPoint, Output};

use super::addresses::{
    address_or_new, indexed, is_first_failure, is_first_index, is_hit, is_search_end, last_address,
    last_index, lemma_last_exists, receive_address, received, recovery, search_ends,
    searched,
};
use super::coins::{
    answers, coin_choice, is_ordering, is_shortest, lemma_sum_take, map_sum, may_choose, spendable,
    spent, worth,
};
use super::laws::{
    is_listed, receiving_raises_the_balance, search_records_every_hit, selection_does_not_overshoot,
    selection_fails_only_for_want_of_funds, spendable_coins_are_unlocked, spending_moves_outputs,
};
use super::outcomes::{
    has_no_next_address, held, is_among, lemma_next_address, new_address_stands_behind_the_last,
    sats, takes_new_address, worth_is_what_coins_hold,
};
use super::transactions::lemma_shortest_exists;
use super::{empty_with, index_zero_adopted, seed_set, versioned, Error, Version, WalletView};

verus! {

/// The address stands at the greatest index that is taken.
pub open spec fn is_the_last(m: Map<u32, Address>, address: Address) -> bool {
    exists|index: u32| #[trigger]
        m.contains_key(index) && m[index] == address && forall|k: u32| #[trigger]
            m.contains_key(k) ==> k <= index
}

/// An output that the wallet holds or held pays the address.
pub open spec fn was_paid(w: WalletView, address: Address) -> bool {
    (exists|o: OutPoint| #[trigger] w.utxos.contains_key(o) && w.utxos[o].address == address)
        || exists|o: OutPoint| #[trigger]
        w.stxos.contains_key(o) && w.stxos[o].output.address == address
}

/// The last address is the one at the greatest index, and there is none exactly where no
/// index is taken.
pub proof fn last_address_stands_at_the_greatest_index(w: WalletView)
    ensures
        match last_address(w) {
            Some(address) => is_the_last(w.index_to_address, address),
            None => forall|k: u32| !#[trigger] w.index_to_address.contains_key(k),
        },
{
    let m = w.index_to_address;
    if m != Map::<u32, Address>::empty() {
        lemma_last_exists(m);
        assert(m.contains_key(last_index(m)));
    }
}

/// There is one address at the greatest index.
proof fn lemma_one_last(m: Map<u32, Address>, a: Address, b: Address)
    requires
        is_the_last(m, a),
        is_the_last(m, b),
    ensures
        a == b,
{
    let i = choose|i: u32| #[trigger]
        m.contains_key(i) && m[i] == a && forall|k: u32| #[trigger] m.contains_key(k) ==> k <= i;
    let j = choose|j: u32| #[trigger]
        m.contains_key(j) && m[j] == b && forall|k: u32| #[trigger] m.contains_key(k) ==> k <= j;
    assert(i <= j && j <= i);
}

/// The address to receive at is the last one as long as nothing paid it. Once something
/// did, and where there is none yet, it is a new one.
pub proof fn receive_address_was_not_paid<D: Fn(Step) -> Result<Xpriv, DeriveError>>(
    tree: KeyTree<D>,
    w: WalletView,
    last: Address,
)
    ensures
        is_the_last(w.index_to_address, last) && !was_paid(w, last) ==> receive_address(tree, w)
            == (Ok::<Address, Error>(last), w),
        !w.index_to_address.contains_key(u32::MAX) && ((is_the_last(w.index_to_address, last)
            && was_paid(w, last)) || (forall|k: u32|
            !#[trigger] w.index_to_address.contains_key(k))) ==> match receive_address(tree, w) {
            (Ok(address), after) => takes_new_address(tree, w, address, after),
            (Err(error), after) => after == w && has_no_next_address(tree, w, error),
        },
{
    last_address_stands_at_the_greatest_index(w);
    if w.index_to_address != Map::<u32, Address>::empty() {
        lemma_last_exists(w.index_to_address);
    }
    if !w.index_to_address.contains_key(u32::MAX) {
        new_address_stands_behind_the_last(tree, w);
    }
    lemma_next_address(tree, w);
    if is_the_last(w.index_to_address, last) {
        if last_address(w) is Some {
            lemma_one_last(w.index_to_address, last, last_address(w)->0);
        } else {
            let i = choose|i: u32| #[trigger]
                w.index_to_address.contains_key(i) && w.index_to_address[i] == last && forall|
                    k: u32,
                | #[trigger]
                    w.index_to_address.contains_key(k) ==> k <= i;
            assert(w.index_to_address.contains_key(i));
        }
        assert(received(w, last) == was_paid(w, last));
    }
    if forall|k: u32| !#[trigger] w.index_to_address.contains_key(k) {
        assert(w.index_to_address =~= Map::<u32, Address>::empty());
    }
}

/// The wallet's address is the last one, or the one with index 0 where there is none.
pub proof fn address_is_the_last_or_the_first<D: Fn(Step) -> Result<Xpriv, DeriveError>>(
    tree: KeyTree<D>,
    w: WalletView,
    last: Address,
)
    ensures
        is_the_last(w.index_to_address, last) ==> address_or_new(tree, w) == (
            Ok::<Address, Error>(last),
            w,
        ),
        (forall|k: u32| !#[trigger] w.index_to_address.contains_key(k)) ==> match address_or_new(
            tree,
            w,
        ) {
            (Ok(address), after) => w.seed is Some && tree.address(w.seed->0, 0) == Ok::<
                Address,
                DeriveError,
            >(address) && takes_new_address(tree, w, address, after),
            (Err(error), after) => after == w && has_no_next_address(tree, w, error),
        },
{
    last_address_stands_at_the_greatest_index(w);
    if is_the_last(w.index_to_address, last) {
        let i = choose|i: u32| #[trigger]
            w.index_to_address.contains_key(i) && w.index_to_address[i] == last && forall|k: u32|
                #[trigger]
                w.index_to_address.contains_key(k) ==> k <= i;
        assert(w.index_to_address.contains_key(i));
        lemma_one_last(w.index_to_address, last, last_address(w)->0);
    }
    if forall|k: u32| !#[trigger] w.index_to_address.contains_key(k) {
        assert(w.index_to_address =~= Map::<u32, Address>::empty());
        new_address_stands_behind_the_last(tree, w);
        lemma_next_address(tree, w);
    }
}

/// An address that is recorded is left as it is. Another is recorded at the first of the
/// first hundred thousand indices at which the seed gives it, and refused where there is
/// none.
pub proof fn indexing_finds_the_first_index<D: Fn(Step) -> Result<Xpriv, DeriveError>>(
    tree: KeyTree<D>,
    w: WalletView,
    address: Address,
)
    ensures
        match indexed(tree, w, address) {
            (Ok(_), after) => if w.address_to_index.contains_key(address) {
                after == w
            } else {
                w.seed is Some && exists|i: u32|
                    {
                        &&& i < 100_000
                        &&& #[trigger] tree.address(w.seed->0, i) == Ok::<Address, DeriveError>(
                            address,
                        )
                        &&& forall|j: u32|
                            j < i ==> #[trigger] tree.address(w.seed->0, j) != Ok::<
                                Address,
                                DeriveError,
                            >(address)
                        &&& after.index_to_address == w.index_to_address.insert(i, address)
                        &&& after.address_to_index == w.address_to_index.insert(address, i)
                        &&& after.seed == w.seed && after.utxos == w.utxos && after.stxos
                            == w.stxos && after.version == w.version
                    }
            },
            (Err(error), after) => after == w && !w.address_to_index.contains_key(address)
                && match w.seed {
                None => error == Error::NoSeed,
                Some(seed) => error == (Error::AddressNotRecoverable {
                    address,
                    max_index: 100_000,
                }) && forall|i: u32|
                    i < 100_000 ==> #[trigger] tree.address(seed, i) != Ok::<Address, DeriveError>(
                        address,
                    ),
            },
        },
{
    if !w.address_to_index.contains_key(address) && w.seed is Some {
        let seed = w.seed->0;
        if exists|i: u32| is_first_index(tree, seed, address, i) {
            let i = choose|i: u32| is_first_index(tree, seed, address, i);
            assert(tree.address(seed, i) == Ok::<Address, DeriveError>(address));
        } else {
            assert forall|i: u32| i < 100_000 implies #[trigger] tree.address(seed, i) != Ok::<
                Address,
                DeriveError,
            >(address) by {
                lemma_no_first_index(tree, seed, address, i);
            }
        }
    }
}

proof fn lemma_no_first_index<D: Fn(Step) -> Result<Xpriv, DeriveError>>(
    tree: KeyTree<D>,
    seed: [u8; 64],
    address: Address,
    i: u32,
)
    requires
        forall|k: u32| !is_first_index(tree, seed, address, k),
        i < 100_000,
    ensures
        tree.address(seed, i) != Ok::<Address, DeriveError>(address),
    decreases i,
{
    if tree.address(seed, i) == Ok::<Address, DeriveError>(address) {
        assert forall|j: u32| j < i implies #[trigger] tree.address(seed, j) != Ok::<
            Address,
            DeriveError,
        >(address) by {
            lemma_no_first_index(tree, seed, address, j);
        }
        assert(is_first_index(tree, seed, address, i));
    }
}

/// The seed gives at index `k`, and at none before, an address of the set that the wallet
/// has not recorded.
pub open spec fn is_found<D: Fn(Step) -> Result<Xpriv, DeriveError>>(
    tree: KeyTree<D>,
    seed: [u8; 64],
    set: Set<Address>,
    w: WalletView,
    k: u32,
) -> bool {
    &&& tree.address(seed, k) is Ok
    &&& set.contains(tree.address(seed, k)->Ok_0)
    &&& !w.address_to_index.contains_key(tree.address(seed, k)->Ok_0)
    &&& forall|j: u32| j < k ==> #[trigger] tree.address(seed, j) != tree.address(seed, k)
}

/// The wallet has recorded, of the first `n` indices, those at which it found an address,
/// and nothing else.
pub open spec fn records_what_was_found<D: Fn(Step) -> Result<Xpriv, DeriveError>>(
    tree: KeyTree<D>,
    seed: [u8; 64],
    set: Set<Address>,
    w: WalletView,
    n: int,
    after: WalletView,
) -> bool {
    &&& forall|k: u32| #[trigger]
        after.index_to_address.contains_key(k) <==> w.index_to_address.contains_key(k) || (k < n
            && is_found(tree, seed, set, w, k))
    &&& forall|k: u32|
        k < n && #[trigger] is_found(tree, seed, set, w, k) ==> after.index_to_address[k]
            == tree.address(seed, k)->Ok_0 && after.address_to_index.contains_key(
            tree.address(seed, k)->Ok_0,
        ) && after.address_to_index[tree.address(seed, k)->Ok_0] == k
    &&& forall|k: u32| #[trigger]
        w.index_to_address.contains_key(k) && !(k < n && is_found(tree, seed, set, w, k))
            ==> after.index_to_address[k] == w.index_to_address[k]
    &&& forall|a: Address| #[trigger]
        w.address_to_index.contains_key(a) ==> after.address_to_index.contains_key(a)
            && after.address_to_index[a] == w.address_to_index[a]
    &&& forall|a: Address| #[trigger]
        after.address_to_index.contains_key(a) ==> w.address_to_index.contains_key(a) || exists|
            k: u32,
        |
            k < n && #[trigger] is_found(tree, seed, set, w, k) && tree.address(seed, k) == Ok::<
                Address,
                DeriveError,
            >(a)
    &&& after.seed == w.seed && after.utxos == w.utxos && after.stxos == w.stxos && after.version
        == w.version
}

/// A search records what it finds.
proof fn lemma_searched<D: Fn(Step) -> Result<Xpriv, DeriveError>>(
    tree: KeyTree<D>,
    seed: [u8; 64],
    set: Set<Address>,
    w: WalletView,
    n: nat,
)
    requires
        n <= u32::MAX,
    ensures
        records_what_was_found(
            tree,
            seed,
            set,
            w,
            n as int,
            searched(tree, seed, set, w, n).0,
        ),
    decreases n,
{
    let after = searched(tree, seed, set, w, n).0;
    if n > 0 {
        let index = (n - 1) as u32;
        lemma_searched(tree, seed, set, w, (n - 1) as nat);
        let before = searched(tree, seed, set, w, (n - 1) as nat).0;
        let derived = tree.address(seed, index);
        if derived is Ok && set.contains(derived->Ok_0) {
            let address = derived->Ok_0;
            if before.address_to_index.contains_key(address) {
                assert(!is_found(tree, seed, set, w, index)) by {
                    if !w.address_to_index.contains_key(address) {
                        let k = choose|k: u32|
                            k < n - 1 && #[trigger] is_found(tree, seed, set, w, k)
                                && tree.address(seed, k) == Ok::<Address, DeriveError>(address);
                        assert(tree.address(seed, k) == tree.address(seed, index));
                    }
                }
                assert forall|k: u32| k < n && #[trigger] is_found(tree, seed, set, w, k) implies k
                    < n - 1 by {}
            } else {
                assert(is_found(tree, seed, set, w, index)) by {
                    assert forall|j: u32| j < index implies #[trigger] tree.address(seed, j)
                        != derived by {
                        if tree.address(seed, j) == derived {
                            lemma_found_or_earlier(tree, seed, set, w, j);
                            let k = choose|k: u32|
                                k <= j && #[trigger] is_found(tree, seed, set, w, k)
                                    && tree.address(seed, k) == derived;
                            assert(before.address_to_index.contains_key(address));
                        }
                    }
                }
                assert forall|k: u32|
                    k < n && #[trigger] is_found(tree, seed, set, w, k) implies after.index_to_address[k]
                    == tree.address(seed, k)->Ok_0 && after.address_to_index.contains_key(
                    tree.address(seed, k)->Ok_0,
                ) && after.address_to_index[tree.address(seed, k)->Ok_0] == k by {
                    if k != index {
                        assert(k < n - 1);
                        if tree.address(seed, k)->Ok_0 == address {
                            assert(tree.address(seed, k) == derived);
                        }
                    }
                }
            }
        } else {
            assert(!is_found(tree, seed, set, w, index));
            assert forall|k: u32| k < n && #[trigger] is_found(tree, seed, set, w, k) implies k < n
                - 1 by {}
        }
    }
}

/// An address of the set that is not recorded is found at the first index that gives it.
proof fn lemma_found_or_earlier<D: Fn(Step) -> Result<Xpriv, DeriveError>>(
    tree: KeyTree<D>,
    seed: [u8; 64],
    set: Set<Address>,
    w: WalletView,
    j: u32,
)
    requires
        tree.address(seed, j) is Ok,
        set.contains(tree.address(seed, j)->Ok_0),
        !w.address_to_index.contains_key(tree.address(seed, j)->Ok_0),
    ensures
        exists|k: u32|
            k <= j && #[trigger] is_found(tree, seed, set, w, k) && tree.address(seed, k)
                == tree.address(seed, j),
    decreases j,
{
    if forall|i: u32| i < j ==> #[trigger] tree.address(seed, i) != tree.address(seed, j) {
        assert(is_found(tree, seed, set, w, j));
    } else {
        let i = choose|i: u32| i < j && #[trigger] tree.address(seed, i) == tree.address(seed, j);
        lemma_found_or_earlier(tree, seed, set, w, i);
        let k = choose|k: u32|
            k <= i && #[trigger] is_found(tree, seed, set, w, k) && tree.address(seed, k)
                == tree.address(seed, i);
        assert(k <= j && is_found(tree, seed, set, w, k));
    }
}

/// The seed gives an address of the set at the index.
pub open spec fn gives<D: Fn(Step) -> Result<Xpriv, DeriveError>>(
    tree: KeyTree<D>,
    seed: [u8; 64],
    set: Set<Address>,
    index: int,
) -> bool {
    &&& tree.address(seed, index as u32) is Ok
    &&& set.contains(tree.address(seed, index as u32)->Ok_0)
}

/// One of the twenty indices before `m` gives an address of the set.
pub open spec fn gives_shortly_before<D: Fn(Step) -> Result<Xpriv, DeriveError>>(
    tree: KeyTree<D>,
    seed: [u8; 64],
    set: Set<Address>,
    m: int,
) -> bool {
    exists|i: int| m - 20 <= i < m && #[trigger] gives(tree, seed, set, i)
}

/// Before index `n` a search has not met twenty addresses in a row that are not in the
/// set.
pub open spec fn goes_on_until<D: Fn(Step) -> Result<Xpriv, DeriveError>>(
    tree: KeyTree<D>,
    seed: [u8; 64],
    set: Set<Address>,
    n: int,
) -> bool {
    &&& 0 <= n <= 100_000
    &&& forall|m: int| 20 <= m < n ==> #[trigger] gives_shortly_before(tree, seed, set, m)
}

/// A search ends behind the first twenty addresses in a row that are not in the set, or at
/// index 100000. It records what it found, and counts it.
pub proof fn recovery_ends_at_the_gap<D: Fn(Step) -> Result<Xpriv, DeriveError>>(
    tree: KeyTree<D>,
    w: WalletView,
    set: Set<Address>,
    count: usize,
    after: WalletView,
)
    requires
        recovery(tree, w, set, Ok::<usize, Error>(count), after),
        w.address_to_index.dom().finite(),
    ensures
        w.seed is None || set.len() == 0 ==> count == 0 && after == w,
        w.seed is Some && set.len() > 0 ==> exists|n: int|
            {
                &&& #[trigger] goes_on_until(tree, w.seed->0, set, n)
                &&& n == 100_000 || (n >= 20 && forall|i: int|
                    n - 20 <= i < n ==> !#[trigger] gives(tree, w.seed->0, set, i))
                &&& forall|i: u32| i < n ==> #[trigger] tree.address(w.seed->0, i) is Ok
                &&& records_what_was_found(tree, w.seed->0, set, w, n, after)
            },
        after.address_to_index.dom().finite(),
        after.address_to_index.dom().len() == w.address_to_index.dom().len() + count,
{
    if w.seed is Some && set.len() > 0 {
        let seed = w.seed->0;
        let n = choose|n: int| #[trigger]
            is_search_end(tree, seed, set, n) && (after, count as nat) == searched(
                tree,
                seed,
                set,
                w,
                n as nat,
            ) && forall|m: int| 0 <= m < n ==> #[trigger] tree.address(seed, m as u32) is Ok;
        lemma_goes_on(tree, seed, set, n);
        lemma_searched(tree, seed, set, w, n as nat);
        search_records_every_hit(tree, seed, set, w, n as nat);
        assert forall|i: u32| i < n implies #[trigger] tree.address(seed, i) is Ok by {
            assert(tree.address(seed, (i as int) as u32) is Ok);
        }
        assert(search_ends(tree, seed, set, n));
        assert forall|i: int| n - 20 <= i < n && n != 100_000 implies !#[trigger] gives(
            tree,
            seed,
            set,
            i,
        ) by {
            assert(!is_hit(tree, seed, set, i));
        }
    }
}

/// A search that has not ended goes on.
proof fn lemma_goes_on<D: Fn(Step) -> Result<Xpriv, DeriveError>>(
    tree: KeyTree<D>,
    seed: [u8; 64],
    set: Set<Address>,
    n: int,
)
    requires
        0 <= n,
        forall|m: int| 0 <= m < n ==> !#[trigger] search_ends(tree, seed, set, m),
    ensures
        goes_on_until(tree, seed, set, n),
{
    if n > 100_000 {
        assert(!search_ends(tree, seed, set, 100_000));
    }
    assert forall|m: int| 20 <= m < n implies #[trigger] gives_shortly_before(
        tree,
        seed,
        set,
        m,
    ) by {
        assert(!search_ends(tree, seed, set, m));
        let i = choose|i: int| m - 20 <= i < m && #[trigger] is_hit(tree, seed, set, i);
        assert(gives(tree, seed, set, i));
    }
}

/// A search that fails does so at the first key that cannot be derived, and keeps what it
/// has found before.
pub proof fn recovery_stops_at_a_missing_key<D: Fn(Step) -> Result<Xpriv, DeriveError>>(
    tree: KeyTree<D>,
    w: WalletView,
    set: Set<Address>,
    error: Error,
    after: WalletView,
)
    requires
        recovery(tree, w, set, Err::<usize, Error>(error), after),
    ensures
        w.seed is Some,
        exists|n: int|
            {
                &&& #[trigger] goes_on_until(tree, w.seed->0, set, n)
                &&& n < 100_000
                &&& tree.address(w.seed->0, n as u32) is Err
                &&& error == Error::Bip32(tree.address(w.seed->0, n as u32)->Err_0)
                &&& forall|i: u32| i < n ==> #[trigger] tree.address(w.seed->0, i) is Ok
                &&& records_what_was_found(tree, w.seed->0, set, w, n, after)
            },
{
    let seed = w.seed->0;
    let n = choose|n: int| #[trigger]
        is_first_failure(tree, seed, set, n) && after == searched(
            tree,
            seed,
            set,
            w,
            n as nat,
        ).0 && error == Error::Bip32(tree.address(seed, n as u32)->Err_0);
    lemma_goes_on(tree, seed, set, n);
    assert(!search_ends(tree, seed, set, n));
    lemma_searched(tree, seed, set, w, n as nat);
    assert forall|i: u32| i < n implies #[trigger] tree.address(seed, i) is Ok by {
        assert(tree.address(seed, (i as int) as u32) is Ok);
    }
}

/// Opening stores that have a seed and an address but not the one with index 0 records the
/// address that the seed gives there. Where it gives none, opening fails. Other stores are
/// opened as they are. Either way a version is added where there is none.
pub proof fn opening_records_the_first_address<D: Fn(Step) -> Result<Xpriv, DeriveError>>(
    tree: KeyTree<D>,
    w: WalletView,
    version: Version,
)
    ensures
        ({
            let (result, after) = index_zero_adopted(tree, versioned(w, version));
            let lacks = w.seed is Some && !w.index_to_address.contains_key(0) && exists|k: u32|
                #[trigger]
                w.index_to_address.contains_key(k);
            &&& !lacks ==> result is Ok && after.index_to_address == w.index_to_address
                && after.address_to_index == w.address_to_index
            &&& lacks ==> match tree.address(w.seed->0, 0) {
                Ok(address) => result is Ok && after.index_to_address == w.index_to_address.insert(
                    0,
                    address,
                ) && after.address_to_index == w.address_to_index.insert(address, 0),
                Err(error) => result is Err && result->Err_0 == Error::Bip32(error),
            }
            &&& after.seed == w.seed && after.utxos == w.utxos && after.stxos == w.stxos
            &&& w.version is Some ==> after.version == w.version
            &&& w.version is None ==> after.version == Some(version)
        }),
{
    if forall|k: u32| !#[trigger] w.index_to_address.contains_key(k) {
        assert(w.index_to_address =~= Map::<u32, Address>::empty());
    }
}

/// Stores that are made for a seed hold nothing else, but for the version.
pub proof fn stores_for_a_seed_are_empty(seed: Option<[u8; 64]>, version: Option<Version>)
    ensures
        empty_with(seed, version).seed == seed,
        empty_with(seed, version).version == version,
        forall|a: Address| !#[trigger] empty_with(seed, version).address_to_index.contains_key(a),
        forall|k: u32| !#[trigger] empty_with(seed, version).index_to_address.contains_key(k),
        forall|o: OutPoint| !#[trigger] empty_with(seed, version).utxos.contains_key(o),
        forall|o: OutPoint| !#[trigger] empty_with(seed, version).stxos.contains_key(o),
{
}

/// A seed is set where there is none, and everything else but the version is forgotten.
/// Where there is one, nothing changes: the same seed is no error, and another is.
pub proof fn seed_is_set_only_where_there_is_none(w: WalletView, seed: [u8; 64])
    ensures
        w.seed is None ==> {
            let after = seed_set(w, seed).1;
            &&& seed_set(w, seed).0 is Ok
            &&& after.seed == Some(seed)
            &&& after.version == w.version
            &&& forall|a: Address| !#[trigger] after.address_to_index.contains_key(a)
            &&& forall|k: u32| !#[trigger] after.index_to_address.contains_key(k)
            &&& forall|o: OutPoint| !#[trigger] after.utxos.contains_key(o)
            &&& forall|o: OutPoint| !#[trigger] after.stxos.contains_key(o)
        },
        w.seed is Some ==> seed_set(w, seed).1 == w && (seed_set(w, seed).0 is Ok
            <==> w.seed->0@ == seed@),
        seed_set(w, seed).0 is Err ==> seed_set(w, seed).0->Err_0 == Error::SeedAlreadyExists,
{
}

/// A coin that is spent is remembered with the place that is first listed for it.
pub proof fn spent_coin_is_remembered_where_it_was_first_spent(
    w: WalletView,
    list: Seq<(OutPoint, InPoint)>,
    i: int,
)
    requires
        0 <= i < list.len(),
        w.utxos.contains_key(list[i].0),
        forall|j: int| 0 <= j < i ==> (#[trigger] list[j]).0 != list[i].0,
    ensures
        spent(w, list).stxos.contains_key(list[i].0),
        spent(w, list).stxos[list[i].0].output == w.utxos[list[i].0],
        spent(w, list).stxos[list[i].0].inpoint == list[i].1,
        spent(w, list).version == w.version,
    decreases list.len(),
{
    let front = list.drop_last();
    spending_moves_outputs(w, front);
    if i < front.len() {
        assert forall|j: int| 0 <= j < i implies (#[trigger] front[j]).0 != front[i].0 by {
            assert(list[j].0 != list[i].0);
        }
        spent_coin_is_remembered_where_it_was_first_spent(w, front, i);
        assert(front[i].0 == list[i].0);
        assert(is_listed(front, list[i].0));
        assert(!spent(w, front).utxos.contains_key(list[i].0));
    } else {
        if is_listed(front, list[i].0) {
            let j = choose|j: int| 0 <= j < front.len() && (#[trigger] front[j]).0 == list[i].0;
            assert(list[j].0 == list[i].0);
        }
        assert(spent(w, front).utxos.contains_key(list[i].0));
        lemma_spent_version(w, front);
    }
}

proof fn lemma_spent_version(w: WalletView, list: Seq<(OutPoint, InPoint)>)
    ensures
        spent(w, list).version == w.version,
    decreases list.len(),
{
    if list.len() > 0 {
        lemma_spent_version(w, list.drop_last());
    }
}

/// The total of a wallet counts what each coin holds. What is available leaves out the
/// withdrawals.
pub proof fn balance_counts_each_coin(
    utxos: Map<OutPoint, Output>,
    o: OutPoint,
    output: Output,
)
    requires
        utxos.dom().finite(),
        !utxos.contains_key(o),
    ensures
        map_sum(Map::<OutPoint, Output>::empty(), true) == 0,
        map_sum(Map::<OutPoint, Output>::empty(), false) == 0,
        map_sum(utxos.insert(o, output), true) == map_sum(utxos, true) + sats(output),
        output.content is Withdrawal ==> map_sum(utxos.insert(o, output), false) == map_sum(
            utxos,
            false,
        ),
        !(output.content is Withdrawal) ==> map_sum(utxos.insert(o, output), false) == map_sum(
            utxos,
            false,
        ) + sats(output),
{
    receiving_raises_the_balance(utxos, o, output, true);
    receiving_raises_the_balance(utxos, o, output, false);
}

/// Of a list of coins the front is chosen that holds what is asked for, and no shorter one
/// does. There is none exactly where all of them hold less, or where every front that
/// suffices holds more than an amount can.
pub proof fn choice_takes_the_front_that_suffices(
    coins: Seq<(OutPoint, Output)>,
    value: u64,
    k: int,
)
    requires
        0 <= k <= coins.len(),
    ensures
        match coin_choice(coins, value) {
            Ok((total, chosen)) => {
                &&& chosen.len() <= coins.len()
                &&& forall|i: int| 0 <= i < chosen.len() ==> #[trigger] chosen[i] == coins[i]
                &&& total.sats == held(chosen)
                &&& held(chosen) >= value
                &&& chosen.len() > 0 ==> held(chosen.drop_last()) < value
            },
            Err(error) => {
                ||| error == Error::NotEnoughFunds && held(coins) < value
                ||| error is AmountOverflow && held(coins) > u64::MAX
            },
        },
        held(coins) < value ==> coin_choice(coins, value) is Err,
        value <= held(coins.take(k)) <= u64::MAX ==> coin_choice(coins, value) is Ok,
{
    worth_is_what_coins_hold(coins);
    worth_is_what_coins_hold(coins.take(k));
    lemma_sum_take(coins, k, true);
    if value <= held(coins.take(k)) <= u64::MAX {
        lemma_shortest_exists(coins, value);
        let shortest = choose|j: int| is_shortest(coins, value, j);
        assert(shortest <= k) by {
            if shortest > k {
                assert(worth(coins.take(k)) < value);
            }
        }
        assert(coins.take(k).take(shortest) =~= coins.take(shortest));
        lemma_sum_take(coins.take(k), shortest, true);
    }
    selection_fails_only_for_want_of_funds(coins, value);
    if coin_choice(coins, value) is Ok {
        selection_does_not_overshoot(coins, value);
        let chosen = coin_choice(coins, value)->Ok_0.1;
        worth_is_what_coins_hold(chosen);
        if chosen.len() > 0 {
            worth_is_what_coins_hold(chosen.drop_last());
        }
    }
}

/// What is chosen to pay something has a coin.
pub proof fn selection_of_something_takes_a_coin<F: Fn(&OutPoint) -> bool>(
    utxos: Map<OutPoint, Output>,
    is_locked: F,
    cost: int,
    total: Amount,
    coins: Seq<(OutPoint, Output)>,
)
    requires
        0 < cost <= u64::MAX,
        may_choose(
            utxos,
            is_locked,
            Amount { sats: cost as u64 },
            Ok::<(Amount, Seq<(OutPoint, Output)>), Error>((total, coins)),
        ),
    ensures
        coins.len() > 0,
{
    let (order, locked) = choose|order: Seq<(OutPoint, Output)>, locked: Seq<bool>| #[trigger]
        is_ordering(utxos, order) && #[trigger] answers(is_locked, order, locked) && Ok::<
            (Amount, Seq<(OutPoint, Output)>),
            Error,
        >((total, coins)) == coin_choice(spendable(order, locked), cost as u64);
    choice_takes_the_front_that_suffices(spendable(order, locked), cost as u64, 0);
}

/// Coins that are chosen with none locked are coins of the wallet that are no withdrawals,
/// each once, the smallest first. They hold what was asked for, and without the last they
/// do not.
pub proof fn unfiltered_selection_takes_the_smallest(
    utxos: Map<OutPoint, Output>,
    order: Seq<(OutPoint, Output)>,
    value: Amount,
    total: Amount,
    chosen: Seq<(OutPoint, Output)>,
)
    requires
        is_ordering(utxos, order),
        coin_choice(spendable(order, Seq::new(order.len(), |i: int| false)), value.sats) == Ok::<
            (Amount, Seq<(OutPoint, Output)>),
            Error,
        >((total, chosen)),
    ensures
        forall|i: int|
            0 <= i < chosen.len() ==> utxos.contains_key((#[trigger] chosen[i]).0)
                && utxos[chosen[i].0] == chosen[i].1 && !(chosen[i].1.content is Withdrawal),
        forall|i: int, j: int|
            0 <= i < j < chosen.len() ==> (#[trigger] chosen[i]).0 != (#[trigger] chosen[j]).0,
        total.sats == held(chosen),
        held(chosen) >= value.sats,
        chosen.len() > 0 ==> held(chosen.drop_last()) < value.sats,
        forall|o: OutPoint|
            utxos.contains_key(o) && !(utxos[o].content is Withdrawal) && !#[trigger] is_among(
                chosen,
                o,
            ) ==> forall|i: int|
                0 <= i < chosen.len() ==> sats((#[trigger] chosen[i]).1) <= sats(utxos[o]),
{
    let locked = Seq::new(order.len(), |i: int| false);
    let coins = spendable(order, locked);
    selection_does_not_overshoot(coins, value.sats);
    spendable_coins_are_unlocked(order, locked);
    super::laws::lemma_spendable_distinct(order, locked);
    worth_is_what_coins_hold(chosen);
    worth_is_what_coins_hold(coins);
    if chosen.len() > 0 {
        worth_is_what_coins_hold(chosen.drop_last());
    }
    assert forall|i: int| 0 <= i < chosen.len() implies #[trigger] chosen[i] == coins[i] by {}
    assert forall|i: int| 0 <= i < chosen.len() implies utxos.contains_key(
        (#[trigger] chosen[i]).0,
    ) && utxos[chosen[i].0] == chosen[i].1 && !(chosen[i].1.content is Withdrawal) by {
        assert(coins.contains(coins[i]));
        let j = choose|j: int|
            0 <= j < order.len() && #[trigger] order[j] == coins[i] && !(
            coins[i].1.content is Withdrawal) && !locked[j];
        lemma_row_in_map(order, j);
    }
    assert forall|i: int, j: int| 0 <= i < j < chosen.len() implies (#[trigger] chosen[i]).0 != (
    #[trigger] chosen[j]).0 by {
        assert(coins[i].0 != coins[j].0);
    }
    assert forall|o: OutPoint|
        utxos.contains_key(o) && !(utxos[o].content is Withdrawal) && !#[trigger] is_among(
            chosen,
            o,
        ) implies forall|i: int|
        0 <= i < chosen.len() ==> sats((#[trigger] chosen[i]).1) <= sats(utxos[o]) by {
        assert(map_of(order).contains_key(o));
        let j = choose|j: int| 0 <= j < order.len() && (#[trigger] order[j]).0 == o;
        lemma_row_in_map(order, j);
        assert(order[j] == (o, utxos[o]) && !locked[j]);
        assert(coins.contains(order[j]));
        let p = choose|p: int| 0 <= p < coins.len() && coins[p] == order[j];
        if p < chosen.len() {
            assert(chosen[p].0 == o);
        }
        assert forall|i: int| 0 <= i < chosen.len() implies sats((#[trigger] chosen[i]).1) <= sats(
            utxos[o],
        ) by {
            assert(crate::types::value_of(coins[i].1).sats <= crate::types::value_of(
                coins[p].1,
            ).sats);
        }
    }
}

} // verus!
