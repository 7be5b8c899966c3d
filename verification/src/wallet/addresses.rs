//! The wallet's addresses.

use vstd::prelude::*;

use crate::derivation::{DeriveError, KeyTree, Step, Xpriv};
use crate::keys::get_address;
use crate::table::{has_row, keys_distinct, lemma_row_in_map, map_of, Table};
use crate::types::{Address, OutPoint, Output, SpentOutput};

use super::{address_at, index_zero_adopted, recorded, Error, Wallet, WalletView};

verus! {

/// How many indices are searched for an address that is not recorded.
pub const MAX_RECOVERY_INDEX: u32 = 100_000;

/// After how many addresses in a row without coins a search for addresses ends.
pub const GAP_LIMIT: u32 = 20;

/// `index` is the greatest index that has an address.
pub open spec fn is_last(m: Map<u32, Address>, index: u32) -> bool {
    &&& m.contains_key(index)
    &&& forall|k: u32| #[trigger] m.contains_key(k) ==> k <= index
}

/// The greatest index that has an address.
pub open spec fn last_index(m: Map<u32, Address>) -> u32 {
    choose|index: u32| is_last(m, index)
}

/// The index of the next new address.
pub open spec fn next_index(m: Map<u32, Address>) -> int {
    if m == Map::<u32, Address>::empty() {
        0
    } else {
        last_index(m) + 1
    }
}

/// The address with the greatest index.
pub open spec fn last_address(w: WalletView) -> Option<Address> {
    if w.index_to_address == Map::<u32, Address>::empty() {
        None
    } else {
        Some(w.index_to_address[last_index(w.index_to_address)])
    }
}

/// Making a new address: the one with the next index is derived and recorded.
pub open spec fn new_address<D: Fn(Step) -> Result<Xpriv, DeriveError>>(
    tree: KeyTree<D>,
    w: WalletView,
) -> (Result<Address, Error>, WalletView) {
    let index = next_index(w.index_to_address) as u32;
    match address_at(tree, w, index) {
        Ok(address) => (Ok(address), recorded(w, index, address)),
        Err(error) => (Err(error), w),
    }
}

/// Some output that the wallet holds or held pays the address.
pub open spec fn received(w: WalletView, address: Address) -> bool {
    ||| exists|o: OutPoint| #[trigger] w.utxos.contains_key(o) && w.utxos[o].address == address
    ||| exists|o: OutPoint|
        #[trigger] w.stxos.contains_key(o) && w.stxos[o].output.address == address
}

/// The address to receive at: the last one until it has received, and then a new one.
pub open spec fn receive_address<D: Fn(Step) -> Result<Xpriv, DeriveError>>(
    tree: KeyTree<D>,
    w: WalletView,
) -> (Result<Address, Error>, WalletView) {
    match last_address(w) {
        Some(address) => if received(w, address) {
            new_address(tree, w)
        } else {
            (Ok(address), w)
        },
        None => new_address(tree, w),
    }
}

/// The last address, or a new one where there is none.
pub open spec fn address_or_new<D: Fn(Step) -> Result<Xpriv, DeriveError>>(
    tree: KeyTree<D>,
    w: WalletView,
) -> (Result<Address, Error>, WalletView) {
    match last_address(w) {
        Some(address) => (Ok(address), w),
        None => new_address(tree, w),
    }
}

/// `index` is the first one whose address is `address`.
pub open spec fn is_first_index<D: Fn(Step) -> Result<Xpriv, DeriveError>>(
    tree: KeyTree<D>,
    seed: [u8; 64],
    address: Address,
    index: u32,
) -> bool {
    &&& index < MAX_RECOVERY_INDEX
    &&& tree.address(seed, index) == Ok::<Address, DeriveError>(address)
    &&& forall|i: u32|
        i < index ==> #[trigger] tree.address(seed, i) != Ok::<Address, DeriveError>(address)
}

/// Recording an address that is not recorded yet: the first indices are searched for
/// it.
pub open spec fn indexed<D: Fn(Step) -> Result<Xpriv, DeriveError>>(
    tree: KeyTree<D>,
    w: WalletView,
    address: Address,
) -> (Result<(), Error>, WalletView) {
    if w.address_to_index.contains_key(address) {
        (Ok(()), w)
    } else {
        match w.seed {
            None => (Err(Error::NoSeed), w),
            Some(seed) => if exists|i: u32| is_first_index(tree, seed, address, i) {
                let index = choose|i: u32| is_first_index(tree, seed, address, i);
                (Ok(()), recorded(w, index, address))
            } else {
                (Err(Error::AddressNotRecoverable { address, max_index: MAX_RECOVERY_INDEX }), w)
            },
        }
    }
}

/// The address with the given index is one of the set.
pub open spec fn is_hit<D: Fn(Step) -> Result<Xpriv, DeriveError>>(
    tree: KeyTree<D>,
    seed: [u8; 64],
    set: Set<Address>,
    index: int,
) -> bool {
    tree.address(seed, index as u32) matches Ok(address) && set.contains(address)
}

/// The search for addresses ends before index `n`: `n` is the limit, or none of the
/// last addresses before it, as many as the gap limit, is one of the set.
pub open spec fn search_ends<D: Fn(Step) -> Result<Xpriv, DeriveError>>(
    tree: KeyTree<D>,
    seed: [u8; 64],
    set: Set<Address>,
    n: int,
) -> bool {
    ||| n == MAX_RECOVERY_INDEX
    ||| GAP_LIMIT <= n && forall|i: int|
        n - GAP_LIMIT <= i < n ==> !#[trigger] is_hit(tree, seed, set, i)
}

/// `n` is the first index before which the search ends.
pub open spec fn is_search_end<D: Fn(Step) -> Result<Xpriv, DeriveError>>(
    tree: KeyTree<D>,
    seed: [u8; 64],
    set: Set<Address>,
    n: int,
) -> bool {
    &&& 0 <= n
    &&& search_ends(tree, seed, set, n)
    &&& forall|m: int| 0 <= m < n ==> !#[trigger] search_ends(tree, seed, set, m)
}

/// The stores after the first `n` indices were searched, and how many addresses were
/// recorded: those of the set that were not recorded yet.
pub open spec fn searched<D: Fn(Step) -> Result<Xpriv, DeriveError>>(
    tree: KeyTree<D>,
    seed: [u8; 64],
    set: Set<Address>,
    w: WalletView,
    n: nat,
) -> (WalletView, nat)
    decreases n,
{
    if n == 0 {
        (w, 0)
    } else {
        let index = (n - 1) as u32;
        let (before, count) = searched(tree, seed, set, w, (n - 1) as nat);
        match tree.address(seed, index) {
            Ok(address) => if set.contains(address) && !before.address_to_index.contains_key(
                address,
            ) {
                (recorded(before, index, address), count + 1)
            } else {
                (before, count)
            },
            Err(_) => (before, count),
        }
    }
}

/// `n` is the first of the searched indices whose key cannot be derived.
pub open spec fn is_first_failure<D: Fn(Step) -> Result<Xpriv, DeriveError>>(
    tree: KeyTree<D>,
    seed: [u8; 64],
    set: Set<Address>,
    n: int,
) -> bool {
    &&& 0 <= n
    &&& forall|m: int| 0 <= m <= n ==> !#[trigger] search_ends(tree, seed, set, m)
    &&& tree.address(seed, n as u32) is Err
    &&& forall|m: int| 0 <= m < n ==> #[trigger] tree.address(seed, m as u32) is Ok
}

/// What a search for the addresses of a set does. It stops at a key that cannot be
/// derived, and keeps what it has recorded until then.
pub open spec fn recovery<D: Fn(Step) -> Result<Xpriv, DeriveError>>(
    tree: KeyTree<D>,
    w: WalletView,
    set: Set<Address>,
    result: Result<usize, Error>,
    after: WalletView,
) -> bool {
    match w.seed {
        Some(seed) if set.len() > 0 => match result {
            Ok(count) => exists|n: int| #[trigger]
                is_search_end(tree, seed, set, n) && (after, count as nat) == searched(
                    tree,
                    seed,
                    set,
                    w,
                    n as nat,
                ) && forall|m: int| 0 <= m < n ==> #[trigger] tree.address(seed, m as u32) is Ok,
            Err(error) => exists|n: int| #[trigger]
                is_first_failure(tree, seed, set, n) && after == searched(
                    tree,
                    seed,
                    set,
                    w,
                    n as nat,
                ).0 && error == Error::Bip32(tree.address(seed, n as u32)->Err_0),
        },
        _ => result == Ok::<usize, Error>(0) && after == w,
    }
}

/// There is one greatest index.
pub proof fn lemma_last_index(m: Map<u32, Address>, index: u32)
    requires
        is_last(m, index),
    ensures
        last_index(m) == index,
        m != Map::<u32, Address>::empty(),
{
    assert(is_last(m, last_index(m)));
}

/// Where some index has an address, one is the greatest.
pub proof fn lemma_last_exists(m: Map<u32, Address>)
    requires
        m != Map::<u32, Address>::empty(),
    ensures
        is_last(m, last_index(m)),
{
    if forall|k: u32| !#[trigger] m.contains_key(k) {
        assert(m =~= Map::<u32, Address>::empty());
    }
    lemma_last_below(m, u32::MAX);
}

proof fn lemma_last_below(m: Map<u32, Address>, n: u32)
    requires
        exists|k: u32| #[trigger] m.contains_key(k),
        forall|k: u32| #[trigger] m.contains_key(k) ==> k <= n,
    ensures
        exists|index: u32| is_last(m, index),
    decreases n,
{
    if m.contains_key(n) {
        assert(is_last(m, n));
    } else if n > 0 {
        lemma_last_below(m, (n - 1) as u32);
    }
}

/// A new address takes the next index, and is then the last one.
pub proof fn lemma_new_address_is_last<D: Fn(Step) -> Result<Xpriv, DeriveError>>(
    tree: KeyTree<D>,
    w: WalletView,
)
    requires
        new_address(tree, w).0 is Ok,
        next_index(w.index_to_address) <= u32::MAX,
    ensures
        next_index(new_address(tree, w).1.index_to_address) == next_index(w.index_to_address) + 1,
        last_address(new_address(tree, w).1) == Some(new_address(tree, w).0->Ok_0),
        !w.index_to_address.contains_key(next_index(w.index_to_address) as u32),
{
    let index = next_index(w.index_to_address) as u32;
    let after = new_address(tree, w).1.index_to_address;
    if w.index_to_address != Map::<u32, Address>::empty() {
        lemma_last_exists(w.index_to_address);
    }
    assert(is_last(after, index));
    lemma_last_index(after, index);
}

/// There is one first index.
proof fn lemma_first_index<D: Fn(Step) -> Result<Xpriv, DeriveError>>(
    tree: KeyTree<D>,
    seed: [u8; 64],
    address: Address,
    a: u32,
    b: u32,
)
    requires
        is_first_index(tree, seed, address, a),
        is_first_index(tree, seed, address, b),
    ensures
        a == b,
{
    if a < b {
        assert(tree.address(seed, a) != Ok::<Address, DeriveError>(address));
    } else if b < a {
        assert(tree.address(seed, b) != Ok::<Address, DeriveError>(address));
    }
}

impl<D: Fn(Step) -> Result<Xpriv, DeriveError>> Wallet<D> {
    /// Records `address` at `index`.
    fn record(&mut self, index: u32, address: Address)
        ensures
            final(self).tree == old(self).tree,
            final(self)@ == recorded(old(self)@, index, address),
    {
        self.tables.index_to_address.put(index, address);
        self.tables.address_to_index.put(address, index);
    }

    /// Gives a wallet that has addresses but not the one with index 0 that one.
    pub fn adopt_index_zero(&mut self) -> (result: Result<(), Error>)
        ensures
            final(self).tree == old(self).tree,
            (result, final(self)@) == index_zero_adopted(old(self).tree, old(self)@),
    {
        if self.tables.seed.is_none() {
            return Ok(());
        }
        if self.tables.index_to_address.last().is_none() {
            return Ok(());
        }
        proof {
            assert(self.tables.index_to_address@ != Map::<u32, Address>::empty());
        }
        if self.tables.index_to_address.contains(&0) {
            return Ok(());
        }
        match self.get_signing_key(0) {
            Ok(key) => {
                let address: Address = get_address(key.verifying_key());
                self.record(0, address);
                Ok(())
            },
            Err(error) => Err(error),
        }
    }

    /// Tells whether an index is left for a new address.
    pub fn has_free_index(&self) -> (free: bool)
        ensures
            free == (next_index(self@.index_to_address) <= u32::MAX),
    {
        match self.tables.index_to_address.last() {
            Some(row) => {
                proof {
                    assert(is_last(self.tables.index_to_address@, row.0));
                    lemma_last_index(self.tables.index_to_address@, row.0);
                }
                row.0 < u32::MAX
            },
            None => true,
        }
    }

    /// Derives an address that the wallet never used, and records it.
    pub fn get_new_address(&mut self) -> (result: Result<Address, Error>)
        requires
            next_index(old(self)@.index_to_address) <= u32::MAX,
        ensures
            final(self).tree == old(self).tree,
            (result, final(self)@) == new_address(old(self).tree, old(self)@),
    {
        let index: u32 = match self.tables.index_to_address.last() {
            Some(row) => {
                let last: u32 = row.0;
                proof {
                    assert(is_last(self.tables.index_to_address@, last));
                    lemma_last_index(self.tables.index_to_address@, last);
                }
                last + 1
            },
            None => 0,
        };
        match self.get_signing_key(index) {
            Ok(key) => {
                let address: Address = get_address(key.verifying_key());
                self.record(index, address);
                Ok(address)
            },
            Err(error) => Err(error),
        }
    }

    /// The address with the greatest index.
    pub fn get_last_address(&self) -> (address: Option<Address>)
        ensures
            address == last_address(self@),
    {
        match self.tables.index_to_address.last() {
            Some(row) => {
                proof {
                    assert(is_last(self.tables.index_to_address@, row.0));
                    lemma_last_index(self.tables.index_to_address@, row.0);
                }
                Some(row.1)
            },
            None => None,
        }
    }

    /// The last address, or a new one where there is none.
    pub fn get_address_or_new(&mut self) -> (result: Result<Address, Error>)
        ensures
            final(self).tree == old(self).tree,
            (result, final(self)@) == address_or_new(old(self).tree, old(self)@),
    {
        match self.get_last_address() {
            Some(address) => Ok(address),
            None => self.get_new_address(),
        }
    }

    /// The address to receive at. Derives a new one only once the current one has
    /// received.
    pub fn get_receive_address(&mut self) -> (result: Result<Address, Error>)
        requires
            last_address(old(self)@) is Some && received(
                old(self)@,
                last_address(old(self)@)->0,
            ) ==> next_index(old(self)@.index_to_address) <= u32::MAX,
        ensures
            final(self).tree == old(self).tree,
            (result, final(self)@) == receive_address(old(self).tree, old(self)@),
    {
        match self.get_last_address() {
            Some(address) => {
                if self.address_received(&address) {
                    self.get_new_address()
                } else {
                    Ok(address)
                }
            },
            None => self.get_new_address(),
        }
    }

    /// Tells whether some output that the wallet holds or held pays the address.
    pub fn address_received(&self, address: &Address) -> (found: bool)
        ensures
            found == received(self@, *address),
    {
        let utxos: &Vec<(OutPoint, Output)> = self.tables.utxos.rows();
        let mut i: usize = 0;
        while i < utxos.len()
            invariant
                i <= utxos@.len(),
                keys_distinct(utxos@),
                self@.utxos == map_of(utxos@),
                forall|j: int| 0 <= j < i ==> (#[trigger] utxos@[j]).1.address != *address,
            decreases utxos@.len() - i,
        {
            if utxos[i].1.address.same(address) {
                proof {
                    lemma_row_in_map(utxos@, i as int);
                    assert(self@.utxos.contains_key(utxos@[i as int].0));
                }
                return true;
            }
            i = i + 1;
        }
        let stxos: &Vec<(OutPoint, SpentOutput)> = self.tables.stxos.rows();
        let mut k: usize = 0;
        while k < stxos.len()
            invariant
                k <= stxos@.len(),
                keys_distinct(stxos@),
                self@.stxos == map_of(stxos@),
                forall|j: int| 0 <= j < k ==> (#[trigger] stxos@[j]).1.output.address != *address,
            decreases stxos@.len() - k,
        {
            if stxos[k].1.output.address.same(address) {
                proof {
                    lemma_row_in_map(stxos@, k as int);
                    assert(self@.stxos.contains_key(stxos@[k as int].0));
                }
                return true;
            }
            k = k + 1;
        }
        proof {
            assert forall|o: OutPoint| #[trigger] self@.utxos.contains_key(o) implies self@.utxos[o].address
                != *address by {
                assert(has_row(utxos@, o));
                let j = choose|j: int| 0 <= j < utxos@.len() && (#[trigger] utxos@[j]).0 == o;
                lemma_row_in_map(utxos@, j);
            }
            assert forall|o: OutPoint| #[trigger] self@.stxos.contains_key(o) implies self@.stxos[o].output.address
                != *address by {
                assert(has_row(stxos@, o));
                let j = choose|j: int| 0 <= j < stxos@.len() && (#[trigger] stxos@[j]).0 == o;
                lemma_row_in_map(stxos@, j);
            }
        }
        false
    }

    /// The number of recorded indices, modulo 2^32.
    pub fn get_num_addresses(&self) -> (n: u32)
        ensures
            n == self@.index_to_address.dom().len() % 0x1_0000_0000,
    {
        let len: u64 = self.tables.index_to_address.len() as u64;
        assert(len as u32 == len % 0x1_0000_0000) by (bit_vector);
        #[verifier::truncate]
        (len as u32)
    }

    /// The recorded addresses.
    pub fn get_addresses(&self) -> (addresses: Table<Address, ()>)
        ensures
            addresses@.dom() == self@.index_to_address.values(),
    {
        let rows: &Vec<(u32, Address)> = self.tables.index_to_address.rows();
        let mut addresses: Table<Address, ()> = Table::new();
        let mut i: usize = 0;
        while i < rows.len()
            invariant
                i <= rows@.len(),
                forall|a: Address| #[trigger]
                    addresses@.contains_key(a) <==> exists|j: int|
                        0 <= j < i && (#[trigger] rows@[j]).1 == a,
            decreases rows@.len() - i,
        {
            let ghost before = addresses@;
            addresses.put(rows[i].1, ());
            proof {
                let new = rows@[i as int].1;
                assert forall|a: Address| #[trigger] addresses@.contains_key(a) implies exists|
                    j: int,
                |
                    0 <= j < i + 1 && (#[trigger] rows@[j]).1 == a by {
                    if a == new {
                        assert(rows@[i as int].1 == a);
                    } else {
                        assert(before.contains_key(a));
                        let j = choose|j: int| 0 <= j < i && (#[trigger] rows@[j]).1 == a;
                        assert(rows@[j].1 == a);
                    }
                }
                assert forall|j: int| 0 <= j < i + 1 implies addresses@.contains_key(
                    (#[trigger] rows@[j]).1,
                ) by {
                    if j < i {
                        assert(before.contains_key(rows@[j].1));
                    }
                }
            }
            i = i + 1;
        }
        proof {
            let m = self@.index_to_address;
            assert forall|a: Address| addresses@.dom().contains(a) <==> m.values().contains(a) by {
                if addresses@.contains_key(a) {
                    let j = choose|j: int| 0 <= j < rows@.len() && (#[trigger] rows@[j]).1 == a;
                    lemma_row_in_map(rows@, j);
                    assert(m.contains_key(rows@[j].0) && m[rows@[j].0] == a);
                }
                if m.values().contains(a) {
                    let k = choose|k: u32| m.contains_key(k) && m[k] == a;
                    assert(has_row(rows@, k));
                    let j = choose|j: int| 0 <= j < rows@.len() && (#[trigger] rows@[j]).0 == k;
                    lemma_row_in_map(rows@, j);
                    assert(rows@[j].1 == a);
                }
            }
            assert(addresses@.dom() =~= m.values());
        }
        addresses
    }

    /// Tells whether the address is recorded as one of the wallet's.
    pub fn has_address(&self, address: &Address) -> (found: bool)
        ensures
            found == self@.address_to_index.contains_key(*address),
    {
        self.tables.address_to_index.contains(address)
    }

    /// Records an address that is not recorded yet, if it is the address of one of
    /// the first keys. After the wallet was restored from its seed, coins of
    /// addresses that were used before can so be spent.
    pub fn ensure_address_indexed(&mut self, address: &Address) -> (result: Result<(), Error>)
        ensures
            final(self).tree == old(self).tree,
            (result, final(self)@) == indexed(old(self).tree, old(self)@, *address),
    {
        if self.tables.address_to_index.contains(address) {
            return Ok(());
        }
        let seed: [u8; 64] = match self.tables.seed {
            Some(seed) => seed,
            None => {
                return Err(Error::NoSeed);
            },
        };
        let mut i: u32 = 0;
        while i < MAX_RECOVERY_INDEX
            invariant
                i <= MAX_RECOVERY_INDEX,
                *self == *old(self),
                self@.seed == Some(seed),
                !self@.address_to_index.contains_key(*address),
                forall|j: u32|
                    j < i ==> #[trigger] self.tree.address(seed, j) != Ok::<Address, DeriveError>(
                        *address,
                    ),
            decreases MAX_RECOVERY_INDEX - i,
        {
            if let Ok(derived) = self.tree.derive_address_for_index(&seed, i) {
                if derived.same(address) {
                    proof {
                        assert(is_first_index(self.tree, seed, *address, i));
                        let index = choose|j: u32| is_first_index(self.tree, seed, *address, j);
                        lemma_first_index(self.tree, seed, *address, i, index);
                    }
                    self.record(i, *address);
                    return Ok(());
                }
            }
            i = i + 1;
        }
        Err(Error::AddressNotRecoverable { address: *address, max_index: MAX_RECOVERY_INDEX })
    }

    /// Records the wallet's addresses that are in a set of addresses known to have
    /// coins, after the wallet was restored from its seed. The search ends after as
    /// many addresses in a row that are not in the set as the gap limit says.
    pub fn recover_addresses_from_utxo_set(&mut self, utxo_addresses: &Table<Address, ()>) -> (
    result: Result<usize, Error>)
        ensures
            final(self).tree == old(self).tree,
            recovery(old(self).tree, old(self)@, utxo_addresses@.dom(), result, final(self)@),
    {
        let ghost set = utxo_addresses@.dom();
        let ghost tree = self.tree;
        let ghost before = self@;
        if utxo_addresses.len() == 0 {
            return Ok(0);
        }
        let seed: [u8; 64] = match self.tables.seed {
            Some(seed) => seed,
            None => {
                return Ok(0);
            },
        };
        let mut gap: u32 = 0;
        let mut recovered: usize = 0;
        let mut index: u32 = 0;
        assert(!search_ends(tree, seed, set, 0));
        while gap < GAP_LIMIT && index < MAX_RECOVERY_INDEX
            invariant
                set == utxo_addresses@.dom(),
                set.len() > 0,
                self.tree == tree,
                tree == old(self).tree,
                before == old(self)@,
                before.seed == Some(seed),
                index <= MAX_RECOVERY_INDEX,
                gap <= GAP_LIMIT,
                gap <= index,
                recovered <= index,
                (self@, recovered as nat) == searched(tree, seed, set, before, index as nat),
                forall|m: int| 0 <= m < index ==> #[trigger] tree.address(seed, m as u32) is Ok,
                forall|m: int| 0 <= m < index ==> !#[trigger] search_ends(tree, seed, set, m),
                forall|i: int| index - gap <= i < index ==> !#[trigger] is_hit(tree, seed, set, i),
                gap < index ==> is_hit(tree, seed, set, index - gap - 1),
            decreases MAX_RECOVERY_INDEX - index,
        {
            proof {
                assert(!search_ends(tree, seed, set, index as int)) by {
                    if gap < index {
                        assert(is_hit(tree, seed, set, index - gap - 1));
                    }
                }
            }
            let address: Address = match self.tree.derive_address_for_index(&seed, index) {
                Ok(address) => address,
                Err(error) => {
                    assert(is_first_failure(tree, seed, set, index as int));
                    return Err(Error::Bip32(error));
                },
            };
            assert(searched(tree, seed, set, before, (index + 1) as nat) == {
                let (now, count) = searched(tree, seed, set, before, index as nat);
                if set.contains(address) && !now.address_to_index.contains_key(address) {
                    (recorded(now, index, address), count + 1)
                } else {
                    (now, count)
                }
            });
            if utxo_addresses.contains(&address) {
                if !self.tables.address_to_index.contains(&address) {
                    self.record(index, address);
                    recovered = recovered + 1;
                }
                assert(is_hit(tree, seed, set, index as int));
                gap = 0;
            } else {
                assert(!is_hit(tree, seed, set, index as int));
                gap = gap + 1;
            }
            index = index + 1;
        }
        assert(is_search_end(tree, seed, set, index as int));
        Ok(recovered)
    }
}

} // verus!
