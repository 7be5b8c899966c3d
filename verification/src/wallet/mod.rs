//! The wallet: its seed, its addresses, its coins and the transactions it makes.

use bip39::ErrorKind;
use vstd::prelude::*;

use crate::accumulator::UtreexoError;
use crate::amount::{Amount, AmountOverflowError, AmountUnderflowError};
use crate::bytes::bytes_equal;
use crate::derivation::{DeriveError, KeyTree, Step, Xpriv};
use crate::keys::{key_address, SigningKey};
use crate::table::Table;
use crate::types::{Address, OutPoint, Output, SpentOutput};

pub mod addresses;
pub mod calls;
pub mod coins;
pub mod laws;
pub mod outcomes;
pub mod records;
pub mod refusals;
pub mod signers;
pub mod signing;
pub mod transactions;

verus! {

/// What a wallet holds.
#[derive(Clone, Copy, Debug, PartialEq, Eq, Structural)]
pub struct Balance {
    /// The sum of all coins.
    pub total: Amount,
    /// The sum of the coins that are not on their way to the parent chain.
    pub available: Amount,
}

/// Why the wallet could not do what it was asked to.
#[derive(Clone, Copy, Debug, PartialEq, Eq)]
pub enum Error {
    /// The address is not known.
    AddressDoesNotExist { address: Address },
    /// A sum of amounts is more than an amount can hold.
    AmountOverflow(AmountOverflowError),
    /// A difference of amounts is less than zero.
    AmountUnderflow(AmountUnderflowError),
    /// The transaction could not be signed.
    Authorization(crate::authorization::Error),
    /// A key could not be derived.
    Bip32(DeriveError),
    /// The address is not that of one of the first `max_index` keys.
    AddressNotRecoverable { address: Address, max_index: u32 },
    /// The address has no index.
    NoIndex { address: Address },
    /// There is no seed.
    NoSeed,
    /// The coins do not suffice.
    NotEnoughFunds,
    /// A transfer pays nobody.
    NoTransferDestination,
    /// A coin is not the wallet's.
    NoUtxo,
    /// The words are not a seed phrase.
    ParseMnemonic(MnemonicError),
    /// There is another seed already.
    SeedAlreadyExists,
    /// A coin is not in the set of unspent outputs.
    Utreexo(UtreexoError),
}

/// Why words are not a seed phrase, as `bip39` tells it.
#[derive(Clone, Copy, Debug, PartialEq, Eq, Structural)]
pub enum MnemonicError {
    /// The words do not fit their checksum.
    InvalidChecksum,
    /// The word with this index is not one of the language.
    InvalidWord(usize),
    /// There is no phrase for a key of this size.
    InvalidKeysize(usize),
    /// No phrase has this number of words.
    InvalidWordLength(usize),
    /// The number of bits is not that of a phrase with the number of words.
    InvalidEntropyLength(usize, usize),
}

/// The language of a seed phrase.
#[derive(Clone, Copy, Debug, PartialEq, Eq, Structural)]
pub enum Language {
    English,
}

/// The version of the program that made the stores.
#[derive(Clone, Copy, Debug, PartialEq, Eq, Structural)]
pub struct Version {
    pub major: u64,
    pub minor: u64,
    pub patch: u64,
}

/// Destinations of a transfer. Each address takes a value in sats.
pub struct TransferDests(pub Table<Address, u64>);

/// The same address twice among the destinations of a transfer.
#[derive(Clone, Copy, Debug, PartialEq, Eq)]
pub struct RepeatedAddress(pub Address);

/// No address stands twice among the first `n` pairs.
pub open spec fn addresses_distinct(pairs: Seq<(Address, u64)>, n: int) -> bool {
    forall|i: int, j: int|
        0 <= i < n && 0 <= j < n && i != j ==> (#[trigger] pairs[i]).0 != (#[trigger] pairs[j]).0
}

/// Addresses are distinct exactly where no two of them are the same.
pub proof fn distinct_addresses_stand_once(pairs: Seq<(Address, u64)>, n: int)
    ensures
        addresses_distinct(pairs, n) <==> forall|i: int, j: int|
            0 <= i < j < n ==> (#[trigger] pairs[i]).0 != (#[trigger] pairs[j]).0,
{
    if forall|i: int, j: int|
        0 <= i < j < n ==> (#[trigger] pairs[i]).0 != (#[trigger] pairs[j]).0 {
        assert forall|i: int, j: int| 0 <= i < n && 0 <= j < n && i != j implies (
        #[trigger] pairs[i]).0 != (#[trigger] pairs[j]).0 by {
            if j < i {
                assert(pairs[j].0 != pairs[i].0);
            }
        }
    }
}

impl TransferDests {
    /// The destinations listed in `pairs`. A repeated address is an error.
    pub fn from_pairs(pairs: &[(Address, u64)]) -> (dests: Result<TransferDests, RepeatedAddress>)
        ensures
            match dests {
                Ok(d) => {
                    &&& addresses_distinct(pairs@, pairs@.len() as int)
                    &&& forall|i: int, j: int|
                        0 <= i < j < pairs@.len() ==> (#[trigger] pairs@[i]).0 != (
                        #[trigger] pairs@[j]).0
                    &&& forall|a: Address| #[trigger]
                        d.0@.contains_key(a) <==> exists|i: int|
                            0 <= i < pairs@.len() && (#[trigger] pairs@[i]).0 == a
                    &&& forall|i: int|
                        0 <= i < pairs@.len() ==> d.0@[(#[trigger] pairs@[i]).0] == pairs@[i].1
                },
                Err(e) => exists|j: int|
                    0 <= j < pairs@.len() && (#[trigger] pairs@[j]).0 == e.0 && addresses_distinct(
                        pairs@,
                        j,
                    ) && exists|i: int| 0 <= i < j && (#[trigger] pairs@[i]).0 == e.0,
            },
    {
        let mut table: Table<Address, u64> = Table::new();
        let mut n: usize = 0;
        while n < pairs.len()
            invariant
                n <= pairs@.len(),
                addresses_distinct(pairs@, n as int),
                forall|a: Address| #[trigger]
                    table@.contains_key(a) <==> exists|i: int|
                        0 <= i < n && (#[trigger] pairs@[i]).0 == a,
                forall|i: int| 0 <= i < n ==> table@[(#[trigger] pairs@[i]).0] == pairs@[i].1,
            decreases pairs@.len() - n,
        {
            let (address, value) = pairs[n];
            if table.contains(&address) {
                assert(pairs@[n as int].0 == address);
                return Err(RepeatedAddress(address));
            }
            let ghost before = table@;
            table.put(address, value);
            proof {
                assert(pairs@[n as int].0 == address);
                assert forall|i: int| 0 <= i < n implies (#[trigger] pairs@[i]).0 != address by {
                    assert(before.contains_key(pairs@[i].0));
                }
                assert forall|a: Address| #[trigger] table@.contains_key(a) implies exists|i: int|
                    0 <= i < n + 1 && (#[trigger] pairs@[i]).0 == a by {
                    if a == address {
                        assert(pairs@[n as int].0 == a);
                    } else {
                        assert(before.contains_key(a));
                        let i = choose|i: int| 0 <= i < n && (#[trigger] pairs@[i]).0 == a;
                        assert(pairs@[i].0 == a);
                    }
                }
            }
            n = n + 1;
        }
        Ok(TransferDests(table))
    }
}

/// The wallet's stores.
pub struct Tables {
    pub seed: Option<[u8; 64]>,
    /// Each address with its index.
    pub address_to_index: Table<Address, u32>,
    /// Each index with its address.
    pub index_to_address: Table<u32, Address>,
    /// The unspent outputs.
    pub utxos: Table<OutPoint, Output>,
    /// The spent outputs.
    pub stxos: Table<OutPoint, SpentOutput>,
    pub version: Option<Version>,
}

/// The wallet's stores as mathematical values.
#[verifier::ext_equal]
pub ghost struct WalletView {
    pub seed: Option<[u8; 64]>,
    pub address_to_index: Map<Address, u32>,
    pub index_to_address: Map<u32, Address>,
    pub utxos: Map<OutPoint, Output>,
    pub stxos: Map<OutPoint, SpentOutput>,
    pub version: Option<Version>,
}

/// Stores that hold nothing but a seed and a version, if that.
pub open spec fn empty_with(seed: Option<[u8; 64]>, version: Option<Version>) -> WalletView {
    WalletView {
        seed,
        address_to_index: Map::empty(),
        index_to_address: Map::empty(),
        utxos: Map::empty(),
        stxos: Map::empty(),
        version,
    }
}

impl View for Tables {
    type V = WalletView;

    open spec fn view(&self) -> WalletView {
        WalletView {
            seed: self.seed,
            address_to_index: self.address_to_index@,
            index_to_address: self.index_to_address@,
            utxos: self.utxos@,
            stxos: self.stxos@,
            version: self.version,
        }
    }
}

impl Tables {
    /// Stores that hold nothing.
    pub fn new() -> (tables: Tables)
        ensures
            tables@ == empty_with(None, None),
    {
        Tables {
            seed: None,
            address_to_index: Table::new(),
            index_to_address: Table::new(),
            utxos: Table::new(),
            stxos: Table::new(),
            version: None,
        }
    }
}

/// The wallet: what it stores, and the keys that follow from its seed.
pub struct Wallet<D: Fn(Step) -> Result<Xpriv, DeriveError>> {
    pub tree: KeyTree<D>,
    pub tables: Tables,
}

impl<D: Fn(Step) -> Result<Xpriv, DeriveError>> View for Wallet<D> {
    type V = WalletView;

    open spec fn view(&self) -> WalletView {
        self.tables@
    }
}

/// The key with the given index, for the stored seed.
pub open spec fn key_at<D: Fn(Step) -> Result<Xpriv, DeriveError>>(
    tree: KeyTree<D>,
    w: WalletView,
    index: u32,
) -> Result<SigningKey, Error> {
    match w.seed {
        None => Err(Error::NoSeed),
        Some(seed) => match tree.key(seed, index) {
            Ok(key) => Ok(key),
            Err(error) => Err(Error::Bip32(error)),
        },
    }
}

/// The address with the given index, for the stored seed.
pub open spec fn address_at<D: Fn(Step) -> Result<Xpriv, DeriveError>>(
    tree: KeyTree<D>,
    w: WalletView,
    index: u32,
) -> Result<Address, Error> {
    match key_at(tree, w, index) {
        Ok(key) => Ok(key_address(key.public())),
        Err(error) => Err(error),
    }
}

/// The stores with `address` recorded at `index`.
pub open spec fn recorded(w: WalletView, index: u32, address: Address) -> WalletView {
    WalletView {
        index_to_address: w.index_to_address.insert(index, address),
        address_to_index: w.address_to_index.insert(address, index),
        ..w
    }
}

/// A wallet that has addresses but not the one with index 0 is given it: else it
/// would not see coins paid to index 0.
pub open spec fn index_zero_adopted<D: Fn(Step) -> Result<Xpriv, DeriveError>>(
    tree: KeyTree<D>,
    w: WalletView,
) -> (Result<(), Error>, WalletView) {
    if w.seed is None || w.index_to_address == Map::<u32, Address>::empty()
        || w.index_to_address.contains_key(0) {
        (Ok(()), w)
    } else {
        match address_at(tree, w, 0) {
            Ok(address) => (Ok(()), recorded(w, 0, address)),
            Err(error) => (Err(error), w),
        }
    }
}

/// The stores with a version: the one that they have, or else the given one.
pub open spec fn versioned(w: WalletView, version: Version) -> WalletView {
    if w.version is None {
        WalletView { version: Some(version), ..w }
    } else {
        w
    }
}

/// What `bip39` makes of a phrase and a password: the error where the phrase is not one
/// of the language, and else the seed that follows from the two.
pub uninterp spec fn mnemonic_seed(
    phrase: Seq<char>,
    language: Language,
    password: Seq<char>,
) -> Result<[u8; 64], MnemonicError>;

/// `bip39::Mnemonic::from_phrase`, and `bip39::Seed::new` of what it gives: the seed or
/// the error is named.
#[verifier::external_body]
fn call_mnemonic_seed(phrase: &str, language: Language, password: &str) -> (seed: Result<
    [u8; 64],
    MnemonicError,
>)
    ensures
        seed == mnemonic_seed(phrase@, language, password@),
{
    let language = match language { Language::English => bip39::Language::English };
    let mnemonic = bip39::Mnemonic::from_phrase(phrase, language).map_err(|kind| match kind {
        ErrorKind::InvalidChecksum => MnemonicError::InvalidChecksum,
        ErrorKind::InvalidWord(n) => MnemonicError::InvalidWord(n),
        ErrorKind::InvalidKeysize(n) => MnemonicError::InvalidKeysize(n),
        ErrorKind::InvalidWordLength(n) => MnemonicError::InvalidWordLength(n),
        ErrorKind::InvalidEntropyLength(n, t) => {
            MnemonicError::InvalidEntropyLength(n, t.word_count())
        },
    })?;
    let seed = bip39::Seed::new(&mnemonic, password);
    Ok(seed.as_bytes().try_into().expect("64 bytes"))
}

/// Setting a seed: the same seed again changes nothing, and another is refused.
pub open spec fn seed_set(w: WalletView, seed: [u8; 64]) -> (Result<(), Error>, WalletView) {
    match w.seed {
        None => (Ok(()), empty_with(Some(seed), w.version)),
        Some(current) => if current@ == seed@ {
            (Ok(()), w)
        } else {
            (Err(Error::SeedAlreadyExists), w)
        },
    }
}

impl<D: Fn(Step) -> Result<Xpriv, DeriveError>> Wallet<D> {
    /// The wallet with the given stores. Stores without a version are given the one
    /// of this program. A wallet that has addresses but not the one with index 0 is
    /// given it.
    pub fn new(tree: KeyTree<D>, tables: Tables, version: Version) -> (result: Result<
        Wallet<D>,
        Error,
    >)
        ensures
            match result {
                Ok(wallet) => wallet.tree == tree && index_zero_adopted(
                    tree,
                    versioned(tables@, version),
                ) == (Ok::<(), Error>(()), wallet@),
                Err(e) => index_zero_adopted(tree, versioned(tables@, version)).0 == Err::<
                    (),
                    Error,
                >(e),
            },
    {
        let mut wallet = Wallet { tree, tables };
        wallet.record_version(version);
        match wallet.adopt_index_zero() {
            Ok(_) => Ok(wallet),
            Err(error) => Err(error),
        }
    }

    /// Gives stores without a version the given one.
    pub fn record_version(&mut self, version: Version)
        ensures
            final(self).tree == old(self).tree,
            final(self)@ == versioned(old(self)@, version),
    {
        if self.tables.version.is_none() {
            self.tables.version = Some(version);
        }
    }

    /// The key with the given index, for the stored seed.
    pub fn get_signing_key(&self, index: u32) -> (key: Result<SigningKey, Error>)
        ensures
            key == key_at(self.tree, self@, index),
            self@.seed is None ==> key is Err && key->Err_0 == Error::NoSeed,
            self@.seed is Some ==> match self.tree.key(self@.seed->0, index) {
                Ok(k) => key is Ok && key->Ok_0 == k,
                Err(e) => key is Err && key->Err_0 == Error::Bip32(e),
            },
    {
        match &self.tables.seed {
            None => Err(Error::NoSeed),
            Some(seed) => match self.tree.derive_signing_key(seed, index) {
                Ok(key) => Ok(key),
                Err(error) => Err(Error::Bip32(error)),
            },
        }
    }

    /// Replaces the seed, or sets it if there is none. What was stored for another
    /// seed is forgotten.
    pub fn overwrite_seed(&mut self, seed: &[u8; 64])
        ensures
            final(self).tree == old(self).tree,
            final(self)@ == empty_with(Some(*seed), old(self)@.version),
            final(self)@.seed == Some(*seed),
            final(self)@.version == old(self)@.version,
            final(self)@.address_to_index == Map::<Address, u32>::empty(),
            final(self)@.index_to_address == Map::<u32, Address>::empty(),
            final(self)@.utxos == Map::<OutPoint, Output>::empty(),
            final(self)@.stxos == Map::<OutPoint, SpentOutput>::empty(),
    {
        self.tables.seed = Some(*seed);
        self.tables.address_to_index.clear();
        self.tables.index_to_address.clear();
        self.tables.utxos.clear();
        self.tables.stxos.clear();
    }

    /// Tells whether there is a seed.
    pub fn has_seed(&self) -> (found: bool)
        ensures
            found == (self@.seed is Some),
    {
        self.tables.seed.is_some()
    }

    /// Sets the seed, if there is none yet.
    pub fn set_seed(&mut self, seed: &[u8; 64]) -> (result: Result<(), Error>)
        ensures
            final(self).tree == old(self).tree,
            (result, final(self)@) == seed_set(old(self)@, *seed),
    {
        match &self.tables.seed {
            Some(current) => {
                if bytes_equal(current.as_slice(), seed.as_slice()) {
                    Ok(())
                } else {
                    Err(Error::SeedAlreadyExists)
                }
            },
            None => {
                self.overwrite_seed(seed);
                Ok(())
            },
        }
    }

    /// Sets the seed from a seed phrase without a password, if there is none yet.
    pub fn set_seed_from_mnemonic(&mut self, mnemonic: &str) -> (result: Result<(), Error>)
        ensures
            final(self).tree == old(self).tree,
            match mnemonic_seed(mnemonic@, Language::English, ""@) {
                Ok(seed) => (result, final(self)@) == seed_set(old(self)@, seed),
                Err(error) => (result, final(self)@) == (
                    Err::<(), Error>(Error::ParseMnemonic(error)),
                    old(self)@,
                ),
            },
    {
        match call_mnemonic_seed(mnemonic, Language::English, "") {
            Ok(seed) => self.set_seed(&seed),
            Err(error) => Err(Error::ParseMnemonic(error)),
        }
    }
}

} // verus!
