//! Tests of what holds of the wallet as a whole, on chosen values.

use rand_chacha::rand_core::SeedableRng;
use rand_chacha::ChaCha20Rng;

use swap_wallet::accumulator::{Accumulator, AccumulatorDiff, UtreexoError};
use swap_wallet::amount::{Amount, AmountOverflowError};
use swap_wallet::authorization::{
    verify_authorized_transaction, BatchVerificationContext,
};
use swap_wallet::derivation::{ChildIndex, DeriveError, KeyTree, Step, StepError, Xpriv};
use swap_wallet::hashing::PointedOutput;
use swap_wallet::keys::{get_address, SigningKey};
use swap_wallet::table::Table;
use swap_wallet::types::{
    Address, GetAddress, GetValue, InPoint, MainAddress, OutPoint, Output, OutputContent,
    ParentChainType, SpentOutput, SwapId, Transaction, TxData, Txid,
};
use swap_wallet::wallet::coins::choose_coins;
use swap_wallet::wallet::{
    Balance, Error, MnemonicError, RepeatedAddress, Tables, TransferDests, Version, Wallet,
};

type Derive = fn(Step) -> Result<Xpriv, DeriveError>;

/// A key for each seed and each child: a hash, cut to a number of the scalar field.
fn derive(step: Step) -> Result<Xpriv, DeriveError> {
    let (bytes, depth) = match step {
        Step::Master { seed } => (seed.to_vec(), 0),
        Step::Child { parent, index } => (
            [parent.secret_scalar.as_slice(), format!("{index:?}").as_bytes()].concat(),
            parent.depth + 1,
        ),
    };
    let mut secret_scalar: [u8; 32] = blake3::hash(&bytes).into();
    secret_scalar[31] &= 0x0f;
    Ok(Xpriv {
        secret_scalar,
        chaincode: [0; 32],
        depth,
        parent_fingerprint: [0; 4],
        child_number: 0,
    })
}

/// Fails at index 3.
fn derive_but_three(step: Step) -> Result<Xpriv, DeriveError> {
    match step {
        Step::Child { index: ChildIndex::NonHardened { index: 3 }, .. } => {
            Err(DeriveError::NonHardened(StepError::DepthLimit))
        }
        _ => derive(step),
    }
}

fn tree() -> KeyTree<Derive> {
    KeyTree::new(derive as Derive)
}

fn address_at(seed: &[u8; 64], index: u32) -> Address {
    tree().derive_address_for_index(seed, index).unwrap()
}

fn sat(value: u64) -> Amount {
    Amount::from_sat(value)
}

fn outpoint(vout: u32) -> OutPoint {
    OutPoint::Regular { txid: Txid([vout as u8; 32]), vout }
}

fn paid(address: Address, value: u64) -> Output {
    Output { address, content: OutputContent::Value(sat(value)) }
}

fn table(pairs: &[(OutPoint, Output)]) -> Table<OutPoint, Output> {
    let mut table = Table::new();
    for (outpoint, output) in pairs {
        table.put(*outpoint, *output);
    }
    table
}

fn set(addresses: &[Address]) -> Table<Address, ()> {
    let mut table = Table::new();
    for address in addresses {
        table.put(*address, ());
    }
    table
}

fn accumulator(pairs: &[(OutPoint, Output)]) -> Accumulator {
    let mut diff = AccumulatorDiff::new();
    for (outpoint, output) in pairs {
        diff.insert(&PointedOutput { outpoint: *outpoint, output: *output });
    }
    let mut accumulator = Accumulator::new();
    accumulator.apply_diff(diff).unwrap();
    accumulator
}

fn empty_wallet() -> Wallet<Derive> {
    Wallet::new(tree(), Tables::new(), VERSION).unwrap()
}

const SEED: [u8; 64] = [2; 64];

const VERSION: Version = Version { major: 0, minor: 1, patch: 0 };

/// A wallet with one coin of each value, each paid to a new address.
fn funded(values: &[u64]) -> (Wallet<Derive>, Accumulator, Vec<(OutPoint, Output)>) {
    let mut wallet = empty_wallet();
    wallet.set_seed(&SEED).unwrap();
    let mut pairs = Vec::new();
    for (index, value) in values.iter().enumerate() {
        let address = wallet.get_new_address().unwrap();
        pairs.push((outpoint(index as u32), paid(address, *value)));
    }
    wallet.put_utxos(&table(&pairs));
    let accumulator = accumulator(&pairs);
    (wallet, accumulator, pairs)
}

fn paid_out(transaction: &Transaction) -> u64 {
    transaction.outputs.iter().map(|output| output.get_value().to_sat()).sum()
}

fn main_address() -> MainAddress {
    MainAddress::from_text(b"bc1qmain").unwrap()
}

#[test]
fn keys_stand_at_the_path_of_their_index() {
    for (index, last) in [
        (7, ChildIndex::NonHardened { index: 7 }),
        (0x7fff_ffff, ChildIndex::NonHardened { index: 0x7fff_ffff }),
        (0x8000_0005, ChildIndex::Hardened { index: 5 }),
    ] {
        let mut xpriv = derive(Step::Master { seed: SEED }).unwrap();
        for number in [43, 1899, 0, 255, 0] {
            let index = ChildIndex::Hardened { index: number };
            xpriv = derive(Step::Child { parent: xpriv, index }).unwrap();
        }
        xpriv = derive(Step::Child { parent: xpriv, index: last }).unwrap();
        assert_eq!(xpriv.depth, 6);
        let expected = SigningKey::from_scalar(xpriv.secret_scalar).unwrap().verifying_key();
        let key = tree().derive_signing_key(&SEED, index).unwrap();
        assert_eq!(key.verifying_key(), expected);
        assert_eq!(address_at(&SEED, index), get_address(expected));
    }
}

#[test]
fn the_first_step_that_fails_is_the_error() {
    fn no_master(_: Step) -> Result<Xpriv, DeriveError> {
        Err(DeriveError::Hardened(StepError::DepthLimit))
    }
    let tree = KeyTree::new(no_master as Derive);
    assert_eq!(tree.derive_address_for_index(&SEED, 0), Err(DeriveError::Hardened(StepError::DepthLimit)));
    let tree = KeyTree::new(derive_but_three as Derive);
    assert_eq!(tree.derive_address_for_index(&SEED, 3), Err(DeriveError::NonHardened(StepError::DepthLimit)));
    assert!(tree.derive_address_for_index(&SEED, 4).is_ok());
}

#[test]
fn a_seed_is_set_once() {
    let mut wallet = empty_wallet();
    assert_eq!(wallet.set_seed(&[1; 64]), Ok(()));
    let address = wallet.get_new_address().unwrap();
    assert_eq!(wallet.set_seed(&[1; 64]), Ok(()));
    assert!(wallet.has_address(&address));
    assert_eq!(wallet.set_seed(&[2; 64]), Err(Error::SeedAlreadyExists));
    assert!(wallet.has_address(&address));
    wallet.overwrite_seed(&[2; 64]);
    assert!(!wallet.has_address(&address));
    assert_eq!(wallet.get_num_addresses(), 0);
    assert_eq!(wallet.tables.seed, Some([2; 64]));
}

#[test]
fn opening_stores_keeps_what_they_hold() {
    let (wallet, _, pairs) = funded(&[5]);
    assert_eq!(wallet.tables.version, Some(VERSION));
    let later = Version { major: 2, minor: 0, patch: 0 };
    let mut wallet = Wallet::new(tree(), wallet.tables, later).unwrap();
    assert_eq!(wallet.tables.version, Some(VERSION));
    assert_eq!(wallet.tables.seed, Some(SEED));
    assert_eq!(wallet.get_utxos().rows(), &pairs);
    assert_eq!(wallet.get_num_addresses(), 1);
    wallet.overwrite_seed(&[9; 64]);
    assert_eq!(wallet.tables.version, Some(VERSION));
    // Index 0 is given to a wallet that has a seed and an address but not that one.
    let mut tables = Tables::new();
    tables.seed = Some(SEED);
    tables.index_to_address.put(1, address_at(&SEED, 1));
    tables.address_to_index.put(address_at(&SEED, 1), 1);
    let wallet = Wallet::new(tree(), tables, later).unwrap();
    assert_eq!(wallet.tables.version, Some(later));
    assert_eq!(
        wallet.tables.index_to_address.rows(),
        &vec![(0, address_at(&SEED, 0)), (1, address_at(&SEED, 1))]
    );
}

#[test]
fn overwriting_the_seed_forgets_everything() {
    let (mut wallet, _, pairs) = funded(&[5, 6]);
    wallet.spend_utxos(&[(pairs[0].0, InPoint::Regular { txid: Txid([1; 32]), vin: 0 })]);
    wallet.overwrite_seed(&SEED);
    assert_eq!(wallet.tables.utxos.len(), 0);
    assert_eq!(wallet.tables.stxos.len(), 0);
    assert_eq!(wallet.tables.address_to_index.len(), 0);
    assert_eq!(wallet.tables.index_to_address.len(), 0);
    assert!(wallet.has_seed());
}

#[test]
fn a_seed_phrase_gives_its_seed() {
    let mut wallet = empty_wallet();
    for (words, error) in [
        ("not a seed phrase", MnemonicError::InvalidWord(0)),
        ("abandon  abandon a", MnemonicError::InvalidWord(2)),
        ("abandon abandon about", MnemonicError::InvalidWordLength(3)),
        (
            "abandon abandon abandon abandon abandon abandon abandon abandon abandon abandon \
             abandon abandon",
            MnemonicError::InvalidChecksum,
        ),
    ] {
        assert_eq!(wallet.set_seed_from_mnemonic(words), Err(Error::ParseMnemonic(error)));
    }
    assert!(!wallet.has_seed());
    let phrase = "abandon abandon abandon abandon abandon abandon abandon abandon abandon abandon \
                  abandon about";
    assert_eq!(wallet.set_seed_from_mnemonic(phrase), Ok(()));
    let seed = wallet.tables.seed.unwrap();
    assert_eq!(
        seed[..16],
        [
            0x5e, 0xb0, 0x0b, 0xbd, 0xdc, 0xf0, 0x69, 0x08, 0x48, 0x89, 0xa8, 0xab, 0x91, 0x55,
            0x56, 0x81,
        ]
    );
    assert_eq!(seed[60..], [0xce, 0x9e, 0x38, 0xe4]);
    assert_eq!(wallet.set_seed_from_mnemonic(phrase), Ok(()));
    let other = "legal winner thank year wave sausage worth useful legal winner thank yellow";
    assert_eq!(wallet.set_seed_from_mnemonic(other), Err(Error::SeedAlreadyExists));
}

#[test]
fn addresses_need_a_seed() {
    let mut wallet = empty_wallet();
    assert_eq!(wallet.get_new_address(), Err(Error::NoSeed));
    assert_eq!(wallet.get_address_or_new(), Err(Error::NoSeed));
    assert_eq!(wallet.get_receive_address(), Err(Error::NoSeed));
    assert_eq!(wallet.ensure_address_indexed(&Address([1; 20])), Err(Error::NoSeed));
    assert_eq!(wallet.recover_addresses_from_utxo_set(&set(&[Address([1; 20])])), Ok(0));
    assert!(matches!(wallet.get_signing_key(0), Err(Error::NoSeed)));
}

#[test]
fn a_key_that_cannot_be_derived_is_an_error() {
    let tree = KeyTree::new(derive_but_three as Derive);
    let mut wallet = Wallet::new(tree, Tables::new(), VERSION).unwrap();
    wallet.set_seed(&SEED).unwrap();
    for _ in 0..3 {
        wallet.get_new_address().unwrap();
    }
    assert_eq!(wallet.get_new_address(), Err(Error::Bip32(DeriveError::NonHardened(StepError::DepthLimit))));
    assert_eq!(wallet.get_num_addresses(), 3);
    // A search for one address passes over the index, and a search for many stops there.
    let four = address_at(&SEED, 4);
    assert_eq!(wallet.ensure_address_indexed(&four), Ok(()));
    assert_eq!(wallet.tables.address_to_index.get(&four), Some(&4));
    wallet.overwrite_seed(&SEED);
    let two = address_at(&SEED, 2);
    assert_eq!(
        wallet.recover_addresses_from_utxo_set(&set(&[two, four])),
        Err(Error::Bip32(DeriveError::NonHardened(StepError::DepthLimit)))
    );
    assert!(wallet.has_address(&two));
    assert!(!wallet.has_address(&four));
}

#[test]
fn recorded_addresses_follow_from_the_seed() {
    let (wallet, _, _) = funded(&[1, 2, 3]);
    for (index, address) in wallet.tables.index_to_address.rows() {
        assert_eq!(*address, address_at(&SEED, *index));
        assert_eq!(wallet.tables.address_to_index.get(address), Some(index));
    }
}

#[test]
fn an_address_is_indexed_once() {
    let mut wallet = empty_wallet();
    wallet.set_seed(&SEED).unwrap();
    let address = address_at(&SEED, 33);
    assert_eq!(wallet.ensure_address_indexed(&address), Ok(()));
    assert!(wallet.has_address(&address));
    assert_eq!(wallet.tables.index_to_address.get(&33), Some(&address));
    assert_eq!(wallet.ensure_address_indexed(&address), Ok(()));
    assert_eq!(wallet.get_num_addresses(), 1);
    // The next new address comes behind the greatest index.
    assert_eq!(wallet.get_new_address(), Ok(address_at(&SEED, 34)));
}

#[test]
fn an_address_of_another_seed_is_not_recoverable() {
    // No key can be derived, so that the search is quick.
    fn no_key(_: Step) -> Result<Xpriv, DeriveError> {
        Err(DeriveError::Hardened(StepError::DepthLimit))
    }
    let mut wallet = Wallet::new(KeyTree::new(no_key as Derive), Tables::new(), VERSION).unwrap();
    wallet.set_seed(&SEED).unwrap();
    let address = Address([1; 20]);
    assert_eq!(
        wallet.ensure_address_indexed(&address),
        Err(Error::AddressNotRecoverable { address, max_index: 100_000 })
    );
}

#[test]
fn a_search_ends_after_the_gap() {
    let mut wallet = empty_wallet();
    wallet.set_seed(&SEED).unwrap();
    // Index 19 is within the gap limit of the start, 39 within that of 19, and 60 is not
    // within that of 39.
    let hits = [19, 39, 60].map(|index| address_at(&SEED, index));
    assert_eq!(wallet.recover_addresses_from_utxo_set(&set(&hits)), Ok(2));
    assert!(wallet.has_address(&hits[0]));
    assert!(wallet.has_address(&hits[1]));
    assert!(!wallet.has_address(&hits[2]));
    assert_eq!(wallet.recover_addresses_from_utxo_set(&set(&hits)), Ok(0));
    assert_eq!(wallet.recover_addresses_from_utxo_set(&set(&[])), Ok(0));
    let late = address_at(&SEED, 20);
    wallet.overwrite_seed(&SEED);
    assert_eq!(wallet.recover_addresses_from_utxo_set(&set(&[late])), Ok(0));
}

#[test]
fn a_spent_output_counts_as_received() {
    let mut wallet = empty_wallet();
    wallet.set_seed(&SEED).unwrap();
    let first = wallet.get_receive_address().unwrap();
    wallet.put_utxos(&table(&[(outpoint(1), paid(first, 5))]));
    assert!(wallet.address_received(&first));
    wallet.spend_utxos(&[(outpoint(1), InPoint::Withdrawal { m6id: [1; 32] })]);
    assert!(wallet.address_received(&first));
    assert_ne!(wallet.get_receive_address().unwrap(), first);
}

#[test]
fn spending_moves_outputs() {
    let (mut wallet, _, pairs) = funded(&[10, 20, 30]);
    let inpoint = InPoint::Regular { txid: Txid([5; 32]), vin: 1 };
    let again = InPoint::Regular { txid: Txid([6; 32]), vin: 2 };
    wallet.spend_utxos(&[
        (pairs[1].0, inpoint),
        (pairs[1].0, again),
        (outpoint(99), inpoint),
    ]);
    assert!(!wallet.get_utxos().contains(&pairs[1].0));
    assert_eq!(wallet.get_utxos().len(), 2);
    assert_eq!(
        wallet.tables.stxos.get(&pairs[1].0),
        Some(&SpentOutput { output: pairs[1].1, inpoint })
    );
    assert_eq!(wallet.tables.stxos.len(), 1);
    assert_eq!(wallet.get_balance(), Ok(Balance { total: sat(40), available: sat(40) }));
    wallet.delete_utxos(&[pairs[0].0, pairs[0].0, outpoint(98)]);
    assert_eq!(wallet.get_balance(), Ok(Balance { total: sat(30), available: sat(30) }));
    assert_eq!(wallet.tables.stxos.len(), 1);
}

#[test]
fn withdrawals_are_not_available() {
    let (mut wallet, _, _) = funded(&[10]);
    let withdrawal = Output {
        address: Address([1; 20]),
        content: OutputContent::Withdrawal {
            value: sat(7),
            main_fee: sat(1),
            main_address: main_address(),
        },
    };
    wallet.put_utxos(&table(&[(outpoint(50), withdrawal)]));
    assert_eq!(wallet.get_balance(), Ok(Balance { total: sat(17), available: sat(10) }));
    assert!(matches!(wallet.select_coins(sat(11)), Err(Error::NotEnoughFunds)));
    wallet.put_utxos(&table(&[(outpoint(51), paid(Address([1; 20]), u64::MAX))]));
    assert_eq!(wallet.get_balance(), Err(Error::AmountOverflow(AmountOverflowError)));
}

#[test]
fn the_smallest_coins_are_chosen_first() {
    let (wallet, _, pairs) = funded(&[50, 10, 40, 20, 30]);
    let (total, chosen) = wallet.select_coins(sat(55)).unwrap();
    assert_eq!(total, sat(60));
    assert_eq!(chosen, vec![pairs[1], pairs[3], pairs[4]]);
    let (total, chosen) = wallet.select_coins(sat(0)).unwrap();
    assert_eq!((total, chosen.len()), (sat(0), 0));
    let locked = pairs[1].0;
    let (total, chosen) =
        wallet.select_coins_with_filter(sat(55), |o| *o == locked).unwrap();
    assert_eq!(total, sat(90));
    assert_eq!(chosen, vec![pairs[3], pairs[4], pairs[2]]);
    assert!(matches!(wallet.select_coins(sat(151)), Err(Error::NotEnoughFunds)));
    assert_eq!(wallet.select_coins(sat(150)).unwrap().1.len(), 5);
}

#[test]
fn a_choice_of_coins_may_overflow() {
    let coins = vec![
        (outpoint(0), paid(Address([1; 20]), 10)),
        (outpoint(1), paid(Address([1; 20]), u64::MAX)),
    ];
    assert_eq!(
        choose_coins(&coins, sat(11)),
        Err(Error::AmountOverflow(AmountOverflowError))
    );
    assert_eq!(choose_coins(&coins, sat(10)).unwrap().0, sat(10));
}

#[test]
fn a_transfer_conserves_value_and_can_be_signed() {
    let (mut wallet, accumulator, pairs) = funded(&[700, 300, 500]);
    let transaction = wallet
        .create_transaction(&accumulator, Address([8; 20]), sat(600), sat(50), |_| false)
        .unwrap();
    assert_eq!(transaction.inputs.len(), 2);
    assert_eq!(paid_out(&transaction) + 50, 800);
    for (input, pair) in transaction.inputs.iter().zip([&pairs[1], &pairs[2]]) {
        let pointed = PointedOutput { outpoint: pair.0, output: pair.1 };
        assert_eq!(*input, (pair.0, pointed.digest()));
    }
    assert_eq!(transaction.data, TxData::Regular);
    let hashes: Vec<_> = transaction.inputs.iter().map(|input| input.1).collect();
    assert_eq!(transaction.proof, accumulator.prove(&hashes).unwrap());
    let mut rng = ChaCha20Rng::from_seed(rand::random());
    let authorized = wallet.authorize(&mut rng, transaction).unwrap();
    let ctxt = BatchVerificationContext::new(&mut rng);
    assert_eq!(verify_authorized_transaction(&ctxt, &authorized), Ok(()));
    assert_eq!(authorized.authorizations[0].get_address(), pairs[1].1.address);
    assert_eq!(authorized.authorizations[1].get_address(), pairs[2].1.address);
}

#[test]
fn change_goes_to_a_new_address_each_time() {
    let (mut wallet, accumulator, _) = funded(&[1000]);
    let mut make = || {
        wallet
            .create_transaction(&accumulator, Address([8; 20]), sat(10), sat(0), |_| false)
            .unwrap()
            .outputs[1]
            .address
    };
    let first = make();
    let second = make();
    assert_ne!(first, second);
    assert_eq!(first, address_at(&SEED, 1));
    assert_eq!(second, address_at(&SEED, 2));
}

#[test]
fn a_transfer_of_unproven_coins_changes_nothing() {
    let (mut wallet, _, _) = funded(&[1000]);
    let empty = Accumulator::new();
    let result = wallet.create_transaction(&empty, Address([8; 20]), sat(10), sat(0), |_| false);
    assert_eq!(result, Err(Error::Utreexo(UtreexoError)));
    assert_eq!(wallet.get_num_addresses(), 1);
    let result = wallet.create_withdrawal(
        &empty,
        main_address(),
        sat(10),
        sat(0),
        sat(0),
        |_| false,
    );
    assert_eq!(result, Err(Error::Utreexo(UtreexoError)));
    assert_eq!(wallet.get_num_addresses(), 1);
}

#[test]
fn a_withdrawal_pays_to_two_new_addresses() {
    let (mut wallet, accumulator, pairs) = funded(&[1000]);
    let transaction = wallet
        .create_withdrawal(&accumulator, main_address(), sat(600), sat(30), sat(20), |_| false)
        .unwrap();
    assert_eq!(transaction.inputs[0].0, pairs[0].0);
    assert_eq!(
        transaction.outputs,
        vec![
            Output {
                address: address_at(&SEED, 1),
                content: OutputContent::Withdrawal {
                    value: sat(600),
                    main_fee: sat(30),
                    main_address: main_address(),
                },
            },
            paid(address_at(&SEED, 2), 350),
        ]
    );
    assert_eq!(transaction.data, TxData::Regular);
    let overflow = wallet.create_withdrawal(
        &accumulator,
        main_address(),
        sat(u64::MAX),
        sat(1),
        sat(0),
        |_| false,
    );
    assert_eq!(overflow, Err(Error::AmountOverflow(AmountOverflowError)));
    let too_much = wallet.create_withdrawal(
        &accumulator,
        main_address(),
        sat(1000),
        sat(1),
        sat(0),
        |_| false,
    );
    assert_eq!(too_much, Err(Error::NotEnoughFunds));
}

#[test]
fn a_withdrawal_that_fails_late_keeps_its_first_address() {
    let tree = KeyTree::new(derive_but_three as Derive);
    let mut wallet = Wallet::new(tree, Tables::new(), VERSION).unwrap();
    wallet.set_seed(&SEED).unwrap();
    let address = wallet.get_new_address().unwrap();
    wallet.get_new_address().unwrap();
    let pairs = [(outpoint(0), paid(address, 1000))];
    wallet.put_utxos(&table(&pairs));
    let result = wallet.create_withdrawal(
        &accumulator(&pairs),
        main_address(),
        sat(10),
        sat(0),
        sat(0),
        |_| false,
    );
    assert_eq!(result, Err(Error::Bip32(DeriveError::NonHardened(StepError::DepthLimit))));
    assert_eq!(wallet.get_num_addresses(), 3);
}

#[test]
fn a_swap_is_offered_by_the_owner_of_the_first_input() {
    let (mut wallet, accumulator, pairs) = funded(&[700, 300, 500]);
    let (transaction, id) = wallet
        .create_swap_create_tx(
            &accumulator,
            ParentChainType::BTC,
            String::from("bc1qthere"),
            sat(77),
            None,
            sat(600),
            None,
            sat(50),
            |_| false,
        )
        .unwrap();
    let sender = pairs[1].1.address;
    assert_eq!(transaction.inputs[0].0, pairs[1].0);
    assert_eq!(id, SwapId::from_l2_to_l1("bc1qthere", sat(77), &sender, &None));
    assert_eq!(
        transaction.outputs,
        vec![
            Output {
                address: sender,
                content: OutputContent::SwapPending { value: sat(600), swap_id: id.0 },
            },
            paid(address_at(&SEED, 3), 150),
        ]
    );
    assert_eq!(
        transaction.data,
        TxData::SwapCreate {
            swap_id: id.0,
            parent_chain: ParentChainType::BTC,
            l1_txid_bytes: vec![0; 32],
            required_confirmations: 6,
            l2_recipient: None,
            l2_amount: 600,
            l1_recipient_address: String::from("bc1qthere"),
            l1_amount: 77,
        }
    );
}

#[test]
fn a_swap_for_a_recipient_is_locked_to_the_recipient() {
    let (mut wallet, accumulator, pairs) = funded(&[700]);
    let recipient = Address([0x33; 20]);
    let (transaction, id) = wallet
        .create_swap_create_tx(
            &accumulator,
            ParentChainType::Regtest,
            String::from("x"),
            sat(1),
            Some(recipient),
            sat(700),
            Some(9),
            sat(0),
            |_| false,
        )
        .unwrap();
    let sender = pairs[0].1.address;
    assert_eq!(id, SwapId::from_l2_to_l1("x", sat(1), &sender, &Some(recipient)));
    assert_eq!(transaction.outputs[0].address, recipient);
    assert_eq!(transaction.outputs[1], paid(address_at(&SEED, 1), 0));
    assert!(matches!(
        transaction.data,
        TxData::SwapCreate { required_confirmations: 9, l2_recipient: Some(r), .. } if r == recipient
    ));
    let overflow = wallet.create_swap_create_tx(
        &accumulator,
        ParentChainType::BTC,
        String::new(),
        sat(1),
        None,
        sat(u64::MAX),
        None,
        sat(1),
        |_| false,
    );
    assert_eq!(overflow, Err(Error::AmountOverflow(AmountOverflowError)));
}

#[test]
fn a_swap_of_nothing_is_refused() {
    let (mut wallet, accumulator, _) = funded(&[700]);
    let result = wallet.create_swap_create_tx(
        &accumulator,
        ParentChainType::BTC,
        String::from("x"),
        sat(1),
        None,
        sat(0),
        None,
        sat(0),
        |_| false,
    );
    assert_eq!(result, Err(Error::NotEnoughFunds));
    assert_eq!(wallet.get_num_addresses(), 1);
}

fn pending(address: Address, value: u64) -> Output {
    Output { address, content: OutputContent::SwapPending { value: sat(value), swap_id: [7; 32] } }
}

#[test]
fn a_claim_pays_all_locked_outputs_to_the_recipient() {
    let wallet = empty_wallet();
    let pairs =
        vec![(outpoint(1), pending(Address([1; 20]), 30)), (outpoint(2), pending(Address([2; 20]), 12))];
    let recipient = Address([3; 20]);
    let claimer = Some(Address([4; 20]));
    let transaction = wallet
        .create_swap_claim_tx(
            &accumulator(&pairs),
            SwapId([7; 32]),
            recipient,
            pairs.clone(),
            claimer,
        )
        .unwrap();
    assert_eq!(transaction.outputs, vec![paid(recipient, 42)]);
    assert_eq!(
        transaction.data,
        TxData::SwapClaim { swap_id: [7; 32], l2_claimer_address: claimer, proof_data: None }
    );
    assert_eq!(transaction.inputs.len(), 2);
    let unproven = wallet.create_swap_claim_tx(
        &Accumulator::new(),
        SwapId([7; 32]),
        recipient,
        pairs,
        None,
    );
    assert_eq!(unproven, Err(Error::Utreexo(UtreexoError)));
    let huge =
        vec![(outpoint(1), pending(recipient, u64::MAX)), (outpoint(2), pending(recipient, 1))];
    let overflow = wallet.create_swap_claim_tx(
        &accumulator(&huge),
        SwapId([7; 32]),
        recipient,
        huge,
        None,
    );
    assert_eq!(overflow, Err(Error::AmountOverflow(AmountOverflowError)));
}

#[test]
fn a_reservation_spends_the_smallest_coin_that_covers_the_fee() {
    let (mut wallet, accumulator, pairs) = funded(&[700, 20, 300, 50]);
    let transaction = wallet
        .create_swap_accept_tx(&accumulator, SwapId([7; 32]), None, sat(30), |_| false)
        .unwrap();
    assert_eq!(transaction.inputs.len(), 1);
    assert_eq!(transaction.inputs[0].0, pairs[3].0);
    assert_eq!(transaction.outputs, vec![paid(address_at(&SEED, 4), 20)]);
    assert_eq!(
        transaction.data,
        TxData::SwapAccept { swap_id: [7; 32], l2_claimer_address: pairs[3].1.address }
    );
    // Only coins of the claimer count, and locked ones do not.
    let claimer = pairs[0].1.address;
    let transaction = wallet
        .create_swap_accept_tx(&accumulator, SwapId([7; 32]), Some(claimer), sat(30), |_| false)
        .unwrap();
    assert_eq!(transaction.inputs[0].0, pairs[0].0);
    let locked = pairs[3].0;
    let transaction = wallet
        .create_swap_accept_tx(&accumulator, SwapId([7; 32]), None, sat(30), |o| *o == locked)
        .unwrap();
    assert_eq!(transaction.inputs[0].0, pairs[2].0);
    // Without change there is no output and no new address.
    let before = wallet.get_num_addresses();
    let transaction = wallet
        .create_swap_accept_tx(&accumulator, SwapId([7; 32]), None, sat(700), |_| false)
        .unwrap();
    assert_eq!(transaction.outputs, vec![]);
    assert_eq!(wallet.get_num_addresses(), before);
    let result =
        wallet.create_swap_accept_tx(&accumulator, SwapId([7; 32]), None, sat(701), |_| false);
    assert_eq!(result, Err(Error::NotEnoughFunds));
}

#[test]
fn a_reservation_does_not_spend_outputs_of_swaps() {
    let mut wallet = empty_wallet();
    wallet.set_seed(&SEED).unwrap();
    let address = wallet.get_new_address().unwrap();
    let pairs = [(outpoint(1), pending(address, 100))];
    wallet.put_utxos(&table(&pairs));
    let result = wallet.create_swap_accept_tx(
        &accumulator(&pairs),
        SwapId([7; 32]),
        None,
        sat(1),
        |_| false,
    );
    assert_eq!(result, Err(Error::NotEnoughFunds));
}

#[test]
fn a_claim_of_foreign_outputs_is_signed_with_the_first_key() {
    let mut wallet = empty_wallet();
    wallet.set_seed(&SEED).unwrap();
    let own = wallet.get_new_address().unwrap();
    let pairs = vec![(outpoint(1), pending(Address([9; 20]), 30))];
    wallet.put_utxos(&table(&pairs));
    let transaction = wallet
        .create_swap_claim_tx(&accumulator(&pairs), SwapId([7; 32]), own, pairs, None)
        .unwrap();
    let mut rng = ChaCha20Rng::from_seed(rand::random());
    let authorized = wallet.authorize(&mut rng, transaction).unwrap();
    assert_eq!(authorized.authorizations[0].get_address(), own);
    assert_eq!(own, get_address(wallet.get_signing_key(0).unwrap().verifying_key()));
    let ctxt = BatchVerificationContext::new(&mut rng);
    assert_eq!(verify_authorized_transaction(&ctxt, &authorized), Ok(()));
}

#[test]
fn signing_records_the_addresses_of_coins() {
    let mut wallet = empty_wallet();
    wallet.set_seed(&SEED).unwrap();
    let address = address_at(&SEED, 12);
    let pairs = [(outpoint(1), paid(address, 100))];
    wallet.put_utxos(&table(&pairs));
    let mut rng = ChaCha20Rng::from_seed(rand::random());
    let transaction = Transaction { inputs: vec![(outpoint(1), [0; 32])], ..Default::default() };
    let authorized = wallet.authorize(&mut rng, transaction).unwrap();
    assert_eq!(authorized.authorizations[0].get_address(), address);
    assert_eq!(wallet.tables.address_to_index.get(&address), Some(&12));
    let unknown = Transaction { inputs: vec![(outpoint(2), [0; 32])], ..Default::default() };
    assert_eq!(wallet.authorize(&mut rng, unknown), Err(Error::NoUtxo));
}

/// Records the address with the given index, so that the next one is behind it.
fn take_index(wallet: &mut Wallet<Derive>, index: u32) {
    let address = address_at(&SEED, index);
    wallet.tables.index_to_address.put(index, address);
    wallet.tables.address_to_index.put(address, index);
}

#[test]
fn the_last_index_is_the_last_address() {
    let (mut wallet, _, _) = funded(&[]);
    take_index(&mut wallet, u32::MAX - 1);
    assert!(wallet.has_free_index());
    assert_eq!(wallet.get_new_address(), Ok(address_at(&SEED, u32::MAX)));
    assert!(!wallet.has_free_index());
    assert_eq!(wallet.get_last_address(), Some(address_at(&SEED, u32::MAX)));
}

#[test]
fn an_index_is_asked_for_only_where_one_is_taken() {
    let (mut wallet, accumulator, pairs) = funded(&[700, 20]);
    take_index(&mut wallet, u32::MAX);
    let dest = Address([8; 20]);
    // Coins that do not suffice, or cannot be proven, need no address.
    let result = wallet.create_transaction(&accumulator, dest, sat(721), sat(0), |_| false);
    assert_eq!(result, Err(Error::NotEnoughFunds));
    let none = Accumulator::new();
    let unproven = Err(Error::Utreexo(UtreexoError));
    let result = wallet.create_transaction(&none, dest, sat(10), sat(0), |_| false);
    assert_eq!(result, unproven);
    let result =
        wallet.create_withdrawal(&none, main_address(), sat(10), sat(0), sat(0), |_| false);
    assert_eq!(result, unproven);
    let result = wallet.create_swap_accept_tx(&none, SwapId([7; 32]), None, sat(1), |_| false);
    assert_eq!(result, unproven);
    // A coin worth exactly the fee leaves no change.
    let transaction = wallet
        .create_swap_accept_tx(&accumulator, SwapId([7; 32]), None, sat(20), |_| false)
        .unwrap();
    assert_eq!(transaction.inputs[0].0, pairs[1].0);
    assert_eq!(transaction.outputs, vec![]);
    // Change needs one.
    let result = wallet.try_create_transaction(&accumulator, dest, sat(10), sat(0), |_| false);
    assert_eq!(result, None);
    let result =
        wallet.try_create_swap_accept_tx(&accumulator, SwapId([7; 32]), None, sat(19), |_| false);
    assert_eq!(result, None);
    for (l2_amount, expected) in [(5, None), (0, Some(Err(Error::NotEnoughFunds)))] {
        let result = wallet.try_create_swap_create_tx(
            &accumulator,
            ParentChainType::BTC,
            String::from("x"),
            sat(1),
            None,
            sat(l2_amount),
            None,
            sat(0),
            |_| false,
        );
        assert_eq!(result, expected);
    }
    assert_eq!(wallet.get_num_addresses(), 3);
}

#[test]
fn a_withdrawal_takes_two_indices() {
    fn no_last(step: Step) -> Result<Xpriv, DeriveError> {
        match step {
            Step::Child { index: ChildIndex::Hardened { index: 0x7fff_ffff }, .. } => {
                Err(DeriveError::Hardened(StepError::DepthLimit))
            }
            _ => derive(step),
        }
    }
    let (mut wallet, accumulator, _) = funded(&[700]);
    take_index(&mut wallet, u32::MAX - 1);
    let result = wallet.try_create_withdrawal(
        &accumulator,
        main_address(),
        sat(10),
        sat(0),
        sat(0),
        |_| false,
    );
    assert_eq!(result, None);
    // The second is not asked for where the first address cannot be made.
    let mut failing = Wallet { tree: KeyTree::new(no_last as Derive), tables: wallet.tables };
    let result =
        failing.create_withdrawal(&accumulator, main_address(), sat(10), sat(0), sat(0), |_| false);
    assert_eq!(result, Err(Error::Bip32(DeriveError::Hardened(StepError::DepthLimit))));
    let mut wallet = Wallet { tree: tree(), tables: failing.tables };
    wallet.tables.index_to_address.remove(&(u32::MAX - 1));
    take_index(&mut wallet, u32::MAX - 2);
    let transaction = wallet
        .create_withdrawal(&accumulator, main_address(), sat(10), sat(0), sat(0), |_| false)
        .unwrap();
    let addresses: Vec<Address> =
        transaction.outputs.iter().map(|output| output.address).collect();
    assert_eq!(addresses, vec![address_at(&SEED, u32::MAX - 1), address_at(&SEED, u32::MAX)]);
}

/// The addresses that `has_address` knows and that `get_addresses` lists are the same.
fn check_address_maps(wallet: &Wallet<Derive>) {
    let listed = wallet.get_addresses();
    for row in listed.rows() {
        assert!(wallet.has_address(&row.0));
    }
    for index in 0..40 {
        let address = address_at(&SEED, index);
        assert_eq!(wallet.has_address(&address), listed.contains(&address));
    }
    assert_eq!(listed.len(), wallet.tables.address_to_index.len());
}

#[test]
fn the_address_maps_always_agree() {
    let (mut wallet, accumulator, pairs) = funded(&[700, 300]);
    check_address_maps(&wallet);
    wallet.ensure_address_indexed(&address_at(&SEED, 9)).unwrap();
    check_address_maps(&wallet);
    wallet.ensure_address_indexed(&address_at(&SEED, 9)).unwrap();
    let known = set(&[address_at(&SEED, 1), address_at(&SEED, 5), address_at(&SEED, 9)]);
    assert_eq!(wallet.recover_addresses_from_utxo_set(&known), Ok(1));
    check_address_maps(&wallet);
    let transaction = wallet
        .create_transaction(&accumulator, Address([8; 20]), sat(600), sat(50), |_| false)
        .unwrap();
    check_address_maps(&wallet);
    let mut rng = ChaCha20Rng::from_seed(rand::random());
    wallet.authorize(&mut rng, transaction).unwrap();
    wallet.put_utxos(&table(&[(outpoint(9), paid(address_at(&SEED, 20), 5000))]));
    let signed = Transaction { inputs: vec![(outpoint(9), [0; 32])], ..Default::default() };
    wallet.authorize(&mut rng, signed).unwrap();
    check_address_maps(&wallet);
    assert!(wallet.has_address(&address_at(&SEED, 20)));
    wallet
        .create_withdrawal(&accumulator, main_address(), sat(10), sat(0), sat(0), |_| false)
        .unwrap();
    wallet.spend_utxos(&[(pairs[0].0, InPoint::Regular { txid: Txid([1; 32]), vin: 0 })]);
    wallet.delete_utxos(&[pairs[1].0]);
    check_address_maps(&wallet);
    wallet.set_seed(&[3; 64]).unwrap_err();
    check_address_maps(&wallet);
    wallet.overwrite_seed(&SEED);
    check_address_maps(&wallet);
    assert_eq!(wallet.get_addresses().len(), 0);
    wallet.get_receive_address().unwrap();
    check_address_maps(&wallet);
}

#[test]
fn a_repeated_destination_is_an_error() {
    let (a, b) = (Address([1; 20]), Address([2; 20]));
    let dests = TransferDests::from_pairs(&[(b, 5), (a, 6)]);
    assert!(matches!(&dests, Ok(d) if d.0.rows() == &vec![(a, 6), (b, 5)]));
    let repeated = TransferDests::from_pairs(&[(b, 5), (a, 6), (b, 5)]);
    assert!(matches!(repeated, Err(e) if e == RepeatedAddress(b)));
}

#[test]
fn a_table_keeps_its_rows_in_order() {
    let mut table: Table<u32, &str> = Table::new();
    for (key, value) in [(5, "five"), (1, "one"), (9, "nine"), (5, "cinq")] {
        table.put(key, value);
    }
    assert_eq!(table.rows(), &vec![(1, "one"), (5, "cinq"), (9, "nine")]);
    assert_eq!(table.last(), Some(&(9, "nine")));
    assert_eq!(table.remove(&5), Some("cinq"));
    assert_eq!(table.remove(&5), None);
    assert!(!table.contains(&5));
    assert_eq!(table.get(&1), Some(&"one"));
    table.clear();
    assert_eq!(table.len(), 0);
    assert_eq!(table.last(), None);
}

#[test]
fn outpoints_are_ordered_by_kind_origin_and_position() {
    let mut table: Table<OutPoint, u8> = Table::new();
    table.put(OutPoint::Deposit { txid: [0; 32], vout: 0 }, 4);
    table.put(OutPoint::Coinbase { merkle_root: [0; 32], vout: 0 }, 3);
    table.put(OutPoint::Regular { txid: Txid([2; 32]), vout: 0 }, 2);
    table.put(OutPoint::Regular { txid: Txid([1; 32]), vout: 256 }, 1);
    table.put(OutPoint::Regular { txid: Txid([1; 32]), vout: 1 }, 0);
    let values: Vec<u8> = table.rows().iter().map(|row| row.1).collect();
    assert_eq!(values, vec![0, 1, 2, 3, 4]);
}
