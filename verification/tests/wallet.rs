//! Tests of the wallet.

use swap_wallet::accumulator::{Accumulator, AccumulatorDiff};
use swap_wallet::amount::Amount;
use swap_wallet::derivation::{DeriveError, KeyTree, Step, Xpriv};
use swap_wallet::hashing::PointedOutput;
use swap_wallet::keys::get_address;
use swap_wallet::table::Table;
use swap_wallet::types::{
    Address, GetValue, OutPoint, Output, OutputContent, Txid,
};
use swap_wallet::wallet::{Error, Tables, Version, Wallet};

const VERSION: Version = Version { major: 0, minor: 1, patch: 0 };

type Derive = fn(Step) -> Result<Xpriv, DeriveError>;

/// A key for each seed and each child: a hash, cut to a number of the scalar field.
fn derive(step: Step) -> Result<Xpriv, DeriveError> {
    let (bytes, depth) = match step {
        Step::Master { seed } => (seed.to_vec(), 0),
        Step::Child { parent, index } => (
            [parent.secret_scalar.as_slice(), format!("{index:?}").as_bytes()].concat(),
            parent.depth + 1,
        ),
    };
    let mut secret_scalar: [u8; 32] = blake3::hash(&bytes).into();
    secret_scalar[31] &= 0x0f;
    Ok(Xpriv {
        secret_scalar,
        chaincode: [0; 32],
        depth,
        parent_fingerprint: [0; 4],
        child_number: 0,
    })
}

fn tree() -> KeyTree<Derive> {
    KeyTree::new(derive as Derive)
}

fn sat(value: u64) -> Amount {
    Amount::from_sat(value)
}

fn value_output(value: u64) -> Output {
    Output { address: Address([0x42; 20]), content: OutputContent::Value(sat(value)) }
}

fn swap_pending_output(value: u64) -> Output {
    Output {
        address: Address([0x42; 20]),
        content: OutputContent::SwapPending { value: sat(value), swap_id: [0x17; 32] },
    }
}

fn regular_outpoint(vout: u32) -> OutPoint {
    OutPoint::Regular { txid: Txid([vout as u8; 32]), vout }
}

fn coins(pairs: &[(OutPoint, Output)]) -> Table<OutPoint, Output> {
    let mut table = Table::new();
    for (outpoint, output) in pairs {
        table.put(*outpoint, *output);
    }
    table
}

fn test_wallet() -> Wallet<Derive> {
    Wallet::new(tree(), Tables::new(), VERSION).unwrap()
}

// A wallet that skips index 0 cannot see a deposit paid to it, and a lite
// wallet that derives from 0 then disagrees with the node.
#[test]
fn first_address_uses_index_zero() {
    let mut wallet = test_wallet();
    wallet.set_seed(&[1u8; 64]).unwrap();
    assert_eq!(wallet.get_num_addresses(), 0);

    for index in 0..3u32 {
        let address = wallet.get_new_address().unwrap();
        let expected = get_address(wallet.get_signing_key(index).unwrap().verifying_key());
        assert_eq!(address, expected);
        assert_eq!(wallet.get_num_addresses(), index + 1);
    }
}

#[test]
fn get_receive_address_waits_for_a_payment() {
    let mut wallet = test_wallet();
    wallet.set_seed(&[1u8; 64]).unwrap();

    // An address that never received comes back every time.
    let first = wallet.get_receive_address().unwrap();
    for _ in 0..10 {
        assert_eq!(wallet.get_receive_address().unwrap(), first);
    }
    assert_eq!(wallet.get_addresses().len(), 1);

    // A fresh address is still fresh, so a change output never reuses one.
    let fresh = wallet.get_new_address().unwrap();
    assert_ne!(fresh, first);
    assert_eq!(wallet.get_addresses().len(), 2);

    // The receive address moves on once it receives.
    let output = Output {
        address: wallet.get_receive_address().unwrap(),
        content: OutputContent::Value(sat(1000)),
    };
    wallet.put_utxos(&coins(&[(regular_outpoint(0), output)]));
    let second = wallet.get_receive_address().unwrap();
    assert_ne!(second, first);
    assert_eq!(wallet.get_receive_address().unwrap(), second);
}

// An update must show coins paid to index 0, without a seed restore.
#[test]
fn legacy_wallet_adopts_index_zero() {
    let (tables, index_zero) = {
        let mut wallet = test_wallet();
        wallet.set_seed(&[1u8; 64]).unwrap();

        // Index 1 is recorded first, and index 0 never.
        let address = get_address(wallet.get_signing_key(1).unwrap().verifying_key());
        wallet.tables.index_to_address.put(1, address);
        wallet.tables.address_to_index.put(address, 1);
        let zero = get_address(wallet.get_signing_key(0).unwrap().verifying_key());
        assert!(!wallet.get_addresses().contains(&zero));
        (wallet.tables, zero)
    };

    let mut wallet = Wallet::new(tree(), tables, VERSION).unwrap();
    assert!(wallet.get_addresses().contains(&index_zero));
    assert_eq!(wallet.get_num_addresses(), 2);

    // The adoption runs twice without a second address.
    wallet.adopt_index_zero().unwrap();
    assert_eq!(wallet.get_num_addresses(), 2);
}

/// When the accumulated total exactly reaches the target, coin selection
/// must stop instead of pulling in one extra (larger) UTXO.
#[test]
fn select_coins_exact_target_does_not_overshoot() {
    let mut wallet = test_wallet();
    wallet.put_utxos(&coins(&[
        (regular_outpoint(0), value_output(1000)),
        (regular_outpoint(1), value_output(2000)),
    ]));

    let (total, selected) = wallet.select_coins(sat(1000)).unwrap();
    assert_eq!(selected.len(), 1);
    assert_eq!(total, sat(1000));
}

/// A target below the smallest UTXO still selects a single input.
#[test]
fn select_coins_below_smallest_selects_single_input() {
    let mut wallet = test_wallet();
    wallet.put_utxos(&coins(&[
        (regular_outpoint(0), value_output(1000)),
        (regular_outpoint(1), value_output(2000)),
    ]));

    let (total, selected) = wallet.select_coins(sat(500)).unwrap();
    assert_eq!(selected.len(), 1);
    assert_eq!(total, sat(1000));
}

/// A `SwapPending` output whose swap was cancelled or expired is unlocked
/// in the node state, and must be spendable again instead of being
/// stranded by a content-based filter.
#[test]
fn select_coins_spends_unlocked_swap_pending_output() {
    let mut wallet = test_wallet();
    wallet.put_utxos(&coins(&[(regular_outpoint(0), swap_pending_output(1000))]));

    let (total, selected) = wallet.select_coins_with_filter(sat(1000), |_| false).unwrap();
    assert_eq!(selected.len(), 1);
    assert_eq!(total, sat(1000));
}

/// A `SwapPending` output that is still locked to an in-flight swap may
/// only be spent by a SwapClaim, so coin selection must skip it.
#[test]
fn select_coins_skips_locked_swap_pending_output() {
    let mut wallet = test_wallet();
    wallet.put_utxos(&coins(&[(regular_outpoint(0), swap_pending_output(1000))]));

    assert!(matches!(
        wallet.select_coins_with_filter(sat(1000), |_| true),
        Err(Error::NotEnoughFunds)
    ));
}

fn funded_wallet(values_sats: &[u64]) -> (Wallet<Derive>, Accumulator) {
    let mut wallet = test_wallet();
    wallet.set_seed(&[2u8; 64]).unwrap();

    let mut utxos = Table::new();
    let mut diff = AccumulatorDiff::default();
    for (index, value_sats) in values_sats.iter().enumerate() {
        let outpoint = regular_outpoint(index as u32);
        let output = Output {
            address: wallet.get_new_address().unwrap(),
            content: OutputContent::Value(sat(*value_sats)),
        };
        diff.insert(&PointedOutput { outpoint, output });
        utxos.put(outpoint, output);
    }
    wallet.put_utxos(&utxos);
    let mut accumulator = Accumulator::default();
    accumulator.apply_diff(diff).unwrap();
    (wallet, accumulator)
}

fn value_of(output: &Output) -> u64 {
    output.get_value().to_sat()
}

fn dests(pairs: &[(Address, Amount)]) -> Table<Address, Amount> {
    let mut table = Table::new();
    for (address, value) in pairs {
        table.put(*address, *value);
    }
    table
}

#[test]
fn create_transaction_many_pays_each_address() {
    let (mut wallet, accumulator) = funded_wallet(&[10_000]);

    let dests = dests(&[
        (Address([1u8; 20]), sat(1000)),
        (Address([2u8; 20]), sat(2000)),
        (Address([3u8; 20]), sat(3000)),
    ]);
    let tx = wallet.create_transaction_many(&accumulator, &dests, sat(500), |_| false).unwrap();

    assert_eq!(tx.outputs.len(), 4);
    for (index, (address, value)) in dests.rows().iter().enumerate() {
        assert_eq!(tx.outputs[index].address, *address);
        assert_eq!(value_of(&tx.outputs[index]), value.to_sat());
    }
    let change = &tx.outputs[3];
    assert_eq!(value_of(change), 10_000 - 1000 - 2000 - 3000 - 500);
    assert!(wallet.get_addresses().contains(&change.address));
}

#[test]
fn create_transaction_keeps_one_payment_and_change() {
    let (mut wallet, accumulator) = funded_wallet(&[10_000]);

    let dest = Address([4u8; 20]);
    let tx =
        wallet.create_transaction(&accumulator, dest, sat(1000), sat(500), |_| false).unwrap();

    assert_eq!(tx.outputs.len(), 2);
    assert_eq!(tx.outputs[0].address, dest);
    assert_eq!(value_of(&tx.outputs[0]), 1000);
    assert_eq!(value_of(&tx.outputs[1]), 10_000 - 1000 - 500);
    assert!(wallet.get_addresses().contains(&tx.outputs[1].address));
}

#[test]
fn create_transaction_many_rejects_an_overflow() {
    let (mut wallet, accumulator) = funded_wallet(&[10_000]);

    let half = sat(bitcoin::Amount::MAX.to_sat() / 2);
    let dests = dests(&[
        (Address([1u8; 20]), half),
        (Address([2u8; 20]), sat(half.to_sat() + 1)),
    ]);
    let result = wallet.create_transaction_many(&accumulator, &dests, sat(500), |_| false);
    assert!(matches!(result, Err(Error::AmountOverflow(_))));
}

#[test]
fn create_transaction_many_needs_a_destination() {
    let (mut wallet, accumulator) = funded_wallet(&[10_000]);

    let result =
        wallet.create_transaction_many(&accumulator, &Table::new(), sat(500), |_| false);
    assert!(matches!(result, Err(Error::NoTransferDestination)));
}

#[test]
fn create_transaction_many_totals_the_values() {
    let (mut wallet, accumulator) = funded_wallet(&[1000, 1000]);

    let dests = dests(&[(Address([1u8; 20]), sat(900)), (Address([2u8; 20]), sat(900))]);
    // Each coin alone is too small, so the sum decides the selection.
    let tx = wallet.create_transaction_many(&accumulator, &dests, sat(100), |_| false).unwrap();
    assert_eq!(tx.inputs.len(), 2);
    assert_eq!(value_of(&tx.outputs[2]), 100);

    let result = wallet.create_transaction_many(&accumulator, &dests, sat(1000), |_| false);
    assert!(matches!(result, Err(Error::NotEnoughFunds)));
}

#[test]
fn test_get_address_or_new() {
    let mut wallet = test_wallet();

    // Seed must be set before we can generate addresses
    assert!(!wallet.has_seed());
    let seed = [1u8; 64];
    wallet.set_seed(&seed).unwrap();
    assert!(wallet.has_seed());

    // Get last address when none have been generated
    let last = wallet.get_last_address();
    assert!(last.is_none());

    // Get address or new should generate the first address
    let addr1 = wallet.get_address_or_new().unwrap();

    // Now last address should be addr1
    let last = wallet.get_last_address();
    assert_eq!(last, Some(addr1));

    // Subsequent get_address_or_new calls should return the same addr1
    let addr2 = wallet.get_address_or_new().unwrap();
    assert_eq!(addr1, addr2);

    // Generating a new address explicitly should give a new one
    let addr3 = wallet.get_new_address().unwrap();
    assert_ne!(addr1, addr3);

    // Now last address should be addr3
    let last = wallet.get_last_address();
    assert_eq!(last, Some(addr3));

    // And get_address_or_new should return addr3
    let addr4 = wallet.get_address_or_new().unwrap();
    assert_eq!(addr3, addr4);
}
