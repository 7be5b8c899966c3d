//! Tests of the set of unspent outputs.

use rustreexo::accumulator::mem_forest::MemForest;
use rustreexo::accumulator::node_hash::BitcoinNodeHash;

use swap_wallet::accumulator::{Accumulator, AccumulatorDiff, UtreexoError};
use swap_wallet::amount::Amount;
use swap_wallet::hashing::PointedOutput;
use swap_wallet::types::{Address, OutPoint, Output, OutputContent, Txid};

fn pointed(n: u8) -> PointedOutput {
    PointedOutput {
        outpoint: OutPoint::Regular { txid: Txid([n; 32]), vout: n as u32 },
        output: Output {
            address: Address([n; 20]),
            content: OutputContent::Value(Amount::from_sat(n as u64)),
        },
    }
}

fn with(range: std::ops::Range<u8>) -> Accumulator {
    let mut diff = AccumulatorDiff::new();
    for n in range {
        diff.insert(&pointed(n));
    }
    let mut accumulator = Accumulator::new();
    accumulator.apply_diff(diff).unwrap();
    accumulator
}

#[test]
fn what_was_put_in_can_be_proven() {
    let accumulator = with(0..7);
    for n in 0..7 {
        assert!(accumulator.contains(&pointed(n).digest()));
    }
    assert!(!accumulator.contains(&pointed(7).digest()));
    let proof = accumulator.prove(&[pointed(3).digest(), pointed(5).digest()]).unwrap();
    assert_eq!(proof.targets.len(), 2);
    assert_eq!(
        accumulator.prove(&[pointed(3).digest(), pointed(7).digest()]),
        Err(UtreexoError)
    );
    assert_eq!(accumulator.prove(&[]).unwrap().targets.len(), 0);
}

#[test]
fn a_proof_is_the_one_of_the_forest() {
    let accumulator = with(0..7);
    let mut hashes: Vec<[u8; 32]> = (0..7).map(|n| pointed(n).digest()).collect();
    hashes.sort();
    let leaves: Vec<BitcoinNodeHash> = hashes.iter().map(|h| h.into()).collect();
    let mut forest = MemForest::new();
    forest.modify(&leaves, &[]).unwrap();
    let targets = [leaves[4], leaves[1]];
    let expected = forest.prove(&targets).unwrap();
    let proof = accumulator.prove(&[hashes[4], hashes[1]]).unwrap();
    assert_eq!(proof.targets, expected.targets);
    let expected_hashes: Vec<[u8; 32]> = expected.hashes.iter().map(|h| **h).collect();
    assert_eq!(proof.hashes, expected_hashes);
    assert_ne!(proof.hashes.len(), 0);
    assert_eq!(forest.verify(&expected, &targets), Ok(true));
}

#[test]
fn what_was_taken_out_cannot_be_proven() {
    let mut accumulator = with(0..7);
    let mut diff = AccumulatorDiff::new();
    diff.remove(&pointed(2));
    diff.remove(&pointed(6));
    diff.insert(&pointed(9));
    accumulator.apply_diff(diff).unwrap();
    for n in [0, 1, 3, 4, 5, 9] {
        assert!(accumulator.contains(&pointed(n).digest()));
    }
    assert!(!accumulator.contains(&pointed(2).digest()));
    assert!(!accumulator.contains(&pointed(6).digest()));
}

#[test]
fn changes_that_do_not_fit_are_refused() {
    let mut accumulator = with(0..3);
    let mut missing = AccumulatorDiff::new();
    missing.insert(&pointed(5));
    missing.remove(&pointed(4));
    assert_eq!(accumulator.apply_diff(missing), Err(UtreexoError));
    assert!(!accumulator.contains(&pointed(5).digest()));
    let mut twice = AccumulatorDiff::new();
    twice.insert(&pointed(1));
    assert_eq!(accumulator.apply_diff(twice), Err(UtreexoError));
    assert!(accumulator.contains(&pointed(1).digest()));
}

#[test]
fn a_long_history_of_changes_keeps_its_leaves_provable() {
    let mut accumulator = Accumulator::new();
    let mut present = [false; 64];
    let mut state = 12345u32;
    for _ in 0..150 {
        for _ in 0..5 {
            let mut diff = AccumulatorDiff::new();
            state = state.wrapping_mul(1664525).wrapping_add(1013904223);
            let n = (state >> 24) as usize % 64;
            if present[n] {
                diff.remove(&pointed(n as u8));
            } else {
                diff.insert(&pointed(n as u8));
            }
            present[n] = !present[n];
            accumulator.apply_diff(diff).unwrap();
        }
        for (n, is_present) in present.iter().enumerate() {
            assert_eq!(accumulator.contains(&pointed(n as u8).digest()), *is_present);
        }
        let leaves: Vec<[u8; 32]> =
            (0..64).filter(|n| present[*n]).map(|n| pointed(n as u8).digest()).collect();
        assert_eq!(accumulator.prove(&leaves).unwrap().targets.len(), leaves.len());
    }
}
