//! Tests of encodings and hashes.

use swap_wallet::amount::Amount;
use swap_wallet::encoding::{encode_pointed_output, encode_transaction};
use swap_wallet::hashing::{hash, PointedOutput};
use swap_wallet::types::{
    Address, MainAddress, OutPoint, Output, OutputContent, ParentChainType, Proof, SwapId,
    Transaction, TxData, Txid,
};

fn main_address() -> MainAddress {
    MainAddress::from_text(b"bc1qexample").unwrap()
}

fn outpoints() -> Vec<(OutPoint, (u8, [u8; 32], u32))> {
    vec![
        (OutPoint::Regular { txid: Txid([1; 32]), vout: 7 }, (0, [1; 32], 7)),
        (OutPoint::Coinbase { merkle_root: [2; 32], vout: 0x01020304 }, (1, [2; 32], 0x01020304)),
        (OutPoint::Deposit { txid: [3; 32], vout: u32::MAX }, (2, [3; 32], u32::MAX)),
    ]
}

fn outputs() -> Vec<(Output, Vec<u8>)> {
    let address = Address([9; 20]);
    let value = Amount::from_sat(0x0102030405060708);
    vec![
        (
            Output { address, content: OutputContent::Value(value) },
            borsh::to_vec(&([9u8; 20], 0u8, 0x0102030405060708u64)).unwrap(),
        ),
        (
            Output {
                address,
                content: OutputContent::Withdrawal {
                    value,
                    main_fee: Amount::from_sat(5),
                    main_address: main_address(),
                },
            },
            borsh::to_vec(&(
                [9u8; 20],
                1u8,
                0x0102030405060708u64,
                5u64,
                11u8,
                main_address().text,
            ))
            .unwrap(),
        ),
        (
            Output { address, content: OutputContent::SwapPending { value, swap_id: [8; 32] } },
            borsh::to_vec(&([9u8; 20], 2u8, 0x0102030405060708u64, [8u8; 32])).unwrap(),
        ),
    ]
}

fn datas() -> Vec<(TxData, Vec<u8>)> {
    vec![
        (TxData::Regular, borsh::to_vec(&0u8).unwrap()),
        (
            TxData::SwapCreate {
                swap_id: [4; 32],
                parent_chain: ParentChainType::Signet,
                l1_txid_bytes: vec![1, 2, 3],
                required_confirmations: 6,
                l2_recipient: Some(Address([5; 20])),
                l2_amount: 10,
                l1_recipient_address: String::from("tb1q\u{e9}"),
                l1_amount: 11,
            },
            borsh::to_vec(&(
                1u8,
                [4u8; 32],
                3u8,
                vec![1u8, 2, 3],
                6u32,
                Some([5u8; 20]),
                10u64,
                String::from("tb1q\u{e9}"),
                11u64,
            ))
            .unwrap(),
        ),
        (
            TxData::SwapClaim { swap_id: [4; 32], l2_claimer_address: None, proof_data: None },
            borsh::to_vec(&(2u8, [4u8; 32], None::<[u8; 20]>, None::<Vec<u8>>)).unwrap(),
        ),
        (
            TxData::SwapClaim {
                swap_id: [4; 32],
                l2_claimer_address: Some(Address([6; 20])),
                proof_data: Some(vec![7, 7]),
            },
            borsh::to_vec(&(2u8, [4u8; 32], Some([6u8; 20]), Some(vec![7u8, 7]))).unwrap(),
        ),
        (
            TxData::SwapAccept { swap_id: [4; 32], l2_claimer_address: Address([6; 20]) },
            borsh::to_vec(&(3u8, [4u8; 32], [6u8; 20])).unwrap(),
        ),
    ]
}

#[test]
fn a_pointed_output_is_encoded_as_borsh_does() {
    for (outpoint, parts) in outpoints() {
        for (output, bytes) in outputs() {
            let expected = [borsh::to_vec(&parts).unwrap(), bytes].concat();
            assert_eq!(encode_pointed_output(&outpoint, &output), expected);
            let pointed = PointedOutput { outpoint, output };
            assert_eq!(pointed.digest(), *blake3::hash(&expected).as_bytes());
        }
    }
}

#[test]
fn a_transaction_is_encoded_as_borsh_does() {
    for (data, data_bytes) in datas() {
        let inputs: Vec<_> = outpoints().into_iter().map(|(o, _)| (o, [0xaa; 32])).collect();
        let input_parts: Vec<_> = outpoints().into_iter().map(|(_, p)| (p, [0xaau8; 32])).collect();
        let mut expected = borsh::to_vec(&input_parts).unwrap();
        expected.extend(borsh::to_vec(&3u32).unwrap());
        for (_, bytes) in outputs() {
            expected.extend(bytes);
        }
        expected.extend(data_bytes);
        let transaction = Transaction {
            inputs,
            proof: Proof { targets: vec![1], hashes: vec![[1; 32]] },
            outputs: outputs().into_iter().map(|(o, _)| o).collect(),
            data,
        };
        assert_eq!(encode_transaction(&transaction), Ok(expected));
    }
}

#[test]
fn the_proof_is_not_encoded() {
    let proof = Proof { targets: vec![1, 2], hashes: vec![[3; 32]] };
    let with = Transaction { proof, ..Default::default() };
    assert_eq!(encode_transaction(&with), encode_transaction(&Transaction::default()));
    assert_eq!(encode_transaction(&with), Ok(vec![0; 9]));
}

#[test]
fn parent_chains_have_their_numbers() {
    let chains = [
        ParentChainType::BTC,
        ParentChainType::BCH,
        ParentChainType::LTC,
        ParentChainType::Signet,
        ParentChainType::Regtest,
    ];
    for (number, parent_chain) in chains.into_iter().enumerate() {
        let data = TxData::SwapCreate {
            swap_id: [0; 32],
            parent_chain,
            l1_txid_bytes: Vec::new(),
            required_confirmations: 0,
            l2_recipient: None,
            l2_amount: 0,
            l1_recipient_address: String::new(),
            l1_amount: 0,
        };
        let bytes = encode_transaction(&Transaction { data, ..Default::default() }).unwrap();
        assert_eq!(bytes[8 + 1 + 32] as usize, number);
    }
    assert_eq!(ParentChainType::BTC.default_confirmations(), 6);
    assert_eq!(ParentChainType::LTC.default_confirmations(), 3);
}

#[test]
fn the_hash_is_blake3() {
    assert_eq!(
        hash(b""),
        [
            0xaf, 0x13, 0x49, 0xb9, 0xf5, 0xf9, 0xa1, 0xa6, 0xa0, 0x40, 0x4d, 0xea, 0x36, 0xdc,
            0xc9, 0x49, 0x9b, 0xcb, 0x25, 0xc9, 0xad, 0xc1, 0x12, 0xb7, 0xcc, 0x9a, 0x93, 0xca,
            0xe4, 0x1f, 0x32, 0x62,
        ]
    );
}

#[test]
fn a_swap_is_identified_by_all_that_it_says() {
    let text = "bc1qrecipient";
    let amount = Amount::from_sat(1234);
    let sender = Address([1; 20]);
    let recipient = Some(Address([2; 20]));
    let id = SwapId::from_l2_to_l1(text, amount, &sender, &recipient);
    let bytes = borsh::to_vec(&([1u8; 20], 1234u64, Some([2u8; 20]))).unwrap();
    let expected = blake3::hash(&[bytes.as_slice(), text.as_bytes()].concat());
    assert_eq!(id.0, *expected.as_bytes());
    assert_ne!(id, SwapId::from_l2_to_l1("bc1q", amount, &sender, &recipient));
    assert_ne!(id, SwapId::from_l2_to_l1(text, Amount::from_sat(1235), &sender, &recipient));
    assert_ne!(id, SwapId::from_l2_to_l1(text, amount, &Address([3; 20]), &recipient));
    assert_ne!(id, SwapId::from_l2_to_l1(text, amount, &sender, &None));
}

#[test]
fn an_address_of_the_parent_chain_has_at_most_ninety_characters() {
    assert!(MainAddress::from_text(&[b'x'; 90]).is_some());
    assert!(MainAddress::from_text(&[b'x'; 91]).is_none());
    let address = MainAddress::from_text(b"abc").unwrap();
    assert_eq!(address.len, 3);
    assert_eq!(&address.text[..4], b"abc\0");
}

#[test]
fn amounts_are_checked() {
    let one = Amount::from_sat(1);
    let max = Amount::from_sat(u64::MAX);
    assert_eq!(max.checked_add(one), None);
    assert_eq!(one.checked_add(one), Some(Amount::from_sat(2)));
    assert_eq!(one.checked_sub(max), None);
    assert_eq!(max.checked_sub(one), Some(Amount::from_sat(u64::MAX - 1)));
}
