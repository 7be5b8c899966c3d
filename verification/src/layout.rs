//! Where each part of an encoded value stands among its bytes.

use vstd::prelude::*;
use vstd::utf8::encode_utf8;

use crate::accumulator::{diff_fits, in_set_after, leaves_after, provable, ForestChange};
use crate::amount::Amount;
use crate::encoding::{
    content_bytes, data_bytes, encodable, framed, inputs_bytes, option_address_bytes, output_bytes,
    outpoint_bytes, outputs_bytes, pointed_output_bytes, swap_bytes, transaction_bytes, u32_bytes,
    u64_bytes,
};
use crate::hashing::{blake3_hash, utxo_hash};
use crate::types::{
    Address, Digest, OutPoint, Output, OutputContent, ParentChainType, TransactionView, TxDataView,
};

verus! {

/// The number that the four bytes from a position on stand for, the first counting least.
pub open spec fn four_at(bytes: Seq<u8>, at: int) -> int {
    bytes[at] + 256 * bytes[at + 1] + 65536 * bytes[at + 2] + 16777216 * bytes[at + 3]
}

/// The number that the eight bytes from a position on stand for, the first counting least.
pub open spec fn eight_at(bytes: Seq<u8>, at: int) -> int {
    four_at(bytes, at) + 4294967296 * four_at(bytes, at + 4)
}

/// A part stands among the bytes from a position on.
pub open spec fn stands_from(bytes: Seq<u8>, at: int, part: Seq<u8>) -> bool {
    &&& 0 <= at
    &&& at + part.len() <= bytes.len()
    &&& bytes.subrange(at, at + part.len()) == part
}

/// A 32-bit number is written with its lowest byte first.
pub proof fn u32_is_written_in_four_bytes(x: u32)
    ensures
        u32_bytes(x).len() == 4,
        four_at(u32_bytes(x), 0) == x,
{
    assert(x % 256 + 256 * (x / 256 % 256) + 65536 * (x / 65536 % 256) + 16777216 * (x / 16777216)
        == x && x / 16777216 < 256) by (bit_vector);
}

/// A 64-bit number is written with its lowest byte first.
pub proof fn u64_is_written_in_eight_bytes(x: u64)
    ensures
        u64_bytes(x).len() == 8,
        eight_at(u64_bytes(x), 0) == x,
{
    let low = (x % 4294967296) as u32;
    let high = (x / 4294967296) as u32;
    u32_is_written_in_four_bytes(low);
    u32_is_written_in_four_bytes(high);
    let bytes = u64_bytes(x);
    assert(bytes =~= u32_bytes(low) + u32_bytes(high));
    assert(four_at(bytes, 0) == four_at(u32_bytes(low), 0));
    assert(four_at(bytes, 4) == four_at(u32_bytes(high), 0));
}

/// A number that stands among bytes is read from there.
proof fn lemma_read_four(bytes: Seq<u8>, at: int, x: u32)
    requires
        stands_from(bytes, at, u32_bytes(x)),
    ensures
        four_at(bytes, at) == x,
{
    u32_is_written_in_four_bytes(x);
    let part = bytes.subrange(at, at + 4);
    assert(part[0] == bytes[at] && part[1] == bytes[at + 1] && part[2] == bytes[at + 2] && part[3]
        == bytes[at + 3]);
}

proof fn lemma_read_eight(bytes: Seq<u8>, at: int, x: u64)
    requires
        stands_from(bytes, at, u64_bytes(x)),
    ensures
        eight_at(bytes, at) == x,
{
    u64_is_written_in_eight_bytes(x);
    let part = bytes.subrange(at, at + 8);
    assert(part[0] == bytes[at] && part[1] == bytes[at + 1] && part[2] == bytes[at + 2] && part[3]
        == bytes[at + 3] && part[4] == bytes[at + 4] && part[5] == bytes[at + 5] && part[6]
        == bytes[at + 6] && part[7] == bytes[at + 7]);
}

/// A part that stands behind others.
proof fn lemma_behind(front: Seq<u8>, part: Seq<u8>, rest: Seq<u8>)
    ensures
        stands_from(front + part + rest, front.len() as int, part),
{
    assert((front + part + rest).subrange(front.len() as int, (front.len() + part.len()) as int)
        =~= part);
}

/// What stands in the front of bytes stands there also when more is appended.
proof fn lemma_still_there(bytes: Seq<u8>, rest: Seq<u8>, at: int, part: Seq<u8>)
    requires
        stands_from(bytes, at, part),
    ensures
        stands_from(bytes + rest, at, part),
{
    assert((bytes + rest).subrange(at, at + part.len()) =~= bytes.subrange(at, at + part.len()));
}

/// An outpoint is written in 37 bytes: its variant, what made the output, and the output's
/// index there.
pub proof fn outpoint_is_written_in_order(outpoint: OutPoint)
    ensures
        ({
            let bytes = outpoint_bytes(outpoint);
            &&& bytes.len() == 37
            &&& match outpoint {
                OutPoint::Regular { txid, vout } => bytes[0] == 0 && stands_from(bytes, 1, txid.0@)
                    && four_at(bytes, 33) == vout,
                OutPoint::Coinbase { merkle_root, vout } => bytes[0] == 1 && stands_from(
                    bytes,
                    1,
                    merkle_root@,
                ) && four_at(bytes, 33) == vout,
                OutPoint::Deposit { txid, vout } => bytes[0] == 2 && stands_from(bytes, 1, txid@)
                    && four_at(bytes, 33) == vout,
            }
        }),
{
    let bytes = outpoint_bytes(outpoint);
    let kind = seq![outpoint.kind()];
    let origin = outpoint.origin()@;
    let position = u32_bytes(outpoint.position());
    lemma_behind(kind, origin, position);
    lemma_behind(kind + origin, position, Seq::<u8>::empty());
    assert(kind + origin + position + Seq::<u8>::empty() =~= bytes);
    lemma_read_four(bytes, 33, outpoint.position());
}

/// An output is written as the address that it pays, its variant, the amount, and what
/// goes with it.
#[verifier::rlimit(40)]
pub proof fn output_is_written_in_order(output: Output)
    ensures
        ({
            let bytes = output_bytes(output);
            &&& stands_from(bytes, 0, output.address.0@)
            &&& match output.content {
                OutputContent::Value(value) => bytes.len() == 29 && bytes[20] == 0 && eight_at(
                    bytes,
                    21,
                ) == value.sats,
                OutputContent::Withdrawal { value, main_fee, main_address } => bytes.len() == 128
                    && bytes[20] == 1 && eight_at(bytes, 21) == value.sats && eight_at(bytes, 29)
                    == main_fee.sats && bytes[37] == main_address.len && stands_from(
                    bytes,
                    38,
                    main_address.text@,
                ),
                OutputContent::SwapPending { value, swap_id } => bytes.len() == 61 && bytes[20] == 2
                    && eight_at(bytes, 21) == value.sats && stands_from(bytes, 29, swap_id@),
            }
        }),
{
    let bytes = output_bytes(output);
    let address = output.address.0@;
    let none = Seq::<u8>::empty();
    lemma_behind(none, address, content_bytes(output.content));
    assert(none + address + content_bytes(output.content) =~= bytes);
    match output.content {
        OutputContent::Value(value) => {
            let front = address + seq![0u8];
            lemma_behind(front, u64_bytes(value.sats), none);
            assert(front + u64_bytes(value.sats) + none =~= bytes);
            lemma_read_eight(bytes, 21, value.sats);
        },
        OutputContent::Withdrawal { value, main_fee, main_address } => {
            let front = address + seq![1u8];
            let a = u64_bytes(value.sats);
            let b = u64_bytes(main_fee.sats);
            let c = seq![main_address.len];
            let d = main_address.text@;
            assert(front + a + (b + c + d) =~= bytes);
            assert(front + a + b + (c + d) =~= bytes);
            assert(front + a + b + c + d + none =~= bytes);
            lemma_behind(front, a, b + c + d);
            lemma_behind(front + a, b, c + d);
            lemma_behind(front + a + b + c, d, none);
            u64_is_written_in_eight_bytes(value.sats);
            lemma_read_eight(bytes, 21, value.sats);
            lemma_read_eight(bytes, 29, main_fee.sats);
        },
        OutputContent::SwapPending { value, swap_id } => {
            let front = address + seq![2u8];
            let a = u64_bytes(value.sats);
            assert(front + a + swap_id@ =~= bytes);
            assert(front + a + swap_id@ + none =~= bytes);
            lemma_behind(front, a, swap_id@);
            lemma_behind(front + a, swap_id@, none);
            lemma_read_eight(bytes, 21, value.sats);
        },
    }
}

/// The hash by which an unspent output is known covers its outpoint and all of the output.
pub proof fn utxo_hash_covers_the_outpoint_and_the_output(outpoint: OutPoint, output: Output)
    ensures
        utxo_hash(outpoint, output) == blake3_hash(outpoint_bytes(outpoint) + output_bytes(output)),
        stands_from(pointed_output_bytes(outpoint, output), 0, outpoint_bytes(outpoint)),
        stands_from(pointed_output_bytes(outpoint, output), 37, output_bytes(output)),
        pointed_output_bytes(outpoint, output).len() == 37 + output_bytes(output).len(),
{
    outpoint_is_written_in_order(outpoint);
    let none = Seq::<u8>::empty();
    let a = outpoint_bytes(outpoint);
    let b = output_bytes(output);
    assert(none + a + b =~= pointed_output_bytes(outpoint, output));
    assert(a + b + none =~= pointed_output_bytes(outpoint, output));
    lemma_behind(none, a, b);
    lemma_behind(a, b, none);
}

/// Each input is written in 69 bytes, its outpoint before its hash, behind the inputs that
/// stand before it.
pub proof fn inputs_are_written_in_order(inputs: Seq<(OutPoint, Digest)>, i: int)
    requires
        0 <= i < inputs.len(),
    ensures
        inputs_bytes(inputs).len() == 69 * inputs.len(),
        stands_from(inputs_bytes(inputs), 69 * i, outpoint_bytes(inputs[i].0)),
        stands_from(inputs_bytes(inputs), 69 * i + 37, inputs[i].1@),
    decreases inputs.len(),
{
    let bytes = inputs_bytes(inputs);
    let point = outpoint_bytes(inputs[0].0);
    let hash = inputs[0].1@;
    let rest = inputs.skip(1);
    let none = Seq::<u8>::empty();
    outpoint_is_written_in_order(inputs[0].0);
    assert(bytes =~= point + hash + inputs_bytes(rest));
    if rest.len() > 0 {
        let k = if i > 0 { i - 1 } else { 0 };
        inputs_are_written_in_order(rest, k);
        if i > 0 {
            assert(rest[k] == inputs[i]);
            lemma_shifted(point + hash, inputs_bytes(rest), 69 * k, outpoint_bytes(inputs[i].0));
            lemma_shifted(point + hash, inputs_bytes(rest), 69 * k + 37, inputs[i].1@);
        }
    } else {
        assert(inputs_bytes(rest) =~= none);
    }
    if i == 0 {
        lemma_behind(none, point, hash + inputs_bytes(rest));
        assert(none + point + (hash + inputs_bytes(rest)) =~= bytes);
        lemma_behind(point, hash, inputs_bytes(rest));
    }
}

/// What stands among bytes stands among them also behind others.
proof fn lemma_shifted(front: Seq<u8>, bytes: Seq<u8>, at: int, part: Seq<u8>)
    requires
        stands_from(bytes, at, part),
    ensures
        stands_from(front + bytes, front.len() + at, part),
{
    assert((front + bytes).subrange(front.len() + at, front.len() + at + part.len())
        =~= bytes.subrange(at, at + part.len()));
}

/// Outputs are written one behind the other.
#[verifier::rlimit(40)]
pub proof fn outputs_are_written_in_order(outputs: Seq<Output>, i: int)
    requires
        0 <= i < outputs.len(),
    ensures
        stands_from(
            outputs_bytes(outputs),
            outputs_bytes(outputs.take(i)).len() as int,
            output_bytes(outputs[i]),
        ),
        outputs_bytes(outputs.take(i + 1)).len() == outputs_bytes(outputs.take(i)).len()
            + output_bytes(outputs[i]).len(),
        outputs_bytes(Seq::<Output>::empty()).len() == 0,
        outputs_bytes(outputs.take(outputs.len() as int)) == outputs_bytes(outputs),
    decreases outputs.len(),
{
    let first = output_bytes(outputs[0]);
    let rest = outputs.skip(1);
    let none = Seq::<u8>::empty();
    assert(outputs_bytes(outputs) =~= first + outputs_bytes(rest));
    assert(outputs.take(outputs.len() as int) =~= outputs);
    if i == 0 {
        assert(outputs.take(0) =~= Seq::<Output>::empty());
        assert(outputs.take(1).skip(1) =~= Seq::<Output>::empty());
        assert(outputs.take(1)[0] == outputs[0]);
        assert(outputs_bytes(outputs.take(1)) =~= first + none);
        lemma_behind(none, first, outputs_bytes(rest));
        assert(none + first + outputs_bytes(rest) =~= outputs_bytes(outputs));
    } else {
        outputs_are_written_in_order(rest, i - 1);
        assert(rest[i - 1] == outputs[i]);
        assert(outputs.take(i).skip(1) =~= rest.take(i - 1));
        assert(outputs.take(i + 1).skip(1) =~= rest.take(i));
        assert(outputs.take(i)[0] == outputs[0]);
        assert(outputs.take(i + 1)[0] == outputs[0]);
        assert(outputs_bytes(outputs.take(i)) =~= first + outputs_bytes(rest.take(i - 1)));
        assert(outputs_bytes(outputs.take(i + 1)) =~= first + outputs_bytes(rest.take(i)));
        lemma_shifted(
            first,
            outputs_bytes(rest),
            outputs_bytes(rest.take(i - 1)).len() as int,
            output_bytes(outputs[i]),
        );
    }
}

/// A transaction is written as the number of its inputs, these, the number of its outputs,
/// these, and what it does, with nothing behind.
#[verifier::rlimit(40)]
pub proof fn transaction_is_written_in_order(transaction: TransactionView)
    requires
        encodable(transaction),
    ensures
        ({
            let bytes = transaction_bytes(transaction);
            let inputs = 69 * transaction.inputs.len() as int;
            let outputs = outputs_bytes(transaction.outputs).len() as int;
            let data = data_bytes(transaction.data);
            &&& four_at(bytes, 0) == transaction.inputs.len()
            &&& stands_from(bytes, 4, inputs_bytes(transaction.inputs))
            &&& four_at(bytes, 4 + inputs) == transaction.outputs.len()
            &&& stands_from(bytes, 8 + inputs, outputs_bytes(transaction.outputs))
            &&& stands_from(bytes, 8 + inputs + outputs, data)
            &&& bytes.len() == 8 + inputs + outputs + data.len()
        }),
{
    let bytes = transaction_bytes(transaction);
    let none = Seq::<u8>::empty();
    let a = u32_bytes(transaction.inputs.len() as u32);
    let b = inputs_bytes(transaction.inputs);
    let c = u32_bytes(transaction.outputs.len() as u32);
    let d = outputs_bytes(transaction.outputs);
    let e = data_bytes(transaction.data);
    if transaction.inputs.len() > 0 {
        inputs_are_written_in_order(transaction.inputs, 0);
    }
    assert(none + a + (b + c + d + e) =~= bytes);
    assert(a + b + (c + d + e) =~= bytes);
    assert(a + b + c + (d + e) =~= bytes);
    assert(a + b + c + d + e + none =~= bytes);
    lemma_behind(none, a, b + c + d + e);
    lemma_behind(a, b, c + d + e);
    lemma_behind(a + b, c, d + e);
    lemma_behind(a + b + c, d, e);
    lemma_behind(a + b + c + d, e, none);
    lemma_read_four(bytes, 0, transaction.inputs.len() as u32);
    lemma_read_four(
        bytes,
        4 + 69 * transaction.inputs.len() as int,
        transaction.outputs.len() as u32,
    );
}

/// The number of a parent chain.
pub open spec fn chain_number(chain: ParentChainType) -> int {
    if chain is BTC {
        0
    } else if chain is BCH {
        1
    } else if chain is LTC {
        2
    } else if chain is Signet {
        3
    } else {
        4
    }
}

/// An optional address stands among the bytes: a byte 0, or a byte 1 and the address.
pub open spec fn option_stands_from(bytes: Seq<u8>, at: int, address: Option<Address>) -> bool {
    match address {
        None => bytes[at] == 0,
        Some(a) => bytes[at] == 1 && stands_from(bytes, at + 1, a.0@),
    }
}

/// How many bytes an optional address takes.
pub open spec fn option_length(address: Option<Address>) -> int {
    if address is Some {
        21
    } else {
        1
    }
}

proof fn lemma_option(front: Seq<u8>, address: Option<Address>, rest: Seq<u8>)
    ensures
        option_stands_from(
            front + option_address_bytes(address) + rest,
            front.len() as int,
            address,
        ),
        option_address_bytes(address).len() == option_length(address),
{
    let bytes = front + option_address_bytes(address) + rest;
    if let Some(a) = address {
        lemma_behind(front + seq![1u8], a.0@, rest);
        assert(front + seq![1u8] + a.0@ + rest =~= bytes);
    }
}

/// Transactions that only pay, claims and acceptances are written in this order.
#[verifier::rlimit(40)]
pub proof fn claims_and_acceptances_are_written_in_order(data: TxDataView)
    requires
        data is SwapClaim && data->SwapClaim_proof_data is Some
            ==> data->SwapClaim_proof_data->0.len() <= u32::MAX,
    ensures
        ({
            let bytes = data_bytes(data);
            match data {
                TxDataView::Regular => bytes == seq![0u8],
                TxDataView::SwapClaim { swap_id, l2_claimer_address, proof_data } => {
                    let at = 33 + option_length(l2_claimer_address);
                    &&& bytes[0] == 2
                    &&& stands_from(bytes, 1, swap_id@)
                    &&& option_stands_from(bytes, 33, l2_claimer_address)
                    &&& match proof_data {
                        None => bytes[at] == 0 && bytes.len() == at + 1,
                        Some(proof_bytes) => bytes[at] == 1 && four_at(bytes, at + 1)
                            == proof_bytes.len() && stands_from(bytes, at + 5, proof_bytes)
                            && bytes.len() == at + 5 + proof_bytes.len(),
                    }
                },
                TxDataView::SwapAccept { swap_id, l2_claimer_address } => {
                    &&& bytes.len() == 53
                    &&& bytes[0] == 3
                    &&& stands_from(bytes, 1, swap_id@)
                    &&& stands_from(bytes, 33, l2_claimer_address.0@)
                },
                _ => true,
            }
        }),
{
    let bytes = data_bytes(data);
    let none = Seq::<u8>::empty();
    match data {
        TxDataView::SwapClaim { swap_id, l2_claimer_address, proof_data } => {
            let tag = seq![2u8];
            let id = swap_id@;
            let claimer = option_address_bytes(l2_claimer_address);
            let tail = crate::encoding::option_framed(proof_data);
            assert(tag + id + (claimer + tail) =~= bytes);
            lemma_behind(tag, id, claimer + tail);
            lemma_option(tag + id, l2_claimer_address, tail);
            assert(tag + id + claimer + tail =~= bytes);
            if proof_data is Some {
                let proof_bytes = proof_data->0;
                let front = tag + id + claimer + seq![1u8];
                let length = u32_bytes(proof_bytes.len() as u32);
                lemma_behind(front, length, proof_bytes);
                lemma_behind(front + length, proof_bytes, none);
                assert(front + length + proof_bytes =~= bytes);
                assert(front + length + proof_bytes + none =~= bytes);
                lemma_read_four(
                    bytes,
                    34 + option_length(l2_claimer_address),
                    proof_bytes.len() as u32,
                );
            }
        },
        TxDataView::SwapAccept { swap_id, l2_claimer_address } => {
            let tag = seq![3u8];
            lemma_behind(tag, swap_id@, l2_claimer_address.0@);
            lemma_behind(tag + swap_id@, l2_claimer_address.0@, none);
            assert(tag + swap_id@ + l2_claimer_address.0@ + none =~= bytes);
        },
        _ => {},
    }
}

/// An offer is written in this order.
#[verifier::rlimit(40)]
pub proof fn offers_are_written_in_order(data: TxDataView)
    requires
        data is SwapCreate,
        data->l1_txid_bytes.len() <= u32::MAX,
        encode_utf8(data->l1_recipient_address).len() <= u32::MAX,
    ensures
        ({
            let bytes = data_bytes(data);
            let txid = data->l1_txid_bytes;
            let text = encode_utf8(data->l1_recipient_address);
            let p = 38 + txid.len() as int;
            let q = p + 4 + option_length(data->l2_recipient);
            &&& bytes[0] == 1
            &&& stands_from(bytes, 1, data->SwapCreate_swap_id@)
            &&& bytes[33] == chain_number(data->parent_chain)
            &&& four_at(bytes, 34) == txid.len()
            &&& stands_from(bytes, 38, txid)
            &&& four_at(bytes, p) == data->required_confirmations
            &&& option_stands_from(bytes, p + 4, data->l2_recipient)
            &&& eight_at(bytes, q) == data->l2_amount
            &&& four_at(bytes, q + 8) == text.len()
            &&& stands_from(bytes, q + 12, text)
            &&& eight_at(bytes, q + 12 + text.len()) == data->l1_amount
            &&& bytes.len() == q + 20 + text.len()
        }),
{
    let bytes = data_bytes(data);
    let txid = data->l1_txid_bytes;
    let text = encode_utf8(data->l1_recipient_address);
    let chain = crate::encoding::parent_chain_byte(data->parent_chain);
    let head = offer_head(data->SwapCreate_swap_id@, chain, txid);
    let tail = offer_tail(
        data->required_confirmations,
        data->l2_recipient,
        data->l2_amount,
        text,
        data->l1_amount,
    );
    lemma_offer_parts(
        seq![1u8] + data->SwapCreate_swap_id@ + seq![chain],
        framed(txid),
        u32_bytes(data->required_confirmations),
        option_address_bytes(data->l2_recipient),
        u64_bytes(data->l2_amount),
        framed(text),
        u64_bytes(data->l1_amount),
    );
    assert(bytes == head + tail);
    lemma_offer_head(data->SwapCreate_swap_id@, chain, txid);
    lemma_offer_tail(
        data->required_confirmations,
        data->l2_recipient,
        data->l2_amount,
        text,
        data->l1_amount,
    );
    let p = 38 + txid.len() as int;
    let q = p + 4 + option_length(data->l2_recipient);
    lemma_still_there(head, tail, 1, data->SwapCreate_swap_id@);
    lemma_still_there(head, tail, 34, u32_bytes(txid.len() as u32));
    lemma_still_there(head, tail, 38, txid);
    lemma_shifted(head, tail, 0, u32_bytes(data->required_confirmations));
    lemma_shifted(head, tail, q - p, u64_bytes(data->l2_amount));
    lemma_shifted(head, tail, q + 8 - p, u32_bytes(text.len() as u32));
    lemma_shifted(head, tail, q + 12 - p, text);
    lemma_shifted(head, tail, q + 12 + text.len() - p, u64_bytes(data->l1_amount));
    if let Some(a) = data->l2_recipient {
        lemma_shifted(head, tail, 5, a.0@);
    }
    assert(bytes[p + 4] == tail[4]);
    assert(bytes[33] == head[33] && bytes[0] == head[0]);
    lemma_read_four(bytes, 34, txid.len() as u32);
    lemma_read_four(bytes, p, data->required_confirmations);
    lemma_read_eight(bytes, q, data->l2_amount);
    lemma_read_four(bytes, q + 8, text.len() as u32);
    lemma_read_eight(bytes, q + 12 + text.len(), data->l1_amount);
}

/// The first half of an offer.
spec fn offer_head(id: Seq<u8>, chain: u8, txid: Seq<u8>) -> Seq<u8> {
    seq![1u8] + id + seq![chain] + framed(txid)
}

/// The second half of an offer.
spec fn offer_tail(
    confirmations: u32,
    recipient: Option<Address>,
    l2_amount: u64,
    text: Seq<u8>,
    l1_amount: u64,
) -> Seq<u8> {
    u32_bytes(confirmations) + option_address_bytes(recipient) + u64_bytes(l2_amount) + framed(text)
        + u64_bytes(l1_amount)
}

proof fn lemma_offer_parts(
    a: Seq<u8>,
    b: Seq<u8>,
    c: Seq<u8>,
    d: Seq<u8>,
    e: Seq<u8>,
    f: Seq<u8>,
    g: Seq<u8>,
)
    ensures
        a + b + c + d + e + f + g == (a + b) + (c + d + e + f + g),
{
    assert(a + b + c + d + e + f + g =~= (a + b) + (c + d + e + f + g));
}

proof fn lemma_offer_head(id: Seq<u8>, chain: u8, txid: Seq<u8>)
    requires
        id.len() == 32,
        txid.len() <= u32::MAX,
    ensures
        offer_head(id, chain, txid).len() == 38 + txid.len(),
        offer_head(id, chain, txid)[0] == 1,
        offer_head(id, chain, txid)[33] == chain,
        stands_from(offer_head(id, chain, txid), 1, id),
        stands_from(offer_head(id, chain, txid), 34, u32_bytes(txid.len() as u32)),
        stands_from(offer_head(id, chain, txid), 38, txid),
{
    let bytes = offer_head(id, chain, txid);
    let none = Seq::<u8>::empty();
    let length = u32_bytes(txid.len() as u32);
    let front = seq![1u8] + id + seq![chain];
    assert(seq![1u8] + id + (seq![chain] + framed(txid)) =~= bytes);
    assert(front + length + txid =~= bytes);
    assert(front + length + txid + none =~= bytes);
    lemma_behind(seq![1u8], id, seq![chain] + framed(txid));
    lemma_behind(front, length, txid);
    lemma_behind(front + length, txid, none);
}

proof fn lemma_offer_tail(
    confirmations: u32,
    recipient: Option<Address>,
    l2_amount: u64,
    text: Seq<u8>,
    l1_amount: u64,
)
    requires
        text.len() <= u32::MAX,
    ensures
        ({
            let bytes = offer_tail(confirmations, recipient, l2_amount, text, l1_amount);
            let q = 4 + option_length(recipient);
            &&& bytes.len() == q + 20 + text.len()
            &&& stands_from(bytes, 0, u32_bytes(confirmations))
            &&& option_stands_from(bytes, 4, recipient)
            &&& stands_from(bytes, q, u64_bytes(l2_amount))
            &&& stands_from(bytes, q + 8, u32_bytes(text.len() as u32))
            &&& stands_from(bytes, q + 12, text)
            &&& stands_from(bytes, q + 12 + text.len(), u64_bytes(l1_amount))
        }),
{
    let a = u32_bytes(confirmations);
    let b = option_address_bytes(recipient);
    let c = u64_bytes(l2_amount);
    let d = u32_bytes(text.len() as u32);
    let f = u64_bytes(l1_amount);
    u32_is_written_in_four_bytes(confirmations);
    u32_is_written_in_four_bytes(text.len() as u32);
    u64_is_written_in_eight_bytes(l2_amount);
    u64_is_written_in_eight_bytes(l1_amount);
    lemma_six_in_order(a, b, c, d, text, f);
    lemma_option(a, recipient, c + (d + text) + f);
}

/// Six parts stand one behind the other.
proof fn lemma_six_in_order(
    a: Seq<u8>,
    b: Seq<u8>,
    c: Seq<u8>,
    d: Seq<u8>,
    e: Seq<u8>,
    f: Seq<u8>,
)
    ensures
        ({
            let bytes = a + b + c + (d + e) + f;
            let n = (a.len() + b.len() + c.len()) as int;
            &&& bytes == a + b + (c + (d + e) + f)
            &&& bytes.len() == n + d.len() + e.len() + f.len()
            &&& stands_from(bytes, 0, a)
            &&& stands_from(bytes, (a.len() + b.len()) as int, c)
            &&& stands_from(bytes, n, d)
            &&& stands_from(bytes, n + d.len(), e)
            &&& stands_from(bytes, n + d.len() + e.len(), f)
        }),
{
    let bytes = a + b + c + (d + e) + f;
    let n = (a.len() + b.len() + c.len()) as int;
    assert(bytes =~= a + b + (c + (d + e) + f));
    assert(bytes.subrange(0, a.len() as int) =~= a);
    assert(bytes.subrange((a.len() + b.len()) as int, n) =~= c);
    assert(bytes.subrange(n, n + d.len()) =~= d);
    assert(bytes.subrange(n + d.len(), n + d.len() + e.len()) =~= e);
    assert(bytes.subrange(n + d.len() + e.len(), n + d.len() + e.len() + f.len()) =~= f);
}

/// What identifies a swap is written as who offers it, the amount, for whom, and where the
/// parent chain is to pay.
pub proof fn swap_is_written_in_order(
    l1_recipient_address: Seq<char>,
    l1_amount: Amount,
    l2_sender_address: Address,
    l2_recipient_address: Option<Address>,
)
    ensures
        ({
            let bytes = swap_bytes(
                l1_recipient_address,
                l1_amount,
                l2_sender_address,
                l2_recipient_address,
            );
            let text = encode_utf8(l1_recipient_address);
            let at = 28 + option_length(l2_recipient_address);
            &&& stands_from(bytes, 0, l2_sender_address.0@)
            &&& eight_at(bytes, 20) == l1_amount.sats
            &&& option_stands_from(bytes, 28, l2_recipient_address)
            &&& stands_from(bytes, at, text)
            &&& bytes.len() == at + text.len()
        }),
{
    let none = Seq::<u8>::empty();
    let bytes = swap_bytes(
        l1_recipient_address,
        l1_amount,
        l2_sender_address,
        l2_recipient_address,
    );
    let a = l2_sender_address.0@;
    let b = u64_bytes(l1_amount.sats);
    let c = option_address_bytes(l2_recipient_address);
    let d = encode_utf8(l1_recipient_address);
    assert(none + a + (b + c + d) =~= bytes);
    assert(a + b + (c + d) =~= bytes);
    assert(a + b + c + d =~= bytes);
    assert(a + b + c + d + none =~= bytes);
    u64_is_written_in_eight_bytes(l1_amount.sats);
    lemma_behind(none, a, b + c + d);
    lemma_behind(a, b, c + d);
    lemma_option(a + b, l2_recipient_address, d);
    lemma_behind(a + b + c, d, none);
    lemma_read_eight(bytes, 20, l1_amount.sats);
}

/// After one more change the set holds what was put in, and what was there and was not
/// taken out.
pub proof fn change_puts_in_and_takes_out(
    changes: Seq<ForestChange>,
    change: ForestChange,
    h: Digest,
)
    ensures
        !leaves_after(Seq::<ForestChange>::empty()).contains(h),
        leaves_after(changes.push(change)).contains(h) <==> change.added.contains(h) || (
        leaves_after(changes).contains(h) && !change.removed.contains(h)),
{
    assert(changes.push(change).drop_last() =~= changes);
}

/// Outputs can be proven exactly where each is in the set.
pub proof fn outputs_in_the_set_can_be_proven(leaves: Set<Digest>, targets: Seq<Digest>)
    ensures
        provable(leaves, targets) <==> targets.to_set().subset_of(leaves),
{
    if provable(leaves, targets) {
        assert forall|h: Digest| targets.to_set().contains(h) implies leaves.contains(h) by {
            let i = choose|i: int| 0 <= i < targets.len() && targets[i] == h;
            assert(leaves.contains(targets[i]));
        }
    }
    if targets.to_set().subset_of(leaves) {
        assert forall|i: int| 0 <= i < targets.len() implies leaves.contains(
            #[trigger] targets[i],
        ) by {
            assert(targets.to_set().contains(targets[i]));
        }
    }
}

/// Changes fit a set exactly where they take out only what is there and put in only what is
/// not. Then what is put in is there, what is taken out is not, and the rest stays.
pub proof fn changes_take_effect_where_they_fit(
    leaves: Set<Digest>,
    changes: Map<Digest, bool>,
    h: Digest,
)
    ensures
        diff_fits(leaves, changes) <==> forall|x: Digest| #[trigger]
            changes.contains_key(x) ==> (changes[x] <==> !leaves.contains(x)),
        changes.contains_pair(h, true) ==> in_set_after(leaves, changes, h),
        changes.contains_pair(h, false) ==> !in_set_after(leaves, changes, h),
        !changes.contains_key(h) ==> (in_set_after(leaves, changes, h) <==> leaves.contains(h)),
{
}

} // verus!
