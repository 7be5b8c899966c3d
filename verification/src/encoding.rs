//! The canonical byte encoding of transactions and outputs.
//!
//! The encoding is Borsh: integers in little-endian order, fixed arrays as they
//! are, a byte for the variant of an enum, and a 32-bit length in front of what
//! varies in length. The proof of a transaction is not part of its encoding.

use vstd::prelude::*;
use vstd::utf8::{encode_utf8, encode_utf8_decode_utf8};

use crate::amount::Amount;
use crate::types::{
    Address, Digest, OutPoint, Output, OutputContent, ParentChainType, Transaction, TransactionView,
    TxData, TxDataView,
};

verus! {

/// The little-endian bytes of a 32-bit number.
pub open spec fn u32_bytes(x: u32) -> Seq<u8> {
    seq![
        (x % 256) as u8,
        (x / 256 % 256) as u8,
        (x / 65536 % 256) as u8,
        (x / 16777216) as u8,
    ]
}

/// The little-endian bytes of a 64-bit number.
pub open spec fn u64_bytes(x: u64) -> Seq<u8> {
    u32_bytes((x % 4294967296) as u32) + u32_bytes((x / 4294967296) as u32)
}

/// A byte string behind its length.
pub open spec fn framed(data: Seq<u8>) -> Seq<u8> {
    u32_bytes(data.len() as u32) + data
}

/// Why there is no encoding, as `borsh` tells it.
#[derive(Clone, Copy, Debug, PartialEq, Eq, Structural)]
pub enum EncodeError {
    /// A length does not fit in 32 bits.
    InvalidData,
}

/// `borsh::to_vec` of a `u32`: the claim is that it gives the number's four
/// little-endian bytes.
#[verifier::external_body]
fn borsh_u32(x: u32) -> (bytes: Vec<u8>)
    ensures
        bytes@ == u32_bytes(x),
{
    borsh::to_vec(&x).expect("writing to a vector does not fail")
}

/// `borsh::to_vec` of a `u64`: the claim is that it gives the number's eight
/// little-endian bytes.
#[verifier::external_body]
pub(crate) fn borsh_u64(x: u64) -> (bytes: Vec<u8>)
    ensures
        bytes@ == u64_bytes(x),
{
    borsh::to_vec(&x).expect("writing to a vector does not fail")
}

/// `borsh::to_vec` of a byte slice: the claim is that it gives the slice behind
/// its length, and fails exactly where the length does not fit in 32 bits, with an
/// error of the kind `InvalidData`.
#[verifier::external_body]
pub(crate) fn borsh_slice(data: &[u8]) -> (bytes: Result<Vec<u8>, EncodeError>)
    ensures
        match bytes {
            Ok(b) => data@.len() <= u32::MAX && b@ == framed(data@),
            Err(e) => data@.len() > u32::MAX && e is InvalidData,
        },
{
    borsh::to_vec(data).map_err(|_| EncodeError::InvalidData)
}

/// The encoding of an outpoint.
pub open spec fn outpoint_bytes(outpoint: OutPoint) -> Seq<u8> {
    seq![outpoint.kind()] + outpoint.origin()@ + u32_bytes(outpoint.position())
}

/// The encoding of what an output holds.
pub open spec fn content_bytes(content: OutputContent) -> Seq<u8> {
    match content {
        OutputContent::Value(value) => seq![0u8] + u64_bytes(value.sats),
        OutputContent::Withdrawal { value, main_fee, main_address } => seq![1u8] + u64_bytes(
            value.sats,
        ) + u64_bytes(main_fee.sats) + seq![main_address.len] + main_address.text@,
        OutputContent::SwapPending { value, swap_id } => seq![2u8] + u64_bytes(value.sats)
            + swap_id@,
    }
}

/// The encoding of an output.
pub open spec fn output_bytes(output: Output) -> Seq<u8> {
    output.address.0@ + content_bytes(output.content)
}

/// The encoding of an output together with its outpoint.
pub open spec fn pointed_output_bytes(outpoint: OutPoint, output: Output) -> Seq<u8> {
    outpoint_bytes(outpoint) + output_bytes(output)
}

/// The encoding of an optional address.
pub open spec fn option_address_bytes(address: Option<Address>) -> Seq<u8> {
    match address {
        None => seq![0u8],
        Some(a) => seq![1u8] + a.0@,
    }
}

/// The encoding of an optional byte string.
pub open spec fn option_framed(data: Option<Seq<u8>>) -> Seq<u8> {
    match data {
        None => seq![0u8],
        Some(d) => seq![1u8] + framed(d),
    }
}

/// The byte that stands for a parent chain.
pub open spec fn parent_chain_byte(chain: ParentChainType) -> u8 {
    match chain {
        ParentChainType::BTC => 0,
        ParentChainType::BCH => 1,
        ParentChainType::LTC => 2,
        ParentChainType::Signet => 3,
        ParentChainType::Regtest => 4,
    }
}

/// The encoding of what a transaction does.
pub open spec fn data_bytes(data: TxDataView) -> Seq<u8> {
    match data {
        TxDataView::Regular => seq![0u8],
        TxDataView::SwapCreate {
            swap_id,
            parent_chain,
            l1_txid_bytes,
            required_confirmations,
            l2_recipient,
            l2_amount,
            l1_recipient_address,
            l1_amount,
        } => seq![1u8] + swap_id@ + seq![parent_chain_byte(parent_chain)] + framed(l1_txid_bytes)
            + u32_bytes(required_confirmations) + option_address_bytes(l2_recipient) + u64_bytes(
            l2_amount,
        ) + framed(encode_utf8(l1_recipient_address)) + u64_bytes(l1_amount),
        TxDataView::SwapClaim { swap_id, l2_claimer_address, proof_data } => seq![2u8] + swap_id@
            + option_address_bytes(l2_claimer_address) + option_framed(proof_data),
        TxDataView::SwapAccept { swap_id, l2_claimer_address } => seq![3u8] + swap_id@
            + l2_claimer_address.0@,
    }
}

/// The encodings of inputs, one behind the other.
pub open spec fn inputs_bytes(inputs: Seq<(OutPoint, Digest)>) -> Seq<u8>
    decreases inputs.len(),
{
    if inputs.len() == 0 {
        Seq::empty()
    } else {
        outpoint_bytes(inputs[0].0) + inputs[0].1@ + inputs_bytes(inputs.skip(1))
    }
}

/// The encodings of outputs, one behind the other.
pub open spec fn outputs_bytes(outputs: Seq<Output>) -> Seq<u8>
    decreases outputs.len(),
{
    if outputs.len() == 0 {
        Seq::empty()
    } else {
        output_bytes(outputs[0]) + outputs_bytes(outputs.skip(1))
    }
}

/// Every length in what a transaction does fits in 32 bits.
pub open spec fn data_encodable(data: TxDataView) -> bool {
    match data {
        TxDataView::SwapCreate { l1_txid_bytes, l1_recipient_address, .. } => l1_txid_bytes.len()
            <= u32::MAX && encode_utf8(l1_recipient_address).len() <= u32::MAX,
        TxDataView::SwapClaim { proof_data: Some(data), .. } => data.len() <= u32::MAX,
        _ => true,
    }
}

/// Every length in a transaction fits in 32 bits: exactly then it has an encoding.
pub open spec fn encodable(transaction: TransactionView) -> bool {
    &&& transaction.inputs.len() <= u32::MAX
    &&& transaction.outputs.len() <= u32::MAX
    &&& data_encodable(transaction.data)
}

/// The encoding of a transaction: its inputs, its outputs and what it does.
pub open spec fn transaction_bytes(transaction: TransactionView) -> Seq<u8> {
    u32_bytes(transaction.inputs.len() as u32) + inputs_bytes(transaction.inputs) + u32_bytes(
        transaction.outputs.len() as u32,
    ) + outputs_bytes(transaction.outputs) + data_bytes(transaction.data)
}

/// The bytes that identify a swap from this chain to its parent chain: who offers
/// it, for how much, to whom, and where the parent chain is to pay.
pub open spec fn swap_bytes(
    l1_recipient_address: Seq<char>,
    l1_amount: Amount,
    l2_sender_address: Address,
    l2_recipient_address: Option<Address>,
) -> Seq<u8> {
    l2_sender_address.0@ + u64_bytes(l1_amount.sats) + option_address_bytes(l2_recipient_address)
        + encode_utf8(l1_recipient_address)
}

/// Appends bytes to a buffer.
pub(crate) fn append_bytes(buffer: &mut Vec<u8>, data: &[u8])
    ensures
        final(buffer)@ == old(buffer)@ + data@,
{
    buffer.extend_from_slice(data);
    assert(buffer@ =~= old(buffer)@ + data@);
}

fn append_u32(buffer: &mut Vec<u8>, x: u32)
    ensures
        final(buffer)@ == old(buffer)@ + u32_bytes(x),
{
    let mut bytes: Vec<u8> = borsh_u32(x);
    buffer.append(&mut bytes);
}

/// Appends the encoding of a 64-bit number.
pub(crate) fn append_u64(buffer: &mut Vec<u8>, x: u64)
    ensures
        final(buffer)@ == old(buffer)@ + u64_bytes(x),
{
    let mut bytes: Vec<u8> = borsh_u64(x);
    buffer.append(&mut bytes);
}

/// Appends a byte string behind its length.
pub(crate) fn append_framed(buffer: &mut Vec<u8>, data: &[u8]) -> (result: Result<(), EncodeError>)
    ensures
        match result {
            Ok(_) => data@.len() <= u32::MAX && final(buffer)@ == old(buffer)@ + framed(data@),
            Err(e) => data@.len() > u32::MAX && e is InvalidData && final(buffer)@ == old(buffer)@,
        },
{
    match borsh_slice(data) {
        Ok(mut bytes) => {
            buffer.append(&mut bytes);
            Ok(())
        },
        Err(error) => Err(error),
    }
}

fn append_outpoint(buffer: &mut Vec<u8>, outpoint: &OutPoint)
    ensures
        final(buffer)@ == old(buffer)@ + outpoint_bytes(*outpoint),
{
    let (kind, origin, position) = outpoint.parts();
    buffer.push(kind);
    append_bytes(buffer, origin.as_slice());
    append_u32(buffer, position);
    assert(buffer@ =~= old(buffer)@ + outpoint_bytes(*outpoint));
}

fn append_output(buffer: &mut Vec<u8>, output: &Output)
    ensures
        final(buffer)@ == old(buffer)@ + output_bytes(*output),
{
    append_bytes(buffer, output.address.0.as_slice());
    match output.content {
        OutputContent::Value(value) => {
            buffer.push(0);
            append_u64(buffer, value.sats);
        },
        OutputContent::Withdrawal { value, main_fee, main_address } => {
            buffer.push(1);
            append_u64(buffer, value.sats);
            append_u64(buffer, main_fee.sats);
            buffer.push(main_address.len);
            append_bytes(buffer, main_address.text.as_slice());
        },
        OutputContent::SwapPending { value, swap_id } => {
            buffer.push(2);
            append_u64(buffer, value.sats);
            append_bytes(buffer, swap_id.as_slice());
        },
    }
    assert(buffer@ =~= old(buffer)@ + output_bytes(*output));
}

/// The encoding of an output together with its outpoint.
pub fn encode_pointed_output(outpoint: &OutPoint, output: &Output) -> (bytes: Vec<u8>)
    ensures
        bytes@ == pointed_output_bytes(*outpoint, *output),
{
    let mut buffer: Vec<u8> = Vec::new();
    append_outpoint(&mut buffer, outpoint);
    append_output(&mut buffer, output);
    assert(buffer@ =~= pointed_output_bytes(*outpoint, *output));
    buffer
}

/// Appends the encoding of an optional address.
pub(crate) fn append_option_address(buffer: &mut Vec<u8>, address: &Option<Address>)
    ensures
        final(buffer)@ == old(buffer)@ + option_address_bytes(*address),
{
    match address {
        None => {
            buffer.push(0);
        },
        Some(a) => {
            buffer.push(1);
            append_bytes(buffer, a.0.as_slice());
        },
    }
    assert(buffer@ =~= old(buffer)@ + option_address_bytes(*address));
}

/// Appending nine byte strings one after the other appends their concatenation.
proof fn lemma_nine_appended(start: Seq<u8>, parts: Seq<Seq<u8>>)
    requires
        parts.len() == 9,
    ensures
        start + parts[0] + parts[1] + parts[2] + parts[3] + parts[4] + parts[5] + parts[6]
            + parts[7] + parts[8] == start + (parts[0] + parts[1] + parts[2] + parts[3] + parts[4]
            + parts[5] + parts[6] + parts[7] + parts[8]),
{
    let two = parts[0] + parts[1];
    let four = two + parts[2] + parts[3];
    let six = four + parts[4] + parts[5];
    let eight = six + parts[6] + parts[7];
    assert(start + parts[0] + parts[1] =~= start + two);
    assert(start + two + parts[2] + parts[3] =~= start + four);
    assert(start + four + parts[4] + parts[5] =~= start + six);
    assert(start + six + parts[6] + parts[7] =~= start + eight);
    assert(start + eight + parts[8] =~= start + (eight + parts[8]));
}

fn append_data(buffer: &mut Vec<u8>, data: &TxData) -> (result: Result<(), EncodeError>)
    ensures
        match result {
            Ok(_) => data_encodable(data@) && final(buffer)@ == old(buffer)@ + data_bytes(data@),
            Err(e) => !data_encodable(data@) && e is InvalidData,
        },
{
    match data {
        TxData::Regular => {
            buffer.push(0);
            assert(buffer@ =~= old(buffer)@ + data_bytes(data@));
        },
        TxData::SwapCreate {
            swap_id,
            parent_chain,
            l1_txid_bytes,
            required_confirmations,
            l2_recipient,
            l2_amount,
            l1_recipient_address,
            l1_amount,
        } => {
            buffer.push(1);
            assert(buffer@ =~= old(buffer)@ + seq![1u8]);
            append_bytes(buffer, swap_id.as_slice());
            let chain: u8 = match parent_chain {
                ParentChainType::BTC => 0,
                ParentChainType::BCH => 1,
                ParentChainType::LTC => 2,
                ParentChainType::Signet => 3,
                ParentChainType::Regtest => 4,
            };
            let ghost before = buffer@;
            buffer.push(chain);
            assert(buffer@ =~= before + seq![parent_chain_byte(*parent_chain)]);
            if let Err(error) = append_framed(buffer, l1_txid_bytes.as_slice()) {
                return Err(error);
            }
            append_u32(buffer, *required_confirmations);
            append_option_address(buffer, l2_recipient);
            append_u64(buffer, *l2_amount);
            if let Err(error) = append_framed(buffer, l1_recipient_address.as_str().as_bytes()) {
                return Err(error);
            }
            append_u64(buffer, *l1_amount);
            proof {
                lemma_nine_appended(
                    old(buffer)@,
                    seq![
                        seq![1u8],
                        swap_id@,
                        seq![parent_chain_byte(*parent_chain)],
                        framed(l1_txid_bytes@),
                        u32_bytes(*required_confirmations),
                        option_address_bytes(*l2_recipient),
                        u64_bytes(*l2_amount),
                        framed(encode_utf8(l1_recipient_address@)),
                        u64_bytes(*l1_amount),
                    ],
                );
            }
        },
        TxData::SwapClaim { swap_id, l2_claimer_address, proof_data } => {
            buffer.push(2);
            append_bytes(buffer, swap_id.as_slice());
            append_option_address(buffer, l2_claimer_address);
            match proof_data {
                None => {
                    buffer.push(0);
                },
                Some(bytes) => {
                    buffer.push(1);
                    if let Err(error) = append_framed(buffer, bytes.as_slice()) {
                        return Err(error);
                    }
                },
            }
            assert(buffer@ =~= old(buffer)@ + data_bytes(data@));
        },
        TxData::SwapAccept { swap_id, l2_claimer_address } => {
            buffer.push(3);
            append_bytes(buffer, swap_id.as_slice());
            append_bytes(buffer, l2_claimer_address.0.as_slice());
            assert(buffer@ =~= old(buffer)@ + data_bytes(data@));
        },
    }
    Ok(())
}

/// The encoding of a transaction, unless one of its lengths does not fit in 32
/// bits.
pub fn encode_transaction(transaction: &Transaction) -> (bytes: Result<
    Vec<u8>,
    EncodeError,
>)
    ensures
        match bytes {
            Ok(b) => encodable(transaction@) && b@ == transaction_bytes(transaction@),
            Err(e) => !encodable(transaction@) && e is InvalidData,
        },
{
    let max: usize = 0xffff_ffff;
    if transaction.inputs.len() > max || transaction.outputs.len() > max {
        return Err(EncodeError::InvalidData);
    }
    let ghost inputs = transaction.inputs@;
    let ghost outputs = transaction.outputs@;
    let mut buffer: Vec<u8> = Vec::new();
    append_u32(&mut buffer, transaction.inputs.len() as u32);
    let ghost start = buffer@;
    let mut i: usize = 0;
    assert(inputs.skip(0) =~= inputs);
    while i < transaction.inputs.len()
        invariant
            inputs == transaction.inputs@,
            i <= inputs.len(),
            start + inputs_bytes(inputs) == buffer@ + inputs_bytes(inputs.skip(i as int)),
        decreases inputs.len() - i,
    {
        append_outpoint(&mut buffer, &transaction.inputs[i].0);
        append_bytes(&mut buffer, transaction.inputs[i].1.as_slice());
        proof {
            let rest = inputs.skip(i as int);
            assert(rest[0] == inputs[i as int]);
            assert(rest.skip(1) =~= inputs.skip(i + 1));
            assert(start + inputs_bytes(inputs) =~= buffer@ + inputs_bytes(inputs.skip(i + 1)));
        }
        i = i + 1;
    }
    assert(inputs.skip(i as int) =~= Seq::<(OutPoint, Digest)>::empty());
    assert(buffer@ =~= start + inputs_bytes(inputs));
    append_u32(&mut buffer, transaction.outputs.len() as u32);
    let ghost middle = buffer@;
    let mut j: usize = 0;
    assert(outputs.skip(0) =~= outputs);
    while j < transaction.outputs.len()
        invariant
            outputs == transaction.outputs@,
            j <= outputs.len(),
            middle + outputs_bytes(outputs) == buffer@ + outputs_bytes(outputs.skip(j as int)),
        decreases outputs.len() - j,
    {
        append_output(&mut buffer, &transaction.outputs[j]);
        proof {
            let rest = outputs.skip(j as int);
            assert(rest[0] == outputs[j as int]);
            assert(rest.skip(1) =~= outputs.skip(j + 1));
            assert(middle + outputs_bytes(outputs) =~= buffer@ + outputs_bytes(
                outputs.skip(j + 1),
            ));
        }
        j = j + 1;
    }
    assert(outputs.skip(j as int) =~= Seq::<Output>::empty());
    assert(buffer@ =~= middle + outputs_bytes(outputs));
    if let Err(error) = append_data(&mut buffer, &transaction.data) {
        return Err(error);
    }
    assert(buffer@ =~= transaction_bytes(transaction@));
    Ok(buffer)
}

/// Concatenations whose first parts have one length agree part by part.
pub(crate) proof fn lemma_split(a: Seq<u8>, s: Seq<u8>, b: Seq<u8>, t: Seq<u8>)
    requires
        a + s == b + t,
        a.len() == b.len(),
    ensures
        a == b,
        s == t,
{
    assert(a =~= (a + s).take(a.len() as int));
    assert(b =~= (b + t).take(b.len() as int));
    assert(s =~= (a + s).skip(a.len() as int));
    assert(t =~= (b + t).skip(b.len() as int));
}

proof fn lemma_u32_injective(a: u32, b: u32)
    requires
        u32_bytes(a) == u32_bytes(b),
    ensures
        a == b,
{
    let (x, y) = (u32_bytes(a), u32_bytes(b));
    assert(x[0] == y[0] && x[1] == y[1] && x[2] == y[2] && x[3] == y[3]);
    lemma_u32_digits(a);
    lemma_u32_digits(b);
}

/// A 32-bit number is made of its four bytes.
proof fn lemma_u32_digits(x: u32)
    ensures
        x == u32_bytes(x)[0] + 256 * u32_bytes(x)[1] + 65536 * u32_bytes(x)[2] + 16777216
            * u32_bytes(x)[3],
{
    assert(x == x % 256 + 256 * (x / 256 % 256) + 65536 * (x / 65536 % 256) + 16777216 * (x
        / 16777216)) by (bit_vector);
    assert(x / 16777216 < 256) by (bit_vector);
}

pub(crate) proof fn lemma_u64_injective(a: u64, b: u64)
    requires
        u64_bytes(a) == u64_bytes(b),
    ensures
        a == b,
{
    let (al, ah) = ((a % 4294967296) as u32, (a / 4294967296) as u32);
    let (bl, bh) = ((b % 4294967296) as u32, (b / 4294967296) as u32);
    lemma_split(u32_bytes(al), u32_bytes(ah), u32_bytes(bl), u32_bytes(bh));
    lemma_u32_injective(al, bl);
    lemma_u32_injective(ah, bh);
}

pub(crate) proof fn lemma_framed_prefix(a: Seq<u8>, s: Seq<u8>, b: Seq<u8>, t: Seq<u8>)
    requires
        framed(a) + s == framed(b) + t,
        a.len() <= u32::MAX,
        b.len() <= u32::MAX,
    ensures
        a == b,
        s == t,
{
    let (la, lb) = (u32_bytes(a.len() as u32), u32_bytes(b.len() as u32));
    assert(framed(a) + s =~= la + (a + s));
    assert(framed(b) + t =~= lb + (b + t));
    lemma_split(la, a + s, lb, b + t);
    lemma_u32_injective(a.len() as u32, b.len() as u32);
    lemma_split(a, s, b, t);
}

/// No two outpoints have one encoding.
pub proof fn outpoint_bytes_injective(a: OutPoint, b: OutPoint)
    requires
        outpoint_bytes(a) == outpoint_bytes(b),
    ensures
        a == b,
{
    let (ta, tb) = (seq![a.kind()] + a.origin()@, seq![b.kind()] + b.origin()@);
    lemma_split(ta, u32_bytes(a.position()), tb, u32_bytes(b.position()));
    lemma_u32_injective(a.position(), b.position());
    lemma_split(seq![a.kind()], a.origin()@, seq![b.kind()], b.origin()@);
    assert(seq![a.kind()][0] == seq![b.kind()][0]);
    OutPoint::lemma_parts(a, b);
}

proof fn lemma_content_prefix(a: OutputContent, s: Seq<u8>, b: OutputContent, t: Seq<u8>)
    requires
        content_bytes(a) + s == content_bytes(b) + t,
    ensures
        a == b,
        s == t,
{
    let (x, y) = (content_bytes(a) + s, content_bytes(b) + t);
    assert(x[0] == content_bytes(a)[0] && y[0] == content_bytes(b)[0]);
    match (a, b) {
        (OutputContent::Value(va), OutputContent::Value(vb)) => {
            lemma_split(content_bytes(a), s, content_bytes(b), t);
            lemma_split(seq![0u8], u64_bytes(va.sats), seq![0u8], u64_bytes(vb.sats));
            lemma_u64_injective(va.sats, vb.sats);
        },
        (
            OutputContent::Withdrawal { value: va, main_fee: fa, main_address: ma },
            OutputContent::Withdrawal { value: vb, main_fee: fb, main_address: mb },
        ) => {
            lemma_split(content_bytes(a), s, content_bytes(b), t);
            let (pa, pb) = (seq![1u8] + u64_bytes(va.sats), seq![1u8] + u64_bytes(vb.sats));
            let (qa, qb) = (pa + u64_bytes(fa.sats), pb + u64_bytes(fb.sats));
            lemma_split(qa + seq![ma.len], ma.text@, qb + seq![mb.len], mb.text@);
            lemma_split(qa, seq![ma.len], qb, seq![mb.len]);
            lemma_split(pa, u64_bytes(fa.sats), pb, u64_bytes(fb.sats));
            lemma_split(seq![1u8], u64_bytes(va.sats), seq![1u8], u64_bytes(vb.sats));
            lemma_u64_injective(va.sats, vb.sats);
            lemma_u64_injective(fa.sats, fb.sats);
            assert(seq![ma.len][0] == seq![mb.len][0]);
            assert(ma.text =~= mb.text);
        },
        (
            OutputContent::SwapPending { value: va, swap_id: ia },
            OutputContent::SwapPending { value: vb, swap_id: ib },
        ) => {
            lemma_split(content_bytes(a), s, content_bytes(b), t);
            let (pa, pb) = (seq![2u8] + u64_bytes(va.sats), seq![2u8] + u64_bytes(vb.sats));
            lemma_split(pa, ia@, pb, ib@);
            lemma_split(seq![2u8], u64_bytes(va.sats), seq![2u8], u64_bytes(vb.sats));
            lemma_u64_injective(va.sats, vb.sats);
            assert(ia =~= ib);
        },
        _ => {},
    }
}

proof fn lemma_output_prefix(a: Output, s: Seq<u8>, b: Output, t: Seq<u8>)
    requires
        output_bytes(a) + s == output_bytes(b) + t,
    ensures
        a == b,
        s == t,
{
    let (ca, cb) = (content_bytes(a.content), content_bytes(b.content));
    assert(output_bytes(a) + s =~= a.address.0@ + (ca + s));
    assert(output_bytes(b) + t =~= b.address.0@ + (cb + t));
    lemma_split(a.address.0@, ca + s, b.address.0@, cb + t);
    assert(a.address.0 =~= b.address.0);
    lemma_content_prefix(a.content, s, b.content, t);
}

/// No two pairs of an outpoint and an output have one encoding.
pub proof fn pointed_output_bytes_injective(
    a_point: OutPoint,
    a: Output,
    b_point: OutPoint,
    b: Output,
)
    requires
        pointed_output_bytes(a_point, a) == pointed_output_bytes(b_point, b),
    ensures
        a_point == b_point,
        a == b,
{
    lemma_split(outpoint_bytes(a_point), output_bytes(a), outpoint_bytes(b_point), output_bytes(b));
    outpoint_bytes_injective(a_point, b_point);
    assert(output_bytes(a) + Seq::<u8>::empty() =~= output_bytes(a));
    assert(output_bytes(b) + Seq::<u8>::empty() =~= output_bytes(b));
    lemma_output_prefix(a, Seq::empty(), b, Seq::empty());
}

proof fn lemma_inputs_prefix(
    a: Seq<(OutPoint, Digest)>,
    s: Seq<u8>,
    b: Seq<(OutPoint, Digest)>,
    t: Seq<u8>,
)
    requires
        a.len() == b.len(),
        inputs_bytes(a) + s == inputs_bytes(b) + t,
    ensures
        a == b,
        s == t,
    decreases a.len(),
{
    if a.len() == 0 {
        assert(a =~= b);
        assert(inputs_bytes(a) + s =~= s);
        assert(inputs_bytes(b) + t =~= t);
    } else {
        let (ra, rb) = (inputs_bytes(a.skip(1)) + s, inputs_bytes(b.skip(1)) + t);
        let (oa, ob) = (outpoint_bytes(a[0].0), outpoint_bytes(b[0].0));
        assert(inputs_bytes(a) + s =~= oa + (a[0].1@ + ra));
        assert(inputs_bytes(b) + t =~= ob + (b[0].1@ + rb));
        lemma_split(oa, a[0].1@ + ra, ob, b[0].1@ + rb);
        lemma_split(a[0].1@, ra, b[0].1@, rb);
        outpoint_bytes_injective(a[0].0, b[0].0);
        assert(a[0].1 =~= b[0].1);
        lemma_inputs_prefix(a.skip(1), s, b.skip(1), t);
        assert(a =~= seq![a[0]] + a.skip(1));
        assert(b =~= seq![b[0]] + b.skip(1));
    }
}

proof fn lemma_outputs_prefix(a: Seq<Output>, s: Seq<u8>, b: Seq<Output>, t: Seq<u8>)
    requires
        a.len() == b.len(),
        outputs_bytes(a) + s == outputs_bytes(b) + t,
    ensures
        a == b,
        s == t,
    decreases a.len(),
{
    if a.len() == 0 {
        assert(a =~= b);
        assert(outputs_bytes(a) + s =~= s);
        assert(outputs_bytes(b) + t =~= t);
    } else {
        let (ra, rb) = (outputs_bytes(a.skip(1)) + s, outputs_bytes(b.skip(1)) + t);
        assert(outputs_bytes(a) + s =~= output_bytes(a[0]) + ra);
        assert(outputs_bytes(b) + t =~= output_bytes(b[0]) + rb);
        lemma_output_prefix(a[0], ra, b[0], rb);
        lemma_outputs_prefix(a.skip(1), s, b.skip(1), t);
        assert(a =~= seq![a[0]] + a.skip(1));
        assert(b =~= seq![b[0]] + b.skip(1));
    }
}

proof fn lemma_option_address_prefix(
    a: Option<Address>,
    s: Seq<u8>,
    b: Option<Address>,
    t: Seq<u8>,
)
    requires
        option_address_bytes(a) + s == option_address_bytes(b) + t,
    ensures
        a == b,
        s == t,
{
    let (x, y) = (option_address_bytes(a) + s, option_address_bytes(b) + t);
    assert(x[0] == option_address_bytes(a)[0] && y[0] == option_address_bytes(b)[0]);
    lemma_split(option_address_bytes(a), s, option_address_bytes(b), t);
    match (a, b) {
        (Some(aa), Some(ab)) => {
            lemma_split(seq![1u8], aa.0@, seq![1u8], ab.0@);
            assert(aa.0 =~= ab.0);
        },
        _ => {},
    }
}

pub(crate) proof fn lemma_assoc(a: Seq<u8>, b: Seq<u8>, c: Seq<u8>)
    ensures
        (a + b) + c == a + (b + c),
{
    assert((a + b) + c =~= a + (b + c));
}

/// The encoding of a swap's creation, read from the front.
proof fn lemma_swap_create_layout(a: TxDataView)
    requires
        a is SwapCreate,
    ensures
        data_bytes(a) == seq![1u8] + (a->SwapCreate_swap_id@ + (seq![
            parent_chain_byte(a->parent_chain),
        ] + (framed(a->l1_txid_bytes) + (u32_bytes(a->required_confirmations) + (
        option_address_bytes(a->l2_recipient) + (u64_bytes(a->l2_amount) + (framed(
            encode_utf8(a->l1_recipient_address),
        ) + u64_bytes(a->l1_amount)))))))),
{
    let tag = seq![1u8];
    let id = a->SwapCreate_swap_id@;
    let chain = seq![parent_chain_byte(a->parent_chain)];
    let txid = framed(a->l1_txid_bytes);
    let confirmations = u32_bytes(a->required_confirmations);
    let recipient = option_address_bytes(a->l2_recipient);
    let l2 = u64_bytes(a->l2_amount);
    let text = framed(encode_utf8(a->l1_recipient_address));
    let l1 = u64_bytes(a->l1_amount);
    let front = tag + id + chain + txid + confirmations + recipient;
    lemma_assoc(front + l2, text, l1);
    lemma_assoc(front, l2, text + l1);
    let t6 = l2 + (text + l1);
    lemma_assoc(tag + id + chain + txid + confirmations, recipient, t6);
    lemma_assoc(tag + id + chain + txid, confirmations, recipient + t6);
    let t4 = confirmations + (recipient + t6);
    lemma_assoc(tag + id + chain, txid, t4);
    lemma_assoc(tag + id, chain, txid + t4);
    lemma_assoc(tag, id, chain + (txid + t4));
}

proof fn lemma_swap_create_injective(a: TxDataView, b: TxDataView)
    requires
        a is SwapCreate,
        b is SwapCreate,
        data_encodable(a),
        data_encodable(b),
        data_bytes(a) == data_bytes(b),
    ensures
        a == b,
{
    let (ia, ib) = (a->SwapCreate_swap_id, b->SwapCreate_swap_id);
    let (ca, cb) = (a->required_confirmations, b->required_confirmations);
    let (ea, eb) = (encode_utf8(a->l1_recipient_address), encode_utf8(b->l1_recipient_address));
    let (ja, jb) = (
        seq![parent_chain_byte(a->parent_chain)],
        seq![parent_chain_byte(b->parent_chain)],
    );
    let (t7, u7) = (framed(ea) + u64_bytes(a->l1_amount), framed(eb) + u64_bytes(b->l1_amount));
    let (t6, u6) = (u64_bytes(a->l2_amount) + t7, u64_bytes(b->l2_amount) + u7);
    let (t5, u5) = (
        option_address_bytes(a->l2_recipient) + t6,
        option_address_bytes(b->l2_recipient) + u6,
    );
    let (t4, u4) = (u32_bytes(ca) + t5, u32_bytes(cb) + u5);
    let (t3, u3) = (framed(a->l1_txid_bytes) + t4, framed(b->l1_txid_bytes) + u4);
    let (t2, u2) = (ja + t3, jb + u3);
    let (t1, u1) = (ia@ + t2, ib@ + u2);
    lemma_swap_create_layout(a);
    lemma_swap_create_layout(b);
    lemma_split(seq![1u8], t1, seq![1u8], u1);
    lemma_split(ia@, t2, ib@, u2);
    assert(ia =~= ib);
    lemma_split(ja, t3, jb, u3);
    assert(ja[0] == jb[0]);
    lemma_framed_prefix(a->l1_txid_bytes, t4, b->l1_txid_bytes, u4);
    lemma_split(u32_bytes(ca), t5, u32_bytes(cb), u5);
    lemma_u32_injective(ca, cb);
    lemma_option_address_prefix(a->l2_recipient, t6, b->l2_recipient, u6);
    lemma_split(u64_bytes(a->l2_amount), t7, u64_bytes(b->l2_amount), u7);
    lemma_u64_injective(a->l2_amount, b->l2_amount);
    lemma_framed_prefix(ea, u64_bytes(a->l1_amount), eb, u64_bytes(b->l1_amount));
    lemma_u64_injective(a->l1_amount, b->l1_amount);
    encode_utf8_decode_utf8(a->l1_recipient_address);
    encode_utf8_decode_utf8(b->l1_recipient_address);
}

proof fn lemma_swap_claim_injective(a: TxDataView, b: TxDataView)
    requires
        a is SwapClaim,
        b is SwapClaim,
        data_encodable(a),
        data_encodable(b),
        data_bytes(a) == data_bytes(b),
    ensures
        a == b,
{
    let (ia, ib) = (a->SwapClaim_swap_id, b->SwapClaim_swap_id);
    let (la, lb) = (a->SwapClaim_l2_claimer_address, b->SwapClaim_l2_claimer_address);
    let (pa, pb) = (option_framed(a->proof_data), option_framed(b->proof_data));
    let (t2, u2) = (option_address_bytes(la) + pa, option_address_bytes(lb) + pb);
    assert(data_bytes(a) =~= seq![2u8] + (ia@ + t2));
    assert(data_bytes(b) =~= seq![2u8] + (ib@ + u2));
    lemma_split(seq![2u8], ia@ + t2, seq![2u8], ib@ + u2);
    lemma_split(ia@, t2, ib@, u2);
    assert(ia =~= ib);
    lemma_option_address_prefix(la, pa, lb, pb);
    assert(pa[0] == pb[0]);
    if a->proof_data is Some && b->proof_data is Some {
        let (xa, xb) = (a->proof_data->0, b->proof_data->0);
        lemma_split(seq![1u8], framed(xa), seq![1u8], framed(xb));
        assert(framed(xa) + Seq::<u8>::empty() =~= framed(xa));
        assert(framed(xb) + Seq::<u8>::empty() =~= framed(xb));
        lemma_framed_prefix(xa, Seq::empty(), xb, Seq::empty());
    }
}

proof fn lemma_swap_accept_injective(a: TxDataView, b: TxDataView)
    requires
        a is SwapAccept,
        b is SwapAccept,
        data_bytes(a) == data_bytes(b),
    ensures
        a == b,
{
    let (ia, ib) = (a->SwapAccept_swap_id, b->SwapAccept_swap_id);
    let (la, lb) = (a->SwapAccept_l2_claimer_address, b->SwapAccept_l2_claimer_address);
    lemma_split(seq![3u8] + ia@, la.0@, seq![3u8] + ib@, lb.0@);
    lemma_split(seq![3u8], ia@, seq![3u8], ib@);
    assert(ia =~= ib);
    assert(la.0 =~= lb.0);
}

/// The byte that an encoding of what a transaction does begins with.
spec fn data_tag(data: TxDataView) -> u8 {
    match data {
        TxDataView::Regular => 0,
        TxDataView::SwapCreate { .. } => 1,
        TxDataView::SwapClaim { .. } => 2,
        TxDataView::SwapAccept { .. } => 3,
    }
}

proof fn lemma_data_tag(data: TxDataView)
    ensures
        data_bytes(data).len() > 0,
        data_bytes(data)[0] == data_tag(data),
{
}

proof fn lemma_data_injective(a: TxDataView, b: TxDataView)
    requires
        data_encodable(a),
        data_encodable(b),
        data_bytes(a) == data_bytes(b),
    ensures
        a == b,
{
    lemma_data_tag(a);
    lemma_data_tag(b);
    match a {
        TxDataView::Regular => {},
        TxDataView::SwapCreate { .. } => {
            lemma_swap_create_injective(a, b);
        },
        TxDataView::SwapClaim { .. } => {
            lemma_swap_claim_injective(a, b);
        },
        TxDataView::SwapAccept { .. } => {
            lemma_swap_accept_injective(a, b);
        },
    }
}

/// The encoding of a transaction, read from the front.
proof fn lemma_transaction_layout(a: TransactionView)
    ensures
        transaction_bytes(a) == u32_bytes(a.inputs.len() as u32) + (inputs_bytes(a.inputs) + (
        u32_bytes(a.outputs.len() as u32) + (outputs_bytes(a.outputs) + data_bytes(a.data)))),
{
    let n = u32_bytes(a.inputs.len() as u32);
    let inputs = inputs_bytes(a.inputs);
    let m = u32_bytes(a.outputs.len() as u32);
    let outputs = outputs_bytes(a.outputs);
    let data = data_bytes(a.data);
    lemma_assoc(n + inputs + m, outputs, data);
    lemma_assoc(n + inputs, m, outputs + data);
    lemma_assoc(n, inputs, m + (outputs + data));
}

/// Two transactions with one encoding spend the same inputs, make the same
/// outputs and do the same: what is signed for one transaction is not the
/// message of another.
pub proof fn transaction_bytes_injective(a: TransactionView, b: TransactionView)
    requires
        encodable(a),
        encodable(b),
        transaction_bytes(a) == transaction_bytes(b),
    ensures
        a.inputs == b.inputs,
        a.outputs == b.outputs,
        a.data == b.data,
{
    let (na, nb) = (u32_bytes(a.inputs.len() as u32), u32_bytes(b.inputs.len() as u32));
    let (ma, mb) = (u32_bytes(a.outputs.len() as u32), u32_bytes(b.outputs.len() as u32));
    let (t3, u3) = (
        outputs_bytes(a.outputs) + data_bytes(a.data),
        outputs_bytes(b.outputs) + data_bytes(b.data),
    );
    let (t2, u2) = (ma + t3, mb + u3);
    let (t1, u1) = (inputs_bytes(a.inputs) + t2, inputs_bytes(b.inputs) + u2);
    lemma_transaction_layout(a);
    lemma_transaction_layout(b);
    lemma_split(na, t1, nb, u1);
    lemma_u32_injective(a.inputs.len() as u32, b.inputs.len() as u32);
    lemma_inputs_prefix(a.inputs, t2, b.inputs, u2);
    lemma_split(ma, t3, mb, u3);
    lemma_u32_injective(a.outputs.len() as u32, b.outputs.len() as u32);
    lemma_outputs_prefix(a.outputs, data_bytes(a.data), b.outputs, data_bytes(b.data));
    lemma_data_injective(a.data, b.data);
}

/// Two swaps with one identifying byte string have the same sender, amount,
/// recipient and address on the parent chain.
pub proof fn swap_bytes_injective(
    a_text: Seq<char>,
    a_amount: Amount,
    a_sender: Address,
    a_recipient: Option<Address>,
    b_text: Seq<char>,
    b_amount: Amount,
    b_sender: Address,
    b_recipient: Option<Address>,
)
    requires
        swap_bytes(a_text, a_amount, a_sender, a_recipient) == swap_bytes(
            b_text,
            b_amount,
            b_sender,
            b_recipient,
        ),
    ensures
        a_text == b_text,
        a_amount == b_amount,
        a_sender == b_sender,
        a_recipient == b_recipient,
{
    let (ta, tb) = (encode_utf8(a_text), encode_utf8(b_text));
    let (ra, rb) = (option_address_bytes(a_recipient), option_address_bytes(b_recipient));
    let (va, vb) = (u64_bytes(a_amount.sats), u64_bytes(b_amount.sats));
    lemma_assoc(a_sender.0@ + va, ra, ta);
    lemma_assoc(b_sender.0@ + vb, rb, tb);
    lemma_split(a_sender.0@ + va, ra + ta, b_sender.0@ + vb, rb + tb);
    lemma_split(a_sender.0@, va, b_sender.0@, vb);
    lemma_u64_injective(a_amount.sats, b_amount.sats);
    lemma_option_address_prefix(a_recipient, ta, b_recipient, tb);
    assert(a_sender.0 =~= b_sender.0);
    encode_utf8_decode_utf8(a_text);
    encode_utf8_decode_utf8(b_text);
}

} // verus!
