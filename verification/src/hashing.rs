//! Digests: hashes of encoded values, addresses of keys and swap identifiers.

use vstd::prelude::*;

use crate::amount::Amount;
use crate::encoding::{
    append_bytes, append_option_address, append_u64, encode_pointed_output, pointed_output_bytes,
    swap_bytes,
};
use crate::types::{Address, Digest, OutPoint, Output, SwapId};

verus! {

/// What `blake3::hash` returns for `data`.
pub uninterp spec fn blake3_hash(data: Seq<u8>) -> [u8; 32];

/// What `blake3::keyed_hash` returns for `data` under `key`.
pub uninterp spec fn blake3_keyed_hash(key: Seq<u8>, data: Seq<u8>) -> [u8; 32];

/// `blake3::hash`: the result is named, nothing more is claimed of it.
#[verifier::external_body]
fn call_blake3_hash(data: &[u8]) -> (digest: [u8; 32])
    ensures
        digest == blake3_hash(data@),
{
    blake3::hash(data).into()
}

/// `blake3::keyed_hash`: the result is named, nothing more is claimed of it.
#[verifier::external_body]
pub(crate) fn call_blake3_keyed_hash(key: &[u8; 32], data: &[u8]) -> (digest: [u8; 32])
    ensures
        digest == blake3_keyed_hash(key@, data@),
{
    blake3::keyed_hash(key, data).into()
}

/// `blake3::Hasher::finalize_xof` on a hasher that was given `data`, read for 20
/// bytes: the claim is that these are the first 20 bytes of the hash of `data`.
#[verifier::external_body]
fn call_blake3_xof(data: &[u8]) -> (output: [u8; 20])
    ensures
        output@ == blake3_hash(data@)@.take(20),
{
    let mut output: [u8; 20] = [0; 20];
    blake3::Hasher::new().update(data).finalize_xof().fill(&mut output);
    output
}

/// The hash of an encoded value.
pub fn hash(data: &[u8]) -> (digest: Digest)
    ensures
        digest == blake3_hash(data@),
{
    call_blake3_hash(data)
}

/// The address that belongs to a compressed point: the one made of the first 20
/// bytes of the point's hash.
pub open spec fn point_address(point: Seq<u8>) -> Address {
    choose|address: Address| address.0@ == blake3_hash(point)@.take(20)
}

/// The first 20 bytes of the hash of a compressed point, as an address.
pub fn address_of_point(point: &[u8; 32]) -> (address: Address)
    ensures
        address == point_address(point@),
        address.0@ == blake3_hash(point@)@.take(20),
{
    let address = Address(call_blake3_xof(point.as_slice()));
    assert(point_address(point@).0 =~= address.0);
    address
}

/// An output together with the outpoint that it stands at.
#[derive(Clone, Copy, Debug, PartialEq, Eq)]
pub struct PointedOutput {
    pub outpoint: OutPoint,
    pub output: Output,
}

/// The hash by which an unspent output is known to the accumulator.
pub open spec fn utxo_hash(outpoint: OutPoint, output: Output) -> Digest {
    blake3_hash(pointed_output_bytes(outpoint, output))
}

impl PointedOutput {
    /// The hash of the encoded pair.
    pub fn digest(&self) -> (digest: Digest)
        ensures
            digest == utxo_hash(self.outpoint, self.output),
    {
        let bytes: Vec<u8> = encode_pointed_output(&self.outpoint, &self.output);
        hash(bytes.as_slice())
    }
}

impl SwapId {
    /// The identifier of a swap from this chain to its parent chain.
    pub fn from_l2_to_l1(
        l1_recipient_address: &str,
        l1_amount: Amount,
        l2_sender_address: &Address,
        l2_recipient_address: &Option<Address>,
    ) -> (id: SwapId)
        ensures
            id.0 == blake3_hash(
                swap_bytes(
                    l1_recipient_address@,
                    l1_amount,
                    *l2_sender_address,
                    *l2_recipient_address,
                ),
            ),
    {
        let mut buffer: Vec<u8> = Vec::new();
        append_bytes(&mut buffer, l2_sender_address.0.as_slice());
        append_u64(&mut buffer, l1_amount.sats);
        append_option_address(&mut buffer, l2_recipient_address);
        append_bytes(&mut buffer, l1_recipient_address.as_bytes());
        proof {
            assert(buffer@ =~= swap_bytes(
                l1_recipient_address@,
                l1_amount,
                *l2_sender_address,
                *l2_recipient_address,
            ));
        }
        SwapId(hash(buffer.as_slice()))
    }
}

} // verus!
