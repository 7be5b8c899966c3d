//! The values that the wallet and its transactions are made of.

use vstd::prelude::*;

use crate::amount::Amount;
use crate::bytes::{
    bytes_before, lex_before, lex_before_irreflexive, lex_before_total, lex_before_transitive,
};
use crate::table::TableKey;

verus! {

/// A 32-byte hash.
pub type Digest = [u8; 32];

/// The number of this sidechain.
pub const THIS_SIDECHAIN: u8 = 255;

/// An address: the first twenty bytes of the hash of a verifying key.
#[derive(Clone, Copy, Debug, PartialEq, Eq, PartialOrd, Ord, Hash)]
pub struct Address(pub [u8; 20]);

/// The identifier of a transaction of this chain.
#[derive(Clone, Copy, Debug, PartialEq, Eq, PartialOrd, Ord, Hash)]
pub struct Txid(pub [u8; 32]);

/// What has an address.
pub trait GetAddress {
    /// The address, as a mathematical value.
    spec fn address_spec(&self) -> Address;

    fn get_address(&self) -> (address: Address)
        ensures
            address == self.address_spec(),
    ;
}

/// What has a value.
pub trait GetValue {
    /// The value, as a mathematical value.
    spec fn value_spec(&self) -> Amount;

    fn get_value(&self) -> (value: Amount)
        ensures
            value == self.value_spec(),
    ;
}

impl Address {
    /// Tells whether two addresses are the same.
    pub fn same(&self, other: &Address) -> (same: bool)
        ensures
            same == (*self == *other),
    {
        let same = crate::bytes::bytes_equal(self.0.as_slice(), other.0.as_slice());
        proof {
            if self.0@ == other.0@ {
                assert(self.0 =~= other.0);
            }
        }
        same
    }
}

impl TableKey for Address {
    open spec fn before(self, other: Address) -> bool {
        lex_before(self.0@, other.0@)
    }

    proof fn before_irreflexive(a: Address) {
        lex_before_irreflexive(a.0@);
    }

    proof fn before_transitive(a: Address, b: Address, c: Address) {
        lex_before_transitive(a.0@, b.0@, c.0@);
    }

    proof fn before_total(a: Address, b: Address) {
        lex_before_total(a.0@, b.0@);
        if a.0@ == b.0@ {
            assert(a.0 =~= b.0);
        }
    }

    fn is_before(&self, other: &Address) -> (before: bool) {
        bytes_before(self.0.as_slice(), other.0.as_slice())
    }
}

impl TableKey for [u8; 32] {
    open spec fn before(self, other: [u8; 32]) -> bool {
        lex_before(self@, other@)
    }

    proof fn before_irreflexive(a: [u8; 32]) {
        lex_before_irreflexive(a@);
    }

    proof fn before_transitive(a: [u8; 32], b: [u8; 32], c: [u8; 32]) {
        lex_before_transitive(a@, b@, c@);
    }

    proof fn before_total(a: [u8; 32], b: [u8; 32]) {
        lex_before_total(a@, b@);
        if a@ == b@ {
            assert(a =~= b);
        }
    }

    fn is_before(&self, other: &[u8; 32]) -> (before: bool) {
        bytes_before(self.as_slice(), other.as_slice())
    }
}

/// Where an output was made.
#[derive(Clone, Copy, Debug, PartialEq, Eq, PartialOrd, Ord, Hash)]
#[allow(inconsistent_fields)]
pub enum OutPoint {
    /// An output of a transaction.
    Regular { txid: Txid, vout: u32 },
    /// An output of a block's coinbase.
    Coinbase { merkle_root: Digest, vout: u32 },
    /// A deposit on the parent chain.
    Deposit { txid: Digest, vout: u32 },
}

impl OutPoint {
    /// The number of the variant.
    pub open spec fn kind(self) -> u8 {
        match self {
            OutPoint::Regular { .. } => 0,
            OutPoint::Coinbase { .. } => 1,
            OutPoint::Deposit { .. } => 2,
        }
    }

    /// The identifier of what made the output.
    pub open spec fn origin(self) -> Digest {
        match self {
            OutPoint::Regular { txid, .. } => txid.0,
            OutPoint::Coinbase { merkle_root, .. } => merkle_root,
            OutPoint::Deposit { txid, .. } => txid,
        }
    }

    /// The index of the output among those made with it.
    pub open spec fn position(self) -> u32 {
        match self {
            OutPoint::Regular { vout, .. } => vout,
            OutPoint::Coinbase { vout, .. } => vout,
            OutPoint::Deposit { vout, .. } => vout,
        }
    }

    /// The variant's number, the identifier and the index.
    pub fn parts(&self) -> (parts: (u8, Digest, u32))
        ensures
            parts.0 == self.kind(),
            parts.1 == self.origin(),
            parts.2 == self.position(),
    {
        match *self {
            OutPoint::Regular { txid, vout } => (0, txid.0, vout),
            OutPoint::Coinbase { merkle_root, vout } => (1, merkle_root, vout),
            OutPoint::Deposit { txid, vout } => (2, txid, vout),
        }
    }

    /// An outpoint is determined by its kind, its origin and its position.
    pub proof fn lemma_parts(a: OutPoint, b: OutPoint)
        requires
            a.kind() == b.kind(),
            a.origin()@ == b.origin()@,
            a.position() == b.position(),
        ensures
            a == b,
    {
        assert(a.origin() =~= b.origin());
    }
}

impl TableKey for OutPoint {
    open spec fn before(self, other: OutPoint) -> bool {
        if self.kind() != other.kind() {
            self.kind() < other.kind()
        } else if self.origin()@ != other.origin()@ {
            lex_before(self.origin()@, other.origin()@)
        } else {
            self.position() < other.position()
        }
    }

    proof fn before_irreflexive(a: OutPoint) {
    }

    proof fn before_transitive(a: OutPoint, b: OutPoint, c: OutPoint) {
        let (x, y, z) = (a.origin()@, b.origin()@, c.origin()@);
        if a.kind() == b.kind() && b.kind() == c.kind() && x != y && y != z {
            lex_before_transitive(x, y, z);
            lex_before_irreflexive(x);
        }
    }

    proof fn before_total(a: OutPoint, b: OutPoint) {
        lex_before_total(a.origin()@, b.origin()@);
        if a.kind() == b.kind() && a.origin()@ == b.origin()@ && a.position() == b.position() {
            OutPoint::lemma_parts(a, b);
        }
    }

    fn is_before(&self, other: &OutPoint) -> (before: bool) {
        let (kind, origin, position) = self.parts();
        let (other_kind, other_origin, other_position) = other.parts();
        if kind != other_kind {
            return kind < other_kind;
        }
        if !crate::bytes::bytes_equal(origin.as_slice(), other_origin.as_slice()) {
            return bytes_before(origin.as_slice(), other_origin.as_slice());
        }
        position < other_position
    }
}

/// Where an output was spent.
#[derive(Clone, Copy, Debug, PartialEq, Eq)]
pub enum InPoint {
    /// An input of a transaction.
    Regular { txid: Txid, vin: u32 },
    /// A bundle of withdrawals to the parent chain.
    Withdrawal { m6id: Digest },
}

/// The greatest number of characters of an address of the parent chain.
pub const MAIN_ADDRESS_CHARS: usize = 90;

/// An address of the parent chain, as text: `len` ASCII characters, and zeros
/// behind them.
#[derive(Clone, Copy, Debug, PartialEq, Eq)]
pub struct MainAddress {
    pub len: u8,
    pub text: [u8; 90],
}

impl MainAddress {
    /// The bytes of the text.
    pub open spec fn chars(self) -> Seq<u8> {
        self.text@.take(self.len as int)
    }

    /// The address with the given text, unless the text is too long for one.
    pub fn from_text(text: &[u8]) -> (address: Option<MainAddress>)
        ensures
            match address {
                Some(a) => a.len == text@.len() && a.chars() == text@ && forall|i: int|
                    text@.len() <= i < MAIN_ADDRESS_CHARS ==> #[trigger] a.text@[i] == 0,
                None => text@.len() > MAIN_ADDRESS_CHARS,
            },
            address is Some ==> text@.len() <= 90 && forall|i: int|
                0 <= i < text@.len() ==> #[trigger] address->0.text@[i] == text@[i],
            address is None ==> text@.len() > 90,
    {
        if text.len() > MAIN_ADDRESS_CHARS {
            return None;
        }
        let mut padded: [u8; 90] = [0u8;90];
        let mut i: usize = 0;
        while i < text.len()
            invariant
                i <= text@.len() <= 90,
                padded@.len() == 90,
                forall|j: int| 0 <= j < i ==> padded@[j] == text@[j],
                forall|j: int| i <= j < 90 ==> #[trigger] padded@[j] == 0,
            decreases text@.len() - i,
        {
            padded[i] = text[i];
            i = i + 1;
        }
        let address = MainAddress { len: text.len() as u8, text: padded };
        assert(address.chars() =~= text@);
        Some(address)
    }
}

/// What an output holds.
#[derive(Clone, Copy, Debug, PartialEq, Eq)]
pub enum OutputContent {
    /// Money.
    Value(Amount),
    /// Money on its way to the parent chain.
    Withdrawal { value: Amount, main_fee: Amount, main_address: MainAddress },
    /// Money that belongs to a swap.
    SwapPending { value: Amount, swap_id: [u8; 32] },
}

impl OutputContent {
    /// Tells whether the output is a withdrawal.
    pub fn is_withdrawal(&self) -> (r: bool)
        ensures
            r == (*self is Withdrawal),
    {
        match self {
            OutputContent::Withdrawal { .. } => true,
            _ => false,
        }
    }

    /// Tells whether the output belongs to a swap.
    pub fn is_swap_pending(&self) -> (r: bool)
        ensures
            r == (*self is SwapPending),
    {
        match self {
            OutputContent::SwapPending { .. } => true,
            _ => false,
        }
    }
}

/// An output of a transaction.
#[derive(Clone, Copy, Debug, PartialEq, Eq)]
pub struct Output {
    pub address: Address,
    pub content: OutputContent,
}

/// The value of an output.
pub open spec fn value_of(output: Output) -> Amount {
    match output.content {
        OutputContent::Value(value) => value,
        OutputContent::Withdrawal { value, .. } => value,
        OutputContent::SwapPending { value, .. } => value,
    }
}

impl GetValue for Output {
    open spec fn value_spec(&self) -> Amount {
        value_of(*self)
    }

    fn get_value(&self) -> (value: Amount) {
        match self.content {
            OutputContent::Value(value) => value,
            OutputContent::Withdrawal { value, .. } => value,
            OutputContent::SwapPending { value, .. } => value,
        }
    }
}

/// An output that was spent, and where.
#[derive(Clone, Copy, Debug, PartialEq, Eq)]
pub struct SpentOutput {
    pub output: Output,
    pub inpoint: InPoint,
}

/// The chain on which the other side of a swap takes place.
#[derive(Clone, Copy, Debug, PartialEq, Eq)]
pub enum ParentChainType {
    BTC,
    BCH,
    LTC,
    Signet,
    Regtest,
}

impl ParentChainType {
    /// How many confirmations a swap asks for unless it says otherwise.
    pub open spec fn default_confirmations_spec(self) -> u32 {
        match self {
            ParentChainType::BTC => 6,
            ParentChainType::BCH | ParentChainType::LTC | ParentChainType::Signet
            | ParentChainType::Regtest => 3,
        }
    }

    /// How many confirmations a swap asks for unless it says otherwise.
    pub fn default_confirmations(&self) -> (n: u32)
        ensures
            n == self.default_confirmations_spec(),
    {
        match self {
            ParentChainType::BTC => 6,
            ParentChainType::BCH | ParentChainType::LTC | ParentChainType::Signet
            | ParentChainType::Regtest => 3,
        }
    }
}

/// The identifier of a swap.
#[derive(Clone, Copy, Debug, PartialEq, Eq)]
pub struct SwapId(pub [u8; 32]);

/// A proof that hashes are in the set of unspent outputs.
#[derive(Debug, PartialEq, Eq)]
pub struct Proof {
    /// Where the proven leaves stand.
    pub targets: Vec<u64>,
    /// The hashes beside the paths from the leaves to the roots.
    pub hashes: Vec<Digest>,
}

/// A proof as a mathematical value.
pub struct ProofView {
    pub targets: Seq<u64>,
    pub hashes: Seq<Digest>,
}

impl View for Proof {
    type V = ProofView;

    open spec fn view(&self) -> ProofView {
        ProofView { targets: self.targets@, hashes: self.hashes@ }
    }
}

impl Default for Proof {
    fn default() -> (proof: Proof)
        ensures
            proof@ == (ProofView { targets: Seq::empty(), hashes: Seq::empty() }),
    {
        Proof { targets: Vec::new(), hashes: Vec::new() }
    }
}

/// What a transaction does beside moving money.
#[derive(Debug, PartialEq, Eq)]
#[allow(inconsistent_fields)]
pub enum TxData {
    Regular,
    SwapCreate {
        swap_id: [u8; 32],
        parent_chain: ParentChainType,
        l1_txid_bytes: Vec<u8>,
        required_confirmations: u32,
        l2_recipient: Option<Address>,
        l2_amount: u64,
        l1_recipient_address: String,
        l1_amount: u64,
    },
    SwapClaim {
        swap_id: [u8; 32],
        l2_claimer_address: Option<Address>,
        proof_data: Option<Vec<u8>>,
    },
    SwapAccept { swap_id: [u8; 32], l2_claimer_address: Address },
}

/// What a transaction does, as a mathematical value.
#[allow(inconsistent_fields)]
pub enum TxDataView {
    Regular,
    SwapCreate {
        swap_id: [u8; 32],
        parent_chain: ParentChainType,
        l1_txid_bytes: Seq<u8>,
        required_confirmations: u32,
        l2_recipient: Option<Address>,
        l2_amount: u64,
        l1_recipient_address: Seq<char>,
        l1_amount: u64,
    },
    SwapClaim {
        swap_id: [u8; 32],
        l2_claimer_address: Option<Address>,
        proof_data: Option<Seq<u8>>,
    },
    SwapAccept { swap_id: [u8; 32], l2_claimer_address: Address },
}

impl View for TxData {
    type V = TxDataView;

    open spec fn view(&self) -> TxDataView {
        match *self {
            TxData::Regular => TxDataView::Regular,
            TxData::SwapCreate {
                swap_id,
                parent_chain,
                l1_txid_bytes,
                required_confirmations,
                l2_recipient,
                l2_amount,
                l1_recipient_address,
                l1_amount,
            } => TxDataView::SwapCreate {
                swap_id,
                parent_chain,
                l1_txid_bytes: l1_txid_bytes@,
                required_confirmations,
                l2_recipient,
                l2_amount,
                l1_recipient_address: l1_recipient_address@,
                l1_amount,
            },
            TxData::SwapClaim { swap_id, l2_claimer_address, proof_data } => TxDataView::SwapClaim {
                swap_id,
                l2_claimer_address,
                proof_data: match proof_data {
                    Some(data) => Some(data@),
                    None => None,
                },
            },
            TxData::SwapAccept { swap_id, l2_claimer_address } => TxDataView::SwapAccept {
                swap_id,
                l2_claimer_address,
            },
        }
    }
}

/// A transaction.
#[derive(Debug, PartialEq, Eq)]
pub struct Transaction {
    /// The spent outputs, each with its hash.
    pub inputs: Vec<(OutPoint, Digest)>,
    /// The proof that the inputs are unspent.
    pub proof: Proof,
    pub outputs: Vec<Output>,
    pub data: TxData,
}

/// A transaction as a mathematical value.
pub struct TransactionView {
    pub inputs: Seq<(OutPoint, Digest)>,
    pub proof: ProofView,
    pub outputs: Seq<Output>,
    pub data: TxDataView,
}

impl View for Transaction {
    type V = TransactionView;

    open spec fn view(&self) -> TransactionView {
        TransactionView {
            inputs: self.inputs@,
            proof: self.proof@,
            outputs: self.outputs@,
            data: self.data@,
        }
    }
}

impl Default for Transaction {
    fn default() -> (transaction: Transaction)
        ensures
            transaction@ == (TransactionView {
                inputs: Seq::empty(),
                proof: ProofView { targets: Seq::empty(), hashes: Seq::empty() },
                outputs: Seq::empty(),
                data: TxDataView::Regular,
            }),
    {
        Transaction {
            inputs: Vec::new(),
            proof: Proof::default(),
            outputs: Vec::new(),
            data: TxData::Regular,
        }
    }
}

/// Outpoints of transactions come before those of coinbases, and these before deposits.
/// Of one kind, the identifier of what made the output decides, and then the index.
pub proof fn outpoints_are_ordered_by_kind_and_origin_and_index(
    a: Digest,
    i: u32,
    b: Digest,
    j: u32,
)
    ensures
        ({
            let regular = OutPoint::Regular { txid: Txid(a), vout: i };
            let coinbase = OutPoint::Coinbase { merkle_root: a, vout: i };
            let deposit = OutPoint::Deposit { txid: a, vout: i };
            let other_regular = OutPoint::Regular { txid: Txid(b), vout: j };
            let other_coinbase = OutPoint::Coinbase { merkle_root: b, vout: j };
            let other_deposit = OutPoint::Deposit { txid: b, vout: j };
            let first = lex_before(a@, b@) || (a@ == b@ && i < j);
            &&& regular.before(other_coinbase) && !coinbase.before(other_regular)
            &&& regular.before(other_deposit) && !deposit.before(other_regular)
            &&& coinbase.before(other_deposit) && !deposit.before(other_coinbase)
            &&& regular.before(other_regular) <==> first
            &&& coinbase.before(other_coinbase) <==> first
            &&& deposit.before(other_deposit) <==> first
        }),
{
    lex_before_irreflexive(a@);
}

/// Addresses, hashes and numbers are ordered by their bytes and by their size.
pub proof fn keys_are_ordered_by_their_bytes(
    a: Address,
    b: Address,
    x: [u8; 32],
    y: [u8; 32],
    m: u32,
    n: u32,
)
    ensures
        a.before(b) <==> lex_before(a.0@, b.0@),
        x.before(y) <==> lex_before(x@, y@),
        m.before(n) <==> m < n,
{
}

/// What a transaction is as a mathematical value shows each of its parts unchanged.
pub proof fn transaction_shows_its_parts(transaction: Transaction)
    ensures
        transaction@.inputs == transaction.inputs@,
        transaction@.outputs == transaction.outputs@,
        transaction@.proof.targets == transaction.proof.targets@,
        transaction@.proof.hashes == transaction.proof.hashes@,
        match transaction.data {
            TxData::Regular => transaction@.data is Regular,
            TxData::SwapCreate {
                swap_id,
                parent_chain,
                l1_txid_bytes,
                required_confirmations,
                l2_recipient,
                l2_amount,
                l1_recipient_address,
                l1_amount,
            } => {
                let data = transaction@.data;
                &&& data is SwapCreate
                &&& data->SwapCreate_swap_id == swap_id
                &&& data->parent_chain == parent_chain
                &&& data->l1_txid_bytes == l1_txid_bytes@
                &&& data->required_confirmations == required_confirmations
                &&& data->l2_recipient == l2_recipient
                &&& data->l2_amount == l2_amount
                &&& data->l1_recipient_address == l1_recipient_address@
                &&& data->l1_amount == l1_amount
            },
            TxData::SwapClaim { swap_id, l2_claimer_address, proof_data } => {
                let data = transaction@.data;
                &&& data is SwapClaim
                &&& data->SwapClaim_swap_id == swap_id
                &&& data->SwapClaim_l2_claimer_address == l2_claimer_address
                &&& proof_data is None ==> data->proof_data is None
                &&& proof_data is Some ==> data->proof_data == Some(proof_data->0@)
            },
            TxData::SwapAccept { swap_id, l2_claimer_address } => {
                let data = transaction@.data;
                &&& data is SwapAccept
                &&& data->SwapAccept_swap_id == swap_id
                &&& data->SwapAccept_l2_claimer_address == l2_claimer_address
            },
        },
{
}

} // verus!
