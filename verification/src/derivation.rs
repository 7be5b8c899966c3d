//! How the wallet's keys follow from its seed.

use vstd::prelude::*;

use crate::keys::{
    get_address, is_signing_scalar, key_address, key_has_the_number_it_is_made_of, public_point,
    SigningKey, VerifyingKey,
};
use crate::types::{Address, THIS_SIDECHAIN};

verus! {

/// The number of a child key.
#[derive(Clone, Copy, Debug, PartialEq, Eq, Structural)]
#[allow(inconsistent_fields)]
pub enum ChildIndex {
    Hardened { index: u32 },
    NonHardened { index: u32 },
}

/// The child that a 32-bit number stands for: the upper half of the numbers stands
/// for the hardened children.
pub open spec fn child_of(index: u32) -> ChildIndex {
    if index >= 0x8000_0000 {
        ChildIndex::Hardened { index: (index - 0x8000_0000) as u32 }
    } else {
        ChildIndex::NonHardened { index }
    }
}

/// `bip32ish::ChildIndex::from` a 32-bit number: the claim is that numbers with the
/// highest bit set give the hardened child with the rest of the number, and the
/// others the child of that number that is not hardened.
#[verifier::external_body]
fn call_child_index(index: u32) -> (child: ChildIndex)
    ensures
        child == child_of(index),
{
    match bip32ish::ChildIndex::from(index) {
        bip32ish::ChildIndex::Hardened { index } => ChildIndex::Hardened { index: index.value() },
        bip32ish::ChildIndex::NonHardened { index } => {
            ChildIndex::NonHardened { index: index.value() }
        },
    }
}

/// The path from the master key to the wallet's key with the given number:
/// m / 43' / 1899' / 0' / sidechain number' / 0' / index
/// (bip43 purpose, eCash token, purpose, sidechain, account, index).
pub open spec fn path_to(index: u32) -> Seq<ChildIndex> {
    seq![
        ChildIndex::Hardened { index: 43 },
        ChildIndex::Hardened { index: 1899 },
        ChildIndex::Hardened { index: 0 },
        ChildIndex::Hardened { index: THIS_SIDECHAIN as u32 },
        ChildIndex::Hardened { index: 0 },
        child_of(index),
    ]
}

/// A secret key together with what its children are derived from.
#[derive(Clone, Copy, PartialEq, Eq)]
pub struct Xpriv {
    pub secret_scalar: [u8; 32],
    pub chaincode: [u8; 32],
    /// How many derivations the key is away from the master key.
    pub depth: usize,
    pub parent_fingerprint: [u8; 4],
    pub child_number: u32,
}

/// A step in the derivation of a key.
#[derive(Clone, Copy)]
pub enum Step {
    /// To the master key of a seed.
    Master { seed: [u8; 64] },
    /// To a child of a key.
    Child { parent: Xpriv, index: ChildIndex },
}

/// Why a step to a child fails, as `bip32ish` tells it.
#[derive(Clone, Copy, Debug, PartialEq, Eq, Structural)]
pub enum StepError {
    /// The child would be too far away from the master key.
    DepthLimit,
    EncodeChildNumber,
    EncodePubkey,
    EncodeSecretExtra,
    EncodeSecretScalar,
}

/// A key cannot be derived.
#[derive(Clone, Copy, Debug, PartialEq, Eq, Structural)]
pub enum DeriveError {
    /// The step to a hardened child fails.
    Hardened(StepError),
    /// The step to a child that is not hardened fails.
    NonHardened(StepError),
}

/// What `derive` answers on a step.
pub open spec fn stepped<D: Fn(Step) -> Result<Xpriv, DeriveError>>(derive: D, step: Step) -> Result<
    Xpriv,
    DeriveError,
> {
    choose|key: Result<Xpriv, DeriveError>| derive.ensures((step,), key)
}

/// What stands at the end of a path from a key: the first step that fails is the
/// failure of the whole.
pub open spec fn walked<D: Fn(Step) -> Result<Xpriv, DeriveError>>(
    derive: D,
    from: Result<Xpriv, DeriveError>,
    path: Seq<ChildIndex>,
) -> Result<Xpriv, DeriveError>
    decreases path.len(),
{
    if path.len() == 0 {
        from
    } else {
        match walked(derive, from, path.drop_last()) {
            Ok(parent) => stepped(derive, Step::Child { parent, index: path.last() }),
            Err(error) => Err(error),
        }
    }
}

/// What stands at the end of the path to the key with the given number.
pub open spec fn derived<D: Fn(Step) -> Result<Xpriv, DeriveError>>(
    derive: D,
    seed: [u8; 64],
    index: u32,
) -> Result<Xpriv, DeriveError> {
    walked(derive, stepped(derive, Step::Master { seed }), path_to(index))
}

/// The keys are those that `derive` leads to along a path, from the master key on.
pub open spec fn leads_along<D: Fn(Step) -> Result<Xpriv, DeriveError>>(
    derive: D,
    seed: [u8; 64],
    path: Seq<ChildIndex>,
    keys: Seq<Xpriv>,
) -> bool {
    &&& keys.len() == path.len() + 1
    &&& derive.ensures((Step::Master { seed },), Ok(keys[0]))
    &&& forall|i: int|
        0 <= i < path.len() ==> derive.ensures(
            (Step::Child { parent: keys[i], index: #[trigger] path[i] },),
            Ok(keys[i + 1]),
        )
}

/// `derive` takes every step, gives one answer on each, and never leads to a wallet's
/// key that is zero.
pub open spec fn derives<D: Fn(Step) -> Result<Xpriv, DeriveError>>(derive: D) -> bool {
    &&& forall|step: Step| #[trigger] derive.requires((step,))
    &&& forall|step: Step, a: Result<Xpriv, DeriveError>, b: Result<Xpriv, DeriveError>| #[trigger]
        derive.ensures((step,), a) && #[trigger] derive.ensures((step,), b) ==> a == b
    &&& forall|seed: [u8; 64], index: u32, keys: Seq<Xpriv>| #[trigger]
        leads_along(derive, seed, path_to(index), keys) ==> is_signing_scalar(
            keys.last().secret_scalar@,
        )
}

/// The end of a path behind a step that failed.
proof fn lemma_failed_walk<D: Fn(Step) -> Result<Xpriv, DeriveError>>(
    derive: D,
    from: Result<Xpriv, DeriveError>,
    path: Seq<ChildIndex>,
    n: int,
)
    requires
        0 <= n <= path.len(),
        walked(derive, from, path.take(n)) is Err,
    ensures
        walked(derive, from, path) == walked(derive, from, path.take(n)),
    decreases path.len(),
{
    if n < path.len() {
        assert(path.drop_last().take(n) =~= path.take(n));
        lemma_failed_walk(derive, from, path.drop_last(), n);
    } else {
        assert(path.take(n) =~= path);
    }
}

/// The tree of keys that grows from a seed. What key a step leads to is computed by
/// `derive`.
pub struct KeyTree<D: Fn(Step) -> Result<Xpriv, DeriveError>> {
    derive: D,
}

impl<D: Fn(Step) -> Result<Xpriv, DeriveError>> KeyTree<D> {
    #[verifier::type_invariant]
    spec fn sound(self) -> bool {
        derives(self.derive)
    }

    /// What computes the steps.
    pub closed spec fn deriving(self) -> D {
        self.derive
    }

    /// The key with the given number under the given seed.
    pub open spec fn key(self, seed: [u8; 64], index: u32) -> Result<SigningKey, DeriveError> {
        match derived(self.deriving(), seed, index) {
            Ok(xpriv) => Ok(SigningKey::of(xpriv.secret_scalar)),
            Err(error) => Err(error),
        }
    }

    /// The address of the key with the given number under the given seed.
    pub open spec fn address(self, seed: [u8; 64], index: u32) -> Result<Address, DeriveError> {
        match self.key(seed, index) {
            Ok(key) => Ok(key_address(key.public())),
            Err(error) => Err(error),
        }
    }

    /// The tree whose keys `derive` computes.
    pub fn new(derive: D) -> (tree: Self)
        requires
            derives(derive),
        ensures
            tree.deriving() == derive,
    {
        KeyTree { derive }
    }

    /// What a step leads to.
    fn take_step(&self, step: Step) -> (key: Result<Xpriv, DeriveError>)
        ensures
            key == stepped(self.deriving(), step),
            self.deriving().ensures((step,), key),
    {
        proof {
            use_type_invariant(self);
        }
        (self.derive)(step)
    }

    /// The key with the given number, on the path
    /// m / 43' / 1899' / 0' / sidechain number' / 0' / index.
    pub fn derive_signing_key(&self, seed: &[u8; 64], index: u32) -> (key: Result<
        SigningKey,
        DeriveError,
    >)
        ensures
            key == self.key(*seed, index),
    {
        let mut path: Vec<ChildIndex> = Vec::new();
        path.push(ChildIndex::Hardened { index: 43 });
        path.push(ChildIndex::Hardened { index: 1899 });
        path.push(ChildIndex::Hardened { index: 0 });
        path.push(ChildIndex::Hardened { index: THIS_SIDECHAIN as u32 });
        path.push(ChildIndex::Hardened { index: 0 });
        path.push(call_child_index(index));
        assert(path@ =~= path_to(index));
        let ghost from = stepped(self.deriving(), Step::Master { seed: *seed });
        let mut xpriv: Xpriv = match self.take_step(Step::Master { seed: *seed }) {
            Ok(master) => master,
            Err(error) => {
                proof {
                    assert(path@.take(0) =~= Seq::<ChildIndex>::empty());
                    lemma_failed_walk(self.deriving(), from, path@, 0);
                }
                return Err(error);
            },
        };
        let ghost mut keys: Seq<Xpriv> = seq![xpriv];
        let mut i: usize = 0;
        assert(path@.take(0) =~= Seq::<ChildIndex>::empty());
        while i < path.len()
            invariant
                i <= path@.len(),
                path@ == path_to(index),
                from == stepped(self.deriving(), Step::Master { seed: *seed }),
                walked(self.deriving(), from, path@.take(i as int)) == Ok::<Xpriv, DeriveError>(
                    xpriv,
                ),
                leads_along(self.deriving(), *seed, path@.take(i as int), keys),
                keys.last() == xpriv,
            decreases path@.len() - i,
        {
            assert(path@.take(i + 1).drop_last() =~= path@.take(i as int));
            let ghost before = keys;
            xpriv =
            match self.take_step(Step::Child { parent: xpriv, index: path[i] }) {
                Ok(child) => child,
                Err(error) => {
                    proof {
                        lemma_failed_walk(self.deriving(), from, path@, i + 1);
                    }
                    return Err(error);
                },
            };
            proof {
                keys = keys.push(xpriv);
                assert forall|k: int| 0 <= k < i + 1 implies self.deriving().ensures(
                    (Step::Child { parent: keys[k], index: #[trigger] path@.take(i + 1)[k] },),
                    Ok(keys[k + 1]),
                ) by {
                    if k < i {
                        assert(path@.take(i + 1)[k] == path@.take(i as int)[k]);
                        assert(keys[k] == before[k] && keys[k + 1] == before[k + 1]);
                    }
                }
            }
            i = i + 1;
        }
        proof {
            assert(path@.take(i as int) =~= path@);
            use_type_invariant(self);
            assert(leads_along(self.deriving(), *seed, path_to(index), keys));
        }
        Ok(SigningKey::from_nonzero_scalar(xpriv.secret_scalar))
    }

    /// The address of the key with the given number.
    pub fn derive_address_for_index(&self, seed: &[u8; 64], index: u32) -> (address: Result<
        Address,
        DeriveError,
    >)
        ensures
            address == self.address(*seed, index),
    {
        match self.derive_signing_key(seed, index) {
            Ok(key) => Ok(get_address(key.verifying_key())),
            Err(error) => Err(error),
        }
    }
}

/// A step leads from a key to its child.
pub open spec fn leads_to<D: Fn(Step) -> Result<Xpriv, DeriveError>>(
    derive: D,
    parent: Xpriv,
    index: ChildIndex,
    child: Xpriv,
) -> bool {
    stepped(derive, Step::Child { parent, index }) == Ok::<Xpriv, DeriveError>(child)
}

/// The keys are those that `derive` leads to from the master key of the seed by way of the
/// hardened children 43, 1899, 0, 255 and 0.
pub open spec fn leads_to_account<D: Fn(Step) -> Result<Xpriv, DeriveError>>(
    derive: D,
    seed: [u8; 64],
    keys: Seq<Xpriv>,
) -> bool {
    &&& keys.len() == 6
    &&& stepped(derive, Step::Master { seed }) == Ok::<Xpriv, DeriveError>(keys[0])
    &&& leads_to(derive, keys[0], ChildIndex::Hardened { index: 43 }, keys[1])
    &&& leads_to(derive, keys[1], ChildIndex::Hardened { index: 1899 }, keys[2])
    &&& leads_to(derive, keys[2], ChildIndex::Hardened { index: 0 }, keys[3])
    &&& leads_to(derive, keys[3], ChildIndex::Hardened { index: 255 }, keys[4])
    &&& leads_to(derive, keys[4], ChildIndex::Hardened { index: 0 }, keys[5])
}

/// A step leads from a key to the child with a 32-bit number: one that is not hardened for
/// the lower half of the numbers, and a hardened one for the upper half.
pub open spec fn leads_to_number<D: Fn(Step) -> Result<Xpriv, DeriveError>>(
    derive: D,
    parent: Xpriv,
    index: u32,
    child: Xpriv,
) -> bool {
    &&& index < 0x8000_0000 ==> leads_to(derive, parent, ChildIndex::NonHardened { index }, child)
    &&& index >= 0x8000_0000 ==> leads_to(
        derive,
        parent,
        ChildIndex::Hardened { index: (index - 0x8000_0000) as u32 },
        child,
    )
}

/// The key with a number is that child of the account's key. Its address is that of the
/// public key that belongs to it.
pub proof fn key_is_a_child_of_the_account<D: Fn(Step) -> Result<Xpriv, DeriveError>>(
    tree: KeyTree<D>,
    seed: [u8; 64],
    index: u32,
)
    ensures
        tree.key(seed, index) is Ok ==> exists|keys: Seq<Xpriv>, last: Xpriv|
            {
                &&& leads_to_account(tree.deriving(), seed, keys)
                &&& #[trigger] leads_to_number(tree.deriving(), keys[5], index, last)
                &&& tree.key(seed, index)->Ok_0.scalar() == last.secret_scalar@
                &&& tree.address(seed, index) == Ok::<Address, DeriveError>(
                    key_address(VerifyingKey(public_point(last.secret_scalar@))),
                )
            },
        tree.key(seed, index) is Err ==> tree.address(seed, index) == Err::<Address, DeriveError>(
            tree.key(seed, index)->Err_0,
        ) && exists|step: Step| #[trigger]
            stepped(tree.deriving(), step) == Err::<Xpriv, DeriveError>(
                tree.key(seed, index)->Err_0,
            ),
{
    let derive = tree.deriving();
    let path = path_to(index);
    let from = stepped(derive, Step::Master { seed });
    assert(path.take(0) =~= Seq::<ChildIndex>::empty());
    assert(path.take(1).drop_last() =~= path.take(0));
    assert(path.take(2).drop_last() =~= path.take(1));
    assert(path.take(3).drop_last() =~= path.take(2));
    assert(path.take(4).drop_last() =~= path.take(3));
    assert(path.take(5).drop_last() =~= path.take(4));
    assert(path.take(6).drop_last() =~= path.take(5));
    assert(path.take(6) =~= path);
    let w0 = walked(derive, from, path.take(0));
    let w1 = walked(derive, from, path.take(1));
    let w2 = walked(derive, from, path.take(2));
    let w3 = walked(derive, from, path.take(3));
    let w4 = walked(derive, from, path.take(4));
    let w5 = walked(derive, from, path.take(5));
    let w6 = walked(derive, from, path.take(6));
    if w6 is Ok {
        let last = w6->Ok_0;
        let keys = seq![w0->Ok_0, w1->Ok_0, w2->Ok_0, w3->Ok_0, w4->Ok_0, w5->Ok_0];
        key_has_the_number_it_is_made_of(last.secret_scalar);
        assert(leads_to_account(derive, seed, keys));
        assert(leads_to(derive, keys[5], path[5], last));
        assert(leads_to_number(derive, keys[5], index, last));
    }
}

} // verus!
