//! The set of all unspent outputs, and proofs that outputs are in it.
//!
//! The set is a Utreexo forest: its leaves are the hashes of the outputs. Leaves
//! are put in and taken out only as the hashes of outputs, and none is put in
//! while it is there. The forest tells its nodes apart by their hashes: the leaves
//! are BLAKE3 hashes, and the branches above them SHA-512/256 hashes.

use vstd::prelude::*;

use crate::hashing::{utxo_hash, PointedOutput};
use crate::table::{map_of, Table};
use crate::types::{Digest, OutPoint, Output, Proof, ProofView};

verus! {

/// A change of a forest: leaves are taken out, and others are put in behind the
/// leaves that stay.
pub ghost struct ForestChange {
    pub removed: Seq<Digest>,
    pub added: Seq<Digest>,
}

/// The leaves of a forest after a history of changes.
pub open spec fn leaves_after(changes: Seq<ForestChange>) -> Set<Digest>
    decreases changes.len(),
{
    if changes.len() == 0 {
        Set::empty()
    } else {
        let last = changes.last();
        leaves_after(changes.drop_last()).difference(last.removed.to_set()).union(
            last.added.to_set(),
        )
    }
}

/// The hash is that of an output.
pub open spec fn is_output_hash(h: Digest) -> bool {
    exists|o: OutPoint, x: Output| h == utxo_hash(o, x)
}

/// A change that a forest with the given leaves can take: what it takes out is
/// there, what it puts in is not and is the hash of an output, and nothing is named
/// twice.
pub open spec fn change_fits(leaves: Set<Digest>, change: ForestChange) -> bool {
    &&& change.removed.no_duplicates()
    &&& change.added.no_duplicates()
    &&& forall|h: Digest| #[trigger] change.removed.contains(h) ==> leaves.contains(h)
    &&& forall|h: Digest| #[trigger] change.added.contains(h) ==> !leaves.contains(h)
    &&& forall|h: Digest| #[trigger] change.added.contains(h) ==> is_output_hash(h)
}

/// Every change of a history is one that the forest could take when it was made.
pub open spec fn history_fits(changes: Seq<ForestChange>) -> bool
    decreases changes.len(),
{
    changes.len() > 0 ==> history_fits(changes.drop_last()) && change_fits(
        leaves_after(changes.drop_last()),
        changes.last(),
    )
}

/// A Utreexo forest held in memory: a `rustreexo` `MemForest`.
#[verifier::external_body]
pub struct Forest {
    inner: rustreexo::accumulator::mem_forest::MemForest<
        rustreexo::accumulator::node_hash::BitcoinNodeHash,
    >,
}

/// The changes that made a forest, in order.
pub uninterp spec fn forest_changes(forest: Forest) -> Seq<ForestChange>;

/// What `MemForest::prove` returns for leaves of a forest with this history.
pub uninterp spec fn forest_proof(changes: Seq<ForestChange>, targets: Seq<Digest>) -> ProofView;

/// `MemForest::new`: a forest that was not changed yet.
#[verifier::external_body]
fn call_forest_new() -> (forest: Forest)
    ensures
        forest_changes(forest).len() == 0,
{
    Forest { inner: rustreexo::accumulator::mem_forest::MemForest::new() }
}

/// `MemForest::modify`, on a change that fits the forest: the claim is that it
/// succeeds, and that the forest is then the one with this change behind the
/// others. It finds nodes by their hashes. The claim is therefore made only of forests
/// that were made by changes that fit, in which each leaf is the hash of an output.
#[verifier::external_body]
fn call_forest_modify(forest: &mut Forest, added: &[Digest], removed: &[Digest])
    requires
        history_fits(forest_changes(*old(forest))),
        change_fits(
            leaves_after(forest_changes(*old(forest))),
            (ForestChange { removed: removed@, added: added@ }),
        ),
    ensures
        forest_changes(*final(forest)) == forest_changes(*old(forest)).push(
            (ForestChange { removed: removed@, added: added@ }),
        ),
{
    let added: Vec<_> = added.iter().map(|h| h.into()).collect();
    let removed: Vec<_> = removed.iter().map(|h| h.into()).collect();
    forest.inner.modify(&added, &removed).expect("a change that fits");
}

/// `MemForest::prove`: the claim is that it succeeds exactly where every target is
/// a leaf, and that the proof, which is named, has one position for each target. It
/// finds nodes by their hashes. The claim is therefore made only of forests that were
/// made by changes that fit, in which each leaf is the hash of an output.
#[verifier::external_body]
fn call_forest_prove(forest: &Forest, targets: &[Digest]) -> (proven: Option<Proof>)
    requires
        history_fits(forest_changes(*forest)),
    ensures
        proven is Some == (forall|i: int|
            0 <= i < targets@.len() ==> leaves_after(forest_changes(*forest)).contains(
                #[trigger] targets@[i],
            )),
        proven is Some ==> proven->0@ == forest_proof(forest_changes(*forest), targets@),
        proven is Some ==> proven->0.targets@.len() == targets@.len(),
{
    let targets: Vec<_> = targets.iter().map(|h| h.into()).collect();
    let proven = forest.inner.prove(&targets).ok()?;
    let hashes = proven.hashes.iter().map(|h| **h).collect();
    Some(Proof { targets: proven.targets, hashes })
}

/// A hash is not in the set of unspent outputs, or a new one already is.
#[derive(Clone, Copy, Debug, PartialEq, Eq, Structural)]
pub struct UtreexoError;

/// Changes to the set of unspent outputs: for a hash, whether the output is put
/// in or taken out.
pub struct AccumulatorDiff {
    changes: Table<Digest, bool>,
}

/// The hashes that a list of changes puts in (`put`) or takes out (`!put`), in
/// the order of the list.
pub open spec fn hashes_where(rows: Seq<(Digest, bool)>, put: bool) -> Seq<Digest>
    decreases rows.len(),
{
    if rows.len() == 0 {
        Seq::empty()
    } else if rows.last().1 == put {
        hashes_where(rows.drop_last(), put).push(rows.last().0)
    } else {
        hashes_where(rows.drop_last(), put)
    }
}

impl AccumulatorDiff {
    #[verifier::type_invariant]
    spec fn of_outputs(self) -> bool {
        forall|h: Digest| #[trigger] self.changes@.contains_key(h) ==> is_output_hash(h)
    }

    /// For each changed hash, whether its output is put in.
    pub closed spec fn changes(self) -> Map<Digest, bool> {
        self.changes@
    }

    /// The change of the forest, with the hashes in their order.
    pub closed spec fn as_change(self) -> ForestChange {
        ForestChange {
            removed: hashes_where(self.changes.listing(), false),
            added: hashes_where(self.changes.listing(), true),
        }
    }

    /// No changes.
    pub fn new() -> (diff: Self)
        ensures
            diff.changes() == Map::<Digest, bool>::empty(),
    {
        AccumulatorDiff { changes: Table::new() }
    }

    /// Puts an output in.
    pub fn insert(&mut self, pointed: &PointedOutput)
        ensures
            final(self).changes() == old(self).changes().insert(
                utxo_hash(pointed.outpoint, pointed.output),
                true,
            ),
    {
        proof {
            use_type_invariant(&*self);
            assert(is_output_hash(utxo_hash(pointed.outpoint, pointed.output)));
        }
        let digest = pointed.digest();
        let mut changes: Table<Digest, bool> = Table::new();
        std::mem::swap(&mut changes, &mut self.changes);
        changes.put(digest, true);
        self.changes = changes;
    }

    /// Takes an output out.
    pub fn remove(&mut self, pointed: &PointedOutput)
        ensures
            final(self).changes() == old(self).changes().insert(
                utxo_hash(pointed.outpoint, pointed.output),
                false,
            ),
    {
        proof {
            use_type_invariant(&*self);
            assert(is_output_hash(utxo_hash(pointed.outpoint, pointed.output)));
        }
        let digest = pointed.digest();
        let mut changes: Table<Digest, bool> = Table::new();
        std::mem::swap(&mut changes, &mut self.changes);
        changes.put(digest, false);
        self.changes = changes;
    }
}

impl Default for AccumulatorDiff {
    fn default() -> (diff: Self)
        ensures
            diff.changes() == Map::<Digest, bool>::empty(),
    {
        AccumulatorDiff::new()
    }
}

/// The hashes listed for one kind of change are those that the map gives that kind,
/// each once.
proof fn lemma_hashes_where(rows: Seq<(Digest, bool)>, put: bool)
    requires
        crate::table::keys_distinct(rows),
    ensures
        hashes_where(rows, put).no_duplicates(),
        forall|h: Digest| #[trigger]
            hashes_where(rows, put).contains(h) <==> map_of(rows).contains_key(h) && map_of(rows)[h]
                == put,
        forall|h: Digest| #[trigger]
            hashes_where(rows, put).contains(h) ==> crate::table::has_row(rows, h),
    decreases rows.len(),
{
    let list = hashes_where(rows, put);
    if rows.len() > 0 {
        let rest = rows.drop_last();
        let last = rows.last();
        assert(crate::table::keys_distinct(rest)) by {
            assert forall|i: int, j: int|
                0 <= i < rest.len() && 0 <= j < rest.len() && i != j implies (
            #[trigger] rest[i]).0 != (#[trigger] rest[j]).0 by {
                assert(rows[i].0 != rows[j].0);
            }
        }
        lemma_hashes_where(rest, put);
        let shorter = hashes_where(rest, put);
        assert(!crate::table::has_row(rest, last.0)) by {
            if crate::table::has_row(rest, last.0) {
                let i = choose|i: int| 0 <= i < rest.len() && (#[trigger] rest[i]).0 == last.0;
                assert(rows[i].0 == rows[rows.len() - 1].0);
            }
        }
        assert(!shorter.contains(last.0));
        assert forall|h: Digest| #[trigger]
            map_of(rows).contains_key(h) && h != last.0 implies map_of(rest).contains_key(h)
            && map_of(rest)[h] == map_of(rows)[h] by {
            let i = choose|i: int| 0 <= i < rows.len() && (#[trigger] rows[i]).0 == h;
            assert(rest[i] == rows[i]);
            crate::table::lemma_row_in_map(rows, i);
            crate::table::lemma_row_in_map(rest, i);
        }
        assert forall|h: Digest| #[trigger] map_of(rest).contains_key(h) implies map_of(
            rows,
        ).contains_key(h) && map_of(rest)[h] == map_of(rows)[h] by {
            let i = choose|i: int| 0 <= i < rest.len() && (#[trigger] rest[i]).0 == h;
            assert(rest[i] == rows[i]);
            crate::table::lemma_row_in_map(rows, i);
            crate::table::lemma_row_in_map(rest, i);
        }
        crate::table::lemma_row_in_map(rows, rows.len() - 1);
        if last.1 == put {
            assert(list == shorter.push(last.0));
            assert forall|h: Digest| #[trigger] list.contains(h) <==> h == last.0
                || shorter.contains(h) by {
                if h == last.0 {
                    assert(list[list.len() - 1] == h);
                } else if shorter.contains(h) {
                    let i = choose|i: int| 0 <= i < shorter.len() && shorter[i] == h;
                    assert(list[i] == h);
                }
            }
            assert(list.no_duplicates()) by {
                assert forall|i: int, j: int|
                    0 <= i < list.len() && 0 <= j < list.len() && i != j implies list[i]
                    != list[j] by {
                    if i < shorter.len() {
                        assert(shorter.contains(list[i]));
                    }
                    if j < shorter.len() {
                        assert(shorter.contains(list[j]));
                    }
                }
            }
        }
    }
}

/// The set of all unspent outputs.
pub struct Accumulator {
    forest: Forest,
}

impl Accumulator {
    #[verifier::type_invariant]
    spec fn grown(self) -> bool {
        history_fits(forest_changes(self.forest))
    }

    /// The changes that made the set, in order.
    pub closed spec fn history(self) -> Seq<ForestChange> {
        forest_changes(self.forest)
    }

    /// The hashes of the outputs in the set.
    pub open spec fn leaves(self) -> Set<Digest> {
        leaves_after(self.history())
    }

    /// An empty set.
    pub fn new() -> (accumulator: Self)
        ensures
            accumulator.history() == Seq::<ForestChange>::empty(),
            accumulator.leaves() == Set::<Digest>::empty(),
    {
        let accumulator = Accumulator { forest: call_forest_new() };
        assert(accumulator.history() =~= Seq::<ForestChange>::empty());
        accumulator
    }

    /// Proves that outputs are in the set, given their hashes.
    pub fn prove(&self, targets: &[Digest]) -> (proven: Result<Proof, UtreexoError>)
        ensures
            match proven {
                Ok(p) => provable(self.leaves(), targets@) && p@ == forest_proof(
                    self.history(),
                    targets@,
                ) && p.targets@.len() == targets@.len(),
                Err(_) => !provable(self.leaves(), targets@),
            },
    {
        proof {
            use_type_invariant(self);
        }
        match call_forest_prove(&self.forest, targets) {
            Some(p) => Ok(p),
            None => Err(UtreexoError),
        }
    }

    /// Tells whether the output with the hash `digest` is in the set.
    pub fn contains(&self, digest: &Digest) -> (found: bool)
        ensures
            found == self.leaves().contains(*digest),
    {
        let targets: [Digest; 1] = [*digest];
        let proven = self.prove(targets.as_slice());
        assert(targets@[0] == *digest);
        proven.is_ok()
    }

    /// Applies changes, unless one of them takes out what is not there or puts in
    /// what is.
    pub fn apply_diff(&mut self, diff: AccumulatorDiff) -> (result: Result<(), UtreexoError>)
        ensures
            match result {
                Ok(_) => diff_fits(old(self).leaves(), diff.changes()) && final(self).history()
                    == old(self).history().push(diff.as_change()),
                Err(_) => !diff_fits(old(self).leaves(), diff.changes()) && final(self).history()
                    == old(self).history(),
            },
            result is Ok ==> forall|h: Digest| #[trigger]
                final(self).leaves().contains(h) == in_set_after(
                    old(self).leaves(),
                    diff.changes(),
                    h,
                ),
    {
        proof {
            use_type_invariant(&*self);
            use_type_invariant(&diff);
        }
        let mut added: Vec<Digest> = Vec::new();
        let mut removed: Vec<Digest> = Vec::new();
        let rows = diff.changes.rows();
        let ghost leaves = self.leaves();
        let mut i: usize = 0;
        while i < rows.len()
            invariant
                i <= rows@.len(),
                rows@ == diff.changes.listing(),
                diff.changes() == map_of(rows@),
                crate::table::keys_distinct(rows@),
                leaves == self.leaves(),
                *self == *old(self),
                added@ == hashes_where(rows@.take(i as int), true),
                removed@ == hashes_where(rows@.take(i as int), false),
                forall|j: int|
                    0 <= j < i ==> leaves.contains((#[trigger] rows@[j]).0) == !rows@[j].1,
            decreases rows@.len() - i,
        {
            let digest: Digest = rows[i].0;
            let put: bool = rows[i].1;
            if self.contains(&digest) == put {
                proof {
                    crate::table::lemma_row_in_map(rows@, i as int);
                    assert(diff.changes().contains_key(digest));
                }
                return Err(UtreexoError);
            }
            assert(rows@.take(i + 1).drop_last() =~= rows@.take(i as int));
            if put {
                added.push(digest);
            } else {
                removed.push(digest);
            }
            i = i + 1;
        }
        proof {
            assert(rows@.take(i as int) =~= rows@);
            lemma_hashes_where(rows@, true);
            lemma_hashes_where(rows@, false);
            assert forall|h: Digest| #[trigger] map_of(rows@).contains_key(h) implies leaves.contains(
                h,
            ) == !map_of(rows@)[h] by {
                let j = choose|j: int| 0 <= j < rows@.len() && (#[trigger] rows@[j]).0 == h;
                crate::table::lemma_row_in_map(rows@, j);
            }
        }
        let mut forest = call_forest_new();
        std::mem::swap(&mut forest, &mut self.forest);
        call_forest_modify(&mut forest, added.as_slice(), removed.as_slice());
        proof {
            let change = diff.as_change();
            assert(change.added == added@ && change.removed == removed@);
            assert(forest_changes(forest).drop_last() =~= old(self).history());
        }
        self.forest = forest;
        proof {
            let change = diff.as_change();
            assert(self.history().drop_last() =~= old(self).history());
            assert(self.history().last() == change);
        }
        Ok(())
    }
}

impl Default for Accumulator {
    fn default() -> (accumulator: Self)
        ensures
            accumulator.history() == Seq::<ForestChange>::empty(),
            accumulator.leaves() == Set::<Digest>::empty(),
    {
        Accumulator::new()
    }
}

/// Every target is the hash of an output in the set.
pub open spec fn provable(leaves: Set<Digest>, targets: Seq<Digest>) -> bool {
    forall|i: int| 0 <= i < targets.len() ==> leaves.contains(#[trigger] targets[i])
}

/// Whatever is taken out is in the set, and whatever is put in is not.
pub open spec fn diff_fits(leaves: Set<Digest>, changes: Map<Digest, bool>) -> bool {
    forall|h: Digest| #[trigger] changes.contains_key(h) ==> leaves.contains(h) == !changes[h]
}

/// The output with the hash `h` is in the set after the changes.
pub open spec fn in_set_after(leaves: Set<Digest>, changes: Map<Digest, bool>, h: Digest) -> bool {
    if changes.contains_key(h) {
        changes[h]
    } else {
        leaves.contains(h)
    }
}

} // verus!
