//! Ordered tables: rows of a key and a value, kept in the order of their keys.
//!
//! The wallet's five stores, the destinations of a transfer and sets of
//! addresses are tables. What a table holds is a map; the rows list the same
//! pairs in key order.

use vstd::prelude::*;

verus! {

/// A key of a table: a plain value with a strict total order.
pub trait TableKey: Sized + Copy {
    /// The strict order of the keys.
    spec fn before(self, other: Self) -> bool;

    proof fn before_irreflexive(a: Self)
        ensures
            !a.before(a),
    ;

    proof fn before_transitive(a: Self, b: Self, c: Self)
        requires
            a.before(b),
            b.before(c),
        ensures
            a.before(c),
    ;

    proof fn before_total(a: Self, b: Self)
        ensures
            a == b || a.before(b) || b.before(a),
    ;

    /// Tells whether `self` comes strictly before `other`.
    fn is_before(&self, other: &Self) -> (before: bool)
        ensures
            before == (*self).before(*other),
    ;
}

impl TableKey for u32 {
    open spec fn before(self, other: u32) -> bool {
        self < other
    }

    proof fn before_irreflexive(a: u32) {
    }

    proof fn before_transitive(a: u32, b: u32, c: u32) {
    }

    proof fn before_total(a: u32, b: u32) {
    }

    fn is_before(&self, other: &u32) -> (before: bool) {
        *self < *other
    }
}

/// Every row's key comes before the keys of the rows behind it.
pub open spec fn rows_ordered<K: TableKey, V>(rows: Seq<(K, V)>) -> bool {
    forall|i: int, j: int|
        0 <= i < j < rows.len() ==> (#[trigger] rows[i]).0.before((#[trigger] rows[j]).0)
}

/// No key stands in two rows.
pub open spec fn keys_distinct<K, V>(rows: Seq<(K, V)>) -> bool {
    forall|i: int, j: int|
        0 <= i < rows.len() && 0 <= j < rows.len() && i != j ==> (#[trigger] rows[i]).0 != (
        #[trigger] rows[j]).0
}

/// Some row has the key `k`.
pub open spec fn has_row<K, V>(rows: Seq<(K, V)>, k: K) -> bool {
    exists|i: int| 0 <= i < rows.len() && (#[trigger] rows[i]).0 == k
}

/// The map that the rows spell out.
pub open spec fn map_of<K, V>(rows: Seq<(K, V)>) -> Map<K, V> {
    Map::new(
        |k: K| has_row(rows, k),
        |k: K| rows[choose|i: int| 0 <= i < rows.len() && (#[trigger] rows[i]).0 == k].1,
    )
}

/// Ordered rows have distinct keys.
pub proof fn lemma_ordered_distinct<K: TableKey, V>(rows: Seq<(K, V)>)
    requires
        rows_ordered(rows),
    ensures
        keys_distinct(rows),
{
    assert forall|i: int, j: int|
        0 <= i < rows.len() && 0 <= j < rows.len() && i != j implies (#[trigger] rows[i]).0 != (
    #[trigger] rows[j]).0 by {
        K::before_irreflexive(rows[i].0);
    }
}

/// Where keys are distinct, each row is what the map holds at its key.
pub proof fn lemma_row_in_map<K, V>(rows: Seq<(K, V)>, i: int)
    requires
        keys_distinct(rows),
        0 <= i < rows.len(),
    ensures
        map_of(rows).contains_key(rows[i].0),
        map_of(rows)[rows[i].0] == rows[i].1,
{
    let k = rows[i].0;
    assert(has_row(rows, k));
    let c = choose|c: int| 0 <= c < rows.len() && (#[trigger] rows[c]).0 == k;
    assert(rows[c].0 == rows[i].0);
}

/// A table of rows in the order of their keys.
pub struct Table<K: TableKey, V> {
    rows: Vec<(K, V)>,
}

impl<K: TableKey, V> View for Table<K, V> {
    type V = Map<K, V>;

    open spec fn view(&self) -> Map<K, V> {
        map_of(self.listing())
    }
}

impl<K: TableKey, V> Table<K, V> {
    /// The rows of the table, in key order.
    pub closed spec fn listing(self) -> Seq<(K, V)> {
        self.rows@
    }

    #[verifier::type_invariant]
    spec fn in_order(self) -> bool {
        rows_ordered(self.rows@)
    }

    /// An empty table.
    pub fn new() -> (table: Self)
        ensures
            table.listing() == Seq::<(K, V)>::empty(),
            table@ == Map::<K, V>::empty(),
    {
        let table = Table { rows: Vec::new() };
        assert(table@ =~= Map::<K, V>::empty());
        table
    }

    /// The rows, in key order.
    pub fn rows(&self) -> (rows: &Vec<(K, V)>)
        ensures
            rows@ == self.listing(),
            rows_ordered(rows@),
            keys_distinct(rows@),
    {
        proof {
            use_type_invariant(self);
            lemma_ordered_distinct(self.rows@);
        }
        &self.rows
    }

    /// The number of rows.
    pub fn len(&self) -> (len: usize)
        ensures
            len == self.listing().len(),
            len == self@.dom().len(),
            self@.dom().finite(),
    {
        proof {
            use_type_invariant(self);
            lemma_ordered_distinct(self.rows@);
            lemma_map_len(self.rows@);
        }
        self.rows.len()
    }

    /// The index of the first row whose key is not before `k`.
    fn position(&self, k: &K) -> (pos: usize)
        ensures
            pos <= self.rows@.len(),
            forall|i: int| 0 <= i < pos ==> (#[trigger] self.rows@[i]).0.before(*k),
            forall|i: int| pos <= i < self.rows@.len() ==> !(#[trigger] self.rows@[i]).0.before(*k),
    {
        proof {
            use_type_invariant(self);
        }
        let mut low: usize = 0;
        let mut high: usize = self.rows.len();
        while low < high
            invariant
                low <= high <= self.rows@.len(),
                rows_ordered(self.rows@),
                forall|i: int| 0 <= i < low ==> (#[trigger] self.rows@[i]).0.before(*k),
                forall|i: int|
                    high <= i < self.rows@.len() ==> !(#[trigger] self.rows@[i]).0.before(*k),
            decreases high - low,
        {
            let mid: usize = low + (high - low) / 2;
            if self.rows[mid].0.is_before(k) {
                assert forall|i: int| 0 <= i < mid + 1 implies (#[trigger] self.rows@[i]).0.before(
                    *k,
                ) by {
                    if i < mid {
                        K::before_transitive(self.rows@[i].0, self.rows@[mid as int].0, *k);
                    }
                }
                low = mid + 1;
            } else {
                assert forall|i: int| mid <= i < self.rows@.len() implies !(
                #[trigger] self.rows@[i]).0.before(*k) by {
                    if i > mid && self.rows@[i].0.before(*k) {
                        K::before_transitive(self.rows@[mid as int].0, self.rows@[i].0, *k);
                    }
                }
                high = mid;
            }
        }
        low
    }

    /// The index of the row with the key `k`, if there is one.
    fn find(&self, k: &K) -> (found: Option<usize>)
        ensures
            match found {
                Some(i) => i < self.rows@.len() && self.rows@[i as int].0 == *k,
                None => !has_row(self.rows@, *k),
            },
    {
        proof {
            use_type_invariant(self);
        }
        let pos: usize = self.position(k);
        if pos < self.rows.len() && !k.is_before(&self.rows[pos].0) {
            proof {
                K::before_total(self.rows@[pos as int].0, *k);
            }
            Some(pos)
        } else {
            proof {
                assert forall|i: int| 0 <= i < self.rows@.len() implies (
                #[trigger] self.rows@[i]).0 != *k by {
                    K::before_irreflexive(*k);
                    if pos < i {
                        K::before_transitive(*k, self.rows@[pos as int].0, self.rows@[i].0);
                    }
                }
            }
            None
        }
    }

    /// Tells whether the table has a row with the key `k`.
    pub fn contains(&self, k: &K) -> (found: bool)
        ensures
            found == self@.contains_key(*k),
    {
        self.find(k).is_some()
    }

    /// The value at the key `k`.
    pub fn get(&self, k: &K) -> (value: Option<&V>)
        ensures
            match value {
                Some(v) => self@.contains_key(*k) && self@[*k] == *v,
                None => !self@.contains_key(*k),
            },
    {
        proof {
            use_type_invariant(self);
            lemma_ordered_distinct(self.rows@);
        }
        match self.find(k) {
            Some(i) => {
                proof {
                    lemma_row_in_map(self.rows@, i as int);
                }
                Some(&self.rows[i].1)
            },
            None => None,
        }
    }

    /// The row with the greatest key.
    pub fn last(&self) -> (row: Option<&(K, V)>)
        ensures
            match row {
                Some(r) => self@.contains_key(r.0) && self@[r.0] == r.1 && forall|k: K| #[trigger]
                    self@.contains_key(k) ==> k == r.0 || k.before(r.0),
                None => self@ == Map::<K, V>::empty(),
            },
    {
        proof {
            use_type_invariant(self);
            lemma_ordered_distinct(self.rows@);
        }
        let n: usize = self.rows.len();
        if n == 0 {
            assert(self@ =~= Map::<K, V>::empty());
            None
        } else {
            proof {
                lemma_row_in_map(self.rows@, n - 1);
                assert forall|k: K| #[trigger] self@.contains_key(k) implies k == self.rows@[n
                    - 1].0 || k.before(self.rows@[n - 1].0) by {
                    assert(has_row(self.rows@, k));
                    let i = choose|i: int| 0 <= i < n && (#[trigger] self.rows@[i]).0 == k;
                    if i < n - 1 {
                        assert(self.rows@[i].0.before(self.rows@[n - 1].0));
                    }
                }
            }
            Some(&self.rows[n - 1])
        }
    }

    /// Puts the value `v` at the key `k`, in place of any value that stood there.
    pub fn put(&mut self, k: K, v: V)
        ensures
            final(self)@ == old(self)@.insert(k, v),
    {
        proof {
            use_type_invariant(&*self);
            lemma_ordered_distinct(self.rows@);
        }
        let pos: usize = self.position(&k);
        let mut rows: Vec<(K, V)> = Vec::new();
        let ghost before = self.rows@;
        let present: bool = pos < self.rows.len() && !k.is_before(&self.rows[pos].0);
        std::mem::swap(&mut rows, &mut self.rows);
        if present {
            proof {
                K::before_total(before[pos as int].0, k);
            }
            rows.set(pos, (k, v));
            proof {
                lemma_put_at(before, rows@, pos as int, k, v);
            }
        } else {
            proof {
                assert forall|i: int| pos <= i < before.len() implies k.before(
                    (#[trigger] before[i]).0,
                ) by {
                    if i > pos {
                        K::before_transitive(k, before[pos as int].0, before[i].0);
                    }
                }
                lemma_insert_at(before, pos as int, k, v);
            }
            rows.insert(pos, (k, v));
        }
        self.rows = rows;
    }

    /// Takes the row with the key `k` out of the table.
    pub fn remove(&mut self, k: &K) -> (removed: Option<V>)
        ensures
            final(self)@ == old(self)@.remove(*k),
            match removed {
                Some(v) => old(self)@.contains_key(*k) && old(self)@[*k] == v,
                None => !old(self)@.contains_key(*k),
            },
    {
        proof {
            use_type_invariant(&*self);
            lemma_ordered_distinct(self.rows@);
        }
        match self.find(k) {
            Some(i) => {
                let ghost before = self.rows@;
                let mut rows: Vec<(K, V)> = Vec::new();
                std::mem::swap(&mut rows, &mut self.rows);
                proof {
                    lemma_row_in_map(before, i as int);
                    lemma_remove_at(before, i as int);
                }
                let row: (K, V) = rows.remove(i);
                self.rows = rows;
                Some(row.1)
            },
            None => {
                assert(self@.remove(*k) =~= self@);
                None
            },
        }
    }

    /// Takes every row out of the table.
    pub fn clear(&mut self)
        ensures
            final(self)@ == Map::<K, V>::empty(),
    {
        self.rows = Vec::new();
        assert(self@ =~= Map::<K, V>::empty());
    }
}

/// A map spelt out by rows with distinct keys has as many keys as rows.
pub proof fn lemma_map_len<K, V>(rows: Seq<(K, V)>)
    requires
        keys_distinct(rows),
    ensures
        map_of(rows).dom().finite(),
        map_of(rows).dom().len() == rows.len(),
    decreases rows.len(),
{
    if rows.len() == 0 {
        assert(map_of(rows).dom() =~= Set::<K>::empty());
    } else {
        let rest = rows.drop_last();
        let last = rows.last();
        lemma_map_len(rest);
        assert(map_of(rows).dom() =~= map_of(rest).dom().insert(last.0)) by {
            assert forall|k: K| map_of(rows).dom().contains(k) implies map_of(rest).dom().insert(
                last.0,
            ).contains(k) by {
                let i = choose|i: int| 0 <= i < rows.len() && (#[trigger] rows[i]).0 == k;
                if i < rest.len() {
                    assert(rest[i].0 == k);
                }
            }
            assert forall|k: K| map_of(rest).dom().insert(last.0).contains(k) implies map_of(
                rows,
            ).dom().contains(k) by {
                if k == last.0 {
                    assert(rows[rows.len() - 1].0 == k);
                } else {
                    let i = choose|i: int| 0 <= i < rest.len() && (#[trigger] rest[i]).0 == k;
                    assert(rows[i].0 == k);
                }
            }
        }
        assert(!map_of(rest).dom().contains(last.0)) by {
            if has_row(rest, last.0) {
                let i = choose|i: int| 0 <= i < rest.len() && (#[trigger] rest[i]).0 == last.0;
                assert(rows[i].0 == rows[rows.len() - 1].0);
            }
        }
    }
}

/// There is one way to list a map in the order of its keys.
pub proof fn ordered_rows_are_determined_by_their_map<K: TableKey, V>(
    a: Seq<(K, V)>,
    b: Seq<(K, V)>,
)
    requires
        rows_ordered(a),
        rows_ordered(b),
        map_of(a) == map_of(b),
    ensures
        a == b,
    decreases a.len(),
{
    lemma_ordered_distinct(a);
    lemma_ordered_distinct(b);
    lemma_map_len(a);
    lemma_map_len(b);
    if a.len() == 0 {
        assert(a =~= b);
    } else {
        lemma_last_row(a, b);
        lemma_last_row(b, a);
        let (ka, kb) = (a.last().0, b.last().0);
        if ka != kb {
            K::before_transitive(ka, kb, ka);
            K::before_irreflexive(ka);
        }
        lemma_row_in_map(a, a.len() - 1);
        lemma_row_in_map(b, b.len() - 1);
        lemma_remove_at(a, a.len() - 1);
        lemma_remove_at(b, b.len() - 1);
        assert(a.remove(a.len() - 1) =~= a.drop_last());
        assert(b.remove(b.len() - 1) =~= b.drop_last());
        assert(rows_ordered(a.drop_last()) && rows_ordered(b.drop_last()));
        ordered_rows_are_determined_by_their_map(a.drop_last(), b.drop_last());
        assert(a =~= a.drop_last().push(a.last()));
        assert(b =~= b.drop_last().push(b.last()));
    }
}

/// The last key of a list is not behind the last key of another list of the same map.
proof fn lemma_last_row<K: TableKey, V>(a: Seq<(K, V)>, b: Seq<(K, V)>)
    requires
        rows_ordered(a),
        rows_ordered(b),
        a.len() > 0,
        b.len() > 0,
        map_of(a) == map_of(b),
    ensures
        a.last().0 == b.last().0 || a.last().0.before(b.last().0),
{
    let k = a.last().0;
    assert(a[a.len() - 1].0 == k);
    assert(map_of(a).contains_key(k));
    assert(map_of(b).contains_key(k));
    assert(has_row(b, k));
    let i = choose|i: int| 0 <= i < b.len() && (#[trigger] b[i]).0 == k;
    if i < b.len() - 1 {
        assert(b[i].0.before(b[b.len() - 1].0));
    }
}

/// Replacing the value of a row changes the map at that row's key alone.
proof fn lemma_put_at<K: TableKey, V>(
    before: Seq<(K, V)>,
    after: Seq<(K, V)>,
    pos: int,
    k: K,
    v: V,
)
    requires
        rows_ordered(before),
        0 <= pos < before.len(),
        before[pos].0 == k,
        after == before.update(pos, (k, v)),
    ensures
        rows_ordered(after),
        map_of(after) == map_of(before).insert(k, v),
{
    assert(forall|i: int| 0 <= i < after.len() ==> (#[trigger] after[i]).0 == before[i].0);
    lemma_ordered_distinct(before);
    assert(rows_ordered(after)) by {
        assert forall|i: int, j: int| 0 <= i < j < after.len() implies (
        #[trigger] after[i]).0.before((#[trigger] after[j]).0) by {
            assert(before[i].0.before(before[j].0));
        }
    }
    lemma_ordered_distinct(after);
    assert forall|x: K| #[trigger]
        map_of(after).contains_key(x) == map_of(before).insert(k, v).contains_key(x) by {
        if has_row(after, x) {
            let i = choose|i: int| 0 <= i < after.len() && (#[trigger] after[i]).0 == x;
            assert(before[i].0 == x);
        }
        if has_row(before, x) {
            let i = choose|i: int| 0 <= i < before.len() && (#[trigger] before[i]).0 == x;
            assert(after[i].0 == x);
        }
        assert(after[pos].0 == k);
    }
    assert forall|x: K| #[trigger] map_of(after).contains_key(x) implies map_of(after)[x]
        == map_of(before).insert(k, v)[x] by {
        let i = choose|i: int| 0 <= i < after.len() && (#[trigger] after[i]).0 == x;
        lemma_row_in_map(after, i);
        lemma_row_in_map(before, i);
    }
    assert(map_of(after) =~= map_of(before).insert(k, v));
}

/// Inserting a row at its place adds its pair to the map.
proof fn lemma_insert_at<K: TableKey, V>(before: Seq<(K, V)>, pos: int, k: K, v: V)
    requires
        rows_ordered(before),
        0 <= pos <= before.len(),
        forall|i: int| 0 <= i < pos ==> (#[trigger] before[i]).0.before(k),
        forall|i: int| pos <= i < before.len() ==> k.before((#[trigger] before[i]).0),
    ensures
        rows_ordered(before.insert(pos, (k, v))),
        map_of(before.insert(pos, (k, v))) == map_of(before).insert(k, v),
{
    let after = before.insert(pos, (k, v));
    assert(forall|i: int| 0 <= i < pos ==> #[trigger] after[i] == before[i]);
    assert(forall|i: int| pos < i < after.len() ==> #[trigger] after[i] == before[i - 1]);
    assert(after[pos] == (k, v));
    assert forall|i: int, j: int| 0 <= i < j < after.len() implies (#[trigger] after[i]).0.before(
        (#[trigger] after[j]).0,
    ) by {
        if j < pos {
            assert(before[i].0.before(before[j].0));
        } else if j == pos {
        } else if i < pos {
            assert(before[i].0.before(before[j - 1].0));
        } else if i == pos {
            assert(k.before(before[j - 1].0));
        } else {
            assert(before[i - 1].0.before(before[j - 1].0));
        }
    }
    lemma_ordered_distinct(before);
    lemma_ordered_distinct(after);
    assert forall|x: K| #[trigger]
        map_of(after).contains_key(x) == map_of(before).insert(k, v).contains_key(x) by {
        if has_row(after, x) {
            let i = choose|i: int| 0 <= i < after.len() && (#[trigger] after[i]).0 == x;
            if i < pos {
                assert(before[i].0 == x);
            } else if i > pos {
                assert(before[i - 1].0 == x);
            }
        }
        if has_row(before, x) {
            let i = choose|i: int| 0 <= i < before.len() && (#[trigger] before[i]).0 == x;
            if i < pos {
                assert(after[i].0 == x);
            } else {
                assert(after[i + 1].0 == x);
            }
        }
        assert(after[pos].0 == k);
    }
    assert forall|x: K| #[trigger] map_of(after).contains_key(x) implies map_of(after)[x]
        == map_of(before).insert(k, v)[x] by {
        let i = choose|i: int| 0 <= i < after.len() && (#[trigger] after[i]).0 == x;
        lemma_row_in_map(after, i);
        if i < pos {
            lemma_row_in_map(before, i);
        } else if i > pos {
            lemma_row_in_map(before, i - 1);
        }
    }
    assert(map_of(after) =~= map_of(before).insert(k, v));
}

/// Removing a row takes its key out of the map.
proof fn lemma_remove_at<K: TableKey, V>(before: Seq<(K, V)>, pos: int)
    requires
        rows_ordered(before),
        0 <= pos < before.len(),
    ensures
        rows_ordered(before.remove(pos)),
        map_of(before.remove(pos)) == map_of(before).remove(before[pos].0),
{
    let after = before.remove(pos);
    let k = before[pos].0;
    assert(forall|i: int| 0 <= i < pos ==> #[trigger] after[i] == before[i]);
    assert(forall|i: int| pos <= i < after.len() ==> #[trigger] after[i] == before[i + 1]);
    assert forall|i: int, j: int| 0 <= i < j < after.len() implies (#[trigger] after[i]).0.before(
        (#[trigger] after[j]).0,
    ) by {
        let bi = if i < pos { i } else { i + 1 };
        let bj = if j < pos { j } else { j + 1 };
        assert(before[bi].0.before(before[bj].0));
    }
    lemma_ordered_distinct(before);
    lemma_ordered_distinct(after);
    assert forall|x: K| #[trigger]
        map_of(after).contains_key(x) == map_of(before).remove(k).contains_key(x) by {
        if has_row(after, x) {
            let i = choose|i: int| 0 <= i < after.len() && (#[trigger] after[i]).0 == x;
            let bi = if i < pos { i } else { i + 1 };
            assert(before[bi].0 == x);
            assert(before[pos].0 != before[bi].0);
        }
        if has_row(before, x) && x != k {
            let i = choose|i: int| 0 <= i < before.len() && (#[trigger] before[i]).0 == x;
            let ai = if i < pos { i } else { i - 1 };
            assert(after[ai].0 == x);
        }
    }
    assert forall|x: K| #[trigger] map_of(after).contains_key(x) implies map_of(after)[x]
        == map_of(before).remove(k)[x] by {
        let i = choose|i: int| 0 <= i < after.len() && (#[trigger] after[i]).0 == x;
        lemma_row_in_map(after, i);
        lemma_row_in_map(before, if i < pos { i } else { i + 1 });
    }
    assert(map_of(after) =~= map_of(before).remove(k));
}

} // verus!
