//! The wallet's coins: keeping them, counting them and choosing among them.

use rayon::slice::ParallelSliceMut;
use vstd::prelude::*;

use crate::amount::{Amount, AmountOverflowError};
use crate::derivation::{DeriveError, Step, Xpriv};
use crate::table::{has_row, keys_distinct, lemma_row_in_map, map_of, Table};
use crate::types::{value_of, GetValue, InPoint, OutPoint, Output, SpentOutput};

use super::{Balance, Error, Wallet, WalletView};

verus! {

/// What an output counts for: its value, or, where only what is available counts
/// (`!all`), nothing if it is a withdrawal.
pub open spec fn weight(output: Output, all: bool) -> nat {
    if all || !(output.content is Withdrawal) {
        value_of(output).sats as nat
    } else {
        0
    }
}

/// What all outputs of a list count for.
pub open spec fn sum(coins: Seq<(OutPoint, Output)>, all: bool) -> nat
    decreases coins.len(),
{
    if coins.len() == 0 {
        0
    } else {
        sum(coins.drop_last(), all) + weight(coins.last().1, all)
    }
}

/// What all outputs of a finite map count for.
pub open spec fn map_sum(m: Map<OutPoint, Output>, all: bool) -> nat
    decreases m.dom().len(),
{
    if m.dom().finite() && m.dom().len() > 0 {
        let o = m.dom().choose();
        weight(m[o], all) + map_sum(m.remove(o), all)
    } else {
        0
    }
}

/// What the coins of a list are worth.
pub open spec fn worth(coins: Seq<(OutPoint, Output)>) -> nat {
    sum(coins, true)
}

/// Any output can be counted first.
pub proof fn lemma_map_sum_remove(m: Map<OutPoint, Output>, o: OutPoint, all: bool)
    requires
        m.dom().finite(),
        m.contains_key(o),
    ensures
        map_sum(m, all) == weight(m[o], all) + map_sum(m.remove(o), all),
    decreases m.dom().len(),
{
    let c = m.dom().choose();
    assert(m.dom().contains(c));
    assert(m.remove(c).dom() =~= m.dom().remove(c));
    assert(m.remove(o).dom() =~= m.dom().remove(o));
    if c != o {
        lemma_map_sum_remove(m.remove(c), o, all);
        lemma_map_sum_remove(m.remove(o), c, all);
        assert(m.remove(c).remove(o) =~= m.remove(o).remove(c));
    }
}

/// A list of outputs at distinct outpoints counts for what its map counts for.
pub proof fn lemma_sum_of_rows(rows: Seq<(OutPoint, Output)>, all: bool)
    requires
        keys_distinct(rows),
    ensures
        map_of(rows).dom().finite(),
        sum(rows, all) == map_sum(map_of(rows), all),
    decreases rows.len(),
{
    crate::table::lemma_map_len(rows);
    if rows.len() > 0 {
        let rest = rows.drop_last();
        let last = rows.last();
        assert(keys_distinct(rest)) by {
            assert forall|i: int, j: int|
                0 <= i < rest.len() && 0 <= j < rest.len() && i != j implies (
            #[trigger] rest[i]).0 != (#[trigger] rest[j]).0 by {
                assert(rows[i].0 != rows[j].0);
            }
        }
        lemma_sum_of_rows(rest, all);
        lemma_row_in_map(rows, rows.len() - 1);
        lemma_map_sum_remove(map_of(rows), last.0, all);
        assert(map_of(rows).remove(last.0) =~= map_of(rest)) by {
            assert forall|o: OutPoint| #[trigger]
                map_of(rows).remove(last.0).contains_key(o) implies map_of(rest).contains_key(o)
                && map_of(rest)[o] == map_of(rows).remove(last.0)[o] by {
                let i = choose|i: int| 0 <= i < rows.len() && (#[trigger] rows[i]).0 == o;
                assert(rest[i] == rows[i]);
                lemma_row_in_map(rows, i);
                lemma_row_in_map(rest, i);
            }
            assert forall|o: OutPoint| #[trigger] map_of(rest).contains_key(o) implies map_of(
                rows,
            ).remove(last.0).contains_key(o) by {
                let i = choose|i: int| 0 <= i < rest.len() && (#[trigger] rest[i]).0 == o;
                assert(rows[i].0 == o);
                assert(rows[i].0 != rows[rows.len() - 1].0);
            }
        }
    }
}

/// The front of a list counts for no more than the list.
pub proof fn lemma_sum_take(coins: Seq<(OutPoint, Output)>, n: int, all: bool)
    requires
        0 <= n <= coins.len(),
    ensures
        sum(coins.take(n), all) <= sum(coins, all),
    decreases coins.len(),
{
    if n < coins.len() {
        lemma_sum_take(coins.drop_last(), n, all);
        assert(coins.drop_last().take(n) =~= coins.take(n));
    } else {
        assert(coins.take(n) =~= coins);
    }
}

/// One more coin of the front.
pub proof fn lemma_sum_next(coins: Seq<(OutPoint, Output)>, n: int, all: bool)
    requires
        0 <= n < coins.len(),
    ensures
        sum(coins.take(n + 1), all) == sum(coins.take(n), all) + weight(coins[n].1, all),
        sum(coins.take(n + 1), all) <= sum(coins, all),
{
    assert(coins.take(n + 1).drop_last() =~= coins.take(n));
    lemma_sum_take(coins, n + 1, all);
}

/// What is available is no more than the total.
pub proof fn lemma_available_within_total(coins: Seq<(OutPoint, Output)>)
    ensures
        sum(coins, false) <= sum(coins, true),
    decreases coins.len(),
{
    if coins.len() > 0 {
        lemma_available_within_total(coins.drop_last());
    }
}

/// Spending one output: it is no longer unspent, and it is remembered with where it
/// was spent. What is not there is passed over.
pub open spec fn spent_one(w: WalletView, outpoint: OutPoint, inpoint: InPoint) -> WalletView {
    if w.utxos.contains_key(outpoint) {
        WalletView {
            utxos: w.utxos.remove(outpoint),
            stxos: w.stxos.insert(
                outpoint,
                SpentOutput { output: w.utxos[outpoint], inpoint },
            ),
            ..w
        }
    } else {
        w
    }
}

/// Spending outputs, one after the other.
pub open spec fn spent(w: WalletView, list: Seq<(OutPoint, InPoint)>) -> WalletView
    decreases list.len(),
{
    if list.len() == 0 {
        w
    } else {
        spent_one(spent(w, list.drop_last()), list.last().0, list.last().1)
    }
}

/// The coins in the order of their values.
pub open spec fn sorted_by_value(coins: Seq<(OutPoint, Output)>) -> bool {
    forall|i: int, j: int|
        0 <= i <= j < coins.len() ==> value_of((#[trigger] coins[i]).1).sats <= value_of(
            (#[trigger] coins[j]).1,
        ).sats
}

/// The list has each of the outputs once, in the order of their values.
pub open spec fn is_ordering(m: Map<OutPoint, Output>, order: Seq<(OutPoint, Output)>) -> bool {
    &&& keys_distinct(order)
    &&& map_of(order) == m
    &&& sorted_by_value(order)
}

/// `par_sort_unstable_by_key` of rayon, by value: the claim is that the list keeps
/// its rows and comes into the order of their values. In which order rows of one
/// value come is left unsaid.
#[verifier::external_body]
fn call_par_sort(coins: &mut Vec<(OutPoint, Output)>)
    ensures
        final(coins)@.to_multiset() == old(coins)@.to_multiset(),
        sorted_by_value(final(coins)@),
{
    coins.par_sort_unstable_by_key(|coin| coin.1.get_value().to_sat());
}

/// Rows in another order spell out the same map.
proof fn lemma_reordered(a: Seq<(OutPoint, Output)>, b: Seq<(OutPoint, Output)>)
    requires
        keys_distinct(a),
        a.to_multiset() == b.to_multiset(),
    ensures
        keys_distinct(b),
        map_of(a) == map_of(b),
{
    assert(a.no_duplicates()) by {
        assert forall|i: int, j: int|
            0 <= i < a.len() && 0 <= j < a.len() && i != j implies a[i] != a[j] by {
            assert(a[i].0 != a[j].0);
        }
    }
    a.lemma_multiset_has_no_duplicates();
    b.lemma_multiset_has_no_duplicates_conv();
    a.to_multiset_ensures();
    b.to_multiset_ensures();
    assert forall|x: (OutPoint, Output)| #[trigger] a.contains(x) == b.contains(x) by {
        assert(a.contains(x) == (a.to_multiset().count(x) > 0));
        assert(b.contains(x) == (b.to_multiset().count(x) > 0));
    }
    assert forall|i: int, j: int|
        0 <= i < b.len() && 0 <= j < b.len() && i != j implies (#[trigger] b[i]).0 != (
    #[trigger] b[j]).0 by {
        assert(b.contains(b[i]) && b.contains(b[j]));
        assert(a.contains(b[i]) && a.contains(b[j]));
        let s = choose|s: int| 0 <= s < a.len() && a[s] == b[i];
        let t = choose|t: int| 0 <= t < a.len() && a[t] == b[j];
        if b[i].0 == b[j].0 {
            assert(a[s].0 == a[t].0);
            assert(s == t);
        }
    }
    assert forall|o: OutPoint| #[trigger] map_of(a).contains_key(o) implies map_of(b).contains_key(
        o,
    ) && map_of(b)[o] == map_of(a)[o] by {
        let i = choose|i: int| 0 <= i < a.len() && (#[trigger] a[i]).0 == o;
        assert(a.contains(a[i]));
        assert(b.contains(a[i]));
        let j = choose|j: int| 0 <= j < b.len() && b[j] == a[i];
        lemma_row_in_map(a, i);
        lemma_row_in_map(b, j);
    }
    assert forall|o: OutPoint| #[trigger] map_of(b).contains_key(o) implies map_of(a).contains_key(
        o,
    ) by {
        let j = choose|j: int| 0 <= j < b.len() && (#[trigger] b[j]).0 == o;
        assert(b.contains(b[j]));
        assert(a.contains(b[j]));
        let i = choose|i: int| 0 <= i < a.len() && a[i] == b[j];
        lemma_row_in_map(a, i);
    }
    assert(map_of(a) =~= map_of(b));
}

/// What `is_locked` answered on the coins of a list.
pub open spec fn answers<F: Fn(&OutPoint) -> bool>(
    is_locked: F,
    coins: Seq<(OutPoint, Output)>,
    locked: Seq<bool>,
) -> bool {
    &&& locked.len() == coins.len()
    &&& forall|i: int|
        0 <= i < coins.len() ==> is_locked.ensures((&(#[trigger] coins[i]).0,), locked[i])
}

/// The coins of a list that may be spent: those that are neither withdrawals nor
/// locked.
pub open spec fn spendable(coins: Seq<(OutPoint, Output)>, locked: Seq<bool>) -> Seq<
    (OutPoint, Output),
>
    decreases coins.len(),
{
    if coins.len() == 0 {
        Seq::empty()
    } else {
        let rest = spendable(coins.drop_last(), locked);
        if coins.last().1.content is Withdrawal || locked[coins.len() - 1] {
            rest
        } else {
            rest.push(coins.last())
        }
    }
}

/// The first `k` coins, and no fewer, are worth at least `value`.
pub open spec fn is_shortest(coins: Seq<(OutPoint, Output)>, value: u64, k: int) -> bool {
    &&& 0 <= k <= coins.len()
    &&& worth(coins.take(k)) >= value
    &&& forall|j: int| 0 <= j < k ==> worth(#[trigger] coins.take(j)) < value
}

/// The coins chosen to pay `value`: as few as suffice, from the front of the list.
pub open spec fn coin_choice(coins: Seq<(OutPoint, Output)>, value: u64) -> Result<
    (Amount, Seq<(OutPoint, Output)>),
    Error,
> {
    if worth(coins) < value {
        Err(Error::NotEnoughFunds)
    } else {
        let chosen = coins.take(choose|k: int| is_shortest(coins, value, k));
        if worth(chosen) > u64::MAX {
            Err(Error::AmountOverflow(AmountOverflowError))
        } else {
            Ok((Amount { sats: worth(chosen) as u64 }, chosen))
        }
    }
}

/// A choice of coins as a mathematical value.
pub open spec fn choice_view(choice: Result<(Amount, Vec<(OutPoint, Output)>), Error>) -> Result<
    (Amount, Seq<(OutPoint, Output)>),
    Error,
> {
    match choice {
        Ok((total, coins)) => Ok((total, coins@)),
        Err(error) => Err(error),
    }
}

/// The choices of coins that `is_locked` and the order of coins of one value leave
/// open.
pub open spec fn may_choose<F: Fn(&OutPoint) -> bool>(
    utxos: Map<OutPoint, Output>,
    is_locked: F,
    value: Amount,
    choice: Result<(Amount, Seq<(OutPoint, Output)>), Error>,
) -> bool {
    exists|order: Seq<(OutPoint, Output)>, locked: Seq<bool>| #[trigger]
        is_ordering(utxos, order) && #[trigger] answers(is_locked, order, locked) && choice
            == coin_choice(spendable(order, locked), value.sats)
}

/// Only one number of coins is the shortest.
pub proof fn lemma_shortest_unique(coins: Seq<(OutPoint, Output)>, value: u64, a: int, b: int)
    requires
        is_shortest(coins, value, a),
        is_shortest(coins, value, b),
    ensures
        a == b,
{
    if a < b {
        assert(worth(coins.take(a)) < value);
    } else if b < a {
        assert(worth(coins.take(b)) < value);
    }
}

/// Chooses coins to pay `value`: from the front of the list, as few as suffice.
pub fn choose_coins(coins: &Vec<(OutPoint, Output)>, value: Amount) -> (choice: Result<
    (Amount, Vec<(OutPoint, Output)>),
    Error,
>)
    ensures
        choice_view(choice) == coin_choice(coins@, value.sats),
{
    let mut selected: Vec<(OutPoint, Output)> = Vec::new();
    let mut total: Amount = Amount::from_sat(0);
    let mut i: usize = 0;
    assert(coins@.take(0) =~= Seq::<(OutPoint, Output)>::empty());
    while i < coins.len() && total.sats < value.sats
        invariant
            i <= coins@.len(),
            selected@ == coins@.take(i as int),
            total.sats == worth(coins@.take(i as int)),
            forall|j: int| 0 <= j < i ==> worth(#[trigger] coins@.take(j)) < value.sats,
        decreases coins@.len() - i,
    {
        let coin: (OutPoint, Output) = coins[i];
        proof {
            lemma_sum_next(coins@, i as int, true);
        }
        total =
        match total.checked_add(coin.1.get_value()) {
            Some(t) => t,
            None => {
                proof {
                    assert(is_shortest(coins@, value.sats, i + 1)) by {
                        assert forall|j: int| 0 <= j < i + 1 implies worth(
                            #[trigger] coins@.take(j),
                        ) < value.sats by {}
                    }
                    let k = choose|k: int| is_shortest(coins@, value.sats, k);
                    lemma_shortest_unique(coins@, value.sats, i + 1, k);
                }
                return Err(Error::AmountOverflow(AmountOverflowError));
            },
        };
        selected.push(coin);
        assert(selected@ =~= coins@.take(i + 1));
        i = i + 1;
    }
    if total.sats < value.sats {
        assert(coins@.take(i as int) =~= coins@);
        return Err(Error::NotEnoughFunds);
    }
    proof {
        lemma_sum_take(coins@, i as int, true);
        assert(is_shortest(coins@, value.sats, i as int));
        let k = choose|k: int| is_shortest(coins@, value.sats, k);
        lemma_shortest_unique(coins@, value.sats, i as int, k);
    }
    Ok((total, selected))
}

impl<D: Fn(Step) -> Result<Xpriv, DeriveError>> Wallet<D> {
    /// The unspent outputs.
    pub fn get_utxos(&self) -> (utxos: &Table<OutPoint, Output>)
        ensures
            utxos@ == self@.utxos,
    {
        &self.tables.utxos
    }

    /// Adds unspent outputs.
    pub fn put_utxos(&mut self, utxos: &Table<OutPoint, Output>)
        ensures
            final(self).tree == old(self).tree,
            final(self)@ == (WalletView {
                utxos: old(self)@.utxos.union_prefer_right(utxos@),
                ..old(self)@
            }),
    {
        let rows: &Vec<(OutPoint, Output)> = utxos.rows();
        let ghost before = self@;
        let mut i: usize = 0;
        assert(map_of(rows@.take(0)) =~= Map::<OutPoint, Output>::empty());
        assert(self@.utxos =~= before.utxos.union_prefer_right(map_of(rows@.take(0))));
        while i < rows.len()
            invariant
                i <= rows@.len(),
                keys_distinct(rows@),
                self.tree == old(self).tree,
                self@ == (WalletView {
                    utxos: before.utxos.union_prefer_right(map_of(rows@.take(i as int))),
                    ..before
                }),
            decreases rows@.len() - i,
        {
            self.tables.utxos.put(rows[i].0, rows[i].1);
            proof {
                lemma_map_of_next(rows@, i as int);
                assert(self@.utxos =~= before.utxos.union_prefer_right(map_of(rows@.take(i + 1))));
            }
            i = i + 1;
        }
        assert(rows@.take(i as int) =~= rows@);
    }

    /// Forgets unspent outputs.
    pub fn delete_utxos(&mut self, outpoints: &[OutPoint])
        ensures
            final(self).tree == old(self).tree,
            final(self)@ == (WalletView {
                utxos: old(self)@.utxos.remove_keys(outpoints@.to_set()),
                ..old(self)@
            }),
    {
        let ghost before = self@;
        let mut i: usize = 0;
        assert(self@.utxos =~= before.utxos.remove_keys(outpoints@.take(0).to_set()));
        while i < outpoints.len()
            invariant
                i <= outpoints@.len(),
                self.tree == old(self).tree,
                self@ == (WalletView {
                    utxos: before.utxos.remove_keys(outpoints@.take(i as int).to_set()),
                    ..before
                }),
            decreases outpoints@.len() - i,
        {
            let removed = self.tables.utxos.remove(&outpoints[i]);
            proof {
                let now = outpoints@.take(i as int);
                let next = outpoints@.take(i + 1);
                assert(next =~= now.push(outpoints@[i as int]));
                assert(next.to_set() =~= now.to_set().insert(outpoints@[i as int])) by {
                    assert forall|o: OutPoint| next.contains(o) implies now.contains(o) || o
                        == outpoints@[i as int] by {
                        let j = choose|j: int| 0 <= j < next.len() && next[j] == o;
                        if j < now.len() {
                            assert(now[j] == o);
                        }
                    }
                    assert forall|o: OutPoint| now.contains(o) implies next.contains(o) by {
                        let j = choose|j: int| 0 <= j < now.len() && now[j] == o;
                        assert(next[j] == o);
                    }
                    assert(next[i as int] == outpoints@[i as int]);
                }
                assert(self@.utxos =~= before.utxos.remove_keys(next.to_set()));
            }
            i = i + 1;
        }
        assert(outpoints@.take(i as int) =~= outpoints@);
    }

    /// Spends outputs: each one that the wallet has is moved to the spent ones, with
    /// where it was spent.
    pub fn spend_utxos(&mut self, list: &[(OutPoint, InPoint)])
        ensures
            final(self).tree == old(self).tree,
            final(self)@ == spent(old(self)@, list@),
    {
        let ghost before = self@;
        let mut i: usize = 0;
        while i < list.len()
            invariant
                i <= list@.len(),
                self.tree == old(self).tree,
                self@ == spent(before, list@.take(i as int)),
            decreases list@.len() - i,
        {
            let (outpoint, inpoint) = list[i];
            assert(list@.take(i + 1).drop_last() =~= list@.take(i as int));
            if let Some(output) = self.tables.utxos.remove(&outpoint) {
                self.tables.stxos.put(outpoint, SpentOutput { output, inpoint });
            } else {
                assert(self@.utxos =~= spent(before, list@.take(i as int)).utxos);
            }
            i = i + 1;
        }
        assert(list@.take(i as int) =~= list@);
    }

    /// What the wallet holds, unless it is more than an amount can hold.
    pub fn get_balance(&self) -> (result: Result<Balance, Error>)
        ensures
            match result {
                Ok(balance) => {
                    &&& balance.total.sats == map_sum(self@.utxos, true)
                    &&& balance.available.sats == map_sum(self@.utxos, false)
                },
                Err(e) => map_sum(self@.utxos, true) > u64::MAX && e == Error::AmountOverflow(
                    AmountOverflowError,
                ),
            },
    {
        let rows: &Vec<(OutPoint, Output)> = self.tables.utxos.rows();
        let mut balance = Balance {
            total: Amount::from_sat(0),
            available: Amount::from_sat(0),
        };
        proof {
            lemma_sum_of_rows(rows@, true);
            lemma_sum_of_rows(rows@, false);
        }
        let mut i: usize = 0;
        while i < rows.len()
            invariant
                i <= rows@.len(),
                sum(rows@, true) == map_sum(self@.utxos, true),
                balance.total.sats == sum(rows@.take(i as int), true),
                balance.available.sats == sum(rows@.take(i as int), false),
            decreases rows@.len() - i,
        {
            let output: Output = rows[i].1;
            let value: Amount = output.get_value();
            proof {
                lemma_sum_next(rows@, i as int, true);
                lemma_sum_next(rows@, i as int, false);
                lemma_available_within_total(rows@.take(i + 1));
            }
            balance.total =
            match balance.total.checked_add(value) {
                Some(t) => t,
                None => {
                    return Err(Error::AmountOverflow(AmountOverflowError));
                },
            };
            if !output.content.is_withdrawal() {
                balance.available =
                match balance.available.checked_add(value) {
                    Some(a) => a,
                    None => {
                        return Err(Error::AmountOverflow(AmountOverflowError));
                    },
                };
            }
            i = i + 1;
        }
        assert(rows@.take(i as int) =~= rows@);
        Ok(balance)
    }

    /// The unspent outputs in the order of their values.
    fn utxos_by_value(&self) -> (order: Vec<(OutPoint, Output)>)
        ensures
            is_ordering(self@.utxos, order@),
    {
        let rows: &Vec<(OutPoint, Output)> = self.tables.utxos.rows();
        let mut order: Vec<(OutPoint, Output)> = Vec::new();
        let mut i: usize = 0;
        while i < rows.len()
            invariant
                i <= rows@.len(),
                order@ == rows@.take(i as int),
            decreases rows@.len() - i,
        {
            order.push(rows[i]);
            assert(order@ =~= rows@.take(i + 1));
            i = i + 1;
        }
        assert(order@ =~= rows@);
        call_par_sort(&mut order);
        proof {
            lemma_reordered(rows@, order@);
        }
        order
    }

    /// Chooses coins to pay `value`, the smallest first. Withdrawals are left out,
    /// and so are the coins that `is_locked` says are locked to a swap.
    pub fn select_coins_with_filter<F: Fn(&OutPoint) -> bool>(
        &self,
        value: Amount,
        is_locked: F,
    ) -> (choice: Result<(Amount, Vec<(OutPoint, Output)>), Error>)
        requires
            forall|o: &OutPoint| is_locked.requires((o,)),
        ensures
            may_choose(self@.utxos, is_locked, value, choice_view(choice)),
    {
        let order: Vec<(OutPoint, Output)> = self.utxos_by_value();
        let mut coins: Vec<(OutPoint, Output)> = Vec::new();
        let ghost mut locked: Seq<bool> = Seq::empty();
        let mut i: usize = 0;
        while i < order.len()
            invariant
                i <= order@.len(),
                forall|o: &OutPoint| is_locked.requires((o,)),
                answers(is_locked, order@.take(i as int), locked),
                coins@ == spendable(order@.take(i as int), locked),
            decreases order@.len() - i,
        {
            let coin: (OutPoint, Output) = order[i];
            let lock: bool = is_locked(&coin.0);
            if !coin.1.content.is_withdrawal() && !lock {
                coins.push(coin);
            }
            proof {
                let before = order@.take(i as int);
                let after = order@.take(i + 1);
                assert(after.drop_last() =~= before);
                lemma_spendable_prefix(before, locked, locked.push(lock));
                locked = locked.push(lock);
                assert forall|j: int| 0 <= j < after.len() implies is_locked.ensures(
                    (&(#[trigger] after[j]).0,),
                    locked[j],
                ) by {
                    if j < i {
                        assert(after[j] == before[j]);
                    }
                }
            }
            i = i + 1;
        }
        assert(order@.take(i as int) =~= order@);
        assert(is_ordering(self@.utxos, order@) && answers(is_locked, order@, locked));
        choose_coins(&coins, value)
    }

    /// Chooses coins to pay `value`, the smallest first. Withdrawals are left out.
    pub fn select_coins(&self, value: Amount) -> (choice: Result<
        (Amount, Vec<(OutPoint, Output)>),
        Error,
    >)
        ensures
            exists|order: Seq<(OutPoint, Output)>| #[trigger]
                is_ordering(self@.utxos, order) && choice_view(choice) == coin_choice(
                    spendable(order, Seq::new(order.len(), |i: int| false)),
                    value.sats,
                ),
    {
        let never = |o: &OutPoint| -> (locked: bool)
            ensures
                !locked,
            { false };
        let choice = self.select_coins_with_filter(value, never);
        proof {
            let (order, locked) = choose|order: Seq<(OutPoint, Output)>, locked: Seq<bool>|
                #[trigger]
                is_ordering(self@.utxos, order) && #[trigger] answers(never, order, locked)
                    && choice_view(choice) == coin_choice(spendable(order, locked), value.sats);
            assert(locked =~= Seq::new(order.len(), |i: int| false)) by {
                assert forall|i: int| 0 <= i < locked.len() implies !locked[i] by {
                    assert(never.ensures((&order[i].0,), locked[i]));
                }
            }
        }
        choice
    }
}

/// Only the answers on the coins of the list count.
proof fn lemma_spendable_prefix(coins: Seq<(OutPoint, Output)>, a: Seq<bool>, b: Seq<bool>)
    requires
        a.len() >= coins.len(),
        b.len() >= coins.len(),
        forall|i: int| 0 <= i < coins.len() ==> a[i] == b[i],
    ensures
        spendable(coins, a) == spendable(coins, b),
    decreases coins.len(),
{
    if coins.len() > 0 {
        lemma_spendable_prefix(coins.drop_last(), a, b);
    }
}

/// One more row puts its pair into the map.
proof fn lemma_map_of_next(rows: Seq<(OutPoint, Output)>, i: int)
    requires
        keys_distinct(rows),
        0 <= i < rows.len(),
    ensures
        map_of(rows.take(i + 1)) == map_of(rows.take(i)).insert(rows[i].0, rows[i].1),
{
    let (now, next) = (rows.take(i), rows.take(i + 1));
    assert(keys_distinct(now)) by {
        assert forall|a: int, b: int| 0 <= a < i && 0 <= b < i && a != b implies (
        #[trigger] now[a]).0 != (#[trigger] now[b]).0 by {
            assert(rows[a].0 != rows[b].0);
        }
    }
    assert(keys_distinct(next)) by {
        assert forall|a: int, b: int| 0 <= a < i + 1 && 0 <= b < i + 1 && a != b implies (
        #[trigger] next[a]).0 != (#[trigger] next[b]).0 by {
            assert(rows[a].0 != rows[b].0);
        }
    }
    assert forall|o: OutPoint| #[trigger] map_of(next).contains_key(o) implies map_of(now).insert(
        rows[i].0,
        rows[i].1,
    ).contains_key(o) && map_of(next)[o] == map_of(now).insert(rows[i].0, rows[i].1)[o] by {
        let j = choose|j: int| 0 <= j < next.len() && (#[trigger] next[j]).0 == o;
        lemma_row_in_map(next, j);
        if j < i {
            assert(now[j] == next[j]);
            lemma_row_in_map(now, j);
            assert(rows[j].0 != rows[i].0);
        }
    }
    assert forall|o: OutPoint| #[trigger]
        map_of(now).insert(rows[i].0, rows[i].1).contains_key(o) implies map_of(next).contains_key(
        o,
    ) by {
        if o == rows[i].0 {
            assert(next[i].0 == o);
        } else {
            assert(has_row(now, o));
            let j = choose|j: int| 0 <= j < now.len() && (#[trigger] now[j]).0 == o;
            assert(next[j].0 == o);
        }
    }
    assert(map_of(next) =~= map_of(now).insert(rows[i].0, rows[i].1));
}

} // verus!
