//! Which outputs a transaction spends, and what outputs are worth.

use rayon::slice::ParallelSliceMut;
use vstd::prelude::*;

use crate::table::{distinct_keys, lemma_rows_map, lemma_same_rows, lists, rows_map, Table};
use crate::types::{Address, Balance, Error, OutPoint, Output, OutputContent};

verus! {

/// An output with what created it.
pub type Coin = (OutPoint, Output);

/// The coins are in ascending order of their values.
pub open spec fn by_value(coins: Seq<Coin>) -> bool {
    forall|i: int, j: int|
        0 <= i < j < coins.len() ==> (#[trigger] coins[i]).1.value() <= (
        #[trigger] coins[j]).1.value()
}

/// The coins that are no withdrawals, in the same order.
pub open spec fn spendable(coins: Seq<Coin>) -> Seq<Coin> {
    coins.filter(|coin: Coin| !(coin.1.content is Withdrawal))
}

/// The sum of the values.
pub open spec fn worth(coins: Seq<Coin>) -> nat
    decreases coins.len(),
{
    if coins.len() == 0 {
        0
    } else {
        worth(coins.drop_last()) + coins.last().1.value() as nat
    }
}

/// How many of the coins are taken, from the first on, where `n` of them are
/// taken already: one more as long as those taken are not worth more than the
/// value.
pub open spec fn taken(coins: Seq<Coin>, value: u64, n: int) -> int
    decreases coins.len() - n,
{
    if n >= coins.len() || worth(coins.take(n)) > value {
        n
    } else {
        taken(coins, value, n + 1)
    }
}

/// What comes of a search for coins worth a value.
pub enum Selection {
    /// The sum of the coins does not fit.
    Overflow,
    /// All coins together are worth less.
    NotEnough,
    /// These coins.
    Coins(Seq<Coin>),
}

/// What comes of taking coins from the first on.
pub open spec fn selection(coins: Seq<Coin>, value: u64) -> Selection {
    let chosen = coins.take(taken(coins, value, 0));
    if worth(chosen) > u64::MAX {
        Selection::Overflow
    } else if worth(chosen) < value {
        Selection::NotEnough
    } else {
        Selection::Coins(chosen)
    }
}

/// This comes of a search among unspent outputs: the withdrawals are left out,
/// and the others are taken in an ascending order of their values. Outputs of the
/// same value may come in any order.
pub open spec fn selects(utxos: Map<OutPoint, Output>, value: u64, found: Selection) -> bool {
    exists|order: Seq<Coin>|
        lists(order, utxos) && by_value(order) && found == #[trigger] selection(
            spendable(order),
            value,
        )
}

/// The found coins, as a search returns them.
pub open spec fn found(result: Result<(u64, Vec<Coin>), Error>) -> Selection {
    match result {
        Ok((_, coins)) => Selection::Coins(coins@),
        Err(Error::NotEnoughFunds) => Selection::NotEnough,
        Err(_) => Selection::Overflow,
    }
}

/// Calls `rayon::slice::ParallelSliceMut::par_sort_unstable_by_key` with the
/// value of a coin as its key: the coins stay the same and are put in ascending
/// order of their values. Where coins of the same value come is not stated.
#[verifier::external_body]
fn sort_by_value(coins: &mut Vec<Coin>)
    ensures
        by_value(final(coins)@),
        final(coins)@.to_multiset() == old(coins)@.to_multiset(),
{
    coins.par_sort_unstable_by_key(|(_, output)| output.get_value())
}

/// A copy of the coins.
pub fn copy_coins(coins: &Vec<Coin>) -> (copy: Vec<Coin>)
    ensures
        copy@ == coins@,
{
    let mut copy: Vec<Coin> = Vec::new();
    let mut i: usize = 0;
    while i < coins.len()
        invariant
            i <= coins.len(),
            copy@ =~= coins@.take(i as int),
        decreases coins.len() - i,
    {
        copy.push((coins[i].0, coins[i].1.clone()));
        i += 1;
    }
    copy
}

/// The worth of the coins up to a place is at most that of all of them.
proof fn lemma_worth_grows(coins: Seq<Coin>, n: int)
    requires
        0 <= n <= coins.len(),
    ensures
        worth(coins.take(n)) <= worth(coins),
    decreases coins.len(),
{
    if n == coins.len() {
        assert(coins.take(n) =~= coins);
    } else {
        assert(coins.drop_last().take(n) =~= coins.take(n));
        lemma_worth_grows(coins.drop_last(), n);
    }
}

/// Where the search stops.
proof fn lemma_taken(coins: Seq<Coin>, value: u64, n: int)
    requires
        0 <= n <= coins.len(),
    ensures
        n <= taken(coins, value, n) <= coins.len(),
        taken(coins, value, n) < coins.len() ==> worth(coins.take(taken(coins, value, n))) > value,
        forall|k: int|
            n <= k < taken(coins, value, n) ==> worth(#[trigger] coins.take(k)) <= value,
    decreases coins.len() - n,
{
    if !(n >= coins.len() || worth(coins.take(n)) > value) {
        lemma_taken(coins, value, n + 1);
    }
}

/// Finds coins worth at least the value, the smallest first, among the outputs
/// that are no withdrawals. It stops at the first coin with which they are worth
/// more than the value. Returns their sum and the coins.
pub fn select_coins(utxos: &Table<OutPoint, Output>, value: u64) -> (result: Result<
    (u64, Vec<Coin>),
    Error,
>)
    requires
        utxos.wf(),
    ensures
        selects(utxos@, value, found(result)),
        match result {
            Ok((total, coins)) => total == worth(coins@) && selects(
                utxos@,
                value,
                Selection::Coins(coins@),
            ),
            Err(Error::NotEnoughFunds) => selects(utxos@, value, Selection::NotEnough),
            Err(Error::AmountOverflow) => selects(utxos@, value, Selection::Overflow),
            Err(_) => false,
        },
{
    let mut order = copy_coins(utxos.rows());
    sort_by_value(&mut order);
    proof {
        lemma_same_rows(utxos.entries(), order@);
    }
    let ghost keep = |coin: Coin| !(coin.1.content is Withdrawal);
    let ghost coins = spendable(order@);
    let mut chosen: Vec<Coin> = Vec::new();
    let mut total: u64 = 0;
    let mut i: usize = 0;
    let mut stopped: bool = false;
    while i < order.len() && !stopped
        invariant
            i <= order.len(),
            keep == (|coin: Coin| !(coin.1.content is Withdrawal)),
            coins == order@.filter(keep),
            coins == spendable(order@),
            lists(order@, utxos@),
            by_value(order@),
            chosen@ == coins.take(chosen@.len() as int),
            chosen@.len() <= coins.len(),
            !stopped ==> chosen@ == order@.take(i as int).filter(keep),
            stopped ==> total > value,
            total == worth(chosen@),
            taken(coins, value, 0) == taken(coins, value, chosen@.len() as int),
        decreases order.len() - i + if stopped { 0int } else { 1int },
    {
        let ghost before = order@.take(i as int);
        proof {
            reveal(Seq::filter);
            assert(order@.take(i + 1).drop_last() =~= before);
        }
        if order[i].1.content.is_withdrawal() {
            i += 1;
        } else if total > value {
            stopped = true;
        } else {
            proof {
                // The next coin to take is the next one that is no withdrawal.
                let rest = order@.skip(i + 1);
                assert(order@ =~= order@.take(i + 1) + rest);
                Seq::filter_distributes_over_add(order@.take(i + 1), rest, keep);
                let next = order@.take(i + 1).filter(keep);
                assert(next == chosen@.push(order@[i as int]));
                assert(coins =~= next + rest.filter(keep));
                assert(coins.take(next.len() as int) =~= next);
                assert(next.drop_last() =~= chosen@);
            }
            match total.checked_add(order[i].1.get_value()) {
                Some(sum) => {
                    total = sum;
                },
                None => {
                    proof {
                        let n = chosen@.len() as int;
                        assert(taken(coins, value, n) == taken(coins, value, n + 1));
                        assert(worth(coins.take(n + 1)) > u64::MAX);
                        assert(taken(coins, value, n + 1) == n + 1);
                        assert(selection(coins, value) is Overflow);
                    }
                    return Err(Error::AmountOverflow);
                },
            }
            chosen.push((order[i].0, order[i].1.clone()));
            i += 1;
        }
    }
    proof {
        if !stopped {
            assert(order@.take(i as int) =~= order@);
        }
        assert(taken(coins, value, 0) == chosen@.len());
    }
    if total < value {
        assert(selection(coins, value) is NotEnough);
        return Err(Error::NotEnoughFunds);
    }
    assert(selection(coins, value) == Selection::Coins(chosen@));
    Ok((total, chosen))
}

/// The value of an output.
pub open spec fn any_value() -> spec_fn(Output) -> nat {
    |output: Output| output.value() as nat
}

/// The value of an output, and nothing for a withdrawal.
pub open spec fn spendable_value() -> spec_fn(Output) -> nat {
    |output: Output|
        if output.content is Withdrawal {
            0nat
        } else {
            output.value() as nat
        }
}

/// The sum over all outputs.
pub open spec fn sum_over(utxos: Map<OutPoint, Output>, weight: spec_fn(Output) -> nat) -> nat
    decreases utxos.dom().len(),
    when utxos.dom().finite()
{
    if utxos.dom().len() == 0 {
        0
    } else {
        let outpoint = utxos.dom().choose();
        sum_over(utxos.remove(outpoint), weight) + weight(utxos[outpoint])
    }
}

/// What all outputs together are worth.
pub open spec fn total_value(utxos: Map<OutPoint, Output>) -> nat {
    sum_over(utxos, any_value())
}

/// What the outputs that are no withdrawals are worth together.
pub open spec fn available_value(utxos: Map<OutPoint, Output>) -> nat {
    sum_over(utxos, spendable_value())
}

/// The sum does not depend on which output is taken first.
pub proof fn lemma_sum_over_remove(
    utxos: Map<OutPoint, Output>,
    weight: spec_fn(Output) -> nat,
    outpoint: OutPoint,
)
    requires
        utxos.dom().finite(),
        utxos.contains_key(outpoint),
    ensures
        sum_over(utxos, weight) == sum_over(utxos.remove(outpoint), weight) + weight(
            utxos[outpoint],
        ),
    decreases utxos.dom().len(),
{
    let first = utxos.dom().choose();
    assert(utxos.dom().contains(outpoint));
    assert(utxos.dom().contains(first));
    if first != outpoint {
        let rest = utxos.remove(first);
        assert(rest.dom() =~= utxos.dom().remove(first));
        lemma_sum_over_remove(rest, weight, outpoint);
        let other = utxos.remove(outpoint);
        assert(other.dom() =~= utxos.dom().remove(outpoint));
        lemma_sum_over_remove(other, weight, first);
        assert(rest.remove(outpoint) =~= other.remove(first));
    }
}

/// An output that comes in adds its weight.
pub proof fn lemma_sum_over_insert(
    utxos: Map<OutPoint, Output>,
    weight: spec_fn(Output) -> nat,
    outpoint: OutPoint,
    output: Output,
)
    requires
        utxos.dom().finite(),
        !utxos.contains_key(outpoint),
    ensures
        sum_over(utxos.insert(outpoint, output), weight) == sum_over(utxos, weight) + weight(
            output,
        ),
{
    let more = utxos.insert(outpoint, output);
    assert(more.dom() =~= utxos.dom().insert(outpoint));
    lemma_sum_over_remove(more, weight, outpoint);
    assert(more.remove(outpoint) =~= utxos);
}

/// The part of a listing up to a place, and what it sums up to.
proof fn lemma_listing_prefix(rows: Seq<Coin>, n: int)
    requires
        distinct_keys(rows),
        0 <= n < rows.len(),
    ensures
        distinct_keys(rows.take(n)),
        rows_map(rows.take(n)).dom().finite(),
        rows_map(rows.take(n + 1)) == rows_map(rows.take(n)).insert(rows[n].0, rows[n].1),
        !rows_map(rows.take(n)).contains_key(rows[n].0),
        total_value(rows_map(rows.take(n + 1))) == total_value(rows_map(rows.take(n)))
            + rows[n].1.value(),
        available_value(rows_map(rows.take(n + 1))) == available_value(rows_map(rows.take(n))) + (
        if rows[n].1.content is Withdrawal {
            0
        } else {
            rows[n].1.value() as int
        }),
        total_value(rows_map(rows.take(n + 1))) <= total_value(rows_map(rows)),
        available_value(rows_map(rows.take(n))) <= total_value(rows_map(rows.take(n))),
    decreases rows.len(),
{
    let front = rows.take(n);
    let next = rows.take(n + 1);
    assert(next.drop_last() =~= front);
    lemma_rows_map(front);
    assert forall|i: int| 0 <= i < front.len() implies (#[trigger] front[i]).0 != rows[n].0 by {
        assert(front[i] == rows[i]);
    }
    lemma_sum_over_insert(rows_map(front), any_value(), rows[n].0, rows[n].1);
    lemma_sum_over_insert(rows_map(front), spendable_value(), rows[n].0, rows[n].1);
    if n + 1 < rows.len() {
        let all_but_last = rows.drop_last();
        assert(all_but_last.take(n + 1) =~= next);
        lemma_listing_prefix(all_but_last, n);
        assert(rows.take(rows.len() - 1) =~= all_but_last);
        lemma_rows_map(all_but_last);
        assert forall|i: int| 0 <= i < all_but_last.len() implies (#[trigger] all_but_last[i]).0
            != rows.last().0 by {
            assert(all_but_last[i] == rows[i]);
        }
        lemma_sum_over_insert(rows_map(all_but_last), any_value(), rows.last().0, rows.last().1);
    } else {
        assert(next =~= rows);
    }
    if n > 0 {
        assert(rows.drop_last().take(n - 1) =~= rows.take(n - 1));
        lemma_listing_prefix(front, n - 1);
        assert(front.take(n - 1) =~= rows.take(n - 1));
        assert(front.take(n) =~= front);
        assert(front[n - 1] == rows[n - 1]);
    } else {
        assert(front =~= Seq::<Coin>::empty());
    }
}

/// What the wallet holds. It is an error where the sum does not fit.
pub fn balance_of(utxos: &Table<OutPoint, Output>) -> (result: Result<Balance, Error>)
    requires
        utxos.wf(),
    ensures
        match result {
            Ok(balance) => balance.total == total_value(utxos@) && balance.available
                == available_value(utxos@),
            Err(error) => error is AmountOverflow && total_value(utxos@) > u64::MAX,
        },
{
    let rows = utxos.rows();
    let mut balance = Balance { total: 0, available: 0 };
    let mut i: usize = 0;
    assert(rows@.take(0) =~= Seq::<Coin>::empty());
    while i < rows.len()
        invariant
            i <= rows.len(),
            lists(rows@, utxos@),
            balance.total == total_value(rows_map(rows@.take(i as int))),
            balance.available == available_value(rows_map(rows@.take(i as int))),
        decreases rows.len() - i,
    {
        proof {
            lemma_listing_prefix(rows@, i as int);
        }
        let value = rows[i].1.get_value();
        balance.total = match balance.total.checked_add(value) {
            Some(total) => total,
            None => return Err(Error::AmountOverflow),
        };
        if !rows[i].1.content.is_withdrawal() {
            balance.available = match balance.available.checked_add(value) {
                Some(available) => available,
                None => return Err(Error::AmountOverflow),
            };
        }
        i += 1;
    }
    assert(rows@.take(i as int) =~= rows@);
    Ok(balance)
}

/// The coins of a listing that are no withdrawals are worth what is available.
proof fn lemma_spendable_worth(rows: Seq<Coin>)
    requires
        distinct_keys(rows),
    ensures
        worth(spendable(rows)) == available_value(rows_map(rows)),
    decreases rows.len(),
{
    reveal(Seq::filter);
    if rows.len() > 0 {
        let n = rows.len() - 1;
        lemma_listing_prefix(rows, n);
        assert(rows.take(n) =~= rows.drop_last());
        assert(rows.take(n + 1) =~= rows);
        lemma_spendable_worth(rows.drop_last());
        let front = spendable(rows.drop_last());
        if !(rows.last().1.content is Withdrawal) {
            assert(spendable(rows) == front.push(rows.last()));
            assert(spendable(rows).drop_last() =~= front);
        }
    }
}

/// What the coins of a listing that are no withdrawals are.
proof fn lemma_spendable(rows: Seq<Coin>)
    requires
        distinct_keys(rows),
    ensures
        distinct_keys(spendable(rows)),
        by_value(rows) ==> by_value(spendable(rows)),
        forall|coin: Coin| #[trigger]
            spendable(rows).contains(coin) <==> rows.contains(coin) && !(
            coin.1.content is Withdrawal),
    decreases rows.len(),
{
    reveal(Seq::filter);
    if rows.len() > 0 {
        let front = rows.drop_last();
        let last = rows.last();
        lemma_spendable(front);
        assert forall|coin: Coin| rows.contains(coin) implies #[trigger] front.contains(coin)
            || coin == last by {
            let i = choose|i: int| 0 <= i < rows.len() && rows[i] == coin;
            if i < front.len() {
                assert(front[i] == coin);
            }
        }
        assert forall|coin: Coin| #[trigger] front.contains(coin) implies rows.contains(coin)
            && coin.0 != last.0 && (by_value(rows) ==> coin.1.value() <= last.1.value()) by {
            let i = choose|i: int| 0 <= i < front.len() && front[i] == coin;
            assert(rows[i] == coin);
            assert(rows[rows.len() - 1] == last);
        }
        assert(rows[rows.len() - 1] == last);
        assert(rows.contains(last));
        let kept = spendable(front);
        if !(last.1.content is Withdrawal) {
            let all = spendable(rows);
            assert(all == kept.push(last));
            assert forall|coin: Coin| #[trigger] all.contains(coin) <==> (kept.contains(coin)
                || coin == last) by {
                if kept.contains(coin) {
                    let i = choose|i: int| 0 <= i < kept.len() && kept[i] == coin;
                    assert(all[i] == coin);
                }
                assert(all[all.len() - 1] == last);
                if all.contains(coin) {
                    let i = choose|i: int| 0 <= i < all.len() && all[i] == coin;
                    if i < kept.len() {
                        assert(kept[i] == coin);
                    }
                }
            }
            assert forall|i: int, j: int| 0 <= i < j < all.len() implies all[i].0 != all[j].0 by {
                assert(kept.contains(all[i]));
                assert(front.contains(all[i]));
                if j < kept.len() {
                    assert(kept[i] == all[i] && kept[j] == all[j]);
                }
            }
            if by_value(rows) {
                assert forall|i: int, j: int| 0 <= i < j < front.len() implies (
                #[trigger] front[i]).1.value() <= (#[trigger] front[j]).1.value() by {
                    assert(rows[i] == front[i] && rows[j] == front[j]);
                }
                assert forall|i: int, j: int| 0 <= i < j < all.len() implies (
                #[trigger] all[i]).1.value() <= (#[trigger] all[j]).1.value() by {
                    assert(kept.contains(all[i]));
                    assert(front.contains(all[i]));
                    if j < kept.len() {
                        assert(kept[i] == all[i] && kept[j] == all[j]);
                    }
                }
            }
        } else if by_value(rows) {
            assert forall|i: int, j: int| 0 <= i < j < front.len() implies (
            #[trigger] front[i]).1.value() <= (#[trigger] front[j]).1.value() by {
                assert(rows[i] == front[i] && rows[j] == front[j]);
            }
        }
    }
}

/// A search finds coins where and only where what is available covers the value,
/// but for a sum that does not fit; and that happens only where what is available
/// does not fit.
pub proof fn funds_decide_the_search(
    utxos: Map<OutPoint, Output>,
    value: u64,
    found: Selection,
)
    requires
        selects(utxos, value, found),
    ensures
        found is NotEnough <==> available_value(utxos) < value,
        found is Overflow ==> available_value(utxos) > u64::MAX,
{
    let order = choose|order: Seq<Coin>|
        lists(order, utxos) && by_value(order) && found == #[trigger] selection(
            spendable(order),
            value,
        );
    let coins = spendable(order);
    lemma_spendable_worth(order);
    lemma_taken(coins, value, 0);
    let n = taken(coins, value, 0);
    lemma_worth_grows(coins, n);
    if n == coins.len() {
        assert(coins.take(n) =~= coins);
    }
}

proof fn lemma_taken_coins(utxos: Map<OutPoint, Output>, value: u64, order: Seq<Coin>)
    requires
        lists(order, utxos),
        by_value(order),
    ensures
        ({
            let all = spendable(order);
            let coins = all.take(taken(all, value, 0));
            &&& distinct_keys(coins)
            &&& forall|i: int|
                0 <= i < coins.len() ==> utxos.contains_key((#[trigger] coins[i]).0)
                    && utxos[coins[i].0] == coins[i].1 && !(coins[i].1.content is Withdrawal)
            &&& forall|i: int, j: int|
                0 <= i < j < coins.len() ==> (#[trigger] coins[i]).1.value() <= (
                #[trigger] coins[j]).1.value()
            &&& forall|n: int| 0 <= n < coins.len() ==> worth(#[trigger] coins.take(n)) <= value
            &&& worth(coins) > value || forall|outpoint: OutPoint| #[trigger]
                utxos.contains_key(outpoint) && !(utxos[outpoint].content is Withdrawal)
                    ==> coins.contains((outpoint, utxos[outpoint]))
            &&& forall|i: int, outpoint: OutPoint|
                #![trigger coins[i], utxos[outpoint]]
                0 <= i < coins.len() && utxos.contains_key(outpoint) && !(
                utxos[outpoint].content is Withdrawal) && !coins.contains(
                    (outpoint, utxos[outpoint]),
                ) ==> coins[i].1.value() <= utxos[outpoint].value()
        }),
{
    let all = spendable(order);
    lemma_spendable(order);
    lemma_rows_map(order);
    lemma_taken(all, value, 0);
    let n = taken(all, value, 0);
    let coins = all.take(n);
    assert forall|i: int| 0 <= i < coins.len() implies utxos.contains_key((#[trigger] coins[i]).0)
        && utxos[coins[i].0] == coins[i].1 && !(coins[i].1.content is Withdrawal) by {
        assert(all[i] == coins[i]);
        assert(all.contains(coins[i]));
        let j = choose|j: int| 0 <= j < order.len() && order[j] == coins[i];
        assert(order[j].0 == coins[i].0);
    }
    assert forall|i: int, j: int| 0 <= i < j < coins.len() implies coins[i].0 != coins[j].0 by {
        assert(all[i] == coins[i] && all[j] == coins[j]);
    }
    assert forall|k: int| 0 <= k < coins.len() implies worth(#[trigger] coins.take(k)) <= value by {
        assert(coins.take(k) =~= all.take(k));
    }
    assert forall|i: int, outpoint: OutPoint|
        #![trigger coins[i], utxos[outpoint]]
        0 <= i < coins.len() && utxos.contains_key(outpoint) && !(
        utxos[outpoint].content is Withdrawal) && !coins.contains(
            (outpoint, utxos[outpoint]),
        ) implies coins[i].1.value() <= utxos[outpoint].value() by {
        let p = choose|p: int| 0 <= p < order.len() && (#[trigger] order[p]).0 == outpoint;
        let coin = order[p];
        assert(coin == (outpoint, utxos[outpoint]));
        assert(order.contains(coin));
        assert(all.contains(coin));
        let q = choose|q: int| 0 <= q < all.len() && all[q] == coin;
        if q < n {
            assert(coins[q] == coin);
        }
        assert(all[i] == coins[i]);
    }
    assert forall|i: int, j: int| 0 <= i < j < coins.len() implies (
    #[trigger] coins[i]).1.value() <= (#[trigger] coins[j]).1.value() by {
        assert(all[i] == coins[i] && all[j] == coins[j]);
    }
    if worth(coins) <= value {
        assert(coins =~= all);
        assert forall|outpoint: OutPoint| #[trigger]
            utxos.contains_key(outpoint) && !(
            utxos[outpoint].content is Withdrawal) implies coins.contains(
            (outpoint, utxos[outpoint]),
        ) by {
            let p = choose|p: int| 0 <= p < order.len() && (#[trigger] order[p]).0 == outpoint;
            assert(order[p] == (outpoint, utxos[outpoint]));
            assert(order.contains(order[p]));
            assert(all.contains(order[p]));
        }
    }
}

/// Found coins are unspent outputs, none of them twice and none a withdrawal, in
/// ascending order of their values. They are worth at least the value, and no coin is
/// taken once those before it are worth more than the value; but one more is taken as
/// long as they are not, and as there is one. No output that is left is worth less
/// than one that is taken.
pub proof fn found_coins_are_the_smallest_that_cover(
    utxos: Map<OutPoint, Output>,
    value: u64,
    coins: Seq<Coin>,
)
    requires
        selects(utxos, value, Selection::Coins(coins)),
    ensures
        value <= worth(coins) <= u64::MAX,
        distinct_keys(coins),
        forall|i: int, j: int| 0 <= i < j < coins.len() ==> coins[i].0 != coins[j].0,
        forall|i: int|
            0 <= i < coins.len() ==> utxos.contains_key((#[trigger] coins[i]).0)
                && utxos[coins[i].0] == coins[i].1 && !(coins[i].1.content is Withdrawal),
        forall|i: int, j: int|
            0 <= i < j < coins.len() ==> (#[trigger] coins[i]).1.value() <= (
            #[trigger] coins[j]).1.value(),
        forall|n: int| 0 <= n < coins.len() ==> worth(#[trigger] coins.take(n)) <= value,
        worth(coins) > value || forall|outpoint: OutPoint| #[trigger]
            utxos.contains_key(outpoint) && !(utxos[outpoint].content is Withdrawal)
                ==> coins.contains((outpoint, utxos[outpoint])),
        forall|i: int, outpoint: OutPoint|
            #![trigger coins[i], utxos[outpoint]]
            0 <= i < coins.len() && utxos.contains_key(outpoint) && !(
            utxos[outpoint].content is Withdrawal) && !coins.contains((outpoint, utxos[outpoint]))
                ==> coins[i].1.value() <= utxos[outpoint].value(),
{
    let order = choose|order: Seq<Coin>|
        lists(order, utxos) && by_value(order) && Selection::Coins(coins)
            == #[trigger] selection(spendable(order), value);
    lemma_taken_coins(utxos, value, order);
}

/// Where the sum does not fit, it is that of the smallest coins, taken one by one as
/// long as those before are not worth more than the value.
pub proof fn an_overflow_is_of_the_smallest_coins(utxos: Map<OutPoint, Output>, value: u64)
    requires
        selects(utxos, value, Selection::Overflow),
    ensures
        exists|coins: Seq<Coin>|
            {
                &&& #[trigger] worth(coins) > u64::MAX
                &&& distinct_keys(coins)
                &&& forall|i: int|
                    0 <= i < coins.len() ==> utxos.contains_key((#[trigger] coins[i]).0)
                        && utxos[coins[i].0] == coins[i].1 && !(coins[i].1.content is Withdrawal)
                &&& forall|i: int, j: int|
                    0 <= i < j < coins.len() ==> (#[trigger] coins[i]).1.value() <= (
                    #[trigger] coins[j]).1.value()
                &&& forall|n: int| 0 <= n < coins.len() ==> worth(#[trigger] coins.take(n)) <= value
                &&& worth(coins) > value || forall|outpoint: OutPoint| #[trigger]
                    utxos.contains_key(outpoint) && !(utxos[outpoint].content is Withdrawal)
                        ==> coins.contains((outpoint, utxos[outpoint]))
                &&& forall|i: int, outpoint: OutPoint|
                    #![trigger coins[i], utxos[outpoint]]
                    0 <= i < coins.len() && utxos.contains_key(outpoint) && !(
                    utxos[outpoint].content is Withdrawal) && !coins.contains(
                        (outpoint, utxos[outpoint]),
                    ) ==> coins[i].1.value() <= utxos[outpoint].value()
            },
{
    let order = choose|order: Seq<Coin>|
        lists(order, utxos) && by_value(order) && Selection::Overflow == #[trigger] selection(
            spendable(order),
            value,
        );
    lemma_taken_coins(utxos, value, order);
    let all = spendable(order);
    let coins = all.take(taken(all, value, 0));
    assert(worth(coins) > u64::MAX);
}

/// Coins are worth what each of them is worth.
pub proof fn each_coin_adds_its_value(
    coins: Seq<Coin>,
    outpoint: OutPoint,
    address: Address,
    value: u64,
)
    ensures
        worth(Seq::empty()) == 0,
        worth(coins.push((outpoint, Output { address, content: OutputContent::Value(value) })))
            == worth(coins) + value,
{
    let more = coins.push((outpoint, Output { address, content: OutputContent::Value(value) }));
    assert(more.drop_last() =~= coins);
}

/// A wallet without outputs holds nothing. An output that comes in adds its value to
/// what there is, and also to what is available unless it is a withdrawal.
pub proof fn each_output_adds_its_value(
    utxos: Map<OutPoint, Output>,
    outpoint: OutPoint,
    address: Address,
    value: u64,
    main_fee: u64,
    main_address: String,
)
    requires
        utxos.dom().finite(),
        !utxos.contains_key(outpoint),
    ensures
        total_value(Map::empty()) == 0,
        available_value(Map::empty()) == 0,
        ({
            let paid = utxos.insert(
                outpoint,
                Output { address, content: OutputContent::Value(value) },
            );
            &&& total_value(paid) == total_value(utxos) + value
            &&& available_value(paid) == available_value(utxos) + value
        }),
        ({
            let content = OutputContent::Withdrawal { value, main_fee, main_address };
            let withdrawn = utxos.insert(outpoint, Output { address, content });
            &&& total_value(withdrawn) == total_value(utxos) + value
            &&& available_value(withdrawn) == available_value(utxos)
        }),
{
    let payment = Output { address, content: OutputContent::Value(value) };
    let withdrawal = Output {
        address,
        content: OutputContent::Withdrawal { value, main_fee, main_address },
    };
    assert(Map::<OutPoint, Output>::empty().dom().len() == 0);
    lemma_sum_over_insert(utxos, any_value(), outpoint, payment);
    lemma_sum_over_insert(utxos, spendable_value(), outpoint, payment);
    lemma_sum_over_insert(utxos, any_value(), outpoint, withdrawal);
    lemma_sum_over_insert(utxos, spendable_value(), outpoint, withdrawal);
}

/// The values of the coins.
pub open spec fn values(coins: Seq<Coin>) -> Seq<u64> {
    coins.map_values(|coin: Coin| coin.1.value())
}

/// The same coins in another order have the same values in another order.
proof fn lemma_same_coins_same_values(a: Seq<Coin>, b: Seq<Coin>)
    requires
        a.to_multiset() == b.to_multiset(),
    ensures
        values(a).to_multiset() == values(b).to_multiset(),
    decreases a.len(),
{
    broadcast use vstd::seq_lib::group_to_multiset_ensures;

    assert(a.to_multiset().len() == a.len() && b.to_multiset().len() == b.len());
    if a.len() == 0 {
        assert(values(a) =~= values(b));
    } else {
        let last = a.last();
        assert(a.contains(last));
        assert(b.to_multiset().count(last) > 0);
        let j = choose|j: int| 0 <= j < b.len() && b[j] == last;
        let n = a.len() - 1;
        assert(a.remove(n).to_multiset() =~= b.remove(j).to_multiset());
        lemma_same_coins_same_values(a.remove(n), b.remove(j));
        assert(values(a).remove(n) =~= values(a.remove(n)));
        assert(values(b).remove(j) =~= values(b.remove(j)));
        assert(values(a)[n] == values(b)[j]);
        vstd::seq_lib::to_multiset_remove(values(a), n);
        vstd::seq_lib::to_multiset_remove(values(b), j);
        let value = values(a)[n];
        assert(values(a).contains(value) && values(b).contains(value));
        assert(values(a).to_multiset() =~= values(a).remove(n).to_multiset().insert(value));
        assert(values(b).to_multiset() =~= values(b).remove(j).to_multiset().insert(value));
    }
}

/// What coins are worth depends on their values only.
proof fn lemma_worth_of_values(a: Seq<Coin>, b: Seq<Coin>)
    requires
        values(a) == values(b),
    ensures
        a.len() == b.len(),
        worth(a) == worth(b),
    decreases a.len(),
{
    assert(values(a).len() == a.len() && values(b).len() == b.len());
    if a.len() > 0 {
        let n = a.len() - 1;
        assert(values(a)[n] == a.last().1.value() && values(b)[n] == b.last().1.value());
        assert(values(a.drop_last()) =~= values(a).drop_last());
        assert(values(b.drop_last()) =~= values(b).drop_last());
        lemma_worth_of_values(a.drop_last(), b.drop_last());
    }
}

/// Where the search stops depends on the values only.
proof fn lemma_taken_of_values(a: Seq<Coin>, b: Seq<Coin>, value: u64, n: int)
    requires
        values(a) == values(b),
        0 <= n <= a.len(),
    ensures
        taken(a, value, n) == taken(b, value, n),
    decreases a.len() - n,
{
    lemma_worth_of_values(a, b);
    if n < a.len() {
        assert(values(a.take(n)) =~= values(a).take(n));
        assert(values(b.take(n)) =~= values(b).take(n));
        lemma_worth_of_values(a.take(n), b.take(n));
        lemma_taken_of_values(a, b, value, n + 1);
    }
}

/// Two listings of the same outputs in ascending order have the same values.
proof fn lemma_one_order_of_values(a: Seq<Coin>, b: Seq<Coin>, utxos: Map<OutPoint, Output>)
    requires
        lists(a, utxos),
        lists(b, utxos),
        by_value(a),
        by_value(b),
    ensures
        values(spendable(a)) == values(spendable(b)),
{
    broadcast use vstd::seq_lib::group_to_multiset_ensures;

    let x = spendable(a);
    let y = spendable(b);
    lemma_spendable(a);
    lemma_spendable(b);
    lemma_rows_map(a);
    lemma_rows_map(b);
    assert forall|coin: Coin| a.contains(coin) == b.contains(coin) by {
        if a.contains(coin) {
            let i = choose|i: int| 0 <= i < a.len() && a[i] == coin;
            assert(utxos.contains_key(a[i].0));
            let j = choose|j: int| 0 <= j < b.len() && (#[trigger] b[j]).0 == coin.0;
            assert(b[j] == coin);
        }
        if b.contains(coin) {
            let i = choose|i: int| 0 <= i < b.len() && b[i] == coin;
            assert(utxos.contains_key(b[i].0));
            let j = choose|j: int| 0 <= j < a.len() && (#[trigger] a[j]).0 == coin.0;
            assert(a[j] == coin);
        }
    }
    assert(x.no_duplicates() && y.no_duplicates());
    x.lemma_multiset_has_no_duplicates();
    y.lemma_multiset_has_no_duplicates();
    assert forall|coin: Coin| #[trigger] x.to_multiset().count(coin) == y.to_multiset().count(
        coin,
    ) by {
        assert(x.contains(coin) == y.contains(coin));
        if x.contains(coin) {
            assert(x.to_multiset().contains(coin) && y.to_multiset().contains(coin));
        }
    }
    assert(x.to_multiset() =~= y.to_multiset());
    lemma_same_coins_same_values(x, y);
    let leq = |m: u64, n: u64| m <= n;
    assert forall|i: int, j: int| 0 <= i < j < values(x).len() implies #[trigger] leq(
        values(x)[i],
        values(x)[j],
    ) by {
        assert(x[i].1.value() <= x[j].1.value());
    }
    assert forall|i: int, j: int| 0 <= i < j < values(y).len() implies #[trigger] leq(
        values(y)[i],
        values(y)[j],
    ) by {
        assert(y[i].1.value() <= y[j].1.value());
    }
    vstd::seq_lib::lemma_sorted_unique(values(x), values(y), leq);
}

/// Outputs of the same value may be taken in any order, but how a search ends,
/// how many coins it takes and what they are worth does not depend on that.
pub proof fn every_order_finds_as_much(
    utxos: Map<OutPoint, Output>,
    value: u64,
    one: Selection,
    other: Selection,
)
    requires
        selects(utxos, value, one),
        selects(utxos, value, other),
    ensures
        one is Overflow <==> other is Overflow,
        one is NotEnough <==> other is NotEnough,
        one matches Selection::Coins(coins) ==> other matches Selection::Coins(others)
            && values(coins) == values(others) && worth(coins) == worth(others),
{
    let a = choose|order: Seq<Coin>|
        lists(order, utxos) && by_value(order) && one == #[trigger] selection(
            spendable(order),
            value,
        );
    let b = choose|order: Seq<Coin>|
        lists(order, utxos) && by_value(order) && other == #[trigger] selection(
            spendable(order),
            value,
        );
    let x = spendable(a);
    let y = spendable(b);
    lemma_one_order_of_values(a, b, utxos);
    lemma_taken_of_values(x, y, value, 0);
    lemma_taken(x, value, 0);
    lemma_worth_of_values(x, y);
    let n = taken(x, value, 0);
    assert(values(x.take(n)) =~= values(x).take(n));
    assert(values(y.take(n)) =~= values(y).take(n));
    lemma_worth_of_values(x.take(n), y.take(n));
}

} // verus!
