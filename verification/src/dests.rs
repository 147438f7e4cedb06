//! The destinations of a transfer.

use vstd::prelude::*;

use crate::bytes::{
    bytes_before, precedes, precedes_total, precedes_transitive, the_first_difference_decides,
};
use crate::table::{distinct_keys, lemma_rows_map, rows_map};
use crate::types::{address_is_its_bytes, Address};

verus! {

/// The addresses come in the order of their bytes, none of them twice.
pub open spec fn ascending(dests: Seq<(Address, u64)>) -> bool {
    forall|i: int, j: int|
        0 <= i < j < dests.len() ==> precedes((#[trigger] dests[i]).0@, (#[trigger] dests[j]).0@)
}

/// The sum of the values.
pub open spec fn dests_sum(dests: Seq<(Address, u64)>) -> nat
    decreases dests.len(),
{
    if dests.len() == 0 {
        0
    } else {
        dests_sum(dests.drop_last()) + dests.last().1 as nat
    }
}

/// The sum over a part is at most the sum over the whole.
pub proof fn lemma_dests_sum_grows(dests: Seq<(Address, u64)>, n: int)
    requires
        0 <= n <= dests.len(),
    ensures
        dests_sum(dests.take(n)) <= dests_sum(dests),
    decreases dests.len(),
{
    if n == dests.len() {
        assert(dests.take(n) =~= dests);
    } else {
        assert(dests.drop_last().take(n) =~= dests.take(n));
        lemma_dests_sum_grows(dests.drop_last(), n);
    }
}

/// Destinations in order name each address once.
pub proof fn ascending_is_distinct(dests: Seq<(Address, u64)>)
    requires
        ascending(dests),
    ensures
        distinct_keys(dests),
{
    assert forall|i: int, j: int| 0 <= i < j < dests.len() implies dests[i].0 != dests[j].0 by {
        precedes_total(dests[i].0@, dests[j].0@);
    }
}

/// There is one order for the same destinations.
pub proof fn destinations_have_one_order(a: Seq<(Address, u64)>, b: Seq<(Address, u64)>)
    requires
        ascending(a),
        ascending(b),
        rows_map(a) == rows_map(b),
    ensures
        a == b,
    decreases a.len(),
{
    ascending_is_distinct(a);
    ascending_is_distinct(b);
    lemma_rows_map(a);
    lemma_rows_map(b);
    if a.len() > 0 {
        let n = a.len() - 1;
        assert(rows_map(b).contains_key(a[n].0));
        assert(rows_map(a).contains_key(b[n].0));
        let i = choose|i: int| 0 <= i < a.len() && (#[trigger] a[i]).0 == b[n].0;
        let j = choose|j: int| 0 <= j < b.len() && (#[trigger] b[j]).0 == a[n].0;
        precedes_total(a[n].0@, b[n].0@);
        assert(a[n].0 == b[n].0);
        assert(rows_map(a)[a[n].0] == a[n].1);
        assert(rows_map(b)[b[n].0] == b[n].1);
        let x = a.drop_last();
        let y = b.drop_last();
        lemma_rows_map(x);
        lemma_rows_map(y);
        assert(!rows_map(x).contains_key(a[n].0));
        assert(!rows_map(y).contains_key(b[n].0));
        assert(rows_map(x) =~= rows_map(a).remove(a[n].0));
        assert(rows_map(y) =~= rows_map(b).remove(b[n].0));
        destinations_have_one_order(x, y);
        assert(a =~= x.push(a[n]));
        assert(b =~= y.push(b[n]));
    } else {
        assert(a =~= b);
    }
}

/// A repeated address in the destinations of a transfer.
#[derive(Clone, Copy, Debug, PartialEq, Eq)]
pub struct DuplicateAddress {
    pub address: Address,
}

/// Destinations of a transfer. Each address takes a value in sats. A repeated
/// address is an error.
#[derive(Debug, PartialEq, Eq)]
pub struct TransferDests(Vec<(Address, u64)>);

impl View for TransferDests {
    type V = Map<Address, u64>;

    open spec fn view(&self) -> Map<Address, u64> {
        rows_map(self.entries())
    }
}

impl TransferDests {
    /// The destinations, in the order of the addresses.
    pub closed spec fn entries(&self) -> Seq<(Address, u64)> {
        self.0@
    }

    /// The destinations are in order.
    pub open spec fn wf(&self) -> bool {
        ascending(self.entries())
    }

    /// No destination.
    pub fn new() -> (dests: Self)
        ensures
            dests.wf(),
            dests.entries() == Seq::<(Address, u64)>::empty(),
    {
        TransferDests(Vec::new())
    }

    /// One destination.
    pub fn single(address: Address, value: u64) -> (dests: Self)
        ensures
            dests.wf(),
            dests.entries() == seq![(address, value)],
    {
        let mut dests: Vec<(Address, u64)> = Vec::new();
        dests.push((address, value));
        TransferDests(dests)
    }

    /// The destinations, in the order of the addresses.
    pub fn rows(&self) -> (rows: &Vec<(Address, u64)>)
        ensures
            rows@ == self.entries(),
    {
        &self.0
    }

    /// Adds a destination. Returns whether it did: it does not where the address
    /// is a destination already.
    pub fn insert(&mut self, address: Address, value: u64) -> (added: bool)
        requires
            old(self).wf(),
        ensures
            final(self).wf(),
            added == !old(self)@.contains_key(address),
            added ==> final(self)@ == old(self)@.insert(address, value),
            !added ==> *final(self) == *old(self),
    {
        let ghost before = self.0@;
        let mut at: usize = 0;
        while at < self.0.len() && bytes_before(&self.0[at].0.0, &address.0)
            invariant
                self.wf(),
                self.0@ == before,
                at <= self.0.len(),
                forall|j: int| 0 <= j < at ==> precedes((#[trigger] before[j]).0@, address@),
            decreases self.0.len() - at,
        {
            at += 1;
        }
        proof {
            lemma_rows_map(before);
        }
        if at < self.0.len() && !bytes_before(&address.0, &self.0[at].0.0) {
            proof {
                precedes_total(before[at as int].0@, address@);
                address_is_its_bytes(before[at as int].0, address);
                assert(before[at as int].0 == address);
            }
            return false;
        }
        proof {
            let a = at as int;
            assert forall|j: int| a <= j < before.len() implies precedes(
                address@,
                (#[trigger] before[j]).0@,
            ) by {
                if j > a {
                    precedes_transitive(address@, before[a].0@, before[j].0@);
                }
            }
            assert forall|j: int| 0 <= j < before.len() implies (#[trigger] before[j]).0
                != address by {
                precedes_total(before[j].0@, address@);
            }
        }
        self.0.insert(at, (address, value));
        proof {
            let a = at as int;
            let after = self.0@;
            assert(after =~= before.insert(a, (address, value)));
            assert forall|i: int, j: int| 0 <= i < j < after.len() implies precedes(
                (#[trigger] after[i]).0@,
                (#[trigger] after[j]).0@,
            ) by {
                let p = if i < a { i } else { i - 1 };
                let q = if j < a { j } else { j - 1 };
                if i != a && j != a {
                    assert(after[i] == before[p] && after[j] == before[q]);
                } else if i == a {
                    assert(after[j] == before[q]);
                } else {
                    assert(after[i] == before[p]);
                }
            }
            ascending_is_distinct(before);
            ascending_is_distinct(after);
            lemma_rows_map(after);
            assert forall|k: Address| #[trigger] rows_map(after).contains_key(k) implies (k
                == address || rows_map(before).contains_key(k)) && (k != address ==> rows_map(
                after,
            )[k] == rows_map(before)[k]) by {
                let i = choose|i: int| 0 <= i < after.len() && (#[trigger] after[i]).0 == k;
                if i != a {
                    let p = if i < a { i } else { i - 1 };
                    assert(before[p] == after[i]);
                }
            }
            assert forall|k: Address| rows_map(before).contains_key(k) || k
                == address implies #[trigger] rows_map(after).contains_key(k) by {
                if k == address {
                    assert(after[a].0 == k);
                } else {
                    let p = choose|p: int| 0 <= p < before.len() && (#[trigger] before[p]).0 == k;
                    let i = if p < a { p } else { p + 1 };
                    assert(after[i] == before[p]);
                }
            }
            assert(after[a].0 == address);
            assert(rows_map(after) =~= rows_map(before).insert(address, value));
        }
        true
    }

    /// Puts destinations in order. Refuses a repeated address, with the first
    /// address that repeats an earlier one.
    pub fn from_entries(entries: Vec<(Address, u64)>) -> (dests: Result<Self, DuplicateAddress>)
        ensures
            match dests {
                Ok(d) => distinct_keys(entries@) && d.wf() && d@ == rows_map(entries@),
                Err(error) => exists|n: int|
                    0 <= n < entries@.len() && distinct_keys(entries@.take(n)) && (
                    #[trigger] entries@[n]).0 == error.address && rows_map(
                        entries@.take(n),
                    ).contains_key(error.address),
            },
            dests is Ok <==> distinct_keys(entries@),
    {
        let mut dests = TransferDests::new();
        let mut n: usize = 0;
        while n < entries.len()
            invariant
                n <= entries.len(),
                dests.wf(),
                distinct_keys(entries@.take(n as int)),
                dests@ == rows_map(entries@.take(n as int)),
            decreases entries.len() - n,
        {
            let entry = entries[n];
            let ghost done = entries@.take(n as int);
            let ghost next = entries@.take(n + 1);
            proof {
                assert(next.drop_last() =~= done);
                lemma_rows_map(done);
            }
            if !dests.insert(entry.0, entry.1) {
                proof {
                    let i = choose|i: int| 0 <= i < done.len() && (#[trigger] done[i]).0 == entry.0;
                    assert(entries@[i].0 == entries@[n as int].0);
                }
                return Err(DuplicateAddress { address: entry.0 });
            }
            proof {
                assert forall|i: int, j: int| 0 <= i < j < next.len() implies next[i].0
                    != next[j].0 by {
                    assert(next[i] == done[i]);
                    if j < n {
                        assert(next[j] == done[j]);
                    } else {
                        assert(done[i].0 != entry.0);
                    }
                }
            }
            n += 1;
        }
        assert(entries@.take(entries@.len() as int) =~= entries@);
        Ok(dests)
    }

    /// The sum of the values, if it fits.
    pub fn total(&self) -> (total: Option<u64>)
        ensures
            match total {
                Some(sum) => sum == dests_sum(self.entries()),
                None => dests_sum(self.entries()) > u64::MAX,
            },
    {
        let mut total: u64 = 0;
        let mut n: usize = 0;
        while n < self.0.len()
            invariant
                n <= self.0.len(),
                total == dests_sum(self.0@.take(n as int)),
            decreases self.0.len() - n,
        {
            assert(self.0@.take(n + 1).drop_last() =~= self.0@.take(n as int));
            match total.checked_add(self.0[n].1) {
                Some(sum) => {
                    total = sum;
                },
                None => {
                    proof {
                        lemma_dests_sum_grows(self.0@, n + 1);
                    }
                    return None;
                },
            }
            n += 1;
        }
        assert(self.0@.take(self.0@.len() as int) =~= self.0@);
        Some(total)
    }
}

/// Destinations sum up to what each of them takes.
pub proof fn each_destination_adds_its_value(
    dests: Seq<(Address, u64)>,
    address: Address,
    value: u64,
)
    ensures
        dests_sum(Seq::empty()) == 0,
        dests_sum(dests.push((address, value))) == dests_sum(dests) + value,
{
    assert(dests.push((address, value)).drop_last() =~= dests);
}

/// Of two destinations in order the earlier one has the smaller byte where their
/// addresses first differ.
pub proof fn destinations_are_in_the_order_of_their_bytes(
    dests: Seq<(Address, u64)>,
    i: int,
    j: int,
)
    requires
        ascending(dests),
        0 <= i < j < dests.len(),
    ensures
        exists|n: int|
            0 <= n < 20 && dests[i].0@.take(n) == #[trigger] dests[j].0@.take(n) && dests[i].0@[n]
                < dests[j].0@[n],
{
    let a = dests[i].0@;
    let b = dests[j].0@;
    the_first_difference_decides(a, b);
    let n = choose|n: int|
        {
            &&& 0 <= n <= a.len()
            &&& n < b.len()
            &&& a.take(n) == #[trigger] b.take(n)
            &&& n == a.len() || a[n] < b[n]
        };
}

} // verus!
