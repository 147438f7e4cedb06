//! What each operation does to a wallet, entry by entry.

use vstd::prelude::*;

use crate::index::{key_value, key_value_injective};
use crate::keys::address_at;
use crate::laws::{a_new_seed_fills_the_legacy_range, recovers, recovery_fills_the_legacy_range};
use crate::table::{distinct_keys, lemma_rows_map, rows_map, the_last_row_of_a_key_counts};
use crate::types::{Address, InPoint, OutPoint, Output, SpentOutput, Version};
use crate::wallet::{
    addresses_of, indices_of, last_index, lemma_has_last_index, lemma_last_index, spender,
    StoredWallet, WalletView,
};

verus! {

/// The next index is greater than every index on record, and follows one of them or
/// is the first of all. The last index on record is the greatest.
pub proof fn the_next_index_follows_the_greatest(wallet: WalletView, count: int)
    requires
        wallet.index_to_address.dom().finite(),
    ensures
        forall|i: u32| #[trigger]
            wallet.index_to_address.contains_key(i) ==> i < wallet.next_index(),
        wallet.next_index() == 0 || exists|i: u32|
            i + 1 == wallet.next_index() && #[trigger] wallet.index_to_address.contains_key(i),
        (exists|i: u32| #[trigger] wallet.index_to_address.contains_key(i)) ==> {
            let last = last_index(wallet.index_to_address);
            wallet.index_to_address.contains_key(last) && wallet.next_index() == last + 1
        },
        wallet.has_room(count) <==> wallet.next_index() + count <= 0x1_0000_0000,
{
    if wallet.index_to_address.dom().is_empty() {
        assert forall|i: u32| !wallet.index_to_address.contains_key(i) by {
            assert(!wallet.index_to_address.dom().contains(i));
        }
    } else {
        lemma_has_last_index(wallet.index_to_address);
        let last = last_index(wallet.index_to_address);
        assert(wallet.index_to_address.contains_key(last));
    }
}

/// A new address adds one entry to each of the two records and touches nothing else.
pub proof fn a_new_address_adds_one_entry_each_way(wallet: WalletView, index: u32)
    ensures
        ({
            let after = wallet.with_address(index);
            let address = address_at(wallet.seed->0, index);
            &&& after.seed == wallet.seed
            &&& after.utxos == wallet.utxos
            &&& after.stxos == wallet.stxos
            &&& after.version == wallet.version
            &&& after.index_to_address == wallet.index_to_address.insert(index, address)
            &&& after.address_to_index == wallet.address_to_index.insert(address, index)
        }),
{
}

/// Recovery puts the five hundred indices below 500 on record, each one that is not
/// there with its own address in both directions, and leaves every other index, every
/// address on record and everything else as it is. Without a seed it does nothing.
pub proof fn recovery_adds_what_is_missing_below_500(wallet: WalletView, i: u32, a: Address)
    ensures
        ({
            let after = wallet.recovered();
            let seed = wallet.seed->0;
            &&& after.seed == wallet.seed
            &&& after.utxos == wallet.utxos
            &&& after.stxos == wallet.stxos
            &&& after.version == wallet.version
            &&& wallet.seed is None ==> after.index_to_address == wallet.index_to_address
                && after.address_to_index == wallet.address_to_index
            &&& wallet.index_to_address.contains_key(i) ==> after.index_to_address.contains_key(i)
                && after.index_to_address[i] == wallet.index_to_address[i]
            &&& wallet.seed is Some && i < 500 && !wallet.index_to_address.contains_key(i)
                ==> after.index_to_address.contains_key(i) && after.index_to_address[i]
                == address_at(seed, i)
            &&& wallet.seed is Some && i < 500 && !wallet.index_to_address.contains_key(i) ==> {
                let index = after.address_to_index[address_at(seed, i)];
                &&& after.address_to_index.contains_key(address_at(seed, i))
                &&& i <= index < 500
                &&& !wallet.index_to_address.contains_key(index)
                &&& address_at(seed, index) == address_at(seed, i)
            }
            &&& i >= 500 && !wallet.index_to_address.contains_key(i)
                ==> !after.index_to_address.contains_key(i)
            &&& wallet.address_to_index.contains_key(a) ==> after.address_to_index.contains_key(a)
            &&& after.address_to_index.contains_key(a) && !wallet.address_to_index.contains_key(a)
                ==> after.address_to_index[a] < 500 && address_at(seed, after.address_to_index[a])
                == a
            &&& wallet.address_to_index.contains_key(a) && after.address_to_index[a]
                != wallet.address_to_index[a] ==> after.address_to_index[a] < 500 && address_at(
                seed,
                after.address_to_index[a],
            ) == a
        }),
{
    recovery_fills_the_legacy_range(wallet);
    if wallet.seed is Some {
        let after = wallet.recovered();
        let seed = wallet.seed->0;
        if i < 500 && !wallet.index_to_address.contains_key(i) {
            assert(recovers(wallet, 500, i, address_at(seed, i)));
            assert(recovers(
                wallet,
                500,
                after.address_to_index[address_at(seed, i)],
                address_at(seed, i),
            ));
        }
        assert(after.address_to_index.contains_key(a) <==> wallet.address_to_index.contains_key(a)
            || exists|j: u32| recovers(wallet, 500, j, a));
        if exists|j: u32| recovers(wallet, 500, j, a) {
            assert(recovers(wallet, 500, after.address_to_index[a], a));
        }
    }
}

/// A wallet with another seed holds no output and nothing of the former seed: its
/// addresses are those of the indices below 500.
pub proof fn another_seed_starts_anew(wallet: WalletView, seed: Seq<u8>, i: u32)
    ensures
        ({
            let after = wallet.overwritten(seed);
            &&& after.seed == Some(seed)
            &&& after.version == wallet.version
            &&& after.utxos == Map::<OutPoint, Output>::empty()
            &&& after.stxos == Map::<OutPoint, SpentOutput>::empty()
            &&& after.index_to_address.contains_key(i) <==> i < 500
            &&& i < 500 ==> after.index_to_address[i] == address_at(seed, i)
            &&& after.next_index() == 500
            &&& forall|a: Address| #[trigger]
                after.address_to_index.contains_key(a) ==> after.address_to_index[a] < 500
                    && address_at(seed, after.address_to_index[a]) == a
            &&& i < 500 ==> after.address_to_index.contains_key(address_at(seed, i))
        }),
{
    a_new_seed_fills_the_legacy_range(wallet, seed);
    let cleared = WalletView {
        seed: Some(seed),
        address_to_index: Map::empty(),
        index_to_address: Map::empty(),
        utxos: Map::empty(),
        stxos: Map::empty(),
        version: wallet.version,
    };
    let after = wallet.overwritten(seed);
    recovery_adds_what_is_missing_below_500(cleared, i, address_at(seed, i));
    assert forall|a: Address| #[trigger] after.address_to_index.contains_key(a) implies
        after.address_to_index[a] < 500 && address_at(seed, after.address_to_index[a]) == a by {
        recovery_adds_what_is_missing_below_500(cleared, i, a);
    }
}

/// What a wallet received is what an output that it holds or held pays: such an
/// output makes its address one that received, and without one there is none.
pub proof fn an_address_received_if_an_output_pays_it(
    wallet: WalletView,
    address: Address,
    outpoint: OutPoint,
)
    ensures
        wallet.utxos.contains_key(outpoint) && wallet.utxos[outpoint].address == address
            ==> wallet.received(address),
        wallet.stxos.contains_key(outpoint) && wallet.stxos[outpoint].output.address == address
            ==> wallet.received(address),
        (forall|o: OutPoint| #[trigger]
            wallet.utxos.contains_key(o) ==> wallet.utxos[o].address != address) && (forall|
            o: OutPoint,
        | #[trigger]
            wallet.stxos.contains_key(o) ==> wallet.stxos[o].output.address != address)
            ==> !wallet.received(address),
{
}

/// To forget outputs takes away those that are named and no others, and touches
/// nothing else.
pub proof fn forgetting_takes_the_named_outputs(
    wallet: WalletView,
    outpoints: Seq<OutPoint>,
    o: OutPoint,
)
    ensures
        ({
            let after = wallet.without_utxos(outpoints);
            &&& after.utxos.contains_key(o) <==> wallet.utxos.contains_key(o)
                && !outpoints.contains(o)
            &&& after.utxos.contains_key(o) ==> after.utxos[o] == wallet.utxos[o]
            &&& after.stxos == wallet.stxos
            &&& after.seed == wallet.seed
            &&& after.index_to_address == wallet.index_to_address
            &&& after.address_to_index == wallet.address_to_index
            &&& after.version == wallet.version
        }),
{
}

/// To take outputs in adds those that are given, in place of those with the same
/// outpoint, keeps the others, and touches nothing else. Of two that are given for
/// one outpoint the later one counts.
pub proof fn taking_in_adds_the_given_outputs(
    wallet: WalletView,
    rows: Seq<(OutPoint, Output)>,
    o: OutPoint,
    n: int,
)
    ensures
        ({
            let after = wallet.with_utxos(rows_map(rows));
            let given = exists|i: int| 0 <= i < rows.len() && (#[trigger] rows[i]).0 == o;
            &&& after.utxos.contains_key(o) <==> wallet.utxos.contains_key(o) || given
            &&& wallet.utxos.contains_key(o) && !given ==> after.utxos[o] == wallet.utxos[o]
            &&& 0 <= n < rows.len() && rows[n].0 == o && (forall|i: int|
                n < i < rows.len() ==> (#[trigger] rows[i]).0 != o) ==> after.utxos[o] == rows[n].1
            &&& after.stxos == wallet.stxos
            &&& after.seed == wallet.seed
            &&& after.index_to_address == wallet.index_to_address
            &&& after.address_to_index == wallet.address_to_index
            &&& after.version == wallet.version
        }),
{
    lemma_rows_map(rows);
    if 0 <= n < rows.len() && rows[n].0 == o && (forall|i: int|
        n < i < rows.len() ==> (#[trigger] rows[i]).0 != o) {
        the_last_row_of_a_key_counts(rows, n);
    }
}

/// The first input that names an output spends it.
pub proof fn the_first_spender_counts(
    spent: Seq<(OutPoint, InPoint)>,
    o: OutPoint,
    n: int,
)
    ensures
        (forall|i: int| 0 <= i < spent.len() ==> (#[trigger] spent[i]).0 != o) ==> spender(spent, o)
            is None,
        0 <= n < spent.len() && spent[n].0 == o && (forall|i: int|
            0 <= i < n ==> (#[trigger] spent[i]).0 != o) ==> spender(spent, o) == Some(spent[n].1),
    decreases spent.len(),
{
    if spent.len() > 0 {
        let front = spent.drop_last();
        assert(forall|i: int| 0 <= i < front.len() ==> front[i] == spent[i]);
        the_first_spender_counts(front, o, n);
        assert(spent.last() == spent[spent.len() - 1]);
    }
}

/// Spending moves each output that the wallet holds and that an input names from the
/// unspent to the spent ones, with the first input that names it. All other outputs
/// stay where they are, and nothing else is touched.
pub proof fn spending_moves_the_named_outputs(
    wallet: WalletView,
    spent: Seq<(OutPoint, InPoint)>,
    o: OutPoint,
    n: int,
)
    ensures
        ({
            let after = wallet.after_spending(spent);
            let named = exists|i: int| 0 <= i < spent.len() && (#[trigger] spent[i]).0 == o;
            &&& after.utxos.contains_key(o) <==> wallet.utxos.contains_key(o) && !named
            &&& after.utxos.contains_key(o) ==> after.utxos[o] == wallet.utxos[o]
            &&& after.stxos.contains_key(o) <==> wallet.stxos.contains_key(o)
                || wallet.utxos.contains_key(o) && named
            &&& wallet.stxos.contains_key(o) && !(wallet.utxos.contains_key(o) && named)
                ==> after.stxos[o] == wallet.stxos[o]
            &&& wallet.utxos.contains_key(o) && 0 <= n < spent.len() && spent[n].0 == o && (forall|
                i: int,
            |
                0 <= i < n ==> (#[trigger] spent[i]).0 != o) ==> after.stxos[o].output
                == wallet.utxos[o] && after.stxos[o].inpoint == spent[n].1
            &&& after.seed == wallet.seed
            &&& after.index_to_address == wallet.index_to_address
            &&& after.address_to_index == wallet.address_to_index
            &&& after.version == wallet.version
        }),
{
    the_first_spender_counts(spent, o, n);
    if exists|i: int| 0 <= i < spent.len() && (#[trigger] spent[i]).0 == o {
        let k = choose|i: int| 0 <= i < spent.len() && (#[trigger] spent[i]).0 == o;
        lemma_a_named_output_has_a_spender(spent, o, k);
    }
    let newly = wallet.newly_spent(spent);
    assert(newly.contains_key(o) <==> wallet.utxos.contains_key(o) && spender(spent, o) is Some);
}

proof fn lemma_a_named_output_has_a_spender(spent: Seq<(OutPoint, InPoint)>, o: OutPoint, k: int)
    requires
        0 <= k < spent.len(),
        spent[k].0 == o,
    ensures
        spender(spent, o) is Some,
    decreases spent.len(),
{
    if k < spent.len() - 1 {
        lemma_a_named_output_has_a_spender(spent.drop_last(), o, k);
    }
}

/// The last address on record is the one to receive at, and nothing changes, as long
/// as no output pays it. Once one does, it is the address of the index after the last,
/// which is then on record.
pub proof fn the_last_unpaid_address_is_the_one_to_receive_at(wallet: WalletView, last: u32)
    requires
        wallet.index_to_address.contains_key(last),
        forall|i: u32| #[trigger] wallet.index_to_address.contains_key(i) ==> i <= last,
        last < u32::MAX,
    ensures
        ({
            let address = wallet.index_to_address[last];
            let paid = (exists|o: OutPoint| #[trigger]
                wallet.utxos.contains_key(o) && wallet.utxos[o].address == address) || (exists|
                o: OutPoint,
            | #[trigger]
                wallet.stxos.contains_key(o) && wallet.stxos[o].output.address == address);
            let next = (last + 1) as u32;
            let new = address_at(wallet.seed->0, next);
            &&& !paid ==> wallet.receive_address() == address && wallet.receiving() == wallet
            &&& paid ==> wallet.receive_address() == new && wallet.receiving() == (WalletView {
                index_to_address: wallet.index_to_address.insert(next, new),
                address_to_index: wallet.address_to_index.insert(new, next),
                ..wallet
            })
        }),
{
    lemma_last_index(wallet.index_to_address, last);
}

/// A wallet without addresses receives at the address of the first index of all.
pub proof fn the_first_address_is_the_first_to_receive_at(wallet: WalletView)
    requires
        forall|i: u32| !(#[trigger] wallet.index_to_address.contains_key(i)),
    ensures
        ({
            let address = address_at(wallet.seed->0, 0);
            &&& wallet.next_index() == 0
            &&& wallet.receive_address() == address
            &&& wallet.receiving() == (WalletView {
                index_to_address: wallet.index_to_address.insert(0, address),
                address_to_index: wallet.address_to_index.insert(address, 0),
                ..wallet
            })
        }),
{
    assert forall|i: u32| !wallet.index_to_address.dom().contains(i) by {
        assert(!wallet.index_to_address.contains_key(i));
    }
    assert(wallet.index_to_address.dom() =~= Set::empty());
}

/// Rows that are stored say of a wallet what stands in them: each output under its
/// outpoint, each address under the number that its key stands for, each index under
/// its address. A version that is not stored is the present one.
pub proof fn stored_rows_say_what_stands_in_them(stored: StoredWallet, current: Version, n: int)
    requires
        distinct_keys(stored.utxos@),
        distinct_keys(stored.stxos@),
        distinct_keys(stored.address_to_index@),
        distinct_keys(stored.index_to_address@),
    ensures
        ({
            let wallet = stored.loaded(current);
            &&& match stored.seed {
                Some(bytes) => wallet.seed == Some(bytes@),
                None => wallet.seed is None,
            }
            &&& match stored.version {
                Some(version) => wallet.version == version,
                None => wallet.version == current,
            }
            &&& 0 <= n < stored.utxos@.len() ==> wallet.utxos.contains_key(stored.utxos@[n].0)
                && wallet.utxos[stored.utxos@[n].0] == stored.utxos@[n].1
            &&& 0 <= n < stored.stxos@.len() ==> wallet.stxos.contains_key(stored.stxos@[n].0)
                && wallet.stxos[stored.stxos@[n].0] == stored.stxos@[n].1
            &&& 0 <= n < stored.index_to_address@.len() ==> {
                let row = stored.index_to_address@[n];
                let index = (((row.0[0] * 256 + row.0[1]) * 256 + row.0[2]) * 256
                    + row.0[3]) as u32;
                wallet.index_to_address.contains_key(index) && wallet.index_to_address[index]
                    == row.1
            }
            &&& 0 <= n < stored.address_to_index@.len() ==> {
                let row = stored.address_to_index@[n];
                wallet.address_to_index.contains_key(row.0) && wallet.address_to_index[row.0] == ((
                (row.1[0] * 256 + row.1[1]) * 256 + row.1[2]) * 256 + row.1[3])
            }
            &&& wallet.utxos.len() == stored.utxos@.len()
            &&& wallet.stxos.len() == stored.stxos@.len()
            &&& wallet.index_to_address.len() == stored.index_to_address@.len()
            &&& wallet.address_to_index.len() == stored.address_to_index@.len()
        }),
{
    let indices = indices_of(stored.address_to_index@);
    let addresses = addresses_of(stored.index_to_address@);
    assert forall|i: int, j: int| 0 <= i < j < indices.len() implies indices[i].0
        != indices[j].0 by {
        assert(stored.address_to_index@[i].0 != stored.address_to_index@[j].0);
    }
    assert forall|i: int, j: int| 0 <= i < j < addresses.len() implies addresses[i].0
        != addresses[j].0 by {
        let a = stored.index_to_address@[i].0;
        let b = stored.index_to_address@[j].0;
        assert(a != b);
        key_value_injective(a, b);
        lemma_key_fits(a);
        lemma_key_fits(b);
    }
    lemma_rows_map(stored.utxos@);
    lemma_rows_map(stored.stxos@);
    lemma_rows_map(indices);
    lemma_rows_map(addresses);
    if 0 <= n < stored.utxos@.len() {
        assert(rows_map(stored.utxos@).contains_key(stored.utxos@[n].0));
    }
    if 0 <= n < stored.stxos@.len() {
        assert(rows_map(stored.stxos@).contains_key(stored.stxos@[n].0));
    }
    if 0 <= n < addresses.len() {
        assert(rows_map(addresses).contains_key(addresses[n].0));
    }
    if 0 <= n < indices.len() {
        lemma_key_fits(stored.address_to_index@[n].1);
        assert(rows_map(indices).contains_key(indices[n].0));
    }
}

proof fn lemma_key_fits(key: [u8; 4])
    ensures
        0 <= key_value(key@) <= u32::MAX,
        key_value(key@) == ((key[0] * 256 + key[1]) * 256 + key[2]) * 256 + key[3],
{
}

} // verus!
