//! The wallet: a seed, the addresses that come of it, and the outputs that pay
//! them.

use vstd::prelude::*;

use crate::bytes::same_bytes;
use crate::coins::{
    available_value, balance_of, copy_coins, found, select_coins, selects, total_value, worth, Coin,
    Selection,
};
use crate::index::{index_key, key_index, key_value};
use crate::keys::{
    address_at, blake3_digest, derived_secret, get_address, mnemonic_seed, phrase_seed, public_key,
    root_key, secret_at, secret_key, verifying_key, Language,
};
use crate::table::{lemma_rows_map, lists, rows_map, Key, Table};
use crate::types::{
    Address, Balance, Error, InPoint, OutPoint, Output, SpentOutput, Version,
};

verus! {

/// An older wallet used the indices below this one and kept no record of them.
pub const LEGACY_INDICES: u32 = 500;

/// What a wallet holds.
#[verifier::ext_equal]
pub struct WalletView {
    pub seed: Option<Seq<u8>>,
    pub address_to_index: Map<Address, u32>,
    pub index_to_address: Map<u32, Address>,
    pub utxos: Map<OutPoint, Output>,
    pub stxos: Map<OutPoint, SpentOutput>,
    pub version: Version,
}

/// This is the greatest index with an address.
pub open spec fn is_last_index(addresses: Map<u32, Address>, index: u32) -> bool {
    addresses.contains_key(index) && forall|i: u32| #[trigger]
        addresses.contains_key(i) ==> i <= index
}

/// The greatest index with an address.
pub open spec fn last_index(addresses: Map<u32, Address>) -> u32 {
    choose|index: u32| is_last_index(addresses, index)
}

impl WalletView {
    /// The index that the next new address takes: the one after the greatest with
    /// an address.
    pub open spec fn next_index(self) -> int {
        if self.index_to_address.dom().is_empty() {
            0
        } else {
            last_index(self.index_to_address) + 1
        }
    }

    /// This many new addresses can be derived.
    pub open spec fn has_room(self, count: int) -> bool {
        self.next_index() + count <= u32::MAX + 1
    }

    /// The wallet with this address on record at this index.
    pub open spec fn with_record(self, index: u32, address: Address) -> WalletView {
        WalletView {
            index_to_address: self.index_to_address.insert(index, address),
            address_to_index: self.address_to_index.insert(address, index),
            ..self
        }
    }

    /// The wallet with the address of this index on record.
    pub open spec fn with_address(self, index: u32) -> WalletView {
        self.with_record(index, address_at(self.seed->0, index))
    }

    /// The wallet with the addresses of the indices below `count` on record.
    /// Those that are on record stay as they are.
    pub open spec fn recovered_below(self, count: nat) -> WalletView
        decreases count,
    {
        if count == 0 {
            self
        } else {
            let before = self.recovered_below((count - 1) as nat);
            let index = (count - 1) as u32;
            if before.index_to_address.contains_key(index) {
                before
            } else {
                before.with_address(index)
            }
        }
    }

    /// The wallet with the addresses of an older wallet on record, if it has a
    /// seed.
    pub open spec fn recovered(self) -> WalletView {
        if self.seed is Some {
            self.recovered_below(LEGACY_INDICES as nat)
        } else {
            self
        }
    }

    /// The wallet with another seed and nothing of the former one.
    pub open spec fn overwritten(self, seed: Seq<u8>) -> WalletView {
        WalletView {
            seed: Some(seed),
            address_to_index: Map::empty(),
            index_to_address: Map::empty(),
            utxos: Map::empty(),
            stxos: Map::empty(),
            version: self.version,
        }.recovered()
    }

    /// An output that the wallet holds or held pays this address.
    pub open spec fn received(self, address: Address) -> bool {
        ||| exists|outpoint: OutPoint| #[trigger]
            self.utxos.contains_key(outpoint) && self.utxos[outpoint].address == address
        ||| exists|outpoint: OutPoint| #[trigger]
            self.stxos.contains_key(outpoint) && self.stxos[outpoint].output.address == address
    }

    /// Every address on record is that of its index, and the two records agree.
    pub open spec fn derived(self) -> bool {
        &&& self.seed is None ==> self.index_to_address.dom().is_empty()
            && self.address_to_index.dom().is_empty()
        &&& forall|i: u32| #[trigger]
            self.index_to_address.contains_key(i) ==> self.index_to_address[i] == address_at(
                self.seed->0,
                i,
            )
        &&& forall|i: u32| #[trigger]
            self.index_to_address.contains_key(i) ==> self.address_to_index.contains_key(
                self.index_to_address[i],
            )
        &&& forall|a: Address| #[trigger]
            self.address_to_index.contains_key(a) ==> self.index_to_address.contains_key(
                self.address_to_index[a],
            ) && self.index_to_address[self.address_to_index[a]] == a
    }
}

/// The rows of a wallet's store, as they are stored.
pub struct StoredWallet {
    pub seed: Option<[u8; 64]>,
    pub address_to_index: Vec<(Address, [u8; 4])>,
    pub index_to_address: Vec<([u8; 4], Address)>,
    pub utxos: Vec<(OutPoint, Output)>,
    pub stxos: Vec<(OutPoint, SpentOutput)>,
    pub version: Option<Version>,
}

/// The stored indices, as numbers.
pub open spec fn indices_of(rows: Seq<(Address, [u8; 4])>) -> Seq<(Address, u32)> {
    rows.map_values(|row: (Address, [u8; 4])| (row.0, key_value(row.1@) as u32))
}

/// The stored keys, as numbers.
pub open spec fn addresses_of(rows: Seq<([u8; 4], Address)>) -> Seq<(u32, Address)> {
    rows.map_values(|row: ([u8; 4], Address)| (key_value(row.0@) as u32, row.1))
}

/// The bytes of a seed.
pub open spec fn seed_view(seed: Option<[u8; 64]>) -> Option<Seq<u8>> {
    match seed {
        Some(bytes) => Some(bytes@),
        None => None,
    }
}

impl StoredWallet {
    /// What the rows say. A store without a version was made by this program.
    pub open spec fn loaded(self, current: Version) -> WalletView {
        WalletView {
            seed: seed_view(self.seed),
            address_to_index: rows_map(indices_of(self.address_to_index@)),
            index_to_address: rows_map(addresses_of(self.index_to_address@)),
            utxos: rows_map(self.utxos@),
            stxos: rows_map(self.stxos@),
            version: match self.version {
                Some(version) => version,
                None => current,
            },
        }
    }
}

/// A wallet.
pub struct Wallet {
    seed: Option<[u8; 64]>,
    address_to_index: Table<Address, u32>,
    index_to_address: Table<u32, Address>,
    utxos: Table<OutPoint, Output>,
    stxos: Table<OutPoint, SpentOutput>,
    version: Version,
}

impl View for Wallet {
    type V = WalletView;

    closed spec fn view(&self) -> WalletView {
        WalletView {
            seed: seed_view(self.seed),
            address_to_index: self.address_to_index@,
            index_to_address: self.index_to_address@,
            utxos: self.utxos@,
            stxos: self.stxos@,
            version: self.version,
        }
    }
}

/// An index that is last is the only last one.
pub proof fn lemma_last_index(addresses: Map<u32, Address>, index: u32)
    requires
        is_last_index(addresses, index),
    ensures
        last_index(addresses) == index,
        !addresses.dom().is_empty(),
{
    assert(is_last_index(addresses, last_index(addresses)));
    assert(addresses.dom().contains(index));
}

/// A record with addresses has a last one.
pub proof fn lemma_has_last_index(addresses: Map<u32, Address>)
    requires
        addresses.dom().finite(),
        !addresses.dom().is_empty(),
    ensures
        is_last_index(addresses, last_index(addresses)),
    decreases addresses.dom().len(),
{
    let some = addresses.dom().choose();
    assert(addresses.dom().contains(some));
    let rest = addresses.remove(some);
    assert(rest.dom() =~= addresses.dom().remove(some));
    if rest.dom().is_empty() {
        assert forall|i: u32| #[trigger] addresses.contains_key(i) implies i <= some by {
            if i != some {
                assert(rest.dom().contains(i));
            }
        }
        assert(is_last_index(addresses, some));
    } else {
        lemma_has_last_index(rest);
        let other = last_index(rest);
        let greater = if other > some { other } else { some };
        assert forall|i: u32| #[trigger] addresses.contains_key(i) implies i <= greater by {
            if i != some {
                assert(rest.contains_key(i));
            }
        }
        assert(is_last_index(addresses, greater));
    }
}

/// The next index follows a new address.
pub proof fn lemma_next_index_follows(wallet: WalletView, index: u32)
    requires
        wallet.index_to_address.dom().finite(),
        index == wallet.next_index(),
    ensures
        wallet.with_address(index).next_index() == index + 1,
        !wallet.index_to_address.contains_key(index),
{
    let after = wallet.with_address(index).index_to_address;
    if !wallet.index_to_address.dom().is_empty() {
        lemma_has_last_index(wallet.index_to_address);
    }
    assert forall|i: u32| #[trigger] after.contains_key(i) implies i <= index by {
        if i != index {
            assert(wallet.index_to_address.dom().contains(i));
        }
    }
    assert(is_last_index(after, index));
    lemma_last_index(after, index);
}

impl Wallet {
    /// The number of tables of the wallet's store.
    pub const NUM_DBS: u32 = 6;

    /// The tables are in order.
    pub closed spec fn wf(&self) -> bool {
        &&& self.address_to_index.wf()
        &&& self.index_to_address.wf()
        &&& self.utxos.wf()
        &&& self.stxos.wf()
    }

    /// A wallet holds finitely many addresses and outputs.
    pub proof fn tables_are_finite(&self)
        requires
            self.wf(),
        ensures
            self@.address_to_index.dom().finite(),
            self@.index_to_address.dom().finite(),
            self@.utxos.dom().finite(),
            self@.stxos.dom().finite(),
    {
        lemma_rows_map(self.address_to_index.entries());
        lemma_rows_map(self.index_to_address.entries());
        lemma_rows_map(self.utxos.entries());
        lemma_rows_map(self.stxos.entries());
    }

    /// The wallet that a store holds. Where it has a seed, the addresses of an
    /// older wallet are put on record.
    pub fn new(stored: StoredWallet, current: Version) -> (wallet: Result<Self, Error>)
        ensures
            wallet matches Ok(w) && w.wf() && w@ == stored.loaded(current).recovered(),
    {
        let mut indices: Vec<(Address, u32)> = Vec::new();
        let mut i: usize = 0;
        while i < stored.address_to_index.len()
            invariant
                i <= stored.address_to_index.len(),
                indices@ =~= indices_of(stored.address_to_index@.take(i as int)),
            decreases stored.address_to_index.len() - i,
        {
            let row = stored.address_to_index[i];
            indices.push((row.0, key_index(&row.1)));
            i += 1;
        }
        assert(stored.address_to_index@.take(i as int) =~= stored.address_to_index@);
        let mut addresses: Vec<(u32, Address)> = Vec::new();
        let mut j: usize = 0;
        while j < stored.index_to_address.len()
            invariant
                j <= stored.index_to_address.len(),
                addresses@ =~= addresses_of(stored.index_to_address@.take(j as int)),
            decreases stored.index_to_address.len() - j,
        {
            let row = stored.index_to_address[j];
            addresses.push((key_index(&row.0), row.1));
            j += 1;
        }
        assert(stored.index_to_address@.take(j as int) =~= stored.index_to_address@);
        let version = match stored.version {
            Some(version) => version,
            None => current,
        };
        let mut wallet = Wallet {
            seed: stored.seed,
            address_to_index: Table::from_rows(indices),
            index_to_address: Table::from_rows(addresses),
            utxos: Table::from_rows(stored.utxos),
            stxos: Table::from_rows(stored.stxos),
            version,
        };
        assert(wallet@ =~= stored.loaded(current));
        match wallet.recover_legacy_addresses() {
            Ok(()) => Ok(wallet),
            Err(error) => Err(error),
        }
    }

    /// Puts an address on record at an index, in both directions.
    pub fn put_address(&mut self, index: u32, address: Address)
        requires
            old(self).wf(),
        ensures
            final(self).wf(),
            final(self)@ == old(self)@.with_record(index, address),
            final(self)@.index_to_address == old(self)@.index_to_address.insert(index, address),
            final(self)@.address_to_index == old(self)@.address_to_index.insert(address, index),
    {
        self.index_to_address.insert(index, address);
        self.address_to_index.insert(address, index);
        assert(self@ =~= old(self)@.with_record(index, address));
    }

    /// Puts the address of an index on record.
    fn record_address(&mut self, index: u32) -> (result: Result<Address, Error>)
        requires
            old(self).wf(),
        ensures
            final(self).wf(),
            match old(self)@.seed {
                Some(seed) => result == Ok::<Address, Error>(address_at(seed, index))
                    && final(self)@ == old(self)@.with_address(index),
                None => result == Err::<Address, Error>(Error::NoSeed) && final(self)@
                    == old(self)@,
            },
            result matches Ok(address) ==> address@ == blake3_digest(
                public_key(
                    derived_secret(
                        root_key(old(self)@.seed->0).0,
                        root_key(old(self)@.seed->0).1,
                        seq![1u32, 0, 0, index],
                    ),
                ),
            ).take(20),
    {
        let secret = match self.get_signing_key(index) {
            Ok(secret) => secret,
            Err(error) => return Err(error),
        };
        let address = get_address(&verifying_key(&secret));
        self.put_address(index, address);
        Ok(address)
    }

    /// Puts the addresses of an older wallet on record, if there is a seed.
    fn recover_legacy_addresses(&mut self) -> (result: Result<(), Error>)
        requires
            old(self).wf(),
        ensures
            result is Ok,
            final(self).wf(),
            final(self)@ == old(self)@.recovered(),
    {
        if self.seed.is_none() {
            return Ok(());
        }
        let mut index: u32 = 0;
        while index < LEGACY_INDICES
            invariant
                index <= LEGACY_INDICES,
                self.wf(),
                old(self)@.seed is Some,
                self@ == old(self)@.recovered_below(index as nat),
                self@.seed == old(self)@.seed,
            decreases LEGACY_INDICES - index,
        {
            if !self.index_to_address.contains_key(&index) {
                match self.record_address(index) {
                    Ok(_) => {},
                    Err(error) => return Err(error),
                }
            }
            index += 1;
        }
        Ok(())
    }

    /// The secret key of an index.
    pub fn get_signing_key(&self, index: u32) -> (secret: Result<[u8; 32], Error>)
        ensures
            match self@.seed {
                Some(seed) => secret matches Ok(bytes) && bytes@ == secret_at(seed, index) && bytes@
                    == derived_secret(
                    root_key(seed).0,
                    root_key(seed).1,
                    seq![1u32, 0, 0, index],
                ),
                None => secret == Err::<[u8; 32], Error>(Error::NoSeed),
            },
    {
        match &self.seed {
            Some(seed) => secret_key(seed, index),
            None => Err(Error::NoSeed),
        }
    }
}

/// What spends an output, if one of these inputs does: the first one counts.
pub open spec fn spender(spent: Seq<(OutPoint, InPoint)>, outpoint: OutPoint) -> Option<InPoint>
    decreases spent.len(),
{
    if spent.len() == 0 {
        None
    } else {
        match spender(spent.drop_last(), outpoint) {
            Some(inpoint) => Some(inpoint),
            None => if spent.last().0 == outpoint {
                Some(spent.last().1)
            } else {
                None
            },
        }
    }
}

impl WalletView {
    /// The wallet without these unspent outputs.
    pub open spec fn without_utxos(self, outpoints: Seq<OutPoint>) -> WalletView {
        WalletView { utxos: self.utxos.remove_keys(outpoints.to_set()), ..self }
    }

    /// The wallet with these unspent outputs. A new one replaces an old one with
    /// the same outpoint.
    pub open spec fn with_utxos(self, utxos: Map<OutPoint, Output>) -> WalletView {
        WalletView { utxos: self.utxos.union_prefer_right(utxos), ..self }
    }

    /// The outputs of the wallet that these inputs spend.
    pub open spec fn newly_spent(self, spent: Seq<(OutPoint, InPoint)>) -> Map<
        OutPoint,
        SpentOutput,
    > {
        Map::new(
            |outpoint: OutPoint|
                self.utxos.contains_key(outpoint) && spender(spent, outpoint) is Some,
            |outpoint: OutPoint|
                SpentOutput {
                    output: self.utxos[outpoint],
                    inpoint: spender(spent, outpoint)->0,
                },
        )
    }

    /// The wallet after these inputs: what they spend of it is on record as spent.
    pub open spec fn after_spending(self, spent: Seq<(OutPoint, InPoint)>) -> WalletView {
        WalletView {
            utxos: self.utxos.remove_keys(self.newly_spent(spent).dom()),
            stxos: self.stxos.union_prefer_right(self.newly_spent(spent)),
            ..self
        }
    }
}

impl Wallet {
    /// The version of the program that made the wallet's store.
    pub fn version(&self) -> (version: Version)
        ensures
            version == self@.version,
    {
        self.version
    }

    /// Overwrites the seed, or sets it if there is none. Nothing of the former
    /// seed stays.
    pub fn overwrite_seed(&mut self, seed: &[u8; 64]) -> (result: Result<(), Error>)
        requires
            old(self).wf(),
        ensures
            result is Ok,
            final(self).wf(),
            final(self)@ == old(self)@.overwritten(seed@),
    {
        self.seed = Some(*seed);
        self.address_to_index.clear();
        self.index_to_address.clear();
        self.utxos.clear();
        self.stxos.clear();
        self.recover_legacy_addresses()
    }

    /// Whether there is a seed.
    pub fn has_seed(&self) -> (b: bool)
        ensures
            b == (self@.seed is Some),
    {
        self.seed.is_some()
    }

    /// Sets the seed, if there is none. To set the seed that there is changes
    /// nothing; to set another one is an error.
    pub fn set_seed(&mut self, seed: &[u8; 64]) -> (result: Result<(), Error>)
        requires
            old(self).wf(),
        ensures
            final(self).wf(),
            match old(self)@.seed {
                None => result is Ok && final(self)@ == old(self)@.overwritten(seed@),
                Some(current) => final(self)@ == old(self)@ && if current == seed@ {
                    result is Ok
                } else {
                    result == Err::<(), Error>(Error::SeedAlreadyExists)
                },
            },
    {
        match &self.seed {
            Some(current) => {
                if same_bytes(current, seed) {
                    Ok(())
                } else {
                    proof {
                        if current@ == seed@ {
                            assert forall|i: int| 0 <= i < 64 implies current[i] == seed[i] by {
                                assert(current@[i] == seed@[i]);
                            }
                            assert(*current =~= *seed);
                        }
                    }
                    Err(Error::SeedAlreadyExists)
                }
            },
            None => self.overwrite_seed(seed),
        }
    }

    /// Sets the seed of an English phrase, if there is no seed. To set the seed
    /// that there is changes nothing; to set another one is an error, and so is a
    /// phrase that is none.
    pub fn set_seed_from_mnemonic(&mut self, mnemonic: &str) -> (result: Result<(), Error>)
        requires
            old(self).wf(),
        ensures
            final(self).wf(),
            match phrase_seed(mnemonic@, Language::English, ""@) {
                Err(error) => final(self)@ == old(self)@ && result == Err::<(), Error>(
                    Error::ParseMnemonic(error),
                ),
                Ok(seed) => match old(self)@.seed {
                    None => result is Ok && final(self)@ == old(self)@.overwritten(seed),
                    Some(current) => final(self)@ == old(self)@ && if current == seed {
                        result is Ok
                    } else {
                        result == Err::<(), Error>(Error::SeedAlreadyExists)
                    },
                },
            },
    {
        match mnemonic_seed(mnemonic) {
            Ok(seed) => self.set_seed(&seed),
            Err(error) => Err(error),
        }
    }

    /// Forgets unspent outputs.
    pub fn delete_utxos(&mut self, outpoints: &Vec<OutPoint>)
        requires
            old(self).wf(),
        ensures
            final(self).wf(),
            final(self)@ == old(self)@.without_utxos(outpoints@),
    {
        let mut i: usize = 0;
        assert(self@ =~= old(self)@.without_utxos(outpoints@.take(0)));
        while i < outpoints.len()
            invariant
                i <= outpoints.len(),
                self.wf(),
                self@ == old(self)@.without_utxos(outpoints@.take(i as int)),
            decreases outpoints.len() - i,
        {
            self.utxos.remove(&outpoints[i]);
            proof {
                let done = outpoints@.take(i as int);
                assert(outpoints@.take(i + 1) =~= done.push(outpoints@[i as int]));
                broadcast use vstd::seq_lib::group_seq_properties;
                assert(done.push(outpoints@[i as int]).to_set() =~= done.to_set().insert(
                    outpoints@[i as int],
                ));
                assert(self@ =~= old(self)@.without_utxos(outpoints@.take(i + 1)));
            }
            i += 1;
        }
        assert(outpoints@.take(i as int) =~= outpoints@);
    }

    /// Puts the outputs that inputs spend on record as spent. An output that the
    /// wallet does not hold is passed over.
    pub fn spend_utxos(&mut self, spent: &Vec<(OutPoint, InPoint)>)
        requires
            old(self).wf(),
        ensures
            final(self).wf(),
            final(self)@ == old(self)@.after_spending(spent@),
    {
        let mut i: usize = 0;
        assert(self@ =~= old(self)@.after_spending(spent@.take(0)));
        while i < spent.len()
            invariant
                i <= spent.len(),
                self.wf(),
                self@ == old(self)@.after_spending(spent@.take(i as int)),
            decreases spent.len() - i,
        {
            let outpoint = spent[i].0;
            let inpoint = spent[i].1;
            if let Some(output) = self.utxos.remove(&outpoint) {
                let spent_output = SpentOutput { output, inpoint };
                self.stxos.insert(outpoint, spent_output);
            }
            proof {
                let next = spent@.take(i + 1);
                assert(next.drop_last() =~= spent@.take(i as int));
                let start = old(self)@;
                assert forall|k: OutPoint| #[trigger]
                    start.newly_spent(next).contains_key(k) implies (
                start.newly_spent(spent@.take(i as int)).contains_key(k) || k == outpoint) by {}
                assert(self@.utxos =~= start.after_spending(next).utxos);
                assert(self@.stxos =~= start.after_spending(next).stxos);
                assert(self@ =~= start.after_spending(next));
            }
            i += 1;
        }
        assert(spent@.take(i as int) =~= spent@);
    }

    /// Takes unspent outputs on record.
    pub fn put_utxos(&mut self, utxos: &Vec<(OutPoint, Output)>)
        requires
            old(self).wf(),
        ensures
            final(self).wf(),
            final(self)@ == old(self)@.with_utxos(rows_map(utxos@)),
    {
        let mut i: usize = 0;
        assert(self@ =~= old(self)@.with_utxos(rows_map(utxos@.take(0))));
        while i < utxos.len()
            invariant
                i <= utxos.len(),
                self.wf(),
                self@ == old(self)@.with_utxos(rows_map(utxos@.take(i as int))),
            decreases utxos.len() - i,
        {
            self.utxos.insert(utxos[i].0, utxos[i].1.clone());
            proof {
                let next = utxos@.take(i + 1);
                assert(next.drop_last() =~= utxos@.take(i as int));
                assert(self@ =~= old(self)@.with_utxos(rows_map(next)));
            }
            i += 1;
        }
        assert(utxos@.take(i as int) =~= utxos@);
    }

    /// What the wallet holds. It is an error where the sum does not fit.
    pub fn get_balance(&self) -> (result: Result<Balance, Error>)
        requires
            self.wf(),
        ensures
            match result {
                Ok(balance) => balance.total == total_value(self@.utxos) && balance.available
                    == available_value(self@.utxos),
                Err(error) => error is AmountOverflow && total_value(self@.utxos) > u64::MAX,
            },
    {
        balance_of(&self.utxos)
    }

    /// The unspent outputs.
    pub fn get_utxos(&self) -> (utxos: Vec<(OutPoint, Output)>)
        requires
            self.wf(),
        ensures
            lists(utxos@, self@.utxos),
    {
        copy_coins(self.utxos.rows())
    }

    /// Finds coins worth at least the value, the smallest first, among the outputs
    /// that are no withdrawals. It stops at the first coin with which they are
    /// worth more than the value. Returns their sum and the coins.
    pub fn select_coins(&self, value: u64) -> (result: Result<(u64, Vec<Coin>), Error>)
        requires
            self.wf(),
        ensures
            selects(self@.utxos, value, found(result)),
            match result {
                Ok((total, coins)) => total == worth(coins@) && selects(
                    self@.utxos,
                    value,
                    Selection::Coins(coins@),
                ),
                Err(Error::NotEnoughFunds) => selects(self@.utxos, value, Selection::NotEnough),
                Err(Error::AmountOverflow) => selects(self@.utxos, value, Selection::Overflow),
                Err(_) => false,
            },
    {
        select_coins(&self.utxos, value)
    }

    /// The addresses on record, none of them twice.
    pub fn get_addresses(&self) -> (addresses: Vec<Address>)
        requires
            self.wf(),
        ensures
            addresses@.no_duplicates(),
            addresses@.to_set() == self@.index_to_address.values(),
    {
        let rows = self.index_to_address.rows();
        let mut addresses: Vec<Address> = Vec::new();
        let mut i: usize = 0;
        while i < rows.len()
            invariant
                i <= rows.len(),
                lists(rows@, self@.index_to_address),
                addresses@.no_duplicates(),
                forall|a: Address|
                    addresses@.contains(a) <==> exists|k: int|
                        0 <= k < i && (#[trigger] rows@[k]).1 == a,
            decreases rows.len() - i,
        {
            let address = rows[i].1;
            let mut known: bool = false;
            let mut j: usize = 0;
            while j < addresses.len() && !known
                invariant
                    j <= addresses.len(),
                    known ==> addresses@.contains(address),
                    !known ==> forall|k: int| 0 <= k < j ==> addresses@[k] != address,
                decreases addresses.len() - j + if known { 0int } else { 1int },
            {
                if addresses[j].same(&address) {
                    assert(addresses@[j as int] == address);
                    known = true;
                } else {
                    j += 1;
                }
            }
            let ghost before = addresses@;
            if !known {
                addresses.push(address);
            }
            proof {
                assert forall|a: Address| addresses@.contains(a) <==> exists|k: int|
                    0 <= k < i + 1 && (#[trigger] rows@[k]).1 == a by {
                    if addresses@.contains(a) {
                        if before.contains(a) {
                        } else {
                            assert(a == address);
                            assert(rows@[i as int].1 == a);
                        }
                    }
                    if exists|k: int| 0 <= k < i + 1 && (#[trigger] rows@[k]).1 == a {
                        let k = choose|k: int| 0 <= k < i + 1 && (#[trigger] rows@[k]).1 == a;
                        if k < i {
                            assert(before.contains(a));
                            let p = choose|p: int| 0 <= p < before.len() && before[p] == a;
                            assert(addresses@[p] == a);
                        } else if !known {
                            assert(addresses@[addresses@.len() - 1] == a);
                        }
                    }
                }
            }
            i += 1;
        }
        proof {
            lemma_rows_map(rows@);
            let m = self@.index_to_address;
            assert forall|a: Address| addresses@.contains(a) <==> m.values().contains(a) by {
                if addresses@.contains(a) {
                    let k = choose|k: int| 0 <= k < i && (#[trigger] rows@[k]).1 == a;
                    assert(m.contains_key(rows@[k].0));
                    assert(m[rows@[k].0] == a);
                }
                if m.values().contains(a) {
                    let key = choose|key: u32| m.contains_key(key) && m[key] == a;
                    assert(m.contains_key(key));
                    let k = choose|k: int| 0 <= k < rows@.len() && (#[trigger] rows@[k]).0 == key;
                    assert(rows@[k].1 == a);
                }
            }
            assert(addresses@.to_set() =~= m.values());
        }
        addresses
    }

    /// The last index with its address.
    fn last_entry(&self) -> (last: Option<(u32, Address)>)
        requires
            self.wf(),
        ensures
            self@.index_to_address.dom().finite(),
            match last {
                Some((index, address)) => is_last_index(self@.index_to_address, index)
                    && self@.index_to_address[index] == address,
                None => self@.index_to_address.dom().is_empty(),
            },
    {
        let rows = self.index_to_address.rows();
        let mut last: Option<(u32, Address)> = None;
        let mut i: usize = 0;
        while i < rows.len()
            invariant
                i <= rows.len(),
                last is None <==> i == 0,
                last matches Some(row) ==> exists|k: int| 0 <= k < i && #[trigger] rows@[k] == row,
                last matches Some(row) ==> forall|k: int|
                    0 <= k < i ==> (#[trigger] rows@[k]).0 <= row.0,
            decreases rows.len() - i,
        {
            let row = rows[i];
            assert(rows@[i as int] == row);
            last = match last {
                Some(greatest) => if row.0 > greatest.0 {
                    Some(row)
                } else {
                    Some(greatest)
                },
                None => Some(row),
            };
            i += 1;
        }
        proof {
            lemma_rows_map(rows@);
            let m = self@.index_to_address;
            if last is None {
                assert forall|k: u32| !m.dom().contains(k) by {
                    assert(!m.contains_key(k));
                }
                assert(m.dom() =~= Set::empty());
            } else {
                let row = last->0;
                let k = choose|k: int| 0 <= k < i && #[trigger] rows@[k] == row;
                assert(m.contains_key(rows@[k].0));
                assert forall|index: u32| #[trigger] m.contains_key(index) implies index
                    <= row.0 by {
                    let p = choose|p: int| 0 <= p < rows@.len() && (#[trigger] rows@[p]).0 == index;
                }
            }
        }
        last
    }

    /// The index that the next new address takes. There is none once the last
    /// index of all is taken.
    pub fn next_index(&self) -> (index: Option<u32>)
        requires
            self.wf(),
        ensures
            match index {
                Some(i) => i == self@.next_index(),
                None => self@.next_index() > u32::MAX,
            },
            index is Some <==> self@.has_room(1),
            self@.index_to_address.dom().finite(),
            index matches Some(n) ==> (forall|i: u32| #[trigger]
                self@.index_to_address.contains_key(i) ==> i < n) && (n == 0
                || self@.index_to_address.contains_key((n - 1) as u32)),
            index is None ==> self@.index_to_address.contains_key(u32::MAX),
    {
        match self.last_entry() {
            Some((last, _)) => {
                proof {
                    lemma_last_index(self@.index_to_address, last);
                }
                last.checked_add(1)
            },
            None => {
                proof {
                    assert forall|i: u32| !self@.index_to_address.contains_key(i) by {
                        assert(!self@.index_to_address.dom().contains(i));
                    }
                }
                Some(0)
            },
        }
    }

    /// Derives an address at an index that has none. A change output takes one of
    /// these.
    pub fn get_new_address(&mut self) -> (result: Result<Address, Error>)
        requires
            old(self).wf(),
            old(self)@.has_room(1),
        ensures
            final(self).wf(),
            match old(self)@.seed {
                Some(seed) => result == Ok::<Address, Error>(
                    address_at(seed, old(self)@.next_index() as u32),
                ) && final(self)@ == old(self)@.with_address(old(self)@.next_index() as u32),
                None => result == Err::<Address, Error>(Error::NoSeed) && final(self)@
                    == old(self)@,
            },
            result matches Ok(address) ==> address@ == blake3_digest(
                public_key(
                    derived_secret(
                        root_key(old(self)@.seed->0).0,
                        root_key(old(self)@.seed->0).1,
                        seq![1u32, 0, 0, old(self)@.next_index() as u32],
                    ),
                ),
            ).take(20),
    {
        match self.next_index() {
            Some(index) => self.record_address(index),
            None => Err(Error::NoSeed),
        }
    }

    /// Whether any output that the wallet holds or held pays this address.
    pub fn address_received(&self, address: &Address) -> (b: bool)
        requires
            self.wf(),
        ensures
            b == self@.received(*address),
            b == ((exists|outpoint: OutPoint| #[trigger]
                self@.utxos.contains_key(outpoint) && self@.utxos[outpoint].address == *address)
                || (exists|outpoint: OutPoint| #[trigger]
                self@.stxos.contains_key(outpoint) && self@.stxos[outpoint].output.address
                    == *address)),
    {
        let utxos = self.utxos.rows();
        proof {
            lemma_rows_map(utxos@);
            lemma_rows_map(self.stxos.entries());
        }
        let mut i: usize = 0;
        while i < utxos.len()
            invariant
                i <= utxos.len(),
                lists(utxos@, self@.utxos),
                forall|k: int| 0 <= k < i ==> (#[trigger] utxos@[k]).1.address != *address,
            decreases utxos.len() - i,
        {
            if utxos[i].1.address.same(address) {
                proof {
                    lemma_rows_map(utxos@);
                    assert(self@.utxos.contains_key(utxos@[i as int].0));
                }
                return true;
            }
            i += 1;
        }
        let stxos = self.stxos.rows();
        let mut j: usize = 0;
        while j < stxos.len()
            invariant
                j <= stxos.len(),
                lists(stxos@, self@.stxos),
                forall|k: int| 0 <= k < j ==> (#[trigger] stxos@[k]).1.output.address != *address,
            decreases stxos.len() - j,
        {
            if stxos[j].1.output.address.same(address) {
                proof {
                    lemma_rows_map(stxos@);
                    assert(self@.stxos.contains_key(stxos@[j as int].0));
                }
                return true;
            }
            j += 1;
        }
        proof {
            assert forall|k: OutPoint| #[trigger]
                self@.utxos.contains_key(k) implies self@.utxos[k].address != *address by {
                let p = choose|p: int| 0 <= p < utxos@.len() && (#[trigger] utxos@[p]).0 == k;
            }
            assert forall|k: OutPoint| #[trigger]
                self@.stxos.contains_key(k) implies self@.stxos[k].output.address != *address by {
                let p = choose|p: int| 0 <= p < stxos@.len() && (#[trigger] stxos@[p]).0 == k;
            }
        }
        false
    }

    /// The address with the greatest index.
    pub fn try_get_last_address(&self) -> (address: Option<Address>)
        requires
            self.wf(),
        ensures
            match address {
                Some(a) => !self@.index_to_address.dom().is_empty() && a
                    == self@.index_to_address[last_index(self@.index_to_address)],
                None => self@.index_to_address.dom().is_empty(),
            },
            address matches Some(a) ==> exists|last: u32| #[trigger]
                self@.index_to_address.contains_key(last) && self@.index_to_address[last] == a
                    && forall|i: u32| #[trigger]
                    self@.index_to_address.contains_key(i) ==> i <= last,
    {
        match self.last_entry() {
            Some((index, address)) => {
                proof {
                    lemma_last_index(self@.index_to_address, index);
                }
                Some(address)
            },
            None => None,
        }
    }

    /// How many addresses are on record.
    pub fn get_num_addresses(&self) -> (count: u32)
        requires
            self.wf(),
        ensures
            count == self@.index_to_address.len() % 0x1_0000_0000,
    {
        let count = self.index_to_address.len();
        let low: u64 = count as u64 % 0x1_0000_0000u64;
        low as u32
    }
}

impl WalletView {
    /// There is an address on record, and the last one never received.
    pub open spec fn last_is_unused(self) -> bool {
        !self.index_to_address.dom().is_empty() && !self.received(
            self.index_to_address[last_index(self.index_to_address)],
        )
    }

    /// The address to receive at: the last one on record as long as it never
    /// received, then a new one.
    pub open spec fn receive_address(self) -> Address {
        if self.last_is_unused() {
            self.index_to_address[last_index(self.index_to_address)]
        } else {
            address_at(self.seed->0, self.next_index() as u32)
        }
    }

    /// The wallet with the address to receive at on record.
    pub open spec fn receiving(self) -> WalletView {
        if self.last_is_unused() {
            self
        } else {
            self.with_address(self.next_index() as u32)
        }
    }
}

impl Wallet {
    /// The address to receive at. It is a new one only once the current one has
    /// received.
    pub fn get_receive_address(&mut self) -> (result: Result<Address, Error>)
        requires
            old(self).wf(),
            old(self)@.last_is_unused() || old(self)@.has_room(1),
        ensures
            final(self).wf(),
            if old(self)@.last_is_unused() || old(self)@.seed is Some {
                result == Ok::<Address, Error>(old(self)@.receive_address()) && final(self)@
                    == old(self)@.receiving()
            } else {
                result == Err::<Address, Error>(Error::NoSeed) && final(self)@ == old(self)@
            },
    {
        match self.try_get_last_address() {
            Some(address) => {
                if !self.address_received(&address) {
                    return Ok(address);
                }
            },
            None => {},
        }
        self.get_new_address()
    }

    /// The address with the greatest index, or a new one if there is none.
    pub fn get_or_generate_last_address(&mut self) -> (result: Result<Address, Error>)
        requires
            old(self).wf(),
        ensures
            final(self).wf(),
            if !old(self)@.index_to_address.dom().is_empty() {
                result == Ok::<Address, Error>(
                    old(self)@.index_to_address[last_index(old(self)@.index_to_address)],
                ) && final(self)@ == old(self)@
            } else {
                match old(self)@.seed {
                    Some(seed) => result == Ok::<Address, Error>(address_at(seed, 0))
                        && final(self)@ == old(self)@.with_address(0),
                    None => result == Err::<Address, Error>(Error::NoSeed) && final(self)@
                        == old(self)@,
                }
            },
    {
        match self.try_get_last_address() {
            Some(address) => Ok(address),
            None => self.get_new_address(),
        }
    }

    /// The unspent output with this outpoint.
    pub fn utxo(&self, outpoint: &OutPoint) -> (output: Option<&Output>)
        requires
            self.wf(),
        ensures
            output is Some <==> self@.utxos.contains_key(*outpoint),
            output matches Some(o) ==> *o == self@.utxos[*outpoint],
    {
        self.utxos.get(outpoint)
    }

    /// The index of an address on record.
    pub fn index_of(&self, address: &Address) -> (index: Option<u32>)
        requires
            self.wf(),
        ensures
            index is Some <==> self@.address_to_index.contains_key(*address),
            index matches Some(i) ==> i == self@.address_to_index[*address],
    {
        match self.address_to_index.get(address) {
            Some(index) => Some(*index),
            None => None,
        }
    }

    /// The rows to store.
    pub fn to_stored(&self) -> (stored: StoredWallet)
        requires
            self.wf(),
        ensures
            stored.version == Some(self@.version),
            forall|current: Version| #[trigger] stored.loaded(current) == self@,
            stored.index_to_address@.len() == self@.index_to_address.len(),
            stored.address_to_index@.len() == self@.address_to_index.len(),
            stored.utxos@.len() == self@.utxos.len(),
            stored.stxos@.len() == self@.stxos.len(),
    {
        let index_rows = self.index_to_address.rows();
        let mut index_to_address: Vec<([u8; 4], Address)> = Vec::new();
        let mut i: usize = 0;
        while i < index_rows.len()
            invariant
                i <= index_rows.len(),
                addresses_of(index_to_address@) =~= index_rows@.take(i as int),
            decreases index_rows.len() - i,
        {
            let ghost before = index_to_address@;
            index_to_address.push((index_key(index_rows[i].0), index_rows[i].1));
            proof {
                let row = index_rows@[i as int];
                assert(addresses_of(index_to_address@) =~= addresses_of(before).push(row));
                assert(index_rows@.take(i + 1) =~= index_rows@.take(i as int).push(row));
            }
            i += 1;
        }
        assert(index_rows@.take(i as int) =~= index_rows@);
        let address_rows = self.address_to_index.rows();
        let mut address_to_index: Vec<(Address, [u8; 4])> = Vec::new();
        let mut j: usize = 0;
        while j < address_rows.len()
            invariant
                j <= address_rows.len(),
                indices_of(address_to_index@) =~= address_rows@.take(j as int),
            decreases address_rows.len() - j,
        {
            let ghost before = address_to_index@;
            address_to_index.push((address_rows[j].0, index_key(address_rows[j].1)));
            proof {
                let row = address_rows@[j as int];
                assert(indices_of(address_to_index@) =~= indices_of(before).push(row));
                assert(address_rows@.take(j + 1) =~= address_rows@.take(j as int).push(row));
            }
            j += 1;
        }
        assert(address_rows@.take(j as int) =~= address_rows@);
        let spent_rows = self.stxos.rows();
        let mut stxos: Vec<(OutPoint, SpentOutput)> = Vec::new();
        let mut k: usize = 0;
        while k < spent_rows.len()
            invariant
                k <= spent_rows.len(),
                stxos@ =~= spent_rows@.take(k as int),
            decreases spent_rows.len() - k,
        {
            stxos.push((spent_rows[k].0, spent_rows[k].1.clone()));
            k += 1;
        }
        assert(spent_rows@.take(k as int) =~= spent_rows@);
        proof {
            lemma_rows_map(index_rows@);
            lemma_rows_map(address_rows@);
            lemma_rows_map(spent_rows@);
            assert(addresses_of(index_to_address@).len() == index_to_address@.len());
            assert(indices_of(address_to_index@).len() == address_to_index@.len());
        }
        let stored = StoredWallet {
            seed: self.seed,
            address_to_index,
            index_to_address,
            utxos: self.get_utxos(),
            stxos,
            version: Some(self.version),
        };
        proof {
            lemma_rows_map(stored.utxos@);
        }
        assert forall|current: Version| #[trigger] stored.loaded(current) == self@ by {
            assert(stored.loaded(current) =~= self@);
        }
        stored
    }
}

} // verus!
