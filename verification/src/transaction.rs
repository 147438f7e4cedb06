//! Transactions that spend what the wallet holds, and their authorization.

use vstd::prelude::*;

use crate::coins::{
    available_value, found_coins_are_the_smallest_that_cover, selects, worth, Coin, Selection,
};
use crate::dests::{dests_sum, TransferDests};
use crate::keys::{
    accepted, address_at, public_key, secret_at, sign, signature_of, verify, verifying_key,
};
use crate::types::{
    Address, Authorization, AuthorizationError, AuthorizedTransaction, Error, OutPoint, Output,
    OutputContent, Transaction, UtreexoError,
};
use crate::wallet::{lemma_next_index_follows, Wallet, WalletView};

verus! {

/// The coins that a transaction spends, and what comes back of them.
pub struct Funding {
    pub coins: Vec<Coin>,
    pub change: u64,
}

/// This comes of looking for coins for an amount: the coins are those of a
/// search, and the change is what they are worth beyond the amount. An amount
/// that does not fit is an error, and so is each way in which a search fails.
pub open spec fn funds(
    wallet: WalletView,
    amount: nat,
    result: Result<(Seq<Coin>, u64), Error>,
) -> bool {
    if amount > u64::MAX {
        result matches Err(error) && error is AmountOverflow
    } else {
        match result {
            Ok((coins, change)) => selects(
                wallet.utxos,
                amount as u64,
                Selection::Coins(coins),
            ) && worth(coins) == amount + change,
            Err(Error::NotEnoughFunds) => selects(
                wallet.utxos,
                amount as u64,
                Selection::NotEnough,
            ),
            Err(Error::AmountOverflow) => selects(
                wallet.utxos,
                amount as u64,
                Selection::Overflow,
            ),
            Err(_) => false,
        }
    }
}

/// The coins and the change of a funding.
pub open spec fn funding_view(result: Result<Funding, Error>) -> Result<(Seq<Coin>, u64), Error> {
    match result {
        Ok(funding) => Ok((funding.coins@, funding.change)),
        Err(error) => Err(error),
    }
}

/// The wallet's coins cover this amount.
pub open spec fn covers(wallet: WalletView, amount: nat) -> bool {
    amount <= u64::MAX && amount <= available_value(wallet.utxos)
}

/// The inputs that spend coins with these hashes.
pub open spec fn inputs_view(coins: Seq<Coin>, hashes: Seq<[u8; 32]>) -> Seq<
    (OutPoint, [u8; 32]),
> {
    Seq::new(coins.len(), |i: int| (coins[i].0, hashes[i]))
}

/// The outputs that pay destinations.
pub open spec fn payments_view(dests: Seq<(Address, u64)>) -> Seq<Output> {
    dests.map_values(
        |dest: (Address, u64)| Output { address: dest.0, content: OutputContent::Value(dest.1) },
    )
}

/// The outputs of a transfer: one for each destination, then the change.
pub open spec fn transfer_outputs(
    dests: Seq<(Address, u64)>,
    change_address: Address,
    change: u64,
) -> Seq<Output> {
    payments_view(dests).push(
        Output { address: change_address, content: OutputContent::Value(change) },
    )
}

/// The outputs of a withdrawal: the withdrawal, then the change.
pub open spec fn withdrawal_outputs(
    withdrawal_address: Address,
    withdrawal: OutputContent,
    change_address: Address,
    change: u64,
) -> Seq<Output> {
    seq![
        Output { address: withdrawal_address, content: withdrawal },
        Output { address: change_address, content: OutputContent::Value(change) },
    ]
}

/// The sum of the values of outputs.
pub open spec fn outputs_sum(outputs: Seq<Output>) -> nat
    decreases outputs.len(),
{
    if outputs.len() == 0 {
        0
    } else {
        outputs_sum(outputs.drop_last()) + outputs.last().value() as nat
    }
}

/// Coins and change for an amount, given as the sum of parts if it fits.
fn fund(wallet: &Wallet, amount: Option<u64>, Ghost(exact): Ghost<nat>) -> (result: Result<
    Funding,
    Error,
>)
    requires
        wallet.wf(),
        match amount {
            Some(sum) => sum == exact,
            None => exact > u64::MAX,
        },
    ensures
        funds(wallet@, exact, funding_view(result)),
{
    match amount {
        Some(sum) => match wallet.select_coins(sum) {
            Ok((total, coins)) => {
                proof {
                    found_coins_are_the_smallest_that_cover(wallet@.utxos, sum, coins@);
                }
                Ok(Funding { coins, change: total - sum })
            },
            Err(error) => Err(error),
        },
        None => Err(Error::AmountOverflow),
    }
}

/// The sum of two amounts, where the first fits.
fn plus(a: Option<u64>, b: u64) -> (sum: Option<u64>)
    ensures
        sum == match a {
            Some(x) => if x + b <= u64::MAX {
                Some((x + b) as u64)
            } else {
                None
            },
            None => None,
        },
{
    match a {
        Some(x) => x.checked_add(b),
        None => None,
    }
}

/// The inputs that spend coins with these hashes.
fn inputs(coins: &Vec<Coin>, hashes: &Vec<[u8; 32]>) -> (inputs: Vec<(OutPoint, [u8; 32])>)
    requires
        hashes@.len() == coins@.len(),
    ensures
        inputs@ == inputs_view(coins@, hashes@),
{
    let mut inputs: Vec<(OutPoint, [u8; 32])> = Vec::new();
    let mut i: usize = 0;
    while i < coins.len()
        invariant
            i <= coins.len(),
            hashes@.len() == coins@.len(),
            inputs@ =~= inputs_view(coins@, hashes@).take(i as int),
        decreases coins.len() - i,
    {
        inputs.push((coins[i].0, hashes[i]));
        i += 1;
    }
    assert(inputs_view(coins@, hashes@).take(i as int) =~= inputs_view(coins@, hashes@));
    inputs
}

/// The outputs that pay destinations.
fn payments(dests: &Vec<(Address, u64)>) -> (outputs: Vec<Output>)
    ensures
        outputs@ == payments_view(dests@),
{
    let mut outputs: Vec<Output> = Vec::new();
    let mut i: usize = 0;
    while i < dests.len()
        invariant
            i <= dests.len(),
            outputs@ =~= payments_view(dests@.take(i as int)),
        decreases dests.len() - i,
    {
        outputs.push(Output { address: dests[i].0, content: OutputContent::Value(dests[i].1) });
        i += 1;
    }
    assert(dests@.take(i as int) =~= dests@);
    outputs
}

impl Wallet {
    /// Coins and change for a withdrawal.
    pub fn fund_withdrawal(&self, value: u64, main_fee: u64, fee: u64) -> (result: Result<
        Funding,
        Error,
    >)
        requires
            self.wf(),
        ensures
            funds(self@, (value + fee + main_fee) as nat, funding_view(result)),
            result matches Ok(funding) ==> funds(
                self@,
                (value + fee + main_fee) as nat,
                Ok((funding.coins@, funding.change)),
            ),
            result matches Err(error) ==> funds(
                self@,
                (value + fee + main_fee) as nat,
                Err(error),
            ),
    {
        let amount = plus(value.checked_add(fee), main_fee);
        fund(self, amount, Ghost((value + fee + main_fee) as nat))
    }

    /// Coins and change for a transfer. A transfer without a destination is an
    /// error.
    pub fn fund_transaction_many(&self, dests: &TransferDests, fee: u64) -> (result: Result<
        Funding,
        Error,
    >)
        requires
            self.wf(),
        ensures
            if dests.entries().len() == 0 {
                result matches Err(error) && error is NoTransferDestination
            } else {
                funds(self@, dests_sum(dests.entries()) + fee as nat, funding_view(result))
            },
            result matches Ok(funding) ==> dests.entries().len() > 0 && funds(
                self@,
                dests_sum(dests.entries()) + fee as nat,
                Ok((funding.coins@, funding.change)),
            ),
            result matches Err(error) ==> dests.entries().len() == 0 || funds(
                self@,
                dests_sum(dests.entries()) + fee as nat,
                Err(error),
            ),
    {
        if dests.rows().len() == 0 {
            return Err(Error::NoTransferDestination);
        }
        let amount = plus(dests.total(), fee);
        fund(self, amount, Ghost(dests_sum(dests.entries()) + fee as nat))
    }

    /// The withdrawal that spends funded coins with these hashes, once a proof that
    /// they are unspent was asked for. Both outputs pay new addresses.
    pub fn finish_withdrawal<P>(
        &mut self,
        funding: &Funding,
        hashes: &Vec<[u8; 32]>,
        proved: Result<P, UtreexoError>,
        withdrawal: OutputContent,
    ) -> (result: Result<Transaction<P>, Error>)
        requires
            old(self).wf(),
            hashes@.len() == funding.coins@.len(),
            proved is Ok ==> old(self)@.has_room(2),
        ensures
            final(self).wf(),
            match proved {
                Err(error) => result == Err::<Transaction<P>, Error>(Error::Utreexo(error))
                    && final(self)@ == old(self)@,
                Ok(unspent) => match old(self)@.seed {
                    None => result == Err::<Transaction<P>, Error>(Error::NoSeed) && final(self)@
                        == old(self)@,
                    Some(seed) => {
                        let first = old(self)@.next_index() as u32;
                        let second = (first + 1) as u32;
                        &&& result matches Ok(tx)
                        &&& tx.inputs@ == inputs_view(funding.coins@, hashes@)
                        &&& tx.proof == unspent
                        &&& tx.outputs@ == withdrawal_outputs(
                            address_at(seed, first),
                            withdrawal,
                            address_at(seed, second),
                            funding.change,
                        )
                        &&& final(self)@ == old(self)@.with_address(first).with_address(second)
                    },
                },
            },
            result matches Ok(tx) ==> tx.inputs@.len() == funding.coins@.len() && forall|i: int|
                0 <= i < funding.coins@.len() ==> (#[trigger] tx.inputs@[i]).0
                    == funding.coins@[i].0 && tx.inputs@[i].1 == hashes@[i],
            result matches Ok(tx) ==> tx.outputs@.len() == 2 && tx.outputs@[0].content == withdrawal
                && tx.outputs@[1].content == OutputContent::Value(funding.change),
    {
        let unspent = match proved {
            Ok(unspent) => unspent,
            Err(error) => return Err(Error::Utreexo(error)),
        };
        let spent = inputs(&funding.coins, hashes);
        let next = self.next_index();
        proof {
            lemma_next_index_follows(self@, next->0);
        }
        let withdrawal_address = match self.get_new_address() {
            Ok(address) => address,
            Err(error) => return Err(error),
        };
        let change_address = match self.get_new_address() {
            Ok(address) => address,
            Err(error) => return Err(error),
        };
        let mut outputs: Vec<Output> = Vec::new();
        outputs.push(Output { address: withdrawal_address, content: withdrawal });
        outputs.push(
            Output { address: change_address, content: OutputContent::Value(funding.change) },
        );
        assert(outputs@ =~= withdrawal_outputs(
            withdrawal_address,
            withdrawal,
            change_address,
            funding.change,
        ));
        Ok(Transaction { inputs: spent, proof: unspent, outputs })
    }

    /// The transfer that spends funded coins with these hashes, once a proof that
    /// they are unspent was asked for. The change is paid to a new address.
    pub fn finish_transaction_many<P>(
        &mut self,
        funding: &Funding,
        hashes: &Vec<[u8; 32]>,
        proved: Result<P, UtreexoError>,
        dests: &TransferDests,
    ) -> (result: Result<Transaction<P>, Error>)
        requires
            old(self).wf(),
            hashes@.len() == funding.coins@.len(),
            proved is Ok ==> old(self)@.has_room(1),
        ensures
            final(self).wf(),
            match proved {
                Err(error) => result == Err::<Transaction<P>, Error>(Error::Utreexo(error))
                    && final(self)@ == old(self)@,
                Ok(unspent) => match old(self)@.seed {
                    None => result == Err::<Transaction<P>, Error>(Error::NoSeed) && final(self)@
                        == old(self)@,
                    Some(seed) => {
                        let index = old(self)@.next_index() as u32;
                        &&& result matches Ok(tx)
                        &&& tx.inputs@ == inputs_view(funding.coins@, hashes@)
                        &&& tx.proof == unspent
                        &&& tx.outputs@ == transfer_outputs(
                            dests.entries(),
                            address_at(seed, index),
                            funding.change,
                        )
                        &&& final(self)@ == old(self)@.with_address(index)
                    },
                },
            },
            result matches Ok(tx) ==> tx.inputs@.len() == funding.coins@.len() && forall|i: int|
                0 <= i < funding.coins@.len() ==> (#[trigger] tx.inputs@[i]).0
                    == funding.coins@[i].0 && tx.inputs@[i].1 == hashes@[i],
            result matches Ok(tx) ==> tx.outputs@.len() == dests.entries().len() + 1 && forall|
                i: int,
            |
                0 <= i < dests.entries().len() ==> (#[trigger] tx.outputs@[i]).address
                    == dests.entries()[i].0 && tx.outputs@[i].content == OutputContent::Value(
                    dests.entries()[i].1,
                ),
            result matches Ok(tx) ==> tx.outputs@[dests.entries().len() as int].content
                == OutputContent::Value(funding.change),
    {
        let unspent = match proved {
            Ok(unspent) => unspent,
            Err(error) => return Err(Error::Utreexo(error)),
        };
        let spent = inputs(&funding.coins, hashes);
        let mut outputs = payments(dests.rows());
        let change_address = match self.get_new_address() {
            Ok(address) => address,
            Err(error) => return Err(error),
        };
        outputs.push(
            Output { address: change_address, content: OutputContent::Value(funding.change) },
        );
        Ok(Transaction { inputs: spent, proof: unspent, outputs })
    }
}

/// Each hash is one that the function gives for the coin at its place.
pub open spec fn hashed<H: Fn(&Coin) -> [u8; 32]>(
    utxo_hash: H,
    coins: Seq<Coin>,
    hashes: Seq<[u8; 32]>,
) -> bool {
    hashes.len() == coins.len() && forall|i: int|
        0 <= i < coins.len() ==> call_ensures(utxo_hash, (&coins[i],), #[trigger] hashes[i])
}

/// The hashes of coins.
fn hash_coins<H: Fn(&Coin) -> [u8; 32]>(utxo_hash: &H, coins: &Vec<Coin>) -> (hashes: Vec<
    [u8; 32],
>)
    requires
        forall|coin: &Coin| call_requires(*utxo_hash, (coin,)),
    ensures
        hashed(*utxo_hash, coins@, hashes@),
{
    let mut hashes: Vec<[u8; 32]> = Vec::new();
    let mut i: usize = 0;
    while i < coins.len()
        invariant
            i <= coins.len(),
            forall|coin: &Coin| call_requires(*utxo_hash, (coin,)),
            hashes@.len() == i,
            forall|j: int|
                0 <= j < i ==> call_ensures(*utxo_hash, (&coins@[j],), #[trigger] hashes@[j]),
        decreases coins.len() - i,
    {
        let hash = utxo_hash(&coins[i]);
        hashes.push(hash);
        i += 1;
    }
    hashes
}

/// A transaction spends these coins: its inputs name them with hashes that the
/// function gives, and its proof is one that the prover gives for those hashes.
pub open spec fn spends<P, H: Fn(&Coin) -> [u8; 32], A: Fn(&Vec<[u8; 32]>) -> Result<
    P,
    UtreexoError,
>>(utxo_hash: H, prove: A, coins: Seq<Coin>, tx: Transaction<P>) -> bool {
    exists|hashes: Vec<[u8; 32]>| #[trigger]
        hashed(utxo_hash, coins, hashes@) && tx.inputs@ == inputs_view(coins, hashes@)
            && call_ensures(prove, (&hashes,), Ok::<P, UtreexoError>(tx.proof))
}

/// The prover can prove that these coins are unspent.
pub open spec fn proved<P, H: Fn(&Coin) -> [u8; 32], A: Fn(&Vec<[u8; 32]>) -> Result<
    P,
    UtreexoError,
>>(utxo_hash: H, prove: A, coins: Seq<Coin>) -> bool {
    exists|hashes: Vec<[u8; 32]>, unspent: P|
        #![trigger hashed(utxo_hash, coins, hashes@),
            call_ensures(prove, (&hashes,), Ok::<P, UtreexoError>(unspent))]
        hashed(utxo_hash, coins, hashes@) && call_ensures(
            prove,
            (&hashes,),
            Ok::<P, UtreexoError>(unspent),
        )
}

/// The wallet can find coins for this amount that the prover can prove unspent.
pub open spec fn provable<P, H: Fn(&Coin) -> [u8; 32], A: Fn(&Vec<[u8; 32]>) -> Result<
    P,
    UtreexoError,
>>(wallet: WalletView, amount: nat, utxo_hash: H, prove: A) -> bool {
    exists|coins: Seq<Coin>, change: u64| #[trigger]
        funds(wallet, amount, Ok((coins, change))) && proved::<P, H, A>(utxo_hash, prove, coins)
}

/// The prover refuses these coins.
pub open spec fn unproved<P, H: Fn(&Coin) -> [u8; 32], A: Fn(&Vec<[u8; 32]>) -> Result<
    P,
    UtreexoError,
>>(utxo_hash: H, prove: A, coins: Seq<Coin>, error: UtreexoError) -> bool {
    exists|hashes: Vec<[u8; 32]>| #[trigger]
        hashed(utxo_hash, coins, hashes@) && call_ensures(
            prove,
            (&hashes,),
            Err::<P, UtreexoError>(error),
        )
}

impl Wallet {
    /// A withdrawal to the main chain. `utxo_hash` gives the hash of an unspent
    /// output, and `prove` a proof that the outputs with these hashes are unspent.
    ///
    /// The coins come first: where they fail, nothing else happens. Then the proof
    /// is asked for, and then the two outputs take new addresses.
    pub fn create_withdrawal<P, H, A>(
        &mut self,
        utxo_hash: H,
        prove: A,
        main_address: String,
        value: u64,
        main_fee: u64,
        fee: u64,
    ) -> (result: Result<Transaction<P>, Error>) where
        H: Fn(&Coin) -> [u8; 32],
        A: Fn(&Vec<[u8; 32]>) -> Result<P, UtreexoError>,

        requires
            old(self).wf(),
            forall|coin: &Coin| call_requires(utxo_hash, (coin,)),
            forall|hashes: &Vec<[u8; 32]>| call_requires(prove, (hashes,)),
            provable::<P, H, A>(old(self)@, (value + fee + main_fee) as nat, utxo_hash, prove)
                ==> old(self)@.has_room(2),
        ensures
            final(self).wf(),
            withdrawn(
                old(self)@,
                final(self)@,
                utxo_hash,
                prove,
                OutputContent::Withdrawal { value, main_fee, main_address },
                (value + fee + main_fee) as nat,
                result,
            ),
    {
        let funding = match self.fund_withdrawal(value, main_fee, fee) {
            Ok(funding) => funding,
            Err(error) => return Err(error),
        };
        let hashes = hash_coins(&utxo_hash, &funding.coins);
        let proved = prove(&hashes);
        assert(proved matches Ok(unspent) ==> call_ensures(
            prove,
            (&hashes,),
            Ok::<P, UtreexoError>(unspent),
        ));
        let withdrawal = OutputContent::Withdrawal { value, main_fee, main_address };
        let result = self.finish_withdrawal(&funding, &hashes, proved, withdrawal);
        assert(funds(
            old(self)@,
            (value + fee + main_fee) as nat,
            Ok((funding.coins@, funding.change)),
        ));
        assert(hashed(utxo_hash, funding.coins@, hashes@));
        result
    }
}

/// What comes of a request for a withdrawal of this amount in all.
pub open spec fn withdrawn<P, H: Fn(&Coin) -> [u8; 32], A: Fn(&Vec<[u8; 32]>) -> Result<
    P,
    UtreexoError,
>>(
    before: WalletView,
    after: WalletView,
    utxo_hash: H,
    prove: A,
    withdrawal: OutputContent,
    amount: nat,
    result: Result<Transaction<P>, Error>,
) -> bool {
    match result {
        Ok(tx) => {
            let first = before.next_index() as u32;
            let second = (first + 1) as u32;
            &&& before.seed is Some
            &&& after == before.with_address(first).with_address(second)
            &&& exists|coins: Seq<Coin>, change: u64| #[trigger]
                funds(before, amount, Ok((coins, change))) && spends(utxo_hash, prove, coins, tx)
                    && tx.outputs@ == withdrawal_outputs(
                    address_at(before.seed->0, first),
                    withdrawal,
                    address_at(before.seed->0, second),
                    change,
                )
        },
        Err(Error::Utreexo(error)) => after == before && exists|coins: Seq<Coin>, change: u64|
            #[trigger]
            funds(before, amount, Ok((coins, change))) && unproved::<P, H, A>(
                utxo_hash,
                prove,
                coins,
                error,
            ),
        Err(Error::NoSeed) => after == before && before.seed is None && provable::<P, H, A>(
            before,
            amount,
            utxo_hash,
            prove,
        ),
        Err(error) => after == before && funds(before, amount, Err(error)),
    }
}

/// What comes of a request for a transfer.
pub open spec fn transferred<P, H: Fn(&Coin) -> [u8; 32], A: Fn(&Vec<[u8; 32]>) -> Result<
    P,
    UtreexoError,
>>(
    before: WalletView,
    after: WalletView,
    utxo_hash: H,
    prove: A,
    dests: Seq<(Address, u64)>,
    fee: u64,
    result: Result<Transaction<P>, Error>,
) -> bool {
    let amount = dests_sum(dests) + fee as nat;
    if dests.len() == 0 {
        after == before && result == Err::<Transaction<P>, Error>(Error::NoTransferDestination)
    } else {
        match result {
            Ok(tx) => {
                let index = before.next_index() as u32;
                &&& before.seed is Some
                &&& after == before.with_address(index)
                &&& exists|coins: Seq<Coin>, change: u64| #[trigger]
                    funds(before, amount, Ok((coins, change))) && spends(
                        utxo_hash,
                        prove,
                        coins,
                        tx,
                    ) && tx.outputs@ == transfer_outputs(
                        dests,
                        address_at(before.seed->0, index),
                        change,
                    )
            },
            Err(Error::Utreexo(error)) => after == before && exists|
                coins: Seq<Coin>,
                change: u64,
            | #[trigger]
                funds(before, amount, Ok((coins, change))) && unproved::<P, H, A>(
                    utxo_hash,
                    prove,
                    coins,
                    error,
                ),
            Err(Error::NoSeed) => after == before && before.seed is None && provable::<P, H, A>(
                before,
                amount,
                utxo_hash,
                prove,
            ),
            Err(error) => after == before && funds(before, amount, Err(error)),
        }
    }
}

impl Wallet {
    /// Pays each destination, and pays the change to a new address. `utxo_hash`
    /// gives the hash of an unspent output, and `prove` a proof that the outputs
    /// with these hashes are unspent.
    pub fn create_transaction_many<P, H, A>(
        &mut self,
        utxo_hash: H,
        prove: A,
        dests: &TransferDests,
        fee: u64,
    ) -> (result: Result<Transaction<P>, Error>) where
        H: Fn(&Coin) -> [u8; 32],
        A: Fn(&Vec<[u8; 32]>) -> Result<P, UtreexoError>,

        requires
            old(self).wf(),
            forall|coin: &Coin| call_requires(utxo_hash, (coin,)),
            forall|hashes: &Vec<[u8; 32]>| call_requires(prove, (hashes,)),
            dests.entries().len() > 0 && provable::<P, H, A>(
                old(self)@,
                dests_sum(dests.entries()) + fee as nat,
                utxo_hash,
                prove,
            ) ==> old(self)@.has_room(1),
        ensures
            final(self).wf(),
            transferred(
                old(self)@,
                final(self)@,
                utxo_hash,
                prove,
                dests.entries(),
                fee,
                result,
            ),
    {
        let ghost amount = dests_sum(dests.entries()) + fee as nat;
        let funding = match self.fund_transaction_many(dests, fee) {
            Ok(funding) => funding,
            Err(error) => return Err(error),
        };
        let hashes = hash_coins(&utxo_hash, &funding.coins);
        let proved = prove(&hashes);
        assert(proved matches Ok(unspent) ==> call_ensures(
            prove,
            (&hashes,),
            Ok::<P, UtreexoError>(unspent),
        ));
        let result = self.finish_transaction_many(&funding, &hashes, proved, dests);
        assert(funds(old(self)@, amount, Ok((funding.coins@, funding.change))));
        assert(hashed(utxo_hash, funding.coins@, hashes@));
        result
    }

    /// Pays one address, and pays the change to a new address. `utxo_hash` gives
    /// the hash of an unspent output, and `prove` a proof that the outputs with
    /// these hashes are unspent.
    pub fn create_transaction<P, H, A>(
        &mut self,
        utxo_hash: H,
        prove: A,
        address: Address,
        value: u64,
        fee: u64,
    ) -> (result: Result<Transaction<P>, Error>) where
        H: Fn(&Coin) -> [u8; 32],
        A: Fn(&Vec<[u8; 32]>) -> Result<P, UtreexoError>,

        requires
            old(self).wf(),
            forall|coin: &Coin| call_requires(utxo_hash, (coin,)),
            forall|hashes: &Vec<[u8; 32]>| call_requires(prove, (hashes,)),
            provable::<P, H, A>(old(self)@, value as nat + fee as nat, utxo_hash, prove)
                ==> old(self)@.has_room(1),
        ensures
            final(self).wf(),
            transferred(
                old(self)@,
                final(self)@,
                utxo_hash,
                prove,
                seq![(address, value)],
                fee,
                result,
            ),
    {
        let dests = TransferDests::single(address, value);
        proof {
            reveal_with_fuel(dests_sum, 2);
            assert(dests_sum(dests.entries()) == value);
        }
        self.create_transaction_many(utxo_hash, prove, &dests, fee)
    }
}

impl WalletView {
    /// The wallet can sign for an input that spends this output.
    pub open spec fn can_sign(self, outpoint: OutPoint) -> bool {
        &&& self.utxos.contains_key(outpoint)
        &&& self.address_to_index.contains_key(self.utxos[outpoint].address)
        &&& self.seed is Some
    }

    /// Why the wallet cannot sign for an input that spends this output.
    pub open spec fn refusal(self, outpoint: OutPoint) -> Error {
        if !self.utxos.contains_key(outpoint) {
            Error::NoUtxo
        } else if !self.address_to_index.contains_key(self.utxos[outpoint].address) {
            Error::NoIndex { address: self.utxos[outpoint].address }
        } else {
            Error::NoSeed
        }
    }

    /// The secret key that signs for an input that spends this output.
    pub open spec fn signer(self, outpoint: OutPoint) -> Seq<u8> {
        secret_at(self.seed->0, self.address_to_index[self.utxos[outpoint].address])
    }

    /// This authorizes an input that spends this output: the signer's key, with its
    /// signature of the message, which is accepted under that key.
    pub open spec fn authorizes(
        self,
        authorization: Authorization,
        outpoint: OutPoint,
        message: Seq<u8>,
    ) -> bool {
        &&& authorization.verifying_key@ == public_key(self.signer(outpoint))
        &&& authorization.signature@ == signature_of(self.signer(outpoint), message)
        &&& accepted(authorization.verifying_key@, message, authorization.signature@)
    }
}

impl<P> AuthorizedTransaction<P> {
    /// There is one authorization for each input, and each one's signature of the
    /// message is accepted under its key.
    pub open spec fn verifies(&self, message: Seq<u8>) -> bool {
        &&& self.authorizations@.len() == self.transaction.inputs@.len()
        &&& forall|i: int|
            0 <= i < self.authorizations@.len() ==> accepted(
                (#[trigger] self.authorizations@[i]).verifying_key@,
                message,
                self.authorizations@[i].signature@,
            )
    }
}

/// This comes of authorizing a transaction. The inputs are gone through in order,
/// and the first one that the wallet cannot sign for is an error. What is signed
/// is what `message_of` makes of the transaction; it is asked once the wallet is
/// found to hold a key for the first input.
pub open spec fn signs<P, M: Fn(&Transaction<P>) -> Result<Vec<u8>, AuthorizationError>>(
    wallet: WalletView,
    transaction: Transaction<P>,
    message_of: M,
    result: Result<AuthorizedTransaction<P>, Error>,
) -> bool {
    let inputs = transaction.inputs@;
    match result {
        Ok(authorized) => {
            &&& authorized.transaction == transaction
            &&& authorized.authorizations@.len() == inputs.len()
            &&& forall|i: int| 0 <= i < inputs.len() ==> wallet.can_sign((#[trigger] inputs[i]).0)
            &&& inputs.len() > 0 ==> exists|message: Vec<u8>| #[trigger]
                call_ensures(
                    message_of,
                    (&transaction,),
                    Ok::<Vec<u8>, AuthorizationError>(message),
                ) && forall|i: int|
                    0 <= i < inputs.len() ==> wallet.authorizes(
                        authorized.authorizations@[i],
                        (#[trigger] inputs[i]).0,
                        message@,
                    )
        },
        Err(Error::Authorization(error)) => {
            &&& inputs.len() > 0
            &&& wallet.can_sign(inputs[0].0)
            &&& call_ensures(message_of, (&transaction,), Err::<Vec<u8>, AuthorizationError>(error))
        },
        Err(error) => exists|n: int|
            {
                &&& 0 <= n < inputs.len()
                &&& !wallet.can_sign((#[trigger] inputs[n]).0)
                &&& error == wallet.refusal(inputs[n].0)
                &&& forall|i: int| 0 <= i < n ==> wallet.can_sign((#[trigger] inputs[i]).0)
                &&& n > 0 ==> exists|message: Vec<u8>| #[trigger]
                    call_ensures(
                        message_of,
                        (&transaction,),
                        Ok::<Vec<u8>, AuthorizationError>(message),
                    )
            },
    }
}

impl Wallet {
    /// The secret key that signs for an input that spends this output.
    fn input_key(&self, outpoint: &OutPoint) -> (result: Result<[u8; 32], Error>)
        requires
            self.wf(),
        ensures
            match result {
                Ok(secret) => self@.can_sign(*outpoint) && secret@ == self@.signer(*outpoint),
                Err(error) => !self@.can_sign(*outpoint) && error == self@.refusal(*outpoint),
            },
    {
        let address = match self.utxo(outpoint) {
            Some(output) => output.address,
            None => return Err(Error::NoUtxo),
        };
        let index = match self.index_of(&address) {
            Some(index) => index,
            None => return Err(Error::NoIndex { address }),
        };
        self.get_signing_key(index)
    }

    /// Signs a transaction once for each of its inputs. `message_of` makes the bytes
    /// that the authorizations of a transaction sign. The first input that the
    /// wallet cannot sign for is an error.
    pub fn authorize<P, M: Fn(&Transaction<P>) -> Result<Vec<u8>, AuthorizationError>>(
        &self,
        transaction: Transaction<P>,
        message_of: M,
    ) -> (result: Result<AuthorizedTransaction<P>, Error>)
        requires
            self.wf(),
            call_requires(message_of, (&transaction,)),
        ensures
            signs(self@, transaction, message_of, result),
    {
        let mut authorizations: Vec<Authorization> = Vec::new();
        let mut message: Vec<u8> = Vec::new();
        let mut i: usize = 0;
        while i < transaction.inputs.len()
            invariant
                i <= transaction.inputs.len(),
                self.wf(),
                call_requires(message_of, (&transaction,)),
                authorizations@.len() == i,
                i > 0 ==> call_ensures(
                    message_of,
                    (&transaction,),
                    Ok::<Vec<u8>, AuthorizationError>(message),
                ),
                forall|j: int|
                    0 <= j < i ==> self@.can_sign((#[trigger] transaction.inputs@[j]).0)
                        && self@.authorizes(
                        authorizations@[j],
                        transaction.inputs@[j].0,
                        message@,
                    ),
            decreases transaction.inputs.len() - i,
        {
            let outpoint = transaction.inputs[i].0;
            assert(transaction.inputs@[i as int].0 == outpoint);
            let secret = match self.input_key(&outpoint) {
                Ok(secret) => secret,
                Err(error) => return Err(error),
            };
            if i == 0 {
                match message_of(&transaction) {
                    Ok(bytes) => {
                        message = bytes;
                    },
                    Err(error) => return Err(Error::Authorization(error)),
                }
            }
            authorizations.push(
                Authorization {
                    verifying_key: verifying_key(&secret),
                    signature: sign(&secret, &message),
                },
            );
            i += 1;
        }
        Ok(AuthorizedTransaction { transaction, authorizations })
    }
}

/// Whether the authorizations of a transaction verify for it. `message_of` makes
/// the bytes that they sign.
pub fn verify_authorized_transaction<
    P,
    M: Fn(&Transaction<P>) -> Result<Vec<u8>, AuthorizationError>,
>(authorized: &AuthorizedTransaction<P>, message_of: M) -> (result: Result<
    bool,
    AuthorizationError,
>)
    requires
        call_requires(message_of, (&authorized.transaction,)),
    ensures
        match result {
            Ok(valid) => exists|message: Vec<u8>| #[trigger]
                call_ensures(
                    message_of,
                    (&authorized.transaction,),
                    Ok::<Vec<u8>, AuthorizationError>(message),
                ) && valid == authorized.verifies(message@),
            Err(error) => call_ensures(
                message_of,
                (&authorized.transaction,),
                Err::<Vec<u8>, AuthorizationError>(error),
            ),
        },
{
    let message = match message_of(&authorized.transaction) {
        Ok(message) => message,
        Err(error) => return Err(error),
    };
    if authorized.authorizations.len() != authorized.transaction.inputs.len() {
        return Ok(false);
    }
    let mut i: usize = 0;
    while i < authorized.authorizations.len()
        invariant
            i <= authorized.authorizations.len(),
            authorized.authorizations@.len() == authorized.transaction.inputs@.len(),
            call_ensures(
                message_of,
                (&authorized.transaction,),
                Ok::<Vec<u8>, AuthorizationError>(message),
            ),
            forall|j: int|
                0 <= j < i ==> accepted(
                    (#[trigger] authorized.authorizations@[j]).verifying_key@,
                    message@,
                    authorized.authorizations@[j].signature@,
                ),
        decreases authorized.authorizations.len() - i,
    {
        let authorization = authorized.authorizations[i];
        if !verify(&authorization.verifying_key, &message, &authorization.signature) {
            assert(authorized.authorizations@[i as int] == authorization);
            return Ok(false);
        }
        i += 1;
    }
    Ok(true)
}

} // verus!
