//! What a transaction of the wallet holds, place by place.

use vstd::prelude::*;

use crate::coins::{found_coins_are_the_smallest_that_cover, selects, worth, Coin, Selection};
use crate::dests::dests_sum;
use crate::keys::{accepted, address_at, derived_secret, public_key, root_key, signature_of};
use crate::laws::{inputs_sum, lemma_funded_inputs};
use crate::transaction::{
    funds, hashed, inputs_view, outputs_sum, payments_view, proved, signs, spends,
    transfer_outputs, transferred, unproved, withdrawal_outputs, withdrawn,
};
use crate::types::{
    Address, AuthorizationError, AuthorizedTransaction, Error, OutPoint, Output, OutputContent,
    Transaction, UtreexoError,
};
use crate::wallet::WalletView;

verus! {

/// Outputs sum up to what each of them takes, and inputs to what each output that they
/// spend is worth.
pub proof fn each_place_adds_its_value(
    utxos: Map<OutPoint, Output>,
    inputs: Seq<(OutPoint, [u8; 32])>,
    outputs: Seq<Output>,
    o: OutPoint,
    hash: [u8; 32],
    output: Output,
)
    ensures
        outputs_sum(Seq::empty()) == 0,
        outputs_sum(outputs.push(output)) == outputs_sum(outputs) + output.value(),
        inputs_sum(utxos, Seq::empty()) == 0,
        inputs_sum(utxos, inputs.push((o, hash))) == inputs_sum(utxos, inputs) + utxos[o].value(),
{
    assert(outputs.push(output).drop_last() =~= outputs);
    assert(inputs.push((o, hash)).drop_last() =~= inputs);
}

/// Coins that were found for an amount are worth the amount and the change.
pub proof fn the_change_is_what_is_left(
    wallet: WalletView,
    amount: nat,
    coins: Seq<Coin>,
    change: u64,
)
    requires
        funds(wallet, amount, Ok((coins, change))),
    ensures
        amount <= u64::MAX,
        selects(wallet.utxos, amount as u64, Selection::Coins(coins)),
        worth(coins) == amount + change,
{
}

proof fn lemma_inputs_name_their_coins<
    P,
    H: Fn(&Coin) -> [u8; 32],
    A: Fn(&Vec<[u8; 32]>) -> Result<P, UtreexoError>,
>(
    before: WalletView,
    amount: nat,
    utxo_hash: H,
    prove: A,
    coins: Seq<Coin>,
    change: u64,
    tx: Transaction<P>,
)
    requires
        funds(before, amount, Ok((coins, change))),
        spends(utxo_hash, prove, coins, tx),
    ensures
        forall|i: int|
            0 <= i < tx.inputs@.len() ==> before.utxos.contains_key((#[trigger] tx.inputs@[i]).0)
                && call_ensures(
                utxo_hash,
                (&(tx.inputs@[i].0, before.utxos[tx.inputs@[i].0]),),
                tx.inputs@[i].1,
            ),
        exists|hashes: Vec<[u8; 32]>| #[trigger]
            call_ensures(prove, (&hashes,), Ok::<P, UtreexoError>(tx.proof)) && hashes@.len()
                == tx.inputs@.len() && forall|i: int|
                0 <= i < hashes@.len() ==> #[trigger] hashes@[i] == tx.inputs@[i].1,
{
    found_coins_are_the_smallest_that_cover(before.utxos, amount as u64, coins);
    let hashes = choose|hashes: Vec<[u8; 32]>| #[trigger]
        hashed(utxo_hash, coins, hashes@) && tx.inputs@ == inputs_view(coins, hashes@)
            && call_ensures(prove, (&hashes,), Ok::<P, UtreexoError>(tx.proof));
    assert forall|i: int| 0 <= i < tx.inputs@.len() implies before.utxos.contains_key(
        (#[trigger] tx.inputs@[i]).0,
    ) && call_ensures(
        utxo_hash,
        (&(tx.inputs@[i].0, before.utxos[tx.inputs@[i].0]),),
        tx.inputs@[i].1,
    ) by {
        assert(coins[i] == (tx.inputs@[i].0, before.utxos[tx.inputs@[i].0]));
        assert(hashes@[i] == tx.inputs@[i].1);
    }
    assert(forall|i: int| 0 <= i < hashes@.len() ==> #[trigger] hashes@[i] == tx.inputs@[i].1);
}

/// Each input of a transfer names an output of the wallet with the hash of that output
/// and no other, and the proof is one for the hashes of the inputs in their order.
pub proof fn each_input_of_a_transfer_names_its_own_coin<
    P,
    H: Fn(&Coin) -> [u8; 32],
    A: Fn(&Vec<[u8; 32]>) -> Result<P, UtreexoError>,
>(
    before: WalletView,
    after: WalletView,
    utxo_hash: H,
    prove: A,
    dests: Seq<(Address, u64)>,
    fee: u64,
    tx: Transaction<P>,
)
    requires
        transferred(before, after, utxo_hash, prove, dests, fee, Ok(tx)),
    ensures
        forall|i: int|
            0 <= i < tx.inputs@.len() ==> before.utxos.contains_key((#[trigger] tx.inputs@[i]).0)
                && call_ensures(
                utxo_hash,
                (&(tx.inputs@[i].0, before.utxos[tx.inputs@[i].0]),),
                tx.inputs@[i].1,
            ),
        exists|hashes: Vec<[u8; 32]>| #[trigger]
            call_ensures(prove, (&hashes,), Ok::<P, UtreexoError>(tx.proof)) && hashes@.len()
                == tx.inputs@.len() && forall|i: int|
                0 <= i < hashes@.len() ==> #[trigger] hashes@[i] == tx.inputs@[i].1,
{
    let amount = dests_sum(dests) + fee as nat;
    let index = before.next_index() as u32;
    let (coins, change) = choose|coins: Seq<Coin>, change: u64| #[trigger]
        funds(before, amount, Ok((coins, change))) && spends(utxo_hash, prove, coins, tx)
            && tx.outputs@ == transfer_outputs(dests, address_at(before.seed->0, index), change);
    lemma_inputs_name_their_coins(before, amount, utxo_hash, prove, coins, change, tx);
}

/// Each input of a withdrawal names an output of the wallet with the hash of that
/// output and no other, and the proof is one for the hashes of the inputs in their
/// order.
pub proof fn each_input_of_a_withdrawal_names_its_own_coin<
    P,
    H: Fn(&Coin) -> [u8; 32],
    A: Fn(&Vec<[u8; 32]>) -> Result<P, UtreexoError>,
>(
    before: WalletView,
    after: WalletView,
    utxo_hash: H,
    prove: A,
    withdrawal: OutputContent,
    amount: nat,
    tx: Transaction<P>,
)
    requires
        withdrawn(before, after, utxo_hash, prove, withdrawal, amount, Ok(tx)),
    ensures
        forall|i: int|
            0 <= i < tx.inputs@.len() ==> before.utxos.contains_key((#[trigger] tx.inputs@[i]).0)
                && call_ensures(
                utxo_hash,
                (&(tx.inputs@[i].0, before.utxos[tx.inputs@[i].0]),),
                tx.inputs@[i].1,
            ),
        exists|hashes: Vec<[u8; 32]>| #[trigger]
            call_ensures(prove, (&hashes,), Ok::<P, UtreexoError>(tx.proof)) && hashes@.len()
                == tx.inputs@.len() && forall|i: int|
                0 <= i < hashes@.len() ==> #[trigger] hashes@[i] == tx.inputs@[i].1,
{
    let first = before.next_index() as u32;
    let second = (first + 1) as u32;
    let (coins, change) = choose|coins: Seq<Coin>, change: u64| #[trigger]
        funds(before, amount, Ok((coins, change))) && spends(utxo_hash, prove, coins, tx)
            && tx.outputs@ == withdrawal_outputs(
            address_at(before.seed->0, first),
            withdrawal,
            address_at(before.seed->0, second),
            change,
        );
    lemma_inputs_name_their_coins(before, amount, utxo_hash, prove, coins, change, tx);
}

/// A transfer has one output for each destination, at the same place, which pays its
/// address its value, and one more, which pays what is left of the inputs to the
/// address of the next index. That address is on record afterwards, and nothing else
/// changes.
pub proof fn each_destination_is_paid_its_value<
    P,
    H: Fn(&Coin) -> [u8; 32],
    A: Fn(&Vec<[u8; 32]>) -> Result<P, UtreexoError>,
>(
    before: WalletView,
    after: WalletView,
    utxo_hash: H,
    prove: A,
    dests: Seq<(Address, u64)>,
    fee: u64,
    tx: Transaction<P>,
)
    requires
        transferred(before, after, utxo_hash, prove, dests, fee, Ok(tx)),
    ensures
        tx.outputs@.len() == dests.len() + 1,
        forall|i: int|
            0 <= i < dests.len() ==> (#[trigger] tx.outputs@[i]).address == dests[i].0
                && tx.outputs@[i].content == OutputContent::Value(dests[i].1),
        ({
            let index = before.next_index() as u32;
            let address = address_at(before.seed->0, index);
            let change = tx.outputs@[dests.len() as int];
            &&& change.address == address
            &&& change.content matches OutputContent::Value(rest)
            &&& inputs_sum(before.utxos, tx.inputs@) == dests_sum(dests) + fee + rest
            &&& after == (WalletView {
                index_to_address: before.index_to_address.insert(index, address),
                address_to_index: before.address_to_index.insert(address, index),
                ..before
            })
        }),
{
    let amount = dests_sum(dests) + fee as nat;
    let index = before.next_index() as u32;
    let (coins, change) = choose|coins: Seq<Coin>, change: u64| #[trigger]
        funds(before, amount, Ok((coins, change))) && spends(utxo_hash, prove, coins, tx)
            && tx.outputs@ == transfer_outputs(dests, address_at(before.seed->0, index), change);
    lemma_funded_inputs(before, amount, utxo_hash, prove, coins, change, tx);
    assert(payments_view(dests).len() == dests.len());
    assert forall|i: int| 0 <= i < dests.len() implies (#[trigger] tx.outputs@[i]).address
        == dests[i].0 && tx.outputs@[i].content == OutputContent::Value(dests[i].1) by {
        assert(tx.outputs@[i] == payments_view(dests)[i]);
    }
}

/// A withdrawal has two outputs: the withdrawal as it was asked for, to the address of
/// the next index, and what is left of the inputs, to the address of the index after
/// that. Both addresses are on record afterwards, and nothing else changes.
pub proof fn a_withdrawal_pays_out_and_keeps_the_rest<
    P,
    H: Fn(&Coin) -> [u8; 32],
    A: Fn(&Vec<[u8; 32]>) -> Result<P, UtreexoError>,
>(
    before: WalletView,
    after: WalletView,
    utxo_hash: H,
    prove: A,
    withdrawal: OutputContent,
    amount: nat,
    tx: Transaction<P>,
)
    requires
        withdrawn(before, after, utxo_hash, prove, withdrawal, amount, Ok(tx)),
    ensures
        ({
            let first = before.next_index() as u32;
            let second = (first + 1) as u32;
            let one = address_at(before.seed->0, first);
            let other = address_at(before.seed->0, second);
            &&& tx.outputs@.len() == 2
            &&& tx.outputs@[0].address == one
            &&& tx.outputs@[0].content == withdrawal
            &&& tx.outputs@[1].address == other
            &&& tx.outputs@[1].content matches OutputContent::Value(rest)
            &&& inputs_sum(before.utxos, tx.inputs@) == amount + rest
            &&& after == (WalletView {
                index_to_address: before.index_to_address.insert(first, one).insert(second, other),
                address_to_index: before.address_to_index.insert(one, first).insert(other, second),
                ..before
            })
        }),
{
    let first = before.next_index() as u32;
    let second = (first + 1) as u32;
    let (coins, change) = choose|coins: Seq<Coin>, change: u64| #[trigger]
        funds(before, amount, Ok((coins, change))) && spends(utxo_hash, prove, coins, tx)
            && tx.outputs@ == withdrawal_outputs(
            address_at(before.seed->0, first),
            withdrawal,
            address_at(before.seed->0, second),
            change,
        );
    lemma_funded_inputs(before, amount, utxo_hash, prove, coins, change, tx);
}

/// This is a hash that the function gives for one of these outputs.
pub open spec fn is_hash_of_an_output<H: Fn(&Coin) -> [u8; 32]>(
    utxos: Map<OutPoint, Output>,
    utxo_hash: H,
    hash: [u8; 32],
) -> bool {
    exists|o: OutPoint| #[trigger]
        utxos.contains_key(o) && call_ensures(utxo_hash, (&(o, utxos[o]),), hash)
}

proof fn lemma_hashes_are_of_own_coins<H: Fn(&Coin) -> [u8; 32]>(
    before: WalletView,
    amount: nat,
    utxo_hash: H,
    coins: Seq<Coin>,
    change: u64,
    hashes: Seq<[u8; 32]>,
)
    requires
        funds(before, amount, Ok((coins, change))),
        hashed(utxo_hash, coins, hashes),
    ensures
        forall|i: int|
            0 <= i < hashes.len() ==> is_hash_of_an_output(
                before.utxos,
                utxo_hash,
                #[trigger] hashes[i],
            ),
{
    found_coins_are_the_smallest_that_cover(before.utxos, amount as u64, coins);
    assert forall|i: int| 0 <= i < hashes.len() implies is_hash_of_an_output(
        before.utxos,
        utxo_hash,
        #[trigger] hashes[i],
    ) by {
        let o = coins[i].0;
        assert(before.utxos.contains_key(o));
        assert(coins[i] == (o, before.utxos[o]));
    }
}

/// A transfer that does not come about changes nothing. A transfer without a
/// destination is refused as such. An error of the accumulator is one that the prover
/// gave for outputs of the wallet, and a missing seed is reported only once the prover
/// proved such outputs.
pub proof fn a_refused_transfer_changes_nothing<
    P,
    H: Fn(&Coin) -> [u8; 32],
    A: Fn(&Vec<[u8; 32]>) -> Result<P, UtreexoError>,
>(
    before: WalletView,
    after: WalletView,
    utxo_hash: H,
    prove: A,
    dests: Seq<(Address, u64)>,
    fee: u64,
    result: Result<Transaction<P>, Error>,
)
    requires
        transferred(before, after, utxo_hash, prove, dests, fee, result),
    ensures
        dests.len() == 0 ==> result == Err::<Transaction<P>, Error>(Error::NoTransferDestination),
        result is Err ==> after == before,
        match result {
            Ok(_) => before.seed is Some,
            Err(Error::AmountOverflow) => true,
            Err(Error::NotEnoughFunds) => true,
            Err(Error::NoTransferDestination) => dests.len() == 0,
            Err(Error::Utreexo(error)) => exists|hashes: Vec<[u8; 32]>| #[trigger]
                call_ensures(prove, (&hashes,), Err::<P, UtreexoError>(error)) && forall|i: int|
                    0 <= i < hashes@.len() ==> is_hash_of_an_output(
                        before.utxos,
                        utxo_hash,
                        #[trigger] hashes@[i],
                    ),
            Err(Error::NoSeed) => before.seed is None && exists|hashes: Vec<[u8; 32]>, unspent: P|
                #[trigger]
                call_ensures(prove, (&hashes,), Ok::<P, UtreexoError>(unspent)) && forall|i: int|
                    0 <= i < hashes@.len() ==> is_hash_of_an_output(
                        before.utxos,
                        utxo_hash,
                        #[trigger] hashes@[i],
                    ),
            Err(_) => false,
        },
{
    let amount = dests_sum(dests) + fee as nat;
    match result {
        Err(Error::Utreexo(error)) => {
            let (coins, change) = choose|coins: Seq<Coin>, change: u64| #[trigger]
                funds(before, amount, Ok((coins, change))) && unproved::<P, H, A>(
                    utxo_hash,
                    prove,
                    coins,
                    error,
                );
            let hashes = choose|hashes: Vec<[u8; 32]>| #[trigger]
                hashed(utxo_hash, coins, hashes@) && call_ensures(
                    prove,
                    (&hashes,),
                    Err::<P, UtreexoError>(error),
                );
            lemma_hashes_are_of_own_coins(before, amount, utxo_hash, coins, change, hashes@);
        },
        Err(Error::NoSeed) => {
            let (coins, change) = choose|coins: Seq<Coin>, change: u64| #[trigger]
                funds(before, amount, Ok((coins, change))) && proved::<P, H, A>(
                    utxo_hash,
                    prove,
                    coins,
                );
            let (hashes, unspent) = choose|hashes: Vec<[u8; 32]>, unspent: P|
                #![trigger hashed(utxo_hash, coins, hashes@),
                    call_ensures(prove, (&hashes,), Ok::<P, UtreexoError>(unspent))]
                hashed(utxo_hash, coins, hashes@) && call_ensures(
                    prove,
                    (&hashes,),
                    Ok::<P, UtreexoError>(unspent),
                );
            lemma_hashes_are_of_own_coins(before, amount, utxo_hash, coins, change, hashes@);
        },
        _ => {},
    }
}

/// A withdrawal that does not come about changes nothing. An error of the accumulator
/// is one that the prover gave for outputs of the wallet, and a missing seed is
/// reported only once the prover proved such outputs.
pub proof fn a_refused_withdrawal_changes_nothing<
    P,
    H: Fn(&Coin) -> [u8; 32],
    A: Fn(&Vec<[u8; 32]>) -> Result<P, UtreexoError>,
>(
    before: WalletView,
    after: WalletView,
    utxo_hash: H,
    prove: A,
    withdrawal: OutputContent,
    amount: nat,
    result: Result<Transaction<P>, Error>,
)
    requires
        withdrawn(before, after, utxo_hash, prove, withdrawal, amount, result),
    ensures
        result is Err ==> after == before,
        match result {
            Ok(_) => before.seed is Some,
            Err(Error::AmountOverflow) => true,
            Err(Error::NotEnoughFunds) => true,
            Err(Error::NoTransferDestination) => false,
            Err(Error::Utreexo(error)) => exists|hashes: Vec<[u8; 32]>| #[trigger]
                call_ensures(prove, (&hashes,), Err::<P, UtreexoError>(error)) && forall|i: int|
                    0 <= i < hashes@.len() ==> is_hash_of_an_output(
                        before.utxos,
                        utxo_hash,
                        #[trigger] hashes@[i],
                    ),
            Err(Error::NoSeed) => before.seed is None && exists|hashes: Vec<[u8; 32]>, unspent: P|
                #[trigger]
                call_ensures(prove, (&hashes,), Ok::<P, UtreexoError>(unspent)) && forall|i: int|
                    0 <= i < hashes@.len() ==> is_hash_of_an_output(
                        before.utxos,
                        utxo_hash,
                        #[trigger] hashes@[i],
                    ),
            Err(_) => false,
        },
{
    match result {
        Err(Error::Utreexo(error)) => {
            let (coins, change) = choose|coins: Seq<Coin>, change: u64| #[trigger]
                funds(before, amount, Ok((coins, change))) && unproved::<P, H, A>(
                    utxo_hash,
                    prove,
                    coins,
                    error,
                );
            let hashes = choose|hashes: Vec<[u8; 32]>| #[trigger]
                hashed(utxo_hash, coins, hashes@) && call_ensures(
                    prove,
                    (&hashes,),
                    Err::<P, UtreexoError>(error),
                );
            lemma_hashes_are_of_own_coins(before, amount, utxo_hash, coins, change, hashes@);
        },
        Err(Error::NoSeed) => {
            let (coins, change) = choose|coins: Seq<Coin>, change: u64| #[trigger]
                funds(before, amount, Ok((coins, change))) && proved::<P, H, A>(
                    utxo_hash,
                    prove,
                    coins,
                );
            let (hashes, unspent) = choose|hashes: Vec<[u8; 32]>, unspent: P|
                #![trigger hashed(utxo_hash, coins, hashes@),
                    call_ensures(prove, (&hashes,), Ok::<P, UtreexoError>(unspent))]
                hashed(utxo_hash, coins, hashes@) && call_ensures(
                    prove,
                    (&hashes,),
                    Ok::<P, UtreexoError>(unspent),
                );
            lemma_hashes_are_of_own_coins(before, amount, utxo_hash, coins, change, hashes@);
        },
        _ => {},
    }
}

/// Each authorization is made with the key of the index of the address that the spent
/// output pays: it holds the verifying key, and the signature of what was made of the
/// transaction, which that key accepts.
pub proof fn each_input_is_signed_by_its_own_key<
    P,
    M: Fn(&Transaction<P>) -> Result<Vec<u8>, AuthorizationError>,
>(
    wallet: WalletView,
    transaction: Transaction<P>,
    message_of: M,
    authorized: AuthorizedTransaction<P>,
)
    requires
        signs(wallet, transaction, message_of, Ok(authorized)),
    ensures
        authorized.transaction == transaction,
        authorized.authorizations@.len() == transaction.inputs@.len(),
        transaction.inputs@.len() > 0 ==> wallet.seed is Some,
        forall|i: int|
            0 <= i < transaction.inputs@.len() ==> wallet.utxos.contains_key(
                (#[trigger] transaction.inputs@[i]).0,
            ) && wallet.address_to_index.contains_key(
                wallet.utxos[transaction.inputs@[i].0].address,
            ),
        transaction.inputs@.len() > 0 ==> exists|message: Vec<u8>| #[trigger]
            call_ensures(message_of, (&transaction,), Ok::<Vec<u8>, AuthorizationError>(message))
                && forall|i: int|
                0 <= i < transaction.inputs@.len() ==> {
                    let output = wallet.utxos[(#[trigger] transaction.inputs@[i]).0];
                    let secret = derived_secret(
                        root_key(wallet.seed->0).0,
                        root_key(wallet.seed->0).1,
                        seq![1u32, 0, 0, wallet.address_to_index[output.address]],
                    );
                    let authorization = authorized.authorizations@[i];
                    &&& authorization.verifying_key@ == public_key(secret)
                    &&& authorization.signature@ == signature_of(secret, message@)
                    &&& accepted(
                        authorization.verifying_key@,
                        message@,
                        authorization.signature@,
                    )
                },
{
    let inputs = transaction.inputs@;
    assert forall|i: int| 0 <= i < inputs.len() implies wallet.utxos.contains_key(
        (#[trigger] inputs[i]).0,
    ) && wallet.address_to_index.contains_key(wallet.utxos[inputs[i].0].address) by {
        assert(wallet.can_sign(inputs[i].0));
    }
    if inputs.len() > 0 {
        assert(wallet.can_sign(inputs[0].0));
        let message = choose|message: Vec<u8>| #[trigger]
            call_ensures(message_of, (&transaction,), Ok::<Vec<u8>, AuthorizationError>(message))
                && forall|i: int|
                0 <= i < inputs.len() ==> wallet.authorizes(
                    authorized.authorizations@[i],
                    (#[trigger] inputs[i]).0,
                    message@,
                );
        assert forall|i: int| 0 <= i < inputs.len() implies {
            let output = wallet.utxos[(#[trigger] inputs[i]).0];
            let secret = derived_secret(
                root_key(wallet.seed->0).0,
                root_key(wallet.seed->0).1,
                seq![1u32, 0, 0, wallet.address_to_index[output.address]],
            );
            let authorization = authorized.authorizations@[i];
            &&& authorization.verifying_key@ == public_key(secret)
            &&& authorization.signature@ == signature_of(secret, message@)
            &&& accepted(authorization.verifying_key@, message@, authorization.signature@)
        } by {
            assert(wallet.authorizes(authorized.authorizations@[i], inputs[i].0, message@));
        }
    }
}

/// A transaction is not authorized for the first reason that there is, input by input:
/// an output that the wallet does not hold, an address without an index, no seed; or
/// that nothing could be made of the transaction to sign, once the first input is
/// found in order. Where none of these is the case it is authorized.
pub proof fn the_first_reason_refuses_an_authorization<
    P,
    M: Fn(&Transaction<P>) -> Result<Vec<u8>, AuthorizationError>,
>(
    wallet: WalletView,
    transaction: Transaction<P>,
    message_of: M,
    result: Result<AuthorizedTransaction<P>, Error>,
)
    requires
        signs(wallet, transaction, message_of, result),
    ensures
        match result {
            Ok(_) => true,
            Err(Error::Authorization(error)) => transaction.inputs@.len() > 0 && call_ensures(
                message_of,
                (&transaction,),
                Err::<Vec<u8>, AuthorizationError>(error),
            ) && wallet.seed is Some && wallet.utxos.contains_key(transaction.inputs@[0].0),
            Err(error) => exists|n: int|
                {
                    let o = (#[trigger] transaction.inputs@[n]).0;
                    &&& 0 <= n < transaction.inputs@.len()
                    &&& forall|i: int|
                        0 <= i < n ==> wallet.seed is Some && wallet.utxos.contains_key(
                            (#[trigger] transaction.inputs@[i]).0,
                        ) && wallet.address_to_index.contains_key(
                            wallet.utxos[transaction.inputs@[i].0].address,
                        )
                    &&& match error {
                        Error::NoUtxo => !wallet.utxos.contains_key(o),
                        Error::NoIndex { address } => wallet.utxos.contains_key(o) && address
                            == wallet.utxos[o].address && !wallet.address_to_index.contains_key(
                            address,
                        ),
                        Error::NoSeed => wallet.utxos.contains_key(o)
                            && wallet.address_to_index.contains_key(wallet.utxos[o].address)
                            && wallet.seed is None,
                        _ => false,
                    }
                },
        },
        wallet.seed is Some && (forall|i: int|
            0 <= i < transaction.inputs@.len() ==> wallet.utxos.contains_key(
                (#[trigger] transaction.inputs@[i]).0,
            ) && wallet.address_to_index.contains_key(
                wallet.utxos[transaction.inputs@[i].0].address,
            )) && (forall|error: AuthorizationError| !(#[trigger] call_ensures(
            message_of,
            (&transaction,),
            Err::<Vec<u8>, AuthorizationError>(error),
        ))) ==> result is Ok,
{
    let inputs = transaction.inputs@;
    match result {
        Ok(_) => {},
        Err(Error::Authorization(_)) => {
            assert(wallet.can_sign(inputs[0].0));
        },
        Err(error) => {
            let n = choose|n: int|
                {
                    &&& 0 <= n < inputs.len()
                    &&& !wallet.can_sign((#[trigger] inputs[n]).0)
                    &&& error == wallet.refusal(inputs[n].0)
                    &&& forall|i: int| 0 <= i < n ==> wallet.can_sign((#[trigger] inputs[i]).0)
                    &&& n > 0 ==> exists|message: Vec<u8>| #[trigger]
                        call_ensures(
                            message_of,
                            (&transaction,),
                            Ok::<Vec<u8>, AuthorizationError>(message),
                        )
                };
            assert(!wallet.can_sign(inputs[n].0));
            assert forall|i: int| 0 <= i < n implies wallet.seed is Some
                && wallet.utxos.contains_key((#[trigger] inputs[i]).0)
                && wallet.address_to_index.contains_key(wallet.utxos[inputs[i].0].address) by {
                assert(wallet.can_sign(inputs[i].0));
            }
        },
    }
}

/// An authorized transaction verifies for a message where each input has an
/// authorization whose key accepts its signature of the message, and only there.
pub proof fn every_signature_has_to_be_accepted<P>(
    authorized: AuthorizedTransaction<P>,
    message: Seq<u8>,
)
    ensures
        authorized.verifies(message) <==> authorized.authorizations@.len()
            == authorized.transaction.inputs@.len() && forall|i: int|
            0 <= i < authorized.transaction.inputs@.len() ==> accepted(
                (#[trigger] authorized.authorizations@[i]).verifying_key@,
                message,
                authorized.authorizations@[i].signature@,
            ),
{
}

} // verus!
