//! What holds of a wallet across its operations.

use vstd::prelude::*;

use crate::coins::{
    any_value, available_value, found_coins_are_the_smallest_that_cover, funds_decide_the_search,
    lemma_sum_over_insert, lemma_sum_over_remove, spendable_value, sum_over, total_value, worth,
    Coin, Selection,
};
use crate::dests::dests_sum;
use crate::keys::{accepted, address_at, address_of};
use crate::table::distinct_keys;
use crate::transaction::{
    covers, funds, hashed, inputs_view, outputs_sum, payments_view, provable, proved, signs,
    spends, transfer_outputs, transferred, unproved, withdrawal_outputs, withdrawn,
};
use crate::types::{
    Address, Authorization, AuthorizationError, AuthorizedTransaction, Error, InPoint, OutPoint,
    Output, OutputContent, Transaction, UtreexoError, Version,
};
use crate::wallet::{
    last_index, lemma_has_last_index, lemma_last_index, lemma_next_index_follows, spender,
    StoredWallet, WalletView, LEGACY_INDICES,
};

verus! {

/// What the outputs that inputs spend are worth together.
pub open spec fn inputs_sum(utxos: Map<OutPoint, Output>, inputs: Seq<(OutPoint, [u8; 32])>) -> nat
    decreases inputs.len(),
{
    if inputs.len() == 0 {
        0
    } else {
        inputs_sum(utxos, inputs.drop_last()) + utxos[inputs.last().0].value() as nat
    }
}

/// The inputs spend outputs among these, none of them twice and none a
/// withdrawal.
pub open spec fn spends_among(
    utxos: Map<OutPoint, Output>,
    inputs: Seq<(OutPoint, [u8; 32])>,
) -> bool {
    &&& distinct_keys(inputs)
    &&& forall|i: int|
        0 <= i < inputs.len() ==> utxos.contains_key((#[trigger] inputs[i]).0) && !(
        utxos[inputs[i].0].content is Withdrawal)
}

/// The inputs that spend coins are worth what the coins are worth.
proof fn lemma_inputs_worth(utxos: Map<OutPoint, Output>, coins: Seq<Coin>, hashes: Seq<[u8; 32]>)
    requires
        hashes.len() == coins.len(),
        forall|i: int|
            0 <= i < coins.len() ==> utxos.contains_key((#[trigger] coins[i]).0)
                && utxos[coins[i].0] == coins[i].1,
    ensures
        inputs_sum(utxos, inputs_view(coins, hashes)) == worth(coins),
    decreases coins.len(),
{
    if coins.len() > 0 {
        let n = coins.len() - 1;
        lemma_inputs_worth(utxos, coins.drop_last(), hashes.drop_last());
        assert(inputs_view(coins, hashes).drop_last() =~= inputs_view(
            coins.drop_last(),
            hashes.drop_last(),
        ));
        assert(coins[n] == coins.last());
    }
}

/// What funded coins are: outputs of the wallet, worth the amount and the change.
pub proof fn lemma_funded_inputs<P, H: Fn(&Coin) -> [u8; 32], A: Fn(&Vec<[u8; 32]>) -> Result<
    P,
    UtreexoError,
>>(
    wallet: WalletView,
    amount: nat,
    utxo_hash: H,
    prove: A,
    coins: Seq<Coin>,
    change: u64,
    tx: Transaction<P>,
)
    requires
        funds(wallet, amount, Ok((coins, change))),
        spends(utxo_hash, prove, coins, tx),
    ensures
        spends_among(wallet.utxos, tx.inputs@),
        inputs_sum(wallet.utxos, tx.inputs@) == amount + change,
{
    found_coins_are_the_smallest_that_cover(wallet.utxos, amount as u64, coins);
    let hashes = choose|hashes: Vec<[u8; 32]>| #[trigger]
        hashed(utxo_hash, coins, hashes@) && tx.inputs@ == inputs_view(coins, hashes@)
            && call_ensures(prove, (&hashes,), Ok::<P, UtreexoError>(tx.proof));
    assert forall|i: int| 0 <= i < tx.inputs@.len() implies wallet.utxos.contains_key(
        (#[trigger] tx.inputs@[i]).0,
    ) && !(wallet.utxos[tx.inputs@[i].0].content is Withdrawal) by {
        assert(tx.inputs@[i].0 == coins[i].0);
    }
    assert forall|i: int, j: int| 0 <= i < j < tx.inputs@.len() implies tx.inputs@[i].0
        != tx.inputs@[j].0 by {
        assert(coins[i].0 != coins[j].0);
    }
    lemma_inputs_worth(wallet.utxos, coins, hashes@);
}

/// The outputs that pay destinations sum up to what the destinations take.
proof fn lemma_payments_sum(dests: Seq<(Address, u64)>)
    ensures
        outputs_sum(payments_view(dests)) == dests_sum(dests),
    decreases dests.len(),
{
    if dests.len() > 0 {
        lemma_payments_sum(dests.drop_last());
        assert(payments_view(dests).drop_last() =~= payments_view(dests.drop_last()));
    }
}

/// A transfer spends outputs of the wallet, none of them twice and none a
/// withdrawal. What they are worth is what the outputs take and the fee.
pub proof fn transfer_keeps_the_sum<P, H: Fn(&Coin) -> [u8; 32], A: Fn(&Vec<[u8; 32]>) -> Result<
    P,
    UtreexoError,
>>(
    before: WalletView,
    after: WalletView,
    utxo_hash: H,
    prove: A,
    dests: Seq<(Address, u64)>,
    fee: u64,
    tx: Transaction<P>,
)
    requires
        transferred(before, after, utxo_hash, prove, dests, fee, Ok(tx)),
    ensures
        spends_among(before.utxos, tx.inputs@),
        inputs_sum(before.utxos, tx.inputs@) == outputs_sum(tx.outputs@) + fee,
{
    let amount = dests_sum(dests) + fee as nat;
    let index = before.next_index() as u32;
    let (coins, change) = choose|coins: Seq<Coin>, change: u64| #[trigger]
        funds(before, amount, Ok((coins, change))) && spends(utxo_hash, prove, coins, tx)
            && tx.outputs@ == transfer_outputs(dests, address_at(before.seed->0, index), change);
    lemma_funded_inputs(before, amount, utxo_hash, prove, coins, change, tx);
    lemma_payments_sum(dests);
    assert(tx.outputs@.drop_last() =~= payments_view(dests));
}

/// A withdrawal spends outputs of the wallet, none of them twice and none a
/// withdrawal. What they are worth is what the outputs take, the fee and the fee
/// on the main chain.
pub proof fn withdrawal_keeps_the_sum<P, H: Fn(&Coin) -> [u8; 32], A: Fn(&Vec<[u8; 32]>) -> Result<
    P,
    UtreexoError,
>>(
    before: WalletView,
    after: WalletView,
    utxo_hash: H,
    prove: A,
    main_address: String,
    value: u64,
    main_fee: u64,
    fee: u64,
    tx: Transaction<P>,
)
    requires
        withdrawn(
            before,
            after,
            utxo_hash,
            prove,
            OutputContent::Withdrawal { value, main_fee, main_address },
            (value + fee + main_fee) as nat,
            Ok(tx),
        ),
    ensures
        spends_among(before.utxos, tx.inputs@),
        inputs_sum(before.utxos, tx.inputs@) == outputs_sum(tx.outputs@) + fee + main_fee,
{
    let amount = (value + fee + main_fee) as nat;
    let first = before.next_index() as u32;
    let second = (first + 1) as u32;
    let withdrawal = OutputContent::Withdrawal { value, main_fee, main_address };
    let (coins, change) = choose|coins: Seq<Coin>, change: u64| #[trigger]
        funds(before, amount, Ok((coins, change))) && spends(utxo_hash, prove, coins, tx)
            && tx.outputs@ == withdrawal_outputs(
            address_at(before.seed->0, first),
            withdrawal,
            address_at(before.seed->0, second),
            change,
        );
    lemma_funded_inputs(before, amount, utxo_hash, prove, coins, change, tx);
    reveal_with_fuel(outputs_sum, 3);
    assert(tx.outputs@.drop_last().drop_last() =~= Seq::<Output>::empty());
}

/// Every output that the wallet holds pays an address on record.
pub open spec fn owned(wallet: WalletView) -> bool {
    forall|outpoint: OutPoint| #[trigger]
        wallet.utxos.contains_key(outpoint) ==> wallet.address_to_index.contains_key(
            wallet.utxos[outpoint].address,
        )
}

proof fn lemma_own_inputs_can_be_signed(
    before: WalletView,
    after: WalletView,
    inputs: Seq<(OutPoint, [u8; 32])>,
)
    requires
        spends_among(before.utxos, inputs),
        owned(before),
        after.seed is Some,
        after.utxos == before.utxos,
        before.address_to_index.dom().subset_of(after.address_to_index.dom()),
    ensures
        forall|i: int| 0 <= i < inputs.len() ==> after.can_sign((#[trigger] inputs[i]).0),
{
    assert forall|i: int| 0 <= i < inputs.len() implies after.can_sign(
        (#[trigger] inputs[i]).0,
    ) by {
        assert(before.utxos.contains_key(inputs[i].0));
        assert(before.address_to_index.dom().contains(before.utxos[inputs[i].0].address));
    }
}

/// The wallet can authorize each input of a transfer that it made, if every output
/// that it holds pays an address on record.
pub proof fn a_transfer_can_be_authorized<
    P,
    H: Fn(&Coin) -> [u8; 32],
    A: Fn(&Vec<[u8; 32]>) -> Result<P, UtreexoError>,
>(
    before: WalletView,
    after: WalletView,
    utxo_hash: H,
    prove: A,
    dests: Seq<(Address, u64)>,
    fee: u64,
    tx: Transaction<P>,
)
    requires
        owned(before),
        transferred(before, after, utxo_hash, prove, dests, fee, Ok(tx)),
    ensures
        owned(after),
        forall|i: int| 0 <= i < tx.inputs@.len() ==> after.can_sign((#[trigger] tx.inputs@[i]).0),
{
    transfer_keeps_the_sum(before, after, utxo_hash, prove, dests, fee, tx);
    lemma_own_inputs_can_be_signed(before, after, tx.inputs@);
}

/// The wallet can authorize each input of a withdrawal that it made, if every
/// output that it holds pays an address on record.
pub proof fn a_withdrawal_can_be_authorized<
    P,
    H: Fn(&Coin) -> [u8; 32],
    A: Fn(&Vec<[u8; 32]>) -> Result<P, UtreexoError>,
>(
    before: WalletView,
    after: WalletView,
    utxo_hash: H,
    prove: A,
    main_address: String,
    value: u64,
    main_fee: u64,
    fee: u64,
    tx: Transaction<P>,
)
    requires
        owned(before),
        withdrawn(
            before,
            after,
            utxo_hash,
            prove,
            OutputContent::Withdrawal { value, main_fee, main_address },
            (value + fee + main_fee) as nat,
            Ok(tx),
        ),
    ensures
        owned(after),
        forall|i: int| 0 <= i < tx.inputs@.len() ==> after.can_sign((#[trigger] tx.inputs@[i]).0),
{
    withdrawal_keeps_the_sum(
        before,
        after,
        utxo_hash,
        prove,
        main_address,
        value,
        main_fee,
        fee,
        tx,
    );
    lemma_own_inputs_can_be_signed(before, after, tx.inputs@);
}

/// What authorizes an input belongs to the address that the spent output pays.
pub proof fn authorization_is_of_the_spent_address(
    wallet: WalletView,
    outpoint: OutPoint,
    authorization: Authorization,
    message: Seq<u8>,
)
    requires
        wallet.derived(),
        wallet.can_sign(outpoint),
        wallet.authorizes(authorization, outpoint, message),
    ensures
        address_of(authorization.verifying_key@) == wallet.utxos[outpoint].address,
{
    let address = wallet.utxos[outpoint].address;
    assert(wallet.address_to_index.contains_key(address));
    assert(wallet.index_to_address.contains_key(wallet.address_to_index[address]));
}

/// What the wallet authorized verifies for that transaction, if it is always the
/// same bytes that are made of it. Each key is that of the address that the spent
/// output pays, if the wallet's addresses are derived.
pub proof fn an_authorized_transaction_verifies<
    P,
    M: Fn(&Transaction<P>) -> Result<Vec<u8>, AuthorizationError>,
>(
    wallet: WalletView,
    transaction: Transaction<P>,
    message_of: M,
    authorized: AuthorizedTransaction<P>,
)
    requires
        signs(wallet, transaction, message_of, Ok(authorized)),
        forall|a: Vec<u8>, b: Vec<u8>|
            call_ensures(message_of, (&transaction,), Ok::<Vec<u8>, AuthorizationError>(a))
                && call_ensures(message_of, (&transaction,), Ok::<Vec<u8>, AuthorizationError>(b))
                ==> a@ == b@,
    ensures
        authorized.transaction == transaction,
        authorized.authorizations@.len() == transaction.inputs@.len(),
        forall|message: Vec<u8>| #[trigger]
            call_ensures(message_of, (&transaction,), Ok::<Vec<u8>, AuthorizationError>(message))
                ==> authorized.verifies(message@),
        wallet.derived() ==> forall|i: int|
            0 <= i < transaction.inputs@.len() ==> address_of(
                (#[trigger] authorized.authorizations@[i]).verifying_key@,
            ) == wallet.utxos[transaction.inputs@[i].0].address,
{
    let inputs = transaction.inputs@;
    if inputs.len() > 0 {
        let signed = choose|message: Vec<u8>| #[trigger]
            call_ensures(message_of, (&transaction,), Ok::<Vec<u8>, AuthorizationError>(message))
                && forall|i: int|
                0 <= i < inputs.len() ==> wallet.authorizes(
                    authorized.authorizations@[i],
                    (#[trigger] inputs[i]).0,
                    message@,
                );
        assert forall|i: int| 0 <= i < inputs.len() implies accepted(
            (#[trigger] authorized.authorizations@[i]).verifying_key@,
            signed@,
            authorized.authorizations@[i].signature@,
        ) by {
            assert(wallet.authorizes(authorized.authorizations@[i], inputs[i].0, signed@));
        }
        if wallet.derived() {
            assert forall|i: int| 0 <= i < inputs.len() implies address_of(
                (#[trigger] authorized.authorizations@[i]).verifying_key@,
            ) == wallet.utxos[inputs[i].0].address by {
                assert(wallet.can_sign(inputs[i].0));
                authorization_is_of_the_spent_address(
                    wallet,
                    inputs[i].0,
                    authorized.authorizations@[i],
                    signed@,
                );
            }
        }
    }
}

/// A new address is derived, and the addresses of a derived wallet stay derived.
pub proof fn new_address_keeps_addresses_derived(wallet: WalletView, index: u32)
    requires
        wallet.derived(),
        wallet.seed is Some,
    ensures
        wallet.with_address(index).derived(),
{
    let after = wallet.with_address(index);
    let address = address_at(wallet.seed->0, index);
    assert forall|i: u32| #[trigger]
        after.index_to_address.contains_key(i) implies after.address_to_index.contains_key(
        after.index_to_address[i],
    ) by {
        if i != index {
            assert(wallet.index_to_address.contains_key(i));
        }
    }
    assert forall|a: Address| #[trigger]
        after.address_to_index.contains_key(a) implies after.index_to_address.contains_key(
        after.address_to_index[a],
    ) && after.index_to_address[after.address_to_index[a]] == a by {
        if a != address {
            assert(wallet.address_to_index.contains_key(a));
            assert(wallet.index_to_address.contains_key(wallet.address_to_index[a]));
        }
    }
}

proof fn lemma_recovered_below_is_derived(wallet: WalletView, count: nat)
    requires
        wallet.derived(),
        wallet.seed is Some,
    ensures
        wallet.recovered_below(count).derived(),
        wallet.recovered_below(count).seed == wallet.seed,
    decreases count,
{
    if count > 0 {
        lemma_recovered_below_is_derived(wallet, (count - 1) as nat);
        let before = wallet.recovered_below((count - 1) as nat);
        let index = (count - 1) as u32;
        if !before.index_to_address.contains_key(index) {
            new_address_keeps_addresses_derived(before, index);
        }
    }
}

/// A wallet without addresses is derived; recovery, another seed and each change
/// of the outputs keep a derived wallet derived.
pub proof fn every_operation_keeps_addresses_derived(
    wallet: WalletView,
    seed: Seq<u8>,
    outpoints: Seq<OutPoint>,
    spent: Seq<(OutPoint, InPoint)>,
    utxos: Map<OutPoint, Output>,
)
    ensures
        wallet.index_to_address.dom().is_empty() && wallet.address_to_index.dom().is_empty()
            ==> wallet.derived(),
        wallet.overwritten(seed).derived(),
        wallet.derived() ==> {
            &&& wallet.recovered().derived()
            &&& wallet.without_utxos(outpoints).derived()
            &&& wallet.after_spending(spent).derived()
            &&& wallet.with_utxos(utxos).derived()
        },
{
    if wallet.index_to_address.dom().is_empty() && wallet.address_to_index.dom().is_empty() {
        assert forall|i: u32| !wallet.index_to_address.contains_key(i) by {
            assert(!wallet.index_to_address.dom().contains(i));
        }
        assert forall|a: Address| !wallet.address_to_index.contains_key(a) by {
            assert(!wallet.address_to_index.dom().contains(a));
        }
    }
    let cleared = WalletView {
        seed: Some(seed),
        address_to_index: Map::empty(),
        index_to_address: Map::empty(),
        utxos: Map::empty(),
        stxos: Map::empty(),
        version: wallet.version,
    };
    lemma_recovered_below_is_derived(cleared, LEGACY_INDICES as nat);
    if wallet.derived() && wallet.seed is Some {
        lemma_recovered_below_is_derived(wallet, LEGACY_INDICES as nat);
    }
    if wallet.derived() {
        assert(wallet.without_utxos(outpoints).derived());
        assert(wallet.after_spending(spent).derived());
        assert(wallet.with_utxos(utxos).derived());
    }
}

/// Recovery below `count` derives this address at this index, which is not on
/// record.
pub open spec fn recovers(wallet: WalletView, count: nat, index: u32, address: Address) -> bool {
    &&& index < count
    &&& !wallet.index_to_address.contains_key(index)
    &&& address_at(wallet.seed->0, index) == address
}

/// This is what recovery below `count` makes of a wallet. Every index below `count`
/// is on record, each one that was not with its own address, and no other index
/// comes in. The addresses that come in have the index that they were derived at,
/// the greatest where there are several. Every entry that there was stays, and
/// nothing else changes.
pub open spec fn is_recovered(wallet: WalletView, count: nat, after: WalletView) -> bool {
    &&& after.seed == wallet.seed
    &&& after.utxos == wallet.utxos
    &&& after.stxos == wallet.stxos
    &&& after.version == wallet.version
    &&& forall|i: u32| #[trigger]
        after.index_to_address.contains_key(i) <==> wallet.index_to_address.contains_key(i) || i
            < count
    &&& forall|i: u32| #[trigger]
        wallet.index_to_address.contains_key(i) ==> after.index_to_address[i]
            == wallet.index_to_address[i]
    &&& forall|i: u32|
        i < count && !wallet.index_to_address.contains_key(i)
            ==> #[trigger] after.index_to_address[i] == address_at(wallet.seed->0, i)
    &&& forall|a: Address| #[trigger]
        after.address_to_index.contains_key(a) <==> wallet.address_to_index.contains_key(a)
            || exists|i: u32| recovers(wallet, count, i, a)
    &&& forall|a: Address|
        (exists|i: u32| recovers(wallet, count, i, a)) ==> recovers(
            wallet,
            count,
            #[trigger] after.address_to_index[a],
            a,
        )
    &&& forall|a: Address, i: u32| #[trigger]
        recovers(wallet, count, i, a) ==> i <= after.address_to_index[a]
    &&& forall|a: Address|
        wallet.address_to_index.contains_key(a) && !(exists|i: u32| recovers(wallet, count, i, a))
            ==> #[trigger] after.address_to_index[a] == wallet.address_to_index[a]
}

proof fn lemma_recovered_below(wallet: WalletView, count: nat)
    requires
        count <= u32::MAX,
    ensures
        is_recovered(wallet, count, wallet.recovered_below(count)),
    decreases count,
{
    if count > 0 {
        let fewer = (count - 1) as nat;
        let index = fewer as u32;
        lemma_recovered_below(wallet, fewer);
        let before = wallet.recovered_below(fewer);
        let after = wallet.recovered_below(count);
        let address = address_at(wallet.seed->0, index);
        assert(before.index_to_address.contains_key(index)
            <==> wallet.index_to_address.contains_key(index));
        assert forall|a: Address, i: u32| #[trigger]
            recovers(wallet, count, i, a) <==> recovers(wallet, fewer, i, a) || (i == index
            && !wallet.index_to_address.contains_key(index) && a == address) by {}
        if !wallet.index_to_address.contains_key(index) {
            assert(recovers(wallet, count, index, address));
        }
        assert forall|a: Address| #[trigger]
            after.address_to_index.contains_key(a) <==> wallet.address_to_index.contains_key(a)
            || exists|i: u32| recovers(wallet, count, i, a) by {
            if exists|i: u32| recovers(wallet, fewer, i, a) {
                let i = choose|i: u32| recovers(wallet, fewer, i, a);
                assert(recovers(wallet, count, i, a));
            }
            if exists|i: u32| recovers(wallet, count, i, a) {
                let i = choose|i: u32| recovers(wallet, count, i, a);
                assert(recovers(wallet, fewer, i, a) || i == index);
            }
            assert(before.address_to_index.contains_key(a)
                <==> wallet.address_to_index.contains_key(a) || exists|i: u32|
                recovers(wallet, fewer, i, a));
        }
        assert forall|a: Address| (exists|i: u32| recovers(wallet, count, i, a)) implies recovers(
            wallet,
            count,
            #[trigger] after.address_to_index[a],
            a,
        ) by {
            let i = choose|i: u32| recovers(wallet, count, i, a);
            if wallet.index_to_address.contains_key(index) || a != address {
                assert(recovers(wallet, fewer, i, a));
                assert(recovers(wallet, fewer, before.address_to_index[a], a));
            }
        }
        assert forall|a: Address, i: u32| #[trigger] recovers(wallet, count, i, a) implies i
            <= after.address_to_index[a] by {
            if wallet.index_to_address.contains_key(index) || a != address {
                assert(recovers(wallet, fewer, i, a));
            }
        }
        assert forall|a: Address|
            wallet.address_to_index.contains_key(a) && !(exists|i: u32|
                recovers(wallet, count, i, a)) implies #[trigger] after.address_to_index[a]
            == wallet.address_to_index[a] by {
            if exists|i: u32| recovers(wallet, fewer, i, a) {
                let i = choose|i: u32| recovers(wallet, fewer, i, a);
                assert(recovers(wallet, count, i, a));
            }
            assert(before.address_to_index[a] == wallet.address_to_index[a]);
        }
    }
}

/// Recovery puts every index of an older wallet on record, in both directions, and
/// keeps every entry that there was. A wallet without a seed stays as it is.
pub proof fn recovery_fills_the_legacy_range(wallet: WalletView)
    ensures
        wallet.seed is Some ==> is_recovered(wallet, LEGACY_INDICES as nat, wallet.recovered()),
        wallet.seed is None ==> wallet.recovered() == wallet,
{
    lemma_recovered_below(wallet, LEGACY_INDICES as nat);
}

/// Where there is a seed, every index of an older wallet is on record.
pub open spec fn complete(wallet: WalletView) -> bool {
    wallet.seed is Some ==> forall|i: u32|
        i < LEGACY_INDICES ==> #[trigger] wallet.index_to_address.contains_key(i)
}

proof fn lemma_nothing_to_recover(wallet: WalletView, count: nat)
    requires
        complete(wallet),
        wallet.seed is Some,
        count <= LEGACY_INDICES,
    ensures
        wallet.recovered_below(count) == wallet,
    decreases count,
{
    if count > 0 {
        lemma_nothing_to_recover(wallet, (count - 1) as nat);
        assert(wallet.index_to_address.contains_key((count - 1) as u32));
    }
}

/// Recovery completes a wallet, and changes nothing of a complete one. So a
/// second recovery changes nothing.
pub proof fn recovery_happens_once(wallet: WalletView)
    ensures
        complete(wallet.recovered()),
        complete(wallet) ==> wallet.recovered() == wallet,
        wallet.recovered().recovered() == wallet.recovered(),
{
    if wallet.seed is Some {
        lemma_recovered_below(wallet, LEGACY_INDICES as nat);
        lemma_nothing_to_recover(wallet.recovered(), LEGACY_INDICES as nat);
        if complete(wallet) {
            lemma_nothing_to_recover(wallet, LEGACY_INDICES as nat);
        }
    }
}

/// A complete wallet stays complete.
pub proof fn every_operation_keeps_a_wallet_complete(
    wallet: WalletView,
    seed: Seq<u8>,
    index: u32,
    outpoints: Seq<OutPoint>,
    spent: Seq<(OutPoint, InPoint)>,
    utxos: Map<OutPoint, Output>,
)
    ensures
        complete(wallet.overwritten(seed)),
        complete(wallet) ==> {
            &&& complete(wallet.with_address(index))
            &&& complete(wallet.without_utxos(outpoints))
            &&& complete(wallet.after_spending(spent))
            &&& complete(wallet.with_utxos(utxos))
        },
{
    let cleared = WalletView {
        seed: Some(seed),
        address_to_index: Map::empty(),
        index_to_address: Map::empty(),
        utxos: Map::empty(),
        stxos: Map::empty(),
        version: wallet.version,
    };
    recovery_happens_once(cleared);
}

/// To store a complete wallet and load it again changes nothing, whatever the
/// version of the program that loads it.
pub proof fn a_stored_wallet_loads_as_it_was(
    wallet: WalletView,
    stored: StoredWallet,
    current: Version,
)
    requires
        complete(wallet),
        stored.loaded(current) == wallet,
    ensures
        stored.loaded(current).recovered() == wallet,
{
    recovery_happens_once(wallet);
}

proof fn lemma_recovered_count(wallet: WalletView, count: nat)
    requires
        wallet.index_to_address.dom().is_empty(),
        count <= u32::MAX,
    ensures
        wallet.recovered_below(count).index_to_address.dom().finite(),
        wallet.recovered_below(count).index_to_address.len() == count,
    decreases count,
{
    if count > 0 {
        lemma_recovered_count(wallet, (count - 1) as nat);
        lemma_recovered_below(wallet, (count - 1) as nat);
        let index = (count - 1) as u32;
        assert(!wallet.index_to_address.dom().contains(index));
        assert(!wallet.recovered_below((count - 1) as nat).index_to_address.contains_key(index));
    } else {
        assert(wallet.index_to_address.dom() =~= Set::empty());
    }
}

/// After a seed was set, as many addresses are on record as an older wallet used,
/// and the next new address takes the index that follows them.
pub proof fn a_new_seed_fills_the_legacy_range(wallet: WalletView, seed: Seq<u8>)
    ensures
        wallet.overwritten(seed).index_to_address.dom().finite(),
        wallet.overwritten(seed).index_to_address.len() == LEGACY_INDICES,
        wallet.overwritten(seed).next_index() == LEGACY_INDICES,
        forall|i: u32|
            i < LEGACY_INDICES ==> #[trigger] wallet.overwritten(seed).index_to_address[i]
                == address_at(seed, i),
{
    let cleared = WalletView {
        seed: Some(seed),
        address_to_index: Map::empty(),
        index_to_address: Map::empty(),
        utxos: Map::empty(),
        stxos: Map::empty(),
        version: wallet.version,
    };
    assert(cleared.index_to_address.dom() =~= Set::empty());
    lemma_recovered_count(cleared, LEGACY_INDICES as nat);
    recovery_fills_the_legacy_range(cleared);
    let last = (LEGACY_INDICES - 1) as u32;
    assert(wallet.overwritten(seed).index_to_address.contains_key(last));
    lemma_last_index(wallet.overwritten(seed).index_to_address, last);
}

/// A new address takes an index that no address had. There is then one more
/// address on record, the new one is the last, and the next one takes the index
/// that follows. In a complete wallet the index is none of an older wallet's.
pub proof fn a_new_address_takes_a_new_index(wallet: WalletView)
    requires
        wallet.index_to_address.dom().finite(),
        wallet.has_room(1),
    ensures
        ({
            let index = wallet.next_index() as u32;
            let after = wallet.with_address(index);
            &&& index == wallet.next_index()
            &&& !wallet.index_to_address.contains_key(index)
            &&& forall|i: u32| #[trigger] wallet.index_to_address.contains_key(i) ==> i < index
            &&& after.index_to_address.len() == wallet.index_to_address.len() + 1
            &&& last_index(after.index_to_address) == index
            &&& after.next_index() == index + 1
            &&& complete(wallet) && wallet.seed is Some ==> index >= LEGACY_INDICES
        }),
{
    let index = wallet.next_index() as u32;
    if !wallet.index_to_address.dom().is_empty() {
        lemma_has_last_index(wallet.index_to_address);
    }
    lemma_next_index_follows(wallet, index);
    assert forall|i: u32| #[trigger] wallet.index_to_address.contains_key(i) implies i < index by {
        assert(wallet.index_to_address.dom().contains(i));
    }
    if complete(wallet) && wallet.seed is Some {
        assert(wallet.index_to_address.contains_key((LEGACY_INDICES - 1) as u32));
    }
    let after = wallet.with_address(index);
    assert(after.index_to_address.contains_key(index));
    assert(!after.index_to_address.dom().is_empty()) by {
        assert(after.index_to_address.dom().contains(index));
    }
}

/// No index on record has the address of this index.
pub open spec fn unshared(wallet: WalletView, index: u32) -> bool {
    forall|i: u32| #[trigger]
        wallet.index_to_address.contains_key(i) ==> address_at(wallet.seed->0, i) != address_at(
            wallet.seed->0,
            index,
        )
}

/// The indices from `first` to `last` have different addresses. Of indices that
/// differ in their highest bit alone this does not hold: they have the same key.
pub open spec fn distinct_between(seed: Seq<u8>, first: int, last: int) -> bool {
    forall|i: u32, j: u32|
        first <= i < j <= last ==> #[trigger] address_at(seed, i) != #[trigger] address_at(seed, j)
}

/// Where the indices up to the next one have different addresses, no index on record
/// has the address of the next one.
pub proof fn a_distinct_address_is_unshared(wallet: WalletView)
    requires
        wallet.index_to_address.dom().finite(),
        wallet.has_room(1),
        distinct_between(wallet.seed->0, 0, wallet.next_index()),
    ensures
        unshared(wallet, wallet.next_index() as u32),
{
    a_new_address_takes_a_new_index(wallet);
}

/// A new address is none that was on record, and the addresses on record are then
/// those that were and the new one, which is the last.
pub proof fn a_new_address_was_not_on_record(wallet: WalletView)
    requires
        wallet.derived(),
        wallet.seed is Some,
        wallet.index_to_address.dom().finite(),
        wallet.has_room(1),
        unshared(wallet, wallet.next_index() as u32),
    ensures
        ({
            let index = wallet.next_index() as u32;
            let address = address_at(wallet.seed->0, index);
            let after = wallet.with_address(index);
            &&& !wallet.index_to_address.values().contains(address)
            &&& !wallet.address_to_index.contains_key(address)
            &&& after.index_to_address.values() == wallet.index_to_address.values().insert(address)
            &&& after.index_to_address[last_index(after.index_to_address)] == address
            &&& after.derived()
        }),
{
    a_new_address_takes_a_new_index(wallet);
    let index = wallet.next_index() as u32;
    let seed = wallet.seed->0;
    let address = address_at(seed, index);
    let old = wallet.index_to_address;
    let new = wallet.with_address(index).index_to_address;
    new_address_keeps_addresses_derived(wallet, index);
    if old.values().contains(address) {
        let i = choose|i: u32| old.contains_key(i) && old[i] == address;
        assert(old.contains_key(i));
        assert(address_at(seed, i) == address_at(seed, index));
    }
    if wallet.address_to_index.contains_key(address) {
        let i = wallet.address_to_index[address];
        assert(old.contains_key(i));
        assert(address_at(seed, i) == address_at(seed, index));
    }
    assert forall|x: Address| new.values().contains(x) <==> old.values().insert(
        address,
    ).contains(x) by {
        if new.values().contains(x) {
            let i = choose|i: u32| new.contains_key(i) && new[i] == x;
            if i != index {
                assert(old.contains_key(i) && old[i] == x);
            }
        }
        if old.values().contains(x) {
            let i = choose|i: u32| old.contains_key(i) && old[i] == x;
            assert(new.contains_key(i) && new[i] == x);
        }
        if x == address {
            assert(new.contains_key(index) && new[index] == x);
        }
    }
    assert(new.values() =~= old.values().insert(address));
}

/// Two new addresses, one after the other, are none that were on record, and are
/// different ones.
pub proof fn two_new_addresses_differ(wallet: WalletView)
    requires
        wallet.derived(),
        wallet.seed is Some,
        wallet.index_to_address.dom().finite(),
        wallet.has_room(2),
        unshared(wallet, wallet.next_index() as u32),
        unshared(
            wallet.with_address(wallet.next_index() as u32),
            (wallet.next_index() + 1) as u32,
        ),
    ensures
        ({
            let first = wallet.next_index() as u32;
            let second = (first + 1) as u32;
            let one = address_at(wallet.seed->0, first);
            let other = address_at(wallet.seed->0, second);
            let after = wallet.with_address(first).with_address(second);
            let known = wallet.index_to_address.values();
            &&& one != other
            &&& !known.contains(one)
            &&& !known.contains(other)
            &&& after.index_to_address.values() == known.insert(one).insert(other)
            &&& after.derived()
        }),
{
    let first = wallet.next_index() as u32;
    a_new_address_takes_a_new_index(wallet);
    a_new_address_was_not_on_record(wallet);
    let between = wallet.with_address(first);
    a_new_address_was_not_on_record(between);
}

/// The wallet after this many new addresses.
pub open spec fn with_new_addresses(wallet: WalletView, count: nat) -> WalletView
    decreases count,
{
    if count == 0 {
        wallet
    } else {
        let before = with_new_addresses(wallet, (count - 1) as nat);
        before.with_address(before.next_index() as u32)
    }
}

/// New addresses take the indices that follow, one by one.
pub proof fn new_addresses_take_the_indices_that_follow(wallet: WalletView, count: nat)
    requires
        wallet.index_to_address.dom().finite(),
        wallet.has_room(count as int),
    ensures
        ({
            let after = with_new_addresses(wallet, count);
            &&& after.seed == wallet.seed
            &&& after.index_to_address.dom().finite()
            &&& after.next_index() == wallet.next_index() + count
            &&& after.index_to_address.len() == wallet.index_to_address.len() + count
            &&& forall|i: u32|
                wallet.next_index() <= i < wallet.next_index() + count
                    ==> #[trigger] after.index_to_address[i] == address_at(wallet.seed->0, i)
            &&& distinct_between(
                wallet.seed->0,
                wallet.next_index(),
                wallet.next_index() + count - 1,
            ) ==> forall|i: u32, j: u32|
                wallet.next_index() <= i < j < wallet.next_index() + count
                    ==> #[trigger] after.index_to_address[i] != #[trigger] after.index_to_address[j]
        }),
    decreases count,
{
    if count > 0 {
        let fewer = (count - 1) as nat;
        new_addresses_take_the_indices_that_follow(wallet, fewer);
        a_new_address_takes_a_new_index(with_new_addresses(wallet, fewer));
    }
    let after = with_new_addresses(wallet, count);
    let last = wallet.next_index() + count - 1;
    if distinct_between(wallet.seed->0, wallet.next_index(), last) {
        assert forall|i: u32, j: u32|
            wallet.next_index() <= i < j < wallet.next_index() + count implies
            #[trigger] after.index_to_address[i] != #[trigger] after.index_to_address[j] by {
            assert(address_at(wallet.seed->0, i) != address_at(wallet.seed->0, j));
        }
    }
}

/// An address to receive at that is a new one was not on record, so it is not the
/// one that received.
pub proof fn a_new_receive_address_was_not_on_record(wallet: WalletView)
    requires
        wallet.derived(),
        wallet.seed is Some,
        wallet.index_to_address.dom().finite(),
        wallet.has_room(1),
        unshared(wallet, wallet.next_index() as u32),
        !wallet.last_is_unused(),
    ensures
        ({
            let address = wallet.receive_address();
            let after = wallet.receiving();
            &&& !wallet.index_to_address.values().contains(address)
            &&& !wallet.index_to_address.dom().is_empty() ==> address
                != wallet.index_to_address[last_index(wallet.index_to_address)]
            &&& after.index_to_address.values() == wallet.index_to_address.values().insert(address)
            &&& after.index_to_address.len() == wallet.index_to_address.len() + 1
            &&& after.index_to_address[last_index(after.index_to_address)] == address
        }),
{
    a_new_address_was_not_on_record(wallet);
    a_new_address_takes_a_new_index(wallet);
    if !wallet.index_to_address.dom().is_empty() {
        lemma_has_last_index(wallet.index_to_address);
        let last = last_index(wallet.index_to_address);
        assert(wallet.index_to_address.contains_key(last));
        assert(wallet.index_to_address.values().contains(wallet.index_to_address[last]));
    }
}

/// The address to receive at stays the same until it receives.
pub proof fn the_receive_address_stays_until_it_receives(wallet: WalletView)
    requires
        wallet.index_to_address.dom().finite(),
        wallet.last_is_unused() || wallet.has_room(1),
        !wallet.received(wallet.receive_address()),
    ensures
        wallet.receiving().last_is_unused(),
        wallet.receiving().receive_address() == wallet.receive_address(),
        wallet.receiving().receiving() == wallet.receiving(),
{
    if !wallet.last_is_unused() {
        a_new_address_takes_a_new_index(wallet);
        let after = wallet.receiving();
        let index = wallet.next_index() as u32;
        assert(after.index_to_address.dom().contains(index));
        assert(after.index_to_address[last_index(after.index_to_address)]
            == wallet.receive_address());
        assert forall|outpoint: OutPoint| #[trigger]
            after.utxos.contains_key(outpoint) implies after.utxos[outpoint].address
            != wallet.receive_address() by {
            assert(wallet.utxos.contains_key(outpoint));
        }
        assert forall|outpoint: OutPoint| #[trigger]
            after.stxos.contains_key(outpoint) implies after.stxos[outpoint].output.address
            != wallet.receive_address() by {
            assert(wallet.stxos.contains_key(outpoint));
        }
    }
}

/// The address to receive at moves on once it receives: it is then the one of an
/// index that no address had.
pub proof fn the_receive_address_moves_on_once_it_receives(
    wallet: WalletView,
    outpoint: OutPoint,
    output: Output,
)
    requires
        wallet.index_to_address.dom().finite(),
        wallet.last_is_unused() || wallet.has_room(1),
        output.address == wallet.receive_address(),
    ensures
        ({
            let paid = wallet.receiving().with_utxos(map![outpoint => output]);
            &&& !paid.last_is_unused()
            &&& paid.receive_address() == address_at(paid.seed->0, paid.next_index() as u32)
            &&& paid.next_index() == last_index(wallet.receiving().index_to_address) + 1
        }),
{
    let after = wallet.receiving();
    if !wallet.last_is_unused() {
        a_new_address_takes_a_new_index(wallet);
        assert(after.index_to_address.dom().contains(wallet.next_index() as u32));
    }
    let paid = after.with_utxos(map![outpoint => output]);
    assert(paid.utxos.contains_key(outpoint));
    assert(paid.utxos[outpoint] == output);
    assert(paid.received(wallet.receive_address()));
}

/// An address that received counts as such after its outputs are spent, and no
/// other does, as long as an output on record both as unspent and as spent pays the
/// same address in both. Where none is on both records, none is afterwards.
pub proof fn spending_keeps_what_received(
    wallet: WalletView,
    spent: Seq<(OutPoint, InPoint)>,
    address: Address,
)
    requires
        forall|outpoint: OutPoint|
            #![trigger wallet.utxos.contains_key(outpoint)]
            wallet.utxos.contains_key(outpoint) && wallet.stxos.contains_key(outpoint)
                ==> wallet.utxos[outpoint].address == wallet.stxos[outpoint].output.address,
    ensures
        wallet.received(address) <==> wallet.after_spending(spent).received(address),
        wallet.utxos.dom().disjoint(wallet.stxos.dom()) ==> wallet.after_spending(
            spent,
        ).utxos.dom().disjoint(wallet.after_spending(spent).stxos.dom()),
{
    let after = wallet.after_spending(spent);
    let newly = wallet.newly_spent(spent);
    if wallet.received(address) {
        if exists|outpoint: OutPoint| #[trigger]
            wallet.utxos.contains_key(outpoint) && wallet.utxos[outpoint].address == address {
            let outpoint = choose|outpoint: OutPoint| #[trigger]
                wallet.utxos.contains_key(outpoint) && wallet.utxos[outpoint].address == address;
            if newly.contains_key(outpoint) {
                assert(after.stxos.contains_key(outpoint));
            } else {
                assert(after.utxos.contains_key(outpoint));
            }
        } else {
            let outpoint = choose|outpoint: OutPoint| #[trigger]
                wallet.stxos.contains_key(outpoint) && wallet.stxos[outpoint].output.address
                    == address;
            assert(newly.contains_key(outpoint) ==> wallet.utxos.contains_key(outpoint));
            assert(after.stxos.contains_key(outpoint));
        }
    }
    if after.received(address) {
        if exists|outpoint: OutPoint| #[trigger]
            after.utxos.contains_key(outpoint) && after.utxos[outpoint].address == address {
            let outpoint = choose|outpoint: OutPoint| #[trigger]
                after.utxos.contains_key(outpoint) && after.utxos[outpoint].address == address;
            assert(wallet.utxos.contains_key(outpoint));
        } else {
            let outpoint = choose|outpoint: OutPoint| #[trigger]
                after.stxos.contains_key(outpoint) && after.stxos[outpoint].output.address
                    == address;
            if newly.contains_key(outpoint) {
                assert(wallet.utxos.contains_key(outpoint));
            } else {
                assert(wallet.stxos.contains_key(outpoint));
            }
        }
    }
    if wallet.utxos.dom().disjoint(wallet.stxos.dom()) {
        assert forall|outpoint: OutPoint| #[trigger]
            after.utxos.dom().contains(outpoint) implies !after.stxos.dom().contains(
            outpoint,
        ) by {
            assert(wallet.utxos.dom().contains(outpoint));
            assert(!newly.contains_key(outpoint));
        }
    }
}

/// What the outputs outside a set and those in it are worth, taken together.
proof fn lemma_sum_over_parts(
    utxos: Map<OutPoint, Output>,
    weight: spec_fn(Output) -> nat,
    part: Set<OutPoint>,
)
    requires
        utxos.dom().finite(),
    ensures
        sum_over(utxos, weight) == sum_over(utxos.remove_keys(part), weight) + sum_over(
            utxos.restrict(part),
            weight,
        ),
    decreases utxos.dom().len(),
{
    let inside = utxos.restrict(part);
    let outside = utxos.remove_keys(part);
    assert(inside.dom() =~= utxos.dom().intersect(part));
    assert(outside.dom() =~= utxos.dom().difference(part));
    if utxos.dom().len() == 0 {
        assert(inside =~= utxos);
        assert(outside =~= utxos);
    } else {
        let outpoint = utxos.dom().choose();
        let rest = utxos.remove(outpoint);
        assert(rest.dom() =~= utxos.dom().remove(outpoint));
        lemma_sum_over_parts(rest, weight, part);
        lemma_sum_over_remove(utxos, weight, outpoint);
        if part.contains(outpoint) {
            lemma_sum_over_remove(inside, weight, outpoint);
            assert(inside.remove(outpoint) =~= rest.restrict(part));
            assert(outside =~= rest.remove_keys(part));
        } else {
            lemma_sum_over_remove(outside, weight, outpoint);
            assert(outside.remove(outpoint) =~= rest.remove_keys(part));
            assert(inside =~= rest.restrict(part));
        }
    }
}

/// What is available is never more than what there is.
pub proof fn what_is_available_is_part_of_the_total(utxos: Map<OutPoint, Output>)
    requires
        utxos.dom().finite(),
    ensures
        available_value(utxos) <= total_value(utxos),
    decreases utxos.dom().len(),
{
    if utxos.dom().len() > 0 {
        let outpoint = utxos.dom().choose();
        let rest = utxos.remove(outpoint);
        assert(rest.dom() =~= utxos.dom().remove(outpoint));
        what_is_available_is_part_of_the_total(rest);
    }
}

/// Outputs that come in add what they are worth, if none of them was there.
pub proof fn new_outputs_add_to_the_balance(wallet: WalletView, utxos: Map<OutPoint, Output>)
    requires
        wallet.utxos.dom().finite(),
        utxos.dom().finite(),
        wallet.utxos.dom().disjoint(utxos.dom()),
    ensures
        total_value(wallet.with_utxos(utxos).utxos) == total_value(wallet.utxos) + total_value(
            utxos,
        ),
        available_value(wallet.with_utxos(utxos).utxos) == available_value(wallet.utxos)
            + available_value(utxos),
{
    let all = wallet.with_utxos(utxos).utxos;
    assert(all.dom() =~= wallet.utxos.dom().union(utxos.dom()));
    assert(all.remove_keys(utxos.dom()) =~= wallet.utxos) by {
        assert forall|outpoint: OutPoint| #[trigger]
            wallet.utxos.contains_key(outpoint) implies !utxos.contains_key(outpoint) by {
            assert(wallet.utxos.dom().contains(outpoint));
            assert(!utxos.dom().contains(outpoint));
        }
    }
    assert(all.restrict(utxos.dom()) =~= utxos);
    lemma_sum_over_parts(all, any_value(), utxos.dom());
    lemma_sum_over_parts(all, spendable_value(), utxos.dom());
}

/// Outputs that are forgotten or spent take with them what they are worth.
pub proof fn lost_outputs_take_from_the_balance(
    wallet: WalletView,
    outpoints: Seq<OutPoint>,
    spent: Seq<(OutPoint, InPoint)>,
)
    requires
        wallet.utxos.dom().finite(),
    ensures
        total_value(wallet.utxos) == total_value(wallet.without_utxos(outpoints).utxos)
            + total_value(wallet.utxos.restrict(outpoints.to_set())),
        available_value(wallet.utxos) == available_value(wallet.without_utxos(outpoints).utxos)
            + available_value(wallet.utxos.restrict(outpoints.to_set())),
        total_value(wallet.utxos) == total_value(wallet.after_spending(spent).utxos) + total_value(
            wallet.utxos.restrict(wallet.newly_spent(spent).dom()),
        ),
        available_value(wallet.utxos) == available_value(wallet.after_spending(spent).utxos)
            + available_value(wallet.utxos.restrict(wallet.newly_spent(spent).dom())),
{
    lemma_sum_over_parts(wallet.utxos, any_value(), outpoints.to_set());
    lemma_sum_over_parts(wallet.utxos, spendable_value(), outpoints.to_set());
    lemma_sum_over_parts(wallet.utxos, any_value(), wallet.newly_spent(spent).dom());
    lemma_sum_over_parts(wallet.utxos, spendable_value(), wallet.newly_spent(spent).dom());
}

/// The outputs that inputs spend, as what spends them.
pub open spec fn spenders(
    inputs: Seq<(OutPoint, [u8; 32])>,
    inpoints: Seq<InPoint>,
) -> Seq<(OutPoint, InPoint)> {
    Seq::new(inputs.len(), |i: int| (inputs[i].0, inpoints[i]))
}

proof fn lemma_spender(spent: Seq<(OutPoint, InPoint)>, outpoint: OutPoint)
    ensures
        spender(spent, outpoint) is Some <==> exists|i: int|
            0 <= i < spent.len() && (#[trigger] spent[i]).0 == outpoint,
    decreases spent.len(),
{
    if spent.len() > 0 {
        let front = spent.drop_last();
        lemma_spender(front, outpoint);
        if spender(front, outpoint) is Some {
            let i = choose|i: int| 0 <= i < front.len() && (#[trigger] front[i]).0 == outpoint;
            assert(spent[i].0 == outpoint);
        } else if spent.last().0 == outpoint {
            assert(spent[spent.len() - 1].0 == outpoint);
        } else {
            assert forall|i: int| 0 <= i < spent.len() implies (#[trigger] spent[i]).0
                != outpoint by {
                if i < front.len() {
                    assert(front[i].0 == spent[i].0);
                }
            }
        }
    }
}

proof fn lemma_inputs_taken(
    utxos: Map<OutPoint, Output>,
    inputs: Seq<(OutPoint, [u8; 32])>,
    part: Set<OutPoint>,
)
    requires
        utxos.dom().finite(),
        spends_among(utxos, inputs),
        forall|outpoint: OutPoint| #[trigger]
            part.contains(outpoint) <==> exists|i: int|
                0 <= i < inputs.len() && (#[trigger] inputs[i]).0 == outpoint,
    ensures
        total_value(utxos.restrict(part)) == inputs_sum(utxos, inputs),
        available_value(utxos.restrict(part)) == inputs_sum(utxos, inputs),
    decreases inputs.len(),
{
    let inside = utxos.restrict(part);
    assert(inside.dom() =~= utxos.dom().intersect(part));
    if inputs.len() == 0 {
        assert(inside.dom() =~= Set::empty());
    } else {
        let n = inputs.len() - 1;
        let last = inputs[n].0;
        let front = inputs.drop_last();
        let less = part.remove(last);
        assert forall|i: int| 0 <= i < front.len() implies utxos.contains_key(
            (#[trigger] front[i]).0,
        ) && !(utxos[front[i].0].content is Withdrawal) by {
            assert(front[i] == inputs[i]);
        }
        assert forall|outpoint: OutPoint| #[trigger] less.contains(outpoint) <==> exists|i: int|
            0 <= i < front.len() && (#[trigger] front[i]).0 == outpoint by {
            if less.contains(outpoint) {
                let i = choose|i: int|
                    0 <= i < inputs.len() && (#[trigger] inputs[i]).0 == outpoint;
                assert(front[i].0 == outpoint);
            }
            if exists|i: int| 0 <= i < front.len() && (#[trigger] front[i]).0 == outpoint {
                let i = choose|i: int| 0 <= i < front.len() && (#[trigger] front[i]).0 == outpoint;
                assert(inputs[i].0 == outpoint);
                assert(inputs[i].0 != inputs[n].0);
                assert(part.contains(outpoint));
            }
        }
        lemma_inputs_taken(utxos, front, less);
        assert(part.contains(last));
        assert(inside.remove(last) =~= utxos.restrict(less));
        lemma_sum_over_remove(inside, any_value(), last);
        lemma_sum_over_remove(inside, spendable_value(), last);
    }
}

/// Once the inputs of a transaction of the wallet are spent, the balance is less
/// by what they are worth.
pub proof fn spent_inputs_take_from_the_balance(
    wallet: WalletView,
    inputs: Seq<(OutPoint, [u8; 32])>,
    inpoints: Seq<InPoint>,
)
    requires
        wallet.utxos.dom().finite(),
        spends_among(wallet.utxos, inputs),
        inpoints.len() == inputs.len(),
    ensures
        ({
            let after = wallet.after_spending(spenders(inputs, inpoints));
            &&& total_value(wallet.utxos) == total_value(after.utxos) + inputs_sum(
                wallet.utxos,
                inputs,
            )
            &&& available_value(wallet.utxos) == available_value(after.utxos) + inputs_sum(
                wallet.utxos,
                inputs,
            )
        }),
{
    let spent = spenders(inputs, inpoints);
    let part = wallet.newly_spent(spent).dom();
    assert forall|outpoint: OutPoint| #[trigger] part.contains(outpoint) <==> exists|i: int|
        0 <= i < inputs.len() && (#[trigger] inputs[i]).0 == outpoint by {
        lemma_spender(spent, outpoint);
        if part.contains(outpoint) {
            let i = choose|i: int| 0 <= i < spent.len() && (#[trigger] spent[i]).0 == outpoint;
            assert(inputs[i].0 == outpoint);
        }
        if exists|i: int| 0 <= i < inputs.len() && (#[trigger] inputs[i]).0 == outpoint {
            let i = choose|i: int| 0 <= i < inputs.len() && (#[trigger] inputs[i]).0 == outpoint;
            assert(spent[i].0 == outpoint);
            assert(wallet.utxos.contains_key(outpoint));
        }
    }
    lemma_inputs_taken(wallet.utxos, inputs, part);
    lost_outputs_take_from_the_balance(wallet, Seq::empty(), spent);
}

/// Once a transfer is confirmed, that is once its inputs are spent and its change
/// has come in, the wallet holds less by what the destinations take and the fee.
pub proof fn a_transfer_costs_its_payments_and_the_fee<
    P,
    H: Fn(&Coin) -> [u8; 32],
    A: Fn(&Vec<[u8; 32]>) -> Result<P, UtreexoError>,
>(
    before: WalletView,
    after: WalletView,
    utxo_hash: H,
    prove: A,
    dests: Seq<(Address, u64)>,
    fee: u64,
    tx: Transaction<P>,
    inpoints: Seq<InPoint>,
    change_point: OutPoint,
)
    requires
        before.utxos.dom().finite(),
        transferred(before, after, utxo_hash, prove, dests, fee, Ok(tx)),
        inpoints.len() == tx.inputs@.len(),
        !before.utxos.contains_key(change_point),
    ensures
        ({
            let confirmed = after.after_spending(spenders(tx.inputs@, inpoints)).with_utxos(
                map![change_point => tx.outputs@.last()],
            );
            &&& total_value(before.utxos) == total_value(confirmed.utxos) + dests_sum(dests) + fee
            &&& available_value(before.utxos) == available_value(confirmed.utxos) + dests_sum(
                dests,
            ) + fee
        }),
{
    let amount = dests_sum(dests) + fee as nat;
    let index = before.next_index() as u32;
    let (coins, change) = choose|coins: Seq<Coin>, change: u64| #[trigger]
        funds(before, amount, Ok((coins, change))) && spends(utxo_hash, prove, coins, tx)
            && tx.outputs@ == transfer_outputs(dests, address_at(before.seed->0, index), change);
    lemma_funded_inputs(before, amount, utxo_hash, prove, coins, change, tx);
    spent_inputs_take_from_the_balance(after, tx.inputs@, inpoints);
    let spent = after.after_spending(spenders(tx.inputs@, inpoints)).utxos;
    let output = tx.outputs@.last();
    assert(output.content == OutputContent::Value(change));
    assert(spent.dom() =~= after.utxos.dom().difference(
        after.newly_spent(spenders(tx.inputs@, inpoints)).dom(),
    ));
    assert(!spent.contains_key(change_point));
    assert(spent.union_prefer_right(map![change_point => output]) =~= spent.insert(
        change_point,
        output,
    ));
    lemma_sum_over_insert(spent, any_value(), change_point, output);
    lemma_sum_over_insert(spent, spendable_value(), change_point, output);
}

/// Two transfers, one after the other, pay their change to addresses of different
/// indices.
pub proof fn two_transfers_take_different_change_indices<
    P,
    H: Fn(&Coin) -> [u8; 32],
    A: Fn(&Vec<[u8; 32]>) -> Result<P, UtreexoError>,
>(
    first: WalletView,
    second: WalletView,
    third: WalletView,
    utxo_hash: H,
    prove: A,
    dests: Seq<(Address, u64)>,
    other_dests: Seq<(Address, u64)>,
    fee: u64,
    other_fee: u64,
    tx: Transaction<P>,
    other: Transaction<P>,
)
    requires
        first.index_to_address.dom().finite(),
        first.has_room(1),
        transferred(first, second, utxo_hash, prove, dests, fee, Ok(tx)),
        transferred(second, third, utxo_hash, prove, other_dests, other_fee, Ok(other)),
    ensures
        first.next_index() < second.next_index(),
        tx.outputs@.last().address == address_at(first.seed->0, first.next_index() as u32),
        other.outputs@.last().address == address_at(first.seed->0, second.next_index() as u32),
        unshared(second, second.next_index() as u32) ==> tx.outputs@.last().address
            != other.outputs@.last().address,
{
    a_new_address_takes_a_new_index(first);
    assert(second.index_to_address.contains_key(first.next_index() as u32));
}

/// Two withdrawals, one after the other, pay their outputs to addresses of four
/// different indices.
pub proof fn two_withdrawals_take_different_indices<
    P,
    H: Fn(&Coin) -> [u8; 32],
    A: Fn(&Vec<[u8; 32]>) -> Result<P, UtreexoError>,
>(
    first: WalletView,
    second: WalletView,
    third: WalletView,
    utxo_hash: H,
    prove: A,
    withdrawal: OutputContent,
    other_withdrawal: OutputContent,
    amount: nat,
    other_amount: nat,
    tx: Transaction<P>,
    other: Transaction<P>,
)
    requires
        first.index_to_address.dom().finite(),
        first.has_room(2),
        second.has_room(2),
        withdrawn(first, second, utxo_hash, prove, withdrawal, amount, Ok(tx)),
        withdrawn(second, third, utxo_hash, prove, other_withdrawal, other_amount, Ok(other)),
    ensures
        ({
            let seed = first.seed->0;
            let index = first.next_index();
            &&& second.next_index() == index + 2
            &&& tx.outputs@[0].address == address_at(seed, index as u32)
            &&& tx.outputs@[1].address == address_at(seed, (index + 1) as u32)
            &&& other.outputs@[0].address == address_at(seed, (index + 2) as u32)
            &&& other.outputs@[1].address == address_at(seed, (index + 3) as u32)
            &&& distinct_between(seed, index, index + 3) ==> tx.outputs@[0].address
                != tx.outputs@[1].address && tx.outputs@[0].address != other.outputs@[0].address
                && tx.outputs@[0].address != other.outputs@[1].address && tx.outputs@[1].address
                != other.outputs@[0].address && tx.outputs@[1].address != other.outputs@[1].address
                && other.outputs@[0].address != other.outputs@[1].address
        }),
{
    let index = first.next_index() as u32;
    a_new_address_takes_a_new_index(first);
    a_new_address_takes_a_new_index(first.with_address(index));
}

/// The change of a transfer goes to an address that was not on record, which is
/// then the one that was added. The outputs that the wallet holds stay the same.
pub proof fn a_transfer_pays_its_change_to_a_new_address<
    P,
    H: Fn(&Coin) -> [u8; 32],
    A: Fn(&Vec<[u8; 32]>) -> Result<P, UtreexoError>,
>(
    before: WalletView,
    after: WalletView,
    utxo_hash: H,
    prove: A,
    dests: Seq<(Address, u64)>,
    fee: u64,
    tx: Transaction<P>,
)
    requires
        before.derived(),
        before.index_to_address.dom().finite(),
        before.has_room(1),
        unshared(before, before.next_index() as u32),
        transferred(before, after, utxo_hash, prove, dests, fee, Ok(tx)),
    ensures
        ({
            let change = tx.outputs@.last().address;
            let known = before.index_to_address.values();
            &&& !known.contains(change)
            &&& after.index_to_address.values() == known.insert(change)
            &&& after.utxos == before.utxos
            &&& after.stxos == before.stxos
            &&& after.derived()
        }),
{
    a_new_address_was_not_on_record(before);
}

/// The two outputs of a withdrawal go to different addresses that were not on
/// record, which are then those that were added. The outputs that the wallet holds
/// stay the same.
pub proof fn a_withdrawal_pays_new_addresses<
    P,
    H: Fn(&Coin) -> [u8; 32],
    A: Fn(&Vec<[u8; 32]>) -> Result<P, UtreexoError>,
>(
    before: WalletView,
    after: WalletView,
    utxo_hash: H,
    prove: A,
    withdrawal: OutputContent,
    amount: nat,
    tx: Transaction<P>,
)
    requires
        before.derived(),
        before.index_to_address.dom().finite(),
        before.has_room(2),
        unshared(before, before.next_index() as u32),
        unshared(
            before.with_address(before.next_index() as u32),
            (before.next_index() + 1) as u32,
        ),
        withdrawn(before, after, utxo_hash, prove, withdrawal, amount, Ok(tx)),
    ensures
        ({
            let one = tx.outputs@[0].address;
            let other = tx.outputs@[1].address;
            let known = before.index_to_address.values();
            &&& tx.outputs@.len() == 2
            &&& tx.outputs@[0].content == withdrawal
            &&& tx.outputs@[1].content is Value
            &&& one != other
            &&& !known.contains(one)
            &&& !known.contains(other)
            &&& after.index_to_address.values() == known.insert(one).insert(other)
            &&& after.utxos == before.utxos
            &&& after.stxos == before.stxos
            &&& after.derived()
        }),
{
    two_new_addresses_differ(before);
}

/// Once a withdrawal is confirmed, that is once its inputs are spent and its outputs
/// have come in, the wallet holds less by the two fees, and what is available is
/// less by the value too: a withdrawal is held but not available.
pub proof fn a_withdrawal_costs_its_value_and_the_fees<
    P,
    H: Fn(&Coin) -> [u8; 32],
    A: Fn(&Vec<[u8; 32]>) -> Result<P, UtreexoError>,
>(
    before: WalletView,
    after: WalletView,
    utxo_hash: H,
    prove: A,
    main_address: String,
    value: u64,
    main_fee: u64,
    fee: u64,
    tx: Transaction<P>,
    inpoints: Seq<InPoint>,
    withdrawal_point: OutPoint,
    change_point: OutPoint,
)
    requires
        before.utxos.dom().finite(),
        withdrawn(
            before,
            after,
            utxo_hash,
            prove,
            OutputContent::Withdrawal { value, main_fee, main_address },
            (value + fee + main_fee) as nat,
            Ok(tx),
        ),
        inpoints.len() == tx.inputs@.len(),
        withdrawal_point != change_point,
        !before.utxos.contains_key(withdrawal_point),
        !before.utxos.contains_key(change_point),
    ensures
        ({
            let confirmed = after.after_spending(spenders(tx.inputs@, inpoints)).with_utxos(
                map![withdrawal_point => tx.outputs@[0], change_point => tx.outputs@[1]],
            );
            &&& total_value(before.utxos) == total_value(confirmed.utxos) + fee + main_fee
            &&& available_value(before.utxos) == available_value(confirmed.utxos) + value + fee
                + main_fee
        }),
{
    let amount = (value + fee + main_fee) as nat;
    let first = before.next_index() as u32;
    let second = (first + 1) as u32;
    let withdrawal = OutputContent::Withdrawal { value, main_fee, main_address };
    let (coins, change) = choose|coins: Seq<Coin>, change: u64| #[trigger]
        funds(before, amount, Ok((coins, change))) && spends(utxo_hash, prove, coins, tx)
            && tx.outputs@ == withdrawal_outputs(
            address_at(before.seed->0, first),
            withdrawal,
            address_at(before.seed->0, second),
            change,
        );
    lemma_funded_inputs(before, amount, utxo_hash, prove, coins, change, tx);
    spent_inputs_take_from_the_balance(after, tx.inputs@, inpoints);
    let spent = after.after_spending(spenders(tx.inputs@, inpoints)).utxos;
    let one = tx.outputs@[0];
    let other = tx.outputs@[1];
    assert(spent.dom() =~= after.utxos.dom().difference(
        after.newly_spent(spenders(tx.inputs@, inpoints)).dom(),
    ));
    let with_one = spent.insert(withdrawal_point, one);
    assert(with_one.dom() =~= spent.dom().insert(withdrawal_point));
    assert(spent.union_prefer_right(map![withdrawal_point => one, change_point => other])
        =~= with_one.insert(change_point, other));
    lemma_sum_over_insert(spent, any_value(), withdrawal_point, one);
    lemma_sum_over_insert(spent, spendable_value(), withdrawal_point, one);
    lemma_sum_over_insert(with_one, any_value(), change_point, other);
    lemma_sum_over_insert(with_one, spendable_value(), change_point, other);
}

/// Coins for an amount are found where and only where what is available covers it,
/// but for a sum that does not fit. Each error comes for its reason only.
pub proof fn lemma_funds_decide(
    wallet: WalletView,
    amount: nat,
    result: Result<(Seq<Coin>, u64), Error>,
)
    requires
        funds(wallet, amount, result),
    ensures
        result is Ok ==> covers(wallet, amount),
        result is Ok ==> amount <= u64::MAX && amount <= available_value(wallet.utxos),
        amount > u64::MAX ==> result == Err::<(Seq<Coin>, u64), Error>(Error::AmountOverflow),
        amount <= u64::MAX && available_value(wallet.utxos) < amount ==> result == Err::<
            (Seq<Coin>, u64),
            Error,
        >(Error::NotEnoughFunds),
        match result {
            Err(Error::NotEnoughFunds) => amount <= u64::MAX && available_value(wallet.utxos)
                < amount,
            Err(Error::AmountOverflow) => amount > u64::MAX || available_value(wallet.utxos)
                > u64::MAX,
            Err(_) => false,
            Ok(_) => true,
        },
{
    if amount <= u64::MAX {
        let found = match result {
            Ok((coins, _)) => Selection::Coins(coins),
            Err(Error::NotEnoughFunds) => Selection::NotEnough,
            Err(_) => Selection::Overflow,
        };
        funds_decide_the_search(wallet.utxos, amount as u64, found);
    }
}

/// A transfer comes about where the wallet's coins cover it, the wallet has a seed
/// and the coins are proved unspent, but for coins whose sum does not fit. Each
/// error comes for its reason only.
pub proof fn funds_decide_a_transfer<
    P,
    H: Fn(&Coin) -> [u8; 32],
    A: Fn(&Vec<[u8; 32]>) -> Result<P, UtreexoError>,
>(
    before: WalletView,
    after: WalletView,
    utxo_hash: H,
    prove: A,
    dests: Seq<(Address, u64)>,
    fee: u64,
    result: Result<Transaction<P>, Error>,
)
    requires
        dests.len() > 0,
        transferred(before, after, utxo_hash, prove, dests, fee, result),
    ensures
        ({
            let amount = dests_sum(dests) + fee as nat;
            match result {
                Ok(_) => amount <= u64::MAX && amount
                    <= available_value(before.utxos) && before.seed is Some,
                Err(Error::Utreexo(_)) => amount <= u64::MAX && amount
                    <= available_value(before.utxos),
                Err(Error::NoSeed) => amount <= u64::MAX && amount
                    <= available_value(before.utxos) && before.seed is None,
                Err(Error::NotEnoughFunds) => amount <= u64::MAX && available_value(before.utxos)
                    < amount,
                Err(Error::AmountOverflow) => amount > u64::MAX || available_value(before.utxos)
                    > u64::MAX,
                Err(_) => false,
            }
        }),
{
    let amount = dests_sum(dests) + fee as nat;
    match result {
        Ok(tx) => {
            let index = before.next_index() as u32;
            let (coins, change) = choose|coins: Seq<Coin>, change: u64| #[trigger]
                funds(before, amount, Ok((coins, change))) && spends(utxo_hash, prove, coins, tx)
                    && tx.outputs@ == transfer_outputs(
                    dests,
                    address_at(before.seed->0, index),
                    change,
                );
            lemma_funds_decide(before, amount, Ok((coins, change)));
        },
        Err(Error::Utreexo(error)) => {
            let (coins, change) = choose|coins: Seq<Coin>, change: u64| #[trigger]
                funds(before, amount, Ok((coins, change))) && unproved::<P, H, A>(
                    utxo_hash,
                    prove,
                    coins,
                    error,
                );
            lemma_funds_decide(before, amount, Ok((coins, change)));
        },
        Err(Error::NoSeed) => {
            let (coins, change) = choose|coins: Seq<Coin>, change: u64| #[trigger]
                funds(before, amount, Ok((coins, change))) && proved::<P, H, A>(
                    utxo_hash,
                    prove,
                    coins,
                );
            lemma_funds_decide(before, amount, Ok((coins, change)));
        },
        Err(error) => {
            lemma_funds_decide(before, amount, Err(error));
        },
    }
}

/// A withdrawal comes about where the wallet's coins cover it, the wallet has a
/// seed and the coins are proved unspent, but for coins whose sum does not fit.
/// Each error comes for its reason only.
pub proof fn funds_decide_a_withdrawal<
    P,
    H: Fn(&Coin) -> [u8; 32],
    A: Fn(&Vec<[u8; 32]>) -> Result<P, UtreexoError>,
>(
    before: WalletView,
    after: WalletView,
    utxo_hash: H,
    prove: A,
    main_address: String,
    value: u64,
    main_fee: u64,
    fee: u64,
    result: Result<Transaction<P>, Error>,
)
    requires
        withdrawn(
            before,
            after,
            utxo_hash,
            prove,
            OutputContent::Withdrawal { value, main_fee, main_address },
            (value + fee + main_fee) as nat,
            result,
        ),
    ensures
        ({
            let amount = (value + fee + main_fee) as nat;
            match result {
                Ok(_) => amount <= u64::MAX && amount
                    <= available_value(before.utxos) && before.seed is Some,
                Err(Error::Utreexo(_)) => amount <= u64::MAX && amount
                    <= available_value(before.utxos),
                Err(Error::NoSeed) => amount <= u64::MAX && amount
                    <= available_value(before.utxos) && before.seed is None,
                Err(Error::NotEnoughFunds) => amount <= u64::MAX && available_value(before.utxos)
                    < amount,
                Err(Error::AmountOverflow) => amount > u64::MAX || available_value(before.utxos)
                    > u64::MAX,
                Err(_) => false,
            }
        }),
{
    let amount = (value + fee + main_fee) as nat;
    let withdrawal = OutputContent::Withdrawal { value, main_fee, main_address };
    match result {
        Ok(tx) => {
            let first = before.next_index() as u32;
            let second = (first + 1) as u32;
            let (coins, change) = choose|coins: Seq<Coin>, change: u64| #[trigger]
                funds(before, amount, Ok((coins, change))) && spends(utxo_hash, prove, coins, tx)
                    && tx.outputs@ == withdrawal_outputs(
                    address_at(before.seed->0, first),
                    withdrawal,
                    address_at(before.seed->0, second),
                    change,
                );
            lemma_funds_decide(before, amount, Ok((coins, change)));
        },
        Err(Error::Utreexo(error)) => {
            let (coins, change) = choose|coins: Seq<Coin>, change: u64| #[trigger]
                funds(before, amount, Ok((coins, change))) && unproved::<P, H, A>(
                    utxo_hash,
                    prove,
                    coins,
                    error,
                );
            lemma_funds_decide(before, amount, Ok((coins, change)));
        },
        Err(Error::NoSeed) => {
            let (coins, change) = choose|coins: Seq<Coin>, change: u64| #[trigger]
                funds(before, amount, Ok((coins, change))) && proved::<P, H, A>(
                    utxo_hash,
                    prove,
                    coins,
                );
            lemma_funds_decide(before, amount, Ok((coins, change)));
        },
        Err(error) => {
            lemma_funds_decide(before, amount, Err(error));
        },
    }
}

/// The prover never refuses.
pub open spec fn never_refuses<P, A: Fn(&Vec<[u8; 32]>) -> Result<P, UtreexoError>>(
    prove: A,
) -> bool {
    forall|hashes: Vec<[u8; 32]>, error: UtreexoError| !(#[trigger] call_ensures(
        prove,
        (&hashes,),
        Err::<P, UtreexoError>(error),
    ))
}

/// What a wallet whose outputs sum up to what fits makes of a request for a
/// transaction of this amount: the amount comes first, then the funds, then the
/// proof, then the seed. A request that is refused changes nothing.
pub open spec fn decided<P, H: Fn(&Coin) -> [u8; 32], A: Fn(&Vec<[u8; 32]>) -> Result<
    P,
    UtreexoError,
>>(
    before: WalletView,
    after: WalletView,
    utxo_hash: H,
    prove: A,
    amount: nat,
    result: Result<Transaction<P>, Error>,
) -> bool {
    &&& result is Err ==> after == before
    &&& if amount > u64::MAX {
        result == Err::<Transaction<P>, Error>(Error::AmountOverflow)
    } else if amount > available_value(before.utxos) {
        result == Err::<Transaction<P>, Error>(Error::NotEnoughFunds)
    } else {
        &&& result matches Err(error) ==> error is Utreexo || error is NoSeed
        &&& result is Ok ==> before.seed is Some
        &&& result == Err::<Transaction<P>, Error>(Error::NoSeed) ==> before.seed is None
        &&& !provable::<P, H, A>(before, amount, utxo_hash, prove) ==> (result matches Err(error)
            && error is Utreexo)
        &&& never_refuses::<P, A>(prove) && before.seed is Some ==> result is Ok
        &&& never_refuses::<P, A>(prove) && before.seed is None ==> result == Err::<
            Transaction<P>,
            Error,
        >(Error::NoSeed)
    }
}

/// What a wallet whose outputs sum up to what fits makes of a request for a
/// transfer.
pub proof fn a_transfer_is_decided<
    P,
    H: Fn(&Coin) -> [u8; 32],
    A: Fn(&Vec<[u8; 32]>) -> Result<P, UtreexoError>,
>(
    before: WalletView,
    after: WalletView,
    utxo_hash: H,
    prove: A,
    dests: Seq<(Address, u64)>,
    fee: u64,
    result: Result<Transaction<P>, Error>,
)
    requires
        before.utxos.dom().finite(),
        total_value(before.utxos) <= u64::MAX,
        dests.len() > 0,
        transferred(before, after, utxo_hash, prove, dests, fee, result),
    ensures
        decided(before, after, utxo_hash, prove, dests_sum(dests) + fee as nat, result),
{
    what_is_available_is_part_of_the_total(before.utxos);
    funds_decide_a_transfer(before, after, utxo_hash, prove, dests, fee, result);
}

/// What a wallet whose outputs sum up to what fits makes of a request for a
/// withdrawal.
pub proof fn a_withdrawal_is_decided<
    P,
    H: Fn(&Coin) -> [u8; 32],
    A: Fn(&Vec<[u8; 32]>) -> Result<P, UtreexoError>,
>(
    before: WalletView,
    after: WalletView,
    utxo_hash: H,
    prove: A,
    main_address: String,
    value: u64,
    main_fee: u64,
    fee: u64,
    result: Result<Transaction<P>, Error>,
)
    requires
        before.utxos.dom().finite(),
        total_value(before.utxos) <= u64::MAX,
        withdrawn(
            before,
            after,
            utxo_hash,
            prove,
            OutputContent::Withdrawal { value, main_fee, main_address },
            (value + fee + main_fee) as nat,
            result,
        ),
    ensures
        decided(before, after, utxo_hash, prove, (value + fee + main_fee) as nat, result),
{
    what_is_available_is_part_of_the_total(before.utxos);
    funds_decide_a_withdrawal(
        before,
        after,
        utxo_hash,
        prove,
        main_address,
        value,
        main_fee,
        fee,
        result,
    );
}

} // verus!
