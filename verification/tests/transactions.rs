use thunder_wallet::coins::Coin;
use thunder_wallet::dests::{DuplicateAddress, TransferDests};
use thunder_wallet::keys::{get_address, verify};
use thunder_wallet::transaction::verify_authorized_transaction;
use thunder_wallet::types::{
    Address, AuthorizationError, Error, InPoint, OutPoint, Output, OutputContent, Transaction,
    UtreexoError, Version,
};
use thunder_wallet::wallet::{StoredWallet, Wallet};

const VERSION: Version = Version { major: 0, minor: 17, patch: 6 };

/// The proof of these tests: the hashes of what is spent.
type Proof = Vec<[u8; 32]>;

fn new_wallet() -> Wallet {
    let stored = StoredWallet {
        seed: None,
        address_to_index: Vec::new(),
        index_to_address: Vec::new(),
        utxos: Vec::new(),
        stxos: Vec::new(),
        version: None,
    };
    Wallet::new(stored, VERSION).unwrap()
}

fn funded_wallet(values_sats: &[u64]) -> Wallet {
    let mut wallet = new_wallet();
    wallet.set_seed(&[2u8; 64]).unwrap();
    let mut utxos = Vec::new();
    for (index, value_sats) in values_sats.iter().enumerate() {
        let outpoint = OutPoint::Regular { txid: [index as u8; 32], vout: 0 };
        let output = Output {
            address: wallet.get_new_address().unwrap(),
            content: OutputContent::Value(*value_sats),
        };
        utxos.push((outpoint, output));
    }
    wallet.put_utxos(&utxos);
    wallet
}

fn utxo_hash(coin: &Coin) -> [u8; 32] {
    *blake3::hash(format!("{coin:?}").as_bytes()).as_bytes()
}

fn prove(hashes: &Vec<[u8; 32]>) -> Result<Proof, UtreexoError> {
    Ok(hashes.clone())
}

/// The bytes that these tests sign for a transaction.
fn message_of<P: std::fmt::Debug>(
    transaction: &Transaction<P>,
) -> Result<Vec<u8>, AuthorizationError> {
    Ok(format!("{transaction:?}").into_bytes())
}

fn refuse(_: &Vec<[u8; 32]>) -> Result<Proof, UtreexoError> {
    Err(UtreexoError("no such leaf".to_owned()))
}

fn dests(entries: &[(Address, u64)]) -> TransferDests {
    TransferDests::from_entries(entries.to_vec()).unwrap()
}

fn value_of(output: &Output) -> u64 {
    output.get_value()
}

#[test]
fn test_create_transaction_many_pays_each_address() {
    let mut wallet = funded_wallet(&[10_000]);

    let entries =
        [(Address([1u8; 20]), 1000), (Address([2u8; 20]), 2000), (Address([3u8; 20]), 3000)];
    let tx: Transaction<Proof> =
        wallet.create_transaction_many(utxo_hash, prove, &dests(&entries), 500).unwrap();

    assert_eq!(tx.outputs.len(), 4);
    for (index, (address, value)) in entries.iter().enumerate() {
        assert_eq!(tx.outputs[index].address, *address);
        assert_eq!(value_of(&tx.outputs[index]), *value);
    }
    let change = &tx.outputs[3];
    assert_eq!(value_of(change), 10_000 - 1000 - 2000 - 3000 - 500);
    assert!(wallet.get_addresses().contains(&change.address));
}

#[test]
fn test_create_transaction_keeps_one_payment_and_change() {
    let mut wallet = funded_wallet(&[10_000]);

    let dest = Address([4u8; 20]);
    let tx: Transaction<Proof> =
        wallet.create_transaction(utxo_hash, prove, dest, 1000, 500).unwrap();

    assert_eq!(tx.outputs.len(), 2);
    assert_eq!(tx.outputs[0].address, dest);
    assert_eq!(value_of(&tx.outputs[0]), 1000);
    assert_eq!(value_of(&tx.outputs[1]), 10_000 - 1000 - 500);
    assert!(wallet.get_addresses().contains(&tx.outputs[1].address));
}

#[test]
fn test_create_transaction_many_rejects_an_overflow() {
    let mut wallet = funded_wallet(&[10_000]);

    let half = bitcoin::Amount::MAX.to_sat() / 2;
    let dests = dests(&[(Address([1u8; 20]), half), (Address([2u8; 20]), half + 1)]);
    let result = wallet.create_transaction_many(utxo_hash, prove, &dests, 500);
    assert!(matches!(result, Err(Error::AmountOverflow)));
}

#[test]
fn test_create_transaction_many_needs_a_destination() {
    let mut wallet = funded_wallet(&[10_000]);

    let result = wallet.create_transaction_many(utxo_hash, prove, &TransferDests::new(), 500);
    assert!(matches!(result, Err(Error::NoTransferDestination)));
}

#[test]
fn test_create_transaction_many_totals_the_values() {
    let mut wallet = funded_wallet(&[1000, 1000]);

    let dests = dests(&[(Address([1u8; 20]), 900), (Address([2u8; 20]), 900)]);
    // Each coin alone is too small, so the sum decides the selection.
    let tx: Transaction<Proof> =
        wallet.create_transaction_many(utxo_hash, prove, &dests, 100).unwrap();
    assert_eq!(tx.inputs.len(), 2);
    assert_eq!(value_of(&tx.outputs[2]), 100);

    let result = wallet.create_transaction_many(utxo_hash, prove, &dests, 1000);
    assert!(matches!(result, Err(Error::NotEnoughFunds)));
}

#[test]
fn a_withdrawal_pays_the_main_chain_and_the_change() {
    let mut wallet = funded_wallet(&[10_000]);
    let tx: Transaction<Proof> = wallet
        .create_withdrawal(utxo_hash, prove, "bcrt1q".to_owned(), 4000, 300, 20)
        .unwrap();
    let coin = wallet.get_utxos().into_iter().next().unwrap();
    assert_eq!(tx.inputs, vec![(coin.0, utxo_hash(&coin))]);
    assert_eq!(tx.proof, vec![utxo_hash(&coin)]);
    assert_eq!(tx.outputs.len(), 2);
    assert_eq!(
        tx.outputs[0].content,
        OutputContent::Withdrawal {
            value: 4000,
            main_fee: 300,
            main_address: "bcrt1q".to_owned(),
        }
    );
    assert_eq!(tx.outputs[1].content, OutputContent::Value(10_000 - 4000 - 300 - 20));
    assert_ne!(tx.outputs[0].address, tx.outputs[1].address);
    // One address was funded, and the withdrawal takes the two that follow.
    assert_eq!(wallet.index_of(&tx.outputs[0].address), Some(501));
    assert_eq!(wallet.index_of(&tx.outputs[1].address), Some(502));
    // What goes in comes out: the outputs, the fee and the fee on the main chain.
    let out: u64 = tx.outputs.iter().map(value_of).sum();
    assert_eq!(out + 300 + 20, 10_000);
}

#[test]
fn a_withdrawal_fails_as_its_parts_do() {
    let mut wallet = funded_wallet(&[1000]);
    let main = "bcrt1q".to_owned();
    assert!(matches!(
        wallet.create_withdrawal(utxo_hash, prove, main.clone(), u64::MAX, 1, 0),
        Err(Error::AmountOverflow)
    ));
    assert!(matches!(
        wallet.create_withdrawal(utxo_hash, prove, main.clone(), u64::MAX - 1, 1, 1),
        Err(Error::AmountOverflow)
    ));
    assert!(matches!(
        wallet.create_withdrawal(utxo_hash, prove, main.clone(), 999, 1, 1),
        Err(Error::NotEnoughFunds)
    ));
    let refused = wallet.create_withdrawal(utxo_hash, refuse, main.clone(), 1, 1, 1);
    assert!(matches!(refused, Err(Error::Utreexo(error)) if error.0 == "no such leaf"));
    assert_eq!(wallet.next_index(), Some(501));
    // The exact amount leaves no change.
    let tx = wallet.create_withdrawal(utxo_hash, prove, main, 998, 1, 1).unwrap();
    assert_eq!(tx.outputs[1].content, OutputContent::Value(0));
}

#[test]
fn a_transfer_fails_as_its_parts_do() {
    let mut wallet = funded_wallet(&[1000]);
    let to = Address([9; 20]);
    assert!(matches!(
        wallet.create_transaction(utxo_hash, prove, to, u64::MAX, 1),
        Err(Error::AmountOverflow)
    ));
    assert!(matches!(
        wallet.create_transaction(utxo_hash, refuse, to, 1, 1),
        Err(Error::Utreexo(_))
    ));
    assert_eq!(wallet.next_index(), Some(501));

    let mut unseeded = new_wallet();
    unseeded.put_utxos(&vec![(
        OutPoint::Coinbase { merkle_root: [1; 32], vout: 0 },
        Output { address: to, content: OutputContent::Value(5) },
    )]);
    assert!(matches!(
        unseeded.create_transaction(utxo_hash, prove, to, 1, 1),
        Err(Error::NoSeed)
    ));
    // The proof comes before the seed, and the funds before the proof.
    assert!(matches!(
        unseeded.create_transaction(utxo_hash, refuse, to, 1, 1),
        Err(Error::Utreexo(_))
    ));
    let main = "bcrt1q".to_owned();
    assert!(matches!(
        unseeded.create_withdrawal(utxo_hash, prove, main.clone(), 1, 1, 1),
        Err(Error::NoSeed)
    ));
    assert!(matches!(
        unseeded.create_withdrawal(utxo_hash, refuse, main.clone(), 1, 1, 1),
        Err(Error::Utreexo(_))
    ));
    assert!(matches!(
        unseeded.create_withdrawal(utxo_hash, refuse, main, 9, 1, 1),
        Err(Error::NotEnoughFunds)
    ));
}

#[test]
fn the_smallest_coins_go_first_until_they_exceed_the_value() {
    let wallet = funded_wallet(&[70, 10, 30, 20]);
    let values = |value: u64| -> (u64, Vec<u64>) {
        let (total, coins) = wallet.select_coins(value).unwrap();
        (total, coins.iter().map(|(_, output)| output.get_value()).collect())
    };
    assert_eq!(values(0), (10, vec![10]));
    assert_eq!(values(9), (10, vec![10]));
    // Coins that are worth just the value are not enough to stop.
    assert_eq!(values(10), (30, vec![10, 20]));
    assert_eq!(values(31), (60, vec![10, 20, 30]));
    assert_eq!(values(130), (130, vec![10, 20, 30, 70]));
    assert!(matches!(wallet.select_coins(131), Err(Error::NotEnoughFunds)));
}

#[test]
fn withdrawals_are_no_coins() {
    let mut wallet = funded_wallet(&[50]);
    wallet.put_utxos(&vec![(
        OutPoint::Regular { txid: [99; 32], vout: 0 },
        Output {
            address: Address([1; 20]),
            content: OutputContent::Withdrawal {
                value: 10,
                main_fee: 0,
                main_address: String::new(),
            },
        },
    )]);
    let (total, coins) = wallet.select_coins(20).unwrap();
    assert_eq!(total, 50);
    assert_eq!(coins.len(), 1);
    assert!(matches!(wallet.select_coins(55), Err(Error::NotEnoughFunds)));
}

#[test]
fn coins_whose_sum_does_not_fit_are_an_error() {
    let wallet = funded_wallet(&[u64::MAX, u64::MAX]);
    assert!(matches!(wallet.select_coins(u64::MAX), Err(Error::AmountOverflow)));
    assert_eq!(wallet.select_coins(7).unwrap().0, u64::MAX);
}

#[test]
fn an_empty_wallet_pays_nothing() {
    let wallet = funded_wallet(&[]);
    assert_eq!(wallet.select_coins(0).unwrap(), (0, vec![]));
    assert!(matches!(wallet.select_coins(1), Err(Error::NotEnoughFunds)));
}

#[test]
fn a_transfer_of_the_wallet_can_be_authorized() {
    let mut wallet = funded_wallet(&[300, 400, 500]);
    let tx: Transaction<Proof> =
        wallet.create_transaction(utxo_hash, prove, Address([5; 20]), 650, 10).unwrap();
    assert_eq!(tx.inputs.len(), 2);
    let spent: u64 =
        tx.inputs.iter().map(|(point, _)| wallet.utxo(point).unwrap().get_value()).sum();
    let out: u64 = tx.outputs.iter().map(value_of).sum();
    assert_eq!(spent, out + 10);

    let message = message_of(&tx).unwrap();
    let signed = wallet.authorize(tx, message_of).unwrap();
    assert_eq!(verify_authorized_transaction(&signed, message_of), Ok(true));
    assert_eq!(signed.authorizations.len(), 2);
    for (input, authorization) in
        signed.transaction.inputs.iter().zip(signed.authorizations.iter())
    {
        let address = wallet.utxo(&input.0).unwrap().address;
        assert_eq!(get_address(&authorization.verifying_key), address);
        assert!(verify(&authorization.verifying_key, &message, &authorization.signature));
    }
}

#[test]
fn the_first_input_that_cannot_be_signed_is_the_error() {
    let mut wallet = funded_wallet(&[300]);
    let stranger = Address([7; 20]);
    let foreign = OutPoint::Deposit { txid: [3; 32], vout: 1 };
    wallet.put_utxos(&vec![(
        foreign,
        Output { address: stranger, content: OutputContent::Value(1) },
    )]);
    let own = OutPoint::Regular { txid: [0; 32], vout: 0 };
    let unknown = OutPoint::Regular { txid: [55; 32], vout: 0 };
    let spending = |points: &[OutPoint]| Transaction {
        inputs: points.iter().map(|point| (*point, [0; 32])).collect(),
        proof: (),
        outputs: vec![],
    };
    assert!(wallet.authorize(spending(&[own, own]), message_of).is_ok());
    assert!(matches!(
        wallet.authorize(spending(&[own, foreign, unknown]), message_of),
        Err(Error::NoIndex { address }) if address == stranger
    ));
    assert!(matches!(
        wallet.authorize(spending(&[own, unknown, foreign]), message_of),
        Err(Error::NoUtxo)
    ));
    assert!(wallet.authorize(spending(&[]), message_of).unwrap().authorizations.is_empty());

    // What cannot be encoded cannot be signed. It is found out after the first input.
    let fail = |_: &Transaction<()>| -> Result<Vec<u8>, AuthorizationError> {
        Err(AuthorizationError("too long".to_owned()))
    };
    assert!(matches!(
        wallet.authorize(spending(&[own, unknown]), fail),
        Err(Error::Authorization(error)) if error.0 == "too long"
    ));
    assert!(matches!(wallet.authorize(spending(&[unknown, own]), fail), Err(Error::NoUtxo)));
    assert!(wallet.authorize(spending(&[]), fail).is_ok());
    let mut signed = wallet.authorize(spending(&[own]), message_of).unwrap();
    assert!(verify_authorized_transaction(&signed, fail).is_err());
    signed.authorizations.clear();
    assert_eq!(verify_authorized_transaction(&signed, message_of), Ok(false));

    let mut unseeded = wallet.to_stored();
    unseeded.seed = None;
    let unseeded = Wallet::new(unseeded, VERSION).unwrap();
    assert!(matches!(unseeded.authorize(spending(&[own]), message_of), Err(Error::NoSeed)));
}

#[test]
fn destinations_are_kept_in_the_order_of_their_addresses() {
    let (a, b, c) = (Address([1; 20]), Address([2; 20]), Address([3; 20]));
    let one = dests(&[(c, 30), (a, 10), (b, 20)]);
    let other = dests(&[(b, 20), (c, 30), (a, 10)]);
    assert_eq!(one, other);
    assert_eq!(*one.rows(), vec![(a, 10), (b, 20), (c, 30)]);
    assert_eq!(one.total(), Some(60));
}

#[test]
fn a_repeated_destination_is_refused() {
    let (a, b) = (Address([1; 20]), Address([2; 20]));
    assert_eq!(
        TransferDests::from_entries(vec![(b, 1), (a, 1), (b, 2), (a, 2)]),
        Err(DuplicateAddress { address: b })
    );
    let mut dests = TransferDests::single(a, 5);
    assert!(!dests.insert(a, 6));
    assert!(dests.insert(b, 7));
    assert_eq!(*dests.rows(), vec![(a, 5), (b, 7)]);
    assert_eq!(TransferDests::new().total(), Some(0));
}

#[test]
fn a_confirmed_transfer_costs_its_payments_and_the_fee() {
    let mut wallet = funded_wallet(&[300, 400, 500]);
    let entries = [(Address([1; 20]), 250), (Address([2; 20]), 350)];
    let tx: Transaction<Proof> =
        wallet.create_transaction_many(utxo_hash, prove, &dests(&entries), 15).unwrap();
    assert_eq!(wallet.get_balance().unwrap().total, 1200);
    let spent: Vec<(OutPoint, InPoint)> = tx
        .inputs
        .iter()
        .enumerate()
        .map(|(vin, (point, _))| (*point, InPoint::Regular { txid: [9; 32], vin: vin as u32 }))
        .collect();
    wallet.spend_utxos(&spent);
    assert_eq!(wallet.get_balance().unwrap().total, 500);
    let change = tx.outputs.last().unwrap().clone();
    wallet.put_utxos(&vec![(OutPoint::Regular { txid: [9; 32], vout: 2 }, change)]);
    let balance = wallet.get_balance().unwrap();
    assert_eq!(balance.total, 1200 - 250 - 350 - 15);
    assert_eq!(balance.available, balance.total);
}

#[test]
fn two_transfers_share_no_change_address() {
    let mut wallet = funded_wallet(&[300]);
    let to = Address([1; 20]);
    let one: Transaction<Proof> =
        wallet.create_transaction(utxo_hash, prove, to, 100, 1).unwrap();
    let other: Transaction<Proof> =
        wallet.create_transaction(utxo_hash, prove, to, 100, 1).unwrap();
    assert_eq!(wallet.index_of(&one.outputs[1].address), Some(501));
    assert_eq!(wallet.index_of(&other.outputs[1].address), Some(502));
}

#[test]
fn coins_of_one_value_are_as_good_as_each_other() {
    let wallet = funded_wallet(&[20, 20, 20, 5]);
    let (total, coins) = wallet.select_coins(30).unwrap();
    assert_eq!(total, 45);
    let values: Vec<u64> = coins.iter().map(|(_, output)| output.get_value()).collect();
    assert_eq!(values, vec![5, 20, 20]);
}

#[test]
fn a_confirmed_withdrawal_costs_its_value_and_the_fees() {
    let mut wallet = funded_wallet(&[1000]);
    let main = "bcrt1q".to_owned();
    let tx: Transaction<Proof> =
        wallet.create_withdrawal(utxo_hash, prove, main, 600, 30, 5).unwrap();
    let inpoint = InPoint::Regular { txid: [9; 32], vin: 0 };
    wallet.spend_utxos(&vec![(tx.inputs[0].0, inpoint)]);
    wallet.put_utxos(&vec![
        (OutPoint::Regular { txid: [9; 32], vout: 0 }, tx.outputs[0].clone()),
        (OutPoint::Regular { txid: [9; 32], vout: 1 }, tx.outputs[1].clone()),
    ]);
    let balance = wallet.get_balance().unwrap();
    assert_eq!(balance.total, 1000 - 30 - 5);
    assert_eq!(balance.available, 1000 - 600 - 30 - 5);
}

#[test]
fn two_withdrawals_share_no_address() {
    let mut wallet = funded_wallet(&[1000]);
    let main = "bcrt1q".to_owned();
    let known = wallet.get_addresses();
    let one: Transaction<Proof> =
        wallet.create_withdrawal(utxo_hash, prove, main.clone(), 600, 30, 5).unwrap();
    let other: Transaction<Proof> =
        wallet.create_withdrawal(utxo_hash, prove, main, 600, 30, 5).unwrap();
    let mut seen = known.clone();
    for output in one.outputs.iter().chain(other.outputs.iter()) {
        assert!(!seen.contains(&output.address));
        seen.push(output.address);
    }
    assert_eq!(wallet.get_addresses().len(), known.len() + 4);
}
