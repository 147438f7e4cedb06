use thunder_wallet::keys::{address_of_digest, get_address, secret_key, verify, verifying_key};
use thunder_wallet::transaction::verify_authorized_transaction;
use thunder_wallet::types::{
    Address, AuthorizationError, Error, InPoint, OutPoint, Output, OutputContent, PhraseError,
    Transaction, Version,
};
use thunder_wallet::wallet::{StoredWallet, Wallet};

const VERSION: Version = Version { major: 0, minor: 17, patch: 6 };

const LEGACY_MNEMONIC: &str = "abandon abandon abandon abandon abandon abandon abandon abandon abandon abandon abandon about";

fn empty_store() -> StoredWallet {
    StoredWallet {
        seed: None,
        address_to_index: Vec::new(),
        index_to_address: Vec::new(),
        utxos: Vec::new(),
        stxos: Vec::new(),
        version: None,
    }
}

fn new_wallet() -> Wallet {
    Wallet::new(empty_store(), VERSION).unwrap()
}

fn reopened(wallet: &Wallet) -> Wallet {
    Wallet::new(wallet.to_stored(), VERSION).unwrap()
}

/// Reads an address in base 58.
fn address(text: &str) -> Address {
    let alphabet = "123456789ABCDEFGHJKLMNPQRSTUVWXYZabcdefghijkmnopqrstuvwxyz";
    let mut bytes = [0u8; 20];
    for c in text.chars() {
        let mut carry = alphabet.find(c).unwrap();
        for byte in bytes.iter_mut().rev() {
            carry += 58 * (*byte as usize);
            *byte = (carry % 256) as u8;
            carry /= 256;
        }
        assert_eq!(carry, 0);
    }
    Address(bytes)
}

/// The bytes that these tests sign for a transaction.
fn message_of<P: std::fmt::Debug>(
    transaction: &Transaction<P>,
) -> Result<Vec<u8>, AuthorizationError> {
    Ok(format!("{transaction:?}").into_bytes())
}

fn sorted(mut addresses: Vec<Address>) -> Vec<Address> {
    addresses.sort();
    addresses
}

fn regular(byte: u8, vout: u32) -> OutPoint {
    OutPoint::Regular { txid: [byte; 32], vout }
}

fn paying(address: Address, value: u64) -> Output {
    Output { address, content: OutputContent::Value(value) }
}

/// Takes in what pays an address of the wallet among the outputs of the chain.
fn scan_legacy_change(wallet: &mut Wallet) {
    let output = paying(address("23xexovKLYvj8qWhpNBEo828eWQS"), 5500);
    let chain = vec![(regular(0xab, 1), output)];
    let addresses = wallet.get_addresses();
    let found: Vec<(OutPoint, Output)> =
        chain.into_iter().filter(|(_, output)| addresses.contains(&output.address)).collect();
    wallet.put_utxos(&found);
}

#[test]
fn test_legacy_change_after_seed_import() {
    let mut wallet = new_wallet();
    assert!(!wallet.has_seed());
    assert!(wallet.get_addresses().is_empty());
    wallet.set_seed_from_mnemonic(LEGACY_MNEMONIC).unwrap();

    scan_legacy_change(&mut wallet);
    assert_eq!(wallet.get_balance().unwrap().total, 5500);
    assert_eq!(wallet.get_num_addresses(), 500);
    assert!(wallet.get_addresses().contains(&address("38VvRdmcQREr1UAcZma98WLFVpAp")));

    let (point, output) = wallet.get_utxos().into_iter().next().unwrap();
    let transaction = Transaction {
        inputs: vec![(point, [7; 32])],
        proof: (),
        outputs: vec![output.clone()],
    };
    let message = message_of(&transaction).unwrap();
    let mut signed = wallet.authorize(transaction, message_of).unwrap();
    assert_eq!(verify_authorized_transaction(&signed, message_of), Ok(true));
    assert_eq!(signed.authorizations.len(), 1);
    let authorization = signed.authorizations[0];
    let key = ed25519_dalek::VerifyingKey::from_bytes(&authorization.verifying_key).unwrap();
    let signature = ed25519_dalek::Signature::from_bytes(&authorization.signature);
    assert!(key.verify_strict(&message, &signature).is_ok());
    assert!(verify(&authorization.verifying_key, &message, &authorization.signature));
    assert!(!verify(&[2; 32], &message, &authorization.signature));
    // The authorization is of this transaction and no other.
    signed.transaction.outputs[0] = paying(output.address, 5499);
    assert_eq!(verify_authorized_transaction(&signed, message_of), Ok(false));
    assert_eq!(get_address(&authorization.verifying_key), output.address);
}

#[test]
fn test_legacy_recovery_keeps_seed_and_addresses() {
    let mut wallet = new_wallet();
    wallet.set_seed_from_mnemonic(LEGACY_MNEMONIC).unwrap();
    scan_legacy_change(&mut wallet);
    let addresses = sorted(wallet.get_addresses());
    assert_eq!(addresses.len(), 500);
    wallet.set_seed_from_mnemonic(LEGACY_MNEMONIC).unwrap();
    assert_eq!(sorted(wallet.get_addresses()), addresses);
    assert!(matches!(wallet.set_seed(&[2; 64]), Err(Error::SeedAlreadyExists)));
    assert_eq!(sorted(wallet.get_addresses()), addresses);
    assert_eq!(wallet.get_balance().unwrap().total, 5500);
    for _ in 0..2 {
        wallet = reopened(&wallet);
        assert_eq!(sorted(wallet.get_addresses()), addresses);
        assert_eq!(wallet.get_balance().unwrap().total, 5500);
    }
}

#[test]
fn test_legacy_recovery_keeps_existing_wallet() {
    let mut wallet = new_wallet();
    wallet.set_seed_from_mnemonic(LEGACY_MNEMONIC).unwrap();
    let mut stored = wallet.to_stored();
    stored.index_to_address.clear();
    stored.address_to_index.clear();
    let mut last_address = Address([0; 20]);
    for index in [1u32, 600] {
        let address = get_address(&verifying_key(&wallet.get_signing_key(index).unwrap()));
        let key = index.to_be_bytes();
        stored.index_to_address.push((key, address));
        stored.address_to_index.push((address, key));
        last_address = address;
    }
    let next_address = get_address(&verifying_key(&wallet.get_signing_key(601).unwrap()));
    stored.utxos.push((regular(1, 0), paying(last_address, 1000)));
    assert_eq!(stored.index_to_address.len(), 2);

    let mut wallet = Wallet::new(stored, VERSION).unwrap();
    assert_eq!(wallet.get_num_addresses(), 501);
    assert!(wallet.get_addresses().contains(&last_address));
    assert!(wallet.get_addresses().contains(&address("38VvRdmcQREr1UAcZma98WLFVpAp")));
    assert_eq!(wallet.get_balance().unwrap().total, 1000);
    scan_legacy_change(&mut wallet);
    assert_eq!(wallet.get_balance().unwrap().total, 6500);
    assert_eq!(wallet.get_new_address().unwrap(), next_address);
    assert_eq!(wallet.get_num_addresses(), 502);
}

#[test]
fn test_get_receive_address() {
    let mut wallet = new_wallet();
    wallet.set_seed(&[1u8; 64]).unwrap();

    // An address that never received comes back every time.
    let first = wallet.get_receive_address().unwrap();
    for _ in 0..10 {
        assert_eq!(wallet.get_receive_address().unwrap(), first);
    }
    assert_eq!(wallet.get_addresses().len(), 500);

    // A fresh address is still fresh, so a change output never reuses one.
    let fresh = wallet.get_new_address().unwrap();
    assert_ne!(fresh, first);
    assert_eq!(wallet.get_addresses().len(), 501);

    // The receive address moves on once it receives.
    let output = paying(wallet.get_receive_address().unwrap(), 1000);
    wallet.put_utxos(&vec![(regular(0, 0), output)]);
    let second = wallet.get_receive_address().unwrap();
    assert_ne!(second, first);
    assert_eq!(wallet.get_receive_address().unwrap(), second);
}

#[test]
fn test_new_address_follows_legacy_range() {
    let mut wallet = new_wallet();
    wallet.set_seed(&[1u8; 64]).unwrap();
    assert_eq!(wallet.get_num_addresses(), 500);

    for index in 500..503u32 {
        let address = wallet.get_new_address().unwrap();
        let expected = get_address(&verifying_key(&wallet.get_signing_key(index).unwrap()));
        assert_eq!(address, expected, "address {index} derives at index {index}");
        assert_eq!(wallet.get_num_addresses(), index + 1);
    }
}

#[test]
fn test_get_or_generate_last_address() {
    let mut wallet = new_wallet();

    assert!(!wallet.has_seed());
    assert!(wallet.try_get_last_address().is_none());
    let seed = [1u8; 64];
    wallet.set_seed(&seed).unwrap();
    assert!(wallet.has_seed());

    let last = wallet.try_get_last_address();
    let addr1 = wallet.get_or_generate_last_address().unwrap();
    assert_eq!(last, Some(addr1));

    let last = wallet.try_get_last_address();
    assert_eq!(last, Some(addr1));

    let addr2 = wallet.get_or_generate_last_address().unwrap();
    assert_eq!(addr1, addr2);

    let addr3 = wallet.get_new_address().unwrap();
    assert_ne!(addr1, addr3);

    let last = wallet.try_get_last_address();
    assert_eq!(last, Some(addr3));

    let addr4 = wallet.get_or_generate_last_address().unwrap();
    assert_eq!(addr3, addr4);
}

#[test]
fn keys_and_addresses_have_their_known_values() {
    let mut wallet = new_wallet();
    wallet.set_seed_from_mnemonic(LEGACY_MNEMONIC).unwrap();
    let key = verifying_key(&wallet.get_signing_key(0).unwrap());
    let expected = [
        0x2c, 0xdb, 0x3f, 0x55, 0x0c, 0xcf, 0x47, 0xbd, 0xf4, 0xba, 0x32, 0x78, 0x73, 0x8e, 0x60,
        0xbf, 0x2c, 0x2b, 0x7d, 0xa7, 0x16, 0x63, 0xfd, 0x9f, 0xf0, 0xa8, 0x0d, 0x5f, 0x32, 0x7c,
        0x7b, 0x42,
    ];
    assert_eq!(key, expected);
    assert_eq!(get_address(&key), address("38VvRdmcQREr1UAcZma98WLFVpAp"));
    assert_eq!(wallet.index_of(&address("23xexovKLYvj8qWhpNBEo828eWQS")), Some(2));
    // The seed of the phrase, not the phrase, is what keys come of.
    assert_ne!(secret_key(&[0; 64], 0).unwrap(), wallet.get_signing_key(0).unwrap());
    assert_ne!(secret_key(&[0; 64], 0).unwrap(), secret_key(&[0; 64], 1).unwrap());
}

#[test]
fn a_phrase_with_a_wrong_checksum_or_word_is_refused() {
    let mut wallet = new_wallet();
    let wrong_sum = LEGACY_MNEMONIC.replace("about", "abandon");
    assert!(matches!(
        wallet.set_seed_from_mnemonic(&wrong_sum),
        Err(Error::ParseMnemonic(PhraseError::InvalidChecksum))
    ));
    let wrong_word = LEGACY_MNEMONIC.replace("about", "xyzzy");
    assert!(matches!(
        wallet.set_seed_from_mnemonic(&wrong_word),
        Err(Error::ParseMnemonic(PhraseError::InvalidWord(11)))
    ));
    assert!(matches!(
        wallet.set_seed_from_mnemonic("abandon abandon about"),
        Err(Error::ParseMnemonic(PhraseError::InvalidWordLength(3)))
    ));
    assert!(!wallet.has_seed());
}

#[test]
fn nothing_is_derived_without_a_seed() {
    let mut wallet = new_wallet();
    assert!(matches!(wallet.get_signing_key(0), Err(Error::NoSeed)));
    assert!(matches!(wallet.get_new_address(), Err(Error::NoSeed)));
    assert!(matches!(wallet.get_receive_address(), Err(Error::NoSeed)));
    assert!(matches!(wallet.get_or_generate_last_address(), Err(Error::NoSeed)));
    assert_eq!(wallet.next_index(), Some(0));
    assert_eq!(wallet.get_num_addresses(), 0);
}

#[test]
fn another_seed_leaves_nothing_of_the_former_one() {
    let mut wallet = new_wallet();
    wallet.set_seed(&[1; 64]).unwrap();
    let former = wallet.get_new_address().unwrap();
    wallet.put_utxos(&vec![(regular(1, 0), paying(former, 10))]);
    wallet.overwrite_seed(&[2; 64]).unwrap();
    assert_eq!(wallet.get_num_addresses(), 500);
    assert!(wallet.get_utxos().is_empty());
    assert!(!wallet.get_addresses().contains(&former));
    assert!(!wallet.address_received(&former));
    assert_eq!(wallet.next_index(), Some(500));
    // To set the seed that there is changes nothing.
    let next = wallet.get_new_address().unwrap();
    wallet.set_seed(&[2; 64]).unwrap();
    assert_eq!(wallet.try_get_last_address(), Some(next));
}

#[test]
fn spent_outputs_still_count_as_received() {
    let mut wallet = new_wallet();
    wallet.set_seed(&[3; 64]).unwrap();
    let first = wallet.get_receive_address().unwrap();
    let point = regular(9, 4);
    wallet.put_utxos(&vec![(point, paying(first, 700)), (regular(8, 0), paying(first, 50))]);
    assert!(wallet.address_received(&first));
    assert_eq!(wallet.get_balance().unwrap().total, 750);

    let unknown = regular(77, 0);
    let inpoint = InPoint::Regular { txid: [5; 32], vin: 0 };
    let second = InPoint::Withdrawal { m6id: [6; 32] };
    wallet.spend_utxos(&vec![(point, inpoint), (unknown, inpoint), (point, second)]);
    assert_eq!(wallet.get_balance().unwrap().total, 50);
    assert!(wallet.address_received(&first));
    let stored = wallet.to_stored();
    assert_eq!(stored.stxos.len(), 1);
    assert_eq!(stored.stxos[0].0, point);
    assert_eq!(stored.stxos[0].1.output, paying(first, 700));
    assert_eq!(stored.stxos[0].1.inpoint, inpoint);

    // What is forgotten is forgotten.
    wallet.delete_utxos(&vec![regular(8, 0), unknown]);
    assert_eq!(wallet.get_balance().unwrap().total, 0);
    assert!(wallet.get_utxos().is_empty());
    let moved_on = wallet.get_receive_address().unwrap();
    assert_ne!(moved_on, first);
    assert_eq!(wallet.index_of(&moved_on), Some(500));
}

#[test]
fn a_later_output_replaces_an_earlier_one() {
    let mut wallet = new_wallet();
    let to = Address([1; 20]);
    wallet.put_utxos(&vec![(regular(1, 0), paying(to, 5)), (regular(1, 0), paying(to, 6))]);
    wallet.put_utxos(&vec![(regular(1, 0), paying(to, 7))]);
    assert_eq!(wallet.get_utxos(), vec![(regular(1, 0), paying(to, 7))]);
    assert_eq!(wallet.utxo(&regular(1, 0)), Some(&paying(to, 7)));
    assert_eq!(wallet.utxo(&regular(1, 1)), None);
    assert_eq!(wallet.utxo(&OutPoint::Deposit { txid: [1; 32], vout: 0 }), None);
}

#[test]
fn withdrawals_are_held_but_not_available() {
    let mut wallet = new_wallet();
    let withdrawal = Output {
        address: Address([2; 20]),
        content: OutputContent::Withdrawal {
            value: 40,
            main_fee: 3,
            main_address: "bcrt1q".to_owned(),
        },
    };
    wallet.put_utxos(&vec![
        (regular(1, 0), withdrawal),
        (OutPoint::Deposit { txid: [1; 32], vout: 0 }, paying(Address([2; 20]), 60)),
    ]);
    let balance = wallet.get_balance().unwrap();
    assert_eq!(balance.total, 100);
    assert_eq!(balance.available, 60);
}

#[test]
fn a_balance_that_does_not_fit_is_an_error() {
    let mut wallet = new_wallet();
    let to = Address([1; 20]);
    wallet.put_utxos(&vec![(regular(1, 0), paying(to, u64::MAX))]);
    assert_eq!(wallet.get_balance().unwrap().total, u64::MAX);
    wallet.put_utxos(&vec![(regular(2, 0), paying(to, 1))]);
    assert!(matches!(wallet.get_balance(), Err(Error::AmountOverflow)));
}

#[test]
fn a_store_keeps_its_version() {
    let newer = Version { major: 1, minor: 0, patch: 0 };
    let wallet = new_wallet();
    assert_eq!(wallet.version(), VERSION);
    let wallet = Wallet::new(wallet.to_stored(), newer).unwrap();
    assert_eq!(wallet.version(), VERSION);
    assert_eq!(Wallet::NUM_DBS, 6);
}

#[test]
fn the_last_index_leaves_no_next_one() {
    let mut stored = empty_store();
    stored.seed = Some([4; 64]);
    stored.index_to_address.push((u32::MAX.to_be_bytes(), Address([1; 20])));
    let wallet = Wallet::new(stored, VERSION).unwrap();
    assert_eq!(wallet.next_index(), None);
    assert_eq!(wallet.try_get_last_address(), Some(Address([1; 20])));
    assert_eq!(wallet.get_num_addresses(), 501);
}

#[test]
fn an_interrupted_record_is_completed_and_kept() {
    let mut wallet = new_wallet();
    wallet.set_seed(&[5; 64]).unwrap();
    let mut stored = wallet.to_stored();
    // An address on record stays, whatever it is.
    let odd = Address([0xee; 20]);
    stored.index_to_address.retain(|(key, _)| u32::from_be_bytes(*key) >= 100);
    stored.index_to_address.push((7u32.to_be_bytes(), odd));
    stored.address_to_index.push((odd, 7u32.to_be_bytes()));
    let completed = Wallet::new(stored, VERSION).unwrap();
    assert_eq!(completed.get_num_addresses(), 500);
    assert_eq!(completed.index_of(&odd), Some(7));
    let first = get_address(&verifying_key(&wallet.get_signing_key(0).unwrap()));
    assert!(completed.get_addresses().contains(&first));
    let again = reopened(&completed);
    assert_eq!(sorted(again.get_addresses()), sorted(completed.get_addresses()));
}

#[test]
fn an_address_is_the_first_twenty_bytes_of_a_hash() {
    let mut digest = [0u8; 32];
    for (i, byte) in digest.iter_mut().enumerate() {
        *byte = i as u8;
    }
    let expected = [0, 1, 2, 3, 4, 5, 6, 7, 8, 9, 10, 11, 12, 13, 14, 15, 16, 17, 18, 19];
    assert_eq!(address_of_digest(&digest), Address(expected));
}

#[test]
fn an_address_is_on_record_in_both_directions() {
    let mut wallet = new_wallet();
    wallet.put_address(8, Address([1; 20]));
    wallet.put_address(3, Address([2; 20]));
    assert_eq!(wallet.index_of(&Address([1; 20])), Some(8));
    assert_eq!(wallet.index_of(&Address([2; 20])), Some(3));
    assert_eq!(wallet.index_of(&Address([3; 20])), None);
    assert_eq!(wallet.try_get_last_address(), Some(Address([1; 20])));
    assert_eq!(wallet.next_index(), Some(9));
}
