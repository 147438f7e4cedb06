//! What the wallet holds and hands out: addresses, outputs, transactions.

use ed25519_dalek_bip32::Error as Bip32Error;
use vstd::prelude::*;

use crate::bytes::same_bytes;
use crate::table::Key;

verus! {

/// Marker type for the environment of the wallet's store.
pub struct WalletEnv;

/// An address of the sidechain: twenty bytes.
#[derive(Clone, Copy, Debug, PartialEq, Eq, PartialOrd, Ord, Hash)]
pub struct Address(pub [u8; 20]);

impl View for Address {
    type V = Seq<u8>;

    open spec fn view(&self) -> Seq<u8> {
        self.0@
    }
}

impl Key for Address {
    fn same(&self, other: &Self) -> (b: bool) {
        same_bytes(&self.0, &other.0)
    }
}

/// An address is its bytes.
pub proof fn address_is_its_bytes(a: Address, b: Address)
    ensures
        a@ == b@ ==> a == b,
{
    if a@ == b@ {
        assert forall|i: int| 0 <= i < 20 implies a.0[i] == b.0[i] by {
            assert(a@[i] == b@[i]);
        }
        assert(a.0 =~= b.0);
    }
}

/// What created an output.
#[derive(Clone, Copy, Debug, PartialEq, Eq, Hash)]
pub enum OutPoint {
    /// Created by a transaction.
    Regular { txid: [u8; 32], vout: u32 },
    /// Created by a block body.
    Coinbase { merkle_root: [u8; 32], vout: u32 },
    /// Created by a deposit on the main chain.
    Deposit { txid: [u8; 32], vout: u32 },
}

impl Key for OutPoint {
    fn same(&self, other: &Self) -> (b: bool) {
        match (self, other) {
            (
                OutPoint::Regular { txid: a, vout: m },
                OutPoint::Regular { txid: b, vout: n },
            ) => same_bytes(a, b) && *m == *n,
            (
                OutPoint::Coinbase { merkle_root: a, vout: m },
                OutPoint::Coinbase { merkle_root: b, vout: n },
            ) => same_bytes(a, b) && *m == *n,
            (
                OutPoint::Deposit { txid: a, vout: m },
                OutPoint::Deposit { txid: b, vout: n },
            ) => same_bytes(a, b) && *m == *n,
            _ => false,
        }
    }
}

/// What spent an output.
#[derive(Clone, Copy, Debug, PartialEq, Eq, Hash)]
pub enum InPoint {
    /// Spent by an input of a transaction.
    Regular { txid: [u8; 32], vin: u32 },
    /// Spent by a bundle of withdrawals to the main chain.
    Withdrawal { m6id: [u8; 32] },
}

/// What an output holds. Values are in sats.
#[derive(Debug, PartialEq, Eq)]
pub enum OutputContent {
    Value(u64),
    /// A payment to an address of the main chain. The wallet does not read that
    /// address.
    Withdrawal { value: u64, main_fee: u64, main_address: String },
}

impl OutputContent {
    /// The value in sats.
    pub open spec fn value(&self) -> u64 {
        match self {
            OutputContent::Value(value) => *value,
            OutputContent::Withdrawal { value, .. } => *value,
        }
    }

    /// Whether this is a withdrawal.
    pub fn is_withdrawal(&self) -> (b: bool)
        ensures
            b == (self is Withdrawal),
    {
        match self {
            OutputContent::Value(_) => false,
            OutputContent::Withdrawal { .. } => true,
        }
    }
}

impl Clone for OutputContent {
    fn clone(&self) -> (copy: Self)
        ensures
            copy == *self,
    {
        match self {
            OutputContent::Value(value) => OutputContent::Value(*value),
            OutputContent::Withdrawal { value, main_fee, main_address } => {
                OutputContent::Withdrawal {
                    value: *value,
                    main_fee: *main_fee,
                    main_address: main_address.clone(),
                }
            },
        }
    }
}

/// An output of a transaction.
#[derive(Debug, PartialEq, Eq)]
pub struct Output {
    pub address: Address,
    pub content: OutputContent,
}

impl Output {
    /// The value in sats.
    pub open spec fn value(&self) -> u64 {
        self.content.value()
    }

    /// The value in sats.
    pub fn get_value(&self) -> (value: u64)
        ensures
            value == self.value(),
    {
        match &self.content {
            OutputContent::Value(value) => *value,
            OutputContent::Withdrawal { value, .. } => *value,
        }
    }
}

impl Clone for Output {
    fn clone(&self) -> (copy: Self)
        ensures
            copy == *self,
    {
        Output { address: self.address, content: self.content.clone() }
    }
}

/// An output that was spent, with what spent it.
#[derive(Debug, PartialEq, Eq)]
pub struct SpentOutput {
    pub output: Output,
    pub inpoint: InPoint,
}

impl Clone for SpentOutput {
    fn clone(&self) -> (copy: Self)
        ensures
            copy == *self,
    {
        SpentOutput { output: self.output.clone(), inpoint: self.inpoint }
    }
}

/// A transaction: the outputs that it spends with their hashes, a proof of type
/// `P` that they are unspent, and the outputs that it makes.
#[derive(Debug, PartialEq, Eq)]
pub struct Transaction<P> {
    pub inputs: Vec<(OutPoint, [u8; 32])>,
    pub proof: P,
    pub outputs: Vec<Output>,
}

/// A signature with the key that verifies it.
#[derive(Clone, Copy, Debug, PartialEq, Eq)]
pub struct Authorization {
    pub verifying_key: [u8; 32],
    pub signature: [u8; 64],
}

/// A transaction with one authorization for each of its inputs.
#[derive(Debug, PartialEq, Eq)]
pub struct AuthorizedTransaction<P> {
    pub transaction: Transaction<P>,
    pub authorizations: Vec<Authorization>,
}

/// What the wallet holds, in sats.
#[derive(Clone, Copy, Debug, Default, PartialEq, Eq)]
pub struct Balance {
    /// Every unspent output.
    pub total: u64,
    /// Every unspent output but withdrawals.
    pub available: u64,
}

/// The version of the program that made a store.
#[derive(Clone, Copy, Debug, PartialEq, Eq, PartialOrd, Ord)]
pub struct Version {
    pub major: u64,
    pub minor: u64,
    pub patch: u64,
}

impl Version {
    /// This version came before the other one.
    pub open spec fn is_before(&self, other: Version) -> bool {
        ||| self.major < other.major
        ||| self.major == other.major && self.minor < other.minor
        ||| self.major == other.major && self.minor == other.minor && self.patch < other.patch
    }

    /// Whether this version came before the other one.
    pub fn before(&self, other: &Version) -> (b: bool)
        ensures
            b == self.is_before(*other),
    {
        self.major < other.major || (self.major == other.major && (self.minor < other.minor || (
        self.minor == other.minor && self.patch < other.patch)))
    }
}

/// Why an accumulator could not prove that outputs are unspent.
#[derive(Debug, PartialEq, Eq)]
pub struct UtreexoError(pub String);

/// Why what the authorizations of a transaction sign could not be made.
#[derive(Debug, PartialEq, Eq)]
pub struct AuthorizationError(pub String);

/// Why a seed phrase could not be parsed.
#[derive(Clone, Copy, Debug, PartialEq, Eq)]
pub enum PhraseError {
    /// The last word does not hold the checksum of the others.
    InvalidChecksum,
    /// The word at this place, counted from zero, is not in the list of the language.
    InvalidWord(usize),
    /// No phrase stands for a key of this size.
    InvalidKeysize(usize),
    /// No phrase has this many words.
    InvalidWordLength(usize),
    /// A phrase of this many words, the second number, does not stand for this many
    /// bits, the first.
    InvalidEntropyLength(usize, usize),
}

/// Why the wallet refused a request.
#[derive(Debug)]
pub enum Error {
    /// The wallet has no such address.
    AddressDoesNotExist { address: Address },
    /// A sum of amounts does not fit.
    AmountOverflow,
    /// A difference of amounts is below zero.
    AmountUnderflow,
    /// What the authorizations of a transaction sign could not be made.
    Authorization(AuthorizationError),
    /// The derivation of a key failed.
    Bip32(Bip32Error),
    /// An output pays an address that the wallet has no index for.
    NoIndex { address: Address },
    /// The wallet has no seed.
    NoSeed,
    /// The outputs that can be spent are worth less than was asked for.
    NotEnoughFunds,
    /// A transfer names no destination.
    NoTransferDestination,
    /// An input spends an output that the wallet does not hold.
    NoUtxo,
    /// A seed phrase could not be parsed.
    ParseMnemonic(PhraseError),
    /// The wallet has another seed.
    SeedAlreadyExists,
    /// The accumulator has no proof for the inputs.
    Utreexo(UtreexoError),
}

/// A payment and a withdrawal are worth the value that they name. The fee of a
/// withdrawal on the main chain is no part of it.
pub proof fn an_output_is_worth_what_it_names(
    address: Address,
    value: u64,
    main_fee: u64,
    main_address: String,
)
    ensures
        (Output { address, content: OutputContent::Value(value) }).value() == value,
        (Output {
            address,
            content: OutputContent::Withdrawal { value, main_fee, main_address },
        }).value() == value,
{
}

/// Versions are ordered by their first number, then by the second, then by the third.
pub proof fn versions_are_ordered_by_their_numbers(a: Version, b: Version)
    ensures
        a.major < b.major ==> a.is_before(b) && !b.is_before(a),
        a.major == b.major && a.minor < b.minor ==> a.is_before(b) && !b.is_before(a),
        a.major == b.major && a.minor == b.minor && a.patch < b.patch ==> a.is_before(b)
            && !b.is_before(a),
        !a.is_before(a),
{
}

/// An address is taken by its twenty bytes, each at its place.
pub proof fn an_address_is_taken_byte_by_byte(address: Address, i: int)
    ensures
        address@.len() == 20,
        0 <= i < 20 ==> address@[i] == address.0[i],
{
}

} // verus!
