//! Seeds, keys, signatures and addresses.

use bip39::{ErrorKind, Mnemonic};
use ed25519_dalek_bip32::Error as Bip32Error;
use vstd::prelude::*;

use crate::types::{address_is_its_bytes, Address, Error, PhraseError};

verus! {

/// The error of the crate `ed25519_dalek_bip32`.
#[verifier::external_type_specification]
#[verifier::external_body]
pub struct ExBip32Error(Bip32Error);

/// The languages that a phrase can be in.
#[derive(Clone, Copy, Debug, PartialEq, Eq)]
pub enum Language {
    English,
}

/// The seed that `bip39::Seed::new` makes of a phrase in a language and a password;
/// the error of `bip39::Mnemonic::from_phrase` where that refuses the phrase.
pub uninterp spec fn phrase_seed(
    phrase: Seq<char>,
    language: Language,
    password: Seq<char>,
) -> Result<Seq<u8>, PhraseError>;

/// The bytes of a seed, or the error in its place.
pub open spec fn seed_bytes(seed: Result<[u8; 64], PhraseError>) -> Result<Seq<u8>, PhraseError> {
    match seed {
        Ok(bytes) => Ok(bytes@),
        Err(error) => Err(error),
    }
}

/// Calls `bip39::Mnemonic::from_phrase` with the word list of the language and,
/// where that accepts the phrase, `bip39::Seed::new` with the password. Both depend
/// on their arguments alone. The seed is sixty-four bytes long. An error is that of
/// `from_phrase`, variant by variant; the type of a phrase in it is given by its
/// number of words.
#[verifier::external_body]
fn seed_from_phrase(phrase: &str, language: Language, password: &str) -> (seed: Result<
    [u8; 64],
    PhraseError,
>)
    ensures
        seed_bytes(seed) == phrase_seed(phrase@, language, password@),
{
    let language = match language { Language::English => bip39::Language::English };
    let mnemonic = Mnemonic::from_phrase(phrase, language).map_err(
        |error| match error {
            ErrorKind::InvalidChecksum => PhraseError::InvalidChecksum,
            ErrorKind::InvalidWord(n) => PhraseError::InvalidWord(n),
            ErrorKind::InvalidKeysize(n) => PhraseError::InvalidKeysize(n),
            ErrorKind::InvalidWordLength(n) => PhraseError::InvalidWordLength(n),
            ErrorKind::InvalidEntropyLength(n, kind) => {
                PhraseError::InvalidEntropyLength(n, kind.word_count())
            },
        },
    )?;
    let mut bytes = [0u8; 64];
    bytes.copy_from_slice(bip39::Seed::new(&mnemonic, password).as_bytes());
    Ok(bytes)
}

/// The secret key and the chain code of the root that
/// `ed25519_dalek_bip32::ExtendedSigningKey::from_seed` makes of a seed.
pub uninterp spec fn root_key(seed: Seq<u8>) -> (Seq<u8>, Seq<u8>);

/// Calls `ed25519_dalek_bip32::ExtendedSigningKey::from_seed`, which succeeds on
/// every seed and depends on the seed alone. Returns the secret key and the
/// chain code of the root.
#[verifier::external_body]
fn root_from_seed(seed: &[u8; 64]) -> (root: Result<([u8; 32], [u8; 32]), Bip32Error>)
    ensures
        root is Ok,
        root matches Ok(key) ==> (key.0@, key.1@) == root_key(seed@),
{
    let root = ed25519_dalek_bip32::ExtendedSigningKey::from_seed(seed)?;
    Ok((root.signing_key.to_bytes(), root.chain_code))
}

/// The secret key that `ed25519_dalek_bip32::ExtendedSigningKey::derive` reaches
/// from a root with this secret key and chain code, along a path of hardened
/// indices.
pub uninterp spec fn derived_secret(secret: Seq<u8>, chain_code: Seq<u8>, path: Seq<u32>) -> Seq<
    u8,
>;

/// Calls `ed25519_dalek_bip32::ExtendedSigningKey::derive` on a root with this
/// secret key and chain code. It fails on an index that is not hardened only,
/// and each index here is hardened. The secret key that it reaches depends on
/// the root's secret key, its chain code and the path alone.
#[verifier::external_body]
fn derive_from_root(secret: &[u8; 32], chain_code: &[u8; 32], path: [u32; 4]) -> (key: Result<
    [u8; 32],
    Bip32Error,
>)
    ensures
        key is Ok,
        key matches Ok(bytes) ==> bytes@ == derived_secret(secret@, chain_code@, path@),
{
    let root = ed25519_dalek_bip32::ExtendedSigningKey {
        depth: 0,
        child_index: ed25519_dalek_bip32::ChildIndex::Normal(0),
        signing_key: ed25519_dalek::SigningKey::from_bytes(secret),
        chain_code: *chain_code,
    };
    let path = path.map(ed25519_dalek_bip32::ChildIndex::Hardened);
    let key = root.derive(&ed25519_dalek_bip32::DerivationPath::new(path))?;
    Ok(key.signing_key.to_bytes())
}

/// The key with which `ed25519_dalek` verifies what a secret key signs.
pub uninterp spec fn public_key(secret: Seq<u8>) -> Seq<u8>;

/// Calls `ed25519_dalek::SigningKey::verifying_key` on the signing key with
/// these bytes. The result depends on the bytes alone.
#[verifier::external_body]
fn verifying_key_of(secret: &[u8; 32]) -> (key: [u8; 32])
    ensures
        key@ == public_key(secret@),
{
    ed25519_dalek::SigningKey::from_bytes(secret).verifying_key().to_bytes()
}

/// The signature that `ed25519_dalek` makes of a message.
pub uninterp spec fn signature_of(secret: Seq<u8>, message: Seq<u8>) -> Seq<u8>;

/// `ed25519_dalek` accepts this as the signature of a message under a verifying
/// key.
pub uninterp spec fn accepted(key: Seq<u8>, message: Seq<u8>, signature: Seq<u8>) -> bool;

/// Calls `ed25519_dalek::Verifier::verify` on the verifying key with these bytes.
/// Bytes that are no key accept nothing. The answer depends on the arguments
/// alone.
#[verifier::external_body]
fn verify_message(key: &[u8; 32], message: &Vec<u8>, signature: &[u8; 64]) -> (b: bool)
    ensures
        b == accepted(key@, message@, signature@),
{
    let signature = ed25519_dalek::Signature::from_bytes(signature);
    match ed25519_dalek::VerifyingKey::from_bytes(key) {
        Ok(key) => ed25519_dalek::Verifier::verify(&key, message, &signature).is_ok(),
        Err(_) => false,
    }
}

/// Calls `ed25519_dalek::Signer::sign` on the signing key with these bytes. The
/// signature is deterministic: it depends on the bytes and the message alone. It
/// is accepted under the verifying key of the same bytes.
#[verifier::external_body]
fn sign_message(secret: &[u8; 32], message: &Vec<u8>) -> (signature: [u8; 64])
    ensures
        signature@ == signature_of(secret@, message@),
        accepted(public_key(secret@), message@, signature@),
{
    let key = ed25519_dalek::SigningKey::from_bytes(secret);
    ed25519_dalek::Signer::sign(&key, message).to_bytes()
}

/// The BLAKE3 hash of a byte string.
pub uninterp spec fn blake3_digest(data: Seq<u8>) -> Seq<u8>;

/// Calls `blake3::hash`, whose result depends on its argument alone.
#[verifier::external_body]
fn blake3_hash(data: &[u8; 32]) -> (digest: [u8; 32])
    ensures
        digest@ == blake3_digest(data@),
{
    *blake3::hash(data).as_bytes()
}

/// The address of a verifying key: the first twenty bytes of its hash.
pub open spec fn address_of(verifying_key: Seq<u8>) -> Address {
    choose|address: Address| address@ == blake3_digest(verifying_key).take(20)
}

/// The address that the hash of a verifying key gives: its first twenty bytes.
pub fn address_of_digest(digest: &[u8; 32]) -> (address: Address)
    ensures
        address@ == digest@.take(20),
        forall|i: int| 0 <= i < 20 ==> address.0[i] == digest[i],
{
    let mut bytes = [0u8; 20];
    let mut i: usize = 0;
    while i < 20
        invariant
            i <= 20,
            forall|j: int| 0 <= j < i ==> bytes[j] == digest[j],
        decreases 20 - i,
    {
        bytes[i] = digest[i];
        i += 1;
    }
    let address = Address(bytes);
    assert(address@ =~= digest@.take(20));
    address
}

/// The address of a verifying key.
pub fn get_address(verifying_key: &[u8; 32]) -> (address: Address)
    ensures
        address == address_of(verifying_key@),
        address@ == blake3_digest(verifying_key@).take(20),
{
    let address = address_of_digest(&blake3_hash(verifying_key));
    proof {
        address_is_its_bytes(address, address_of(verifying_key@));
    }
    address
}

/// The path from the root to the key with this index, each step hardened.
pub open spec fn key_path(index: u32) -> Seq<u32> {
    seq![1u32, 0, 0, index]
}

/// The secret key with this index.
pub open spec fn secret_at(seed: Seq<u8>, index: u32) -> Seq<u8> {
    derived_secret(root_key(seed).0, root_key(seed).1, key_path(index))
}

/// The address with this index.
pub open spec fn address_at(seed: Seq<u8>, index: u32) -> Address {
    address_of(public_key(secret_at(seed, index)))
}

/// The secret key with this index.
pub fn secret_key(seed: &[u8; 64], index: u32) -> (secret: Result<[u8; 32], Error>)
    ensures
        secret matches Ok(bytes) && bytes@ == secret_at(seed@, index) && bytes@ == derived_secret(
            root_key(seed@).0,
            root_key(seed@).1,
            seq![1u32, 0, 0, index],
        ),
{
    let root = match root_from_seed(seed) {
        Ok(root) => root,
        Err(error) => return Err(Error::Bip32(error)),
    };
    let path = [1u32, 0u32, 0u32, index];
    proof {
        assert(path@ =~= key_path(index));
    }
    match derive_from_root(&root.0, &root.1, path) {
        Ok(secret) => Ok(secret),
        Err(error) => Err(Error::Bip32(error)),
    }
}

/// The key with which others verify what a secret key signs.
pub fn verifying_key(secret: &[u8; 32]) -> (key: [u8; 32])
    ensures
        key@ == public_key(secret@),
{
    verifying_key_of(secret)
}

/// The signature of a message under a secret key.
pub fn sign(secret: &[u8; 32], message: &Vec<u8>) -> (signature: [u8; 64])
    ensures
        signature@ == signature_of(secret@, message@),
        accepted(public_key(secret@), message@, signature@),
{
    sign_message(secret, message)
}

/// Whether this is a signature of a message under a verifying key.
pub fn verify(verifying_key: &[u8; 32], message: &Vec<u8>, signature: &[u8; 64]) -> (b: bool)
    ensures
        b == accepted(verifying_key@, message@, signature@),
{
    verify_message(verifying_key, message, signature)
}

/// The seed of an English phrase without a password.
pub fn mnemonic_seed(phrase: &str) -> (seed: Result<[u8; 64], Error>)
    ensures
        match phrase_seed(phrase@, Language::English, ""@) {
            Ok(expected) => seed matches Ok(bytes) && bytes@ == expected,
            Err(error) => seed == Err::<[u8; 64], Error>(Error::ParseMnemonic(error)),
        },
{
    match seed_from_phrase(phrase, Language::English, "") {
        Ok(seed) => Ok(seed),
        Err(error) => Err(Error::ParseMnemonic(error)),
    }
}

/// The key of an index lies four hardened steps from the root of the seed: one, zero,
/// zero and the index.
pub proof fn keys_lie_on_one_path(seed: Seq<u8>, index: u32)
    ensures
        secret_at(seed, index) == derived_secret(
            root_key(seed).0,
            root_key(seed).1,
            seq![1u32, 0, 0, index],
        ),
{
}

/// The address of an index is the first twenty bytes of the hash of its verifying
/// key. A hash is thirty-two bytes long.
pub proof fn an_address_is_the_start_of_a_hash(seed: Seq<u8>, index: u32, digest: [u8; 32])
    requires
        digest@ == blake3_digest(
            public_key(
                derived_secret(root_key(seed).0, root_key(seed).1, seq![1u32, 0, 0, index]),
            ),
        ),
    ensures
        address_at(seed, index)@ == digest@.take(20),
{
    keys_lie_on_one_path(seed, index);
    let bytes: [u8; 20] = [
        digest[0], digest[1], digest[2], digest[3], digest[4],
        digest[5], digest[6], digest[7], digest[8], digest[9],
        digest[10], digest[11], digest[12], digest[13], digest[14],
        digest[15], digest[16], digest[17], digest[18], digest[19],
    ];
    assert(Address(bytes)@ =~= digest@.take(20));
}

} // verus!
