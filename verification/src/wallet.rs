//! Wallet commands, and what they compute from a spend seed: reading one from
//! hexadecimal text, and naming the archive directory of a wallet.

use vstd::prelude::*;
use vstd::utf8::encode_utf8;
use crate::hash::{sha256, sha256_of};

verus! {

/// Number of bytes in a spend seed.
pub const SEED_BYTES: usize = 32;

/// Number of digest bytes that name a wallet's archive directory.
pub const LABEL_BYTES: usize = 8;

/// A command on the wallet.
#[derive(Debug)]
pub enum WalletCmd {
    /// Import an existing spend seed, given as sixty-four hexadecimal digits.
    Import { spend_seed: String },
    /// Export the spend seed of the wallet.
    Export,
    /// Generate a new spend seed.
    Generate,
    /// Keep the spend seed, but reset all other client state.
    Reset,
    /// Delete the entire wallet permanently.
    Delete,
}

/// A spend seed: thirty-two secret bytes.
#[derive(Clone, Copy, Debug, PartialEq, Eq)]
pub struct SpendSeed {
    pub bytes: [u8; 32],
}

/// Why a text is no spend seed.
#[derive(Clone, Copy, Debug, PartialEq, Eq)]
pub enum SeedError {
    /// The text has an odd number of digits.
    OddLength,
    /// The byte at `index` is no hexadecimal digit, and all before it are.
    InvalidCharacter { index: usize },
    /// The text stands for `found` bytes, not thirty-two.
    WrongLength { found: usize },
}

/// Why hexadecimal text could not be decoded.
#[derive(Clone, Copy, Debug, PartialEq, Eq)]
pub enum HexError {
    OddLength,
    InvalidCharacter { index: usize },
    InvalidLength,
}

/// What to do about a request to delete the wallet file.
#[derive(Clone, Copy, Debug, PartialEq, Eq)]
pub enum Removal {
    /// The path is a file: remove it.
    Remove,
    /// Something other than a file is at the path: refuse.
    NotAFile,
    /// Nothing is at the path: there is nothing to delete.
    Missing,
}

/// The value of a hexadecimal digit, in either case.
pub open spec fn nibble(digit: u8) -> Option<u8> {
    if 48 <= digit <= 57 {
        Some((digit - 48) as u8)
    } else if 97 <= digit <= 102 {
        Some((digit - 87) as u8)
    } else if 65 <= digit <= 70 {
        Some((digit - 55) as u8)
    } else {
        None
    }
}

/// The text is an even number of hexadecimal digits.
pub open spec fn is_hex(digits: Seq<u8>) -> bool {
    &&& digits.len() % 2 == 0
    &&& forall|i: int| 0 <= i < digits.len() ==> nibble(#[trigger] digits[i]) is Some
}

/// The byte at `index` is the first that is no hexadecimal digit.
pub open spec fn first_bad(digits: Seq<u8>, index: int) -> bool {
    &&& 0 <= index < digits.len()
    &&& nibble(digits[index]) is None
    &&& forall|i: int| 0 <= i < index ==> nibble(#[trigger] digits[i]) is Some
}

/// The bytes that hexadecimal text stands for: two digits for each, the high
/// half first.
pub open spec fn unhex(digits: Seq<u8>) -> Seq<u8> {
    Seq::new(
        digits.len() / 2,
        |i: int| (nibble(digits[2 * i])->0 * 16 + nibble(digits[2 * i + 1])->0) as u8,
    )
}

/// The lower-case hexadecimal digit for a value below sixteen.
pub open spec fn hex_digit(value: u8) -> char {
    if value < 10 {
        ((48 + value) as u8) as char
    } else {
        ((87 + value) as u8) as char
    }
}

/// Bytes as lower-case hexadecimal text: two digits for each, the high half
/// first.
pub open spec fn hex_text(bytes: Seq<u8>) -> Seq<char> {
    Seq::new(
        2 * bytes.len(),
        |i: int|
            hex_digit(
                if i % 2 == 0 {
                    bytes[i / 2] / 16
                } else {
                    bytes[i / 2] % 16
                },
            ),
    )
}

/// Calls `hex::decode`. Trusted: it succeeds exactly on an even number of
/// hexadecimal digits, upper or lower case, and then gives the bytes they
/// stand for; on text of odd length it reports that; otherwise it reports
/// the place of the first byte that is no digit. It never reports an invalid
/// length, which only decoding into a fixed buffer does.
#[verifier::external_body]
fn hex_decode(digits: &[u8]) -> (out: Result<Vec<u8>, HexError>)
    ensures
        match out {
            Ok(bytes) => is_hex(digits@) && bytes@ == unhex(digits@),
            Err(HexError::OddLength) => digits@.len() % 2 == 1,
            Err(HexError::InvalidCharacter { index }) => digits@.len() % 2 == 0 && first_bad(
                digits@,
                index as int,
            ),
            Err(HexError::InvalidLength) => false,
        },
{
    match hex::decode(digits) {
        Ok(bytes) => Ok(bytes),
        Err(hex::FromHexError::OddLength) => Err(HexError::OddLength),
        Err(hex::FromHexError::InvalidHexCharacter { c, index }) => Err(
            HexError::InvalidCharacter { index },
        ),
        Err(hex::FromHexError::InvalidStringLength) => Err(HexError::InvalidLength),
    }
}

/// Calls `hex::encode`. Trusted: the text it gives has two lower-case
/// hexadecimal digits for each byte, the high half first.
#[verifier::external_body]
fn hex_encode(bytes: &[u8]) -> (text: String)
    ensures
        text@ == hex_text(bytes@),
{
    hex::encode(bytes)
}

impl WalletCmd {
    /// Whether the command needs a sync with the network before it runs. No
    /// wallet command does.
    pub fn needs_sync(&self) -> (needed: bool)
        ensures
            !needed,
    {
        match self {
            WalletCmd::Import { .. } => false,
            WalletCmd::Export => false,
            WalletCmd::Generate => false,
            WalletCmd::Reset => false,
            WalletCmd::Delete => false,
        }
    }

    /// The spend seed that the command brings with it: that of an import,
    /// read from its text. Other commands bring none.
    pub fn imported_seed(&self) -> (out: Option<Result<SpendSeed, SeedError>>)
        ensures
            match self {
                WalletCmd::Import { spend_seed } => out == Some(
                    SpendSeed::parsed(encode_utf8(spend_seed@)),
                ),
                _ => out is None,
            },
    {
        match self {
            WalletCmd::Import { spend_seed } => Some(SpendSeed::from_hex(spend_seed.as_str())),
            _ => None,
        }
    }
}

impl SpendSeed {
    /// What reading a seed from `digits` gives.
    pub open spec fn parsed(digits: Seq<u8>) -> Result<SpendSeed, SeedError> {
        if digits.len() % 2 == 1 {
            Err(SeedError::OddLength)
        } else if !is_hex(digits) {
            Err(SeedError::InvalidCharacter { index: SpendSeed::bad_index(digits) as usize })
        } else if digits.len() != 64 {
            Err(SeedError::WrongLength { found: (digits.len() / 2) as usize })
        } else {
            Ok(SpendSeed::with_bytes(unhex(digits)))
        }
    }

    /// The place of the first byte that is no hexadecimal digit.
    pub open spec fn bad_index(digits: Seq<u8>) -> int {
        choose|index: int| first_bad(digits, index)
    }

    /// The seed whose bytes are `bytes`.
    pub closed spec fn with_bytes(bytes: Seq<u8>) -> SpendSeed {
        choose|seed: SpendSeed| seed.bytes@ == bytes
    }

    /// A seed is determined by its bytes.
    pub proof fn lemma_with_bytes(seed: SpendSeed)
        ensures
            SpendSeed::with_bytes(seed.bytes@) == seed,
    {
        let other = SpendSeed::with_bytes(seed.bytes@);
        assert(other.bytes@ == seed.bytes@);
        assert(other.bytes =~= seed.bytes);
    }

    /// Only one place can be the first that holds no digit.
    pub proof fn lemma_first_bad(digits: Seq<u8>, index: int)
        requires
            first_bad(digits, index),
        ensures
            SpendSeed::bad_index(digits) == index,
            !is_hex(digits),
    {
        let other = SpendSeed::bad_index(digits);
        assert(first_bad(digits, other));
        if other < index {
            assert(nibble(digits[other]) is Some);
        }
        if index < other {
            assert(nibble(digits[index]) is Some);
        }
    }

    /// A seed from its bytes: there must be thirty-two.
    pub fn from_bytes(bytes: &[u8]) -> (out: Result<SpendSeed, SeedError>)
        ensures
            out == if bytes@.len() == 32 {
                Ok::<SpendSeed, SeedError>(SpendSeed::with_bytes(bytes@))
            } else {
                Err::<SpendSeed, SeedError>(SeedError::WrongLength { found: bytes@.len() as usize })
            },
    {
        if bytes.len() != SEED_BYTES {
            return Err(SeedError::WrongLength { found: bytes.len() });
        }
        let mut seed = SpendSeed { bytes: [0u8; 32] };
        let mut i: usize = 0;
        while i < SEED_BYTES
            invariant
                i <= 32,
                bytes@.len() == 32,
                forall|j: int| 0 <= j < i ==> seed.bytes@[j] == bytes@[j],
            decreases 32 - i,
        {
            seed.bytes[i] = bytes[i];
            i = i + 1;
        }
        proof {
            assert(seed.bytes@ =~= bytes@);
            SpendSeed::lemma_with_bytes(seed);
        }
        Ok(seed)
    }

    /// Reads a seed from hexadecimal text: sixty-four digits, in either case.
    pub fn from_hex(text: &str) -> (out: Result<SpendSeed, SeedError>)
        ensures
            out == SpendSeed::parsed(encode_utf8(text@)),
    {
        let digits = text.as_bytes();
        match hex_decode(digits) {
            Ok(bytes) => {
                assert(unhex(digits@).len() == digits@.len() / 2);
                SpendSeed::from_bytes(bytes.as_slice())
            },
            Err(HexError::OddLength) => Err(SeedError::OddLength),
            Err(HexError::InvalidCharacter { index }) => {
                proof {
                    SpendSeed::lemma_first_bad(digits@, index as int);
                }
                Err(SeedError::InvalidCharacter { index })
            },
            Err(HexError::InvalidLength) => Err(SeedError::OddLength),
        }
    }

    /// The name of the directory in which a wallet with this seed is
    /// archived: the first eight bytes of the seed's SHA-256 digest, in
    /// hexadecimal.
    pub fn archive_label(&self) -> (label: String)
        ensures
            label@ == hex_text(sha256_of(self.bytes@).take(8)),
    {
        let digest = sha256(self.bytes.as_slice());
        let mut head: Vec<u8> = Vec::new();
        let mut i: usize = 0;
        while i < LABEL_BYTES
            invariant
                i <= 8,
                head@ == digest@.take(i as int),
            decreases 8 - i,
        {
            head.push(digest[i]);
            i = i + 1;
            assert(digest@.take(i as int) =~= digest@.take(i - 1).push(digest@[i - 1]));
        }
        hex_encode(head.as_slice())
    }
}

/// What to do about a request to delete the wallet at a path, from what is
/// found there.
pub fn removal(is_file: bool, exists: bool) -> (out: Removal)
    ensures
        is_file ==> out == Removal::Remove,
        !is_file && exists ==> out == Removal::NotAFile,
        !is_file && !exists ==> out == Removal::Missing,
{
    if is_file {
        Removal::Remove
    } else if exists {
        Removal::NotAFile
    } else {
        Removal::Missing
    }
}

} // verus!
