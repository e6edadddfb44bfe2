use sha2::Digest as _;
use tct::wallet::{removal, Removal, SeedError, SpendSeed, WalletCmd};

#[test]
fn no_wallet_command_needs_sync() {
    let import = WalletCmd::Import { spend_seed: "00".repeat(32) };
    assert!(!import.needs_sync());
    assert!(!WalletCmd::Export.needs_sync());
    assert!(!WalletCmd::Generate.needs_sync());
    assert!(!WalletCmd::Reset.needs_sync());
    assert!(!WalletCmd::Delete.needs_sync());
}

#[test]
fn seed_from_hex() {
    let text = "000102030405060708090a0b0c0d0e0f101112131415161718191A1B1C1D1E1F";
    let mut bytes = [0u8; 32];
    for (i, byte) in bytes.iter_mut().enumerate() {
        *byte = i as u8;
    }
    assert_eq!(SpendSeed::from_hex(text), Ok(SpendSeed { bytes }));
    assert_eq!(SpendSeed::from_hex(&"ff".repeat(32)), Ok(SpendSeed { bytes: [255u8; 32] }));
    assert_eq!(SpendSeed::from_hex(&"Ab".repeat(32)), Ok(SpendSeed { bytes: [0xab; 32] }));
}

#[test]
fn seed_from_hex_errors() {
    assert_eq!(SpendSeed::from_hex("abc"), Err(SeedError::OddLength));
    assert_eq!(SpendSeed::from_hex("g"), Err(SeedError::OddLength));
    assert_eq!(SpendSeed::from_hex("00g0"), Err(SeedError::InvalidCharacter { index: 2 }));
    assert_eq!(SpendSeed::from_hex("zz zz!"), Err(SeedError::InvalidCharacter { index: 0 }));
    assert_eq!(SpendSeed::from_hex("0g0h"), Err(SeedError::InvalidCharacter { index: 1 }));
    assert_eq!(SpendSeed::from_hex(""), Err(SeedError::WrongLength { found: 0 }));
    assert_eq!(
        SpendSeed::from_hex(&"00".repeat(31)),
        Err(SeedError::WrongLength { found: 31 })
    );
    assert_eq!(
        SpendSeed::from_hex(&"00".repeat(33)),
        Err(SeedError::WrongLength { found: 33 })
    );
    assert_eq!(SpendSeed::from_hex("\u{e9}0"), Err(SeedError::OddLength));
    assert_eq!(SpendSeed::from_hex("\u{e9}"), Err(SeedError::InvalidCharacter { index: 0 }));
}

#[test]
fn seed_from_bytes() {
    assert_eq!(SpendSeed::from_bytes(&[7u8; 32]), Ok(SpendSeed { bytes: [7u8; 32] }));
    assert_eq!(SpendSeed::from_bytes(&[7u8; 31]), Err(SeedError::WrongLength { found: 31 }));
    assert_eq!(SpendSeed::from_bytes(&[]), Err(SeedError::WrongLength { found: 0 }));
}

#[test]
fn imported_seed() {
    let import = WalletCmd::Import { spend_seed: "11".repeat(32) };
    assert_eq!(import.imported_seed(), Some(Ok(SpendSeed { bytes: [0x11; 32] })));
    let import = WalletCmd::Import { spend_seed: "1".to_string() };
    assert_eq!(import.imported_seed(), Some(Err(SeedError::OddLength)));
    assert_eq!(WalletCmd::Export.imported_seed(), None);
    assert_eq!(WalletCmd::Generate.imported_seed(), None);
    assert_eq!(WalletCmd::Reset.imported_seed(), None);
    assert_eq!(WalletCmd::Delete.imported_seed(), None);
}

#[test]
fn archive_label_is_hex_of_digest_head() {
    let seed = SpendSeed { bytes: [0u8; 32] };
    assert_eq!(seed.archive_label(), "66687aadf862bd77");
    let seed = SpendSeed { bytes: [0x5a; 32] };
    let digest = sha2::Sha256::digest(seed.bytes);
    assert_eq!(seed.archive_label(), hex::encode(&digest[0..8]));
    assert_eq!(seed.archive_label().len(), 16);
    assert_ne!(seed.archive_label(), hex::encode(&seed.bytes[0..8]));
}

#[test]
fn removal_decision() {
    assert_eq!(removal(true, true), Removal::Remove);
    assert_eq!(removal(true, false), Removal::Remove);
    assert_eq!(removal(false, true), Removal::NotAFile);
    assert_eq!(removal(false, false), Removal::Missing);
}
