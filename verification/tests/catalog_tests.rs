use accountsdb_dictionary::catalog::Catalog;
use accountsdb_dictionary::keys::BucketKey;
use accountsdb_dictionary::keys::KeyScheme;
use accountsdb_dictionary::keys::PartialPubkey;
use accountsdb_dictionary::keys::PartialPubkeyByBits;

fn bits_key(nb_bits: u8, bits: u8) -> BucketKey {
    BucketKey::BitMask(PartialPubkeyByBits { nb_bits, bits })
}

fn le64(n: u64) -> [u8; 8] {
    n.to_le_bytes()
}

#[test]
fn test_catalog_roundtrip_empty() {
    let catalog = Catalog::new();
    let blob = catalog.save();
    let loaded = Catalog::load(blob.as_slice()).unwrap();
    assert_eq!(loaded.len(), 0);
}

#[test]
fn test_catalog_roundtrip_one_entry() {
    let mut catalog = Catalog::new();
    catalog.insert(bits_key(4, 0x0F), vec![1, 2, 3, 4, 5]);
    let blob = catalog.save();
    let loaded = Catalog::load(blob.as_slice()).unwrap();
    assert_eq!(loaded.len(), 1);
    let dict = loaded.lookup(&bits_key(4, 0x0F)).unwrap();
    assert_eq!(dict.as_slice(), &[1, 2, 3, 4, 5]);
    assert!(loaded.lookup(&bits_key(4, 0x0E)).is_none());
}

#[test]
fn test_catalog_roundtrip_many_entries() {
    let mut catalog = Catalog::new();
    for b in 0..50u8 {
        catalog.insert(bits_key(8, b), vec![b; (b as usize % 7) + 1]);
    }
    let blob = catalog.save();
    let loaded = Catalog::load(blob.as_slice()).unwrap();
    assert_eq!(loaded.len(), 50);
    for b in 0..50u8 {
        let dict = loaded.lookup(&bits_key(8, b)).unwrap();
        assert_eq!(dict.as_slice(), vec![b; (b as usize % 7) + 1].as_slice());
    }
}

#[test]
fn test_catalog_roundtrip_byte_prefix_keys() {
    let mut catalog = Catalog::new();
    let mut owner_a = [0u8; 32];
    owner_a[..4].copy_from_slice(&[1, 2, 3, 4]);
    let mut owner_b = [0u8; 32];
    owner_b[..4].copy_from_slice(&[9, 9, 9, 9]);
    catalog.insert(
        BucketKey::BytePrefix(PartialPubkey::from_owner(&owner_a, 0, 4)),
        vec![0xAA; 16],
    );
    catalog.insert(
        BucketKey::BytePrefix(PartialPubkey::from_owner(&owner_b, 0, 4)),
        vec![0xBB; 16],
    );
    let blob = catalog.save();
    let loaded = Catalog::load(blob.as_slice()).unwrap();
    assert_eq!(loaded.len(), 2);
    let key_a = BucketKey::BytePrefix(PartialPubkey::from_owner(&owner_a, 0, 4));
    assert_eq!(loaded.lookup(&key_a).unwrap().as_slice(), &[0xAA; 16]);
}

#[test]
fn test_catalog_scheme_recovered_from_keys() {
    let mut catalog = Catalog::new();
    assert!(catalog.scheme().is_none());
    catalog.insert(bits_key(6, 0x3F), vec![1]);
    match catalog.scheme() {
        Some(KeyScheme::BitMask { nb_bits, .. }) => assert_eq!(nb_bits, 6),
        _ => panic!("expected the bit-mask scheme"),
    }

    let mut prefix_catalog = Catalog::new();
    let owner = [3u8; 32];
    prefix_catalog.insert(
        BucketKey::BytePrefix(PartialPubkey::from_owner(&owner, 2, 5)),
        vec![1],
    );
    match prefix_catalog.scheme() {
        Some(KeyScheme::BytePrefix { offset, size }) => {
            assert_eq!(offset, 2);
            assert_eq!(size, 5);
        },
        _ => panic!("expected the byte-prefix scheme"),
    }
}

#[test]
fn test_catalog_load_rejects_truncated_blob() {
    assert!(Catalog::load(&[]).is_err());
    assert!(Catalog::load(&[1, 0, 0]).is_err());
    // Count says one entry, but no entry follows.
    assert!(Catalog::load(&le64(1)).is_err());
}

#[test]
fn test_catalog_load_rejects_unknown_tag() {
    let mut blob = Vec::new();
    blob.extend_from_slice(&le64(1));
    blob.extend_from_slice(&[2, 0, 0]); // tag 2 is no scheme
    blob.extend_from_slice(&le64(0));
    assert!(Catalog::load(blob.as_slice()).is_err());
}

#[test]
fn test_catalog_load_rejects_out_of_range_key() {
    // nb_bits 9 is out of range for the bit-mask scheme.
    let mut blob = Vec::new();
    blob.extend_from_slice(&le64(1));
    blob.extend_from_slice(&[0, 9, 0]);
    blob.extend_from_slice(&le64(0));
    assert!(Catalog::load(blob.as_slice()).is_err());
    // offset 30 with size 5 runs past the 32-byte owner identifier.
    let mut blob2 = Vec::new();
    blob2.extend_from_slice(&le64(1));
    blob2.extend_from_slice(&[1, 30, 5, 0, 0, 0, 0, 0]);
    blob2.extend_from_slice(&le64(0));
    assert!(Catalog::load(blob2.as_slice()).is_err());
}

#[test]
fn test_catalog_load_rejects_trailing_bytes() {
    let mut catalog = Catalog::new();
    catalog.insert(bits_key(4, 1), vec![1, 2]);
    let mut blob = catalog.save();
    blob.push(0);
    assert!(Catalog::load(blob.as_slice()).is_err());
}

#[test]
fn test_catalog_load_rejects_duplicate_keys() {
    let mut blob = Vec::new();
    blob.extend_from_slice(&le64(2));
    blob.extend_from_slice(&[0, 4, 1]);
    blob.extend_from_slice(&le64(1));
    blob.push(0xAA);
    blob.extend_from_slice(&[0, 4, 1]);
    blob.extend_from_slice(&le64(1));
    blob.push(0xBB);
    assert!(Catalog::load(blob.as_slice()).is_err());
}

#[test]
fn test_catalog_load_rejects_mixed_schemes() {
    let mut blob = Vec::new();
    blob.extend_from_slice(&le64(2));
    blob.extend_from_slice(&[0, 4, 1]);
    blob.extend_from_slice(&le64(1));
    blob.push(0xAA);
    blob.extend_from_slice(&[1, 0, 2, 5, 6]);
    blob.extend_from_slice(&le64(1));
    blob.push(0xBB);
    assert!(Catalog::load(blob.as_slice()).is_err());
}

#[test]
fn test_catalog_load_accepts_handwritten_blob() {
    let mut blob = Vec::new();
    blob.extend_from_slice(&le64(1));
    blob.extend_from_slice(&[0, 4, 0x0F]);
    blob.extend_from_slice(&le64(3));
    blob.extend_from_slice(&[7, 8, 9]);
    let loaded = Catalog::load(blob.as_slice()).unwrap();
    assert_eq!(loaded.len(), 1);
    assert_eq!(loaded.lookup(&bits_key(4, 0x0F)).unwrap().as_slice(), &[7, 8, 9]);
}
