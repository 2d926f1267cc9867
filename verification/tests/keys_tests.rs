use accountsdb_dictionary::create_bit_mask;
use accountsdb_dictionary::keys::BucketKey;
use accountsdb_dictionary::keys::MaskCombine;
use accountsdb_dictionary::keys::PartialPubkey;
use accountsdb_dictionary::keys::PartialPubkeyByBits;
use accountsdb_dictionary::keys::key_eq;

fn owner_with_first_byte(b: u8) -> [u8; 32] {
    let mut owner = [0u8; 32];
    owner[0] = b;
    owner
}

#[test]
fn test_mask() {
    assert_eq!(create_bit_mask(0), 0);
    assert_eq!(create_bit_mask(1), 1);
    assert_eq!(create_bit_mask(2), 3);
    assert_eq!(create_bit_mask(3), 7);
    assert_eq!(create_bit_mask(4), 15);
    assert_eq!(create_bit_mask(5), 31);
    assert_eq!(create_bit_mask(6), 63);
    assert_eq!(create_bit_mask(7), 127);
    assert_eq!(create_bit_mask(8), 255);
}

#[test]
fn test_bit_mask_key_pins_or_combine() {
    // An owner whose first byte is 0b00000101, with nb_bits = 4 and mask
    // 0x0F: the default combine operator is OR, so bits = 0x05 | 0x0F.
    let owner = owner_with_first_byte(0b0000_0101);
    let key = PartialPubkeyByBits::new(&owner, 4);
    assert_eq!(key.nb_bits, 4);
    assert_eq!(key.bits, 0x0F);
}

#[test]
fn test_bit_mask_key_and_combine() {
    let owner = owner_with_first_byte(0b0000_0101);
    let key = PartialPubkeyByBits::from_owner(&owner, 4, MaskCombine::And);
    assert_eq!(key.nb_bits, 4);
    assert_eq!(key.bits, 0x05);
}

#[test]
fn test_bit_mask_key_zero_and_eight_bits() {
    let owner = owner_with_first_byte(0xA5);
    let zero = PartialPubkeyByBits::new(&owner, 0);
    assert_eq!(zero.bits, 0xA5);
    let eight = PartialPubkeyByBits::new(&owner, 8);
    assert_eq!(eight.bits, 0xFF);
}

#[test]
fn test_byte_prefix_key() {
    let mut owner = [0u8; 32];
    for (i, byte) in owner.iter_mut().enumerate() {
        *byte = i as u8;
    }
    let key = PartialPubkey::from_owner(&owner, 2, 4);
    assert_eq!(key.offset(), 2);
    assert_eq!(key.to_bytes().as_slice(), &[2, 3, 4, 5]);
}

#[test]
fn test_byte_prefix_key_full_width() {
    let owner = [7u8; 32];
    let key = PartialPubkey::from_owner(&owner, 0, 32);
    assert_eq!(key.to_bytes().len(), 32);
    assert_eq!(key.to_bytes().as_slice(), &[7u8; 32][..]);
}

#[test]
fn test_key_eq_distinguishes_keys() {
    let a = BucketKey::BitMask(PartialPubkeyByBits { nb_bits: 4, bits: 0x0F });
    let b = BucketKey::BitMask(PartialPubkeyByBits { nb_bits: 4, bits: 0x0F });
    let c = BucketKey::BitMask(PartialPubkeyByBits { nb_bits: 4, bits: 0x0E });
    let owner = [1u8; 32];
    let d = BucketKey::BytePrefix(PartialPubkey::from_owner(&owner, 0, 4));
    assert!(key_eq(&a, &b));
    assert!(!key_eq(&a, &c));
    assert!(!key_eq(&a, &d));
}
