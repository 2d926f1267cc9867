//! Bucket-key derivation.
//!
//! Every account record carries a 32-byte owner identifier; a bucket key is
//! derived from it under one of two schemes: a byte prefix (a fixed-width
//! slice of the identifier) or a bit mask (the identifier's first byte
//! combined with a mask of the low bits).

use vstd::prelude::*;

verus! {

use vstd::arithmetic::power2::pow2;
use vstd::arithmetic::power2::lemma2_to64;
use vstd::bits::low_bits_mask;
use vstd::bits::lemma_low_bits_mask_values;
use vstd::bits::lemma_u8_shl_is_mul;

/// Mask with the low `nb_bits` bits set, as the bit-mask key scheme uses it:
/// `0` for zero bits, `255` for all eight, and `2^nb_bits - 1` in between.
pub fn create_bit_mask(nb_bits: u8) -> (mask: u8)
    requires
        nb_bits <= 8,
    ensures
        mask == low_bits_mask(nb_bits as nat),
{
    proof {
        lemma_low_bits_mask_values();
    }
    if nb_bits == 0 {
        0
    } else if nb_bits == 8 {
        255
    } else {
        proof {
            lemma2_to64();
            lemma_u8_shl_is_mul(1, nb_bits);
        }
        (1u8 << nb_bits) - 1
    }
}

/// The mask of the bit-mask scheme, at the specification level.
pub open spec fn spec_bit_mask(nb_bits: u8) -> u8 {
    (low_bits_mask(nb_bits as nat) % 256) as u8
}

/// `spec_bit_mask` agrees with `low_bits_mask` whenever `nb_bits` is in range.
pub proof fn lemma_spec_bit_mask_in_range(nb_bits: u8)
    requires
        nb_bits <= 8,
    ensures
        spec_bit_mask(nb_bits) == low_bits_mask(nb_bits as nat),
        spec_bit_mask(nb_bits) == pow2(nb_bits as nat) - 1,
{
    lemma_low_bits_mask_values();
    vstd::arithmetic::power2::lemma_pow2_pos(nb_bits as nat);
}

/// How the owner's first byte and the mask are combined into the key's bits.
///
/// The default is bitwise OR, which sets the low bits
/// rather than isolating them and so leaves fewer distinguishable buckets
/// than an AND would; it is kept as an explicit option rather than silently
/// corrected.
#[derive(Clone, Copy, PartialEq, Eq, Structural, Debug)]
pub enum MaskCombine {
    /// `owner[0] | mask`: sets the masked bits.
    Or,
    /// `owner[0] & mask`: the variant that isolates the low bits.
    And,
}

/// Bucket key of the bit-mask scheme: the number of mask bits and the
/// combined byte.
#[derive(Clone, Copy, PartialEq, Eq, Structural, Hash, Debug)]
pub struct PartialPubkeyByBits {
    pub nb_bits: u8,
    pub bits: u8,
}

/// The combined byte for a given owner first byte, mask width and combine
/// operator.
pub open spec fn spec_combined_bits(first: u8, nb_bits: u8, combine: MaskCombine) -> u8 {
    match combine {
        MaskCombine::Or => first | spec_bit_mask(nb_bits),
        MaskCombine::And => first & spec_bit_mask(nb_bits),
    }
}

impl PartialPubkeyByBits {
    /// Derives the key from an owner identifier with the default combine
    /// operator (OR).
    pub fn new(owner: &[u8; 32], nb_bits: u8) -> (key: Self)
        requires
            nb_bits <= 8,
        ensures
            key.nb_bits == nb_bits,
            key.bits == spec_combined_bits(owner@[0], nb_bits, MaskCombine::Or),
    {
        Self::from_owner(owner, nb_bits, MaskCombine::Or)
    }

    /// Derives the key from an owner identifier under a chosen combine
    /// operator.
    pub fn from_owner(owner: &[u8; 32], nb_bits: u8, combine: MaskCombine) -> (key: Self)
        requires
            nb_bits <= 8,
        ensures
            key.nb_bits == nb_bits,
            key.bits == spec_combined_bits(owner@[0], nb_bits, combine),
    {
        let mask = create_bit_mask(nb_bits);
        proof {
            lemma_spec_bit_mask_in_range(nb_bits);
        }
        let first = owner[0];
        let bits = match combine {
            MaskCombine::Or => first | mask,
            MaskCombine::And => first & mask,
        };
        PartialPubkeyByBits { nb_bits, bits }
    }
}

/// Bucket key of the byte-prefix scheme: the `size`-byte slice of the owner
/// identifier starting at `offset`, together with the offset it was taken at.
#[derive(Clone, Debug)]
pub struct PartialPubkey {
    offset: u8,
    bytes: Vec<u8>,
}

impl View for PartialPubkey {
    type V = (int, Seq<u8>);

    closed spec fn view(&self) -> (int, Seq<u8>) {
        (self.offset as int, self.bytes@)
    }
}

impl PartialPubkey {
    /// The prefix slice fits inside a 32-byte owner identifier.
    pub open spec fn wf(&self) -> bool {
        0 <= self@.0 && self@.0 + self@.1.len() <= 32
    }

    /// Derives the key from an owner identifier: the bytes
    /// `owner[offset .. offset + size]`.
    pub fn from_owner(owner: &[u8; 32], offset: usize, size: usize) -> (key: Self)
        requires
            offset + size <= 32,
        ensures
            key.wf(),
            key@.0 == offset,
            key@.1 == owner@.subrange(offset as int, offset + size),
    {
        let mut bytes: Vec<u8> = Vec::new();
        let mut i: usize = 0;
        while i < size
            invariant
                i <= size,
                offset + size <= 32,
                bytes@ =~= owner@.subrange(offset as int, offset + i),
            decreases size - i,
        {
            bytes.push(owner[offset + i]);
            i = i + 1;
            proof {
                assert(bytes@ =~= owner@.subrange(offset as int, offset + i));
            }
        }
        PartialPubkey { offset: offset as u8, bytes }
    }

    /// The prefix bytes of the key.
    pub fn to_bytes(&self) -> (bytes: &Vec<u8>)
        ensures
            bytes@ == self@.1,
    {
        &self.bytes
    }

    /// The offset the prefix was taken at.
    pub fn offset(&self) -> (off: u8)
        ensures
            off == self@.0,
    {
        self.offset
    }

    /// Rebuilds a key from its stored parts, as catalog decoding needs.
    pub fn from_parts(offset: u8, bytes: Vec<u8>) -> (key: Self)
        requires
            offset + bytes@.len() <= 32,
        ensures
            key.wf(),
            key@ == (offset as int, bytes@),
    {
        PartialPubkey { offset, bytes }
    }
}

/// A bucket key under either scheme.
#[derive(Clone, Debug)]
pub enum BucketKey {
    /// A slice of the owner identifier.
    BytePrefix(PartialPubkey),
    /// The owner's first byte combined with a bit mask.
    BitMask(PartialPubkeyByBits),
}

/// The mathematical value of a bucket key.
pub enum KeyView {
    Prefix { offset: int, bytes: Seq<u8> },
    Bits { nb_bits: u8, bits: u8 },
}

impl View for BucketKey {
    type V = KeyView;

    open spec fn view(&self) -> KeyView {
        match self {
            BucketKey::BytePrefix(p) => KeyView::Prefix { offset: p@.0, bytes: p@.1 },
            BucketKey::BitMask(b) => KeyView::Bits { nb_bits: b.nb_bits, bits: b.bits },
        }
    }
}

/// Scheme parameters of a key value in range.
pub open spec fn key_view_wf(k: KeyView) -> bool {
    match k {
        KeyView::Prefix { offset, bytes } => 0 <= offset && offset + bytes.len() <= 32,
        KeyView::Bits { nb_bits, .. } => nb_bits <= 8,
    }
}

impl BucketKey {
    /// Scheme parameters in range.
    pub open spec fn wf(&self) -> bool {
        key_view_wf(self@)
    }

    /// An owned copy of the key with the same value.
    pub fn duplicate(&self) -> (r: Self)
        ensures
            r@ == self@,
    {
        match self {
            BucketKey::BitMask(b) => BucketKey::BitMask(
                PartialPubkeyByBits { nb_bits: b.nb_bits, bits: b.bits },
            ),
            BucketKey::BytePrefix(p) => BucketKey::BytePrefix(
                PartialPubkey {
                    offset: p.offset,
                    bytes: vstd::slice::slice_to_vec(p.bytes.as_slice()),
                },
            ),
        }
    }
}

/// Whether two bucket keys belong to one parameterization of one scheme.
pub open spec fn same_scheme(a: KeyView, b: KeyView) -> bool {
    match (a, b) {
        (KeyView::Prefix { offset: oa, bytes: ba }, KeyView::Prefix { offset: ob, bytes: bb }) => {
            oa == ob && ba.len() == bb.len()
        },
        (KeyView::Bits { nb_bits: na, .. }, KeyView::Bits { nb_bits: nb, .. }) => na == nb,
        _ => false,
    }
}

/// Whether two bucket keys belong to one parameterization of one scheme, by
/// value.
pub fn keys_same_scheme(a: &BucketKey, b: &BucketKey) -> (r: bool)
    ensures
        r == same_scheme(a@, b@),
{
    match (a, b) {
        (BucketKey::BytePrefix(pa), BucketKey::BytePrefix(pb)) => {
            pa.offset() == pb.offset() && pa.to_bytes().len() == pb.to_bytes().len()
        },
        (BucketKey::BitMask(ba), BucketKey::BitMask(bb)) => ba.nb_bits == bb.nb_bits,
        _ => false,
    }
}

/// Equality of two byte sequences held in vectors.
pub fn bytes_eq(a: &Vec<u8>, b: &Vec<u8>) -> (r: bool)
    ensures
        r == (a@ == b@),
{
    if a.len() != b.len() {
        return false;
    }
    let mut i: usize = 0;
    while i < a.len()
        invariant
            i <= a@.len(),
            a@.len() == b@.len(),
            forall|j: int| 0 <= j < i ==> a@[j] == b@[j],
        decreases a@.len() - i,
    {
        if a[i] != b[i] {
            return false;
        }
        i = i + 1;
    }
    proof {
        assert(a@ =~= b@);
    }
    true
}

/// Equality of two bucket keys, by value.
pub fn key_eq(a: &BucketKey, b: &BucketKey) -> (r: bool)
    ensures
        r == (a@ == b@),
{
    match (a, b) {
        (BucketKey::BytePrefix(pa), BucketKey::BitMask(_)) => false,
        (BucketKey::BitMask(_), BucketKey::BytePrefix(pb)) => false,
        (BucketKey::BytePrefix(pa), BucketKey::BytePrefix(pb)) => {
            pa.offset() == pb.offset() && bytes_eq(pa.to_bytes(), pb.to_bytes())
        },
        (BucketKey::BitMask(ba), BucketKey::BitMask(bb)) => {
            ba.nb_bits == bb.nb_bits && ba.bits == bb.bits
        },
    }
}

/// The configured key-derivation scheme.
#[derive(Clone, Copy, Debug)]
pub enum KeyScheme {
    /// Key is `owner[offset .. offset + size]`.
    BytePrefix { offset: usize, size: usize },
    /// Key is the owner's first byte combined with a mask of `nb_bits` low
    /// bits.
    BitMask { nb_bits: u8, combine: MaskCombine },
}

impl KeyScheme {
    /// Configuration parameters in range; out-of-range parameters are a fatal
    /// configuration error.
    pub open spec fn wf(&self) -> bool {
        match *self {
            KeyScheme::BytePrefix { offset, size } => offset + size <= 32,
            KeyScheme::BitMask { nb_bits, .. } => nb_bits <= 8,
        }
    }
}

/// The key a scheme derives from an owner identifier.
pub open spec fn spec_derive_key(scheme: KeyScheme, owner: Seq<u8>) -> KeyView {
    match scheme {
        KeyScheme::BytePrefix { offset, size } => KeyView::Prefix {
            offset: offset as int,
            bytes: owner.subrange(offset as int, offset + size),
        },
        KeyScheme::BitMask { nb_bits, combine } => KeyView::Bits {
            nb_bits,
            bits: spec_combined_bits(owner[0], nb_bits, combine),
        },
    }
}

/// Derives the bucket key of an owner identifier under the given scheme.
pub fn derive_key(scheme: &KeyScheme, owner: &[u8; 32]) -> (key: BucketKey)
    requires
        scheme.wf(),
    ensures
        key@ == spec_derive_key(*scheme, owner@),
        key.wf(),
{
    match scheme {
        KeyScheme::BytePrefix { offset, size } => {
            BucketKey::BytePrefix(PartialPubkey::from_owner(owner, *offset, *size))
        },
        KeyScheme::BitMask { nb_bits, combine } => {
            BucketKey::BitMask(PartialPubkeyByBits::from_owner(owner, *nb_bits, *combine))
        },
    }
}

/// Whether the owner identifier is the all-zero sentinel.
pub fn owner_is_zero(owner: &[u8; 32]) -> (r: bool)
    ensures
        r == (forall|i: int| 0 <= i < owner@.len() ==> owner@[i] == 0),
{
    let mut i: usize = 0;
    while i < 32
        invariant
            i <= 32,
            forall|j: int| 0 <= j < i ==> owner@[j] == 0,
        decreases 32 - i,
    {
        if owner[i] != 0 {
            return false;
        }
        i = i + 1;
    }
    true
}

/// First match of a key in an association sequence.
pub open spec fn assoc_lookup<V>(s: Seq<(KeyView, V)>, key: KeyView) -> Option<V>
    decreases s.len(),
{
    if s.len() == 0 {
        Option::None
    } else if s.first().0 == key {
        Option::Some(s.first().1)
    } else {
        assoc_lookup(s.drop_first(), key)
    }
}

/// First-match update of a key's value in an association sequence; without
/// the key, the sequence is unchanged.
pub open spec fn assoc_update<V>(s: Seq<(KeyView, V)>, key: KeyView, v: V) -> Seq<(KeyView, V)>
    decreases s.len(),
{
    if s.len() == 0 {
        s
    } else if s.first().0 == key {
        seq![(key, v)] + s.drop_first()
    } else {
        seq![s.first()] + assoc_update(s.drop_first(), key, v)
    }
}

/// Under distinct keys, `assoc_update` rewrites exactly the entry that
/// carries the key.
pub proof fn lemma_assoc_update_at<V>(s: Seq<(KeyView, V)>, key: KeyView, v: V, i: int)
    requires
        distinct_keys(s),
        0 <= i < s.len(),
        s[i].0 == key,
    ensures
        assoc_update(s, key, v) == s.update(i, (key, v)),
    decreases s.len(),
{
    let rest = s.drop_first();
    assert(forall|j: int| 0 <= j < rest.len() ==> #[trigger] rest[j] == s[j + 1]);
    if s.first().0 == key {
        assert(i == 0) by {
            if i != 0 {
                assert(s[0].0 != s[i].0);
            }
        }
        assert(seq![(key, v)] + rest =~= s.update(0, (key, v)));
    } else {
        assert(i > 0);
        assert(distinct_keys(rest)) by {
            assert forall|a: int, b: int|
                0 <= a < b < rest.len() implies (#[trigger] rest[a]).0 != (
            #[trigger] rest[b]).0 by {
                assert(rest[a] == s[a + 1] && rest[b] == s[b + 1]);
                assert(s[a + 1].0 != s[b + 1].0);
            }
        }
        assert(rest[i - 1] == s[i]);
        lemma_assoc_update_at(rest, key, v, i - 1);
        assert(seq![s.first()] + rest.update(i - 1, (key, v)) =~= s.update(i, (key, v)));
    }
}

/// Pairwise distinct keys in an association sequence.
pub open spec fn distinct_keys<V>(s: Seq<(KeyView, V)>) -> bool {
    forall|i: int, j: int| 0 <= i < j < s.len() ==> (#[trigger] s[i]).0 != (#[trigger] s[j]).0
}

/// Under distinct keys, `assoc_lookup` finds exactly the entry that carries
/// the key.
pub proof fn lemma_assoc_lookup_distinct<V>(s: Seq<(KeyView, V)>, key: KeyView)
    requires
        distinct_keys(s),
    ensures
        (assoc_lookup(s, key) is None) <==> (forall|i: int|
            0 <= i < s.len() ==> (#[trigger] s[i]).0 != key),
        forall|i: int|
            0 <= i < s.len() && (#[trigger] s[i]).0 == key ==> assoc_lookup(s, key) == Option::Some(
                s[i].1,
            ),
    decreases s.len(),
{
    if s.len() > 0 {
        let rest = s.drop_first();
        assert(forall|i: int| 0 <= i < rest.len() ==> #[trigger] rest[i] == s[i + 1]);
        if s.first().0 == key {
            assert(s[0].0 == key);
            assert(assoc_lookup(s, key) == Option::Some(s[0].1));
            assert forall|i: int|
                0 <= i < s.len() && (#[trigger] s[i]).0 == key implies assoc_lookup(s, key)
                == Option::Some(s[i].1) by {
                if i != 0 {
                    assert(s[0].0 != s[i].0);
                }
            }
            assert(!(forall|i: int| 0 <= i < s.len() ==> (#[trigger] s[i]).0 != key)) by {
                if (forall|i: int| 0 <= i < s.len() ==> (#[trigger] s[i]).0 != key) {
                    assert(s[0].0 != key);
                }
            }
        } else {
            assert(distinct_keys(rest)) by {
                assert forall|i: int, j: int|
                    0 <= i < j < rest.len() implies (#[trigger] rest[i]).0 != (
                #[trigger] rest[j]).0 by {
                    assert(rest[i] == s[i + 1] && rest[j] == s[j + 1]);
                    assert(s[i + 1].0 != s[j + 1].0);
                }
            }
            lemma_assoc_lookup_distinct(rest, key);
            assert(assoc_lookup(s, key) == assoc_lookup(rest, key));
            if assoc_lookup(s, key) is None {
                assert forall|i: int| 0 <= i < s.len() implies (#[trigger] s[i]).0 != key by {
                    if i > 0 {
                        assert(rest[i - 1] == s[i]);
                        assert(rest[i - 1].0 != key);
                    }
                }
            } else {
                assert(!(forall|i: int|
                    0 <= i < rest.len() ==> (#[trigger] rest[i]).0 != key));
                assert(!(forall|i: int| 0 <= i < s.len() ==> (#[trigger] s[i]).0 != key)) by {
                    if (forall|i: int| 0 <= i < s.len() ==> (#[trigger] s[i]).0 != key) {
                        assert forall|i: int| 0 <= i < rest.len() implies (
                        #[trigger] rest[i]).0 != key by {
                            assert(rest[i] == s[i + 1]);
                            assert(s[i + 1].0 != key);
                        }
                    }
                }
            }
            assert forall|i: int|
                0 <= i < s.len() && (#[trigger] s[i]).0 == key implies assoc_lookup(s, key)
                == Option::Some(s[i].1) by {
                if i > 0 {
                    assert(rest[i - 1] == s[i]);
                    assert(assoc_lookup(rest, key) == Option::Some(rest[i - 1].1));
                }
            }
        }
    }
}

} // verus!
