//! The dictionary catalog: the persisted mapping from bucket key to trained
//! dictionary bytes.
//!
//! The catalog is serialized into one self-describing binary blob: an entry
//! count, then per entry the tagged key, the dictionary length and the
//! dictionary bytes, every integer in little-endian order. Encoding and
//! decoding are verified, and decoding an encoded catalog provably returns
//! the original.

use vstd::prelude::*;

use crate::keys::BucketKey;
use crate::keys::KeyScheme;
use crate::keys::KeyView;
use crate::keys::MaskCombine;
use crate::keys::assoc_lookup;
use crate::keys::distinct_keys;
use crate::keys::key_eq;
use crate::keys::key_view_wf;
use crate::keys::keys_same_scheme;
use crate::keys::lemma_assoc_lookup_distinct;
use crate::keys::same_scheme;

verus! {

/// The eight little-endian bytes of a 64-bit count or length.
pub open spec fn u64_le_bytes(n: u64) -> Seq<u8> {
    seq![
        (n & 0xff) as u8,
        ((n >> 8) & 0xff) as u8,
        ((n >> 16) & 0xff) as u8,
        ((n >> 24) & 0xff) as u8,
        ((n >> 32) & 0xff) as u8,
        ((n >> 40) & 0xff) as u8,
        ((n >> 48) & 0xff) as u8,
        ((n >> 56) & 0xff) as u8,
    ]
}

/// The 64-bit value of the first eight bytes, little endian.
pub open spec fn u64_from_le(s: Seq<u8>) -> u64
    recommends
        s.len() >= 8,
{
    ((s[0] as u64) | ((s[1] as u64) << 8) | ((s[2] as u64) << 16) | ((s[3] as u64) << 24) | ((
    s[4] as u64) << 32) | ((s[5] as u64) << 40) | ((s[6] as u64) << 48) | ((s[7] as u64) << 56))
}

proof fn lemma_u64_le_roundtrip(n: u64)
    ensures
        u64_le_bytes(n).len() == 8,
        u64_from_le(u64_le_bytes(n)) == n,
{
    assert((((n & 0xff) as u8) as u64) | ((((n >> 8) & 0xff) as u8) as u64) << 8 | ((((n >> 16)
        & 0xff) as u8) as u64) << 16 | ((((n >> 24) & 0xff) as u8) as u64) << 24 | ((((n >> 32)
        & 0xff) as u8) as u64) << 32 | ((((n >> 40) & 0xff) as u8) as u64) << 40 | ((((n >> 48)
        & 0xff) as u8) as u64) << 48 | ((((n >> 56) & 0xff) as u8) as u64) << 56 == n)
        by (bit_vector);
}

proof fn lemma_u64_from_le_prefix(a: Seq<u8>, b: Seq<u8>)
    requires
        a.len() >= 8,
    ensures
        u64_from_le(a + b) == u64_from_le(a),
{
    assert((a + b)[0] == a[0]);
    assert((a + b)[1] == a[1]);
    assert((a + b)[2] == a[2]);
    assert((a + b)[3] == a[3]);
    assert((a + b)[4] == a[4]);
    assert((a + b)[5] == a[5]);
    assert((a + b)[6] == a[6]);
    assert((a + b)[7] == a[7]);
}

/// The encoded form of one bucket key: a scheme tag, then the key's parts.
pub open spec fn encode_key(k: KeyView) -> Seq<u8> {
    match k {
        KeyView::Bits { nb_bits, bits } => seq![0u8, nb_bits, bits],
        KeyView::Prefix { offset, bytes } => seq![1u8, offset as u8, bytes.len() as u8] + bytes,
    }
}

/// Reads one bucket key off the front of `s`, returning it with the unread
/// remainder; rejects out-of-range parameters.
pub open spec fn decode_key(s: Seq<u8>) -> Option<(KeyView, Seq<u8>)> {
    if s.len() < 3 {
        Option::None
    } else if s[0] == 0 {
        if s[1] <= 8 {
            Option::Some((KeyView::Bits { nb_bits: s[1], bits: s[2] }, s.skip(3)))
        } else {
            Option::None
        }
    } else if s[0] == 1 {
        if s[1] + s[2] <= 32 && s.len() >= 3 + s[2] {
            Option::Some(
                (
                    KeyView::Prefix {
                        offset: s[1] as int,
                        bytes: s.subrange(3, 3 + s[2]),
                    },
                    s.skip(3 + s[2]),
                ),
            )
        } else {
            Option::None
        }
    } else {
        Option::None
    }
}

proof fn lemma_key_roundtrip(k: KeyView, rest: Seq<u8>)
    requires
        key_view_wf(k),
    ensures
        decode_key(encode_key(k) + rest) == Option::Some((k, rest)),
{
    let s = encode_key(k) + rest;
    match k {
        KeyView::Bits { nb_bits, bits } => {
            assert(s[0] == 0 && s[1] == nb_bits && s[2] == bits);
            assert(s.skip(3) =~= rest);
        },
        KeyView::Prefix { offset, bytes } => {
            let e = encode_key(k);
            assert(e.len() == 3 + bytes.len());
            assert(s[0] == 1);
            assert(s[1] == offset as u8 && s[2] == bytes.len() as u8);
            assert(s[1] + s[2] <= 32);
            assert(s.len() >= 3 + s[2]);
            assert(s.subrange(3, 3 + s[2]) =~= bytes);
            assert(s.skip(3 + s[2]) =~= rest);
            assert(decode_key(s) == Option::Some(
                (KeyView::Prefix { offset: s[1] as int, bytes: s.subrange(3, 3 + s[2]) }, s.skip(3 + s[2])),
            ));
        },
    }
}

/// The encoded form of one catalog entry: the key, then the dictionary length
/// and bytes.
pub open spec fn encode_entry(e: (KeyView, Seq<u8>)) -> Seq<u8> {
    encode_key(e.0) + u64_le_bytes(e.1.len() as u64) + e.1
}

/// Reads one catalog entry off the front of `s`.
pub open spec fn decode_entry(s: Seq<u8>) -> Option<((KeyView, Seq<u8>), Seq<u8>)> {
    match decode_key(s) {
        Option::None => Option::None,
        Option::Some((k, r1)) => {
            if r1.len() < 8 {
                Option::None
            } else {
                let len = u64_from_le(r1) as int;
                let r2 = r1.skip(8);
                if r2.len() >= len {
                    Option::Some(((k, r2.take(len)), r2.skip(len)))
                } else {
                    Option::None
                }
            }
        },
    }
}

/// One entry is encodable when its key is well formed and its dictionary
/// length fits the length field.
pub open spec fn entry_encodable(e: (KeyView, Seq<u8>)) -> bool {
    key_view_wf(e.0) && e.1.len() <= u64::MAX
}

proof fn lemma_entry_roundtrip(e: (KeyView, Seq<u8>), rest: Seq<u8>)
    requires
        entry_encodable(e),
    ensures
        decode_entry(encode_entry(e) + rest) == Option::Some((e, rest)),
{
    let len_bytes = u64_le_bytes(e.1.len() as u64);
    lemma_u64_le_roundtrip(e.1.len() as u64);
    let r1 = len_bytes + e.1 + rest;
    assert(encode_entry(e) + rest =~= encode_key(e.0) + r1);
    lemma_key_roundtrip(e.0, r1);
    lemma_u64_from_le_prefix(len_bytes, e.1 + rest);
    assert(r1 =~= len_bytes + (e.1 + rest));
    assert(u64_from_le(r1) == e.1.len() as u64);
    let r2 = r1.skip(8);
    assert(r2 =~= e.1 + rest);
    assert(r2.len() >= e.1.len());
    assert(r2.take(e.1.len() as int) =~= e.1);
    assert(r2.skip(e.1.len() as int) =~= rest);
}

/// The concatenated encodings of a sequence of entries.
pub open spec fn encode_entries(s: Seq<(KeyView, Seq<u8>)>) -> Seq<u8>
    decreases s.len(),
{
    if s.len() == 0 {
        Seq::empty()
    } else {
        encode_entry(s.first()) + encode_entries(s.drop_first())
    }
}

/// Reads `n` catalog entries off the front of `s`.
pub open spec fn decode_entries(s: Seq<u8>, n: nat) -> Option<(Seq<(KeyView, Seq<u8>)>, Seq<u8>)>
    decreases n,
{
    if n == 0 {
        Option::Some((Seq::empty(), s))
    } else {
        match decode_entry(s) {
            Option::None => Option::None,
            Option::Some((e, rest)) => {
                match decode_entries(rest, (n - 1) as nat) {
                    Option::None => Option::None,
                    Option::Some((es, r2)) => Option::Some((seq![e] + es, r2)),
                }
            },
        }
    }
}

proof fn lemma_entries_roundtrip(s: Seq<(KeyView, Seq<u8>)>, rest: Seq<u8>)
    requires
        forall|i: int| 0 <= i < s.len() ==> entry_encodable(#[trigger] s[i]),
    ensures
        decode_entries(encode_entries(s) + rest, s.len()) == Option::Some((s, rest)),
    decreases s.len(),
{
    if s.len() == 0 {
        assert(encode_entries(s) + rest =~= rest);
    } else {
        let tail = s.drop_first();
        assert(forall|i: int| 0 <= i < tail.len() ==> #[trigger] tail[i] == s[i + 1]);
        lemma_entry_roundtrip(s.first(), encode_entries(tail) + rest);
        assert(encode_entries(s) + rest =~= encode_entry(s.first()) + (encode_entries(tail)
            + rest));
        lemma_entries_roundtrip(tail, rest);
        assert(decode_entry(encode_entries(s) + rest) == Option::Some(
            (s.first(), encode_entries(tail) + rest),
        ));
        assert(seq![s.first()] + tail =~= s);
    }
}

/// A well-formed catalog value: well-formed keys, pairwise distinct, all of
/// one scheme parameterization.
pub open spec fn catalog_entries_wf(s: Seq<(KeyView, Seq<u8>)>) -> bool {
    &&& forall|i: int| 0 <= i < s.len() ==> key_view_wf((#[trigger] s[i]).0)
    &&& distinct_keys(s)
    &&& forall|i: int, j: int|
        0 <= i < s.len() && 0 <= j < s.len() ==> same_scheme(
            (#[trigger] s[i]).0,
            (#[trigger] s[j]).0,
        )
}

/// A catalog value that the binary format can hold exactly.
pub open spec fn catalog_encodable(s: Seq<(KeyView, Seq<u8>)>) -> bool {
    &&& catalog_entries_wf(s)
    &&& s.len() <= u64::MAX
    &&& forall|i: int| 0 <= i < s.len() ==> (#[trigger] s[i]).1.len() <= u64::MAX
}

/// The encoded form of a whole catalog: the entry count, then the entries.
pub open spec fn encode_catalog_bytes(s: Seq<(KeyView, Seq<u8>)>) -> Seq<u8> {
    u64_le_bytes(s.len() as u64) + encode_entries(s)
}

/// Decodes a whole catalog blob; every byte must be consumed and the decoded
/// value must be a well-formed catalog.
pub open spec fn spec_decode_catalog(s: Seq<u8>) -> Option<Seq<(KeyView, Seq<u8>)>> {
    if s.len() < 8 {
        Option::None
    } else {
        match decode_entries(s.skip(8), u64_from_le(s) as nat) {
            Option::None => Option::None,
            Option::Some((es, rest)) => {
                if rest.len() == 0 && catalog_entries_wf(es) {
                    Option::Some(es)
                } else {
                    Option::None
                }
            },
        }
    }
}

/// Catalog persistence round trip: decoding an encoded catalog returns the
/// same key sequence and the same dictionary bytes per key.
pub proof fn lemma_catalog_roundtrip(s: Seq<(KeyView, Seq<u8>)>)
    requires
        catalog_encodable(s),
    ensures
        spec_decode_catalog(encode_catalog_bytes(s)) == Option::Some(s),
{
    let blob = encode_catalog_bytes(s);
    let count_bytes = u64_le_bytes(s.len() as u64);
    lemma_u64_le_roundtrip(s.len() as u64);
    lemma_u64_from_le_prefix(count_bytes, encode_entries(s));
    assert(u64_from_le(blob) == s.len() as u64);
    assert(blob.skip(8) =~= encode_entries(s));
    assert(forall|i: int| 0 <= i < s.len() ==> entry_encodable(#[trigger] s[i]));
    lemma_entries_roundtrip(s, Seq::empty());
    assert(encode_entries(s) + Seq::<u8>::empty() =~= encode_entries(s));
}

proof fn lemma_u64_byte_bounds(n: u64)
    by (bit_vector)
    ensures
        (n & 0xff) < 256,
        ((n >> 8) & 0xff) < 256,
        ((n >> 16) & 0xff) < 256,
        ((n >> 24) & 0xff) < 256,
        ((n >> 32) & 0xff) < 256,
        ((n >> 40) & 0xff) < 256,
        ((n >> 48) & 0xff) < 256,
        ((n >> 56) & 0xff) < 256,
{
}

/// Appends the eight little-endian bytes of `n`.
fn push_u64_le(out: &mut Vec<u8>, n: u64)
    ensures
        final(out)@ == old(out)@ + u64_le_bytes(n),
{
    proof {
        lemma_u64_byte_bounds(n);
    }
    out.push((n & 0xff) as u8);
    out.push(((n >> 8) & 0xff) as u8);
    out.push(((n >> 16) & 0xff) as u8);
    out.push(((n >> 24) & 0xff) as u8);
    out.push(((n >> 32) & 0xff) as u8);
    out.push(((n >> 40) & 0xff) as u8);
    out.push(((n >> 48) & 0xff) as u8);
    out.push(((n >> 56) & 0xff) as u8);
    proof {
        assert(out@ =~= old(out)@ + u64_le_bytes(n));
    }
}

/// Reads the 64-bit little-endian value at `pos`.
fn read_u64_le(data: &[u8], pos: usize) -> (r: u64)
    requires
        pos + 8 <= data@.len(),
    ensures
        r == u64_from_le(data@.skip(pos as int)),
{
    let r = (data[pos] as u64) | ((data[pos + 1] as u64) << 8) | ((data[pos + 2] as u64) << 16) | ((
    data[pos + 3] as u64) << 24) | ((data[pos + 4] as u64) << 32) | ((data[pos + 5] as u64) << 40)
        | ((data[pos + 6] as u64) << 48) | ((data[pos + 7] as u64) << 56);
    proof {
        let s = data@.skip(pos as int);
        assert(s[0] == data@[pos as int]);
        assert(s[1] == data@[pos + 1]);
        assert(s[2] == data@[pos + 2]);
        assert(s[3] == data@[pos + 3]);
        assert(s[4] == data@[pos + 4]);
        assert(s[5] == data@[pos + 5]);
        assert(s[6] == data@[pos + 6]);
        assert(s[7] == data@[pos + 7]);
    }
    r
}

/// Copies `data[start .. end]` into a fresh vector.
fn copy_range(data: &[u8], start: usize, end: usize) -> (r: Vec<u8>)
    requires
        start <= end <= data@.len(),
    ensures
        r@ == data@.subrange(start as int, end as int),
{
    let s = vstd::slice::slice_subrange(data, start, end);
    vstd::slice::slice_to_vec(s)
}

/// Decoding failure: the blob is not a well-formed catalog encoding.
#[derive(Clone, Copy, PartialEq, Eq, Structural, Debug)]
pub enum CatalogError {
    /// Truncated input, an unknown key tag, out-of-range key parameters,
    /// trailing bytes, a repeated key, or mixed key schemes.
    Malformed,
}

/// The scheme parameterization a key was derived under; the bit-mask scheme
/// is reported with the default combine operator.
pub open spec fn spec_scheme_of_key(k: KeyView) -> KeyScheme {
    match k {
        KeyView::Prefix { offset, bytes } => KeyScheme::BytePrefix {
            offset: offset as usize,
            size: bytes.len() as usize,
        },
        KeyView::Bits { nb_bits, .. } => KeyScheme::BitMask { nb_bits, combine: MaskCombine::Or },
    }
}

/// The bucket-key to dictionary mapping, buildable once and persistable as
/// one binary blob.
pub struct Catalog {
    entries: Vec<(BucketKey, Vec<u8>)>,
}

impl View for Catalog {
    type V = Seq<(KeyView, Seq<u8>)>;

    closed spec fn view(&self) -> Seq<(KeyView, Seq<u8>)> {
        self.entries@.map(|i: int, e: (BucketKey, Vec<u8>)| (e.0@, e.1@))
    }
}

impl Catalog {
    /// Keys well formed, pairwise distinct and all of one scheme.
    pub open spec fn wf(&self) -> bool {
        catalog_entries_wf(self@)
    }

    /// An empty catalog.
    pub fn new() -> (c: Self)
        ensures
            c@ == Seq::<(KeyView, Seq<u8>)>::empty(),
            c.wf(),
    {
        let c = Catalog { entries: Vec::new() };
        proof {
            assert(c@ =~= Seq::<(KeyView, Seq<u8>)>::empty());
        }
        c
    }

    /// Number of entries.
    pub fn len(&self) -> (n: usize)
        ensures
            n == self@.len(),
    {
        self.entries.len()
    }

    /// Exact-match lookup of a bucket key.
    pub fn lookup(&self, key: &BucketKey) -> (r: Option<&Vec<u8>>)
        requires
            self.wf(),
        ensures
            match r {
                Option::Some(d) => assoc_lookup(self@, key@) == Option::Some(d@),
                Option::None => assoc_lookup(self@, key@) is None,
            },
    {
        proof {
            lemma_assoc_lookup_distinct(self@, key@);
        }
        let mut i: usize = 0;
        while i < self.entries.len()
            invariant
                self.wf(),
                i <= self.entries@.len(),
                self@.len() == self.entries@.len(),
                forall|j: int| 0 <= j < i ==> (#[trigger] self@[j]).0 != key@,
                forall|j: int|
                    0 <= j < self@.len() ==> #[trigger] self@[j] == (self.entries@[j].0@, self.entries@[j].1@),
            decreases self.entries@.len() - i,
        {
            if key_eq(&self.entries[i].0, key) {
                proof {
                    lemma_assoc_lookup_distinct(self@, key@);
                    assert(self@[i as int].0 == key@);
                    assert(assoc_lookup(self@, key@) == Option::Some(self@[i as int].1));
                }
                return Some(&self.entries[i].1);
            }
            i = i + 1;
        }
        None
    }

    /// Appends one entry; the key must be new and of the catalog's scheme.
    pub fn insert(&mut self, key: BucketKey, dict: Vec<u8>)
        requires
            old(self).wf(),
            key.wf(),
            assoc_lookup(old(self)@, key@) is None,
            old(self)@.len() > 0 ==> same_scheme(key@, old(self)@[0].0),
        ensures
            final(self)@ == old(self)@.push((key@, dict@)),
            final(self).wf(),
    {
        proof {
            lemma_assoc_lookup_distinct(old(self)@, key@);
        }
        let ghost k = key@;
        self.entries.push((key, dict));
        proof {
            assert(self@ =~= old(self)@.push((k, dict@)));
            let s = self@;
            let n = old(self)@.len() as int;
            assert(forall|i: int| 0 <= i < n ==> #[trigger] s[i] == old(self)@[i]);
            assert forall|i: int, j: int| 0 <= i < j < s.len() implies (#[trigger] s[i]).0 != (
            #[trigger] s[j]).0 by {
                if j < n {
                    assert(old(self)@[i].0 != old(self)@[j].0);
                } else {
                    assert(s[j].0 == k);
                    assert(old(self)@[i].0 != k);
                }
            }
            assert forall|i: int, j: int|
                0 <= i < s.len() && 0 <= j < s.len() implies same_scheme(
                (#[trigger] s[i]).0,
                (#[trigger] s[j]).0,
            ) by {
                if n > 0 {
                    assert(same_scheme(old(self)@[0].0, old(self)@[0].0));
                    if i < n {
                        assert(same_scheme(s[i].0, old(self)@[0].0));
                    } else {
                        assert(same_scheme(k, old(self)@[0].0));
                    }
                    if j < n {
                        assert(same_scheme(s[j].0, old(self)@[0].0));
                    } else {
                        assert(same_scheme(k, old(self)@[0].0));
                    }
                }
            }
        }
    }

    /// The scheme parameterization the catalog was built under, read off any
    /// one key; an empty catalog determines none.
    pub fn scheme(&self) -> (r: Option<KeyScheme>)
        requires
            self.wf(),
        ensures
            match r {
                Option::Some(sch) => self@.len() > 0 && sch == spec_scheme_of_key(self@[0].0)
                    && sch.wf(),
                Option::None => self@.len() == 0,
            },
    {
        if self.entries.len() == 0 {
            return None;
        }
        proof {
            assert(self@[0] == (self.entries@[0].0@, self.entries@[0].1@));
            assert(key_view_wf(self@[0].0));
        }
        match &self.entries[0].0 {
            BucketKey::BitMask(b) => Some(
                KeyScheme::BitMask { nb_bits: b.nb_bits, combine: MaskCombine::Or },
            ),
            BucketKey::BytePrefix(p) => Some(
                KeyScheme::BytePrefix { offset: p.offset() as usize, size: p.to_bytes().len() },
            ),
        }
    }

    /// Serializes the catalog into one binary blob.
    pub fn save(&self) -> (blob: Vec<u8>)
        requires
            self.wf(),
            self@.len() <= u64::MAX,
        ensures
            blob@ == encode_catalog_bytes(self@),
    {
        let mut blob: Vec<u8> = Vec::new();
        push_u64_le(&mut blob, self.entries.len() as u64);
        proof {
            assert(self@.skip(0) =~= self@);
            assert(blob@ =~= u64_le_bytes(self@.len() as u64));
        }
        let mut i: usize = 0;
        while i < self.entries.len()
            invariant
                self.wf(),
                i <= self.entries@.len(),
                self@.len() == self.entries@.len(),
                blob@ + encode_entries(self@.skip(i as int)) == encode_catalog_bytes(self@),
                forall|j: int|
                    0 <= j < self@.len() ==> #[trigger] self@[j] == (self.entries@[j].0@, self.entries@[j].1@),
            decreases self.entries@.len() - i,
        {
            let ghost blob0 = blob@;
            let ghost entry = self@[i as int];
            proof {
                assert(self@.skip(i as int).first() == entry);
                assert(self@.skip(i as int).drop_first() =~= self@.skip(i as int + 1));
                assert(key_view_wf(entry.0));
            }
            match &self.entries[i].0 {
                BucketKey::BitMask(b) => {
                    blob.push(0);
                    blob.push(b.nb_bits);
                    blob.push(b.bits);
                    proof {
                        assert(blob@ =~= blob0 + encode_key(entry.0));
                    }
                },
                BucketKey::BytePrefix(p) => {
                    blob.push(1);
                    blob.push(p.offset());
                    blob.push(p.to_bytes().len() as u8);
                    blob.extend_from_slice(p.to_bytes().as_slice());
                    proof {
                        assert(blob@ =~= blob0 + encode_key(entry.0));
                    }
                },
            }
            let ghost blob1 = blob@;
            let dict = &self.entries[i].1;
            push_u64_le(&mut blob, dict.len() as u64);
            blob.extend_from_slice(dict.as_slice());
            proof {
                assert(blob@ =~= blob0 + encode_entry(entry));
                assert(blob@ + encode_entries(self@.skip(i as int + 1)) =~= blob0 + encode_entries(
                    self@.skip(i as int),
                ));
            }
            i = i + 1;
        }
        proof {
            assert(self@.skip(self@.len() as int) =~= Seq::<(KeyView, Seq<u8>)>::empty());
            assert(blob@ =~= blob@ + encode_entries(self@.skip(self@.len() as int)));
        }
        blob
    }
}

/// Checks that the decoded keys are pairwise distinct and all of one scheme.
fn check_keys(entries: &Vec<(BucketKey, Vec<u8>)>) -> (r: bool)
    ensures
        r == ({
            &&& forall|i: int, j: int|
                0 <= i < j < entries@.len() ==> (#[trigger] entries@[i]).0@ != (
                #[trigger] entries@[j]).0@
            &&& forall|i: int, j: int|
                0 <= i < entries@.len() && 0 <= j < entries@.len() ==> same_scheme(
                    (#[trigger] entries@[i]).0@,
                    (#[trigger] entries@[j]).0@,
                )
        }),
{
    let n = entries.len();
    let mut i: usize = 0;
    while i < n
        invariant
            n == entries@.len(),
            i <= n,
            forall|a: int, b: int|
                0 <= a < b < entries@.len() && a < i ==> (#[trigger] entries@[a]).0@ != (
                #[trigger] entries@[b]).0@,
        decreases n - i,
    {
        let mut j: usize = i + 1;
        while j < n
            invariant
                n == entries@.len(),
                i < j <= n,
                i < n,
                forall|b: int|
                    i < b < j ==> (#[trigger] entries@[b]).0@ != entries@[i as int].0@,
            decreases n - j,
        {
            if key_eq(&entries[i].0, &entries[j].0) {
                proof {
                    assert(entries@[i as int].0@ == entries@[j as int].0@);
                }
                return false;
            }
            j = j + 1;
        }
        i = i + 1;
    }
    let mut k: usize = 1;
    while k < n
        invariant
            n == entries@.len(),
            1 <= k || n == 0,
            k <= n || (k == 1 && n <= 1),
            n > 0 ==> forall|b: int|
                0 <= b < k ==> same_scheme(
                    (#[trigger] entries@[b]).0@,
                    entries@[0].0@,
                ),
            forall|a: int, b: int|
                0 <= a < b < entries@.len() ==> (#[trigger] entries@[a]).0@ != (
                #[trigger] entries@[b]).0@,
        decreases n - k,
    {
        if !keys_same_scheme(&entries[k].0, &entries[0].0) {
            proof {
                assert(!same_scheme(entries@[k as int].0@, entries@[0].0@));
            }
            return false;
        }
        k = k + 1;
    }
    proof {
        if n > 0 {
            assert forall|i: int, j: int|
                0 <= i < entries@.len() && 0 <= j < entries@.len() implies same_scheme(
                (#[trigger] entries@[i]).0@,
                (#[trigger] entries@[j]).0@,
            ) by {
                assert(same_scheme(entries@[i].0@, entries@[0].0@));
                assert(same_scheme(entries@[j].0@, entries@[0].0@));
            }
        }
    }
    true
}

impl Catalog {
    /// Deserializes a catalog blob, rebuilding exactly the keys and
    /// dictionary bytes that were saved; every malformed blob is rejected.
    #[verifier::rlimit(100)]
    pub fn load(data: &[u8]) -> (r: Result<Catalog, CatalogError>)
        ensures
            match r {
                Result::Ok(c) => spec_decode_catalog(data@) == Option::Some(c@) && c.wf(),
                Result::Err(_) => spec_decode_catalog(data@) is None,
            },
    {
        if data.len() < 8 {
            return Err(CatalogError::Malformed);
        }
        let count = read_u64_le(data, 0);
        proof {
            assert(data@.skip(0) =~= data@);
        }
        let mut entries: Vec<(BucketKey, Vec<u8>)> = Vec::new();
        let mut pos: usize = 8;
        let mut i: u64 = 0;
        proof {
            assert(entries@.map(|j: int, e: (BucketKey, Vec<u8>)| (e.0@, e.1@)) =~= Seq::<(
                KeyView,
                Seq<u8>,
            )>::empty());
        }
        while i < count
            invariant
                data@.len() >= 8,
                count == u64_from_le(data@),
                8 <= pos <= data@.len(),
                i <= count,
                entries@.len() == i,
                forall|j: int| 0 <= j < entries@.len() ==> (#[trigger] entries@[j]).0.wf(),
                ({
                    let built = entries@.map(|j: int, e: (BucketKey, Vec<u8>)| (e.0@, e.1@));
                    match decode_entries(data@.skip(pos as int), (count - i) as nat) {
                        Option::Some(p) => decode_entries(data@.skip(8), count as nat)
                            == Option::Some((built + p.0, p.1)),
                        Option::None => decode_entries(data@.skip(8), count as nat) is None,
                    }
                }),
            decreases count - i,
        {
            let ghost suffix = data@.skip(pos as int);
            let ghost built0 = entries@.map(|j: int, e: (BucketKey, Vec<u8>)| (e.0@, e.1@));
            proof {
                assert(suffix.len() == data@.len() - pos);
            }
            if data.len() - pos < 3 {
                proof {
                    assert(decode_entry(suffix) is None);
                    assert(decode_entries(suffix, (count - i) as nat) is None);
                }
                return Err(CatalogError::Malformed);
            }
            proof {
                assert(suffix[0] == data@[pos as int]);
                assert(suffix[1] == data@[pos as int + 1]);
                assert(suffix[2] == data@[pos as int + 2]);
            }
            let tag = data[pos];
            let key: BucketKey;
            let newpos: usize;
            if tag == 0 {
                let nb = data[pos + 1];
                let bits = data[pos + 2];
                if nb > 8 {
                    proof {
                        assert(decode_key(suffix) is None);
                        assert(decode_entry(suffix) is None);
                        assert(decode_entries(suffix, (count - i) as nat) is None);
                    }
                    return Err(CatalogError::Malformed);
                }
                key = BucketKey::BitMask(crate::keys::PartialPubkeyByBits { nb_bits: nb, bits });
                newpos = pos + 3;
                proof {
                    assert(data@.skip(newpos as int) =~= suffix.skip(3));
                    assert(decode_key(suffix) == Option::Some((key@, data@.skip(newpos as int))));
                }
            } else if tag == 1 {
                let off = data[pos + 1];
                let size = data[pos + 2];
                if (off as usize) + (size as usize) > 32 || data.len() - pos < 3 + (size as usize) {
                    proof {
                        assert(decode_key(suffix) is None);
                        assert(decode_entry(suffix) is None);
                        assert(decode_entries(suffix, (count - i) as nat) is None);
                    }
                    return Err(CatalogError::Malformed);
                }
                let bytes = copy_range(data, pos + 3, pos + 3 + (size as usize));
                proof {
                    assert(bytes@ =~= suffix.subrange(3, 3 + size));
                }
                key = BucketKey::BytePrefix(crate::keys::PartialPubkey::from_parts(off, bytes));
                newpos = pos + 3 + (size as usize);
                proof {
                    assert(data@.skip(newpos as int) =~= suffix.skip(3 + size));
                    assert(decode_key(suffix) == Option::Some((key@, data@.skip(newpos as int))));
                }
            } else {
                proof {
                    assert(decode_key(suffix) is None);
                    assert(decode_entry(suffix) is None);
                    assert(decode_entries(suffix, (count - i) as nat) is None);
                }
                return Err(CatalogError::Malformed);
            }
            let ghost r1 = data@.skip(newpos as int);
            if data.len() - newpos < 8 {
                proof {
                    assert(r1.len() < 8);
                    assert(decode_entry(suffix) is None);
                    assert(decode_entries(suffix, (count - i) as nat) is None);
                }
                return Err(CatalogError::Malformed);
            }
            let dlen64 = read_u64_le(data, newpos);
            let ghost r2 = r1.skip(8);
            proof {
                assert(r2 =~= data@.skip(newpos as int + 8));
                assert(r2.len() == data@.len() - newpos - 8);
            }
            if dlen64 > (data.len() - newpos - 8) as u64 {
                proof {
                    assert(decode_entry(suffix) is None);
                    assert(decode_entries(suffix, (count - i) as nat) is None);
                }
                return Err(CatalogError::Malformed);
            }
            let dlen = dlen64 as usize;
            let dict = copy_range(data, newpos + 8, newpos + 8 + dlen);
            proof {
                assert(dict@ =~= r2.take(dlen as int));
            }
            let ghost e = (key@, dict@);
            let nextpos = newpos + 8 + dlen;
            proof {
                assert(data@.skip(nextpos as int) =~= r2.skip(dlen as int));
                assert(decode_entry(suffix) == Option::Some((e, data@.skip(nextpos as int))));
            }
            entries.push((key, dict));
            proof {
                let built1 = entries@.map(|j: int, e2: (BucketKey, Vec<u8>)| (e2.0@, e2.1@));
                assert(built1 =~= built0.push(e));
                let rest2 = data@.skip(nextpos as int);
                match decode_entries(rest2, (count - (i + 1)) as nat) {
                    Option::Some(p) => {
                        assert(decode_entries(suffix, (count - i) as nat) == Option::Some(
                            (seq![e] + p.0, p.1),
                        ));
                        assert(built0 + (seq![e] + p.0) =~= built1 + p.0);
                    },
                    Option::None => {
                        assert(decode_entries(suffix, (count - i) as nat) is None);
                    },
                }
            }
            pos = nextpos;
            i = i + 1;
        }
        let ghost built = entries@.map(|j: int, e: (BucketKey, Vec<u8>)| (e.0@, e.1@));
        proof {
            assert(decode_entries(data@.skip(pos as int), 0) == Option::Some(
                (Seq::<(KeyView, Seq<u8>)>::empty(), data@.skip(pos as int)),
            ));
            assert(built + Seq::<(KeyView, Seq<u8>)>::empty() =~= built);
            assert(decode_entries(data@.skip(8), count as nat) == Option::Some(
                (built, data@.skip(pos as int)),
            ));
        }
        if pos != data.len() {
            proof {
                assert(data@.skip(pos as int).len() != 0);
            }
            return Err(CatalogError::Malformed);
        }
        proof {
            assert(data@.skip(pos as int).len() == 0);
        }
        if !check_keys(&entries) {
            proof {
                assert(forall|j: int|
                    0 <= j < built.len() ==> #[trigger] built[j] == (entries@[j].0@, entries@[j].1@));
                if catalog_entries_wf(built) {
                    assert forall|a: int, b: int|
                        0 <= a < b < entries@.len() implies (#[trigger] entries@[a]).0@ != (
                    #[trigger] entries@[b]).0@ by {
                        assert(built[a].0 != built[b].0);
                    }
                    assert forall|a: int, b: int|
                        0 <= a < entries@.len() && 0 <= b < entries@.len() implies same_scheme(
                        (#[trigger] entries@[a]).0@,
                        (#[trigger] entries@[b]).0@,
                    ) by {
                        assert(same_scheme(built[a].0, built[b].0));
                    }
                }
            }
            return Err(CatalogError::Malformed);
        }
        let c = Catalog { entries };
        proof {
            assert(c@ =~= built);
            assert(forall|j: int|
                0 <= j < built.len() ==> #[trigger] built[j] == (c.entries@[j].0@, c.entries@[j].1@));
            assert forall|j: int| 0 <= j < c@.len() implies key_view_wf((#[trigger] c@[j]).0) by {
                assert(c.entries@[j].0.wf());
            }
            assert forall|a: int, b: int| 0 <= a < b < c@.len() implies (#[trigger] c@[a]).0 != (
            #[trigger] c@[b]).0 by {
                assert(c.entries@[a].0@ != c.entries@[b].0@);
            }
            assert forall|a: int, b: int|
                0 <= a < c@.len() && 0 <= b < c@.len() implies same_scheme(
                (#[trigger] c@[a]).0,
                (#[trigger] c@[b]).0,
            ) by {
                assert(same_scheme(c.entries@[a].0@, c.entries@[b].0@));
            }
            assert(catalog_entries_wf(c@));
        }
        Ok(c)
    }
}

} // verus!
