//! Per-bucket sample accumulation.
//!
//! During the first scan over the record sequence every eligible payload is
//! routed to a bucket and appended to that bucket's accumulator, under a
//! per-bucket sample-count cap and a per-bucket aggregate-byte cap.

use vstd::prelude::*;

use crate::bench::AccountRecord;
use crate::keys::BucketKey;
use crate::keys::KeyScheme;
use crate::keys::KeyView;
use crate::keys::PartialPubkeyByBits;
use crate::keys::assoc_lookup;
use crate::keys::assoc_update;
use crate::keys::derive_key;
use crate::keys::key_eq;
use crate::keys::owner_is_zero;
use crate::keys::same_scheme;
use crate::keys::spec_derive_key;

verus! {

/// One bucket's accumulator: the concatenated raw sample bytes, the ordered
/// per-sample lengths, and the running byte total.
pub struct Samples {
    pub samples: Vec<u8>,
    pub sizes: Vec<usize>,
    pub total_size: usize,
}

impl View for Samples {
    type V = (Seq<u8>, Seq<usize>);

    open spec fn view(&self) -> (Seq<u8>, Seq<usize>) {
        (self.samples@, self.sizes@)
    }
}

/// Sum of a sequence of per-sample lengths.
pub open spec fn sum_sizes(sizes: Seq<usize>) -> int
    decreases sizes.len(),
{
    if sizes.len() == 0 {
        0
    } else {
        sum_sizes(sizes.drop_last()) + sizes.last()
    }
}

impl Samples {
    /// The per-sample lengths add up to the buffer length, which the running
    /// total mirrors.
    pub open spec fn wf(&self) -> bool {
        &&& self.total_size == self@.0.len()
        &&& sum_sizes(self@.1) == self@.0.len()
    }

    /// An accumulator seeded with its first sample.
    pub fn new(data: &[u8]) -> (s: Self)
        ensures
            s@.0 == data@,
            s@.1 == seq![data@.len() as usize],
            s.total_size == data@.len(),
            s.wf(),
    {
        let mut sizes: Vec<usize> = Vec::new();
        sizes.push(data.len());
        let s = Self { samples: vstd::slice::slice_to_vec(data), sizes, total_size: data.len() };
        proof {
            assert(s.sizes@ =~= seq![data@.len() as usize]);
            assert(s.sizes@.drop_last() =~= Seq::<usize>::empty());
            assert(sum_sizes(Seq::<usize>::empty()) == 0);
            assert(sum_sizes(s.sizes@) == sum_sizes(s.sizes@.drop_last()) + s.sizes@.last());
        }
        s
    }

    /// Appends one sample to the accumulator.
    pub fn add(&mut self, data: &[u8])
        requires
            old(self).wf(),
            old(self)@.0.len() + data@.len() <= usize::MAX,
        ensures
            final(self)@.0 == old(self)@.0 + data@,
            final(self)@.1 == old(self)@.1.push(data@.len() as usize),
            final(self).total_size == old(self).total_size + data@.len(),
            final(self).wf(),
    {
        self.sizes.push(data.len());
        self.total_size = self.total_size + data.len();
        self.samples.extend_from_slice(data);
        proof {
            assert(self.sizes@.drop_last() =~= old(self).sizes@);
        }
    }
}

/// Configuration of the sample collector.
pub struct CollectorConfig {
    /// The bucket-key scheme records are routed by.
    pub scheme: KeyScheme,
    /// Payloads shorter than this are not sampled.
    pub min_payload_len: usize,
    /// Per-bucket cap on the number of samples.
    pub sample_count_cap: usize,
    /// Per-bucket cap on the aggregate sample bytes.
    pub byte_cap: usize,
    /// When set, every record funnels into one shared bucket.
    pub single_bucket: bool,
    /// When set, the whole scan stops once a cap is hit, instead of skipping
    /// the one record.
    pub halt_when_full: bool,
}

/// What the collector did with one record.
#[derive(Clone, Copy, PartialEq, Eq, Structural, Debug)]
pub enum CollectOutcome {
    /// Zero owner or payload below the minimum length; nothing accumulated.
    Skipped,
    /// First sample of a new bucket.
    Seeded,
    /// Appended to an existing bucket.
    Appended,
    /// A cap would have been exceeded; the record was dropped.
    CapSkipped,
    /// A cap would have been exceeded and the configuration asks the whole
    /// scan to stop.
    Halted,
}

/// The key a record is routed by: the shared bucket's key in single-bucket
/// mode, the scheme-derived key otherwise.
pub open spec fn spec_collect_key(config: CollectorConfig, owner: Seq<u8>) -> KeyView {
    if config.single_bucket {
        KeyView::Bits { nb_bits: 0, bits: 0 }
    } else {
        spec_derive_key(config.scheme, owner)
    }
}

/// Whether a bucket key is one this configuration can derive: the shared
/// bucket's key in single-bucket mode, a key with the configured scheme's
/// parameters otherwise.
pub open spec fn key_fits_config(k: KeyView, config: CollectorConfig) -> bool {
    if config.single_bucket {
        k == (KeyView::Bits { nb_bits: 0, bits: 0 })
    } else {
        match (k, config.scheme) {
            (KeyView::Prefix { offset, bytes }, KeyScheme::BytePrefix { offset: o, size }) => {
                offset == o && bytes.len() == size
            },
            (KeyView::Bits { nb_bits, .. }, KeyScheme::BitMask { nb_bits: n, .. }) => nb_bits == n,
            _ => false,
        }
    }
}

/// Two keys that fit one configuration share one scheme parameterization.
pub proof fn lemma_fits_same_scheme(a: KeyView, b: KeyView, config: CollectorConfig)
    requires
        key_fits_config(a, config),
        key_fits_config(b, config),
    ensures
        same_scheme(a, b),
{
}

/// A record is sampled only when its owner is not the all-zero sentinel and
/// its payload is long enough.
pub open spec fn spec_record_eligible(config: CollectorConfig, owner: Seq<u8>, payload: Seq<u8>) -> bool {
    &&& !(forall|i: int| 0 <= i < owner.len() ==> owner[i] == 0)
    &&& payload.len() >= config.min_payload_len
}

/// An existing bucket accepts one more payload only when neither cap would be
/// reached.
pub open spec fn spec_bucket_accepts(
    config: CollectorConfig,
    bucket: (Seq<u8>, Seq<usize>),
    payload: Seq<u8>,
) -> bool {
    &&& bucket.1.len() < config.sample_count_cap
    &&& bucket.0.len() + payload.len() < config.byte_cap
}

/// The collector's bucket state after one record: unchanged for an
/// ineligible record or a full bucket, seeded for a new key, appended
/// otherwise.
pub open spec fn spec_collect_step(
    config: CollectorConfig,
    s: Seq<(KeyView, (Seq<u8>, Seq<usize>))>,
    owner: Seq<u8>,
    payload: Seq<u8>,
) -> Seq<(KeyView, (Seq<u8>, Seq<usize>))> {
    if !spec_record_eligible(config, owner, payload) {
        s
    } else {
        let key = spec_collect_key(config, owner);
        match assoc_lookup(s, key) {
            Option::None => s.push((key, (payload, seq![payload.len() as usize]))),
            Option::Some(bucket) => {
                if spec_bucket_accepts(config, bucket, payload) {
                    assoc_update(
                        s,
                        key,
                        (bucket.0 + payload, bucket.1.push(payload.len() as usize)),
                    )
                } else {
                    s
                }
            },
        }
    }
}

/// Whether one record stops the whole scan: its bucket is full and the
/// configuration halts on a full bucket.
pub open spec fn spec_collect_halts(
    config: CollectorConfig,
    s: Seq<(KeyView, (Seq<u8>, Seq<usize>))>,
    owner: Seq<u8>,
    payload: Seq<u8>,
) -> bool {
    &&& config.halt_when_full
    &&& spec_record_eligible(config, owner, payload)
    &&& match assoc_lookup(s, spec_collect_key(config, owner)) {
        Option::Some(bucket) => !spec_bucket_accepts(config, bucket, payload),
        Option::None => false,
    }
}

/// The collector's bucket state after scanning a record sequence in order,
/// together with whether the scan was halted: the per-record step is applied
/// record by record until one halts the scan.
pub open spec fn spec_collect_scan(
    config: CollectorConfig,
    s: Seq<(KeyView, (Seq<u8>, Seq<usize>))>,
    records: Seq<AccountRecord>,
) -> (Seq<(KeyView, (Seq<u8>, Seq<usize>))>, bool)
    decreases records.len(),
{
    if records.len() == 0 {
        (s, false)
    } else {
        let r = records.first();
        if spec_collect_halts(config, s, r.owner@, r.data@) {
            (s, true)
        } else {
            spec_collect_scan(
                config,
                spec_collect_step(config, s, r.owner@, r.data@),
                records.drop_first(),
            )
        }
    }
}

/// Accumulates size-capped payload samples per bucket over one scan of the
/// record sequence.
pub struct SampleCollector {
    config: CollectorConfig,
    buckets: Vec<(BucketKey, Samples)>,
}

impl View for SampleCollector {
    type V = Seq<(KeyView, (Seq<u8>, Seq<usize>))>;

    closed spec fn view(&self) -> Seq<(KeyView, (Seq<u8>, Seq<usize>))> {
        self.buckets@.map(|i: int, e: (BucketKey, Samples)| (e.0@, e.1@))
    }
}

impl SampleCollector {
    /// The configuration the collector was created with.
    pub closed spec fn spec_config(&self) -> CollectorConfig {
        self.config
    }

    /// Bucket keys are well formed, pairwise distinct and all of one scheme,
    /// and every accumulator is internally consistent.
    pub closed spec fn wf(&self) -> bool {
        &&& self.config.scheme.wf()
        &&& forall|i: int| 0 <= i < self.buckets@.len() ==> (#[trigger] self.buckets@[i]).0.wf()
        &&& forall|i: int| 0 <= i < self.buckets@.len() ==> (#[trigger] self.buckets@[i]).1.wf()
        &&& forall|i: int, j: int|
            0 <= i < j < self@.len() ==> (#[trigger] self@[i]).0 != (#[trigger] self@[j]).0
        &&& forall|i: int|
            0 <= i < self@.len() ==> key_fits_config((#[trigger] self@[i]).0, self.config)
    }

    /// Every bucket respects both caps.
    pub open spec fn caps_hold(&self) -> bool {
        &&& forall|i: int|
            0 <= i < self@.len()
                ==> (#[trigger] self@[i]).1.1.len() <= self.spec_config().sample_count_cap
        &&& forall|i: int|
            0 <= i < self@.len() ==> (#[trigger] self@[i]).1.0.len() <= self.spec_config().byte_cap
    }

    /// An empty collector.
    pub fn new(config: CollectorConfig) -> (c: Self)
        requires
            config.scheme.wf(),
        ensures
            c@ == Seq::<(KeyView, (Seq<u8>, Seq<usize>))>::empty(),
            c.spec_config() == config,
            c.wf(),
            c.caps_hold(),
    {
        let c = SampleCollector { config, buckets: Vec::new() };
        proof {
            assert(c@ =~= Seq::<(KeyView, (Seq<u8>, Seq<usize>))>::empty());
        }
        c
    }

    /// The accumulated buckets, for dictionary training; the collector is
    /// consumed.
    pub fn into_buckets(self) -> (buckets: Vec<(BucketKey, Samples)>)
        requires
            self.wf(),
        ensures
            buckets@.len() == self@.len(),
            forall|i: int|
                0 <= i < buckets@.len() ==> self@[i] == ((#[trigger] buckets@[i]).0@, buckets@[i].1@),
            forall|i: int| 0 <= i < buckets@.len() ==> (#[trigger] buckets@[i]).0.wf(),
            forall|i: int| 0 <= i < buckets@.len() ==> (#[trigger] buckets@[i]).1.wf(),
            forall|i: int, j: int|
                0 <= i < j < buckets@.len() ==> (#[trigger] buckets@[i]).0@ != (
                #[trigger] buckets@[j]).0@,
            forall|i: int|
                0 <= i < buckets@.len() ==> key_fits_config(
                    (#[trigger] buckets@[i]).0@,
                    self.spec_config(),
                ),
    {
        proof {
            assert forall|i: int, j: int|
                0 <= i < j < self.buckets@.len() implies (#[trigger] self.buckets@[i]).0@ != (
            #[trigger] self.buckets@[j]).0@ by {
                assert(self@[i].0 == self.buckets@[i].0@);
                assert(self@[j].0 == self.buckets@[j].0@);
                assert(self@[i].0 != self@[j].0);
            }
            assert forall|i: int|
                0 <= i < self.buckets@.len() implies key_fits_config(
                (#[trigger] self.buckets@[i]).0@,
                self.config,
            ) by {
                assert(self@[i].0 == self.buckets@[i].0@);
                assert(key_fits_config(self@[i].0, self.config));
            }
        }
        self.buckets
    }

    /// Index of the bucket with this key, if it exists.
    fn find_bucket(&self, key: &BucketKey) -> (r: Option<usize>)
        ensures
            match r {
                Some(i) => i < self@.len() && self@[i as int].0 == key@,
                None => forall|i: int| 0 <= i < self@.len() ==> (#[trigger] self@[i]).0 != key@,
            },
    {
        let mut i: usize = 0;
        while i < self.buckets.len()
            invariant
                i <= self.buckets@.len(),
                self@.len() == self.buckets@.len(),
                forall|j: int| 0 <= j < i ==> (#[trigger] self@[j]).0 != key@,
                forall|j: int|
                    0 <= j < self@.len() ==> #[trigger] self@[j] == (self.buckets@[j].0@, self.buckets@[j].1@),
            decreases self.buckets@.len() - i,
        {
            if key_eq(&self.buckets[i].0, key) {
                return Some(i);
            }
            i = i + 1;
        }
        None
    }

    /// Routes one record to its bucket, under the configured caps.
    ///
    /// Within any one bucket, after any sequence of records, the sample count
    /// stays at or below the count cap and the aggregate bytes stay at or
    /// below the byte cap, provided the count cap is at least one and no
    /// single payload exceeds the byte cap: the `caps_hold` clauses below
    /// state exactly that.
    pub fn process_record(&mut self, owner: &[u8; 32], payload: &[u8]) -> (r: CollectOutcome)
        requires
            old(self).wf(),
        ensures
            final(self).wf(),
            final(self).spec_config() == old(self).spec_config(),
            ({
                let config = old(self).spec_config();
                let key = spec_collect_key(config, owner@);
                if !spec_record_eligible(config, owner@, payload@) {
                    r == CollectOutcome::Skipped && final(self)@ == old(self)@
                } else {
                    match assoc_lookup(old(self)@, key) {
                        Option::None => {
                            &&& r == CollectOutcome::Seeded
                            &&& final(self)@ == old(self)@.push(
                                (key, (payload@, seq![payload@.len() as usize])),
                            )
                        },
                        Option::Some(bucket) => {
                            if spec_bucket_accepts(config, bucket, payload@) {
                                &&& r == CollectOutcome::Appended
                                &&& exists|i: int|
                                    {
                                        &&& 0 <= i < old(self)@.len()
                                        &&& old(self)@[i].0 == key
                                        &&& final(self)@ =~= old(self)@.update(
                                            i,
                                            (key, (bucket.0 + payload@, bucket.1.push(payload@.len() as usize))),
                                        )
                                    }
                            } else {
                                &&& r == (if config.halt_when_full {
                                    CollectOutcome::Halted
                                } else {
                                    CollectOutcome::CapSkipped
                                })
                                &&& final(self)@ == old(self)@
                            }
                        },
                    }
                }
            }),
            old(self).caps_hold() && old(self).spec_config().sample_count_cap >= 1
                && payload@.len() <= old(self).spec_config().byte_cap ==> final(self).caps_hold(),
    {
        if owner_is_zero(owner) || payload.len() < self.config.min_payload_len {
            return CollectOutcome::Skipped;
        }
        let key = if self.config.single_bucket {
            BucketKey::BitMask(PartialPubkeyByBits { nb_bits: 0, bits: 0 })
        } else {
            derive_key(&self.config.scheme, owner)
        };
        proof {
            crate::keys::lemma_assoc_lookup_distinct(self@, key@);
        }
        match self.find_bucket(&key) {
            Some(i) => {
                let accepts = {
                    let bucket = &self.buckets[i].1;
                    bucket.sizes.len() < self.config.sample_count_cap
                        && payload.len() < self.config.byte_cap
                        && bucket.samples.len() < self.config.byte_cap - payload.len()
                };
                if accepts {
                    let mut entry = self.buckets.remove(i);
                    entry.1.add(payload);
                    self.buckets.insert(i, entry);
                    proof {
                        assert(self@ =~= old(self)@.update(
                            i as int,
                            (key@, (old(self)@[i as int].1.0 + payload@,
                                    old(self)@[i as int].1.1.push(payload@.len() as usize))),
                        ));
                    }
                    CollectOutcome::Appended
                } else {
                    if self.config.halt_when_full {
                        CollectOutcome::Halted
                    } else {
                        CollectOutcome::CapSkipped
                    }
                }
            },
            None => {
                let seeded = Samples::new(payload);
                self.buckets.push((key, seeded));
                proof {
                    assert(self@ =~= old(self)@.push(
                        (key@, (payload@, seq![payload@.len() as usize])),
                    ));
                }
                CollectOutcome::Seeded
            },
        }
    }

    /// Scans a sequence of records, stopping early only when a cap is hit
    /// under the halt-when-full configuration. The final bucket state and
    /// the halt flag are exactly `spec_collect_scan` of the records handed
    /// in, and the cap bounds of `caps_hold` are kept across the whole scan
    /// whenever the count cap is at least one and no payload exceeds the
    /// byte cap.
    pub fn collect_records(&mut self, records: &Vec<AccountRecord>) -> (halted: bool)
        requires
            old(self).wf(),
        ensures
            final(self).wf(),
            final(self).spec_config() == old(self).spec_config(),
            ({
                let scan = spec_collect_scan(old(self).spec_config(), old(self)@, records@);
                final(self)@ == scan.0 && halted == scan.1
            }),
            old(self).caps_hold() && old(self).spec_config().sample_count_cap >= 1 && (forall|
                i: int,
            |
                0 <= i < records@.len() ==> (#[trigger] records@[i]).data@.len() <= old(
                    self,
                ).spec_config().byte_cap) ==> final(self).caps_hold(),
    {
        let ghost config = old(self).spec_config();
        let ghost caps_kept = old(self).caps_hold() && config.sample_count_cap >= 1 && (forall|
            i: int,
        |
            0 <= i < records@.len() ==> (#[trigger] records@[i]).data@.len() <= config.byte_cap);
        proof {
            assert(records@.skip(0) =~= records@);
        }
        let mut i: usize = 0;
        while i < records.len()
            invariant
                self.wf(),
                config == old(self).spec_config(),
                self.spec_config() == config,
                i <= records@.len(),
                spec_collect_scan(config, self@, records@.skip(i as int)) == spec_collect_scan(
                    config,
                    old(self)@,
                    records@,
                ),
                caps_kept == (old(self).caps_hold() && config.sample_count_cap >= 1 && (forall|
                    j: int,
                |
                    0 <= j < records@.len() ==> (#[trigger] records@[j]).data@.len()
                        <= config.byte_cap)),
                caps_kept ==> self.caps_hold(),
            decreases records@.len() - i,
        {
            let ghost pre = self@;
            let ghost suffix = records@.skip(i as int);
            proof {
                assert(suffix.first() == records@[i as int]);
                assert(suffix.drop_first() =~= records@.skip(i as int + 1));
            }
            let record = &records[i];
            let outcome = self.process_record(&record.owner, record.data.as_slice());
            proof {
                let owner_v = records@[i as int].owner@;
                let payload_v = records@[i as int].data@;
                let key = spec_collect_key(config, owner_v);
                if outcome == CollectOutcome::Halted {
                    assert(spec_collect_halts(config, pre, owner_v, payload_v));
                    assert(spec_collect_scan(config, pre, suffix) == (pre, true));
                    assert(self@ == pre);
                } else {
                    assert(!spec_collect_halts(config, pre, owner_v, payload_v));
                    if !spec_record_eligible(config, owner_v, payload_v) {
                        assert(self@ == spec_collect_step(config, pre, owner_v, payload_v));
                    } else {
                        match assoc_lookup(pre, key) {
                            Option::None => {
                                assert(self@ == spec_collect_step(config, pre, owner_v, payload_v));
                            },
                            Option::Some(bucket) => {
                                if spec_bucket_accepts(config, bucket, payload_v) {
                                    let updated = (
                                        bucket.0 + payload_v,
                                        bucket.1.push(payload_v.len() as usize),
                                    );
                                    let j = choose|j: int|
                                        {
                                            &&& 0 <= j < pre.len()
                                            &&& pre[j].0 == key
                                            &&& self@ =~= pre.update(j, (key, updated))
                                        };
                                    crate::keys::lemma_assoc_update_at(pre, key, updated, j);
                                    assert(self@ == spec_collect_step(
                                        config,
                                        pre,
                                        owner_v,
                                        payload_v,
                                    ));
                                } else {
                                    assert(self@ == spec_collect_step(
                                        config,
                                        pre,
                                        owner_v,
                                        payload_v,
                                    ));
                                }
                            },
                        }
                    }
                    assert(spec_collect_scan(config, pre, suffix) == spec_collect_scan(
                        config,
                        self@,
                        records@.skip(i as int + 1),
                    ));
                }
            }
            if outcome == CollectOutcome::Halted {
                return true;
            }
            i = i + 1;
        }
        proof {
            assert(records@.skip(records@.len() as int) =~= Seq::<AccountRecord>::empty());
        }
        false
    }
}

} // verus!
