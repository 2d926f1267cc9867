//! Dictionary training: one compression dictionary per sampled bucket.
//!
//! Buckets with too few samples are skipped, and a per-bucket training
//! failure excludes only that bucket; training is deterministic in the
//! accumulated samples, so the resulting catalog is a function of the
//! collector's buckets and the target dictionary size.

use vstd::prelude::*;

use crate::catalog::Catalog;
use crate::keys::KeyView;
use crate::keys::lemma_assoc_lookup_distinct;
use crate::keys::same_scheme;
use crate::samples::SampleCollector;
use crate::samples::lemma_fits_same_scheme;

verus! {

/// Buckets with fewer accumulated samples than this train no dictionary.
pub const MIN_SAMPLES_FOR_TRAINING: usize = 32;

/// What the dictionary trainer produces from a bucket's concatenated sample
/// bytes, its per-sample lengths and a target size, when it succeeds.
pub uninterp spec fn zstd_dict_of(samples: Seq<u8>, sizes: Seq<usize>, max_size: usize) -> Option<
    Seq<u8>,
>;

/// Relies on zstd::dict::from_continuous: trains a dictionary of at most
/// `max_size` bytes from the concatenated samples; the outcome, success or
/// failure, is deterministic in the arguments. The per-sample lengths must
/// add up to the buffer length, as the trainer's input contract asks.
#[verifier::external_body]
fn zstd_train_from_continuous(samples: &Vec<u8>, sizes: &Vec<usize>, max_size: usize) -> (r: Result<
    Vec<u8>,
    std::io::Error,
>)
    requires
        crate::samples::sum_sizes(sizes@) == samples@.len(),
    ensures
        match r {
            Result::Ok(d) => zstd_dict_of(samples@, sizes@, max_size) == Option::Some(d@)
                && d@.len() <= max_size,
            Result::Err(_) => zstd_dict_of(samples@, sizes@, max_size) is None,
        },
{
    zstd::dict::from_continuous(samples.as_slice(), sizes.as_slice(), max_size)
}

/// The catalog the trainer produces from a sequence of buckets: per bucket,
/// an entry exactly when the bucket has enough samples and training
/// succeeds.
pub open spec fn spec_train(
    s: Seq<(KeyView, (Seq<u8>, Seq<usize>))>,
    dict_size: usize,
) -> Seq<(KeyView, Seq<u8>)>
    decreases s.len(),
{
    if s.len() == 0 {
        Seq::empty()
    } else {
        spec_train_one(s.first(), dict_size) + spec_train(s.drop_first(), dict_size)
    }
}

/// The catalog entries one bucket contributes: one or none.
pub open spec fn spec_train_one(
    e: (KeyView, (Seq<u8>, Seq<usize>)),
    dict_size: usize,
) -> Seq<(KeyView, Seq<u8>)> {
    if e.1.1.len() >= MIN_SAMPLES_FOR_TRAINING {
        match zstd_dict_of(e.1.0, e.1.1, dict_size) {
            Option::Some(d) => seq![(e.0, d)],
            Option::None => Seq::empty(),
        }
    } else {
        Seq::empty()
    }
}

proof fn lemma_spec_train_snoc(
    s: Seq<(KeyView, (Seq<u8>, Seq<usize>))>,
    e: (KeyView, (Seq<u8>, Seq<usize>)),
    dict_size: usize,
)
    ensures
        spec_train(s.push(e), dict_size) == spec_train(s, dict_size) + spec_train_one(e, dict_size),
    decreases s.len(),
{
    let t = s.push(e);
    if s.len() == 0 {
        assert(t.drop_first() =~= Seq::<(KeyView, (Seq<u8>, Seq<usize>))>::empty());
        assert(t.first() == e);
        assert(spec_train(t, dict_size) == spec_train_one(e, dict_size) + spec_train(
            t.drop_first(),
            dict_size,
        ));
        assert(spec_train(t.drop_first(), dict_size) == Seq::<(KeyView, Seq<u8>)>::empty());
        assert(spec_train(s, dict_size) == Seq::<(KeyView, Seq<u8>)>::empty());
        assert(spec_train(t, dict_size) =~= spec_train(s, dict_size) + spec_train_one(
            e,
            dict_size,
        ));
    } else {
        assert(t.first() == s.first());
        assert(t.drop_first() =~= s.drop_first().push(e));
        lemma_spec_train_snoc(s.drop_first(), e, dict_size);
        assert(spec_train(t, dict_size) =~= spec_train(s, dict_size) + spec_train_one(
            e,
            dict_size,
        ));
    }
}

/// Every catalog entry the trainer produces comes from a bucket with at
/// least the minimum number of samples, whose training succeeded with
/// exactly those dictionary bytes; in particular no bucket with fewer than
/// the minimum samples appears in the catalog.
pub proof fn lemma_train_min_samples(s: Seq<(KeyView, (Seq<u8>, Seq<usize>))>, dict_size: usize)
    ensures
        forall|a: int|
            0 <= a < spec_train(s, dict_size).len() ==> exists|j: int|
                {
                    &&& 0 <= j < s.len()
                    &&& (#[trigger] spec_train(s, dict_size)[a]).0 == (#[trigger] s[j]).0
                    &&& s[j].1.1.len() >= MIN_SAMPLES_FOR_TRAINING
                    &&& zstd_dict_of(s[j].1.0, s[j].1.1, dict_size) == Option::Some(
                        spec_train(s, dict_size)[a].1,
                    )
                },
    decreases s.len(),
{
    if s.len() > 0 {
        let rest = s.drop_first();
        lemma_train_min_samples(rest, dict_size);
        let head = spec_train_one(s.first(), dict_size);
        let t = spec_train(s, dict_size);
        assert(forall|i: int| 0 <= i < rest.len() ==> #[trigger] rest[i] == s[i + 1]);
        assert forall|a: int| 0 <= a < t.len() implies exists|j: int|
            {
                &&& 0 <= j < s.len()
                &&& (#[trigger] t[a]).0 == (#[trigger] s[j]).0
                &&& s[j].1.1.len() >= MIN_SAMPLES_FOR_TRAINING
                &&& zstd_dict_of(s[j].1.0, s[j].1.1, dict_size) == Option::Some(t[a].1)
            } by {
            if a < head.len() {
                assert(t[a] == head[0]);
                assert(t[a].0 == s[0].0 && zstd_dict_of(s[0].1.0, s[0].1.1, dict_size)
                    == Option::Some(t[a].1) && s[0].1.1.len() >= MIN_SAMPLES_FOR_TRAINING);
            } else {
                let b = a - head.len();
                assert(t[a] == spec_train(rest, dict_size)[b]);
                let j0 = choose|j: int|
                    {
                        &&& 0 <= j < rest.len()
                        &&& (#[trigger] spec_train(rest, dict_size)[b]).0 == (#[trigger] rest[j]).0
                        &&& rest[j].1.1.len() >= MIN_SAMPLES_FOR_TRAINING
                        &&& zstd_dict_of(rest[j].1.0, rest[j].1.1, dict_size) == Option::Some(
                            spec_train(rest, dict_size)[b].1,
                        )
                    };
                assert(rest[j0] == s[j0 + 1]);
                assert(t[a].0 == s[j0 + 1].0 && s[j0 + 1].1.1.len() >= MIN_SAMPLES_FOR_TRAINING
                    && zstd_dict_of(s[j0 + 1].1.0, s[j0 + 1].1.1, dict_size) == Option::Some(
                    t[a].1,
                ));
            }
        }
    }
}

/// How many buckets trained a dictionary, against how many were seen.
#[derive(Clone, Copy, PartialEq, Eq, Structural, Debug)]
pub struct TrainingReport {
    pub trained: usize,
    pub candidates: usize,
}

/// Trains one dictionary per bucket that has enough samples, skipping the
/// bucket on a training failure, and returns the catalog with a report of
/// trained against candidate buckets.
pub fn train_dictionaries(collector: SampleCollector, dict_size: usize) -> (r: (
    Catalog,
    TrainingReport,
))
    requires
        collector.wf(),
    ensures
        r.0@ == spec_train(collector@, dict_size),
        r.0.wf(),
        forall|a: int| 0 <= a < r.0@.len() ==> (#[trigger] r.0@[a]).1.len() <= dict_size,
        r.1.candidates == collector@.len(),
        r.1.trained == r.0@.len(),
{
    let ghost cview = collector@;
    let ghost config = collector.spec_config();
    let buckets = collector.into_buckets();
    let candidates = buckets.len();
    let mut catalog = Catalog::new();
    let mut i: usize = 0;
    proof {
        assert(cview.take(0) =~= Seq::<(KeyView, (Seq<u8>, Seq<usize>))>::empty());
    }
    while i < buckets.len()
        invariant
            i <= buckets@.len(),
            buckets@.len() == cview.len(),
            forall|j: int|
                0 <= j < buckets@.len() ==> cview[j] == ((#[trigger] buckets@[j]).0@, buckets@[j].1@),
            forall|j: int| 0 <= j < buckets@.len() ==> (#[trigger] buckets@[j]).0.wf(),
            forall|j: int| 0 <= j < buckets@.len() ==> (#[trigger] buckets@[j]).1.wf(),
            forall|j: int, k: int|
                0 <= j < k < buckets@.len() ==> (#[trigger] buckets@[j]).0@ != (
                #[trigger] buckets@[k]).0@,
            forall|j: int|
                0 <= j < buckets@.len() ==> crate::samples::key_fits_config(
                    (#[trigger] buckets@[j]).0@,
                    config,
                ),
            catalog@ == spec_train(cview.take(i as int), dict_size),
            catalog.wf(),
            forall|a: int| 0 <= a < catalog@.len() ==> (#[trigger] catalog@[a]).1.len() <= dict_size,
        decreases buckets@.len() - i,
    {
        let ghost prefix = cview.take(i as int);
        let ghost entry = cview[i as int];
        proof {
            assert(cview.take(i as int + 1) =~= prefix.push(entry));
            lemma_spec_train_snoc(prefix, entry, dict_size);
        }
        let bucket = &buckets[i];
        proof {
            assert(buckets@[i as int].1.wf());
        }
        if bucket.1.sizes.len() >= MIN_SAMPLES_FOR_TRAINING {
            match zstd_train_from_continuous(&bucket.1.samples, &bucket.1.sizes, dict_size) {
                Ok(dict) => {
                    proof {
                        assert(spec_train_one(entry, dict_size) =~= seq![(entry.0, dict@)]);
                        lemma_train_min_samples(prefix, dict_size);
                        lemma_assoc_lookup_distinct(catalog@, entry.0);
                        assert forall|a: int|
                            0 <= a < catalog@.len() implies (#[trigger] catalog@[a]).0 != entry.0 by {
                            let j0 = choose|j: int|
                                {
                                    &&& 0 <= j < prefix.len()
                                    &&& (#[trigger] spec_train(prefix, dict_size)[a]).0 == (
                                    #[trigger] prefix[j]).0
                                    &&& prefix[j].1.1.len() >= MIN_SAMPLES_FOR_TRAINING
                                    &&& zstd_dict_of(prefix[j].1.0, prefix[j].1.1, dict_size)
                                        == Option::Some(spec_train(prefix, dict_size)[a].1)
                                };
                            assert(prefix[j0] == cview[j0]);
                            assert(buckets@[j0].0@ != buckets@[i as int].0@);
                        }
                        if catalog@.len() > 0 {
                            let j1 = choose|j: int|
                                {
                                    &&& 0 <= j < prefix.len()
                                    &&& (#[trigger] spec_train(prefix, dict_size)[0]).0 == (
                                    #[trigger] prefix[j]).0
                                    &&& prefix[j].1.1.len() >= MIN_SAMPLES_FOR_TRAINING
                                    &&& zstd_dict_of(prefix[j].1.0, prefix[j].1.1, dict_size)
                                        == Option::Some(spec_train(prefix, dict_size)[0].1)
                                };
                            assert(cview[i as int] == (buckets@[i as int].0@, buckets@[i as int].1@));
                            assert(crate::samples::key_fits_config(entry.0, config));
                            assert(prefix[j1] == cview[j1]);
                            assert(cview[j1] == (buckets@[j1].0@, buckets@[j1].1@));
                            assert(crate::samples::key_fits_config(cview[j1].0, config));
                            lemma_fits_same_scheme(entry.0, cview[j1].0, config);
                            assert(same_scheme(entry.0, catalog@[0].0));
                        }
                    }
                    let key = bucket.0.duplicate();
                    proof {
                        assert(key@ == entry.0);
                    }
                    catalog.insert(key, dict);
                    proof {
                        assert(catalog@ =~= spec_train(cview.take(i as int + 1), dict_size));
                    }
                },
                Err(_) => {
                    proof {
                        assert(spec_train_one(entry, dict_size) =~= Seq::<(
                            KeyView,
                            Seq<u8>,
                        )>::empty());
                        assert(catalog@ =~= spec_train(cview.take(i as int + 1), dict_size));
                    }
                },
            }
        } else {
            proof {
                assert(spec_train_one(entry, dict_size) =~= Seq::<(KeyView, Seq<u8>)>::empty());
                assert(catalog@ =~= spec_train(cview.take(i as int + 1), dict_size));
            }
        }
        i = i + 1;
    }
    proof {
        assert(cview.take(cview.len() as int) =~= cview);
    }
    let trained = catalog.len();
    (catalog, TrainingReport { trained, candidates })
}

} // verus!
