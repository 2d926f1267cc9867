//! The compression benchmark harness.
//!
//! A second scan over the record sequence routes each record through the
//! catalog: records with a dictionary are compressed and decompressed with
//! the dictionary-seeded codec, the rest with one of two configurable plain
//! codecs. Every successful compression is decompressed again and compared
//! with the original payload; under the codecs' contracts that comparison
//! provably never fails, so the harness never returns its fatal
//! round-trip-mismatch error.

use vstd::prelude::*;

use crate::catalog::Catalog;
use crate::codec::alloc_bytes;
use crate::codec::lz4_block_compressed;
use crate::codec::lz4_compress_into;
use crate::codec::lz4_compress_into_with_dict;
use crate::codec::lz4_decompress_into;
use crate::codec::lz4_decompress_into_with_dict;
use crate::codec::lz4_dict_compressed;
use crate::codec::lz4_fast_compress;
use crate::codec::lz4_fast_compressed;
use crate::codec::lz4_fast_decompress;
use crate::codec::slices_eq;
use crate::codec::spec_fast_input_cap;
use crate::codec::spec_max_compressed_len;
use crate::keys::KeyScheme;
use crate::keys::KeyView;
use crate::keys::MaskCombine;
use crate::keys::assoc_lookup;
use crate::keys::derive_key;
use crate::keys::spec_derive_key;

verus! {

/// One account record: the 32-byte owner identifier and the payload.
pub struct AccountRecord {
    pub owner: [u8; 32],
    pub data: Vec<u8>,
}

/// Benchmark configuration.
pub struct BenchConfig {
    /// Payloads shorter than this skip all codec work.
    pub min_payload_len: usize,
    /// For records without a dictionary: compress with the
    /// speed-parameterized, size-prefixed codec at this speed instead of the
    /// plain block codec.
    pub lz4_speed: Option<i32>,
    /// Stop scanning after this many records.
    pub max_accounts: Option<u64>,
    /// Count skipped payloads as pass-through bytes in both byte totals.
    pub count_skipped_bytes: bool,
}

/// Cumulative benchmark counters; reset per run, never persisted.
#[derive(Clone, Copy, PartialEq, Eq, Structural, Debug)]
pub struct BenchCounters {
    pub total_size_compressed: u64,
    pub total_size_uncompressed: u64,
    pub accounts_with_dict: u64,
    pub accounts_without_dict: u64,
    pub skipped_below_minimum: u64,
    pub compression_errors: u64,
    pub decompression_errors: u64,
    pub time_compression_micros: u64,
    pub time_decompression_micros: u64,
    pub total_records_scanned: u64,
}

impl BenchCounters {
    /// Every scanned record is accounted for on exactly one path:
    /// with-dictionary, without-dictionary, or skipped below the minimum
    /// length; codec errors are counted within their path. The error counts
    /// never exceed the records that attempted codec work.
    pub open spec fn wf(&self) -> bool {
        &&& self.accounts_with_dict + self.accounts_without_dict + self.skipped_below_minimum
            == self.total_records_scanned
        &&& self.compression_errors <= self.accounts_with_dict + self.accounts_without_dict
        &&& self.decompression_errors <= self.accounts_with_dict + self.accounts_without_dict
    }

    /// The zeroed counter value.
    pub open spec fn spec_zeroed() -> BenchCounters {
        BenchCounters {
            total_size_compressed: 0,
            total_size_uncompressed: 0,
            accounts_with_dict: 0,
            accounts_without_dict: 0,
            skipped_below_minimum: 0,
            compression_errors: 0,
            decompression_errors: 0,
            time_compression_micros: 0,
            time_decompression_micros: 0,
            total_records_scanned: 0,
        }
    }

    /// Zeroed counters.
    pub fn new() -> (c: Self)
        ensures
            c == BenchCounters::spec_zeroed(),
            c.wf(),
    {
        BenchCounters {
            total_size_compressed: 0,
            total_size_uncompressed: 0,
            accounts_with_dict: 0,
            accounts_without_dict: 0,
            skipped_below_minimum: 0,
            compression_errors: 0,
            decompression_errors: 0,
            time_compression_micros: 0,
            time_decompression_micros: 0,
            total_records_scanned: 0,
        }
    }
}

/// Saturating 64-bit addition, for the byte and time totals.
pub open spec fn spec_sat_add(a: u64, b: u64) -> u64 {
    if a + b > u64::MAX {
        u64::MAX
    } else {
        (a + b) as u64
    }
}

fn sat_add(a: u64, b: u64) -> (r: u64)
    ensures
        r == spec_sat_add(a, b),
{
    if a > u64::MAX - b {
        u64::MAX
    } else {
        a + b
    }
}

/// Two counter values that agree on everything but the clock-dependent time
/// totals.
pub open spec fn counts_agree(a: BenchCounters, b: BenchCounters) -> bool {
    &&& a.total_size_compressed == b.total_size_compressed
    &&& a.total_size_uncompressed == b.total_size_uncompressed
    &&& a.accounts_with_dict == b.accounts_with_dict
    &&& a.accounts_without_dict == b.accounts_without_dict
    &&& a.skipped_below_minimum == b.skipped_below_minimum
    &&& a.compression_errors == b.compression_errors
    &&& a.decompression_errors == b.decompression_errors
    &&& a.total_records_scanned == b.total_records_scanned
}

/// Whether the configured account cap has been reached.
pub open spec fn spec_bench_halted(config: BenchConfig, c: BenchCounters) -> bool {
    match config.max_accounts {
        Option::Some(m) => c.total_records_scanned >= m,
        Option::None => false,
    }
}

/// The counters after one record, up to the clock-dependent time totals:
/// every path of the per-record state machine is deterministic in the
/// record, the catalog, the scheme and the scratch-buffer length, so the
/// next counter value is a function of them.
pub open spec fn spec_bench_step(
    config: BenchConfig,
    catalog: Seq<(KeyView, Seq<u8>)>,
    scheme: KeyScheme,
    scratch_len: nat,
    c: BenchCounters,
    owner: Seq<u8>,
    payload: Seq<u8>,
) -> BenchCounters {
    if spec_bench_halted(config, c) {
        c
    } else if payload.len() < config.min_payload_len {
        BenchCounters {
            total_records_scanned: (c.total_records_scanned + 1) as u64,
            skipped_below_minimum: (c.skipped_below_minimum + 1) as u64,
            total_size_uncompressed: if config.count_skipped_bytes {
                spec_sat_add(c.total_size_uncompressed, payload.len() as u64)
            } else {
                c.total_size_uncompressed
            },
            total_size_compressed: if config.count_skipped_bytes {
                spec_sat_add(c.total_size_compressed, payload.len() as u64)
            } else {
                c.total_size_compressed
            },
            ..c
        }
    } else {
        match assoc_lookup(catalog, spec_derive_key(scheme, owner)) {
            Option::Some(dict) => {
                if scratch_len >= spec_max_compressed_len(payload.len()) {
                    BenchCounters {
                        total_records_scanned: (c.total_records_scanned + 1) as u64,
                        accounts_with_dict: (c.accounts_with_dict + 1) as u64,
                        total_size_compressed: spec_sat_add(
                            c.total_size_compressed,
                            lz4_dict_compressed(payload, dict).len() as u64,
                        ),
                        total_size_uncompressed: spec_sat_add(
                            c.total_size_uncompressed,
                            payload.len() as u64,
                        ),
                        ..c
                    }
                } else {
                    BenchCounters {
                        total_records_scanned: (c.total_records_scanned + 1) as u64,
                        accounts_with_dict: (c.accounts_with_dict + 1) as u64,
                        compression_errors: (c.compression_errors + 1) as u64,
                        ..c
                    }
                }
            },
            Option::None => {
                match config.lz4_speed {
                    Option::Some(speed) => {
                        if payload.len() <= spec_fast_input_cap() {
                            BenchCounters {
                                total_records_scanned: (c.total_records_scanned + 1) as u64,
                                accounts_without_dict: (c.accounts_without_dict + 1) as u64,
                                total_size_compressed: spec_sat_add(
                                    c.total_size_compressed,
                                    lz4_fast_compressed(payload, speed).len() as u64,
                                ),
                                total_size_uncompressed: spec_sat_add(
                                    c.total_size_uncompressed,
                                    payload.len() as u64,
                                ),
                                ..c
                            }
                        } else {
                            BenchCounters {
                                total_records_scanned: (c.total_records_scanned + 1) as u64,
                                accounts_without_dict: (c.accounts_without_dict + 1) as u64,
                                compression_errors: (c.compression_errors + 1) as u64,
                                ..c
                            }
                        }
                    },
                    Option::None => {
                        if scratch_len >= spec_max_compressed_len(payload.len()) {
                            BenchCounters {
                                total_records_scanned: (c.total_records_scanned + 1) as u64,
                                accounts_without_dict: (c.accounts_without_dict + 1) as u64,
                                total_size_compressed: spec_sat_add(
                                    c.total_size_compressed,
                                    lz4_block_compressed(payload).len() as u64,
                                ),
                                total_size_uncompressed: spec_sat_add(
                                    c.total_size_uncompressed,
                                    payload.len() as u64,
                                ),
                                ..c
                            }
                        } else {
                            BenchCounters {
                                total_records_scanned: (c.total_records_scanned + 1) as u64,
                                accounts_without_dict: (c.accounts_without_dict + 1) as u64,
                                compression_errors: (c.compression_errors + 1) as u64,
                                ..c
                            }
                        }
                    },
                }
            },
        }
    }
}

/// The counters after scanning a record sequence in order: the per-record
/// step folded over the records. Once the account cap is reached the step
/// leaves the counters unchanged, so no separate stop case is needed.
pub open spec fn spec_bench_scan(
    config: BenchConfig,
    catalog: Seq<(KeyView, Seq<u8>)>,
    scheme: KeyScheme,
    scratch_len: nat,
    c: BenchCounters,
    records: Seq<AccountRecord>,
) -> BenchCounters
    decreases records.len(),
{
    if records.len() == 0 {
        c
    } else {
        spec_bench_scan(
            config,
            catalog,
            scheme,
            scratch_len,
            spec_bench_step(config, catalog, scheme, scratch_len, c, records.first().owner@, records.first().data@),
            records.drop_first(),
        )
    }
}

proof fn lemma_step_counts_agree(
    config: BenchConfig,
    catalog: Seq<(KeyView, Seq<u8>)>,
    scheme: KeyScheme,
    scratch_len: nat,
    a: BenchCounters,
    b: BenchCounters,
    owner: Seq<u8>,
    payload: Seq<u8>,
)
    requires
        counts_agree(a, b),
    ensures
        counts_agree(
            spec_bench_step(config, catalog, scheme, scratch_len, a, owner, payload),
            spec_bench_step(config, catalog, scheme, scratch_len, b, owner, payload),
        ),
{
}

proof fn lemma_scan_counts_agree(
    config: BenchConfig,
    catalog: Seq<(KeyView, Seq<u8>)>,
    scheme: KeyScheme,
    scratch_len: nat,
    a: BenchCounters,
    b: BenchCounters,
    records: Seq<AccountRecord>,
)
    requires
        counts_agree(a, b),
    ensures
        counts_agree(
            spec_bench_scan(config, catalog, scheme, scratch_len, a, records),
            spec_bench_scan(config, catalog, scheme, scratch_len, b, records),
        ),
    decreases records.len(),
{
    if records.len() > 0 {
        let r = records.first();
        lemma_step_counts_agree(config, catalog, scheme, scratch_len, a, b, r.owner@, r.data@);
        lemma_scan_counts_agree(
            config,
            catalog,
            scheme,
            scratch_len,
            spec_bench_step(config, catalog, scheme, scratch_len, a, r.owner@, r.data@),
            spec_bench_step(config, catalog, scheme, scratch_len, b, r.owner@, r.data@),
            records.drop_first(),
        );
    }
}

proof fn lemma_scan_halted(
    config: BenchConfig,
    catalog: Seq<(KeyView, Seq<u8>)>,
    scheme: KeyScheme,
    scratch_len: nat,
    c: BenchCounters,
    records: Seq<AccountRecord>,
)
    requires
        spec_bench_halted(config, c),
    ensures
        spec_bench_scan(config, catalog, scheme, scratch_len, c, records) == c,
    decreases records.len(),
{
    if records.len() > 0 {
        let r = records.first();
        assert(spec_bench_step(config, catalog, scheme, scratch_len, c, r.owner@, r.data@) == c);
        lemma_scan_halted(config, catalog, scheme, scratch_len, c, records.drop_first());
    }
}

/// What the harness did with one record.
#[derive(Clone, Copy, PartialEq, Eq, Structural, Debug)]
pub enum RecordOutcome {
    /// The configured account cap was already reached; nothing was done.
    Halted,
    /// Payload below the minimum length; no codec work.
    Skipped,
    /// Compressed and round-tripped with a dictionary.
    WithDict,
    /// Compressed and round-tripped without a dictionary.
    WithoutDict,
    /// The compressor rejected the record; it was abandoned and counted.
    CompressError,
    /// The decompressor rejected the record; it was abandoned and counted.
    DecompressError,
}

/// The one fatal benchmark error: decompressed bytes differing from the
/// original payload, which indicates codec or dictionary corruption and
/// aborts the run.
#[derive(Clone, Copy, PartialEq, Eq, Structural, Debug)]
pub enum BenchFatal {
    RoundTripMismatch,
}

#[verifier::external_type_specification]
#[verifier::external_body]
pub struct ExInstant(std::time::Instant);

/// Relies on std::time::Instant::now; nothing is assumed of the value.
#[verifier::external_body]
fn instant_now() -> std::time::Instant {
    std::time::Instant::now()
}

/// Relies on Instant::elapsed; the duration depends on the clock, so nothing
/// is assumed of it.
#[verifier::external_body]
fn elapsed_micros(start: &std::time::Instant) -> u64 {
    u64::try_from(start.elapsed().as_micros()).unwrap_or(u64::MAX)
}

/// The benchmark harness: the loaded catalog, the scheme derived from it,
/// the configuration, and the counters.
pub struct BenchHarness {
    config: BenchConfig,
    catalog: Catalog,
    scheme: KeyScheme,
    counters: BenchCounters,
}

impl BenchHarness {
    /// The catalog and the derived scheme are well formed.
    pub closed spec fn wf(&self) -> bool {
        self.catalog.wf() && self.scheme.wf()
    }

    /// The counters so far.
    pub closed spec fn spec_counters(&self) -> BenchCounters {
        self.counters
    }

    /// The configuration the harness was created with.
    pub closed spec fn spec_config(&self) -> BenchConfig {
        self.config
    }

    /// The loaded catalog's entries.
    pub closed spec fn spec_catalog(&self) -> Seq<(KeyView, Seq<u8>)> {
        self.catalog@
    }

    /// The key scheme in use: read off the catalog, or the zero-bit mask
    /// scheme when no catalog was loaded.
    pub closed spec fn spec_scheme(&self) -> KeyScheme {
        self.scheme
    }

    /// The counters so far, for reporting.
    pub fn counters(&self) -> (c: BenchCounters)
        ensures
            c == self.spec_counters(),
    {
        self.counters
    }

    /// Builds a harness over a loaded catalog, deriving the key scheme from
    /// the catalog itself; an empty catalog leaves every record on the
    /// dictionary-less path.
    pub fn new(catalog: Catalog, config: BenchConfig) -> (h: Self)
        requires
            catalog.wf(),
        ensures
            h.wf(),
            h.spec_catalog() == catalog@,
            h.spec_config() == config,
            h.spec_counters() == BenchCounters::spec_zeroed(),
            h.spec_counters().wf(),
            catalog@.len() > 0 ==> h.spec_scheme() == crate::catalog::spec_scheme_of_key(
                catalog@[0].0,
            ),
            catalog@.len() == 0 ==> h.spec_scheme() == (KeyScheme::BitMask {
                nb_bits: 0,
                combine: MaskCombine::Or,
            }),
    {
        let scheme = match catalog.scheme() {
            Some(s) => s,
            None => KeyScheme::BitMask { nb_bits: 0, combine: MaskCombine::Or },
        };
        BenchHarness { config, catalog, scheme, counters: BenchCounters::new() }
    }

    /// Routes one record through the benchmark state machine.
    ///
    /// The outcome and the counter changes are pinned down case by case
    /// below, and apart from the time totals the new counters are exactly
    /// `spec_bench_step` of the old ones; in particular the fatal round-trip
    /// mismatch is never returned and the decompression-error count never
    /// moves, because under the codec contracts decompressing what was just
    /// compressed always restores the payload.
    pub fn process_record(&mut self, owner: &[u8; 32], payload: &Vec<u8>, scratch: &mut Vec<u8>) -> (r:
        Result<RecordOutcome, BenchFatal>)
        requires
            old(self).wf(),
            old(self).spec_counters().wf(),
            old(self).spec_counters().total_records_scanned < u64::MAX,
        ensures
            r is Ok,
            final(self).wf(),
            final(self).spec_counters().wf(),
            final(self).spec_config() == old(self).spec_config(),
            final(self).spec_catalog() == old(self).spec_catalog(),
            final(self).spec_scheme() == old(self).spec_scheme(),
            final(scratch)@.len() == old(scratch)@.len(),
            counts_agree(
                final(self).spec_counters(),
                spec_bench_step(
                    old(self).spec_config(),
                    old(self).spec_catalog(),
                    old(self).spec_scheme(),
                    old(scratch)@.len() as nat,
                    old(self).spec_counters(),
                    owner@,
                    payload@,
                ),
            ),
            ({
                let c0 = old(self).spec_counters();
                let c1 = final(self).spec_counters();
                let config = old(self).spec_config();
                let out = r.unwrap();
                &&& c1.time_compression_micros >= c0.time_compression_micros
                &&& c1.time_decompression_micros >= c0.time_decompression_micros
                &&& c1.decompression_errors == c0.decompression_errors
                &&& (out == RecordOutcome::Halted <==> (config.max_accounts matches Option::Some(m)
                    && c0.total_records_scanned >= m))
                &&& (out == RecordOutcome::Halted ==> c1 == c0)
                &&& (out != RecordOutcome::Halted ==> c1.total_records_scanned
                    == c0.total_records_scanned + 1)
                &&& (out == RecordOutcome::Skipped <==> out != RecordOutcome::Halted
                    && payload@.len() < config.min_payload_len)
                &&& (out == RecordOutcome::Skipped ==> {
                    &&& c1.skipped_below_minimum == c0.skipped_below_minimum + 1
                    &&& c1.accounts_with_dict == c0.accounts_with_dict
                    &&& c1.accounts_without_dict == c0.accounts_without_dict
                    &&& c1.compression_errors == c0.compression_errors
                    &&& c1.time_compression_micros == c0.time_compression_micros
                    &&& c1.time_decompression_micros == c0.time_decompression_micros
                    &&& (config.count_skipped_bytes ==> c1.total_size_uncompressed == spec_sat_add(
                        c0.total_size_uncompressed,
                        payload@.len() as u64,
                    ) && c1.total_size_compressed == spec_sat_add(
                        c0.total_size_compressed,
                        payload@.len() as u64,
                    ))
                    &&& (!config.count_skipped_bytes ==> c1.total_size_uncompressed
                        == c0.total_size_uncompressed && c1.total_size_compressed
                        == c0.total_size_compressed)
                })
                &&& (out != RecordOutcome::Halted && out != RecordOutcome::Skipped ==> {
                    let key = spec_derive_key(old(self).spec_scheme(), owner@);
                    &&& c1.skipped_below_minimum == c0.skipped_below_minimum
                    &&& match assoc_lookup(old(self).spec_catalog(), key) {
                        Option::Some(dict) => {
                            &&& (out == RecordOutcome::WithDict || out
                                == RecordOutcome::CompressError)
                            &&& c1.accounts_with_dict == c0.accounts_with_dict + 1
                            &&& c1.accounts_without_dict == c0.accounts_without_dict
                            &&& (out == RecordOutcome::WithDict ==> {
                                &&& c1.compression_errors == c0.compression_errors
                                &&& c1.total_size_compressed == spec_sat_add(
                                    c0.total_size_compressed,
                                    lz4_dict_compressed(payload@, dict).len() as u64,
                                )
                                &&& c1.total_size_uncompressed == spec_sat_add(
                                    c0.total_size_uncompressed,
                                    payload@.len() as u64,
                                )
                            })
                            &&& (out == RecordOutcome::CompressError <==> old(scratch)@.len()
                                < spec_max_compressed_len(payload@.len()))
                            &&& (out == RecordOutcome::CompressError ==> {
                                &&& c1.compression_errors == c0.compression_errors + 1
                                &&& c1.total_size_compressed == c0.total_size_compressed
                                &&& c1.total_size_uncompressed == c0.total_size_uncompressed
                            })
                        },
                        Option::None => {
                            &&& (out == RecordOutcome::WithoutDict || out
                                == RecordOutcome::CompressError)
                            &&& c1.accounts_with_dict == c0.accounts_with_dict
                            &&& c1.accounts_without_dict == c0.accounts_without_dict + 1
                            &&& match config.lz4_speed {
                                Option::Some(speed) => {
                                    &&& (out == RecordOutcome::WithoutDict ==> {
                                        &&& c1.compression_errors == c0.compression_errors
                                        &&& c1.total_size_compressed == spec_sat_add(
                                            c0.total_size_compressed,
                                            lz4_fast_compressed(payload@, speed).len() as u64,
                                        )
                                        &&& c1.total_size_uncompressed == spec_sat_add(
                                            c0.total_size_uncompressed,
                                            payload@.len() as u64,
                                        )
                                    })
                                    &&& (out == RecordOutcome::CompressError <==> payload@.len()
                                        > spec_fast_input_cap())
                                    &&& (out == RecordOutcome::CompressError ==> {
                                        &&& c1.compression_errors == c0.compression_errors + 1
                                        &&& c1.total_size_compressed == c0.total_size_compressed
                                        &&& c1.total_size_uncompressed
                                            == c0.total_size_uncompressed
                                    })
                                },
                                Option::None => {
                                    &&& (out == RecordOutcome::WithoutDict ==> {
                                        &&& c1.compression_errors == c0.compression_errors
                                        &&& c1.total_size_compressed == spec_sat_add(
                                            c0.total_size_compressed,
                                            lz4_block_compressed(payload@).len() as u64,
                                        )
                                        &&& c1.total_size_uncompressed == spec_sat_add(
                                            c0.total_size_uncompressed,
                                            payload@.len() as u64,
                                        )
                                    })
                                    &&& (out == RecordOutcome::CompressError <==> old(
                                        scratch,
                                    )@.len() < spec_max_compressed_len(payload@.len()))
                                    &&& (out == RecordOutcome::CompressError ==> {
                                        &&& c1.compression_errors == c0.compression_errors + 1
                                        &&& c1.total_size_compressed == c0.total_size_compressed
                                        &&& c1.total_size_uncompressed
                                            == c0.total_size_uncompressed
                                    })
                                },
                            }
                        },
                    }
                })
            }),
    {
        match self.config.max_accounts {
            Some(m) => {
                if self.counters.total_records_scanned >= m {
                    return Ok(RecordOutcome::Halted);
                }
            },
            None => {},
        }
        self.counters.total_records_scanned = self.counters.total_records_scanned + 1;
        if payload.len() < self.config.min_payload_len {
            self.counters.skipped_below_minimum = self.counters.skipped_below_minimum + 1;
            if self.config.count_skipped_bytes {
                self.counters.total_size_uncompressed = sat_add(
                    self.counters.total_size_uncompressed,
                    payload.len() as u64,
                );
                self.counters.total_size_compressed = sat_add(
                    self.counters.total_size_compressed,
                    payload.len() as u64,
                );
            }
            return Ok(RecordOutcome::Skipped);
        }
        let key = derive_key(&self.scheme, owner);
        match self.catalog.lookup(&key) {
            Some(dict) => {
                self.counters.accounts_with_dict = self.counters.accounts_with_dict + 1;
                let t0 = instant_now();
                match lz4_compress_into_with_dict(payload.as_slice(), scratch, dict.as_slice()) {
                    Ok(n) => {
                        let elapsed = elapsed_micros(&t0);
                        self.counters.time_compression_micros = sat_add(
                            self.counters.time_compression_micros,
                            elapsed,
                        );
                        self.counters.total_size_compressed = sat_add(
                            self.counters.total_size_compressed,
                            n as u64,
                        );
                        self.counters.total_size_uncompressed = sat_add(
                            self.counters.total_size_uncompressed,
                            payload.len() as u64,
                        );
                        let compressed = vstd::slice::slice_to_vec(
                            vstd::slice::slice_subrange(scratch.as_slice(), 0, n),
                        );
                        let mut out = alloc_bytes(payload.len());
                        let t1 = instant_now();
                        match lz4_decompress_into_with_dict(
                            compressed.as_slice(),
                            &mut out,
                            dict.as_slice(),
                        ) {
                            Ok(m) => {
                                let elapsed2 = elapsed_micros(&t1);
                                self.counters.time_decompression_micros = sat_add(
                                    self.counters.time_decompression_micros,
                                    elapsed2,
                                );
                                out.truncate(m);
                                if !slices_eq(out.as_slice(), payload.as_slice()) {
                                    return Err(BenchFatal::RoundTripMismatch);
                                }
                                Ok(RecordOutcome::WithDict)
                            },
                            Err(_) => {
                                self.counters.decompression_errors = self.counters.decompression_errors
                                    + 1;
                                Ok(RecordOutcome::DecompressError)
                            },
                        }
                    },
                    Err(_) => {
                        self.counters.compression_errors = self.counters.compression_errors + 1;
                        Ok(RecordOutcome::CompressError)
                    },
                }
            },
            None => {
                self.counters.accounts_without_dict = self.counters.accounts_without_dict + 1;
                match self.config.lz4_speed {
                    Some(speed) => {
                        let t0 = instant_now();
                        match lz4_fast_compress(payload.as_slice(), speed) {
                            Ok(compressed) => {
                                let elapsed = elapsed_micros(&t0);
                                self.counters.time_compression_micros = sat_add(
                                    self.counters.time_compression_micros,
                                    elapsed,
                                );
                                self.counters.total_size_compressed = sat_add(
                                    self.counters.total_size_compressed,
                                    compressed.len() as u64,
                                );
                                self.counters.total_size_uncompressed = sat_add(
                                    self.counters.total_size_uncompressed,
                                    payload.len() as u64,
                                );
                                let t1 = instant_now();
                                match lz4_fast_decompress(compressed.as_slice()) {
                                    Ok(decompressed) => {
                                        let elapsed2 = elapsed_micros(&t1);
                                        self.counters.time_decompression_micros = sat_add(
                                            self.counters.time_decompression_micros,
                                            elapsed2,
                                        );
                                        if !slices_eq(
                                            decompressed.as_slice(),
                                            payload.as_slice(),
                                        ) {
                                            return Err(BenchFatal::RoundTripMismatch);
                                        }
                                        Ok(RecordOutcome::WithoutDict)
                                    },
                                    Err(_) => {
                                        self.counters.decompression_errors = self.counters.decompression_errors
                                            + 1;
                                        Ok(RecordOutcome::DecompressError)
                                    },
                                }
                            },
                            Err(_) => {
                                self.counters.compression_errors = self.counters.compression_errors
                                    + 1;
                                Ok(RecordOutcome::CompressError)
                            },
                        }
                    },
                    None => {
                        let t0 = instant_now();
                        match lz4_compress_into(payload.as_slice(), scratch) {
                            Ok(n) => {
                                let elapsed = elapsed_micros(&t0);
                                self.counters.time_compression_micros = sat_add(
                                    self.counters.time_compression_micros,
                                    elapsed,
                                );
                                self.counters.total_size_compressed = sat_add(
                                    self.counters.total_size_compressed,
                                    n as u64,
                                );
                                self.counters.total_size_uncompressed = sat_add(
                                    self.counters.total_size_uncompressed,
                                    payload.len() as u64,
                                );
                                let compressed = vstd::slice::slice_to_vec(
                                    vstd::slice::slice_subrange(scratch.as_slice(), 0, n),
                                );
                                let mut out = alloc_bytes(payload.len());
                                let t1 = instant_now();
                                match lz4_decompress_into(compressed.as_slice(), &mut out) {
                                    Ok(m) => {
                                        let elapsed2 = elapsed_micros(&t1);
                                        self.counters.time_decompression_micros = sat_add(
                                            self.counters.time_decompression_micros,
                                            elapsed2,
                                        );
                                        out.truncate(m);
                                        if !slices_eq(out.as_slice(), payload.as_slice()) {
                                            return Err(BenchFatal::RoundTripMismatch);
                                        }
                                        Ok(RecordOutcome::WithoutDict)
                                    },
                                    Err(_) => {
                                        self.counters.decompression_errors = self.counters.decompression_errors
                                            + 1;
                                        Ok(RecordOutcome::DecompressError)
                                    },
                                }
                            },
                            Err(_) => {
                                self.counters.compression_errors = self.counters.compression_errors
                                    + 1;
                                Ok(RecordOutcome::CompressError)
                            },
                        }
                    },
                }
            },
        }
    }

    /// Scans a sequence of records, stopping early only at the configured
    /// account cap. Apart from the clock-dependent time totals, the final
    /// counters are exactly `spec_bench_scan` folded over the records handed
    /// in: without a cap every record is scanned, with a cap exactly up to
    /// the cap, and with no catalog loaded no record ever takes the
    /// dictionary path.
    pub fn run(&mut self, records: &Vec<AccountRecord>, scratch: &mut Vec<u8>) -> (r: Result<
        (),
        BenchFatal,
    >)
        requires
            old(self).wf(),
            old(self).spec_counters().wf(),
            old(self).spec_counters().total_records_scanned + records@.len() <= u64::MAX,
        ensures
            r is Ok,
            final(self).wf(),
            final(self).spec_counters().wf(),
            final(self).spec_config() == old(self).spec_config(),
            final(self).spec_catalog() == old(self).spec_catalog(),
            final(self).spec_scheme() == old(self).spec_scheme(),
            final(scratch)@.len() == old(scratch)@.len(),
            counts_agree(
                final(self).spec_counters(),
                spec_bench_scan(
                    old(self).spec_config(),
                    old(self).spec_catalog(),
                    old(self).spec_scheme(),
                    old(scratch)@.len() as nat,
                    old(self).spec_counters(),
                    records@,
                ),
            ),
            final(self).spec_counters().time_compression_micros >= old(
                self,
            ).spec_counters().time_compression_micros,
            final(self).spec_counters().time_decompression_micros >= old(
                self,
            ).spec_counters().time_decompression_micros,
            old(self).spec_config().max_accounts is None
                ==> final(self).spec_counters().total_records_scanned == old(
                self,
            ).spec_counters().total_records_scanned + records@.len(),
            ({
                let c0 = old(self).spec_counters().total_records_scanned;
                match old(self).spec_config().max_accounts {
                    Option::Some(m) => final(self).spec_counters().total_records_scanned == (
                    if c0 >= m {
                        c0
                    } else if c0 + records@.len() <= m {
                        (c0 + records@.len()) as u64
                    } else {
                        m
                    }),
                    Option::None => true,
                }
            }),
            old(self).spec_catalog().len() == 0 ==> final(self).spec_counters().accounts_with_dict
                == old(self).spec_counters().accounts_with_dict,
    {
        let ghost config = self.spec_config();
        let ghost catalog_v = self.spec_catalog();
        let ghost scheme_v = self.spec_scheme();
        let ghost slen = scratch@.len() as nat;
        let ghost c0 = self.spec_counters();
        proof {
            assert(records@.skip(0) =~= records@);
        }
        let mut i: usize = 0;
        while i < records.len()
            invariant
                self.wf(),
                self.spec_counters().wf(),
                config == old(self).spec_config(),
                catalog_v == old(self).spec_catalog(),
                scheme_v == old(self).spec_scheme(),
                c0 == old(self).spec_counters(),
                slen == old(scratch)@.len(),
                self.spec_config() == config,
                self.spec_catalog() == catalog_v,
                self.spec_scheme() == scheme_v,
                scratch@.len() == old(scratch)@.len(),
                i <= records@.len(),
                c0.total_records_scanned + records@.len() <= u64::MAX,
                self.spec_counters().total_records_scanned <= c0.total_records_scanned + i,
                counts_agree(
                    spec_bench_scan(
                        config,
                        catalog_v,
                        scheme_v,
                        slen,
                        self.spec_counters(),
                        records@.skip(i as int),
                    ),
                    spec_bench_scan(config, catalog_v, scheme_v, slen, c0, records@),
                ),
                self.spec_counters().time_compression_micros >= c0.time_compression_micros,
                self.spec_counters().time_decompression_micros >= c0.time_decompression_micros,
                config.max_accounts is None ==> self.spec_counters().total_records_scanned
                    == c0.total_records_scanned + i,
                ({
                    let n0 = c0.total_records_scanned;
                    match config.max_accounts {
                        Option::Some(m) => self.spec_counters().total_records_scanned == (
                        if n0 >= m {
                            n0
                        } else if n0 + i <= m {
                            (n0 + i) as u64
                        } else {
                            m
                        }),
                        Option::None => true,
                    }
                }),
                catalog_v.len() == 0 ==> self.spec_counters().accounts_with_dict
                    == c0.accounts_with_dict,
            decreases records@.len() - i,
        {
            let ghost pre = self.spec_counters();
            let ghost suffix = records@.skip(i as int);
            proof {
                assert(suffix.first() == records@[i as int]);
                assert(suffix.drop_first() =~= records@.skip(i as int + 1));
                if self.spec_catalog().len() == 0 {
                    crate::keys::lemma_assoc_lookup_distinct(
                        self.spec_catalog(),
                        spec_derive_key(self.spec_scheme(), records@[i as int].owner@),
                    );
                }
            }
            let record = &records[i];
            let outcome = self.process_record(&record.owner, &record.data, scratch);
            proof {
                let owner_v = records@[i as int].owner@;
                let payload_v = records@[i as int].data@;
                let stepped = spec_bench_step(config, catalog_v, scheme_v, slen, pre, owner_v, payload_v);
                assert(counts_agree(self.spec_counters(), stepped));
                assert(spec_bench_scan(config, catalog_v, scheme_v, slen, pre, suffix)
                    == spec_bench_scan(
                    config,
                    catalog_v,
                    scheme_v,
                    slen,
                    stepped,
                    records@.skip(i as int + 1),
                ));
                lemma_scan_counts_agree(
                    config,
                    catalog_v,
                    scheme_v,
                    slen,
                    self.spec_counters(),
                    stepped,
                    records@.skip(i as int + 1),
                );
                if outcome == Result::<RecordOutcome, BenchFatal>::Ok(RecordOutcome::Halted) {
                    assert(spec_bench_halted(config, self.spec_counters()));
                    lemma_scan_halted(
                        config,
                        catalog_v,
                        scheme_v,
                        slen,
                        self.spec_counters(),
                        records@.skip(i as int),
                    );
                }
            }
            match outcome {
                Ok(RecordOutcome::Halted) => {
                    return Ok(());
                },
                Ok(_) => {},
                Err(e) => {
                    return Err(e);
                },
            }
            i = i + 1;
        }
        proof {
            assert(records@.skip(records@.len() as int) =~= Seq::<AccountRecord>::empty());
        }
        Ok(())
    }
}

} // verus!
