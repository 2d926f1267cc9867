use accountsdb_dictionary::bench::AccountRecord;
use accountsdb_dictionary::bench::BenchConfig;
use accountsdb_dictionary::bench::BenchHarness;
use accountsdb_dictionary::bench::RecordOutcome;
use accountsdb_dictionary::catalog::Catalog;
use accountsdb_dictionary::keys::KeyScheme;
use accountsdb_dictionary::keys::MaskCombine;
use accountsdb_dictionary::samples::CollectorConfig;
use accountsdb_dictionary::samples::SampleCollector;
use accountsdb_dictionary::trainer::train_dictionaries;

fn owner_with_first_byte(b: u8) -> [u8; 32] {
    let mut owner = [0u8; 32];
    owner[0] = b;
    owner
}

fn compressible_payload(len: usize, seed: u8) -> Vec<u8> {
    let mut data = Vec::with_capacity(len);
    while data.len() < len {
        data.extend_from_slice(b"ledger-entry:");
        data.push(seed);
        data.extend_from_slice(b";balance=0000000000;");
    }
    data.truncate(len);
    data
}

fn bench_config() -> BenchConfig {
    BenchConfig {
        min_payload_len: 64,
        lz4_speed: None,
        max_accounts: None,
        count_skipped_bytes: false,
    }
}

fn scratch() -> Vec<u8> {
    vec![0u8; 16 * 1024 * 1024]
}

/// Benchmarking 1,000 records with no catalog loaded uses no dictionary:
/// every non-skipped record takes the dictionary-less path.
#[test]
fn test_bench_no_catalog_thousand_records() {
    let mut harness = BenchHarness::new(Catalog::new(), bench_config());
    let mut records = Vec::new();
    for i in 0..1000usize {
        let len = if i % 10 == 0 { 32 } else { 200 };
        records.push(AccountRecord {
            owner: owner_with_first_byte((i % 256) as u8),
            data: compressible_payload(len, (i % 256) as u8),
        });
    }
    let mut buf = scratch();
    harness.run(&records, &mut buf).unwrap();
    let c = harness.counters();
    assert_eq!(c.total_records_scanned, 1000);
    assert_eq!(c.accounts_with_dict, 0);
    assert_eq!(c.skipped_below_minimum, 100);
    assert_eq!(c.accounts_without_dict, 1000 - c.skipped_below_minimum);
    // Counter balance: every scanned record is on exactly one path.
    assert_eq!(
        c.accounts_with_dict + c.accounts_without_dict + c.skipped_below_minimum,
        c.total_records_scanned
    );
    assert_eq!(c.compression_errors, 0);
    assert_eq!(c.decompression_errors, 0);
    // The codec really compressed: the payloads are repetitive.
    assert!(c.total_size_compressed < c.total_size_uncompressed);
    assert!(c.total_size_uncompressed > 0);
}

#[test]
fn test_bench_with_trained_dictionary() {
    let owner = owner_with_first_byte(0x55);
    let mut collector = SampleCollector::new(CollectorConfig {
        scheme: KeyScheme::BitMask { nb_bits: 0, combine: MaskCombine::Or },
        min_payload_len: 8,
        sample_count_cap: 10_000,
        byte_cap: 1 << 30,
        single_bucket: false,
        halt_when_full: false,
    });
    for i in 0..100usize {
        let data = compressible_payload(600 + (i % 7), (i % 5) as u8);
        collector.process_record(&owner, data.as_slice());
    }
    let (catalog, report) = train_dictionaries(collector, 1024);
    assert_eq!(report.trained, 1, "the sampled bucket must train");

    let mut harness = BenchHarness::new(catalog, bench_config());
    let mut records = Vec::new();
    for i in 0..50usize {
        records.push(AccountRecord {
            owner,
            data: compressible_payload(500, (i % 3) as u8),
        });
    }
    // A record of another owner has no dictionary.
    records.push(AccountRecord {
        owner: owner_with_first_byte(0x77),
        data: compressible_payload(500, 1),
    });
    let mut buf = scratch();
    harness.run(&records, &mut buf).unwrap();
    let c = harness.counters();
    assert_eq!(c.accounts_with_dict, 50);
    assert_eq!(c.accounts_without_dict, 1);
    assert_eq!(c.skipped_below_minimum, 0);
    assert_eq!(c.total_records_scanned, 51);
    assert_eq!(c.compression_errors, 0);
    assert_eq!(c.decompression_errors, 0);
    assert!(c.total_size_compressed < c.total_size_uncompressed);
}

#[test]
fn test_bench_fast_codec_path() {
    let mut config = bench_config();
    config.lz4_speed = Some(4);
    let mut harness = BenchHarness::new(Catalog::new(), config);
    let records = vec![
        AccountRecord { owner: owner_with_first_byte(1), data: compressible_payload(300, 1) },
        AccountRecord { owner: owner_with_first_byte(2), data: compressible_payload(300, 2) },
    ];
    let mut buf = scratch();
    harness.run(&records, &mut buf).unwrap();
    let c = harness.counters();
    assert_eq!(c.accounts_without_dict, 2);
    assert_eq!(c.compression_errors, 0);
    assert_eq!(c.decompression_errors, 0);
    assert!(c.total_size_compressed < c.total_size_uncompressed);
}

#[test]
fn test_bench_max_accounts_cap() {
    let mut config = bench_config();
    config.max_accounts = Some(10);
    let mut harness = BenchHarness::new(Catalog::new(), config);
    let mut records = Vec::new();
    for i in 0..100usize {
        records.push(AccountRecord {
            owner: owner_with_first_byte(i as u8),
            data: compressible_payload(200, i as u8),
        });
    }
    let mut buf = scratch();
    harness.run(&records, &mut buf).unwrap();
    let c = harness.counters();
    assert_eq!(c.total_records_scanned, 10);
}

#[test]
fn test_bench_compression_error_counted() {
    // A scratch buffer far below the worst case makes the block compressor
    // reject the record; the error is counted and the scan goes on.
    let mut harness = BenchHarness::new(Catalog::new(), bench_config());
    let record = AccountRecord {
        owner: owner_with_first_byte(1),
        data: compressible_payload(10_000, 1),
    };
    let mut tiny = vec![0u8; 4];
    let outcome = harness.process_record(&record.owner, &record.data, &mut tiny).unwrap();
    assert_eq!(outcome, RecordOutcome::CompressError);
    let c = harness.counters();
    assert_eq!(c.compression_errors, 1);
    assert_eq!(c.accounts_without_dict, 1);
    assert_eq!(c.total_size_compressed, 0);
    assert_eq!(c.total_size_uncompressed, 0);
}

#[test]
fn test_bench_skipped_bytes_pass_through() {
    let mut config = bench_config();
    config.count_skipped_bytes = true;
    let mut harness = BenchHarness::new(Catalog::new(), config);
    let record = AccountRecord { owner: owner_with_first_byte(1), data: vec![0u8; 10] };
    let mut buf = scratch();
    let outcome = harness.process_record(&record.owner, &record.data, &mut buf).unwrap();
    assert_eq!(outcome, RecordOutcome::Skipped);
    let c = harness.counters();
    assert_eq!(c.total_size_compressed, 10);
    assert_eq!(c.total_size_uncompressed, 10);
    assert_eq!(c.skipped_below_minimum, 1);
}

#[test]
fn test_bench_halted_outcome() {
    let mut config = bench_config();
    config.max_accounts = Some(0);
    let mut harness = BenchHarness::new(Catalog::new(), config);
    let record = AccountRecord { owner: owner_with_first_byte(1), data: vec![0u8; 100] };
    let mut buf = scratch();
    let outcome = harness.process_record(&record.owner, &record.data, &mut buf).unwrap();
    assert_eq!(outcome, RecordOutcome::Halted);
    assert_eq!(harness.counters().total_records_scanned, 0);
}
