use accountsdb_dictionary::bench::AccountRecord;
use accountsdb_dictionary::keys::KeyScheme;
use accountsdb_dictionary::keys::MaskCombine;
use accountsdb_dictionary::samples::CollectOutcome;
use accountsdb_dictionary::samples::CollectorConfig;
use accountsdb_dictionary::samples::SampleCollector;
use accountsdb_dictionary::samples::Samples;

fn owner_with_first_byte(b: u8) -> [u8; 32] {
    let mut owner = [0u8; 32];
    owner[0] = b;
    owner
}

fn bit_mask_config(sample_count_cap: usize, byte_cap: usize) -> CollectorConfig {
    CollectorConfig {
        scheme: KeyScheme::BitMask { nb_bits: 0, combine: MaskCombine::Or },
        min_payload_len: 8,
        sample_count_cap,
        byte_cap,
        single_bucket: false,
        halt_when_full: false,
    }
}

#[test]
fn test_samples_accumulator() {
    let mut s = Samples::new(&[1, 2, 3]);
    assert_eq!(s.samples, vec![1, 2, 3]);
    assert_eq!(s.sizes, vec![3]);
    assert_eq!(s.total_size, 3);
    s.add(&[4, 5]);
    assert_eq!(s.samples, vec![1, 2, 3, 4, 5]);
    assert_eq!(s.sizes, vec![3, 2]);
    assert_eq!(s.total_size, 5);
}

#[test]
fn test_collector_skips_zero_owner_and_short_payloads() {
    let mut collector = SampleCollector::new(bit_mask_config(10, 1000));
    let zero_owner = [0u8; 32];
    let owner = owner_with_first_byte(1);
    assert_eq!(collector.process_record(&zero_owner, &[9u8; 100]), CollectOutcome::Skipped);
    assert_eq!(collector.process_record(&owner, &[9u8; 7]), CollectOutcome::Skipped);
    assert_eq!(collector.process_record(&owner, &[9u8; 8]), CollectOutcome::Seeded);
    let buckets = collector.into_buckets();
    assert_eq!(buckets.len(), 1);
    assert_eq!(buckets[0].1.sizes, vec![8]);
}

#[test]
fn test_collector_caps_always_hold() {
    // Count cap 3 and byte cap 100: whatever sequence of records arrives,
    // no bucket exceeds either cap.
    let mut collector = SampleCollector::new(bit_mask_config(3, 100));
    let owner = owner_with_first_byte(2);
    assert_eq!(collector.process_record(&owner, &[1u8; 30]), CollectOutcome::Seeded);
    assert_eq!(collector.process_record(&owner, &[2u8; 30]), CollectOutcome::Appended);
    assert_eq!(collector.process_record(&owner, &[3u8; 50]), CollectOutcome::CapSkipped);
    assert_eq!(collector.process_record(&owner, &[4u8; 30]), CollectOutcome::Appended);
    assert_eq!(collector.process_record(&owner, &[5u8; 30]), CollectOutcome::CapSkipped);
    let buckets = collector.into_buckets();
    assert_eq!(buckets.len(), 1);
    let samples = &buckets[0].1;
    assert!(samples.sizes.len() <= 3);
    assert!(samples.samples.len() <= 100);
    assert_eq!(samples.sizes, vec![30, 30, 30]);
}

#[test]
fn test_collector_count_cap_reached() {
    let mut collector = SampleCollector::new(bit_mask_config(2, 1_000_000));
    let owner = owner_with_first_byte(3);
    assert_eq!(collector.process_record(&owner, &[0u8; 10]), CollectOutcome::Seeded);
    assert_eq!(collector.process_record(&owner, &[0u8; 10]), CollectOutcome::Appended);
    assert_eq!(collector.process_record(&owner, &[0u8; 10]), CollectOutcome::CapSkipped);
    let buckets = collector.into_buckets();
    assert_eq!(buckets[0].1.sizes.len(), 2);
}

#[test]
fn test_collector_routes_by_bucket_key() {
    let mut collector = SampleCollector::new(bit_mask_config(10, 1000));
    let owner_a = owner_with_first_byte(0x10);
    let owner_b = owner_with_first_byte(0x20);
    collector.process_record(&owner_a, &[1u8; 16]);
    collector.process_record(&owner_b, &[2u8; 16]);
    collector.process_record(&owner_a, &[3u8; 16]);
    let buckets = collector.into_buckets();
    assert_eq!(buckets.len(), 2);
    let counts: Vec<usize> = buckets.iter().map(|b| b.1.sizes.len()).collect();
    assert!(counts.contains(&2));
    assert!(counts.contains(&1));
}

#[test]
fn test_collector_single_bucket_halts_when_full() {
    let config = CollectorConfig {
        scheme: KeyScheme::BitMask { nb_bits: 0, combine: MaskCombine::Or },
        min_payload_len: 8,
        sample_count_cap: 2,
        byte_cap: 1_000_000,
        single_bucket: true,
        halt_when_full: true,
    };
    let mut collector = SampleCollector::new(config);
    let owner_a = owner_with_first_byte(0x10);
    let owner_b = owner_with_first_byte(0x20);
    assert_eq!(collector.process_record(&owner_a, &[1u8; 16]), CollectOutcome::Seeded);
    // A different owner still lands in the one shared bucket.
    assert_eq!(collector.process_record(&owner_b, &[2u8; 16]), CollectOutcome::Appended);
    assert_eq!(collector.process_record(&owner_a, &[3u8; 16]), CollectOutcome::Halted);
    let buckets = collector.into_buckets();
    assert_eq!(buckets.len(), 1);
}

#[test]
fn test_collect_records_scan() {
    let mut collector = SampleCollector::new(bit_mask_config(10, 1000));
    let mut records = Vec::new();
    for i in 0..5u8 {
        records.push(AccountRecord { owner: owner_with_first_byte(1), data: vec![i; 20] });
    }
    let halted = collector.collect_records(&records);
    assert!(!halted);
    let buckets = collector.into_buckets();
    assert_eq!(buckets.len(), 1);
    assert_eq!(buckets[0].1.sizes.len(), 5);
    assert_eq!(buckets[0].1.total_size, 100);
}
