use accountsdb_dictionary::bench::AccountRecord;
use accountsdb_dictionary::catalog::Catalog;
use accountsdb_dictionary::keys::BucketKey;
use accountsdb_dictionary::keys::KeyScheme;
use accountsdb_dictionary::keys::MaskCombine;
use accountsdb_dictionary::keys::PartialPubkeyByBits;
use accountsdb_dictionary::samples::CollectorConfig;
use accountsdb_dictionary::samples::SampleCollector;
use accountsdb_dictionary::trainer::train_dictionaries;

fn owner_with_first_byte(b: u8) -> [u8; 32] {
    let mut owner = [0u8; 32];
    owner[0] = b;
    owner
}

fn training_payload(i: usize) -> Vec<u8> {
    // Shared structure across samples, with per-sample variation, so that
    // dictionary training has something to learn.
    let mut data = Vec::with_capacity(2000);
    while data.len() < 2000 {
        data.extend_from_slice(b"account-record-header:");
        data.extend_from_slice(&(i as u32).to_le_bytes());
        data.extend_from_slice(b":lamports=000000042;owner=program;data=");
        data.push((data.len() % 256) as u8);
    }
    data.truncate(2000);
    data
}

fn collector_config() -> CollectorConfig {
    CollectorConfig {
        scheme: KeyScheme::BitMask { nb_bits: 0, combine: MaskCombine::Or },
        min_payload_len: 8,
        sample_count_cap: 10_000,
        byte_cap: 1 << 30,
        single_bucket: false,
        halt_when_full: false,
    }
}

fn bits_key(owner: &[u8; 32]) -> BucketKey {
    BucketKey::BitMask(PartialPubkeyByBits::new(owner, 0))
}

/// A bucket fed 40 payloads of 2,000 bytes trains a dictionary of at most
/// the 1,024-byte target; a bucket fed only 10 payloads yields no entry.
#[test]
fn test_trainer_minimum_samples_and_dictionary_size() {
    let owner_big = owner_with_first_byte(0x11);
    let owner_small = owner_with_first_byte(0x22);
    let mut collector = SampleCollector::new(collector_config());
    let mut records = Vec::new();
    for i in 0..40 {
        records.push(AccountRecord { owner: owner_big, data: training_payload(i) });
    }
    for i in 0..10 {
        records.push(AccountRecord { owner: owner_small, data: training_payload(i) });
    }
    collector.collect_records(&records);
    let (catalog, report) = train_dictionaries(collector, 1024);
    assert_eq!(report.candidates, 2);
    assert_eq!(report.trained, catalog.len());
    let dict = catalog
        .lookup(&bits_key(&owner_big))
        .expect("the 40-sample bucket must train a dictionary");
    assert!(!dict.is_empty());
    assert!(dict.len() <= 1024);
    assert!(catalog.lookup(&bits_key(&owner_small)).is_none());
}

#[test]
fn test_trainer_empty_collector() {
    let collector = SampleCollector::new(collector_config());
    let (catalog, report) = train_dictionaries(collector, 1024);
    assert_eq!(catalog.len(), 0);
    assert_eq!(report.candidates, 0);
    assert_eq!(report.trained, 0);
}

#[test]
fn test_trainer_exactly_at_threshold() {
    let owner = owner_with_first_byte(0x33);
    let mut collector = SampleCollector::new(collector_config());
    for i in 0..32 {
        let data = training_payload(i);
        collector.process_record(&owner, data.as_slice());
    }
    let (catalog, report) = train_dictionaries(collector, 2048);
    assert_eq!(report.candidates, 1);
    if let Some(dict) = catalog.lookup(&bits_key(&owner)) {
        assert!(dict.len() <= 2048);
        assert_eq!(report.trained, 1);
    } else {
        // Training may fail on a degenerate corpus; the bucket is then
        // excluded and the run continues.
        assert_eq!(report.trained, 0);
    }
}

#[test]
fn test_trained_catalog_persists() {
    let owner = owner_with_first_byte(0x44);
    let mut collector = SampleCollector::new(collector_config());
    for i in 0..64 {
        let data = training_payload(i);
        collector.process_record(&owner, data.as_slice());
    }
    let (catalog, _) = train_dictionaries(collector, 1024);
    let blob = catalog.save();
    let loaded = Catalog::load(blob.as_slice()).unwrap();
    assert_eq!(loaded.len(), catalog.len());
    if catalog.len() == 1 {
        let a = catalog.lookup(&bits_key(&owner)).unwrap();
        let b = loaded.lookup(&bits_key(&owner)).unwrap();
        assert_eq!(a, b);
    }
}
