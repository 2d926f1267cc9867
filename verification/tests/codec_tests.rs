use accountsdb_dictionary::codec::block_round_trip;
use accountsdb_dictionary::codec::dict_round_trip;
use accountsdb_dictionary::codec::fast_round_trip;

fn structured_payload(len: usize, seed: u8) -> Vec<u8> {
    let mut data = Vec::with_capacity(len);
    for i in 0..len {
        let b = match i % 4 {
            0 => seed,
            1 => (i / 64) as u8,
            2 => 0x5A,
            _ => (i % 251) as u8,
        };
        data.push(b);
    }
    data
}

fn scratch_for(len: usize) -> Vec<u8> {
    vec![0u8; 20 + len + len / 2]
}

fn sample_dictionary() -> Vec<u8> {
    structured_payload(4096, 0x42)
}

#[test]
fn test_dict_round_trip_small_and_large() {
    let dict = sample_dictionary();
    for &len in &[1usize, 2, 13, 64, 1024, 64 * 1024, 4 * 1024 * 1024] {
        let payload = structured_payload(len, 7);
        let mut scratch = scratch_for(len);
        let back = dict_round_trip(payload.as_slice(), dict.as_slice(), &mut scratch)
            .expect("round trip with dictionary must succeed");
        assert_eq!(back, payload);
    }
}

#[test]
fn test_dict_round_trip_tiny_dictionary() {
    // A dictionary below the codec's minimum match length falls back to
    // dictionary-less compression and must still round-trip.
    let payload = structured_payload(500, 9);
    let mut scratch = scratch_for(500);
    let back = dict_round_trip(payload.as_slice(), &[1, 2], &mut scratch).unwrap();
    assert_eq!(back, payload);
}

#[test]
fn test_block_round_trip() {
    for &len in &[1usize, 100, 4096, 2 * 1024 * 1024] {
        let payload = structured_payload(len, 3);
        let mut scratch = scratch_for(len);
        let back = block_round_trip(payload.as_slice(), &mut scratch)
            .expect("plain block round trip must succeed");
        assert_eq!(back, payload);
    }
}

#[test]
fn test_block_round_trip_fails_without_buffer() {
    let payload = structured_payload(10_000, 3);
    let mut scratch = vec![0u8; 4];
    assert!(block_round_trip(payload.as_slice(), &mut scratch).is_none());
}

#[test]
fn test_fast_round_trip() {
    for &speed in &[1i32, 4, 17] {
        for &len in &[1usize, 100, 4096, 2 * 1024 * 1024] {
            let payload = structured_payload(len, 5);
            let back = fast_round_trip(payload.as_slice(), speed)
                .expect("speed codec round trip must succeed");
            assert_eq!(back, payload);
        }
    }
}
