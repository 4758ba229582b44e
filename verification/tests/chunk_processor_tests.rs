use std::collections::HashMap;
use std::str;

use chunkdiff::calculate_delta;
use chunkdiff::chunk_processor::ChecksumProducer;
use chunkdiff::chunk_processor::ChunkProcessor;
use chunkdiff::chunk_processor::IndexedChecksumProducer;
use chunkdiff::types::DeltaStore;

fn check_delta_match(delta: DeltaStore, expected_delta: HashMap<usize, Vec<u8>>) {
    for (index, lit) in &expected_delta {
        assert!(delta.contains_key(index));

        let res = delta.get(index).unwrap();
        // For better debug visibility converted to string
        assert_eq!(
            str::from_utf8(&res.buf).unwrap(),
            str::from_utf8(lit).unwrap()
        );
    }
}

#[test]
fn test_index_creation() {
    let message = "hello world I am testing index creation"
        .as_bytes()
        .to_vec();

    let chunk_processor = ChunkProcessor::new(4);

    let checksum = chunk_processor.produce_checksum(message).unwrap();
    let indexed_checksum = checksum.produce_indexed_checksum().data;

    for (i, chunk_checksum) in checksum.data.iter().enumerate() {
        assert!(indexed_checksum.contains_key(&chunk_checksum.ad32));

        let (hash, index) = Some(
            indexed_checksum
                .get_vec(&chunk_checksum.ad32)
                .unwrap()
                .iter()
                .filter(|(hash, _)| *hash == chunk_checksum.hash)
                .collect::<Vec<&([u8; 32], usize)>>(),
        )
        .filter(|vec| vec.len() == 1)
        .map(|vec| (&vec[0].0, vec[0].1))
        .unwrap();

        assert_eq!(index, i);
        assert_eq!(*hash, chunk_checksum.hash);
    }
}

#[test]
fn test_chunk_change() {
    let original =
        "i am here guys how are you doing this is a small test for chunk split and rolling hash"
            .as_bytes()
            .to_vec();

    let new_data = "i here guys how are you doing this is a mall test chunk split and rolling hash"
        .as_bytes()
        .to_vec();

    let expected_delta = HashMap::from([
        (1, "i here guys h".as_bytes().to_vec()), // Match first chunk change,
        (4, " this is a mall test chunk ".as_bytes().to_vec()), // Match chunk 4 changed
    ]);

    let delta = calculate_delta(original, new_data, 16).unwrap();
    check_delta_match(delta, expected_delta);
}

#[test]
fn test_chunk_added() {
    let original =
        "i am here guys how are you doing this is a small test for chunk split and rolling hash"
            .as_bytes()
            .to_vec();

    let new_data = "i am here guys how are you doingadded this is a small test for chunk split and rolling hash"
        .as_bytes()
        .to_vec();

    let expected_delta = HashMap::from([
        (2, "added".as_bytes().to_vec()), // Match chunks 2 changed,
    ]);

    let delta = calculate_delta(original, new_data, 16).unwrap();
    check_delta_match(delta, expected_delta);
}

#[test]
fn test_chunk_removed() {
    let original =
        "i am here guys how are you doing this is a small test for chunk split and rolling hash"
            .as_bytes()
            .to_vec();

    let new_data = "ow are you doing this is a small split and rolling hash"
        .as_bytes()
        .to_vec();

    let delta = calculate_delta(original, new_data, 16).unwrap();

    let chunk_first = delta.get(&0);
    let chunk_third = delta.get(&3);

    assert!(chunk_first.is_some());
    assert!(chunk_third.is_some());

    let chunk_first = chunk_first.unwrap();
    let chunk_third = chunk_third.unwrap();

    assert_eq!(chunk_first.is_mising, true);
    assert_eq!(chunk_third.is_mising, true);

    assert_eq!(chunk_first.start, 0);
    assert_eq!(chunk_first.offset, 16);

    assert_eq!(chunk_third.start, 48);
    assert_eq!(chunk_third.offset, 64);
}

#[test]
fn test_chunk_shifted() {
    let original =
        "i am here guys how are you doing this is a small test for chunk split and rolling hash"
            .as_bytes()
            .to_vec();

    let new_data = "i am here guys   how are you doing    test for chunk split and rolling hash"
        .as_bytes()
        .to_vec();

    let expected_delta = HashMap::from([
        (1, "i am here guys   h".as_bytes().to_vec()), // Match 1 chunk changed,
        (3, "   ".as_bytes().to_vec()),                // Match 3 chunk change
    ]);

    let delta = calculate_delta(original, new_data, 16).unwrap();
    check_delta_match(delta, expected_delta);
}
