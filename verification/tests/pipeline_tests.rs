use chunkdiff::ad32_helper::Ad32;
use chunkdiff::app_error::AppError;
use chunkdiff::calculate_delta;
use chunkdiff::chunk_processor::ChecksumProducer;
use chunkdiff::chunk_processor::ChunkProcessor;
use chunkdiff::produce_delta;
use chunkdiff::sha3_helper::Sha3;

#[test]
fn identity_delta_has_every_chunk_with_no_literals() {
    // 64 bytes, four whole chunks of 16, all distinct.
    let data: Vec<u8> = (0u8..64).collect();

    let delta = calculate_delta(data.clone(), data, 16).unwrap();

    assert_eq!(delta.len(), 4);
    for i in 0..4usize {
        let block = delta.get(&i).unwrap();
        assert_eq!(block.is_mising, false);
        assert!(block.buf.is_empty());
        assert_eq!(block.start, i * 16);
        assert_eq!(block.offset, i * 16 + 16);
    }
}

#[test]
fn chunk_size_mismatch_is_rejected() {
    let old: Vec<u8> = (0u8..64).collect();
    let new: Vec<u8> = (0u8..64).collect();

    let signer = ChunkProcessor::new(16);
    let checksum = signer.produce_checksum(old).unwrap();

    let result = produce_delta(32, &checksum, new);
    assert_eq!(result.unwrap_err(), AppError::IncompatibleChunkSize);
}

#[test]
fn short_input_is_rejected() {
    let old: Vec<u8> = vec![1; 31];
    let new: Vec<u8> = vec![1; 64];

    let result = calculate_delta(old, new, 16);
    assert_eq!(result.unwrap_err(), AppError::IncompatibleDataSize);

    let old: Vec<u8> = vec![1; 64];
    let new: Vec<u8> = vec![1; 31];
    let result = calculate_delta(old, new, 16);
    assert_eq!(result.unwrap_err(), AppError::IncompatibleDataSize);
}

#[test]
fn duplicate_chunks_corrupt_the_index() {
    // Two identical chunks share their weak and strong checksums, so a
    // weak hit on that chunk finds two survivors.
    let old: Vec<u8> = vec![7; 32];
    let new: Vec<u8> = vec![7; 32];

    let result = calculate_delta(old, new, 16);
    assert_eq!(result.unwrap_err(), AppError::IndexCorrupted);
}

#[test]
fn weak_collision_is_told_apart_by_strong_hash() {
    // Two chunks with equal Adler-32 checksums but different bytes:
    // adding +1, -2, +1 at three consecutive positions keeps both
    // accumulators of the checksum unchanged.
    let a: Vec<u8> = (1u8..=16).collect();
    let mut b = a.clone();
    b[5] += 1;
    b[6] -= 2;
    b[7] += 1;
    assert_ne!(a, b);
    assert_eq!(a[..].ad32(), b[..].ad32());

    let mut old = a;
    old.extend_from_slice(&b);
    let delta = calculate_delta(old.clone(), old, 16).unwrap();

    assert_eq!(delta.len(), 2);
    for i in 0..2usize {
        let block = delta.get(&i).unwrap();
        assert_eq!(block.is_mising, false);
        assert!(block.buf.is_empty());
    }
}

#[test]
fn adler32_of_known_text() {
    let data = b"Wikipedia";
    assert_eq!(data[..].ad32(), 0x11E60398);
}

#[test]
fn keccak256_of_empty_input() {
    let expected: [u8; 32] = [
        0xc5, 0xd2, 0x46, 0x01, 0x86, 0xf7, 0x23, 0x3c, 0x92, 0x7e, 0x7d, 0xb2, 0xdc, 0xc7, 0x03,
        0xc0, 0xe5, 0x00, 0xb6, 0x53, 0xca, 0x82, 0x27, 0x3b, 0x7b, 0xfa, 0xd8, 0x04, 0x5d, 0x85,
        0xa4, 0x70,
    ];
    let data = b"";
    assert_eq!(data[..].hash().unwrap(), expected);
}

#[test]
fn signature_records_one_checksum_per_chunk() {
    // 86 bytes with a chunk size of 16: six chunks, the last one short.
    let data: Vec<u8> = (0u8..86).collect();

    let signer = ChunkProcessor::new(16);
    let checksum = signer.produce_checksum(data.clone()).unwrap();
    assert_eq!(checksum.data.len(), 6);

    // The last entry hashes the short trailing chunk.
    let tail_weak = data[80..86].ad32();
    assert_eq!(checksum.data[5].ad32, tail_weak);
    let tail_strong = data[80..86].hash().unwrap();
    assert_eq!(checksum.data[5].hash, tail_strong);
}

#[test]
fn error_descriptions_name_the_failure() {
    assert!(AppError::IndexCorrupted.description().contains("corrupted"));
    assert!(AppError::FileTooShort.description().len() > 0);
}
