use chunkdiff::chunk_iter::ChunkIter;
use chunkdiff::chunk_iter::SkipChunk;

#[test]
fn check_basic_iteration() {
    let value: Vec<u8> = vec![1, 2, 3, 4, 1, 2, 3, 4, 1, 2, 3, 4];
    let chunk_size = 4;

    let mut counter = 0;
    let mut iter = ChunkIter::new(&value, chunk_size).by_chunk();
    let mut i = 0;
    while let Some(el) = iter.next() {
        assert_eq!(el.to_vec(), vec![1, 2, 3, 4]);
        assert_eq!(counter, i);

        counter += 1;
        i += 1;
    }

    assert_eq!(counter, 3);
}

#[test]
fn check_last_chunk_shorter_iteration() {
    let value: Vec<u8> = vec![1, 2, 3, 4, 1, 2, 3, 4, 1, 2, 3, 4, 1, 2, 3];
    let chunk_size = 4;

    let mut counter = 0;
    let mut iter = ChunkIter::new(&value, chunk_size).by_chunk();
    let mut i = 0;
    while let Some(el) = iter.next() {
        if i == 3 {
            assert_eq!(el.to_vec(), vec![1, 2, 3]);
        } else {
            assert_eq!(el.to_vec(), vec![1, 2, 3, 4]);
        }
        assert_eq!(counter, i);
        counter += 1;
        i += 1;
    }

    assert_eq!(counter, 4);
}

#[test]
fn check_by_byte_chunk_iteration() {
    let value: Vec<u8> = vec![1, 2, 3, 4, 1, 2, 3, 4, 1, 2, 3, 4, 1, 2, 3];
    let chunk_size = 4;

    let mut counter = 0;
    let mut iter = ChunkIter::new(&value, chunk_size).by_byte();
    let mut i = 0;
    while let Some(el) = iter.next() {
        let mut expected = vec![1, 2, 3, 4];
        let len = expected.len();
        expected.rotate_left(i % len);

        assert_eq!(el.to_vec(), expected);
        assert_eq!(counter, i);

        counter += 1;
        i += 1;
    }

    assert_eq!(counter, 12);
}

#[test]
fn check_by_byte_chunk_iteration_with_skip() {
    let value: Vec<u8> = vec![1, 2, 3, 4, 5, 6, 7, 8, 9, 1, 2, 3, 4, 5, 6];
    let chunk_size = 4;

    let mut iter = ChunkIter::new(&value, chunk_size).by_byte();
    assert_eq!(iter.next().unwrap().to_vec(), vec![1, 2, 3, 4]);
    assert_eq!(iter.next().unwrap().to_vec(), vec![2, 3, 4, 5]);
    assert_eq!(iter.next().unwrap().to_vec(), vec![3, 4, 5, 6]);
    assert_eq!(iter.next().unwrap().to_vec(), vec![4, 5, 6, 7]);
    assert_eq!(iter.next().unwrap().to_vec(), vec![5, 6, 7, 8]);
    iter.skip_chunks(1);
    assert_eq!(iter.next().unwrap().to_vec(), vec![9, 1, 2, 3]);
    assert_eq!(iter.next().unwrap().to_vec(), vec![1, 2, 3, 4]);
    assert_eq!(iter.next().unwrap().to_vec(), vec![2, 3, 4, 5]);
    assert_eq!(iter.next().unwrap().to_vec(), vec![3, 4, 5, 6]);
    iter.skip_chunks(1);
    assert_eq!(iter.next(), None);
}
