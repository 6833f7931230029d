use ffs::splitter::{Splitter, DEFAULT_CHUNK_SIZE};

#[test]
fn new() {
    let split = Splitter::new(42);
    assert_eq!(split.bytes_left, 42);
    assert_eq!(split.goal_size, 42);

    let split = Splitter::new(DEFAULT_CHUNK_SIZE as u64);
    assert_eq!(split.bytes_left, DEFAULT_CHUNK_SIZE as u64);
    assert_eq!(split.goal_size, DEFAULT_CHUNK_SIZE);

    let split = Splitter::new(DEFAULT_CHUNK_SIZE as u64 + 1);
    assert_eq!(split.bytes_left, DEFAULT_CHUNK_SIZE as u64 + 1);
    assert_eq!(split.goal_size, DEFAULT_CHUNK_SIZE / 2 + 1);
}

#[test]
fn iterator() {
    fn validate(mut splitter: Splitter) {
        let max_size = splitter.goal_size;
        while let Some(v) = splitter.next() {
            assert!(v <= max_size);
        }
    }

    validate(Splitter::new(0));
    validate(Splitter::new(42));
    validate(Splitter::new(DEFAULT_CHUNK_SIZE as u64));
    validate(Splitter::new(DEFAULT_CHUNK_SIZE as u64 + 1));
    validate(Splitter::new(3 * DEFAULT_CHUNK_SIZE as u64 + 1));
}

#[test]
fn size_hint() {
    fn validate(splitter: Splitter) {
        let size = splitter.size_hint();
        assert_eq!(size.0, size.1.unwrap());
        assert_eq!(splitter.collect().len(), size.0);
    }

    validate(Splitter::new(0));
    validate(Splitter::new(42));
    validate(Splitter::new(DEFAULT_CHUNK_SIZE as u64));
    validate(Splitter::new(DEFAULT_CHUNK_SIZE as u64 + 1));
    validate(Splitter::new(3 * DEFAULT_CHUNK_SIZE as u64 + 1));
}

#[test]
fn parts_of_a_little_more_than_one_chunk() {
    let parts = Splitter::new(DEFAULT_CHUNK_SIZE as u64 + 1).collect();
    assert_eq!(parts, vec![DEFAULT_CHUNK_SIZE / 2 + 1, DEFAULT_CHUNK_SIZE / 2]);
}

#[test]
fn parts_cover_the_whole_file() {
    for len in [0u64, 1, 42, 4194304, 4194305, 12582913, 99999999] {
        let parts = Splitter::new(len).collect();
        let sum: u64 = parts.iter().map(|p| *p as u64).sum();
        assert_eq!(sum, len);
        assert!(parts.iter().all(|p| *p <= DEFAULT_CHUNK_SIZE));
    }
}

#[test]
fn an_exhausted_splitter_stays_exhausted() {
    let mut splitter = Splitter::new(3);
    assert_eq!(splitter.next(), Some(3));
    assert_eq!(splitter.next(), None);
    assert_eq!(splitter.next(), None);
    assert_eq!(splitter.size_hint(), (0, Some(0)));
}

#[test]
fn parts_are_as_few_as_can_be() {
    let chunk = DEFAULT_CHUNK_SIZE as u64;
    for (len, count) in [(1, 1), (chunk, 1), (chunk + 1, 2), (2 * chunk, 2), (9 * chunk - 1, 9)] {
        let parts = Splitter::new(len).collect();
        assert_eq!(parts.len(), count);
    }
}
