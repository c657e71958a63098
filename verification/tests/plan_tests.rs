use chunker::{plan, ChunkError, ChunkRange};

fn range(index: u64, byte_start: u64, byte_end: u64) -> ChunkRange {
    ChunkRange {
        index,
        byte_start,
        byte_end,
    }
}

#[test]
fn plan_of_2500_bytes_in_chunks_of_1000() {
    let p = plan(2500, 1000).unwrap();
    assert_eq!(p.chunk_count(), 3);
    assert_eq!(
        p.ranges(),
        vec![range(0, 0, 1000), range(1, 1000, 2000), range(2, 2000, 2500)]
    );
    assert_eq!(p.range(0), range(0, 0, 1000));
    assert_eq!(p.range(1), range(1, 1000, 2000));
    assert_eq!(p.range(2), range(2, 2000, 2500));
    assert_eq!(p.file_size(), 2500);
    assert_eq!(p.chunk_size(), 1000);
}

#[test]
fn plan_refuses_a_chunk_size_of_zero() {
    assert_eq!(plan(2500, 0).unwrap_err(), ChunkError::InvalidArgument);
    assert_eq!(plan(0, 0).unwrap_err(), ChunkError::InvalidArgument);
}

#[test]
fn plan_of_an_empty_file_has_no_chunks() {
    let p = plan(0, 1000).unwrap();
    assert_eq!(p.chunk_count(), 0);
    assert!(p.ranges().is_empty());
}

#[test]
fn plan_of_an_exact_multiple_ends_with_a_full_chunk() {
    let p = plan(3000, 1000).unwrap();
    assert_eq!(p.chunk_count(), 3);
    assert_eq!(p.range(2), range(2, 2000, 3000));
    assert_eq!(p.range(2).len(), 1000);
}

#[test]
fn plan_with_a_chunk_larger_than_the_file_has_one_chunk() {
    let p = plan(10, 1000).unwrap();
    assert_eq!(p.ranges(), vec![range(0, 0, 10)]);
}

#[test]
fn chunk_count_is_the_quotient_rounded_up() {
    for file_size in 0u64..60 {
        for chunk_size in 1u64..20 {
            let p = plan(file_size, chunk_size).unwrap();
            let expected = (file_size as f64 / chunk_size as f64).ceil() as u64;
            assert_eq!(p.chunk_count(), expected);
            assert_eq!(p.ranges().len() as u64, expected);
        }
    }
}

#[test]
fn ranges_tile_the_file() {
    for file_size in 0u64..60 {
        for chunk_size in 1u64..20 {
            let ranges = plan(file_size, chunk_size).unwrap().ranges();
            let mut offset = 0u64;
            for (i, r) in ranges.iter().enumerate() {
                assert_eq!(r.index, i as u64);
                assert_eq!(r.byte_start, offset);
                assert!(r.byte_start < r.byte_end);
                assert!(r.len() <= chunk_size);
                if i + 1 < ranges.len() {
                    assert_eq!(r.len(), chunk_size);
                }
                offset = r.byte_end;
            }
            assert_eq!(offset, file_size);
        }
    }
}

#[test]
fn last_chunk_holds_the_remainder() {
    let p = plan(2500, 1000).unwrap();
    assert_eq!(p.range(2).len(), 500);
    let p = plan(1001, 1000).unwrap();
    assert_eq!(p.range(1).len(), 1);
}

#[test]
fn plan_reaches_the_end_of_the_largest_file() {
    let p = plan(u64::MAX, 1 << 63).unwrap();
    assert_eq!(p.chunk_count(), 2);
    assert_eq!(p.range(0), range(0, 0, 1 << 63));
    assert_eq!(p.range(1), range(1, 1 << 63, u64::MAX));
    let p = plan(u64::MAX, 1).unwrap();
    assert_eq!(p.chunk_count(), u64::MAX);
    assert_eq!(
        p.range(u64::MAX - 1),
        range(u64::MAX - 1, u64::MAX - 1, u64::MAX)
    );
    let p = plan(u64::MAX, u64::MAX).unwrap();
    assert_eq!(p.chunk_count(), 1);
    assert_eq!(p.range(0), range(0, 0, u64::MAX));
}
