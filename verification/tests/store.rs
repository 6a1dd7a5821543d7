use bytes::Bytes;
use om2nc::store::{
    BlockState, DEFAULT_BLOCK_SIZE, StoreConfig, after_wait, assemble, check_range_length, cut_block, plan_blocks,
    read_span, run_range,
};

#[test]
fn default_settings() {
    let c = StoreConfig::default();
    assert_eq!((c.bucket.as_str(), c.region.as_str(), c.endpoint), ("openmeteo", "us-west-2", None));
    assert_eq!(DEFAULT_BLOCK_SIZE, 32768);
}

#[test]
fn spans_of_reads() {
    assert_eq!(read_span("k", 100, 10, 0, 0), Ok(None));
    assert_eq!(read_span("k", 100, 10, 200, 0), Ok(None));
    assert_eq!(read_span("k", 100, 10, 0, 10), Ok(Some((0, 0))));
    assert_eq!(read_span("k", 100, 10, 9, 2), Ok(Some((0, 1))));
    assert_eq!(read_span("k", 100, 10, 95, 5), Ok(Some((9, 9))));
    assert_eq!(read_span("k", 100, 10, 95, 6).unwrap_err(), "read beyond end of k: 95+6 > 100");
}

#[test]
fn runs_of_claimed_blocks() {
    let states = [
        BlockState::Free,
        BlockState::Free,
        BlockState::Cached,
        BlockState::Free,
        BlockState::Busy,
        BlockState::Free,
        BlockState::Free,
        BlockState::Busy,
    ];
    let p = plan_blocks(7, &states);
    assert_eq!(p.runs, vec![(7, 8), (10, 10), (12, 13)]);
    assert_eq!(p.awaited, vec![11, 14]);
    let p = plan_blocks(0, &[]);
    assert!(p.runs.is_empty() && p.awaited.is_empty());
    assert_eq!(after_wait(3, false), Some((3, 3)));
    assert_eq!(after_wait(3, true), None);
}

#[test]
fn ranges_of_runs() {
    assert_eq!(run_range(2, 3, 10, 100), (20, 40));
    assert_eq!(run_range(2, 3, 10, 35), (20, 35));
    assert!(check_range_length("k", 20, 15, 15).is_ok());
    assert_eq!(
        check_range_length("k", 20, 15, 14).unwrap_err(),
        "short range read for k @ 20+15: got 14 bytes"
    );
}

/// Read through a cache that is filled as the plan says.
fn read(object: &[u8], block_size: u64, cached: &[u64], offset: u64, count: u64) -> Vec<u8> {
    let size = object.len() as u64;
    let (first, last) = match read_span("k", size, block_size, offset, count).unwrap() {
        Some(x) => x,
        None => return assemble(&[], block_size, offset, count).unwrap().to_vec(),
    };
    let mut blocks: Vec<Option<Bytes>> = vec![None; (last - first + 1) as usize];
    let mut states = Vec::new();
    for idx in first..=last {
        if cached.contains(&idx) {
            let end = ((idx + 1) * block_size).min(size);
            blocks[(idx - first) as usize] =
                Some(Bytes::copy_from_slice(&object[(idx * block_size) as usize..end as usize]));
            states.push(BlockState::Cached);
        } else {
            states.push(BlockState::Free);
        }
    }
    for (a, b) in plan_blocks(first, &states).runs {
        let (from, to) = run_range(a, b, block_size, size);
        let data = Bytes::copy_from_slice(&object[from as usize..to as usize]);
        for blk in a..=b {
            blocks[(blk - first) as usize] = Some(cut_block(&data, a, blk, block_size));
        }
    }
    assemble(&blocks, block_size, offset, count).unwrap().to_vec()
}

#[test]
fn a_read_gives_the_bytes_of_the_object() {
    let object: Vec<u8> = (0..103u32).map(|i| (i * 7 % 251) as u8).collect();
    for block_size in [1, 7, 10, 50, 103, 200] {
        for offset in [0, 1, 6, 7, 49, 50, 99, 102] {
            for count in [0, 1, 2, 7, 50, 103] {
                if offset + count <= 103 {
                    for cached in [&[][..], &[0, 2, 3][..]] {
                        assert_eq!(
                            read(&object, block_size, cached, offset, count),
                            &object[offset as usize..(offset + count) as usize]
                        );
                    }
                }
            }
        }
    }
}

#[test]
fn reads_at_the_end_of_the_object() {
    let object: Vec<u8> = (0..103).collect();
    assert!(read(&object, 10, &[], 500, 0).is_empty());
    assert_eq!(read(&object, 10, &[10], 95, 8), &object[95..]);
    assert_eq!(read_span("k", 103, 10, 95, 9).unwrap_err(), "read beyond end of k: 95+9 > 103");
    assert_eq!(read_span("k", 103, 10, 500, 1).unwrap_err(), "read beyond end of k: 500+1 > 103");
}

#[test]
fn a_block_that_is_not_there() {
    let b = Some(Bytes::from_static(b"abc"));
    assert_eq!(assemble(&[b.clone(), None], 3, 1, 4).unwrap_err(), "block cache inconsistency");
    assert_eq!(assemble(&[b.clone(), b], 3, 1, 4).unwrap(), Bytes::from_static(b"bcab"));
}

#[test]
fn blocks_of_a_run() {
    let data = Bytes::from_static(b"abcdefg");
    assert_eq!(cut_block(&data, 5, 5, 3), Bytes::from_static(b"abc"));
    assert_eq!(cut_block(&data, 5, 7, 3), Bytes::from_static(b"g"));
}
