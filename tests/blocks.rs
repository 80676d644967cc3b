use bedblocks::{block_distance, filter_min_dist, Block, BlockError, Distance, Region};

fn block(chrom: &str, start: u64, end: u64) -> Block {
    Block::new(chrom.to_string(), start, end).unwrap()
}

fn starts(blocks: &[Block]) -> Vec<u64> {
    blocks.iter().map(|b| b.start).collect()
}

#[test]
fn test_make_new_region() {
    let chrom: String = "chr2".to_string();
    let start: u64 = 100;
    let end: u64 = 499;
    let blocklen: u64 = 100;
    let region: Region = Region::new(chrom, start, end, blocklen).unwrap();
    let expected_blockstarts: Vec<u64> = vec![100, 200, 300, 400];

    for (idx, blockstart) in region.blockstarts.into_iter().enumerate() {
        assert!(blockstart == expected_blockstarts[idx]);
    }
}

#[test]
fn test_block_distance() {
    let block1 = Block::new("1".to_string(), 100, 500).unwrap();
    let block2 = Block::new("1".to_string(), 600, 1000).unwrap();

    let expected_dist = Distance::Finite(100);
    let calculated_dist = block_distance((block1, block2));

    assert!(Ok(expected_dist) == calculated_dist);
}

#[test]
fn test_block_distance_diff_chroms() {
    let block1 = Block::new("1".to_string(), 100, 500).unwrap();
    let block2 = Block::new("2".to_string(), 600, 1000).unwrap();

    let expected_dist = Distance::Incomparable;
    let calculated_dist = block_distance((block1, block2));

    assert!(Ok(expected_dist) == calculated_dist);
}

#[test]
fn test_min_distance() {
    let chrom: String = "chr2".to_string();
    let start: u64 = 100;
    let end: u64 = 5000;
    let blocklen: u64 = 100;
    let min_dist = 1000;
    let region: Region = Region::new(chrom, start, end, blocklen).unwrap();
    let blocks: Vec<Block> = region.to_blocks().unwrap();
    let filtered_blocks: Vec<Block> = filter_min_dist(blocks, min_dist).unwrap();
    let expected_blockstarts: Vec<u64> = vec![100, 1200, 2300, 3400, 4500];

    for (idx, block) in filtered_blocks.into_iter().enumerate() {
        println!("{}, {}", block.start, expected_blockstarts[idx]);
        assert!(block.start == expected_blockstarts[idx]);
    }
}

#[test]
fn filtered_starts_are_exact_and_keep_the_last_anchor() {
    let region = Region::new("chr2".to_string(), 100, 5000, 100).unwrap();
    let blocks = region.to_blocks().unwrap();
    assert_eq!(blocks.len(), 49);
    let filtered = filter_min_dist(blocks, 1000).unwrap();
    assert_eq!(starts(&filtered), vec![100, 1200, 2300, 3400, 4500]);
    assert_eq!(filtered[4].end, 4599);
    assert!(filtered.iter().all(|b| b.chrom == "chr2"));
}

#[test]
fn region_blocks_have_exact_length_and_spacing() {
    let region = Region::new("chr2".to_string(), 100, 499, 100).unwrap();
    assert_eq!(region.blockstarts, vec![100, 200, 300, 400]);
    assert_eq!(region.blockends, vec![199, 299, 399, 499]);
    assert_eq!(region.chrom, "chr2");
    assert_eq!((region.start, region.end), (100, 499));
}

#[test]
fn blockstarts_drop_trailing_partial_block() {
    assert_eq!(Region::get_blockstarts(0, 250, 100), Ok(vec![0, 100]));
    assert_eq!(Region::get_blockstarts(7, 10, 1), Ok(vec![7, 8, 9]));
    assert_eq!(Region::get_blockstarts(0, 199, 100), Ok(vec![0, 100]));
    assert_eq!(Region::get_blockstarts(0, 198, 100), Ok(vec![0]));
}

#[test]
fn blockstarts_near_the_top_of_the_range() {
    let end = u64::MAX;
    let start = u64::MAX - 10;
    assert_eq!(Region::get_blockstarts(start, end, 5), Ok(vec![start, start + 5]));
}

#[test]
fn blockstarts_are_the_same_on_every_run() {
    let first = Region::get_blockstarts(3, 1000, 37);
    let second = Region::get_blockstarts(3, 1000, 37);
    assert_eq!(first, second);
}

#[test]
fn region_shorter_than_a_block_gives_no_blocks() {
    let region = Region::new("chr1".to_string(), 10, 15, 100).unwrap();
    assert!(region.blockstarts.is_empty());
    let blocks = region.to_blocks().unwrap();
    assert!(blocks.is_empty());
    let filtered = filter_min_dist(blocks, 10).unwrap();
    assert!(filtered.is_empty());
}

#[test]
fn zero_block_length_is_a_configuration_error() {
    assert_eq!(Region::get_blockstarts(10, 15, 0), Err(BlockError::InvalidBlockLength));
    assert!(matches!(
        Region::new("chr1".to_string(), 10, 15, 0),
        Err(BlockError::InvalidBlockLength)
    ));
}

#[test]
fn region_whose_end_does_not_follow_its_start_is_malformed() {
    assert!(matches!(
        Region::new("chr1".to_string(), 15, 15, 5),
        Err(BlockError::MalformedRegion)
    ));
    assert!(matches!(
        Region::new("chr1".to_string(), 20, 15, 5),
        Err(BlockError::MalformedRegion)
    ));
}

#[test]
fn degenerate_block_is_refused() {
    assert!(matches!(Block::new("1".to_string(), 5, 5), Err(BlockError::DegenerateBlock)));
    assert!(matches!(Block::new("1".to_string(), 6, 5), Err(BlockError::DegenerateBlock)));
    let b = block("1", 5, 6);
    assert_eq!((b.chrom.as_str(), b.start, b.end), ("1", 5, 6));
}

#[test]
fn single_position_blocks_cannot_become_blocks() {
    let region = Region::new("chr1".to_string(), 0, 3, 1).unwrap();
    assert_eq!(region.blockstarts, vec![0, 1, 2]);
    assert_eq!(region.blockends, vec![0, 1, 2]);
    assert!(matches!(region.to_blocks(), Err(BlockError::DegenerateBlock)));
}

#[test]
fn overlapping_blocks_are_an_invariant_violation() {
    let d = block_distance((block("1", 100, 500), block("1", 400, 900)));
    assert_eq!(d, Err(BlockError::InvariantViolation));
    let blocks = vec![block("1", 100, 500), block("1", 400, 900)];
    assert!(matches!(filter_min_dist(blocks, 0), Err(BlockError::InvariantViolation)));
}

#[test]
fn touching_blocks_are_zero_apart() {
    let d = block_distance((block("1", 100, 500), block("1", 500, 900)));
    assert_eq!(d, Ok(Distance::Finite(0)));
}

#[test]
fn zero_threshold_keeps_every_block() {
    let blocks = vec![block("1", 0, 9), block("1", 10, 19), block("1", 20, 29)];
    let filtered = filter_min_dist(blocks, 0).unwrap();
    assert_eq!(starts(&filtered), vec![0, 10, 20]);
}

#[test]
fn cross_space_pairs_are_always_far_enough() {
    let d = block_distance((block("1", 100, 500), block("2", 0, 10)));
    assert_eq!(d, Ok(Distance::Incomparable));
    let blocks = vec![block("1", 100, 500), block("2", 0, 10), block("3", 0, 10)];
    let filtered = filter_min_dist(blocks, u64::MAX).unwrap();
    assert_eq!(filtered.len(), 3);
    assert_eq!(filtered[1].chrom, "2");
}

#[test]
fn kept_blocks_respect_the_threshold() {
    let blocks = vec![
        block("1", 0, 9),
        block("1", 12, 21),
        block("1", 25, 34),
        block("1", 36, 45),
        block("1", 60, 69),
    ];
    let filtered = filter_min_dist(blocks, 5).unwrap();
    assert_eq!(starts(&filtered), vec![0, 25, 60]);
    for pair in filtered.windows(2) {
        assert!(pair[1].start - pair[0].end >= 5);
    }
}

#[test]
fn greedy_keeps_as_many_as_any_spaced_choice() {
    // Choosing the blocks at 12, 36 and 60 also keeps three; none keeps four.
    let blocks = vec![
        block("1", 0, 9),
        block("1", 12, 21),
        block("1", 25, 34),
        block("1", 36, 45),
        block("1", 60, 69),
    ];
    let filtered = filter_min_dist(blocks, 5).unwrap();
    assert_eq!(filtered.len(), 3);
}

#[test]
fn empty_input_gives_empty_output() {
    assert!(filter_min_dist(Vec::new(), 1000).unwrap().is_empty());
}

#[test]
fn single_block_is_kept() {
    let filtered = filter_min_dist(vec![block("x", 1, 2)], 1000).unwrap();
    assert_eq!(starts(&filtered), vec![1]);
}

#[test]
fn out_of_order_blocks_skipped_by_the_sweep_are_refused() {
    let blocks = vec![block("1", 0, 10), block("1", 100, 110), block("1", 50, 60)];
    assert!(matches!(filter_min_dist(blocks, 200), Err(BlockError::InvariantViolation)));
}

#[test]
fn repeated_start_in_one_space_is_refused() {
    let blocks = vec![block("1", 0, 10), block("1", 10, 20), block("1", 10, 20)];
    assert!(matches!(filter_min_dist(blocks, 0), Err(BlockError::InvariantViolation)));
}

#[test]
fn order_is_checked_within_each_space_when_spaces_interleave() {
    let ok = vec![block("1", 0, 10), block("2", 5, 8), block("1", 20, 30), block("2", 9, 12)];
    let filtered = filter_min_dist(ok, 5).unwrap();
    assert_eq!(starts(&filtered), vec![0, 5, 20, 9]);
    let bad = vec![block("1", 0, 10), block("2", 5, 8), block("1", 5, 30)];
    assert!(matches!(filter_min_dist(bad, 0), Err(BlockError::InvariantViolation)));
}
