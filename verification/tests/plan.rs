use evm_extractor::plan::{
    block_count, check_height, checkpoint_text, make_batches, parse_checkpoint, resume_point,
    should_report, Extraction, Part,
};

#[test]
fn batches_hold_five_blocks_and_the_last_one_the_rest() {
    assert_eq!(make_batches(10, 16), vec![vec![10, 11, 12, 13, 14], vec![15, 16]]);
    assert_eq!(make_batches(0, 4), vec![vec![0, 1, 2, 3, 4]]);
    assert_eq!(make_batches(0, 5), vec![vec![0, 1, 2, 3, 4], vec![5]]);
    assert_eq!(make_batches(7, 7), vec![vec![7]]);
    assert_eq!(make_batches(8, 7), Vec::<Vec<u64>>::new());
}

#[test]
fn batches_reach_the_largest_block() {
    let last = u64::MAX;
    assert_eq!(
        make_batches(last - 5, last),
        vec![vec![last - 5, last - 4, last - 3, last - 2, last - 1], vec![last]]
    );
}

#[test]
fn batches_cover_each_block_once_and_in_order() {
    for (first, last) in [(0u64, 0u64), (3, 102), (1_000, 1_499)] {
        let blocks: Vec<u64> = make_batches(first, last).concat();
        assert_eq!(blocks, (first..=last).collect::<Vec<u64>>());
    }
}

#[test]
fn a_long_range_is_cut_into_parts() {
    let mut run = Extraction { current: 5, end_block: 2_000_010, part: 3 };
    let mut parts = Vec::new();
    let mut checkpoints = Vec::new();
    while let Some(part) = run.next_part() {
        parts.push(part);
        checkpoints.push(run.complete_part());
    }
    assert_eq!(
        parts,
        vec![
            Part { number: 3, first_block: 5, last_block: 1_000_004 },
            Part { number: 4, first_block: 1_000_005, last_block: 2_000_004 },
            Part { number: 5, first_block: 2_000_005, last_block: 2_000_010 },
        ]
    );
    assert_eq!(checkpoints, vec![1_000_005, 2_000_005, 2_000_011]);
    assert_eq!(run.part, 5);
}

#[test]
fn a_part_at_the_upper_end_does_not_overflow() {
    let run = Extraction { current: u64::MAX - 1, end_block: u64::MAX, part: 1 };
    let part = run.next_part().unwrap();
    assert_eq!((part.first_block, part.last_block), (u64::MAX - 1, u64::MAX));
    let over = Extraction { current: 8, end_block: 7, part: 1 };
    assert_eq!(over.next_part(), None);
}

#[test]
fn a_restarted_run_has_exactly_the_parts_that_were_left() {
    let (start, end) = (100u64, 3_500_000u64);
    let mut run = Extraction { current: start, end_block: end, part: 1 };
    let mut done = 0u64;
    while let Some(part) = run.next_part() {
        done += block_count(part.first_block, part.last_block);
        let file = checkpoint_text(run.complete_part());
        let again = resume_point(parse_checkpoint(&file), start, end);
        assert_eq!(again, run.current);
        assert_eq!(again, start + done);
    }
    assert_eq!(done, block_count(start, end));
}

#[test]
fn a_checkpoint_reads_back() {
    for block in [0u64, 1, 18_000_000, u64::MAX] {
        assert_eq!(parse_checkpoint(&checkpoint_text(block)), Some(block));
        assert_eq!(checkpoint_text(block), block.to_string());
    }
    assert_eq!(parse_checkpoint(" 42\n"), Some(42));
    for text in ["", " ", "4 2", "x", "-1", "18446744073709551616"] {
        assert_eq!(parse_checkpoint(text), None, "{text}");
    }
}

#[test]
fn only_a_checkpoint_in_or_right_behind_the_range_counts() {
    assert_eq!(resume_point(None, 10, 20), 10);
    assert_eq!(resume_point(Some(9), 10, 20), 10);
    assert_eq!(resume_point(Some(10), 10, 20), 10);
    assert_eq!(resume_point(Some(15), 10, 20), 15);
    assert_eq!(resume_point(Some(21), 10, 20), 21);
    assert_eq!(resume_point(Some(22), 10, 20), 10);
    assert_eq!(resume_point(Some(3), 10, u64::MAX), 10);
}

#[test]
fn the_chain_must_have_reached_the_range() {
    assert_eq!(check_height(1, 5, 5), Ok(()));
    assert_eq!(
        check_height(6, 9, 5),
        Err("Start block 6 is greater than current chain height 5".to_string())
    );
    assert_eq!(
        check_height(5, 9, 5),
        Err("End block 9 is greater than current chain height 5".to_string())
    );
}

#[test]
fn blocks_are_counted_with_both_ends() {
    assert_eq!(block_count(7, 7), 1);
    assert_eq!(block_count(0, 999_999), 1_000_000);
    assert_eq!(block_count(1, u64::MAX), u64::MAX);
}

#[test]
fn progress_is_reported_every_five_hundred_batches_and_at_the_end() {
    assert!(should_report(500, 1234));
    assert!(should_report(1000, 1234));
    assert!(should_report(1234, 1234));
    assert!(!should_report(499, 1234));
    assert!(!should_report(1233, 1234));
    assert!(should_report(1, 1));
}

#[test]
fn the_batches_of_all_parts_ask_for_each_block_once() {
    let mut run = Extraction { current: 7, end_block: 2_000_020, part: 1 };
    let mut asked: Vec<u64> = Vec::new();
    while let Some(part) = run.next_part() {
        asked.extend(make_batches(part.first_block, part.last_block).concat());
        run.complete_part();
    }
    assert_eq!(asked, (7..=2_000_020).collect::<Vec<u64>>());
}
