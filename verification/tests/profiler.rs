use haversine_core::profiler::{profile_block, BlockProfiler, RecordKeeper};

#[test]
fn new_keeper_is_empty() {
    let keeper = RecordKeeper::new(42);
    assert_eq!(keeper.len(), 0);
    assert_eq!(keeper.global_start(), 42);
    assert_eq!(keeper.global_idx(), 0);
    let report = keeper.report(50);
    assert_eq!(report.total_duration, 8);
    assert!(report.lines.is_empty());
}

#[test]
fn new_block_takes_the_next_place() {
    let mut keeper = RecordKeeper::new(0);
    let first = BlockProfiler::new("first", &mut keeper, 10);
    assert_eq!(first.name(), "first");
    assert_eq!(first.start(), 10);
    assert_eq!(first.idx(), 0);
    assert_eq!(first.parent_idx(), 0);
    assert_eq!(first.duration(), 0);
    assert_eq!(first.child_duration(), 0);
    assert_eq!(keeper.global_idx(), 1);
    assert_eq!(keeper.len(), 0);
    keeper.insert_block_profiler(first.duplicate());
    keeper.insert_block_profiler(first.duplicate());
    assert_eq!(keeper.len(), 2);
    let third = BlockProfiler::new("third", &mut keeper, 20);
    assert_eq!(third.idx(), 2);
    assert_eq!(third.parent_idx(), 1);
    assert_eq!(keeper.global_idx(), 2);
}

#[test]
fn with_block_profiler_runs_on_the_block_at_the_index() {
    let mut keeper = RecordKeeper::new(0);
    profile_block(&mut keeper, "a", 1);
    profile_block(&mut keeper, "b", 2);
    let name = keeper.with_block_profiler(1, |block| {
        block.set_duration(9);
        block.add_child_duration(4);
        block.name().clone()
    });
    assert_eq!(name, Some("b".to_string()));
    assert_eq!(keeper.with_block_profiler(0, |block| block.duration()), Some(0));
    assert_eq!(keeper.with_block_profiler(1, |block| block.duration()), Some(9));
    assert_eq!(keeper.with_block_profiler(1, |block| block.child_duration()), Some(4));
}

#[test]
fn with_block_profiler_past_the_end_does_nothing() {
    let mut keeper = RecordKeeper::new(0);
    profile_block(&mut keeper, "a", 1);
    let mut called = false;
    let result = keeper.with_block_profiler(1, |_| {
        called = true;
        5
    });
    assert_eq!(result, None);
    assert!(!called);
    assert_eq!(keeper.len(), 1);
}

#[test]
fn stopping_books_the_time_with_the_block_and_its_parent() {
    let mut keeper = RecordKeeper::new(100);
    let outer = profile_block(&mut keeper, "outer", 110);
    let inner = profile_block(&mut keeper, "inner", 120);
    assert_eq!(keeper.global_idx(), 2);
    inner.stop(&mut keeper, 150);
    assert_eq!(keeper.global_idx(), 1);
    outer.stop(&mut keeper, 200);
    assert_eq!(keeper.global_idx(), 0);

    let report = keeper.report(260);
    assert_eq!(report.total_duration, 160);
    assert_eq!(report.lines.len(), 2);
    assert_eq!(report.lines[0].name, "outer");
    assert_eq!(report.lines[0].inclusive, 90);
    assert_eq!(report.lines[0].exclusive, 60);
    assert_eq!(report.lines[1].name, "inner");
    assert_eq!(report.lines[1].inclusive, 30);
    assert_eq!(report.lines[1].exclusive, 30);
}

#[test]
fn first_block_charges_no_parent() {
    let mut keeper = RecordKeeper::new(0);
    let only = profile_block(&mut keeper, "only", 5);
    only.stop(&mut keeper, 12);
    let report = keeper.report(12);
    assert_eq!(report.lines[0].inclusive, 7);
    assert_eq!(report.lines[0].exclusive, 7);
}

#[test]
fn exclusive_time_saturates_at_zero() {
    let mut keeper = RecordKeeper::new(0);
    let first = profile_block(&mut keeper, "first", 0);
    let second = profile_block(&mut keeper, "second", 0);
    first.stop(&mut keeper, 10);
    second.stop(&mut keeper, 50);
    let report = keeper.report(50);
    assert_eq!(report.lines[0].inclusive, 10);
    assert_eq!(report.lines[0].exclusive, 0);
    assert_eq!(report.lines[1].inclusive, 50);
    assert_eq!(report.lines[1].exclusive, 50);
}

#[test]
fn stopping_a_block_that_was_never_inserted_only_counts_down() {
    let mut keeper = RecordKeeper::new(0);
    let stray = BlockProfiler::new("stray", &mut keeper, 3);
    stray.stop(&mut keeper, 8);
    assert_eq!(keeper.len(), 0);
    assert_eq!(keeper.global_idx(), 0);
}

#[test]
fn open_block_count_wraps() {
    let mut keeper = RecordKeeper::new(0);
    let stray = BlockProfiler::new("stray", &mut keeper, 0);
    stray.stop(&mut keeper, 0);
    stray.stop(&mut keeper, 0);
    assert_eq!(keeper.global_idx(), u64::MAX);
    BlockProfiler::new("again", &mut keeper, 0);
    assert_eq!(keeper.global_idx(), 0);
}
