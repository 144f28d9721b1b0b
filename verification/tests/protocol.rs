use peach_profiler::{Profiler, TimedBlock, __Timer};

fn label_of(name: &[u8]) -> [u8; 16] {
    let mut label = [0u8; 16];
    label[..name.len()].copy_from_slice(name);
    label
}

fn exclusive_sum(profiler: &Profiler) -> u64 {
    let mut sum: u64 = 0;
    for i in 0..4095 {
        sum = sum.wrapping_add(profiler.block(i).elapsed_exclusive);
    }
    sum
}

#[test]
fn fresh_table_is_all_zero() {
    let profiler = Profiler::new();
    assert_eq!(profiler.parent_index(), 0);
    for i in 0..4095 {
        let block: TimedBlock = profiler.block(i);
        assert_eq!(block.elapsed_exclusive, 0);
        assert_eq!(block.elapsed_inclusive, 0);
        assert_eq!(block.hit_count, 0);
        assert_eq!(block.processed_byte_count, 0);
        assert_eq!(block.label, [0; 16]);
    }
}

#[test]
fn entry_captures_the_frame_and_takes_over_as_parent() {
    let mut profiler = Profiler::new();
    let timer = __Timer::new(&mut profiler, "a", 9, 7, 100);
    assert_eq!(timer.start, 100);
    assert_eq!(timer.index, 7);
    assert_eq!(timer.parent, 0);
    assert_eq!(timer.old_elapsed_inclusive, 0);
    assert_eq!(timer.bytes, 9);
    assert_eq!(profiler.parent_index(), 7);
    let block = profiler.block(7);
    assert_eq!(block.label, label_of(b"a"));
    assert_eq!(block.hit_count, 0);
    assert_eq!(block.elapsed_inclusive, 0);
    assert_eq!(block.elapsed_exclusive, 0);
}

#[test]
fn single_scope_has_equal_counts() {
    let mut profiler = Profiler::new();
    let timer = __Timer::new(&mut profiler, "a", 0, 7, 100);
    timer.drop(&mut profiler, 350);
    let block = profiler.block(7);
    assert_eq!(block.elapsed_exclusive, 250);
    assert_eq!(block.elapsed_inclusive, 250);
    assert_eq!(block.hit_count, 1);
    assert_eq!(block.processed_byte_count, 0);
    assert_eq!(block.label, label_of(b"a"));
    assert_eq!(profiler.parent_index(), 0);
}

#[test]
fn root_is_charged_for_its_child() {
    let mut profiler = Profiler::new();
    let timer = __Timer::new(&mut profiler, "a", 0, 7, 100);
    timer.drop(&mut profiler, 350);
    let root = profiler.block(0);
    assert_eq!(root.elapsed_exclusive, 0u64.wrapping_sub(250));
    assert_eq!(root.elapsed_inclusive, 0);
    assert_eq!(root.hit_count, 0);
    assert_eq!(profiler.block(7).elapsed_exclusive, 250);
}

#[test]
fn nested_scope_is_taken_from_its_parent() {
    let mut profiler = Profiler::new();
    let outer = __Timer::new(&mut profiler, "outer", 0, 10, 1000);
    let inner = __Timer::new(&mut profiler, "inner", 0, 20, 1100);
    assert_eq!(inner.parent, 10);
    assert_eq!(profiler.parent_index(), 20);
    inner.drop(&mut profiler, 1400);
    assert_eq!(profiler.parent_index(), 10);
    assert_eq!(profiler.block(10).elapsed_exclusive, 0u64.wrapping_sub(300));
    outer.drop(&mut profiler, 2000);
    assert_eq!(profiler.parent_index(), 0);
    let inner_block = profiler.block(20);
    assert_eq!(inner_block.elapsed_exclusive, 300);
    assert_eq!(inner_block.elapsed_inclusive, 300);
    assert_eq!(inner_block.hit_count, 1);
    let outer_block = profiler.block(10);
    assert_eq!(outer_block.elapsed_exclusive, 700);
    assert_eq!(outer_block.elapsed_inclusive, 1000);
    assert_eq!(outer_block.hit_count, 1);
    assert!(outer_block.elapsed_inclusive >= outer_block.elapsed_exclusive);
    assert!(inner_block.elapsed_inclusive >= inner_block.elapsed_exclusive);
}

#[test]
fn recursion_counts_each_entry_and_the_outermost_span() {
    let mut profiler = Profiler::new();
    let first = __Timer::new(&mut profiler, "fib", 0, 5, 10);
    let second = __Timer::new(&mut profiler, "fib", 0, 5, 20);
    let third = __Timer::new(&mut profiler, "fib", 0, 5, 30);
    assert_eq!(second.parent, 5);
    assert_eq!(third.parent, 5);
    third.drop(&mut profiler, 40);
    assert_eq!(profiler.block(5).elapsed_inclusive, 10);
    second.drop(&mut profiler, 70);
    assert_eq!(profiler.block(5).elapsed_inclusive, 50);
    first.drop(&mut profiler, 110);
    let block = profiler.block(5);
    assert_eq!(block.hit_count, 3);
    assert_eq!(block.elapsed_inclusive, 100);
    assert_eq!(block.elapsed_exclusive, 100);
    assert_eq!(profiler.block(0).elapsed_exclusive, 0u64.wrapping_sub(100));
    assert_eq!(profiler.parent_index(), 0);
}

#[test]
fn indirect_recursion_keeps_inclusive_above_exclusive() {
    let mut profiler = Profiler::new();
    let a0 = __Timer::new(&mut profiler, "a", 0, 1, 0);
    let b = __Timer::new(&mut profiler, "b", 0, 2, 10);
    let a1 = __Timer::new(&mut profiler, "a", 0, 1, 20);
    a1.drop(&mut profiler, 50);
    b.drop(&mut profiler, 70);
    a0.drop(&mut profiler, 100);
    let a = profiler.block(1);
    let b = profiler.block(2);
    assert_eq!(a.hit_count, 2);
    assert_eq!(a.elapsed_inclusive, 100);
    assert_eq!(a.elapsed_exclusive, 70);
    assert_eq!(b.hit_count, 1);
    assert_eq!(b.elapsed_inclusive, 60);
    assert_eq!(b.elapsed_exclusive, 30);
}

#[test]
fn repeated_scope_accumulates() {
    let mut profiler = Profiler::new();
    let mut now = 0;
    for _ in 0..5 {
        let timer = __Timer::new(&mut profiler, "loop", 1024, 99, now);
        now += 7;
        timer.drop(&mut profiler, now);
        now += 3;
    }
    let block = profiler.block(99);
    assert_eq!(block.hit_count, 5);
    assert_eq!(block.elapsed_inclusive, 35);
    assert_eq!(block.elapsed_exclusive, 35);
    assert_eq!(block.processed_byte_count, 5 * 1024);
}

#[test]
fn exclusive_counts_sum_to_zero_with_the_root() {
    let mut profiler = Profiler::new();
    let outer = __Timer::new(&mut profiler, "outer", 0, 10, 1000);
    let inner = __Timer::new(&mut profiler, "inner", 0, 20, 1100);
    assert_eq!(exclusive_sum(&profiler), 0);
    inner.drop(&mut profiler, 1400);
    assert_eq!(exclusive_sum(&profiler), 0);
    outer.drop(&mut profiler, 2000);
    assert_eq!(exclusive_sum(&profiler), 0);
    let shown = profiler.block(10).elapsed_exclusive + profiler.block(20).elapsed_exclusive;
    assert_eq!(shown, 1000);
}

#[test]
fn elapsed_cycles_wrap_with_the_counter() {
    let mut profiler = Profiler::new();
    let timer = __Timer::new(&mut profiler, "late", 0, 3, u64::MAX - 4);
    timer.drop(&mut profiler, 5);
    let block = profiler.block(3);
    assert_eq!(block.elapsed_inclusive, 10);
    assert_eq!(block.elapsed_exclusive, 10);
}

#[test]
fn long_name_is_clipped_to_the_label() {
    let mut profiler = Profiler::new();
    let timer = __Timer::new(&mut profiler, "function_with_a_really_long_name", 0, 8, 0);
    assert_eq!(&profiler.block(8).label, b"function_with_a_");
    timer.drop(&mut profiler, 1);
    assert_eq!(&profiler.block(8).label, b"function_with_a_");
    assert_eq!(profiler.block(8).hit_count, 1);
}

#[test]
fn name_of_exactly_label_width_fills_the_label() {
    let mut profiler = Profiler::new();
    let _timer = __Timer::new(&mut profiler, "0123456789abcdef", 0, 8, 0);
    assert_eq!(&profiler.block(8).label, b"0123456789abcdef");
}

#[test]
fn empty_name_clears_the_label() {
    let mut profiler = Profiler::new();
    let first = __Timer::new(&mut profiler, "abc", 0, 8, 0);
    first.drop(&mut profiler, 1);
    let _second = __Timer::new(&mut profiler, "", 0, 8, 2);
    assert_eq!(profiler.block(8).label, [0; 16]);
    assert_eq!(profiler.parent_index(), 8);
}

#[test]
fn shorter_name_is_padded_with_zero_bytes() {
    let mut profiler = Profiler::new();
    let first = __Timer::new(&mut profiler, "abcdefgh", 0, 8, 0);
    first.drop(&mut profiler, 1);
    assert_eq!(profiler.block(8).label, label_of(b"abcdefgh"));
    let _second = __Timer::new(&mut profiler, "xy", 0, 8, 2);
    assert_eq!(profiler.block(8).label, label_of(b"xy"));
    assert_eq!(profiler.block(8).label, [b'x', b'y', 0, 0, 0, 0, 0, 0, 0, 0, 0, 0, 0, 0, 0, 0]);
}

#[test]
fn name_after_a_full_label_leaves_nothing_of_it() {
    let mut profiler = Profiler::new();
    let first = __Timer::new(&mut profiler, "0123456789abcdef", 0, 8, 0);
    first.drop(&mut profiler, 1);
    let _second = __Timer::new(&mut profiler, "0123456789abcde", 0, 8, 2);
    assert_eq!(profiler.block(8).label, label_of(b"0123456789abcde"));
    assert_eq!(profiler.block(8).label[15], 0);
}

#[test]
fn scope_in_the_roots_slot_cancels_its_own_charge() {
    let mut profiler = Profiler::new();
    let timer = __Timer::new(&mut profiler, "zero", 0, 0, 10);
    assert_eq!(timer.parent, 0);
    timer.drop(&mut profiler, 30);
    let block = profiler.block(0);
    assert_eq!(block.elapsed_exclusive, 0);
    assert_eq!(block.elapsed_inclusive, 20);
    assert_eq!(block.hit_count, 1);
}

#[test]
fn last_slot_can_be_entered() {
    let mut profiler = Profiler::new();
    let timer = __Timer::new(&mut profiler, "last", 0, 4094, 0);
    timer.drop(&mut profiler, 4);
    assert_eq!(profiler.block(4094).elapsed_inclusive, 4);
}

#[test]
fn try_drop_commits_like_drop() {
    let mut profiler = Profiler::new();
    let timer = __Timer::new(&mut profiler, "a", 3, 7, 100);
    assert!(timer.try_drop(&mut profiler, 350));
    let block = profiler.block(7);
    assert_eq!(block.elapsed_exclusive, 250);
    assert_eq!(block.elapsed_inclusive, 250);
    assert_eq!(block.hit_count, 1);
    assert_eq!(block.processed_byte_count, 3);
    assert_eq!(profiler.parent_index(), 0);
}

#[test]
fn try_drop_refuses_a_slot_outside_the_table() {
    let mut profiler = Profiler::new();
    let held = __Timer::new(&mut profiler, "a", 0, 7, 100);
    let stray = __Timer { start: 0, index: 4095, parent: 0, old_elapsed_inclusive: 0, bytes: 0 };
    assert!(!stray.try_drop(&mut profiler, 10));
    let stray = __Timer { start: 0, index: 1, parent: 4095, old_elapsed_inclusive: 0, bytes: 0 };
    assert!(!stray.try_drop(&mut profiler, 10));
    assert_eq!(profiler.parent_index(), 7);
    assert_eq!(profiler.block(1).hit_count, 0);
    assert_eq!(profiler.block(0).elapsed_exclusive, 0);
    assert!(held.try_drop(&mut profiler, 101));
}

#[test]
fn try_drop_refuses_a_count_that_would_not_fit() {
    let mut profiler = Profiler::new();
    let full = __Timer { start: 0, index: 1, parent: 0, old_elapsed_inclusive: u64::MAX, bytes: 0 };
    assert!(!full.clone().try_drop(&mut profiler, 1));
    assert!(full.try_drop(&mut profiler, 0));
    assert_eq!(profiler.block(1).elapsed_inclusive, u64::MAX);
    assert_eq!(profiler.block(1).hit_count, 1);

    let first = __Timer { start: 0, index: 2, parent: 0, old_elapsed_inclusive: 0, bytes: u64::MAX };
    assert!(first.try_drop(&mut profiler, 1));
    let more = __Timer { start: 0, index: 2, parent: 0, old_elapsed_inclusive: 0, bytes: 1 };
    assert!(!more.try_drop(&mut profiler, 1));
    assert_eq!(profiler.block(2).processed_byte_count, u64::MAX);
    assert_eq!(profiler.block(2).hit_count, 1);
}
