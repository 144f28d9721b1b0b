use peach_profiler::report::{report_line, report_rows, RowNumbers, Totals};
use peach_profiler::{Profiler, __MainTimer, __Timer, __peach_hash};

struct Counter(u64);

impl Counter {
    fn read(&mut self) -> u64 {
        self.0 += 1;
        self.0
    }
}

fn plain(text: &str) -> Vec<u8> {
    text.as_bytes().to_vec()
}

fn fibonacci(profiler: &mut Profiler, counter: &mut Counter, slot: usize, x: usize) -> usize {
    let timer = __Timer::new(profiler, "fibonacci", 0, slot, counter.read());
    let answer = if x == 0 || x == 1 {
        1
    } else {
        fibonacci(profiler, counter, slot, x - 1) + fibonacci(profiler, counter, slot, x - 2)
    };
    timer.drop(profiler, counter.read());
    answer
}

#[test]
fn recursive_fibonacci_inside_a_block() {
    let mut profiler = Profiler::new();
    let mut counter = Counter(0);
    let block_slot = __peach_hash("src/main.rs:8");
    let function_slot = __peach_hash("src/main.rs:30");
    assert_ne!(block_slot, function_slot);

    let main_timer = __MainTimer::new(0, counter.read());
    let block = __Timer::new(&mut profiler, "answer_block", 0, block_slot, counter.read());
    let answer = fibonacci(&mut profiler, &mut counter, function_slot, 22);
    block.drop(&mut profiler, counter.read());
    let totals = main_timer.finish(1712, counter.read());

    assert_eq!(answer, 28657);
    let function = profiler.block(function_slot);
    assert_eq!(function.hit_count, 57313);
    assert_eq!(&function.label[..9], b"fibonacci");
    assert_eq!(function.elapsed_inclusive, 2 * 57313 - 1);
    assert_eq!(function.elapsed_exclusive, 2 * 57313 - 1);
    let outer = profiler.block(block_slot);
    assert_eq!(outer.hit_count, 1);
    assert_eq!(&outer.label[..12], b"answer_block");
    assert_eq!(outer.elapsed_inclusive, 2 * 57313 + 1);
    assert_eq!(outer.elapsed_exclusive, 2);
    assert_eq!(totals.total_cpu, 2 * 57313 + 3);
    assert_eq!(profiler.parent_index(), 0);

    let rows = report_rows(&profiler);
    assert_eq!(rows.len(), 2);
    let numbers = RowNumbers {
        percent_exclusive: plain("0.00"),
        percent_inclusive: plain("100.00"),
        megabytes: plain("0.000"),
        gigabytes_per_second: plain("0.00"),
    };
    let block_row = rows.iter().find(|row| row.index == block_slot).unwrap();
    let line = String::from_utf8(report_line(block_row, &totals, &numbers)).unwrap();
    assert_eq!(line, "\tanswer_block[1]: 2, (0.00%, 100.00% w/children)\n");
    let function_row = rows.iter().find(|row| row.index == function_slot).unwrap();
    let line = String::from_utf8(report_line(function_row, &totals, &numbers)).unwrap();
    assert_eq!(line, "\tfibonacci[57313]: 114625, (0.00%)\n");
}

#[test]
fn single_block_without_children() {
    let mut profiler = Profiler::new();
    let slot = __peach_hash("src/main.rs:4");
    let timer = __Timer::new(&mut profiler, "a", 0, slot, 1_000);
    timer.drop(&mut profiler, 3_001_000);
    let totals = Totals { total_os: 1_000, total_cpu: 3_000_100 };
    let rows = report_rows(&profiler);
    assert_eq!(rows.len(), 1);
    assert_eq!(rows[0].block.elapsed_inclusive, rows[0].block.elapsed_exclusive);
    let numbers = RowNumbers {
        percent_exclusive: plain("100.00"),
        percent_inclusive: plain("100.00"),
        megabytes: plain("0.000"),
        gigabytes_per_second: plain("0.00"),
    };
    let line = String::from_utf8(report_line(&rows[0], &totals, &numbers)).unwrap();
    assert_eq!(line, "\ta[1]: 3000000, (100.00%)\n");
}

#[test]
fn block_with_bandwidth() {
    let mut profiler = Profiler::new();
    let slot = __peach_hash("src/main.rs:11");
    let timer = __Timer::new(&mut profiler, "copy", 1_048_576, slot, 50);
    timer.drop(&mut profiler, 3_000_050);
    assert_eq!(profiler.block(slot).processed_byte_count, 1_048_576);
    let totals = Totals { total_os: 1_000, total_cpu: 3_000_100 };
    let rows = report_rows(&profiler);
    let numbers = RowNumbers {
        percent_exclusive: plain("100.00"),
        percent_inclusive: plain("100.00"),
        megabytes: plain("1.000"),
        gigabytes_per_second: plain("0.98"),
    };
    let line = String::from_utf8(report_line(&rows[0], &totals, &numbers)).unwrap();
    assert!(line.contains("copy[1]: "));
    assert!(line.ends_with(" 1.000mb at 0.98gb/s\n"));
    assert_eq!(line, "\tcopy[1]: 3000000, (100.00%) 1.000mb at 0.98gb/s\n");
}

#[test]
fn collisions_go_unnoticed_without_the_check() {
    let mut profiler = Profiler::new();
    let first = __Timer::new(&mut profiler, "first", 0, 77, 0);
    first.drop(&mut profiler, 10);
    let second = __Timer::new(&mut profiler, "other", 0, 77, 20);
    second.drop(&mut profiler, 25);
    let block = profiler.block(77);
    assert_eq!(block.hit_count, 2);
    assert_eq!(block.elapsed_inclusive, 15);
    assert_eq!(block.elapsed_exclusive, 15);
    assert_eq!(&block.label[..5], b"other");
}
