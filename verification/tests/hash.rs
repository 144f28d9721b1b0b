use peach_profiler::hash::{hash_bytes, ARRAY_LEN};
use peach_profiler::{TimedBlock, __peach_hash};

#[test]
fn peach_hash_hashes_consistently() {
    let expected_hash = __peach_hash("test");
    assert_eq!(expected_hash, 2149);
}

#[test]
fn timed_block_has_a_new_function() {
    let expected_timed_block = TimedBlock::new();
    assert_eq!(expected_timed_block.elapsed_exclusive, 0);
    assert_eq!(expected_timed_block.elapsed_inclusive, 0);
    assert_eq!(expected_timed_block.hit_count, 0);
    assert_eq!(expected_timed_block.label, [0; 16]);
}

#[test]
fn fresh_anchor_counts_no_bytes() {
    assert_eq!(TimedBlock::new().processed_byte_count, 0);
}

#[test]
fn hash_of_nothing_is_the_seed() {
    assert_eq!(hash_bytes(b""), 5381);
    assert_eq!(__peach_hash(""), 1285);
}

#[test]
fn hash_of_one_byte() {
    assert_eq!(hash_bytes(b"a"), 177670);
    assert_eq!(__peach_hash("a"), 1542);
}

#[test]
fn hash_wraps_at_32_bits() {
    let mut expected: u64 = 5381;
    for b in b"a/rather/long/path/to/some/source/file.rs:1234" {
        expected = (expected * 33 + *b as u64) % (1u64 << 32);
    }
    assert_eq!(
        hash_bytes(b"a/rather/long/path/to/some/source/file.rs:1234") as u64,
        expected
    );
}

#[test]
fn hash_of_a_location() {
    assert_eq!(__peach_hash("src/main.rs:12"), 1745);
}

#[test]
fn hash_may_name_the_first_slot() {
    assert_eq!(__peach_hash("eua"), 0);
}

#[test]
fn hash_stays_inside_the_table() {
    assert_eq!(hash_bytes(b"imd") & 0xFFF, 0xFFF);
    assert_eq!(__peach_hash("imd"), 4094);
    assert!(__peach_hash("meh") < ARRAY_LEN);
    assert_eq!(ARRAY_LEN, 4095);
}

#[test]
fn hash_takes_the_bytes_of_the_encoding() {
    let s = "é:1";
    assert_eq!(s.len(), 4);
    let mut expected: u32 = 5381;
    for b in s.as_bytes() {
        expected = expected.wrapping_mul(33).wrapping_add(*b as u32);
    }
    assert_eq!(__peach_hash(s), (expected & 0xFFF) as usize);
}
