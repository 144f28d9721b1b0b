use peach_profiler::{DebugAnchors, HashCollision, Profiler, __Timer};

fn packed(name: &[u8]) -> u128 {
    let mut label = [0u8; 16];
    label[..name.len()].copy_from_slice(name);
    u128::from_le_bytes(label)
}

#[test]
fn debug_table_starts_empty() {
    let debug = DebugAnchors::new();
    for i in 0..4095 {
        assert_eq!(debug.known(i), 0);
    }
}

#[test]
fn first_entry_makes_the_label_known() {
    let mut profiler = Profiler::new();
    let mut debug = DebugAnchors::new();
    let timer = __Timer::new_debug(&mut profiler, &mut debug, "alpha", 4, 3, 10);
    let timer = match timer {
        Ok(timer) => timer,
        Err(_) => panic!("a first entry cannot collide"),
    };
    assert_eq!(timer.start, 10);
    assert_eq!(timer.index, 3);
    assert_eq!(timer.parent, 0);
    assert_eq!(timer.bytes, 4);
    assert_eq!(debug.known(3), packed(b"alpha"));
    assert_eq!(debug.known(2), 0);
    assert_eq!(profiler.parent_index(), 3);
    assert_eq!(profiler.block(3).label, packed(b"alpha").to_le_bytes());
    timer.drop(&mut profiler, 15);
    assert_eq!(profiler.block(3).hit_count, 1);
}

#[test]
fn same_label_may_enter_again() {
    let mut profiler = Profiler::new();
    let mut debug = DebugAnchors::new();
    let first = __Timer::new_debug(&mut profiler, &mut debug, "alpha", 0, 3, 10);
    assert!(first.is_ok());
    let second = __Timer::new_debug(&mut profiler, &mut debug, "alpha", 0, 3, 11);
    assert!(second.is_ok());
    assert_eq!(debug.known(3), packed(b"alpha"));
    assert_eq!(profiler.parent_index(), 3);
}

#[test]
fn other_label_in_a_known_slot_is_a_collision() {
    let mut profiler = Profiler::new();
    let mut debug = DebugAnchors::new();
    let first = __Timer::new_debug(&mut profiler, &mut debug, "alpha", 0, 3, 10);
    let first = match first {
        Ok(timer) => timer,
        Err(_) => panic!("a first entry cannot collide"),
    };
    first.drop(&mut profiler, 12);
    let second = __Timer::new_debug(&mut profiler, &mut debug, "beta", 0, 3, 20);
    let collision: HashCollision = match second {
        Ok(_) => panic!("two labels in one slot"),
        Err(collision) => collision,
    };
    assert_eq!(collision.index, 3);
    assert_eq!(collision.known, packed(b"alpha"));
    assert_eq!(collision.name, b"beta");
    assert_eq!(profiler.parent_index(), 0);
    assert_eq!(profiler.block(3).label, packed(b"alpha").to_le_bytes());
    assert_eq!(debug.known(3), packed(b"alpha"));
    assert_eq!(
        String::from_utf8(collision.message()).unwrap(),
        "Hash collisions found! alpha and beta both hashed to 3"
    );
}

#[test]
fn collision_message_replaces_what_is_not_text() {
    let collision = HashCollision { index: 4094, known: 0xFF, name: vec![b'o', b'k'] };
    assert_eq!(
        String::from_utf8(collision.message()).unwrap(),
        "Hash collisions found! invalid name and ok both hashed to 4094"
    );
    let collision = HashCollision { index: 0, known: packed(b"fine"), name: vec![0xC3] };
    assert_eq!(
        String::from_utf8(collision.message()).unwrap(),
        "Hash collisions found! fine and invalid name both hashed to 0"
    );
}

#[test]
fn names_that_agree_on_the_label_do_not_collide() {
    let mut profiler = Profiler::new();
    let mut debug = DebugAnchors::new();
    let first =
        __Timer::new_debug(&mut profiler, &mut debug, "function_with_a_really_long_name", 0, 9, 0);
    assert!(first.is_ok());
    let second =
        __Timer::new_debug(&mut profiler, &mut debug, "function_with_a_different_tail", 0, 9, 1);
    assert!(second.is_ok());
    assert_eq!(debug.known(9), packed(b"function_with_a_"));
}

#[test]
fn shorter_name_after_a_longer_one_is_a_collision() {
    let mut profiler = Profiler::new();
    let mut debug = DebugAnchors::new();
    let first = __Timer::new_debug(&mut profiler, &mut debug, "alpha", 0, 7, 10);
    let first = match first {
        Ok(timer) => timer,
        Err(_) => panic!("a first entry cannot collide"),
    };
    first.drop(&mut profiler, 12);
    let second = __Timer::new_debug(&mut profiler, &mut debug, "al", 0, 7, 20);
    let collision = match second {
        Ok(_) => panic!("two labels in one slot"),
        Err(collision) => collision,
    };
    assert_eq!(collision.index, 7);
    assert_eq!(collision.known, packed(b"alpha"));
    assert_eq!(collision.name, b"al");
    assert_eq!(profiler.parent_index(), 0);
    assert_eq!(profiler.block(7).label, packed(b"alpha").to_le_bytes());
    assert_eq!(profiler.block(7).hit_count, 1);
    assert_eq!(debug.known(7), packed(b"alpha"));
    assert_eq!(
        String::from_utf8(collision.message()).unwrap(),
        "Hash collisions found! alpha and al both hashed to 7"
    );
}

#[test]
fn longer_name_after_a_shorter_one_is_a_collision() {
    let mut profiler = Profiler::new();
    let mut debug = DebugAnchors::new();
    let first = __Timer::new_debug(&mut profiler, &mut debug, "al", 0, 7, 10);
    assert!(first.is_ok());
    let second = __Timer::new_debug(&mut profiler, &mut debug, "alpha", 0, 7, 20);
    assert!(second.is_err());
    assert_eq!(debug.known(7), packed(b"al"));
    assert_eq!(profiler.block(7).label, packed(b"al").to_le_bytes());
}

#[test]
fn empty_name_in_a_known_slot_is_a_collision() {
    let mut profiler = Profiler::new();
    let mut debug = DebugAnchors::new();
    let first = __Timer::new_debug(&mut profiler, &mut debug, "alpha", 0, 7, 10);
    assert!(first.is_ok());
    let second = __Timer::new_debug(&mut profiler, &mut debug, "", 0, 7, 20);
    assert!(second.is_err());
    let third = __Timer::new_debug(&mut profiler, &mut debug, "", 0, 8, 30);
    assert!(third.is_ok());
    assert_eq!(debug.known(8), 0);
}
