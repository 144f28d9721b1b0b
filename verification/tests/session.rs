use peach_profiler::report::{report, report_header, Totals};
use peach_profiler::{Session, Sink, Toggles};

fn packed(name: &[u8]) -> u128 {
    let mut label = [0u8; 16];
    label[..name.len()].copy_from_slice(name);
    u128::from_le_bytes(label)
}

#[test]
fn sink_follows_the_std_switch() {
    let hosted = Toggles { profile: true, std: true, debug: false };
    let freestanding = Toggles { profile: true, std: false, debug: false };
    assert_eq!(hosted.sink(), Sink::Hosted);
    assert_eq!(freestanding.sink(), Sink::Freestanding);
}

#[test]
fn session_starts_fresh() {
    let session = Session::new(Toggles { profile: true, std: true, debug: true });
    assert!(session.toggles.profile && session.toggles.std && session.toggles.debug);
    assert_eq!(session.profiler.parent_index(), 0);
    assert_eq!(session.profiler.block(17).label, [0; 16]);
    assert_eq!(session.debug.known(17), 0);
    assert!(session.rows().is_empty());
}

#[test]
fn profiling_off_leaves_no_trace() {
    let mut session = Session::new(Toggles { profile: false, std: true, debug: true });
    let entry = session.enter("a", 5, 3, 10);
    assert!(matches!(entry, Ok(None)));
    assert_eq!(session.profiler.parent_index(), 0);
    assert_eq!(session.profiler.block(3).label, [0; 16]);
    assert_eq!(session.debug.known(3), 0);
    assert!(session.rows().is_empty());
    let totals = Totals { total_os: 1712, total_cpu: 7 };
    let text = report(&session.rows(), &totals, b"1.7120", b"4089", &Vec::new());
    assert_eq!(text, report_header(b"1.7120", b"4089"));
}

#[test]
fn profiling_off_hides_rows_that_the_table_holds() {
    let mut session = Session::new(Toggles { profile: true, std: true, debug: false });
    let timer = session.enter("a", 0, 3, 10).ok().flatten().unwrap();
    timer.drop(&mut session.profiler, 20);
    assert_eq!(session.rows().len(), 1);
    session.toggles.profile = false;
    assert!(session.rows().is_empty());
}

#[test]
fn plain_entry_follows_the_protocol() {
    let mut session = Session::new(Toggles { profile: true, std: true, debug: false });
    let timer = session.enter("alpha", 5, 3, 10).ok().flatten().unwrap();
    assert_eq!(timer.start, 10);
    assert_eq!(timer.index, 3);
    assert_eq!(timer.parent, 0);
    assert_eq!(timer.bytes, 5);
    assert_eq!(session.profiler.parent_index(), 3);
    assert_eq!(session.profiler.block(3).label, packed(b"alpha").to_le_bytes());
    assert_eq!(session.debug.known(3), 0);
    let other = session.enter("beta", 0, 3, 11);
    assert!(matches!(other, Ok(Some(_))));
    assert_eq!(session.profiler.block(3).label, packed(b"beta").to_le_bytes());
}

#[test]
fn checked_entry_refuses_another_label() {
    let mut session = Session::new(Toggles { profile: true, std: true, debug: true });
    let timer = session.enter("alpha", 0, 3, 10).ok().flatten().unwrap();
    assert_eq!(session.debug.known(3), packed(b"alpha"));
    timer.drop(&mut session.profiler, 12);
    let again = session.enter("alpha", 0, 3, 13).ok().flatten().unwrap();
    again.drop(&mut session.profiler, 14);
    let refused = session.enter("beta", 0, 3, 20);
    let collision = match refused {
        Err(collision) => collision,
        Ok(_) => panic!("two labels in one slot"),
    };
    assert_eq!(collision.index, 3);
    assert_eq!(collision.known, packed(b"alpha"));
    assert_eq!(collision.name, b"beta");
    assert_eq!(session.profiler.parent_index(), 0);
    assert_eq!(session.profiler.block(3).label, packed(b"alpha").to_le_bytes());
    assert_eq!(session.profiler.block(3).hit_count, 2);
    assert_eq!(session.debug.known(3), packed(b"alpha"));
}

#[test]
fn checked_entry_refuses_a_shorter_name_in_a_known_slot() {
    let mut session = Session::new(Toggles { profile: true, std: true, debug: true });
    let timer = session.enter("alpha", 0, 7, 10).ok().flatten().unwrap();
    timer.drop(&mut session.profiler, 12);
    let refused = session.enter("al", 0, 7, 20);
    let collision = match refused {
        Err(collision) => collision,
        Ok(_) => panic!("two labels in one slot"),
    };
    assert_eq!(collision.index, 7);
    assert_eq!(collision.known, packed(b"alpha"));
    assert_eq!(collision.name, b"al");
    assert_eq!(session.profiler.block(7).label, packed(b"alpha").to_le_bytes());
    assert_eq!(session.debug.known(7), packed(b"alpha"));
}
