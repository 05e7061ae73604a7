use flint_init::ready::{same_name, signals_ready, EventKinds};

fn kinds(created: bool, moved_in: bool, closed_after_write: bool) -> EventKinds {
    EventKinds { created, moved_in, closed_after_write }
}

#[test]
fn creation_of_the_watched_file_signals_ready() {
    assert!(signals_ready(Some(&b"test.pid"[..]), b"test.pid", kinds(true, false, false)));
    assert!(signals_ready(Some(&b"test.pid"[..]), b"test.pid", kinds(false, true, false)));
    assert!(signals_ready(Some(&b"test.pid"[..]), b"test.pid", kinds(false, false, true)));
}

#[test]
fn other_files_do_not_signal_ready() {
    assert!(!signals_ready(Some(&b"other.pid"[..]), b"test.pid", kinds(true, true, true)));
    assert!(!signals_ready(Some(&b"test.pi"[..]), b"test.pid", kinds(true, false, false)));
    assert!(!signals_ready(None, b"test.pid", kinds(true, false, false)));
}

#[test]
fn other_event_kinds_do_not_signal_ready() {
    assert!(!signals_ready(Some(&b"test.pid"[..]), b"test.pid", kinds(false, false, false)));
}

#[test]
fn names_compare_byte_for_byte() {
    assert!(same_name(b"a.sock", b"a.sock"));
    assert!(!same_name(b"a.sock", b"a.socK"));
    assert!(!same_name(b"", b"a"));
    assert!(same_name(b"", b""));
}
