use flint_init::scaffold::{detect_foreground_flag, detect_readiness_block, readiness_block_from_lower, scaffold_text};

#[test]
fn detects_no_daemon_flag() {
    let help = "Usage: mysqld [OPTIONS]\n  --no-daemon   Run in foreground\n";
    assert_eq!(detect_foreground_flag(help), Some("--no-daemon"));
}

#[test]
fn detects_nofork_flag() {
    let help = "  --nofork   Do not fork into background\n";
    assert_eq!(detect_foreground_flag(help), Some("--nofork"));
}

#[test]
fn returns_none_when_no_flag_found() {
    let help = "Usage: myapp [OPTIONS]\n  --verbose   Be verbose\n";
    assert_eq!(detect_foreground_flag(help), None);
}

#[test]
fn detects_socket_readiness() {
    let help = "  --socket /run/foo.sock   Unix socket path\n";
    let block = detect_readiness_block("foo", help).unwrap();
    assert!(block.contains("socket"));
    assert!(block.contains("/run/foo.sock"));
}

#[test]
fn detects_pidfile_readiness() {
    let help = "  --pidfile /run/foo.pid   Write PID to file\n";
    let block = detect_readiness_block("foo", help).unwrap();
    assert!(block.contains("pidfile"));
    assert!(block.contains("/run/foo/foo.pid"));
}

#[test]
fn socket_takes_priority_over_pidfile() {
    let help = "  --socket /run/foo.sock\n  --pidfile /run/foo.pid\n";
    let block = detect_readiness_block("foo", help).unwrap();
    assert!(block.contains("strategy = \"socket\""));
}

#[test]
fn returns_none_when_no_readiness_hint() {
    let help = "Usage: myapp\n  --verbose\n";
    assert!(detect_readiness_block("myapp", help).is_none());
}

#[test]
fn foreground_flags_checked_in_priority_order() {
    // Both --foreground and --no-daemon present: --foreground wins
    let help = "  --no-daemon\n  --foreground\n";
    assert_eq!(detect_foreground_flag(help), Some("--foreground"));
}

// --- further cases ---

#[test]
fn readiness_hints_are_case_insensitive() {
    let block = detect_readiness_block("db", "  --PID-File PATH\n").unwrap();
    assert_eq!(block, "[ready]\nstrategy = \"pidfile\"\npath = \"/run/db/db.pid\"   # verify path");
    let block = detect_readiness_block("db", "Listens on a UNIX Socket").unwrap();
    assert_eq!(block, "[ready]\nstrategy = \"socket\"\npath = \"/run/db.sock\"   # verify path");
}

#[test]
fn readiness_block_from_lower_text() {
    assert_eq!(
        readiness_block_from_lower("x", "write a pid file"),
        Some("[ready]\nstrategy = \"pidfile\"\npath = \"/run/x/x.pid\"   # verify path".to_string())
    );
    assert_eq!(readiness_block_from_lower("x", "PIDFILE"), None);
}

#[test]
fn short_foreground_flag_is_last_resort() {
    assert_eq!(detect_foreground_flag("use -f to stay up"), Some("-f"));
}

#[test]
fn scaffold_for_a_binary_that_could_not_run() {
    let text = scaffold_text("foo", "/usr/bin/foo", None);
    assert_eq!(
        text,
        "[service]\nname = \"foo\"\n# exec = \"/usr/bin/foo\"   # binary not found or foreground flag unknown — verify manually\nrestart = \"on-failure\"\n\n# [deps]\n# needs = [\"dbus\"]\n\n# [ready]  # could not probe binary — add manually\n"
    );
}

#[test]
fn scaffold_with_detected_flag_and_socket() {
    let text = scaffold_text("bar", "/usr/sbin/bar", Some("  --nodaemon\n  --socket PATH\n"));
    assert_eq!(
        text,
        "[service]\nname = \"bar\"\nexec = \"/usr/sbin/bar --nodaemon\"   # auto-detected\nrestart = \"on-failure\"\n\n# [deps]\n# needs = [\"dbus\"]\n\n[ready]\nstrategy = \"socket\"\npath = \"/run/bar.sock\"   # verify path\n"
    );
}

#[test]
fn scaffold_without_hints() {
    let text = scaffold_text("baz", "/bin/baz", Some("usage: baz"));
    assert!(text.contains("exec = \"/bin/baz\"   # foreground flag unknown — verify manually\n"));
    assert!(text.ends_with("# [ready]  # readiness strategy unknown — add manually\n"));
}
