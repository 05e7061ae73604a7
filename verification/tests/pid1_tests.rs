use flint_init::pid1::{exit_action, parse_octal, tmpfiles_entry, unmount_order, ExitAction};

#[test]
fn unmount_order_skips_root_and_virtual_and_reverses() {
    let mounts = "/dev/sda2 / ext4 rw 0 0\nproc /proc proc rw 0 0\n/dev/sda1 /boot vfat rw 0 0\ntmpfs /run tmpfs rw 0 0\n/dev/sda3 /home ext4 rw 0 0\n/dev/sdb1 /home/data xfs rw 0 0\nshort line\n";
    assert_eq!(unmount_order(mounts), vec!["/home/data", "/home", "/boot"]);
}

#[test]
fn tmpfiles_lines() {
    assert_eq!(tmpfiles_entry("d /run/dbus 0755 root root -"), Some(("/run/dbus".to_string(), 0o755)));
    assert_eq!(tmpfiles_entry("  D /run/lock 1777"), Some(("/run/lock".to_string(), 0o1777)));
    assert_eq!(tmpfiles_entry("d /run/x - root"), Some(("/run/x".to_string(), 0o755)));
    assert_eq!(tmpfiles_entry("d /run/y"), Some(("/run/y".to_string(), 0o755)));
    assert_eq!(tmpfiles_entry("f /run/file 0644"), None);
    assert_eq!(tmpfiles_entry("# d /run/z"), None);
    assert_eq!(tmpfiles_entry("d"), None);
    assert_eq!(tmpfiles_entry("   "), None);
}

#[test]
fn octal_numbers_parse_as_from_str_radix_does() {
    for s in ["0755", "+17", "0", "37777777777", "40000000000", "8", "", "+", "-1", "12a"] {
        assert_eq!(parse_octal(s), u32::from_str_radix(s, 8).ok(), "input {:?}", s);
    }
}

#[test]
fn exit_actions() {
    assert_eq!(exit_action(false, Some("reboot")), ExitAction::Reboot);
    assert_eq!(exit_action(false, Some("halt")), ExitAction::Halt);
    assert_eq!(exit_action(false, None), ExitAction::Halt);
    assert_eq!(exit_action(false, Some("whatever")), ExitAction::Halt);
    assert_eq!(exit_action(true, Some("halt")), ExitAction::Reboot);
}
