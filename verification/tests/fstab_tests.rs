use std::path::Path;

use flint_init::fstab::{parse_flags, parse_fstab, resolve_spec, should_mount, FstabEntry};
use nix::mount::MsFlags;

#[test]
fn parse_fstab_skips_comments_and_blanks() {
    let content = "
# This is a comment
UUID=abc123  /       ext4   defaults  0  1
UUID=def456  /boot   vfat   defaults  0  2

tmpfs        /tmp    tmpfs  defaults  0  0
";
    let entries = parse_fstab(content);
    assert_eq!(entries.len(), 3);
    assert_eq!(entries[0].spec, "UUID=abc123");
    assert_eq!(entries[0].file, "/");
    assert_eq!(entries[1].file, "/boot");
    assert_eq!(entries[2].vfstype, "tmpfs");
}

#[test]
fn should_mount_skips_root() {
    let e = FstabEntry {
        spec: "UUID=abc".into(),
        file: "/".into(),
        vfstype: "ext4".into(),
        options: "defaults".into(),
    };
    assert!(!should_mount(&e));
}

#[test]
fn should_mount_skips_virtual_types() {
    for vt in &["proc", "sysfs", "devtmpfs", "tmpfs", "cgroup2"] {
        let e = FstabEntry {
            spec: "none".into(),
            file: format!("/{}", vt),
            vfstype: vt.to_string(),
            options: "defaults".into(),
        };
        assert!(!should_mount(&e), "should skip vfstype={}", vt);
    }
}

#[test]
fn should_mount_skips_noauto() {
    let e = FstabEntry {
        spec: "UUID=xyz".into(),
        file: "/mnt/backup".into(),
        vfstype: "ext4".into(),
        options: "noauto,defaults".into(),
    };
    assert!(!should_mount(&e));
}

#[test]
fn should_mount_accepts_real_partitions() {
    let e = FstabEntry {
        spec: "UUID=abc".into(),
        file: "/home".into(),
        vfstype: "ext4".into(),
        options: "defaults".into(),
    };
    assert!(should_mount(&e));
}

#[test]
fn resolve_spec_uuid() {
    let p = resolve_spec("UUID=1234-5678");
    assert_eq!(Path::new(&p), Path::new("/dev/disk/by-uuid/1234-5678"));
}

#[test]
fn resolve_spec_label() {
    let p = resolve_spec("LABEL=boot");
    assert_eq!(Path::new(&p), Path::new("/dev/disk/by-label/boot"));
}

#[test]
fn resolve_spec_device_path() {
    let p = resolve_spec("/dev/sda1");
    assert_eq!(Path::new(&p), Path::new("/dev/sda1"));
}

#[test]
fn parse_flags_ro() {
    let (flags, data) = parse_flags("ro,noexec");
    assert!(flags.contains_bits(MsFlags::MS_RDONLY.bits() as u64));
    assert!(flags.contains_bits(MsFlags::MS_NOEXEC.bits() as u64));
    assert!(data.is_empty());
}

#[test]
fn parse_flags_defaults_is_empty() {
    let (flags, data) = parse_flags("defaults");
    assert!(flags.is_empty());
    assert!(data.is_empty());
}

#[test]
fn parse_flags_unknown_goes_to_data() {
    let (_, data) = parse_flags("defaults,uid=1000,gid=1000");
    assert_eq!(data, "uid=1000,gid=1000");
}

// --- further cases ---

#[test]
fn parse_fstab_skips_short_lines_and_indented_comments() {
    let content = "   # indented comment\n/dev/sda1 /data ext4\n/dev/sdb1 /srv xfs noatime 0 2\r\n";
    let entries = parse_fstab(content);
    assert_eq!(entries.len(), 1);
    assert_eq!(entries[0].spec, "/dev/sdb1");
    assert_eq!(entries[0].options, "noatime");
}

#[test]
fn should_mount_sees_noauto_with_spaces_around_it() {
    let e = FstabEntry {
        spec: "/dev/sdc1".into(),
        file: "/mnt/usb".into(),
        vfstype: "vfat".into(),
        options: "rw, noauto ,user".into(),
    };
    assert!(!should_mount(&e));
}

#[test]
fn parse_flags_collects_every_flag() {
    let (flags, data) = parse_flags("nosuid,nodev,relatime,strictatime,sync");
    let want = MsFlags::MS_NOSUID | MsFlags::MS_NODEV | MsFlags::MS_RELATIME | MsFlags::MS_STRICTATIME
        | MsFlags::MS_SYNCHRONOUS;
    assert_eq!(flags.bits, want.bits() as u64);
    assert!(data.is_empty());
}

#[test]
fn parse_flags_trims_and_skips_empty_options() {
    let (flags, data) = parse_flags(" ro , ,mode=0755,");
    assert_eq!(flags.bits, MsFlags::MS_RDONLY.bits() as u64);
    assert_eq!(data, "mode=0755");
}

#[test]
fn resolve_spec_with_absolute_uuid_part_replaces_the_directory() {
    assert_eq!(resolve_spec("UUID=/dev/odd"), "/dev/odd");
    assert_eq!(resolve_spec("LABEL="), "/dev/disk/by-label/");
}
