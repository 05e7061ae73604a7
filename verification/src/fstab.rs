//! `/etc/fstab`: which entries to mount at boot, from which device, with which flags.
use vstd::prelude::*;
use crate::text::{
    has_prefix, join, join_strings, lines, pieces, split_lines, split_on, split_whitespace, str_eq, str_starts_with,
    trim, trim_start, trim_str, views, words,
};

verus! {

/// One line of `/etc/fstab`: device, mount point, filesystem type and options.
#[derive(Debug, Clone)]
pub struct FstabEntry {
    pub spec: String,
    pub file: String,
    pub vfstype: String,
    pub options: String,
}

/// The four fields of an entry.
pub open spec fn entry_view(e: FstabEntry) -> (Seq<char>, Seq<char>, Seq<char>, Seq<char>) {
    (e.spec@, e.file@, e.vfstype@, e.options@)
}

/// A line that is neither a comment nor blank.
pub open spec fn is_entry_line(line: Seq<char>) -> bool {
    !(trim_start(line).len() > 0 && trim_start(line)[0] == '#') && trim(line).len() > 0
}

/// The entry a line describes: its first four words, when it has four.
pub open spec fn line_entry(line: Seq<char>) -> Option<(Seq<char>, Seq<char>, Seq<char>, Seq<char>)> {
    let w = words(line);
    if w.len() < 4 {
        None
    } else {
        Some((w[0], w[1], w[2], w[3]))
    }
}

/// The entries of a sequence of lines, in order: comments, blank lines and lines
/// with fewer than four fields are passed over.
pub open spec fn fstab_entries(ls: Seq<Seq<char>>) -> Seq<(Seq<char>, Seq<char>, Seq<char>, Seq<char>)>
    decreases ls.len(),
{
    if ls.len() == 0 {
        Seq::empty()
    } else {
        let prev = fstab_entries(ls.drop_last());
        if is_entry_line(ls.last()) && line_entry(ls.last()) is Some {
            prev.push(line_entry(ls.last())->Some_0)
        } else {
            prev
        }
    }
}

/// The entries of an fstab file.
pub fn parse_fstab(content: &str) -> (r: Vec<FstabEntry>)
    ensures
        r@.map_values(|e: FstabEntry| entry_view(e)) == fstab_entries(lines(content@)),
{
    let ls = split_lines(content);
    let ghost lv = views(ls@);
    let mut out: Vec<FstabEntry> = Vec::new();
    let mut k: usize = 0;
    while k < ls.len()
        invariant
            k <= ls@.len(),
            lv == views(ls@),
            out@.map_values(|e: FstabEntry| entry_view(e)) == fstab_entries(lv.take(k as int)),
        decreases ls@.len() - k,
    {
        let line = ls[k].as_str();
        let ghost l = lv[k as int];
        proof {
            assert(lv.take(k as int + 1).drop_last() =~= lv.take(k as int));
            assert(lv.take(k as int + 1).last() == l);
            assert(line@ == l);
        }
        let t = trim_str(line);
        let lead = trim_start_str(line);
        let comment = match first_char(lead.as_str()) {
            Some(ch) => ch == '#',
            None => false,
        };
        if !comment && t.unicode_len() > 0 {
            let parts = split_whitespace(line);
            if parts.len() >= 4 {
                let ghost before = out@;
                out.push(
                    FstabEntry {
                        spec: parts[0].clone(),
                        file: parts[1].clone(),
                        vfstype: parts[2].clone(),
                        options: parts[3].clone(),
                    },
                );
                proof {
                    assert(views(parts@)[0] == parts@[0]@);
                    assert(views(parts@)[1] == parts@[1]@);
                    assert(views(parts@)[2] == parts@[2]@);
                    assert(views(parts@)[3] == parts@[3]@);
                    assert(out@.map_values(|e: FstabEntry| entry_view(e)) =~= before.map_values(
                        |e: FstabEntry| entry_view(e),
                    ).push(line_entry(l)->Some_0));
                }
            }
        }
        k = k + 1;
    }
    assert(lv.take(ls@.len() as int) =~= lv);
    out
}

/// `s` without its leading whitespace.
fn trim_start_str(s: &str) -> (r: String)
    ensures
        r@ == trim_start(s@),
{
    let c = crate::text::chars_of(s);
    let n = c.len();
    let mut a: usize = 0;
    assert(s@.skip(0) =~= s@);
    while a < n && crate::text::char_is_whitespace(c[a])
        invariant
            c@ == s@,
            n == s@.len(),
            a <= n,
            trim_start(s@) == trim_start(s@.skip(a as int)),
        decreases n - a,
    {
        assert(s@.skip(a as int).drop_first() =~= s@.skip(a as int + 1));
        a = a + 1;
    }
    assert(s@.skip(a as int) =~= s@.subrange(a as int, n as int));
    String::from_str(s.substring_char(a, n))
}

/// The first character of a string, if it has one.
fn first_char(s: &str) -> (r: Option<char>)
    ensures
        match r {
            Some(c) => s@.len() > 0 && c == s@[0],
            None => s@.len() == 0,
        },
{
    if s.unicode_len() == 0 {
        None
    } else {
        Some(s.get_char(0))
    }
}

/// Filesystem types that are set up by the kernel or by early boot, never from fstab.
pub open spec fn is_virtual(t: Seq<char>) -> bool {
    t == "proc"@ || t == "sysfs"@ || t == "devtmpfs"@ || t == "devpts"@ || t == "tmpfs"@ || t == "cgroup"@
        || t == "cgroup2"@ || t == "efivarfs"@ || t == "bpf"@ || t == "debugfs"@ || t == "pstore"@
        || t == "securityfs"@ || t == "hugetlbfs"@ || t == "mqueue"@ || t == "tracefs"@ || t == "fusectl"@
        || t == "rootfs"@
}

/// Whether a filesystem type is one of the virtual ones.
pub fn is_virtual_type(t: &str) -> (r: bool)
    ensures
        r == is_virtual(t@),
{
    str_eq(t, "proc") || str_eq(t, "sysfs") || str_eq(t, "devtmpfs") || str_eq(t, "devpts") || str_eq(t, "tmpfs")
        || str_eq(t, "cgroup") || str_eq(t, "cgroup2") || str_eq(t, "efivarfs") || str_eq(t, "bpf") || str_eq(
        t,
        "debugfs",
    ) || str_eq(t, "pstore") || str_eq(t, "securityfs") || str_eq(t, "hugetlbfs") || str_eq(t, "mqueue")
        || str_eq(t, "tracefs") || str_eq(t, "fusectl") || str_eq(t, "rootfs")
}

/// The options string lists `noauto` (among its comma-separated, trimmed options).
pub open spec fn has_noauto(options: Seq<char>) -> bool {
    exists|k: int| 0 <= k < pieces(options, ',').len() && #[trigger] trim(pieces(options, ',')[k]) == "noauto"@
}

/// An entry is mounted at boot unless it is the root filesystem, is marked
/// `noauto`, or has a virtual filesystem type.
pub open spec fn mount_wanted(e: FstabEntry) -> bool {
    e.file@ != "/"@ && !has_noauto(e.options@) && !is_virtual(e.vfstype@)
}

/// Whether an entry is to be mounted at boot.
pub fn should_mount(entry: &FstabEntry) -> (r: bool)
    ensures
        r == mount_wanted(*entry),
{
    if str_eq(entry.file.as_str(), "/") {
        return false;
    }
    let opts = split_on(entry.options.as_str(), ',');
    let ghost ps = pieces(entry.options@, ',');
    let mut k: usize = 0;
    while k < opts.len()
        invariant
            k <= opts@.len(),
            ps == pieces(entry.options@, ','),
            views(opts@) == ps,
            forall|q: int| 0 <= q < k ==> trim(#[trigger] ps[q]) != "noauto"@,
        decreases opts@.len() - k,
    {
        let t = trim_str(opts[k].as_str());
        proof {
            assert(ps[k as int] == opts@[k as int]@);
        }
        if str_eq(t.as_str(), "noauto") {
            assert(ps.len() == opts@.len());
            assert(trim(ps[k as int]) == "noauto"@);
            assert(has_noauto(entry.options@));
            return false;
        }
        k = k + 1;
    }
    !is_virtual_type(entry.vfstype.as_str())
}

/// `rest` appended to the directory `base` as `Path::join` does: an absolute
/// `rest` replaces `base`, anything else follows it after a `/`.
pub open spec fn join_path(base: Seq<char>, rest: Seq<char>) -> Seq<char> {
    if rest.len() > 0 && rest[0] == '/' {
        rest
    } else {
        base + "/"@ + rest
    }
}

/// The device path an fstab device field names: `UUID=` and `LABEL=` fields
/// resolve under `/dev/disk/by-uuid` and `/dev/disk/by-label`; anything else is
/// already a path.
pub open spec fn resolved_spec(s: Seq<char>) -> Seq<char> {
    if has_prefix(s, "UUID="@) {
        join_path("/dev/disk/by-uuid"@, s.skip("UUID="@.len() as int))
    } else if has_prefix(s, "LABEL="@) {
        join_path("/dev/disk/by-label"@, s.skip("LABEL="@.len() as int))
    } else {
        s
    }
}

/// Joins a path to a directory, as `Path::join` does.
fn join_path_str(base: &str, rest: &str) -> (r: String)
    ensures
        r@ == join_path(base@, rest@),
{
    match first_char(rest) {
        Some(c) => {
            if c == '/' {
                return String::from_str(rest);
            }
        },
        None => {},
    }
    let mut out = String::from_str(base);
    out.append("/");
    out.append(rest);
    out
}

/// The device path for an fstab device field.
pub fn resolve_spec(spec: &str) -> (r: String)
    ensures
        r@ == resolved_spec(spec@),
{
    let n = spec.unicode_len();
    if str_starts_with(spec, "UUID=") {
        proof {
            reveal_strlit("UUID=");
        }
        join_path_str("/dev/disk/by-uuid", spec.substring_char(5, n))
    } else if str_starts_with(spec, "LABEL=") {
        proof {
            reveal_strlit("LABEL=");
        }
        join_path_str("/dev/disk/by-label", spec.substring_char(6, n))
    } else {
        String::from_str(spec)
    }
}

} // verus!

verus! {

/// `nix::mount::MsFlags::MS_RDONLY`, as bits: libc's `MS_RDONLY`, 0x01 on Linux.
#[verifier::external_body]
fn ms_rdonly() -> (r: u64)
    ensures
        r == 0x01,
{
    nix::mount::MsFlags::MS_RDONLY.bits() as u64
}

/// `nix::mount::MsFlags::MS_NOSUID`, as bits: libc's `MS_NOSUID`, 0x02 on Linux.
#[verifier::external_body]
fn ms_nosuid() -> (r: u64)
    ensures
        r == 0x02,
{
    nix::mount::MsFlags::MS_NOSUID.bits() as u64
}

/// `nix::mount::MsFlags::MS_NODEV`, as bits: libc's `MS_NODEV`, 0x04 on Linux.
#[verifier::external_body]
fn ms_nodev() -> (r: u64)
    ensures
        r == 0x04,
{
    nix::mount::MsFlags::MS_NODEV.bits() as u64
}

/// `nix::mount::MsFlags::MS_NOEXEC`, as bits: libc's `MS_NOEXEC`, 0x08 on Linux.
#[verifier::external_body]
fn ms_noexec() -> (r: u64)
    ensures
        r == 0x08,
{
    nix::mount::MsFlags::MS_NOEXEC.bits() as u64
}

/// `nix::mount::MsFlags::MS_SYNCHRONOUS`, as bits: libc's `MS_SYNCHRONOUS`, 0x10 on Linux.
#[verifier::external_body]
fn ms_synchronous() -> (r: u64)
    ensures
        r == 0x10,
{
    nix::mount::MsFlags::MS_SYNCHRONOUS.bits() as u64
}

/// `nix::mount::MsFlags::MS_RELATIME`, as bits: libc's `MS_RELATIME`, 0x200000 on Linux.
#[verifier::external_body]
fn ms_relatime() -> (r: u64)
    ensures
        r == 0x200000,
{
    nix::mount::MsFlags::MS_RELATIME.bits() as u64
}

/// `nix::mount::MsFlags::MS_STRICTATIME`, as bits: libc's `MS_STRICTATIME`, 0x1000000 on Linux.
#[verifier::external_body]
fn ms_strictatime() -> (r: u64)
    ensures
        r == 0x1000000,
{
    nix::mount::MsFlags::MS_STRICTATIME.bits() as u64
}

/// Mount flags, as the bits of the kernel's `MS_*` constants.
#[derive(Debug, Clone, Copy)]
pub struct MountFlags {
    pub bits: u64,
}

impl MountFlags {
    /// No flag set.
    pub fn is_empty(&self) -> (r: bool)
        ensures
            r == (self.bits == 0),
    {
        self.bits == 0
    }

    /// Every bit of `mask` is set.
    pub fn contains_bits(&self, mask: u64) -> (r: bool)
        ensures
            r == (self.bits & mask == mask),
    {
        self.bits & mask == mask
    }
}

/// The flag bits an (already trimmed) fstab option sets.
pub open spec fn option_flag(o: Seq<char>) -> u64 {
    if o == "ro"@ {
        0x01
    } else if o == "noexec"@ {
        0x08
    } else if o == "nosuid"@ {
        0x02
    } else if o == "nodev"@ {
        0x04
    } else if o == "relatime"@ {
        0x200000
    } else if o == "strictatime"@ {
        0x1000000
    } else if o == "sync"@ {
        0x10
    } else {
        0
    }
}

/// Options that are mount flags, or that mean nothing to the kernel.
pub open spec fn is_known_option(o: Seq<char>) -> bool {
    o == "ro"@ || o == "rw"@ || o == "defaults"@ || o == "auto"@ || o == "noauto"@ || o == "noexec"@
        || o == "nosuid"@ || o == "nodev"@ || o == "relatime"@ || o == "strictatime"@ || o == "sync"@
}

/// The flags the options (comma-separated pieces, each trimmed) set.
pub open spec fn flags_of(opts: Seq<Seq<char>>) -> u64
    decreases opts.len(),
{
    if opts.len() == 0 {
        0
    } else {
        flags_of(opts.drop_last()) | option_flag(trim(opts.last()))
    }
}

/// The options (trimmed) that are passed on to the filesystem as data.
pub open spec fn data_options(opts: Seq<Seq<char>>) -> Seq<Seq<char>>
    decreases opts.len(),
{
    if opts.len() == 0 {
        Seq::empty()
    } else {
        let o = trim(opts.last());
        if !is_known_option(o) && o.len() > 0 {
            data_options(opts.drop_last()).push(o)
        } else {
            data_options(opts.drop_last())
        }
    }
}

/// The flag bits of one trimmed option.
fn option_flag_bits(o: &str) -> (r: u64)
    ensures
        r == option_flag(o@),
{
    if str_eq(o, "ro") {
        ms_rdonly()
    } else if str_eq(o, "noexec") {
        ms_noexec()
    } else if str_eq(o, "nosuid") {
        ms_nosuid()
    } else if str_eq(o, "nodev") {
        ms_nodev()
    } else if str_eq(o, "relatime") {
        ms_relatime()
    } else if str_eq(o, "strictatime") {
        ms_strictatime()
    } else if str_eq(o, "sync") {
        ms_synchronous()
    } else {
        0
    }
}

/// Whether a trimmed option is known.
fn is_known_option_str(o: &str) -> (r: bool)
    ensures
        r == is_known_option(o@),
{
    str_eq(o, "ro") || str_eq(o, "rw") || str_eq(o, "defaults") || str_eq(o, "auto") || str_eq(o, "noauto")
        || str_eq(o, "noexec") || str_eq(o, "nosuid") || str_eq(o, "nodev") || str_eq(o, "relatime") || str_eq(
        o,
        "strictatime",
    ) || str_eq(o, "sync")
}

/// Split an fstab options field into mount flags and the data string handed to the
/// filesystem (the other options, comma-joined).
pub fn parse_flags(options: &str) -> (r: (MountFlags, String))
    ensures
        r.0.bits == flags_of(pieces(options@, ',')),
        r.1@ == join(data_options(pieces(options@, ',')), ","@),
{
    let opts = split_on(options, ',');
    let ghost ps = pieces(options@, ',');
    let mut bits: u64 = 0;
    let mut data: Vec<String> = Vec::new();
    let mut k: usize = 0;
    while k < opts.len()
        invariant
            k <= opts@.len(),
            ps == pieces(options@, ','),
            views(opts@) == ps,
            bits == flags_of(ps.take(k as int)),
            views(data@) == data_options(ps.take(k as int)),
        decreases opts@.len() - k,
    {
        let t = trim_str(opts[k].as_str());
        proof {
            assert(ps[k as int] == opts@[k as int]@);
            assert(ps.take(k as int + 1).drop_last() =~= ps.take(k as int));
            assert(ps.take(k as int + 1).last() == ps[k as int]);
        }
        bits = bits | option_flag_bits(t.as_str());
        if !is_known_option_str(t.as_str()) && t.unicode_len() > 0 {
            let ghost before = views(data@);
            data.push(t);
            proof {
                assert(views(data@) =~= before.push(trim(ps[k as int])));
            }
        }
        k = k + 1;
    }
    assert(ps.take(opts@.len() as int) =~= ps);
    (MountFlags { bits }, join_strings(&data, ","))
}

/// The kernel's single-bit mount flags that fstab options can set.
pub open spec fn is_flag_bit(m: u64) -> bool {
    m == 0x01 || m == 0x02 || m == 0x04 || m == 0x08 || m == 0x10 || m == 0x200000 || m == 0x1000000
}

/// Two of the flag values share a bit only when they are the same flag.
proof fn lemma_flag_bits_apart(c: u64, m: u64)
    by (bit_vector)
    requires
        c == 0 || c == 0x01 || c == 0x02 || c == 0x04 || c == 0x08 || c == 0x10 || c == 0x200000 || c == 0x1000000,
        m == 0x01 || m == 0x02 || m == 0x04 || m == 0x08 || m == 0x10 || m == 0x200000 || m == 0x1000000,
    ensures
        (c & m != 0) == (c == m),
        (c | 0) == c,
{
}

/// A bit is set in a union of flags exactly when it is set in one of them.
proof fn lemma_or_has_bit(a: u64, b: u64, m: u64)
    by (bit_vector)
    ensures
        ((a | b) & m != 0) == ((a & m != 0) || (b & m != 0)),
        (0u64 & m) == 0,
{
}

/// The flag set for bit `bit` is set by the options exactly when one of them,
/// trimmed, is `name`, given that `name` is the one option setting `bit`.
proof fn lemma_flag_bit_iff(opts: Seq<Seq<char>>, name: Seq<char>, bit: u64)
    requires
        is_flag_bit(bit),
        forall|o: Seq<char>| #[trigger] option_flag(o) == bit <==> o == name,
    ensures
        (flags_of(opts) & bit != 0) <==> exists|k: int| 0 <= k < opts.len() && #[trigger] trim(opts[k]) == name,
    decreases opts.len(),
{
    if opts.len() == 0 {
        lemma_or_has_bit(0, 0, bit);
    } else {
        let p = opts.drop_last();
        lemma_flag_bit_iff(p, name, bit);
        let x = trim(opts.last());
        lemma_or_has_bit(flags_of(p), option_flag(x), bit);
        lemma_flag_bits_apart(option_flag(x), bit);
        assert(option_flag(x) == bit <==> x == name);
        if exists|k: int| 0 <= k < opts.len() && #[trigger] trim(opts[k]) == name {
            let k = choose|k: int| 0 <= k < opts.len() && #[trigger] trim(opts[k]) == name;
            if k < p.len() {
                assert(trim(p[k]) == name);
            }
        }
        if exists|k: int| 0 <= k < p.len() && #[trigger] trim(p[k]) == name {
            let k = choose|k: int| 0 <= k < p.len() && #[trigger] trim(p[k]) == name;
            assert(trim(opts[k]) == name);
        }
        if x == name {
            assert(trim(opts[opts.len() - 1]) == name);
        }
    }
}

/// What each flag-setting option's text is, letter by letter.
proof fn lemma_option_names_apart()
    ensures
        "ro"@.len() == 2,
        "noexec"@.len() == 6,
        "nosuid"@.len() == 6,
        "nodev"@.len() == 5,
        "relatime"@.len() == 8,
        "strictatime"@.len() == 11,
        "sync"@.len() == 4,
        "noexec"@ != "nosuid"@,
{
    reveal_strlit("ro");
    reveal_strlit("noexec");
    reveal_strlit("nosuid");
    reveal_strlit("nodev");
    reveal_strlit("relatime");
    reveal_strlit("strictatime");
    reveal_strlit("sync");
    assert("noexec"@[2] != "nosuid"@[2]);
}

/// Each mount flag is set by an options field exactly when one of its
/// comma-separated options, trimmed, names it: `ro` sets `MS_RDONLY` (0x01),
/// `nosuid` sets `MS_NOSUID` (0x02), `nodev` sets `MS_NODEV` (0x04), `noexec`
/// sets `MS_NOEXEC` (0x08), `sync` sets `MS_SYNCHRONOUS` (0x10), `relatime` sets
/// `MS_RELATIME` (0x200000) and `strictatime` sets `MS_STRICTATIME` (0x1000000),
/// the values `ms_rdonly` … `ms_strictatime` give.
pub proof fn law_each_flag_set_by_its_option(options: Seq<char>)
    ensures
        ({
            let opts = pieces(options, ',');
            &&& (flags_of(opts) & 0x01 != 0) <==> exists|k: int| 0 <= k < opts.len() && #[trigger] trim(opts[k]) == "ro"@
            &&& (flags_of(opts) & 0x02 != 0) <==> exists|k: int| 0 <= k < opts.len() && #[trigger] trim(opts[k]) == "nosuid"@
            &&& (flags_of(opts) & 0x04 != 0) <==> exists|k: int| 0 <= k < opts.len() && #[trigger] trim(opts[k]) == "nodev"@
            &&& (flags_of(opts) & 0x08 != 0) <==> exists|k: int| 0 <= k < opts.len() && #[trigger] trim(opts[k]) == "noexec"@
            &&& (flags_of(opts) & 0x10 != 0) <==> exists|k: int| 0 <= k < opts.len() && #[trigger] trim(opts[k]) == "sync"@
            &&& (flags_of(opts) & 0x200000 != 0) <==> exists|k: int|
                0 <= k < opts.len() && #[trigger] trim(opts[k]) == "relatime"@
            &&& (flags_of(opts) & 0x1000000 != 0) <==> exists|k: int|
                0 <= k < opts.len() && #[trigger] trim(opts[k]) == "strictatime"@
        }),
{
    let opts = pieces(options, ',');
    lemma_option_names_apart();
    lemma_flag_bit_iff(opts, "ro"@, 0x01);
    lemma_flag_bit_iff(opts, "nosuid"@, 0x02);
    lemma_flag_bit_iff(opts, "nodev"@, 0x04);
    lemma_flag_bit_iff(opts, "noexec"@, 0x08);
    lemma_flag_bit_iff(opts, "sync"@, 0x10);
    lemma_flag_bit_iff(opts, "relatime"@, 0x200000);
    lemma_flag_bit_iff(opts, "strictatime"@, 0x1000000);
}

/// An entry whose filesystem type is one set up by the kernel or early boot
/// (proc, sysfs, devtmpfs, devpts, tmpfs, cgroup, cgroup2, efivarfs, bpf,
/// debugfs, pstore, securityfs, hugetlbfs, mqueue, tracefs, fusectl, rootfs) is
/// never mounted from fstab, whatever its device, mount point and options; nor
/// is the root filesystem, nor an entry marked `noauto`.
pub proof fn law_virtual_and_root_entries_not_mounted(e: FstabEntry)
    ensures
        (e.vfstype@ == "proc"@ || e.vfstype@ == "sysfs"@ || e.vfstype@ == "devtmpfs"@ || e.vfstype@ == "devpts"@
            || e.vfstype@ == "tmpfs"@ || e.vfstype@ == "cgroup"@ || e.vfstype@ == "cgroup2"@ || e.vfstype@
            == "efivarfs"@ || e.vfstype@ == "bpf"@ || e.vfstype@ == "debugfs"@ || e.vfstype@ == "pstore"@
            || e.vfstype@ == "securityfs"@ || e.vfstype@ == "hugetlbfs"@ || e.vfstype@ == "mqueue"@ || e.vfstype@
            == "tracefs"@ || e.vfstype@ == "fusectl"@ || e.vfstype@ == "rootfs"@) ==> !mount_wanted(e),
        e.file@ == "/"@ ==> !mount_wanted(e),
        (exists|k: int| 0 <= k < pieces(e.options@, ',').len() && #[trigger] trim(pieces(e.options@, ',')[k]) == "noauto"@)
            ==> !mount_wanted(e),
{
}

/// An option the kernel or mount itself understands: never passed on as data.
pub open spec fn is_listed_mount_option(o: Seq<char>) -> bool {
    o == "ro"@ || o == "rw"@ || o == "defaults"@ || o == "auto"@ || o == "noauto"@ || o == "noexec"@ || o
        == "nosuid"@ || o == "nodev"@ || o == "relatime"@ || o == "strictatime"@ || o == "sync"@
}

/// The data handed to the filesystem holds, in their order, exactly the options
/// (comma-separated, trimmed) that are nonempty and not among `ro`, `rw`,
/// `defaults`, `auto`, `noauto`, `noexec`, `nosuid`, `nodev`, `relatime`,
/// `strictatime` and `sync`.
pub proof fn law_data_keeps_only_other_options(opts: Seq<Seq<char>>)
    ensures
        forall|k: int|
            0 <= k < data_options(opts).len() ==> {
                let x = #[trigger] data_options(opts)[k];
                &&& x.len() > 0
                &&& !is_listed_mount_option(x)
                &&& exists|j: int| 0 <= j < opts.len() && trim(opts[j]) == x
            },
        forall|j: int|
            0 <= j < opts.len() && #[trigger] trim(opts[j]).len() > 0 && !is_listed_mount_option(trim(opts[j]))
                ==> data_options(opts).contains(trim(opts[j])),
    decreases opts.len(),
{
    if opts.len() > 0 {
        let p = opts.drop_last();
        law_data_keeps_only_other_options(p);
        let d = data_options(opts);
        let dp = data_options(p);
        assert forall|k: int| 0 <= k < d.len() implies {
            let x = #[trigger] d[k];
            &&& x.len() > 0
            &&& !is_listed_mount_option(x)
            &&& exists|j: int| 0 <= j < opts.len() && trim(opts[j]) == x
        } by {
            if k < dp.len() {
                assert(d[k] == dp[k]);
                let j = choose|j: int| 0 <= j < p.len() && trim(p[j]) == dp[k];
                assert(trim(opts[j]) == d[k]);
            } else {
                assert(trim(opts[opts.len() - 1]) == d[k]);
            }
        }
        assert forall|j: int|
            0 <= j < opts.len() && #[trigger] trim(opts[j]).len() > 0 && !is_listed_mount_option(trim(opts[j]))
                implies d.contains(trim(opts[j])) by {
            if j < p.len() {
                assert(trim(p[j]) == trim(opts[j]));
                assert(trim(p[j]).len() > 0);
                let q = choose|q: int| 0 <= q < dp.len() && dp[q] == trim(opts[j]);
                assert(d[q] == dp[q]);
            } else {
                assert(d[d.len() - 1] == trim(opts[j]));
            }
        }
    }
}

} // verus!
