//! PID 1 duties that decide rather than act: which filesystems to detach at the
//! end, which runtime directories tmpfiles.d asks for, and whether to halt or
//! reboot. The mounts, directories and reboot calls are left to the caller.
use vstd::prelude::*;
use crate::fstab::{is_virtual, is_virtual_type};
use crate::text::{lines, split_lines, split_whitespace, str_eq, trim, trim_str, views, words};

verus! {

/// The mount point a `/proc/mounts` line names, if it is one to detach: not the
/// root and not a virtual filesystem.
pub open spec fn unmount_target(line: Seq<char>) -> Option<Seq<char>> {
    let w = words(line);
    if w.len() < 3 || w[1] == "/"@ || is_virtual(w[2]) {
        None
    } else {
        Some(w[1])
    }
}

/// The mount points to detach, in the order of the lines.
pub open spec fn unmount_targets_of(ls: Seq<Seq<char>>) -> Seq<Seq<char>>
    decreases ls.len(),
{
    if ls.len() == 0 {
        Seq::empty()
    } else {
        match unmount_target(ls.last()) {
            Some(p) => unmount_targets_of(ls.drop_last()).push(p),
            None => unmount_targets_of(ls.drop_last()),
        }
    }
}

/// The mount points to detach at shutdown, from the text of `/proc/mounts`:
/// every real filesystem but the root, the most recently mounted first (so that
/// nested mounts go before the mounts they sit on).
pub fn unmount_order(mounts: &str) -> (r: Vec<String>)
    ensures
        views(r@) == unmount_targets_of(lines(mounts@)).reverse(),
{
    let ls = split_lines(mounts);
    let ghost lv = views(ls@);
    let mut found: Vec<String> = Vec::new();
    let mut k: usize = 0;
    while k < ls.len()
        invariant
            k <= ls@.len(),
            lv == views(ls@),
            views(found@) == unmount_targets_of(lv.take(k as int)),
        decreases ls@.len() - k,
    {
        proof {
            assert(lv.take(k as int + 1).drop_last() =~= lv.take(k as int));
            assert(lv.take(k as int + 1).last() == ls@[k as int]@);
        }
        let parts = split_whitespace(ls[k].as_str());
        if parts.len() >= 3 && !str_eq(parts[1].as_str(), "/") && !is_virtual_type(parts[2].as_str()) {
            let ghost before = views(found@);
            found.push(parts[1].clone());
            proof {
                assert(views(parts@)[1] == parts@[1]@);
                assert(views(parts@)[2] == parts@[2]@);
                assert(views(found@) =~= before.push(parts@[1]@));
            }
        } else {
            proof {
                if parts@.len() >= 3 {
                    assert(views(parts@)[1] == parts@[1]@);
                    assert(views(parts@)[2] == parts@[2]@);
                }
            }
        }
        k = k + 1;
    }
    assert(lv.take(ls@.len() as int) =~= lv);
    let mut out: Vec<String> = Vec::new();
    let mut q: usize = found.len();
    while q > 0
        invariant
            q <= found@.len(),
            views(out@) == views(found@).subrange(q as int, found@.len() as int).reverse(),
        decreases q,
    {
        let ghost before = views(out@);
        out.push(found[q - 1].clone());
        proof {
            assert(views(found@).subrange(q as int - 1, found@.len() as int).reverse() =~= before.push(found@[q - 1]@));
        }
        q = q - 1;
    }
    assert(views(found@).subrange(0, found@.len() as int) =~= views(found@));
    out
}

/// The value of a digit of base eight.
pub open spec fn octal_digit(c: char) -> Option<nat> {
    if '0' <= c && c <= '7' {
        Some((c as nat - '0' as nat) as nat)
    } else {
        None
    }
}

/// The value of a string of octal digits, when every character is one.
pub open spec fn octal_value(s: Seq<char>) -> Option<nat>
    decreases s.len(),
{
    if s.len() == 0 {
        Some(0)
    } else {
        match (octal_value(s.drop_last()), octal_digit(s.last())) {
            (Some(v), Some(d)) => Some(v * 8 + d),
            _ => None,
        }
    }
}

/// What `u32::from_str_radix(s, 8)` gives: a leading `+` is allowed, then at least
/// one octal digit, and the value must fit in 32 bits.
pub open spec fn parse_octal_u32(s: Seq<char>) -> Option<u32> {
    let digits = if s.len() > 0 && s[0] == '+' {
        s.drop_first()
    } else {
        s
    };
    if digits.len() == 0 {
        None
    } else {
        match octal_value(digits) {
            Some(v) => if v <= u32::MAX {
                Some(v as u32)
            } else {
                None
            },
            None => None,
        }
    }
}

/// Parses a number written in base eight, as `u32::from_str_radix(s, 8)` does.
pub fn parse_octal(s: &str) -> (r: Option<u32>)
    ensures
        r == parse_octal_u32(s@),
{
    let c = crate::text::chars_of(s);
    let n = c.len();
    let start: usize = if n > 0 && c[0] == '+' { 1 } else { 0 };
    let ghost digits = if s@.len() > 0 && s@[0] == '+' {
        s@.drop_first()
    } else {
        s@
    };
    assert(digits =~= s@.subrange(start as int, n as int));
    if start == n {
        return None;
    }
    let mut v: u32 = 0;
    let mut i: usize = start;
    assert(s@.subrange(start as int, start as int) =~= Seq::<char>::empty());
    while i < n
        invariant
            c@ == s@,
            n == s@.len(),
            start <= i <= n,
            start < n,
            digits == s@.subrange(start as int, n as int),
            digits == (if s@.len() > 0 && s@[0] == '+' {
                s@.drop_first()
            } else {
                s@
            }),
            octal_value(s@.subrange(start as int, i as int)) == Some(v as nat),
        decreases n - i,
    {
        let ch = c[i];
        proof {
            assert(s@.subrange(start as int, i as int + 1).drop_last() =~= s@.subrange(start as int, i as int));
            assert(s@.subrange(start as int, i as int + 1).last() == ch);
        }
        proof {
            assert(s@.subrange(start as int, n as int).take(i + 1 - start) =~= s@.subrange(start as int, i as int + 1));
        }
        if ch < '0' || ch > '7' {
            proof {
                assert(octal_digit(ch) is None);
                assert(octal_value(s@.subrange(start as int, i as int + 1)) is None);
                lemma_octal_none_extends(s@.subrange(start as int, i as int + 1), s@.subrange(start as int, n as int));
                assert(octal_value(digits) is None);
            }
            return None;
        }
        let d = (ch as u32) - ('0' as u32);
        if v > (u32::MAX - d) / 8 {
            proof {
                assert(v * 8 + d > u32::MAX) by (nonlinear_arith)
                    requires
                        v > (u32::MAX - d) / 8,
                        d <= 7,
                ;
                assert(octal_digit(ch) == Some(d as nat));
                assert(octal_value(s@.subrange(start as int, i as int + 1)) == Some((v * 8 + d) as nat));
                lemma_octal_grows(s@.subrange(start as int, i as int + 1), s@.subrange(start as int, n as int));
                assert(octal_value(digits) matches Some(w) ==> w > u32::MAX);
            }
            return None;
        }
        proof {
            assert(v * 8 + d <= u32::MAX) by (nonlinear_arith)
                requires
                    v <= (u32::MAX - d) / 8,
                    d <= 7,
            ;
        }
        v = v * 8 + d;
        i = i + 1;
    }
    Some(v)
}

/// A prefix that is not all octal digits keeps the whole from being a number.
proof fn lemma_octal_none_extends(p: Seq<char>, s: Seq<char>)
    requires
        p.len() <= s.len(),
        s.take(p.len() as int) == p,
        octal_value(p) is None,
    ensures
        octal_value(s) is None,
    decreases s.len(),
{
    if s.len() > p.len() {
        assert(s.drop_last().take(p.len() as int) =~= p);
        lemma_octal_none_extends(p, s.drop_last());
    } else {
        assert(s =~= p);
    }
}

/// The value of a string of octal digits is at least that of any prefix.
proof fn lemma_octal_grows(p: Seq<char>, s: Seq<char>)
    requires
        p.len() <= s.len(),
        s.take(p.len() as int) == p,
        octal_value(p) is Some,
    ensures
        octal_value(s) matches Some(v) ==> v >= octal_value(p)->Some_0,
    decreases s.len(),
{
    if s.len() > p.len() {
        assert(s.drop_last().take(p.len() as int) =~= p);
        lemma_octal_grows(p, s.drop_last());
    } else {
        assert(s =~= p);
    }
}

} // verus!

verus! {

/// The directory a tmpfiles.d line asks for, with its mode: lines of type `d` or
/// `D` with a path; the mode is the third field in octal, or 0o755 when it is
/// missing or not a number. Comments and blank lines ask for nothing.
pub open spec fn tmpfiles_dir(line: Seq<char>) -> Option<(Seq<char>, u32)> {
    let t = trim(line);
    let w = words(t);
    if t.len() == 0 || t[0] == '#' || w.len() < 2 || (w[0] != "d"@ && w[0] != "D"@) {
        None
    } else {
        Some((w[1], if w.len() >= 3 {
            match parse_octal_u32(w[2]) {
                Some(m) => m,
                None => 0o755u32,
            }
        } else {
            0o755u32
        }))
    }
}

/// The directory and mode a tmpfiles.d line asks for, if any.
pub fn tmpfiles_entry(line: &str) -> (r: Option<(String, u32)>)
    ensures
        match r {
            Some(e) => tmpfiles_dir(line@) == Some((e.0@, e.1)),
            None => tmpfiles_dir(line@) is None,
        },
{
    let t = trim_str(line);
    let n = t.unicode_len();
    if n == 0 {
        return None;
    }
    if t.as_str().get_char(0) == '#' {
        return None;
    }
    let parts = split_whitespace(t.as_str());
    if parts.len() < 2 {
        return None;
    }
    proof {
        assert(views(parts@)[0] == parts@[0]@);
        assert(views(parts@)[1] == parts@[1]@);
    }
    if !str_eq(parts[0].as_str(), "d") && !str_eq(parts[0].as_str(), "D") {
        return None;
    }
    let mode = if parts.len() >= 3 {
        proof {
            assert(views(parts@)[2] == parts@[2]@);
        }
        match parse_octal(parts[2].as_str()) {
            Some(m) => m,
            None => 0o755,
        }
    } else {
        0o755
    };
    Some((parts[1].clone(), mode))
}

/// What PID 1 does once every service is done.
#[derive(Debug, Clone, Copy, PartialEq, Eq, Structural)]
pub enum ExitAction {
    Halt,
    Reboot,
}

/// After the services are done, PID 1 detaches the filesystems and then reboots
/// when a reboot was requested (SIGUSR1) or `FLINT_ON_EXIT` is "reboot"; it halts
/// otherwise ("halt", unset, or anything else).
pub fn exit_action(reboot_requested: bool, on_exit: Option<&str>) -> (r: ExitAction)
    ensures
        r == (if reboot_requested || (on_exit matches Some(v) && v@ == "reboot"@) {
            ExitAction::Reboot
        } else {
            ExitAction::Halt
        }),
{
    if reboot_requested {
        return ExitAction::Reboot;
    }
    match on_exit {
        Some(v) => {
            if str_eq(v, "reboot") {
                ExitAction::Reboot
            } else {
                ExitAction::Halt
            }
        },
        None => ExitAction::Halt,
    }
}

} // verus!
