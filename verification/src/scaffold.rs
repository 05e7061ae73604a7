//! `flint-ctl scaffold`: a starting service definition for a binary, guessed from
//! its `--help` output. Running the binary is left to the caller.
use vstd::prelude::*;
use crate::text::{contains_seq, str_contains};

verus! {

/// The flags that make a daemon stay in the foreground, in order of preference.
pub open spec fn foreground_flags() -> Seq<Seq<char>> {
    seq!["--foreground"@, "--no-daemon"@, "--nodaemon"@, "--no-fork"@, "--nofork"@, "-f"@]
}

/// `k` is the first foreground flag that the help text mentions.
pub open spec fn first_flag_mentioned(help: Seq<char>, k: int) -> bool {
    &&& 0 <= k < foreground_flags().len()
    &&& contains_seq(help, foreground_flags()[k])
    &&& forall|j: int| 0 <= j < k ==> !contains_seq(help, #[trigger] foreground_flags()[j])
}

/// Scan --help output for a foreground flag. Returns the first matching flag, in
/// the order `--foreground`, `--no-daemon`, `--nodaemon`, `--no-fork`, `--nofork`, `-f`.
pub fn detect_foreground_flag(help_output: &str) -> (r: Option<&'static str>)
    ensures
        match r {
            Some(f) => exists|k: int| #[trigger] first_flag_mentioned(help_output@, k) && f@ == foreground_flags()[k],
            None => forall|k: int| 0 <= k < foreground_flags().len() ==> !contains_seq(help_output@, #[trigger] foreground_flags()[k]),
        },
{
    let ghost h = help_output@;
    let ghost ff = foreground_flags();
    if str_contains(help_output, "--foreground") {
        assert(first_flag_mentioned(h, 0));
        return Some("--foreground");
    }
    if str_contains(help_output, "--no-daemon") {
        assert(first_flag_mentioned(h, 1));
        return Some("--no-daemon");
    }
    if str_contains(help_output, "--nodaemon") {
        assert(first_flag_mentioned(h, 2));
        return Some("--nodaemon");
    }
    if str_contains(help_output, "--no-fork") {
        assert(first_flag_mentioned(h, 3));
        return Some("--no-fork");
    }
    if str_contains(help_output, "--nofork") {
        assert(first_flag_mentioned(h, 4));
        return Some("--nofork");
    }
    if str_contains(help_output, "-f") {
        assert(first_flag_mentioned(h, 5));
        return Some("-f");
    }
    None
}

/// The foreground flag chosen for a help text is the first of `--foreground`,
/// `--no-daemon`, `--nodaemon`, `--no-fork`, `--nofork` and `-f` that the text
/// contains; when it contains none of them, no flag is chosen.
pub proof fn law_first_listed_foreground_flag(help: Seq<char>)
    ensures
        forall|k: int|
            #[trigger] first_flag_mentioned(help, k) ==> foreground_flags()[k] == (if contains_seq(help, "--foreground"@) {
                "--foreground"@
            } else if contains_seq(help, "--no-daemon"@) {
                "--no-daemon"@
            } else if contains_seq(help, "--nodaemon"@) {
                "--nodaemon"@
            } else if contains_seq(help, "--no-fork"@) {
                "--no-fork"@
            } else if contains_seq(help, "--nofork"@) {
                "--nofork"@
            } else {
                "-f"@
            }),
        (forall|k: int| 0 <= k < foreground_flags().len() ==> !contains_seq(help, #[trigger] foreground_flags()[k]))
            ==> !contains_seq(help, "--foreground"@) && !contains_seq(help, "--no-daemon"@) && !contains_seq(
            help,
            "--nodaemon"@,
        ) && !contains_seq(help, "--no-fork"@) && !contains_seq(help, "--nofork"@) && !contains_seq(help, "-f"@),
{
    let ff = foreground_flags();
    assert forall|k: int| #[trigger] first_flag_mentioned(help, k) implies ff[k] == (if contains_seq(help, "--foreground"@) {
        "--foreground"@
    } else if contains_seq(help, "--no-daemon"@) {
        "--no-daemon"@
    } else if contains_seq(help, "--nodaemon"@) {
        "--nodaemon"@
    } else if contains_seq(help, "--no-fork"@) {
        "--no-fork"@
    } else if contains_seq(help, "--nofork"@) {
        "--nofork"@
    } else {
        "-f"@
    }) by {
        assert(ff[0] == "--foreground"@);
        assert(ff[1] == "--no-daemon"@);
        assert(ff[2] == "--nodaemon"@);
        assert(ff[3] == "--no-fork"@);
        assert(ff[4] == "--nofork"@);
        assert(ff[5] == "-f"@);
        assert(contains_seq(help, ff[k]));
        assert forall|j: int| 0 <= j < k implies !contains_seq(help, #[trigger] ff[j]) by {}
    }
    if forall|k: int| 0 <= k < ff.len() ==> !contains_seq(help, #[trigger] ff[k]) {
        assert(!contains_seq(help, ff[0]));
        assert(!contains_seq(help, ff[1]));
        assert(!contains_seq(help, ff[2]));
        assert(!contains_seq(help, ff[3]));
        assert(!contains_seq(help, ff[4]));
        assert(!contains_seq(help, ff[5]));
    }
}

/// What `str::to_lowercase` gives for a string (Unicode lower-casing).
pub uninterp spec fn lowercase(s: Seq<char>) -> Seq<char>;

/// ASCII lower-casing: `A`..`Z` become `a`..`z`, every other character stays.
pub open spec fn ascii_lowercase(s: Seq<char>) -> Seq<char> {
    s.map_values(|c: char| if 'A' <= c && c <= 'Z' { ((c as u32) + 32) as char } else { c })
}

/// `str::to_lowercase`: the result is named as the Unicode lower-case mapping of
/// the argument; on text made of ASCII characters alone that mapping is ASCII
/// lower-casing. What it does to other characters is left unsaid.
#[verifier::external_body]
fn to_lowercase(s: &str) -> (r: String)
    ensures
        r@ == lowercase(s@),
        (forall|k: int| 0 <= k < s@.len() ==> (s@[k] as u32) < 128) ==> r@ == ascii_lowercase(s@),
{
    s.to_lowercase()
}

/// The `[ready]` block suggested by lower-cased help text, if it hints at a strategy:
/// a mention of "socket" suggests a socket, else one of "pidfile", "pid-file" or
/// "pid file" suggests a pidfile.
pub open spec fn readiness_block(name: Seq<char>, lower: Seq<char>) -> Option<Seq<char>> {
    if contains_seq(lower, "socket"@) {
        Some("[ready]\nstrategy = \"socket\"\npath = \"/run/"@ + name + ".sock\"   # verify path"@)
    } else if contains_seq(lower, "pidfile"@) || contains_seq(lower, "pid-file"@) || contains_seq(lower, "pid file"@) {
        Some("[ready]\nstrategy = \"pidfile\"\npath = \"/run/"@ + name + "/"@ + name + ".pid\"   # verify path"@)
    } else {
        None
    }
}

/// The `[ready]` block for already lower-cased help text.
pub fn readiness_block_from_lower(name: &str, lower: &str) -> (r: Option<String>)
    ensures
        match r {
            Some(b) => readiness_block(name@, lower@) == Some(b@),
            None => readiness_block(name@, lower@) is None,
        },
{
    if str_contains(lower, "socket") {
        let mut b = String::from_str("[ready]\nstrategy = \"socket\"\npath = \"/run/");
        b.append(name);
        b.append(".sock\"   # verify path");
        Some(b)
    } else if str_contains(lower, "pidfile") || str_contains(lower, "pid-file") || str_contains(lower, "pid file") {
        let mut b = String::from_str("[ready]\nstrategy = \"pidfile\"\npath = \"/run/");
        b.append(name);
        b.append("/");
        b.append(name);
        b.append(".pid\"   # verify path");
        Some(b)
    } else {
        None
    }
}

/// Scan --help output for readiness hints (case-insensitively).
/// Returns a formatted [ready] block string, or None if nothing detected.
pub fn detect_readiness_block(name: &str, help_output: &str) -> (r: Option<String>)
    ensures
        match r {
            Some(b) => readiness_block(name@, lowercase(help_output@)) == Some(b@),
            None => readiness_block(name@, lowercase(help_output@)) is None,
        },
        (forall|k: int| 0 <= k < help_output@.len() ==> (help_output@[k] as u32) < 128) ==> match r {
            Some(b) => readiness_block(name@, ascii_lowercase(help_output@)) == Some(b@),
            None => readiness_block(name@, ascii_lowercase(help_output@)) is None,
        },
{
    let lower = to_lowercase(help_output);
    readiness_block_from_lower(name, lower.as_str())
}

/// The `exec` line of a scaffold: `help` is the binary's `--help` output, or
/// `None` when the binary could not be run.
pub open spec fn scaffold_exec_line(binary: Seq<char>, help: Option<Seq<char>>) -> Seq<char> {
    match help {
        None => "# exec = \""@ + binary + "\"   # binary not found or foreground flag unknown — verify manually"@,
        Some(h) => if exists|k: int| first_flag_mentioned(h, k) {
            "exec = \""@ + binary + " "@ + foreground_flags()[choose|k: int| first_flag_mentioned(h, k)]
                + "\"   # auto-detected"@
        } else {
            "exec = \""@ + binary + "\"   # foreground flag unknown — verify manually"@
        },
    }
}

/// The `[ready]` part of a scaffold.
pub open spec fn scaffold_ready_block(name: Seq<char>, help: Option<Seq<char>>) -> Seq<char> {
    match help {
        None => "# [ready]  # could not probe binary — add manually"@,
        Some(h) => match readiness_block(name, lowercase(h)) {
            Some(b) => b,
            None => "# [ready]  # readiness strategy unknown — add manually"@,
        },
    }
}

/// The whole scaffold text.
pub open spec fn scaffold(name: Seq<char>, binary: Seq<char>, help: Option<Seq<char>>) -> Seq<char> {
    "[service]\nname = \""@ + name + "\"\n"@ + scaffold_exec_line(binary, help)
        + "\nrestart = \"on-failure\"\n\n# [deps]\n# needs = [\"dbus\"]\n\n"@ + scaffold_ready_block(name, help)
        + "\n"@
}

/// The scaffold TOML for service `name` run from `binary`, given the binary's
/// `--help` output (`None` when it could not be run).
pub fn scaffold_text(name: &str, binary: &str, help: Option<&str>) -> (r: String)
    ensures
        r@ == scaffold(name@, binary@, match help {
            Some(h) => Some(h@),
            None => None,
        }),
{
    let ghost hv: Option<Seq<char>> = match help {
        Some(h) => Some(h@),
        None => None,
    };
    let mut exec_line = String::new();
    match help {
        None => {
            exec_line.append("# exec = \"");
            exec_line.append(binary);
            exec_line.append("\"   # binary not found or foreground flag unknown — verify manually");
        },
        Some(h) => match detect_foreground_flag(h) {
            Some(flag) => {
                exec_line.append("exec = \"");
                exec_line.append(binary);
                exec_line.append(" ");
                exec_line.append(flag);
                exec_line.append("\"   # auto-detected");
                proof {
                    let k = choose|k: int| #[trigger] first_flag_mentioned(h@, k) && flag@ == foreground_flags()[k];
                    let c = choose|k: int| first_flag_mentioned(h@, k);
                    assert(first_flag_mentioned(h@, c));
                    if c < k {
                        assert(!contains_seq(h@, foreground_flags()[c]));
                    } else if k < c {
                        assert(!contains_seq(h@, foreground_flags()[k]));
                    }
                }
            },
            None => {
                exec_line.append("exec = \"");
                exec_line.append(binary);
                exec_line.append("\"   # foreground flag unknown — verify manually");
            },
        },
    }
    proof {
        assert(exec_line@ =~= scaffold_exec_line(binary@, hv));
    }
    let ready = match help {
        None => String::from_str("# [ready]  # could not probe binary — add manually"),
        Some(h) => match detect_readiness_block(name, h) {
            Some(b) => b,
            None => String::from_str("# [ready]  # readiness strategy unknown — add manually"),
        },
    };
    let mut out = String::from_str("[service]\nname = \"");
    out.append(name);
    out.append("\"\n");
    out.append(exec_line.as_str());
    out.append("\nrestart = \"on-failure\"\n\n# [deps]\n# needs = [\"dbus\"]\n\n");
    out.append(ready.as_str());
    out.append("\n");
    out
}

} // verus!
