use flint_init::check::{
    merge_distinct,
    audit_report_lines, exec_binary, has_cycle, is_ephemeral_path, parse_error, preflight_report_lines,
    read_error, run_migration_audit, run_preflight, service_findings, writability_probe, PreflightResult,
};
use flint_init::service::{DepsSection, ReadySection, ReadyStrategy, ServiceDef, ServiceSection};

fn service(name: &str, exec: &str, after: &[&str], needs: &[&str]) -> ServiceDef {
    ServiceDef {
        service: ServiceSection {
            name: name.to_string(),
            exec_line: exec.to_string(),
            restart: None,
            user: None,
            args: None,
        },
        deps: if after.is_empty() && needs.is_empty() {
            None
        } else {
            Some(DepsSection {
                after: after.iter().map(|s| s.to_string()).collect(),
                needs: needs.iter().map(|s| s.to_string()).collect(),
            })
        },
        ready: None,
        resources: None,
    }
}

/// The preflight over parsed definitions; `found` says which binaries exist.
fn preflight(file_errors: Vec<(String, String)>, services: Vec<ServiceDef>, found: Vec<bool>) -> PreflightResult {
    let unwritable = vec![false; services.len()];
    run_preflight(&file_errors, &services, &found, &unwritable)
}

#[test]
fn has_cycle_detects_two_node_cycle() {
    let make = |name: &str, after: &[&str]| ServiceDef {
        service: ServiceSection {
            name: name.to_string(),
            exec_line: "/bin/true".to_string(),
            restart: None,
            user: None,
            args: None,
        },
        deps: Some(DepsSection { after: after.iter().map(|s| s.to_string()).collect(), needs: vec![] }),
        ready: None,
        resources: None,
    };
    let services = vec![make("a", &["b"]), make("b", &["a"])];
    assert!(has_cycle(&services));
}

#[test]
fn has_cycle_no_cycle_for_chain() {
    let make = |name: &str, after: &[&str]| ServiceDef {
        service: ServiceSection {
            name: name.to_string(),
            exec_line: "/bin/true".to_string(),
            restart: None,
            user: None,
            args: None,
        },
        deps: if after.is_empty() {
            None
        } else {
            Some(DepsSection { after: after.iter().map(|s| s.to_string()).collect(), needs: vec![] })
        },
        ready: None,
        resources: None,
    };
    let services = vec![make("a", &[]), make("b", &["a"]), make("c", &["b"])];
    assert!(!has_cycle(&services));
}

#[test]
fn is_ephemeral_path_matches_run_and_dev() {
    assert!(is_ephemeral_path("/run/foo.pid"));
    assert!(is_ephemeral_path("/var/run/foo.pid"));
    assert!(is_ephemeral_path("/dev/null"));
    assert!(!is_ephemeral_path("/etc/foo.pid"));
    assert!(!is_ephemeral_path("/tmp/foo.pid"));
}

#[test]
fn preflight_ok_for_valid_service() {
    let result = preflight(vec![], vec![service("sshd", "/bin/true", &[], &[])], vec![true]);
    assert!(result.errors.is_empty(), "unexpected errors: {:?}", result.errors);
}

#[test]
fn preflight_warns_on_missing_binary() {
    let result = preflight(vec![], vec![service("myapp", "/nonexistent/myapp", &[], &[])], vec![false]);
    assert!(result.errors.is_empty());
    assert!(!result.warnings.is_empty(), "expected binary-not-found warning");
}

#[test]
fn preflight_errors_on_broken_needs_dep() {
    let result = preflight(vec![], vec![service("myapp", "/bin/true", &[], &["redis"])], vec![true]);
    assert!(!result.errors.is_empty(), "expected error for missing needs-dep");
    assert!(result.errors[0].1.contains("redis"));
}

#[test]
fn preflight_errors_on_invalid_toml() {
    let result = preflight(vec![parse_error("bad", "expected `.`, `=`")], vec![], vec![]);
    assert!(!result.errors.is_empty());
}

// --- further cases ---

#[test]
fn has_cycle_ignores_unknown_dependencies_and_counts_repeated_names() {
    assert!(!has_cycle(&vec![service("a", "/bin/a", &["nowhere"], &[])]));
    assert!(has_cycle(&vec![service("a", "/bin/a", &[], &[]), service("a", "/bin/b", &[], &[])]));
    assert!(has_cycle(&vec![service("a", "/bin/a", &[], &["a"])]));
}

#[test]
fn findings_name_each_problem() {
    let mut svc = service("web", "/usr/bin/web --port 80", &["db", "log"], &["cache"]);
    svc.ready = Some(ReadySection { strategy: ReadyStrategy::Pidfile, path: Some("/srv/web/web.pid".to_string()) });
    assert_eq!(writability_probe(&svc), Some("/srv/web/web.pid".to_string()));
    let installed = vec!["web".to_string(), "log".to_string()];
    let (errors, warnings) = service_findings(&svc, &installed, false, true);
    assert_eq!(errors, vec!["broken needs-dep \"cache\" (not installed)"]);
    assert_eq!(
        warnings,
        vec![
            "/usr/bin/web not found",
            "unknown after-dep \"db\"",
            "parent dir of /srv/web/web.pid may not be writable",
        ]
    );
}

#[test]
fn ephemeral_ready_paths_are_not_probed() {
    let mut svc = service("s", "/bin/s", &[], &[]);
    svc.ready = Some(ReadySection { strategy: ReadyStrategy::Socket, path: Some("/run/s.sock".to_string()) });
    assert_eq!(writability_probe(&svc), None);
    assert_eq!(exec_binary("   "), "");
}

#[test]
fn preflight_sorts_by_name_and_reports_cycles_last() {
    let services = vec![
        service("zed", "/bin/true", &["alpha"], &[]),
        service("alpha", "/bin/true", &["zed"], &[]),
        service("mid", "/bin/true", &["gone"], &[]),
        service("bee", "/bin/true", &[], &["gone"]),
    ];
    let found = vec![true; 4];
    let unwritable = vec![false; 4];
    let files = vec![read_error("zz", "denied"), parse_error("aa", "bad key")];
    let result = run_preflight(&files, &services, &found, &unwritable);
    assert_eq!(result.ok, vec!["alpha", "zed"]);
    assert_eq!(result.warnings, vec![("mid".to_string(), "unknown after-dep \"gone\"".to_string())]);
    assert_eq!(
        result.errors,
        vec![
            ("(graph)".to_string(), "dependency cycle detected".to_string()),
            ("aa".to_string(), "parse error: bad key".to_string()),
            ("bee".to_string(), "broken needs-dep \"gone\" (not installed)".to_string()),
            ("zz".to_string(), "read error: denied".to_string()),
        ]
    );
    let (lines, passed) = preflight_report_lines(&Some(result), "/etc/flint/services");
    assert!(!passed);
    assert_eq!(lines[0], "[check] preflight");
    assert_eq!(lines[1], "  ok        alpha zed   (2 services)");
    assert_eq!(lines[2], "  warning   mid: unknown after-dep \"gone\"");
    assert_eq!(lines[3], "  error     (graph): dependency cycle detected");
}

#[test]
fn preflight_report_for_missing_and_empty_directories() {
    let (lines, passed) = preflight_report_lines(&None, "/etc/flint/services");
    assert!(passed);
    assert_eq!(lines, vec!["[check] preflight", "  warning: /etc/flint/services does not exist — no services installed"]);
    let empty = PreflightResult { ok: vec![], warnings: vec![], errors: vec![] };
    let (lines, passed) = preflight_report_lines(&Some(empty), "/x");
    assert!(passed);
    assert_eq!(lines, vec!["[check] preflight", "  (no services found in /x)"]);
}

#[test]
fn migration_audit_sorts_into_three_lists() {
    let enabled = vec!["udev".to_string(), "sshd".to_string(), "cups".to_string(), "agetty".to_string(), "weird".to_string()];
    let installed = vec!["sshd".to_string(), "agetty".to_string()];
    let catalog = vec!["cups".to_string(), "udev".to_string(), "sshd".to_string()];
    let audit = run_migration_audit(Some(enabled), &installed, &catalog).unwrap();
    assert_eq!(audit.covered, vec!["agetty", "sshd"]);
    assert_eq!(audit.missing, vec!["cups", "udev"]);
    assert_eq!(audit.unknown, vec!["weird"]);
    let lines = audit_report_lines(&Some(audit));
    assert_eq!(
        lines,
        vec![
            "[check] migration audit",
            "  covered   agetty, sshd   (2 services)",
            "  missing   cups, udev   (in catalog — run: flint-ctl get cups udev)",
            "  unknown   weird   (not in catalog — run: flint-ctl scaffold weird)",
            "",
        ]
    );
}

#[test]
fn migration_audit_without_old_init_system() {
    assert!(run_migration_audit(None, &vec![], &vec![]).is_none());
    assert_eq!(
        audit_report_lines(&None),
        vec!["[check] migration audit", "  (no known init system detected — skipping migration audit)", ""]
    );
    let empty = run_migration_audit(Some(vec![]), &vec![], &vec![]);
    assert_eq!(
        audit_report_lines(&empty),
        vec!["[check] migration audit", "  (no enabled services detected from old init system)", ""]
    );
}

#[test]
fn merge_distinct_lists_each_runlevel_entry_once() {
    let default_level: Vec<String> = vec!["sshd".to_string(), "cronie".to_string(), "sshd".to_string()];
    let boot_level: Vec<String> = vec!["udev".to_string(), "cronie".to_string()];
    let merged = merge_distinct(&default_level, &boot_level);
    assert_eq!(merged, vec!["sshd".to_string(), "cronie".to_string(), "udev".to_string()]);
    assert!(merge_distinct(&Vec::new(), &Vec::new()).is_empty());
}
