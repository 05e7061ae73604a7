use flint_init::service::{ReadySection, ReadyStrategy, ServiceDef, ServiceSection, ValidationError};

fn with_ready_path(name: &str, path: Option<&str>) -> ServiceDef {
    ServiceDef {
        service: ServiceSection {
            name: name.to_string(),
            exec_line: "/usr/sbin/daemon".to_string(),
            restart: None,
            user: None,
            args: None,
        },
        deps: None,
        ready: path.map(|p| ReadySection { strategy: ReadyStrategy::Pidfile, path: Some(p.to_string()) }),
        resources: None,
    }
}

#[test]
fn validate_accepts_ready_path_under_run() {
    assert!(with_ready_path("sshd", Some("/run/sshd.pid")).validate().is_ok());
}

#[test]
fn validate_accepts_ready_path_under_var_run() {
    assert!(with_ready_path("nm", Some("/var/run/NetworkManager.pid")).validate().is_ok());
}

#[test]
fn validate_rejects_ready_path_outside_run() {
    let err = with_ready_path("bad", Some("/etc/passwd")).validate().unwrap_err().message();
    assert!(err.contains("/etc/passwd"), "error should mention the path: {}", err);
}

#[test]
fn validate_rejects_ready_path_with_traversal() {
    assert!(with_ready_path("bad", Some("/run/../etc/shadow")).validate().is_err());
}

#[test]
fn validate_accepts_no_ready_section() {
    assert!(with_ready_path("simple", None).validate().is_ok());
}

// --- further cases ---

#[test]
fn validation_errors_say_which_rule_failed() {
    let e = with_ready_path("x", Some("run/x.pid")).validate().unwrap_err();
    assert!(matches!(e, ValidationError::NotAbsolute { .. }));
    assert_eq!(e.message(), "service 'x': ready.path 'run/x.pid' must be absolute");
    let e = with_ready_path("x", Some("/run/a/../../etc")).validate().unwrap_err();
    assert_eq!(e.message(), "service 'x': ready.path '/run/a/../../etc' contains '..' traversal");
    let e = with_ready_path("x", Some("/tmp/x.pid")).validate().unwrap_err();
    assert_eq!(e.message(), "service 'x': ready.path '/tmp/x.pid' must be under /run/ or /var/run/");
    // a name that merely contains two dots is not a parent component
    assert!(with_ready_path("x", Some("/run/x..pid")).validate().is_ok());
    let no_path = ServiceDef { ready: Some(ReadySection { strategy: ReadyStrategy::Socket, path: None }), ..with_ready_path("y", None) };
    assert!(no_path.validate().is_ok());
}
