use flint_init::config::{FlintConfig, GlobalSection};
use flint_init::service::{ServiceDef, ServiceSection};

fn svc_with_user(user: Option<&str>) -> ServiceDef {
    ServiceDef {
        service: ServiceSection {
            name: "test".to_string(),
            exec_line: "/bin/true".to_string(),
            restart: None,
            user: user.map(|s| s.to_string()),
            args: None,
        },
        deps: None,
        ready: None,
        resources: None,
    }
}

fn config_with(user: &str) -> FlintConfig {
    FlintConfig { global: Some(GlobalSection { session_user: Some(user.to_string()) }) }
}

#[test]
fn apply_to_clears_percent_u_when_no_session_user_configured() {
    let cfg = FlintConfig::default();
    let services = vec![svc_with_user(Some("%U"))];
    let result = cfg.apply_to(services);
    // No session_user configured — %U services clear their user field
    // (process inherits the owner, typically whoever launched flint)
    assert_eq!(result[0].service.user, None);
}

// --- further cases ---

#[test]
fn apply_to_expands_percent_u_to_session_user() {
    let cfg = config_with("keegan");
    let result = cfg.apply_to(vec![svc_with_user(Some("%U"))]);
    assert_eq!(result[0].service.user.as_deref(), Some("keegan"));
}

#[test]
fn apply_to_does_not_modify_explicit_user_values() {
    let cfg = config_with("keegan");
    let result = cfg.apply_to(vec![svc_with_user(Some("postgres")), svc_with_user(Some("root")), svc_with_user(None)]);
    assert_eq!(result[0].service.user.as_deref(), Some("postgres"));
    assert_eq!(result[1].service.user.as_deref(), Some("root"));
    assert_eq!(result[2].service.user, None);
}

#[test]
fn apply_to_expands_all_percent_u_services() {
    let cfg = config_with("alice");
    let result = cfg.apply_to(vec![svc_with_user(Some("%U")), svc_with_user(Some("root")), svc_with_user(Some("%U"))]);
    assert_eq!(result[0].service.user.as_deref(), Some("alice"));
    assert_eq!(result[1].service.user.as_deref(), Some("root"));
    assert_eq!(result[2].service.user.as_deref(), Some("alice"));
}

#[test]
fn session_user_reads_the_global_table() {
    assert_eq!(FlintConfig::default().session_user(), None);
    assert_eq!(FlintConfig { global: Some(GlobalSection { session_user: None }) }.session_user(), None);
    assert_eq!(config_with("bob").session_user(), Some("bob"));
}

#[test]
fn percent_u_must_match_exactly() {
    let cfg = config_with("carol");
    let result = cfg.apply_to(vec![svc_with_user(Some("%u")), svc_with_user(Some(" %U"))]);
    assert_eq!(result[0].service.user.as_deref(), Some("%u"));
    assert_eq!(result[1].service.user.as_deref(), Some(" %U"));
}
