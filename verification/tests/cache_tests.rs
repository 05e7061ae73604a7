use flint_init::cache::{is_toml_name, toml_stem, trim_nuls, Manifest, ManifestEntry, MANIFEST_VERSION};
use flint_init::service::{ServiceDef, ServiceSection};

fn def(name: &str) -> ServiceDef {
    ServiceDef {
        service: ServiceSection {
            name: name.to_string(),
            exec_line: format!("/bin/{}", name),
            restart: None,
            user: None,
            args: None,
        },
        deps: None,
        ready: None,
        resources: None,
    }
}

#[test]
fn upsert_then_cached_returns_the_new_definition() {
    let mut m = Manifest::new();
    assert!(m.is_current());
    m.upsert("foo.toml".to_string(), 10, def("foo"));
    m.upsert("bar.toml".to_string(), 20, def("bar"));
    m.upsert("foo.toml".to_string(), 30, def("foo2"));
    assert_eq!(m.entries.len(), 2);
    assert_eq!(m.entries[0].filename, "foo.toml");
    assert_eq!(m.cached("foo.toml", 30).unwrap().service.name, "foo2");
    assert!(m.cached("foo.toml", 10).is_none());
    assert_eq!(m.cached("bar.toml", 20).unwrap().service.name, "bar");
    assert!(m.cached("baz.toml", 20).is_none());
}

#[test]
fn remove_file_drops_only_that_file() {
    let mut m = Manifest { version: MANIFEST_VERSION, entries: Vec::new() };
    for (f, t) in [("a.toml", 1u64), ("b.toml", 2), ("a.toml", 3), ("c.toml", 4)] {
        m.entries.push(ManifestEntry { filename: f.to_string(), mtime_secs: t, def: def(f) });
    }
    m.remove_file("a.toml");
    let names: Vec<&str> = m.entries.iter().map(|e| e.filename.as_str()).collect();
    assert_eq!(names, vec!["b.toml", "c.toml"]);
    assert_eq!(m.position("c.toml"), Some(1));
    assert_eq!(m.position("a.toml"), None);
}

#[test]
fn manifest_of_another_version_is_not_current() {
    let m = Manifest { version: 99, entries: vec![] };
    assert!(!m.is_current());
}

#[test]
fn into_defs_keeps_entry_order() {
    let mut m = Manifest::new();
    m.upsert("x.toml".to_string(), 1, def("x"));
    m.upsert("y.toml".to_string(), 1, def("y"));
    let names: Vec<String> = m.into_defs().into_iter().map(|d| d.service.name).collect();
    assert_eq!(names, vec!["x", "y"]);
}

#[test]
fn toml_file_names() {
    assert_eq!(toml_stem("sshd.toml"), Some("sshd".to_string()));
    assert_eq!(toml_stem("a.b.toml"), Some("a.b".to_string()));
    assert_eq!(toml_stem(".toml"), None);
    assert_eq!(toml_stem("sshd.conf"), None);
    assert!(is_toml_name(".toml"));
    assert!(!is_toml_name("toml"));
}

#[test]
fn trailing_nuls_are_trimmed() {
    assert_eq!(trim_nuls("[service]\n\0\0\0"), "[service]\n");
    assert_eq!(trim_nuls("a\0b"), "a\0b");
}

#[test]
fn retain_present_drops_entries_of_vanished_files() {
    let mut m = Manifest::new();
    m.upsert("a.toml".to_string(), 1, def("a"));
    m.upsert("b.toml".to_string(), 2, def("b"));
    m.upsert("c.toml".to_string(), 3, def("c"));
    let present = vec!["c.toml".to_string(), "a.toml".to_string()];
    assert!(m.retain_present(&present));
    let names: Vec<String> = m.entries.iter().map(|e| e.filename.clone()).collect();
    assert_eq!(names, vec!["a.toml".to_string(), "c.toml".to_string()]);
    assert!(!m.retain_present(&present));
    assert_eq!(m.entries.len(), 2);
}
