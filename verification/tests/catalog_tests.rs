use flint_init::catalog::{catalog_listing, detect_distro, distro_id, CatalogEntry};

#[test]
fn detect_distro_missing_file_defaults_artix() {
    let result = detect_distro(None);
    assert_eq!(result, "artix");
}

// --- further cases ---

#[test]
fn detect_distro_reads_id_field() {
    assert_eq!(detect_distro(Some("NAME=Artix\nID=artix\nID_LIKE=arch\n")), "artix");
    assert_eq!(detect_distro(Some("NAME=Arch\nID=arch\n")), "arch");
}

#[test]
fn detect_distro_strips_quotes() {
    assert_eq!(detect_distro(Some("ID=\"arch\"\n")), "arch");
}

#[test]
fn detect_distro_no_id_field_defaults_artix() {
    assert_eq!(detect_distro(Some("NAME=SomeDistro\nVERSION=1\n")), "artix");
    assert_eq!(distro_id("NAME=SomeDistro\nVERSION=1\n"), None);
}

#[test]
fn only_the_first_id_line_counts_and_id_like_is_not_id() {
    assert_eq!(distro_id("ID_LIKE=arch\nID=\"\"void\"\"\nID=other\n"), Some("void".to_string()));
}

fn entry(description: &str, distros: Option<&[&str]>) -> CatalogEntry {
    CatalogEntry {
        description: description.to_string(),
        distros: distros.map(|d| d.iter().map(|s| s.to_string()).collect()),
    }
}

#[test]
fn catalog_listing_filters_by_distro_and_sorts() {
    let catalog = vec![
        ("sshd".to_string(), entry("OpenSSH daemon", None)),
        ("agetty".to_string(), entry("TTY login prompt", Some(&["artix"]))),
        ("apt-daily".to_string(), entry("Debian updates", Some(&["debian"]))),
        ("a-very-long-service-name-here".to_string(), entry("Long", None)),
    ];
    let lines = catalog_listing(&catalog, "artix");
    assert_eq!(
        lines,
        vec![
            "a-very-long-service-name-here Long",
            "agetty                   TTY login prompt",
            "sshd                     OpenSSH daemon",
        ]
    );
}
