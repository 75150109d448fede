use llm_wiki_server::config::{
    configured_data_dir, data_dir, parse_port, resolve_path, resolve_request_path, server_port,
    validate_path, DataDir,
};

#[test]
fn test_resolve_path() {
    let dir = DataDir::new("/srv/data");
    assert_eq!(resolve_path(&dir, "proj/wiki/index.md"), "/srv/data/proj/wiki/index.md");
}

#[test]
fn resolve_path_keeps_absolute_paths() {
    let dir = DataDir::new("/srv/data");
    assert_eq!(resolve_path(&dir, "/etc/passwd"), "/etc/passwd");
    assert_eq!(resolve_request_path(&dir, "/etc/passwd"), "/etc/passwd");
    assert_eq!(resolve_request_path(&dir, "a/b"), "/srv/data/a/b");
}

#[test]
fn resolve_path_with_trailing_separator_in_data_dir() {
    let dir = DataDir::new("/srv/data/");
    assert_eq!(resolve_path(&dir, "x"), "/srv/data/x");
    let empty = DataDir::new("");
    assert_eq!(resolve_path(&empty, "x"), "x");
}

#[test]
fn data_dir_is_what_was_configured() {
    let dir = DataDir::new("/srv/data");
    assert_eq!(data_dir(&dir), "/srv/data");
}

#[test]
fn configured_data_dir_defaults() {
    assert_eq!(configured_data_dir(None), "./data");
    assert_eq!(configured_data_dir(Some("/var/wiki")), "/var/wiki");
}

#[test]
fn validate_path_accepts_paths_inside() {
    let dir = DataDir::new("/srv/data");
    let r = validate_path(&dir, "/srv/data/p/x.md", Ok("/srv/data/p/x.md".to_string()));
    assert_eq!(r, Ok("/srv/data/p/x.md".to_string()));
    let same = validate_path(&dir, "/srv/data", Ok("/srv/data".to_string()));
    assert_eq!(same, Ok("/srv/data".to_string()));
}

#[test]
fn validate_path_rejects_paths_outside() {
    let dir = DataDir::new("/srv/data");
    let r = validate_path(&dir, "/srv/data/../etc", Ok("/srv/etc".to_string()));
    assert_eq!(
        r,
        Err("Access denied: path '/srv/data/../etc' is outside DATA_DIR".to_string())
    );
    // a sibling directory sharing a prefix of the name is outside too
    let r = validate_path(&dir, "x", Ok("/srv/database/x".to_string()));
    assert_eq!(r, Err("Access denied: path 'x' is outside DATA_DIR".to_string()));
}

#[test]
fn validate_path_reports_canonicalize_errors() {
    let dir = DataDir::new("/srv/data");
    let r = validate_path(&dir, "missing", Err("No such file or directory (os error 2)".to_string()));
    assert_eq!(
        r,
        Err("Invalid path 'missing': No such file or directory (os error 2)".to_string())
    );
}

#[test]
fn server_port_default_and_parse() {
    assert_eq!(server_port(None), 3001);
    assert_eq!(server_port(Some("8080")), 8080);
    assert_eq!(server_port(Some("+80")), 80);
    assert_eq!(server_port(Some("065535")), 65535);
    assert_eq!(server_port(Some("65536")), 3001);
    assert_eq!(server_port(Some("")), 3001);
    assert_eq!(server_port(Some("+")), 3001);
    assert_eq!(server_port(Some("-1")), 3001);
    assert_eq!(server_port(Some(" 80")), 3001);
    assert_eq!(server_port(Some("8o")), 3001);
}

#[test]
fn parse_port_matches_std() {
    for s in ["0", "1", "42", "+7", "65535", "65536", "99999999999", "", "+", "-0", "1_0", "٣"] {
        assert_eq!(parse_port(s), s.parse::<u16>().ok(), "input {:?}", s);
    }
}

#[test]
fn port_round_trip() {
    for p in [0u16, 1, 9, 10, 80, 443, 3001, 65535] {
        assert_eq!(server_port(Some(&p.to_string())), p);
    }
}

#[test]
fn validated_paths_validate_again() {
    let d = DataDir::new("/srv/data");
    let c = validate_path(&d, "/srv/data/p/../p/a.md", Ok("/srv/data/p/a.md".to_string())).unwrap();
    assert_eq!(validate_path(&d, &c, Ok(c.clone())), Ok(c.clone()));
}
