use llm_wiki_server::config::DataDir;
use llm_wiki_server::files::{
    check_write_parent, copy_file_plan, create_directory_plan, delete_file_plan,
    directory_guard, file_exists, get_relative_path, read_file_step, write_file_plan,
};

fn data() -> DataDir {
    DataDir::new("/srv/data")
}

#[test]
fn read_step() {
    let s = read_file_step(&data(), "p/a.md", Ok("/srv/data/p/a.md".to_string())).ok().unwrap();
    assert_eq!(s.target, "/srv/data/p/a.md");
    assert_eq!(s.failure, "Failed to read file 'p/a.md'");
    let e = read_file_step(&data(), "x", Err("gone".to_string())).err().unwrap();
    assert_eq!(e, "Invalid path 'x': gone");
}

#[test]
fn write_plan_and_parent_check() {
    let p = write_file_plan(&data(), "p/wiki/new.md");
    assert_eq!(p.full_path, "/srv/data/p/wiki/new.md");
    assert_eq!(p.parent, Some("/srv/data/p/wiki".to_string()));
    assert_eq!(p.mkdir_failure, "Failed to create parent dirs");
    assert_eq!(p.write_failure, "Failed to write file '/srv/data/p/wiki/new.md'");
    assert_eq!(
        check_write_parent(&data(), &p.full_path, "/srv/data/p/wiki", Ok("/srv/data/p/wiki".to_string())),
        Ok(())
    );
    assert_eq!(
        check_write_parent(&data(), "/tmp/x", "/tmp", Ok("/tmp".to_string())),
        Err("Access denied: path '/tmp/x' is outside DATA_DIR".to_string())
    );
    assert_eq!(
        check_write_parent(&data(), "/q/x", "/q", Err("bad".to_string())),
        Err("Invalid parent path '/q': bad".to_string())
    );
}

#[test]
fn delete_plan() {
    let p = delete_file_plan(&data(), "p/d", Ok("/srv/data/p/d".to_string()), true).ok().unwrap();
    assert!(p.recursive);
    assert_eq!(p.failure, "Failed to delete directory 'p/d'");
    let f = delete_file_plan(&data(), "p/f", Ok("/srv/data/p/f".to_string()), false).ok().unwrap();
    assert!(!f.recursive);
    assert_eq!(f.failure, "Failed to delete file 'p/f'");
    assert!(delete_file_plan(&data(), "/etc", Ok("/etc".to_string()), true).is_err());
}

#[test]
fn create_directory_guard() {
    let p = create_directory_plan(&data(), "p/new/dir");
    assert_eq!(p.full_path, "/srv/data/p/new/dir");
    assert_eq!(p.parent, Some("/srv/data/p/new".to_string()));
    assert_eq!(p.failure, "Failed to create directory '/srv/data/p/new/dir'");
    assert_eq!(directory_guard(&p, true, true), Some("/srv/data/p/new/dir".to_string()));
    assert_eq!(directory_guard(&p, false, true), Some("/srv/data/p/new".to_string()));
    assert_eq!(directory_guard(&p, false, false), None);
}

#[test]
fn existence_is_only_inside() {
    assert!(file_exists(&data(), "a", Ok("/srv/data/a".to_string()), true));
    assert!(!file_exists(&data(), "a", Ok("/srv/data/a".to_string()), false));
    assert!(!file_exists(&data(), "/etc/passwd", Ok("/etc/passwd".to_string()), true));
    assert!(!file_exists(&data(), "zz", Err("missing".to_string()), true));
}

#[test]
fn copy_plan() {
    let p = copy_file_plan(&data(), "a.md", "b/c.md", Ok("/srv/data/a.md".to_string())).ok().unwrap();
    assert_eq!(p.from, "/srv/data/a.md");
    assert_eq!(p.to, "/srv/data/b/c.md");
    assert_eq!(p.parent, Some("/srv/data/b".to_string()));
    assert_eq!(p.copy_failure, "Failed to copy 'a.md' to 'b/c.md'");
    assert!(copy_file_plan(&data(), "/etc/x", "y", Ok("/etc/x".to_string())).is_err());
}

#[test]
fn relative_paths() {
    assert_eq!(get_relative_path("/srv/data/p/x.md", "/srv/data"), "p/x.md");
    assert_eq!(get_relative_path("/srv/data", "/srv/data"), "");
    assert_eq!(get_relative_path("/other/x", "/srv/data"), "/other/x");
    assert_eq!(get_relative_path("/srv/data/a\\b", "/srv/data"), "a/b");
    assert_eq!(get_relative_path("/srv/data//p/./x/", "/srv/data"), "p/./x");
}

#[test]
fn relative_paths_join_back() {
    let cases = [
        ("/srv/data/p/wiki/a.md", "/srv/data"),
        ("/srv/data//p/./wiki/", "/srv/data/"),
        ("/srv/data", "/srv/data"),
        ("notes/a/b", "notes"),
        ("./notes/a", "."),
        ("/x/y", ""),
        ("a/../b", "a"),
    ];
    for (full, base) in cases {
        let rel = get_relative_path(full, base);
        let joined = std::path::Path::new(base).join(&rel);
        let a: Vec<_> = joined.components().collect();
        let b: Vec<_> = std::path::Path::new(full).components().collect();
        assert_eq!(a, b, "{} from {}", full, base);
        if !base.is_empty() {
            assert!(!std::path::Path::new(&rel).is_absolute());
        }
    }
}
