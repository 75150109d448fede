use llm_wiki_server::path::{
    join_path, path_file_name, path_parent, path_starts_with, strip_path_prefix,
    with_forward_slashes,
};
use std::path::{Path, PathBuf};

const SAMPLES: &[&str] = &[
    "", "/", "//", "a", "a/", "/a", "/a/", "a/b", "/a/b", "/a//b/", "./a", ".", "./", "..",
    "../a", "/a/./b", "/a/../b", "a/./", "/srv/data", "/srv/data/", "/srv/data/p/x.md",
    "/srv/database", "srv/data", "./srv//data/.", "/.", "a/b/c/", "x.tar.gz", ".bashrc",
];

#[test]
fn join_matches_std() {
    for a in SAMPLES {
        for b in SAMPLES {
            let expected = PathBuf::from(a).join(b).to_string_lossy().into_owned();
            assert_eq!(join_path(a, b), expected, "{:?}.join({:?})", a, b);
        }
    }
}

#[test]
fn starts_with_matches_std() {
    for a in SAMPLES {
        for b in SAMPLES {
            assert_eq!(
                path_starts_with(a, b),
                Path::new(a).starts_with(b),
                "{:?}.starts_with({:?})",
                a,
                b
            );
        }
    }
}

#[test]
fn strip_prefix_matches_std() {
    for a in SAMPLES {
        for b in SAMPLES {
            let expected = Path::new(a)
                .strip_prefix(b)
                .ok()
                .map(|p| p.to_string_lossy().into_owned());
            assert_eq!(strip_path_prefix(a, b), expected, "{:?}.strip_prefix({:?})", a, b);
        }
    }
}

#[test]
fn parent_matches_std() {
    for a in SAMPLES {
        let expected = Path::new(a).parent().map(|p| p.to_string_lossy().into_owned());
        assert_eq!(path_parent(a), expected, "{:?}.parent()", a);
    }
}

#[test]
fn file_name_matches_std() {
    for a in SAMPLES {
        let expected = Path::new(a)
            .file_name()
            .map(|p| p.to_string_lossy().into_owned());
        assert_eq!(path_file_name(a), expected, "{:?}.file_name()", a);
    }
}

#[test]
fn sibling_with_common_prefix_is_not_inside() {
    assert!(!path_starts_with("/srv/database/x", "/srv/data"));
    assert!(path_starts_with("/srv/data/x", "/srv/data"));
    assert!(path_starts_with("/srv/data//x/", "/srv/data/"));
}

#[test]
fn join_relative_stays_under_base() {
    for base in SAMPLES {
        for rel in ["x", "a/b", "./c", "d/", ""] {
            let j = join_path(base, rel);
            assert!(path_starts_with(&j, base), "{:?} joined with {:?}", base, rel);
        }
    }
}

#[test]
fn strip_of_join_gives_back_relative() {
    for base in ["/srv/data", "/srv/data/", "/", "", "rel/dir"] {
        let j = join_path(base, "raw/sources/a.md");
        assert_eq!(strip_path_prefix(&j, base), Some("raw/sources/a.md".to_string()));
    }
}

#[test]
fn backslashes_become_slashes() {
    assert_eq!(with_forward_slashes("a\\b\\c"), "a/b/c");
    assert_eq!(with_forward_slashes("plain"), "plain");
}
