use llm_wiki_server::config::DataDir;
use llm_wiki_server::upload::{
    sanitize_filename, stem_and_extension_of, unique_candidate, upload_file_name, upload_target,
    next_candidate, uploaded_file, Probe, UploadQuery,
};
use std::path::Path;

fn sanitize_with_std_iterators(name: &str) -> String {
    let name = name
        .chars()
        .map(|c| {
            if c.is_alphanumeric() || c == '.' || c == '-' || c == '_' || c == ' ' {
                c
            } else {
                '_'
            }
        })
        .collect::<String>();
    name.trim().to_string()
}

const NAMES: &[&str] = &[
    "report.pdf",
    "  spaced name .txt  ",
    "../../etc/passwd",
    "a/b\\c.txt",
    "Café ünïcode.md",
    "日本語.png",
    "tab\tname",
    "",
    "   ",
    "..",
    ".",
    ".bashrc",
    "x.tar.gz",
    "trailing.",
    "emoji😀.jpg",
];

#[test]
fn sanitize_matches_std_iterators() {
    for n in NAMES {
        assert_eq!(sanitize_filename(n), sanitize_with_std_iterators(n), "{:?}", n);
    }
}

#[test]
fn sanitize_examples() {
    assert_eq!(sanitize_filename("../../etc/passwd"), ".._.._etc_passwd");
    assert_eq!(sanitize_filename("  my file?.txt "), "my file_.txt");
    assert_eq!(sanitize_filename("Café.md"), "Café.md");
}

#[test]
fn sanitize_is_stable_and_has_no_separators() {
    for n in NAMES {
        let once = sanitize_filename(n);
        assert_eq!(sanitize_filename(&once), once);
        assert!(!once.contains('/') && !once.contains('\\'));
    }
}

#[test]
fn upload_file_name_skips_missing_and_empty() {
    assert_eq!(upload_file_name(None), None);
    assert_eq!(upload_file_name(Some("   ")), None);
    assert_eq!(upload_file_name(Some("")), None);
    assert_eq!(upload_file_name(Some("a b.txt")), Some("a b.txt".to_string()));
    assert_eq!(upload_file_name(Some("  /x ")), Some("_x".to_string()));
}

fn stem_ext_with_std(name: &str) -> (String, String) {
    let stem = Path::new(name)
        .file_stem()
        .and_then(|s| s.to_str())
        .unwrap_or(name)
        .to_string();
    let ext = Path::new(name)
        .extension()
        .and_then(|s| s.to_str())
        .map(|s| format!(".{}", s))
        .unwrap_or_default();
    (stem, ext)
}

#[test]
fn stem_and_extension_match_std() {
    for n in NAMES.iter().chain(["a/b.txt", "dir/", "/x/y.z", "...", "a..b"].iter()) {
        assert_eq!(stem_and_extension_of(n), stem_ext_with_std(n), "{:?}", n);
    }
}

#[test]
fn unique_candidates_follow_the_counter() {
    let dir = "/srv/data/p/raw/sources";
    assert_eq!(unique_candidate(dir, "x.pdf", 0), "/srv/data/p/raw/sources/x.pdf");
    assert_eq!(unique_candidate(dir, "x.pdf", 1), "/srv/data/p/raw/sources/x-2.pdf");
    assert_eq!(unique_candidate(dir, "x.pdf", 9), "/srv/data/p/raw/sources/x-10.pdf");
    assert_eq!(unique_candidate(dir, "archive.tar.gz", 1), "/srv/data/p/raw/sources/archive.tar-2.gz");
    assert_eq!(unique_candidate(dir, ".bashrc", 2), "/srv/data/p/raw/sources/.bashrc-3");
    assert_eq!(unique_candidate(dir, "noext", 1), "/srv/data/p/raw/sources/noext-2");
    assert_eq!(unique_candidate(dir, "..", 1), "/srv/data/p/raw/sources/..-2");
}

#[test]
fn unique_candidates_are_distinct() {
    let mut seen = std::collections::HashSet::new();
    for k in 0..200u32 {
        assert!(seen.insert(unique_candidate("/d", "a-2.txt", k)));
    }
}

#[test]
fn upload_target_directories() {
    let dir = DataDir::new("/srv/data");
    let q = UploadQuery { project: "p".to_string(), subdir: None };
    let t = upload_target(&dir, &q);
    assert_eq!(t.project_dir, "/srv/data/p");
    assert_eq!(t.target_dir, "/srv/data/p/raw/sources");
    assert_eq!(t.missing_project, "Project 'p' not found");
    let q = UploadQuery { project: "p".to_string(), subdir: Some("raw/assets".to_string()) };
    assert_eq!(upload_target(&dir, &q).target_dir, "/srv/data/p/raw/assets");
}

#[test]
fn uploaded_file_paths_are_relative_to_data_dir() {
    let dir = DataDir::new("/srv/data");
    let f = uploaded_file(&dir, "x.pdf", "/srv/data/p/raw/sources/x.pdf", 12);
    assert_eq!(f.name, "x.pdf");
    assert_eq!(f.path, "p/raw/sources/x.pdf");
    assert_eq!(f.size, 12);
    let outside = uploaded_file(&dir, "y", "/elsewhere/y", 0);
    assert_eq!(outside.path, "/elsewhere/y");
}

#[test]
fn free_name_search_steps() {
    assert!(matches!(next_candidate(0, false), Probe::Free(0)));
    assert!(matches!(next_candidate(0, true), Probe::Next(1)));
    assert!(matches!(next_candidate(5, true), Probe::Next(6)));
    assert!(matches!(next_candidate(u32::MAX - 2, true), Probe::Next(n) if n == u32::MAX - 1));
    assert!(matches!(next_candidate(u32::MAX - 1, true), Probe::Exhausted));
    assert!(matches!(next_candidate(u32::MAX - 1, false), Probe::Free(n) if n == u32::MAX - 1));
    // the first free name among taken ones
    let taken = ["/d/a.txt", "/d/a-2.txt"];
    let mut attempt = 0;
    let found = loop {
        let c = unique_candidate("/d", "a.txt", attempt);
        match next_candidate(attempt, taken.contains(&c.as_str())) {
            Probe::Free(_) => break c,
            Probe::Next(n) => attempt = n,
            Probe::Exhausted => panic!("counter"),
        }
    };
    assert_eq!(found, "/d/a-3.txt");
}
