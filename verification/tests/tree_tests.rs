use llm_wiki_server::config::DataDir;
use llm_wiki_server::tree::{
    build_tree, list_directory, list_directory_target, listing_order_of, DirContents,
    DirEntryInfo, FileNode,
};

fn file(name: &str, path: &str) -> DirEntryInfo {
    DirEntryInfo {
        name: Some(name.to_string()),
        path: path.to_string(),
        is_dir: false,
        contents: DirContents::NotRead,
    }
}

fn dir(name: &str, path: &str, contents: DirContents) -> DirEntryInfo {
    DirEntryInfo { name: Some(name.to_string()), path: path.to_string(), is_dir: true, contents }
}

fn names(nodes: &[FileNode]) -> Vec<String> {
    nodes.iter().map(|n| n.name.clone()).collect()
}

#[test]
fn listing_puts_directories_first_then_names() {
    let entries = vec![
        file("b.md", "/d/b.md"),
        dir("zeta", "/d/zeta", DirContents::Listed(vec![])),
        file(".hidden", "/d/.hidden"),
        file("a.md", "/d/a.md"),
        dir("alpha", "/d/alpha", DirContents::Listed(vec![file("x", "/d/alpha/x")])),
        DirEntryInfo { name: None, path: "/d/\u{fffd}".to_string(), is_dir: false, contents: DirContents::NotRead },
        file("B.md", "/d/B.md"),
    ];
    let nodes = build_tree(&DirContents::Listed(entries), "/d", 0, 30).unwrap();
    assert_eq!(names(&nodes), vec!["alpha", "zeta", "B.md", "a.md", "b.md"]);
    assert!(nodes[0].is_dir);
    let kids = nodes[0].children.as_ref().unwrap();
    assert_eq!(names(kids), vec!["x"]);
    assert_eq!(kids[0].path, "/d/alpha/x");
    // an empty directory has no children list
    assert!(nodes[1].children.is_none());
    assert!(nodes[2].children.is_none());
}

#[test]
fn listing_order_indices() {
    let entries = vec![file("b", "/b"), file("a", "/a"), dir("c", "/c", DirContents::NotRead)];
    assert_eq!(listing_order_of(&entries), vec![2, 1, 0]);
}

#[test]
fn depth_limit_and_unread_directories() {
    let deep = dir("sub", "/d/sub", DirContents::Listed(vec![file("f", "/d/sub/f")]));
    let nodes = build_tree(&DirContents::Listed(vec![deep]), "/d", 0, 1).unwrap();
    assert_eq!(nodes.len(), 1);
    assert!(nodes[0].children.is_none());
    let at_limit = build_tree(&DirContents::Failed("boom".to_string()), "/d", 5, 5).unwrap();
    assert!(at_limit.is_empty());
    assert!(build_tree(&DirContents::NotRead, "/d", 0, 30).unwrap().is_empty());
}

#[test]
fn read_failures_propagate() {
    let bad = dir("bad", "/d/bad", DirContents::Failed("Permission denied".to_string()));
    let r = build_tree(&DirContents::Listed(vec![file("a", "/d/a"), bad]), "/d", 0, 30);
    assert_eq!(r.err(), Some("Failed to read directory '/d/bad': Permission denied".to_string()));
    let hidden_bad = dir(".git", "/d/.git", DirContents::Failed("nope".to_string()));
    assert!(build_tree(&DirContents::Listed(vec![hidden_bad]), "/d", 0, 30).is_ok());
}

#[test]
fn backslashes_in_paths_become_slashes() {
    let nodes = build_tree(&DirContents::Listed(vec![file("a\\b", "/d/a\\b")]), "/d", 0, 30).unwrap();
    assert_eq!(nodes[0].name, "a\\b");
    assert_eq!(nodes[0].path, "/d/a/b");
}

#[test]
fn list_directory_checks_first() {
    let d = DataDir::new("/srv/data");
    assert_eq!(
        list_directory_target(&d, "p", Ok("/srv/data/p".to_string()), false),
        Err("Path is not a directory: 'p'".to_string())
    );
    assert_eq!(
        list_directory_target(&d, "p", Ok("/srv/data/p".to_string()), true),
        Ok("/srv/data/p".to_string())
    );
    let r = list_directory(&d, "/etc", Ok("/etc".to_string()), true, &DirContents::NotRead);
    assert_eq!(r.err(), Some("Access denied: path '/etc' is outside DATA_DIR".to_string()));
    let listed = DirContents::Listed(vec![file("x.md", "/srv/data/p/x.md")]);
    let ok = list_directory(&d, "p", Ok("/srv/data/p".to_string()), true, &listed).unwrap();
    assert_eq!(names(&ok), vec!["x.md"]);
}
