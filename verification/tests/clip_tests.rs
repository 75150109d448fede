use llm_wiki_server::clip::{
    clip_candidate, clip_draft_dated, clip_markdown_of, clip_project_path, clip_slug, draft_clip, finish_clip,
    get_pending_clips, ClipQueue,
};
use llm_wiki_server::config::DataDir;
use llm_wiki_server::project::WikiProject;

fn slug_with_std_iterators(title: &str) -> String {
    let slug_raw: String = title
        .chars()
        .map(|c| if c.is_alphanumeric() || c == ' ' || c == '-' { c } else { ' ' })
        .collect::<String>()
        .split_whitespace()
        .collect::<Vec<_>>()
        .join("-")
        .to_lowercase();
    slug_raw.chars().take(50).collect()
}

#[test]
fn slug_examples() {
    assert_eq!(clip_slug("Hello, World!"), "hello-world");
    assert_eq!(clip_slug("  Chain-of-Thought   Prompting  "), "chain-of-thought-prompting");
    assert_eq!(clip_slug("???"), "");
    assert_eq!(clip_slug("ÉCOLE Ωmega"), "école-ωmega");
}

#[test]
fn slug_matches_std_iterators() {
    let titles = [
        "A very long title that certainly goes on for more than fifty characters in total",
        "tabs\tand\nnewlines",
        "ΣΑΣ final sigma",
        "İstanbul",
        "",
        "- - -",
        "a\u{00a0}b\u{3000}c",
    ];
    for t in titles {
        let s = clip_slug(t);
        assert_eq!(s, slug_with_std_iterators(t), "{:?}", t);
        assert!(s.chars().count() <= 50);
    }
}

#[test]
fn markdown_layout() {
    let md = clip_markdown_of("Say \"hi\"", "https://x.org/?q=\"a\"", "2024-05-01", "Body text");
    let expected = "---\ntype: clip\ntitle: \"Say \\\"hi\\\"\"\nurl: \"https://x.org/?q=\\\"a\\\"\"\nclipped: 2024-05-01\norigin: web-clip\nsources: []\ntags: [web-clip]\n---\n\n# Say \"hi\"\n\nSource: https://x.org/?q=\"a\"\n\nBody text\n";
    assert_eq!(md, expected);
}

#[test]
fn project_path_for_named_and_unnamed_clips() {
    let dir = DataDir::new("/srv/data");
    assert_eq!(clip_project_path(&dir, Some("p"), &vec![]), Ok("/srv/data/p".to_string()));
    assert_eq!(
        clip_project_path(&dir, None, &vec![]),
        Err("No projects available. Create a project first.".to_string())
    );
    let listed = vec![
        WikiProject { id: "1".into(), name: "a".into(), path: "/srv/data/a".into() },
        WikiProject { id: "2".into(), name: "b".into(), path: "/srv/data/b".into() },
    ];
    assert_eq!(clip_project_path(&dir, None, &listed), Ok("/srv/data/a".to_string()));
}

#[test]
fn draft_and_candidates() {
    let d = draft_clip("/srv/data/p", "My Title", "https://u", "text");
    assert_eq!(d.date.len(), 10);
    assert_eq!(d.date_compact.len(), 8);
    assert_eq!(d.date.replace('-', ""), d.date_compact);
    assert_eq!(d.base_name, format!("my-title-{}", d.date_compact));
    assert_eq!(d.sources_dir, "/srv/data/p/raw/sources");
    assert!(d.markdown.contains(&format!("clipped: {}\n", d.date)));
    assert_eq!(d.missing_project, "Project path does not exist: /srv/data/p");
    let first = clip_candidate(&d, 0);
    assert_eq!(first, format!("/srv/data/p/raw/sources/my-title-{}.md", d.date_compact));
    assert_eq!(clip_candidate(&d, 1), format!("/srv/data/p/raw/sources/my-title-{}-2.md", d.date_compact));
    assert_eq!(clip_candidate(&d, 2), format!("/srv/data/p/raw/sources/my-title-{}-3.md", d.date_compact));
}

#[test]
fn pending_clips_are_handed_out_once_in_order() {
    let mut q = ClipQueue::new();
    assert_eq!(get_pending_clips(&mut q).len(), 0);
    let d = draft_clip("/srv/data/p", "One", "u", "c");
    let f1 = clip_candidate(&d, 0);
    let rel = finish_clip(&mut q, &d, &f1);
    assert_eq!(rel, format!("raw/sources/one-{}.md", d.date_compact));
    let f2 = clip_candidate(&d, 1);
    finish_clip(&mut q, &d, &f2);
    assert_eq!(q.len(), 2);
    let got = get_pending_clips(&mut q);
    assert_eq!(got.len(), 2);
    assert_eq!(got[0].file_path, f1);
    assert_eq!(got[1].file_path, f2);
    assert_eq!(got[0].project_path, "/srv/data/p");
    assert_eq!(q.len(), 0);
    assert_eq!(get_pending_clips(&mut q).len(), 0);
}

#[test]
fn draft_with_given_dates() {
    let d = clip_draft_dated("/srv/data/p", "Rust \"Tips\"", "https://x.y/\"q\"", "Body", "2024-03-05", "20240305");
    assert_eq!(d.project_path, "/srv/data/p");
    assert_eq!(d.date, "2024-03-05");
    assert_eq!(d.date_compact, "20240305");
    assert_eq!(d.base_name, "rust-tips-20240305");
    assert_eq!(d.sources_dir, "/srv/data/p/raw/sources");
    assert_eq!(
        d.markdown,
        "---\ntype: clip\ntitle: \"Rust \\\"Tips\\\"\"\nurl: \"https://x.y/\\\"q\\\"\"\nclipped: 2024-03-05\norigin: web-clip\nsources: []\ntags: [web-clip]\n---\n\n# Rust \"Tips\"\n\nSource: https://x.y/\"q\"\n\nBody\n"
    );
    assert_eq!(d.missing_project, "Project path does not exist: /srv/data/p");
    assert_eq!(clip_candidate(&d, 0), "/srv/data/p/raw/sources/rust-tips-20240305.md");
    assert_eq!(clip_candidate(&d, 1), "/srv/data/p/raw/sources/rust-tips-20240305-2.md");
}

#[test]
fn clock_dates_have_the_written_shape() {
    let d = draft_clip("/srv/data/p", "t", "u", "c");
    let b = d.date.as_bytes();
    assert!(b[..4].iter().all(|c| c.is_ascii_digit()));
    assert_eq!(b[4], b'-');
    assert_eq!(b[7], b'-');
    let month: u32 = d.date[5..7].parse().unwrap();
    let day: u32 = d.date[8..10].parse().unwrap();
    assert!((1..=12).contains(&month));
    assert!((1..=31).contains(&day));
    assert!(d.date_compact.bytes().all(|c| c.is_ascii_digit()));
}

#[test]
fn saved_clip_file_is_project_joined_with_report() {
    let mut q = ClipQueue::new();
    for title in ["Straße/Ünïcode\\ title", "plain"] {
        let d = clip_draft_dated("/srv/data/p/", title, "u", "c", "2024-03-05", "20240305");
        assert!(!d.base_name.contains('/') && !d.base_name.contains('\\'));
        for attempt in 0..3 {
            let file = clip_candidate(&d, attempt);
            let rel = finish_clip(&mut q, &d, &file);
            assert!(rel.starts_with("raw/sources/"));
            assert_eq!(std::path::Path::new(&d.project_path).join(&rel), std::path::PathBuf::from(&file));
        }
    }
}
