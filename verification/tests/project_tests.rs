use llm_wiki_server::config::DataDir;
use llm_wiki_server::project::{
    create_log_content, create_project, create_schema_content, is_project_dir,
    id_creation, is_valid_project, list_projects, listed_project, open_project,
    open_project_root, project_id_file, project_plan, project_markers, resolve_project_id, ProjectId, WikiProject,
};

fn data() -> DataDir {
    DataDir::new("/srv/data")
}

#[test]
fn validity_needs_schema_and_wiki() {
    assert!(is_valid_project(true, true));
    assert!(!is_valid_project(true, false));
    assert!(!is_valid_project(false, true));
    assert!(is_project_dir(true, true, true));
    assert!(!is_project_dir(false, true, true));
    let (schema, wiki) = project_markers("/srv/data/p");
    assert_eq!(schema, "/srv/data/p/schema.md");
    assert_eq!(wiki, "/srv/data/p/wiki");
}

#[test]
fn identifiers() {
    assert_eq!(project_id_file("/srv/data/p"), "/srv/data/p/.llm-wiki/project-id");
    match resolve_project_id("/srv/data/p", Some(Ok("  abc-123\n".to_string()))) {
        Ok(ProjectId::Known(id)) => assert_eq!(id, "abc-123"),
        _ => panic!("expected a known id"),
    }
    match resolve_project_id("/srv/data/p", Some(Err("denied".to_string()))) {
        Err(m) => assert_eq!(m, "Failed to read project ID: denied"),
        _ => panic!("expected an error"),
    }
    match resolve_project_id("/srv/data/p", None) {
        Ok(ProjectId::Create(c)) => {
            assert_eq!(c.dir, "/srv/data/p/.llm-wiki");
            assert_eq!(c.file, "/srv/data/p/.llm-wiki/project-id");
            assert_eq!(c.id.len(), 36);
            assert!(uuid::Uuid::parse_str(&c.id).is_ok());
            assert_eq!(c.mkdir_failure, "Failed to create .llm-wiki dir");
            assert_eq!(c.write_failure, "Failed to write project ID");
        }
        _ => panic!("expected a new id"),
    }
}

#[test]
fn creation_refuses_existing_projects() {
    match create_project(&data(), "p", true) {
        Err(m) => assert_eq!(m, "Project 'p' already exists"),
        Ok(_) => panic!("expected refusal"),
    }
}

#[test]
fn creation_steps() {
    let plan = create_project(&data(), "research", false).ok().unwrap();
    assert_eq!(plan.project.name, "research");
    assert_eq!(plan.project.path, "/srv/data/research");
    assert_eq!(plan.project.id.len(), 36);
    let steps: Vec<(String, Option<String>, String)> = plan
        .steps
        .iter()
        .map(|s| (s.path.clone(), s.contents.clone(), s.failure.clone()))
        .collect();
    assert_eq!(steps.len(), 9 + 1 + 5 * 2 + 1 + 3 * 2);
    assert_eq!(steps[0], ("/srv/data/research/raw/sources".to_string(), None, "Failed to create directory 'raw/sources'".to_string()));
    assert_eq!(steps[8].0, "/srv/data/research/.llm-wiki");
    assert_eq!(steps[9], ("/srv/data/research/.llm-wiki/project-id".to_string(), Some(plan.project.id.clone()), "Failed to write project ID".to_string()));
    assert_eq!(steps[10], ("/srv/data/research".to_string(), None, "Failed to create parent dirs".to_string()));
    assert_eq!(steps[11].0, "/srv/data/research/schema.md");
    assert_eq!(steps[11].1, Some(create_schema_content()));
    assert_eq!(steps[11].2, "Failed to write 'schema.md'");
    assert_eq!(steps[16].0, "/srv/data/research/wiki");
    assert_eq!(steps[17].0, "/srv/data/research/wiki/log.md");
    assert_eq!(steps[17].1, Some(create_log_content(&plan.today)));
    assert_eq!(steps[20], ("/srv/data/research/.obsidian".to_string(), None, "Failed to create .obsidian".to_string()));
    assert_eq!(steps[26].0, "/srv/data/research/.obsidian/core-plugins.json");
}

#[test]
fn log_and_schema_content() {
    assert_eq!(create_log_content("2024-01-02"), "# Research Log\n\n## 2024-01-02\n\n- Project created\n");
    let schema = create_schema_content();
    assert!(schema.starts_with("# Wiki Schema\n\n## Page Types\n"));
    assert!(schema.ends_with("- Synthesis pages cite all contributing sources via `related:`\n"));
}

#[test]
fn opening_checks_in_order() {
    let d = data();
    assert_eq!(
        open_project_root(&d, "../x", Ok("/srv/x".to_string()), true, true),
        Err("Access denied: path '/srv/data/../x' is outside DATA_DIR".to_string())
    );
    assert_eq!(
        open_project_root(&d, "p", Ok("/srv/data/p".to_string()), false, true),
        Err("Project 'p' does not exist".to_string())
    );
    assert_eq!(
        open_project_root(&d, "p", Ok("/srv/data/p".to_string()), true, false),
        Err("'p' is not a valid wiki project".to_string())
    );
    assert_eq!(
        open_project_root(&d, "p", Ok("/srv/data/p".to_string()), true, true),
        Ok("/srv/data/p".to_string())
    );
}

#[test]
fn open_after_create_gives_the_same_project() {
    let d = data();
    let plan = create_project(&d, "notes", false).ok().unwrap();
    let stored = plan.steps[9].contents.clone().unwrap();
    let opened = open_project(&d, "notes", Ok("/srv/data/notes".to_string()), true, true, Some(Ok(stored)))
        .ok()
        .unwrap();
    assert_eq!(opened.project.id, plan.project.id);
    assert_eq!(opened.project.name, plan.project.name);
    assert_eq!(opened.project.path, plan.project.path);
    assert!(opened.store_id.is_none());
}

#[test]
fn open_without_identifier_makes_one() {
    let d = data();
    let opened = open_project(&d, "p", Ok("/srv/data/p".to_string()), true, true, None).ok().unwrap();
    let c = opened.store_id.unwrap();
    assert_eq!(c.id, opened.project.id);
    assert_eq!(c.mkdir_failure, "Failed to create .llm-wiki dir");
    assert_eq!(c.write_failure, "Failed to write project ID");
    assert_eq!(c.file, "/srv/data/p/.llm-wiki/project-id");
}

#[test]
fn projects_sorted_by_name() {
    let found = vec![
        listed_project("3", "zeta", "/srv/data/zeta"),
        listed_project("1", "Alpha", "/srv/data/Alpha"),
        listed_project("2", "alpha", "C:\\data\\alpha"),
    ];
    let sorted: Vec<WikiProject> = list_projects(&found);
    let names: Vec<&str> = sorted.iter().map(|p| p.name.as_str()).collect();
    assert_eq!(names, vec!["Alpha", "alpha", "zeta"]);
    assert_eq!(sorted[1].path, "C:/data/alpha");
}

#[test]
fn plan_with_given_identifier_and_date() {
    let plan = project_plan(&data(), "notes", "0f8c2d5e-1111-4222-8333-944455556666", "2024-03-05");
    assert_eq!(plan.project.id, "0f8c2d5e-1111-4222-8333-944455556666");
    assert_eq!(plan.project.name, "notes");
    assert_eq!(plan.project.path, "/srv/data/notes");
    assert_eq!(plan.today, "2024-03-05");
    assert_eq!(plan.steps.len(), 27);
    assert_eq!(plan.steps[9].path, "/srv/data/notes/.llm-wiki/project-id");
    assert_eq!(plan.steps[9].contents, Some("0f8c2d5e-1111-4222-8333-944455556666".to_string()));
    assert_eq!(plan.steps[17].path, "/srv/data/notes/wiki/log.md");
    assert_eq!(
        plan.steps[17].contents,
        Some("# Research Log\n\n## 2024-03-05\n\n- Project created\n".to_string())
    );
    assert_eq!(plan.steps[17].failure, "Failed to write 'wiki/log.md'");
}

#[test]
fn storing_a_given_identifier() {
    let c = id_creation("/srv/data/p", "abc");
    assert_eq!(c.dir, "/srv/data/p/.llm-wiki");
    assert_eq!(c.file, "/srv/data/p/.llm-wiki/project-id");
    assert_eq!(c.id, "abc");
    assert_eq!(c.mkdir_failure, "Failed to create .llm-wiki dir");
    assert_eq!(c.write_failure, "Failed to write project ID");
}

#[test]
fn new_identifiers_are_version_four() {
    let plan = create_project(&data(), "v4", false).ok().unwrap();
    let id: Vec<char> = plan.project.id.chars().collect();
    assert_eq!(id[14], '4');
    assert!(matches!(id[19], '8' | '9' | 'a' | 'b'));
    assert_eq!(uuid::Uuid::parse_str(&plan.project.id).unwrap().get_version_num(), 4);
    let today: Vec<char> = plan.today.chars().collect();
    assert_eq!(today.len(), 10);
    assert_eq!(today[4], '-');
    assert_eq!(today[7], '-');
}

#[test]
fn reopening_a_new_project_gives_it_back() {
    let d = data();
    let plan = project_plan(&d, "again", "0f8c2d5e-1111-4222-8333-944455556666", "2024-03-05");
    let stored = plan.steps[9].contents.clone().unwrap();
    for _ in 0..2 {
        let o = open_project(&d, "again", Ok("/srv/data/again".to_string()), true, true, Some(Ok(stored.clone())))
            .ok()
            .unwrap();
        assert_eq!(o.project.id, plan.project.id);
        assert_eq!(o.project.name, plan.project.name);
        assert_eq!(o.project.path, plan.project.path);
    }
}
