//! Wiki projects: their layout on disk, their identity, and how they are
//! listed, created and opened.

use vstd::prelude::*;
use crate::clock::{is_dashed_date, local_date_dashed};
use crate::config::{result_view, spec_validate_path, validate_path, DataDir};
use crate::path::{
    dot, is_absolute, is_plain_relative, join_path, lemma_join_relative_starts_with,
    lemma_parent_of_join, lemma_plain_concat, lemma_plain_single, path_parent, spec_join,
    spec_parent, spec_starts_with, to_slashes, with_forward_slashes,
};
use crate::templates::{
    INDEX_TEMPLATE, OBSIDIAN_APPEARANCE, OBSIDIAN_APP_CONFIG, OBSIDIAN_CORE_PLUGINS,
    OVERVIEW_TEMPLATE, PURPOSE_TEMPLATE, SCHEMA_TEMPLATE,
};
use crate::text::{chars_of, concat2, concat3, is_white_space, owned, string_of, trim, trim_chars};

verus! {

/// A wiki project as the client sees it.
pub struct WikiProject {
    pub id: String,
    pub name: String,
    pub path: String,
}

pub open spec fn project_view(p: WikiProject) -> (Seq<char>, Seq<char>, Seq<char>) {
    (p.id@, p.name@, p.path@)
}

// ---------------------------------------------------------------------------
// What makes a directory a project
// ---------------------------------------------------------------------------

/// A directory is a wiki project when it holds `schema.md` and a `wiki`
/// directory.
pub fn is_valid_project(has_schema: bool, wiki_is_dir: bool) -> (r: bool)
    ensures
        r == (has_schema && wiki_is_dir),
{
    has_schema && wiki_is_dir
}

/// The two paths that decide whether `root` is a project: its `schema.md`
/// and its `wiki` directory.
pub fn project_markers(root: &str) -> (r: (String, String))
    ensures
        r.0@ == spec_join(root@, "schema.md"@),
        r.1@ == spec_join(root@, "wiki"@),
{
    (join_path(root, "schema.md"), join_path(root, "wiki"))
}

// ---------------------------------------------------------------------------
// Project identity
// ---------------------------------------------------------------------------

/// The text of a fresh identifier: 36 characters, lower-case hexadecimal
/// digits in groups of 8, 4, 4, 4 and 12 separated by `-`.
pub open spec fn is_uuid_text(s: Seq<char>) -> bool {
    &&& s.len() == 36
    &&& forall|i: int|
        0 <= i < 36 ==> if i == 8 || i == 13 || i == 18 || i == 23 {
            #[trigger] s[i] == '-'
        } else {
            ('0' <= s[i] && s[i] <= '9') || ('a' <= s[i] && s[i] <= 'f')
        }
}

/// The text of a version 4 (random) UUID: hyphenated lower-case hexadecimal
/// with the version digit `4` and a variant digit of `8`, `9`, `a` or `b`.
pub open spec fn is_uuid_v4_text(s: Seq<char>) -> bool {
    &&& is_uuid_text(s)
    &&& s[14] == '4'
    &&& (s[19] == '8' || s[19] == '9' || s[19] == 'a' || s[19] == 'b')
}

/// A fresh random project identifier; wraps `uuid::Uuid::new_v4()` and its
/// `to_string()`, which writes the hyphenated lower-case form. `new_v4`
/// masks in the version and variant bits; the other digits are random and
/// left open.
#[verifier::external_body]
pub(crate) fn new_uuid() -> (r: String)
    ensures
        is_uuid_v4_text(r@),
{
    uuid::Uuid::new_v4().to_string()
}

pub open spec fn id_file(root: Seq<char>) -> Seq<char> {
    spec_join(root, ".llm-wiki/project-id"@)
}

/// Storing a new identifier: the directory to create, the file to write, the
/// identifier, and the failure texts.
pub struct IdCreation {
    pub dir: String,
    pub file: String,
    pub id: String,
    pub mkdir_failure: String,
    pub write_failure: String,
}

/// How a project's identifier is found: read from its file, or made and
/// stored.
pub enum ProjectId {
    Known(String),
    Create(IdCreation),
}

/// The path of a project's identifier file.
pub fn project_id_file(root: &str) -> (r: String)
    ensures
        r@ == id_file(root@),
{
    join_path(root, ".llm-wiki/project-id")
}

/// Storing the identifier `id` for the project at `root`.
pub fn id_creation(root: &str, id: &str) -> (c: IdCreation)
    ensures
        c.dir@ == spec_join(root@, ".llm-wiki"@),
        c.file@ == id_file(root@),
        c.id@ == id@,
        c.mkdir_failure@ == "Failed to create .llm-wiki dir"@,
        c.write_failure@ == "Failed to write project ID"@,
{
    IdCreation {
        dir: join_path(root, ".llm-wiki"),
        file: project_id_file(root),
        id: owned(id),
        mkdir_failure: owned("Failed to create .llm-wiki dir"),
        write_failure: owned("Failed to write project ID"),
    }
}

/// A project's identifier: `stored` is what reading its identifier file
/// gave, `None` when there is no such file. A stored identifier is trimmed;
/// a missing one is made afresh, to be stored.
pub fn resolve_project_id(root: &str, stored: Option<Result<String, String>>) -> (r: Result<
    ProjectId,
    String,
>)
    ensures
        match stored {
            Some(Ok(text)) => r matches Ok(ProjectId::Known(id)) && id@ == trim(text@),
            Some(Err(e)) => r matches Err(m) && m@ == "Failed to read project ID: "@ + e@,
            None => r matches Ok(ProjectId::Create(c)) && {
                &&& c.dir@ == spec_join(root@, ".llm-wiki"@)
                &&& c.file@ == id_file(root@)
                &&& is_uuid_v4_text(c.id@)
                &&& c.mkdir_failure@ == "Failed to create .llm-wiki dir"@
                &&& c.write_failure@ == "Failed to write project ID"@
            },
        },
{
    match stored {
        Some(Ok(text)) => {
            let t = trim_chars(&chars_of(text.as_str()));
            Ok(ProjectId::Known(string_of(&t)))
        },
        Some(Err(e)) => Err(concat2("Failed to read project ID: ", e.as_str())),
        None => Ok(ProjectId::Create(id_creation(root, new_uuid().as_str()))),
    }
}


// ---------------------------------------------------------------------------
// Creating a project
// ---------------------------------------------------------------------------

/// One step of creating a project: a directory to create (no contents) or a
/// file to write, with the text its failure message starts with.
pub struct ProjectStep {
    pub path: String,
    pub contents: Option<String>,
    pub failure: String,
}

pub type StepView = (Seq<char>, Option<Seq<char>>, Seq<char>);

pub open spec fn step_view(s: ProjectStep) -> StepView {
    (
        s.path@,
        match s.contents {
            Some(c) => Some(c@),
            None => None,
        },
        s.failure@,
    )
}

pub open spec fn step_views(s: Seq<ProjectStep>) -> Seq<StepView> {
    s.map_values(|x: ProjectStep| step_view(x))
}

/// The directories of a new project, in the order they are made.
pub open spec fn layout_dirs() -> Seq<Seq<char>> {
    seq![
        "raw/sources"@,
        "raw/assets"@,
        "wiki/entities"@,
        "wiki/concepts"@,
        "wiki/sources"@,
        "wiki/queries"@,
        "wiki/comparisons"@,
        "wiki/synthesis"@,
        ".llm-wiki"@,
    ]
}

pub open spec fn dir_steps(root: Seq<char>, dirs: Seq<Seq<char>>) -> Seq<StepView> {
    dirs.map_values(
        |d: Seq<char>|
            (spec_join(root, d), None::<Seq<char>>, "Failed to create directory '"@ + d + "'"@),
    )
}

/// Writing a template file: its parent directory first, then the file.
pub open spec fn template_steps(root: Seq<char>, rel: Seq<char>, contents: Seq<char>) -> Seq<
    StepView,
> {
    let full = spec_join(root, rel);
    let write: StepView = (full, Some(contents), "Failed to write '"@ + rel + "'"@);
    match spec_parent(full) {
        Some(parent) => seq![(parent, None::<Seq<char>>, "Failed to create parent dirs"@), write],
        None => seq![write],
    }
}

/// The research log a project starts with.
pub open spec fn log_content(today: Seq<char>) -> Seq<char> {
    "# Research Log\n\n## "@ + today + "\n\n- Project created\n"@
}

/// Every step of creating the project at `root`, in order: its directories,
/// its identifier file, its template pages, and the Obsidian settings.
pub open spec fn creation_steps(root: Seq<char>, id: Seq<char>, today: Seq<char>) -> Seq<StepView> {
    dir_steps(root, layout_dirs()) + seq![
        (id_file(root), Some(id), "Failed to write project ID"@),
    ] + template_steps(root, "schema.md"@, SCHEMA_TEMPLATE@) + template_steps(
        root,
        "purpose.md"@,
        PURPOSE_TEMPLATE@,
    ) + template_steps(root, "wiki/index.md"@, INDEX_TEMPLATE@) + template_steps(
        root,
        "wiki/log.md"@,
        log_content(today),
    ) + template_steps(root, "wiki/overview.md"@, OVERVIEW_TEMPLATE@) + seq![
        (spec_join(root, ".obsidian"@), None::<Seq<char>>, "Failed to create .obsidian"@),
    ] + template_steps(root, ".obsidian/app.json"@, OBSIDIAN_APP_CONFIG@) + template_steps(
        root,
        ".obsidian/appearance.json"@,
        OBSIDIAN_APPEARANCE@,
    ) + template_steps(root, ".obsidian/core-plugins.json"@, OBSIDIAN_CORE_PLUGINS@)
}

/// The schema page of a new project.
pub fn create_schema_content() -> (r: String)
    ensures
        r@ == SCHEMA_TEMPLATE@,
{
    owned(SCHEMA_TEMPLATE)
}

/// The research log of a project created on `today`.
pub fn create_log_content(today: &str) -> (r: String)
    ensures
        r@ == log_content(today@),
{
    concat3("# Research Log\n\n## ", today, "\n\n- Project created\n")
}

fn push_step(steps: &mut Vec<ProjectStep>, path: String, contents: Option<String>, failure: String)
    ensures
        step_views(final(steps)@) == step_views(old(steps)@).push(
            (
                path@,
                match contents {
                    Some(c) => Some(c@),
                    None => None,
                },
                failure@,
            ),
        ),
{
    let ghost before = steps@;
    let step = ProjectStep { path, contents, failure };
    steps.push(step);
    assert(step_views(steps@) =~= step_views(before).push(step_view(step)));
}

fn push_dir_step(steps: &mut Vec<ProjectStep>, root: &str, d: &str)
    ensures
        step_views(final(steps)@) == step_views(old(steps)@) + dir_steps(root@, seq![d@]),
{
    let path = join_path(root, d);
    let failure = concat3("Failed to create directory '", d, "'");
    push_step(steps, path, None, failure);
    assert(step_views(steps@) =~= step_views(old(steps)@) + dir_steps(root@, seq![d@]));
}

fn push_template_steps(steps: &mut Vec<ProjectStep>, root: &str, rel: &str, contents: &str)
    ensures
        step_views(final(steps)@) == step_views(old(steps)@) + template_steps(
            root@,
            rel@,
            contents@,
        ),
{
    let full = join_path(root, rel);
    match path_parent(full.as_str()) {
        Some(parent) => {
            push_step(steps, parent, None, owned("Failed to create parent dirs"));
        },
        None => {},
    }
    let failure = concat3("Failed to write '", rel, "'");
    push_step(steps, full, Some(owned(contents)), failure);
    assert(step_views(steps@) =~= step_views(old(steps)@) + template_steps(
        root@,
        rel@,
        contents@,
    ));
}

/// Creating a project: the project to report and the steps that make it.
pub struct ProjectPlan {
    pub project: WikiProject,
    pub today: String,
    pub steps: Vec<ProjectStep>,
}

pub open spec fn already_exists_message(name: Seq<char>) -> Seq<char> {
    "Project '"@ + name + "' already exists"@
}

/// The plan for a new project `name` inside the data directory, with
/// identifier `id`, created on `today`.
pub fn project_plan(dir: &DataDir, name: &str, id: &str, today: &str) -> (plan: ProjectPlan)
    ensures
        plan.project.id@ == id@,
        plan.project.name@ == name@,
        plan.project.path@ == to_slashes(spec_join(dir@, name@)),
        plan.today@ == today@,
        step_views(plan.steps@) == creation_steps(spec_join(dir@, name@), id@, today@),
{
    let root = join_path(crate::config::data_dir(dir), name);
    let r = root.as_str();
    let mut steps: Vec<ProjectStep> = Vec::new();
    push_dir_step(&mut steps, r, "raw/sources");
    push_dir_step(&mut steps, r, "raw/assets");
    push_dir_step(&mut steps, r, "wiki/entities");
    push_dir_step(&mut steps, r, "wiki/concepts");
    push_dir_step(&mut steps, r, "wiki/sources");
    push_dir_step(&mut steps, r, "wiki/queries");
    push_dir_step(&mut steps, r, "wiki/comparisons");
    push_dir_step(&mut steps, r, "wiki/synthesis");
    push_dir_step(&mut steps, r, ".llm-wiki");
    assert(step_views(steps@) =~= dir_steps(root@, layout_dirs()));
    push_step(&mut steps, project_id_file(r), Some(owned(id)), owned("Failed to write project ID"));
    push_template_steps(&mut steps, r, "schema.md", create_schema_content().as_str());
    push_template_steps(&mut steps, r, "purpose.md", PURPOSE_TEMPLATE);
    push_template_steps(&mut steps, r, "wiki/index.md", INDEX_TEMPLATE);
    push_template_steps(&mut steps, r, "wiki/log.md", create_log_content(today).as_str());
    push_template_steps(&mut steps, r, "wiki/overview.md", OVERVIEW_TEMPLATE);
    push_step(&mut steps, join_path(r, ".obsidian"), None, owned("Failed to create .obsidian"));
    push_template_steps(&mut steps, r, ".obsidian/app.json", OBSIDIAN_APP_CONFIG);
    push_template_steps(&mut steps, r, ".obsidian/appearance.json", OBSIDIAN_APPEARANCE);
    push_template_steps(&mut steps, r, ".obsidian/core-plugins.json", OBSIDIAN_CORE_PLUGINS);
    let project = WikiProject { id: owned(id), name: owned(name), path: with_forward_slashes(r) };
    ProjectPlan { project, today: owned(today), steps }
}

/// Plans creating the project `name` inside the data directory;
/// `root_exists` tells whether that directory already exists. A new project
/// gets a fresh identifier and today's date in its log (the clock's date:
/// nothing is stated of it).
pub fn create_project(dir: &DataDir, name: &str, root_exists: bool) -> (r: Result<
    ProjectPlan,
    String,
>)
    ensures
        root_exists ==> (r matches Err(m) && m@ == already_exists_message(name@)),
        !root_exists ==> (r matches Ok(plan) && {
            let root = spec_join(dir@, name@);
            &&& plan.project.name@ == name@
            &&& plan.project.path@ == to_slashes(root)
            &&& is_uuid_v4_text(plan.project.id@)
            &&& is_dashed_date(plan.today@)
            &&& step_views(plan.steps@) == creation_steps(root, plan.project.id@, plan.today@)
        }),
{
    if root_exists {
        return Err(concat3("Project '", name, "' already exists"));
    }
    let today = local_date_dashed();
    let id = new_uuid();
    Ok(project_plan(dir, name, id.as_str(), today.as_str()))
}

// ---------------------------------------------------------------------------
// Opening a project
// ---------------------------------------------------------------------------

pub open spec fn missing_project_message(name: Seq<char>) -> Seq<char> {
    "Project '"@ + name + "' does not exist"@
}

pub open spec fn not_a_project_message(name: Seq<char>) -> Seq<char> {
    "'"@ + name + "' is not a valid wiki project"@
}

/// Whether the project `name` may be opened: its directory inside the data
/// directory (`canonical` is what canonicalizing it gave) must lie inside the
/// data directory, exist, and be a project. The answer is its directory.
pub open spec fn spec_open_project_root(
    data: Seq<char>,
    name: Seq<char>,
    canonical: Result<Seq<char>, Seq<char>>,
    exists: bool,
    is_project: bool,
) -> Result<Seq<char>, Seq<char>> {
    let root = spec_join(data, name);
    match spec_validate_path(data, root, canonical) {
        Err(m) => Err(m),
        Ok(_) => if !exists {
            Err(missing_project_message(name))
        } else if !is_project {
            Err(not_a_project_message(name))
        } else {
            Ok(root)
        },
    }
}

/// What opening the project `name` gives when reading its identifier file
/// gave `text`: the trimmed identifier, the name and the directory with
/// forward slashes; or why it cannot be opened.
pub open spec fn spec_open_known(
    data: Seq<char>,
    name: Seq<char>,
    canonical: Result<Seq<char>, Seq<char>>,
    exists: bool,
    is_project: bool,
    text: Seq<char>,
) -> Result<(Seq<char>, Seq<char>, Seq<char>), Seq<char>> {
    match spec_open_project_root(data, name, canonical, exists, is_project) {
        Err(m) => Err(m),
        Ok(root) => Ok((trim(text), name, to_slashes(root))),
    }
}

pub fn open_project_root(
    dir: &DataDir,
    name: &str,
    canonical: Result<String, String>,
    exists: bool,
    is_project: bool,
) -> (r: Result<String, String>)
    ensures
        result_view(r) == spec_open_project_root(
            dir@,
            name@,
            result_view(canonical),
            exists,
            is_project,
        ),
{
    let root = join_path(crate::config::data_dir(dir), name);
    match validate_path(dir, root.as_str(), canonical) {
        Err(m) => Err(m),
        Ok(_) => if !exists {
            Err(concat3("Project '", name, "' does not exist"))
        } else if !is_project {
            Err(concat3("'", name, "' is not a valid wiki project"))
        } else {
            Ok(root)
        },
    }
}

/// An opened project, with the identifier still to be stored when it had
/// none.
pub struct OpenedProject {
    pub project: WikiProject,
    pub store_id: Option<IdCreation>,
}

/// Opens the project `name`: `canonical`, `exists` and `is_project` as for
/// `open_project_root`; `stored_id` is what reading its identifier file gave
/// (`None` when there is none).
pub fn open_project(
    dir: &DataDir,
    name: &str,
    canonical: Result<String, String>,
    exists: bool,
    is_project: bool,
    stored_id: Option<Result<String, String>>,
) -> (r: Result<OpenedProject, String>)
    ensures
        match spec_open_project_root(dir@, name@, result_view(canonical), exists, is_project) {
            Err(m) => r matches Err(e) && e@ == m,
            Ok(root) => match stored_id {
                Some(Ok(text)) => r matches Ok(o) && o.project.id@ == trim(text@)
                    && o.project.name@ == name@ && o.project.path@ == to_slashes(root)
                    && o.store_id is None,
                Some(Err(e)) => r matches Err(m) && m@ == "Failed to read project ID: "@ + e@,
                None => r matches Ok(o) && o.project.name@ == name@ && o.project.path@
                    == to_slashes(root) && is_uuid_v4_text(o.project.id@) && (o.store_id matches Some(
                    c,
                ) && c.id@ == o.project.id@ && c.dir@ == spec_join(root, ".llm-wiki"@) && c.file@
                    == id_file(root) && c.mkdir_failure@ == "Failed to create .llm-wiki dir"@
                    && c.write_failure@ == "Failed to write project ID"@),
            },
        },
        stored_id matches Some(Ok(text)) ==> match spec_open_known(
            dir@,
            name@,
            result_view(canonical),
            exists,
            is_project,
            text@,
        ) {
            Ok(v) => r matches Ok(o) && project_view(o.project) == v,
            Err(m) => r matches Err(e) && e@ == m,
        },
{
    let root = open_project_root(dir, name, canonical, exists, is_project)?;
    let path = with_forward_slashes(root.as_str());
    match resolve_project_id(root.as_str(), stored_id)? {
        ProjectId::Known(id) => Ok(
            OpenedProject { project: WikiProject { id, name: owned(name), path }, store_id: None },
        ),
        ProjectId::Create(c) => {
            let id = owned(c.id.as_str());
            Ok(
                OpenedProject {
                    project: WikiProject { id, name: owned(name), path },
                    store_id: Some(c),
                },
            )
        },
    }
}

// ---------------------------------------------------------------------------
// Listing projects
// ---------------------------------------------------------------------------

/// Whether an entry of the data directory is listed as a project.
pub fn is_project_dir(is_dir: bool, has_schema: bool, wiki_is_dir: bool) -> (r: bool)
    ensures
        r == (is_dir && has_schema && wiki_is_dir),
{
    is_dir && is_valid_project(has_schema, wiki_is_dir)
}

/// A listed project: its identifier, its directory's name, and its path with
/// forward slashes.
pub fn listed_project(id: &str, name: &str, path: &str) -> (p: WikiProject)
    ensures
        p.id@ == id@,
        p.name@ == name@,
        p.path@ == to_slashes(path@),
{
    WikiProject { id: owned(id), name: owned(name), path: with_forward_slashes(path) }
}

/// Where project `x` goes among the `sorted` ones (from position `j`): before
/// the first whose name it sorts strictly before.
pub open spec fn project_insert_position(ps: Seq<WikiProject>, sorted: Seq<int>, x: int, j: int) -> int
    decreases sorted.len() - j,
{
    if j < 0 || j >= sorted.len() {
        sorted.len() as int
    } else if crate::tree::name_lt(ps[x].name@, ps[sorted[j]].name@) {
        j
    } else {
        project_insert_position(ps, sorted, x, j + 1)
    }
}

/// The first `n` projects stably sorted by name.
pub open spec fn project_order(ps: Seq<WikiProject>, n: int) -> Seq<int>
    decreases n,
{
    if n <= 0 {
        Seq::<int>::empty()
    } else {
        let r = project_order(ps, n - 1);
        r.insert(project_insert_position(ps, r, n - 1, 0), n - 1)
    }
}

pub open spec fn sorted_projects(ps: Seq<WikiProject>) -> Seq<(Seq<char>, Seq<char>, Seq<char>)> {
    project_order(ps, ps.len() as int).map_values(|i: int| project_view(ps[i]))
}

proof fn lemma_project_order_bounds(ps: Seq<WikiProject>, n: int)
    requires
        0 <= n <= ps.len(),
    ensures
        project_order(ps, n).len() == n,
        forall|j: int| 0 <= j < n ==> 0 <= #[trigger] project_order(ps, n)[j] < n,
    decreases n,
{
    if n > 0 {
        lemma_project_order_bounds(ps, n - 1);
        lemma_project_position_bounds(ps, project_order(ps, n - 1), n - 1, 0);
        let r = project_order(ps, n - 1);
        let p = project_insert_position(ps, r, n - 1, 0);
        assert forall|j: int| 0 <= j < n implies 0 <= #[trigger] project_order(ps, n)[j] < n by {
            if j < p {
                assert(project_order(ps, n)[j] == r[j]);
            } else if j > p {
                assert(project_order(ps, n)[j] == r[j - 1]);
            }
        }
    }
}

proof fn lemma_project_position_bounds(ps: Seq<WikiProject>, sorted: Seq<int>, x: int, j: int)
    requires
        0 <= j <= sorted.len(),
    ensures
        j <= project_insert_position(ps, sorted, x, j) <= sorted.len(),
    decreases sorted.len() - j,
{
    if j < sorted.len() {
        lemma_project_position_bounds(ps, sorted, x, j + 1);
    }
}

fn name_lt_exec(a: &String, b: &String) -> (r: bool)
    ensures
        r == crate::tree::name_lt(a@, b@),
{
    crate::tree::chars_lt(&chars_of(a.as_str()), &chars_of(b.as_str()))
}

/// The projects found, stably sorted by name.
pub fn list_projects(found: &Vec<WikiProject>) -> (r: Vec<WikiProject>)
    ensures
        r@.map_values(|p: WikiProject| project_view(p)) == sorted_projects(found@),
{
    let mut order: Vec<usize> = Vec::new();
    let mut i: usize = 0;
    while i < found.len()
        invariant
            i <= found.len(),
            crate::tree::usize_ints(order@) == project_order(found@, i as int),
        decreases found.len() - i,
    {
        proof {
            lemma_project_order_bounds(found@, i as int);
        }
        let ghost sorted = crate::tree::usize_ints(order@);
        let mut pos: usize = 0;
        while pos < order.len() && !name_lt_exec(&found[i].name, &found[order[pos]].name)
            invariant
                pos <= order.len(),
                i < found.len(),
                sorted == crate::tree::usize_ints(order@),
                sorted == project_order(found@, i as int),
                forall|j: int| 0 <= j < sorted.len() ==> 0 <= #[trigger] sorted[j] < i,
                project_insert_position(found@, sorted, i as int, 0) == project_insert_position(
                    found@,
                    sorted,
                    i as int,
                    pos as int,
                ),
            decreases order.len() - pos,
        {
            assert(sorted[pos as int] == order@[pos as int] as int);
            pos = pos + 1;
        }
        order.insert(pos, i);
        assert(crate::tree::usize_ints(order@) =~= sorted.insert(pos as int, i as int));
        i = i + 1;
    }
    proof {
        lemma_project_order_bounds(found@, found.len() as int);
    }
    let ghost ord = project_order(found@, found.len() as int);
    let mut r: Vec<WikiProject> = Vec::new();
    let mut k: usize = 0;
    while k < order.len()
        invariant
            k <= order.len(),
            crate::tree::usize_ints(order@) == ord,
            ord == project_order(found@, found.len() as int),
            ord.len() == found.len(),
            forall|j: int| 0 <= j < ord.len() ==> 0 <= #[trigger] ord[j] < found.len(),
            r@.map_values(|p: WikiProject| project_view(p)) == ord.take(k as int).map_values(
                |i: int| project_view(found@[i]),
            ),
        decreases order.len() - k,
    {
        let idx = order[k];
        assert(ord[k as int] == idx as int);
        let p = &found[idx];
        let copy = listed_project_copy(p);
        let ghost before = r@;
        r.push(copy);
        assert(r@.map_values(|p: WikiProject| project_view(p)) =~= before.map_values(
            |p: WikiProject| project_view(p),
        ).push(project_view(found@[idx as int])));
        assert(ord.take(k + 1).map_values(|i: int| project_view(found@[i])) =~= ord.take(
            k as int,
        ).map_values(|i: int| project_view(found@[i])).push(project_view(found@[idx as int])));
        k = k + 1;
    }
    assert(ord.take(order.len() as int) =~= ord);
    r
}

fn listed_project_copy(p: &WikiProject) -> (q: WikiProject)
    ensures
        project_view(q) == project_view(*p),
{
    WikiProject { id: owned(p.id.as_str()), name: owned(p.name.as_str()), path: owned(p.path.as_str()) }
}


// ---------------------------------------------------------------------------
// Laws
// ---------------------------------------------------------------------------

/// A project keeps its identity: the identifier `create_project` writes to a
/// new project's identifier file is, read back and trimmed by
/// `resolve_project_id` (and so by `open_project`), the same identifier.
pub proof fn lemma_identifier_reads_back(id: Seq<char>)
    requires
        is_uuid_text(id),
    ensures
        trim(id) == id,
{
    assert(!is_white_space(id[0])) by {
        assert(id[0] == id[0int]);
    }
    assert(crate::text::trim_start(id) == id);
    assert(!is_white_space(id.last())) by {
        assert(id.last() == id[35int]);
    }
    assert(crate::text::trim_end(id) == id);
}


proof fn lemma_project_position_facts(ps: Seq<WikiProject>, sorted: Seq<int>, x: int, j: int)
    requires
        0 <= j <= sorted.len(),
    ensures
        j <= project_insert_position(ps, sorted, x, j) <= sorted.len(),
        forall|k: int|
            j <= k < project_insert_position(ps, sorted, x, j) ==> !crate::tree::name_lt(
                ps[x].name@,
                ps[#[trigger] sorted[k]].name@,
            ),
        project_insert_position(ps, sorted, x, j) < sorted.len() ==> crate::tree::name_lt(
            ps[x].name@,
            ps[sorted[project_insert_position(ps, sorted, x, j)]].name@,
        ),
    decreases sorted.len() - j,
{
    if j < sorted.len() && !crate::tree::name_lt(ps[x].name@, ps[sorted[j]].name@) {
        lemma_project_position_facts(ps, sorted, x, j + 1);
    }
}

/// `order` lists each of the first `n` projects once, by ascending name,
/// projects with the same name in the order they were found.
pub open spec fn is_name_order(ps: Seq<WikiProject>, n: int, order: Seq<int>) -> bool {
    &&& order.len() == n
    &&& forall|i: int| 0 <= i < order.len() ==> 0 <= #[trigger] order[i] < n
    &&& forall|k: int| 0 <= k < n ==> order.contains(k)
    &&& forall|i: int, j: int| 0 <= i < j < order.len() ==> #[trigger] order[i] != #[trigger] order[j]
    &&& forall|i: int, j: int|
        0 <= i < j < order.len() ==> !crate::tree::name_lt(
            ps[#[trigger] order[j]].name@,
            ps[#[trigger] order[i]].name@,
        )
    &&& forall|i: int, j: int|
        0 <= i < j < order.len() && ps[#[trigger] order[i]].name@ == ps[#[trigger] order[j]].name@
            ==> order[i] < order[j]
}

/// Projects are listed by name: `list_projects` gives every project found
/// once, names ascending, projects with equal names in the order found.
pub proof fn lemma_projects_sorted(ps: Seq<WikiProject>, n: int)
    requires
        0 <= n <= ps.len(),
    ensures
        is_name_order(ps, n, project_order(ps, n)),
    decreases n,
{
    lemma_project_order_bounds(ps, n);
    if n > 0 {
        lemma_projects_sorted(ps, n - 1);
        lemma_project_order_bounds(ps, n - 1);
        let r = project_order(ps, n - 1);
        let x = n - 1;
        lemma_project_position_facts(ps, r, x, 0);
        let p = project_insert_position(ps, r, x, 0);
        let r2 = r.insert(p, x);
        assert(project_order(ps, n) == r2);
        assert forall|k: int| 0 <= k < n implies r2.contains(k) by {
            if k < n - 1 {
                assert(r.contains(k));
                let i = choose|i: int| 0 <= i < r.len() && r[i] == k;
                if i < p {
                    assert(r2[i] == k);
                } else {
                    assert(r2[i + 1] == k);
                }
            } else {
                assert(r2[p] == k);
            }
        }
        assert forall|i: int, j: int| 0 <= i < j < r2.len() implies #[trigger] r2[i] != #[trigger] r2[j] by {
            if i < p && j < p {
            } else if i < p && j == p {
            } else if i < p {
                assert(r2[j] == r[j - 1]);
            } else if i == p {
                assert(r2[j] == r[j - 1]);
            } else {
                assert(r2[i] == r[i - 1]);
                assert(r2[j] == r[j - 1]);
            }
        }
        assert forall|i: int, j: int|
            0 <= i < j < r2.len() implies !crate::tree::name_lt(
            ps[#[trigger] r2[j]].name@,
            ps[#[trigger] r2[i]].name@,
        ) && (ps[r2[i]].name@ == ps[r2[j]].name@ ==> r2[i] < r2[j]) by {
            let ri = if i < p { r[i] } else if i == p { x } else { r[i - 1] };
            let rj = if j < p { r[j] } else if j == p { x } else { r[j - 1] };
            assert(r2[i] == ri);
            assert(r2[j] == rj);
            if j == p {
                assert(!crate::tree::name_lt(ps[x].name@, ps[r[i]].name@));
            } else if i == p {
                crate::tree::lemma_name_order(ps[r[j - 1]].name@, ps[x].name@, ps[r[p]].name@);
                crate::tree::lemma_name_order(ps[r[p]].name@, ps[r[p]].name@, ps[r[p]].name@);
                if j - 1 > p {
                    assert(!crate::tree::name_lt(ps[r[j - 1]].name@, ps[r[p]].name@));
                }
            }
        }
    }
}

/// Every step of `steps` touches a path that starts with `root`.
pub open spec fn steps_inside(steps: Seq<StepView>, root: Seq<char>) -> bool {
    forall|i: int| 0 <= i < steps.len() ==> spec_starts_with(#[trigger] steps[i].0, root)
}

proof fn lemma_steps_inside_concat(x: Seq<StepView>, y: Seq<StepView>, root: Seq<char>)
    requires
        steps_inside(x, root),
        steps_inside(y, root),
    ensures
        steps_inside(x + y, root),
{
    assert forall|i: int| 0 <= i < (x + y).len() implies spec_starts_with(
        #[trigger] (x + y)[i].0,
        root,
    ) by {
        if i < x.len() {
            assert((x + y)[i] == x[i]);
        } else {
            assert((x + y)[i] == y[i - x.len()]);
        }
    }
}

proof fn lemma_template_steps_inside(root: Seq<char>, rel: Seq<char>, contents: Seq<char>)
    requires
        is_plain_relative(rel),
    ensures
        steps_inside(template_steps(root, rel, contents), root),
{
    lemma_parent_of_join(root, rel);
    lemma_join_relative_starts_with(root, rel);
}

proof fn lemma_plain_name(s: Seq<char>)
    requires
        s.len() >= 2,
        forall|i: int| 0 <= i < s.len() ==> #[trigger] s[i] != '/',
    ensures
        is_plain_relative(s),
{
    assert(!s.contains('/'));
    assert(dot().len() == 1);
    lemma_plain_single(s);
}

/// Creating a project touches nothing outside the project's directory:
/// every directory it makes and every file it writes lies under `root`.
pub proof fn lemma_creation_stays_in_project(root: Seq<char>, id: Seq<char>, today: Seq<char>)
    ensures
        steps_inside(creation_steps(root, id, today), root),
{
    reveal_strlit("raw/sources");
    reveal_strlit("raw/assets");
    reveal_strlit("wiki/entities");
    reveal_strlit("wiki/concepts");
    reveal_strlit("wiki/sources");
    reveal_strlit("wiki/queries");
    reveal_strlit("wiki/comparisons");
    reveal_strlit("wiki/synthesis");
    reveal_strlit(".llm-wiki");
    reveal_strlit(".llm-wiki/project-id");
    reveal_strlit(".obsidian");
    reveal_strlit("schema.md");
    reveal_strlit("purpose.md");
    reveal_strlit("wiki");
    reveal_strlit("index.md");
    reveal_strlit("log.md");
    reveal_strlit("overview.md");
    reveal_strlit("wiki/index.md");
    reveal_strlit("wiki/log.md");
    reveal_strlit("wiki/overview.md");
    reveal_strlit("app.json");
    reveal_strlit("appearance.json");
    reveal_strlit("core-plugins.json");
    reveal_strlit(".obsidian/app.json");
    reveal_strlit(".obsidian/appearance.json");
    reveal_strlit(".obsidian/core-plugins.json");
    // the layout directories
    let dirs = layout_dirs();
    assert forall|i: int| 0 <= i < dirs.len() implies !is_absolute(#[trigger] dirs[i]) by {
        assert(dirs[i][0] != '/');
    }
    assert(steps_inside(dir_steps(root, dirs), root)) by {
        assert forall|i: int| 0 <= i < dir_steps(root, dirs).len() implies spec_starts_with(
            #[trigger] dir_steps(root, dirs)[i].0,
            root,
        ) by {
            lemma_join_relative_starts_with(root, dirs[i]);
        }
    }
    // the identifier file and the Obsidian directory
    let id_step: Seq<StepView> = seq![(id_file(root), Some(id), "Failed to write project ID"@)];
    lemma_join_relative_starts_with(root, ".llm-wiki/project-id"@);
    assert(steps_inside(id_step, root));
    let obsidian: Seq<StepView> = seq![
        (spec_join(root, ".obsidian"@), None::<Seq<char>>, "Failed to create .obsidian"@),
    ];
    lemma_join_relative_starts_with(root, ".obsidian"@);
    assert(steps_inside(obsidian, root));
    // the template files
    lemma_plain_name("schema.md"@);
    lemma_plain_name("purpose.md"@);
    lemma_plain_name("wiki"@);
    lemma_plain_name("index.md"@);
    lemma_plain_name("log.md"@);
    lemma_plain_name("overview.md"@);
    lemma_plain_name(".obsidian"@);
    lemma_plain_name("app.json"@);
    lemma_plain_name("appearance.json"@);
    lemma_plain_name("core-plugins.json"@);
    lemma_plain_concat("wiki"@, "index.md"@);
    lemma_plain_concat("wiki"@, "log.md"@);
    lemma_plain_concat("wiki"@, "overview.md"@);
    lemma_plain_concat(".obsidian"@, "app.json"@);
    lemma_plain_concat(".obsidian"@, "appearance.json"@);
    lemma_plain_concat(".obsidian"@, "core-plugins.json"@);
    assert("wiki/index.md"@ =~= "wiki"@ + seq!['/'] + "index.md"@);
    assert("wiki/log.md"@ =~= "wiki"@ + seq!['/'] + "log.md"@);
    assert("wiki/overview.md"@ =~= "wiki"@ + seq!['/'] + "overview.md"@);
    assert(".obsidian/app.json"@ =~= ".obsidian"@ + seq!['/'] + "app.json"@);
    assert(".obsidian/appearance.json"@ =~= ".obsidian"@ + seq!['/'] + "appearance.json"@);
    assert(".obsidian/core-plugins.json"@ =~= ".obsidian"@ + seq!['/'] + "core-plugins.json"@);
    let t1 = template_steps(root, "schema.md"@, SCHEMA_TEMPLATE@);
    let t2 = template_steps(root, "purpose.md"@, PURPOSE_TEMPLATE@);
    let t3 = template_steps(root, "wiki/index.md"@, INDEX_TEMPLATE@);
    let t4 = template_steps(root, "wiki/log.md"@, log_content(today));
    let t5 = template_steps(root, "wiki/overview.md"@, OVERVIEW_TEMPLATE@);
    let t6 = template_steps(root, ".obsidian/app.json"@, OBSIDIAN_APP_CONFIG@);
    let t7 = template_steps(root, ".obsidian/appearance.json"@, OBSIDIAN_APPEARANCE@);
    let t8 = template_steps(root, ".obsidian/core-plugins.json"@, OBSIDIAN_CORE_PLUGINS@);
    lemma_template_steps_inside(root, "schema.md"@, SCHEMA_TEMPLATE@);
    lemma_template_steps_inside(root, "purpose.md"@, PURPOSE_TEMPLATE@);
    lemma_template_steps_inside(root, "wiki/index.md"@, INDEX_TEMPLATE@);
    lemma_template_steps_inside(root, "wiki/log.md"@, log_content(today));
    lemma_template_steps_inside(root, "wiki/overview.md"@, OVERVIEW_TEMPLATE@);
    lemma_template_steps_inside(root, ".obsidian/app.json"@, OBSIDIAN_APP_CONFIG@);
    lemma_template_steps_inside(root, ".obsidian/appearance.json"@, OBSIDIAN_APPEARANCE@);
    lemma_template_steps_inside(root, ".obsidian/core-plugins.json"@, OBSIDIAN_CORE_PLUGINS@);
    let d = dir_steps(root, dirs);
    lemma_steps_inside_concat(d, id_step, root);
    lemma_steps_inside_concat(d + id_step, t1, root);
    lemma_steps_inside_concat(d + id_step + t1, t2, root);
    lemma_steps_inside_concat(d + id_step + t1 + t2, t3, root);
    lemma_steps_inside_concat(d + id_step + t1 + t2 + t3, t4, root);
    lemma_steps_inside_concat(d + id_step + t1 + t2 + t3 + t4, t5, root);
    lemma_steps_inside_concat(d + id_step + t1 + t2 + t3 + t4 + t5, obsidian, root);
    lemma_steps_inside_concat(d + id_step + t1 + t2 + t3 + t4 + t5 + obsidian, t6, root);
    lemma_steps_inside_concat(d + id_step + t1 + t2 + t3 + t4 + t5 + obsidian + t6, t7, root);
    lemma_steps_inside_concat(d + id_step + t1 + t2 + t3 + t4 + t5 + obsidian + t6 + t7, t8, root);
}

/// Reopening a project just created gives the same project back: creating
/// it writes the identifier `id` to its identifier file, and opening it
/// (its directory inside the data directory, present and a project) with
/// that file's text gives the identifier, name and path the creation
/// reported. Opening it again gives the same answer.
pub proof fn lemma_reopen_created_project(
    data: Seq<char>,
    name: Seq<char>,
    id: Seq<char>,
    today: Seq<char>,
    canonical: Seq<char>,
)
    requires
        is_uuid_text(id),
        spec_starts_with(canonical, data),
    ensures
        ({
            let root = spec_join(data, name);
            &&& creation_steps(root, id, today)[9] == (
                id_file(root),
                Some(id),
                "Failed to write project ID"@,
            )
            &&& spec_open_known(data, name, Ok(canonical), true, true, id) == Ok::<
                (Seq<char>, Seq<char>, Seq<char>),
                Seq<char>,
            >((id, name, to_slashes(root)))
        }),
{
    let root = spec_join(data, name);
    assert(dir_steps(root, layout_dirs()).len() == 9);
    lemma_identifier_reads_back(id);
}

/// A new project gets its directory layout first: the first nine steps of
/// creating it make, in this order, `raw/sources`, `raw/assets`,
/// `wiki/entities`, `wiki/concepts`, `wiki/sources`, `wiki/queries`,
/// `wiki/comparisons`, `wiki/synthesis` and `.llm-wiki` inside its
/// directory, each a directory (no contents).
pub proof fn lemma_creation_layout(root: Seq<char>, id: Seq<char>, today: Seq<char>)
    ensures
        ({
            let steps = creation_steps(root, id, today);
            &&& steps.len() >= 9
            &&& steps[0].0 == spec_join(root, "raw/sources"@)
            &&& steps[1].0 == spec_join(root, "raw/assets"@)
            &&& steps[2].0 == spec_join(root, "wiki/entities"@)
            &&& steps[3].0 == spec_join(root, "wiki/concepts"@)
            &&& steps[4].0 == spec_join(root, "wiki/sources"@)
            &&& steps[5].0 == spec_join(root, "wiki/queries"@)
            &&& steps[6].0 == spec_join(root, "wiki/comparisons"@)
            &&& steps[7].0 == spec_join(root, "wiki/synthesis"@)
            &&& steps[8].0 == spec_join(root, ".llm-wiki"@)
            &&& forall|i: int| 0 <= i < 9 ==> (#[trigger] steps[i]).1 is None
        }),
{
    let steps = creation_steps(root, id, today);
    let ds = dir_steps(root, layout_dirs());
    assert(ds.len() == 9);
    assert forall|i: int| 0 <= i < 9 implies #[trigger] steps[i] == ds[i] by {}
}

} // verus!
