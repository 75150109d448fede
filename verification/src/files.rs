//! The decisions behind the file operations the server offers: which path
//! each one touches, what it checks first, and what its failures say. The
//! reading and writing themselves happen outside the library.

use vstd::prelude::*;
use crate::config::{
    access_denied_message, result_view, spec_validate_path, validate_path, DataDir,
};
use crate::path::{
    components, is_absolute, is_plain_relative, join_path, lemma_join_strip, lemma_strip_avoids,
    lemma_strip_join, path_parent, path_starts_with, spec_join, spec_parent, spec_starts_with,
    spec_strip_prefix, strip_path_prefix, to_slashes, with_forward_slashes,
};
use crate::text::{concat3, concat4, owned, push_str};

verus! {

/// A single filesystem action, with the text its failure message starts
/// with (the message is that text, `: ` and the error).
pub struct FsStep {
    pub target: String,
    pub failure: String,
}

pub open spec fn option_view(o: Option<String>) -> Option<Seq<char>> {
    match o {
        Some(s) => Some(s@),
        None => None,
    }
}

// ---------------------------------------------------------------------------
// Reading
// ---------------------------------------------------------------------------

pub open spec fn read_failure(path: Seq<char>) -> Seq<char> {
    "Failed to read file '"@ + path + "'"@
}

/// Reading `path`: the canonical file, when it lies inside the data
/// directory.
pub fn read_file_step(dir: &DataDir, path: &str, canonical: Result<String, String>) -> (r: Result<
    FsStep,
    String,
>)
    ensures
        match (r, spec_validate_path(dir@, path@, result_view(canonical))) {
            (Ok(step), Ok(c)) => step.target@ == c && step.failure@ == read_failure(path@),
            (Err(m), Err(e)) => m@ == e,
            _ => false,
        },
{
    match validate_path(dir, path, canonical) {
        Ok(c) => Ok(FsStep { target: c, failure: concat3("Failed to read file '", path, "'") }),
        Err(m) => Err(m),
    }
}

// ---------------------------------------------------------------------------
// Writing
// ---------------------------------------------------------------------------

/// Writing a file: the full path, the directory to create and check first
/// (the full path's parent, when it has one), and the failure texts.
pub struct WritePlan {
    pub full_path: String,
    pub parent: Option<String>,
    pub mkdir_failure: String,
    pub write_failure: String,
}

pub open spec fn write_failure(full: Seq<char>) -> Seq<char> {
    "Failed to write file '"@ + full + "'"@
}

/// Plans writing `path` (taken inside the data directory unless absolute).
pub fn write_file_plan(dir: &DataDir, path: &str) -> (p: WritePlan)
    ensures
        p.full_path@ == spec_join(dir@, path@),
        option_view(p.parent) == spec_parent(spec_join(dir@, path@)),
        p.mkdir_failure@ == "Failed to create parent dirs"@,
        p.write_failure@ == write_failure(spec_join(dir@, path@)),
{
    let full = join_path(crate::config::data_dir(dir), path);
    let parent = path_parent(full.as_str());
    let write_failure = concat3("Failed to write file '", full.as_str(), "'");
    WritePlan {
        full_path: full,
        parent,
        mkdir_failure: owned("Failed to create parent dirs"),
        write_failure,
    }
}

pub open spec fn invalid_parent_message(parent: Seq<char>, err: Seq<char>) -> Seq<char> {
    "Invalid parent path '"@ + parent + "': "@ + err
}

pub open spec fn spec_check_write_parent(
    data: Seq<char>,
    full: Seq<char>,
    parent: Seq<char>,
    canonical: Result<Seq<char>, Seq<char>>,
) -> Result<(), Seq<char>> {
    match canonical {
        Err(e) => Err(invalid_parent_message(parent, e)),
        Ok(c) => if spec_starts_with(c, data) {
            Ok(())
        } else {
            Err(access_denied_message(full))
        },
    }
}

/// Whether a write to `full_path` may go ahead, given what canonicalizing its
/// (just created) parent directory gave.
pub fn check_write_parent(
    dir: &DataDir,
    full_path: &str,
    parent: &str,
    parent_canonical: Result<String, String>,
) -> (r: Result<(), String>)
    ensures
        match (r, spec_check_write_parent(dir@, full_path@, parent@, result_view(parent_canonical))) {
            (Ok(()), Ok(())) => true,
            (Err(m), Err(e)) => m@ == e,
            _ => false,
        },
{
    match parent_canonical {
        Err(e) => {
            let mut m = concat3("Invalid parent path '", parent, "': ");
            push_str(&mut m, e.as_str());
            Err(m)
        },
        Ok(c) => if path_starts_with(c.as_str(), crate::config::data_dir(dir)) {
            Ok(())
        } else {
            Err(concat3("Access denied: path '", full_path, "' is outside DATA_DIR"))
        },
    }
}

// ---------------------------------------------------------------------------
// Deleting
// ---------------------------------------------------------------------------

/// Deleting: the canonical path, whether it is removed as a whole directory
/// tree, and the failure text.
pub struct DeletePlan {
    pub target: String,
    pub recursive: bool,
    pub failure: String,
}

pub open spec fn delete_failure(path: Seq<char>, is_dir: bool) -> Seq<char> {
    if is_dir {
        "Failed to delete directory '"@ + path + "'"@
    } else {
        "Failed to delete file '"@ + path + "'"@
    }
}

/// Plans deleting `path`; `is_dir` tells whether its canonical form is a
/// directory.
pub fn delete_file_plan(
    dir: &DataDir,
    path: &str,
    canonical: Result<String, String>,
    is_dir: bool,
) -> (r: Result<DeletePlan, String>)
    ensures
        match (r, spec_validate_path(dir@, path@, result_view(canonical))) {
            (Ok(p), Ok(c)) => p.target@ == c && p.recursive == is_dir && p.failure@
                == delete_failure(path@, is_dir),
            (Err(m), Err(e)) => m@ == e,
            _ => false,
        },
{
    match validate_path(dir, path, canonical) {
        Err(m) => Err(m),
        Ok(c) => {
            let failure = if is_dir {
                concat3("Failed to delete directory '", path, "'")
            } else {
                concat3("Failed to delete file '", path, "'")
            };
            Ok(DeletePlan { target: c, recursive: is_dir, failure })
        },
    }
}

// ---------------------------------------------------------------------------
// Creating directories
// ---------------------------------------------------------------------------

pub struct CreateDirectoryPlan {
    pub full_path: String,
    pub parent: Option<String>,
    pub failure: String,
}

pub open spec fn create_directory_failure(full: Seq<char>) -> Seq<char> {
    "Failed to create directory '"@ + full + "'"@
}

/// Plans creating the directory `path` (taken inside the data directory
/// unless absolute).
pub fn create_directory_plan(dir: &DataDir, path: &str) -> (p: CreateDirectoryPlan)
    ensures
        p.full_path@ == spec_join(dir@, path@),
        option_view(p.parent) == spec_parent(spec_join(dir@, path@)),
        p.failure@ == create_directory_failure(spec_join(dir@, path@)),
{
    let full = join_path(crate::config::data_dir(dir), path);
    let parent = path_parent(full.as_str());
    let failure = concat3("Failed to create directory '", full.as_str(), "'");
    CreateDirectoryPlan { full_path: full, parent, failure }
}

pub open spec fn spec_directory_guard(
    full: Seq<char>,
    full_exists: bool,
    parent: Option<Seq<char>>,
    parent_exists: bool,
) -> Option<Seq<char>> {
    if full_exists {
        Some(full)
    } else {
        match parent {
            Some(p) => if parent_exists {
                Some(p)
            } else {
                None
            },
            None => None,
        }
    }
}

/// The existing path that must lie inside the data directory before the
/// directory is created: the directory itself when it exists, else its parent
/// when that exists, else none.
pub fn directory_guard(plan: &CreateDirectoryPlan, full_exists: bool, parent_exists: bool) -> (r:
    Option<String>)
    ensures
        option_view(r) == spec_directory_guard(
            plan.full_path@,
            full_exists,
            option_view(plan.parent),
            parent_exists,
        ),
{
    if full_exists {
        Some(owned(plan.full_path.as_str()))
    } else {
        match &plan.parent {
            Some(p) => if parent_exists {
                Some(owned(p.as_str()))
            } else {
                None
            },
            None => None,
        }
    }
}

// ---------------------------------------------------------------------------
// Existence and copies
// ---------------------------------------------------------------------------

/// Whether `path` names something inside the data directory: `canonical` is
/// what canonicalizing it gave, `exists` whether that canonical path exists.
pub fn file_exists(dir: &DataDir, path: &str, canonical: Result<String, String>, exists: bool) -> (r:
    bool)
    ensures
        r == (spec_validate_path(dir@, path@, result_view(canonical)) is Ok && exists),
{
    match validate_path(dir, path, canonical) {
        Ok(_) => exists,
        Err(_) => false,
    }
}

pub struct CopyPlan {
    pub from: String,
    pub to: String,
    pub parent: Option<String>,
    pub mkdir_failure: String,
    pub copy_failure: String,
}

pub open spec fn copy_failure(source: Seq<char>, destination: Seq<char>) -> Seq<char> {
    "Failed to copy '"@ + source + "' to '"@ + destination + "'"@
}

/// Plans copying `source` to `destination`: the source must lie inside the
/// data directory (`src_canonical` is what canonicalizing it gave); the
/// destination is taken inside the data directory unless absolute.
pub fn copy_file_plan(
    dir: &DataDir,
    source: &str,
    destination: &str,
    src_canonical: Result<String, String>,
) -> (r: Result<CopyPlan, String>)
    ensures
        match (r, spec_validate_path(dir@, source@, result_view(src_canonical))) {
            (Ok(p), Ok(c)) => {
                &&& p.from@ == c
                &&& p.to@ == spec_join(dir@, destination@)
                &&& option_view(p.parent) == spec_parent(spec_join(dir@, destination@))
                &&& p.mkdir_failure@ == "Failed to create parent dirs"@
                &&& p.copy_failure@ == copy_failure(source@, destination@)
            },
            (Err(m), Err(e)) => m@ == e,
            _ => false,
        },
{
    match validate_path(dir, source, src_canonical) {
        Err(m) => Err(m),
        Ok(c) => {
            let to = join_path(crate::config::data_dir(dir), destination);
            let parent = path_parent(to.as_str());
            let mut copy_failure = concat4("Failed to copy '", source, "' to '", destination);
            push_str(&mut copy_failure, "'");
            Ok(
                CopyPlan {
                    from: c,
                    to,
                    parent,
                    mkdir_failure: owned("Failed to create parent dirs"),
                    copy_failure,
                },
            )
        },
    }
}

/// `full_path` relative to `base` with forward slashes, or all of
/// `full_path` (with forward slashes) when it does not start with `base`.
pub open spec fn spec_relative_path(full: Seq<char>, base: Seq<char>) -> Seq<char> {
    match spec_strip_prefix(full, base) {
        Some(rest) => to_slashes(rest),
        None => to_slashes(full),
    }
}

pub fn get_relative_path(full_path: &str, base: &str) -> (r: String)
    ensures
        r@ == spec_relative_path(full_path@, base@),
{
    match strip_path_prefix(full_path, base) {
        Some(rest) => with_forward_slashes(rest.as_str()),
        None => with_forward_slashes(full_path),
    }
}


/// A path built by joining a plain relative path to a base is reported,
/// relative to that base, as the relative path again (with forward slashes).
pub proof fn lemma_relative_path_of_join(base: Seq<char>, rel: Seq<char>)
    requires
        is_plain_relative(rel),
    ensures
        spec_relative_path(spec_join(base, rel), base) == to_slashes(rel),
{
    lemma_strip_join(base, rel);
}

/// A path reported relative to a base it starts with, joined back to that
/// base, names the same path component by component; the report is a
/// relative path unless the base is empty. This is for paths written with
/// `/` only: a `\\` in the path is reported as `/`.
pub proof fn lemma_relative_path_rejoins(full: Seq<char>, base: Seq<char>)
    requires
        spec_starts_with(full, base),
        !full.contains('\\'),
    ensures
        components(spec_join(base, spec_relative_path(full, base))) == components(full),
        base.len() > 0 ==> !is_absolute(spec_relative_path(full, base)),
{
    lemma_join_strip(full, base);
    lemma_strip_avoids(full, base, '\\');
    let r = spec_strip_prefix(full, base)->Some_0;
    assert forall|i: int| 0 <= i < r.len() implies r[i] != '\\' by {
        if r[i] == '\\' {
            assert(r.contains('\\'));
        }
    }
    assert(to_slashes(r) =~= r);
}

/// A write goes ahead exactly when its parent directory passes validation:
/// a parent whose canonical path lies inside the data directory, at any
/// depth, is accepted; one outside it is refused with the access-denied
/// message for the file.
pub proof fn lemma_write_parent_is_validation(
    data: Seq<char>,
    full: Seq<char>,
    parent: Seq<char>,
    canonical: Result<Seq<char>, Seq<char>>,
)
    ensures
        spec_check_write_parent(data, full, parent, canonical) is Ok <==> spec_validate_path(
            data,
            parent,
            canonical,
        ) is Ok,
        canonical matches Ok(c) ==> (spec_starts_with(c, data) ==> spec_check_write_parent(
            data,
            full,
            parent,
            canonical,
        ) == Ok::<(), Seq<char>>(())),
        canonical matches Ok(c) ==> (!spec_starts_with(c, data) ==> spec_check_write_parent(
            data,
            full,
            parent,
            canonical,
        ) == Err::<(), Seq<char>>(access_denied_message(full))),
{
}

/// Writing a plain relative path inside the data directory is never refused
/// for its parent, however deep: when the parent directory canonicalizes to
/// itself, it is accepted.
pub proof fn lemma_writes_inside_accepted(data: Seq<char>, rel: Seq<char>)
    requires
        is_plain_relative(rel),
    ensures
        spec_parent(spec_join(data, rel)) is Some,
        spec_check_write_parent(
            data,
            spec_join(data, rel),
            spec_parent(spec_join(data, rel))->Some_0,
            Ok(spec_parent(spec_join(data, rel))->Some_0),
        ) == Ok::<(), Seq<char>>(()),
{
    crate::path::lemma_parent_of_join(data, rel);
}

} // verus!
