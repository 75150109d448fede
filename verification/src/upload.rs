//! Uploads: where uploaded files go, how their names are cleaned, and how a
//! free name is found next to existing files.

use vstd::prelude::*;
use crate::config::DataDir;
use crate::files::{get_relative_path, spec_relative_path};
use crate::path::{
    is_absolute, join_path, lemma_file_name_single, lemma_join_injective,
    lemma_join_relative_starts_with, path_file_name, spec_file_name, spec_join, spec_starts_with,
};
use crate::text::{
    alphanumeric, char_is_alphanumeric, chars_of, concat3, decimal, decimal_string, owned,
    is_ascii_alnum, is_white_space, lemma_trim_bounds, lemma_trim_shape, push_str, string_of, trim,
    trim_chars,
};

verus! {

/// The query of an upload request.
pub struct UploadQuery {
    pub project: String,
    pub subdir: Option<String>,
}

/// One stored upload.
pub struct UploadedFile {
    pub name: String,
    pub path: String,
    pub size: u64,
}

/// The answer to an upload request.
pub struct UploadResponse {
    pub files: Vec<UploadedFile>,
}

// ---------------------------------------------------------------------------
// Names
// ---------------------------------------------------------------------------

/// Characters kept in an uploaded file's name.
pub open spec fn kept_in_file_name(c: char) -> bool {
    alphanumeric(c) || c == '.' || c == '-' || c == '_' || c == ' '
}

/// Every other character replaced by `_`, then surrounding white space
/// trimmed.
pub open spec fn spec_sanitize_filename(name: Seq<char>) -> Seq<char> {
    trim(name.map_values(|c: char| if kept_in_file_name(c) { c } else { '_' }))
}

pub fn sanitize_filename(name: &str) -> (r: String)
    ensures
        r@ == spec_sanitize_filename(name@),
{
    let v = chars_of(name);
    let ghost mapped = name@.map_values(|c: char| if kept_in_file_name(c) { c } else { '_' });
    let mut out: Vec<char> = Vec::new();
    let mut i: usize = 0;
    while i < v.len()
        invariant
            i <= v.len(),
            v@ == name@,
            mapped == name@.map_values(|c: char| if kept_in_file_name(c) { c } else { '_' }),
            out@ == mapped.take(i as int),
        decreases v.len() - i,
    {
        let c = v[i];
        let keep = char_is_alphanumeric(c) || c == '.' || c == '-' || c == '_' || c == ' ';
        if keep {
            out.push(c);
        } else {
            out.push('_');
        }
        assert(mapped.take(i + 1) =~= mapped.take(i as int).push(mapped[i as int]));
        i = i + 1;
    }
    assert(mapped.take(v.len() as int) =~= mapped);
    string_of(&trim_chars(&out))
}

/// Cleaning a name twice is cleaning it once, and a cleaned name holds only
/// kept characters: in particular no separator, so it stays inside the
/// directory it is stored in. It neither starts nor ends with white space.
pub proof fn lemma_sanitized_name(name: Seq<char>)
    ensures
        spec_sanitize_filename(spec_sanitize_filename(name)) == spec_sanitize_filename(name),
        forall|k: int|
            0 <= k < spec_sanitize_filename(name).len() ==> kept_in_file_name(
                #[trigger] spec_sanitize_filename(name)[k],
            ),
        !spec_sanitize_filename(name).contains('/'),
        !spec_sanitize_filename(name).contains('\\'),
{
    let m = name.map_values(|c: char| if kept_in_file_name(c) { c } else { '_' });
    let t = spec_sanitize_filename(name);
    lemma_trim_shape(m);
    let (i, j) = choose|i: int, j: int| 0 <= i <= j <= m.len() && #[trigger] trim(m) == m.subrange(i, j);
    assert(kept_in_file_name('_'));
    assert forall|k: int| 0 <= k < t.len() implies kept_in_file_name(#[trigger] t[k]) by {
        assert(t[k] == m[i + k]);
    }
    assert(t.map_values(|c: char| if kept_in_file_name(c) { c } else { '_' }) =~= t);
    assert(!kept_in_file_name('/'));
    assert(!kept_in_file_name('\\'));
    assert(!t.contains('/')) by {
        if t.contains('/') {
            let k = choose|k: int| 0 <= k < t.len() && t[k] == '/';
            assert(kept_in_file_name(t[k]));
        }
    }
    assert(!t.contains('\\')) by {
        if t.contains('\\') {
            let k = choose|k: int| 0 <= k < t.len() && t[k] == '\\';
            assert(kept_in_file_name(t[k]));
        }
    }
}

/// The cleaned name is the piece `[a, b)` of `name`, each letter, digit,
/// `.`, `-`, `_` and space kept where it stood and every other character
/// turned into `_`, with nothing but white space outside the piece.
pub open spec fn cleaned_piece(name: Seq<char>, a: int, b: int) -> bool {
    let t = spec_sanitize_filename(name);
    &&& 0 <= a <= b <= name.len()
    &&& t.len() == b - a
    &&& forall|i: int|
        a <= i < b ==> #[trigger] t[i - a] == if alphanumeric(name[i]) || name[i] == '.' || name[i]
            == '-' || name[i] == '_' || name[i] == ' ' {
            name[i]
        } else {
            '_'
        }
    &&& forall|i: int| 0 <= i < name.len() && (i < a || i >= b) ==> is_white_space(#[trigger] name[i])
}

/// Cleaning a name keeps every letter, digit, `.`, `-`, `_` and space where
/// it stood and turns every other character into `_`; only white space at
/// either end is dropped.
pub proof fn lemma_sanitize_keeps_characters(name: Seq<char>)
    ensures
        exists|a: int, b: int| cleaned_piece(name, a, b),
{
    let m = name.map_values(|c: char| if kept_in_file_name(c) { c } else { '_' });
    lemma_trim_bounds(m);
    let (a, b) = choose|a: int, b: int|
        0 <= a <= b <= m.len() && #[trigger] trim(m) == m.subrange(a, b) && (forall|k: int|
            0 <= k < a ==> is_white_space(#[trigger] m[k])) && (forall|k: int|
            b <= k < m.len() ==> is_white_space(#[trigger] m[k]));
    let t = spec_sanitize_filename(name);
    assert(t == m.subrange(a, b));
    assert forall|i: int| a <= i < b implies #[trigger] t[i - a] == if alphanumeric(name[i])
        || name[i] == '.' || name[i] == '-' || name[i] == '_' || name[i] == ' ' {
        name[i]
    } else {
        '_'
    } by {
        assert(t[i - a] == m[i]);
    }
    assert(!is_white_space('_'));
    assert forall|i: int| 0 <= i < name.len() && (i < a || i >= b) implies is_white_space(
        #[trigger] name[i],
    ) by {
        assert(is_white_space(m[i]));
    }
    assert(cleaned_piece(name, a, b));
}

/// A name made only of ASCII letters, digits, `.`, `-` and `_` is already
/// clean.
pub proof fn lemma_clean_names_unchanged(name: Seq<char>)
    requires
        forall|i: int|
            0 <= i < name.len() ==> is_ascii_alnum(#[trigger] name[i]) || name[i] == '.'
                || name[i] == '-' || name[i] == '_',
    ensures
        spec_sanitize_filename(name) == name,
{
    lemma_sanitize_keeps_characters(name);
    let (a, b) = choose|a: int, b: int| cleaned_piece(name, a, b);
    let t = spec_sanitize_filename(name);
    assert forall|i: int| 0 <= i < name.len() implies !is_white_space(#[trigger] name[i]) && (
    alphanumeric(name[i]) || name[i] == '.' || name[i] == '-' || name[i] == '_') by {
        assert(is_ascii_alnum(name[i]) || name[i] == '.' || name[i] == '-' || name[i] == '_');
        assert((name[i] as u32) < 128);
    }
    if a > 0 {
        assert(!is_white_space(name[0]));
    }
    if b < name.len() {
        assert(!is_white_space(name[name.len() - 1]));
    }
    assert(a == 0 && b == name.len());
    assert forall|i: int| 0 <= i < name.len() implies #[trigger] t[i] == name[i] by {
        assert(t[i - a] == t[i]);
    }
    assert(t =~= name);
}

/// The name an uploaded file is stored under: its cleaned name, unless it
/// has none or that is empty.
pub open spec fn spec_upload_file_name(raw: Option<Seq<char>>) -> Option<Seq<char>> {
    match raw {
        Some(n) => if spec_sanitize_filename(n).len() > 0 {
            Some(spec_sanitize_filename(n))
        } else {
            None
        },
        None => None,
    }
}

pub fn upload_file_name(raw: Option<&str>) -> (r: Option<String>)
    ensures
        match r {
            Some(s) => spec_upload_file_name(
                match raw {
                    Some(n) => Some(n@),
                    None => None,
                },
            ) == Some(s@),
            None => spec_upload_file_name(
                match raw {
                    Some(n) => Some(n@),
                    None => None,
                },
            ) is None,
        },
{
    match raw {
        None => None,
        Some(n) => {
            let s = sanitize_filename(n);
            if s.as_str().is_empty() {
                None
            } else {
                Some(s)
            }
        },
    }
}

/// Index of the last `c` in `s`, or -1.
pub open spec fn last_index_of(s: Seq<char>, c: char) -> int
    decreases s.len(),
{
    if s.len() == 0 {
        -1
    } else if s.last() == c {
        s.len() - 1
    } else {
        last_index_of(s.drop_last(), c)
    }
}

/// `Path::file_stem` and `Path::extension` of a file name, the extension
/// written with its dot (`""` when there is none).
pub open spec fn split_extension(f: Seq<char>) -> (Seq<char>, Seq<char>) {
    let i = last_index_of(f, '.');
    if i <= 0 {
        (f, Seq::<char>::empty())
    } else {
        (f.subrange(0, i), f.subrange(i, f.len() as int))
    }
}

/// The stem and extension a new name is built from: those of the name's
/// last component, or the whole name with no extension when it has no plain
/// last component.
pub open spec fn stem_and_extension(name: Seq<char>) -> (Seq<char>, Seq<char>) {
    match spec_file_name(name) {
        Some(f) => split_extension(f),
        None => (name, Seq::<char>::empty()),
    }
}

/// The `attempt`-th path tried for `name` in `dir`: the name itself first,
/// then `stem-2.ext`, `stem-3.ext`, and so on.
pub open spec fn spec_unique_candidate(dir: Seq<char>, name: Seq<char>, attempt: nat) -> Seq<char> {
    if attempt == 0 {
        spec_join(dir, name)
    } else {
        let (stem, ext) = stem_and_extension(name);
        spec_join(dir, stem + seq!['-'] + decimal(attempt + 1) + ext)
    }
}

fn last_dot(v: &Vec<char>) -> (r: Option<usize>)
    ensures
        match r {
            Some(i) => last_index_of(v@, '.') == i as int && i < v.len(),
            None => last_index_of(v@, '.') == -1,
        },
{
    let mut j: usize = v.len();
    assert(v@.take(v.len() as int) =~= v@);
    while j > 0
        invariant
            j <= v.len(),
            last_index_of(v@, '.') == last_index_of(v@.take(j as int), '.'),
        decreases j,
    {
        assert(v@.take(j as int).drop_last() =~= v@.take(j - 1));
        if v[j - 1] == '.' {
            return Some(j - 1);
        }
        j = j - 1;
    }
    assert(v@.take(v.len() as int) =~= v@);
    None
}

fn subrange_chars(v: &Vec<char>, lo: usize, hi: usize) -> (r: Vec<char>)
    requires
        lo <= hi <= v.len(),
    ensures
        r@ == v@.subrange(lo as int, hi as int),
{
    let mut r: Vec<char> = Vec::new();
    let mut k: usize = lo;
    while k < hi
        invariant
            lo <= k <= hi <= v.len(),
            r@ == v@.subrange(lo as int, k as int),
        decreases hi - k,
    {
        r.push(v[k]);
        assert(v@.subrange(lo as int, k + 1) =~= v@.subrange(lo as int, k as int).push(v@[k as int]));
        k = k + 1;
    }
    r
}

/// The stem and extension of `name` (see `stem_and_extension`).
pub fn stem_and_extension_of(name: &str) -> (r: (String, String))
    ensures
        (r.0@, r.1@) == stem_and_extension(name@),
{
    match path_file_name(name) {
        None => (owned(name), String::new()),
        Some(f) => {
            let v = chars_of(f.as_str());
            match last_dot(&v) {
                None => (f, String::new()),
                Some(i) => if i == 0 {
                    (f, String::new())
                } else {
                    let stem = subrange_chars(&v, 0, i);
                    let ext = subrange_chars(&v, i, v.len());
                    (string_of(&stem), string_of(&ext))
                },
            }
        },
    }
}

/// One step of looking for a free name: the attempt to use, the next
/// attempt to try, or the end of the counter.
pub enum Probe {
    Free(u32),
    Next(u32),
    Exhausted,
}

/// After trying the `attempt`-th candidate name (`taken` tells whether that
/// name is already in use): a free name is used; a taken one moves on to the
/// next attempt, while the counter, which names the `attempt + 1`-th try
/// `-<attempt + 2>`, still fits in a `u32`.
pub fn next_candidate(attempt: u32, taken: bool) -> (r: Probe)
    ensures
        !taken ==> r == Probe::Free(attempt),
        taken && attempt + 1 < u32::MAX ==> r == Probe::Next((attempt + 1) as u32),
        taken && attempt + 1 >= u32::MAX ==> r is Exhausted,
{
    if !taken {
        Probe::Free(attempt)
    } else if attempt < u32::MAX - 1 {
        Probe::Next(attempt + 1)
    } else {
        Probe::Exhausted
    }
}

/// The `attempt`-th path to try when storing `name` in `dir`.
pub fn unique_candidate(dir: &str, name: &str, attempt: u32) -> (r: String)
    requires
        attempt < u32::MAX,
    ensures
        r@ == spec_unique_candidate(dir@, name@, attempt as nat),
{
    if attempt == 0 {
        join_path(dir, name)
    } else {
        let (stem, ext) = stem_and_extension_of(name);
        let counter = decimal_string((attempt + 1) as u64);
        let mut new_name = concat3(stem.as_str(), "-", counter.as_str());
        push_str(&mut new_name, ext.as_str());
        proof {
            reveal_strlit("-");
        }
        assert(new_name@ =~= stem@ + seq!['-'] + decimal(attempt as nat + 1) + ext@);
        join_path(dir, new_name.as_str())
    }
}

// ---------------------------------------------------------------------------
// Where uploads go
// ---------------------------------------------------------------------------

/// Where uploads to a project go: its directory and the target directory
/// (`subdir` inside it, or `raw/sources`).
pub struct UploadTarget {
    pub project_dir: String,
    pub target_dir: String,
    pub missing_project: String,
}

pub fn upload_target(dir: &DataDir, query: &UploadQuery) -> (t: UploadTarget)
    ensures
        t.project_dir@ == spec_join(dir@, query.project@),
        t.target_dir@ == spec_join(
            spec_join(dir@, query.project@),
            match query.subdir {
                Some(s) => s@,
                None => "raw/sources"@,
            },
        ),
        t.missing_project@ == "Project '"@ + query.project@ + "' not found"@,
{
    let project_dir = join_path(crate::config::data_dir(dir), query.project.as_str());
    let target_dir = match &query.subdir {
        Some(s) => join_path(project_dir.as_str(), s.as_str()),
        None => join_path(project_dir.as_str(), "raw/sources"),
    };
    let missing_project = concat3("Project '", query.project.as_str(), "' not found");
    UploadTarget { project_dir, target_dir, missing_project }
}

/// The record of a stored upload: its name, its path relative to the data
/// directory, and its size.
pub fn uploaded_file(dir: &DataDir, name: &str, stored_at: &str, size: u64) -> (f: UploadedFile)
    ensures
        f.name@ == name@,
        f.path@ == spec_relative_path(stored_at@, dir@),
        f.size == size,
{
    UploadedFile {
        name: owned(name),
        path: get_relative_path(stored_at, crate::config::data_dir(dir)),
        size,
    }
}


// ---------------------------------------------------------------------------
// Laws
// ---------------------------------------------------------------------------

proof fn lemma_last_index_bounds(s: Seq<char>, c: char)
    ensures
        -1 <= last_index_of(s, c) < s.len(),
    decreases s.len(),
{
    if s.len() > 0 {
        lemma_last_index_bounds(s.drop_last(), c);
    }
}

/// A name without separators is its stem followed by its extension.
proof fn lemma_stem_extension_rebuild(name: Seq<char>)
    requires
        !name.contains('/'),
    ensures
        stem_and_extension(name).0 + stem_and_extension(name).1 == name,
        stem_and_extension(name).0.len() > 0 ==> stem_and_extension(name).0[0] == name[0],
{
    lemma_file_name_single(name);
    match spec_file_name(name) {
        None => {
            assert(name + Seq::<char>::empty() =~= name);
        },
        Some(f) => {
            lemma_last_index_bounds(f, '.');
            let i = last_index_of(f, '.');
            if i <= 0 {
                assert(f + Seq::<char>::empty() =~= f);
            } else {
                assert(f.subrange(0, i) + f.subrange(i, f.len() as int) =~= f);
            }
        },
    }
}

/// Equal decimal forms are forms of equal numbers.
pub proof fn lemma_decimal_injective(a: nat, b: nat)
    requires
        decimal(a) == decimal(b),
    ensures
        a == b,
{
    crate::config::lemma_decimal_round_trip(a);
    crate::config::lemma_decimal_round_trip(b);
}

/// The names tried for an upload are all different, so looking for a free
/// one moves on at every attempt (for any name without separators, which
/// every cleaned name is).
pub proof fn lemma_upload_candidates_differ(dir: Seq<char>, name: Seq<char>, a: nat, b: nat)
    requires
        !name.contains('/'),
        a != b,
    ensures
        spec_unique_candidate(dir, name, a) != spec_unique_candidate(dir, name, b),
{
    lemma_stem_extension_rebuild(name);
    let (stem, ext) = stem_and_extension(name);
    let x = |n: nat| stem + seq!['-'] + decimal(n + 1) + ext;
    assert(!is_absolute(name)) by {
        if name.len() > 0 && name[0] == '/' {
            assert(name.contains('/'));
        }
    }
    assert forall|n: nat| !is_absolute(#[trigger] x(n)) by {
        if stem.len() > 0 {
            assert(x(n)[0] == stem[0]);
        } else {
            assert(x(n)[0] == '-');
        }
    }
    assert forall|n: nat| (#[trigger] x(n)).len() > name.len() by {
        crate::text::lemma_decimal_len(n + 1);
    }
    if spec_unique_candidate(dir, name, a) == spec_unique_candidate(dir, name, b) {
        if a == 0 {
            lemma_join_injective(dir, name, x(b));
        } else if b == 0 {
            lemma_join_injective(dir, x(a), name);
        } else {
            lemma_join_injective(dir, x(a), x(b));
            let lo = stem.len() + 1;
            assert(decimal(a + 1).len() == decimal(b + 1).len());
            assert(x(a).subrange(lo as int, (lo + decimal(a + 1).len()) as int) =~= decimal(a + 1));
            assert(x(b).subrange(lo as int, (lo + decimal(b + 1).len()) as int) =~= decimal(b + 1));
            lemma_decimal_injective(a + 1, b + 1);
        }
    }
}

/// Uploads land in their target directory, lexically: every path tried for a
/// cleaned name starts, component by component, with the directory it is
/// stored in, whatever name the client sent. The containment is of the text,
/// not of the file system: a cleaned name can be `..`, which names the
/// directory's parent once resolved on disk.
pub proof fn lemma_uploads_stay_in_target(dir: Seq<char>, raw_name: Seq<char>, attempt: nat)
    ensures
        spec_starts_with(
            spec_unique_candidate(dir, spec_sanitize_filename(raw_name), attempt),
            dir,
        ),
{
    let name = spec_sanitize_filename(raw_name);
    lemma_sanitized_name(raw_name);
    lemma_stem_extension_rebuild(name);
    let (stem, ext) = stem_and_extension(name);
    assert(!is_absolute(name)) by {
        if name.len() > 0 && name[0] == '/' {
            assert(name.contains('/'));
        }
    }
    if attempt == 0 {
        lemma_join_relative_starts_with(dir, name);
    } else {
        let x = stem + seq!['-'] + decimal(attempt + 1) + ext;
        assert(!is_absolute(x)) by {
            if stem.len() > 0 {
                assert(x[0] == stem[0]);
            } else {
                assert(x[0] == '-');
            }
        }
        lemma_join_relative_starts_with(dir, x);
    }
}

} // verus!
