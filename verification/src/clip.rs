//! Web clips: the file a clip is saved to, what it holds, and the queue of
//! clips the client has not picked up yet.

use vstd::prelude::*;
use crate::clock::{is_compact_date, is_dashed_date, local_date_compact, local_date_dashed};
use crate::config::DataDir;
use crate::files::{get_relative_path, spec_relative_path};
use crate::path::{
    dot, is_absolute, is_plain_relative, join_path, lemma_join_injective, lemma_segments_concat,
    lemma_plain_single, lemma_segments_single, lemma_strip_join, segments, spec_join, to_slashes,
    with_forward_slashes,
};
use crate::project::WikiProject;
use crate::text::{
    alphanumeric, char_is_alphanumeric, char_is_whitespace, chars_of, concat2, concat3, decimal,
    decimal_string, digit_char, is_white_space, lowercase, owned, push_str, string_of,
    to_lowercase,
};

verus! {

// ---------------------------------------------------------------------------
// Slugs
// ---------------------------------------------------------------------------

/// Characters a slug keeps from a title; the others become spaces.
pub open spec fn kept_in_slug(c: char) -> bool {
    alphanumeric(c) || c == ' ' || c == '-'
}

/// Split at white space into non-empty words: the words finished so far and
/// the word being read.
pub open spec fn words_state(s: Seq<char>) -> (Seq<Seq<char>>, Seq<char>)
    decreases s.len(),
{
    if s.len() == 0 {
        (Seq::<Seq<char>>::empty(), Seq::<char>::empty())
    } else {
        let (ws, cur) = words_state(s.drop_last());
        let c = s.last();
        if is_white_space(c) {
            if cur.len() > 0 {
                (ws.push(cur), Seq::<char>::empty())
            } else {
                (ws, Seq::<char>::empty())
            }
        } else {
            (ws, cur.push(c))
        }
    }
}

/// `str::split_whitespace`.
pub open spec fn words(s: Seq<char>) -> Seq<Seq<char>> {
    let (ws, cur) = words_state(s);
    if cur.len() > 0 {
        ws.push(cur)
    } else {
        ws
    }
}

/// Words joined with `-`.
pub open spec fn join_dashes(ws: Seq<Seq<char>>) -> Seq<char>
    decreases ws.len(),
{
    if ws.len() == 0 {
        Seq::<char>::empty()
    } else if ws.len() == 1 {
        ws[0]
    } else {
        join_dashes(ws.drop_last()) + seq!['-'] + ws.last()
    }
}

/// The slug of a title: unwanted characters made spaces, the words joined
/// with `-`, lower-cased, and cut to at most 50 characters.
pub open spec fn spec_slug(title: Seq<char>) -> Seq<char> {
    let joined = join_dashes(
        words(title.map_values(|c: char| if kept_in_slug(c) { c } else { ' ' })),
    );
    let lower = lowercase(joined);
    if lower.len() <= 50 {
        lower
    } else {
        lower.take(50)
    }
}

/// Text with neither kind of path separator, `/` or `\\`.
pub open spec fn no_separator(s: Seq<char>) -> bool {
    !s.contains('/') && !s.contains('\\')
}

proof fn lemma_no_separator_concat(a: Seq<char>, b: Seq<char>)
    requires
        no_separator(a),
        no_separator(b),
    ensures
        no_separator(a + b),
{
    assert forall|c: char| (c == '/' || c == '\\') implies !(a + b).contains(c) by {
        if (a + b).contains(c) {
            let k = choose|k: int| 0 <= k < (a + b).len() && (a + b)[k] == c;
            if k < a.len() {
                assert(a[k] == c);
            } else {
                assert(b[k - a.len()] == c);
            }
        }
    }
}

proof fn lemma_words_state_no_separator(s: Seq<char>)
    requires
        no_separator(s),
    ensures
        forall|i: int| 0 <= i < words_state(s).0.len() ==> no_separator(#[trigger] words_state(s).0[i]),
        no_separator(words_state(s).1),
    decreases s.len(),
{
    if s.len() > 0 {
        let t = s.drop_last();
        assert(no_separator(t)) by {
            assert forall|c: char| (c == '/' || c == '\\') implies !t.contains(c) by {
                if t.contains(c) {
                    let k = choose|k: int| 0 <= k < t.len() && t[k] == c;
                    assert(s[k] == c);
                }
            }
        }
        lemma_words_state_no_separator(t);
        let (ws, cur) = words_state(t);
        let c = s.last();
        assert(c != '/' && c != '\\') by {
            assert(s[s.len() - 1] == c);
        }
        if !is_white_space(c) {
            lemma_no_separator_concat(cur, seq![c]);
            assert(cur.push(c) =~= cur + seq![c]);
        }
    }
}

proof fn lemma_join_dashes_no_separator(ws: Seq<Seq<char>>)
    requires
        forall|i: int| 0 <= i < ws.len() ==> no_separator(#[trigger] ws[i]),
    ensures
        no_separator(join_dashes(ws)),
    decreases ws.len(),
{
    if ws.len() > 1 {
        lemma_join_dashes_no_separator(ws.drop_last());
        assert(no_separator(ws[ws.len() - 1]));
        lemma_no_separator_concat(join_dashes(ws.drop_last()), seq!['-']);
        lemma_no_separator_concat(join_dashes(ws.drop_last()) + seq!['-'], ws.last());
    } else if ws.len() == 1 {
        assert(no_separator(ws[0]));
    }
}

/// The words of a title, once its unwanted characters are spaces, joined
/// with `-`, hold no path separator.
proof fn lemma_joined_words_no_separator(title: Seq<char>)
    ensures
        no_separator(
            join_dashes(words(title.map_values(|c: char| if kept_in_slug(c) { c } else { ' ' }))),
        ),
{
    let spaced = title.map_values(|c: char| if kept_in_slug(c) { c } else { ' ' });
    assert(no_separator(spaced)) by {
        assert forall|c: char| (c == '/' || c == '\\') implies !spaced.contains(c) by {
            if spaced.contains(c) {
                let k = choose|k: int| 0 <= k < spaced.len() && spaced[k] == c;
                assert(spaced[k] == (if kept_in_slug(title[k]) { title[k] } else { ' ' }));
            }
        }
    }
    lemma_words_state_no_separator(spaced);
    let (ws, cur) = words_state(spaced);
    let w = words(spaced);
    assert forall|i: int| 0 <= i < w.len() implies no_separator(#[trigger] w[i]) by {
        if i < ws.len() {
            assert(no_separator(ws[i]));
        }
    }
    lemma_join_dashes_no_separator(w);
}

fn words_of(s: &Vec<char>) -> (ws: Vec<Vec<char>>)
    ensures
        crate::path::views(ws@) == words(s@),
{
    let mut ws: Vec<Vec<char>> = Vec::new();
    let mut cur: Vec<char> = Vec::new();
    let mut i: usize = 0;
    while i < s.len()
        invariant
            i <= s.len(),
            (crate::path::views(ws@), cur@) == words_state(s@.take(i as int)),
        decreases s.len() - i,
    {
        let c = s[i];
        assert(s@.take(i + 1).drop_last() =~= s@.take(i as int));
        if char_is_whitespace(c) {
            if cur.len() > 0 {
                let ghost before = crate::path::views(ws@);
                let done = cur;
                ws.push(done);
                assert(crate::path::views(ws@) =~= before.push(done@));
                cur = Vec::new();
            } else {
                cur = Vec::new();
            }
            assert(cur@ =~= Seq::<char>::empty());
        } else {
            cur.push(c);
        }
        i = i + 1;
    }
    assert(s@.take(s.len() as int) =~= s@);
    if cur.len() > 0 {
        let ghost before = crate::path::views(ws@);
        ws.push(cur);
        assert(crate::path::views(ws@) =~= before.push(ws@.last()@));
    }
    ws
}

fn join_with_dashes(ws: &Vec<Vec<char>>) -> (r: Vec<char>)
    ensures
        r@ == join_dashes(crate::path::views(ws@)),
{
    let ghost gs = crate::path::views(ws@);
    let mut r: Vec<char> = Vec::new();
    let mut i: usize = 0;
    while i < ws.len()
        invariant
            i <= ws.len(),
            gs == crate::path::views(ws@),
            r@ == join_dashes(gs.take(i as int)),
        decreases ws.len() - i,
    {
        if i > 0 {
            r.push('-');
        }
        crate::path::extend_chars(&mut r, &ws[i]);
        assert(gs.take(i + 1).drop_last() =~= gs.take(i as int));
        assert(gs.take(i + 1).last() == ws@[i as int]@);
        if i == 0 {
            assert(gs.take(1) =~= seq![ws@[0]@]);
        }
        i = i + 1;
    }
    assert(gs.take(ws.len() as int) =~= gs);
    r
}

/// The slug of a clip's title, as used in its file name.
pub fn clip_slug(title: &str) -> (r: String)
    ensures
        r@ == spec_slug(title@),
        r@.len() <= 50,
        no_separator(r@),
{
    let v = chars_of(title);
    let ghost spaced = title@.map_values(|c: char| if kept_in_slug(c) { c } else { ' ' });
    let mut out: Vec<char> = Vec::new();
    let mut i: usize = 0;
    while i < v.len()
        invariant
            i <= v.len(),
            v@ == title@,
            spaced == title@.map_values(|c: char| if kept_in_slug(c) { c } else { ' ' }),
            out@ == spaced.take(i as int),
        decreases v.len() - i,
    {
        let c = v[i];
        if char_is_alphanumeric(c) || c == ' ' || c == '-' {
            out.push(c);
        } else {
            out.push(' ');
        }
        assert(spaced.take(i + 1) =~= spaced.take(i as int).push(spaced[i as int]));
        i = i + 1;
    }
    assert(spaced.take(v.len() as int) =~= spaced);
    let joined = string_of(&join_with_dashes(&words_of(&out)));
    proof {
        lemma_joined_words_no_separator(title@);
    }
    let lower = chars_of(to_lowercase(joined.as_str()).as_str());
    assert(no_separator(lower@));
    if lower.len() <= 50 {
        string_of(&lower)
    } else {
        let mut cut: Vec<char> = Vec::new();
        let mut k: usize = 0;
        while k < 50
            invariant
                k <= 50 < lower.len(),
                cut@ == lower@.take(k as int),
            decreases 50 - k,
        {
            cut.push(lower[k]);
            assert(lower@.take(k + 1) =~= lower@.take(k as int).push(lower@[k as int]));
            k = k + 1;
        }
        assert forall|c: char| (c == '/' || c == '\\') implies !cut@.contains(c) by {
            if cut@.contains(c) {
                let j = choose|j: int| 0 <= j < cut@.len() && cut@[j] == c;
                assert(lower@[j] == c);
            }
        }
        string_of(&cut)
    }
}

// ---------------------------------------------------------------------------
// The clip's text
// ---------------------------------------------------------------------------

/// Every `"` preceded by a backslash.
pub open spec fn escape_quotes(s: Seq<char>) -> Seq<char>
    decreases s.len(),
{
    if s.len() == 0 {
        Seq::<char>::empty()
    } else {
        escape_quotes(s.drop_last()) + if s.last() == '"' {
            seq!['\\', '"']
        } else {
            seq![s.last()]
        }
    }
}

fn escaped(s: &str) -> (r: String)
    ensures
        r@ == escape_quotes(s@),
{
    let v = chars_of(s);
    let mut out: Vec<char> = Vec::new();
    let mut i: usize = 0;
    while i < v.len()
        invariant
            i <= v.len(),
            v@ == s@,
            out@ == escape_quotes(s@.take(i as int)),
        decreases v.len() - i,
    {
        assert(s@.take(i + 1).drop_last() =~= s@.take(i as int));
        let ghost before = out@;
        if v[i] == '"' {
            out.push('\\');
            out.push('"');
            assert(out@ =~= before + seq!['\\', '"']);
        } else {
            out.push(v[i]);
            assert(out@ =~= before + seq![v@[i as int]]);
        }
        i = i + 1;
    }
    assert(s@.take(v.len() as int) =~= s@);
    string_of(&out)
}

/// The markdown file a clip is saved as: front matter, a heading with the
/// title, the source link and the content.
pub open spec fn clip_markdown(
    title: Seq<char>,
    url: Seq<char>,
    date: Seq<char>,
    content: Seq<char>,
) -> Seq<char> {
    "---\ntype: clip\ntitle: \""@ + escape_quotes(title) + "\"\nurl: \""@ + escape_quotes(url)
        + "\"\nclipped: "@ + date + "\norigin: web-clip\nsources: []\ntags: [web-clip]\n---\n\n# "@
        + title + "\n\nSource: "@ + url + "\n\n"@ + content + "\n"@
}

pub fn clip_markdown_of(title: &str, url: &str, date: &str, content: &str) -> (r: String)
    ensures
        r@ == clip_markdown(title@, url@, date@, content@),
{
    let mut r = owned("---\ntype: clip\ntitle: \"");
    push_str(&mut r, escaped(title).as_str());
    push_str(&mut r, "\"\nurl: \"");
    push_str(&mut r, escaped(url).as_str());
    push_str(&mut r, "\"\nclipped: ");
    push_str(&mut r, date);
    push_str(&mut r, "\norigin: web-clip\nsources: []\ntags: [web-clip]\n---\n\n# ");
    push_str(&mut r, title);
    push_str(&mut r, "\n\nSource: ");
    push_str(&mut r, url);
    push_str(&mut r, "\n\n");
    push_str(&mut r, content);
    push_str(&mut r, "\n");
    r
}


// ---------------------------------------------------------------------------
// Pending clips
// ---------------------------------------------------------------------------

/// A saved clip the client has not picked up yet.
pub struct PendingClip {
    pub project_path: String,
    pub file_path: String,
}

pub open spec fn pending_view(c: PendingClip) -> (Seq<char>, Seq<char>) {
    (c.project_path@, c.file_path@)
}

pub open spec fn pending_views(s: Seq<PendingClip>) -> Seq<(Seq<char>, Seq<char>)> {
    s.map_values(|c: PendingClip| pending_view(c))
}

/// Saved clips waiting to be picked up, oldest first.
pub struct ClipQueue {
    pending: Vec<PendingClip>,
}

impl View for ClipQueue {
    type V = Seq<(Seq<char>, Seq<char>)>;

    closed spec fn view(&self) -> Seq<(Seq<char>, Seq<char>)> {
        pending_views(self.pending@)
    }
}

impl ClipQueue {
    pub fn new() -> (q: ClipQueue)
        ensures
            q@ == Seq::<(Seq<char>, Seq<char>)>::empty(),
    {
        let q = ClipQueue { pending: Vec::new() };
        assert(q@ =~= Seq::<(Seq<char>, Seq<char>)>::empty());
        q
    }

    /// Adds a clip at the end.
    pub fn push(&mut self, clip: PendingClip)
        ensures
            final(self)@ == old(self)@.push(pending_view(clip)),
    {
        let ghost before = self.pending@;
        self.pending.push(clip);
        assert(pending_views(self.pending@) =~= pending_views(before).push(pending_view(clip)));
    }

    /// How many clips are waiting.
    pub fn len(&self) -> (n: usize)
        ensures
            n == self@.len(),
    {
        self.pending.len()
    }
}

/// Hands out every waiting clip, oldest first, and empties the queue.
pub fn get_pending_clips(queue: &mut ClipQueue) -> (clips: Vec<PendingClip>)
    ensures
        pending_views(clips@) == old(queue)@,
        final(queue)@ == Seq::<(Seq<char>, Seq<char>)>::empty(),
{
    let mut clips: Vec<PendingClip> = Vec::new();
    std::mem::swap(&mut clips, &mut queue.pending);
    assert(pending_views(queue.pending@) =~= Seq::<(Seq<char>, Seq<char>)>::empty());
    clips
}

// ---------------------------------------------------------------------------
// Saving a clip
// ---------------------------------------------------------------------------

pub open spec fn no_projects_message() -> Seq<char> {
    "No projects available. Create a project first."@
}

/// The project a clip goes to: the named one inside the data directory, or,
/// when none is named, the first of the listed projects.
pub open spec fn spec_clip_project_path(
    data: Seq<char>,
    name: Option<Seq<char>>,
    listed: Seq<WikiProject>,
) -> Result<Seq<char>, Seq<char>> {
    match name {
        Some(n) => Ok(spec_join(data, n)),
        None => if listed.len() == 0 {
            Err(no_projects_message())
        } else {
            Ok(listed[0].path@)
        },
    }
}

/// The project directory a clip is saved in. `listed` is the project list,
/// consulted only when no project is named.
pub fn clip_project_path(dir: &DataDir, project_name: Option<&str>, listed: &Vec<WikiProject>) -> (r:
    Result<String, String>)
    ensures
        crate::config::result_view(r) == spec_clip_project_path(
            dir@,
            match project_name {
                Some(n) => Some(n@),
                None => None,
            },
            listed@,
        ),
{
    match project_name {
        Some(n) => Ok(join_path(crate::config::data_dir(dir), n)),
        None => if listed.len() == 0 {
            Err(owned("No projects available. Create a project first."))
        } else {
            Ok(owned(listed[0].path.as_str()))
        },
    }
}

/// What saving a clip will write: the date it is stamped with, the name its
/// file is built from, the directory it goes in, its text, and the failure
/// texts of the steps.
pub struct ClipDraft {
    pub project_path: String,
    pub date: String,
    pub date_compact: String,
    pub base_name: String,
    pub sources_dir: String,
    pub markdown: String,
    pub missing_project: String,
    pub mkdir_failure: String,
    pub write_failure: String,
}

/// Drafts the clip for the project at `project_path`, stamped with the dates
/// `date` (`YYYY-MM-DD`) and `date_compact` (`YYYYMMDD`).
pub fn clip_draft_dated(
    project_path: &str,
    title: &str,
    url: &str,
    content: &str,
    date: &str,
    date_compact: &str,
) -> (d: ClipDraft)
    ensures
        d.project_path@ == project_path@,
        d.date@ == date@,
        d.date_compact@ == date_compact@,
        d.base_name@ == spec_slug(title@) + seq!['-'] + date_compact@,
        no_separator(date_compact@) ==> no_separator(d.base_name@),
        d.sources_dir@ == spec_join(spec_join(project_path@, "raw"@), "sources"@),
        d.markdown@ == clip_markdown(title@, url@, date@, content@),
        d.missing_project@ == "Project path does not exist: "@ + project_path@,
        d.mkdir_failure@ == "Failed to create directory"@,
        d.write_failure@ == "Failed to write file"@,
{
    let slug = clip_slug(title);
    let base_name = concat3(slug.as_str(), "-", date_compact);
    proof {
        reveal_strlit("-");
        if no_separator(date_compact@) {
            assert(no_separator(seq!['-'])) by {
                if seq!['-'].contains('/') || seq!['-'].contains('\\') {
                    assert(seq!['-'][0] == '-');
                }
            }
            lemma_no_separator_concat(slug@, seq!['-']);
            lemma_no_separator_concat(slug@ + seq!['-'], date_compact@);
        }
    }
    let raw = join_path(project_path, "raw");
    let sources_dir = join_path(raw.as_str(), "sources");
    let markdown = clip_markdown_of(title, url, date, content);
    ClipDraft {
        project_path: owned(project_path),
        date: owned(date),
        date_compact: owned(date_compact),
        base_name,
        sources_dir,
        markdown,
        missing_project: concat2("Project path does not exist: ", project_path),
        mkdir_failure: owned("Failed to create directory"),
        write_failure: owned("Failed to write file"),
    }
}

/// Drafts the clip for the project at `project_path`, stamped with today's
/// date (as the clock gives it: nothing is stated of the dates themselves).
pub fn draft_clip(project_path: &str, title: &str, url: &str, content: &str) -> (d: ClipDraft)
    ensures
        d.project_path@ == project_path@,
        is_dashed_date(d.date@),
        is_compact_date(d.date_compact@),
        d.base_name@ == spec_slug(title@) + seq!['-'] + d.date_compact@,
        no_separator(d.base_name@),
        d.sources_dir@ == spec_join(spec_join(project_path@, "raw"@), "sources"@),
        d.markdown@ == clip_markdown(title@, url@, d.date@, content@),
        d.missing_project@ == "Project path does not exist: "@ + project_path@,
        d.mkdir_failure@ == "Failed to create directory"@,
        d.write_failure@ == "Failed to write file"@,
{
    let date = local_date_dashed();
    let date_compact = local_date_compact();
    proof {
        lemma_compact_date_no_separator(date_compact@);
    }
    clip_draft_dated(project_path, title, url, content, date.as_str(), date_compact.as_str())
}

/// The `attempt`-th file tried for a clip: `<base>.md` first, then
/// `<base>-2.md`, `<base>-3.md`, and so on.
pub open spec fn spec_clip_candidate(sources_dir: Seq<char>, base: Seq<char>, attempt: nat) -> Seq<
    char,
> {
    if attempt == 0 {
        spec_join(sources_dir, base + ".md"@)
    } else {
        spec_join(sources_dir, base + seq!['-'] + decimal(attempt + 1) + ".md"@)
    }
}

pub fn clip_candidate(draft: &ClipDraft, attempt: u32) -> (r: String)
    requires
        attempt < u32::MAX,
    ensures
        r@ == spec_clip_candidate(draft.sources_dir@, draft.base_name@, attempt as nat),
{
    if attempt == 0 {
        let name = concat2(draft.base_name.as_str(), ".md");
        join_path(draft.sources_dir.as_str(), name.as_str())
    } else {
        let counter = decimal_string((attempt + 1) as u64);
        let mut name = concat3(draft.base_name.as_str(), "-", counter.as_str());
        push_str(&mut name, ".md");
        proof {
            reveal_strlit("-");
        }
        assert(name@ =~= draft.base_name@ + seq!['-'] + decimal(attempt as nat + 1) + ".md"@);
        join_path(draft.sources_dir.as_str(), name.as_str())
    }
}

/// Records a clip saved at `file_path` as waiting, and answers its path
/// relative to the project.
pub fn finish_clip(queue: &mut ClipQueue, draft: &ClipDraft, file_path: &str) -> (r: String)
    ensures
        r@ == spec_relative_path(file_path@, draft.project_path@),
        final(queue)@ == old(queue)@.push(
            (to_slashes(draft.project_path@), to_slashes(file_path@)),
        ),
{
    let relative = get_relative_path(file_path, draft.project_path.as_str());
    queue.push(
        PendingClip {
            project_path: with_forward_slashes(draft.project_path.as_str()),
            file_path: with_forward_slashes(file_path),
        },
    );
    relative
}


// ---------------------------------------------------------------------------
// Laws
// ---------------------------------------------------------------------------

/// The files tried for a clip are all different, so looking for a free one
/// moves on at every attempt.
pub proof fn lemma_clip_candidates_differ(sources_dir: Seq<char>, base: Seq<char>, a: nat, b: nat)
    requires
        a != b,
    ensures
        spec_clip_candidate(sources_dir, base, a) != spec_clip_candidate(sources_dir, base, b),
{
    reveal_strlit(".md");
    let x0 = base + ".md"@;
    let x = |n: nat| base + seq!['-'] + decimal(n + 1) + ".md"@;
    assert forall|n: nat| is_absolute(#[trigger] x(n)) == is_absolute(x0) by {
        if base.len() > 0 {
            assert(x(n)[0] == base[0]);
            assert(x0[0] == base[0]);
        } else {
            assert(x(n)[0] == '-');
            assert(x0[0] == '.');
        }
    }
    assert forall|n: nat| (#[trigger] x(n)).len() > x0.len() by {
        crate::text::lemma_decimal_len(n + 1);
    }
    if spec_clip_candidate(sources_dir, base, a) == spec_clip_candidate(sources_dir, base, b) {
        if a == 0 {
            lemma_join_injective(sources_dir, x0, x(b));
        } else if b == 0 {
            lemma_join_injective(sources_dir, x(a), x0);
        } else {
            lemma_join_injective(sources_dir, x(a), x(b));
            let lo = base.len() + 1;
            assert(decimal(a + 1).len() == decimal(b + 1).len());
            assert(x(a).subrange(lo as int, (lo + decimal(a + 1).len()) as int) =~= decimal(a + 1));
            assert(x(b).subrange(lo as int, (lo + decimal(b + 1).len()) as int) =~= decimal(b + 1));
            crate::upload::lemma_decimal_injective(a + 1, b + 1);
        }
    }
}

/// Where a clip lands, relative to its project: a clip saved as `file` (a
/// single plain name) in the project's sources directory is reported as
/// `raw/sources/<file>`.
pub proof fn lemma_clip_relative_path(project: Seq<char>, file: Seq<char>)
    requires
        is_plain_relative(file),
        !file.contains('/'),
    ensures
        spec_relative_path(
            spec_join(spec_join(spec_join(project, "raw"@), "sources"@), file),
            project,
        ) == to_slashes("raw/sources/"@ + file),
        spec_join(project, "raw/sources/"@ + file) == spec_join(
            spec_join(spec_join(project, "raw"@), "sources"@),
            file,
        ),
{
    reveal_strlit("raw");
    reveal_strlit("sources");
    reveal_strlit("raw/sources/");
    let rel = "raw/sources/"@ + file;
    let raw = "raw"@;
    let sources = "sources"@;
    assert(rel =~= raw + seq!['/'] + (sources + seq!['/'] + file));
    assert(spec_join(spec_join(spec_join(project, raw), sources), file) =~= spec_join(project, rel));
    lemma_segments_concat(raw, sources + seq!['/'] + file);
    lemma_segments_concat(sources, file);
    assert(!raw.contains('/')) by {
        if raw.contains('/') {
            let k = choose|k: int| 0 <= k < raw.len() && raw[k] == '/';
        }
    }
    assert(!sources.contains('/')) by {
        if sources.contains('/') {
            let k = choose|k: int| 0 <= k < sources.len() && sources[k] == '/';
        }
    }
    lemma_segments_single(raw);
    lemma_segments_single(sources);
    lemma_segments_single(file);
    assert(segments(rel) =~= seq![raw, sources, file]);
    assert(segments(file)[0] == file);
    assert(raw != dot());
    assert(sources != dot());
    assert(is_plain_relative(rel));
    lemma_strip_join(project, rel);
}


proof fn lemma_compact_date_no_separator(s: Seq<char>)
    requires
        is_compact_date(s),
    ensures
        no_separator(s),
{
    let n = s.len() as int;
    let y = s.subrange(0, n - 4);
    assert forall|k: int| 0 <= k < n implies s[k] != '/' && s[k] != '\\' by {
        if k < n - 4 {
            assert(s[k] == y[k]);
            if k > 0 && y.len() >= 5 {
                assert(y.drop_first()[k - 1] == y[k]);
            }
        }
    }
}

proof fn lemma_decimal_no_separator(n: nat)
    ensures
        no_separator(decimal(n)),
    decreases n,
{
    if n < 10 {
        assert(decimal(n) =~= seq![digit_char(n)]);
        assert(decimal(n)[0] == digit_char(n));
    } else {
        lemma_decimal_no_separator(n / 10);
        assert(digit_char(n % 10) != '/' && digit_char(n % 10) != '\\');
        lemma_no_separator_concat(decimal(n / 10), seq![digit_char(n % 10)]);
        assert(decimal(n / 10).push(digit_char(n % 10)) =~= decimal(n / 10) + seq![
            digit_char(n % 10),
        ]);
    }
}

/// The name of the file tried for a clip at a given attempt: `<base>.md`
/// first, then `<base>-2.md`, `<base>-3.md`, and so on.
pub open spec fn clip_file_name(base: Seq<char>, attempt: nat) -> Seq<char> {
    if attempt == 0 {
        base + ".md"@
    } else {
        base + seq!['-'] + decimal(attempt + 1) + ".md"@
    }
}

/// A saved clip is found again from what saving it reports: whichever file
/// was tried, it is reported relative to its project as
/// `raw/sources/<file name>`, and that relative path joined to the project
/// path is the file's path. The clip's base name holds no separator, which
/// `draft_clip` guarantees.
pub proof fn lemma_clip_file_rejoins(project: Seq<char>, base: Seq<char>, attempt: nat)
    requires
        no_separator(base),
    ensures
        ({
            let file = spec_clip_candidate(
                spec_join(spec_join(project, "raw"@), "sources"@),
                base,
                attempt,
            );
            &&& spec_relative_path(file, project) == "raw/sources/"@ + clip_file_name(base, attempt)
            &&& spec_join(project, spec_relative_path(file, project)) == file
        }),
{
    reveal_strlit(".md");
    reveal_strlit("raw/sources/");
    let name = clip_file_name(base, attempt);
    let md = ".md"@;
    assert(no_separator(md)) by {
        assert forall|c: char| (c == '/' || c == '\\') implies !md.contains(c) by {
            if md.contains(c) {
                let k = choose|k: int| 0 <= k < md.len() && md[k] == c;
            }
        }
    }
    if attempt == 0 {
        lemma_no_separator_concat(base, md);
    } else {
        assert(no_separator(seq!['-'])) by {
            if seq!['-'].contains('/') || seq!['-'].contains('\\') {
                assert(seq!['-'][0] == '-');
            }
        }
        lemma_decimal_no_separator(attempt + 1);
        lemma_no_separator_concat(base, seq!['-']);
        lemma_no_separator_concat(base + seq!['-'], decimal(attempt + 1));
        lemma_no_separator_concat(base + seq!['-'] + decimal(attempt + 1), md);
    }
    assert(name.len() >= 3);
    assert(name != dot()) by {
        if name == dot() {
            assert(name.len() == 1);
        }
    }
    lemma_plain_single(name);
    lemma_clip_relative_path(project, name);
    let rel = "raw/sources/"@ + name;
    let prefix = "raw/sources/"@;
    assert forall|k: int| 0 <= k < rel.len() implies rel[k] != '\\' by {
        if k < prefix.len() {
            assert(rel[k] == prefix[k]);
        } else {
            assert(rel[k] == name[k - prefix.len()]);
            if name[k - prefix.len()] == '\\' {
                assert(name.contains('\\'));
            }
        }
    }
    assert(to_slashes(rel) =~= rel);
}

/// A clip's file ends with its heading, source line and content exactly as
/// given: `# <title>`, a blank line, `Source: <url>`, a blank line, the
/// content, and a final line break. Only the front matter escapes quotes.
pub proof fn lemma_clip_markdown_tail(
    title: Seq<char>,
    url: Seq<char>,
    date: Seq<char>,
    content: Seq<char>,
)
    ensures
        ({
            let md = clip_markdown(title, url, date, content);
            let tail = "# "@ + title + "\n\nSource: "@ + url + "\n\n"@ + content + "\n"@;
            &&& md.len() >= tail.len()
            &&& md.subrange(md.len() - tail.len(), md.len() as int) == tail
        }),
{
    reveal_strlit("# ");
    reveal_strlit("\norigin: web-clip\nsources: []\ntags: [web-clip]\n---\n\n# ");
    let lit = "\norigin: web-clip\nsources: []\ntags: [web-clip]\n---\n\n# "@;
    let cut = lit.subrange(0, lit.len() - 2);
    assert(lit =~= cut + "# "@);
    let head = "---\ntype: clip\ntitle: \""@ + escape_quotes(title) + "\"\nurl: \""@ + escape_quotes(
        url,
    ) + "\"\nclipped: "@ + date + cut;
    let tail = "# "@ + title + "\n\nSource: "@ + url + "\n\n"@ + content + "\n"@;
    let md = clip_markdown(title, url, date, content);
    assert(md =~= head + tail);
    assert((head + tail).subrange(head.len() as int, (head + tail).len() as int) =~= tail);
}

/// In an escaped front-matter field every quote has a backslash before it,
/// so the field cannot end early; removing those backslashes gives the text
/// back.
pub proof fn lemma_escape_quotes(s: Seq<char>)
    ensures
        forall|i: int|
            0 <= i < escape_quotes(s).len() && #[trigger] escape_quotes(s)[i] == '"' ==> i > 0
                && escape_quotes(s)[i - 1] == '\\',
        unescape_quotes(escape_quotes(s)) == s,
    decreases s.len(),
{
    if s.len() > 0 {
        let d = s.drop_last();
        lemma_escape_quotes(d);
        let e = escape_quotes(d);
        let add = if s.last() == '"' { seq!['\\', '"'] } else { seq![s.last()] };
        assert(escape_quotes(s) == e + add);
        let es = e + add;
        assert forall|i: int|
            0 <= i < es.len() && #[trigger] es[i] == '"' implies i > 0 && es[i - 1] == '\\' by {
            if i < e.len() {
                assert(es[i] == e[i]);
                assert(e[i] == '"');
                assert(es[i - 1] == e[i - 1]);
            } else if s.last() == '"' {
                if i == e.len() {
                    assert(es[i] == '\\');
                } else {
                    assert(es[i - 1] == '\\');
                }
            } else {
                assert(es[i] == s.last());
            }
        }
        lemma_unescape_append(e, add, d, s.last());
        assert(d.push(s.last()) =~= s);
    } else {
        assert(escape_quotes(s) =~= Seq::<char>::empty());
        assert(s =~= Seq::<char>::empty());
    }
}

/// Text with each backslash that stands before a quote removed.
pub open spec fn unescape_quotes(s: Seq<char>) -> Seq<char>
    decreases s.len(),
{
    if s.len() == 0 {
        Seq::<char>::empty()
    } else if s.len() >= 2 && s[s.len() - 2] == '\\' && s.last() == '"' {
        unescape_quotes(s.subrange(0, s.len() - 2)).push('"')
    } else {
        unescape_quotes(s.drop_last()).push(s.last())
    }
}

proof fn lemma_unescape_append(e: Seq<char>, add: Seq<char>, d: Seq<char>, c: char)
    requires
        unescape_quotes(e) == d,
        add == if c == '"' { seq!['\\', '"'] } else { seq![c] },
        forall|i: int| 0 <= i < e.len() && #[trigger] e[i] == '"' ==> i > 0 && e[i - 1] == '\\',
    ensures
        unescape_quotes(e + add) == d.push(c),
{
    let es = e + add;
    if c == '"' {
        assert(es.len() >= 2 && es[es.len() - 2] == '\\' && es.last() == '"');
        assert(es.subrange(0, es.len() - 2) =~= e);
    } else {
        assert(es.drop_last() =~= e);
        if es.len() >= 2 && es[es.len() - 2] == '\\' && es.last() == '"' {
            assert(es.last() == c);
        }
    }
}

} // verus!
