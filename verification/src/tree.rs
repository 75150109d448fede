//! Directory listings: what a directory holds, as read from disk, turned into
//! the tree the client shows.

use vstd::prelude::*;
use crate::config::{DataDir, result_view, spec_validate_path, validate_path};
use crate::path::{to_slashes, with_forward_slashes};
use crate::text::{chars_of, concat3, owned, push_str};

verus! {

/// What reading a directory gave.
pub enum DirContents {
    /// The directory was not read.
    NotRead,
    /// Reading it failed, with this error text.
    Failed(String),
    /// Its entries, in the order the directory gave them.
    Listed(Vec<DirEntryInfo>),
}

/// One entry of a directory.
pub struct DirEntryInfo {
    /// The entry's name, or `None` when it is not valid UTF-8.
    pub name: Option<String>,
    /// The entry's full path, lossily converted to text.
    pub path: String,
    /// Whether the entry is (or links to) a directory.
    pub is_dir: bool,
    /// For a directory, what reading it gave.
    pub contents: DirContents,
}

/// A node of the listing sent to the client.
pub struct FileNode {
    pub name: String,
    pub path: String,
    pub is_dir: bool,
    pub children: Option<Vec<FileNode>>,
}

/// The mathematical form of a `FileNode`.
pub struct NodeView {
    pub name: Seq<char>,
    pub path: Seq<char>,
    pub is_dir: bool,
    pub children: Option<Seq<NodeView>>,
}

pub open spec fn node_view(n: FileNode) -> NodeView
    decreases n, 0nat,
{
    NodeView {
        name: n.name@,
        path: n.path@,
        is_dir: n.is_dir,
        children: match n.children {
            Some(v) => Some(nodes_view_from(v@, 0)),
            None => None,
        },
    }
}

pub open spec fn nodes_view_from(s: Seq<FileNode>, i: int) -> Seq<NodeView>
    decreases s, s.len() - i,
{
    if i < 0 || i >= s.len() {
        Seq::<NodeView>::empty()
    } else {
        seq![node_view(s[i])] + nodes_view_from(s, i + 1)
    }
}

pub open spec fn nodes_view(s: Seq<FileNode>) -> Seq<NodeView> {
    nodes_view_from(s, 0)
}

pub open spec fn tree_view(r: Result<Vec<FileNode>, String>) -> Result<Seq<NodeView>, Seq<char>> {
    match r {
        Ok(v) => Ok(nodes_view(v@)),
        Err(e) => Err(e@),
    }
}

// ---------------------------------------------------------------------------
// Which entries are listed, and in which order
// ---------------------------------------------------------------------------

/// Listed entries have a UTF-8 name that does not start with `.`.
pub open spec fn is_listed(e: DirEntryInfo) -> bool {
    match e.name {
        Some(n) => !(n@.len() > 0 && n@[0] == '.'),
        None => false,
    }
}

pub open spec fn entry_name(e: DirEntryInfo) -> Seq<char> {
    match e.name {
        Some(n) => n@,
        None => Seq::<char>::empty(),
    }
}

/// Strict lexicographic order of names by code point (for UTF-8 text the
/// same as the byte order in which names compare).
pub open spec fn name_lt(a: Seq<char>, b: Seq<char>) -> bool
    decreases a.len(),
{
    if a.len() == 0 {
        b.len() > 0
    } else if b.len() == 0 {
        false
    } else if a[0] != b[0] {
        (a[0] as int) < (b[0] as int)
    } else {
        name_lt(a.drop_first(), b.drop_first())
    }
}

/// `a` sorts strictly before `b`: directories first, then by name.
pub open spec fn sorts_before(a: DirEntryInfo, b: DirEntryInfo) -> bool {
    (a.is_dir && !b.is_dir) || (a.is_dir == b.is_dir && name_lt(entry_name(a), entry_name(b)))
}

/// Where entry `x` goes among `sorted` (scanning from position `j`): before
/// the first entry it sorts strictly before, so that equal entries keep
/// their order.
pub open spec fn insert_position(es: Seq<DirEntryInfo>, sorted: Seq<int>, x: int, j: int) -> int
    decreases sorted.len() - j,
{
    if j < 0 || j >= sorted.len() {
        sorted.len() as int
    } else if sorts_before(es[x], es[sorted[j]]) {
        j
    } else {
        insert_position(es, sorted, x, j + 1)
    }
}

/// The listed entries among the first `n`, stably sorted.
pub open spec fn listing_order(es: Seq<DirEntryInfo>, n: int) -> Seq<int>
    decreases n,
{
    if n <= 0 {
        Seq::<int>::empty()
    } else {
        let r = listing_order(es, n - 1);
        if is_listed(es[n - 1]) {
            r.insert(insert_position(es, r, n - 1, 0), n - 1)
        } else {
            r
        }
    }
}

// ---------------------------------------------------------------------------
// The tree
// ---------------------------------------------------------------------------

pub open spec fn read_failure_message(dir: Seq<char>, err: Seq<char>) -> Seq<char> {
    "Failed to read directory '"@ + dir + "': "@ + err
}

/// The nodes for the directory whose contents are `c`, at depth `depth` of
/// at most `max`: nothing at the depth limit or when the directory was not
/// read, the read error when it failed, else a node per listed entry in
/// listing order, each directory with its own nodes as children (none when
/// it has none). The first error met, in that order, is the answer.
pub open spec fn spec_build(c: DirContents, dir: Seq<char>, depth: nat, max: nat) -> Result<
    Seq<NodeView>,
    Seq<char>,
>
    decreases c, 0int,
{
    if depth >= max {
        Ok(Seq::<NodeView>::empty())
    } else {
        match c {
            DirContents::NotRead => Ok(Seq::<NodeView>::empty()),
            DirContents::Failed(e) => Err(read_failure_message(dir, e@)),
            DirContents::Listed(v) => spec_build_entries(
                v@,
                listing_order(v@, v@.len() as int),
                0,
                depth,
                max,
            ),
        }
    }
}

/// The nodes for entries `order[k..]` of `es`.
pub open spec fn spec_build_entries(
    es: Seq<DirEntryInfo>,
    order: Seq<int>,
    k: int,
    depth: nat,
    max: nat,
) -> Result<Seq<NodeView>, Seq<char>>
    decreases es, order.len() - k,
{
    if k < 0 || k >= order.len() || !(0 <= order[k] < es.len()) {
        Ok(Seq::<NodeView>::empty())
    } else {
        let e = es[order[k]];
        let kids = if e.is_dir {
            spec_build(e.contents, e.path@, depth + 1, max)
        } else {
            Ok(Seq::<NodeView>::empty())
        };
        match kids {
            Err(m) => Err(m),
            Ok(ks) => {
                let node = NodeView {
                    name: entry_name(e),
                    path: to_slashes(e.path@),
                    is_dir: e.is_dir,
                    children: if e.is_dir && ks.len() > 0 {
                        Some(ks)
                    } else {
                        None
                    },
                };
                match spec_build_entries(es, order, k + 1, depth, max) {
                    Err(m) => Err(m),
                    Ok(rest) => Ok(seq![node] + rest),
                }
            },
        }
    }
}


// ---------------------------------------------------------------------------
// Executable listing
// ---------------------------------------------------------------------------

fn listed(e: &DirEntryInfo) -> (r: bool)
    ensures
        r == is_listed(*e),
{
    match &e.name {
        Some(n) => {
            let v = chars_of(n.as_str());
            !(v.len() > 0 && v[0] == '.')
        },
        None => false,
    }
}

fn name_chars(e: &DirEntryInfo) -> (r: Vec<char>)
    ensures
        r@ == entry_name(*e),
{
    match &e.name {
        Some(n) => chars_of(n.as_str()),
        None => Vec::new(),
    }
}

pub(crate) fn chars_lt(a: &Vec<char>, b: &Vec<char>) -> (r: bool)
    ensures
        r == name_lt(a@, b@),
{
    let mut i: usize = 0;
    assert(a@.subrange(0, a.len() as int) =~= a@);
    assert(b@.subrange(0, b.len() as int) =~= b@);
    while i < a.len() && i < b.len() && a[i] == b[i]
        invariant
            i <= a.len(),
            i <= b.len(),
            name_lt(a@, b@) == name_lt(a@.subrange(i as int, a.len() as int), b@.subrange(
                i as int,
                b.len() as int,
            )),
        decreases a.len() - i,
    {
        let ghost sa = a@.subrange(i as int, a.len() as int);
        let ghost sb = b@.subrange(i as int, b.len() as int);
        assert(sa.drop_first() =~= a@.subrange(i + 1, a.len() as int));
        assert(sb.drop_first() =~= b@.subrange(i + 1, b.len() as int));
        i = i + 1;
    }
    let ghost sa = a@.subrange(i as int, a.len() as int);
    let ghost sb = b@.subrange(i as int, b.len() as int);
    if i == a.len() {
        assert(sa.len() == 0);
        i < b.len()
    } else if i == b.len() {
        assert(sb.len() == 0);
        false
    } else {
        assert(sa[0] == a@[i as int] && sb[0] == b@[i as int]);
        a[i] < b[i]
    }
}

fn before(a: &DirEntryInfo, b: &DirEntryInfo) -> (r: bool)
    ensures
        r == sorts_before(*a, *b),
{
    if a.is_dir && !b.is_dir {
        true
    } else if a.is_dir == b.is_dir {
        chars_lt(&name_chars(a), &name_chars(b))
    } else {
        false
    }
}

pub open spec fn usize_ints(v: Seq<usize>) -> Seq<int> {
    v.map_values(|i: usize| i as int)
}

/// The listed entries' indices, directories first, then by name, entries
/// that compare equal keeping their order.
pub fn listing_order_of(es: &Vec<DirEntryInfo>) -> (r: Vec<usize>)
    ensures
        usize_ints(r@) == listing_order(es@, es@.len() as int),
        forall|j: int| 0 <= j < r@.len() ==> #[trigger] r@[j] < es@.len(),
{
    let mut r: Vec<usize> = Vec::new();
    let mut i: usize = 0;
    while i < es.len()
        invariant
            i <= es.len(),
            usize_ints(r@) == listing_order(es@, i as int),
            forall|j: int| 0 <= j < r@.len() ==> #[trigger] r@[j] < i,
        decreases es.len() - i,
    {
        if listed(&es[i]) {
            let ghost sorted = usize_ints(r@);
            let mut pos: usize = 0;
            while pos < r.len() && !before(&es[i], &es[r[pos]])
                invariant
                    pos <= r.len(),
                    i < es.len(),
                    sorted == usize_ints(r@),
                    forall|j: int| 0 <= j < r@.len() ==> #[trigger] r@[j] < i,
                    insert_position(es@, sorted, i as int, 0) == insert_position(
                        es@,
                        sorted,
                        i as int,
                        pos as int,
                    ),
                decreases r.len() - pos,
            {
                pos = pos + 1;
            }
            r.insert(pos, i);
            assert(usize_ints(r@) =~= sorted.insert(pos as int, i as int));
        }
        i = i + 1;
    }
    r
}

fn read_failure_message_of(dir: &str, err: &str) -> (r: String)
    ensures
        r@ == read_failure_message(dir@, err@),
{
    let mut r = concat3("Failed to read directory '", dir, "': ");
    push_str(&mut r, err);
    r
}

pub open spec fn prepend(p: Seq<NodeView>, r: Result<Seq<NodeView>, Seq<char>>) -> Result<
    Seq<NodeView>,
    Seq<char>,
> {
    match r {
        Ok(rest) => Ok(p + rest),
        Err(m) => Err(m),
    }
}

proof fn lemma_nodes_view_len(s: Seq<FileNode>, i: int)
    requires
        0 <= i <= s.len(),
    ensures
        nodes_view_from(s, i).len() == s.len() - i,
    decreases s.len() - i,
{
    if i < s.len() {
        lemma_nodes_view_len(s, i + 1);
    }
}

proof fn lemma_nodes_view_push(s: Seq<FileNode>, n: FileNode)
    ensures
        nodes_view(s.push(n)) == nodes_view(s).push(node_view(n)),
    decreases s.len(),
{
    assert(forall|i: int|
        0 <= i <= s.len() ==> #[trigger] nodes_view_from(s.push(n), i) == nodes_view_from(s, i)
            + seq![node_view(n)]) by {
        lemma_nodes_view_from_push(s, n, 0);
    }
}

proof fn lemma_nodes_view_from_push(s: Seq<FileNode>, n: FileNode, i: int)
    requires
        0 <= i <= s.len(),
    ensures
        forall|j: int|
            i <= j <= s.len() ==> #[trigger] nodes_view_from(s.push(n), j) == nodes_view_from(s, j)
                + seq![node_view(n)],
    decreases s.len() - i,
{
    if i < s.len() {
        lemma_nodes_view_from_push(s, n, i + 1);
        assert(nodes_view_from(s.push(n), i) =~= nodes_view_from(s, i) + seq![node_view(n)]);
    } else {
        assert(nodes_view_from(s.push(n), i) =~= seq![node_view(n)] + nodes_view_from(s.push(n), i + 1));
        assert(nodes_view_from(s, i) =~= Seq::<NodeView>::empty());
        assert(nodes_view_from(s.push(n), i + 1) =~= Seq::<NodeView>::empty());
    }
}

/// The listing of the directory `dir` whose contents are `contents`, at depth
/// `depth` below the directory asked for, going no deeper than `max_depth`.
pub fn build_tree(contents: &DirContents, dir: &str, depth: usize, max_depth: usize) -> (r: Result<
    Vec<FileNode>,
    String,
>)
    ensures
        tree_view(r) == spec_build(*contents, dir@, depth as nat, max_depth as nat),
    decreases *contents,
{
    if depth >= max_depth {
        assert(nodes_view(Seq::<FileNode>::empty()) =~= Seq::<NodeView>::empty());
        return Ok(Vec::new());
    }
    match contents {
        DirContents::NotRead => {
            assert(nodes_view(Seq::<FileNode>::empty()) =~= Seq::<NodeView>::empty());
            Ok(Vec::new())
        },
        DirContents::Failed(e) => Err(read_failure_message_of(dir, e.as_str())),
        DirContents::Listed(entries) => {
            let order = listing_order_of(entries);
            let ghost es = entries@;
            let ghost ord = listing_order(es, es.len() as int);
            let mut nodes: Vec<FileNode> = Vec::new();
            assert(nodes_view(nodes@) =~= Seq::<NodeView>::empty());
            let mut k: usize = 0;
            while k < order.len()
                invariant
                    k <= order.len(),
                    depth < max_depth,
                    es == entries@,
                    *contents == DirContents::Listed(*entries),
                    usize_ints(order@) == ord,
                    ord == listing_order(es, es.len() as int),
                    forall|j: int| 0 <= j < order@.len() ==> #[trigger] order@[j] < es.len(),
                    spec_build_entries(es, ord, 0, depth as nat, max_depth as nat) == prepend(
                        nodes_view(nodes@),
                        spec_build_entries(es, ord, k as int, depth as nat, max_depth as nat),
                    ),
                decreases order.len() - k,
            {
                let idx = order[k];
                assert(ord[k as int] == idx as int);
                let e = &entries[idx];
                let children: Option<Vec<FileNode>> = if e.is_dir {
                    proof {
                        assert(*contents == DirContents::Listed(*entries));
                        let ghost v = *entries;
                        assert(decreases_to!(DirContents::Listed(v) => v));
                        assert(decreases_to!(v => v@));
                        assert(decreases_to!(v@ => v@[idx as int]));
                        assert(decreases_to!(v@[idx as int] => v@[idx as int].contents));
                        assert(decreases_to!(*contents => entries@[idx as int].contents));
                    }
                    match build_tree(&e.contents, e.path.as_str(), depth + 1, max_depth) {
                        Err(m) => {
                            assert(spec_build_entries(es, ord, k as int, depth as nat, max_depth as nat) == Err::<Seq<NodeView>, Seq<char>>(m@));
                            return Err(m);
                        },
                        Ok(kids) => {
                            proof {
                                lemma_nodes_view_len(kids@, 0);
                            }
                            if kids.len() == 0 {
                                None
                            } else {
                                Some(kids)
                            }
                        },
                    }
                } else {
                    None
                };
                let name = match &e.name {
                    Some(n) => owned(n.as_str()),
                    None => String::new(),
                };
                let node = FileNode {
                    name,
                    path: with_forward_slashes(e.path.as_str()),
                    is_dir: e.is_dir,
                    children,
                };
                proof {
                    let ks = if e.is_dir {
                        spec_build(e.contents, e.path@, depth as nat + 1, max_depth as nat)
                    } else {
                        Ok(Seq::<NodeView>::empty())
                    };
                    assert(ks is Ok);
                    let kv = ks->Ok_0;
                    assert(node_view(node).children == (if e.is_dir && kv.len() > 0 {
                        Some(kv)
                    } else {
                        None
                    }));
                    assert(node_view(node) == NodeView {
                        name: entry_name(*e),
                        path: to_slashes(e.path@),
                        is_dir: e.is_dir,
                        children: if e.is_dir && kv.len() > 0 {
                            Some(kv)
                        } else {
                            None
                        },
                    });
                    match spec_build_entries(es, ord, k + 1, depth as nat, max_depth as nat) {
                        Ok(rest) => {
                            assert(spec_build_entries(es, ord, k as int, depth as nat, max_depth as nat) == Ok::<Seq<NodeView>, Seq<char>>(seq![node_view(node)] + rest));
                        },
                        Err(m) => {
                            assert(spec_build_entries(es, ord, k as int, depth as nat, max_depth as nat) == Err::<Seq<NodeView>, Seq<char>>(m));
                        },
                    }
                }
                let ghost before = nodes@;
                nodes.push(node);
                proof {
                    lemma_nodes_view_push(before, node);
                    assert(nodes@ == before.push(node));
                    assert(nodes_view(before) + seq![node_view(node)] =~= nodes_view(nodes@));
                    match spec_build_entries(es, ord, k + 1, depth as nat, max_depth as nat) {
                        Ok(rest) => {
                            assert(nodes_view(before) + (seq![node_view(node)] + rest) =~= nodes_view(nodes@) + rest);
                        },
                        Err(m) => {},
                    }
                }
                k = k + 1;
            }
            Ok(nodes)
        },
    }
}


/// How deep a listing goes below the directory asked for.
pub const MAX_LISTING_DEPTH: usize = 30;

pub open spec fn not_a_directory_message(path: Seq<char>) -> Seq<char> {
    "Path is not a directory: '"@ + path + "'"@
}

/// The directory a listing of `path` reads: its canonical form, when that
/// lies inside the data directory and is a directory.
pub open spec fn spec_list_target(
    data: Seq<char>,
    path: Seq<char>,
    canonical: Result<Seq<char>, Seq<char>>,
    is_dir: bool,
) -> Result<Seq<char>, Seq<char>> {
    match spec_validate_path(data, path, canonical) {
        Err(m) => Err(m),
        Ok(c) => if is_dir {
            Ok(c)
        } else {
            Err(not_a_directory_message(path))
        },
    }
}

/// Which directory to read for a listing of `path`; `canonical` is what
/// canonicalizing `path` gave and `is_dir` whether that is a directory.
pub fn list_directory_target(
    dir: &DataDir,
    path: &str,
    canonical: Result<String, String>,
    is_dir: bool,
) -> (r: Result<String, String>)
    ensures
        result_view(r) == spec_list_target(dir@, path@, result_view(canonical), is_dir),
{
    match validate_path(dir, path, canonical) {
        Err(m) => Err(m),
        Ok(c) => if is_dir {
            Ok(c)
        } else {
            Err(concat3("Path is not a directory: '", path, "'"))
        },
    }
}

/// The listing of `path`: `canonical` and `is_dir` as for
/// `list_directory_target`, `contents` what reading that directory (and the
/// directories below it) gave.
pub fn list_directory(
    dir: &DataDir,
    path: &str,
    canonical: Result<String, String>,
    is_dir: bool,
    contents: &DirContents,
) -> (r: Result<Vec<FileNode>, String>)
    ensures
        tree_view(r) == match spec_list_target(dir@, path@, result_view(canonical), is_dir) {
            Err(m) => Err(m),
            Ok(c) => spec_build(*contents, c, 0, MAX_LISTING_DEPTH as nat),
        },
{
    match list_directory_target(dir, path, canonical, is_dir) {
        Err(m) => Err(m),
        Ok(c) => build_tree(contents, c.as_str(), 0, MAX_LISTING_DEPTH),
    }
}


// ---------------------------------------------------------------------------
// Laws
// ---------------------------------------------------------------------------

/// The order of names is a strict total order: no name comes before itself,
/// it is transitive, and of two different names one comes first.
pub proof fn lemma_name_order(a: Seq<char>, b: Seq<char>, c: Seq<char>)
    ensures
        !name_lt(a, a),
        name_lt(a, b) && name_lt(b, c) ==> name_lt(a, c),
        a != b ==> name_lt(a, b) || name_lt(b, a),
        !(name_lt(a, b) && name_lt(b, a)),
    decreases a.len(),
{
    if a.len() > 0 && b.len() > 0 && c.len() > 0 {
        lemma_name_order(a.drop_first(), b.drop_first(), c.drop_first());
    }
    if a.len() > 0 && b.len() > 0 {
        lemma_name_order(a.drop_first(), b.drop_first(), b.drop_first());
        if a[0] != b[0] {
            assert((a[0] as int) != (b[0] as int));
        }
        if a != b && a[0] == b[0] {
            assert(a.drop_first() != b.drop_first()) by {
                if a.drop_first() == b.drop_first() {
                    assert(a =~= seq![a[0]] + a.drop_first());
                    assert(b =~= seq![b[0]] + b.drop_first());
                }
            }
        }
    }
    if a.len() > 0 {
        lemma_name_order(a.drop_first(), a.drop_first(), a.drop_first());
    }
    if a.len() == 0 && b.len() == 0 {
        assert(a =~= b);
    }
}

proof fn lemma_before_order(x: DirEntryInfo, y: DirEntryInfo, z: DirEntryInfo)
    ensures
        !sorts_before(x, x),
        sorts_before(x, y) && sorts_before(y, z) ==> sorts_before(x, z),
        !(sorts_before(x, y) && sorts_before(y, x)),
{
    lemma_name_order(entry_name(x), entry_name(y), entry_name(z));
    lemma_name_order(entry_name(x), entry_name(x), entry_name(x));
}

proof fn lemma_insert_position_facts(es: Seq<DirEntryInfo>, sorted: Seq<int>, x: int, j: int)
    requires
        0 <= j <= sorted.len(),
    ensures
        j <= insert_position(es, sorted, x, j) <= sorted.len(),
        forall|k: int|
            j <= k < insert_position(es, sorted, x, j) ==> !sorts_before(es[x], es[#[trigger] sorted[k]]),
        insert_position(es, sorted, x, j) < sorted.len() ==> sorts_before(
            es[x],
            es[sorted[insert_position(es, sorted, x, j)]],
        ),
    decreases sorted.len() - j,
{
    if j < sorted.len() && !sorts_before(es[x], es[sorted[j]]) {
        lemma_insert_position_facts(es, sorted, x, j + 1);
    }
}

/// Entries with the same sort key: same kind, same name.
pub open spec fn same_key(a: DirEntryInfo, b: DirEntryInfo) -> bool {
    a.is_dir == b.is_dir && entry_name(a) == entry_name(b)
}

/// `order` lists exactly the listed entries among the first `n` of `es`,
/// each once, directories before files and names ascending, entries with
/// the same key in their original order.
pub open spec fn is_sorted_listing(es: Seq<DirEntryInfo>, n: int, order: Seq<int>) -> bool {
    &&& forall|i: int| 0 <= i < order.len() ==> 0 <= #[trigger] order[i] < n
    &&& forall|k: int| 0 <= k < n ==> (is_listed(es[k]) <==> order.contains(k))
    &&& forall|i: int, j: int| 0 <= i < j < order.len() ==> #[trigger] order[i] != #[trigger] order[j]
    &&& forall|i: int, j: int|
        0 <= i < j < order.len() ==> !sorts_before(es[#[trigger] order[j]], es[#[trigger] order[i]])
    &&& forall|i: int, j: int|
        0 <= i < j < order.len() && same_key(es[#[trigger] order[i]], es[#[trigger] order[j]])
            ==> order[i] < order[j]
}

proof fn lemma_same_key_substitutes(a: DirEntryInfo, b: DirEntryInfo, c: DirEntryInfo)
    requires
        same_key(a, b),
    ensures
        sorts_before(a, c) == sorts_before(b, c),
        sorts_before(c, a) == sorts_before(c, b),
{
}

/// Listings come sorted and complete: every listed entry (a UTF-8 name not
/// starting with `.`) appears once and no other does; directories come
/// before files, names ascend within each kind, and entries that compare
/// equal keep the order the directory gave them.
pub proof fn lemma_listing_sorted(es: Seq<DirEntryInfo>, n: int)
    requires
        0 <= n <= es.len(),
    ensures
        is_sorted_listing(es, n, listing_order(es, n)),
    decreases n,
{
    if n > 0 {
        lemma_listing_sorted(es, n - 1);
        let r = listing_order(es, n - 1);
        if is_listed(es[n - 1]) {
            let x = n - 1;
            lemma_insert_position_facts(es, r, x, 0);
            let p = insert_position(es, r, x, 0);
            let r2 = r.insert(p, x);
            assert(listing_order(es, n) == r2);
            assert forall|i: int| 0 <= i < r2.len() implies 0 <= #[trigger] r2[i] < n by {
                if i < p {
                    assert(r2[i] == r[i]);
                } else if i > p {
                    assert(r2[i] == r[i - 1]);
                }
            }
            assert forall|k: int| 0 <= k < n implies (is_listed(es[k]) <==> r2.contains(k)) by {
                if k < n - 1 {
                    if r.contains(k) {
                        let i = choose|i: int| 0 <= i < r.len() && r[i] == k;
                        if i < p {
                            assert(r2[i] == k);
                        } else {
                            assert(r2[i + 1] == k);
                        }
                    }
                    if r2.contains(k) {
                        let i = choose|i: int| 0 <= i < r2.len() && r2[i] == k;
                        if i < p {
                            assert(r[i] == k);
                        } else if i > p {
                            assert(r[i - 1] == k);
                        }
                    }
                } else {
                    assert(r2[p] == k);
                }
            }
            assert forall|i: int, j: int| 0 <= i < j < r2.len() implies #[trigger] r2[i] != #[trigger] r2[j] by {
                if i < p && j < p {
                } else if i < p && j == p {
                } else if i < p {
                    assert(r2[j] == r[j - 1]);
                } else if i == p {
                    assert(r2[j] == r[j - 1]);
                } else {
                    assert(r2[i] == r[i - 1]);
                    assert(r2[j] == r[j - 1]);
                }
            }
            assert forall|i: int, j: int|
                0 <= i < j < r2.len() implies !sorts_before(
                es[#[trigger] r2[j]],
                es[#[trigger] r2[i]],
            ) && (same_key(es[r2[i]], es[r2[j]]) ==> r2[i] < r2[j]) by {
                let ri = if i < p { r[i] } else if i == p { x } else { r[i - 1] };
                let rj = if j < p { r[j] } else if j == p { x } else { r[j - 1] };
                assert(r2[i] == ri);
                assert(r2[j] == rj);
                if j == p {
                    assert(!sorts_before(es[x], es[r[i]]));
                } else if i == p {
                    // x sorts strictly before r[p]; r[j-1] does not sort before r[p]
                    lemma_before_order(es[r[j - 1]], es[x], es[r[p]]);
                    lemma_before_order(es[r[p]], es[r[p]], es[r[p]]);
                    if j - 1 > p {
                        assert(!sorts_before(es[r[j - 1]], es[r[p]]));
                    }
                    if same_key(es[x], es[r[j - 1]]) {
                        lemma_same_key_substitutes(es[x], es[r[j - 1]], es[r[p]]);
                    }
                }
            }
        }
    }
}

/// Whether an entry's own contents are needed for a listing: it is a listed
/// directory and its children are at depth `child_depth`, short of the limit.
pub fn needs_reading(name: Option<&str>, is_dir: bool, child_depth: usize) -> (r: bool)
    ensures
        r == (is_dir && child_depth < MAX_LISTING_DEPTH && match name {
            Some(n) => !(n@.len() > 0 && n@[0] == '.'),
            None => false,
        }),
{
    if !is_dir || child_depth >= MAX_LISTING_DEPTH {
        return false;
    }
    match name {
        Some(n) => {
            let v = chars_of(n);
            !(v.len() > 0 && v[0] == '.')
        },
        None => false,
    }
}

/// The nodes built for `order[k..]`: one per entry, with the entry's name
/// and kind; a directory's children are its own nodes, when it has any.
proof fn lemma_entries_shape(es: Seq<DirEntryInfo>, order: Seq<int>, k: int, depth: nat, max: nat)
    requires
        0 <= k <= order.len(),
        forall|i: int| 0 <= i < order.len() ==> 0 <= #[trigger] order[i] < es.len(),
        spec_build_entries(es, order, k, depth, max) is Ok,
    ensures
        ({
            let ns = spec_build_entries(es, order, k, depth, max)->Ok_0;
            &&& ns.len() == order.len() - k
            &&& forall|j: int|
                #![trigger ns[j]]
                0 <= j < ns.len() ==> {
                    let e = es[order[k + j]];
                    &&& ns[j].name == entry_name(e)
                    &&& ns[j].is_dir == e.is_dir
                    &&& e.is_dir ==> spec_build(e.contents, e.path@, depth + 1, max) is Ok
                    &&& e.is_dir ==> ns[j].children == if spec_build(
                        e.contents,
                        e.path@,
                        depth + 1,
                        max,
                    )->Ok_0.len() > 0 {
                        Some(spec_build(e.contents, e.path@, depth + 1, max)->Ok_0)
                    } else {
                        None
                    }
                }
        }),
    decreases order.len() - k,
{
    if k < order.len() {
        assert(0 <= order[k] < es.len());
        let e = es[order[k]];
        let kids = if e.is_dir {
            spec_build(e.contents, e.path@, depth + 1, max)
        } else {
            Ok(Seq::<NodeView>::empty())
        };
        assert(kids is Ok);
        assert(spec_build_entries(es, order, k + 1, depth, max) is Ok);
        lemma_entries_shape(es, order, k + 1, depth, max);
        let rest = spec_build_entries(es, order, k + 1, depth, max)->Ok_0;
        let ns = spec_build_entries(es, order, k, depth, max)->Ok_0;
        assert forall|j: int| 0 <= j < ns.len() implies #[trigger] ns[j] == if j == 0 {
            ns[0]
        } else {
            rest[j - 1]
        } by {}
        assert forall|j: int| 1 <= j < ns.len() implies #[trigger] order[k + j] == order[(k + 1) + (j - 1)] by {}
    }
}

/// Below the depth limit, a listing has a node for each listed entry.
proof fn lemma_build_count(c: DirContents, dir: Seq<char>, depth: nat, max: nat)
    requires
        depth < max,
        c is Listed,
        spec_build(c, dir, depth, max) is Ok,
    ensures
        spec_build(c, dir, depth, max)->Ok_0.len() == listing_order(
            c->Listed_0@,
            c->Listed_0@.len() as int,
        ).len(),
{
    let es = c->Listed_0@;
    let order = listing_order(es, es.len() as int);
    lemma_listing_sorted(es, es.len() as int);
    lemma_entries_shape(es, order, 0, depth, max);
}

/// Listings go all the way down to the depth limit: below it, the listing
/// of a directory has a node for every listed entry, in listing order, with
/// the entry's name and kind; and a listed directory whose own listing is
/// not empty, when its level is still below the limit, comes with children,
/// one for each entry listed in it.
pub proof fn lemma_listing_descends(c: DirContents, dir: Seq<char>, depth: nat, max: nat)
    requires
        depth < max,
        c is Listed,
        spec_build(c, dir, depth, max) is Ok,
    ensures
        ({
            let es = c->Listed_0@;
            let order = listing_order(es, es.len() as int);
            let ns = spec_build(c, dir, depth, max)->Ok_0;
            &&& ns.len() == order.len()
            &&& forall|k: int|
                #![trigger ns[k]]
                0 <= k < ns.len() ==> {
                    let e = es[order[k]];
                    &&& ns[k].name == entry_name(e)
                    &&& ns[k].is_dir == e.is_dir
                    &&& (e.is_dir && depth + 1 < max && e.contents is Listed && listing_order(
                        e.contents->Listed_0@,
                        e.contents->Listed_0@.len() as int,
                    ).len() > 0) ==> (ns[k].children is Some && ns[k].children->Some_0.len()
                        == listing_order(
                        e.contents->Listed_0@,
                        e.contents->Listed_0@.len() as int,
                    ).len())
                }
        }),
{
    let es = c->Listed_0@;
    let order = listing_order(es, es.len() as int);
    lemma_listing_sorted(es, es.len() as int);
    lemma_entries_shape(es, order, 0, depth, max);
    let ns = spec_build(c, dir, depth, max)->Ok_0;
    assert forall|k: int| #![trigger ns[k]] 0 <= k < ns.len() implies {
        let e = es[order[k]];
        (e.is_dir && depth + 1 < max && e.contents is Listed && listing_order(
            e.contents->Listed_0@,
            e.contents->Listed_0@.len() as int,
        ).len() > 0) ==> (ns[k].children is Some && ns[k].children->Some_0.len() == listing_order(
            e.contents->Listed_0@,
            e.contents->Listed_0@.len() as int,
        ).len())
    } by {
        let e = es[order[k]];
        assert(order[0 + k] == order[k]);
        if e.is_dir && depth + 1 < max && e.contents is Listed {
            lemma_build_count(e.contents, e.path@, depth + 1, max);
        }
    }
}

} // verus!
