//! Unix path arithmetic with the meaning the standard library gives it:
//! joining, component parsing, prefix tests, prefix stripping, parents and
//! file names. Paths are strings; `/` is the only separator.

use vstd::prelude::*;
use crate::text::{chars_of, string_of};


verus! {

broadcast use vstd::seq_lib::group_seq_properties;

// ---------------------------------------------------------------------------
// Model
// ---------------------------------------------------------------------------

/// A path is absolute when it starts with a separator.
pub open spec fn is_absolute(p: Seq<char>) -> bool {
    p.len() > 0 && p[0] == '/'
}

/// `base.join(p)`: an absolute `p` replaces `base`; otherwise `p` is appended,
/// with a separator unless `base` is empty or already ends with one.
pub open spec fn spec_join(base: Seq<char>, p: Seq<char>) -> Seq<char> {
    if is_absolute(p) {
        p
    } else if base.len() == 0 || base.last() == '/' {
        base + p
    } else {
        base + seq!['/'] + p
    }
}

/// The text between separators, in order; there is always at least one.
pub open spec fn segments(s: Seq<char>) -> Seq<Seq<char>>
    decreases s.len(),
{
    if s.len() == 0 {
        seq![Seq::<char>::empty()]
    } else {
        let r = segments(s.drop_last());
        if s.last() == '/' {
            r.push(Seq::<char>::empty())
        } else {
            r.update(r.len() - 1, r.last().push(s.last()))
        }
    }
}

/// Segments joined back with separators.
pub open spec fn join_segments(gs: Seq<Seq<char>>) -> Seq<char>
    decreases gs.len(),
{
    if gs.len() == 0 {
        Seq::<char>::empty()
    } else if gs.len() == 1 {
        gs[0]
    } else {
        join_segments(gs.drop_last()) + seq!['/'] + gs.last()
    }
}

pub open spec fn dot() -> Seq<char> {
    seq!['.']
}

pub open spec fn dot_dot() -> Seq<char> {
    seq!['.', '.']
}

/// A segment names a component unless it is empty, or is `.` anywhere but at
/// the very start of the path.
pub open spec fn is_live(segs: Seq<Seq<char>>, i: int) -> bool {
    segs[i].len() > 0 && (segs[i] != dot() || i == 0)
}

/// Indices below `n` of the segments that name components, ascending.
pub open spec fn live_below(segs: Seq<Seq<char>>, n: int) -> Seq<int>
    decreases n,
{
    if n <= 0 {
        Seq::<int>::empty()
    } else {
        let r = live_below(segs, n - 1);
        if is_live(segs, n - 1) {
            r.push(n - 1)
        } else {
            r
        }
    }
}

pub open spec fn live(segs: Seq<Seq<char>>) -> Seq<int> {
    live_below(segs, segs.len() as int)
}

/// The components of a path: the root (written `/`) for an absolute path,
/// then each named segment (a leading `.` stands for the current directory,
/// `..` for the parent; all other names are plain).
pub open spec fn components(p: Seq<char>) -> Seq<Seq<char>> {
    let segs = segments(p);
    let named = live(segs).map_values(|i: int| segs[i]);
    if is_absolute(p) {
        seq![seq!['/']] + named
    } else {
        named
    }
}

/// `p.starts_with(base)`: the components of `base` begin those of `p`.
pub open spec fn spec_starts_with(p: Seq<char>, base: Seq<char>) -> bool {
    components(base).len() <= components(p).len() && components(p).take(
        components(base).len() as int,
    ) == components(base)
}

/// The raw text of `p` from its start through its `n`-th named segment; with
/// `n == 0` only the root of an absolute path.
pub open spec fn raw_prefix(p: Seq<char>, n: int) -> Seq<char> {
    let segs = segments(p);
    let l = live(segs);
    if n <= 0 {
        if is_absolute(p) {
            seq!['/']
        } else {
            Seq::<char>::empty()
        }
    } else {
        join_segments(segs.subrange(0, l[n - 1] + 1))
    }
}

/// The raw text of `p` from its named segment number `m` (counting from 0)
/// through its last named segment; empty when there is no such segment.
pub open spec fn raw_suffix(p: Seq<char>, m: int) -> Seq<char> {
    let segs = segments(p);
    let l = live(segs);
    if m >= l.len() {
        Seq::<char>::empty()
    } else {
        join_segments(segs.subrange(l[m], l.last() + 1))
    }
}

/// `p.strip_prefix(base)`: when `p` starts with `base`, the rest of `p`
/// without the separators and `.` segments around it.
pub open spec fn spec_strip_prefix(p: Seq<char>, base: Seq<char>) -> Option<Seq<char>> {
    if !spec_starts_with(p, base) {
        None
    } else {
        let k = components(base).len() as int;
        if k == 0 {
            Some(raw_prefix(p, live(segments(p)).len() as int))
        } else {
            Some(raw_suffix(p, k - if is_absolute(p) { 1int } else { 0int }))
        }
    }
}

/// `p.parent()`: `p` without its last component, when that component is not
/// the root.
pub open spec fn spec_parent(p: Seq<char>) -> Option<Seq<char>> {
    let n = live(segments(p)).len() as int;
    if n == 0 {
        None
    } else {
        Some(raw_prefix(p, n - 1))
    }
}

/// `p.file_name()`: the last component when it is a plain name.
pub open spec fn spec_file_name(p: Seq<char>) -> Option<Seq<char>> {
    let segs = segments(p);
    let l = live(segs);
    if l.len() == 0 {
        None
    } else {
        let last = segs[l.last()];
        if last == dot() || last == dot_dot() {
            None
        } else {
            Some(last)
        }
    }
}

/// The character sequences held by a vector of character vectors.
pub open spec fn views(v: Seq<Vec<char>>) -> Seq<Seq<char>> {
    v.map_values(|x: Vec<char>| x@)
}

/// Every `\` replaced by `/`.
pub open spec fn to_slashes(s: Seq<char>) -> Seq<char> {
    s.map_values(|c: char| if c == '\\' { '/' } else { c })
}

// ---------------------------------------------------------------------------
// Facts about the model
// ---------------------------------------------------------------------------

pub proof fn lemma_segments_nonempty(s: Seq<char>)
    ensures
        segments(s).len() >= 1,
    decreases s.len(),
{
    if s.len() > 0 {
        lemma_segments_nonempty(s.drop_last());
    }
}

pub proof fn lemma_live_below_facts(segs: Seq<Seq<char>>, n: int)
    requires
        0 <= n <= segs.len(),
    ensures
        live_below(segs, n).len() <= n,
        forall|j: int|
            0 <= j < live_below(segs, n).len() ==> 0 <= #[trigger] live_below(segs, n)[j] < n
                && is_live(segs, live_below(segs, n)[j]),
        forall|j: int, k: int|
            0 <= j < k < live_below(segs, n).len() ==> #[trigger] live_below(segs, n)[j]
                < #[trigger] live_below(segs, n)[k],
    decreases n,
{
    if n > 0 {
        lemma_live_below_facts(segs, n - 1);
    }
}

/// Splitting at a separator splits the segments: those of `a`, then those of
/// `b`.
pub proof fn lemma_segments_concat(a: Seq<char>, b: Seq<char>)
    ensures
        segments(a + seq!['/'] + b) == segments(a) + segments(b),
    decreases b.len(),
{
    if b.len() == 0 {
        assert(a + seq!['/'] + b =~= a.push('/'));
        assert((a.push('/')).drop_last() =~= a);
        assert(segments(a) + segments(b) =~= segments(a).push(Seq::<char>::empty()));
    } else {
        let b1 = b.drop_last();
        lemma_segments_concat(a, b1);
        lemma_segments_nonempty(b1);
        lemma_segments_nonempty(a);
        assert((a + seq!['/'] + b).drop_last() =~= a + seq!['/'] + b1);
        assert((a + seq!['/'] + b).last() == b.last());
        let r = segments(a) + segments(b1);
        if b.last() == '/' {
            assert(r.push(Seq::<char>::empty()) =~= segments(a) + segments(b1).push(
                Seq::<char>::empty(),
            ));
        } else {
            let sb = segments(b1);
            assert(r.update(r.len() - 1, r.last().push(b.last())) =~= segments(a) + sb.update(
                sb.len() - 1,
                sb.last().push(b.last()),
            ));
        }
    }
}

/// Named segments below `m` begin those below `n` when `m <= n`.
pub proof fn lemma_live_below_prefix(segs: Seq<Seq<char>>, m: int, n: int)
    requires
        0 <= m <= n,
    ensures
        live_below(segs, m).len() <= live_below(segs, n).len(),
        live_below(segs, n).take(live_below(segs, m).len() as int) == live_below(segs, m),
    decreases n - m,
{
    if m < n {
        lemma_live_below_prefix(segs, m, n - 1);
        let r = live_below(segs, n - 1);
        if is_live(segs, n - 1) {
            assert(r.push(n - 1).take(live_below(segs, m).len() as int) =~= r.take(
                live_below(segs, m).len() as int,
            ));
        }
    } else {
        assert(live_below(segs, n).take(live_below(segs, n).len() as int) =~= live_below(segs, n));
    }
}

/// Segments placed after others keep the named ones before them.
pub proof fn lemma_live_below_append(a: Seq<Seq<char>>, b: Seq<Seq<char>>, n: int)
    requires
        0 <= n <= a.len(),
    ensures
        live_below(a + b, n) == live_below(a, n),
    decreases n,
{
    if n > 0 {
        lemma_live_below_append(a, b, n - 1);
        assert((a + b)[n - 1] == a[n - 1]);
    }
}

/// The named part of the components: everything after the root.
pub open spec fn named_components(p: Seq<char>) -> Seq<Seq<char>> {
    let segs = segments(p);
    live(segs).map_values(|i: int| segs[i])
}

/// The named components of `a` begin those of `a/b`.
proof fn lemma_named_prefix(a: Seq<char>, b: Seq<char>)
    ensures
        named_components(a).len() <= named_components(a + seq!['/'] + b).len(),
        named_components(a + seq!['/'] + b).take(named_components(a).len() as int)
            == named_components(a),
{
    let sa = segments(a);
    let sb = segments(b);
    lemma_segments_concat(a, b);
    let s = sa + sb;
    lemma_live_below_append(sa, sb, sa.len() as int);
    lemma_live_below_prefix(s, sa.len() as int, s.len() as int);
    let la = live(sa);
    let l = live(s);
    assert(l.take(la.len() as int) == la);
    assert(named_components(a + seq!['/'] + b).take(la.len() as int) =~= la.map_values(
        |i: int| sa[i],
    )) by {
        lemma_live_below_facts(sa, sa.len() as int);
        assert forall|j: int| 0 <= j < la.len() implies s[#[trigger] l[j]] == sa[l[j]] by {
            assert(l[j] == la[j]);
        }
    }
}

/// A trailing separator adds no component.
proof fn lemma_named_trailing_separator(a: Seq<char>)
    ensures
        named_components(a.push('/')) == named_components(a),
{
    lemma_segments_concat(a, Seq::<char>::empty());
    assert(a + seq!['/'] + Seq::<char>::empty() =~= a.push('/'));
    let sa = segments(a);
    let s = sa + seq![Seq::<char>::empty()];
    assert(segments(Seq::<char>::empty()) =~= seq![Seq::<char>::empty()]);
    lemma_live_below_append(sa, seq![Seq::<char>::empty()], sa.len() as int);
    assert(!is_live(s, sa.len() as int));
    assert(live(s) == live(sa));
    lemma_live_below_facts(sa, sa.len() as int);
    assert(named_components(a.push('/')) =~= named_components(a));
}

/// Joining a relative path to `base` gives a path that starts with `base`.
pub proof fn lemma_join_relative_starts_with(base: Seq<char>, rel: Seq<char>)
    requires
        !is_absolute(rel),
    ensures
        spec_starts_with(spec_join(base, rel), base),
{
    let j = spec_join(base, rel);
    if base.len() == 0 {
        assert(segments(base) =~= seq![Seq::<char>::empty()]);
        assert(!is_live(segments(base), 0));
        assert(live_below(segments(base), 0) =~= Seq::<int>::empty());
        assert(live(segments(base)) =~= Seq::<int>::empty());
        assert(components(base) =~= Seq::<Seq<char>>::empty());
        assert(components(j).take(0) =~= Seq::<Seq<char>>::empty());
    } else {
        let a = if base.last() == '/' { base.drop_last() } else { base };
        assert(j =~= a + seq!['/'] + rel);
        lemma_named_prefix(a, rel);
        if base.last() == '/' {
            assert(base =~= a.push('/'));
            lemma_named_trailing_separator(a);
        }
        assert(named_components(base) == named_components(a));
        assert(is_absolute(j) == is_absolute(base)) by {
            if a.len() == 0 {
                assert(j[0] == '/');
                assert(base[0] == '/');
            } else {
                assert(j[0] == a[0]);
                assert(base[0] == a[0]);
            }
        }
        let nb = named_components(base);
        let nj = named_components(j);
        if is_absolute(base) {
            assert(components(base) =~= seq![seq!['/']] + nb);
            assert(components(j) =~= seq![seq!['/']] + nj);
            assert(components(j).take(components(base).len() as int) =~= seq![seq!['/']]
                + nj.take(nb.len() as int));
        } else {
            assert(components(base) =~= nb);
            assert(components(j) =~= nj);
        }
    }
}

/// Joining the segments of a path gives the path back.
pub proof fn lemma_join_segments_of(s: Seq<char>)
    ensures
        join_segments(segments(s)) == s,
    decreases s.len(),
{
    if s.len() > 0 {
        let s1 = s.drop_last();
        lemma_join_segments_of(s1);
        lemma_segments_nonempty(s1);
        let g = segments(s1);
        if s.last() == '/' {
            assert(g.push(Seq::<char>::empty()).drop_last() =~= g);
            assert(join_segments(g.push(Seq::<char>::empty())) =~= s1 + seq!['/']);
        } else {
            let u = g.update(g.len() - 1, g.last().push(s.last()));
            if g.len() == 1 {
                assert(join_segments(u) =~= s1.push(s.last()));
            } else {
                assert(u.drop_last() =~= g.drop_last());
                assert(join_segments(u) =~= join_segments(g.drop_last()) + seq!['/'] + g.last().push(
                    s.last(),
                ));
            }
        }
        assert(s1.push(s.last()) =~= s);
    }
}

/// A path that does not start with a separator has a non-empty first
/// segment.
proof fn lemma_first_segment(s: Seq<char>)
    requires
        s.len() > 0,
        s[0] != '/',
    ensures
        segments(s)[0].len() > 0,
    decreases s.len(),
{
    lemma_segments_nonempty(s);
    if s.len() > 1 {
        lemma_first_segment(s.drop_last());
        lemma_segments_nonempty(s.drop_last());
    } else {
        lemma_segments_nonempty(s.drop_last());
        assert(s.drop_last().len() == 0);
    }
}

/// A relative path whose every segment names a plain component: not empty,
/// not `.`, no doubled, leading or trailing separators.
pub open spec fn is_plain_relative(rel: Seq<char>) -> bool {
    &&& !is_absolute(rel)
    &&& forall|i: int|
        0 <= i < segments(rel).len() ==> (#[trigger] segments(rel)[i]).len() > 0
            && segments(rel)[i] != dot()
}

/// When every segment of `b` is named, the named segments of `a + b` are
/// those of `a` followed by all of `b`'s.
proof fn lemma_live_all(a: Seq<Seq<char>>, b: Seq<Seq<char>>, j: int)
    requires
        0 <= j <= b.len(),
        forall|i: int| 0 <= i < b.len() ==> (#[trigger] b[i]).len() > 0 && b[i] != dot(),
    ensures
        live_below(a + b, a.len() + j) == live(a) + Seq::new(j as nat, |i: int| a.len() + i),
    decreases j,
{
    if j == 0 {
        lemma_live_below_append(a, b, a.len() as int);
        assert(live(a) + Seq::new(0, |i: int| a.len() + i) =~= live(a));
    } else {
        lemma_live_all(a, b, j - 1);
        assert((a + b)[a.len() + j - 1] == b[j - 1]);
        assert(is_live(a + b, a.len() + j - 1));
        assert((live(a) + Seq::new((j - 1) as nat, |i: int| a.len() + i)).push(a.len() + j - 1)
            =~= live(a) + Seq::new(j as nat, |i: int| a.len() + i));
    }
}

/// Stripping `base` from `base` joined with a plain relative path gives that
/// path back.
pub proof fn lemma_strip_join(base: Seq<char>, rel: Seq<char>)
    requires
        is_plain_relative(rel),
    ensures
        spec_strip_prefix(spec_join(base, rel), base) == Some(rel),
{
    lemma_join_relative_starts_with(base, rel);
    let j = spec_join(base, rel);
    let sr = segments(rel);
    lemma_segments_nonempty(rel);
    lemma_join_segments_of(rel);
    if base.len() == 0 {
        assert(segments(base) =~= seq![Seq::<char>::empty()]);
        assert(!is_live(segments(base), 0));
        assert(live_below(segments(base), 0) =~= Seq::<int>::empty());
        assert(components(base) =~= Seq::<Seq<char>>::empty());
        assert(j == rel);
        lemma_live_all(Seq::<Seq<char>>::empty(), sr, sr.len() as int);
        assert(Seq::<Seq<char>>::empty() + sr =~= sr);
        assert(live(Seq::<Seq<char>>::empty()) =~= Seq::<int>::empty());
        let l = live(sr);
        assert(l =~= Seq::new(sr.len(), |i: int| i));
        assert(sr.subrange(0, l[sr.len() - 1] + 1) =~= sr);
    } else {
        let a = if base.last() == '/' { base.drop_last() } else { base };
        assert(j =~= a + seq!['/'] + rel);
        lemma_segments_concat(a, rel);
        let sa = segments(a);
        lemma_segments_nonempty(a);
        let s = sa + sr;
        lemma_live_all(sa, sr, sr.len() as int);
        let l = live(s);
        let la = live(sa);
        assert(l == la + Seq::new(sr.len(), |i: int| sa.len() + i));
        if base.last() == '/' {
            assert(base =~= a.push('/'));
            lemma_named_trailing_separator(a);
        }
        assert(named_components(base) == named_components(a));
        assert(named_components(a) =~= la.map_values(|i: int| sa[i]));
        assert(is_absolute(j) == is_absolute(base)) by {
            if a.len() == 0 {
                assert(j[0] == '/');
                assert(base[0] == '/');
            } else {
                assert(j[0] == a[0]);
                assert(base[0] == a[0]);
            }
        }
        let k = components(base).len() as int;
        if is_absolute(base) {
            assert(components(base) =~= seq![seq!['/']] + named_components(base));
            assert(k == la.len() + 1);
        } else {
            assert(components(base) =~= named_components(base));
            lemma_first_segment(base);
            if base.last() == '/' {
                // a relative base ending in a separator has a non-empty first
                // segment before it
                assert(a.len() > 0) by {
                    if a.len() == 0 {
                        assert(base[0] == '/');
                    }
                }
                assert(a[0] == base[0]);
                lemma_first_segment(a);
            }
            assert(is_live(sa, 0));
            lemma_live_below_facts(sa, sa.len() as int);
            assert(live_below(sa, 0) =~= Seq::<int>::empty());
            assert(live_below(sa, 1) =~= seq![0int]);
            lemma_live_below_prefix(sa, 1, sa.len() as int);
            assert(la.len() >= 1);
            assert(k == la.len());
        }
        let m = la.len() as int;
        assert(l[m] == sa.len());
        assert(l.last() == sa.len() + sr.len() - 1);
        assert(s.subrange(sa.len() as int, (sa.len() + sr.len()) as int) =~= sr);
        assert(raw_suffix(j, m) == rel);
    }
}

/// Joining to the same base keeps different names apart, as long as both are
/// absolute or both relative.
pub proof fn lemma_join_injective(base: Seq<char>, x: Seq<char>, y: Seq<char>)
    requires
        is_absolute(x) == is_absolute(y),
        spec_join(base, x) == spec_join(base, y),
    ensures
        x == y,
{
    if !is_absolute(x) {
        let p = if base.len() == 0 || base.last() == '/' { base } else { base + seq!['/'] };
        assert(spec_join(base, x) =~= p + x);
        assert(spec_join(base, y) =~= p + y);
        assert((p + x).subrange(p.len() as int, (p + x).len() as int) =~= x);
        assert((p + y).subrange(p.len() as int, (p + y).len() as int) =~= y);
    }
}

/// A name without separators is a single segment.
pub proof fn lemma_segments_single(s: Seq<char>)
    requires
        !s.contains('/'),
    ensures
        segments(s) == seq![s],
    decreases s.len(),
{
    if s.len() > 0 {
        assert(!s.drop_last().contains('/')) by {
            if s.drop_last().contains('/') {
                let k = choose|k: int| 0 <= k < s.drop_last().len() && s.drop_last()[k] == '/';
                assert(s[k] == '/');
            }
        }
        lemma_segments_single(s.drop_last());
        assert(s.last() != '/') by {
            assert(s[s.len() - 1] == s.last());
        }
        assert(s.drop_last().push(s.last()) =~= s);
        assert(seq![s.drop_last()].update(0, s.drop_last().push(s.last())) =~= seq![s]);
    } else {
        assert(s =~= Seq::<char>::empty());
    }
}

/// The file name of a name without separators: the name itself, unless it is
/// empty, `.` or `..`.
pub proof fn lemma_file_name_single(s: Seq<char>)
    requires
        !s.contains('/'),
    ensures
        spec_file_name(s) == if s.len() == 0 || s == dot() || s == dot_dot() {
            None
        } else {
            Some(s)
        },
{
    lemma_segments_single(s);
    let segs = segments(s);
    assert(live_below(segs, 0) =~= Seq::<int>::empty());
    if s.len() > 0 {
        assert(is_live(segs, 0));
        assert(live(segs) =~= seq![0int]);
    } else {
        assert(!is_live(segs, 0));
        assert(live(segs) =~= Seq::<int>::empty());
    }
}

/// Segments hold no separator.
pub proof fn lemma_segments_no_separator(s: Seq<char>)
    ensures
        forall|i: int| 0 <= i < segments(s).len() ==> !(#[trigger] segments(s)[i]).contains('/'),
    decreases s.len(),
{
    lemma_segments_nonempty(s);
    if s.len() > 0 {
        let s1 = s.drop_last();
        lemma_segments_no_separator(s1);
        lemma_segments_nonempty(s1);
        let g = segments(s1);
        if s.last() != '/' {
            let u = g.update(g.len() - 1, g.last().push(s.last()));
            assert forall|i: int| 0 <= i < u.len() implies !(#[trigger] u[i]).contains('/') by {
                if i == g.len() - 1 {
                    if u[i].contains('/') {
                        let k = choose|k: int| 0 <= k < u[i].len() && u[i][k] == '/';
                        if k < g.last().len() {
                            assert(g.last()[k] == '/');
                            assert(g[g.len() - 1].contains('/'));
                        }
                    }
                }
            }
        } else {
            assert(!Seq::<char>::empty().contains('/'));
        }
    } else {
        assert(!Seq::<char>::empty().contains('/'));
    }
}

/// Joining segments without separators and splitting again gives them back.
pub proof fn lemma_segments_of_join(gs: Seq<Seq<char>>)
    requires
        gs.len() >= 1,
        forall|i: int| 0 <= i < gs.len() ==> !(#[trigger] gs[i]).contains('/'),
    ensures
        segments(join_segments(gs)) == gs,
    decreases gs.len(),
{
    if gs.len() == 1 {
        lemma_segments_single(gs[0]);
        assert(seq![gs[0]] =~= gs);
    } else {
        let init = gs.drop_last();
        lemma_segments_of_join(init);
        lemma_segments_concat(join_segments(init), gs.last());
        lemma_segments_single(gs.last());
        assert(init + seq![gs.last()] =~= gs);
    }
}

/// The first character of joined segments: that of the first segment, or the
/// separator after an empty first segment.
proof fn lemma_join_segments_first(gs: Seq<Seq<char>>)
    requires
        gs.len() >= 1,
        gs[0].len() > 0 || gs.len() >= 2,
    ensures
        join_segments(gs).len() > 0,
        join_segments(gs)[0] == if gs[0].len() > 0 { gs[0][0] } else { '/' },
    decreases gs.len(),
{
    if gs.len() >= 2 {
        let init = gs.drop_last();
        if init.len() >= 2 || init[0].len() > 0 {
            lemma_join_segments_first(init);
        } else {
            assert(join_segments(init) == init[0]);
        }
    }
}

/// Named segments below `t` depend only on the first `t` segments.
proof fn lemma_live_below_prefix_segments(s: Seq<Seq<char>>, t: int, m: int)
    requires
        0 <= m <= t <= s.len(),
    ensures
        live_below(s.subrange(0, t), m) == live_below(s, m),
    decreases m,
{
    if m > 0 {
        lemma_live_below_prefix_segments(s, t, m - 1);
        assert(s.subrange(0, t)[m - 1] == s[m - 1]);
    }
}

/// Every named segment below `n` is listed.
proof fn lemma_live_below_complete(segs: Seq<Seq<char>>, n: int)
    requires
        0 <= n <= segs.len(),
    ensures
        forall|i: int|
            0 <= i < n && is_live(segs, i) ==> exists|k: int|
                0 <= k < live_below(segs, n).len() && live_below(segs, n)[k] == i,
    decreases n,
{
    if n > 0 {
        lemma_live_below_complete(segs, n - 1);
        let r = live_below(segs, n - 1);
        assert forall|i: int| 0 <= i < n && is_live(segs, i) implies exists|k: int|
            0 <= k < live_below(segs, n).len() && live_below(segs, n)[k] == i by {
            if i < n - 1 {
                let k = choose|k: int| 0 <= k < r.len() && r[k] == i;
                assert(live_below(segs, n)[k] == i);
            } else {
                assert(live_below(segs, n)[r.len() as int] == i);
            }
        }
    }
}

/// The parent of a plain relative path joined to a base still starts with
/// the base.
pub proof fn lemma_parent_of_join(base: Seq<char>, rel: Seq<char>)
    requires
        is_plain_relative(rel),
    ensures
        spec_parent(spec_join(base, rel)) is Some,
        spec_starts_with(spec_parent(spec_join(base, rel))->Some_0, base),
{
    let j = spec_join(base, rel);
    let sr = segments(rel);
    lemma_segments_nonempty(rel);
    let a = if base.len() > 0 && base.last() == '/' { base.drop_last() } else { base };
    let sa = if base.len() == 0 { Seq::<Seq<char>>::empty() } else { segments(a) };
    let s = sa + sr;
    assert(segments(j) == s) by {
        if base.len() == 0 {
            assert(s =~= sr);
        } else {
            assert(j =~= a + seq!['/'] + rel);
            lemma_segments_concat(a, rel);
        }
    }
    lemma_live_all(sa, sr, sr.len() as int);
    let la = live(sa);
    let l = live(s);
    assert(l == la + Seq::new(sr.len(), |i: int| sa.len() + i));
    let n = l.len() as int;
    assert(n == la.len() + sr.len());
    assert(n >= 1);
    // what starts with `base` is what has its components as a prefix
    let cb = components(base);
    if base.len() == 0 {
        assert(segments(base) =~= seq![Seq::<char>::empty()]);
        assert(!is_live(segments(base), 0));
        assert(live_below(segments(base), 0) =~= Seq::<int>::empty());
        assert(cb =~= Seq::<Seq<char>>::empty());
    } else {
        lemma_segments_nonempty(a);
        if base.last() == '/' {
            assert(base =~= a.push('/'));
            lemma_named_trailing_separator(a);
        }
        assert(named_components(base) == named_components(a));
    }
    let q = raw_prefix(j, n - 1);
    assert(spec_parent(j) == Some(q));
    assert(is_absolute(j) == is_absolute(base)) by {
        if base.len() > 0 {
            if a.len() == 0 {
                assert(j[0] == '/');
                assert(base[0] == '/');
            } else {
                assert(j[0] == a[0]);
                assert(base[0] == a[0]);
            }
        }
    }
    lemma_live_below_facts(sa, sa.len() as int);
    if n - 1 == 0 {
        assert(la.len() == 0);
        if base.len() > 0 {
            assert(named_components(base) =~= Seq::<Seq<char>>::empty());
        }
        if is_absolute(base) {
            assert(q =~= seq!['/']);
            assert(segments(q) =~= seq![Seq::<char>::empty(), Seq::<char>::empty()]) by {
                assert(q.drop_last() =~= Seq::<char>::empty());
                assert(q.last() == '/');
                assert(segments(Seq::<char>::empty()) =~= seq![Seq::<char>::empty()]);
            }
            assert(!is_live(segments(q), 0));
            assert(!is_live(segments(q), 1));
            assert(live_below(segments(q), 0) =~= Seq::<int>::empty());
            assert(live_below(segments(q), 1) =~= Seq::<int>::empty());
            assert(live_below(segments(q), 2) =~= Seq::<int>::empty());
            assert(live(segments(q)) =~= Seq::<int>::empty());
            assert(cb =~= seq![seq!['/']]);
            assert(components(q).take(1) =~= seq![seq!['/']]);
        } else {
            assert(cb =~= Seq::<Seq<char>>::empty());
            assert(components(q).take(0) =~= Seq::<Seq<char>>::empty());
        }
    } else {
        let t = l[n - 2] + 1;
        lemma_live_below_facts(s, s.len() as int);
        assert(0 < t <= s.len());
        let gs = s.subrange(0, t);
        assert(q == join_segments(gs));
        lemma_segments_no_separator(j);
        assert forall|i: int| 0 <= i < gs.len() implies !(#[trigger] gs[i]).contains('/') by {
            assert(gs[i] == s[i]);
        }
        lemma_segments_of_join(gs);
        // the named segments of q are those of j below t
        lemma_live_below_prefix_segments(s, t, t);
        assert(live(segments(q)) == live_below(s, t));
        // which begin with those of a
        assert(live_below(s, t).len() >= la.len() && live_below(s, t).take(la.len() as int) == la) by {
            if sr.len() >= 2 {
                assert(t >= sa.len());
                lemma_live_below_prefix(s, sa.len() as int, t);
                lemma_live_below_append(sa, sr, sa.len() as int);
            } else {
                assert(l[n - 2] == la[la.len() - 1]);
                lemma_live_below_prefix(s, t, sa.len() as int);
                lemma_live_below_append(sa, sr, sa.len() as int);
                lemma_live_below_prefix(s, t, s.len() as int);
                assert(live_below(s, t).len() == la.len()) by {
                    let lt = live_below(s, t);
                    lemma_live_below_facts(s, t);
                    assert(l.take(lt.len() as int) == lt);
                    assert(la.len() >= 1);
                    let last = la[la.len() - 1];
                    assert(is_live(sa, last));
                    assert(s[last] == sa[last]);
                    assert(is_live(s, last));
                    lemma_live_below_complete(s, t);
                    let k = choose|k: int| 0 <= k < lt.len() && lt[k] == last;
                    assert(l[k] == last);
                    if k < la.len() - 1 {
                        assert(l[k] == la[k]);
                        assert(la[k] < la[la.len() - 1]);
                    }
                    if lt.len() > la.len() {
                        assert(lt[la.len() as int] == l[la.len() as int]);
                    }
                }
                assert(la.take(la.len() as int) =~= la);
            }
        }
        let nq = named_components(q);
        assert(nq.take(la.len() as int) =~= la.map_values(|i: int| sa[i])) by {
            lemma_live_below_facts(s, t);
            assert forall|k: int| 0 <= k < la.len() implies #[trigger] nq[k] == sa[la[k]] by {
                assert(live(segments(q))[k] == la[k]);
                assert(segments(q)[la[k]] == s[la[k]]);
            }
        }
        if base.len() > 0 {
            assert(named_components(a) =~= la.map_values(|i: int| sa[i]));
        } else {
            assert(la =~= Seq::<int>::empty());
        }
        assert(is_absolute(q) == is_absolute(j)) by {
            if gs[0].len() > 0 || gs.len() >= 2 {
                lemma_join_segments_first(gs);
            }
            assert(gs[0] == s[0]);
            if is_absolute(j) {
                assert(segments(j)[0].len() == 0) by {
                    lemma_first_segment_of_absolute(j);
                }
                assert(gs.len() >= 2) by {
                    if t == 1 {
                        assert(is_live(s, l[n - 2]));
                    }
                }
            } else {
                lemma_first_segment(j);
                lemma_first_char_of_segments(j);
            }
        }
        if is_absolute(base) {
            assert(cb =~= seq![seq!['/']] + named_components(base));
            assert(components(q) =~= seq![seq!['/']] + nq);
            assert(components(q).take(cb.len() as int) =~= seq![seq!['/']] + nq.take(
                la.len() as int,
            ));
        } else {
            assert(cb =~= named_components(base));
            assert(components(q) =~= nq);
        }
    }
}

/// An absolute path's first segment is empty.
proof fn lemma_first_segment_of_absolute(s: Seq<char>)
    requires
        is_absolute(s),
    ensures
        segments(s)[0].len() == 0,
    decreases s.len(),
{
    lemma_segments_nonempty(s);
    let s1 = s.drop_last();
    if s.len() > 1 {
        lemma_first_segment_of_absolute(s1);
        lemma_segments_nonempty(s1);
        let g = segments(s1);
        if s.last() != '/' {
            assert(s1[0] == '/');
            assert(s1.contains('/'));
            lemma_segment_count(s1);
            assert(segments(s)[0] == g[0]);
        } else {
            assert(segments(s)[0] == g[0]);
        }
    } else {
        assert(s1 =~= Seq::<char>::empty());
        assert(segments(s1) =~= seq![Seq::<char>::empty()]);
        assert(s.last() == '/');
        assert(segments(s)[0] == segments(s1)[0]);
    }
}

/// A path with a separator has at least two segments.
proof fn lemma_segment_count(s: Seq<char>)
    requires
        s.contains('/'),
    ensures
        segments(s).len() >= 2,
    decreases s.len(),
{
    lemma_segments_nonempty(s.drop_last());
    if s.last() != '/' {
        assert(s.drop_last().contains('/')) by {
            let k = choose|k: int| 0 <= k < s.len() && s[k] == '/';
            assert(k < s.len() - 1);
            assert(s.drop_last()[k] == '/');
        }
        lemma_segment_count(s.drop_last());
    }
}

/// The first segment of a relative path starts with the path's first
/// character.
proof fn lemma_first_char_of_segments(s: Seq<char>)
    requires
        s.len() > 0,
        s[0] != '/',
    ensures
        segments(s)[0].len() > 0,
        segments(s)[0][0] == s[0],
    decreases s.len(),
{
    lemma_first_segment(s);
    lemma_segments_nonempty(s);
    if s.len() > 1 {
        lemma_first_char_of_segments(s.drop_last());
        lemma_segments_nonempty(s.drop_last());
    } else {
        assert(s.drop_last() =~= Seq::<char>::empty());
    }
}

/// A name with no separator that is neither empty nor `.` is a plain
/// relative path.
pub proof fn lemma_plain_single(s: Seq<char>)
    requires
        !s.contains('/'),
        s.len() > 0,
        s != dot(),
    ensures
        is_plain_relative(s),
{
    lemma_segments_single(s);
    assert(s[0] != '/') by {
        if s[0] == '/' {
            assert(s.contains('/'));
        }
    }
}

/// Plain relative paths joined with a separator make a plain relative path.
pub proof fn lemma_plain_concat(a: Seq<char>, b: Seq<char>)
    requires
        is_plain_relative(a),
        is_plain_relative(b),
    ensures
        is_plain_relative(a + seq!['/'] + b),
{
    lemma_segments_concat(a, b);
    lemma_segments_nonempty(a);
    assert(segments(a)[0].len() > 0);
    assert(a.len() > 0) by {
        if a.len() == 0 {
            assert(segments(a) =~= seq![Seq::<char>::empty()]);
        }
    }
    assert((a + seq!['/'] + b)[0] == a[0]);
    let sa = segments(a);
    let sb = segments(b);
    assert forall|i: int| 0 <= i < (sa + sb).len() implies (#[trigger] (sa + sb)[i]).len() > 0
        && (sa + sb)[i] != dot() by {
        if i < sa.len() {
            assert((sa + sb)[i] == sa[i]);
        } else {
            assert((sa + sb)[i] == sb[i - sa.len()]);
        }
    }
}

/// Where two runs of segments agree on which are named, the named ones of
/// the second run, from `d` on, are those of the first moved by `d`.
proof fn lemma_live_shift(x: Seq<Seq<char>>, y: Seq<Seq<char>>, d: int, n: int)
    requires
        0 <= n <= x.len(),
        0 <= d,
        d + n <= y.len(),
        forall|i: int| 0 <= i < n ==> is_live(x, i) == is_live(y, d + i),
    ensures
        live_below(y, d + n) == live_below(y, d) + live_below(x, n).map_values(|i: int| i + d),
    decreases n,
{
    if n == 0 {
        assert(live_below(x, 0) =~= Seq::<int>::empty());
        assert(live_below(y, d) + Seq::<int>::empty().map_values(|i: int| i + d) =~= live_below(
            y,
            d,
        ));
    } else {
        lemma_live_shift(x, y, d, n - 1);
        assert(is_live(x, n - 1) == is_live(y, d + (n - 1)));
        let lx = live_below(x, n - 1);
        assert(lx.push(n - 1).map_values(|i: int| i + d) =~= lx.map_values(|i: int| i + d).push(
            d + n - 1,
        ));
        assert(live_below(y, d + n) =~= live_below(y, d) + live_below(x, n).map_values(
            |i: int| i + d,
        ));
    }
}

/// The named segments below the `m`-th named one are the first `m`.
proof fn lemma_live_below_at(segs: Seq<Seq<char>>, m: int)
    requires
        0 <= m < live(segs).len(),
    ensures
        live_below(segs, live(segs)[m]) == live(segs).take(m),
{
    let l = live(segs);
    let n = segs.len() as int;
    lemma_live_below_facts(segs, n);
    let j = l[m];
    let lb = live_below(segs, j);
    lemma_live_below_prefix(segs, j, n);
    lemma_live_below_facts(segs, j);
    lemma_live_below_complete(segs, j);
    if lb.len() > m {
        assert(lb[m] == l[m]);
    }
    if m > 0 {
        assert(is_live(segs, l[m - 1]));
        assert(l[m - 1] < j);
        let k = choose|k: int| 0 <= k < lb.len() && lb[k] == l[m - 1];
        assert(lb[k] == l[k]);
        if k < m - 1 {
            assert(l[k] < l[m - 1]);
        }
        if k > m - 1 {
            assert(l[m - 1] < l[k]);
        }
    }
    assert(lb.len() == m);
    assert(lb =~= l.take(m));
}

/// The named segments up to and including the last named one are all of
/// them.
proof fn lemma_live_below_last(segs: Seq<Seq<char>>)
    requires
        live(segs).len() > 0,
    ensures
        live_below(segs, live(segs).last() + 1) == live(segs),
{
    let l = live(segs);
    let n = segs.len() as int;
    lemma_live_below_facts(segs, n);
    let t = l.last() + 1;
    let lb = live_below(segs, t);
    lemma_live_below_prefix(segs, t, n);
    lemma_live_below_complete(segs, t);
    assert(is_live(segs, l.last()));
    let k = choose|k: int| 0 <= k < lb.len() && lb[k] == l.last();
    assert(lb[k] == l[k]);
    if k < l.len() - 1 {
        assert(l[k] < l[l.len() - 1]);
    }
    assert(lb.len() == l.len());
    assert(lb =~= l);
}

/// A character not in a path is in none of its segments.
proof fn lemma_segments_avoid(s: Seq<char>, c: char)
    requires
        !s.contains(c),
    ensures
        forall|i: int| 0 <= i < segments(s).len() ==> !(#[trigger] segments(s)[i]).contains(c),
    decreases s.len(),
{
    lemma_segments_nonempty(s);
    if s.len() > 0 {
        let s1 = s.drop_last();
        assert(!s1.contains(c)) by {
            if s1.contains(c) {
                let k = choose|k: int| 0 <= k < s1.len() && s1[k] == c;
                assert(s[k] == c);
            }
        }
        lemma_segments_avoid(s1, c);
        lemma_segments_nonempty(s1);
        let g = segments(s1);
        assert(s.last() != c) by {
            assert(s[s.len() - 1] == s.last());
        }
        if s.last() != '/' {
            let u = g.update(g.len() - 1, g.last().push(s.last()));
            assert forall|i: int| 0 <= i < u.len() implies !(#[trigger] u[i]).contains(c) by {
                if i == g.len() - 1 {
                    if u[i].contains(c) {
                        let k = choose|k: int| 0 <= k < u[i].len() && u[i][k] == c;
                        if k < g.last().len() {
                            assert(g.last()[k] == c);
                            assert(g[g.len() - 1].contains(c));
                        }
                    }
                }
            }
        } else {
            assert(!Seq::<char>::empty().contains(c));
        }
    } else {
        assert(!Seq::<char>::empty().contains(c));
    }
}

/// Segments that avoid a character other than the separator, joined, avoid
/// it too.
proof fn lemma_join_segments_avoid(gs: Seq<Seq<char>>, c: char)
    requires
        c != '/',
        forall|i: int| 0 <= i < gs.len() ==> !(#[trigger] gs[i]).contains(c),
    ensures
        !join_segments(gs).contains(c),
    decreases gs.len(),
{
    if gs.len() == 1 {
        assert(!gs[0].contains(c));
    } else if gs.len() > 1 {
        let init = gs.drop_last();
        lemma_join_segments_avoid(init, c);
        let a = join_segments(init);
        let b = gs.last();
        assert(!b.contains(c)) by {
            assert(gs[gs.len() - 1] == b);
        }
        let j = a + seq!['/'] + b;
        if j.contains(c) {
            let k = choose|k: int| 0 <= k < j.len() && j[k] == c;
            if k < a.len() {
                assert(a[k] == c);
            } else if k > a.len() {
                assert(b[k - a.len() - 1] == c);
            }
        }
    }
}

/// A path that starts with a non-empty `base` is absolute exactly when
/// `base` is, and its named components begin with those of `base`.
proof fn lemma_starts_with_named(p: Seq<char>, base: Seq<char>)
    requires
        spec_starts_with(p, base),
        base.len() > 0,
    ensures
        is_absolute(p) == is_absolute(base),
        named_components(base).len() <= named_components(p).len(),
        named_components(p).take(named_components(base).len() as int) == named_components(base),
        components(base).len() == named_components(base).len() + if is_absolute(base) {
            1int
        } else {
            0int
        },
        is_absolute(base) || named_components(base).len() >= 1,
{
    let nb = named_components(base);
    let np = named_components(p);
    lemma_segments_no_separator(p);
    lemma_segments_no_separator(base);
    let sp = segments(p);
    let lp = live(sp);
    lemma_live_below_facts(sp, sp.len() as int);
    let sb = segments(base);
    let lb = live(sb);
    lemma_live_below_facts(sb, sb.len() as int);
    let slash = seq!['/'];
    assert(slash.contains('/')) by {
        assert(slash[0] == '/');
    }
    if is_absolute(base) {
        assert(components(base) =~= seq![slash] + nb);
        assert(components(base)[0] == slash);
        if !is_absolute(p) {
            assert(components(p) == np);
            assert(components(p)[0] == slash);
            assert(np[0] == sp[lp[0]]);
            assert(!sp[lp[0]].contains('/'));
        }
        assert(components(p) =~= seq![slash] + np);
        assert forall|i: int| 0 <= i < nb.len() implies #[trigger] np[i] == nb[i] by {
            assert(components(p).take(components(base).len() as int)[i + 1] == components(base)[i
                + 1]);
        }
        assert(np.take(nb.len() as int) =~= nb);
    } else {
        lemma_first_segment(base);
        assert(is_live(sb, 0));
        lemma_segments_nonempty(base);
        lemma_live_below_complete(sb, sb.len() as int);
        assert(0 <= 0 < sb.len() && is_live(sb, 0));
        let k0 = choose|k: int| 0 <= k < lb.len() && lb[k] == 0;
        assert(lb.len() >= 1);
        assert(components(base) == nb);
        assert(nb[0] == sb[lb[0]]);
        assert(!sb[lb[0]].contains('/'));
        if is_absolute(p) {
            assert(components(p) =~= seq![slash] + np);
            assert(components(p)[0] == slash);
            assert(components(p).take(components(base).len() as int)[0] == components(base)[0]);
        }
        assert(components(p) == np);
        assert(np.take(nb.len() as int) == nb);
    }
}

/// The text of a path from its `m`-th named segment on, when that is not
/// its very first segment: a relative path whose named components are the
/// path's from the `m`-th on, and whose first segment is a plain name.
proof fn lemma_raw_suffix_named(p: Seq<char>, m: int)
    requires
        0 <= m < live(segments(p)).len(),
        is_absolute(p) || m >= 1,
    ensures
        raw_suffix(p, m).len() > 0,
        !is_absolute(raw_suffix(p, m)),
        segments(raw_suffix(p, m))[0].len() > 0,
        segments(raw_suffix(p, m))[0] != dot(),
        named_components(raw_suffix(p, m)) == named_components(p).skip(m),
{
    let segs = segments(p);
    let l = live(segs);
    let n = segs.len() as int;
    lemma_live_below_facts(segs, n);
    let t = l[m];
    let e = l.last() + 1;
    if m < l.len() - 1 {
        assert(l[m] < l[l.len() - 1]);
    }
    let gs = segs.subrange(t, e);
    let r = raw_suffix(p, m);
    assert(r == join_segments(gs));
    if is_absolute(p) {
        lemma_first_segment_of_absolute(p);
        assert(!is_live(segs, 0));
    } else {
        assert(l[0] < l[m]);
    }
    assert(t >= 1);
    assert(is_live(segs, t));
    assert(gs.len() >= 1);
    lemma_segments_no_separator(p);
    assert forall|i: int| 0 <= i < gs.len() implies !(#[trigger] gs[i]).contains('/') by {
        assert(gs[i] == segs[t + i]);
    }
    lemma_segments_of_join(gs);
    assert(gs[0] == segs[t]);
    assert forall|i: int| 0 <= i < gs.len() implies is_live(gs, i) == is_live(segs, t + i) by {
        assert(gs[i] == segs[t + i]);
    }
    lemma_live_shift(gs, segs, t, gs.len() as int);
    lemma_live_below_last(segs);
    lemma_live_below_at(segs, m);
    let lg = live(gs);
    assert(t + gs.len() == e);
    assert(l == l.take(m) + lg.map_values(|k: int| k + t));
    assert(lg.len() == l.len() - m);
    assert forall|i: int| 0 <= i < lg.len() implies #[trigger] lg[i] + t == l[m + i] by {
        assert((l.take(m) + lg.map_values(|k: int| k + t))[m + i] == lg[i] + t);
    }
    let nr = named_components(r);
    assert(segments(r) == gs);
    lemma_live_below_facts(gs, gs.len() as int);
    assert forall|i: int| 0 <= i < nr.len() implies #[trigger] nr[i] == named_components(p).skip(
        m,
    )[i] by {
        assert(nr[i] == gs[lg[i]]);
        assert(gs[lg[i]] == segs[t + lg[i]]);
        assert(lg[i] + t == l[m + i]);
    }
    assert(nr =~= named_components(p).skip(m));
    lemma_join_segments_first(gs);
    assert(gs[0][0] != '/') by {
        if gs[0][0] == '/' {
            assert(gs[0].contains('/'));
        }
    }
}

/// Joining a relative path whose first segment is a plain name to a
/// non-empty base gives the base's named components followed by the path's.
proof fn lemma_named_join_relative(base: Seq<char>, r: Seq<char>)
    requires
        base.len() > 0,
        r.len() > 0,
        !is_absolute(r),
        segments(r)[0].len() > 0,
        segments(r)[0] != dot(),
    ensures
        named_components(spec_join(base, r)) == named_components(base) + named_components(r),
        is_absolute(spec_join(base, r)) == is_absolute(base),
{
    let a = if base.last() == '/' { base.drop_last() } else { base };
    let j = spec_join(base, r);
    assert(j =~= a + seq!['/'] + r);
    lemma_segments_concat(a, r);
    lemma_segments_nonempty(a);
    lemma_segments_nonempty(r);
    let sa = segments(a);
    let sr = segments(r);
    let s = sa + sr;
    assert forall|i: int| 0 <= i < sr.len() implies is_live(sr, i) == is_live(s, sa.len() + i) by {
        assert(s[sa.len() + i] == sr[i]);
    }
    lemma_live_shift(sr, s, sa.len() as int, sr.len() as int);
    lemma_live_below_append(sa, sr, sa.len() as int);
    lemma_live_below_facts(sa, sa.len() as int);
    lemma_live_below_facts(sr, sr.len() as int);
    let la = live(sa);
    let lr = live(sr);
    assert(live(s) == la + lr.map_values(|i: int| i + sa.len()));
    if base.last() == '/' {
        assert(base =~= a.push('/'));
        lemma_named_trailing_separator(a);
    }
    assert(named_components(base) == named_components(a));
    let nj = named_components(j);
    let want = named_components(a) + named_components(r);
    assert forall|i: int| 0 <= i < nj.len() implies #[trigger] nj[i] == want[i] by {
        if i < la.len() {
            assert(live(s)[i] == la[i]);
            assert(s[la[i]] == sa[la[i]]);
        } else {
            let k = i - la.len();
            assert(live(s)[i] == lr[k] + sa.len());
            assert(s[lr[k] + sa.len()] == sr[lr[k]]);
        }
    }
    assert(nj =~= want);
    if a.len() == 0 {
        assert(j[0] == '/');
        assert(base[0] == '/');
    } else {
        assert(j[0] == a[0]);
        assert(base[0] == a[0]);
    }
}

/// The text of a path through its last named segment names the same
/// components as the path.
proof fn lemma_raw_prefix_all(p: Seq<char>)
    ensures
        components(raw_prefix(p, live(segments(p)).len() as int)) == components(p),
{
    let segs = segments(p);
    let l = live(segs);
    let n = l.len() as int;
    let r = raw_prefix(p, n);
    let slash = seq!['/'];
    lemma_segments_nonempty(p);
    lemma_live_below_facts(segs, segs.len() as int);
    if n == 0 {
        assert(named_components(p) =~= Seq::<Seq<char>>::empty());
        if is_absolute(p) {
            assert(r =~= slash);
            assert(segments(r) =~= seq![Seq::<char>::empty(), Seq::<char>::empty()]) by {
                assert(r.drop_last() =~= Seq::<char>::empty());
                assert(segments(Seq::<char>::empty()) =~= seq![Seq::<char>::empty()]);
            }
            assert(live_below(segments(r), 0) =~= Seq::<int>::empty());
            assert(live_below(segments(r), 1) =~= Seq::<int>::empty());
            assert(live(segments(r)) =~= Seq::<int>::empty());
            assert(components(r) =~= seq![slash]);
            assert(components(p) =~= seq![slash]);
        } else {
            assert(r =~= Seq::<char>::empty());
            assert(segments(r) =~= seq![Seq::<char>::empty()]);
            assert(live_below(segments(r), 0) =~= Seq::<int>::empty());
            assert(live(segments(r)) =~= Seq::<int>::empty());
            assert(components(r) =~= Seq::<Seq<char>>::empty());
        }
    } else {
        let e = l.last() + 1;
        let gs = segs.subrange(0, e);
        assert(r == join_segments(gs));
        lemma_segments_no_separator(p);
        assert forall|i: int| 0 <= i < gs.len() implies !(#[trigger] gs[i]).contains('/') by {
            assert(gs[i] == segs[i]);
        }
        lemma_segments_of_join(gs);
        lemma_live_below_prefix_segments(segs, e, e);
        lemma_live_below_last(segs);
        assert(live(segments(r)) == l);
        let nr = named_components(r);
        assert forall|i: int| 0 <= i < nr.len() implies #[trigger] nr[i] == named_components(p)[i] by {
            assert(gs[l[i]] == segs[l[i]]);
        }
        assert(nr =~= named_components(p));
        assert(is_absolute(r) == is_absolute(p)) by {
            if is_absolute(p) {
                lemma_first_segment_of_absolute(p);
                assert(!is_live(segs, 0));
                assert(l[0] >= 1);
                assert(l[0] <= l[n - 1]) by {
                    if n > 1 {
                        assert(l[0] < l[n - 1]);
                    }
                }
                assert(gs.len() >= 2);
                lemma_join_segments_first(gs);
            } else {
                assert(p.len() > 0) by {
                    if p.len() == 0 {
                        assert(segs =~= seq![Seq::<char>::empty()]);
                        assert(!is_live(segs, 0));
                    }
                }
                lemma_first_char_of_segments(p);
                assert(gs[0] == segs[0]);
                lemma_join_segments_first(gs);
            }
        }
        if is_absolute(p) {
            assert(components(r) =~= seq![slash] + nr);
            assert(components(p) =~= seq![slash] + named_components(p));
        } else {
            assert(components(r) == nr);
        }
    }
}

/// What stripping a prefix leaves, joined back to that prefix, names the
/// same path, component by component; when the prefix is not empty, what is
/// left is a relative path.
pub proof fn lemma_join_strip(p: Seq<char>, base: Seq<char>)
    requires
        spec_starts_with(p, base),
    ensures
        spec_strip_prefix(p, base) is Some,
        base.len() > 0 ==> !is_absolute(spec_strip_prefix(p, base)->Some_0),
        components(spec_join(base, spec_strip_prefix(p, base)->Some_0)) == components(p),
{
    if base.len() == 0 {
        assert(segments(base) =~= seq![Seq::<char>::empty()]);
        assert(!is_live(segments(base), 0));
        assert(live_below(segments(base), 0) =~= Seq::<int>::empty());
        assert(live(segments(base)) =~= Seq::<int>::empty());
        assert(components(base) =~= Seq::<Seq<char>>::empty());
        let r = raw_prefix(p, live(segments(p)).len() as int);
        assert(spec_strip_prefix(p, base) == Some(r));
        assert(spec_join(base, r) =~= r);
        lemma_raw_prefix_all(p);
    } else {
        lemma_join_strip_nonempty(p, base);
    }
}

proof fn lemma_join_strip_nonempty(p: Seq<char>, base: Seq<char>)
    requires
        spec_starts_with(p, base),
        base.len() > 0,
    ensures
        spec_strip_prefix(p, base) is Some,
        !is_absolute(spec_strip_prefix(p, base)->Some_0),
        components(spec_join(base, spec_strip_prefix(p, base)->Some_0)) == components(p),
{
    lemma_starts_with_named(p, base);
    let nb = named_components(base);
    let np = named_components(p);
    let m = nb.len() as int;
    let k = components(base).len() as int;
    assert(k >= 1);
    let r = raw_suffix(p, m);
    assert(spec_strip_prefix(p, base) == Some(r));
    let l = live(segments(p));
    let j = spec_join(base, r);
    let slash = seq!['/'];
    if m >= l.len() {
        assert(r =~= Seq::<char>::empty());
        assert(np.take(m) =~= np);
        if base.last() == '/' {
            assert(j =~= base);
        } else {
            assert(j =~= base.push('/'));
            lemma_named_trailing_separator(base);
            assert(j[0] == base[0]);
        }
        assert(named_components(j) == np);
        assert(is_absolute(j) == is_absolute(base));
    } else {
        lemma_raw_suffix_named(p, m);
        lemma_named_join_relative(base, r);
        assert(nb + np.skip(m) =~= np);
        assert(named_components(j) == np);
    }
    if is_absolute(p) {
        assert(components(j) =~= seq![slash] + np);
        assert(components(p) =~= seq![slash] + np);
    } else {
        assert(components(j) == np);
        assert(components(p) == np);
    }
}

/// Stripping a prefix adds no character other than the separator: one
/// absent from the path is absent from what is left.
pub proof fn lemma_strip_avoids(p: Seq<char>, base: Seq<char>, c: char)
    requires
        c != '/',
        !p.contains(c),
    ensures
        spec_strip_prefix(p, base) matches Some(r) ==> !r.contains(c),
{
    let segs = segments(p);
    let l = live(segs);
    lemma_segments_avoid(p, c);
    lemma_live_below_facts(segs, segs.len() as int);
    if spec_starts_with(p, base) {
        let k = components(base).len() as int;
        if k == 0 {
            let n = l.len() as int;
            let r = raw_prefix(p, n);
            if n <= 0 {
                if r.contains(c) {
                    let i = choose|i: int| 0 <= i < r.len() && r[i] == c;
                }
            } else {
                let gs = segs.subrange(0, l[n - 1] + 1);
                assert forall|i: int| 0 <= i < gs.len() implies !(#[trigger] gs[i]).contains(c) by {
                    assert(gs[i] == segs[i]);
                }
                lemma_join_segments_avoid(gs, c);
            }
        } else {
            let m = k - if is_absolute(p) { 1int } else { 0int };
            if m < l.len() {
                if m < l.len() - 1 && m >= 0 {
                    assert(l[m] < l[l.len() - 1]);
                }
                let gs = segs.subrange(l[m], l.last() + 1);
                assert forall|i: int| 0 <= i < gs.len() implies !(#[trigger] gs[i]).contains(c) by {
                    assert(gs[i] == segs[l[m] + i]);
                }
                lemma_join_segments_avoid(gs, c);
            }
        }
    }
}

// ---------------------------------------------------------------------------
// Executable operations
// ---------------------------------------------------------------------------

/// Equality of two character vectors.
pub fn chars_eq(a: &Vec<char>, b: &Vec<char>) -> (r: bool)
    ensures
        r == (a@ == b@),
{
    if a.len() != b.len() {
        return false;
    }
    let mut i: usize = 0;
    while i < a.len()
        invariant
            i <= a.len(),
            a.len() == b.len(),
            forall|j: int| 0 <= j < i ==> a@[j] == b@[j],
        decreases a.len() - i,
    {
        if a[i] != b[i] {
            return false;
        }
        i = i + 1;
    }
    assert(a@ =~= b@);
    true
}

/// Splits a path into its segments.
pub fn split_segments(p: &Vec<char>) -> (segs: Vec<Vec<char>>)
    ensures
        views(segs@) == segments(p@),
{
    let mut done: Vec<Vec<char>> = Vec::new();
    let mut cur: Vec<char> = Vec::new();
    let mut i: usize = 0;
    while i < p.len()
        invariant
            i <= p.len(),
            views(done@).push(cur@) == segments(p@.take(i as int)),
        decreases p.len() - i,
    {
        let c = p[i];
        proof {
            assert(p@.take(i + 1).drop_last() == p@.take(i as int));
            assert(p@.take(i + 1).last() == c);
            lemma_segments_nonempty(p@.take(i as int));
        }
        if c == '/' {
            let finished = cur;
            done.push(finished);
            cur = Vec::new();
            assert(views(done@).push(cur@) =~= segments(p@.take(i + 1)));
        } else {
            let ghost before = views(done@).push(cur@);
            cur.push(c);
            assert(views(done@).push(cur@) =~= before.update(
                before.len() - 1,
                before.last().push(c),
            ));
        }
        i = i + 1;
    }
    assert(p@.take(p.len() as int) == p@);
    let ghost before = views(done@).push(cur@);
    done.push(cur);
    assert(views(done@) =~= before);
    done
}


/// Appends the characters of `b` to `a`.
pub fn extend_chars(a: &mut Vec<char>, b: &Vec<char>)
    ensures
        final(a)@ == old(a)@ + b@,
{
    let mut i: usize = 0;
    while i < b.len()
        invariant
            i <= b.len(),
            a@ == old(a)@ + b@.take(i as int),
        decreases b.len() - i,
    {
        a.push(b[i]);
        assert(b@.take(i + 1) == b@.take(i as int).push(b@[i as int]));
        i = i + 1;
    }
    assert(b@.take(b.len() as int) == b@);
}

/// Indices of the segments that name components.
pub fn live_indices(segs: &Vec<Vec<char>>) -> (l: Vec<usize>)
    ensures
        l@.map_values(|i: usize| i as int) == live(views(segs@)),
{
    let ghost gs = views(segs@);
    let mut l: Vec<usize> = Vec::new();
    let mut i: usize = 0;
    while i < segs.len()
        invariant
            i <= segs.len(),
            gs == views(segs@),
            l@.map_values(|i: usize| i as int) == live_below(gs, i as int),
        decreases segs.len() - i,
    {
        let g = &segs[i];
        let is_dot = g.len() == 1 && g[0] == '.';
        assert(is_dot == (gs[i as int] == dot())) by {
            if gs[i as int] == dot() {
                assert(gs[i as int].len() == 1);
            }
            if is_dot {
                assert(gs[i as int] =~= dot());
            }
        }
        let ghost before = l@;
        if g.len() > 0 && (!is_dot || i == 0) {
            l.push(i);
            assert(l@.map_values(|i: usize| i as int) =~= before.map_values(|i: usize| i as int).push(i as int));
        }
        i = i + 1;
    }
    l
}

/// Joins `segs[lo..hi]` with separators.
pub fn join_segment_range(segs: &Vec<Vec<char>>, lo: usize, hi: usize) -> (r: Vec<char>)
    requires
        lo <= hi <= segs.len(),
    ensures
        r@ == join_segments(views(segs@).subrange(lo as int, hi as int)),
{
    let ghost gs = views(segs@);
    let mut r: Vec<char> = Vec::new();
    if lo == hi {
        assert(gs.subrange(lo as int, hi as int).len() == 0);
        return r;
    }
    extend_chars(&mut r, &segs[lo]);
    assert(r@ =~= join_segments(gs.subrange(lo as int, lo + 1)));
    let mut j: usize = lo + 1;
    while j < hi
        invariant
            lo < j <= hi <= segs.len(),
            gs == views(segs@),
            r@ == join_segments(gs.subrange(lo as int, j as int)),
        decreases hi - j,
    {
        r.push('/');
        extend_chars(&mut r, &segs[j]);
        assert(gs.subrange(lo as int, j + 1).drop_last() =~= gs.subrange(lo as int, j as int));
        j = j + 1;
    }
    r
}

/// The components of a path, as character vectors.
pub fn components_of(p: &Vec<char>) -> (c: Vec<Vec<char>>)
    ensures
        views(c@) == components(p@),
{
    let segs = split_segments(p);
    let l = live_indices(&segs);
    let ghost gs = views(segs@);
    let ghost lv = live(gs);
    proof {
        lemma_live_below_facts(gs, gs.len() as int);
    }
    let mut c: Vec<Vec<char>> = Vec::new();
    let absolute = p.len() > 0 && p[0] == '/';
    if absolute {
        let mut root: Vec<char> = Vec::new();
        root.push('/');
        c.push(root);
    }
    let ghost start = views(c@);
    let mut k: usize = 0;
    while k < l.len()
        invariant
            k <= l.len(),
            gs == views(segs@),
            lv == live(gs),
            l@.map_values(|i: usize| i as int) == lv,
            forall|j: int| 0 <= j < lv.len() ==> 0 <= #[trigger] lv[j] < gs.len(),
            views(c@) == start + lv.take(k as int).map_values(|i: int| gs[i]),
        decreases l.len() - k,
    {
        let idx = l[k];
        assert(lv[k as int] == idx as int);
        let mut seg: Vec<char> = Vec::new();
        extend_chars(&mut seg, &segs[idx]);
        assert(seg@ == gs[idx as int]);
        let ghost before = views(c@);
        c.push(seg);
        assert(views(c@) =~= before.push(gs[idx as int]));
        assert(lv.take(k + 1).map_values(|i: int| gs[i]) =~= lv.take(k as int).map_values(|i: int| gs[i]).push(gs[idx as int]));
        assert(views(c@) =~= start + lv.take(k + 1).map_values(|i: int| gs[i]));
        k = k + 1;
    }
    assert(lv.take(l.len() as int) =~= lv);
    if absolute {
        assert(start =~= seq![seq!['/']]);
    } else {
        assert(start =~= Seq::<Seq<char>>::empty());
    }
    assert(views(c@) =~= components(p@));
    c
}


/// The raw text of `p` through its `n`-th named segment (see `raw_prefix`).
fn raw_prefix_of(p: &Vec<char>, segs: &Vec<Vec<char>>, l: &Vec<usize>, n: usize) -> (r: Vec<char>)
    requires
        views(segs@) == segments(p@),
        l@.map_values(|i: usize| i as int) == live(segments(p@)),
        n <= l.len(),
    ensures
        r@ == raw_prefix(p@, n as int),
{
    let ghost gs = views(segs@);
    proof {
        lemma_live_below_facts(gs, gs.len() as int);
    }
    if n == 0 {
        let mut r: Vec<char> = Vec::new();
        if p.len() > 0 && p[0] == '/' {
            r.push('/');
            assert(r@ =~= seq!['/']);
        }
        r
    } else {
        let last = l[n - 1];
        assert(live(gs)[n - 1] == last as int);
        assert(last < segs.len());
        join_segment_range(segs, 0, last + 1)
    }
}

/// The raw text of `p` from its named segment `m` on (see `raw_suffix`).
fn raw_suffix_of(p: &Vec<char>, segs: &Vec<Vec<char>>, l: &Vec<usize>, m: usize) -> (r: Vec<char>)
    requires
        views(segs@) == segments(p@),
        l@.map_values(|i: usize| i as int) == live(segments(p@)),
    ensures
        r@ == raw_suffix(p@, m as int),
{
    let ghost gs = views(segs@);
    proof {
        lemma_live_below_facts(gs, gs.len() as int);
    }
    if m >= l.len() {
        Vec::new()
    } else {
        let first = l[m];
        let last = l[l.len() - 1];
        assert(live(gs)[m as int] == first as int);
        assert(live(gs).last() == last as int);
        assert(last < segs.len());
        assert(first <= last) by {
            if m < l.len() - 1 {
                assert(live(gs)[m as int] < live(gs)[l.len() - 1]);
            }
        }
        join_segment_range(segs, first, last + 1)
    }
}

/// Whether the first `n` entries of two component lists agree.
fn components_agree(a: &Vec<Vec<char>>, b: &Vec<Vec<char>>, n: usize) -> (r: bool)
    requires
        n <= a.len(),
        n <= b.len(),
    ensures
        r == (views(a@).take(n as int) == views(b@).take(n as int)),
{
    let mut i: usize = 0;
    while i < n
        invariant
            i <= n <= a.len(),
            n <= b.len(),
            forall|j: int| 0 <= j < i ==> a@[j]@ == b@[j]@,
        decreases n - i,
    {
        if !chars_eq(&a[i], &b[i]) {
            assert(views(a@).take(n as int)[i as int] != views(b@).take(n as int)[i as int]);
            return false;
        }
        i = i + 1;
    }
    assert(views(a@).take(n as int) =~= views(b@).take(n as int));
    true
}

/// `base.join(p)`.
pub fn join_path(base: &str, p: &str) -> (r: String)
    ensures
        r@ == spec_join(base@, p@),
{
    let b = chars_of(base);
    let q = chars_of(p);
    let mut out: Vec<char> = Vec::new();
    if q.len() > 0 && q[0] == '/' {
        extend_chars(&mut out, &q);
    } else {
        extend_chars(&mut out, &b);
        if b.len() > 0 && b[b.len() - 1] != '/' {
            out.push('/');
        }
        extend_chars(&mut out, &q);
    }
    proof {
        if !is_absolute(p@) && base@.len() > 0 && base@.last() != '/' {
            assert(out@ =~= base@ + seq!['/'] + p@);
        }
    }
    string_of(&out)
}

/// `p.starts_with(base)`, compared component by component.
pub fn path_starts_with(p: &str, base: &str) -> (r: bool)
    ensures
        r == spec_starts_with(p@, base@),
{
    let cp = components_of(&chars_of(p));
    let cb = components_of(&chars_of(base));
    if cb.len() > cp.len() {
        return false;
    }
    let r = components_agree(&cp, &cb, cb.len());
    assert(views(cb@).take(cb.len() as int) =~= views(cb@));
    r
}

/// `p.strip_prefix(base)`.
pub fn strip_path_prefix(p: &str, base: &str) -> (r: Option<String>)
    ensures
        r matches Some(s) ==> spec_strip_prefix(p@, base@) == Some(s@),
        r is None ==> spec_strip_prefix(p@, base@) is None,
{
    if !path_starts_with(p, base) {
        return None;
    }
    let pc = chars_of(p);
    let segs = split_segments(&pc);
    let l = live_indices(&segs);
    let k = components_of(&chars_of(base)).len();
    let rest = if k == 0 {
        raw_prefix_of(&pc, &segs, &l, l.len())
    } else if pc.len() > 0 && pc[0] == '/' {
        raw_suffix_of(&pc, &segs, &l, k - 1)
    } else {
        raw_suffix_of(&pc, &segs, &l, k)
    };
    Some(string_of(&rest))
}

/// `p.parent()`.
pub fn path_parent(p: &str) -> (r: Option<String>)
    ensures
        r matches Some(s) ==> spec_parent(p@) == Some(s@),
        r is None ==> spec_parent(p@) is None,
{
    let pc = chars_of(p);
    let segs = split_segments(&pc);
    let l = live_indices(&segs);
    if l.len() == 0 {
        None
    } else {
        let pre = raw_prefix_of(&pc, &segs, &l, l.len() - 1);
        Some(string_of(&pre))
    }
}

/// `p.file_name()`.
pub fn path_file_name(p: &str) -> (r: Option<String>)
    ensures
        r matches Some(s) ==> spec_file_name(p@) == Some(s@),
        r is None ==> spec_file_name(p@) is None,
{
    let pc = chars_of(p);
    let segs = split_segments(&pc);
    let l = live_indices(&segs);
    let ghost gs = views(segs@);
    proof {
        lemma_live_below_facts(gs, gs.len() as int);
    }
    if l.len() == 0 {
        return None;
    }
    let last = &segs[l[l.len() - 1]];
    assert(live(gs).last() == l@[l.len() - 1] as int);
    let is_dot = last.len() == 1 && last[0] == '.';
    let is_dot_dot = last.len() == 2 && last[0] == '.' && last[1] == '.';
    assert(is_dot == (last@ == dot())) by {
        if last@ == dot() { assert(last@.len() == 1); }
        if is_dot { assert(last@ =~= dot()); }
    }
    assert(is_dot_dot == (last@ == dot_dot())) by {
        if last@ == dot_dot() { assert(last@.len() == 2); }
        if is_dot_dot { assert(last@ =~= dot_dot()); }
    }
    if is_dot || is_dot_dot {
        None
    } else {
        Some(string_of(last))
    }
}

/// Replaces every `\` by `/`.
pub fn with_forward_slashes(s: &str) -> (r: String)
    ensures
        r@ == to_slashes(s@),
{
    let v = chars_of(s);
    let mut out: Vec<char> = Vec::new();
    let mut i: usize = 0;
    while i < v.len()
        invariant
            i <= v.len(),
            v@ == s@,
            out@ == to_slashes(s@).take(i as int),
        decreases v.len() - i,
    {
        let c = v[i];
        if c == '\\' {
            out.push('/');
        } else {
            out.push(c);
        }
        assert(to_slashes(s@).take(i + 1) =~= to_slashes(s@).take(i as int).push(
            if c == '\\' { '/' } else { c },
        ));
        i = i + 1;
    }
    assert(to_slashes(s@).take(v.len() as int) =~= to_slashes(s@));
    string_of(&out)
}

} // verus!
