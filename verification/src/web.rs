//! The answers of the HTTP endpoints that do not touch projects: the
//! bundled web client, raw files, and the method of proxied requests.

use vstd::prelude::*;
use crate::files::option_view;
use crate::config::{result_view, spec_validate_path, validate_path, DataDir};
use crate::path::{chars_eq, join_path, spec_join, spec_starts_with};
use crate::text::{chars_of, owned, string_of};

verus! {

// ---------------------------------------------------------------------------
// Outside calls
// ---------------------------------------------------------------------------

/// The MIME type `mime_guess` gives a path (by its extension, without
/// touching the disk).
pub uninterp spec fn mime_type_for(path: Seq<char>) -> Seq<char>;

/// Wraps `mime_guess::from_path(path).first_or_octet_stream()`. The result is
/// named `mime_type_for`; a path without any `.` has no extension, and for it
/// the result is `application/octet-stream`.
#[verifier::external_body]
pub(crate) fn guess_mime(path: &str) -> (r: String)
    ensures
        r@ == mime_type_for(path@),
        !path@.contains('.') ==> r@ == "application/octet-stream"@,
{
    mime_guess::from_path(path).first_or_octet_stream().to_string()
}

/// What `urlencoding::decode` gives for a string: the percent-decoded text,
/// or `None` when the decoded bytes are not UTF-8.
pub uninterp spec fn percent_decoded(s: Seq<char>) -> Option<Seq<char>>;

/// Wraps `urlencoding::decode`. The result is named `percent_decoded`; a
/// string without `%` comes back unchanged.
#[verifier::external_body]
pub(crate) fn url_decode(s: &str) -> (r: Option<String>)
    ensures
        option_view(r) == percent_decoded(s@),
        !s@.contains('%') ==> option_view(r) == Some(s@),
{
    urlencoding::decode(s).ok().map(|d| d.into_owned())
}

/// A character allowed in an HTTP method name (a `tchar` of RFC 9110).
pub open spec fn is_token_char(c: char) -> bool {
    ('a' <= c && c <= 'z') || ('A' <= c && c <= 'Z') || ('0' <= c && c <= '9') || c == '!' || c
        == '#' || c == '$' || c == '%' || c == '&' || c == '\'' || c == '*' || c == '+' || c == '-'
        || c == '.' || c == '^' || c == '_' || c == '`' || c == '|' || c == '~'
}

/// Whether `http` accepts a string as a method: at least one character, all
/// of them token characters.
pub open spec fn is_method_name(s: Seq<char>) -> bool {
    s.len() > 0 && forall|i: int| 0 <= i < s.len() ==> is_token_char(#[trigger] s[i])
}

/// Wraps parsing a string as `axum::http::Method`, which succeeds exactly on
/// non-empty strings of token characters.
#[verifier::external_body]
pub(crate) fn parses_as_method(s: &str) -> (r: bool)
    ensures
        r == is_method_name(s@),
{
    s.parse::<axum::http::Method>().is_ok()
}

/// Wraps `StatusCode::from_u16` of the `http` crate (as axum re-exports it),
/// which accepts exactly the codes from 100 to 999.
#[verifier::external_body]
pub(crate) fn is_status_code(code: u16) -> (r: bool)
    ensures
        r == (100 <= code && code <= 999),
{
    axum::http::StatusCode::from_u16(code).is_ok()
}

// ---------------------------------------------------------------------------
// The bundled web client
// ---------------------------------------------------------------------------

/// A request path without its leading slashes: the key of a bundled asset.
pub open spec fn trim_leading_slashes(s: Seq<char>) -> Seq<char>
    decreases s.len(),
{
    if s.len() > 0 && s[0] == '/' {
        trim_leading_slashes(s.drop_first())
    } else {
        s
    }
}

pub fn static_asset_key(uri_path: &str) -> (r: String)
    ensures
        r@ == trim_leading_slashes(uri_path@),
{
    let v = chars_of(uri_path);
    let mut i: usize = 0;
    assert(v@.subrange(0, v.len() as int) =~= v@);
    while i < v.len() && v[i] == '/'
        invariant
            i <= v.len(),
            trim_leading_slashes(v@) == trim_leading_slashes(v@.subrange(i as int, v.len() as int)),
        decreases v.len() - i,
    {
        assert(v@.subrange(i as int, v.len() as int).drop_first() =~= v@.subrange(
            i + 1,
            v.len() as int,
        ));
        i = i + 1;
    }
    let mut out: Vec<char> = Vec::new();
    let mut k: usize = i;
    while k < v.len()
        invariant
            i <= k <= v.len(),
            out@ == v@.subrange(i as int, k as int),
        decreases v.len() - k,
    {
        out.push(v[k]);
        assert(v@.subrange(i as int, k + 1) =~= v@.subrange(i as int, k as int).push(v@[k as int]));
        k = k + 1;
    }
    string_of(&out)
}

/// What the web client's handler serves.
pub enum StaticSource {
    /// The bundled asset asked for.
    Asset,
    /// The client's `index.html`, for any other path.
    Index,
    /// Nothing: the client is not bundled.
    NotFound,
}

pub struct StaticReply {
    pub status: u16,
    pub content_type: Option<String>,
    pub source: StaticSource,
}

/// The reply for the bundled asset `key`: the asset with its guessed type
/// when it exists, else `index.html` as HTML when that exists, else 404.
pub fn static_reply(key: &str, asset_found: bool, index_found: bool) -> (r: StaticReply)
    ensures
        asset_found ==> r.status == 200 && r.source is Asset && (r.content_type matches Some(t)
            && t@ == mime_type_for(key@)),
        !asset_found && index_found ==> r.status == 200 && r.source is Index && (
        r.content_type matches Some(t) && t@ == "text/html"@),
        !asset_found && !index_found ==> r.status == 404 && r.source is NotFound
            && r.content_type is None,
{
    if asset_found {
        StaticReply { status: 200, content_type: Some(guess_mime(key)), source: StaticSource::Asset }
    } else if index_found {
        StaticReply {
            status: 200,
            content_type: Some(owned("text/html")),
            source: StaticSource::Index,
        }
    } else {
        StaticReply { status: 404, content_type: None, source: StaticSource::NotFound }
    }
}

// ---------------------------------------------------------------------------
// Raw files
// ---------------------------------------------------------------------------

/// The path a `/files/...` request names: the decoded request path, taken
/// inside the data directory unless absolute; 400 when it does not decode.
pub fn file_request_path(dir: &DataDir, raw: &str) -> (r: Result<String, u16>)
    ensures
        match (r, percent_decoded(raw@)) {
            (Ok(p), Some(d)) => p@ == spec_join(dir@, d),
            (Err(code), None) => code == 400,
            _ => false,
        },
{
    match url_decode(raw) {
        None => Err(400),
        Some(decoded) => Ok(join_path(crate::config::data_dir(dir), decoded.as_str())),
    }
}

/// How a raw file is served.
pub struct FileReply {
    pub path: String,
    pub content_type: String,
    pub cache_control: String,
}

/// Serving the file at `path`: `canonical` is what canonicalizing it gave and
/// `is_file` whether that is a regular file. 403 outside the data directory,
/// 404 for anything but a file.
pub fn file_reply(dir: &DataDir, path: &str, canonical: Result<String, String>, is_file: bool) -> (r:
    Result<FileReply, u16>)
    ensures
        match spec_validate_path(dir@, path@, result_view(canonical)) {
            Err(_) => r == Err::<FileReply, u16>(403),
            Ok(c) => if is_file {
                r matches Ok(f) && f.path@ == c && f.content_type@ == mime_type_for(c)
                    && f.cache_control@ == "public, max-age=3600"@
            } else {
                r == Err::<FileReply, u16>(404)
            },
        },
        r matches Ok(f) ==> spec_starts_with(f.path@, dir@),
{
    match validate_path(dir, path, canonical) {
        Err(_) => Err(403),
        Ok(c) => if is_file {
            let content_type = guess_mime(c.as_str());
            Ok(FileReply { path: c, content_type, cache_control: owned("public, max-age=3600") })
        } else {
            Err(404)
        },
    }
}

// ---------------------------------------------------------------------------
// Proxied requests
// ---------------------------------------------------------------------------

pub open spec fn spec_proxy_method(requested: Option<Seq<char>>) -> Seq<char> {
    let m = match requested {
        Some(m) => m,
        None => "POST"@,
    };
    if is_method_name(m) {
        m
    } else {
        "POST"@
    }
}

/// The method a proxied request is sent with: the one asked for (POST by
/// default), or POST when that is no method name.
pub fn proxy_method(requested: Option<&str>) -> (r: String)
    ensures
        r@ == spec_proxy_method(
            match requested {
                Some(m) => Some(m@),
                None => None,
            },
        ),
{
    let m = match requested {
        Some(m) => owned(m),
        None => owned("POST"),
    };
    if parses_as_method(m.as_str()) {
        m
    } else {
        owned("POST")
    }
}

/// The status a proxied reply is passed on with: the upstream status when it
/// is a valid status code, 200 otherwise.
pub fn proxy_status(upstream: u16) -> (r: u16)
    ensures
        r == (if 100 <= upstream && upstream <= 999 { upstream } else { 200 }),
{
    if is_status_code(upstream) {
        upstream
    } else {
        200
    }
}

// ---------------------------------------------------------------------------
// Proxied response headers
// ---------------------------------------------------------------------------

/// Headers by their text: each name with its value's bytes.
pub open spec fn header_views(hs: Seq<(String, Vec<u8>)>) -> Seq<(Seq<char>, Seq<u8>)> {
    hs.map_values(|h: (String, Vec<u8>)| (h.0@, h.1@))
}

/// Where the first header named `name` stands, or -1 when there is none.
pub open spec fn header_position(hs: Seq<(Seq<char>, Seq<u8>)>, name: Seq<char>) -> int
    decreases hs.len(),
{
    if hs.len() == 0 {
        -1
    } else {
        let p = header_position(hs.drop_last(), name);
        if p >= 0 {
            p
        } else if hs.last().0 == name {
            hs.len() - 1
        } else {
            -1
        }
    }
}

/// Headers as a header map holds them after inserting each in turn: one
/// entry per name, the names in the order they first appear, each with the
/// last value given for it.
pub open spec fn merged_headers(hs: Seq<(Seq<char>, Seq<u8>)>) -> Seq<(Seq<char>, Seq<u8>)>
    decreases hs.len(),
{
    if hs.len() == 0 {
        Seq::<(Seq<char>, Seq<u8>)>::empty()
    } else {
        let r = merged_headers(hs.drop_last());
        let h = hs.last();
        let p = header_position(r, h.0);
        if p >= 0 {
            r.update(p, h)
        } else {
            r.push(h)
        }
    }
}

proof fn lemma_header_position(r: Seq<(Seq<char>, Seq<u8>)>, name: Seq<char>, k: int)
    requires
        0 <= k <= r.len(),
        forall|j: int| 0 <= j < k ==> (#[trigger] r[j]).0 != name,
        k < r.len() ==> r[k].0 == name,
    ensures
        header_position(r, name) == if k < r.len() {
            k
        } else {
            -1
        },
    decreases r.len(),
{
    if r.len() > 0 {
        let d = r.drop_last();
        if k < r.len() - 1 {
            assert(d[k] == r[k]);
            assert forall|j: int| 0 <= j < k implies (#[trigger] d[j]).0 != name by {
                assert(d[j] == r[j]);
            }
            lemma_header_position(d, name, k);
        } else {
            assert forall|j: int| 0 <= j < d.len() implies (#[trigger] d[j]).0 != name by {
                assert(d[j] == r[j]);
            }
            lemma_header_position(d, name, d.len() as int);
            if k == r.len() {
                assert(r[r.len() - 1].0 != name);
            }
        }
    }
}

/// Where the first header named `name` stands in `hs`; `hs.len()` when
/// there is none.
fn find_header(hs: &Vec<(String, Vec<u8>)>, name: &str) -> (k: usize)
    ensures
        k <= hs.len(),
        header_position(header_views(hs@), name@) == if k < hs.len() {
            k as int
        } else {
            -1
        },
{
    let wanted = chars_of(name);
    let mut k: usize = 0;
    while k < hs.len()
        invariant
            k <= hs.len(),
            wanted@ == name@,
            forall|j: int| 0 <= j < k ==> (#[trigger] header_views(hs@)[j]).0 != name@,
        decreases hs.len() - k,
    {
        let here = chars_of(hs[k].0.as_str());
        if chars_eq(&here, &wanted) {
            proof {
                lemma_header_position(header_views(hs@), name@, k as int);
            }
            return k;
        }
        k = k + 1;
    }
    proof {
        lemma_header_position(header_views(hs@), name@, k as int);
    }
    k
}

/// The headers a proxied reply is passed on with, from those of the
/// upstream reply in their order: one per name, the names in the order they
/// first appear, each with the last value given for it.
pub fn merge_headers(headers: Vec<(String, Vec<u8>)>) -> (r: Vec<(String, Vec<u8>)>)
    ensures
        header_views(r@) == merged_headers(header_views(headers@)),
{
    let ghost input = header_views(headers@);
    let mut rest = headers;
    let mut out: Vec<(String, Vec<u8>)> = Vec::new();
    let ghost mut i: int = 0;
    assert(input.take(0) =~= Seq::<(Seq<char>, Seq<u8>)>::empty());
    assert(header_views(out@) =~= Seq::<(Seq<char>, Seq<u8>)>::empty());
    assert(header_views(rest@) =~= input.skip(0));
    while rest.len() > 0
        invariant
            0 <= i <= input.len(),
            header_views(rest@) == input.skip(i),
            header_views(out@) == merged_headers(input.take(i)),
        decreases rest.len(),
    {
        let ghost before = rest@;
        let h = rest.remove(0);
        proof {
            assert(header_views(before).len() == before.len());
            assert(i < input.len());
            assert(header_views(before)[0] == (h.0@, h.1@));
            assert(input[i] == (h.0@, h.1@)) by {
                assert(input.skip(i)[0] == input[i]);
            }
            assert(rest@ == before.remove(0));
            assert forall|j: int| 0 <= j < rest@.len() implies #[trigger] header_views(rest@)[j]
                == input.skip(i + 1)[j] by {
                assert(rest@[j] == before[j + 1]);
                assert(header_views(before)[j + 1] == input.skip(i)[j + 1]);
            }
            assert(header_views(rest@) =~= input.skip(i + 1));
            assert(input.take(i + 1).drop_last() =~= input.take(i));
            assert(input.take(i + 1).last() == input[i]);
        }
        let k = find_header(&out, h.0.as_str());
        let ghost prev = out@;
        if k < out.len() {
            out.set(k, h);
            assert(header_views(out@) =~= header_views(prev).update(k as int, input[i]));
        } else {
            out.push(h);
            assert(header_views(out@) =~= header_views(prev).push(input[i]));
        }
        proof {
            i = i + 1;
        }
    }
    assert(input.take(i) =~= input);
    out
}

proof fn lemma_header_position_facts(r: Seq<(Seq<char>, Seq<u8>)>, name: Seq<char>)
    ensures
        -1 <= header_position(r, name) < r.len(),
        header_position(r, name) >= 0 ==> r[header_position(r, name)].0 == name,
        header_position(r, name) < 0 ==> forall|j: int| 0 <= j < r.len() ==> (#[trigger] r[j]).0
            != name,
    decreases r.len(),
{
    if r.len() > 0 {
        let d = r.drop_last();
        lemma_header_position_facts(d, name);
        if header_position(d, name) < 0 {
            assert forall|j: int| 0 <= j < d.len() implies (#[trigger] r[j]).0 != name by {
                assert(d[j] == r[j]);
            }
        } else {
            assert(d[header_position(d, name)] == r[header_position(d, name)]);
        }
    }
}

pub open spec fn distinct_names(r: Seq<(Seq<char>, Seq<u8>)>) -> bool {
    forall|i: int, j: int| 0 <= i < j < r.len() ==> (#[trigger] r[i]).0 != (#[trigger] r[j]).0
}

/// `h` is the last header given for its name in `hs`.
pub open spec fn last_given(hs: Seq<(Seq<char>, Seq<u8>)>, h: (Seq<char>, Seq<u8>)) -> bool {
    exists|k: int|
        0 <= k < hs.len() && #[trigger] hs[k] == h && forall|m: int|
            k < m < hs.len() ==> (#[trigger] hs[m]).0 != h.0
}

proof fn lemma_merged_distinct(hs: Seq<(Seq<char>, Seq<u8>)>)
    ensures
        distinct_names(merged_headers(hs)),
    decreases hs.len(),
{
    if hs.len() > 0 {
        let d = hs.drop_last();
        lemma_merged_distinct(d);
        let rp = merged_headers(d);
        let h = hs.last();
        lemma_header_position_facts(rp, h.0);
        let p = header_position(rp, h.0);
        let r = merged_headers(hs);
        assert forall|i: int, j: int| 0 <= i < j < r.len() implies (#[trigger] r[i]).0 != (
        #[trigger] r[j]).0 by {
            if p >= 0 {
                assert(r == rp.update(p, h));
                assert(rp[i].0 != rp[j].0);
                if i == p {
                    assert(r[i].0 == rp[i].0);
                } else if j == p {
                    assert(r[j].0 == rp[j].0);
                }
            } else {
                assert(r == rp.push(h));
                if j == rp.len() {
                    assert(rp[i].0 != h.0);
                } else {
                    assert(rp[i].0 != rp[j].0);
                }
            }
        }
    }
}

proof fn lemma_merged_last(hs: Seq<(Seq<char>, Seq<u8>)>)
    ensures
        forall|i: int|
            0 <= i < merged_headers(hs).len() ==> last_given(hs, #[trigger] merged_headers(hs)[i]),
    decreases hs.len(),
{
    if hs.len() > 0 {
        let d = hs.drop_last();
        lemma_merged_last(d);
        lemma_merged_distinct(d);
        let rp = merged_headers(d);
        let h = hs.last();
        let n = hs.len() - 1;
        lemma_header_position_facts(rp, h.0);
        let p = header_position(rp, h.0);
        let r = merged_headers(hs);
        assert forall|i: int| 0 <= i < r.len() implies last_given(hs, #[trigger] r[i]) by {
            if (p >= 0 && i == p) || (p < 0 && i == rp.len()) {
                assert(r[i] == h);
                assert(hs[n] == r[i]);
            } else {
                if p >= 0 {
                    assert(r == rp.update(p, h));
                } else {
                    assert(r == rp.push(h));
                }
                assert(r[i] == rp[i]);
                assert(last_given(d, rp[i]));
                let k = choose|k: int|
                    0 <= k < d.len() && #[trigger] d[k] == rp[i] && forall|m: int|
                        k < m < d.len() ==> (#[trigger] d[m]).0 != rp[i].0;
                assert(hs[k] == d[k]);
                assert(h.0 != rp[i].0) by {
                    if p >= 0 {
                        if p < i {
                            assert(rp[p].0 != rp[i].0);
                        } else {
                            assert(rp[i].0 != rp[p].0);
                        }
                    }
                }
                assert forall|m: int| k < m < hs.len() implies (#[trigger] hs[m]).0 != r[i].0 by {
                    if m < n {
                        assert(hs[m] == d[m]);
                    }
                }
            }
        }
    }
}

proof fn lemma_merged_covers(hs: Seq<(Seq<char>, Seq<u8>)>)
    ensures
        forall|k: int|
            0 <= k < hs.len() ==> header_position(merged_headers(hs), (#[trigger] hs[k]).0) >= 0,
    decreases hs.len(),
{
    if hs.len() > 0 {
        let d = hs.drop_last();
        lemma_merged_covers(d);
        let rp = merged_headers(d);
        let h = hs.last();
        let n = hs.len() - 1;
        lemma_header_position_facts(rp, h.0);
        let p = header_position(rp, h.0);
        let r = merged_headers(hs);
        assert forall|k: int| 0 <= k < hs.len() implies header_position(r, (#[trigger] hs[k]).0)
            >= 0 by {
            let name = hs[k].0;
            lemma_header_position_facts(r, name);
            let i: int = if k == n {
                if p >= 0 {
                    p
                } else {
                    rp.len() as int
                }
            } else {
                assert(hs[k] == d[k]);
                lemma_header_position_facts(rp, name);
                header_position(rp, name)
            };
            if p >= 0 {
                assert(r == rp.update(p, h));
            } else {
                assert(r == rp.push(h));
            }
            assert(0 <= i < r.len());
            assert(r[i].0 == name);
        }
    }
}

/// A proxied reply carries each header name once, with the value the
/// upstream reply gave last for it, and every name the upstream reply sent.
pub proof fn lemma_merged_headers(hs: Seq<(Seq<char>, Seq<u8>)>)
    ensures
        distinct_names(merged_headers(hs)),
        forall|i: int|
            0 <= i < merged_headers(hs).len() ==> last_given(hs, #[trigger] merged_headers(hs)[i]),
        forall|k: int|
            0 <= k < hs.len() ==> header_position(merged_headers(hs), (#[trigger] hs[k]).0) >= 0,
{
    lemma_merged_distinct(hs);
    lemma_merged_last(hs);
    lemma_merged_covers(hs);
}

} // verus!
