//! Where the data lives, how request paths resolve against it, and which
//! port the server listens on.

use vstd::prelude::*;
use crate::path::{is_absolute, join_path, path_starts_with, spec_join, spec_starts_with};
use crate::text::{chars_of, concat3, decimal, digit_char, lemma_decimal_len, owned};

verus! {

/// The root of everything the server may touch: a canonical directory path.
pub struct DataDir {
    root: String,
}

impl View for DataDir {
    type V = Seq<char>;

    closed spec fn view(&self) -> Seq<char> {
        self.root@
    }
}

impl DataDir {
    /// Takes the canonical form of the configured directory.
    pub fn new(root: &str) -> (d: DataDir)
        ensures
            d@ == root@,
    {
        DataDir { root: owned(root) }
    }
}

/// The data directory's path.
pub fn data_dir(dir: &DataDir) -> (r: &str)
    ensures
        r@ == dir@,
{
    dir.root.as_str()
}

/// The directory configured by the `DATA_DIR` setting, or `./data` when the
/// setting is absent.
pub open spec fn spec_configured_data_dir(setting: Option<Seq<char>>) -> Seq<char> {
    match setting {
        Some(s) => s,
        None => "./data"@,
    }
}

pub fn configured_data_dir(setting: Option<&str>) -> (r: String)
    ensures
        r@ == spec_configured_data_dir(
            match setting {
                Some(s) => Some(s@),
                None => None,
            },
        ),
{
    match setting {
        Some(s) => owned(s),
        None => owned("./data"),
    }
}

pub open spec fn invalid_path_message(path: Seq<char>, err: Seq<char>) -> Seq<char> {
    "Invalid path '"@ + path + "': "@ + err
}

pub open spec fn access_denied_message(path: Seq<char>) -> Seq<char> {
    "Access denied: path '"@ + path + "' is outside DATA_DIR"@
}

/// What `validate_path` answers, given what canonicalizing `path` gave.
pub open spec fn spec_validate_path(
    data: Seq<char>,
    path: Seq<char>,
    canonical: Result<Seq<char>, Seq<char>>,
) -> Result<Seq<char>, Seq<char>> {
    match canonical {
        Err(e) => Err(invalid_path_message(path, e)),
        Ok(c) => if spec_starts_with(c, data) {
            Ok(c)
        } else {
            Err(access_denied_message(path))
        },
    }
}

pub open spec fn result_view(r: Result<String, String>) -> Result<Seq<char>, Seq<char>> {
    match r {
        Ok(s) => Ok(s@),
        Err(e) => Err(e@),
    }
}

/// Keeps a path only when its canonical form lies inside the data directory.
/// `canonical` is what canonicalizing `path` on disk gave (the path or the
/// error text).
pub fn validate_path(dir: &DataDir, path: &str, canonical: Result<String, String>) -> (r: Result<
    String,
    String,
>)
    ensures
        result_view(r) == spec_validate_path(dir@, path@, result_view(canonical)),
{
    match canonical {
        Err(e) => Err(invalid_path_message_of(path, e.as_str())),
        Ok(c) => {
            if path_starts_with(c.as_str(), dir.root.as_str()) {
                Ok(c)
            } else {
                Err(concat3("Access denied: path '", path, "' is outside DATA_DIR"))
            }
        },
    }
}

fn invalid_path_message_of(path: &str, err: &str) -> (r: String)
    ensures
        r@ == invalid_path_message(path@, err@),
{
    let mut r = concat3("Invalid path '", path, "': ");
    crate::text::push_str(&mut r, err);
    r
}

/// A relative path taken inside the data directory (`data_dir().join(relative)`).
pub fn resolve_path(dir: &DataDir, relative: &str) -> (r: String)
    ensures
        r@ == spec_join(dir@, relative@),
{
    join_path(dir.root.as_str(), relative)
}

/// A request path: kept when absolute, else taken inside the data directory.
pub fn resolve_request_path(dir: &DataDir, path: &str) -> (r: String)
    ensures
        r@ == spec_join(dir@, path@),
        is_absolute(path@) ==> r@ == path@,
{
    let pc = chars_of(path);
    let absolute = pc.len() > 0 && pc[0] == '/';
    if absolute {
        owned(path)
    } else {
        join_path(dir.root.as_str(), path)
    }
}


pub open spec fn is_digit(c: char) -> bool {
    '0' <= c && c <= '9'
}

pub open spec fn digit_value(c: char) -> nat {
    ((c as u32) - ('0' as u32)) as nat
}

/// The number a string of decimal digits denotes.
pub open spec fn decimal_value(d: Seq<char>) -> nat
    decreases d.len(),
{
    if d.len() == 0 {
        0
    } else {
        decimal_value(d.drop_last()) * 10 + digit_value(d.last())
    }
}

/// The digits of an unsigned number: a leading `+` is allowed.
pub open spec fn unsigned_digits(s: Seq<char>) -> Seq<char> {
    if s.len() > 0 && s[0] == '+' {
        s.drop_first()
    } else {
        s
    }
}

/// `s.parse::<u16>()`: optional `+`, then at least one decimal digit and
/// nothing else, denoting at most 65535.
pub open spec fn parse_u16(s: Seq<char>) -> Option<u16> {
    let d = unsigned_digits(s);
    if d.len() > 0 && (forall|i: int| 0 <= i < d.len() ==> is_digit(#[trigger] d[i]))
        && decimal_value(d) <= 65535 {
        Some(decimal_value(d) as u16)
    } else {
        None
    }
}

/// The port from the `PORT` setting, 3001 when it is absent or no port.
pub open spec fn spec_server_port(setting: Option<Seq<char>>) -> u16 {
    match setting {
        Some(s) => match parse_u16(s) {
            Some(p) => p,
            None => 3001,
        },
        None => 3001,
    }
}

proof fn lemma_decimal_value_grows(d: Seq<char>, i: int, k: int)
    requires
        0 <= i <= k <= d.len(),
    ensures
        decimal_value(d.take(i)) <= decimal_value(d.take(k)),
    decreases k - i,
{
    if i < k {
        lemma_decimal_value_grows(d, i, k - 1);
        assert(d.take(k).drop_last() =~= d.take(k - 1));
    }
}

/// Parses a port number as `str::parse::<u16>` does.
pub fn parse_port(s: &str) -> (r: Option<u16>)
    ensures
        r == parse_u16(s@),
{
    let v = chars_of(s);
    let start: usize = if v.len() > 0 && v[0] == '+' { 1 } else { 0 };
    let ghost d = unsigned_digits(s@);
    assert(d =~= v@.subrange(start as int, v.len() as int));
    if start >= v.len() {
        return None;
    }
    let mut acc: u32 = 0;
    let mut i: usize = start;
    while i < v.len()
        invariant
            start <= i <= v.len(),
            v@ == s@,
            d == v@.subrange(start as int, v.len() as int),
            d == unsigned_digits(s@),
            d.len() > 0,
            acc as nat == decimal_value(d.take(i - start)),
            acc <= 65535,
            forall|k: int| 0 <= k < i - start ==> is_digit(#[trigger] d[k]),
        decreases v.len() - i,
    {
        let c = v[i];
        assert(d[i - start] == c);
        if !('0' <= c && c <= '9') {
            assert(!is_digit(d[i - start]));
            return None;
        }
        let digit: u32 = (c as u32) - ('0' as u32);
        assert(d.take(i - start + 1).drop_last() =~= d.take(i - start));
        assert(d.take(i - start + 1).last() == c);
        assert(digit as nat == digit_value(c));
        acc = acc * 10 + digit;
        assert(acc as nat == decimal_value(d.take(i - start + 1)));
        if acc > 65535 {
            proof {
                lemma_decimal_value_grows(d, i - start + 1, d.len() as int);
                assert(d.take(d.len() as int) =~= d);
            }
            return None;
        }
        i = i + 1;
    }
    assert(d.take(d.len() as int) =~= d);
    Some(acc as u16)
}

/// The port to listen on, given the `PORT` setting.
pub fn server_port(setting: Option<&str>) -> (r: u16)
    ensures
        r == spec_server_port(
            match setting {
                Some(s) => Some(s@),
                None => None,
            },
        ),
{
    match setting {
        Some(s) => match parse_port(s) {
            Some(p) => p,
            None => 3001,
        },
        None => 3001,
    }
}


/// Decimal digits read back as the number they were written from.
pub proof fn lemma_decimal_round_trip(n: nat)
    ensures
        decimal_value(decimal(n)) == n,
        forall|i: int| 0 <= i < decimal(n).len() ==> is_digit(#[trigger] decimal(n)[i]),
        decimal(n).len() >= 1,
    decreases n,
{
    lemma_decimal_len(n);
    if n < 10 {
        assert(decimal(n).drop_last() =~= Seq::<char>::empty());
        assert(decimal(n).last() == digit_char(n));
        assert(decimal_value(Seq::<char>::empty()) == 0);
        assert(digit_value(digit_char(n)) == n);
        assert(decimal_value(decimal(n)) == decimal_value(decimal(n).drop_last()) * 10
            + digit_value(decimal(n).last()));
    } else {
        lemma_decimal_round_trip(n / 10);
        let d = decimal(n);
        assert(d.drop_last() =~= decimal(n / 10));
        assert(digit_value(digit_char(n % 10)) == n % 10);
        assert(d.last() == digit_char(n % 10));
        assert((n / 10) * 10 + n % 10 == n);
        assert(decimal_value(d) == decimal_value(d.drop_last()) * 10 + digit_value(d.last()));
        assert forall|i: int| 0 <= i < d.len() implies is_digit(#[trigger] d[i]) by {
            if i < d.len() - 1 {
                assert(d[i] == decimal(n / 10)[i]);
            }
        }
    }
}

/// A port written in decimal is read back as that port: the `PORT` setting
/// `n` makes the server listen on `n`.
pub proof fn lemma_server_port_round_trip(port: u16)
    ensures
        spec_server_port(Some(decimal(port as nat))) == port,
{
    lemma_decimal_round_trip(port as nat);
    let d = decimal(port as nat);
    assert(d[0] != '+') by {
        assert(is_digit(d[0]));
    }
    assert(unsigned_digits(d) == d);
}


/// Nothing outside the data directory passes validation: an accepted path is
/// the canonical path given, and it starts with the data directory.
pub proof fn lemma_validated_paths_are_inside(
    data: Seq<char>,
    path: Seq<char>,
    canonical: Result<Seq<char>, Seq<char>>,
)
    ensures
        spec_validate_path(data, path, canonical) is Ok ==> canonical is Ok
            && spec_validate_path(data, path, canonical) == canonical && spec_starts_with(
            canonical->Ok_0,
            data,
        ),
{
}

/// Validating is stable: a path accepted as `c` is again accepted as `c`
/// when `c` itself is validated, given that canonicalizing the canonical
/// path `c` gives `c` back.
pub proof fn lemma_validation_is_stable(data: Seq<char>, path: Seq<char>, c: Seq<char>)
    requires
        spec_validate_path(data, path, Ok(c)) == Ok::<Seq<char>, Seq<char>>(c),
    ensures
        spec_validate_path(data, c, Ok(c)) == Ok::<Seq<char>, Seq<char>>(c),
{
}

} // verus!
