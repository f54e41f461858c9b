//! Reading versions out of install directory names and `php -v` output, and
//! recognising install layouts, for the PHPStudy and standalone scanners.
use vstd::prelude::*;


use crate::service::{
    lowercase, spec_default_port, to_lowercase, ServiceInstance, ServiceKind, ServiceOrigin,
    ServiceStatus,
};
use vstd::string::StringSliceAdditionalSpecFns;
use vstd::utf8::{encode_utf8, is_char_boundary};

use crate::text::{
    lead_count, lemma_lead_count_unique, lemma_trail_count_unique, trail_count, trim_by,
    push_char, chars_of, has_prefix, is_digit, lines, lines_of, starts_with_at, string_of_range, sub_vec, trim,
    trim_bounds,
};

verus! {

/// Number of leading characters that are digits or dots.
pub open spec fn ver_run(s: Seq<char>) -> nat
    decreases s.len(),
{
    if s.len() > 0 && (is_digit(s[0]) || s[0] == '.') {
        1 + ver_run(s.drop_first())
    } else {
        0
    }
}

pub proof fn lemma_ver_run(s: Seq<char>)
    ensures
        ver_run(s) <= s.len(),
        forall|i: int| 0 <= i < ver_run(s) ==> is_digit(#[trigger] s[i]) || s[i] == '.',
        ver_run(s) < s.len() ==> !(is_digit(s[ver_run(s) as int]) || s[ver_run(s) as int] == '.'),
    decreases s.len(),
{
    if s.len() > 0 && (is_digit(s[0]) || s[0] == '.') {
        lemma_ver_run(s.drop_first());
        assert forall|i: int| 0 <= i < ver_run(s) implies is_digit(#[trigger] s[i]) || s[i] == '.' by {
            if i > 0 {
                assert(s[i] == s.drop_first()[i - 1]);
            }
        }
    }
}

/// End of the run of digits and dots in `v` that begins at `from`.
fn ver_run_end(v: &[char], from: usize) -> (end: usize)
    requires
        from <= v.len(),
    ensures
        end == from + ver_run(v@.skip(from as int)),
        end <= v.len(),
{
    let mut i = from;
    proof {
        lemma_ver_run(v@.skip(from as int));
    }
    while i < v.len() && (('0' <= v[i] && v[i] <= '9') || v[i] == '.')
        invariant
            from <= i <= v.len(),
            i - from <= ver_run(v@.skip(from as int)),
            ver_run(v@.skip(from as int)) <= v@.skip(from as int).len(),
            forall|j: int| 0 <= j < ver_run(v@.skip(from as int)) ==> is_digit(
                #[trigger] v@.skip(from as int)[j],
            ) || v@.skip(from as int)[j] == '.',
            ver_run(v@.skip(from as int)) < v@.skip(from as int).len() ==> !(is_digit(
                v@.skip(from as int)[ver_run(v@.skip(from as int)) as int],
            ) || v@.skip(from as int)[ver_run(v@.skip(from as int)) as int] == '.'),
        decreases v.len() - i,
    {
        assert(v@.skip(from as int)[i - from] == v@[i as int]);
        i = i + 1;
    }
    proof {
        if i < v.len() {
            assert(v@.skip(from as int)[i - from] == v@[i as int]);
        }
    }
    i
}

/// What `php -n -v` prints first: `"PHP 8.5.1 (cli) ..."` gives `"8.5.1"`.
pub open spec fn spec_php_v_version(output: Seq<char>) -> Option<Seq<char>> {
    let ls = lines(output);
    if ls.len() == 0 {
        None
    } else {
        let first = trim(ls[0]);
        if !has_prefix(first, "PHP "@) {
            None
        } else {
            let rest = first.skip(4);
            let ver = rest.take(ver_run(rest) as int);
            if ver.len() == 0 || !ver.contains('.') {
                None
            } else {
                Some(ver)
            }
        }
    }
}

pub open spec fn opt_string_view(o: Option<String>) -> Option<Seq<char>> {
    match o {
        Some(s) => Some(s@),
        None => None,
    }
}

fn has_dot(v: &[char], from: usize, to: usize) -> (b: bool)
    requires
        from <= to <= v.len(),
    ensures
        b == v@.subrange(from as int, to as int).contains('.'),
{
    let mut i = from;
    while i < to
        invariant
            from <= i <= to,
            to <= v.len(),
            forall|j: int| from <= j < i ==> v@[j] != '.',
        decreases to - i,
    {
        if v[i] == '.' {
            assert(v@.subrange(from as int, to as int)[i - from] == '.');
            return true;
        }
        i = i + 1;
    }
    proof {
        if v@.subrange(from as int, to as int).contains('.') {
            let k = choose|k: int|
                0 <= k < to - from && v@.subrange(from as int, to as int)[k] == '.';
            assert(v@[from + k] == '.');
        }
    }
    false
}

/// Extracts the dotted version from `php -v` output.
pub fn parse_php_v_output(output: &str) -> (r: Option<String>)
    ensures
        opt_string_view(r) == spec_php_v_version(output@),
{
    let v = chars_of(output);
    let ls = lines_of(v.as_slice());
    if ls.len() == 0 {
        return None;
    }
    let line = &ls[0];
    assert(line@ == lines(output@)[0]);
    let (a, b) = trim_bounds(line.as_slice(), 0, line.len());
    assert(line@.subrange(0, line@.len() as int) =~= line@);
    let first = sub_vec(line.as_slice(), a, b);
    let prefix = chars_of("PHP ");
    proof {
        reveal_strlit("PHP ");
    }
    if !starts_with_at(first.as_slice(), 0, prefix.as_slice()) {
        assert(first@.skip(0) =~= first@);
        return None;
    }
    assert(first@.skip(0) =~= first@);
    let end = ver_run_end(first.as_slice(), 4);
    assert(first@.skip(4).take(end - 4) =~= first@.subrange(4, end as int));
    if end == 4 || !has_dot(first.as_slice(), 4, end) {
        return None;
    }
    Some(string_of_range(first.as_slice(), 4, end))
}

/// The folder name after an optional `php` prefix.
pub open spec fn php_dir_body(name: Seq<char>) -> Seq<char> {
    if has_prefix(name, "php"@) {
        name.skip(3)
    } else {
        name
    }
}

/// `"php85nts"` gives `("8.5", "nts")`, `"php7.4.3nts"` gives `("7.4.3", "nts")`,
/// `"php734nts"` gives `("7.3.4", "nts")`; without a variant suffix the variant is `"nts"`.
pub open spec fn spec_php_dir_name(name: Seq<char>) -> (Seq<char>, Seq<char>) {
    let n = php_dir_body(name);
    let k = ver_run(n) as int;
    let digits = n.take(k);
    let variant = if k < n.len() {
        n.skip(k)
    } else {
        "nts"@
    };
    let version = if digits.contains('.') {
        digits
    } else if digits.len() >= 2 {
        if digits.len() == 2 {
            seq![digits[0], '.', digits[1]]
        } else {
            seq![digits[0], '.', digits[1], '.'] + digits.skip(2)
        }
    } else {
        digits
    };
    (version, variant)
}

/// Parses a PHP directory name like `"php85nts"` into `("8.5", "nts")`.
pub fn parse_php_dir_name(name: &str) -> (r: (String, String))
    ensures
        (r.0@, r.1@) == spec_php_dir_name(name@),
{
    let v = chars_of(name);
    let php = chars_of("php");
    proof {
        reveal_strlit("php");
    }
    let start: usize = if starts_with_at(v.as_slice(), 0, php.as_slice()) {
        3
    } else {
        0
    };
    assert(v@.skip(0) =~= v@);
    let ghost n = php_dir_body(name@);
    assert(v@.skip(start as int) =~= n);
    let end = ver_run_end(v.as_slice(), start);
    let variant = if end < v.len() {
        assert(v@.subrange(end as int, v.len() as int) =~= n.skip(end - start));
        string_of_range(v.as_slice(), end, v.len())
    } else {
        proof {
            reveal_strlit("nts");
        }
        String::from_str("nts")
    };
    let ghost digits = n.take(end - start);
    assert(v@.subrange(start as int, end as int) =~= digits);
    let version = if has_dot(v.as_slice(), start, end) {
        string_of_range(v.as_slice(), start, end)
    } else if end - start >= 2 {
        let mut s = String::new();
        push_char(&mut s, v[start]);
        push_char(&mut s, '.');
        push_char(&mut s, v[start + 1]);
        if end - start == 2 {
            assert(s@ =~= seq![digits[0], '.', digits[1]]);
            s
        } else {
            push_char(&mut s, '.');
            let rest = string_of_range(v.as_slice(), start + 2, end);
            s.append(rest.as_str());
            assert(digits.skip(2) =~= v@.subrange(start + 2, end as int));
            assert(s@ =~= seq![digits[0], '.', digits[1], '.'] + digits.skip(2));
            s
        }
    } else {
        string_of_range(v.as_slice(), start, end)
    };
    (version, variant)
}

/// `name[prefix.len()..]` by bytes when `name` is longer, else empty: the
/// version part of a directory like `"Nginx1.15.11"`.
pub fn extract_version(name: &str, prefix: &str) -> (r: String)
    requires
        name.spec_bytes().len() > prefix.spec_bytes().len() ==> is_char_boundary(
            name.spec_bytes(),
            prefix.spec_bytes().len() as int,
        ),
    ensures
        name.spec_bytes().len() > prefix.spec_bytes().len() ==> encode_utf8(r@)
            == name.spec_bytes().skip(prefix.spec_bytes().len() as int),
        name.spec_bytes().len() <= prefix.spec_bytes().len() ==> r@.len() == 0,
{
    let nl = name.as_bytes().len();
    let pl = prefix.as_bytes().len();
    if nl > pl {
        let (_, after) = name.split_at(pl);
        assert(after.spec_bytes() =~= name.spec_bytes().skip(prefix.spec_bytes().len() as int));
        after.to_owned()
    } else {
        String::new()
    }
}

pub open spec fn is_sep(c: char) -> bool {
    c == '/' || c == '\\'
}

/// Index of the last path separator, or -1.
pub open spec fn last_sep(s: Seq<char>) -> int
    decreases s.len(),
{
    if s.len() == 0 {
        -1
    } else if is_sep(s.last()) {
        s.len() - 1
    } else {
        last_sep(s.drop_last())
    }
}

pub proof fn lemma_last_sep(s: Seq<char>)
    ensures
        -1 <= last_sep(s) < s.len(),
        last_sep(s) >= 0 ==> is_sep(s[last_sep(s)]),
        forall|j: int| last_sep(s) < j < s.len() ==> !is_sep(#[trigger] s[j]),
    decreases s.len(),
{
    if s.len() > 0 && !is_sep(s.last()) {
        lemma_last_sep(s.drop_last());
        assert forall|j: int| last_sep(s) < j < s.len() implies !is_sep(#[trigger] s[j]) by {
            if j < s.len() - 1 {
                assert(s[j] == s.drop_last()[j]);
            }
        }
    }
}

/// The last component of a path (either separator), skipping trailing
/// separators and `.` components; `None` for `..`, or when there is none.
pub open spec fn file_name(s: Seq<char>) -> Option<Seq<char>>
    decreases s.len(),
{
    let i = last_sep(s);
    let piece = s.skip(i + 1);
    if piece == ".."@ {
        None
    } else if piece.len() == 0 || piece == "."@ {
        if i < 0 {
            None
        } else {
            proof {
                lemma_last_sep(s);
            }
            file_name(s.take(i))
        }
    } else {
        Some(piece)
    }
}

fn find_last_sep(v: &[char], end: usize) -> (r: Option<usize>)
    requires
        end <= v.len(),
    ensures
        match r {
            Some(i) => last_sep(v@.take(end as int)) == i && i < end,
            None => last_sep(v@.take(end as int)) == -1,
        },
{
    let mut k = end;
    while k > 0
        invariant
            k <= end,
            end <= v.len(),
            last_sep(v@.take(end as int)) == last_sep(v@.take(k as int)),
        decreases k,
    {
        assert(v@.take(k as int).last() == v@[k - 1]);
        assert(v@.take(k as int).drop_last() =~= v@.take(k - 1));
        if v[k - 1] == '/' || v[k - 1] == '\\' {
            return Some(k - 1);
        }
        k = k - 1;
    }
    None
}

fn is_dots(v: &[char], from: usize, to: usize, n: usize) -> (b: bool)
    requires
        from <= to <= v.len(),
    ensures
        b == (v@.subrange(from as int, to as int) == Seq::new(n as nat, |i: int| '.')),
{
    if to - from != n {
        assert(v@.subrange(from as int, to as int).len() != Seq::new(n as nat, |i: int| '.').len());
        return false;
    }
    let mut i = from;
    while i < to
        invariant
            from <= i <= to,
            to <= v.len(),
            to - from == n,
            forall|j: int| from <= j < i ==> v@[j] == '.',
        decreases to - i,
    {
        if v[i] != '.' {
            assert(v@.subrange(from as int, to as int)[i - from] != '.');
            return false;
        }
        i = i + 1;
    }
    assert(v@.subrange(from as int, to as int) =~= Seq::new(n as nat, |i: int| '.'));
    true
}

/// The final component of a path string, as `Path::file_name` gives it
/// with both `/` and `\\` as separators.
pub fn path_file_name(path: &str) -> (r: Option<String>)
    ensures
        opt_string_view(r) == file_name(path@),
{
    proof {
        reveal_strlit("..");
        reveal_strlit(".");
    }
    assert("."@ =~= Seq::new(1, |i: int| '.'));
    assert(".."@ =~= Seq::new(2, |i: int| '.'));
    let v = chars_of(path);
    let mut end = v.len();
    assert(v@.take(end as int) =~= v@);
    loop
        invariant
            end <= v.len(),
            file_name(path@) == file_name(v@.take(end as int)),
            v@ == path@,
            "."@ =~= Seq::new(1, |i: int| '.'),
            ".."@ =~= Seq::new(2, |i: int| '.'),
        decreases end,
    {
        let ghost s = v@.take(end as int);
        let sep = find_last_sep(v.as_slice(), end);
        let start: usize = match sep {
            Some(i) => i + 1,
            None => 0,
        };
        proof {
            lemma_last_sep(s);
            assert(s.skip(last_sep(s) + 1) =~= v@.subrange(start as int, end as int));
        }
        if is_dots(v.as_slice(), start, end, 2) {
            return None;
        }
        if start == end || is_dots(v.as_slice(), start, end, 1) {
            match sep {
                None => {
                    return None;
                },
                Some(i) => {
                    assert(s.take(i as int) =~= v@.take(i as int));
                    end = i;
                },
            }
        } else {
            return Some(string_of_range(v.as_slice(), start, end));
        }
    }
}

/// Unicode `Alphabetic`, the property `char::is_alphabetic` tests.
pub uninterp spec fn alphabetic(c: char) -> bool;

/// `char::is_alphabetic`; its result is named by `alphabetic`.
#[verifier::external_body]
fn char_is_alphabetic(c: char) -> (b: bool)
    ensures
        b == alphabetic(c),
{
    c.is_alphabetic()
}

pub open spec fn name_edge(c: char) -> bool {
    alphabetic(c) || c == '-'
}

/// The version in a directory name like `"nginx-1.25.3"` or
/// `"mysql-8.0.36-winx64"`: letters and dashes trimmed at both ends, then
/// the leading run of digits and dots, without dots at its ends.
pub open spec fn spec_version_from_dirname(path: Seq<char>) -> Seq<char> {
    let name = match file_name(path) {
        Some(n) => n,
        None => seq![],
    };
    let stripped = trim_by(name, |c: char| name_edge(c));
    let run = stripped.take(ver_run(stripped) as int);
    trim_by(run, |c: char| c == '.')
}

/// `[a, b)` within `[from, to)` with characters matching the edge test trimmed.
fn trim_name_edges(v: &[char], from: usize, to: usize) -> (r: (usize, usize))
    requires
        from <= to <= v.len(),
    ensures
        from <= r.0 <= r.1 <= to,
        v@.subrange(r.0 as int, r.1 as int) == trim_by(
            v@.subrange(from as int, to as int),
            |c: char| name_edge(c),
        ),
{
    let ghost p = |c: char| name_edge(c);
    let ghost s = v@.subrange(from as int, to as int);
    let mut a = from;
    while a < to && (v[a] == '-' || char_is_alphabetic(v[a]))
        invariant
            from <= a <= to,
            to <= v.len(),
            forall|i: int| from <= i < a ==> name_edge(#[trigger] v@[i]),
        decreases to - a,
    {
        a = a + 1;
    }
    proof {
        assert forall|i: int| 0 <= i < a - from implies p(#[trigger] s[i]) by {
            assert(s[i] == v@[from + i]);
        }
        if a < to {
            assert(s[a - from] == v@[a as int]);
        }
        lemma_lead_count_unique(s, p, a - from);
        assert(s.skip(a - from) =~= v@.subrange(a as int, to as int));
    }
    let ghost t = v@.subrange(a as int, to as int);
    let mut b = to;
    while b > a && (v[b - 1] == '-' || char_is_alphabetic(v[b - 1]))
        invariant
            a <= b <= to,
            to <= v.len(),
            forall|i: int| b <= i < to ==> name_edge(#[trigger] v@[i]),
        decreases b - a,
    {
        b = b - 1;
    }
    proof {
        assert forall|i: int| t.len() - (to - b) <= i < t.len() implies p(#[trigger] t[i]) by {
            assert(t[i] == v@[a + i]);
        }
        if b > a {
            assert(t[t.len() - (to - b) - 1] == v@[b - 1]);
        }
        lemma_trail_count_unique(t, p, to - b);
        assert(t.take(t.len() - (to - b)) =~= v@.subrange(a as int, b as int));
    }
    (a, b)
}

/// `[a, b)` within `[from, to)` with dots trimmed at both ends.
fn trim_dots(v: &[char], from: usize, to: usize) -> (r: (usize, usize))
    requires
        from <= to <= v.len(),
    ensures
        from <= r.0 <= r.1 <= to,
        v@.subrange(r.0 as int, r.1 as int) == trim_by(
            v@.subrange(from as int, to as int),
            |c: char| c == '.',
        ),
{
    let ghost p = |c: char| c == '.';
    let ghost s = v@.subrange(from as int, to as int);
    let mut a = from;
    while a < to && v[a] == '.'
        invariant
            from <= a <= to,
            to <= v.len(),
            forall|i: int| from <= i < a ==> #[trigger] v@[i] == '.',
        decreases to - a,
    {
        a = a + 1;
    }
    proof {
        assert forall|i: int| 0 <= i < a - from implies p(#[trigger] s[i]) by {
            assert(s[i] == v@[from + i]);
        }
        if a < to {
            assert(s[a - from] == v@[a as int]);
        }
        lemma_lead_count_unique(s, p, a - from);
        assert(s.skip(a - from) =~= v@.subrange(a as int, to as int));
    }
    let ghost t = v@.subrange(a as int, to as int);
    let mut b = to;
    while b > a && v[b - 1] == '.'
        invariant
            a <= b <= to,
            to <= v.len(),
            forall|i: int| b <= i < to ==> #[trigger] v@[i] == '.',
        decreases b - a,
    {
        b = b - 1;
    }
    proof {
        assert forall|i: int| t.len() - (to - b) <= i < t.len() implies p(#[trigger] t[i]) by {
            assert(t[i] == v@[a + i]);
        }
        if b > a {
            assert(t[t.len() - (to - b) - 1] == v@[b - 1]);
        }
        lemma_trail_count_unique(t, p, to - b);
        assert(t.take(t.len() - (to - b)) =~= v@.subrange(a as int, b as int));
    }
    (a, b)
}

/// The version part of a directory path like `"/x/nginx-1.25.3"` (`"1.25.3"`).
pub fn extract_version_from_dirname(path: &str) -> (r: String)
    ensures
        r@ == spec_version_from_dirname(path@),
{
    let name = match path_file_name(path) {
        Some(n) => n,
        None => String::new(),
    };
    let v = chars_of(name.as_str());
    let (a, b) = trim_name_edges(v.as_slice(), 0, v.len());
    assert(v@.subrange(0, v.len() as int) =~= v@);
    let stripped = sub_vec(v.as_slice(), a, b);
    let end = ver_run_end(stripped.as_slice(), 0);
    assert(stripped@.skip(0) =~= stripped@);
    let (c, d) = trim_dots(stripped.as_slice(), 0, end);
    assert(stripped@.subrange(0, end as int) =~= stripped@.take(ver_run(stripped@) as int));
    string_of_range(stripped.as_slice(), c, d)
}


/// A directory of PHPStudy's `Extensions/php` that holds `php-cgi.exe`: its
/// name and path, the version its `php -n -v` reported (where that ran),
/// and its `php.ini` where there is one.
#[derive(Clone, Debug)]
pub struct PhpDirFound {
    pub name: String,
    pub path: String,
    pub reported_version: Option<String>,
    pub config_path: Option<String>,
}

/// A directory of `Extensions` that holds the executable of `kind`, with
/// the first of the kind's configuration files that exists.
#[derive(Clone, Debug)]
pub struct ServiceDirFound {
    pub kind: ServiceKind,
    pub name: String,
    pub path: String,
    pub config_path: Option<String>,
}

/// The directory-name prefix of each kind in PHPStudy's `Extensions`.
pub open spec fn spec_dir_prefix(kind: ServiceKind) -> Seq<char> {
    match kind {
        ServiceKind::Nginx => "Nginx"@,
        ServiceKind::Apache => "Apache"@,
        ServiceKind::Mysql => "MySQL"@,
        ServiceKind::Redis => "redis"@,
        ServiceKind::Php => "php"@,
    }
}

pub fn dir_prefix(kind: ServiceKind) -> (p: &'static str)
    ensures
        p@ == spec_dir_prefix(kind),
{
    match kind {
        ServiceKind::Nginx => "Nginx",
        ServiceKind::Apache => "Apache",
        ServiceKind::Mysql => "MySQL",
        ServiceKind::Redis => "redis",
        ServiceKind::Php => "php",
    }
}

/// A directory is of a kind when its lower-cased name begins with the
/// lower-cased prefix.
pub fn service_dir_matches(name: &str, prefix: &str) -> (b: bool)
    ensures
        b == has_prefix(lowercase(name@), lowercase(prefix@)),
{
    let n = chars_of(to_lowercase(name).as_str());
    let p = chars_of(to_lowercase(prefix).as_str());
    assert(n@.skip(0) =~= n@);
    starts_with_at(n.as_slice(), 0, p.as_slice())
}

pub open spec fn opt_view(o: Option<String>) -> Option<Seq<char>> {
    match o {
        Some(s) => Some(s@),
        None => None,
    }
}

/// An instance found by a scan: stopped, not started automatically, with no
/// PHP worker policy.
pub open spec fn fresh(i: ServiceInstance) -> bool {
    i.status == ServiceStatus::Stopped && !i.auto_start && i.php_runtime is None
}

/// The instance PHPStudy's PHP directory `d` becomes, on `port`: the version
/// `php -v` reported, else the one in the directory name.
pub open spec fn php_found_as(i: ServiceInstance, d: PhpDirFound, port: int) -> bool {
    &&& i.kind == ServiceKind::Php
    &&& i.version@ == match d.reported_version {
        Some(v) => v@,
        None => spec_php_dir_name(d.name@).0,
    }
    &&& opt_view(i.variant) == Some(spec_php_dir_name(d.name@).1)
    &&& i.install_path@ == d.path@
    &&& opt_view(i.config_path) == opt_view(d.config_path)
    &&& i.port == port
    &&& i.origin == ServiceOrigin::PhpStudy
    &&& fresh(i)
}

/// PHPStudy's PHP versions run their FastCGI pools side by side on
/// consecutive ports: in a scan's result (as `PhpStudyScanner::scan`
/// states it), the `k`-th PHP directory found listens on port `9000 + k`,
/// so no two of them share a port.
pub proof fn php_pools_get_consecutive_ports(php_dirs: Seq<PhpDirFound>, out: Seq<ServiceInstance>)
    requires
        out.len() >= php_dirs.len(),
        forall|k: int| 0 <= k < php_dirs.len() ==> php_found_as(#[trigger] out[k], php_dirs[k], 9000 + k),
    ensures
        forall|k: int| 0 <= k < php_dirs.len() ==> (#[trigger] out[k]).port == 9000 + k,
        forall|a: int, b: int| 0 <= a < b < php_dirs.len() ==> (#[trigger] out[a]).port != (#[trigger] out[b]).port,
{
    assert forall|a: int, b: int| 0 <= a < b < php_dirs.len() implies (#[trigger] out[a]).port
        != (#[trigger] out[b]).port by {
        assert(php_found_as(out[a], php_dirs[a], 9000 + a));
        assert(php_found_as(out[b], php_dirs[b], 9000 + b));
    }
}

/// The instance a service directory becomes: the version after the prefix,
/// the kind's default port.
pub open spec fn service_found_as(i: ServiceInstance, d: ServiceDirFound) -> bool {
    &&& i.kind == d.kind
    &&& (encode_utf8(d.name@).len() > encode_utf8(spec_dir_prefix(d.kind)).len() ==> encode_utf8(
        i.version@,
    ) == encode_utf8(d.name@).skip(encode_utf8(spec_dir_prefix(d.kind)).len() as int))
    &&& (encode_utf8(d.name@).len() <= encode_utf8(spec_dir_prefix(d.kind)).len()
        ==> i.version@.len() == 0)
    &&& i.variant is None
    &&& i.install_path@ == d.path@
    &&& opt_view(i.config_path) == opt_view(d.config_path)
    &&& i.port == spec_default_port(d.kind)
    &&& i.origin == ServiceOrigin::PhpStudy
    &&& fresh(i)
}

/// Names whose byte at the prefix's length starts a character, so that the
/// version after the prefix can be cut out.
pub open spec fn cut_after_prefix_ok(d: ServiceDirFound) -> bool {
    let plen = encode_utf8(spec_dir_prefix(d.kind)).len();
    encode_utf8(d.name@).len() > plen ==> is_char_boundary(encode_utf8(d.name@), plen as int)
}

pub struct PhpStudyScanner;

fn clone_opt(o: &Option<String>) -> (r: Option<String>)
    ensures
        opt_view(r) == opt_view(*o),
{
    match o {
        Some(s) => Some(s.clone()),
        None => None,
    }
}

impl PhpStudyScanner {
    /// The instances of a PHPStudy `Extensions` directory: its PHP versions
    /// first, on consecutive ports from 9000, then the services found, in
    /// the order given.
    pub fn scan(php_dirs: &[PhpDirFound], service_dirs: &[ServiceDirFound]) -> (out: Vec<ServiceInstance>)
        requires
            9000 + php_dirs.len() <= 65536,
            forall|k: int| 0 <= k < service_dirs.len() ==> cut_after_prefix_ok(#[trigger] service_dirs@[k]),
        ensures
            out@.len() == php_dirs.len() + service_dirs.len(),
            forall|k: int| 0 <= k < php_dirs.len() ==> php_found_as(#[trigger] out@[k], php_dirs@[k], 9000 + k),
            forall|k: int|
                0 <= k < service_dirs.len() ==> service_found_as(
                    #[trigger] out@[php_dirs.len() + k],
                    service_dirs@[k],
                ),
            forall|k: int| 0 <= k < php_dirs.len() ==> (#[trigger] out@[k]).port == 9000 + k,
            forall|a: int, b: int|
                0 <= a < b < php_dirs.len() ==> (#[trigger] out@[a]).port != (#[trigger] out@[b]).port,
    {
        let mut out: Vec<ServiceInstance> = Vec::new();
        let mut i: usize = 0;
        while i < php_dirs.len()
            invariant
                i <= php_dirs.len(),
                9000 + php_dirs.len() <= 65536,
                out@.len() == i,
                forall|k: int| 0 <= k < i ==> php_found_as(#[trigger] out@[k], php_dirs@[k], 9000 + k),
            decreases php_dirs.len() - i,
        {
            let d = &php_dirs[i];
            let port: u16 = (9000 + i) as u16;
            let (folder_version, variant) = parse_php_dir_name(d.name.as_str());
            let version = match &d.reported_version {
                Some(v) => v.clone(),
                None => folder_version,
            };
            out.push(ServiceInstance {
                kind: ServiceKind::Php,
                version,
                variant: Some(variant),
                install_path: d.path.clone(),
                config_path: clone_opt(&d.config_path),
                port,
                status: ServiceStatus::Stopped,
                auto_start: false,
                origin: ServiceOrigin::PhpStudy,
                php_runtime: None,
            });
            i = i + 1;
        }
        let base = out.len();
        let mut j: usize = 0;
        while j < service_dirs.len()
            invariant
                j <= service_dirs.len(),
                base == php_dirs.len(),
                out@.len() == base + j,
                forall|k: int| 0 <= k < php_dirs.len() ==> php_found_as(#[trigger] out@[k], php_dirs@[k], 9000 + k),
                forall|k: int| 0 <= k < service_dirs.len() ==> cut_after_prefix_ok(#[trigger] service_dirs@[k]),
                forall|k: int|
                    0 <= k < j ==> service_found_as(#[trigger] out@[base + k], service_dirs@[k]),
            decreases service_dirs.len() - j,
        {
            let d = &service_dirs[j];
            let prefix = dir_prefix(d.kind);
            assert(cut_after_prefix_ok(service_dirs@[j as int]));
            let version = extract_version(d.name.as_str(), prefix);
            out.push(ServiceInstance {
                kind: d.kind,
                version,
                variant: None,
                install_path: d.path.clone(),
                config_path: clone_opt(&d.config_path),
                port: d.kind.default_port(),
                status: ServiceStatus::Stopped,
                auto_start: false,
                origin: ServiceOrigin::PhpStudy,
                php_runtime: None,
            });
            j = j + 1;
        }
        proof {
            php_pools_get_consecutive_ports(php_dirs@, out@);
        }
        out
    }
}


/// The kind of service a directory of the store's packages root holds, by
/// its lower-cased name.
pub open spec fn spec_store_dir_kind(lower: Seq<char>) -> Option<ServiceKind> {
    if lower == "nginx"@ {
        Some(ServiceKind::Nginx)
    } else if lower == "apache"@ || lower == "httpd"@ {
        Some(ServiceKind::Apache)
    } else if lower == "mysql"@ {
        Some(ServiceKind::Mysql)
    } else if lower == "redis"@ {
        Some(ServiceKind::Redis)
    } else if lower == "php"@ {
        Some(ServiceKind::Php)
    } else {
        None
    }
}

pub fn store_dir_kind(name: &str) -> (kind: Option<ServiceKind>)
    ensures
        kind == spec_store_dir_kind(lowercase(name@)),
{
    let l = to_lowercase(name);
    let n = l.as_str();
    if crate::text::str_eq(n, "nginx") {
        Some(ServiceKind::Nginx)
    } else if crate::text::str_eq(n, "apache") || crate::text::str_eq(n, "httpd") {
        Some(ServiceKind::Apache)
    } else if crate::text::str_eq(n, "mysql") {
        Some(ServiceKind::Mysql)
    } else if crate::text::str_eq(n, "redis") {
        Some(ServiceKind::Redis)
    } else if crate::text::str_eq(n, "php") {
        Some(ServiceKind::Php)
    } else {
        None
    }
}

/// The version and variant an install directory shows: for PHP, the
/// version `php -v` reported (else the one in the directory name) and the
/// variant in the name; for the others, the version in the directory name.
pub open spec fn spec_inspect(kind: ServiceKind, path: Seq<char>, reported: Option<Seq<char>>) -> (
    Seq<char>,
    Option<Seq<char>>,
) {
    match kind {
        ServiceKind::Php => {
            let name = match file_name(path) {
                Some(n) => n,
                None => seq![],
            };
            (
                match reported {
                    Some(v) => v,
                    None => spec_php_dir_name(name).0,
                },
                Some(spec_php_dir_name(name).1),
            )
        },
        _ => (spec_version_from_dirname(path), None),
    }
}

pub fn inspect_version(kind: ServiceKind, path: &str, reported: Option<String>) -> (r: (
    String,
    Option<String>,
))
    ensures
        (r.0@, opt_view(r.1)) == spec_inspect(kind, path@, opt_view(reported)),
{
    match kind {
        ServiceKind::Php => {
            let name = match path_file_name(path) {
                Some(n) => n,
                None => String::new(),
            };
            let (folder_version, variant) = parse_php_dir_name(name.as_str());
            let version = match reported {
                Some(v) => v,
                None => folder_version,
            };
            (version, Some(variant))
        },
        _ => (extract_version_from_dirname(path), None),
    }
}

/// An install found by probing a configured path or a store directory.
#[derive(Clone, Debug)]
pub struct ProbedInstall {
    pub kind: ServiceKind,
    /// The directory that holds the install (the path itself, or its only
    /// subdirectory).
    pub path: String,
    pub config_path: Option<String>,
    pub version: String,
    pub variant: Option<String>,
    pub origin: ServiceOrigin,
    /// For store installs, the version directory's name, used where no
    /// version could be read.
    pub dir_name: Option<String>,
}

/// The instance a probed install becomes: the kind's default port, and the
/// version directory's name where the version is empty.
pub open spec fn probed_as(i: ServiceInstance, p: ProbedInstall) -> bool {
    &&& i.kind == p.kind
    &&& i.version@ == (if p.version@.len() == 0 && p.dir_name is Some {
        p.dir_name->0@
    } else {
        p.version@
    })
    &&& opt_view(i.variant) == opt_view(p.variant)
    &&& i.install_path@ == p.path@
    &&& opt_view(i.config_path) == opt_view(p.config_path)
    &&& i.port == spec_default_port(p.kind)
    &&& i.origin == p.origin
    &&& fresh(i)
}

/// The instance of one probed install.
pub fn probe_install(p: &ProbedInstall) -> (i: ServiceInstance)
    ensures
        probed_as(i, *p),
{
    let version = match &p.dir_name {
        Some(d) => if p.version.as_str().is_empty() {
            d.clone()
        } else {
            p.version.clone()
        },
        None => p.version.clone(),
    };
    ServiceInstance {
        kind: p.kind,
        version,
        variant: clone_opt(&p.variant),
        install_path: p.path.clone(),
        config_path: clone_opt(&p.config_path),
        port: p.kind.default_port(),
        status: ServiceStatus::Stopped,
        auto_start: false,
        origin: p.origin,
        php_runtime: None,
    }
}

pub struct StandaloneScanner;

impl StandaloneScanner {
    /// The instances of the configured extra paths and the store's packages,
    /// in the order probed.
    pub fn scan(probed: &[ProbedInstall]) -> (out: Vec<ServiceInstance>)
        ensures
            out@.len() == probed.len(),
            forall|k: int| 0 <= k < probed.len() ==> probed_as(#[trigger] out@[k], probed@[k]),
    {
        let mut out: Vec<ServiceInstance> = Vec::new();
        let mut i: usize = 0;
        while i < probed.len()
            invariant
                i <= probed.len(),
                out@.len() == i,
                forall|k: int| 0 <= k < i ==> probed_as(#[trigger] out@[k], probed@[k]),
            decreases probed.len() - i,
        {
            out.push(probe_install(&probed[i]));
            i = i + 1;
        }
        out
    }
}


pub open spec fn strings_of(v: Seq<&'static str>) -> Seq<Seq<char>> {
    v.map_values(|x: &'static str| x@)
}

/// The files, relative to a directory, whose presence marks an install of
/// `kind` (any one suffices).
pub open spec fn spec_install_markers(kind: ServiceKind) -> Seq<Seq<char>> {
    match kind {
        ServiceKind::Nginx => seq!["nginx.exe"@],
        ServiceKind::Apache => seq!["bin/httpd.exe"@],
        ServiceKind::Mysql => seq!["bin/mysqld.exe"@],
        ServiceKind::Redis => seq!["redis-server.exe"@, "bin/redis-server.exe"@],
        ServiceKind::Php => seq!["php-cgi.exe"@, "php.exe"@],
    }
}

pub fn install_markers(kind: ServiceKind) -> (m: Vec<&'static str>)
    ensures
        strings_of(m@) == spec_install_markers(kind),
{
    let mut m: Vec<&'static str> = Vec::new();
    match kind {
        ServiceKind::Nginx => m.push("nginx.exe"),
        ServiceKind::Apache => m.push("bin/httpd.exe"),
        ServiceKind::Mysql => m.push("bin/mysqld.exe"),
        ServiceKind::Redis => {
            m.push("redis-server.exe");
            m.push("bin/redis-server.exe");
        },
        ServiceKind::Php => {
            m.push("php-cgi.exe");
            m.push("php.exe");
        },
    }
    assert(strings_of(m@) =~= spec_install_markers(kind));
    m
}

/// A directory is an install when one of its markers is present
/// (`present[k]` for the `k`-th marker).
pub fn looks_like_install(present: &[bool]) -> (b: bool)
    ensures
        b == exists|k: int| 0 <= k < present.len() && present@[k],
{
    let mut k: usize = 0;
    while k < present.len()
        invariant
            k <= present.len(),
            forall|j: int| 0 <= j < k ==> !present@[j],
        decreases present.len() - k,
    {
        if present[k] {
            return true;
        }
        k = k + 1;
    }
    false
}

/// The configuration files of `kind`, relative to its directory, in the
/// order they are preferred.
pub open spec fn spec_config_candidates(kind: ServiceKind) -> Seq<Seq<char>> {
    match kind {
        ServiceKind::Nginx => seq!["conf/nginx.conf"@],
        ServiceKind::Apache => seq!["conf/httpd.conf"@],
        ServiceKind::Mysql => seq!["my.ini"@, "my.cnf"@],
        ServiceKind::Redis => seq!["redis.windows.conf"@, "redis.conf"@],
        ServiceKind::Php => seq!["php.ini"@],
    }
}

pub fn config_candidates(kind: ServiceKind) -> (c: Vec<&'static str>)
    ensures
        strings_of(c@) == spec_config_candidates(kind),
{
    let mut c: Vec<&'static str> = Vec::new();
    match kind {
        ServiceKind::Nginx => c.push("conf/nginx.conf"),
        ServiceKind::Apache => c.push("conf/httpd.conf"),
        ServiceKind::Mysql => {
            c.push("my.ini");
            c.push("my.cnf");
        },
        ServiceKind::Redis => {
            c.push("redis.windows.conf");
            c.push("redis.conf");
        },
        ServiceKind::Php => c.push("php.ini"),
    }
    assert(strings_of(c@) =~= spec_config_candidates(kind));
    c
}

/// The first candidate that exists (`exists[k]` for the `k`-th).
pub open spec fn spec_first_existing(candidates: Seq<Seq<char>>, exists: Seq<bool>) -> Option<Seq<char>>
    decreases candidates.len(),
{
    if candidates.len() == 0 {
        None
    } else if exists.len() > 0 && exists[0] {
        Some(candidates[0])
    } else {
        spec_first_existing(candidates.drop_first(), if exists.len() > 0 {
            exists.drop_first()
        } else {
            exists
        })
    }
}

/// The configuration file to use: the first candidate that exists.
pub fn resolve_config(candidates: &[String], exists: &[bool]) -> (r: Option<String>)
    ensures
        opt_view(r) == spec_first_existing(
            candidates@.map_values(|x: String| x@),
            exists@,
        ),
{
    let ghost cv = candidates@.map_values(|x: String| x@);
    let mut k: usize = 0;
    assert(cv.skip(0) =~= cv && exists@.skip(0) =~= exists@);
    while k < candidates.len()
        invariant
            k <= candidates.len(),
            cv == candidates@.map_values(|x: String| x@),
            spec_first_existing(cv, exists@) == spec_first_existing(
                cv.skip(k as int),
                if k <= exists.len() {
                    exists@.skip(k as int)
                } else {
                    seq![]
                },
            ),
        decreases candidates.len() - k,
    {
        assert(cv.skip(k as int)[0] == cv[k as int]);
        assert(cv.skip(k as int).drop_first() =~= cv.skip(k + 1));
        if k < exists.len() {
            assert(exists@.skip(k as int)[0] == exists@[k as int]);
            assert(exists@.skip(k as int).drop_first() =~= exists@.skip(k + 1));
            if exists[k] {
                return Some(candidates[k].clone());
            }
        } else {
            if k == exists.len() {
                assert(exists@.skip(k as int) =~= Seq::<bool>::empty());
            }
        }
        k = k + 1;
    }
    None
}

} // verus!
