//! Reading tool versions out of command output and configuration text:
//! Composer, nvm-windows, Node.js version lists, MySQL's `my.ini`.
use vstd::prelude::*;

use crate::scanner::opt_string_view;
use crate::text::{
    all_digits, chars_eq_ignore_ascii_case, chars_of, eq_ignore_ascii_case, has_prefix, is_digit,
    is_whitespace, is_ws, lead_count, lemma_lead_count_unique, lines, lines_of, parse_unsigned,
    spec_parse_unsigned, split_chars, split_on, starts_with_at, string_of_range, sub_vec, trim,
    trim_bounds, trim_start,
};

verus! {

/// A system-level install of a tool found outside the store.
#[derive(Debug, Clone)]
pub struct DetectedTool {
    pub name: String,
    pub version: String,
    pub install_path: String,
}

/// A MySQL install found in the packages root.
#[derive(Debug, Clone)]
pub struct MysqlInstall {
    pub version: String,
    pub install_path: String,
    pub data_dir: String,
    pub port: u16,
    pub initialized: bool,
}

/// Number of leading characters that are not whitespace.
pub open spec fn word_len(s: Seq<char>) -> nat
    decreases s.len(),
{
    if s.len() > 0 && !is_ws(s[0]) {
        1 + word_len(s.drop_first())
    } else {
        0
    }
}

pub proof fn lemma_word_len(s: Seq<char>)
    ensures
        word_len(s) <= s.len(),
        forall|i: int| 0 <= i < word_len(s) ==> !is_ws(#[trigger] s[i]),
        word_len(s) < s.len() ==> is_ws(s[word_len(s) as int]),
    decreases s.len(),
{
    if s.len() > 0 && !is_ws(s[0]) {
        lemma_word_len(s.drop_first());
        assert forall|i: int| 0 <= i < word_len(s) implies !is_ws(#[trigger] s[i]) by {
            if i > 0 {
                assert(s[i] == s.drop_first()[i - 1]);
            }
        }
    }
}

/// `s.split_whitespace().next()`.
pub open spec fn first_word(s: Seq<char>) -> Option<Seq<char>> {
    let t = trim_start(s);
    if t.len() == 0 {
        None
    } else {
        Some(t.take(word_len(t) as int))
    }
}

/// End of the word that starts at `from` (the first whitespace after it).
fn word_end(v: &[char], from: usize) -> (end: usize)
    requires
        from <= v.len(),
    ensures
        end == from + word_len(v@.skip(from as int)),
        end <= v.len(),
{
    proof {
        lemma_word_len(v@.skip(from as int));
    }
    let mut i = from;
    while i < v.len() && !is_whitespace(v[i])
        invariant
            from <= i <= v.len(),
            i - from <= word_len(v@.skip(from as int)),
            word_len(v@.skip(from as int)) <= v@.skip(from as int).len(),
            forall|j: int| 0 <= j < word_len(v@.skip(from as int)) ==> !is_ws(
                #[trigger] v@.skip(from as int)[j],
            ),
            word_len(v@.skip(from as int)) < v@.skip(from as int).len() ==> is_ws(
                v@.skip(from as int)[word_len(v@.skip(from as int)) as int],
            ),
        decreases v.len() - i,
    {
        assert(v@.skip(from as int)[i - from] == v@[i as int]);
        i = i + 1;
    }
    proof {
        if i < v.len() {
            assert(v@.skip(from as int)[i - from] == v@[i as int]);
        }
    }
    i
}

/// The bounds of the first word of `v[from..to]`, if any.
pub(crate) fn first_word_bounds(v: &[char], from: usize, to: usize) -> (r: Option<(usize, usize)>)
    requires
        from <= to <= v.len(),
    ensures
        match first_word(v@.subrange(from as int, to as int)) {
            Some(w) => r matches Some(b) && from <= b.0 <= b.1 <= to && v@.subrange(
                b.0 as int,
                b.1 as int,
            ) == w,
            None => r is None,
        },
{
    let (a, _) = trim_bounds(v, from, to);
    if a == to {
        return None;
    }
    let sub = sub_vec(v, a, to);
    let e = word_end(sub.as_slice(), 0);
    assert(sub@.skip(0) =~= sub@);
    assert(sub@.take(e as int) =~= v@.subrange(a as int, a + e));
    Some((a, a + e))
}

/// The version Composer prints: the first line that, trimmed, starts with
/// `"Composer version "` and has a word after it gives that word.
pub open spec fn composer_version_in(ls: Seq<Seq<char>>) -> Option<Seq<char>>
    decreases ls.len(),
{
    if ls.len() == 0 {
        None
    } else {
        let t = trim(ls[0]);
        let p = "Composer version "@;
        if has_prefix(t, p) && first_word(t.skip(p.len() as int)) is Some {
            first_word(t.skip(p.len() as int))
        } else {
            composer_version_in(ls.drop_first())
        }
    }
}

pub open spec fn spec_composer_version(stdout: Seq<char>) -> Option<Seq<char>> {
    composer_version_in(lines(stdout))
}

/// `"Composer version 2.7.7 2024-..."` gives `"2.7.7"`.
pub fn parse_composer_version(stdout: &str) -> (r: Option<String>)
    ensures
        opt_string_view(r) == spec_composer_version(stdout@),
{
    let v = chars_of(stdout);
    let ls = lines_of(v.as_slice());
    let ghost lv = lines(stdout@);
    let p = chars_of("Composer version ");
    proof {
        reveal_strlit("Composer version ");
    }
    let mut i: usize = 0;
    assert(lv.skip(0) =~= lv);
    while i < ls.len()
        invariant
            i <= ls.len(),
            ls@.map_values(|x: Vec<char>| x@) == lv,
            p@ == "Composer version "@,
            lv == lines(stdout@),
            composer_version_in(lv) == composer_version_in(lv.skip(i as int)),
        decreases ls.len() - i,
    {
        let line = &ls[i];
        assert(line@ == lv[i as int]);
        let (a, b) = trim_bounds(line.as_slice(), 0, line.len());
        assert(line@.subrange(0, line@.len() as int) =~= line@);
        let t = sub_vec(line.as_slice(), a, b);
        assert(lv.skip(i as int)[0] == lv[i as int]);
        assert(lv.skip(i as int).drop_first() =~= lv.skip(i + 1));
        assert(t@.skip(0) =~= t@);
        if starts_with_at(t.as_slice(), 0, p.as_slice()) {
            let plen = p.len();
            assert(t@.subrange(plen as int, t@.len() as int) =~= t@.skip(plen as int));
            match first_word_bounds(t.as_slice(), plen, t.len()) {
                Some((c, d)) => {
                    assert(t@ == trim(lv[i as int]));
                    assert(composer_version_in(lv.skip(i as int)) == first_word(
                        t@.skip(p@.len() as int),
                    ));
                    return Some(string_of_range(t.as_slice(), c, d));
                },
                None => {},
            }
        }
        i = i + 1;
    }
    None
}

/// `nvm version` prints the version itself, maybe with a leading `v`.
pub open spec fn spec_nvm_version(stdout: Seq<char>) -> Option<Seq<char>> {
    let ls = lines(stdout);
    if ls.len() == 0 {
        None
    } else {
        let line = trim(ls[0]);
        if line.len() == 0 {
            None
        } else {
            let v = line.skip(lead_count(line, |c: char| c == 'v') as int);
            if v.len() > 0 && is_digit(v[0]) {
                Some(v)
            } else {
                None
            }
        }
    }
}

/// Index of the first character at or after `from` that is not in the set
/// the flags select (`v`, and `V` when `upper` is set).
fn skip_vs(v: &[char], from: usize, to: usize, upper: bool) -> (end: usize)
    requires
        from <= to <= v.len(),
    ensures
        from <= end <= to,
        upper ==> end - from == lead_count(
            v@.subrange(from as int, to as int),
            |c: char| c == 'v' || c == 'V',
        ),
        !upper ==> end - from == lead_count(v@.subrange(from as int, to as int), |c: char| c == 'v'),
{
    let ghost s = v@.subrange(from as int, to as int);
    let mut i = from;
    while i < to && (v[i] == 'v' || (upper && v[i] == 'V'))
        invariant
            from <= i <= to,
            to <= v.len(),
            forall|j: int| from <= j < i ==> (#[trigger] v@[j] == 'v' || (upper && v@[j] == 'V')),
        decreases to - i,
    {
        i = i + 1;
    }
    proof {
        if upper {
            let p = |c: char| c == 'v' || c == 'V';
            assert forall|j: int| 0 <= j < i - from implies p(#[trigger] s[j]) by {
                assert(s[j] == v@[from + j]);
            }
            if i < to {
                assert(s[i - from] == v@[i as int]);
            }
            lemma_lead_count_unique(s, p, i - from);
        } else {
            let p = |c: char| c == 'v';
            assert forall|j: int| 0 <= j < i - from implies p(#[trigger] s[j]) by {
                assert(s[j] == v@[from + j]);
            }
            if i < to {
                assert(s[i - from] == v@[i as int]);
            }
            lemma_lead_count_unique(s, p, i - from);
        }
    }
    i
}

/// `"1.2.2\n"` gives `"1.2.2"`, `"v1.1.12\r\n"` gives `"1.1.12"`.
pub fn parse_nvm_version(stdout: &str) -> (r: Option<String>)
    ensures
        opt_string_view(r) == spec_nvm_version(stdout@),
{
    let v = chars_of(stdout);
    let ls = lines_of(v.as_slice());
    if ls.len() == 0 {
        return None;
    }
    let line = &ls[0];
    assert(line@ == lines(stdout@)[0]);
    let (a, b) = trim_bounds(line.as_slice(), 0, line.len());
    assert(line@.subrange(0, line@.len() as int) =~= line@);
    if a == b {
        return None;
    }
    let t = sub_vec(line.as_slice(), a, b);
    let s = skip_vs(t.as_slice(), 0, t.len(), false);
    assert(t@.subrange(0, t@.len() as int) =~= t@);
    if s < t.len() && '0' <= t[s] && t[s] <= '9' {
        assert(t@.skip(s as int)[0] == t@[s as int]);
        assert(t@.subrange(s as int, t@.len() as int) =~= t@.skip(s as int));
        Some(string_of_range(t.as_slice(), s, t.len()))
    } else {
        None
    }
}

/// A complete three-part Node.js version: trimmed, leading `v`/`V`s
/// dropped, then exactly three non-empty runs of ASCII digits joined by dots.
pub open spec fn spec_node_version(version: Seq<char>) -> Option<Seq<char>> {
    let t = trim(version);
    let v = t.skip(lead_count(t, |c: char| c == 'v' || c == 'V') as int);
    let parts = split_on(v, '.');
    if parts.len() == 3 && forall|i: int| 0 <= i < 3 ==> (#[trigger] parts[i]).len() > 0 && all_digits(
        parts[i],
    ) {
        Some(v)
    } else {
        None
    }
}

fn all_digit_chars(v: &[char]) -> (b: bool)
    ensures
        b == all_digits(v@),
{
    let mut i: usize = 0;
    while i < v.len()
        invariant
            i <= v.len(),
            forall|j: int| 0 <= j < i ==> is_digit(#[trigger] v@[j]),
        decreases v.len() - i,
    {
        if !('0' <= v[i] && v[i] <= '9') {
            return false;
        }
        i = i + 1;
    }
    true
}

/// The normalized version held in `v[from..to]`, as characters.
fn node_version_chars(v: &[char], from: usize, to: usize) -> (r: Option<Vec<char>>)
    requires
        from <= to <= v.len(),
    ensures
        match spec_node_version(v@.subrange(from as int, to as int)) {
            Some(s) => r matches Some(x) && x@ == s,
            None => r is None,
        },
{
    let (a, b) = trim_bounds(v, from, to);
    let s = skip_vs(v, a, b, true);
    let ghost t = trim(v@.subrange(from as int, to as int));
    assert(t == v@.subrange(a as int, b as int));
    let body = sub_vec(v, s, b);
    assert(body@ =~= t.skip(s - a));
    let parts = split_chars(body.as_slice(), '.');
    let ghost ps = split_on(body@, '.');
    assert(parts@.len() == ps.len());
    let ghost vv = t.skip(lead_count(t, |c: char| c == 'v' || c == 'V') as int);
    assert(body@ == vv);
    assert(ps == split_on(vv, '.'));
    if parts.len() != 3 {
        assert(spec_node_version(v@.subrange(from as int, to as int)) is None);
        return None;
    }
    let mut k: usize = 0;
    assert(spec_node_version(v@.subrange(from as int, to as int)) == (if ps.len() == 3 && forall|
        i: int,
    | 0 <= i < 3 ==> (#[trigger] ps[i]).len() > 0 && all_digits(ps[i]) {
        Some(body@)
    } else {
        None
    }));
    while k < 3
        invariant
            k <= 3,
            from <= to <= v.len(),
            spec_node_version(v@.subrange(from as int, to as int)) == (if ps.len() == 3 && forall|
                i: int,
            | 0 <= i < 3 ==> (#[trigger] ps[i]).len() > 0 && all_digits(ps[i]) {
                Some(body@)
            } else {
                None
            }),
            parts@.len() == 3,
            parts@.map_values(|x: Vec<char>| x@) == ps,
            forall|i: int| 0 <= i < k ==> (#[trigger] ps[i]).len() > 0 && all_digits(ps[i]),
        decreases 3 - k,
    {
        assert(parts@[k as int]@ == ps[k as int]);
        if parts[k].len() == 0 || !all_digit_chars(parts[k].as_slice()) {
            assert(!((ps[k as int]).len() > 0 && all_digits(ps[k as int])));
            return None;
        }
        k = k + 1;
    }
    Some(body)
}

/// Accepts only complete three-part Node.js versions (`"v22.22.3"` gives
/// `"22.22.3"`), so nothing else is ever passed on to nvm.
pub fn normalize_node_version(version: &str) -> (r: Option<String>)
    ensures
        opt_string_view(r) == spec_node_version(version@),
{
    let v = chars_of(version);
    assert(v@.subrange(0, v@.len() as int) =~= v@);
    match node_version_chars(v.as_slice(), 0, v.len()) {
        Some(x) => Some(crate::text::string_of(x.as_slice())),
        None => None,
    }
}

/// Appends `x` unless it is already listed.
pub open spec fn push_unique(list: Seq<Seq<char>>, x: Seq<char>) -> Seq<Seq<char>> {
    if list.contains(x) {
        list
    } else {
        list.push(x)
    }
}

/// One table row of `nvm list available`: its cells, trimmed.
pub open spec fn cells(line: Seq<char>) -> Seq<Seq<char>> {
    split_on(line, '|').map_values(|c: Seq<char>| trim(c))
}

/// The current and LTS columns of `nvm list available`, each version once,
/// in the order of the table.
pub open spec fn spec_available(ls: Seq<Seq<char>>) -> (Seq<Seq<char>>, Seq<Seq<char>>)
    decreases ls.len(),
{
    if ls.len() == 0 {
        (seq![], seq![])
    } else {
        let prev = spec_available(ls.drop_last());
        let c = cells(ls.last());
        if c.len() < 4 {
            prev
        } else {
            let cur = match spec_node_version(c[1]) {
                Some(v) => push_unique(prev.0, v),
                None => prev.0,
            };
            let lts = match spec_node_version(c[2]) {
                Some(v) => push_unique(prev.1, v),
                None => prev.1,
            };
            (cur, lts)
        }
    }
}

pub open spec fn views(v: Seq<String>) -> Seq<Seq<char>> {
    v.map_values(|s: String| s@)
}

fn push_unique_string(list: &mut Vec<String>, x: Vec<char>)
    ensures
        views(final(list)@) == push_unique(views(old(list)@), x@),
{
    let s = crate::text::string_of(x.as_slice());
    let mut i: usize = 0;
    while i < list.len()
        invariant
            i <= list.len(),
            s@ == x@,
            forall|j: int| 0 <= j < i ==> (#[trigger] list@[j])@ != x@,
        decreases list.len() - i,
    {
        if list[i] == s {
            proof {
                assert(views(list@)[i as int] == x@);
            }
            return;
        }
        i = i + 1;
    }
    proof {
        assert(!views(list@).contains(x@));
    }
    let ghost before = views(list@);
    list.push(s);
    assert(views(list@) =~= before.push(x@));
}

/// Parses the `nvm list available` table into its current and LTS columns.
pub fn parse_available_node_versions(stdout: &str) -> (r: (Vec<String>, Vec<String>))
    ensures
        (views(r.0@), views(r.1@)) == spec_available(lines(stdout@)),
{
    let v = chars_of(stdout);
    let ls = lines_of(v.as_slice());
    let ghost lv = lines(stdout@);
    let mut current: Vec<String> = Vec::new();
    let mut lts: Vec<String> = Vec::new();
    let mut i: usize = 0;
    while i < ls.len()
        invariant
            i <= ls.len(),
            ls@.map_values(|x: Vec<char>| x@) == lv,
            (views(current@), views(lts@)) == spec_available(lv.take(i as int)),
        decreases ls.len() - i,
    {
        let line = &ls[i];
        assert(line@ == lv[i as int]);
        assert(lv.take(i + 1).drop_last() =~= lv.take(i as int));
        assert(lv.take(i + 1).last() == lv[i as int]);
        let cols = split_chars(line.as_slice(), '|');
        let ghost cs = split_on(line@, '|');
        assert(cols@.len() == cs.len());
        if cols.len() >= 4 {
            let c1 = &cols[1];
            assert(c1@ == cs[1]);
            assert(c1@.subrange(0, c1@.len() as int) =~= c1@);
            assert(cells(line@)[1] == trim(cs[1]));
            proof {
                lemma_trim_idempotent_node(cs[1]);
            }
            match node_version_chars(c1.as_slice(), 0, c1.len()) {
                Some(x) => push_unique_string(&mut current, x),
                None => {},
            }
            let c2 = &cols[2];
            assert(c2@ == cs[2]);
            assert(c2@.subrange(0, c2@.len() as int) =~= c2@);
            assert(cells(line@)[2] == trim(cs[2]));
            proof {
                lemma_trim_idempotent_node(cs[2]);
            }
            match node_version_chars(c2.as_slice(), 0, c2.len()) {
                Some(x) => push_unique_string(&mut lts, x),
                None => {},
            }
        }
        i = i + 1;
    }
    assert(lv.take(ls.len() as int) =~= lv);
    (current, lts)
}

/// Normalizing a trimmed cell is the same as normalizing the cell.
proof fn lemma_trim_idempotent_node(s: Seq<char>)
    ensures
        spec_node_version(trim(s)) == spec_node_version(s),
{
    crate::text::lemma_trim_idempotent(s);
}

/// The MySQL port in `[mysqld]` of a `my.ini`: the first `port` line there
/// whose value (after `=` and whitespace) parses as a port.
pub open spec fn port_in_lines(ls: Seq<Seq<char>>, in_mysqld: bool) -> Option<u16>
    decreases ls.len(),
{
    if ls.len() == 0 {
        None
    } else {
        let line = trim(ls[0]);
        if line.len() > 0 && line[0] == '[' && line.last() == ']' {
            port_in_lines(ls.drop_first(), eq_ignore_ascii_case(line, "[mysqld]"@))
        } else if !in_mysqld || !has_prefix(line, "port"@) {
            port_in_lines(ls.drop_first(), in_mysqld)
        } else {
            let rest = line.skip(4);
            let value = rest.skip(lead_count(rest, |c: char| c == '=' || is_ws(c)) as int);
            match spec_parse_unsigned(trim(value), 65535) {
                Some(p) => Some(p as u16),
                None => port_in_lines(ls.drop_first(), in_mysqld),
            }
        }
    }
}

pub open spec fn spec_my_ini_port(content: Seq<char>) -> Option<u16> {
    port_in_lines(lines(content), false)
}

fn skip_eq_ws(v: &[char], from: usize) -> (end: usize)
    requires
        from <= v.len(),
    ensures
        from <= end <= v.len(),
        end - from == lead_count(
            v@.subrange(from as int, v.len() as int),
            |c: char| c == '=' || is_ws(c),
        ),
{
    let ghost s = v@.subrange(from as int, v.len() as int);
    let ghost p = |c: char| c == '=' || is_ws(c);
    let mut i = from;
    while i < v.len() && (v[i] == '=' || is_whitespace(v[i]))
        invariant
            from <= i <= v.len(),
            forall|j: int| from <= j < i ==> (#[trigger] v@[j] == '=' || is_ws(v@[j])),
        decreases v.len() - i,
    {
        i = i + 1;
    }
    proof {
        assert forall|j: int| 0 <= j < i - from implies p(#[trigger] s[j]) by {
            assert(s[j] == v@[from + j]);
        }
        if i < v.len() {
            assert(s[i - from] == v@[i as int]);
        }
        lemma_lead_count_unique(s, p, i - from);
    }
    i
}

/// Reads the `[mysqld]` port out of the text of a `my.ini`.
pub fn port_from_my_ini(content: &str) -> (r: Option<u16>)
    ensures
        r == spec_my_ini_port(content@),
{
    let v = chars_of(content);
    let ls = lines_of(v.as_slice());
    let ghost lv = lines(content@);
    let section = chars_of("[mysqld]");
    let port = chars_of("port");
    proof {
        reveal_strlit("[mysqld]");
        reveal_strlit("port");
    }
    let mut in_mysqld = false;
    let mut i: usize = 0;
    assert(lv.skip(0) =~= lv);
    assert(port@.len() == 4);
    while i < ls.len()
        invariant
            i <= ls.len(),
            ls@.map_values(|x: Vec<char>| x@) == lv,
            section@ == "[mysqld]"@,
            port@ == "port"@,
            port@.len() == 4,
            spec_my_ini_port(content@) == port_in_lines(lv.skip(i as int), in_mysqld),
            lv == lines(content@),
        decreases ls.len() - i,
    {
        let line = &ls[i];
        assert(line@ == lv[i as int]);
        assert(lv.skip(i as int)[0] == lv[i as int]);
        assert(lv.skip(i as int).drop_first() =~= lv.skip(i + 1));
        let (a, b) = trim_bounds(line.as_slice(), 0, line.len());
        assert(line@.subrange(0, line@.len() as int) =~= line@);
        let t = sub_vec(line.as_slice(), a, b);
        assert(t@.skip(0) =~= t@);
        if t.len() > 0 && t[0] == '[' && t[t.len() - 1] == ']' {
            in_mysqld = chars_eq_ignore_ascii_case(t.as_slice(), section.as_slice());
        } else if in_mysqld && starts_with_at(t.as_slice(), 0, port.as_slice()) {
            let e = skip_eq_ws(t.as_slice(), 4);
            assert(t@.subrange(4, t@.len() as int) =~= t@.skip(4));
            let (c, d) = trim_bounds(t.as_slice(), e, t.len());
            assert(t@.subrange(e as int, t@.len() as int) =~= t@.skip(4).skip(e - 4));
            match parse_unsigned(t.as_slice(), c, d, 65535) {
                Some(p) => {
                    return Some(p as u16);
                },
                None => {},
            }
        }
        i = i + 1;
    }
    None
}


/// The tools looked for on the system, in the order they are reported.
pub open spec fn spec_detect_target(name: Seq<char>) -> crate::post_install::ToolTask {
    if name == "composer"@ {
        crate::post_install::ToolTask::Composer
    } else if name == "nvm"@ {
        crate::post_install::ToolTask::Nvm
    } else {
        crate::post_install::ToolTask::Nothing
    }
}

/// Which detection a tool name runs: composer's, nvm's, or none.
pub fn detect(name: &str) -> (t: crate::post_install::ToolTask)
    ensures
        t == spec_detect_target(name@),
{
    if crate::text::str_eq(name, "composer") {
        crate::post_install::ToolTask::Composer
    } else if crate::text::str_eq(name, "nvm") {
        crate::post_install::ToolTask::Nvm
    } else {
        crate::post_install::ToolTask::Nothing
    }
}

/// The tools found, composer first, then nvm.
pub fn detect_all(composer: Option<DetectedTool>, nvm: Option<DetectedTool>) -> (out: Vec<DetectedTool>)
    ensures
        out@ == (match composer {
            Some(c) => seq![c],
            None => seq![],
        }) + (match nvm {
            Some(n) => seq![n],
            None => seq![],
        }),
{
    let ghost c0 = composer;
    let ghost n0 = nvm;
    let mut out: Vec<DetectedTool> = Vec::new();
    match composer {
        Some(c) => out.push(c),
        None => {},
    }
    match nvm {
        Some(n) => out.push(n),
        None => {},
    }
    assert(out@ =~= (match c0 {
        Some(c) => seq![c],
        None => seq![],
    }) + (match n0 {
        Some(n) => seq![n],
        None => seq![],
    }));
    out
}

/// `NVM_HOME`, where it is set and not empty.
pub fn get_nvm_home(value: Option<String>) -> (home: Option<String>)
    ensures
        home == (match value {
            Some(v) => if v@.len() > 0 {
                Some(v)
            } else {
                None
            },
            None => None,
        }),
{
    match value {
        Some(v) => if v.as_str().is_empty() {
            None
        } else {
            Some(v)
        },
        None => None,
    }
}

/// The trimmed value of a `key: value` line whose trimmed key is `path`
/// (ASCII case ignored), where it is not empty.
pub open spec fn line_path(l: Seq<char>) -> Option<Seq<char>> {
    match crate::text::index_of(l, ':') {
        Some(i) => if eq_ignore_ascii_case(trim(l.take(i)), "path"@) && trim(l.skip(i + 1)).len() > 0 {
            Some(trim(l.skip(i + 1)))
        } else {
            None
        },
        None => None,
    }
}

/// The `path` entry of nvm's `settings.txt`: the first line that has one.
pub open spec fn settings_path(ls: Seq<Seq<char>>) -> Option<Seq<char>>
    decreases ls.len(),
{
    if ls.len() == 0 {
        None
    } else {
        match line_path(ls[0]) {
            Some(p) => Some(p),
            None => settings_path(ls.drop_first()),
        }
    }
}

fn trimmed_piece(l: &[char], from: usize, to: usize) -> (t: Vec<char>)
    requires
        from <= to <= l.len(),
    ensures
        t@ == trim(l@.subrange(from as int, to as int)),
{
    let (a, b) = trim_bounds(l, from, to);
    sub_vec(l, a, b)
}

fn line_path_exec(l: &[char], key: &[char]) -> (r: Option<String>)
    requires
        key@ == "path"@,
    ensures
        opt_string_view(r) == line_path(l@),
{
    match crate::text::find_char(l, ':') {
        Some(i) => {
            let kv = trimmed_piece(l, 0, i);
            assert(l@.subrange(0, i as int) =~= l@.take(i as int));
            if !chars_eq_ignore_ascii_case(kv.as_slice(), key) {
                return None;
            }
            let vv = trimmed_piece(l, i + 1, l.len());
            assert(l@.subrange(i + 1, l@.len() as int) =~= l@.skip(i + 1));
            if vv.len() > 0 {
                Some(crate::text::string_of(vv.as_slice()))
            } else {
                None
            }
        },
        None => None,
    }
}

/// nvm's link to the current Node.js: `NVM_SYMLINK` where set and not
/// empty, else the `path` in nvm's `settings.txt`.
pub open spec fn spec_nvm_symlink(env: Option<Seq<char>>, settings: Option<Seq<char>>) -> Option<Seq<char>> {
    match env {
        Some(e) => if e.len() > 0 {
            Some(e)
        } else {
            match settings {
                Some(t) => settings_path(lines(t)),
                None => None,
            }
        },
        None => match settings {
            Some(t) => settings_path(lines(t)),
            None => None,
        },
    }
}

fn settings_path_exec(ls: &Vec<Vec<char>>) -> (r: Option<String>)
    ensures
        opt_string_view(r) == settings_path(ls@.map_values(|x: Vec<char>| x@)),
{
    let ghost all = ls@.map_values(|x: Vec<char>| x@);
    let key = chars_of("path");
    let mut k: usize = 0;
    assert(all.skip(0) =~= all);
    while k < ls.len()
        invariant
            k <= ls.len(),
            all == ls@.map_values(|x: Vec<char>| x@),
            key@ == "path"@,
            settings_path(all) == settings_path(all.skip(k as int)),
        decreases ls.len() - k,
    {
        let l = &ls[k];
        assert(l@ == all[k as int]);
        assert(all.skip(k as int)[0] == all[k as int]);
        assert(all.skip(k as int).drop_first() =~= all.skip(k + 1));
        let found = line_path_exec(l.as_slice(), key.as_slice());
        match found {
            Some(p) => {
                return Some(p);
            },
            None => {},
        }
        k = k + 1;
    }
    assert(all.skip(k as int).len() == 0);
    None
}

pub fn nvm_symlink(env: Option<String>, settings: Option<String>) -> (r: Option<String>)
    ensures
        opt_string_view(r) == spec_nvm_symlink(opt_string_view(env), opt_string_view(settings)),
{
    match env {
        Some(e) => {
            if !e.as_str().is_empty() {
                return Some(e);
            }
        },
        None => {},
    }
    match settings {
        Some(t) => {
            let ls = lines_of(chars_of(t.as_str()).as_slice());
            settings_path_exec(&ls)
        },
        None => None,
    }
}

/// A composer found inside a development build's resources
/// (`\target\debug\extensions\` or `\target\release\extensions\`, `/` as `\`,
/// lower-cased): NaxOne's own, not the user's.
pub fn is_dev_build_resource(path: &str) -> (b: bool)
    ensures
        b == (crate::store::holds(crate::store::path_key(path@), "\\target\\debug\\extensions\\"@)
            || crate::store::holds(
            crate::store::path_key(path@),
            "\\target\\release\\extensions\\"@,
        )),
{
    let r = crate::text::string_of(
        crate::text::replace_chars(chars_of(path).as_slice(), '/', '\\').as_slice(),
    );
    let k = chars_of(crate::service::to_lowercase(r.as_str()).as_str());
    crate::text::contains_chars(k.as_slice(), chars_of("\\target\\debug\\extensions\\").as_slice())
        || crate::text::contains_chars(
        k.as_slice(),
        chars_of("\\target\\release\\extensions\\").as_slice(),
    )
}

pub open spec fn tool_view(t: DetectedTool) -> (Seq<char>, Seq<char>, Seq<char>) {
    (t.name@, t.version@, t.install_path@)
}

/// What one composer found in `PATH` (in directory `install_path`) is
/// reported as: the version it prints itself; else, where `composer.phar`
/// lies beside it, the version it prints run by NaxOne's PHP, else the one
/// written in the archive, else `?`. Without the archive the candidate is
/// passed over (none).
pub open spec fn spec_composer_found(
    install_path: Seq<char>,
    run: Option<Seq<char>>,
    phar_exists: bool,
    via_php: Option<Seq<char>>,
    in_phar: Option<Seq<char>>,
) -> Option<(Seq<char>, Seq<char>, Seq<char>)> {
    match run {
        Some(v) => Some(("composer"@, v, install_path)),
        None => if !phar_exists {
            None
        } else {
            match via_php {
                Some(v) => Some(("composer"@, v, install_path)),
                None => match in_phar {
                    Some(v) => Some(("composer"@, v, install_path)),
                    None => Some(("composer"@, "?"@, install_path)),
                },
            }
        },
    }
}

pub fn composer_found(
    install_path: &str,
    run: Option<String>,
    phar_exists: bool,
    via_php: Option<String>,
    in_phar: Option<String>,
) -> (r: Option<DetectedTool>)
    ensures
        match r {
            Some(t) => spec_composer_found(
                install_path@,
                opt_string_view(run),
                phar_exists,
                opt_string_view(via_php),
                opt_string_view(in_phar),
            ) == Some(tool_view(t)),
            None => spec_composer_found(
                install_path@,
                opt_string_view(run),
                phar_exists,
                opt_string_view(via_php),
                opt_string_view(in_phar),
            ) is None,
        },
{
    let version = match run {
        Some(v) => v,
        None => {
            if !phar_exists {
                return None;
            }
            match via_php {
                Some(v) => v,
                None => match in_phar {
                    Some(v) => v,
                    None => "?".to_owned(),
                },
            }
        },
    };
    Some(DetectedTool { name: "composer".to_owned(), version, install_path: install_path.to_owned() })
}

/// The nvm found at `NVM_HOME` (not one of NaxOne's own): reported where
/// `nvm.exe` exists and printed its version.
pub fn nvm_found(home: &str, exe_exists: bool, version: Option<String>) -> (r: Option<DetectedTool>)
    ensures
        match r {
            Some(t) => exe_exists && version is Some && tool_view(t) == ("nvm"@, version->0@, home@),
            None => !exe_exists || version is None,
        },
{
    if !exe_exists {
        return None;
    }
    match version {
        Some(v) => Some(DetectedTool { name: "nvm".to_owned(), version: v, install_path: home.to_owned() }),
        None => None,
    }
}

} // verus!
