//! Edits of `php.ini` text: setting a directive, enabling `extension_dir`
//! and single extensions, and the hardening given to a fresh PHP install.
//! Each edit works line by line (as `str::lines` splits) and joins the lines
//! back with `\n`; where no line fits, it appends to the text instead.
use vstd::prelude::*;

use crate::text::{
    chars_of, chars_eq_ignore_ascii_case, contains_chars, eq_ignore_ascii_case,
    find_char, first_index, index_of, has_prefix, is_char, join_lines, join_with_newlines, lemma_first_index,
    lemma_subrange_whole, lines, lines_of, occurs_at, push_all, replace_char, replace_chars,
    starts_with_at, string_of, sub_vec, trim, trim_bounds, trim_by, trim_matching, trim_start,
    char_views, chars_equal, lacks, lead_ws, lemma_index_of, lemma_lines_lack_newline,
    lemma_split_join, lemma_split_on_extend, lemma_split_on_len, lemma_trim_by_len,
    lemma_trim_keeps_end, split_on, strip_cr, is_ws, lemma_lead_ws_unique,
    lemma_trail_ws_unique, lemma_lead_ws, split_chars,
};

verus! {

/// A trimmed line that is a comment: it starts with `;` or `#`.
pub open spec fn is_comment(t: Seq<char>) -> bool {
    t.len() > 0 && (t[0] == ';' || t[0] == '#')
}

/// For `k = v` text whose trimmed `k` equals `key` (ASCII case ignored):
/// what follows the first `=`.
pub open spec fn value_for(t: Seq<char>, key: Seq<char>) -> Option<Seq<char>> {
    match index_of(t, '=') {
        Some(i) => if eq_ignore_ascii_case(trim(t.take(i)), key) {
            Some(t.skip(i + 1))
        } else {
            None
        },
        None => None,
    }
}

/// The value of an active (not commented) `key = value` line.
pub open spec fn active_value(line: Seq<char>, key: Seq<char>) -> Option<Seq<char>> {
    let t = trim_start(line);
    if is_comment(t) {
        None
    } else {
        value_for(t, key)
    }
}

/// The value of a `;key = value` line, commented out with `;`.
pub open spec fn commented_value(line: Seq<char>, key: Seq<char>) -> Option<Seq<char>> {
    let t = trim_start(line);
    if t.len() > 0 && t[0] == ';' {
        value_for(trim_start(t.drop_first()), key)
    } else {
        None
    }
}

/// A value with blanks, then double quotes, then single quotes taken off both ends.
pub open spec fn unquote(v: Seq<char>) -> Seq<char> {
    trim_by(trim_by(trim(v), is_char('"')), is_char('\''))
}

/// `key = "value"`.
pub open spec fn directive_line(key: Seq<char>, value: Seq<char>) -> Seq<char> {
    key + " = \""@ + value + "\""@
}

/// `\n` unless the text is empty or already ends with one.
pub open spec fn separator_after(content: Seq<char>) -> Seq<char> {
    if content.len() == 0 || content.last() == '\n' {
        seq![]
    } else {
        seq!['\n']
    }
}

/// `\n` unless the text already ends with one (an empty text gets one).
pub open spec fn newline_unless_ended(content: Seq<char>) -> Seq<char> {
    if content.len() > 0 && content.last() == '\n' {
        seq![]
    } else {
        seq!['\n']
    }
}

/// Lines that name directive `key`, active or commented out with `;`.
pub open spec fn names_directive(key: Seq<char>) -> spec_fn(Seq<char>) -> bool {
    |line: Seq<char>| active_value(line, key) is Some || commented_value(line, key) is Some
}

/// Active (not commented) lines for directive `key`.
pub open spec fn sets_directive(key: Seq<char>) -> spec_fn(Seq<char>) -> bool {
    |line: Seq<char>| active_value(line, key) is Some
}

/// What the first active line for `key` becomes: kept where it already
/// holds `value` (quotes and blanks aside), else `key = "value"`.
pub open spec fn set_line(line: Seq<char>, key: Seq<char>, value: Seq<char>) -> Seq<char> {
    match active_value(line, key) {
        Some(v) => if unquote(v) == value {
            line
        } else {
            directive_line(key, value)
        },
        None => directive_line(key, value),
    }
}

/// The note written above a directive that had to be appended.
pub open spec fn injected_note() -> Seq<char> {
    "\n; ↓ NaxOne 注入：让 PHP curl / OpenSSL 信任本地 dev CA\n"@
}

/// The first active line for `key` is set (see `set_line`); with none, the
/// first line commented out with `;` that names it becomes `key = "value"`;
/// with neither, a note and the directive are appended.
pub open spec fn spec_set_ini_directive(content: Seq<char>, key: Seq<char>, value: Seq<char>) -> Seq<char> {
    let ls = lines(content);
    match first_index(ls, sets_directive(key)) {
        Some(i) => join_lines(ls.update(i, set_line(ls[i], key, value))),
        None => match first_index(ls, names_directive(key)) {
            Some(i) => join_lines(ls.update(i, directive_line(key, value))),
            None => content + separator_after(content) + injected_note() + directive_line(
                key,
                value,
            ) + seq!['\n'],
        },
    }
}

fn value_for_exec(t: &[char], key: &[char]) -> (r: Option<Vec<char>>)
    ensures
        match value_for(t@, key@) {
            Some(v) => r is Some && r->0@ == v,
            None => r is None,
        },
{
    match find_char(t, '=') {
        Some(i) => {
            let (a, b) = trim_bounds(t, 0, i);
            assert(t@.subrange(0, i as int) =~= t@.take(i as int));
            let k = sub_vec(t, a, b);
            if chars_eq_ignore_ascii_case(k.as_slice(), key) {
                let v = sub_vec(t, i + 1, t.len());
                assert(v@ =~= t@.skip(i + 1));
                Some(v)
            } else {
                None
            }
        },
        None => None,
    }
}

/// `trim_start` of a whole character vector.
fn trimmed_start(line: &[char]) -> (t: Vec<char>)
    ensures
        t@ == trim_start(line@),
{
    let (a, _b) = trim_bounds(line, 0, line.len());
    proof {
        lemma_subrange_whole(line@);
    }
    sub_vec(line, a, line.len())
}

fn active_value_exec(line: &[char], key: &[char]) -> (r: Option<Vec<char>>)
    ensures
        match active_value(line@, key@) {
            Some(v) => r is Some && r->0@ == v,
            None => r is None,
        },
{
    let t = trimmed_start(line);
    if t.len() > 0 && (t[0] == ';' || t[0] == '#') {
        None
    } else {
        value_for_exec(t.as_slice(), key)
    }
}

fn commented_value_exec(line: &[char], key: &[char]) -> (r: Option<Vec<char>>)
    ensures
        match commented_value(line@, key@) {
            Some(v) => r is Some && r->0@ == v,
            None => r is None,
        },
{
    let t = trimmed_start(line);
    if t.len() > 0 && t[0] == ';' {
        let rest = sub_vec(t.as_slice(), 1, t.len());
        assert(rest@ =~= t@.drop_first());
        let body = trimmed_start(rest.as_slice());
        value_for_exec(body.as_slice(), key)
    } else {
        None
    }
}

fn unquote_exec(v: &[char]) -> (u: Vec<char>)
    ensures
        u@ == unquote(v@),
{
    let (a, b) = trim_bounds(v, 0, v.len());
    proof {
        lemma_subrange_whole(v@);
    }
    let t = sub_vec(v, a, b);
    let t2 = trim_matching(t.as_slice(), '"');
    trim_matching(t2.as_slice(), '\'')
}

fn directive_line_exec(key: &[char], value: &[char]) -> (out: Vec<char>)
    ensures
        out@ == directive_line(key@, value@),
{
    let mut out: Vec<char> = Vec::new();
    push_all(&mut out, key);
    let mid = chars_of(" = \"");
    push_all(&mut out, mid.as_slice());
    push_all(&mut out, value);
    let end = chars_of("\"");
    push_all(&mut out, end.as_slice());
    assert(out@ =~= directive_line(key@, value@));
    out
}

/// `content` followed by the given pieces, as a string.
fn appended(content: &[char], tail: &[char]) -> (s: String)
    ensures
        s@ == content@ + tail@,
{
    let mut out: Vec<char> = Vec::new();
    push_all(&mut out, content);
    push_all(&mut out, tail);
    string_of(out.as_slice())
}

/// The lines of `ls` joined with `\n`, line `i` replaced by `line`.
fn join_replacing(ls: Vec<Vec<char>>, i: usize, line: Vec<char>) -> (s: String)
    requires
        i < ls.len(),
    ensures
        s@ == join_lines(char_views(ls@).update(i as int, line@)),
{
    let mut ls = ls;
    let ghost before = char_views(ls@);
    ls.set(i, line);
    assert(char_views(ls@) =~= before.update(i as int, line@));
    let joined = join_with_newlines(&ls);
    string_of(joined.as_slice())
}

/// Sets directive `key` to `value`: the first active line for it becomes
/// `key = "value"`, unless it already holds that value; with no active
/// line, the first `;key = ...` line is un-commented the same way; with
/// neither, a note and the directive are appended.
pub fn set_ini_directive(content: &str, key: &str, value: &str) -> (out: String)
    ensures
        out@ == spec_set_ini_directive(content@, key@, value@),
{
    let cv = chars_of(content);
    let kv = chars_of(key);
    let vv = chars_of(value);
    let ls = lines_of(cv.as_slice());
    let ghost lsv = lines(cv@);
    let ghost act = sets_directive(key@);
    let ghost p = names_directive(key@);
    let mut i: usize = 0;
    while i < ls.len()
        invariant
            i <= ls.len(),
            char_views(ls@) == lsv,
            kv@ == key@,
            act == sets_directive(key@),
            forall|j: int| 0 <= j < i ==> !act(#[trigger] lsv[j]),
        ensures
            i == ls.len() || act(lsv[i as int]),
        decreases ls.len() - i,
    {
        assert(ls@[i as int]@ == lsv[i as int]);
        let hit = match active_value_exec(ls[i].as_slice(), kv.as_slice()) {
            Some(_) => true,
            None => false,
        };
        if hit {
            break;
        }
        i = i + 1;
    }
    proof {
        lemma_first_index(lsv, act, i as int);
    }
    let target = directive_line_exec(kv.as_slice(), vv.as_slice());
    if i < ls.len() {
        assert(ls@[i as int]@ == lsv[i as int]);
        let line: Vec<char> = match active_value_exec(ls[i].as_slice(), kv.as_slice()) {
            Some(v) => {
                let u = unquote_exec(v.as_slice());
                if chars_equal(u.as_slice(), vv.as_slice()) {
                    proof {
                        lemma_subrange_whole(ls@[i as int]@);
                    }
                    sub_vec(ls[i].as_slice(), 0, ls[i].len())
                } else {
                    target
                }
            },
            None => target,
        };
        return join_replacing(ls, i, line);
    }
    let mut c: usize = 0;
    while c < ls.len()
        invariant
            c <= ls.len(),
            char_views(ls@) == lsv,
            kv@ == key@,
            p == names_directive(key@),
            forall|j: int| 0 <= j < c ==> !p(#[trigger] lsv[j]),
        ensures
            c == ls.len() || p(lsv[c as int]),
        decreases ls.len() - c,
    {
        assert(ls@[c as int]@ == lsv[c as int]);
        let hit = match active_value_exec(ls[c].as_slice(), kv.as_slice()) {
            Some(_) => true,
            None => match commented_value_exec(ls[c].as_slice(), kv.as_slice()) {
                Some(_) => true,
                None => false,
            },
        };
        if hit {
            break;
        }
        c = c + 1;
    }
    proof {
        lemma_first_index(lsv, p, c as int);
    }
    if c < ls.len() {
        join_replacing(ls, c, target)
    } else {
        let mut tail: Vec<char> = Vec::new();
        if !(cv.len() == 0 || cv[cv.len() - 1] == '\n') {
            tail.push('\n');
        }
        let note = chars_of("\n; ↓ NaxOne 注入：让 PHP curl / OpenSSL 信任本地 dev CA\n");
        push_all(&mut tail, note.as_slice());
        push_all(&mut tail, target.as_slice());
        tail.push('\n');
        assert(tail@ =~= separator_after(cv@) + injected_note() + directive_line(key@, value@)
            + seq!['\n']);
        let s = appended(cv.as_slice(), tail.as_slice());
        assert(s@ =~= spec_set_ini_directive(content@, key@, value@));
        s
    }
}


/// Lines commented out with `;` that set `extension_dir` to something
/// holding `"ext"`.
pub open spec fn offers_ext_dir() -> spec_fn(Seq<char>) -> bool {
    |line: Seq<char>|
        match commented_value(line, "extension_dir"@) {
            Some(v) => exists|k: int| occurs_at(v, "\"ext\""@, k),
            None => false,
        }
}

/// `extension_dir = "ext"`.
pub open spec fn ext_dir_line() -> Seq<char> {
    "extension_dir = \"ext\""@
}

pub open spec fn spec_enable_extension_dir(content: Seq<char>) -> Seq<char> {
    let ls = lines(content);
    match first_index(ls, offers_ext_dir()) {
        Some(i) => join_lines(ls.update(i, ext_dir_line())),
        None => content + newline_unless_ended(content) + ext_dir_line() + seq!['\n'],
    }
}

/// Un-comments the first `;extension_dir = ..."ext"...` line; with no such
/// line, appends `extension_dir = "ext"`.
pub fn enable_extension_dir(content: &str) -> (out: String)
    ensures
        out@ == spec_enable_extension_dir(content@),
{
    let cv = chars_of(content);
    let key = chars_of("extension_dir");
    let quoted = chars_of("\"ext\"");
    let ls = lines_of(cv.as_slice());
    let ghost lsv = lines(cv@);
    let ghost p = offers_ext_dir();
    let mut i: usize = 0;
    while i < ls.len()
        invariant
            i <= ls.len(),
            char_views(ls@) == lsv,
            key@ == "extension_dir"@,
            quoted@ == "\"ext\""@,
            p == offers_ext_dir(),
            forall|j: int| 0 <= j < i ==> !p(#[trigger] lsv[j]),
        ensures
            i == ls.len() || p(lsv[i as int]),
        decreases ls.len() - i,
    {
        assert(ls@[i as int]@ == lsv[i as int]);
        let hit = match commented_value_exec(ls[i].as_slice(), key.as_slice()) {
            Some(v) => contains_chars(v.as_slice(), quoted.as_slice()),
            None => false,
        };
        if hit {
            break;
        }
        i = i + 1;
    }
    proof {
        lemma_first_index(lsv, p, i as int);
    }
    let line = chars_of("extension_dir = \"ext\"");
    if i < ls.len() {
        join_replacing(ls, i, line)
    } else {
        let mut tail: Vec<char> = Vec::new();
        if !(cv.len() > 0 && cv[cv.len() - 1] == '\n') {
            tail.push('\n');
        }
        push_all(&mut tail, line.as_slice());
        tail.push('\n');
        assert(tail@ =~= newline_unless_ended(cv@) + ext_dir_line() + seq!['\n']);
        let s = appended(cv.as_slice(), tail.as_slice());
        assert(s@ =~= spec_enable_extension_dir(content@));
        s
    }
}

/// A value without its trailing comment: the text before the first `;`.
pub open spec fn without_comment(v: Seq<char>) -> Seq<char> {
    match index_of(v, ';') {
        Some(i) => v.take(i),
        None => v,
    }
}

/// An `extension=` value naming extension `name`, bare or as
/// `php_<name>.dll`, once a trailing `; comment` is taken off.
pub open spec fn extension_value_is(v: Seq<char>, name: Seq<char>) -> bool {
    let u = unquote(without_comment(v));
    eq_ignore_ascii_case(u, name) || eq_ignore_ascii_case(u, "php_"@ + name + ".dll"@)
}

/// Active lines that load extension `name`.
pub open spec fn loads_extension(name: Seq<char>) -> spec_fn(Seq<char>) -> bool {
    |line: Seq<char>|
        match active_value(line, "extension"@) {
            Some(v) => extension_value_is(v, name),
            None => false,
        }
}

/// Lines commented out with `;` that would load extension `name`.
pub open spec fn offers_extension(name: Seq<char>) -> spec_fn(Seq<char>) -> bool {
    |line: Seq<char>|
        match commented_value(line, "extension"@) {
            Some(v) => extension_value_is(v, name),
            None => false,
        }
}

/// `extension=<name>`.
pub open spec fn extension_line(name: Seq<char>) -> Seq<char> {
    "extension="@ + name
}

pub open spec fn spec_enable_extension(content: Seq<char>, name: Seq<char>) -> Seq<char> {
    let ls = lines(content);
    if first_index(ls, loads_extension(name)) is Some {
        content
    } else {
        match first_index(ls, offers_extension(name)) {
            Some(i) => join_lines(ls.update(i, extension_line(name))),
            None => content + newline_unless_ended(content) + extension_line(name) + seq!['\n'],
        }
    }
}

fn without_comment_exec(v: &[char]) -> (r: Vec<char>)
    ensures
        r@ == without_comment(v@),
{
    match find_char(v, ';') {
        Some(i) => {
            let r = sub_vec(v, 0, i);
            assert(r@ =~= v@.take(i as int));
            r
        },
        None => {
            proof {
                lemma_subrange_whole(v@);
            }
            sub_vec(v, 0, v.len())
        },
    }
}

fn extension_value_is_exec(v: &[char], name: &[char], dll: &[char]) -> (r: bool)
    requires
        dll@ == "php_"@ + name@ + ".dll"@,
    ensures
        r == extension_value_is(v@, name@),
{
    let body = without_comment_exec(v);
    let u = unquote_exec(body.as_slice());
    chars_eq_ignore_ascii_case(u.as_slice(), name) || chars_eq_ignore_ascii_case(
        u.as_slice(),
        dll,
    )
}

/// Enables extension `name`: nothing changes where an active line already
/// loads it; else the first `;extension=<name>` line is un-commented; with
/// no such line, `extension=<name>` is appended.
pub fn enable_extension(content: &str, ext_name: &str) -> (out: String)
    ensures
        out@ == spec_enable_extension(content@, ext_name@),
{
    let cv = chars_of(content);
    let nv = chars_of(ext_name);
    let key = chars_of("extension");
    let mut dll = chars_of("php_");
    push_all(&mut dll, nv.as_slice());
    let suffix = chars_of(".dll");
    push_all(&mut dll, suffix.as_slice());
    let ls = lines_of(cv.as_slice());
    let ghost lsv = lines(cv@);
    let ghost loads = loads_extension(ext_name@);
    let ghost offers = offers_extension(ext_name@);
    let mut i: usize = 0;
    while i < ls.len()
        invariant
            i <= ls.len(),
            char_views(ls@) == lsv,
            key@ == "extension"@,
            nv@ == ext_name@,
            dll@ == "php_"@ + nv@ + ".dll"@,
            loads == loads_extension(ext_name@),
            forall|j: int| 0 <= j < i ==> !loads(#[trigger] lsv[j]),
        ensures
            i == ls.len() || loads(lsv[i as int]),
        decreases ls.len() - i,
    {
        assert(ls@[i as int]@ == lsv[i as int]);
        let hit = match active_value_exec(ls[i].as_slice(), key.as_slice()) {
            Some(v) => extension_value_is_exec(v.as_slice(), nv.as_slice(), dll.as_slice()),
            None => false,
        };
        if hit {
            break;
        }
        i = i + 1;
    }
    proof {
        lemma_first_index(lsv, loads, i as int);
    }
    if i < ls.len() {
        return content.to_owned();
    }
    let mut k: usize = 0;
    while k < ls.len()
        invariant
            k <= ls.len(),
            char_views(ls@) == lsv,
            key@ == "extension"@,
            nv@ == ext_name@,
            dll@ == "php_"@ + nv@ + ".dll"@,
            offers == offers_extension(ext_name@),
            forall|j: int| 0 <= j < k ==> !offers(#[trigger] lsv[j]),
        ensures
            k == ls.len() || offers(lsv[k as int]),
        decreases ls.len() - k,
    {
        assert(ls@[k as int]@ == lsv[k as int]);
        let hit = match commented_value_exec(ls[k].as_slice(), key.as_slice()) {
            Some(v) => extension_value_is_exec(v.as_slice(), nv.as_slice(), dll.as_slice()),
            None => false,
        };
        if hit {
            break;
        }
        k = k + 1;
    }
    proof {
        lemma_first_index(lsv, offers, k as int);
    }
    let mut line = chars_of("extension=");
    push_all(&mut line, nv.as_slice());
    if k < ls.len() {
        join_replacing(ls, k, line)
    } else {
        let mut tail: Vec<char> = Vec::new();
        if !(cv.len() > 0 && cv[cv.len() - 1] == '\n') {
            tail.push('\n');
        }
        push_all(&mut tail, line.as_slice());
        tail.push('\n');
        assert(tail@ =~= newline_unless_ended(cv@) + extension_line(ext_name@) + seq!['\n']);
        let s = appended(cv.as_slice(), tail.as_slice());
        assert(s@ =~= spec_enable_extension(content@, ext_name@));
        s
    }
}

/// Lines that set `extension_dir` actively.
pub open spec fn sets_extension_dir() -> spec_fn(Seq<char>) -> bool {
    |line: Seq<char>| active_value(line, "extension_dir"@) is Some
}

/// Whether some active line sets `extension_dir`.
pub fn has_active_extension_dir(content: &str) -> (b: bool)
    ensures
        b == (first_index(lines(content@), sets_extension_dir()) is Some),
{
    let cv = chars_of(content);
    let key = chars_of("extension_dir");
    let ls = lines_of(cv.as_slice());
    let ghost lsv = lines(cv@);
    let ghost p = sets_extension_dir();
    let mut i: usize = 0;
    while i < ls.len()
        invariant
            i <= ls.len(),
            char_views(ls@) == lsv,
            key@ == "extension_dir"@,
            p == sets_extension_dir(),
            forall|j: int| 0 <= j < i ==> !p(#[trigger] lsv[j]),
        ensures
            i == ls.len() || p(lsv[i as int]),
        decreases ls.len() - i,
    {
        assert(ls@[i as int]@ == lsv[i as int]);
        let hit = match active_value_exec(ls[i].as_slice(), key.as_slice()) {
            Some(_) => true,
            None => false,
        };
        if hit {
            break;
        }
        i = i + 1;
    }
    proof {
        lemma_first_index(lsv, p, i as int);
    }
    i < ls.len()
}


/// The extensions a PHP install gets enabled by default, each where its DLL
/// is present.
pub open spec fn php_default_extensions() -> Seq<Seq<char>> {
    seq![
        "openssl"@,
        "mbstring"@,
        "curl"@,
        "mysqli"@,
        "pdo_mysql"@,
        "pdo_sqlite"@,
        "sqlite3"@,
        "fileinfo"@,
        "gd"@,
        "zip"@,
        "bz2"@,
        "intl"@,
        "exif"@,
        "sockets"@,
        "gettext"@,
        "soap"@,
        "xsl"@,
    ]
}

/// The `k`-th default extension, if there is one.
pub fn php_default_extension(k: usize) -> (name: Option<&'static str>)
    ensures
        match name {
            Some(n) => k < php_default_extensions().len() && n@ == php_default_extensions()[k as int],
            None => k >= php_default_extensions().len(),
        },
{
    match k {
        0 => Some("openssl"),
        1 => Some("mbstring"),
        2 => Some("curl"),
        3 => Some("mysqli"),
        4 => Some("pdo_mysql"),
        5 => Some("pdo_sqlite"),
        6 => Some("sqlite3"),
        7 => Some("fileinfo"),
        8 => Some("gd"),
        9 => Some("zip"),
        10 => Some("bz2"),
        11 => Some("intl"),
        12 => Some("exif"),
        13 => Some("sockets"),
        14 => Some("gettext"),
        15 => Some("soap"),
        16 => Some("xsl"),
        _ => None,
    }
}

/// The first `k` default extensions enabled in turn, each only where
/// `present` marks its DLL as there.
pub open spec fn with_defaults_upto(c: Seq<char>, present: Seq<bool>, k: int) -> Seq<char>
    decreases k,
{
    if k <= 0 {
        c
    } else {
        let prev = with_defaults_upto(c, present, k - 1);
        if k - 1 < present.len() && present[k - 1] {
            spec_enable_extension(prev, php_default_extensions()[k - 1])
        } else {
            prev
        }
    }
}

pub open spec fn spec_php_ini_with_defaults(content: Seq<char>, present: Seq<bool>) -> Seq<char> {
    let c = if first_index(lines(content), sets_extension_dir()) is Some {
        content
    } else {
        spec_enable_extension_dir(content)
    };
    with_defaults_upto(c, present, php_default_extensions().len() as int)
}

/// The `php.ini` text a PHP install is given: `extension_dir` enabled where
/// no active line sets it, then each default extension enabled whose DLL is
/// present (`dll_present[k]` for the `k`-th; missing entries count as absent).
pub fn php_ini_with_defaults(content: &str, dll_present: &[bool]) -> (out: String)
    ensures
        out@ == spec_php_ini_with_defaults(content@, dll_present@),
{
    let mut text: String = if has_active_extension_dir(content) {
        content.to_owned()
    } else {
        enable_extension_dir(content)
    };
    let ghost c = text@;
    let mut k: usize = 0;
    while k < 17
        invariant
            k <= 17,
            php_default_extensions().len() == 17,
            text@ == with_defaults_upto(c, dll_present@, k as int),
        decreases 17 - k,
    {
        if k < dll_present.len() && dll_present[k] {
            match php_default_extension(k) {
                Some(name) => {
                    text = enable_extension(text.as_str(), name);
                },
                None => {},
            }
        }
        k = k + 1;
    }
    text
}

/// The extensions hardening enables.
pub open spec fn core_extensions() -> Seq<Seq<char>> {
    seq!["openssl"@, "curl"@, "mbstring"@, "fileinfo"@, "zip"@, "intl"@, "gd"@, "exif"@]
}

fn core_extension(k: usize) -> (name: &'static str)
    requires
        k < 8,
    ensures
        name@ == core_extensions()[k as int],
{
    match k {
        0 => "openssl",
        1 => "curl",
        2 => "mbstring",
        3 => "fileinfo",
        4 => "zip",
        5 => "intl",
        6 => "gd",
        _ => "exif",
    }
}

/// Lines that, trimmed at the start, begin with `extension_dir` (and so not
/// with `;`).
pub open spec fn starts_extension_dir() -> spec_fn(Seq<char>) -> bool {
    |line: Seq<char>|
        !has_prefix(trim_start(line), ";"@) && has_prefix(trim_start(line), "extension_dir"@)
}

/// The hardening marker and `extension_dir = "<dir>"`, with `\` turned into `/`.
pub open spec fn harden_ext_dir(text: Seq<char>, ext_dir: Seq<char>) -> Seq<char> {
    if first_index(lines(text), starts_extension_dir()) is Some {
        text
    } else {
        text + "\n; --- NaxOne harden ---\n"@ + "extension_dir = \""@ + replace_char(
            ext_dir,
            '\\',
            '/',
        ) + "\""@ + seq!['\n']
    }
}

/// A line's text before its comment, trimmed: what precedes the first `;`.
pub open spec fn line_body(line: Seq<char>) -> Seq<char> {
    trim(without_comment(trim(line)))
}

/// Lines whose body (the trimmed text before any `;` comment) is
/// `extension=<ext>` or begins with `extension=<ext>=`.
pub open spec fn enables(ext: Seq<char>) -> spec_fn(Seq<char>) -> bool {
    |line: Seq<char>|
        line_body(line) == "extension="@ + ext || has_prefix(line_body(line), "extension="@ + ext + "="@)
}

/// Lines commented out with `;` (after their leading blanks) whose body,
/// with that `;` gone, is exactly `extension=<ext>`.
pub open spec fn comments_out(ext: Seq<char>) -> spec_fn(Seq<char>) -> bool {
    |line: Seq<char>|
        has_prefix(trim_start(line), ";"@) && line_body(trim_start(line).skip(1)) == "extension="@ + ext
}

/// `s` without its character at `o`.
pub open spec fn without_at(s: Seq<char>, o: int) -> Seq<char> {
    s.take(o) + s.skip(o + 1)
}

/// The text with the `;` that opens its `i`-th line (after the line's
/// leading blanks) removed; every other character stays.
pub open spec fn uncomment_piece(text: Seq<char>, i: int) -> Seq<char> {
    let ps = split_on(text, '\n');
    join_lines(ps.update(i, without_at(ps[i], lead_ws(ps[i]) as int)))
}

/// One extension hardened: kept where a line enables it, else the first
/// line that comments out exactly `extension=<ext>` loses its `;`, else
/// `extension=<ext>` is appended on a line of its own.
pub open spec fn harden_one(text: Seq<char>, ext: Seq<char>) -> Seq<char> {
    let enabled = "extension="@ + ext;
    if first_index(lines(text), enables(ext)) is Some {
        text
    } else {
        match first_index(split_on(text, '\n'), comments_out(ext)) {
            Some(i) => uncomment_piece(text, i),
            None => text + seq!['\n'] + enabled + seq!['\n'],
        }
    }
}

pub open spec fn harden_upto(text: Seq<char>, k: int) -> Seq<char>
    decreases k,
{
    if k <= 0 {
        text
    } else {
        harden_one(harden_upto(text, k - 1), core_extensions()[k - 1])
    }
}

pub open spec fn spec_harden_php_ini(raw: Seq<char>, ext_dir: Seq<char>) -> Seq<char> {
    harden_upto(harden_ext_dir(raw, ext_dir), core_extensions().len() as int)
}

fn starts_extension_dir_exec(line: &[char], semi: &[char], key: &[char]) -> (b: bool)
    requires
        semi@ == ";"@,
        key@ == "extension_dir"@,
    ensures
        b == starts_extension_dir()(line@),
{
    let t = trimmed_start(line);
    assert(t@.skip(0) =~= t@);
    !starts_with_at(t.as_slice(), 0, semi) && starts_with_at(t.as_slice(), 0, key)
}

fn harden_ext_dir_exec(text: &[char], ext_dir: &[char]) -> (out: Vec<char>)
    ensures
        out@ == harden_ext_dir(text@, ext_dir@),
{
    let semi = chars_of(";");
    let key = chars_of("extension_dir");
    let ls = lines_of(text);
    let ghost lsv = lines(text@);
    let ghost p = starts_extension_dir();
    let mut i: usize = 0;
    while i < ls.len()
        invariant
            i <= ls.len(),
            char_views(ls@) == lsv,
            semi@ == ";"@,
            key@ == "extension_dir"@,
            p == starts_extension_dir(),
            forall|j: int| 0 <= j < i ==> !p(#[trigger] lsv[j]),
        ensures
            i == ls.len() || p(lsv[i as int]),
        decreases ls.len() - i,
    {
        assert(ls@[i as int]@ == lsv[i as int]);
        if starts_extension_dir_exec(ls[i].as_slice(), semi.as_slice(), key.as_slice()) {
            break;
        }
        i = i + 1;
    }
    proof {
        lemma_first_index(lsv, p, i as int);
    }
    let mut out: Vec<char> = Vec::new();
    push_all(&mut out, text);
    if i == ls.len() {
        let marker = chars_of("\n; --- NaxOne harden ---\n");
        push_all(&mut out, marker.as_slice());
        let open = chars_of("extension_dir = \"");
        push_all(&mut out, open.as_slice());
        let dir = replace_chars(ext_dir, '\\', '/');
        push_all(&mut out, dir.as_slice());
        let close = chars_of("\"");
        push_all(&mut out, close.as_slice());
        out.push('\n');
        assert(out@ =~= harden_ext_dir(text@, ext_dir@));
    }
    out
}

fn trimmed_all(line: &[char]) -> (t: Vec<char>)
    ensures
        t@ == trim(line@),
{
    let (a, e) = trim_bounds(line, 0, line.len());
    proof {
        lemma_subrange_whole(line@);
    }
    sub_vec(line, a, e)
}

fn enables_exec(line: &[char], enabled: &[char], with_eq: &[char]) -> (b: bool)
    ensures
        b == (line_body(line@) == enabled@ || has_prefix(line_body(line@), with_eq@)),
{
    let t0 = trimmed_all(line);
    let c = without_comment_exec(t0.as_slice());
    let t = trimmed_all(c.as_slice());
    assert(t@.skip(0) =~= t@);
    chars_equal(t.as_slice(), enabled) || starts_with_at(t.as_slice(), 0, with_eq)
}

fn some_line_enables(text: &[char], ext: &[char], enabled: &[char], with_eq: &[char]) -> (b: bool)
    requires
        enabled@ == "extension="@ + ext@,
        with_eq@ == "extension="@ + ext@ + "="@,
    ensures
        b == (first_index(lines(text@), enables(ext@)) is Some),
{
    let ls = lines_of(text);
    let ghost lsv = lines(text@);
    let ghost p = enables(ext@);
    let mut i: usize = 0;
    while i < ls.len()
        invariant
            i <= ls.len(),
            char_views(ls@) == lsv,
            enabled@ == "extension="@ + ext@,
            with_eq@ == "extension="@ + ext@ + "="@,
            p == enables(ext@),
            forall|j: int| 0 <= j < i ==> !p(#[trigger] lsv[j]),
        ensures
            i == ls.len() || p(lsv[i as int]),
        decreases ls.len() - i,
    {
        assert(ls@[i as int]@ == lsv[i as int]);
        if enables_exec(ls[i].as_slice(), enabled, with_eq) {
            break;
        }
        i = i + 1;
    }
    proof {
        lemma_first_index(lsv, p, i as int);
    }
    i < ls.len()
}

fn comments_out_exec(line: &[char], ext: &[char], enabled: &[char]) -> (b: bool)
    requires
        enabled@ == "extension="@ + ext@,
    ensures
        b == comments_out(ext@)(line@),
{
    let t = trimmed_start(line);
    proof {
        reveal_strlit(";");
    }
    if t.len() == 0 || t[0] != ';' {
        assert(!has_prefix(t@, ";"@)) by {
            if t@.len() > 0 {
                assert(t@.take(1)[0] == t@[0]);
            }
        }
        return false;
    }
    assert(t@.take(1) =~= ";"@);
    let rest = sub_vec(t.as_slice(), 1, t.len());
    assert(rest@ =~= t@.skip(1));
    let t0 = trimmed_all(rest.as_slice());
    let c = without_comment_exec(t0.as_slice());
    let body = trimmed_all(c.as_slice());
    chars_equal(body.as_slice(), enabled)
}

/// The first line that comments out `<enabled>` loses its `;`; with none,
/// `<enabled>` is appended on a line of its own.
fn uncomment_or_append(text: Vec<char>, ext: &[char], enabled: &[char]) -> (out: Vec<char>)
    requires
        enabled@ == "extension="@ + ext@,
    ensures
        out@ == match first_index(split_on(text@, '\n'), comments_out(ext@)) {
            Some(i) => uncomment_piece(text@, i),
            None => text@ + seq!['\n'] + enabled@ + seq!['\n'],
        },
{
    let mut pieces = split_chars(text.as_slice(), '\n');
    let ghost ps = split_on(text@, '\n');
    let ghost p = comments_out(ext@);
    let mut i: usize = 0;
    while i < pieces.len()
        invariant
            i <= pieces.len(),
            char_views(pieces@) == ps,
            enabled@ == "extension="@ + ext@,
            p == comments_out(ext@),
            forall|j: int| 0 <= j < i ==> !p(#[trigger] ps[j]),
        ensures
            i == pieces.len() || p(ps[i as int]),
        decreases pieces.len() - i,
    {
        assert(pieces@[i as int]@ == ps[i as int]);
        if comments_out_exec(pieces[i].as_slice(), ext, enabled) {
            break;
        }
        i = i + 1;
    }
    proof {
        lemma_first_index(ps, p, i as int);
    }
    if i < pieces.len() {
        let piece = pieces[i].clone();
        assert(piece@ == ps[i as int]);
        let t = trimmed_start(piece.as_slice());
        proof {
            lemma_lead_ws(piece@);
        }
        let o = piece.len() - t.len();
        assert(o == lead_ws(piece@));
        assert(t@.len() > 0) by {
            reveal_strlit(";");
        }
        let mut np = sub_vec(piece.as_slice(), 0, o);
        let rest = sub_vec(piece.as_slice(), o + 1, piece.len());
        push_all(&mut np, rest.as_slice());
        assert(np@ =~= without_at(ps[i as int], o as int));
        let ghost before = char_views(pieces@);
        pieces.set(i, np);
        assert(char_views(pieces@) =~= before.update(i as int, np@));
        join_with_newlines(&pieces)
    } else {
        let mut out = text;
        out.push('\n');
        push_all(&mut out, enabled);
        out.push('\n');
        out
    }
}

fn harden_one_exec(text: Vec<char>, ext: &str) -> (out: Vec<char>)
    ensures
        out@ == harden_one(text@, ext@),
{
    let mut enabled = chars_of("extension=");
    let ev = chars_of(ext);
    push_all(&mut enabled, ev.as_slice());
    let mut with_eq = chars_of("extension=");
    push_all(&mut with_eq, ev.as_slice());
    with_eq.push('=');
    assert(with_eq@ =~= "extension="@ + ext@ + "="@) by {
        reveal_strlit("=");
    }
    if some_line_enables(text.as_slice(), ev.as_slice(), enabled.as_slice(), with_eq.as_slice()) {
        text
    } else {
        uncomment_or_append(text, ev.as_slice(), enabled.as_slice())
    }
}

/// The hardened text of a fresh PHP install's `php.ini`: `extension_dir` set
/// to `ext_dir` (with `/` separators) where no line sets it yet, then each
/// core extension enabled.
pub fn harden_php_ini_text(raw: &str, ext_dir: &str) -> (out: String)
    ensures
        out@ == spec_harden_php_ini(raw@, ext_dir@),
{
    let rv = chars_of(raw);
    let dv = chars_of(ext_dir);
    let mut text = harden_ext_dir_exec(rv.as_slice(), dv.as_slice());
    let ghost start = text@;
    let mut k: usize = 0;
    while k < 8
        invariant
            k <= 8,
            core_extensions().len() == 8,
            text@ == harden_upto(start, k as int),
        decreases 8 - k,
    {
        text = harden_one_exec(text, core_extension(k));
        k = k + 1;
    }
    string_of(text.as_slice())
}


/// A name that unquoting leaves alone does not end in whitespace.
proof fn lemma_unquoted_end(name: Seq<char>)
    requires
        unquote(name) == name,
        name.len() > 0,
    ensures
        !is_ws(name.last()),
{
    lemma_trim_by_len(trim(name), is_char('"'));
    lemma_trim_by_len(trim_by(trim(name), is_char('"')), is_char('\''));
    crate::text::lemma_lead_ws(name);
    crate::text::lemma_trail_ws(trim_start(name));
    assert(trim(name).len() <= name.len());
    lemma_trim_keeps_end(name);
}

/// `extension=<name>` is a line that loads extension `name`.
proof fn lemma_extension_line_loads(name: Seq<char>)
    requires
        unquote(name) == name,
        lacks(name, ';'),
    ensures
        loads_extension(name)(extension_line(name)),
{
    reveal_strlit("extension=");
    reveal_strlit("extension");
    let line = extension_line(name);
    let key = "extension"@;
    assert(line.len() == name.len() + 10);
    assert(line[0] == 'e');
    lemma_lead_ws_unique(line, 0);
    assert(trim_start(line) =~= line);
    assert(line[9] == '=');
    assert forall|j: int| 0 <= j < 9 implies line[j] != '=' by {
        assert(line[j] == key[j]);
    }
    lemma_index_of(line, '=', 9);
    assert(line.take(9) =~= key);
    lemma_lead_ws_unique(key, 0);
    assert(trim_start(key) =~= key);
    lemma_trail_ws_unique(key, 0);
    assert(trim(key) =~= key);
    assert(line.skip(10) =~= name);
    assert(active_value(line, key) == Some(name));
    assert(index_of(name, ';') is None);
    assert(without_comment(name) == name);
    assert(extension_value_is(name, name));
}

proof fn lemma_extension_line_shape(name: Seq<char>)
    requires
        unquote(name) == name,
        lacks(name, '\n'),
    ensures
        extension_line(name).len() > 0,
        extension_line(name).last() != '\r',
        lacks(extension_line(name), '\n'),
{
    reveal_strlit("extension=");
    let e = extension_line(name);
    assert(e.len() == name.len() + 10);
    if name.len() > 0 {
        lemma_unquoted_end(name);
        assert(e.last() == name.last());
    } else {
        assert(e.last() == '=');
    }
    assert forall|k: int| 0 <= k < e.len() implies e[k] != '\n' by {
        if k >= 10 {
            assert(e[k] == name[k - 10]);
        } else {
            assert(e[k] == "extension="@[k]);
        }
    }
}

proof fn lemma_replaced_line_found(
    ls: Seq<Seq<char>>,
    i: int,
    e: Seq<char>,
    p: spec_fn(Seq<char>) -> bool,
)
    requires
        0 <= i < ls.len(),
        forall|k: int| 0 <= k < ls.len() ==> lacks(#[trigger] ls[k], '\n'),
        lacks(e, '\n'),
        e.len() > 0,
        e.last() != '\r',
        p(e),
    ensures
        first_index(lines(join_lines(ls.update(i, e))), p) is Some,
{
    reveal(first_index);
    let l2 = ls.update(i, e);
    assert forall|k: int| 0 <= k < l2.len() implies lacks(#[trigger] l2[k], '\n') by {
        if k != i {
            assert(l2[k] == ls[k]);
        }
    }
    lemma_split_join(l2);
    let out = lines(join_lines(l2));
    assert(strip_cr(e) == e);
    if i < l2.len() - 1 {
        assert(out[i] == strip_cr(l2[i]));
    } else {
        assert(out[i] == e);
    }
    assert(0 <= i < out.len() && p(out[i]));
}

proof fn lemma_appended_line_found(y: Seq<char>, e: Seq<char>, p: spec_fn(Seq<char>) -> bool)
    requires
        y.len() > 0,
        y.last() == '\n',
        lacks(e, '\n'),
        e.last() != '\r',
        e.len() > 0,
        p(e),
    ensures
        first_index(lines(y + e + seq!['\n']), p) is Some,
{
    reveal(first_index);
    let r1 = y + e + seq!['\n'];
    lemma_split_on_len(y.drop_last(), '\n');
    assert(split_on(y, '\n') == split_on(y.drop_last(), '\n').push(seq![]));
    lemma_split_on_extend(y, e, '\n');
    let q = split_on(y, '\n').update(split_on(y, '\n').len() - 1, seq![] + e);
    assert(split_on(y + e, '\n') == q);
    assert(r1.drop_last() =~= y + e);
    assert(split_on(r1, '\n') == q.push(seq![]));
    let out = lines(r1);
    assert(out =~= q.map_values(|x: Seq<char>| strip_cr(x)));
    let k = q.len() - 1;
    assert(seq![] + e =~= e);
    assert(strip_cr(e) == e);
    assert(out[k] == e);
    assert(0 <= k < out.len() && p(out[k]));
}

/// Enabling an extension leaves a line that loads it (for names without
/// blanks or quotes at their ends, without line breaks and without `;`).
pub proof fn lemma_enable_extension_loads(content: Seq<char>, name: Seq<char>)
    requires
        unquote(name) == name,
        lacks(name, '\n'),
        lacks(name, ';'),
    ensures
        first_index(lines(spec_enable_extension(content, name)), loads_extension(name)) is Some,
{
    let ls = lines(content);
    let e = extension_line(name);
    let loads = loads_extension(name);
    let r1 = spec_enable_extension(content, name);
    lemma_extension_line_shape(name);
    lemma_extension_line_loads(name);
    if first_index(ls, loads) is None {
        match first_index(ls, offers_extension(name)) {
            Some(i) => {
                crate::text::lemma_first_index_found(ls, offers_extension(name));
                assert(r1 == join_lines(ls.update(i, e)));
                lemma_lines_lack_newline(content);
                lemma_replaced_line_found(ls, i, e, loads);
            },
            None => {
                let y = content + newline_unless_ended(content);
                assert(r1 == y + e + seq!['\n']);
                lemma_appended_line_found(y, e, loads);
            },
        }
    }
}

/// Enabling `extension_dir` leaves an active line that sets it.
pub proof fn lemma_enable_extension_dir_sets(content: Seq<char>)
    ensures
        first_index(lines(spec_enable_extension_dir(content)), sets_extension_dir()) is Some,
{
    reveal_strlit("extension_dir = \"ext\"");
    reveal_strlit("extension_dir");
    let ls = lines(content);
    let e = ext_dir_line();
    let key = "extension_dir"@;
    assert(e.len() == 21);
    assert(e[0] == 'e');
    lemma_lead_ws_unique(e, 0);
    assert(trim_start(e) =~= e);
    assert(e[14] == '=');
    assert forall|j: int| 0 <= j < 14 implies e[j] != '=' by {}
    lemma_index_of(e, '=', 14);
    assert(e.take(14) =~= key + seq![' ']);
    assert(trim(e.take(14)) =~= key) by {
        lemma_lead_ws_unique(e.take(14), 0);
        assert(trim_start(e.take(14)) =~= e.take(14));
        lemma_trail_ws_unique(e.take(14), 1);
    }
    assert(active_value(e, key) is Some);
    assert(sets_extension_dir()(e));
    assert(lacks(e, '\n'));
    assert(e.last() != '\r');
    let r1 = spec_enable_extension_dir(content);
    match first_index(ls, offers_ext_dir()) {
        Some(i) => {
            crate::text::lemma_first_index_found(ls, offers_ext_dir());
            lemma_lines_lack_newline(content);
            lemma_replaced_line_found(ls, i, e, sets_extension_dir());
        },
        None => {
            let y = content + newline_unless_ended(content);
            assert(r1 == y + e + seq!['\n']);
            lemma_appended_line_found(y, e, sets_extension_dir());
        },
    }
}

/// Enabling an extension a second time changes nothing: the first time
/// leaves a line that loads it. This holds for names without blanks or
/// quotes at their ends, without line breaks and without `;` (which would
/// start a comment).
pub proof fn enable_extension_idempotent(content: Seq<char>, name: Seq<char>)
    requires
        unquote(name) == name,
        lacks(name, '\n'),
        lacks(name, ';'),
    ensures
        spec_enable_extension(spec_enable_extension(content, name), name) == spec_enable_extension(
            content,
            name,
        ),
{
    lemma_enable_extension_loads(content, name);
}

} // verus!
