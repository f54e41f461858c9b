//! The HTML `phpinfo()` page of a PHP install: how `php-cgi` is asked for it
//! (only the CGI SAPI prints the HTML tables), which part of its output is the
//! page, and how a run without a page is reported.
use vstd::prelude::*;

use crate::process::{arg_view, lit, plan_view, under, ArgView, CommandPlan, PlanArg};
use crate::text::{
    ascii_lower_seq, ascii_lowercase, chars_of, contains_chars, find_first, find_sub,
    has_prefix, occurs_at, replace_char, replace_chars, spec_signed_decimal, starts_with_at,
    string_of, string_of_range, trim_bounds, trim_start,
};

verus! {

/// The error when the install has no `php-cgi.exe`.
pub fn missing_cgi_message(cgi_path: &str) -> (msg: String)
    ensures
        msg@ == "php-cgi.exe 不存在: "@ + cgi_path@ + "（HTML 版 phpinfo 必须走 CGI SAPI）"@,
{
    crate::text::concat3("php-cgi.exe 不存在: ", cgi_path, "（HTML 版 phpinfo 必须走 CGI SAPI）")
}

pub open spec fn spec_phpinfo_ini(ini: bool, production: bool, development: bool) -> Option<
    Seq<char>,
> {
    if ini {
        Some("php.ini"@)
    } else if production {
        Some("php.ini-production"@)
    } else if development {
        Some("php.ini-development"@)
    } else {
        None
    }
}

/// The configuration `phpinfo()` runs with: the first of `php.ini`,
/// `php.ini-production`, `php.ini-development` that the install holds.
pub fn phpinfo_ini(ini: bool, production: bool, development: bool) -> (r: Option<&'static str>)
    ensures
        match r {
            Some(n) => spec_phpinfo_ini(ini, production, development) == Some(n@),
            None => spec_phpinfo_ini(ini, production, development) is None,
        },
{
    if ini {
        Some("php.ini")
    } else if production {
        Some("php.ini-production")
    } else if development {
        Some("php.ini-development")
    } else {
        None
    }
}

pub open spec fn spec_phpinfo_args(ini: Option<Seq<char>>, has_ext_dir: bool) -> Seq<ArgView> {
    seq![lit("-q"@)] + match ini {
        Some(n) => seq![lit("-c"@), under(seq![], seq![n])],
        None => seq![],
    } + if has_ext_dir {
        seq![lit("-d"@), under("extension_dir="@, seq!["ext"@])]
    } else {
        seq![]
    } + seq![
        lit("-d"@),
        lit("opcache.enable=0"@),
        lit("-d"@),
        lit("opcache.enable_cli=0"@),
        lit("-i"@),
    ]
}

fn text_arg(t: &str) -> (a: PlanArg)
    ensures
        arg_view(a) == lit(t@),
{
    PlanArg { text: t.to_owned(), in_install: None }
}

fn install_arg(t: &str, name: &str) -> (a: PlanArg)
    ensures
        arg_view(a) == under(t@, seq![name@]),
{
    let mut path: Vec<String> = Vec::new();
    path.push(name.to_owned());
    let a = PlanArg { text: t.to_owned(), in_install: Some(path) };
    assert(crate::process::strings_view(path@) =~= seq![name@]);
    a
}

/// The `php-cgi.exe` command line that prints `phpinfo()` as HTML: headers
/// off (`-q`), the chosen configuration file where there is one, the `ext`
/// directory as `extension_dir` where the install has one, OPcache off (it
/// fails in a CGI process on some builds and is of no use here), then `-i`.
pub fn phpinfo_command(ini: Option<&str>, has_ext_dir: bool) -> (p: CommandPlan)
    ensures
        plan_view(p) == (
            seq!["php-cgi.exe"@],
            spec_phpinfo_args(
                match ini {
                    Some(n) => Some(n@),
                    None => None,
                },
                has_ext_dir,
            ),
            false,
        ),
{
    let mut args: Vec<PlanArg> = Vec::new();
    args.push(text_arg("-q"));
    match ini {
        Some(n) => {
            args.push(text_arg("-c"));
            let a = install_arg("", n);
            proof {
                reveal_strlit("");
            }
            assert(a.text@ =~= seq![]);
            args.push(a);
        },
        None => {},
    }
    if has_ext_dir {
        args.push(text_arg("-d"));
        args.push(install_arg("extension_dir=", "ext"));
    }
    args.push(text_arg("-d"));
    args.push(text_arg("opcache.enable=0"));
    args.push(text_arg("-d"));
    args.push(text_arg("opcache.enable_cli=0"));
    args.push(text_arg("-i"));
    let mut program: Vec<String> = Vec::new();
    program.push("php-cgi.exe".to_owned());
    let p = CommandPlan { program, args, in_install_dir: false, env: Vec::new() };
    assert(plan_view(p) =~= (
        seq!["php-cgi.exe"@],
        spec_phpinfo_args(
            match ini {
                Some(n) => Some(n@),
                None => None,
            },
            has_ext_dir,
        ),
        false,
    ));
    p
}

/// Where the page starts in the output: at the start where the output
/// (ASCII case ignored, leading whitespace skipped) opens with `<!doctype`
/// or `<html`; else at the first `<!doctype`, else at the first `<html`;
/// else the output is kept whole.
pub open spec fn page_start(out: Seq<char>) -> int {
    let lower = ascii_lower_seq(out);
    if has_prefix(trim_start(lower), "<!doctype"@) || has_prefix(trim_start(lower), "<html"@) {
        0
    } else {
        match find_sub(lower, "<!doctype"@) {
            Some(i) => i,
            None => match find_sub(lower, "<html"@) {
                Some(i) => i,
                None => 0,
            },
        }
    }
}

/// At most the first 500 characters.
pub open spec fn head500(s: Seq<char>) -> Seq<char> {
    if s.len() <= 500 {
        s
    } else {
        s.take(500)
    }
}

pub open spec fn exit_code_text(code: Option<i32>) -> Seq<char> {
    match code {
        Some(c) => spec_signed_decimal(c as int),
        None => "?"@,
    }
}

/// The page shown for a `phpinfo` run, or the report of a run that printed
/// no page: the output from where the page starts; an error where that text
/// holds no `<html` (ASCII case ignored), naming the exit code (`?` where
/// the process had none) and the first 500 characters of each stream.
pub open spec fn spec_phpinfo_page(out: Seq<char>, err: Seq<char>, code: Option<i32>) -> Result<
    Seq<char>,
    Seq<char>,
> {
    let html = out.skip(page_start(out));
    if exists|i: int| occurs_at(ascii_lower_seq(html), "<html"@, i) {
        Ok(html)
    } else {
        Err(
            "php-cgi.exe 退出 code="@ + exit_code_text(code) + " 但没有 HTML 输出\nstdout: "@
                + head500(html) + "\nstderr: "@ + head500(err),
        )
    }
}

fn head500_of(v: &[char]) -> (s: String)
    ensures
        s@ == head500(v@),
{
    if v.len() <= 500 {
        string_of(v)
    } else {
        let s = string_of_range(v, 0, 500);
        assert(v@.subrange(0, 500) =~= v@.take(500));
        s
    }
}

fn find_page_start(out: &[char]) -> (i: usize)
    ensures
        i == page_start(out@),
        i <= out.len(),
{
    let lower = ascii_lowercase(out);
    let ghost l = lower@;
    assert(l.len() == out@.len());
    let (a, _b) = trim_bounds(lower.as_slice(), 0, lower.len());
    assert(l.subrange(0, l.len() as int) =~= l);
    let doctype = chars_of("<!doctype");
    let html = chars_of("<html");
    let opens = starts_with_at(lower.as_slice(), a, doctype.as_slice()) || starts_with_at(
        lower.as_slice(),
        a,
        html.as_slice(),
    );
    assert(l.skip(a as int) =~= l.subrange(a as int, l.len() as int));
    if opens {
        return 0;
    }
    match find_first(lower.as_slice(), doctype.as_slice()) {
        Some(i) => i,
        None => match find_first(lower.as_slice(), html.as_slice()) {
            Some(i) => i,
            None => 0,
        },
    }
}

/// The page of a `php-cgi -i` run from its output streams and exit code,
/// as `spec_phpinfo_page` states.
pub fn phpinfo_page(stdout: &str, stderr: &str, code: Option<i32>) -> (r: Result<String, String>)
    ensures
        match r {
            Ok(h) => spec_phpinfo_page(stdout@, stderr@, code) == Ok::<Seq<char>, Seq<char>>(h@),
            Err(e) => spec_phpinfo_page(stdout@, stderr@, code) == Err::<Seq<char>, Seq<char>>(e@),
        },
{
    let out = chars_of(stdout);
    let start = find_page_start(out.as_slice());
    let html = string_of_range(out.as_slice(), start, out.len());
    assert(html@ =~= stdout@.skip(page_start(stdout@)));
    let html_chars = chars_of(html.as_str());
    let lower = ascii_lowercase(html_chars.as_slice());
    let tag = chars_of("<html");
    if contains_chars(lower.as_slice(), tag.as_slice()) {
        Ok(html)
    } else {
        let code_text: String = match code {
            Some(c) => crate::text::signed_decimal(c),
            None => "?".to_owned(),
        };
        let err_chars = chars_of(stderr);
        let head_out = head500_of(html_chars.as_slice());
        let head_err = head500_of(err_chars.as_slice());
        let mut msg = String::new();
        msg.append("php-cgi.exe 退出 code=");
        msg.append(code_text.as_str());
        msg.append(" 但没有 HTML 输出\nstdout: ");
        msg.append(head_out.as_str());
        msg.append("\nstderr: ");
        msg.append(head_err.as_str());
        Err(msg)
    }
}

proof fn lemma_first_occurrence(s: Seq<char>, p: Seq<char>, k: int)
    requires
        occurs_at(s, p, k),
    ensures
        exists|i: int| occurs_at(s, p, i) && forall|j: int| 0 <= j < i ==> !occurs_at(s, p, j),
    decreases k,
{
    if exists|j: int| 0 <= j < k && occurs_at(s, p, j) {
        let j = choose|j: int| 0 <= j < k && occurs_at(s, p, j);
        lemma_first_occurrence(s, p, j);
    } else {
        assert(occurs_at(s, p, k) && forall|j: int| 0 <= j < k ==> !occurs_at(s, p, j));
    }
}

proof fn lemma_found_in_bounds(s: Seq<char>, p: Seq<char>)
    ensures
        find_sub(s, p) matches Some(i) ==> 0 <= i <= s.len(),
{
    reveal(find_sub);
    if exists|i: int| occurs_at(s, p, i) {
        let k = choose|i: int| occurs_at(s, p, i);
        lemma_first_occurrence(s, p, k);
    }
}

/// A page is never blank: what is shown is the output from where the page
/// starts to its end, and it holds an `<html` tag (ASCII case ignored).
pub proof fn shown_page_is_a_tail_with_html(out: Seq<char>, err: Seq<char>, code: Option<i32>)
    ensures
        spec_phpinfo_page(out, err, code) matches Ok(page) ==> {
            &&& 0 <= page_start(out) <= out.len()
            &&& page == out.skip(page_start(out))
            &&& exists|i: int| occurs_at(ascii_lower_seq(page), "<html"@, i)
        },
{
    let lower = ascii_lower_seq(out);
    lemma_found_in_bounds(lower, "<!doctype"@);
    lemma_found_in_bounds(lower, "<html"@);
}

pub open spec fn spec_file_url(path: Seq<char>) -> Seq<char> {
    "file:///"@ + replace_char(path, '\\', '/')
}

/// The `file://` URL under which a browser opens a saved copy of the page:
/// `file:///` and the path with its backslashes turned into slashes.
pub fn file_url(path: &str) -> (url: String)
    ensures
        url@ == spec_file_url(path@),
{
    let p = chars_of(path);
    let q = replace_chars(p.as_slice(), '\\', '/');
    let tail = string_of(q.as_slice());
    crate::text::concat2("file:///", tail.as_str())
}

} // verus!
