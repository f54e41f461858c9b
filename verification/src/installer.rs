//! Decisions of the package installer: where a package is unpacked and
//! staged, which download responses are refused, when progress is reported,
//! which download hosts are trusted, and the integrity check of a download.
use sha2::{Digest, Sha256};
use vstd::prelude::*;

use crate::scanner::{lemma_ver_run, php_dir_body, spec_php_dir_name, ver_run};
use crate::store::spec_parse_tool_dir;
use crate::text::{
    all_digits, is_digit,
    chars_of, eq_ignore_ascii_case, find_char, find_first, find_sub, has_prefix, index_of,
    occurs_at, push_all, starts_with_at, str_eq, string_of, sub_vec, chars_eq_ignore_ascii_case,
    ascii_lower_seq, ascii_lowercase, concat2, concat3 as concat_strs, decimal, spec_decimal,
};

verus! {

/// `s` with every `c` removed.
pub open spec fn without_char(s: Seq<char>, c: char) -> Seq<char>
    decreases s.len(),
{
    if s.len() == 0 {
        s
    } else if s.last() == c {
        without_char(s.drop_last(), c)
    } else {
        without_char(s.drop_last(), c).push(s.last())
    }
}

fn remove_char(v: &[char], c: char) -> (out: Vec<char>)
    ensures
        out@ == without_char(v@, c),
{
    let mut out: Vec<char> = Vec::new();
    let mut i: usize = 0;
    while i < v.len()
        invariant
            i <= v.len(),
            out@ == without_char(v@.take(i as int), c),
        decreases v.len() - i,
    {
        assert(v@.take(i + 1).drop_last() =~= v@.take(i as int));
        if v[i] != c {
            out.push(v[i]);
        }
        i = i + 1;
    }
    assert(v@.take(v.len() as int) =~= v@);
    out
}

/// The directory, relative to the packages root, that a package is unpacked
/// into, named as PHPStudy names them.
pub open spec fn spec_dir_name(name: Seq<char>, version: Seq<char>) -> Seq<char> {
    if name == "nginx"@ {
        "Nginx"@ + version
    } else if name == "apache"@ {
        "Apache"@ + version
    } else if name == "mysql"@ {
        "MySQL"@ + version
    } else if name == "redis"@ {
        "Redis"@ + version
    } else if name == "php"@ {
        "php/php"@ + without_char(version, '.') + "nts"@
    } else if name == "composer"@ {
        "tools/composer-"@ + version
    } else if name == "nvm"@ {
        "tools/nvm-"@ + version
    } else {
        name + version
    }
}

fn concat3(a: &[char], b: &[char], c: &[char]) -> (s: String)
    ensures
        s@ == a@ + b@ + c@,
{
    let mut out: Vec<char> = Vec::new();
    push_all(&mut out, a);
    push_all(&mut out, b);
    push_all(&mut out, c);
    string_of(out.as_slice())
}

/// The PHPStudy-style directory for package `name` at `version`: services
/// as `Nginx1.26.2`, PHP as `php/php842nts`, tools under `tools/`.
pub fn phpstudy_style_dir_name(name: &str, version: &str) -> (dir: String)
    ensures
        dir@ == spec_dir_name(name@, version@),
{
    let v = chars_of(version);
    let none: Vec<char> = Vec::new();
    if str_eq(name, "nginx") {
        concat3(chars_of("Nginx").as_slice(), v.as_slice(), none.as_slice())
    } else if str_eq(name, "apache") {
        concat3(chars_of("Apache").as_slice(), v.as_slice(), none.as_slice())
    } else if str_eq(name, "mysql") {
        concat3(chars_of("MySQL").as_slice(), v.as_slice(), none.as_slice())
    } else if str_eq(name, "redis") {
        concat3(chars_of("Redis").as_slice(), v.as_slice(), none.as_slice())
    } else if str_eq(name, "php") {
        let digits = remove_char(v.as_slice(), '.');
        concat3(chars_of("php/php").as_slice(), digits.as_slice(), chars_of("nts").as_slice())
    } else if str_eq(name, "composer") {
        concat3(chars_of("tools/composer-").as_slice(), v.as_slice(), none.as_slice())
    } else if str_eq(name, "nvm") {
        concat3(chars_of("tools/nvm-").as_slice(), v.as_slice(), none.as_slice())
    } else {
        concat3(chars_of(name).as_slice(), v.as_slice(), none.as_slice())
    }
}

/// The host of a URL: after the first `://`, up to the first `/`, without a
/// `:port`; none where the URL has no `://`.
pub open spec fn spec_extract_host(url: Seq<char>) -> Option<Seq<char>> {
    match find_sub(url, "://"@) {
        Some(i) => {
            let after = url.skip(i + 3);
            let host = match index_of(after, '/') {
                Some(j) => after.take(j),
                None => after,
            };
            Some(
                match index_of(host, ':') {
                    Some(k) => host.take(k),
                    None => host,
                },
            )
        },
        None => None,
    }
}

/// The host part of `url` (see `spec_extract_host`).
pub fn extract_host(url: &str) -> (host: Option<String>)
    ensures
        match spec_extract_host(url@) {
            Some(h) => host is Some && host->0@ == h,
            None => host is None,
        },
{
    let v = chars_of(url);
    let sep = chars_of("://");
    match find_first(v.as_slice(), sep.as_slice()) {
        Some(i) => {
            proof {
                reveal_strlit("://");
            }
            assert(sep@.len() == 3);
            assert(occurs_at(v@, sep@, i as int));
            assert(i + 3 <= v.len());
            let after = sub_vec(v.as_slice(), i + 3, v.len());
            assert(after@ =~= v@.skip(i + 3));
            let host = match find_char(after.as_slice(), '/') {
                Some(j) => sub_vec(after.as_slice(), 0, j),
                None => after,
            };
            assert(host@ =~= match index_of(after@, '/') {
                Some(j) => after@.take(j),
                None => after@,
            });
            let bare = match find_char(host.as_slice(), ':') {
                Some(k) => sub_vec(host.as_slice(), 0, k),
                None => host,
            };
            assert(bare@ =~= match index_of(host@, ':') {
                Some(k) => host@.take(k),
                None => host@,
            });
            Some(string_of(bare.as_slice()))
        },
        None => None,
    }
}

/// Hosts whose HTTPS downloads are installed even without a checksum.
pub open spec fn trusted_hosts() -> Seq<Seq<char>> {
    seq![
        "cdn.mysql.com"@,
        "dev.mysql.com"@,
        "windows.php.net"@,
        "nginx.org"@,
        "www.apachelounge.com"@,
        "github.com"@,
        "objects.githubusercontent.com"@,
        "ghfast.top"@,
        "ghproxy.net"@,
        "gh-proxy.com"@,
        "cdn.jsdelivr.net"@,
    ]
}

fn trusted_host(k: usize) -> (h: &'static str)
    requires
        k < 11,
    ensures
        h@ == trusted_hosts()[k as int],
{
    match k {
        0 => "cdn.mysql.com",
        1 => "dev.mysql.com",
        2 => "windows.php.net",
        3 => "nginx.org",
        4 => "www.apachelounge.com",
        5 => "github.com",
        6 => "objects.githubusercontent.com",
        7 => "ghfast.top",
        8 => "ghproxy.net",
        9 => "gh-proxy.com",
        _ => "cdn.jsdelivr.net",
    }
}

/// An HTTPS URL whose host is exactly one of the trusted hosts.
pub open spec fn spec_is_trusted_source(url: Seq<char>) -> bool {
    has_prefix(url, "https://"@) && match spec_extract_host(url) {
        Some(h) => trusted_hosts().contains(h),
        None => false,
    }
}

/// Whether a download from `url` may go ahead without a checksum: HTTPS and
/// a host that equals (not merely ends with) a trusted one.
pub fn is_trusted_source(url: &str) -> (b: bool)
    ensures
        b == spec_is_trusted_source(url@),
{
    let v = chars_of(url);
    let scheme = chars_of("https://");
    assert(v@.skip(0) =~= v@);
    if !starts_with_at(v.as_slice(), 0, scheme.as_slice()) {
        return false;
    }
    match extract_host(url) {
        Some(h) => {
            let mut k: usize = 0;
            while k < 11
                invariant
                    k <= 11,
                    trusted_hosts().len() == 11,
                    spec_extract_host(url@) == Some(h@),
                    has_prefix(url@, "https://"@),
                    forall|j: int| 0 <= j < k ==> trusted_hosts()[j] != h@,
                decreases 11 - k,
            {
                if str_eq(h.as_str(), trusted_host(k)) {
                    assert(trusted_hosts()[k as int] == h@);
                    assert(trusted_hosts().contains(h@));
                    return true;
                }
                k = k + 1;
            }
            false
        },
        None => false,
    }
}

/// What `format!("{:x}", Sha256::digest(data))` gives for `data`.
pub uninterp spec fn sha256_hex_of(data: Seq<u8>) -> Seq<char>;

/// `sha2::Sha256` over `data`, written as lower-case hex with
/// `generic_array`'s `LowerHex`: two digits from `0123456789abcdef` per byte
/// of the 32-byte digest.
#[verifier::external_body]
fn sha256_hex(data: &[u8]) -> (hex: String)
    ensures
        hex@ == sha256_hex_of(data@),
        hex@.len() == 64,
{
    let mut hasher = Sha256::new();
    hasher.update(data);
    format!("{:x}", hasher.finalize())
}

pub open spec fn digest_mismatch_message(expected: Seq<char>, got: Seq<char>) -> Seq<char> {
    "SHA256 校验失败: 期望 "@ + expected + ", 实际 "@ + got
}

/// The check of a computed digest against the expected one: equal ignoring
/// ASCII case, else an error naming both.
pub fn check_digest(got: &str, expected: &str) -> (r: Result<(), String>)
    ensures
        match r {
            Ok(()) => eq_ignore_ascii_case(got@, expected@),
            Err(msg) => !eq_ignore_ascii_case(got@, expected@) && msg@ == digest_mismatch_message(
                expected@,
                got@,
            ),
        },
{
    let g = chars_of(got);
    let e = chars_of(expected);
    if chars_eq_ignore_ascii_case(g.as_slice(), e.as_slice()) {
        Ok(())
    } else {
        let mut out = chars_of("SHA256 校验失败: 期望 ");
        push_all(&mut out, e.as_slice());
        let mid = chars_of(", 实际 ");
        push_all(&mut out, mid.as_slice());
        push_all(&mut out, g.as_slice());
        Err(string_of(out.as_slice()))
    }
}

/// Verifies downloaded bytes against the expected SHA-256 hex digest.
pub fn verify_sha256(data: &[u8], expected: &str) -> (r: Result<(), String>)
    ensures
        match r {
            Ok(()) => eq_ignore_ascii_case(sha256_hex_of(data@), expected@),
            Err(msg) => !eq_ignore_ascii_case(sha256_hex_of(data@), expected@)
                && msg@ == digest_mismatch_message(expected@, sha256_hex_of(data@)),
        },
{
    let got = sha256_hex(data);
    check_digest(got.as_str(), expected)
}


/// The staging paths of a download, relative to the staging directory:
/// the archive `<name>-<version>.zip` and the directory `<name>-<version>`
/// it is unpacked into.
pub fn staging_names(name: &str, version: &str) -> (r: (String, String))
    ensures
        r.0@ == name@ + "-"@ + version@ + ".zip"@,
        r.1@ == name@ + "-"@ + version@,
{
    let dir = concat_strs(name, "-", version);
    let zip = concat2(dir.as_str(), ".zip");
    (zip, dir)
}

/// Why a download response is refused: an unsuccessful status, or an HTML
/// page (a block or error page) where an archive was expected.
pub open spec fn spec_response_refusal(
    url: Seq<char>,
    status: u16,
    success: bool,
    content_type: Seq<char>,
) -> Option<Seq<char>> {
    if !success {
        Some(
            "HTTP "@ + spec_decimal(status as nat) + ": "@ + url + " (content-type: "@ + content_type
                + ")"@,
        )
    } else if has_prefix(ascii_lower_seq(content_type), "text/html"@) {
        Some("下载响应为 HTML（疑似拦截页/错误页），非安装包: "@ + url)
    } else {
        None
    }
}

/// The content type a response reports, `<unknown>` where it gives none
/// readable.
pub open spec fn reported_type(content_type: Option<Seq<char>>) -> Seq<char> {
    match content_type {
        Some(t) => t,
        None => "<unknown>"@,
    }
}

/// Checks a download response before its body is saved.
pub fn response_refusal(url: &str, status: u16, success: bool, content_type: Option<&str>) -> (r:
    Option<String>)
    ensures
        match spec_response_refusal(
            url@,
            status,
            success,
            reported_type(
                match content_type {
                    Some(t) => Some(t@),
                    None => None,
                },
            ),
        ) {
            Some(m) => r matches Some(s) && s@ == m,
            None => r is None,
        },
{
    let ct: &str = match content_type {
        Some(t) => t,
        None => "<unknown>",
    };
    if !success {
        let mut out = chars_of("HTTP ");
        push_all(&mut out, chars_of(decimal(status as u64).as_str()).as_slice());
        push_all(&mut out, chars_of(": ").as_slice());
        push_all(&mut out, chars_of(url).as_slice());
        push_all(&mut out, chars_of(" (content-type: ").as_slice());
        push_all(&mut out, chars_of(ct).as_slice());
        push_all(&mut out, chars_of(")").as_slice());
        return Some(string_of(out.as_slice()));
    }
    let lower = ascii_lowercase(chars_of(ct).as_slice());
    let html = chars_of("text/html");
    let is_html = starts_with_at(lower.as_slice(), 0, html.as_slice());
    proof {
        assert(lower@.skip(0) =~= lower@);
    }
    if is_html {
        Some(concat2("下载响应为 HTML（疑似拦截页/错误页），非安装包: ", url))
    } else {
        None
    }
}

/// Bytes between two progress reports at most.
pub const PROGRESS_BYTES: u64 = 262144;

/// Milliseconds between two progress reports at most.
pub const PROGRESS_MILLIS: u128 = 300;

/// Whether a progress report is due: 256 KiB downloaded or 300 ms passed
/// since the last one.
pub fn progress_due(downloaded: u64, last_reported: u64, elapsed_ms: u128) -> (due: bool)
    requires
        last_reported <= downloaded,
    ensures
        due == (downloaded - last_reported >= PROGRESS_BYTES || elapsed_ms >= PROGRESS_MILLIS),
{
    downloaded - last_reported >= PROGRESS_BYTES || elapsed_ms >= PROGRESS_MILLIS
}

/// The error when a download is not a readable archive: the archive error
/// and the URL it came from.
pub fn invalid_archive_note(err: &str, url: &str) -> (note: String)
    ensures
        note@ == err@ + "（"@ + url@ + "）"@,
{
    let a = concat_strs(err, "（", url);
    concat2(a.as_str(), "）")
}

/// The error when every download source failed, naming the last failure.
pub fn all_sources_failed(last: &str) -> (msg: String)
    ensures
        msg@ == "所有下载源均失败，最后一次错误: "@ + last@,
{
    concat2("所有下载源均失败，最后一次错误: ", last)
}

/// How an installation ends: installed at a directory, or failed for a
/// reason. Each installation reports exactly one of these, as its last
/// event.
#[derive(Debug)]
pub enum InstallEnd {
    Done { install_path: String },
    Failed { reason: String },
}

/// The next thing an installation does.
#[derive(Debug)]
pub enum InstallStep {
    /// Remove a target directory that exists without the executable.
    ClearTarget,
    /// Create the staging directory.
    MakeStaging,
    /// Download from the URL at this index and check it is an archive.
    Download(usize),
    /// Read the archive back and check its integrity.
    Verify,
    /// Unpack, move into place and check for the executable.
    Finalize,
    /// Report how the installation ended, and stop.
    Report(InstallEnd),
}

/// The view of a step: the step with its texts as character sequences.
pub enum StepView {
    ClearTarget,
    MakeStaging,
    Download(int),
    Verify,
    Finalize,
    Done(Seq<char>),
    Failed(Seq<char>),
}

pub open spec fn step_view(s: InstallStep) -> StepView {
    match s {
        InstallStep::ClearTarget => StepView::ClearTarget,
        InstallStep::MakeStaging => StepView::MakeStaging,
        InstallStep::Download(i) => StepView::Download(i as int),
        InstallStep::Verify => StepView::Verify,
        InstallStep::Finalize => StepView::Finalize,
        InstallStep::Report(InstallEnd::Done { install_path }) => StepView::Done(install_path@),
        InstallStep::Report(InstallEnd::Failed { reason }) => StepView::Failed(reason@),
    }
}

/// The first step: an installed version (its executable present) is
/// reported done at once, without a download; a target directory that
/// exists without it is cleared first; else the staging directory is made.
pub open spec fn spec_install_start(exe_present: bool, dir_exists: bool, final_dir: Seq<char>) -> StepView {
    if exe_present {
        StepView::Done(final_dir)
    } else if dir_exists {
        StepView::ClearTarget
    } else {
        StepView::MakeStaging
    }
}

/// What follows step `done` given its outcome. A failure ends the
/// installation with its reason, except a failed download that has a next
/// URL to try; the last failed download ends it naming its error. Success
/// moves on: clearing to staging, staging to the first download (none
/// to try ends it), a download to the check, the check to the unpacking,
/// and the unpacking ends it done at `final_dir`.
pub open spec fn spec_install_after(done: StepView, outcome: Result<(), Seq<char>>, url_count: int, final_dir: Seq<char>) -> StepView {
    match (done, outcome) {
        (StepView::ClearTarget, Ok(())) => StepView::MakeStaging,
        (StepView::ClearTarget, Err(e)) => StepView::Failed(
            "目标目录已存在且无法删除（可能服务正在运行）: "@ + final_dir + " ("@ + e + ")"@,
        ),
        (StepView::MakeStaging, Ok(())) => if url_count == 0 {
            StepView::Failed("没有可用的下载 URL"@)
        } else {
            StepView::Download(0)
        },
        (StepView::MakeStaging, Err(e)) => StepView::Failed("创建 staging 目录失败: "@ + e),
        (StepView::Download(_), Ok(())) => StepView::Verify,
        (StepView::Download(i), Err(e)) => if i + 1 < url_count {
            StepView::Download(i + 1)
        } else {
            StepView::Failed("所有下载源均失败，最后一次错误: "@ + e)
        },
        (StepView::Verify, Ok(())) => StepView::Finalize,
        (StepView::Verify, Err(e)) => StepView::Failed(e),
        (StepView::Finalize, Ok(())) => StepView::Done(final_dir),
        (StepView::Finalize, Err(e)) => StepView::Failed(e),
        (other, _) => other,
    }
}

/// An installation reports done only once its unpacking succeeded (or at
/// its start, where the version is already installed): no failed step, and
/// no other step, is followed by a done report, and a done report always
/// names the target directory.
pub proof fn done_only_after_unpacking(done: StepView, outcome: Result<(), Seq<char>>, url_count: int, final_dir: Seq<char>)
    requires
        !(done is Done || done is Failed),
    ensures
        spec_install_after(done, outcome, url_count, final_dir) is Done ==> (done is Finalize
            && outcome is Ok && spec_install_after(done, outcome, url_count, final_dir)
            == StepView::Done(final_dir)),
        outcome is Err ==> !(spec_install_after(done, outcome, url_count, final_dir) is Done),
{
}

/// The first step of installing into `final_dir`, as `spec_install_start`
/// states it.
pub fn install_start(exe_present: bool, dir_exists: bool, final_dir: &str) -> (s: InstallStep)
    ensures
        step_view(s) == spec_install_start(exe_present, dir_exists, final_dir@),
{
    if exe_present {
        InstallStep::Report(InstallEnd::Done { install_path: final_dir.to_owned() })
    } else if dir_exists {
        InstallStep::ClearTarget
    } else {
        InstallStep::MakeStaging
    }
}

/// The step after `done` (not a report), as `spec_install_after` states
/// it; the caller performs it and comes back with its outcome, until a
/// report ends the installation.
pub fn install_after(done: &InstallStep, outcome: Result<(), String>, url_count: usize, final_dir: &str) -> (s: InstallStep)
    requires
        !(done is Report),
    ensures
        step_view(s) == spec_install_after(
            step_view(*done),
            match outcome {
                Ok(()) => Ok(()),
                Err(e) => Err(e@),
            },
            url_count as int,
            final_dir@,
        ),
{
    match (done, outcome) {
        (InstallStep::ClearTarget, Ok(())) => InstallStep::MakeStaging,
        (InstallStep::ClearTarget, Err(e)) => {
            let a = concat_strs("目标目录已存在且无法删除（可能服务正在运行）: ", final_dir, " (");
            let b = concat_strs(a.as_str(), e.as_str(), ")");
            InstallStep::Report(InstallEnd::Failed { reason: b })
        },
        (InstallStep::MakeStaging, Ok(())) => if url_count == 0 {
            InstallStep::Report(InstallEnd::Failed { reason: "没有可用的下载 URL".to_owned() })
        } else {
            InstallStep::Download(0)
        },
        (InstallStep::MakeStaging, Err(e)) => InstallStep::Report(
            InstallEnd::Failed { reason: concat2("创建 staging 目录失败: ", e.as_str()) },
        ),
        (InstallStep::Download(_), Ok(())) => InstallStep::Verify,
        (InstallStep::Download(i), Err(e)) => if *i < url_count && *i + 1 < url_count {
            InstallStep::Download(*i + 1)
        } else {
            InstallStep::Report(InstallEnd::Failed { reason: all_sources_failed(e.as_str()) })
        },
        (InstallStep::Verify, Ok(())) => InstallStep::Finalize,
        (InstallStep::Verify, Err(e)) => InstallStep::Report(InstallEnd::Failed { reason: e }),
        (InstallStep::Finalize, Ok(())) => InstallStep::Report(
            InstallEnd::Done { install_path: final_dir.to_owned() },
        ),
        (InstallStep::Finalize, Err(e)) => InstallStep::Report(InstallEnd::Failed { reason: e }),
        (InstallStep::Report(_), _) => InstallStep::MakeStaging,
    }
}

pub open spec fn missing_checksum_message() -> Seq<char> {
    "包清单缺少 sha256 哈希校验，已拒绝安装。请联系维护者补全清单或选择其它版本。"@
}

/// The integrity check of a downloaded archive: against the manifest's
/// SHA-256 where it declares one; without one, accepted only where the
/// first download URL is a trusted source.
pub fn check_integrity(data: &[u8], expected: Option<&str>, first_url: &str) -> (r: Result<
    (),
    String,
>)
    ensures
        match expected {
            Some(e) => match r {
                Ok(()) => eq_ignore_ascii_case(sha256_hex_of(data@), e@),
                Err(msg) => !eq_ignore_ascii_case(sha256_hex_of(data@), e@) && msg@
                    == digest_mismatch_message(e@, sha256_hex_of(data@)),
            },
            None => match r {
                Ok(()) => spec_is_trusted_source(first_url@),
                Err(msg) => !spec_is_trusted_source(first_url@) && msg@
                    == missing_checksum_message(),
            },
        },
{
    match expected {
        Some(e) => verify_sha256(data, e),
        None => {
            if is_trusted_source(first_url) {
                Ok(())
            } else {
                Err(
                    "包清单缺少 sha256 哈希校验，已拒绝安装。请联系维护者补全清单或选择其它版本。".to_owned(),
                )
            }
        },
    }
}

/// The template a fresh PHP install's `php.ini` is copied from: the
/// production one, else the development one, where present.
pub fn php_ini_template(production: bool, development: bool) -> (r: Option<&'static str>)
    ensures
        production ==> (r matches Some(t) && t@ == "php.ini-production"@),
        !production && development ==> (r matches Some(t) && t@ == "php.ini-development"@),
        !production && !development ==> r is None,
{
    if production {
        Some("php.ini-production")
    } else if development {
        Some("php.ini-development")
    } else {
        None
    }
}

/// The error when the unpacked package lacks its executable.
pub fn missing_exe_message(expected_path: &str) -> (msg: String)
    ensures
        msg@ == "解压后未找到预期文件 "@ + expected_path@ + " (检查 exe_rel 或 zip 结构)"@,
{
    concat_strs("解压后未找到预期文件 ", expected_path, " (检查 exe_rel 或 zip 结构)")
}

proof fn lemma_without_char_concat(s: Seq<char>, t: Seq<char>, c: char)
    ensures
        without_char(s + t, c) == without_char(s, c) + without_char(t, c),
    decreases t.len(),
{
    if t.len() == 0 {
        assert(s + t =~= s);
        assert(without_char(s, c) + without_char(t, c) =~= without_char(s, c));
    } else {
        lemma_without_char_concat(s, t.drop_last(), c);
        assert((s + t).drop_last() =~= s + t.drop_last());
        assert((s + t).last() == t.last());
        if t.last() == c {
        } else {
            assert(without_char(s, c) + without_char(t, c) =~= (without_char(s, c)
                + without_char(t.drop_last(), c)).push(t.last()));
        }
    }
}

proof fn lemma_without_char_single(x: char, c: char)
    ensures
        without_char(seq![x], c) == (if x == c {
            Seq::<char>::empty()
        } else {
            seq![x]
        }),
{
    assert(seq![x].drop_last() =~= Seq::<char>::empty());
    assert(without_char(Seq::<char>::empty(), c) == Seq::<char>::empty());
    assert(Seq::<char>::empty().push(x) =~= seq![x]);
}

proof fn lemma_without_char_digits(s: Seq<char>)
    requires
        all_digits(s),
    ensures
        without_char(s, '.') == s,
    decreases s.len(),
{
    if s.len() > 0 {
        assert(all_digits(s.drop_last())) by {
            assert forall|i: int| 0 <= i < s.drop_last().len() implies is_digit(
                #[trigger] s.drop_last()[i],
            ) by {
                assert(s.drop_last()[i] == s[i]);
            }
        }
        lemma_without_char_digits(s.drop_last());
        assert(is_digit(s[s.len() - 1]));
        assert(s.drop_last().push(s.last()) =~= s);
    }
}

proof fn lemma_ver_run_digits_then_letter(w: Seq<char>, t: Seq<char>)
    requires
        all_digits(w),
        t.len() > 0,
        !is_digit(t[0]),
        t[0] != '.',
    ensures
        ver_run(w + t) == w.len(),
    decreases w.len(),
{
    if w.len() == 0 {
        assert(w + t =~= t);
    } else {
        assert((w + t).drop_first() =~= w.drop_first() + t);
        assert(all_digits(w.drop_first())) by {
            assert forall|i: int| 0 <= i < w.drop_first().len() implies is_digit(
                #[trigger] w.drop_first()[i],
            ) by {
                assert(w.drop_first()[i] == w[i + 1]);
            }
        }
        assert(is_digit(w[0]));
        assert((w + t)[0] == w[0]);
        lemma_ver_run_digits_then_letter(w.drop_first(), t);
    }
}

/// Where a composer or nvm package is unpacked (`tools/<tool>-<version>`),
/// the store's scan of `tools/` reads the same tool and version back.
pub proof fn tool_dir_round_trip(name: Seq<char>, version: Seq<char>)
    requires
        name == "composer"@ || name == "nvm"@,
    ensures
        spec_parse_tool_dir(spec_dir_name(name, version).skip(6)) == Some((name, version)),
{
    reveal_strlit("composer");
    reveal_strlit("nvm");
    reveal_strlit("nginx");
    reveal_strlit("apache");
    reveal_strlit("mysql");
    reveal_strlit("redis");
    reveal_strlit("php");
    reveal_strlit("tools/composer-");
    reveal_strlit("tools/nvm-");
    reveal_strlit("composer-");
    reveal_strlit("nvm-");
    assert("composer"@.len() == 8 && "nginx"@.len() == 5 && "apache"@.len() == 6 && "mysql"@.len()
        == 5 && "redis"@.len() == 5 && "php"@.len() == 3 && "nvm"@.len() == 3);
    assert("nvm"@[0] != "php"@[0]);
    let d = spec_dir_name(name, version).skip(6);
    if name == "composer"@ {
        assert(spec_dir_name(name, version) == "tools/composer-"@ + version);
        assert(d =~= "composer-"@ + version);
        assert(d.take(9) =~= "composer-"@);
        assert(d.skip(9) =~= version);
    } else {
        assert(name != "composer"@);
        assert(spec_dir_name(name, version) == "tools/nvm-"@ + version);
        assert(d =~= "nvm-"@ + version);
        assert(d.take(4) =~= "nvm-"@);
        assert(!has_prefix(d, "composer-"@)) by {
            if has_prefix(d, "composer-"@) {
                assert(d[0] == 'n');
                assert(d.take(9)[0] == 'c');
            }
        }
        assert(d.skip(4) =~= version);
    }
}

/// A PHP version `X.Y` or `X.Y.Z` (single-digit `X` and `Y`, digits `Z`) is
/// unpacked into `php/phpXYZnts`; scanning that directory reads the same
/// version, with variant `nts`, back.
pub proof fn php_dir_round_trip(a: char, b: char, rest: Seq<char>)
    requires
        is_digit(a),
        is_digit(b),
        all_digits(rest),
    ensures
        ({
            let version = if rest.len() == 0 {
                seq![a, '.', b]
            } else {
                seq![a, '.', b, '.'] + rest
            };
            spec_php_dir_name(spec_dir_name("php"@, version).skip(4)) == (version, "nts"@)
        }),
{
    reveal_strlit("composer");
    reveal_strlit("nvm");
    reveal_strlit("nginx");
    reveal_strlit("apache");
    reveal_strlit("mysql");
    reveal_strlit("redis");
    reveal_strlit("php");
    reveal_strlit("php/php");
    reveal_strlit("nts");
    let version = if rest.len() == 0 {
        seq![a, '.', b]
    } else {
        seq![a, '.', b, '.'] + rest
    };
    let w = seq![a, b] + rest;
    // the dots drop out of the version, leaving its digits
    if rest.len() == 0 {
        assert(version =~= seq![a, '.'] + seq![b]);
        lemma_without_char_concat(seq![a, '.'], seq![b], '.');
        assert(seq![a, '.'] =~= seq![a] + seq!['.']);
        lemma_without_char_concat(seq![a], seq!['.'], '.');
        lemma_without_char_single(a, '.');
        lemma_without_char_single(b, '.');
        lemma_without_char_single('.', '.');
        assert(w =~= seq![a, b]);
    } else {
        assert(version =~= seq![a, '.'] + (seq![b, '.'] + rest));
        lemma_without_char_concat(seq![a, '.'], seq![b, '.'] + rest, '.');
        lemma_without_char_concat(seq![b, '.'], rest, '.');
        assert(seq![a, '.'] =~= seq![a] + seq!['.']);
        assert(seq![b, '.'] =~= seq![b] + seq!['.']);
        lemma_without_char_concat(seq![a], seq!['.'], '.');
        lemma_without_char_concat(seq![b], seq!['.'], '.');
        lemma_without_char_single(a, '.');
        lemma_without_char_single(b, '.');
        lemma_without_char_single('.', '.');
        lemma_without_char_digits(rest);
        assert(w =~= seq![a] + seq![b] + rest);
    }
    assert(without_char(version, '.') == w);
    assert("php"@.len() == 3 && "nginx"@.len() == 5 && "apache"@.len() == 6 && "mysql"@.len() == 5
        && "redis"@.len() == 5);
    let d = spec_dir_name("php"@, version).skip(4);
    assert(spec_dir_name("php"@, version) == "php/php"@ + w + "nts"@);
    assert(d =~= "php"@ + (w + "nts"@));
    assert(has_prefix(d, "php"@)) by {
        assert(d.take(3) =~= "php"@);
    }
    let n = php_dir_body(d);
    assert(n =~= w + "nts"@);
    assert(all_digits(w)) by {
        assert forall|i: int| 0 <= i < w.len() implies is_digit(#[trigger] w[i]) by {
            if i >= 2 {
                assert(w[i] == rest[i - 2]);
            }
        }
    }
    lemma_ver_run_digits_then_letter(w, "nts"@);
    assert(n.take(w.len() as int) =~= w);
    assert(n.skip(w.len() as int) =~= "nts"@);
    assert(!w.contains('.')) by {
        if w.contains('.') {
            let i = choose|i: int| 0 <= i < w.len() && w[i] == '.';
            assert(is_digit(w[i]));
        }
    }
    if rest.len() > 0 {
        assert(w.skip(2) =~= rest);
    }
}

} // verus!
