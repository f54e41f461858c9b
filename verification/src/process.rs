//! What the Windows process manager reads and decides: parsing the output of
//! `tasklist` and `netstat`, telling which process belongs to an instance,
//! and the messages a failed start or stop is reported with.
use vstd::prelude::*;

use crate::service::{lowercase, spec_display_name, to_lowercase, ServiceInstance, ServiceKind};
use crate::text::{
    all_digits, chars_of, contains_chars, digits_value, has_prefix, is_digit, is_ws, occurs_at,
    parse_unsigned, push_all, spec_parse_unsigned, starts_with_at, string_of, sub_vec,
    trim_bounds, trim, replace_char, replace_chars, lemma_subrange_whole,
};

verus! {

/// The ASCII digits of `s`, in order.
pub open spec fn digits_only(s: Seq<char>) -> Seq<char>
    decreases s.len(),
{
    if s.len() == 0 {
        s
    } else if is_digit(s.last()) {
        digits_only(s.drop_last()).push(s.last())
    } else {
        digits_only(s.drop_last())
    }
}

proof fn lemma_digits_only_all_digits(s: Seq<char>)
    ensures
        all_digits(digits_only(s)),
    decreases s.len(),
{
    if s.len() > 0 {
        lemma_digits_only_all_digits(s.drop_last());
    }
}

/// The kilobytes of a `tasklist` memory column (`"12,345 K"`): its digits
/// read as one number; none where it has no digit.
pub open spec fn tasklist_kb(raw: Seq<char>) -> Option<nat> {
    let d = digits_only(raw);
    if d.len() > 0 {
        Some(digits_value(d))
    } else {
        None
    }
}

/// Megabytes from a `tasklist` memory column, rounded to the nearest
/// (`(kb + 512) / 1024`); none where the column holds no digit or more
/// kilobytes than a `u64` holds. (Within 512 of `u64::MAX` the rounding
/// itself would overflow: those columns are not accepted.)
pub fn parse_tasklist_memory(raw: &str) -> (mb: Option<u64>)
    requires
        match tasklist_kb(raw@) {
            Some(kb) => kb > u64::MAX || kb + 512 <= u64::MAX,
            None => true,
        },
    ensures
        match tasklist_kb(raw@) {
            Some(kb) => if kb <= u64::MAX {
                mb == Some(((kb + 512) / 1024) as u64)
            } else {
                mb is None
            },
            None => mb is None,
        },
{
    let v = chars_of(raw);
    let mut d: Vec<char> = Vec::new();
    let mut i: usize = 0;
    while i < v.len()
        invariant
            i <= v.len(),
            d@ == digits_only(v@.take(i as int)),
        decreases v.len() - i,
    {
        assert(v@.take(i + 1).drop_last() =~= v@.take(i as int));
        if '0' <= v[i] && v[i] <= '9' {
            d.push(v[i]);
        }
        i = i + 1;
    }
    assert(v@.take(v.len() as int) =~= v@);
    proof {
        lemma_digits_only_all_digits(v@);
        lemma_subrange_whole(d@);
    }
    match parse_unsigned(d.as_slice(), 0, d.len(), u64::MAX) {
        Some(kb) => {
            assert(d@.len() == 0 || d@[0] != '+');
            Some((kb + 512) / 1024)
        },
        None => None,
    }
}

/// The state of the CSV reader after `s`: the finished fields, the field
/// being read, and whether it is inside quotes.
pub open spec fn csv_state(s: Seq<char>) -> (Seq<Seq<char>>, Seq<char>, bool)
    decreases s.len(),
{
    if s.len() == 0 {
        (seq![], seq![], false)
    } else {
        let (fields, cur, quoted) = csv_state(s.drop_last());
        let c = s.last();
        if c == '"' {
            (fields, cur, !quoted)
        } else if c == ',' && !quoted {
            (fields.push(cur), seq![], quoted)
        } else {
            (fields, cur.push(c), quoted)
        }
    }
}

/// The fields of a CSV line: commas outside quotes separate fields, quote
/// characters only switch quoting and are dropped.
pub open spec fn csv_fields(s: Seq<char>) -> Seq<Seq<char>> {
    csv_state(s).0.push(csv_state(s).1)
}

pub open spec fn strings_view(v: Seq<String>) -> Seq<Seq<char>> {
    v.map_values(|s: String| s@)
}

/// Splits a CSV line (`"a","b"`) into its fields.
pub fn parse_csv_line(line: &str) -> (fields: Vec<String>)
    ensures
        strings_view(fields@) == csv_fields(line@),
{
    let v = chars_of(line);
    let mut fields: Vec<String> = Vec::new();
    let mut current: Vec<char> = Vec::new();
    let mut in_quotes = false;
    let mut i: usize = 0;
    while i < v.len()
        invariant
            i <= v.len(),
            csv_state(v@.take(i as int)) == (strings_view(fields@), current@, in_quotes),
        decreases v.len() - i,
    {
        assert(v@.take(i + 1).drop_last() =~= v@.take(i as int));
        let c = v[i];
        if c == '"' {
            in_quotes = !in_quotes;
        } else if c == ',' && !in_quotes {
            let ghost before = strings_view(fields@);
            let s = string_of(current.as_slice());
            fields.push(s);
            current = Vec::new();
            assert(strings_view(fields@) =~= before.push(s@));
        } else {
            current.push(c);
        }
        i = i + 1;
    }
    assert(v@.take(v.len() as int) =~= v@);
    let ghost before = strings_view(fields@);
    let s = string_of(current.as_slice());
    fields.push(s);
    assert(strings_view(fields@) =~= before.push(s@));
    fields
}

/// The whitespace-separated words of `s` (`str::split_whitespace`).
pub open spec fn words(s: Seq<char>) -> Seq<Seq<char>>
    decreases s.len(),
{
    if s.len() == 0 {
        seq![]
    } else {
        let w = words(s.drop_last());
        let c = s.last();
        if is_ws(c) {
            w
        } else if s.len() >= 2 && !is_ws(s[s.len() - 2]) {
            w.update(w.len() - 1, w.last().push(c))
        } else {
            w.push(seq![c])
        }
    }
}

proof fn lemma_words_nonempty(s: Seq<char>)
    ensures
        s.len() > 0 && !is_ws(s.last()) ==> words(s).len() > 0,
    decreases s.len(),
{
    if s.len() > 1 {
        lemma_words_nonempty(s.drop_last());
    }
}

/// The words of `v`, as `split_whitespace` yields them.
pub fn split_words(v: &[char]) -> (out: Vec<Vec<char>>)
    ensures
        out@.map_values(|x: Vec<char>| x@) == words(v@),
{
    let mut out: Vec<Vec<char>> = Vec::new();
    let mut i: usize = 0;
    while i < v.len()
        invariant
            i <= v.len(),
            out@.map_values(|x: Vec<char>| x@) == words(v@.take(i as int)),
        decreases v.len() - i,
    {
        let ghost prev = out@.map_values(|x: Vec<char>| x@);
        let ghost t = v@.take(i + 1);
        assert(t.drop_last() =~= v@.take(i as int));
        assert(t.last() == v@[i as int]);
        let c = v[i];
        if crate::text::is_whitespace(c) {
        } else if i >= 1 && !crate::text::is_whitespace(v[i - 1]) {
            assert(t[t.len() - 2] == v@[i - 1]);
            proof {
                lemma_words_nonempty(v@.take(i as int));
                assert(v@.take(i as int).last() == v@[i - 1]);
            }
            let k = out.len() - 1;
            let mut last = out.pop().unwrap();
            last.push(c);
            out.push(last);
            assert(out@.map_values(|x: Vec<char>| x@) =~= prev.update(k as int, prev[k as int].push(c)));
        } else {
            let mut w: Vec<char> = Vec::new();
            w.push(c);
            out.push(w);
            assert(out@.map_values(|x: Vec<char>| x@) =~= prev.push(seq![c]));
        }
        i = i + 1;
    }
    assert(v@.take(v.len() as int) =~= v@);
    out
}

/// Position of the last `c` in `s`.
pub open spec fn last_index_of(s: Seq<char>, c: char) -> Option<int> {
    if exists|i: int| 0 <= i < s.len() && s[i] == c {
        Some(
            choose|i: int|
                0 <= i < s.len() && s[i] == c && forall|j: int| i < j < s.len() ==> #[trigger] s[j] != c,
        )
    } else {
        None
    }
}

fn rfind_char(v: &[char], c: char) -> (r: Option<usize>)
    ensures
        match last_index_of(v@, c) {
            Some(i) => r is Some && r->0 == i && 0 <= i < v.len() && v@[i] == c,
            None => r is None,
        },
{
    let mut i: usize = v.len();
    while i > 0
        invariant
            i <= v.len(),
            forall|j: int| i <= j < v.len() ==> #[trigger] v@[j] != c,
        decreases i,
    {
        if v[i - 1] == c {
            proof {
                let w = (i - 1) as int;
                assert(0 <= w < v.len() && v@[w] == c && forall|j: int|
                    w < j < v.len() ==> #[trigger] v@[j] != c);
                let k = choose|k: int|
                    0 <= k < v.len() && v@[k] == c && forall|j: int|
                        k < j < v.len() ==> #[trigger] v@[j] != c;
                if k < w {
                    assert(v@[w] != c);
                }
                if k > w {
                    assert(v@[k] != c);
                }
            }
            return Some(i - 1);
        }
        i = i - 1;
    }
    None
}

/// A listening socket in a line of `netstat -ano -p TCP`: the line holds
/// `LISTENING` and at least five words; the port follows the last `:` of
/// the second word, the PID is the last word.
pub open spec fn netstat_entry(line: Seq<char>) -> Option<(u16, u32)> {
    let t = trim(line);
    let parts = words(t);
    if !(exists|k: int| occurs_at(t, "LISTENING"@, k)) || parts.len() < 5 {
        None
    } else {
        match last_index_of(parts[1], ':') {
            Some(colon) => match (
                spec_parse_unsigned(parts[1].skip(colon + 1), 0xffff),
                spec_parse_unsigned(parts.last(), 0xffff_ffff),
            ) {
                (Some(port), Some(pid)) => Some((port as u16, pid as u32)),
                _ => None,
            },
            None => None,
        }
    }
}

/// The listening port and PID of one line of `netstat` output.
pub fn parse_netstat_line(line: &str) -> (entry: Option<(u16, u32)>)
    ensures
        entry == netstat_entry(line@),
{
    let v = chars_of(line);
    let (a, b) = trim_bounds(v.as_slice(), 0, v.len());
    proof {
        lemma_subrange_whole(v@);
    }
    let t = sub_vec(v.as_slice(), a, b);
    let marker = chars_of("LISTENING");
    if !contains_chars(t.as_slice(), marker.as_slice()) {
        return None;
    }
    let parts = split_words(t.as_slice());
    let ghost pv = parts@.map_values(|x: Vec<char>| x@);
    if parts.len() < 5 {
        return None;
    }
    let local = &parts[1];
    assert(local@ == pv[1]);
    match rfind_char(local.as_slice(), ':') {
        Some(colon) => {
            let port_text = sub_vec(local.as_slice(), colon + 1, local.len());
            assert(port_text@ =~= pv[1].skip(colon + 1));
            proof {
                lemma_subrange_whole(port_text@);
            }
            let last = &parts[parts.len() - 1];
            assert(last@ == pv.last());
            proof {
                lemma_subrange_whole(last@);
            }
            let port = parse_unsigned(port_text.as_slice(), 0, port_text.len(), 0xffff);
            let pid = parse_unsigned(last.as_slice(), 0, last.len(), 0xffff_ffff);
            match (port, pid) {
                (Some(p), Some(q)) => Some((p as u16, q as u32)),
                _ => None,
            }
        },
        None => None,
    }
}

/// Whether `port` appears among the entries.
pub open spec fn has_port(entries: Seq<(u16, u32)>, port: u16) -> bool {
    exists|k: int| 0 <= k < entries.len() && (#[trigger] entries[k]).0 == port
}

/// The listening entries of `netstat` output, one per port, the first line
/// of a port winning (IPv4 and IPv6 lines repeat ports).
pub open spec fn netstat_entries(ls: Seq<Seq<char>>) -> Seq<(u16, u32)>
    decreases ls.len(),
{
    if ls.len() == 0 {
        seq![]
    } else {
        let prev = netstat_entries(ls.drop_last());
        match netstat_entry(ls.last()) {
            Some(e) => if has_port(prev, e.0) {
                prev
            } else {
                prev.push(e)
            },
            None => prev,
        }
    }
}

/// Port to PID for every listening socket in the output of
/// `netstat -ano -p TCP`, each port once.
pub fn parse_netstat(text: &str) -> (entries: Vec<(u16, u32)>)
    ensures
        entries@ == netstat_entries(crate::text::lines(text@)),
{
    let v = chars_of(text);
    let ls = crate::text::lines_of(v.as_slice());
    let ghost lsv = crate::text::lines(v@);
    let mut out: Vec<(u16, u32)> = Vec::new();
    let mut i: usize = 0;
    while i < ls.len()
        invariant
            i <= ls.len(),
            ls@.map_values(|x: Vec<char>| x@) == lsv,
            out@ == netstat_entries(lsv.take(i as int)),
        decreases ls.len() - i,
    {
        assert(lsv.take(i + 1).drop_last() =~= lsv.take(i as int));
        assert(ls@[i as int]@ == lsv[i as int]);
        let line = string_of(ls[i].as_slice());
        match parse_netstat_line(line.as_str()) {
            Some(e) => {
                let mut seen = false;
                let mut k: usize = 0;
                while k < out.len()
                    invariant
                        k <= out.len(),
                        seen == exists|j: int| 0 <= j < k && (#[trigger] out@[j]).0 == e.0,
                    decreases out.len() - k,
                {
                    if out[k].0 == e.0 {
                        seen = true;
                    }
                    k = k + 1;
                }
                if !seen {
                    out.push(e);
                }
            },
            None => {},
        }
        i = i + 1;
    }
    assert(lsv.take(ls.len() as int) =~= lsv);
    out
}


/// Whether `p` occurs in `s`.
pub open spec fn holds(s: Seq<char>, p: Seq<char>) -> bool {
    exists|k: int| occurs_at(s, p, k)
}

fn holds_exec(s: &[char], p: &str) -> (b: bool)
    ensures
        b == holds(s@, p@),
{
    contains_chars(s, chars_of(p).as_slice())
}

/// The part of a process's (lower-case) image name that marks each kind.
pub open spec fn kind_marker(kind: ServiceKind) -> Seq<char> {
    match kind {
        ServiceKind::Nginx => "nginx"@,
        ServiceKind::Apache => "httpd"@,
        ServiceKind::Php => "php"@,
        ServiceKind::Mysql => "mysqld"@,
        ServiceKind::Redis => "redis"@,
    }
}

/// Whether a process name (lower-cased) is one of `kind`'s: it holds the
/// kind's marker. No process (PID 0, or a name that could not be read) is.
pub fn pid_matches_service(pid: u32, name: Option<&str>, kind: ServiceKind) -> (b: bool)
    ensures
        b == (pid != 0 && match name {
            Some(n) => holds(n@, kind_marker(kind)),
            None => false,
        }),
{
    if pid == 0 {
        return false;
    }
    match name {
        Some(n) => {
            let v = chars_of(n);
            match kind {
                ServiceKind::Nginx => holds_exec(v.as_slice(), "nginx"),
                ServiceKind::Apache => holds_exec(v.as_slice(), "httpd"),
                ServiceKind::Php => holds_exec(v.as_slice(), "php"),
                ServiceKind::Mysql => holds_exec(v.as_slice(), "mysqld"),
                ServiceKind::Redis => holds_exec(v.as_slice(), "redis"),
            }
        },
        None => false,
    }
}

/// A path with `/` turned into `\` and lower-cased.
pub open spec fn normalized_path(p: Seq<char>) -> Seq<char> {
    lowercase(replace_char(p, '/', '\\'))
}

/// The normalized install directory with one trailing `\`.
pub open spec fn dir_prefix(install: Seq<char>) -> Seq<char> {
    let d = normalized_path(install);
    if d.len() > 0 && d.last() == '\\' {
        d
    } else {
        d.push('\\')
    }
}

/// An executable lies inside an install directory: compared with `/` as
/// `\`, lower-cased; an empty install directory holds nothing.
pub open spec fn spec_exe_under_install(exe: Seq<char>, install: Seq<char>) -> bool {
    normalized_path(install).len() > 0 && has_prefix(normalized_path(exe), dir_prefix(install))
}

fn normalize_exec(p: &str) -> (out: Vec<char>)
    ensures
        out@ == normalized_path(p@),
{
    let r = string_of(replace_chars(chars_of(p).as_slice(), '/', '\\').as_slice());
    let l = to_lowercase(r.as_str());
    chars_of(l.as_str())
}

/// Whether executable `exe_path` lies inside the directory `install_path`.
pub fn exe_under_install(exe_path: &str, install_path: &str) -> (b: bool)
    ensures
        b == spec_exe_under_install(exe_path@, install_path@),
{
    let inst = normalize_exec(install_path);
    if inst.len() == 0 {
        return false;
    }
    let mut prefix = inst;
    if prefix[prefix.len() - 1] != '\\' {
        prefix.push('\\');
    }
    let exe = normalize_exec(exe_path);
    assert(exe@.skip(0) =~= exe@);
    starts_with_at(exe.as_slice(), 0, prefix.as_slice())
}

/// Whether the process `pid` is this instance's: of its kind by name, and,
/// where its executable path could be read, inside its install directory
/// (an unreadable path is trusted on the name alone).
pub fn pid_matches_instance(
    pid: u32,
    name: Option<&str>,
    exe_path: Option<&str>,
    kind: ServiceKind,
    install_path: &str,
) -> (b: bool)
    ensures
        b == (pid != 0 && (match name {
            Some(n) => holds(n@, kind_marker(kind)),
            None => false,
        }) && match exe_path {
            Some(e) => spec_exe_under_install(e@, install_path@),
            None => true,
        }),
{
    if !pid_matches_service(pid, name, kind) {
        return false;
    }
    match exe_path {
        Some(e) => exe_under_install(e, install_path),
        None => true,
    }
}

/// The image name `tasklist` is filtered by to find leftover processes.
pub open spec fn spec_worker_image(kind: ServiceKind) -> Seq<char> {
    match kind {
        ServiceKind::Nginx => "nginx.exe"@,
        ServiceKind::Apache => "httpd.exe"@,
        ServiceKind::Mysql => "mysqld.exe"@,
        ServiceKind::Redis => "redis-server.exe"@,
        ServiceKind::Php => "php-cgi.exe"@,
    }
}

pub fn worker_image_name(kind: ServiceKind) -> (name: &'static str)
    ensures
        name@ == spec_worker_image(kind),
{
    match kind {
        ServiceKind::Nginx => "nginx.exe",
        ServiceKind::Apache => "httpd.exe",
        ServiceKind::Mysql => "mysqld.exe",
        ServiceKind::Redis => "redis-server.exe",
        ServiceKind::Php => "php-cgi.exe",
    }
}

/// The PID column of a `tasklist /FO CSV` line: the second comma-separated
/// part, quotes and blanks trimmed, read as a `u32`.
pub open spec fn spec_tasklist_pid(line: Seq<char>) -> Option<u32> {
    let parts = crate::text::split_on(line, ',');
    if parts.len() < 2 {
        None
    } else {
        match spec_parse_unsigned(
            trim(crate::text::trim_by(parts[1], crate::text::is_char('"'))),
            0xffff_ffff,
        ) {
            Some(n) => Some(n as u32),
            None => None,
        }
    }
}

pub fn tasklist_pid(line: &str) -> (pid: Option<u32>)
    ensures
        pid == spec_tasklist_pid(line@),
{
    let v = chars_of(line);
    let parts = crate::text::split_chars(v.as_slice(), ',');
    let ghost pv = parts@.map_values(|x: Vec<char>| x@);
    if parts.len() < 2 {
        return None;
    }
    assert(parts@[1]@ == pv[1]);
    let unq = crate::text::trim_matching(parts[1].as_slice(), '"');
    let (a, b) = trim_bounds(unq.as_slice(), 0, unq.len());
    proof {
        lemma_subrange_whole(unq@);
    }
    match parse_unsigned(unq.as_slice(), a, b, 0xffff_ffff) {
        Some(n) => Some(n as u32),
        None => None,
    }
}

/// How a failed `taskkill` is reported: not at all where the process was
/// already gone; as missing rights where access was denied; else with its
/// trimmed error output.
pub open spec fn spec_taskkill_failure(kind: ServiceKind, pid: u32, stderr: Seq<char>) -> Option<
    Seq<char>,
> {
    let err = trim(stderr);
    let lower = lowercase(err);
    if holds(lower, "not be found"@) || holds(lower, "not found"@) || holds(err, "找不到"@) {
        None
    } else if holds(lower, "access is denied"@) || holds(err, "拒绝访问"@) {
        Some(
            "无法结束 "@ + spec_display_name(kind) + " (PID "@ + crate::text::spec_decimal(
                pid as nat,
            ) + "): 权限不足（进程可能以管理员身份启动）"@,
        )
    } else {
        Some(
            "无法结束 "@ + spec_display_name(kind) + " (PID "@ + crate::text::spec_decimal(
                pid as nat,
            ) + "): "@ + err,
        )
    }
}

pub fn taskkill_failure(kind: ServiceKind, pid: u32, stderr: &str) -> (msg: Option<String>)
    ensures
        match spec_taskkill_failure(kind, pid, stderr@) {
            Some(m) => msg is Some && msg->0@ == m,
            None => msg is None,
        },
{
    let v = chars_of(stderr);
    let (a, b) = trim_bounds(v.as_slice(), 0, v.len());
    proof {
        lemma_subrange_whole(v@);
    }
    let err = string_of(sub_vec(v.as_slice(), a, b).as_slice());
    let lower = chars_of(to_lowercase(err.as_str()).as_str());
    let ev = chars_of(err.as_str());
    if holds_exec(lower.as_slice(), "not be found") || holds_exec(lower.as_slice(), "not found")
        || holds_exec(ev.as_slice(), "找不到") {
        return None;
    }
    let head = crate::text::concat4(
        "无法结束 ",
        kind.display_name(),
        " (PID ",
        crate::text::decimal(pid as u64).as_str(),
    );
    if holds_exec(lower.as_slice(), "access is denied") || holds_exec(ev.as_slice(), "拒绝访问") {
        Some(crate::text::concat2(head.as_str(), "): 权限不足（进程可能以管理员身份启动）"))
    } else {
        Some(crate::text::concat3(head.as_str(), "): ", err.as_str()))
    }
}

pub open spec fn spec_stop_port_busy(kind: ServiceKind, port: u16, still_pid: u32) -> Seq<char> {
    spec_display_name(kind) + " 已发出停止命令但端口 "@ + crate::text::spec_decimal(port as nat)
        + " 仍被占用"@ + if still_pid > 0 {
        "（端口仍被 PID "@ + crate::text::spec_decimal(still_pid as nat) + " 占用）"@
    } else {
        seq![]
    }
}

/// The error of a stop after which the port is still taken (by `still_pid`,
/// 0 where no process could be found).
pub fn stop_port_busy(kind: ServiceKind, port: u16, still_pid: u32) -> (msg: String)
    ensures
        msg@ == spec_stop_port_busy(kind, port, still_pid),
{
    let extra = if still_pid > 0 {
        crate::text::concat3("（端口仍被 PID ", crate::text::decimal(still_pid as u64).as_str(), " 占用）")
    } else {
        String::new()
    };
    let m = crate::text::concat5(
        kind.display_name(),
        " 已发出停止命令但端口 ",
        crate::text::decimal(port as u64).as_str(),
        " 仍被占用",
        extra.as_str(),
    );
    assert(m@ =~= spec_stop_port_busy(kind, port, still_pid));
    m
}


/// The process found listening on a port: its PID, whether it is the
/// instance's own, and its executable path where it could be read.
#[derive(Clone, Debug)]
pub struct PortHolder {
    pub pid: u32,
    pub is_instance: bool,
    pub exe_path: Option<String>,
}

/// A holder that is some other program.
pub open spec fn is_foreign(h: Option<PortHolder>) -> bool {
    match h {
        Some(x) => x.pid != 0 && !x.is_instance,
        None => false,
    }
}

pub open spec fn exe_or(h: PortHolder, fallback: Seq<char>) -> Seq<char> {
    match h.exe_path {
        Some(e) => e@,
        None => fallback,
    }
}

pub open spec fn spec_port_busy_error(kind: ServiceKind, port: u16, holder: Option<PortHolder>) -> Seq<char> {
    if is_foreign(holder) {
        spec_display_name(kind) + " 启动失败：端口 "@ + crate::text::spec_decimal(port as nat)
            + " 已被外部进程占用 (PID "@ + crate::text::spec_decimal(holder->0.pid as nat) + ", "@
            + exe_or(holder->0, "未知进程"@) + ")。请先在仪表板结束外部进程后重试。"@
    } else {
        spec_display_name(kind) + " 启动失败：端口 "@ + crate::text::spec_decimal(port as nat)
            + " 被占用，但定位不到具体进程。请到仪表板「陌生进程」查看。"@
    }
}

/// The error of a start refused because its port cannot be bound: naming
/// the other program where one holds the port, else saying it was not found.
pub fn port_busy_error(kind: ServiceKind, port: u16, holder: Option<PortHolder>) -> (msg: String)
    ensures
        msg@ == spec_port_busy_error(kind, port, holder),
{
    let dn = kind.display_name();
    let ps = crate::text::decimal(port as u64);
    match holder {
        Some(h) => {
            if h.pid != 0 && !h.is_instance {
                let exe = match &h.exe_path {
                    Some(e) => e.clone(),
                    None => "未知进程".to_owned(),
                };
                let a = crate::text::concat5(
                    dn,
                    " 启动失败：端口 ",
                    ps.as_str(),
                    " 已被外部进程占用 (PID ",
                    crate::text::decimal(h.pid as u64).as_str(),
                );
                let m = crate::text::concat4(
                    a.as_str(),
                    ", ",
                    exe.as_str(),
                    ")。请先在仪表板结束外部进程后重试。",
                );
                assert(m@ =~= spec_port_busy_error(kind, port, Some(h)));
                return m;
            }
        },
        None => {},
    }
    let m = crate::text::concat4(
        dn,
        " 启动失败：端口 ",
        ps.as_str(),
        " 被占用，但定位不到具体进程。请到仪表板「陌生进程」查看。",
    );
    assert(m@ =~= spec_port_busy_error(kind, port, holder));
    m
}

/// The error output and the standard output of a process that exited,
/// each trimmed, joined by a line break, and trimmed again.
pub open spec fn spec_combined_output(stderr: Seq<char>, stdout: Seq<char>) -> Seq<char> {
    trim(trim(stderr) + seq!['\n'] + trim(stdout))
}

pub fn combined_output(stderr: &str, stdout: &str) -> (out: String)
    ensures
        out@ == spec_combined_output(stderr@, stdout@),
{
    let e = chars_of(stderr);
    let (a, b) = trim_bounds(e.as_slice(), 0, e.len());
    let o = chars_of(stdout);
    let (c, d) = trim_bounds(o.as_slice(), 0, o.len());
    proof {
        lemma_subrange_whole(e@);
        lemma_subrange_whole(o@);
    }
    let mut joined = sub_vec(e.as_slice(), a, b);
    joined.push('\n');
    let tail = sub_vec(o.as_slice(), c, d);
    push_all(&mut joined, tail.as_slice());
    assert(joined@ =~= trim(stderr@) + seq!['\n'] + trim(stdout@));
    let (x, y) = trim_bounds(joined.as_slice(), 0, joined.len());
    proof {
        lemma_subrange_whole(joined@);
    }
    let r = sub_vec(joined.as_slice(), x, y);
    string_of(r.as_slice())
}

pub open spec fn spec_start_exit_error(
    kind: ServiceKind,
    port: u16,
    code: i32,
    combined: Seq<char>,
    holder: Option<PortHolder>,
) -> Seq<char> {
    if combined.len() == 0 {
        let head = spec_display_name(kind) + " 启动失败 (exit code "@
            + crate::text::spec_signed_decimal(code as int) + ")"@;
        if is_foreign(holder) {
            head + "：端口 "@ + crate::text::spec_decimal(port as nat) + " 已被外部进程占用 (PID "@
                + crate::text::spec_decimal(holder->0.pid as nat) + ", "@ + exe_or(holder->0, seq![])
                + ")"@
        } else {
            head
        }
    } else {
        let ls = crate::text::lines(combined);
        spec_display_name(kind) + " 启动失败: "@ + if ls.len() > 0 {
            ls.last()
        } else {
            "unknown error"@
        }
    }
}

/// The error of a service that exited right after being started, with exit
/// code `code` and output `combined` (see `combined_output`): the last line of
/// the output, or where there is none, the exit code and any other program
/// holding the port.
pub fn start_exit_error(
    kind: ServiceKind,
    port: u16,
    code: i32,
    combined: &str,
    holder: Option<PortHolder>,
) -> (msg: String)
    ensures
        msg@ == spec_start_exit_error(kind, port, code, combined@, holder),
{
    let dn = kind.display_name();
    let cv = chars_of(combined);
    if cv.len() == 0 {
        let head = crate::text::concat4(
            dn,
            " 启动失败 (exit code ",
            crate::text::signed_decimal(code).as_str(),
            ")",
        );
        match holder {
            Some(h) => {
                if h.pid != 0 && !h.is_instance {
                    let exe = match &h.exe_path {
                        Some(e) => e.clone(),
                        None => String::new(),
                    };
                    let a = crate::text::concat5(
                        head.as_str(),
                        "：端口 ",
                        crate::text::decimal(port as u64).as_str(),
                        " 已被外部进程占用 (PID ",
                        crate::text::decimal(h.pid as u64).as_str(),
                    );
                    let m = crate::text::concat4(a.as_str(), ", ", exe.as_str(), ")");
                    assert(m@ =~= spec_start_exit_error(kind, port, code, combined@, Some(h)));
                    return m;
                }
            },
            None => {},
        }
        return head;
    }
    let ls = crate::text::lines_of(cv.as_slice());
    let ghost lsv = crate::text::lines(cv@);
    assert(ls@.len() == lsv.len());
    let last: String = if ls.len() > 0 {
        assert(ls@[ls.len() - 1]@ == lsv.last());
        string_of(ls[ls.len() - 1].as_slice())
    } else {
        "unknown error".to_owned()
    };
    crate::text::concat3(dn, " 启动失败: ", last.as_str())
}

/// The error of a service that could not be launched at all.
pub fn spawn_error(kind: ServiceKind, error: &str) -> (msg: String)
    ensures
        msg@ == "无法启动 "@ + spec_display_name(kind) + ": "@ + error@,
{
    crate::text::concat4("无法启动 ", kind.display_name(), ": ", error)
}

/// Whether nginx's PID file names a process: its trimmed text is a `u32`
/// above zero.
pub open spec fn spec_nginx_pid_valid(content: Seq<char>) -> bool {
    match spec_parse_unsigned(trim(content), 0xffff_ffff) {
        Some(p) => p > 0,
        None => false,
    }
}

pub fn nginx_pid_valid(content: &str) -> (b: bool)
    ensures
        b == spec_nginx_pid_valid(content@),
{
    let v = chars_of(content);
    let (a, b) = trim_bounds(v.as_slice(), 0, v.len());
    proof {
        lemma_subrange_whole(v@);
    }
    match parse_unsigned(v.as_slice(), a, b, 0xffff_ffff) {
        Some(p) => p > 0,
        None => false,
    }
}

/// Lines of `nginx -t` output that report a problem.
pub open spec fn reports_problem() -> spec_fn(Seq<char>) -> bool {
    |l: Seq<char>| holds(l, "emerg"@) || holds(l, "error"@)
}

pub open spec fn spec_nginx_config_error(stderr: Seq<char>) -> Seq<char> {
    let ls = crate::text::lines(stderr);
    "Nginx 配置错误: "@ + match crate::text::first_index(ls, reports_problem()) {
        Some(i) => ls[i],
        None => if ls.len() > 0 {
            ls.last()
        } else {
            "unknown"@
        },
    }
}

/// The error of a failed `nginx -t`: its first line that reports `emerg`
/// or `error`, else its last line.
pub fn nginx_config_error(stderr: &str) -> (msg: String)
    ensures
        msg@ == spec_nginx_config_error(stderr@),
{
    let v = chars_of(stderr);
    let ls = crate::text::lines_of(v.as_slice());
    let ghost lsv = crate::text::lines(v@);
    let ghost p = reports_problem();
    let mut i: usize = 0;
    while i < ls.len()
        invariant
            i <= ls.len(),
            ls@.map_values(|x: Vec<char>| x@) == lsv,
            p == reports_problem(),
            forall|j: int| 0 <= j < i ==> !p(#[trigger] lsv[j]),
        ensures
            i == ls.len() || p(lsv[i as int]),
        decreases ls.len() - i,
    {
        assert(ls@[i as int]@ == lsv[i as int]);
        if holds_exec(ls[i].as_slice(), "emerg") || holds_exec(ls[i].as_slice(), "error") {
            break;
        }
        i = i + 1;
    }
    proof {
        crate::text::lemma_first_index(lsv, p, i as int);
    }
    let line: String = if i < ls.len() {
        assert(ls@[i as int]@ == lsv[i as int]);
        string_of(ls[i].as_slice())
    } else if ls.len() > 0 {
        assert(ls@[ls.len() - 1]@ == lsv.last());
        string_of(ls[ls.len() - 1].as_slice())
    } else {
        "unknown".to_owned()
    };
    crate::text::concat2("Nginx 配置错误: ", line.as_str())
}


/// One argument of a command line: `text`, followed directly by a path
/// inside the install directory where `in_install` gives its components.
#[derive(Clone, Debug)]
pub struct PlanArg {
    pub text: String,
    pub in_install: Option<Vec<String>>,
}

/// A command line to run for an instance.
#[derive(Clone, Debug)]
pub struct CommandPlan {
    /// The program: a path inside the install directory, by its components.
    pub program: Vec<String>,
    pub args: Vec<PlanArg>,
    /// Whether it runs in the install directory.
    pub in_install_dir: bool,
    /// Environment variables set for the process, as name and value.
    pub env: Vec<(String, String)>,
}

pub open spec fn env_view(p: CommandPlan) -> Seq<(Seq<char>, Seq<char>)> {
    p.env@.map_values(|e: (String, String)| (e.0@, e.1@))
}

/// The environment a process starts with: for a PHP pool with runtime
/// options, its worker count as `PHP_FCGI_CHILDREN` and the requests a
/// worker serves before it is replaced as `PHP_FCGI_MAX_REQUESTS`; nothing
/// otherwise.
pub open spec fn spec_start_env(inst: ServiceInstance) -> Seq<(Seq<char>, Seq<char>)> {
    match (inst.kind, inst.php_runtime) {
        (ServiceKind::Php, Some(o)) => seq![
            ("PHP_FCGI_CHILDREN"@, crate::text::spec_decimal(o.workers as nat)),
            ("PHP_FCGI_MAX_REQUESTS"@, crate::text::spec_decimal(o.max_requests as nat)),
        ],
        _ => seq![],
    }
}

fn start_env(instance: &ServiceInstance) -> (env: Vec<(String, String)>)
    ensures
        env@.map_values(|e: (String, String)| (e.0@, e.1@)) == spec_start_env(*instance),
{
    let mut env: Vec<(String, String)> = Vec::new();
    match instance.kind {
        ServiceKind::Php => match &instance.php_runtime {
            Some(o) => {
                env.push(("PHP_FCGI_CHILDREN".to_owned(), crate::text::decimal(o.workers as u64)));
                env.push(
                    ("PHP_FCGI_MAX_REQUESTS".to_owned(), crate::text::decimal(o.max_requests as u64)),
                );
            },
            None => {},
        },
        _ => {},
    }
    assert(env@.map_values(|e: (String, String)| (e.0@, e.1@)) =~= spec_start_env(*instance));
    env
}

pub type ArgView = (Seq<char>, Option<Seq<Seq<char>>>);

pub open spec fn arg_view(a: PlanArg) -> ArgView {
    (
        a.text@,
        match a.in_install {
            Some(p) => Some(strings_view(p@)),
            None => None,
        },
    )
}

pub open spec fn plan_view(p: CommandPlan) -> (Seq<Seq<char>>, Seq<ArgView>, bool) {
    (strings_view(p.program@), p.args@.map_values(|a: PlanArg| arg_view(a)), p.in_install_dir)
}

pub open spec fn lit(t: Seq<char>) -> ArgView {
    (t, None)
}

pub open spec fn under(t: Seq<char>, path: Seq<Seq<char>>) -> ArgView {
    (t, Some(path))
}

/// A configured file, or the given default inside the install directory.
pub open spec fn conf_or(config: Option<String>, default: Seq<Seq<char>>) -> ArgView {
    match config {
        Some(c) => lit(c@),
        None => under(seq![], default),
    }
}

pub open spec fn spec_start_plan(inst: ServiceInstance, opcache_dir: Seq<char>) -> (
    Seq<Seq<char>>,
    Seq<ArgView>,
    bool,
) {
    match inst.kind {
        ServiceKind::Nginx => (
            seq!["nginx.exe"@],
            seq![lit("-c"@), conf_or(inst.config_path, seq!["conf"@, "nginx.conf"@])],
            true,
        ),
        ServiceKind::Apache => (
            seq!["bin"@, "httpd.exe"@],
            seq![lit("-f"@), conf_or(inst.config_path, seq!["conf"@, "httpd.conf"@])],
            true,
        ),
        ServiceKind::Php => (
            seq!["php-cgi.exe"@],
            seq![lit("-b"@), lit("127.0.0.1:"@ + crate::text::spec_decimal(inst.port as nat))]
                + match inst.config_path {
                Some(c) => seq![lit("-c"@), lit(c@)],
                None => seq![],
            } + seq![
                lit("-d"@),
                lit("opcache.file_cache="@ + opcache_dir),
                lit("-d"@),
                lit("opcache.file_cache_fallback=1"@),
            ],
            true,
        ),
        ServiceKind::Mysql => (
            seq!["bin"@, "mysqld.exe"@],
            seq![
                match inst.config_path {
                    Some(c) => lit("--defaults-file="@ + c@),
                    None => under("--defaults-file="@, seq!["my.ini"@]),
                },
            ],
            true,
        ),
        ServiceKind::Redis => (
            seq!["redis-server.exe"@],
            seq![conf_or(inst.config_path, seq!["redis.windows.conf"@])],
            true,
        ),
    }
}

fn text_arg(t: &str) -> (a: PlanArg)
    ensures
        arg_view(a) == lit(t@),
{
    PlanArg { text: t.to_owned(), in_install: None }
}

fn path_arg(t: &str, p1: &str, p2: Option<&str>) -> (a: PlanArg)
    ensures
        arg_view(a) == under(
            t@,
            match p2 {
                Some(x) => seq![p1@, x@],
                None => seq![p1@],
            },
        ),
{
    let mut path: Vec<String> = Vec::new();
    path.push(p1.to_owned());
    match p2 {
        Some(x) => path.push(x.to_owned()),
        None => {},
    }
    let a = PlanArg { text: t.to_owned(), in_install: Some(path) };
    assert(strings_view(path@) =~= match p2 {
        Some(x) => seq![p1@, x@],
        None => seq![p1@],
    });
    a
}

fn program_of(p1: &str, p2: Option<&str>) -> (v: Vec<String>)
    ensures
        strings_view(v@) == match p2 {
            Some(x) => seq![p1@, x@],
            None => seq![p1@],
        },
{
    let mut v: Vec<String> = Vec::new();
    v.push(p1.to_owned());
    match p2 {
        Some(x) => v.push(x.to_owned()),
        None => {},
    }
    assert(strings_view(v@) =~= match p2 {
        Some(x) => seq![p1@, x@],
        None => seq![p1@],
    });
    v
}

fn conf_arg(config: &Option<String>, p1: &str, p2: Option<&str>) -> (a: PlanArg)
    ensures
        arg_view(a) == conf_or(
            *config,
            match p2 {
                Some(x) => seq![p1@, x@],
                None => seq![p1@],
            },
        ),
{
    match config {
        Some(c) => text_arg(c.as_str()),
        None => {
            let a = path_arg("", p1, p2);
            proof {
                reveal_strlit("");
            }
            assert(a.text@ =~= seq![]);
            a
        },
    }
}

fn plan(program: Vec<String>, args: Vec<PlanArg>, in_install_dir: bool) -> (p: CommandPlan)
    ensures
        p.program == program,
        p.args == args,
        p.in_install_dir == in_install_dir,
        p.env@.len() == 0,
{
    CommandPlan { program, args, in_install_dir, env: Vec::new() }
}

/// The command line that starts an instance, and its environment (the
/// worker pool of a PHP instance, see `spec_start_env`). `opcache_dir` is
/// the writable directory PHP keeps its OPcache files in.
pub fn build_start_command(instance: &ServiceInstance, opcache_dir: &str) -> (p: CommandPlan)
    ensures
        plan_view(p) == spec_start_plan(*instance, opcache_dir@),
        env_view(p) == spec_start_env(*instance),
{
    let mut args: Vec<PlanArg> = Vec::new();
    let p = match instance.kind {
        ServiceKind::Nginx => {
            args.push(text_arg("-c"));
            args.push(conf_arg(&instance.config_path, "conf", Some("nginx.conf")));
            plan(program_of("nginx.exe", None), args, true)
        },
        ServiceKind::Apache => {
            args.push(text_arg("-f"));
            args.push(conf_arg(&instance.config_path, "conf", Some("httpd.conf")));
            plan(program_of("bin", Some("httpd.exe")), args, true)
        },
        ServiceKind::Php => {
            args.push(text_arg("-b"));
            let bind = crate::text::concat2("127.0.0.1:", crate::text::decimal(instance.port as u64).as_str());
            args.push(text_arg(bind.as_str()));
            match &instance.config_path {
                Some(c) => {
                    args.push(text_arg("-c"));
                    args.push(text_arg(c.as_str()));
                },
                None => {},
            }
            args.push(text_arg("-d"));
            let cache = crate::text::concat2("opcache.file_cache=", opcache_dir);
            args.push(text_arg(cache.as_str()));
            args.push(text_arg("-d"));
            args.push(text_arg("opcache.file_cache_fallback=1"));
            let mut p = plan(program_of("php-cgi.exe", None), args, true);
            p.env = start_env(instance);
            p
        },
        ServiceKind::Mysql => {
            match &instance.config_path {
                Some(c) => {
                    let t = crate::text::concat2("--defaults-file=", c.as_str());
                    args.push(text_arg(t.as_str()));
                },
                None => {
                    args.push(path_arg("--defaults-file=", "my.ini", None));
                },
            }
            plan(program_of("bin", Some("mysqld.exe")), args, true)
        },
        ServiceKind::Redis => {
            args.push(conf_arg(&instance.config_path, "redis.windows.conf", None));
            plan(program_of("redis-server.exe", None), args, true)
        },
    };
    assert(plan_view(p) =~= spec_start_plan(*instance, opcache_dir@));
    proof {
        if instance.kind != ServiceKind::Php {
            assert(env_view(p) =~= spec_start_env(*instance));
        }
    }
    p
}

/// The `taskkill` arguments that end a process by force: for a PHP pool
/// with `/T`, so that the parent and every worker of its tree end; for the
/// other services the process alone.
pub open spec fn spec_kill_args(kind: ServiceKind, pid: u32) -> Seq<Seq<char>> {
    if kind == ServiceKind::Php {
        seq!["/F"@, "/T"@, "/PID"@, crate::text::spec_decimal(pid as nat)]
    } else {
        seq!["/F"@, "/PID"@, crate::text::spec_decimal(pid as nat)]
    }
}

/// The `taskkill` arguments for ending process `pid` of a `kind` service,
/// as `spec_kill_args` states them.
pub fn kill_args(kind: ServiceKind, pid: u32) -> (args: Vec<String>)
    ensures
        strings_view(args@) == spec_kill_args(kind, pid),
{
    let mut args: Vec<String> = Vec::new();
    args.push("/F".to_owned());
    let tree = match kind {
        ServiceKind::Php => true,
        _ => false,
    };
    if tree {
        args.push("/T".to_owned());
    }
    args.push("/PID".to_owned());
    args.push(crate::text::decimal(pid as u64));
    assert(strings_view(args@) =~= spec_kill_args(kind, pid));
    args
}

pub open spec fn spec_stop_plan(inst: ServiceInstance) -> Option<(Seq<Seq<char>>, Seq<ArgView>, bool)> {
    match inst.kind {
        ServiceKind::Nginx => Some((seq!["nginx.exe"@], seq![lit("-s"@), lit("quit"@)], true)),
        ServiceKind::Apache => Some(
            (seq!["bin"@, "httpd.exe"@], seq![lit("-k"@), lit("stop"@)], true),
        ),
        ServiceKind::Redis => Some(
            (
                seq!["redis-cli.exe"@],
                seq![lit("-p"@), lit(crate::text::spec_decimal(inst.port as nat)), lit("shutdown"@)],
                false,
            ),
        ),
        ServiceKind::Mysql => Some(
            (
                seq!["bin"@, "mysqladmin.exe"@],
                seq![lit("-u"@), lit("root"@), lit("shutdown"@)],
                true,
            ),
        ),
        ServiceKind::Php => None,
    }
}

/// The command that stops an instance gracefully; PHP-CGI has none and is
/// ended by its PID.
pub fn build_stop_command(instance: &ServiceInstance) -> (p: Option<CommandPlan>)
    ensures
        match spec_stop_plan(*instance) {
            Some(v) => p is Some && plan_view(p->0) == v && env_view(p->0).len() == 0,
            None => p is None,
        },
{
    let mut args: Vec<PlanArg> = Vec::new();
    match instance.kind {
        ServiceKind::Nginx => {
            args.push(text_arg("-s"));
            args.push(text_arg("quit"));
            let p = plan(program_of("nginx.exe", None), args, true);
            assert(plan_view(p) =~= spec_stop_plan(*instance)->0);
            Some(p)
        },
        ServiceKind::Apache => {
            args.push(text_arg("-k"));
            args.push(text_arg("stop"));
            let p = plan(program_of("bin", Some("httpd.exe")), args, true);
            assert(plan_view(p) =~= spec_stop_plan(*instance)->0);
            Some(p)
        },
        ServiceKind::Redis => {
            args.push(text_arg("-p"));
            let port = crate::text::decimal(instance.port as u64);
            args.push(text_arg(port.as_str()));
            args.push(text_arg("shutdown"));
            let p = plan(program_of("redis-cli.exe", None), args, false);
            assert(plan_view(p) =~= spec_stop_plan(*instance)->0);
            Some(p)
        },
        ServiceKind::Mysql => {
            args.push(text_arg("-u"));
            args.push(text_arg("root"));
            args.push(text_arg("shutdown"));
            let p = plan(program_of("bin", Some("mysqladmin.exe")), args, true);
            assert(plan_view(p) =~= spec_stop_plan(*instance)->0);
            Some(p)
        },
        ServiceKind::Php => None,
    }
}


/// The entries `parse_netstat` gives name each port once.
pub proof fn netstat_ports_distinct(ls: Seq<Seq<char>>)
    ensures
        forall|i: int, j: int|
            0 <= i < j < netstat_entries(ls).len() ==> (#[trigger] netstat_entries(ls)[i]).0
                != (#[trigger] netstat_entries(ls)[j]).0,
    decreases ls.len(),
{
    if ls.len() > 0 {
        netstat_ports_distinct(ls.drop_last());
        let prev = netstat_entries(ls.drop_last());
        let cur = netstat_entries(ls);
        match netstat_entry(ls.last()) {
            Some(e) => {
                if !has_port(prev, e.0) {
                    assert forall|i: int, j: int| 0 <= i < j < cur.len() implies (#[trigger] cur[i]).0
                        != (#[trigger] cur[j]).0 by {
                        assert(cur[i] == prev[i]);
                        if j < prev.len() {
                            assert(cur[j] == prev[j]);
                        } else {
                            assert(cur[j] == e);
                            if prev[i].0 == e.0 {
                                assert(has_port(prev, e.0));
                            }
                        }
                    }
                }
            },
            None => {},
        }
    }
}

/// What a PHP pool's watchdog does on one of its ticks (every two seconds).
#[derive(Clone, Copy, Debug, PartialEq, Eq, Structural)]
pub enum WatchdogStep {
    /// The user stopped the service: the watchdog ends.
    Exit,
    /// The pool answers on its port.
    Healthy,
    /// The pool died: start it again.
    Restart,
    /// Too many crashes in a row: auto-restart is switched off.
    GiveUp,
}

/// Consecutive crashes after which the watchdog gives up.
pub const MAX_CRASHES: u32 = 5;

/// One watchdog tick, from whether auto-restart is still on, whether the
/// port answers, and the crashes in a row so far; returns the step and the
/// new crash count. A live pool resets the count; a dead one is restarted
/// until a sixth crash in a row.
pub fn watchdog_tick(enabled: bool, alive: bool, crashes: u32) -> (r: (WatchdogStep, u32))
    requires
        crashes <= MAX_CRASHES,
    ensures
        !enabled ==> r == (WatchdogStep::Exit, crashes),
        enabled && alive ==> r == (WatchdogStep::Healthy, 0u32),
        enabled && !alive && crashes < MAX_CRASHES ==> r == (WatchdogStep::Restart, (crashes + 1) as u32),
        enabled && !alive && crashes == MAX_CRASHES ==> r == (WatchdogStep::GiveUp, (crashes + 1) as u32),
        r.0 == WatchdogStep::Restart ==> r.1 <= MAX_CRASHES,
{
    if !enabled {
        return (WatchdogStep::Exit, crashes);
    }
    if alive {
        return (WatchdogStep::Healthy, 0);
    }
    let next = crashes + 1;
    if next > MAX_CRASHES {
        (WatchdogStep::GiveUp, next)
    } else {
        (WatchdogStep::Restart, next)
    }
}

/// The megabytes of a `tasklist` column are its kilobytes rounded to the
/// nearest megabyte: within 512 KB either way.
pub proof fn tasklist_memory_rounds_to_nearest(kb: nat)
    ensures
        ((kb + 512) / 1024) * 1024 <= kb + 512,
        kb + 512 < ((kb + 512) / 1024) * 1024 + 1024,
{
    let q = (kb + 512) / 1024;
    let r = (kb + 512) % 1024;
    assert(kb + 512 == q * 1024 + r && 0 <= r < 1024) by (nonlinear_arith)
        requires
            q == (kb + 512) / 1024,
            r == (kb + 512) % 1024,
    ;
}

} // verus!
