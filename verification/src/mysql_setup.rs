//! Setting up a MySQL install from the store and changing its root password:
//! which setup steps a fresh install needs, the command lines, the SQL and
//! the credential file they use, and how their outcomes are reported.
use vstd::prelude::*;

use crate::process::strings_view;
use crate::store::MysqlOption;
use crate::text::{
    chars_of, lemma_trail_count_unique, spec_decimal, string_of, string_of_range, trail_count, trim,
    trim_bounds,
};

verus! {

/// What the post-install setup of a MySQL package does, in this order:
/// write a default `my.ini`, clear a half-made data directory, initialise
/// the data directory, then set the default root password. The password
/// step follows an initialisation only where that succeeded.
#[derive(Clone, Copy, Debug, PartialEq, Eq, Structural)]
pub struct MysqlSetupPlan {
    pub write_my_ini: bool,
    pub clear_data_dir: bool,
    pub initialize: bool,
    pub set_default_password: bool,
}

/// The setup a MySQL install needs, from what is on disk: nothing at all
/// without `bin\mysqld.exe`; a `my.ini` where there is none; initialisation
/// where the data directory has no `mysql` system database (clearing the
/// directory first where it exists); the default password where no
/// password file records one.
pub fn mysql_setup_plan(
    mysqld_present: bool,
    my_ini_present: bool,
    system_db_present: bool,
    data_dir_present: bool,
    password_file_present: bool,
) -> (r: Option<MysqlSetupPlan>)
    ensures
        r == (if mysqld_present {
            Some(
                MysqlSetupPlan {
                    write_my_ini: !my_ini_present,
                    clear_data_dir: !system_db_present && data_dir_present,
                    initialize: !system_db_present,
                    set_default_password: !password_file_present,
                },
            )
        } else {
            None
        }),
{
    if !mysqld_present {
        return None;
    }
    Some(
        MysqlSetupPlan {
            write_my_ini: !my_ini_present,
            clear_data_dir: !system_db_present && data_dir_present,
            initialize: !system_db_present,
            set_default_password: !password_file_present,
        },
    )
}

/// The password MySQL's root user is given on a fresh install.
pub fn default_root_password() -> (s: &'static str)
    ensures
        s@ == "root"@,
{
    "root"
}

/// What the password file records after the default password step: the
/// password where it was set, else an empty password (the state a fresh
/// `--initialize-insecure` leaves).
pub fn recorded_default_password(outcome: &Result<(), String>) -> (s: &'static str)
    ensures
        s@ == (if outcome is Ok {
            "root"@
        } else {
            ""@
        }),
{
    proof {
        reveal_strlit("root");
        reveal_strlit("");
    }
    match outcome {
        Ok(()) => "root",
        Err(_) => "",
    }
}

fn prefixed(prefix: &str, value: &str) -> (s: String)
    ensures
        s@ == prefix@ + value@,
{
    crate::text::concat2(prefix, value)
}

fn port_flag(prefix: &str, port: u16) -> (s: String)
    ensures
        s@ == prefix@ + spec_decimal(port as nat),
{
    let d = crate::text::decimal(port as u64);
    crate::text::concat2(prefix, d.as_str())
}

/// Arguments of `mysqld.exe` that create the data directory with an empty
/// root password.
pub fn initialize_args(basedir: &str, datadir: &str) -> (args: Vec<String>)
    ensures
        strings_view(args@) == seq![
            "--basedir="@ + basedir@,
            "--datadir="@ + datadir@,
            "--initialize-insecure"@,
            "--console"@,
        ],
{
    let mut args: Vec<String> = Vec::new();
    args.push(prefixed("--basedir=", basedir));
    args.push(prefixed("--datadir=", datadir));
    args.push("--initialize-insecure".to_owned());
    args.push("--console".to_owned());
    assert(strings_view(args@) =~= seq![
        "--basedir="@ + basedir@,
        "--datadir="@ + datadir@,
        "--initialize-insecure"@,
        "--console"@,
    ]);
    args
}

/// The first port tried for the temporary server that sets the default
/// password; also the one used where no port of the range was free.
pub const INIT_PORT_FIRST: u16 = 33099;

/// The end (exclusive) of the ports tried for that temporary server.
pub const INIT_PORT_END: u16 = 33199;

/// Arguments of the temporary `mysqld.exe` that runs `init_file` on start:
/// no `my.ini`, the given port.
pub fn init_file_server_args(basedir: &str, datadir: &str, port: u16, init_file: &str) -> (args:
    Vec<String>)
    ensures
        strings_view(args@) == seq![
            "--basedir="@ + basedir@,
            "--datadir="@ + datadir@,
            "--port="@ + spec_decimal(port as nat),
            "--init-file="@ + init_file@,
            "--skip-networking=0"@,
            "--console"@,
        ],
{
    let mut args: Vec<String> = Vec::new();
    args.push(prefixed("--basedir=", basedir));
    args.push(prefixed("--datadir=", datadir));
    args.push(port_flag("--port=", port));
    args.push(prefixed("--init-file=", init_file));
    args.push("--skip-networking=0".to_owned());
    args.push("--console".to_owned());
    assert(strings_view(args@) =~= seq![
        "--basedir="@ + basedir@,
        "--datadir="@ + datadir@,
        "--port="@ + spec_decimal(port as nat),
        "--init-file="@ + init_file@,
        "--skip-networking=0"@,
        "--console"@,
    ]);
    args
}

/// Arguments of `mysqladmin.exe` that shut the temporary server down,
/// logging in with the password just set.
pub fn shutdown_args(port: u16, password: &str) -> (args: Vec<String>)
    ensures
        strings_view(args@) == seq![
            "-P"@ + spec_decimal(port as nat),
            "-h127.0.0.1"@,
            "-uroot"@,
            "-p"@ + password@,
            "shutdown"@,
        ],
{
    let mut args: Vec<String> = Vec::new();
    args.push(port_flag("-P", port));
    args.push("-h127.0.0.1".to_owned());
    args.push("-uroot".to_owned());
    args.push(prefixed("-p", password));
    args.push("shutdown".to_owned());
    assert(strings_view(args@) =~= seq![
        "-P"@ + spec_decimal(port as nat),
        "-h127.0.0.1"@,
        "-uroot"@,
        "-p"@ + password@,
        "shutdown"@,
    ]);
    args
}

fn trimmed(s: &str) -> (r: String)
    ensures
        r@ == trim(s@),
{
    let v = chars_of(s);
    let (a, b) = trim_bounds(v.as_slice(), 0, v.len());
    assert(v@.subrange(0, v@.len() as int) =~= v@);
    string_of_range(v.as_slice(), a, b)
}

pub open spec fn spec_shutdown_outcome(
    listening: bool,
    run: Result<(bool, Seq<char>), Seq<char>>,
) -> Result<(), Seq<char>> {
    if !listening {
        Err("mysqld 未在 20s 内启动监听"@)
    } else {
        match run {
            Ok((true, _)) => Ok(()),
            Ok((false, stderr)) => Err("mysqladmin shutdown 失败: "@ + trim(stderr)),
            Err(e) => Err("mysqladmin 调用失败: "@ + e),
        }
    }
}

/// The outcome of setting the password through the temporary server: a
/// failure where it never listened (`run` is then not looked at), else the
/// outcome of its shutdown (`Ok((success, stderr))` where `mysqladmin`
/// ran, `Err` where it could not be started).
pub fn shutdown_outcome(listening: bool, run: &Result<(bool, String), String>) -> (r: Result<
    (),
    String,
>)
    ensures
        match r {
            Ok(()) => spec_shutdown_outcome(
                listening,
                match run {
                    Ok((b, s)) => Ok((*b, s@)),
                    Err(e) => Err(e@),
                },
            ) is Ok,
            Err(m) => spec_shutdown_outcome(
                listening,
                match run {
                    Ok((b, s)) => Ok((*b, s@)),
                    Err(e) => Err(e@),
                },
            ) == Err::<(), Seq<char>>(m@),
        },
{
    if !listening {
        return Err("mysqld 未在 20s 内启动监听".to_owned());
    }
    match run {
        Ok((true, _)) => Ok(()),
        Ok((false, stderr)) => {
            let t = trimmed(stderr.as_str());
            Err(prefixed("mysqladmin shutdown 失败: ", t.as_str()))
        },
        Err(e) => Err(prefixed("mysqladmin 调用失败: ", e.as_str())),
    }
}

/// `s` as the inside of a single-quoted SQL string: each `\` doubled, each
/// `'` doubled.
pub open spec fn sql_literal(s: Seq<char>) -> Seq<char>
    decreases s.len(),
{
    if s.len() == 0 {
        s
    } else {
        sql_literal(s.drop_last()) + if s.last() == '\\' {
            seq!['\\', '\\']
        } else if s.last() == '\'' {
            seq!['\'', '\'']
        } else {
            seq![s.last()]
        }
    }
}

/// `s` as the inside of a double-quoted option-file value: `\` written
/// `\\`, `"` written `\"`.
pub open spec fn option_literal(s: Seq<char>) -> Seq<char>
    decreases s.len(),
{
    if s.len() == 0 {
        s
    } else {
        option_literal(s.drop_last()) + if s.last() == '\\' {
            seq!['\\', '\\']
        } else if s.last() == '"' {
            seq!['\\', '"']
        } else {
            seq![s.last()]
        }
    }
}

fn escaped(s: &str, quote: char, quote_escape: char) -> (r: String)
    requires
        quote_escape == '\'' || quote_escape == '\\',
    ensures
        quote == '\'' && quote_escape == '\'' ==> r@ == sql_literal(s@),
        quote == '"' && quote_escape == '\\' ==> r@ == option_literal(s@),
{
    let v = chars_of(s);
    let mut out: Vec<char> = Vec::new();
    let mut i: usize = 0;
    while i < v.len()
        invariant
            i <= v.len(),
            quote == '\'' && quote_escape == '\'' ==> out@ == sql_literal(v@.take(i as int)),
            quote == '"' && quote_escape == '\\' ==> out@ == option_literal(v@.take(i as int)),
        decreases v.len() - i,
    {
        assert(v@.take(i + 1).drop_last() =~= v@.take(i as int));
        assert(v@.take(i + 1).last() == v@[i as int]);
        let c = v[i];
        if c == '\\' {
            out.push('\\');
            out.push('\\');
        } else if c == quote {
            out.push(quote_escape);
            out.push(quote);
        } else {
            out.push(c);
        }
        proof {
            if quote == '\'' && quote_escape == '\'' {
                assert(out@ =~= sql_literal(v@.take(i + 1)));
            }
            if quote == '"' && quote_escape == '\\' {
                assert(out@ =~= option_literal(v@.take(i + 1)));
            }
        }
        i = i + 1;
    }
    assert(v@.take(v.len() as int) =~= v@);
    string_of(out.as_slice())
}

pub open spec fn spec_alter_root_sql(new_password: Seq<char>) -> Seq<char> {
    "ALTER USER 'root'@'localhost' IDENTIFIED BY '"@ + sql_literal(new_password)
        + "'; FLUSH PRIVILEGES;"@
}

/// The statement a running server is sent to change the root password.
pub fn alter_root_password_sql(new_password: &str) -> (sql: String)
    ensures
        sql@ == spec_alter_root_sql(new_password@),
{
    let e = escaped(new_password, '\'', '\'');
    crate::text::concat3(
        "ALTER USER 'root'@'localhost' IDENTIFIED BY '",
        e.as_str(),
        "'; FLUSH PRIVILEGES;",
    )
}

pub open spec fn spec_client_credentials(current_password: Seq<char>) -> Seq<char> {
    "[client]\nuser=root\npassword=\""@ + option_literal(current_password) + "\"\n"@
}

/// The option file that hands the current password to the `mysql` client,
/// so that it never stands on a command line.
pub fn client_credentials(current_password: &str) -> (text: String)
    ensures
        text@ == spec_client_credentials(current_password@),
{
    let e = escaped(current_password, '"', '\\');
    crate::text::concat3("[client]\nuser=root\npassword=\"", e.as_str(), "\"\n")
}

/// Arguments of `mysql.exe` that run `sql` against the server on `port`,
/// logging in with the option file at `credentials_file`.
pub fn password_change_args(credentials_file: &str, port: u16, sql: &str) -> (args: Vec<String>)
    ensures
        strings_view(args@) == seq![
            "--defaults-extra-file="@ + credentials_file@,
            "-P"@ + spec_decimal(port as nat),
            "-h127.0.0.1"@,
            "--protocol=TCP"@,
            "-e"@,
            sql@,
        ],
{
    let mut args: Vec<String> = Vec::new();
    args.push(prefixed("--defaults-extra-file=", credentials_file));
    args.push(port_flag("-P", port));
    args.push("-h127.0.0.1".to_owned());
    args.push("--protocol=TCP".to_owned());
    args.push("-e".to_owned());
    args.push(sql.to_owned());
    assert(strings_view(args@) =~= seq![
        "--defaults-extra-file="@ + credentials_file@,
        "-P"@ + spec_decimal(port as nat),
        "-h127.0.0.1"@,
        "--protocol=TCP"@,
        "-e"@,
        sql@,
    ]);
    args
}

/// The outcome of the `mysql` client run: success, or its trimmed error
/// output after `ALTER USER 失败: `.
pub fn password_change_outcome(success: bool, stderr: &str) -> (r: Result<(), String>)
    ensures
        success ==> r is Ok,
        !success ==> r is Err && r->Err_0@ == "ALTER USER 失败: "@ + trim(stderr@),
{
    if success {
        Ok(())
    } else {
        let t = trimmed(stderr);
        Err(prefixed("ALTER USER 失败: ", t.as_str()))
    }
}

pub open spec fn first_with_version(opts: Seq<MysqlOption>, version: Seq<char>) -> Option<int>
    decreases opts.len(),
{
    if opts.len() == 0 {
        None
    } else {
        match first_with_version(opts.drop_last(), version) {
            Some(i) => Some(i),
            None => if opts.last().version@ == version {
                Some(opts.len() - 1)
            } else {
                None
            },
        }
    }
}

pub open spec fn spec_password_target(
    new_password: Seq<char>,
    available: Option<Seq<MysqlOption>>,
    version: Seq<char>,
) -> Result<int, Seq<char>> {
    if new_password.len() == 0 {
        Err("新密码不能为空"@)
    } else {
        match available {
            None => Err("未找到任何 MySQL 安装"@),
            Some(opts) => match first_with_version(opts, version) {
                Some(i) => Ok(i),
                None => Err("未找到 MySQL v"@ + version),
            },
        }
    }
}

/// Which installation a password change is for: refused for an empty new
/// password, where no MySQL is installed (`available` is `None`), or where
/// none has the version; else the first installation with the version.
pub fn password_target(new_password: &str, available: Option<&[MysqlOption]>, version: &str) -> (r:
    Result<usize, String>)
    ensures
        match r {
            Ok(i) => spec_password_target(
                new_password@,
                match available {
                    Some(a) => Some(a@),
                    None => None,
                },
                version@,
            ) == Ok::<int, Seq<char>>(i as int),
            Err(m) => spec_password_target(
                new_password@,
                match available {
                    Some(a) => Some(a@),
                    None => None,
                },
                version@,
            ) == Err::<int, Seq<char>>(m@),
        },
{
    if chars_of(new_password).len() == 0 {
        return Err("新密码不能为空".to_owned());
    }
    let opts = match available {
        None => {
            return Err("未找到任何 MySQL 安装".to_owned());
        },
        Some(a) => a,
    };
    let mut i: usize = 0;
    while i < opts.len()
        invariant
            i <= opts.len(),
            first_with_version(opts@.take(i as int), version@) is None,
            available == Some(opts),
            new_password@.len() != 0,
        decreases opts.len() - i,
    {
        assert(opts@.take(i + 1).drop_last() =~= opts@.take(i as int));
        if crate::text::str_eq(opts[i].version.as_str(), version) {
            proof {
                lemma_first_with_version_prefix(opts@, version@, i + 1);
            }
            return Ok(i);
        }
        i = i + 1;
    }
    assert(opts@.take(opts.len() as int) =~= opts@);
    Err(prefixed("未找到 MySQL v", version))
}

proof fn lemma_first_with_version_prefix(opts: Seq<MysqlOption>, version: Seq<char>, n: int)
    requires
        0 < n <= opts.len(),
        first_with_version(opts.take(n - 1), version) is None,
        opts[n - 1].version@ == version,
    ensures
        first_with_version(opts, version) == Some(n - 1),
    decreases opts.len() - n,
{
    assert(opts.take(n).drop_last() =~= opts.take(n - 1));
    if n == opts.len() {
        assert(opts.take(n) =~= opts);
    } else {
        lemma_first_with_version_extend(opts, version, n);
    }
}

proof fn lemma_first_with_version_extend(opts: Seq<MysqlOption>, version: Seq<char>, n: int)
    requires
        0 < n <= opts.len(),
        first_with_version(opts.take(n), version) is Some,
    ensures
        first_with_version(opts, version) == first_with_version(opts.take(n), version),
    decreases opts.len() - n,
{
    if n < opts.len() {
        assert(opts.take(n + 1).drop_last() =~= opts.take(n));
        lemma_first_with_version_extend(opts, version, n + 1);
    } else {
        assert(opts.take(n) =~= opts);
    }
}

pub open spec fn is_line_break(c: char) -> bool {
    c == '\r' || c == '\n'
}

pub open spec fn line_break() -> spec_fn(char) -> bool {
    |c: char| is_line_break(c)
}

/// The password a password file records: its text without the line breaks
/// at its end.
pub fn stored_root_password(content: &str) -> (pwd: String)
    ensures
        pwd@ == content@.take(content@.len() - trail_count(content@, line_break())),
{
    let v = chars_of(content);
    let mut end: usize = v.len();
    while end > 0 && (v[end - 1] == '\r' || v[end - 1] == '\n')
        invariant
            end <= v.len(),
            v@ == content@,
            forall|i: int| end <= i < v.len() ==> is_line_break(#[trigger] v@[i]),
        decreases end,
    {
        end = end - 1;
    }
    proof {
        let p = line_break();
        assert forall|i: int| v@.len() - (v.len() - end) <= i < v@.len() implies p(#[trigger] v@[i]) by {
        }
        if end > 0 {
            assert(!p(v@[end - 1]));
        }
        lemma_trail_count_unique(v@, p, v.len() - end);
    }
    let s = string_of_range(v.as_slice(), 0, end);
    assert(v@.subrange(0, end as int) =~= v@.take(end as int));
    s
}

/// The refusal when the server to change the password on is not listening.
pub fn mysql_not_running(port: u16) -> (msg: String)
    ensures
        msg@ == "MySQL 服务未运行（127.0.0.1:"@ + spec_decimal(port as nat)
            + " 未监听），请先在仪表盘启动它再修改密码"@,
{
    let d = crate::text::decimal(port as u64);
    crate::text::concat3("MySQL 服务未运行（127.0.0.1:", d.as_str(), " 未监听），请先在仪表盘启动它再修改密码")
}

/// The character a backslash escape `\c` stands for inside a MySQL string
/// literal (`\%` and `\_` are kept as written, see `sql_read`).
pub open spec fn mysql_escape(c: char) -> char {
    if c == '0' {
        '\0'
    } else if c == 'b' {
        '\x08'
    } else if c == 'n' {
        '\n'
    } else if c == 'r' {
        '\r'
    } else if c == 't' {
        '\t'
    } else if c == 'Z' {
        '\x1A'
    } else {
        c
    }
}

/// The text MySQL reads from the inside of a single-quoted string literal,
/// from just after the opening quote: backslash escapes, `''` for a quote,
/// and the literal ends at a quote that is not doubled.
pub open spec fn sql_read(t: Seq<char>) -> Seq<char>
    decreases t.len(),
{
    if t.len() == 0 {
        seq![]
    } else if t[0] == '\\' && t.len() >= 2 {
        if t[1] == '%' || t[1] == '_' {
            seq!['\\', t[1]] + sql_read(t.skip(2))
        } else {
            seq![mysql_escape(t[1])] + sql_read(t.skip(2))
        }
    } else if t[0] == '\'' {
        if t.len() >= 2 && t[1] == '\'' {
            seq!['\''] + sql_read(t.skip(2))
        } else {
            seq![]
        }
    } else {
        seq![t[0]] + sql_read(t.skip(1))
    }
}

proof fn lemma_sql_literal_concat(a: Seq<char>, b: Seq<char>)
    ensures
        sql_literal(a + b) == sql_literal(a) + sql_literal(b),
    decreases b.len(),
{
    if b.len() == 0 {
        assert(a + b =~= a);
        assert(sql_literal(a) + sql_literal(b) =~= sql_literal(a));
    } else {
        lemma_sql_literal_concat(a, b.drop_last());
        assert((a + b).drop_last() =~= a + b.drop_last());
        assert((a + b).last() == b.last());
    }
}

/// What MySQL reads back of a quoted password literal is the password: the
/// literal `sql_literal(s)` followed by the closing quote and any text that
/// does not open with another quote reads as exactly `s` (so nothing in the
/// password can end the literal early).
pub proof fn sql_literal_reads_back(s: Seq<char>, rest: Seq<char>)
    requires
        rest.len() == 0 || rest[0] != '\'',
    ensures
        sql_read(sql_literal(s) + seq!['\''] + rest) == s,
    decreases s.len(),
{
    let t = sql_literal(s) + seq!['\''] + rest;
    if s.len() == 0 {
        assert(t =~= seq!['\''] + rest);
        assert(sql_read(t) =~= s);
    } else {
        let c = s[0];
        let tail = s.drop_first();
        sql_literal_reads_back(tail, rest);
        assert(s =~= seq![c] + tail);
        lemma_sql_literal_concat(seq![c], tail);
        let one = seq![c];
        assert(one.drop_last() =~= Seq::<char>::empty());
        assert(one.last() == c);
        assert(sql_literal(one.drop_last()).len() == 0);
        assert(sql_literal(one) =~= (if c == '\\' {
            seq!['\\', '\\']
        } else if c == '\'' {
            seq!['\'', '\'']
        } else {
            seq![c]
        }));
        let u = sql_literal(tail) + seq!['\''] + rest;
        if c == '\\' {
            assert(t =~= seq!['\\', '\\'] + u);
            assert(t.skip(2) =~= u);
            assert(sql_read(t) =~= seq!['\\'] + tail);
        } else if c == '\'' {
            assert(t =~= seq!['\'', '\''] + u);
            assert(t.skip(2) =~= u);
            assert(sql_read(t) =~= seq!['\''] + tail);
        } else {
            assert(t =~= seq![c] + u);
            assert(t.skip(1) =~= u);
            assert(sql_read(t) =~= seq![c] + tail);
        }
    }
}

/// The statement that changes the root password sets exactly the new
/// password: the literal after `IDENTIFIED BY '` reads back as it.
pub proof fn alter_statement_sets_the_password(new_password: Seq<char>)
    ensures
        sql_read(
            spec_alter_root_sql(new_password).skip(
                "ALTER USER 'root'@'localhost' IDENTIFIED BY '"@.len() as int,
            ),
        ) == new_password,
{
    let head = "ALTER USER 'root'@'localhost' IDENTIFIED BY '"@;
    let rest = "; FLUSH PRIVILEGES;"@;
    reveal_strlit("; FLUSH PRIVILEGES;");
    reveal_strlit("'; FLUSH PRIVILEGES;");
    assert("'; FLUSH PRIVILEGES;"@ =~= seq!['\''] + rest);
    assert(spec_alter_root_sql(new_password).skip(head.len() as int) =~= sql_literal(new_password)
        + seq!['\''] + rest);
    sql_literal_reads_back(new_password, rest);
}

} // verus!
