//! What happens around tool packages after install and on removal: which
//! handling a package gets, the environment steps of unlinking, which files
//! of a tool are deleted or kept, the reports shown to the user, and the
//! configuration texts written for nvm and MySQL.
use vstd::prelude::*;

use crate::text::{
    ascii_lower_seq, ascii_lowercase, chars_eq_ignore_ascii_case, chars_of, eq_ignore_ascii_case,
    has_prefix, is_digit, push_all, replace_char, replace_chars, starts_with_at, str_eq, string_of,
    concat3, concat4, concat5,
};

verus! {

/// The handling a package gets from the post-install and uninstall steps.
#[derive(Clone, Copy, Debug, PartialEq, Eq, Structural)]
pub enum ToolTask {
    Composer,
    Nvm,
    Mysql,
    Php,
    Nothing,
}

/// After unpacking: composer, nvm, MySQL and PHP get their own handling.
pub fn run(name: &str) -> (task: ToolTask)
    ensures
        task == (if name@ == "composer"@ {
            ToolTask::Composer
        } else if name@ == "nvm"@ {
            ToolTask::Nvm
        } else if name@ == "mysql"@ {
            ToolTask::Mysql
        } else if name@ == "php"@ {
            ToolTask::Php
        } else {
            ToolTask::Nothing
        }),
{
    if str_eq(name, "composer") {
        ToolTask::Composer
    } else if str_eq(name, "nvm") {
        ToolTask::Nvm
    } else if str_eq(name, "mysql") {
        ToolTask::Mysql
    } else if str_eq(name, "php") {
        ToolTask::Php
    } else {
        ToolTask::Nothing
    }
}

/// On uninstall: composer, nvm and MySQL clean up after themselves.
pub fn uninstall(name: &str) -> (task: ToolTask)
    ensures
        task == (if name@ == "composer"@ {
            ToolTask::Composer
        } else if name@ == "nvm"@ {
            ToolTask::Nvm
        } else if name@ == "mysql"@ {
            ToolTask::Mysql
        } else {
            ToolTask::Nothing
        }),
{
    if str_eq(name, "composer") {
        ToolTask::Composer
    } else if str_eq(name, "nvm") {
        ToolTask::Nvm
    } else if str_eq(name, "mysql") {
        ToolTask::Mysql
    } else {
        ToolTask::Nothing
    }
}

/// A full removal exists for composer and nvm only.
pub fn deep_uninstall(name: &str) -> (task: ToolTask)
    ensures
        task == (if name@ == "composer"@ {
            ToolTask::Composer
        } else if name@ == "nvm"@ {
            ToolTask::Nvm
        } else {
            ToolTask::Nothing
        }),
{
    if str_eq(name, "composer") {
        ToolTask::Composer
    } else if str_eq(name, "nvm") {
        ToolTask::Nvm
    } else {
        ToolTask::Nothing
    }
}

/// What an environment step does.
#[derive(Clone, Copy, Debug, PartialEq, Eq, Structural)]
pub enum EnvAction {
    /// Removes `target` from the user `PATH`.
    RemoveFromPath,
    /// Removes the user environment variable named `target`.
    UnsetVar,
}

/// One change to the user environment, with the words its outcome is
/// reported in.
#[derive(Clone, Debug)]
pub struct EnvStep {
    pub action: EnvAction,
    pub target: String,
    /// Reported as `<shown>: <target>` once done.
    pub shown: String,
    /// Reported as `清 <failed> 失败: <error>` on failure.
    pub failed: String,
}

pub open spec fn step_view(s: EnvStep) -> (EnvAction, Seq<char>, Seq<char>, Seq<char>) {
    (s.action, s.target@, s.shown@, s.failed@)
}

pub open spec fn steps_view(s: Seq<EnvStep>) -> Seq<(EnvAction, Seq<char>, Seq<char>, Seq<char>)> {
    s.map_values(|x: EnvStep| step_view(x))
}

/// The environment steps that detach a tool from the user environment.
pub open spec fn spec_unlink_steps(name: Seq<char>, install_dir: Seq<char>, symlink_dir: Seq<char>) -> Seq<
    (EnvAction, Seq<char>, Seq<char>, Seq<char>),
> {
    if name == "composer"@ {
        seq![(EnvAction::RemoveFromPath, install_dir, "用户 PATH 条目"@, "PATH"@)]
    } else if name == "nvm"@ {
        seq![
            (EnvAction::RemoveFromPath, install_dir, "用户 PATH"@, "用户 PATH"@),
            (EnvAction::RemoveFromPath, symlink_dir, "用户 PATH (symlink)"@, "用户 PATH (symlink)"@),
            (EnvAction::UnsetVar, "NVM_HOME"@, "环境变量"@, "NVM_HOME"@),
            (EnvAction::UnsetVar, "NVM_SYMLINK"@, "环境变量"@, "NVM_SYMLINK"@),
        ]
    } else {
        seq![]
    }
}

fn step(action: EnvAction, target: &str, shown: &str, failed: &str) -> (s: EnvStep)
    ensures
        step_view(s) == (action, target@, shown@, failed@),
{
    EnvStep {
        action,
        target: target.to_owned(),
        shown: shown.to_owned(),
        failed: failed.to_owned(),
    }
}

/// Unlinking clears environment entries only and deletes no file: for
/// composer its directory in `PATH`; for nvm both directories in `PATH` and
/// the variables `NVM_HOME` and `NVM_SYMLINK`; nothing for other packages.
/// `symlink_dir` is nvm's `nodejs` link inside `install_dir`.
pub fn unlink(name: &str, install_dir: &str, symlink_dir: &str) -> (steps: Vec<EnvStep>)
    ensures
        steps_view(steps@) == spec_unlink_steps(name@, install_dir@, symlink_dir@),
{
    let mut steps: Vec<EnvStep> = Vec::new();
    if str_eq(name, "composer") {
        steps.push(step(EnvAction::RemoveFromPath, install_dir, "用户 PATH 条目", "PATH"));
    } else if str_eq(name, "nvm") {
        steps.push(step(EnvAction::RemoveFromPath, install_dir, "用户 PATH", "用户 PATH"));
        steps.push(
            step(
                EnvAction::RemoveFromPath,
                symlink_dir,
                "用户 PATH (symlink)",
                "用户 PATH (symlink)",
            ),
        );
        steps.push(step(EnvAction::UnsetVar, "NVM_HOME", "环境变量", "NVM_HOME"));
        steps.push(step(EnvAction::UnsetVar, "NVM_SYMLINK", "环境变量", "NVM_SYMLINK"));
    }
    assert(steps_view(steps@) =~= spec_unlink_steps(name@, install_dir@, symlink_dir@));
    steps
}

/// What unlinking did: the entries cleared and the errors met.
#[derive(Clone, Debug)]
pub struct UnlinkReport {
    pub cleared: Vec<String>,
    pub errors: Vec<String>,
}

/// What a full removal did, and the user data it left in place.
#[derive(Clone, Debug)]
pub struct DeepUninstallReport {
    pub deleted_files: Vec<String>,
    pub cleared_env: Vec<String>,
    pub kept_paths: Vec<String>,
    pub errors: Vec<String>,
}

pub open spec fn strings_view(v: Seq<String>) -> Seq<Seq<char>> {
    v.map_values(|s: String| s@)
}

impl Default for UnlinkReport {
    fn default() -> (r: Self)
        ensures
            r.cleared@.len() == 0,
            r.errors@.len() == 0,
    {
        UnlinkReport { cleared: Vec::new(), errors: Vec::new() }
    }
}

impl Default for DeepUninstallReport {
    fn default() -> (r: Self)
        ensures
            r.deleted_files@.len() == 0,
            r.cleared_env@.len() == 0,
            r.kept_paths@.len() == 0,
            r.errors@.len() == 0,
    {
        DeepUninstallReport {
            deleted_files: Vec::new(),
            cleared_env: Vec::new(),
            kept_paths: Vec::new(),
            errors: Vec::new(),
        }
    }
}

/// The line a done step is reported with.
pub open spec fn cleared_line(shown: Seq<char>, target: Seq<char>) -> Seq<char> {
    shown + ": "@ + target
}

/// The line a failed step is reported with.
pub open spec fn failed_line(failed: Seq<char>, error: Seq<char>) -> Seq<char> {
    "清 "@ + failed + " 失败: "@ + error
}

/// How a step's outcome shows in a report: `Ok(true)` means the entry was
/// there and is gone; `Ok(false)` that a `PATH` entry was not there (a
/// variable counts as cleared either way).
pub open spec fn outcome_cleared(
    s: (EnvAction, Seq<char>, Seq<char>, Seq<char>),
    outcome: Result<bool, Seq<char>>,
) -> Option<Seq<char>> {
    match outcome {
        Ok(done) => if done || s.0 == EnvAction::UnsetVar {
            Some(cleared_line(s.2, s.1))
        } else {
            None
        },
        Err(_) => None,
    }
}

pub open spec fn outcome_error(
    s: (EnvAction, Seq<char>, Seq<char>, Seq<char>),
    outcome: Result<bool, Seq<char>>,
) -> Option<Seq<char>> {
    match outcome {
        Ok(_) => None,
        Err(e) => Some(failed_line(s.3, e)),
    }
}

pub open spec fn outcome_view(o: Result<bool, String>) -> Result<bool, Seq<char>> {
    match o {
        Ok(b) => Ok(b),
        Err(e) => Err(e@),
    }
}

pub open spec fn push_some(v: Seq<Seq<char>>, x: Option<Seq<char>>) -> Seq<Seq<char>> {
    match x {
        Some(l) => v.push(l),
        None => v,
    }
}

/// Records the outcome of an unlinking step in the report.
pub fn record_unlink_outcome(report: &mut UnlinkReport, step: &EnvStep, outcome: Result<bool, String>)
    ensures
        strings_view(final(report).cleared@) == push_some(
            strings_view(old(report).cleared@),
            outcome_cleared(step_view(*step), outcome_view(outcome)),
        ),
        strings_view(final(report).errors@) == push_some(
            strings_view(old(report).errors@),
            outcome_error(step_view(*step), outcome_view(outcome)),
        ),
{
    let ghost c0 = strings_view(report.cleared@);
    let ghost e0 = strings_view(report.errors@);
    match outcome {
        Ok(done) => {
            let show = match step.action {
                EnvAction::UnsetVar => true,
                EnvAction::RemoveFromPath => done,
            };
            if show {
                let line = concat3(step.shown.as_str(), ": ", step.target.as_str());
                report.cleared.push(line);
                assert(strings_view(report.cleared@) =~= c0.push(line@));
            }
        },
        Err(e) => {
            let line = concat4("清 ", step.failed.as_str(), " 失败: ", e.as_str());
            report.errors.push(line);
            assert(strings_view(report.errors@) =~= e0.push(line@));
        },
    }
}

/// Records the outcome of an environment step of a full removal.
pub fn record_env_outcome(
    report: &mut DeepUninstallReport,
    step: &EnvStep,
    outcome: Result<bool, String>,
)
    ensures
        strings_view(final(report).cleared_env@) == push_some(
            strings_view(old(report).cleared_env@),
            outcome_cleared(step_view(*step), outcome_view(outcome)),
        ),
        strings_view(final(report).errors@) == push_some(
            strings_view(old(report).errors@),
            outcome_error(step_view(*step), outcome_view(outcome)),
        ),
        final(report).deleted_files@ == old(report).deleted_files@,
        final(report).kept_paths@ == old(report).kept_paths@,
{
    let ghost c0 = strings_view(report.cleared_env@);
    let ghost e0 = strings_view(report.errors@);
    match outcome {
        Ok(done) => {
            let show = match step.action {
                EnvAction::UnsetVar => true,
                EnvAction::RemoveFromPath => done,
            };
            if show {
                let line = concat3(step.shown.as_str(), ": ", step.target.as_str());
                report.cleared_env.push(line);
                assert(strings_view(report.cleared_env@) =~= c0.push(line@));
            }
        },
        Err(e) => {
            let line = concat4("清 ", step.failed.as_str(), " 失败: ", e.as_str());
            report.errors.push(line);
            assert(strings_view(report.errors@) =~= e0.push(line@));
        },
    }
}

/// The line a failed deletion is reported with.
pub open spec fn delete_failed_line(path: Seq<char>, error: Seq<char>) -> Seq<char> {
    "删 "@ + path + " 失败: "@ + error
}

/// Records a deletion: the path among the deleted files, or the error.
pub fn record_deletion(report: &mut DeepUninstallReport, path: &str, outcome: Result<(), String>)
    ensures
        strings_view(final(report).deleted_files@) == (match outcome {
            Ok(()) => strings_view(old(report).deleted_files@).push(path@),
            Err(_) => strings_view(old(report).deleted_files@),
        }),
        strings_view(final(report).errors@) == (match outcome {
            Ok(()) => strings_view(old(report).errors@),
            Err(e) => strings_view(old(report).errors@).push(delete_failed_line(path@, e@)),
        }),
        final(report).cleared_env@ == old(report).cleared_env@,
        final(report).kept_paths@ == old(report).kept_paths@,
{
    let ghost d0 = strings_view(report.deleted_files@);
    let ghost e0 = strings_view(report.errors@);
    match outcome {
        Ok(()) => {
            report.deleted_files.push(path.to_owned());
            assert(strings_view(report.deleted_files@) =~= d0.push(path@));
        },
        Err(e) => {
            let line = concat4("删 ", path, " 失败: ", e.as_str());
            report.errors.push(line);
            assert(strings_view(report.errors@) =~= e0.push(line@));
        },
    }
}

/// A file of composer's own: `composer`, `composer.*` or `composer-*`,
/// ASCII case ignored.
pub open spec fn spec_is_composer_file(file_name: Seq<char>) -> bool {
    let lower = ascii_lower_seq(file_name);
    lower == "composer"@ || has_prefix(lower, "composer."@) || has_prefix(lower, "composer-"@)
}

pub fn is_composer_file(file_name: &str) -> (b: bool)
    ensures
        b == spec_is_composer_file(file_name@),
{
    let lower = ascii_lowercase(chars_of(file_name).as_slice());
    assert(lower@.skip(0) =~= lower@);
    crate::text::chars_equal(lower.as_slice(), chars_of("composer").as_slice())
        || starts_with_at(lower.as_slice(), 0, chars_of("composer.").as_slice())
        || starts_with_at(lower.as_slice(), 0, chars_of("composer-").as_slice())
}

/// What a full nvm removal does with an entry of nvm's directory.
#[derive(Clone, Copy, Debug, PartialEq, Eq, Structural)]
pub enum NvmEntry {
    /// A Node.js version directory (`v` and a digit): the user's, kept.
    KeepVersion,
    /// The `nodejs` link to the current version: removed.
    RemoveLink,
    /// One of nvm's own files: deleted where it is a file.
    DeleteCoreFile,
    /// Anything else: left alone.
    Leave,
}

/// The files nvm itself consists of.
pub open spec fn nvm_core_files() -> Seq<Seq<char>> {
    seq![
        "nvm.exe"@,
        "elevate.cmd"@,
        "elevate.vbs"@,
        "setuserenv.vbs"@,
        "unsetuserenv.vbs"@,
        "settings.txt"@,
        "LICENSE"@,
        "README.md"@,
        "nvm.ico"@,
        "nodejs.ico"@,
        "alert.ico"@,
        "author.ico"@,
        "download.ico"@,
        "success.ico"@,
        "author-nvm.exe"@,
        "install.cmd"@,
        "run.cmd"@,
    ]
}

fn nvm_core_file(k: usize) -> (f: &'static str)
    requires
        k < 17,
    ensures
        f@ == nvm_core_files()[k as int],
{
    match k {
        0 => "nvm.exe",
        1 => "elevate.cmd",
        2 => "elevate.vbs",
        3 => "setuserenv.vbs",
        4 => "unsetuserenv.vbs",
        5 => "settings.txt",
        6 => "LICENSE",
        7 => "README.md",
        8 => "nvm.ico",
        9 => "nodejs.ico",
        10 => "alert.ico",
        11 => "author.ico",
        12 => "download.ico",
        13 => "success.ico",
        14 => "author-nvm.exe",
        15 => "install.cmd",
        _ => "run.cmd",
    }
}

pub open spec fn spec_nvm_entry(file_name: Seq<char>, is_dir: bool) -> NvmEntry {
    if is_dir && file_name.len() > 1 && file_name[0] == 'v' && is_digit(file_name[1]) {
        NvmEntry::KeepVersion
    } else if file_name == "nodejs"@ {
        NvmEntry::RemoveLink
    } else if exists|k: int|
        0 <= k < nvm_core_files().len() && eq_ignore_ascii_case(
            #[trigger] nvm_core_files()[k],
            file_name,
        ) {
        NvmEntry::DeleteCoreFile
    } else {
        NvmEntry::Leave
    }
}

/// What a full removal of nvm does with the directory entry `file_name`.
pub fn nvm_entry_action(file_name: &str, is_dir: bool) -> (e: NvmEntry)
    ensures
        e == spec_nvm_entry(file_name@, is_dir),
{
    let v = chars_of(file_name);
    if is_dir && v.len() > 1 && v[0] == 'v' && '0' <= v[1] && v[1] <= '9' {
        return NvmEntry::KeepVersion;
    }
    if str_eq(file_name, "nodejs") {
        return NvmEntry::RemoveLink;
    }
    let mut k: usize = 0;
    while k < 17
        invariant
            k <= 17,
            v@ == file_name@,
            nvm_core_files().len() == 17,
            !(is_dir && v@.len() > 1 && v@[0] == 'v' && is_digit(v@[1])),
            file_name@ != "nodejs"@,
            forall|j: int| 0 <= j < k ==> !eq_ignore_ascii_case(#[trigger] nvm_core_files()[j], v@),
        decreases 17 - k,
    {
        let f = chars_of(nvm_core_file(k));
        if chars_eq_ignore_ascii_case(f.as_slice(), v.as_slice()) {
            assert(eq_ignore_ascii_case(nvm_core_files()[k as int], file_name@));
            return NvmEntry::DeleteCoreFile;
        }
        k = k + 1;
    }
    NvmEntry::Leave
}

/// The `composer.bat` shim: runs `composer.phar` beside it with the `php`
/// found in `PATH`.
pub fn composer_bat() -> (s: &'static str)
    ensures
        s@ == "@ECHO OFF\r\nphp \"%~dp0composer.phar\" %*\r\n"@,
{
    "@ECHO OFF\r\nphp \"%~dp0composer.phar\" %*\r\n"
}

pub open spec fn spec_nvm_settings(root: Seq<char>, path: Seq<char>) -> Seq<char> {
    "root: "@ + root + "\r\npath: "@ + path
        + "\r\nnode_mirror: https://npmmirror.com/mirrors/node/\r\nnpm_mirror: https://npmmirror.com/mirrors/npm/\r\n"@
}

/// nvm's `settings.txt`: its root, the `nodejs` link, and the npmmirror
/// mirrors for Node.js and npm.
pub fn nvm_settings(root: &str, path: &str) -> (s: String)
    ensures
        s@ == spec_nvm_settings(root@, path@),
{
    let s = concat5(
        "root: ",
        root,
        "\r\npath: ",
        path,
        "\r\nnode_mirror: https://npmmirror.com/mirrors/node/\r\nnpm_mirror: https://npmmirror.com/mirrors/npm/\r\n",
    );
    assert(s@ =~= spec_nvm_settings(root@, path@));
    s
}

pub open spec fn spec_default_my_ini(basedir: Seq<char>, datadir: Seq<char>) -> Seq<char> {
    "[client]\r\nport=3306\r\ndefault-character-set=utf8mb4\r\n\r\n[mysqld]\r\nport=3306\r\nbasedir="@
        + replace_char(basedir, '\\', '/') + "\r\ndatadir="@ + replace_char(datadir, '\\', '/')
        + "\r\ncharacter-set-server=utf8mb4\r\ncollation-server=utf8mb4_unicode_ci\r\ndefault-storage-engine=INNODB\r\ndefault_authentication_plugin=mysql_native_password\r\nmax_connections=200\r\nmax_allowed_packet=64M\r\nsql_mode=STRICT_TRANS_TABLES,NO_ENGINE_SUBSTITUTION\r\n"@
}

/// The `my.ini` a fresh MySQL gets: port 3306, utf8mb4, the given base and
/// data directories with `/` separators.
pub fn default_my_ini(basedir: &str, datadir: &str) -> (s: String)
    ensures
        s@ == spec_default_my_ini(basedir@, datadir@),
{
    let b = string_of(replace_chars(chars_of(basedir).as_slice(), '\\', '/').as_slice());
    let d = string_of(replace_chars(chars_of(datadir).as_slice(), '\\', '/').as_slice());
    let s = concat5(
            "[client]\r\nport=3306\r\ndefault-character-set=utf8mb4\r\n\r\n[mysqld]\r\nport=3306\r\nbasedir=",
            b.as_str(),
            "\r\ndatadir=",
            d.as_str(),
            "\r\ncharacter-set-server=utf8mb4\r\ncollation-server=utf8mb4_unicode_ci\r\ndefault-storage-engine=INNODB\r\ndefault_authentication_plugin=mysql_native_password\r\nmax_connections=200\r\nmax_allowed_packet=64M\r\nsql_mode=STRICT_TRANS_TABLES,NO_ENGINE_SUBSTITUTION\r\n",
    );
    assert(s@ =~= spec_default_my_ini(basedir@, datadir@));
    s
}

/// `s` with every `'` doubled, as SQL string literals escape it.
pub open spec fn sql_escape(s: Seq<char>) -> Seq<char>
    decreases s.len(),
{
    if s.len() == 0 {
        s
    } else if s.last() == '\'' {
        sql_escape(s.drop_last()) + seq!['\'', '\'']
    } else {
        sql_escape(s.drop_last()).push(s.last())
    }
}

pub open spec fn spec_root_password_sql(pwd: Seq<char>) -> Seq<char> {
    "ALTER USER 'root'@'localhost' IDENTIFIED BY '"@ + sql_escape(pwd)
        + "';\nFLUSH PRIVILEGES;\n"@
}

/// The init file that sets the MySQL root password to `pwd`.
pub fn root_password_init_sql(pwd: &str) -> (s: String)
    ensures
        s@ == spec_root_password_sql(pwd@),
{
    let v = chars_of(pwd);
    let mut esc: Vec<char> = Vec::new();
    let mut i: usize = 0;
    while i < v.len()
        invariant
            i <= v.len(),
            esc@ == sql_escape(v@.take(i as int)),
        decreases v.len() - i,
    {
        assert(v@.take(i + 1).drop_last() =~= v@.take(i as int));
        if v[i] == '\'' {
            esc.push('\'');
            esc.push('\'');
        } else {
            esc.push(v[i]);
        }
        assert(esc@ =~= sql_escape(v@.take(i + 1)));
        i = i + 1;
    }
    assert(v@.take(v.len() as int) =~= v@);
    let e = string_of(esc.as_slice());
    let s = concat3("ALTER USER 'root'@'localhost' IDENTIFIED BY '", e.as_str(), "';\nFLUSH PRIVILEGES;\n");
    assert(s@ =~= spec_root_password_sql(pwd@));
    s
}

} // verus!
