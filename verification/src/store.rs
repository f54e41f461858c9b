//! Decisions of the software store and the developer-tools panel: which
//! packages are installed, when an install or uninstall is refused, what a
//! full removal of a tool would touch, and the MySQL and nvm overviews.
use vstd::prelude::*;

use crate::post_install::{nvm_entry_action, spec_is_composer_file, spec_nvm_entry, NvmEntry};
use crate::service::{
    lowercase, spec_display_name, to_lowercase, ServiceInstance, ServiceKind, ServiceOrigin,
    ServiceStatus,
};
use crate::text::{
    ascii_lower_seq, ascii_lowercase, chars_eq_ignore_ascii_case, chars_of, concat2, concat3,
    concat4, concat5, eq_ignore_ascii_case, has_prefix, has_suffix, is_digit, occurs_at, push_all,
    replace_char, replace_chars, starts_with_at, ends_with_chars, str_eq, string_of, sub_vec,
    contains_chars, lemma_subrange_whole, trim, trim_bounds, split_on, split_chars,
};

verus! {

pub open spec fn strings_view(v: Seq<String>) -> Seq<Seq<char>> {
    v.map_values(|s: String| s@)
}

/// A package the store shows as installed.
#[derive(Clone, Debug)]
pub struct InstalledPackage {
    pub name: String,
    pub version: String,
    pub install_path: String,
    /// `store` for NaxOne's own installs, `system` for tools found elsewhere.
    pub source: String,
}

/// The source a package record gets when none is given.
pub fn default_source() -> (s: String)
    ensures
        s@ == "store"@,
{
    "store".to_owned()
}

/// The store's name for each kind of service.
pub open spec fn spec_package_name(kind: ServiceKind) -> Seq<char> {
    match kind {
        ServiceKind::Nginx => "nginx"@,
        ServiceKind::Apache => "apache"@,
        ServiceKind::Mysql => "mysql"@,
        ServiceKind::Redis => "redis"@,
        ServiceKind::Php => "php"@,
    }
}

pub fn package_name(kind: ServiceKind) -> (name: &'static str)
    ensures
        name@ == spec_package_name(kind),
{
    match kind {
        ServiceKind::Nginx => "nginx",
        ServiceKind::Apache => "apache",
        ServiceKind::Mysql => "mysql",
        ServiceKind::Redis => "redis",
        ServiceKind::Php => "php",
    }
}

/// The kind of service a store package is; none for tools and unknown names.
pub open spec fn spec_package_kind(name: Seq<char>) -> Option<ServiceKind> {
    if name == "nginx"@ {
        Some(ServiceKind::Nginx)
    } else if name == "apache"@ {
        Some(ServiceKind::Apache)
    } else if name == "mysql"@ {
        Some(ServiceKind::Mysql)
    } else if name == "redis"@ {
        Some(ServiceKind::Redis)
    } else if name == "php"@ {
        Some(ServiceKind::Php)
    } else {
        None
    }
}

pub fn package_kind(name: &str) -> (kind: Option<ServiceKind>)
    ensures
        kind == spec_package_kind(name@),
{
    if str_eq(name, "nginx") {
        Some(ServiceKind::Nginx)
    } else if str_eq(name, "apache") {
        Some(ServiceKind::Apache)
    } else if str_eq(name, "mysql") {
        Some(ServiceKind::Mysql)
    } else if str_eq(name, "redis") {
        Some(ServiceKind::Redis)
    } else if str_eq(name, "php") {
        Some(ServiceKind::Php)
    } else {
        None
    }
}

/// The installed-package view of the services the store installed, in order.
pub open spec fn spec_store_packages(services: Seq<ServiceInstance>) -> Seq<(Seq<char>, Seq<char>, Seq<char>, Seq<char>)>
    decreases services.len(),
{
    if services.len() == 0 {
        seq![]
    } else {
        let prev = spec_store_packages(services.drop_last());
        let s = services.last();
        if s.origin == ServiceOrigin::Store {
            prev.push((spec_package_name(s.kind), s.version@, s.install_path@, "store"@))
        } else {
            prev
        }
    }
}

pub open spec fn package_view(p: InstalledPackage) -> (Seq<char>, Seq<char>, Seq<char>, Seq<char>) {
    (p.name@, p.version@, p.install_path@, p.source@)
}

/// The services installed through the store, as installed packages; those
/// found in PHPStudy, configured by hand or on the system are not the store's.
pub fn store_packages(services: &[ServiceInstance]) -> (out: Vec<InstalledPackage>)
    ensures
        out@.map_values(|p: InstalledPackage| package_view(p)) == spec_store_packages(services@),
{
    let mut out: Vec<InstalledPackage> = Vec::new();
    let mut i: usize = 0;
    while i < services.len()
        invariant
            i <= services.len(),
            out@.map_values(|p: InstalledPackage| package_view(p)) == spec_store_packages(
                services@.take(i as int),
            ),
        decreases services.len() - i,
    {
        assert(services@.take(i + 1).drop_last() =~= services@.take(i as int));
        let s = &services[i];
        match s.origin {
            ServiceOrigin::Store => {
                let ghost prev = out@.map_values(|p: InstalledPackage| package_view(p));
                let p = InstalledPackage {
                    name: package_name(s.kind).to_owned(),
                    version: s.version.clone(),
                    install_path: s.install_path.clone(),
                    source: "store".to_owned(),
                };
                out.push(p);
                assert(out@.map_values(|p: InstalledPackage| package_view(p)) =~= prev.push(
                    package_view(p),
                ));
            },
            _ => {},
        }
        i = i + 1;
    }
    assert(services@.take(services.len() as int) =~= services@);
    out
}

/// A tools directory named `composer-<version>` or `nvm-<version>`.
pub open spec fn spec_parse_tool_dir(dir: Seq<char>) -> Option<(Seq<char>, Seq<char>)> {
    if has_prefix(dir, "composer-"@) {
        Some(("composer"@, dir.skip(9)))
    } else if has_prefix(dir, "nvm-"@) {
        Some(("nvm"@, dir.skip(4)))
    } else {
        None
    }
}

/// The tool and version a directory under `tools/` holds.
pub fn parse_tool_dir(dir: &str) -> (r: Option<(&'static str, String)>)
    ensures
        match spec_parse_tool_dir(dir@) {
            Some((t, v)) => r is Some && (r->0).0@ == t && (r->0).1@ == v,
            None => r is None,
        },
{
    let v = chars_of(dir);
    assert(v@.skip(0) =~= v@);
    let c = chars_of("composer-");
    let n = chars_of("nvm-");
    proof {
        reveal_strlit("composer-");
        reveal_strlit("nvm-");
    }
    if starts_with_at(v.as_slice(), 0, c.as_slice()) {
        let rest = sub_vec(v.as_slice(), 9, v.len());
        assert(rest@ =~= v@.skip(9));
        Some(("composer", string_of(rest.as_slice())))
    } else if starts_with_at(v.as_slice(), 0, n.as_slice()) {
        let rest = sub_vec(v.as_slice(), 4, v.len());
        assert(rest@ =~= v@.skip(4));
        Some(("nvm", string_of(rest.as_slice())))
    } else {
        None
    }
}

/// Services of `kind` at `version`.
pub open spec fn is_match(s: ServiceInstance, kind: ServiceKind, version: Seq<char>) -> bool {
    s.kind == kind && s.version@ == version
}

pub open spec fn spec_install_refusal(
    name: Seq<char>,
    version: Seq<char>,
    display_name: Seq<char>,
    detected: Option<(Seq<char>, Seq<char>)>,
    services: Seq<ServiceInstance>,
) -> Option<Seq<char>> {
    if (name == "composer"@ || name == "nvm"@) && detected is Some {
        Some(
            display_name + " 已经在系统中安装（v"@ + (detected->0).0 + "，路径 "@ + (detected->0).1
                + "），无需通过 NaxOne 商店重装。"@,
        )
    } else {
        match spec_package_kind(name) {
            Some(kind) => if exists|i: int|
                0 <= i < services.len() && is_match(#[trigger] services[i], kind, version)
                    && services[i].status is Running {
                Some(display_name + " v"@ + version + " 正在运行，请先停止后再重新安装"@)
            } else {
                None
            },
            None => None,
        }
    }
}

/// Why an install is refused, if it is: a composer or nvm already found on
/// the system (`detected`: its version and path) is not installed again,
/// and a service whose same version is running is not overwritten.
pub fn install_refusal(
    name: &str,
    version: &str,
    display_name: &str,
    detected: Option<(&str, &str)>,
    services: &[ServiceInstance],
) -> (r: Option<String>)
    ensures
        match spec_install_refusal(
            name@,
            version@,
            display_name@,
            match detected {
                Some((v, p)) => Some((v@, p@)),
                None => None,
            },
            services@,
        ) {
            Some(m) => r is Some && r->0@ == m,
            None => r is None,
        },
{
    if str_eq(name, "composer") || str_eq(name, "nvm") {
        match detected {
            Some((v, p)) => {
                let a = concat4(display_name, " 已经在系统中安装（v", v, "，路径 ");
                return Some(concat3(a.as_str(), p, "），无需通过 NaxOne 商店重装。"));
            },
            None => {},
        }
    }
    match package_kind(name) {
        Some(kind) => {
            let mut i: usize = 0;
            while i < services.len()
                invariant
                    i <= services.len(),
                    spec_package_kind(name@) == Some(kind),
                    !((name@ == "composer"@ || name@ == "nvm"@) && detected is Some),
                    forall|j: int|
                        0 <= j < i ==> !(is_match(#[trigger] services@[j], kind, version@)
                            && services@[j].status is Running),
                decreases services.len() - i,
            {
                let s = &services[i];
                if s.kind == kind && str_eq(s.version.as_str(), version) && s.status.is_running() {
                    return Some(concat4(display_name, " v", version, " 正在运行，请先停止后再重新安装"));
                }
                i = i + 1;
            }
            None
        },
        None => None,
    }
}

pub open spec fn spec_uninstall_refusal(
    name: Seq<char>,
    version: Seq<char>,
    display_name: Seq<char>,
    services: Seq<ServiceInstance>,
) -> Option<Seq<char>> {
    match spec_package_kind(name) {
        Some(kind) => {
            let any = exists|i: int| 0 <= i < services.len() && is_match(#[trigger] services[i], kind, version);
            let all_phpstudy = forall|i: int|
                0 <= i < services.len() && is_match(#[trigger] services[i], kind, version)
                    ==> services[i].origin == ServiceOrigin::PhpStudy;
            if any && all_phpstudy {
                Some("不能卸载 PHPStudy 自带的软件"@)
            } else if exists|i: int|
                0 <= i < services.len() && is_match(#[trigger] services[i], kind, version)
                    && services[i].status is Running {
                Some(display_name + " v"@ + version + " 正在运行，请先停止后再卸载"@)
            } else {
                None
            }
        },
        None => if name == "composer"@ || name == "nvm"@ {
            None
        } else {
            Some("未知软件类型: "@ + name)
        },
    }
}

/// Why an uninstall is refused, if it is: an unknown kind of package;
/// software that only PHPStudy brought; a version that is running.
pub fn uninstall_refusal(
    name: &str,
    version: &str,
    display_name: &str,
    services: &[ServiceInstance],
) -> (r: Option<String>)
    ensures
        match spec_uninstall_refusal(name@, version@, display_name@, services@) {
            Some(m) => r is Some && r->0@ == m,
            None => r is None,
        },
{
    match package_kind(name) {
        Some(kind) => {
            let mut any = false;
            let mut all_phpstudy = true;
            let mut running = false;
            let mut i: usize = 0;
            while i < services.len()
                invariant
                    i <= services.len(),
                    any == exists|j: int| 0 <= j < i && is_match(#[trigger] services@[j], kind, version@),
                    all_phpstudy == forall|j: int|
                        0 <= j < i && is_match(#[trigger] services@[j], kind, version@)
                            ==> services@[j].origin == ServiceOrigin::PhpStudy,
                    running == exists|j: int|
                        0 <= j < i && is_match(#[trigger] services@[j], kind, version@)
                            && services@[j].status is Running,
                decreases services.len() - i,
            {
                let s = &services[i];
                if s.kind == kind && str_eq(s.version.as_str(), version) {
                    any = true;
                    match s.origin {
                        ServiceOrigin::PhpStudy => {},
                        _ => {
                            all_phpstudy = false;
                        },
                    }
                    if s.status.is_running() {
                        running = true;
                    }
                }
                i = i + 1;
            }
            if any && all_phpstudy {
                Some("不能卸载 PHPStudy 自带的软件".to_owned())
            } else if running {
                Some(concat4(display_name, " v", version, " 正在运行，请先停止后再卸载"))
            } else {
                None
            }
        },
        None => {
            if str_eq(name, "composer") || str_eq(name, "nvm") {
                None
            } else {
                Some(concat2("未知软件类型: ", name))
            }
        },
    }
}

/// What the removal preview lists of an entry of a tool's directory.
#[derive(Clone, Copy, Debug, PartialEq, Eq, Structural)]
pub enum PreviewEntry {
    WillDelete,
    WillKeep,
    Untouched,
}

/// The nvm files the preview lists as deleted.
pub open spec fn preview_core_files() -> Seq<Seq<char>> {
    seq![
        "nvm.exe"@,
        "elevate.cmd"@,
        "elevate.vbs"@,
        "setuserenv.vbs"@,
        "unsetuserenv.vbs"@,
        "settings.txt"@,
        "LICENSE"@,
        "README.md"@,
        "nvm.ico"@,
        "nodejs.ico"@,
        "alert.ico"@,
        "author.ico"@,
        "download.ico"@,
        "success.ico"@,
        "author-nvm.exe"@,
        "install.cmd"@,
        "run.cmd"@,
    ]
}

fn preview_core_file(k: usize) -> (f: &'static str)
    requires
        k < 17,
    ensures
        f@ == preview_core_files()[k as int],
{
    match k {
        0 => "nvm.exe",
        1 => "elevate.cmd",
        2 => "elevate.vbs",
        3 => "setuserenv.vbs",
        4 => "unsetuserenv.vbs",
        5 => "settings.txt",
        6 => "LICENSE",
        7 => "README.md",
        8 => "nvm.ico",
        9 => "nodejs.ico",
        10 => "alert.ico",
        11 => "author.ico",
        12 => "download.ico",
        13 => "success.ico",
        14 => "author-nvm.exe",
        15 => "install.cmd",
        _ => "run.cmd",
    }
}

pub open spec fn spec_preview_nvm_entry(file_name: Seq<char>, is_dir: bool) -> PreviewEntry {
    if is_dir && file_name.len() > 1 && file_name[0] == 'v' && is_digit(file_name[1]) {
        PreviewEntry::WillKeep
    } else if file_name == "nodejs"@ || exists|k: int|
        0 <= k < preview_core_files().len() && eq_ignore_ascii_case(
            #[trigger] preview_core_files()[k],
            file_name,
        ) {
        PreviewEntry::WillDelete
    } else {
        PreviewEntry::Untouched
    }
}

/// How the removal preview lists an entry of nvm's directory.
pub fn preview_nvm_entry(file_name: &str, is_dir: bool) -> (e: PreviewEntry)
    ensures
        e == spec_preview_nvm_entry(file_name@, is_dir),
{
    let v = chars_of(file_name);
    if is_dir && v.len() > 1 && v[0] == 'v' && '0' <= v[1] && v[1] <= '9' {
        return PreviewEntry::WillKeep;
    }
    if str_eq(file_name, "nodejs") {
        return PreviewEntry::WillDelete;
    }
    let mut k: usize = 0;
    while k < 17
        invariant
            k <= 17,
            v@ == file_name@,
            preview_core_files().len() == 17,
            !(is_dir && v@.len() > 1 && v@[0] == 'v' && is_digit(v@[1])),
            file_name@ != "nodejs"@,
            forall|j: int|
                0 <= j < k ==> !eq_ignore_ascii_case(#[trigger] preview_core_files()[j], v@),
        decreases 17 - k,
    {
        let f = chars_of(preview_core_file(k));
        if chars_eq_ignore_ascii_case(f.as_slice(), v.as_slice()) {
            assert(eq_ignore_ascii_case(preview_core_files()[k as int], file_name@));
            return PreviewEntry::WillDelete;
        }
        k = k + 1;
    }
    PreviewEntry::Untouched
}

/// The preview of a full nvm removal shows exactly what the removal does:
/// an entry it would keep is listed as kept, an entry it would remove (the
/// `nodejs` link or one of nvm's own files) as deleted, and nothing else.
pub proof fn preview_agrees_with_removal(file_name: Seq<char>, is_dir: bool)
    ensures
        spec_preview_nvm_entry(file_name, is_dir) == PreviewEntry::WillKeep <==> spec_nvm_entry(
            file_name,
            is_dir,
        ) == NvmEntry::KeepVersion,
        spec_preview_nvm_entry(file_name, is_dir) == PreviewEntry::WillDelete <==> (spec_nvm_entry(
            file_name,
            is_dir,
        ) == NvmEntry::RemoveLink || spec_nvm_entry(file_name, is_dir) == NvmEntry::DeleteCoreFile),
{
    assert(preview_core_files() =~= crate::post_install::nvm_core_files());
}

/// What the preview lists of a composer directory entry: its own files
/// (`composer`, `composer.*`, `composer-*`) that are files, as deleted.
pub fn preview_composer_entry(file_name: &str, is_file: bool) -> (e: PreviewEntry)
    ensures
        e == (if spec_is_composer_file(file_name@) && is_file {
            PreviewEntry::WillDelete
        } else {
            PreviewEntry::Untouched
        }),
{
    if crate::post_install::is_composer_file(file_name) && is_file {
        PreviewEntry::WillDelete
    } else {
        PreviewEntry::Untouched
    }
}

/// What a full removal would delete and keep, shown before it is done.
#[derive(Clone, Debug)]
pub struct UninstallPreview {
    pub name: String,
    pub version: String,
    pub install_path: String,
    pub will_delete: Vec<String>,
    pub will_keep: Vec<String>,
}

/// `s` without its trailing `c`s (`str::trim_end_matches(c)`).
pub open spec fn trim_end_char(s: Seq<char>, c: char) -> Seq<char> {
    s.take(s.len() - crate::text::trail_count(s, crate::text::is_char(c)))
}

fn trim_end_char_exec(v: &[char], c: char) -> (out: Vec<char>)
    ensures
        out@ == trim_end_char(v@, c),
{
    let mut b: usize = v.len();
    while b > 0 && v[b - 1] == c
        invariant
            b <= v.len(),
            forall|i: int| b <= i < v.len() ==> v@[i] == c,
        decreases b,
    {
        b = b - 1;
    }
    proof {
        assert forall|i: int| v.len() - (v.len() - b) <= i < v.len() implies crate::text::is_char(c)(
            #[trigger] v@[i],
        ) by {}
        crate::text::lemma_trail_count_unique(v@, crate::text::is_char(c), v.len() - b);
    }
    sub_vec(v, 0, b)
}

/// A directory as a comparison key: `/` as `\`, no trailing `\`, ASCII
/// lower case.
pub open spec fn spec_normalize_install(p: Seq<char>) -> Seq<char> {
    ascii_lower_seq(trim_end_char(replace_char(p, '/', '\\'), '\\'))
}

pub fn normalize_install(p: &str) -> (key: String)
    ensures
        key@ == spec_normalize_install(p@),
{
    let r = replace_chars(chars_of(p).as_slice(), '/', '\\');
    let t = trim_end_char_exec(r.as_slice(), '\\');
    string_of(ascii_lowercase(t.as_slice()).as_slice())
}


/// A MySQL installation offered in the developer-tools panel.
#[derive(Clone, Debug)]
pub struct MysqlOption {
    pub version: String,
    pub install_path: String,
    pub data_dir: String,
    pub bin_dir: String,
    pub port: u16,
    pub initialized: bool,
    pub root_password: String,
    /// `store`, `phpstudy`, `manual` or `system`.
    pub source: String,
}

/// The MySQL overview: the version active in `PATH`, the installations,
/// and system `PATH` directories that shadow the user's choice.
#[derive(Clone, Debug)]
pub struct MysqlToolInfo {
    pub active_version: Option<String>,
    pub available: Vec<MysqlOption>,
    pub conflicts: Vec<String>,
}

#[derive(Clone, Debug)]
pub struct ComposerOption {
    pub version: String,
    pub source: String,
    pub phar_path: String,
}

#[derive(Clone, Debug)]
pub struct ComposerToolInfo {
    pub active_version: Option<String>,
    pub available: Vec<ComposerOption>,
}

#[derive(Clone, Debug)]
pub struct NvmToolInfo {
    pub nvm_version: String,
    pub nvm_source: String,
    pub nvm_home: String,
    pub current_node: Option<String>,
    pub installed_nodes: Vec<String>,
}

/// The Node.js versions nvm can install: current and long-term support.
#[derive(Clone, Debug)]
pub struct NodeVersionCatalog {
    pub current: Vec<String>,
    pub lts: Vec<String>,
}

#[derive(Clone, Debug)]
pub struct DevToolsInfo {
    pub composer: Option<ComposerToolInfo>,
    pub nvm: Option<NvmToolInfo>,
    pub mysql: Option<MysqlToolInfo>,
}

/// An option whose install directory (as a key) an earlier one has.
pub open spec fn key_taken(prev: Seq<MysqlOption>, o: MysqlOption) -> bool {
    exists|k: int|
        0 <= k < prev.len() && spec_normalize_install((#[trigger] prev[k]).install_path@)
            == spec_normalize_install(o.install_path@)
}

/// The options with each install directory once, the first one kept.
pub open spec fn dedup_options(opts: Seq<MysqlOption>) -> Seq<MysqlOption>
    decreases opts.len(),
{
    if opts.len() == 0 {
        seq![]
    } else {
        let prev = dedup_options(opts.drop_last());
        if key_taken(prev, opts.last()) {
            prev
        } else {
            prev.push(opts.last())
        }
    }
}

/// The MySQL installations from the store and from the services, each
/// directory once (compared as `normalize_install` keys), first one kept.
pub fn dedup_mysql_options(candidates: Vec<MysqlOption>) -> (out: Vec<MysqlOption>)
    ensures
        out@ == dedup_options(candidates@),
{
    let ghost all = candidates@;
    let mut rest = candidates;
    let mut out: Vec<MysqlOption> = Vec::new();
    let mut keys: Vec<String> = Vec::new();
    let n = rest.len();
    let mut i: usize = 0;
    while i < n
        invariant
            i <= n,
            n == all.len(),
            rest@ == all.skip(i as int),
            out@ == dedup_options(all.take(i as int)),
            keys@.len() == out@.len(),
            forall|k: int|
                0 <= k < keys@.len() ==> (#[trigger] keys@[k])@ == spec_normalize_install(
                    out@[k].install_path@,
                ),
        decreases n - i,
    {
        let o = rest.remove(0);
        assert(o == all[i as int]);
        assert(rest@ =~= all.skip(i + 1));
        assert(all.take(i + 1).drop_last() =~= all.take(i as int));
        let key = normalize_install(o.install_path.as_str());
        let mut seen = false;
        let mut k: usize = 0;
        while k < keys.len()
            invariant
                k <= keys.len(),
                keys@.len() == out@.len(),
                forall|j: int|
                    0 <= j < keys@.len() ==> (#[trigger] keys@[j])@ == spec_normalize_install(
                        out@[j].install_path@,
                    ),
                seen == exists|j: int|
                    0 <= j < k && spec_normalize_install((#[trigger] out@[j]).install_path@)
                        == key@,
            decreases keys.len() - k,
        {
            if str_eq(keys[k].as_str(), key.as_str()) {
                seen = true;
            }
            k = k + 1;
        }
        if !seen {
            out.push(o);
            keys.push(key);
        }
        i = i + 1;
    }
    assert(all.take(n as int) =~= all);
    out
}

/// The source label of a service's MySQL.
pub open spec fn spec_origin_label(o: ServiceOrigin) -> Seq<char> {
    match o {
        ServiceOrigin::Store => "store"@,
        ServiceOrigin::PhpStudy => "phpstudy"@,
        ServiceOrigin::Manual => "manual"@,
        ServiceOrigin::System => "system"@,
    }
}

/// The source label that a MySQL installation found among the services
/// carries: where the service came from.
pub fn origin_label(o: ServiceOrigin) -> (label: &'static str)
    ensures
        label@ == spec_origin_label(o),
{
    let label = match o {
        ServiceOrigin::Store => "store",
        ServiceOrigin::PhpStudy => "phpstudy",
        ServiceOrigin::Manual => "manual",
        ServiceOrigin::System => "system",
    };
    label
}

/// The version of the first installation whose `bin` directory is on
/// `PATH` (`on_path[k]` for the `k`-th).
pub open spec fn spec_active_version(opts: Seq<MysqlOption>, on_path: Seq<bool>) -> Option<int> {
    if exists|k: int| 0 <= k < opts.len() && k < on_path.len() && on_path[k] {
        Some(
            choose|k: int|
                0 <= k < opts.len() && k < on_path.len() && on_path[k] && forall|j: int|
                    0 <= j < k ==> !(j < on_path.len() && #[trigger] on_path[j]),
        )
    } else {
        None
    }
}

/// Index of the first installation on `PATH`.
pub fn active_mysql_index(opts: &[MysqlOption], on_path: &[bool]) -> (r: Option<usize>)
    ensures
        match spec_active_version(opts@, on_path@) {
            Some(k) => r is Some && r->0 == k,
            None => r is None,
        },
{
    let mut k: usize = 0;
    while k < opts.len()
        invariant
            k <= opts.len(),
            forall|j: int| 0 <= j < k ==> !(j < on_path@.len() && #[trigger] on_path@[j]),
        decreases opts.len() - k,
    {
        if k < on_path.len() && on_path[k] {
            proof {
                let w = k as int;
                assert(0 <= w < opts@.len() && w < on_path@.len() && on_path@[w] && forall|j: int|
                    0 <= j < w ==> !(j < on_path@.len() && #[trigger] on_path@[j]));
                let c = choose|c: int|
                    0 <= c < opts@.len() && c < on_path@.len() && on_path@[c] && forall|j: int|
                        0 <= j < c ==> !(j < on_path@.len() && #[trigger] on_path@[j]);
                if c < w {
                    assert(!(c < on_path@.len() && on_path@[c]));
                }
                if c > w {
                    assert(!(w < on_path@.len() && on_path@[w]));
                }
            }
            return Some(k);
        }
        k = k + 1;
    }
    None
}

/// The non-empty, trimmed `;`-separated pieces of a `PATH` value.
pub open spec fn entries_upto(parts: Seq<Seq<char>>) -> Seq<Seq<char>>
    decreases parts.len(),
{
    if parts.len() == 0 {
        seq![]
    } else if trim(parts.last()).len() > 0 {
        entries_upto(parts.drop_last()).push(trim(parts.last()))
    } else {
        entries_upto(parts.drop_last())
    }
}

/// The non-empty, trimmed `;`-separated entries of a `PATH` value, in order.
pub fn system_path_entries(path: &str) -> (entries: Vec<String>)
    ensures
        strings_view(entries@) == entries_upto(split_on(path@, ';')),
{
    let parts = split_chars(chars_of(path).as_slice(), ';');
    let ghost pv = parts@.map_values(|x: Vec<char>| x@);
    let mut out: Vec<String> = Vec::new();
    let mut i: usize = 0;
    while i < parts.len()
        invariant
            i <= parts.len(),
            pv == parts@.map_values(|x: Vec<char>| x@),
            strings_view(out@) == entries_upto(pv.take(i as int)),
        decreases parts.len() - i,
    {
        assert(pv.take(i + 1).drop_last() =~= pv.take(i as int));
        assert(parts@[i as int]@ == pv[i as int]);
        let (a, b) = trim_bounds(parts[i].as_slice(), 0, parts[i].len());
        proof {
            lemma_subrange_whole(parts@[i as int]@);
        }
        if a < b {
            let ghost prev = strings_view(out@);
            let e = string_of(sub_vec(parts[i].as_slice(), a, b).as_slice());
            out.push(e);
            assert(strings_view(out@) =~= prev.push(e@));
        }
        i = i + 1;
    }
    assert(pv.take(parts.len() as int) =~= pv);
    out
}

/// The MySQL directories in the system `PATH` that shadow the user's
/// choice: those given (entries that hold `mysqld.exe`), except the one
/// equal to `keep_bin` (compared as `normalize_install` keys).
pub open spec fn spec_conflicts(entries: Seq<Seq<char>>, keep: Option<Seq<char>>) -> Seq<Seq<char>>
    decreases entries.len(),
{
    if entries.len() == 0 {
        seq![]
    } else {
        let prev = spec_conflicts(entries.drop_last(), keep);
        match keep {
            Some(k) => if spec_normalize_install(k) == spec_normalize_install(entries.last()) {
                prev
            } else {
                prev.push(entries.last())
            },
            None => prev.push(entries.last()),
        }
    }
}

pub fn detect_mysql_system_conflicts(mysql_entries: &[String], keep_bin: Option<&str>) -> (out: Vec<String>)
    ensures
        strings_view(out@) == spec_conflicts(
            strings_view(mysql_entries@),
            match keep_bin {
                Some(k) => Some(k@),
                None => None,
            },
        ),
{
    let ghost ev = strings_view(mysql_entries@);
    let ghost kv = match keep_bin {
        Some(k) => Some(k@),
        None => None::<Seq<char>>,
    };
    let keep = match keep_bin {
        Some(k) => Some(normalize_install(k)),
        None => None,
    };
    let mut out: Vec<String> = Vec::new();
    let mut i: usize = 0;
    while i < mysql_entries.len()
        invariant
            i <= mysql_entries.len(),
            ev == strings_view(mysql_entries@),
            kv == match keep_bin {
                Some(k) => Some(k@),
                None => None::<Seq<char>>,
            },
            match keep {
                Some(k) => kv is Some && k@ == spec_normalize_install(kv->0),
                None => kv is None,
            },
            strings_view(out@) == spec_conflicts(ev.take(i as int), kv),
        decreases mysql_entries.len() - i,
    {
        assert(ev.take(i + 1).drop_last() =~= ev.take(i as int));
        assert(mysql_entries@[i as int]@ == ev[i as int]);
        let norm = normalize_install(mysql_entries[i].as_str());
        let skip = match &keep {
            Some(k) => str_eq(k.as_str(), norm.as_str()),
            None => false,
        };
        if !skip {
            let ghost prev = strings_view(out@);
            out.push(mysql_entries[i].clone());
            assert(strings_view(out@) =~= prev.push(ev[i as int]));
        }
        i = i + 1;
    }
    assert(ev.take(mysql_entries.len() as int) =~= ev);
    out
}

/// The user `PATH` and the system `PATH` joined with `;`, for lookups in both.
pub fn combined_paths(user: &str, system: &str) -> (s: String)
    ensures
        s@ == user@ + ";"@ + system@,
{
    concat3(user, ";", system)
}

/// What running nvm needs: its home, its `nodejs` link, its executable.
#[derive(Clone, Debug)]
pub struct NvmCommandContext {
    pub home: String,
    pub symlink: String,
    pub exe: String,
}

/// nvm can be run where `NVM_HOME` is known, the link is known (from
/// `NVM_SYMLINK` or `settings.txt`), and `nvm.exe` (`exe`) exists; else the
/// first thing missing is the error.
pub fn resolve_nvm_context(
    home: Option<String>,
    symlink: Option<String>,
    exe: String,
    exe_is_file: bool,
) -> (r: Result<NvmCommandContext, String>)
    ensures
        match r {
            Ok(c) => home is Some && symlink is Some && exe_is_file && c.home == home->0
                && c.symlink == symlink->0 && c.exe == exe,
            Err(m) => if home is None {
                m@ == "NVM_HOME 未设置"@
            } else if symlink is None {
                m@ == "NVM_SYMLINK 未设置，且 settings.txt 中没有 path 配置"@
            } else {
                !exe_is_file && m@ == "nvm.exe 不存在: "@ + exe@
            },
        },
{
    match home {
        None => Err("NVM_HOME 未设置".to_owned()),
        Some(h) => match symlink {
            None => Err("NVM_SYMLINK 未设置，且 settings.txt 中没有 path 配置".to_owned()),
            Some(s) => {
                if !exe_is_file {
                    Err(concat2("nvm.exe 不存在: ", exe.as_str()))
                } else {
                    Ok(NvmCommandContext { home: h, symlink: s, exe })
                }
            },
        },
    }
}

/// Whether `p` occurs in `s`.
pub open spec fn holds(s: Seq<char>, p: Seq<char>) -> bool {
    exists|k: int| occurs_at(s, p, k)
}

/// A path as compared for these checks: `/` as `\`, lower-cased.
pub open spec fn path_key(p: Seq<char>) -> Seq<char> {
    lowercase(replace_char(p, '/', '\\'))
}

fn path_key_exec(p: &str) -> (k: Vec<char>)
    ensures
        k@ == path_key(p@),
{
    let r = string_of(replace_chars(chars_of(p).as_slice(), '/', '\\').as_slice());
    chars_of(to_lowercase(r.as_str()).as_str())
}

/// A path inside cargo's build output (`\target\debug\` or
/// `\target\release\`): left behind by development builds.
pub fn is_cargo_target_path(path: &str) -> (b: bool)
    ensures
        b == (holds(path_key(path@), "\\target\\debug\\"@) || holds(
            path_key(path@),
            "\\target\\release\\"@,
        )),
{
    let k = path_key_exec(path);
    contains_chars(k.as_slice(), chars_of("\\target\\debug\\").as_slice()) || contains_chars(
        k.as_slice(),
        chars_of("\\target\\release\\").as_slice(),
    )
}

/// A path in a directory named `RustStudy` (the application's former name),
/// as a whole path segment.
pub fn is_legacy_ruststudy_path(path: &str) -> (b: bool)
    ensures
        b == (holds(path_key(path@), "\\ruststudy\\"@) || has_suffix(
            path_key(path@),
            "\\ruststudy"@,
        )),
{
    let k = path_key_exec(path);
    contains_chars(k.as_slice(), chars_of("\\ruststudy\\").as_slice()) || ends_with_chars(
        k.as_slice(),
        chars_of("\\ruststudy").as_slice(),
    )
}


/// The installations kept have different directories (as keys).
pub proof fn dedup_keys_distinct(opts: Seq<MysqlOption>)
    ensures
        forall|i: int, j: int|
            0 <= i < j < dedup_options(opts).len() ==> spec_normalize_install(
                (#[trigger] dedup_options(opts)[i]).install_path@,
            ) != spec_normalize_install((#[trigger] dedup_options(opts)[j]).install_path@),
    decreases opts.len(),
{
    if opts.len() > 0 {
        dedup_keys_distinct(opts.drop_last());
        let prev = dedup_options(opts.drop_last());
        if !key_taken(prev, opts.last()) {
            let d = dedup_options(opts);
            assert forall|i: int, j: int| 0 <= i < j < d.len() implies spec_normalize_install(
                (#[trigger] d[i]).install_path@,
            ) != spec_normalize_install((#[trigger] d[j]).install_path@) by {
                if j == prev.len() {
                    assert(d[i] == prev[i]);
                    assert(d[j] == opts.last());
                } else {
                    assert(d[i] == prev[i] && d[j] == prev[j]);
                }
            }
        }
    }
}

/// The directory kept for the user's choice is never reported as a conflict.
pub proof fn conflicts_exclude_kept(entries: Seq<Seq<char>>, keep: Seq<char>)
    ensures
        forall|i: int|
            0 <= i < spec_conflicts(entries, Some(keep)).len() ==> spec_normalize_install(
                #[trigger] spec_conflicts(entries, Some(keep))[i],
            ) != spec_normalize_install(keep),
    decreases entries.len(),
{
    if entries.len() > 0 {
        conflicts_exclude_kept(entries.drop_last(), keep);
        let prev = spec_conflicts(entries.drop_last(), Some(keep));
        let cur = spec_conflicts(entries, Some(keep));
        assert forall|i: int| 0 <= i < cur.len() implies spec_normalize_install(#[trigger] cur[i])
            != spec_normalize_install(keep) by {
            if i < prev.len() {
                assert(cur[i] == prev[i]);
            }
        }
    }
}

} // verus!
