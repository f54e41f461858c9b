use naxone::dev_tools::{
    active_composer_version, composer_info, composer_options, node_version_output, node_versions,
    packagist_url, phar_version_in, ComposerCandidate, RepoItem,
    Repositories,
};
use naxone::store::ComposerOption;
use naxone::scanner::{inspect_version, looks_like_install, store_dir_kind};
use naxone::process::{parse_tasklist_memory, watchdog_tick, WatchdogStep};
use naxone::certs::{ca_plan, issue_certificate, leaf_plan, KeyUse, DAY};
use naxone::installer::{
    all_sources_failed, check_digest, check_integrity, extract_host, invalid_archive_note,
    is_trusted_source, missing_exe_message, php_ini_template, progress_due, response_refusal,
    staging_names, verify_sha256,
};
use naxone::php_ini::{
    enable_extension, enable_extension_dir, harden_php_ini_text, has_active_extension_dir,
    php_ini_with_defaults, set_ini_directive,
};
use naxone::post_install::{
    default_my_ini, deep_uninstall, is_composer_file, nvm_entry_action, nvm_settings,
    record_deletion, record_env_outcome, record_unlink_outcome, root_password_init_sql, run,
    uninstall, unlink, DeepUninstallReport, EnvAction, NvmEntry, ToolTask, UnlinkReport,
};
use naxone::process::{
    build_start_command, build_stop_command, combined_output, exe_under_install,
    nginx_config_error, nginx_pid_valid, parse_netstat, parse_netstat_line, pid_matches_instance,
    pid_matches_service, port_busy_error, spawn_error, start_exit_error, stop_port_busy,
    taskkill_failure, tasklist_pid, worker_image_name, PortHolder,
};
use naxone::service::{ServiceInstance, ServiceKind, ServiceOrigin, ServiceStatus};
use naxone::service_mgr::{batch_failure, begin_start, begin_stop, finish_start, finish_stop, ServiceManager};
use naxone::ssl::{cabundle_text, san_dns_names, try_install_ca_trust};
use naxone::store::{
    combined_paths, dedup_mysql_options, default_source, detect_mysql_system_conflicts,
    active_mysql_index, install_refusal, is_cargo_target_path, is_legacy_ruststudy_path,
    normalize_install, origin_label, parse_tool_dir, preview_nvm_entry, resolve_nvm_context, store_packages, system_path_entries,
    uninstall_refusal, MysqlOption, PreviewEntry,
};
use naxone::tool_detect::{composer_found, detect_all, get_nvm_home, nvm_found, nvm_symlink, DetectedTool};
use naxone::version_order::{cmp_semver, semver_cmp_desc, sort_versions_desc};
use std::cmp::Ordering;

fn instance(kind: ServiceKind, version: &str, origin: ServiceOrigin, status: ServiceStatus) -> ServiceInstance {
    ServiceInstance {
        kind,
        version: version.to_string(),
        variant: None,
        install_path: format!("C:\\pkgs\\{:?}{}", kind, version),
        config_path: None,
        port: 80,
        status,
        auto_start: false,
        origin,
        php_runtime: None,
    }
}

// ── php.ini edits ────────────────────────────────────────────────────────

#[test]
fn set_ini_directive_uncomments_and_sets() {
    let ini = "[curl]\n;curl.cainfo =\nother=1\n";
    assert_eq!(
        set_ini_directive(ini, "curl.cainfo", "C:\\ca.pem"),
        "[curl]\ncurl.cainfo = \"C:\\ca.pem\"\nother=1"
    );
}

#[test]
fn set_ini_directive_keeps_line_already_set() {
    let ini = "openssl.cafile = 'C:\\ca.pem'\n";
    assert_eq!(set_ini_directive(ini, "openssl.cafile", "C:\\ca.pem"), "openssl.cafile = 'C:\\ca.pem'");
}

#[test]
fn set_ini_directive_appends_when_missing() {
    let out = set_ini_directive("a=1", "curl.cainfo", "x");
    assert_eq!(out, "a=1\n\n; ↓ NaxOne 注入：让 PHP curl / OpenSSL 信任本地 dev CA\ncurl.cainfo = \"x\"\n");
    let empty = set_ini_directive("", "k", "v");
    assert_eq!(empty, "\n; ↓ NaxOne 注入：让 PHP curl / OpenSSL 信任本地 dev CA\nk = \"v\"\n");
    // A second run only drops the final line break; a third changes nothing.
    let twice = set_ini_directive(&out, "curl.cainfo", "x");
    assert_eq!(twice, out.trim_end_matches('\n'));
    assert_eq!(set_ini_directive(&twice, "curl.cainfo", "x"), twice);
}

#[test]
fn enable_extension_dir_uncomments_windows_line() {
    let ini = "; extension_dir = \"./\"\n; On windows:\n;extension_dir = \"ext\"\n";
    assert_eq!(
        enable_extension_dir(ini),
        "; extension_dir = \"./\"\n; On windows:\nextension_dir = \"ext\""
    );
    assert_eq!(enable_extension_dir("x=1"), "x=1\nextension_dir = \"ext\"\n");
}

#[test]
fn enable_extension_cases() {
    let ini = ";extension=curl\n;extension=php_openssl.dll\n";
    assert_eq!(enable_extension(ini, "curl"), "extension=curl\n;extension=php_openssl.dll");
    assert_eq!(enable_extension(ini, "openssl"), ";extension=curl\nextension=openssl");
    let active = "extension=\"gd\"\n";
    assert_eq!(enable_extension(active, "GD"), active);
    assert_eq!(enable_extension("a\n", "zip"), "a\nextension=zip\n");
}

#[test]
fn enable_extension_twice_changes_nothing_more() {
    let once = enable_extension("a=1\n", "intl");
    assert_eq!(enable_extension(&once, "intl"), once);
}

#[test]
fn active_extension_dir_detection() {
    assert!(has_active_extension_dir("  Extension_Dir = \"ext\"\n"));
    assert!(!has_active_extension_dir(";extension_dir = \"ext\"\n#extension_dir=x\n"));
}

#[test]
fn php_defaults_enable_present_dlls_only() {
    let ini = ";extension_dir = \"ext\"\n;extension=openssl\n;extension=mbstring\n";
    let out = php_ini_with_defaults(ini, &[true, false]);
    assert_eq!(out, "extension_dir = \"ext\"\nextension=openssl\n;extension=mbstring");
    assert_eq!(php_ini_with_defaults(&out, &[true, false]), out);
    let grown = php_ini_with_defaults("x = 1\r\n", &[true, true, true]);
    assert_eq!(php_ini_with_defaults(&grown, &[true, true, true]), grown);
}

#[test]
fn harden_sets_dir_and_core_extensions() {
    let raw = ";extension=openssl\nextension=curl\n";
    let out = harden_php_ini_text(raw, "C:\\php\\ext");
    assert!(out.starts_with(
        "extension=openssl\nextension=curl\n\n; --- NaxOne harden ---\nextension_dir = \"C:/php/ext\"\n"
    ));
    assert!(out.ends_with("\nextension=exif\n"));
    assert!(!out.contains(";extension=openssl"));
    assert_eq!(out.matches("extension=curl").count(), 1);
    assert_eq!(harden_php_ini_text(&out, "C:\\php\\ext"), out);
    // A `;extension=` inside another line is left alone: the extension is
    // appended instead, and a second hardening changes nothing.
    let odd = harden_php_ini_text("x ;extension=openssl\n", "D:/ext");
    assert!(odd.starts_with("x ;extension=openssl\n"));
    assert!(odd.contains("\nextension=openssl\n"));
    assert_eq!(harden_php_ini_text(&odd, "D:/ext"), odd);
}

// ── installer ────────────────────────────────────────────────────────────

#[test]
fn extract_host_strips_path_and_port() {
    assert_eq!(extract_host("https://cdn.mysql.com:443/x/y.zip"), Some("cdn.mysql.com".to_string()));
    assert_eq!(extract_host("http://nginx.org"), Some("nginx.org".to_string()));
    assert_eq!(extract_host("nginx.org/x"), None);
}

#[test]
fn trusted_sources_need_https_and_exact_host() {
    assert!(is_trusted_source("https://github.com/a/b.zip"));
    assert!(!is_trusted_source("http://github.com/a/b.zip"));
    assert!(!is_trusted_source("https://evil-cdn.mysql.com.attacker.com/x"));
    assert!(!is_trusted_source("https://cdn.mysql.com.attacker.com/x"));
}

#[test]
fn sha256_of_known_bytes() {
    assert_eq!(
        verify_sha256(b"abc", "BA7816BF8F01CFEA414140DE5DAE2223B00361A396177A9CB410FF61F20015AD"),
        Ok(())
    );
    let err = verify_sha256(b"abc", "00").unwrap_err();
    assert_eq!(
        err,
        "SHA256 校验失败: 期望 00, 实际 ba7816bf8f01cfea414140de5dae2223b00361a396177a9cb410ff61f20015ad"
    );
    assert_eq!(check_digest("ab", "AB"), Ok(()));
}

// ── post-install ─────────────────────────────────────────────────────────

#[test]
fn post_install_tasks_by_name() {
    assert_eq!(run("php"), ToolTask::Php);
    assert_eq!(run("redis"), ToolTask::Nothing);
    assert_eq!(uninstall("php"), ToolTask::Nothing);
    assert_eq!(uninstall("mysql"), ToolTask::Mysql);
    assert_eq!(deep_uninstall("nvm"), ToolTask::Nvm);
    assert_eq!(deep_uninstall("mysql"), ToolTask::Nothing);
}

#[test]
fn unlink_steps_and_reports() {
    let steps = unlink("nvm", "C:\\nvm", "C:\\nvm\\nodejs");
    assert_eq!(steps.len(), 4);
    assert_eq!(steps[2].action, EnvAction::UnsetVar);
    assert_eq!(steps[2].target, "NVM_HOME");
    assert!(unlink("redis", "x", "y").is_empty());

    let mut report = UnlinkReport::default();
    record_unlink_outcome(&mut report, &steps[0], Ok(true));
    record_unlink_outcome(&mut report, &steps[1], Ok(false));
    record_unlink_outcome(&mut report, &steps[3], Err("denied".to_string()));
    assert_eq!(report.cleared, vec!["用户 PATH: C:\\nvm".to_string()]);
    assert_eq!(report.errors, vec!["清 NVM_SYMLINK 失败: denied".to_string()]);

    let composer = unlink("composer", "C:\\c", "unused");
    let mut r2 = UnlinkReport::default();
    record_unlink_outcome(&mut r2, &composer[0], Err("x".to_string()));
    assert_eq!(r2.errors, vec!["清 PATH 失败: x".to_string()]);
}

#[test]
fn deep_uninstall_report_lines() {
    let mut r = DeepUninstallReport::default();
    record_deletion(&mut r, "C:\\c\\composer.phar", Ok(()));
    record_deletion(&mut r, "C:\\c\\composer.bat", Err("busy".to_string()));
    let steps = unlink("nvm", "C:\\nvm", "C:\\nvm\\nodejs");
    record_env_outcome(&mut r, &steps[2], Ok(true));
    assert_eq!(r.deleted_files, vec!["C:\\c\\composer.phar".to_string()]);
    assert_eq!(r.errors, vec!["删 C:\\c\\composer.bat 失败: busy".to_string()]);
    assert_eq!(r.cleared_env, vec!["环境变量: NVM_HOME".to_string()]);
}

#[test]
fn tool_file_classification() {
    assert!(is_composer_file("Composer.phar"));
    assert!(is_composer_file("composer-setup.exe"));
    assert!(!is_composer_file("composerx"));
    assert_eq!(nvm_entry_action("v20.18.0", true), NvmEntry::KeepVersion);
    assert_eq!(nvm_entry_action("v20.18.0", false), NvmEntry::Leave);
    assert_eq!(nvm_entry_action("nodejs", true), NvmEntry::RemoveLink);
    assert_eq!(nvm_entry_action("NVM.EXE", false), NvmEntry::DeleteCoreFile);
    assert_eq!(nvm_entry_action("notes.txt", false), NvmEntry::Leave);
}

#[test]
fn preview_matches_removal_on_examples() {
    for (name, is_dir) in [("v18.1.0", true), ("nodejs", true), ("elevate.vbs", false), ("x", false)] {
        let removal = nvm_entry_action(name, is_dir);
        let preview = preview_nvm_entry(name, is_dir);
        assert_eq!(preview == PreviewEntry::WillKeep, removal == NvmEntry::KeepVersion);
        assert_eq!(
            preview == PreviewEntry::WillDelete,
            removal == NvmEntry::RemoveLink || removal == NvmEntry::DeleteCoreFile
        );
    }
}

#[test]
fn written_configuration_texts() {
    assert_eq!(
        nvm_settings("C:\\nvm", "C:\\nvm\\nodejs"),
        "root: C:\\nvm\r\npath: C:\\nvm\\nodejs\r\nnode_mirror: https://npmmirror.com/mirrors/node/\r\nnpm_mirror: https://npmmirror.com/mirrors/npm/\r\n"
    );
    let ini = default_my_ini("C:\\m", "C:\\m\\data");
    assert!(ini.contains("basedir=C:/m\r\ndatadir=C:/m/data\r\n"));
    assert_eq!(
        root_password_init_sql("a'b"),
        "ALTER USER 'root'@'localhost' IDENTIFIED BY 'a''b';\nFLUSH PRIVILEGES;\n"
    );
}

// ── processes ────────────────────────────────────────────────────────────

#[test]
fn netstat_parsing() {
    assert_eq!(
        parse_netstat_line("  TCP    0.0.0.0:80    0.0.0.0:0    LISTENING    1234"),
        Some((80, 1234))
    );
    assert_eq!(parse_netstat_line("  TCP    [::]:3306    [::]:0    LISTENING    99"), Some((3306, 99)));
    assert_eq!(parse_netstat_line("  TCP    0.0.0.0:80    1.2.3.4:5    ESTABLISHED    1"), None);
    let text = "  TCP    0.0.0.0:80    0.0.0.0:0    LISTENING    10\r\n  TCP    [::]:80    [::]:0    LISTENING    11\r\n  TCP    0.0.0.0:443    0.0.0.0:0    LISTENING    12\r\n";
    assert_eq!(parse_netstat(text), vec![(80, 10), (443, 12)]);
}

#[test]
fn process_ownership() {
    assert!(pid_matches_service(5, Some("nginx.exe"), ServiceKind::Nginx));
    assert!(!pid_matches_service(0, Some("nginx.exe"), ServiceKind::Nginx));
    assert!(!pid_matches_service(5, None, ServiceKind::Nginx));
    assert!(exe_under_install("C:/Pkgs/Nginx/nginx.exe", "c:\\pkgs\\nginx"));
    assert!(!exe_under_install("C:\\Pkgs\\Nginx2\\nginx.exe", "C:\\Pkgs\\Nginx"));
    assert!(!exe_under_install("C:\\x.exe", ""));
    assert!(pid_matches_instance(5, Some("redis-server.exe"), None, ServiceKind::Redis, "C:\\r"));
    assert!(!pid_matches_instance(5, Some("redis-server.exe"), Some("D:\\r\\redis-server.exe"), ServiceKind::Redis, "C:\\r"));
    assert_eq!(worker_image_name(ServiceKind::Php), "php-cgi.exe");
    assert_eq!(tasklist_pid("\"nginx.exe\",\"1234\",\"Console\""), Some(1234));
    assert_eq!(tasklist_pid("nothing"), None);
}

#[test]
fn failure_messages() {
    assert_eq!(taskkill_failure(ServiceKind::Nginx, 7, "ERROR: The process \"7\" not found."), None);
    assert_eq!(
        taskkill_failure(ServiceKind::Mysql, 7, " ERROR: Access is denied. "),
        Some("无法结束 MySQL (PID 7): 权限不足（进程可能以管理员身份启动）".to_string())
    );
    assert_eq!(
        taskkill_failure(ServiceKind::Redis, 8, "boom"),
        Some("无法结束 Redis (PID 8): boom".to_string())
    );
    assert_eq!(stop_port_busy(ServiceKind::Redis, 6379, 0), "Redis 已发出停止命令但端口 6379 仍被占用");
    assert_eq!(
        stop_port_busy(ServiceKind::Redis, 6379, 42),
        "Redis 已发出停止命令但端口 6379 仍被占用（端口仍被 PID 42 占用）"
    );
    let holder = PortHolder { pid: 9, is_instance: false, exe_path: None };
    assert_eq!(
        port_busy_error(ServiceKind::Nginx, 80, Some(holder.clone())),
        "Nginx 启动失败：端口 80 已被外部进程占用 (PID 9, 未知进程)。请先在仪表板结束外部进程后重试。"
    );
    assert_eq!(
        port_busy_error(ServiceKind::Nginx, 80, None),
        "Nginx 启动失败：端口 80 被占用，但定位不到具体进程。请到仪表板「陌生进程」查看。"
    );
    assert_eq!(combined_output("  err \n", "\n out "), "err\nout");
    assert_eq!(combined_output(" ", ""), "");
    assert_eq!(start_exit_error(ServiceKind::Redis, 6379, -1, "", None), "Redis 启动失败 (exit code -1)");
    assert_eq!(
        start_exit_error(ServiceKind::Redis, 6379, 1, "", Some(holder)),
        "Redis 启动失败 (exit code 1)：端口 6379 已被外部进程占用 (PID 9, )"
    );
    assert_eq!(start_exit_error(ServiceKind::Apache, 80, 1, "a\nlast", None), "Apache 启动失败: last");
    assert_eq!(spawn_error(ServiceKind::Php, "no file"), "无法启动 PHP-CGI: no file");
    assert!(nginx_pid_valid(" 1234\n"));
    assert!(!nginx_pid_valid("0"));
    assert!(!nginx_pid_valid(""));
    assert_eq!(
        nginx_config_error("nginx: the configuration file ok\nnginx: [emerg] bad\nlast"),
        "Nginx 配置错误: nginx: [emerg] bad"
    );
    assert_eq!(nginx_config_error(""), "Nginx 配置错误: unknown");
}

#[test]
fn command_plans() {
    let mut php = instance(ServiceKind::Php, "8.4.2", ServiceOrigin::Store, ServiceStatus::Stopped);
    php.port = 9001;
    let plan = build_start_command(&php, "C:\\cache\\ab");
    assert_eq!(plan.program, vec!["php-cgi.exe".to_string()]);
    let texts: Vec<String> = plan.args.iter().map(|a| a.text.clone()).collect();
    assert_eq!(
        texts,
        vec!["-b", "127.0.0.1:9001", "-d", "opcache.file_cache=C:\\cache\\ab", "-d", "opcache.file_cache_fallback=1"]
    );
    let mysql = instance(ServiceKind::Mysql, "8.0", ServiceOrigin::Store, ServiceStatus::Stopped);
    let plan = build_start_command(&mysql, "");
    assert_eq!(plan.args[0].text, "--defaults-file=");
    assert_eq!(plan.args[0].in_install, Some(vec!["my.ini".to_string()]));
    let redis = instance(ServiceKind::Redis, "5", ServiceOrigin::Store, ServiceStatus::Stopped);
    let stop = build_stop_command(&redis).unwrap();
    assert!(!stop.in_install_dir);
    assert_eq!(stop.args[1].text, "80");
    assert!(build_stop_command(&php).is_none());
}

// ── certificates ─────────────────────────────────────────────────────────

#[test]
fn cabundle_and_names() {
    assert_eq!(cabundle_text("A", "B\n"), "A\n\n# === NaxOne Local Dev CA ===\nB\n");
    let names = san_dns_names(" Example.TEST ", &["www.example.test".to_string(), "example.test".to_string(), " ".to_string(), "é.test".to_string()]);
    assert_eq!(names, vec!["example.test", "www.example.test", "localhost"]);
    assert!(try_install_ca_trust(false, false));
    assert!(!try_install_ca_trust(true, false));
}

// ── store ────────────────────────────────────────────────────────────────

#[test]
fn store_records() {
    assert_eq!(default_source(), "store");
    assert_eq!(parse_tool_dir("composer-2.7.7"), Some(("composer", "2.7.7".to_string())));
    assert_eq!(parse_tool_dir("nvm-1.2.2"), Some(("nvm", "1.2.2".to_string())));
    assert_eq!(parse_tool_dir("php-8"), None);
    let services = vec![
        instance(ServiceKind::Nginx, "1.26", ServiceOrigin::Store, ServiceStatus::Stopped),
        instance(ServiceKind::Mysql, "8.0", ServiceOrigin::PhpStudy, ServiceStatus::Stopped),
    ];
    let pkgs = store_packages(&services);
    assert_eq!(pkgs.len(), 1);
    assert_eq!(pkgs[0].name, "nginx");
    assert_eq!(pkgs[0].source, "store");
}

#[test]
fn install_and_uninstall_guards() {
    let services = vec![
        instance(ServiceKind::Php, "8.4.2", ServiceOrigin::Store, ServiceStatus::Running { pid: 1, memory_mb: None }),
        instance(ServiceKind::Mysql, "5.7", ServiceOrigin::PhpStudy, ServiceStatus::Stopped),
    ];
    assert_eq!(
        install_refusal("php", "8.4.2", "PHP", None, &services),
        Some("PHP v8.4.2 正在运行，请先停止后再重新安装".to_string())
    );
    assert_eq!(install_refusal("php", "8.3.0", "PHP", None, &services), None);
    assert_eq!(
        install_refusal("nvm", "1.2", "NVM", Some(("1.1", "C:\\nvm")), &services),
        Some("NVM 已经在系统中安装（v1.1，路径 C:\\nvm），无需通过 NaxOne 商店重装。".to_string())
    );
    assert_eq!(
        uninstall_refusal("mysql", "5.7", "MySQL", &services),
        Some("不能卸载 PHPStudy 自带的软件".to_string())
    );
    assert_eq!(
        uninstall_refusal("php", "8.4.2", "PHP", &services),
        Some("PHP v8.4.2 正在运行，请先停止后再卸载".to_string())
    );
    assert_eq!(uninstall_refusal("nvm", "1", "NVM", &services), None);
    assert_eq!(uninstall_refusal("foo", "1", "Foo", &services), Some("未知软件类型: foo".to_string()));
}

fn option(path: &str, version: &str) -> MysqlOption {
    MysqlOption {
        version: version.to_string(),
        install_path: path.to_string(),
        data_dir: String::new(),
        bin_dir: String::new(),
        port: 3306,
        initialized: true,
        root_password: String::new(),
        source: "store".to_string(),
    }
}

#[test]
fn mysql_overview_pieces() {
    assert_eq!(normalize_install("C:/MySQL/8.0\\\\"), "c:\\mysql\\8.0");
    let opts = dedup_mysql_options(vec![option("C:\\M", "8.0"), option("c:/m\\", "8.0b"), option("D:\\M", "5.7")]);
    let versions: Vec<&str> = opts.iter().map(|o| o.version.as_str()).collect();
    assert_eq!(versions, vec!["8.0", "5.7"]);
    assert_eq!(system_path_entries(" C:\\a ;;D:\\b;"), vec!["C:\\a".to_string(), "D:\\b".to_string()]);
    let entries = vec!["C:\\MySQL\\bin".to_string(), "D:\\other\\bin\\".to_string()];
    assert_eq!(detect_mysql_system_conflicts(&entries, Some("c:/mysql/bin/")), vec!["D:\\other\\bin\\".to_string()]);
    assert_eq!(combined_paths("u", "s"), "u;s");
    assert_eq!(active_mysql_index(&opts, &[false, true]), Some(1));
    assert_eq!(active_mysql_index(&opts, &[false]), None);
    assert_eq!(origin_label(ServiceOrigin::PhpStudy), "phpstudy");
    assert_eq!(origin_label(ServiceOrigin::System), "system");
}

#[test]
fn nvm_context_errors() {
    assert_eq!(resolve_nvm_context(None, None, "x".into(), true).unwrap_err(), "NVM_HOME 未设置");
    assert_eq!(
        resolve_nvm_context(Some("h".into()), None, "x".into(), true).unwrap_err(),
        "NVM_SYMLINK 未设置，且 settings.txt 中没有 path 配置"
    );
    assert_eq!(
        resolve_nvm_context(Some("h".into()), Some("s".into()), "h\\nvm.exe".into(), false).unwrap_err(),
        "nvm.exe 不存在: h\\nvm.exe"
    );
    let ok = resolve_nvm_context(Some("h".into()), Some("s".into()), "h\\nvm.exe".into(), true).unwrap();
    assert_eq!(ok.symlink, "s");
}

#[test]
fn dev_paths() {
    assert!(is_cargo_target_path("D:/proj/Target/Debug/Extensions"));
    assert!(!is_cargo_target_path("D:\\proj\\target\\debugging\\x"));
    assert!(is_legacy_ruststudy_path("D:\\RustStudy"));
    assert!(is_legacy_ruststudy_path("D:/RustStudy/www"));
    assert!(!is_legacy_ruststudy_path("D:\\RustStudyX\\www"));
}

#[test]
fn tool_detection_decisions() {
    assert_eq!(get_nvm_home(Some(String::new())), None);
    assert_eq!(get_nvm_home(Some("C:\\nvm".into())), Some("C:\\nvm".to_string()));
    assert_eq!(nvm_symlink(None, Some("root: C:\\nvm\r\n Path : C:\\nodejs \r\n".into())), Some("C:\\nodejs".to_string()));
    assert_eq!(nvm_symlink(Some("E:\\n".into()), None), Some("E:\\n".to_string()));
    assert_eq!(nvm_symlink(Some(String::new()), Some("x".into())), None);
    let t = composer_found("C:\\c", None, true, None, None).unwrap();
    assert_eq!(t.version, "?");
    assert!(composer_found("C:\\c", None, false, Some("2".into()), None).is_none());
    assert!(nvm_found("C:\\nvm", true, None).is_none());
    let all = detect_all(None, Some(DetectedTool { name: "nvm".into(), version: "1".into(), install_path: "p".into() }));
    assert_eq!(all.len(), 1);
}

// ── versions and services ────────────────────────────────────────────────

#[test]
fn version_ordering() {
    assert_eq!(cmp_semver("8.4.20", "8.4.2"), Ordering::Greater);
    assert_eq!(cmp_semver("8.4", "8.4.0"), Ordering::Less);
    assert_eq!(cmp_semver("8.x.1", "8.1"), Ordering::Equal);
    let sorted = sort_versions_desc(vec!["7.4.33".into(), "8.4.20".into(), "8.4.2".into(), "8.5.5".into()]);
    assert_eq!(sorted, vec!["8.5.5", "8.4.20", "8.4.2", "7.4.33"]);
    assert_eq!(semver_cmp_desc("8.4.20", "8.4.2"), Ordering::Less);
    assert_eq!(semver_cmp_desc("8.4", "8.4.1"), Ordering::Greater);
    assert_eq!(semver_cmp_desc("8.4.1", "8.4.1"), Ordering::Equal);
    assert_eq!(semver_cmp_desc("8.rc", "8.beta"), Ordering::Less);
}

#[test]
fn start_and_stop_transitions() {
    let mut s = instance(ServiceKind::Redis, "7.0.0", ServiceOrigin::Store, ServiceStatus::Stopped);
    assert!(begin_start(&mut s));
    assert_eq!(s.status, ServiceStatus::Starting);
    assert_eq!(finish_start(&mut s, Err("port taken".into())), Err("port taken".to_string()));
    assert_eq!(s.status, ServiceStatus::Failed { reason: "port taken".into() });
    assert!(begin_start(&mut s));
    assert_eq!(finish_start(&mut s, Ok(42)), Ok(()));
    assert_eq!(s.status, ServiceStatus::Running { pid: 42, memory_mb: None });
    assert!(!begin_start(&mut s));
    assert_eq!(batch_failure(&s, "启动", "port taken"), "Redis 7.0.0 启动失败: port taken");
    assert!(begin_stop(&mut s));
    assert_eq!(finish_stop(&mut s, Ok(())), Ok(()));
    assert_eq!(s.status, ServiceStatus::Stopped);
    assert!(!begin_stop(&mut s));
    let m = ServiceManager::new(3u8);
    assert_eq!(m.process_mgr, 3);
}

fn composer(version: &str, phar: &str) -> ComposerOption {
    ComposerOption { version: version.into(), source: "store".into(), phar_path: phar.into() }
}

#[test]
fn active_composer_follows_the_shim() {
    let opts = vec![composer("2.7.7", "C:\\a\\composer.phar"), composer("2.2.0", "D:/B/composer.phar")];
    let shim = "@php \"d:\\b\\COMPOSER.PHAR\" %*";
    assert_eq!(active_composer_version(Some(shim), &opts), Some("2.2.0".to_string()));
    assert_eq!(active_composer_version(Some("nothing"), &opts), Some("2.7.7".to_string()));
    assert_eq!(active_composer_version(None, &opts), Some("2.7.7".to_string()));
    assert_eq!(active_composer_version(None, &[]), None);
}

#[test]
fn composer_options_and_overview() {
    let cand = |label: &str, phar: &str, exists: bool| ComposerCandidate {
        label: label.into(),
        phar_path: phar.into(),
        phar_exists: exists,
    };
    let opts = composer_options(
        Some(cand("2.8.1", "C:\\sys\\composer.phar", true)),
        &[cand("composer-2.7.7", "s1", true), cand("php-8.2", "s2", true), cand("composer-2.6.0", "s3", false)],
    );
    let got: Vec<(&str, &str, &str)> =
        opts.iter().map(|o| (o.version.as_str(), o.source.as_str(), o.phar_path.as_str())).collect();
    assert_eq!(got, vec![("2.8.1", "system", "C:\\sys\\composer.phar"), ("2.7.7", "store", "s1")]);
    let none = composer_options(Some(cand("2.8.1", "x", false)), &[]);
    assert!(none.is_empty());
    assert!(composer_info(none, None).is_none());
    let info = composer_info(opts, Some("s1")).unwrap();
    assert_eq!(info.active_version, Some("2.7.7".to_string()));
    assert_eq!(info.available.len(), 2);
}

#[test]
fn packagist_mirror_read() {
    let item = |name: Option<&str>, url: Option<&str>| RepoItem {
        name: name.map(|s| s.to_string()),
        url: url.map(|s| s.to_string()),
    };
    let list = Some(Repositories::List(vec![
        item(Some("packagist"), None),
        item(Some("private"), Some("https://repo.example")),
        item(Some("packagist"), Some("https://mirror.example")),
    ]));
    assert_eq!(packagist_url(&list), Some("https://mirror.example".to_string()));
    let object = Some(Repositories::Object(vec![
        ("packagist".to_string(), Some("https://m.example".to_string())),
        ("other".to_string(), None),
    ]));
    assert_eq!(packagist_url(&object), Some("https://m.example".to_string()));
    assert_eq!(packagist_url(&None), None);
    assert_eq!(packagist_url(&Some(Repositories::Other)), None);
}

#[test]
fn node_versions_and_outputs() {
    let entries = vec![
        ("v18.20.4".to_string(), true),
        ("v22.1.0".to_string(), true),
        ("nodejs".to_string(), true),
        ("v20.0.0".to_string(), false),
        ("vv9.0.0".to_string(), true),
    ];
    assert_eq!(node_versions(&entries), vec!["22.1.0", "18.20.4", "9.0.0"]);
    assert_eq!(node_version_output("v20.11.1\r\n"), Some("20.11.1".to_string()));
    assert_eq!(node_version_output("  \n"), None);
    assert_eq!(node_version_output("v"), None);
    assert_eq!(
        phar_version_in("xx Composer version @package_version@ yy Composer version 2.7.7 2024-06-10"),
        Some("2.7.7".to_string())
    );
    assert_eq!(phar_version_in("Composer version 1.0Composer version 2"), Some("1.0".to_string()));
    assert_eq!(phar_version_in("no version here"), None);
}

const NOW: i64 = 1_700_000_000;

#[test]
fn certificate_plans() {
    let ca = ca_plan(NOW);
    assert_eq!(ca.common_name, "NaxOne Local Dev CA");
    assert_eq!(ca.organization, "NaxOne");
    assert!(ca.is_ca && !ca.loopback && !ca.server_auth);
    assert_eq!(ca.key_usages, vec![KeyUse::KeyCertSign, KeyUse::CrlSign, KeyUse::DigitalSignature]);
    assert_eq!(ca.not_before, NOW - DAY);
    assert_eq!(ca.not_after, NOW + 3650 * DAY);
    let leaf = leaf_plan("Example.test", &["www.example.test".to_string(), " EXAMPLE.test ".to_string()], NOW);
    assert_eq!(leaf.common_name, "Example.test");
    assert_eq!(leaf.organization, "NaxOne Local Dev");
    assert_eq!(leaf.dns_names, vec!["example.test", "www.example.test", "localhost"]);
    assert!(leaf.loopback && leaf.server_auth && leaf.authority_key_id && !leaf.is_ca);
    assert_eq!(leaf.not_after - leaf.not_before, 398 * DAY);
}

#[test]
fn generate_creates_ca_and_leaf() {
    let issued = issue_certificate("example.test", &["www.example.test".to_string()], None, NOW).expect("ok");
    assert!(issued.cert_pem.starts_with("-----BEGIN CERTIFICATE-----"));
    assert!(issued.key_pem.contains("PRIVATE KEY"));
    let (ca_cert, ca_key) = issued.new_ca.expect("CA created");
    assert!(ca_cert.starts_with("-----BEGIN CERTIFICATE-----"));
    assert!(ca_key.contains("PRIVATE KEY"));
}

#[test]
fn second_call_reuses_existing_ca() {
    let first = issue_certificate("a.test", &[], None, NOW).expect("ok");
    let (_, ca_key) = first.new_ca.expect("CA created");
    let second = issue_certificate("b.test", &[], Some(&ca_key), NOW).expect("ok");
    assert!(second.new_ca.is_none(), "二次签发应复用同一 CA");
    assert_ne!(first.key_pem, second.key_pem);
    let bad = issue_certificate("c.test", &[], Some("not a key"), NOW).unwrap_err();
    assert!(bad.starts_with("解析 CA 私钥失败: "));
}

#[test]
fn download_decisions() {
    assert_eq!(staging_names("php", "8.4.2"), ("php-8.4.2.zip".to_string(), "php-8.4.2".to_string()));
    assert_eq!(
        response_refusal("https://x/a.zip", 404, false, None),
        Some("HTTP 404: https://x/a.zip (content-type: <unknown>)".to_string())
    );
    assert_eq!(
        response_refusal("https://x/a.zip", 200, true, Some("Text/HTML; charset=utf-8")),
        Some("下载响应为 HTML（疑似拦截页/错误页），非安装包: https://x/a.zip".to_string())
    );
    assert_eq!(response_refusal("https://x/a.zip", 200, true, Some("application/zip")), None);
    assert!(progress_due(262144, 0, 0));
    assert!(!progress_due(262143, 0, 299));
    assert!(progress_due(10, 5, 300));
    assert_eq!(invalid_archive_note("坏包", "u"), "坏包（u）");
    assert_eq!(all_sources_failed("e"), "所有下载源均失败，最后一次错误: e");
    assert_eq!(
        check_integrity(b"abc", Some("ba7816bf8f01cfea414140de5dae2223b00361a396177a9cb410ff61f20015ad"), "http://x"),
        Ok(())
    );
    assert!(check_integrity(b"abd", Some("ba7816bf8f01cfea414140de5dae2223b00361a396177a9cb410ff61f20015ad"), "https://nginx.org/x").is_err());
    assert_eq!(check_integrity(b"abc", None, "https://nginx.org/download/nginx.zip"), Ok(()));
    assert_eq!(
        check_integrity(b"abc", None, "http://nginx.org/download/nginx.zip"),
        Err("包清单缺少 sha256 哈希校验，已拒绝安装。请联系维护者补全清单或选择其它版本。".to_string())
    );
    assert_eq!(php_ini_template(true, true), Some("php.ini-production"));
    assert_eq!(php_ini_template(false, true), Some("php.ini-development"));
    assert_eq!(php_ini_template(false, false), None);
    assert_eq!(missing_exe_message("C:\\a\\nginx.exe"), "解压后未找到预期文件 C:\\a\\nginx.exe (检查 exe_rel 或 zip 结构)");
}

#[test]
fn pool_reassignment_texts() {
    use_pool_texts();
}

fn use_pool_texts() {
    let mut a = instance(ServiceKind::Php, "8.4.0", ServiceOrigin::Store, ServiceStatus::Stopped);
    a.php_runtime = Some(naxone::service::PhpRuntimeOptions { workers: 16, max_requests: 1000 });
    let b = instance(ServiceKind::Php, "8.3.0", ServiceOrigin::Store, ServiceStatus::Stopped);
    let mut c = instance(ServiceKind::Php, "7.4.33", ServiceOrigin::Store, ServiceStatus::Stopped);
    c.php_runtime = Some(naxone::service::PhpRuntimeOptions { workers: 2, max_requests: 500 });
    assert_eq!(naxone::service_view::runtime_summary(&[a, b, c]), "8.4.0=16 workers, 7.4.33=2 workers");
    assert_eq!(naxone::service_view::runtime_summary(&[]), "");
    assert_eq!(naxone::service_view::pool_failure("8.4.0", "boom"), "PHP 8.4.0: boom");
}

#[test]
fn watchdog_ticks() {
    assert_eq!(watchdog_tick(false, false, 3), (WatchdogStep::Exit, 3));
    assert_eq!(watchdog_tick(true, true, 4), (WatchdogStep::Healthy, 0));
    let mut crashes = 0;
    let mut restarts = 0;
    loop {
        let (step, next) = watchdog_tick(true, false, crashes);
        crashes = next;
        match step {
            WatchdogStep::Restart => restarts += 1,
            WatchdogStep::GiveUp => break,
            other => panic!("unexpected {:?}", other),
        }
    }
    assert_eq!(restarts, 5);
    assert_eq!(crashes, 6);
}

#[test]
fn tasklist_memory_too_large_is_none() {
    assert_eq!(parse_tasklist_memory("99,999,999,999,999,999,999 K"), None);
    assert_eq!(parse_tasklist_memory("1,536 K"), Some(2));
}

#[test]
fn service_lookup_and_sync() {
    let a = instance(ServiceKind::Nginx, "1.26.2", ServiceOrigin::Store, ServiceStatus::Stopped);
    let b = instance(ServiceKind::Mysql, "8.0.40", ServiceOrigin::Store, ServiceStatus::Stopped);
    let services = vec![a.clone(), b.clone()];
    assert_eq!(naxone::service_view::find_service_index(&services, &b.id()), Ok(1));
    assert_eq!(
        naxone::service_view::find_service_index(&services, "redis-9"),
        Err("Service not found: redis-9".to_string())
    );
    let infos = naxone::service_view::all_infos(&services);
    assert_eq!(infos.len(), 2);
    assert_eq!(infos[1].id, b.id());
    let mut target = a.clone();
    target.status = ServiceStatus::Running { pid: 7, memory_mb: None };
    let mut other = b.clone();
    other.status = ServiceStatus::Running { pid: 8, memory_mb: None };
    let mut list = services.clone();
    naxone::service_view::sync_updated_statuses(&mut list, &target, &[other.clone()]);
    assert_eq!(list[0].status, ServiceStatus::Running { pid: 7, memory_mb: None });
    assert_eq!(list[1].status, ServiceStatus::Running { pid: 8, memory_mb: None });
}

#[test]
fn manual_php_pool_from_config() {
    let mut php = instance(ServiceKind::Php, "8.4.0", ServiceOrigin::Store, ServiceStatus::Stopped);
    let config = naxone::config::PhpRuntimeConfig {
        phpstudy_compatible_workers: false,
        total_worker_budget: 8,
        max_workers_per_version: 4,
        max_requests: 50,
    };
    naxone::php_runtime::ensure_manual_php_runtime(&mut php, &config);
    assert_eq!(php.php_runtime, Some(naxone::service::PhpRuntimeOptions { workers: 4, max_requests: 100 }));
    let mut nginx = instance(ServiceKind::Nginx, "1.26.2", ServiceOrigin::Store, ServiceStatus::Stopped);
    naxone::php_runtime::ensure_manual_php_runtime(&mut nginx, &config);
    assert_eq!(nginx.php_runtime, None);
}

#[test]
fn scanner_and_tool_details() {
    assert_eq!(store_dir_kind("Nginx"), Some(ServiceKind::Nginx));
    assert_eq!(store_dir_kind("HTTPD"), Some(ServiceKind::Apache));
    assert_eq!(store_dir_kind("tools"), None);
    assert!(looks_like_install(&[false, true]));
    assert!(!looks_like_install(&[]));
    assert_eq!(
        inspect_version(ServiceKind::Php, "C:/x/php84nts", None),
        ("8.4".to_string(), Some("nts".to_string()))
    );
    assert_eq!(
        inspect_version(ServiceKind::Php, "C:/x/php84nts", Some("8.4.2".to_string())),
        ("8.4.2".to_string(), Some("nts".to_string()))
    );
    assert_eq!(naxone::tool_detect::port_from_my_ini("[client]\nport=1\n[mysqld]\nport = 3307\n"), Some(3307));
    assert_eq!(naxone::tool_detect::port_from_my_ini("[mysqld]\nbasedir=x\n"), None);
    assert!(naxone::tool_detect::is_dev_build_resource("D:/proj/target/Release/extensions/composer.phar"));
    assert!(!naxone::tool_detect::is_dev_build_resource("C:/tools/composer.phar"));
    assert!(matches!(naxone::tool_detect::detect("nvm"), naxone::post_install::ToolTask::Nvm));
    assert!(matches!(naxone::tool_detect::detect("php"), naxone::post_install::ToolTask::Nothing));
    assert_eq!(naxone::post_install::composer_bat(), "@ECHO OFF\r\nphp \"%~dp0composer.phar\" %*\r\n");
    assert_eq!(naxone::store::preview_composer_entry("composer.phar", true), PreviewEntry::WillDelete);
    assert_eq!(naxone::store::preview_composer_entry("composer.phar", false), PreviewEntry::Untouched);
}

#[test]
fn mysql_installs_sorted_newest_first() {
    let m = |v: &str| naxone::tool_detect::MysqlInstall {
        version: v.to_string(),
        install_path: format!("C:/MySQL{}", v),
        data_dir: String::new(),
        port: 3306,
        initialized: false,
    };
    let sorted = naxone::version_order::sort_mysql_desc(vec![m("5.7.44"), m("8.0.40"), m("8.4.3")]);
    let versions: Vec<&str> = sorted.iter().map(|x| x.version.as_str()).collect();
    assert_eq!(versions, vec!["8.4.3", "8.0.40", "5.7.44"]);
}
