use naxone::service::{ServiceInstance, ServiceKind, ServiceOrigin, ServiceStatus};
use naxone::service_view::{global_php_target, path_added_note, start_all_targets};
use naxone::phpinfo::{file_url, missing_cgi_message, phpinfo_command, phpinfo_ini, phpinfo_page};

#[test]
fn header_lines_before_the_page_are_cut() {
    let out = "X-Powered-By: PHP/8.3\r\nContent-type: text/html\r\n\r\n<!DOCTYPE html><html><body>x</body></html>";
    let page = phpinfo_page(out, "", Some(0)).unwrap();
    assert_eq!(page, "<!DOCTYPE html><html><body>x</body></html>");
}

#[test]
fn doctype_is_preferred_to_an_earlier_html_tag() {
    let out = "noise <html> more <!doctype html><html></html>";
    let page = phpinfo_page(out, "", Some(0)).unwrap();
    assert_eq!(page, "<!doctype html><html></html>");
}

#[test]
fn output_opening_with_the_page_is_kept_whole() {
    let out = "  \n<HTML><body></body></HTML>";
    assert_eq!(phpinfo_page(out, "", Some(0)).unwrap(), out);
}

#[test]
fn html_tag_alone_starts_the_page() {
    let out = "Status: 200\r\n\r\n<Html lang=\"en\"></Html>";
    assert_eq!(phpinfo_page(out, "", None).unwrap(), "<Html lang=\"en\"></Html>");
}

#[test]
fn run_without_a_page_is_reported() {
    let err = phpinfo_page("PHP Fatal error: Opcode handlers are unusable", "boom", Some(255)).unwrap_err();
    assert_eq!(
        err,
        "php-cgi.exe 退出 code=255 但没有 HTML 输出\nstdout: PHP Fatal error: Opcode handlers are unusable\nstderr: boom"
    );
    let err = phpinfo_page("", "", None).unwrap_err();
    assert_eq!(err, "php-cgi.exe 退出 code=? 但没有 HTML 输出\nstdout: \nstderr: ");
    let err = phpinfo_page("", "", Some(-1)).unwrap_err();
    assert!(err.starts_with("php-cgi.exe 退出 code=-1 "));
}

#[test]
fn report_keeps_500_characters_of_each_stream() {
    let out = "中".repeat(600);
    let errs = "e".repeat(501);
    let err = phpinfo_page(&out, &errs, Some(1)).unwrap_err();
    let expected = format!(
        "php-cgi.exe 退出 code=1 但没有 HTML 输出\nstdout: {}\nstderr: {}",
        "中".repeat(500),
        "e".repeat(500)
    );
    assert_eq!(err, expected);
}

#[test]
fn configuration_file_choice() {
    assert_eq!(phpinfo_ini(true, true, true), Some("php.ini"));
    assert_eq!(phpinfo_ini(false, true, true), Some("php.ini-production"));
    assert_eq!(phpinfo_ini(false, false, true), Some("php.ini-development"));
    assert_eq!(phpinfo_ini(false, false, false), None);
}

#[test]
fn phpinfo_command_line() {
    let plan = phpinfo_command(Some("php.ini-production"), true);
    assert_eq!(plan.program, vec!["php-cgi.exe".to_string()]);
    assert!(!plan.in_install_dir);
    let texts: Vec<&str> = plan.args.iter().map(|a| a.text.as_str()).collect();
    assert_eq!(
        texts,
        vec!["-q", "-c", "", "-d", "extension_dir=", "-d", "opcache.enable=0", "-d", "opcache.enable_cli=0", "-i"]
    );
    assert_eq!(plan.args[2].in_install, Some(vec!["php.ini-production".to_string()]));
    assert_eq!(plan.args[4].in_install, Some(vec!["ext".to_string()]));

    let bare = phpinfo_command(None, false);
    let texts: Vec<&str> = bare.args.iter().map(|a| a.text.as_str()).collect();
    assert_eq!(texts, vec!["-q", "-d", "opcache.enable=0", "-d", "opcache.enable_cli=0", "-i"]);
    assert!(bare.args.iter().all(|a| a.in_install.is_none()));
}

#[test]
fn page_copy_url_and_missing_cgi() {
    assert_eq!(
        file_url("C:\\Users\\me\\AppData\\Local\\Temp\\naxone-phpinfo-1f.html"),
        "file:///C:/Users/me/AppData/Local/Temp/naxone-phpinfo-1f.html"
    );
    assert_eq!(
        missing_cgi_message("D:\\php\\php-cgi.exe"),
        "php-cgi.exe 不存在: D:\\php\\php-cgi.exe（HTML 版 phpinfo 必须走 CGI SAPI）"
    );
}

#[test]
fn global_php_switch_target_and_note() {
    let svc = |kind: ServiceKind, version: &str| ServiceInstance {
        kind,
        version: version.to_string(),
        variant: None,
        install_path: format!("D:\\{:?}{}", kind, version),
        config_path: None,
        port: 80,
        status: ServiceStatus::Stopped,
        auto_start: false,
        origin: ServiceOrigin::Store,
        php_runtime: None,
    };
    let services = vec![
        svc(ServiceKind::Nginx, "8.3.0"),
        svc(ServiceKind::Php, "7.4.33"),
        svc(ServiceKind::Php, "8.3.0"),
    ];
    assert_eq!(global_php_target(&services, "8.3.0"), Ok(2));
    assert_eq!(global_php_target(&services, "7.4.33"), Ok(1));
    assert_eq!(global_php_target(&services, "5.6"), Err("未找到 PHP v5.6".to_string()));
    assert_eq!(
        path_added_note(true, "C:\\Users\\me\\.naxone\\bin"),
        Some("已追加 PATH 条目：C:\\Users\\me\\.naxone\\bin。请**新开**命令行窗口让它生效。".to_string())
    );
    assert_eq!(path_added_note(false, "x"), None);
}

fn service(kind: ServiceKind, version: &str, status: ServiceStatus) -> ServiceInstance {
    ServiceInstance {
        kind,
        version: version.to_string(),
        variant: None,
        install_path: format!("D:\\{:?}{}", kind, version),
        config_path: None,
        port: 80,
        status,
        auto_start: false,
        origin: ServiceOrigin::Store,
        php_runtime: None,
    }
}

#[test]
fn start_all_picks_one_version_per_kind() {
    let running = ServiceStatus::Running { pid: 7, memory_mb: None };
    let services = vec![
        service(ServiceKind::Php, "8.3.0", ServiceStatus::Stopped),
        service(ServiceKind::Nginx, "1.24", ServiceStatus::Stopped),
        service(ServiceKind::Nginx, "1.26", ServiceStatus::Stopped),
        service(ServiceKind::Apache, "2.4", ServiceStatus::Stopped),
        service(ServiceKind::Mysql, "8.0", ServiceStatus::Stopped),
        service(ServiceKind::Mysql, "5.7", ServiceStatus::Stopped),
        service(ServiceKind::Redis, "5.0", running.clone()),
        service(ServiceKind::Redis, "7.0", ServiceStatus::Stopped),
    ];
    assert_eq!(start_all_targets(&services, "nginx"), vec![1, 4]);
    assert_eq!(start_all_targets(&services, "apache"), vec![3, 4]);
    assert_eq!(start_all_targets(&services, "none"), vec![4]);
}
