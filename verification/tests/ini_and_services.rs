use naxone::installer::{install_after, install_start, InstallEnd, InstallStep};
use naxone::php_ini::{enable_extension, harden_php_ini_text, set_ini_directive};
use naxone::process::{build_start_command, build_stop_command, kill_args};
use naxone::service::{PhpRuntimeOptions, ServiceInstance, ServiceKind, ServiceOrigin, ServiceStatus};
use naxone::service_mgr::{
    check_blocker_stopped, record_start_jobs, record_stop_jobs, web_start_jobs, StartJob, StopJob,
};
use naxone::service_view::{reconcile_plan, record_planned_runtimes, ReconcileAction};

fn svc(kind: ServiceKind, version: &str, status: ServiceStatus) -> ServiceInstance {
    ServiceInstance {
        kind,
        version: version.to_string(),
        variant: None,
        install_path: format!("D:\\{:?}{}", kind, version),
        config_path: None,
        port: 80,
        status,
        auto_start: false,
        origin: ServiceOrigin::Store,
        php_runtime: None,
    }
}

fn running(pid: u32) -> ServiceStatus {
    ServiceStatus::Running { pid, memory_mb: None }
}

#[test]
fn active_line_is_set_before_a_commented_one() {
    let ini = ";curl.cainfo =\ncurl.cainfo = \"/old.pem\"";
    assert_eq!(
        set_ini_directive(ini, "curl.cainfo", "/new.pem"),
        ";curl.cainfo =\ncurl.cainfo = \"/new.pem\""
    );
    let only_comment = ";curl.cainfo =\nx=1";
    assert_eq!(
        set_ini_directive(only_comment, "curl.cainfo", "/new.pem"),
        "curl.cainfo = \"/new.pem\"\nx=1"
    );
}

#[test]
fn extension_line_with_comment_counts_as_loaded() {
    let ini = "extension=exif ; needs mbstring";
    assert_eq!(enable_extension(ini, "exif"), ini);
    let commented = ";extension=exif ; needs mbstring\n";
    assert_eq!(enable_extension(commented, "exif"), "extension=exif");
}

#[test]
fn hardening_with_commented_exif_is_idempotent() {
    let raw = "extension_dir = \"ext\"\n;extension=openssl\n;extension=curl\n;extension=mbstring\n;extension=fileinfo\n;extension=zip\n;extension=intl\n;extension=gd\n;extension=exif      ; Must be after mbstring as it depends on it\n";
    let once = harden_php_ini_text(raw, "C:\\php\\ext");
    assert!(once.contains("\nextension=exif      ; Must be after mbstring"));
    assert_eq!(once.matches("extension=exif").count(), 1);
    assert_eq!(harden_php_ini_text(&once, "C:\\php\\ext"), once);
}

#[test]
fn php_pool_gets_its_worker_environment() {
    let mut php = svc(ServiceKind::Php, "8.4.2", ServiceStatus::Stopped);
    php.port = 9001;
    php.php_runtime = Some(PhpRuntimeOptions { workers: 16, max_requests: 1000 });
    let plan = build_start_command(&php, "C:\\cache");
    assert_eq!(
        plan.env,
        vec![
            ("PHP_FCGI_CHILDREN".to_string(), "16".to_string()),
            ("PHP_FCGI_MAX_REQUESTS".to_string(), "1000".to_string())
        ]
    );
    php.php_runtime = None;
    assert!(build_start_command(&php, "C:\\cache").env.is_empty());
    let nginx = svc(ServiceKind::Nginx, "1.26", ServiceStatus::Stopped);
    assert!(build_start_command(&nginx, "").env.is_empty());
    assert!(build_stop_command(&nginx).unwrap().env.is_empty());
}

#[test]
fn php_pool_is_killed_with_its_tree() {
    assert_eq!(kill_args(ServiceKind::Php, 4242), vec!["/F", "/T", "/PID", "4242"]);
    assert_eq!(kill_args(ServiceKind::Nginx, 7), vec!["/F", "/PID", "7"]);
}

#[test]
fn blocker_that_cannot_stop_refuses_the_start() {
    let nginx = svc(ServiceKind::Nginx, "1.26", ServiceStatus::Stopped);
    let mut apache = svc(ServiceKind::Apache, "2.4", ServiceStatus::Failed { reason: "denied".into() });
    let r = check_blocker_stopped(&nginx, &mut apache, Err("denied".into()), None);
    assert_eq!(r, Err("无法停止 Apache（占用端口 80）: denied".to_string()));
    let mut still = svc(ServiceKind::Apache, "2.4", ServiceStatus::Stopped);
    let r = check_blocker_stopped(&nginx, &mut still, Ok(()), Some(running(5)));
    assert_eq!(
        r,
        Err("Apache 停止后仍在运行（可能是以管理员身份启动的外部进程），已中止启动 Nginx".to_string())
    );
    assert_eq!(still.status, running(5));
    let mut old_nginx = svc(ServiceKind::Nginx, "1.24", ServiceStatus::Stopped);
    assert_eq!(check_blocker_stopped(&nginx, &mut old_nginx, Ok(()), None), Ok(()));
    let r = check_blocker_stopped(&nginx, &mut old_nginx, Err("busy".into()), None);
    assert_eq!(r, Err("无法停止同类旧版本 Nginx 1.24：busy".to_string()));
}

#[test]
fn web_servers_start_with_their_php_pools() {
    let apache = svc(ServiceKind::Apache, "2.4", ServiceStatus::Stopped);
    let mut pool = svc(ServiceKind::Php, "8.3", ServiceStatus::Stopped);
    pool.php_runtime = Some(PhpRuntimeOptions { workers: 4, max_requests: 500 });
    let unused = svc(ServiceKind::Php, "7.4", ServiceStatus::Stopped);
    let all = vec![pool, unused];
    assert_eq!(web_start_jobs(&apache, &all), (true, vec![0]));
}

#[test]
fn launches_are_recorded() {
    let mut target = svc(ServiceKind::Nginx, "1.26", ServiceStatus::Stopped);
    let mut all = vec![
        svc(ServiceKind::Php, "8.3", ServiceStatus::Stopped),
        svc(ServiceKind::Php, "8.4", ServiceStatus::Stopped),
    ];
    let jobs = vec![
        StartJob { index: None, outcome: Ok(10) },
        StartJob { index: Some(0), outcome: Ok(11) },
        StartJob { index: Some(1), outcome: Err("port busy".to_string()) },
    ];
    let r = record_start_jobs(&mut target, &mut all, &jobs);
    assert_eq!(target.status, running(10));
    assert_eq!(all[0].status, running(11));
    assert_eq!(all[1].status, ServiceStatus::Stopped);
    assert_eq!(r, Err("联动启动 1 个 PHP-CGI 失败:\nPHP-CGI 8.4: port busy".to_string()));
    let ok = record_start_jobs(&mut target, &mut all, &[StartJob { index: Some(1), outcome: Ok(12) }]);
    assert_eq!(ok, Ok(()));
    assert_eq!(all[1].status, running(12));
}

#[test]
fn reconciliation_plan() {
    let opts = Some(PhpRuntimeOptions { workers: 8, max_requests: 1000 });
    let mut a = svc(ServiceKind::Php, "8.3", ServiceStatus::Stopped);
    let mut b = svc(ServiceKind::Php, "8.4", running(3));
    b.php_runtime = Some(PhpRuntimeOptions { workers: 4, max_requests: 1000 });
    let c = svc(ServiceKind::Php, "7.4", running(4));
    let nginx = svc(ServiceKind::Nginx, "1.26", running(2));
    let services = vec![a.clone(), b.clone(), c.clone(), nginx.clone()];
    a.php_runtime = opts;
    b.php_runtime = opts;
    let planned = vec![a, b, c, nginx.clone()];
    assert_eq!(
        reconcile_plan(&services, &planned),
        vec![ReconcileAction::Start, ReconcileAction::Restart, ReconcileAction::Stop, ReconcileAction::Keep]
    );
    let mut idle = services.clone();
    idle[3] = svc(ServiceKind::Nginx, "1.26", ServiceStatus::Stopped);
    assert!(reconcile_plan(&idle, &planned).iter().all(|x| *x == ReconcileAction::Keep));
    record_planned_runtimes(&mut idle, &planned);
    assert_eq!(idle[0].php_runtime, opts);
    assert_eq!(idle[1].php_runtime, opts);
    assert_eq!(idle[2].php_runtime, None);
    assert_eq!(idle[0].status, ServiceStatus::Stopped);
}

#[test]
fn installation_steps() {
    let dir = "D:\\pkgs\\Nginx1.26.2";
    assert!(matches!(install_start(true, true, dir), InstallStep::Report(InstallEnd::Done { ref install_path }) if install_path == dir));
    assert!(matches!(install_start(false, true, dir), InstallStep::ClearTarget));
    assert!(matches!(install_start(false, false, dir), InstallStep::MakeStaging));
    let s = install_after(&InstallStep::ClearTarget, Err("busy".to_string()), 2, dir);
    assert!(matches!(s, InstallStep::Report(InstallEnd::Failed { ref reason })
        if reason == "目标目录已存在且无法删除（可能服务正在运行）: D:\\pkgs\\Nginx1.26.2 (busy)"));
    assert!(matches!(install_after(&InstallStep::MakeStaging, Ok(()), 2, dir), InstallStep::Download(0)));
    assert!(matches!(install_after(&InstallStep::MakeStaging, Ok(()), 0, dir),
        InstallStep::Report(InstallEnd::Failed { ref reason }) if reason == "没有可用的下载 URL"));
    assert!(matches!(install_after(&InstallStep::Download(0), Err("x".into()), 2, dir), InstallStep::Download(1)));
    assert!(matches!(install_after(&InstallStep::Download(1), Err("timeout".into()), 2, dir),
        InstallStep::Report(InstallEnd::Failed { ref reason }) if reason == "所有下载源均失败，最后一次错误: timeout"));
    assert!(matches!(install_after(&InstallStep::Download(1), Ok(()), 2, dir), InstallStep::Verify));
    assert!(matches!(install_after(&InstallStep::Verify, Ok(()), 2, dir), InstallStep::Finalize));
    assert!(matches!(install_after(&InstallStep::Finalize, Ok(()), 2, dir),
        InstallStep::Report(InstallEnd::Done { ref install_path }) if install_path == dir));
    assert!(matches!(install_after(&InstallStep::Finalize, Err("no exe".into()), 2, dir),
        InstallStep::Report(InstallEnd::Failed { ref reason }) if reason == "no exe"));
}

#[test]
fn nginx_stop_fails_only_on_its_own_error() {
    let mut nginx = svc(ServiceKind::Nginx, "1.26", running(1));
    let mut all = vec![svc(ServiceKind::Php, "8.3", running(2)), svc(ServiceKind::Php, "8.4", running(3))];
    let jobs = vec![
        StopJob { index: None, outcome: Ok(()) },
        StopJob { index: Some(0), outcome: Err("access denied".to_string()) },
        StopJob { index: Some(1), outcome: Ok(()) },
    ];
    assert_eq!(record_stop_jobs(&mut nginx, &mut all, &jobs), Ok(()));
    assert_eq!(nginx.status, ServiceStatus::Stopped);
    assert_eq!(all[0].status, ServiceStatus::Failed { reason: "access denied".to_string() });
    assert_eq!(all[1].status, ServiceStatus::Stopped);
    let mut nginx = svc(ServiceKind::Nginx, "1.26", running(1));
    let r = record_stop_jobs(&mut nginx, &mut all, &[StopJob { index: None, outcome: Err("port 80 busy".to_string()) }]);
    assert_eq!(r, Err("port 80 busy".to_string()));
    assert_eq!(nginx.status, ServiceStatus::Failed { reason: "port 80 busy".to_string() });
}

#[test]
fn hardening_tells_gd_from_gd2() {
    let raw = ";extension=gd2\n;extension=exif      ; Must be after mbstring as it depends on it\n";
    let once = harden_php_ini_text(raw, "C:\\php\\ext");
    assert!(once.starts_with(";extension=gd2\nextension=exif      ; Must be after mbstring"));
    assert!(once.ends_with("\nextension=gd\n"));
    assert_eq!(harden_php_ini_text(&once, "C:\\php\\ext"), once);
}

#[test]
fn hardening_uncomments_an_indented_line_with_a_comment() {
    let raw = "  ;extension=zip ; archives\r\nextension_dir = \"ext\"\r\n";
    let out = harden_php_ini_text(raw, "C:/php/ext");
    assert!(out.starts_with("  extension=zip ; archives\r\nextension_dir = \"ext\"\r\n"));
    assert!(!out.contains("NaxOne harden"));
    assert_eq!(out.matches("extension=zip").count(), 1);
    assert_eq!(harden_php_ini_text(&out, "C:/php/ext"), out);
}
