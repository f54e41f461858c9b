use naxone::mysql_setup::{
    alter_root_password_sql, client_credentials, default_root_password, initialize_args,
    init_file_server_args, mysql_not_running, mysql_setup_plan, password_change_args,
    password_change_outcome, password_target, recorded_default_password, shutdown_args,
    shutdown_outcome, stored_root_password, MysqlSetupPlan, INIT_PORT_END, INIT_PORT_FIRST,
};
use naxone::store::MysqlOption;

fn option(version: &str, port: u16) -> MysqlOption {
    MysqlOption {
        version: version.to_string(),
        install_path: format!("D:\\mysql-{}", version),
        data_dir: format!("D:\\mysql-{}\\data", version),
        bin_dir: format!("D:\\mysql-{}\\bin", version),
        port,
        initialized: true,
        root_password: "root".to_string(),
        source: "store".to_string(),
    }
}

#[test]
fn fresh_install_gets_every_step() {
    assert_eq!(
        mysql_setup_plan(true, false, false, false, false),
        Some(MysqlSetupPlan {
            write_my_ini: true,
            clear_data_dir: false,
            initialize: true,
            set_default_password: true,
        })
    );
}

#[test]
fn half_made_data_directory_is_cleared_first() {
    let plan = mysql_setup_plan(true, true, false, true, true).unwrap();
    assert!(plan.clear_data_dir && plan.initialize);
    assert!(!plan.write_my_ini && !plan.set_default_password);
}

#[test]
fn initialised_install_is_left_alone() {
    assert_eq!(
        mysql_setup_plan(true, true, true, true, true),
        Some(MysqlSetupPlan {
            write_my_ini: false,
            clear_data_dir: false,
            initialize: false,
            set_default_password: false,
        })
    );
    assert_eq!(mysql_setup_plan(false, false, false, false, false), None);
}

#[test]
fn default_password_record() {
    assert_eq!(default_root_password(), "root");
    assert_eq!(recorded_default_password(&Ok(())), "root");
    assert_eq!(recorded_default_password(&Err("x".to_string())), "");
}

#[test]
fn server_command_lines() {
    assert_eq!(
        initialize_args("D:\\m", "D:\\m\\data"),
        vec!["--basedir=D:\\m", "--datadir=D:\\m\\data", "--initialize-insecure", "--console"]
    );
    assert_eq!(
        init_file_server_args("D:\\m", "D:\\m\\data", 33101, "C:\\t\\init.sql"),
        vec![
            "--basedir=D:\\m",
            "--datadir=D:\\m\\data",
            "--port=33101",
            "--init-file=C:\\t\\init.sql",
            "--skip-networking=0",
            "--console"
        ]
    );
    assert_eq!(shutdown_args(33099, "root"), vec!["-P33099", "-h127.0.0.1", "-uroot", "-proot", "shutdown"]);
    assert_eq!((INIT_PORT_FIRST, INIT_PORT_END), (33099, 33199));
}

#[test]
fn shutdown_outcomes() {
    assert_eq!(shutdown_outcome(true, &Ok((true, "warning".to_string()))), Ok(()));
    assert_eq!(
        shutdown_outcome(true, &Ok((false, "  Access denied\r\n".to_string()))),
        Err("mysqladmin shutdown 失败: Access denied".to_string())
    );
    assert_eq!(
        shutdown_outcome(true, &Err("not found".to_string())),
        Err("mysqladmin 调用失败: not found".to_string())
    );
    assert_eq!(
        shutdown_outcome(false, &Ok((true, String::new()))),
        Err("mysqld 未在 20s 内启动监听".to_string())
    );
}

#[test]
fn password_sql_escapes_backslashes_and_quotes() {
    assert_eq!(
        alter_root_password_sql("a'b\\c"),
        "ALTER USER 'root'@'localhost' IDENTIFIED BY 'a''b\\\\c'; FLUSH PRIVILEGES;"
    );
    assert_eq!(
        alter_root_password_sql(""),
        "ALTER USER 'root'@'localhost' IDENTIFIED BY ''; FLUSH PRIVILEGES;"
    );
}

#[test]
fn credentials_file_escapes_backslashes_and_double_quotes() {
    assert_eq!(client_credentials("p\"w\\d'"), "[client]\nuser=root\npassword=\"p\\\"w\\\\d'\"\n");
    assert_eq!(client_credentials(""), "[client]\nuser=root\npassword=\"\"\n");
}

#[test]
fn client_command_line_and_outcome() {
    assert_eq!(
        password_change_args("C:\\t\\x.cnf", 3306, "SELECT 1;"),
        vec!["--defaults-extra-file=C:\\t\\x.cnf", "-P3306", "-h127.0.0.1", "--protocol=TCP", "-e", "SELECT 1;"]
    );
    assert_eq!(password_change_outcome(true, "Using a password"), Ok(()));
    assert_eq!(
        password_change_outcome(false, "ERROR 1045 (28000): Access denied\n"),
        Err("ALTER USER 失败: ERROR 1045 (28000): Access denied".to_string())
    );
}

#[test]
fn password_change_target() {
    let opts = vec![option("8.0.36", 3306), option("5.7.44", 3307), option("8.0.36", 3308)];
    assert_eq!(password_target("new", Some(&opts[..]), "8.0.36"), Ok(0));
    assert_eq!(password_target("new", Some(&opts[..]), "5.7.44"), Ok(1));
    assert_eq!(password_target("new", Some(&opts[..]), "9.0.0"), Err("未找到 MySQL v9.0.0".to_string()));
    assert_eq!(password_target("", Some(&opts[..]), "8.0.36"), Err("新密码不能为空".to_string()));
    assert_eq!(password_target("new", None, "8.0.36"), Err("未找到任何 MySQL 安装".to_string()));
    assert_eq!(password_target("new", Some(&[][..]), "8.0.36"), Err("未找到 MySQL v8.0.36".to_string()));
}

#[test]
fn messages_and_password_file() {
    assert_eq!(
        mysql_not_running(3306),
        "MySQL 服务未运行（127.0.0.1:3306 未监听），请先在仪表盘启动它再修改密码"
    );
    assert_eq!(stored_root_password("root\r\n"), "root");
    assert_eq!(stored_root_password(" pw \n\n"), " pw ");
    assert_eq!(stored_root_password(""), "");
    assert_eq!(stored_root_password("\r\n"), "");
}
