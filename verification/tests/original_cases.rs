use naxone::config::PhpRuntimeConfig;
use naxone::installer::phpstudy_style_dir_name;
use naxone::php_runtime::{allocate_worker_counts, allocate_worker_counts_for_config};
use naxone::process::{parse_csv_line, parse_tasklist_memory};
use naxone::scanner::{extract_version_from_dirname, parse_php_dir_name, parse_php_v_output};
use naxone::ssl::sanitize_filename;
use naxone::tool_detect::{
    normalize_node_version, parse_available_node_versions, parse_composer_version,
    parse_nvm_version,
};

#[test]
fn phpstudy_dir_names() {
    assert_eq!(phpstudy_style_dir_name("nginx", "1.26.2"), "Nginx1.26.2");
    assert_eq!(phpstudy_style_dir_name("apache", "2.4.62"), "Apache2.4.62");
    assert_eq!(phpstudy_style_dir_name("mysql", "8.0.40"), "MySQL8.0.40");
    assert_eq!(phpstudy_style_dir_name("redis", "5.0.14.1"), "Redis5.0.14.1");
    assert_eq!(phpstudy_style_dir_name("php", "8.4.2"), "php/php842nts");
    assert_eq!(phpstudy_style_dir_name("php", "8.3.30"), "php/php8330nts");
    assert_eq!(phpstudy_style_dir_name("php", "7.4.33"), "php/php7433nts");
    assert_eq!(phpstudy_style_dir_name("composer", "2.7.7"), "tools/composer-2.7.7");
    assert_eq!(phpstudy_style_dir_name("nvm", "1.2.2"), "tools/nvm-1.2.2");
}

#[test]
fn test_parse_php_dir_name() {
    assert_eq!(parse_php_dir_name("php85nts"), ("8.5".into(), "nts".into()));
    assert_eq!(parse_php_dir_name("php7.4.3nts"), ("7.4.3".into(), "nts".into()));
    assert_eq!(parse_php_dir_name("php84nts"), ("8.4".into(), "nts".into()));
}

#[test]
fn parse_php_v_output_extracts_dotted_version() {
    let full = "PHP 8.5.1 (cli) (built: Dec 16 2025 16:25:55) (NTS Visual C++ 2022 x64)\nCopyright (c) The PHP Group\n";
    assert_eq!(parse_php_v_output(full), Some("8.5.1".into()));
    let full2 = "PHP 7.4.33 (cli) (built: Nov 16 2022 ...)";
    assert_eq!(parse_php_v_output(full2), Some("7.4.33".into()));
    assert_eq!(parse_php_v_output(""), None);
    assert_eq!(parse_php_v_output("garbage"), None);
    assert_eq!(parse_php_v_output("PHP 8 (cli)"), None);
}

#[test]
fn test_extract_version_from_dirname() {
    assert_eq!(extract_version_from_dirname("/x/nginx-1.25.3"), "1.25.3");
}

#[test]
fn parses_composer_version() {
    let out = "Composer version 2.7.7 2024-06-10 22:11:12\n";
    assert_eq!(parse_composer_version(out), Some("2.7.7".into()));

    let out2 = "Composer version 2.9.7 2025-01-01 10:00:00\nPHP version 8.4.0\n";
    assert_eq!(parse_composer_version(out2), Some("2.9.7".into()));

    assert_eq!(parse_composer_version("garbage\n"), None);
}

#[test]
fn parses_nvm_version() {
    assert_eq!(parse_nvm_version("1.2.2\n"), Some("1.2.2".into()));
    assert_eq!(parse_nvm_version("v1.1.12\r\n"), Some("1.1.12".into()));
    assert_eq!(parse_nvm_version(""), None);
    assert_eq!(parse_nvm_version("not-a-version\n"), None);
}

#[test]
fn validates_node_versions() {
    assert_eq!(normalize_node_version("v22.22.3"), Some("22.22.3".into()));
    assert_eq!(normalize_node_version(" 0.12.18 "), Some("0.12.18".into()));
    assert_eq!(normalize_node_version("22"), None);
    assert_eq!(normalize_node_version("22.1-beta"), None);
    assert_eq!(normalize_node_version("22.1.0 --delete"), None);
}

#[test]
fn parses_nvm_available_table() {
    let out = r#"
|   CURRENT    |     LTS      |  OLD STABLE  | OLD UNSTABLE |
|--------------|--------------|--------------|--------------|
|    26.5.0    |   24.18.0    |   0.12.18    |   0.11.16    |
|    26.4.0    |   22.23.1    |   0.12.17    |   0.11.15    |
"#;
    let (current, lts) = parse_available_node_versions(out);
    assert_eq!(current, vec!["26.5.0", "26.4.0"]);
    assert_eq!(lts, vec!["24.18.0", "22.23.1"]);
}

#[test]
fn sanitize_filename_keeps_safe_chars() {
    assert_eq!(sanitize_filename("foo.test"), "foo.test");
    assert_eq!(sanitize_filename("my-site_v1"), "my-site_v1");
    assert_eq!(sanitize_filename("a/b\\c:d"), "a_b_c_d");
}

#[test]
fn parse_tasklist_memory_variants() {
    assert_eq!(parse_tasklist_memory("12,345 K"), Some(12));
    assert_eq!(parse_tasklist_memory("1,234,567 K"), Some(1206));
    assert_eq!(parse_tasklist_memory("512 K"), Some(1));
    assert_eq!(parse_tasklist_memory("0 K"), Some(0));
    assert_eq!(parse_tasklist_memory("N/A"), None);
    assert_eq!(parse_tasklist_memory(""), None);
}

#[test]
fn parse_csv_line_handles_quotes() {
    let line = r#""nginx.exe","1234","Console","1","12,345 K""#;
    let fields = parse_csv_line(line);
    assert_eq!(fields.len(), 5);
    assert_eq!(fields[0], "nginx.exe");
    assert_eq!(fields[1], "1234");
    assert_eq!(fields[4], "12,345 K");
}

#[test]
fn five_equal_versions_share_eight_workers() {
    let active = vec![(9000, 1), (9001, 1), (9002, 1), (9003, 1), (9004, 1)];
    let result = allocate_worker_counts(&active, 8, 4);
    assert_eq!(result.values().copied().sum::<u16>(), 8);
    assert_eq!(result[&9000], 2);
    assert_eq!(result[&9001], 2);
    assert_eq!(result[&9002], 2);
    assert_eq!(result[&9003], 1);
    assert_eq!(result[&9004], 1);
}

#[test]
fn busy_version_gets_more_but_never_exceeds_cap() {
    let active = vec![(9000, 10), (9001, 1), (9002, 1)];
    let result = allocate_worker_counts(&active, 8, 4);
    assert_eq!(result.values().copied().sum::<u16>(), 8);
    assert_eq!(result[&9000], 4);
    assert!(result.values().all(|workers| *workers <= 4));
}

#[test]
fn every_active_version_gets_one_when_budget_is_smaller() {
    let active = vec![(9000, 1), (9001, 1), (9002, 1)];
    let result = allocate_worker_counts(&active, 2, 4);
    assert_eq!(result.values().copied().sum::<u16>(), 3);
    assert!(result.values().all(|workers| *workers == 1));
}

#[test]
fn phpstudy_mode_assigns_sixteen_to_every_active_version() {
    let active = vec![(9001, 1), (9002, 3), (9003, 1)];
    let config = PhpRuntimeConfig::default();
    let result = allocate_worker_counts_for_config(&active, &config);
    assert_eq!(result.values().copied().sum::<u16>(), 48);
    assert!(result.values().all(|workers| *workers == 16));
}
