//! Application configuration model (the contents of `naxone.toml`).
//!
//! Paths are held as strings; reading and writing the file is done by the
//! application around this library.
use std::collections::HashMap;
use vstd::prelude::*;

use crate::service::ServiceKind;

verus! {

/// Main application configuration.
#[derive(Debug, Clone)]
pub struct AppConfig {
    pub general: GeneralConfig,
    pub web_server: WebServerConfig,
    pub mysql: MysqlConfig,
    pub redis: RedisConfig,
    pub php_runtime: PhpRuntimeConfig,
    pub php_instances: HashMap<String, PhpInstanceConfig>,
}

/// A user-specified extra install path for a standalone (non-PHPStudy) service.
#[derive(Debug, Clone)]
pub struct ExtraInstallPath {
    /// Stable id for frontend remove operations
    pub id: String,
    pub kind: ServiceKind,
    pub path: String,
    /// Optional user-friendly label
    pub label: Option<String>,
}

#[derive(Debug, Clone)]
pub struct GeneralConfig {
    pub data_dir: String,
    pub www_root: String,
    pub phpstudy_path: Option<String>,
    pub auto_start: Vec<String>,
    pub log_dir: Option<String>,
    pub log_retention_days: u32,
    /// Paths to manually-added standalone installs
    pub extra_install_paths: Vec<ExtraInstallPath>,
    /// Root dir where packages installed via the in-app store go.
    pub package_install_root: Option<String>,
    /// Command-line global PHP version; `None` when unset.
    pub global_php_version: Option<String>,
    /// Whether quitting from the tray stops every service first.
    pub stop_services_on_exit: bool,
    /// System tools the user chose to hide ("composer", "nvm", ...).
    pub ignored_system_tools: Vec<String>,
}

pub fn default_auto_start() -> (v: Vec<String>)
    ensures
        v@.len() == 0,
{
    Vec::new()
}

pub fn default_log_retention() -> (d: u32)
    ensures
        d == 7,
{
    7
}

#[derive(Debug, Clone)]
pub struct WebServerConfig {
    pub active: String,
    pub nginx_version: Option<String>,
    pub apache_version: Option<String>,
}

pub fn default_web_server() -> (s: String)
    ensures
        s@ == seq!['n', 'g', 'i', 'n', 'x'],
{
    proof { reveal_strlit("nginx"); }
    String::from_str("nginx")
}

impl Default for WebServerConfig {
    fn default() -> (c: Self)
        ensures
            c.active@ == seq!['n', 'g', 'i', 'n', 'x'],
            c.nginx_version is None,
            c.apache_version is None,
    {
        WebServerConfig { active: default_web_server(), nginx_version: None, apache_version: None }
    }
}

#[derive(Debug, Clone)]
pub struct MysqlConfig {
    pub version: Option<String>,
    pub port: u16,
}

pub fn default_mysql_port() -> (p: u16)
    ensures
        p == 3306,
{
    3306
}

impl Default for MysqlConfig {
    fn default() -> (c: Self)
        ensures
            c.version is None,
            c.port == 3306,
    {
        MysqlConfig { version: None, port: 3306 }
    }
}

#[derive(Debug, Clone)]
pub struct RedisConfig {
    pub version: Option<String>,
    pub port: u16,
}

pub fn default_redis_port() -> (p: u16)
    ensures
        p == 6379,
{
    6379
}

impl Default for RedisConfig {
    fn default() -> (c: Self)
        ensures
            c.version is None,
            c.port == 6379,
    {
        RedisConfig { version: None, port: 6379 }
    }
}

/// Global PHP FastCGI pool limits.
///
/// Workers are distributed only among PHP versions referenced by enabled
/// vhosts; `total_worker_budget` is a global budget, not a per-version
/// multiplier.
#[derive(Debug, Clone, Copy, PartialEq, Eq, Structural)]
pub struct PhpRuntimeConfig {
    /// PHPStudy's `1+16` pool: 16 request workers for every PHP version
    /// referenced by an enabled vhost.
    pub phpstudy_compatible_workers: bool,
    pub total_worker_budget: u16,
    pub max_workers_per_version: u16,
    pub max_requests: u32,
}

pub fn default_phpstudy_compatible_workers() -> (b: bool)
    ensures
        b,
{
    true
}

pub fn default_total_worker_budget() -> (n: u16)
    ensures
        n == 8,
{
    8
}

pub fn default_max_workers_per_version() -> (n: u16)
    ensures
        n == 4,
{
    4
}

pub fn default_max_requests() -> (n: u32)
    ensures
        n == 1000,
{
    1000
}

impl Default for PhpRuntimeConfig {
    fn default() -> (c: Self)
        ensures
            c.phpstudy_compatible_workers,
            c.total_worker_budget == 8,
            c.max_workers_per_version == 4,
            c.max_requests == 1000,
    {
        PhpRuntimeConfig {
            phpstudy_compatible_workers: default_phpstudy_compatible_workers(),
            total_worker_budget: default_total_worker_budget(),
            max_workers_per_version: default_max_workers_per_version(),
            max_requests: default_max_requests(),
        }
    }
}

#[derive(Debug, Clone)]
pub struct PhpInstanceConfig {
    pub port: u16,
    pub workers: u16,
    pub max_requests: u32,
    pub auto_start: bool,
}

pub fn default_workers() -> (n: u16)
    ensures
        n == 4,
{
    4
}

impl AppConfig {
    /// A default config for a fresh PHPStudy-compatible setup. `www_root`
    /// is chosen by the caller.
    pub fn default_with_phpstudy(phpstudy_path: String, www_root: String) -> (c: Self)
        ensures
            c.general.data_dir@ == phpstudy_path@,
            c.general.www_root@ == www_root@,
            c.general.phpstudy_path == Some(phpstudy_path),
            c.general.auto_start@.len() == 2,
            c.general.auto_start@[0]@ == seq!['n', 'g', 'i', 'n', 'x'],
            c.general.auto_start@[1]@ == seq!['m', 'y', 's', 'q', 'l'],
            c.general.log_dir is None,
            c.general.log_retention_days == 7,
            c.general.extra_install_paths@.len() == 0,
            c.general.package_install_root is None,
            c.general.global_php_version is None,
            !c.general.stop_services_on_exit,
            c.general.ignored_system_tools@.len() == 0,
            c.web_server.active@ == seq!['n', 'g', 'i', 'n', 'x'],
            c.web_server.nginx_version is None,
            c.web_server.apache_version is None,
            c.mysql.version is None,
            c.mysql.port == 3306,
            c.redis.version is None,
            c.redis.port == 6379,
            c.php_runtime.phpstudy_compatible_workers,
            c.php_runtime.total_worker_budget == 8,
            c.php_runtime.max_workers_per_version == 4,
            c.php_runtime.max_requests == 1000,
            c.php_instances@.len() == 0,
    {
        proof {
            reveal_strlit("nginx");
            reveal_strlit("mysql");
        }
        let mut auto_start: Vec<String> = Vec::new();
        auto_start.push(String::from_str("nginx"));
        auto_start.push(String::from_str("mysql"));
        AppConfig {
            general: GeneralConfig {
                data_dir: phpstudy_path.clone(),
                www_root,
                phpstudy_path: Some(phpstudy_path),
                auto_start,
                log_dir: None,
                log_retention_days: 7,
                extra_install_paths: Vec::new(),
                package_install_root: None,
                global_php_version: None,
                stop_services_on_exit: false,
                ignored_system_tools: Vec::new(),
            },
            web_server: WebServerConfig::default(),
            mysql: MysqlConfig::default(),
            redis: RedisConfig::default(),
            php_runtime: PhpRuntimeConfig::default(),
            php_instances: HashMap::new(),
        }
    }
}

} // verus!
