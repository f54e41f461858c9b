pub mod certs;
pub mod config;
pub mod composer_config;
pub mod composer_text;
pub mod dev_tools;
pub mod installer;
pub mod mysql_setup;
pub mod php_ini;
pub mod php_ini_laws;
pub mod php_runtime;
pub mod phpinfo;
pub mod post_install;
pub mod process;
pub mod service;
pub mod ssl;
pub mod store;
pub mod text;
pub mod service_mgr;
pub mod service_view;
pub mod scanner;
pub mod tool_detect;
pub mod version_nums;
pub mod version_order;
