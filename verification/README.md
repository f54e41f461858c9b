# naxone

The decisions of NaxOne, a local web-development environment for Windows
(Nginx/Apache, PHP, MySQL, Redis, Composer, nvm), written in Verus and
verified against their contracts.

- `src/` — the verified library. Service lifecycle decisions
  (`service_mgr`, `service_view`), the PHP FastCGI worker policy
  (`php_runtime`), `php.ini` edits and their laws (`php_ini`,
  `php_ini_laws`), the package installer's decisions (`installer`,
  `post_install`, `store`), the PHP info page and MySQL's first setup
  (`phpinfo`, `mysql_setup`), directory scanners (`scanner`), tool detection
  and the developer-tools panel (`tool_detect`, `dev_tools`), Composer's
  `config.json` (`composer_config`, `composer_text`), process
  output parsing and command plans (`process`), certificates (`ssl`,
  `certs`), version ordering (`version_nums`, `version_order`) and shared
  text helpers (`text`). Calls into `sha2`, `rcgen`, `time` and `serde_json` stand behind small
  trusted wrappers whose contracts are stated next to them.
- `tests/` — tests of the library on concrete values.
- `app/` — a command-line front end: file and network I/O, process
  spawning, the async runtime and the serde copies of the configuration.
