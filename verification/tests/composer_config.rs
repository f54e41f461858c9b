use naxone::composer_text::{composer_repo_of, set_composer_repo_text};
use serde_json::Value;

const ALIYUN: &str = "https://mirrors.aliyun.com/composer/";

fn parsed(text: &str) -> Value {
    serde_json::from_str(text).expect("the written config is JSON")
}

#[test]
fn list_form_replaces_packagist_and_keeps_the_rest() {
    let before = r#"{
        "repositories": [
            {"name": "packagist", "type": "composer", "url": "https://old.example/"},
            {"name": "private", "type": "vcs", "url": "https://git.example/repo"}
        ],
        "config": {"repo": {"packagist": {"url": "x"}}, "process-timeout": 300},
        "minimum-stability": "dev"
    }"#;
    let out = set_composer_repo_text(Some(before), ALIYUN);
    assert_eq!(composer_repo_of(&out), Some(ALIYUN.to_string()));
    let v = parsed(&out);
    let repos = v["repositories"].as_array().unwrap();
    assert_eq!(repos.len(), 2);
    assert_eq!(repos[0]["name"], "private");
    assert_eq!(repos[1]["name"], "packagist");
    assert_eq!(repos[1]["url"], ALIYUN);
    assert!(v["config"].get("repo").is_none());
    assert_eq!(v["config"]["process-timeout"], 300);
    assert_eq!(v["minimum-stability"], "dev");
}

#[test]
fn object_form_reset_removes_the_emptied_field() {
    let before = r#"{"repositories": {"packagist": {"type": "composer", "url": "https://old.example/"}}, "a": [1, 2]}"#;
    assert_eq!(composer_repo_of(before), Some("https://old.example/".to_string()));
    let out = set_composer_repo_text(Some(before), "");
    assert_eq!(composer_repo_of(&out), None);
    let v = parsed(&out);
    assert!(v.get("repositories").is_none());
    assert_eq!(v["a"].as_array().unwrap().len(), 2);
    assert_eq!(v["a"][0], 1);
    assert_eq!(v["a"][1], 2);
}

#[test]
fn object_form_keeps_other_repositories_on_reset() {
    let before = r#"{"repositories": {"packagist": {"url": "https://old.example/"}, "mine": {"type": "path", "url": "../lib"}}}"#;
    let out = set_composer_repo_text(Some(before), "");
    let v = parsed(&out);
    assert!(v["repositories"].get("packagist").is_none());
    assert_eq!(v["repositories"]["mine"]["url"], "../lib");
}

#[test]
fn missing_file_gets_an_object_form_entry() {
    let out = set_composer_repo_text(None, ALIYUN);
    let v = parsed(&out);
    assert_eq!(v["repositories"]["packagist"]["type"], "composer");
    assert_eq!(v["repositories"]["packagist"]["url"], ALIYUN);
    assert_eq!(composer_repo_of(&out), Some(ALIYUN.to_string()));
}

#[test]
fn unreadable_config_counts_as_empty() {
    let out = set_composer_repo_text(Some("this is not json"), ALIYUN);
    assert_eq!(composer_repo_of(&out), Some(ALIYUN.to_string()));
    let v = parsed(&out);
    assert_eq!(v.as_object().unwrap().len(), 1);
    assert_eq!(composer_repo_of("this is not json"), None);
}

#[test]
fn reset_on_a_config_without_mirror_changes_nothing_else() {
    let before = r#"{"config": {"repo": 1, "secure-http": false}, "name": "x"}"#;
    let out = set_composer_repo_text(Some(before), "");
    let v = parsed(&out);
    assert!(v.get("repositories").is_none());
    assert_eq!(v["config"].as_object().unwrap().len(), 1);
    assert_eq!(v["config"]["secure-http"], false);
    assert_eq!(v["name"], "x");
}
