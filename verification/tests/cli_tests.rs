//! Exit codes, and failures as they are shown.

use orgnotion::cli::{exit_code_for, render_failure};
use orgnotion::path::VaultPath;
use orgnotion::ports::{FsError, NotionError};
use orgnotion::run::RunError;
use orgnotion::validate::{BrokenLink, PostValidationResult};
use orgnotion::vault::VaultError;

#[test]
fn exit_codes_map_per_failure_kind() {
    let pre = RunError::PreValidation(vec![]);
    let post = RunError::PostValidation {
        root_url: "u".to_string(),
        failures: vec![],
    };
    let api = RunError::Api {
        context: "c".to_string(),
        source: NotionError::Transport("t".to_string()),
        root_url: None,
    };
    assert_eq!(exit_code_for(&pre), 2);
    assert_eq!(exit_code_for(&post), 3);
    assert_eq!(exit_code_for(&api), 1);
    assert_eq!(exit_code_for(&RunError::MissingToken), 1);
}

#[test]
fn pre_validation_failure_lists_every_broken_link() {
    let error = RunError::PreValidation(vec![
        BrokenLink {
            source_node_id: "a".to_string(),
            source_file: "a.org".to_string(),
            target_id: "ghost-1".to_string(),
        },
        BrokenLink {
            source_node_id: "b".to_string(),
            source_file: "b.org".to_string(),
            target_id: "ghost-2".to_string(),
        },
    ]);
    let rendered = render_failure(&error);
    assert!(rendered.contains("ghost-1"), "got: {rendered}");
    assert!(rendered.contains("ghost-2"), "got: {rendered}");
    assert!(rendered.contains("nothing was written"), "got: {rendered}");
}

#[test]
fn post_validation_failure_warns_about_partial_snapshot() {
    let error = RunError::PostValidation {
        root_url: "https://www.notion.so/root".to_string(),
        failures: vec![PostValidationResult {
            node_id: "a".to_string(),
            missing: vec!["b".to_string()],
        }],
    };
    let rendered = render_failure(&error);
    assert!(rendered.contains("node a"), "got: {rendered}");
    assert!(
        rendered.contains("NOT automatically deleted"),
        "got: {rendered}"
    );
    assert!(
        rendered.contains("https://www.notion.so/root"),
        "got: {rendered}"
    );
}

#[test]
fn api_failure_with_root_warns_and_without_root_does_not() {
    let with_root = RunError::Api {
        context: "writing content".to_string(),
        source: NotionError::Transport("t".to_string()),
        root_url: Some("https://www.notion.so/root".to_string()),
    };
    assert!(render_failure(&with_root).contains("NOT automatically deleted"));

    let without_root = RunError::Api {
        context: "creating root".to_string(),
        source: NotionError::Transport("t".to_string()),
        root_url: None,
    };
    assert!(!render_failure(&without_root).contains("NOT automatically deleted"));
}

#[test]
fn other_failures_exit_with_one() {
    let vault = RunError::Vault(VaultError::Fs(FsError::NotADirectory(VaultPath::parse("/x"))));
    assert_eq!(exit_code_for(&vault), 1);
    assert_eq!(exit_code_for(&RunError::MissingParentPageId), 1);
    assert!(render_failure(&vault).contains(&vault.message()));
}
