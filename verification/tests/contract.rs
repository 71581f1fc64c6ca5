use herdr_branch_labels::formatter::Formatter;
use herdr_branch_labels::json::{Json, JsonNumber};
use herdr_branch_labels::{current_hint, indented_workspaces, labels, saved_workspaces, token_text};
use std::collections::BTreeSet;

fn convert(value: &serde_json::Value) -> Json {
    match value {
        serde_json::Value::Null => Json::Null,
        serde_json::Value::Bool(b) => Json::Bool(*b),
        serde_json::Value::Number(n) => Json::Number(if let Some(u) = n.as_u64() {
            JsonNumber::PosInt(u)
        } else if let Some(i) = n.as_i64() {
            JsonNumber::NegInt(i)
        } else {
            JsonNumber::Float(n.as_f64().unwrap().to_bits())
        }),
        serde_json::Value::String(s) => Json::Str(s.clone()),
        serde_json::Value::Array(items) => Json::Array(items.iter().map(convert).collect()),
        serde_json::Value::Object(map) => Json::Object(
            map.iter()
                .map(|(k, v)| (k.clone(), convert(v)))
                .collect(),
        ),
    }
}

fn j(text: &str) -> Json {
    convert(&serde_json::from_str::<serde_json::Value>(text).unwrap())
}

fn configured() -> Formatter {
    Formatter::new(&j(r#"{"pattern": "^feature/"}"#)).unwrap()
}

fn workspace() -> Json {
    j(r#"{"workspace_id": "w1", "label": "checkout-directory"}"#)
}

fn worktree(id: &str, repo: &str, linked: bool) -> Json {
    Json::Object(vec![
        ("workspace_id".to_owned(), Json::Str(id.to_owned())),
        (
            "worktree".to_owned(),
            Json::Object(vec![
                ("is_linked_worktree".to_owned(), Json::Bool(linked)),
                ("repo_key".to_owned(), Json::Str(repo.to_owned())),
            ]),
        ),
    ])
}

fn snapshot(content: &str) -> Option<Json> {
    serde_json::from_str::<serde_json::Value>(content)
        .ok()
        .map(|v| convert(&v))
}

#[test]
fn missing_or_null_pattern_preserves_input_exactly() {
    for config in [
        r#"{}"#,
        r#"{"pattern": null}"#,
        r#"{"replacement": "$1"}"#,
    ] {
        let formatter = Formatter::new(&j(config)).unwrap();
        for branch in ["main", "feature/invoices", "  retain whitespace  ", ""] {
            assert_eq!(formatter.format(branch).unwrap(), branch);
        }
    }
}

#[test]
fn configuration_rejects_unknown_keys_and_wrong_types() {
    for config in [
        r#"null"#,
        r#"[]"#,
        r#"{"typo": "value"}"#,
        r#"{"pattern": 1}"#,
        r#"{"replacement": null}"#,
        r#"{"pattern": null, "replacement": false}"#,
        r#"{"pattern": "["}"#,
    ] {
        assert!(Formatter::new(&j(config)).is_err(), "accepted {config}");
    }
}

#[test]
fn consumer_date_prefix_config_accepts_lookahead_without_changing_empty_suffixes() {
    let formatter = Formatter::new(&j(
        r#"{"pattern": "^[^/]+/[0-9]{4}-[0-9]{2}-[0-9]{2}-(?=.)", "replacement": ""}"#,
    ))
    .unwrap();
    assert_eq!(
        formatter
            .format("feat/2026-09-08-invoice-validation")
            .unwrap(),
        "invoice-validation"
    );
    for branch in ["main", "chore/2026-09-10-", "team/feat/2026-09-10-invoices"] {
        assert_eq!(formatter.format(branch).unwrap(), branch);
    }
}

#[test]
fn only_first_match_is_replaced_and_empty_results_fall_back() {
    let formatter = Formatter::new(&j(r#"{"pattern": "foo"}"#)).unwrap();
    assert_eq!(formatter.format("foo-foo").unwrap(), "-foo");
    assert_eq!(formatter.format("foo").unwrap(), "foo");
    assert_eq!(configured().format("feature/").unwrap(), "feature/");
}

#[test]
fn rust_capture_replacements_support_numbered_and_named_groups() {
    let formatter = Formatter::new(&j(
        r#"{"pattern": "^users/[^/]+/(?P<ticket>ABC-\\d+)-(.+)$", "replacement": "${2} (${ticket})"}"#,
    ))
    .unwrap();
    assert_eq!(
        formatter.format("users/alice/ABC-42-invoices").unwrap(),
        "invoices (ABC-42)"
    );
    let formatter = Formatter::new(&j(r#"{"pattern": "^feature/(.+)$", "replacement": "$1"}"#)).unwrap();
    assert_eq!(formatter.format("feature/invoices").unwrap(), "invoices");
}

#[test]
fn grouped_automatic_spaces_use_actual_branch() {
    assert_eq!(
        labels(
            &workspace(),
            Some(&j(r#"{"custom_name": null}"#)),
            Some("feature/real-description"),
            true,
            &configured(),
            false
        )
        .unwrap(),
        j(r#"{"short_space": "real-description", "short_branch": null}"#),
    );
}

#[test]
fn unconfigured_grouped_spaces_keep_full_branch() {
    let formatter = Formatter::new(&j("{}")).unwrap();
    assert_eq!(
        labels(
            &workspace(),
            Some(&j(r#"{"custom_name": null}"#)),
            Some("feature/real-description"),
            true,
            &formatter,
            false
        )
        .unwrap(),
        j(r#"{"short_space": "feature/real-description", "short_branch": null}"#),
    );
}

#[test]
fn root_spaces_retain_directory_name_and_format_branch_metadata() {
    assert_eq!(
        labels(
            &workspace(),
            Some(&j(r#"{"custom_name": null}"#)),
            Some("feature/real-description"),
            false,
            &configured(),
            false
        )
        .unwrap(),
        j(r#"{"short_space": "checkout-directory", "short_branch": "real-description"}"#),
    );
}

#[test]
fn manual_names_and_unknown_identity_hints_are_preserved() {
    let workspace = j(r#"{"workspace_id": "w1", "label": "feature/manual-name"}"#);
    let hints = [j("{}"), j(r#"{"custom_name": "feature/manual-name"}"#)];
    for hint in [None, Some(&hints[0]), Some(&hints[1])] {
        assert_eq!(
            labels(
                &workspace,
                hint,
                Some("feature/branch-name"),
                true,
                &configured(),
                false
            )
            .unwrap(),
            j(r#"{"short_space": "feature/manual-name", "short_branch": null}"#),
        );
    }
}

#[test]
fn live_rename_wins_over_automatic_saved_hint() {
    assert_eq!(
        labels(
            &workspace(),
            Some(&j(r#"{"custom_name": null}"#)),
            Some("feature/branch-name"),
            true,
            &configured(),
            true
        )
        .unwrap()
        .get("short_space"),
        Some(&Json::Str("checkout-directory".to_owned())),
    );
}

#[test]
fn detached_and_non_git_spaces_clear_branch_token() {
    for branch in [None, Some("")] {
        for indented in [false, true] {
            assert_eq!(
                labels(&workspace(), None, branch, indented, &configured(), false).unwrap(),
                j(r#"{"short_space": "checkout-directory", "short_branch": null}"#),
            );
        }
    }
}

#[test]
fn token_normalization_removes_controls_and_collapses_visible_whitespace() {
    assert_eq!(
        token_text(Some(" a\x00b\x7f\u{85}\u{9f}  c\u{a0}d ")),
        Some("ab c d".into())
    );
    assert_eq!(token_text(Some("a\nb\tc")), Some("abc".into()));
    assert_eq!(token_text(Some(" \x00 ")), None);
    assert_eq!(token_text(None), None);
}

#[test]
fn token_limit_counts_unicode_characters_instead_of_bytes() {
    assert_eq!(token_text(Some(&"λ".repeat(100))), Some("λ".repeat(80)));
    assert_eq!(token_text(Some(&"🦀".repeat(100))), Some("🦀".repeat(80)));
}

fn as_set(ids: Vec<String>) -> BTreeSet<String> {
    ids.into_iter().collect()
}

#[test]
fn grouping_indents_linked_and_additional_primary_spaces() {
    let workspaces = [
        worktree("child", "repo", true),
        worktree("parent", "repo", false),
        worktree("parent2", "repo", false),
        worktree("orphan", "other", true),
    ];
    assert_eq!(
        as_set(indented_workspaces(&workspaces).unwrap()),
        BTreeSet::from(["child".to_owned(), "parent2".to_owned()])
    );
}

#[test]
fn grouping_without_a_primary_or_repository_stays_flat() {
    let workspaces = [
        worktree("one", "repo", true),
        worktree("two", "repo", true),
        j(r#"{"workspace_id": "none"}"#),
        j(r#"{"workspace_id": "null", "worktree": null}"#),
        worktree("empty-key", "", false),
    ];
    assert!(indented_workspaces(&workspaces).unwrap().is_empty());
}

#[test]
fn separate_repository_groups_have_independent_parents() {
    let workspaces = [
        worktree("parent1", "one", false),
        worktree("child1", "one", true),
        worktree("parent2", "two", false),
        worktree("child2", "two", true),
    ];
    assert_eq!(
        as_set(indented_workspaces(&workspaces).unwrap()),
        BTreeSet::from(["child1".to_owned(), "child2".to_owned()])
    );
}

#[test]
fn saved_custom_names_must_match_live_labels() {
    let workspace = j(r#"{"label": "manual"}"#);
    assert!(current_hint(&workspace, Some(&j(r#"{"custom_name": "manual"}"#))));
    assert!(!current_hint(&workspace, Some(&j(r#"{"custom_name": "old-name"}"#))));
    assert!(!current_hint(&workspace, Some(&j("{}"))));
    assert!(!current_hint(&workspace, None));
}

#[test]
fn automatic_identity_requires_matching_absolute_directory() {
    let workspace = j(r#"{"label": "checkout"}"#);
    assert!(current_hint(
        &workspace,
        Some(&j(r#"{"custom_name": null, "identity_cwd": "/repo/checkout"}"#))
    ));
    assert!(current_hint(
        &workspace,
        Some(&j(r#"{"custom_name": null, "identity_cwd": "/repo/checkout/"}"#))
    ));
    assert!(!current_hint(
        &workspace,
        Some(&j(r#"{"custom_name": null, "identity_cwd": "repo/checkout"}"#))
    ));
    assert!(!current_hint(
        &workspace,
        Some(&j(r#"{"custom_name": null, "identity_cwd": "/repo/other"}"#))
    ));
    assert!(!current_hint(&workspace, Some(&j(r#"{"custom_name": null}"#))));
}

#[test]
fn absent_invalid_and_unsupported_snapshots_return_no_hints() {
    assert!(saved_workspaces(None).is_empty());
    for content in [
        "{",
        "[]",
        "null",
        "{}",
        r#"{"version":4,"workspaces":[]}"#,
        r#"{"version":3,"workspaces":null}"#,
    ] {
        let parsed = snapshot(content);
        assert!(saved_workspaces(parsed.as_ref()).is_empty(), "accepted {content}");
    }
}

#[test]
fn v3_snapshots_read_explicit_identity_and_ignore_invalid_entries() {
    let workspace = r#"{"id": "w1", "custom_name": "mine", "identity_cwd": "/repo"}"#;
    let parsed = snapshot(&format!(
        r#"{{"version": 3, "workspaces": [null, 4, {{}}, {{"id": 1}}, {workspace}]}}"#
    ));
    let saved = saved_workspaces(parsed.as_ref());
    assert_eq!(saved.len(), 1);
    assert_eq!(saved.get("w1"), Some(&j(workspace)));
}

#[test]
fn duplicate_snapshot_ids_use_the_latest_entry() {
    let parsed = snapshot(
        r#"{"version": 3, "workspaces": [
            {"id": "w1", "custom_name": "old"}, {"id": "w1", "custom_name": "current"}]}"#,
    );
    assert_eq!(
        saved_workspaces(parsed.as_ref()).get("w1").unwrap().get("custom_name"),
        Some(&Json::Str("current".to_owned()))
    );
}

#[test]
fn automatic_identity_skips_empty_and_dot_components() {
    let hint = |cwd: &str| {
        Json::Object(vec![
            ("custom_name".to_owned(), Json::Null),
            ("identity_cwd".to_owned(), Json::Str(cwd.to_owned())),
        ])
    };
    let label = |name: &str| j(&format!(r#"{{"label": "{name}"}}"#));
    assert!(current_hint(&label("checkout"), Some(&hint("/repo/checkout/./"))));
    assert!(current_hint(&label("checkout"), Some(&hint("//repo//checkout//"))));
    assert!(current_hint(&label(".."), Some(&hint("/repo/.."))));
    assert!(current_hint(&label("/"), Some(&hint("/"))));
    assert!(current_hint(&label("/./"), Some(&hint("/./"))));
    assert!(!current_hint(&label("repo"), Some(&hint("/repo/checkout"))));
}

#[test]
fn grouping_reports_missing_fields_in_repository_order() {
    let no_flag = j(r#"{"workspace_id": "a", "worktree": {"repo_key": "b-repo"}}"#);
    let no_id = j(r#"{"worktree": {"repo_key": "a-repo", "is_linked_worktree": true}}"#);
    let parent = worktree("p", "a-repo", false);
    assert_eq!(
        indented_workspaces(&[no_flag.clone(), parent.clone(), no_id.clone()]).unwrap_err(),
        "missing string field workspace_id"
    );
    assert_eq!(
        indented_workspaces(&[no_flag]).unwrap_err(),
        "missing is_linked_worktree"
    );
    assert_eq!(indented_workspaces(&[parent, no_id.clone()]).unwrap_err(), "missing string field workspace_id");
    assert!(indented_workspaces(&[no_id]).unwrap().is_empty());
}

#[test]
fn indented_ids_come_sorted_once() {
    let workspaces = [
        worktree("p", "repo", false),
        worktree("z", "repo", true),
        worktree("a", "repo", true),
        worktree("a", "repo", true),
    ];
    assert_eq!(
        indented_workspaces(&workspaces).unwrap(),
        vec!["a".to_owned(), "z".to_owned()]
    );
}

#[test]
fn a_second_token_pass_only_drops_a_space_left_by_the_cut() {
    let text = format!("{} b", "a".repeat(79));
    let first = token_text(Some(&text)).unwrap();
    assert_eq!(first, format!("{} ", "a".repeat(79)));
    assert_eq!(token_text(Some(&first)), Some("a".repeat(79)));
    let plain = token_text(Some("  feature \t  x ")).unwrap();
    assert_eq!(token_text(Some(&plain)), Some(plain.clone()));
}

#[test]
fn disjoint_repository_lists_indent_their_union() {
    let a = vec![worktree("parent1", "one", false), worktree("child1", "one", true)];
    let b = vec![
        worktree("child2", "two", true),
        worktree("parent2", "two", false),
        worktree("child3", "two", true),
    ];
    let both: Vec<Json> = a.iter().chain(b.iter()).cloned().collect();
    let mut expected = as_set(indented_workspaces(&a).unwrap());
    expected.extend(as_set(indented_workspaces(&b).unwrap()));
    assert_eq!(as_set(indented_workspaces(&both).unwrap()), expected);
    assert_eq!(
        expected,
        BTreeSet::from(["child1".to_owned(), "child2".to_owned(), "child3".to_owned()])
    );
}

#[test]
fn ungrouped_workspaces_change_no_indentation() {
    let a = vec![worktree("parent1", "one", false), worktree("child1", "one", true)];
    let mut more = a.clone();
    more.push(j(r#"{"workspace_id": "plain"}"#));
    more.push(j(r#"{"workspace_id": "empty", "worktree": {"repo_key": ""}}"#));
    assert_eq!(indented_workspaces(&more), indented_workspaces(&a));
    let broken = vec![j(r#"{"workspace_id": "x", "worktree": {"repo_key": "r"}}"#)];
    let mut broken_more = broken.clone();
    broken_more.push(j(r#"{"workspace_id": "plain"}"#));
    assert_eq!(indented_workspaces(&broken_more), indented_workspaces(&broken));
}
