use codex_history::{
    check_migration_source, default_codex_home, expand_user_path, jsonl_append_text, jsonl_plan,
    migrate, migration_homes, provider_rewrite_paths, provider_rewrite_session_files,
    provider_rewrite_where_clause, provider_total, rewrite_provider_session_text,
    session_action, session_backup_path, session_file_needs_provider_rewrite,
    session_paths, session_plan, HistoryError, MigrationOptions, PathModel, ProviderRewriteError,
    ProviderRewriteOptions, ProviderRewriteProvider, SessionAction, SessionPlan,
};

fn p(text: &str) -> PathModel {
    PathModel::parse(text)
}

fn plan(rel: &str, action: SessionAction) -> SessionPlan {
    SessionPlan {
        relative_path: p(rel),
        source: p(&format!("/from/sessions/{rel}")),
        target: p(&format!("/to/sessions/{rel}")),
        action,
    }
}

fn session_line(index: usize, provider: &str) -> String {
    format!(
        "{{\"type\":\"session_meta\",\"payload\":{{\"id\":\"thread-{index}\",\"model_provider\":\"{provider}\"}}}}\n{{\"type\":\"event_msg\",\"payload\":{{\"type\":\"agent_message\"}}}}\n"
    )
}

// ---------------------------------------------------------------------------
// Migration scenarios
// ---------------------------------------------------------------------------

#[test]
fn migrate_dry_run_reports_without_writing() {
    let options = MigrationOptions {
        from: "/tmp/from".to_string(),
        to: "/tmp/to".to_string(),
        dry_run: true,
    };
    let (from, to) = migration_homes(&options, None).unwrap();
    assert!(check_migration_source(&from, true, true).is_ok());
    let history = jsonl_plan(Some("{\"h\":1}\n"), None);
    let index = jsonl_plan(None, None);
    let action = session_action(&b"{\"turn\":1}\n".to_vec(), None);
    assert_eq!(action, SessionAction::Copy);
    let sessions = session_plan(vec![plan("2026/06/02/session-a.jsonl", action)]);
    let plan = migrate(from, to, true, &history, &index, &sessions).unwrap();
    assert!(!plan.apply);
    assert!(plan.history_lines.is_empty());
    assert!(plan.session_index_lines.is_empty());
    assert!(plan.copies.is_empty());
    let summary = plan.summary;
    assert!(summary.dry_run);
    assert_eq!(summary.history_added, 1);
    assert_eq!(summary.history_existing, 0);
    assert_eq!(summary.session_index_added, 0);
    assert_eq!(summary.sessions_copied, 1);
    assert_eq!(summary.sessions_skipped, 0);
    assert!(summary.session_conflicts.is_empty());
}

#[test]
fn migrate_merges_history_lines() {
    let history = jsonl_plan(Some("{\"h\":1}\n{\"h\":2}\n"), Some("{\"h\":1}\n"));
    assert_eq!(history.added, vec!["{\"h\":2}".to_string()]);
    assert_eq!(history.existing, 1);
    let appended = jsonl_append_text(Some("{\"h\":1}\n"), &history.added).unwrap();
    assert_eq!(format!("{}{}", "{\"h\":1}\n", appended), "{\"h\":1}\n{\"h\":2}\n");
    let index = jsonl_plan(Some("{\"s\":1}\n"), None);
    let created = jsonl_append_text(None, &index.added).unwrap();
    assert_eq!(created, "{\"s\":1}\n");
}

#[test]
fn migrate_rejects_conflicting_session_file() {
    let action = session_action(&b"from\n".to_vec(), Some(&b"to\n".to_vec()));
    assert_eq!(action, SessionAction::Conflict);
    let sessions = session_plan(vec![plan("2026/06/02/session-a.jsonl", action)]);
    let empty = jsonl_plan(None, None);
    let err = migrate(p("/tmp/from"), p("/tmp/to"), false, &empty, &empty, &sessions).unwrap_err();
    assert_eq!(
        err,
        HistoryError::Conflict(vec!["2026/06/02/session-a.jsonl".to_string()])
    );
    assert_eq!(
        err.message(),
        "HistoryConflict: 1 session file(s) already exist with different contents: 2026/06/02/session-a.jsonl"
    );
}

#[test]
fn migrate_counts_skips_and_lists_conflicts_in_path_order() {
    let sessions = session_plan(vec![
        plan("b/x.jsonl", SessionAction::Conflict),
        plan("a/y.jsonl", SessionAction::Skip),
        plan("a/x.jsonl", SessionAction::Conflict),
        plan("c.jsonl", SessionAction::Copy),
    ]);
    let order: Vec<String> = sessions.iter().map(|s| s.relative_path.to_text()).collect();
    assert_eq!(order, vec!["a/x.jsonl", "a/y.jsonl", "b/x.jsonl", "c.jsonl"]);
    let empty = jsonl_plan(None, None);
    let err = migrate(p("/f"), p("/t"), true, &empty, &empty, &sessions).unwrap_err();
    assert_eq!(
        err.message(),
        "HistoryConflict: 2 session file(s) already exist with different contents: a/x.jsonl, b/x.jsonl"
    );
    let ok = session_plan(vec![
        plan("a.jsonl", SessionAction::Skip),
        plan("b.jsonl", SessionAction::Copy),
        plan("c.jsonl", SessionAction::Skip),
    ]);
    let plan = migrate(p("/f"), p("/t"), false, &empty, &empty, &ok).unwrap();
    assert!(plan.apply);
    assert_eq!(plan.copies, vec![(p("/from/sessions/b.jsonl"), p("/to/sessions/b.jsonl"))]);
    let summary = plan.summary;
    assert_eq!(summary.sessions_copied, 1);
    assert_eq!(summary.sessions_skipped, 2);
    assert_eq!(summary.from, p("/f"));
    assert_eq!(summary.to, p("/t"));
}

#[test]
fn migrate_refuses_same_home_and_missing_source() {
    let options = MigrationOptions {
        from: "/home/u/.codex/".to_string(),
        to: "~/.codex".to_string(),
        dry_run: false,
    };
    let home = p("/home/u");
    let err = migration_homes(&options, Some(&home)).unwrap_err();
    assert_eq!(err, HistoryError::SameHome);
    assert_eq!(
        err.message(),
        "HistoryInvalid: --from and --to must be different Codex homes"
    );
    let missing = check_migration_source(&p("/nowhere"), false, false).unwrap_err();
    assert_eq!(missing.message(), "HistoryMissing: /nowhere does not exist");
    let not_dir = check_migration_source(&p("/etc/hosts"), true, false).unwrap_err();
    assert_eq!(not_dir.message(), "HistoryInvalid: /etc/hosts is not a directory");
}

#[test]
fn session_action_skips_identical_files() {
    let bytes = b"{\"turn\":1}\n".to_vec();
    assert_eq!(session_action(&bytes, Some(&bytes.clone())), SessionAction::Skip);
    assert_eq!(session_action(&bytes, Some(&Vec::new())), SessionAction::Conflict);
}

#[test]
fn session_paths_maps_source_files_into_target() {
    let (rel, target) = session_paths(
        &p("/from/sessions"),
        &p("/from/sessions/2026/06/02/a.jsonl"),
        &p("/to/sessions"),
    )
    .unwrap();
    assert_eq!(rel.to_text(), "2026/06/02/a.jsonl");
    assert_eq!(target.to_text(), "/to/sessions/2026/06/02/a.jsonl");
    assert!(session_paths(&p("/from/sessions"), &p("/elsewhere/a.jsonl"), &p("/to")).is_none());
}

// ---------------------------------------------------------------------------
// JSONL merging
// ---------------------------------------------------------------------------

#[test]
fn jsonl_plan_adds_each_new_line_once() {
    let plan = jsonl_plan(Some("a\n\n  \nb  \na\nc\r\nb\n"), Some("c\nx\n"));
    assert_eq!(plan.added, vec!["a".to_string(), "b".to_string()]);
    assert_eq!(plan.existing, 3);
}

#[test]
fn jsonl_plan_of_missing_source_is_empty() {
    let plan = jsonl_plan(None, Some("a\n"));
    assert!(plan.added.is_empty());
    assert_eq!(plan.existing, 0);
}

#[test]
fn jsonl_append_adds_newline_before_unterminated_file() {
    let lines = vec!["x".to_string(), "y".to_string()];
    assert_eq!(jsonl_append_text(Some("a"), &lines).unwrap(), "\nx\ny\n");
    assert_eq!(jsonl_append_text(Some("a\n"), &lines).unwrap(), "x\ny\n");
    assert_eq!(jsonl_append_text(Some(""), &lines).unwrap(), "x\ny\n");
    assert_eq!(jsonl_append_text(None, &lines).unwrap(), "x\ny\n");
    assert!(jsonl_append_text(Some("a"), &Vec::new()).is_none());
}

#[test]
fn merging_twice_adds_nothing_the_second_time() {
    let source = "{\"h\":1}\n{\"h\":2}\n{\"h\":3}";
    let target = "{\"h\":2}";
    let first = jsonl_plan(Some(source), Some(target));
    let merged = format!(
        "{}{}",
        target,
        jsonl_append_text(Some(target), &first.added).unwrap()
    );
    assert_eq!(merged, "{\"h\":2}\n{\"h\":1}\n{\"h\":3}\n");
    let second = jsonl_plan(Some(source), Some(&merged));
    assert!(second.added.is_empty());
    assert_eq!(second.existing, 3);
}

// ---------------------------------------------------------------------------
// Homes
// ---------------------------------------------------------------------------

#[test]
fn expand_user_path_replaces_leading_tilde() {
    let home = p("/home/u");
    assert_eq!(expand_user_path("~", Some(&home)).to_text(), "/home/u");
    assert_eq!(expand_user_path("~/.codex", Some(&home)).to_text(), "/home/u/.codex");
    assert_eq!(expand_user_path("~other/x", Some(&home)).to_text(), "~other/x");
    assert_eq!(expand_user_path("~/x", None).to_text(), "~/x");
    assert_eq!(expand_user_path("/abs/./x/", Some(&home)).to_text(), "/abs/./x/");
    assert_eq!(expand_user_path("/abs/./x/", Some(&home)).component_text(), "/abs/x");
    assert_eq!(expand_user_path("~/x", Some(&p("/home/u/"))).to_text(), "/home/u/x");
    assert_eq!(expand_user_path("~//etc", Some(&home)).to_text(), "/etc");
    let err = check_migration_source(&expand_user_path("/tmp/gone/", None), false, false).unwrap_err();
    assert_eq!(err.message(), "HistoryMissing: /tmp/gone/ does not exist");
}

#[test]
fn default_codex_home_prefers_variable() {
    let home = p("/home/u");
    assert_eq!(default_codex_home(Some("/opt/codex"), Some(&home)).to_text(), "/opt/codex");
    assert_eq!(default_codex_home(None, Some(&home)).to_text(), "/home/u/.codex");
    assert_eq!(default_codex_home(None, None).to_text(), "./.codex");
}

#[test]
fn second_migration_adds_nothing() {
    let source = "{\"h\":1}\n{\"h\":2}\n";
    let target = "{\"h\":1}";
    let first = jsonl_plan(Some(source), Some(target));
    let plan = migrate(p("/f"), p("/t"), false, &first, &jsonl_plan(None, None), &Vec::new()).unwrap();
    assert_eq!(plan.history_lines, vec!["{\"h\":2}".to_string()]);
    assert!(plan.session_index_lines.is_empty());
    let merged = format!("{}{}", target, jsonl_append_text(Some(target), &plan.history_lines).unwrap());
    assert_eq!(merged, "{\"h\":1}\n{\"h\":2}\n");
    let second = jsonl_plan(Some(source), Some(&merged));
    assert!(second.added.is_empty());
    assert_eq!(second.existing, 2);
    assert_eq!(session_action(&b"x".to_vec(), Some(&b"x".to_vec())), SessionAction::Skip);
}

#[test]
fn session_plan_keeps_equal_paths_in_order() {
    let sessions = session_plan(vec![
        plan("b.jsonl", SessionAction::Copy),
        plan("a.jsonl", SessionAction::Conflict),
        plan("b.jsonl", SessionAction::Skip),
        plan("a.jsonl", SessionAction::Copy),
    ]);
    let got: Vec<(String, SessionAction)> =
        sessions.iter().map(|s| (s.relative_path.to_text(), s.action)).collect();
    assert_eq!(
        got,
        vec![
            ("a.jsonl".to_string(), SessionAction::Conflict),
            ("a.jsonl".to_string(), SessionAction::Copy),
            ("b.jsonl".to_string(), SessionAction::Copy),
            ("b.jsonl".to_string(), SessionAction::Skip),
        ]
    );
}
