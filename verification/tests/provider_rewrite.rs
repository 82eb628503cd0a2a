use codex_history::session_log::rewrite_provider_session_value;
use codex_history::{
    parse_provider_counts, provider_count_query, provider_rewrite_paths,
    provider_rewrite_session_files, provider_rewrite_threads, provider_rewrite_where_clause,
    provider_total, provider_update_query, rewrite_plan, rewrite_provider_session_text, rewrite_providers,
    session_backup_path, session_file_needs_provider_rewrite, sqlite3_backup_command, sqlite_quote,
    check_database, is_session_meta, meta_line_moves, PathModel, ProviderCountError, ProviderRewriteError, ProviderRewriteOptions,
    ProviderRewriteProvider,
};

fn p(text: &str) -> PathModel {
    PathModel::parse(text)
}

fn session_text(index: usize, provider: &str) -> String {
    format!(
        "{{\"type\":\"session_meta\",\"payload\":{{\"id\":\"thread-{index}\",\"model_provider\":\"{provider}\"}}}}\n{{\"type\":\"event_msg\",\"payload\":{{\"type\":\"agent_message\"}}}}\n"
    )
}

fn options(to: &str, exclude: &[&str], dry_run: bool) -> ProviderRewriteOptions {
    ProviderRewriteOptions {
        codex_home: "/home/u/.codex".to_string(),
        database: None,
        to: to.to_string(),
        exclude: exclude.iter().map(|s| s.to_string()).collect(),
        dry_run,
    }
}

#[test]
fn quote_doubles_single_quotes() {
    assert_eq!(sqlite_quote("it's"), "'it''s'");
    assert_eq!(sqlite_quote(""), "''");
    assert_ne!(sqlite_quote("a'"), sqlite_quote("a''"));
}

#[test]
fn where_clause_excludes_target_and_exclusions() {
    assert_eq!(
        provider_rewrite_where_clause("ha-shared", &vec!["openai".to_string()]),
        "model_provider <> 'ha-shared' AND model_provider NOT IN ('openai')"
    );
    assert_eq!(
        provider_rewrite_where_clause("x", &vec!["a".to_string(), "b'c".to_string()]),
        "model_provider <> 'x' AND model_provider NOT IN ('a', 'b''c')"
    );
    assert_eq!(provider_rewrite_where_clause("x", &Vec::new()), "model_provider <> 'x'");
}

#[test]
fn statements_embed_where_clause() {
    let w = "model_provider <> 'x'";
    assert_eq!(
        provider_count_query(w),
        "SELECT model_provider, COUNT(*) FROM threads WHERE model_provider <> 'x' GROUP BY model_provider ORDER BY COUNT(*) DESC;"
    );
    assert_eq!(
        provider_update_query("x", w),
        "BEGIN IMMEDIATE; UPDATE threads SET model_provider = 'x' WHERE model_provider <> 'x'; COMMIT;"
    );
    assert_eq!(sqlite3_backup_command(&p("/h/it's.bak")), ".backup '/h/it''s.bak'");
}

#[test]
fn counts_are_read_from_rows() {
    let rows = parse_provider_counts("ikun\t1\n\ntoken\t12\n").unwrap();
    assert_eq!(
        rows,
        vec![
            ProviderRewriteProvider { from: "ikun".to_string(), count: 1 },
            ProviderRewriteProvider { from: "token".to_string(), count: 12 },
        ]
    );
    assert_eq!(provider_total(&rows), Some(13));
    assert_eq!(parse_provider_counts("a\tb\t3").unwrap_err(), ProviderCountError::InvalidCount("b\t3".to_string()));
    assert_eq!(parse_provider_counts("ok\t1\nbroken\n").unwrap_err(), ProviderCountError::InvalidRow("broken".to_string()));
    assert_eq!(parse_provider_counts("x\t+7").unwrap()[0].count, 7);
    assert!(parse_provider_counts("x\t18446744073709551616").is_err());
    let big = vec![
        ProviderRewriteProvider { from: "a".to_string(), count: usize::MAX },
        ProviderRewriteProvider { from: "b".to_string(), count: 1 },
    ];
    assert_eq!(provider_total(&big), None);
}

#[test]
fn threads_rows_become_paths() {
    let paths = provider_rewrite_threads("/h/sessions/a.jsonl\n\n/h/sessions/b.jsonl\n");
    assert_eq!(paths.len(), 2);
    assert_eq!(paths[1].to_text(), "/h/sessions/b.jsonl");
}

#[test]
fn session_needs_rewrite_reads_first_meta_line() {
    let ex = vec!["openai".to_string()];
    assert!(session_file_needs_provider_rewrite(&session_text(1, "ikun"), "ha-shared", &ex).unwrap());
    assert!(!session_file_needs_provider_rewrite(&session_text(0, "openai"), "ha-shared", &ex).unwrap());
    assert!(!session_file_needs_provider_rewrite(&session_text(4, "ha-shared"), "ha-shared", &ex).unwrap());
    assert!(!session_file_needs_provider_rewrite("{\"type\":\"event_msg\"}\n", "ha-shared", &ex).unwrap());
    assert!(session_file_needs_provider_rewrite("not json\n", "ha-shared", &ex).is_err());
    assert!(!session_file_needs_provider_rewrite(
        "{\"type\":\"session_meta\",\"payload\":{\"model_provider\":7}}\nnot json",
        "ha-shared",
        &ex
    )
    .unwrap());
}

#[test]
fn session_text_rewrite_moves_provider() {
    let ex = vec!["openai".to_string()];
    let (text, changed) = rewrite_provider_session_text(&session_text(1, "ikun"), "ha-shared", &ex).unwrap();
    assert!(changed);
    assert_eq!(
        text,
        "{\"payload\":{\"id\":\"thread-1\",\"model_provider\":\"ha-shared\"},\"type\":\"session_meta\"}\n{\"type\":\"event_msg\",\"payload\":{\"type\":\"agent_message\"}}\n"
    );
    let (same, changed) = rewrite_provider_session_text(&session_text(0, "openai"), "ha-shared", &ex).unwrap();
    assert!(!changed);
    assert_eq!(same, session_text(0, "openai"));
    let (again, changed_again) = rewrite_provider_session_text(&text, "ha-shared", &ex).unwrap();
    assert!(!changed_again);
    assert_eq!(again, text);
    let (crlf, _) = rewrite_provider_session_text("a\r\n\r\n", "x", &ex).unwrap_or_default();
    assert_eq!(crlf, "");
    assert!(rewrite_provider_session_text("{\"a\":1}\n\nnope", "x", &ex).is_err());
    let (blank, changed) = rewrite_provider_session_text("{\"a\":1}\r\n  \n{\"b\":2}", "x", &ex).unwrap();
    assert!(!changed);
    assert_eq!(blank, "{\"a\":1}\n  \n{\"b\":2}");
}

#[test]
fn session_files_are_deduplicated_and_sorted() {
    let threads = vec![p("/h/sessions/b.jsonl"), p(""), p("/h/sessions/a.jsonl")];
    let found = vec![p("/h/sessions/a.jsonl"), p("/h/sessions/c.jsonl")];
    let files: Vec<String> = provider_rewrite_session_files(&threads, &found)
        .iter()
        .map(|f| f.to_text())
        .collect();
    assert_eq!(files, vec!["/h/sessions/a.jsonl", "/h/sessions/b.jsonl", "/h/sessions/c.jsonl"]);
}

#[test]
fn backups_keep_relative_layout() {
    let home = p("/h");
    let dir = p("/h/state_5.sqlite.provider-rewrite-T.sessions");
    assert_eq!(
        session_backup_path(&home, &dir, &p("/h/sessions/2026/a.jsonl")).to_text(),
        "/h/state_5.sqlite.provider-rewrite-T.sessions/sessions/2026/a.jsonl"
    );
    assert_eq!(
        session_backup_path(&home, &dir, &p("/elsewhere/b.jsonl")).to_text(),
        "/h/state_5.sqlite.provider-rewrite-T.sessions/b.jsonl"
    );
}

#[test]
fn rewrite_paths_and_refusals() {
    let home = p("/home/u");
    let (codex_home, database) = provider_rewrite_paths(&options("ha-shared", &[], false), Some(&home)).unwrap();
    assert_eq!(codex_home.to_text(), "/home/u/.codex");
    assert_eq!(database.to_text(), "/home/u/.codex/state_5.sqlite");
    let mut custom = options("x", &[], false);
    custom.database = Some("~/db.sqlite".to_string());
    assert_eq!(provider_rewrite_paths(&custom, Some(&home)).unwrap().1.to_text(), "/home/u/db.sqlite");
    let err = provider_rewrite_paths(&options("  ", &[], false), Some(&home)).unwrap_err();
    assert_eq!(err, ProviderRewriteError::EmptyTarget);
    assert_eq!(err.message(), "ProviderRewriteInvalid: --to must not be empty");
    let missing = check_database(&database, false).unwrap_err();
    assert_eq!(missing.message(), "ProviderRewriteMissing: /home/u/.codex/state_5.sqlite does not exist");
    assert!(check_database(&database, true).is_ok());
    assert_eq!(ProviderRewriteError::InvalidRow("r".to_string()).message(), "ProviderRewriteInvalidRow: r");
}

#[test]
fn rewrite_dry_run_writes_nothing() {
    let providers = parse_provider_counts("ikun\t1\ntoken\t1\n").unwrap();
    let files = vec![p("/h/sessions/1.jsonl"), p("/h/sessions/2.jsonl")];
    let plan = rewrite_plan(&options("ha-shared", &["openai"], true), p("/h/state_5.sqlite"), providers, &files, "20260602T000000");
    assert!(!plan.apply);
    assert_eq!(plan.summary.changed, 2);
    assert_eq!(plan.summary.session_files_changed, 2);
    assert_eq!(plan.summary.excluded, vec!["openai".to_string()]);
    assert!(plan.summary.backup.is_none());
    assert!(plan.summary.session_backup_dir.is_none());
}

#[test]
fn rewrite_names_backups_after_stamp() {
    let providers = parse_provider_counts("ikun\t2\ntoken\t1\n").unwrap();
    let plan = rewrite_plan(&options("ha-shared", &["openai"], false), p("/h/state_5.sqlite"), providers, &Vec::new(), "20260602T010203");
    assert!(plan.apply);
    assert_eq!(plan.summary.changed, 3);
    assert_eq!(plan.summary.backup.unwrap().to_text(), "/h/state_5.sqlite.provider-rewrite-20260602T010203.bak");
    assert_eq!(
        plan.summary.session_backup_dir.unwrap().to_text(),
        "/h/state_5.sqlite.provider-rewrite-20260602T010203.sessions"
    );
    let idle = rewrite_plan(&options("x", &[], false), p("/h/db"), Vec::new(), &Vec::new(), "T");
    assert!(!idle.apply);
}

#[test]
fn count_errors_carry_the_count() {
    let err = ProviderRewriteError::from_count_error(ProviderCountError::InvalidCount("x".to_string()));
    assert_eq!(err, ProviderRewriteError::InvalidCount("x".to_string()));
    assert_eq!(err.message(), "x");
    let row = ProviderRewriteError::from_count_error(ProviderCountError::InvalidRow("r".to_string()));
    assert_eq!(row.message(), "ProviderRewriteInvalidRow: r");
}

#[test]
fn one_line_is_rewritten_or_kept() {
    let ex = vec!["openai".to_string()];
    let line = "{\"type\":\"session_meta\",\"payload\":{\"model_provider\":\"token\",\"z\":[1,2.5,null]}}";
    assert_eq!(
        rewrite_provider_session_value(line, "ha-shared", &ex).unwrap(),
        Some("{\"payload\":{\"model_provider\":\"ha-shared\",\"z\":[1,2.5,null]},\"type\":\"session_meta\"}".to_string())
    );
    let excluded = "{\"type\":\"session_meta\",\"payload\":{\"model_provider\":\"openai\"}}";
    assert_eq!(rewrite_provider_session_value(excluded, "ha-shared", &ex).unwrap(), None);
    let other = "{\"type\":\"turn\",\"payload\":{\"model_provider\":\"token\"}}";
    assert_eq!(rewrite_provider_session_value(other, "ha-shared", &ex).unwrap(), None);
    let no_payload = "{\"type\":\"session_meta\",\"payload\":\"x\"}";
    assert_eq!(rewrite_provider_session_value(no_payload, "ha-shared", &ex).unwrap(), None);
    assert!(rewrite_provider_session_value("{", "ha-shared", &ex).is_err());
}

#[test]
fn backups_are_stamped_with_the_utc_time() {
    let providers = parse_provider_counts("ikun\t2\n").unwrap();
    let plan = rewrite_providers(
        &options("ha-shared", &[], false),
        p("/h/state_5.sqlite"),
        providers,
        &Vec::new(),
        1_700_000_000,
    )
    .unwrap();
    assert!(plan.apply);
    assert_eq!(
        plan.summary.backup.unwrap().to_text(),
        "/h/state_5.sqlite.provider-rewrite-20231114T221320.bak"
    );
    assert_eq!(
        plan.summary.session_backup_dir.unwrap().to_text(),
        "/h/state_5.sqlite.provider-rewrite-20231114T221320.sessions"
    );
    let epoch = rewrite_providers(
        &options("ha-shared", &[], false),
        p("/h/db"),
        Vec::new(),
        &vec![p("/h/sessions/a.jsonl")],
        0,
    )
    .unwrap();
    assert_eq!(
        epoch.summary.backup.unwrap().to_text(),
        "/h/db.provider-rewrite-19700101T000000.bak"
    );
}

#[test]
fn dry_run_needs_no_stamp() {
    let providers = parse_provider_counts("ikun\t2\n").unwrap();
    let plan = rewrite_providers(
        &options("ha-shared", &[], true),
        p("/h/state_5.sqlite"),
        providers,
        &Vec::new(),
        i64::MAX,
    )
    .unwrap();
    assert!(!plan.apply);
    assert!(plan.summary.backup.is_none());
    let far = rewrite_providers(
        &options("ha-shared", &[], false),
        p("/h/state_5.sqlite"),
        parse_provider_counts("ikun\t2\n").unwrap(),
        &Vec::new(),
        i64::MAX,
    );
    assert!(far.is_none());
}

#[test]
fn crlf_session_log_settles_after_one_rewrite() {
    let ex: Vec<String> = Vec::new();
    let crlf = "{\"type\":\"session_meta\",\"payload\":{\"model_provider\":\"ikun\"}}\r\n{\"type\":\"turn\"}\r\n";
    let (once, changed) = rewrite_provider_session_text(crlf, "ha-shared", &ex).unwrap();
    assert!(changed);
    assert_eq!(
        once,
        "{\"payload\":{\"model_provider\":\"ha-shared\"},\"type\":\"session_meta\"}\n{\"type\":\"turn\"}\n"
    );
    let (twice, changed_again) = rewrite_provider_session_text(&once, "ha-shared", &ex).unwrap();
    assert!(!changed_again);
    assert_eq!(twice, once);
}

#[test]
fn rewrite_settles_where_a_carriage_return_goes_with_its_line() {
    let ex: Vec<String> = Vec::new();
    let text = "{\"type\":\"session_meta\",\"payload\":{\"model_provider\":\"ikun\"}}\r\r\n{\"a\":1}\r";
    let (once, changed) = rewrite_provider_session_text(text, "ha-shared", &ex).unwrap();
    assert!(changed);
    assert_eq!(
        once,
        "{\"payload\":{\"model_provider\":\"ha-shared\"},\"type\":\"session_meta\"}\n{\"a\":1}\r"
    );
    let (twice, changed_again) = rewrite_provider_session_text(&once, "ha-shared", &ex).unwrap();
    assert!(!changed_again);
    assert_eq!(twice, once);
}

#[test]
fn meta_line_decision_after_lookup() {
    let ex = vec!["openai".to_string()];
    let meta = Some("session_meta".to_string());
    assert!(is_session_meta(&meta));
    assert!(!is_session_meta(&Some("turn".to_string())));
    assert!(meta_line_moves(&meta, &Some(Some("ikun".to_string())), "ha-shared", &ex));
    assert!(!meta_line_moves(&meta, &Some(Some("openai".to_string())), "ha-shared", &ex));
    assert!(!meta_line_moves(&meta, &Some(Some("ha-shared".to_string())), "ha-shared", &ex));
    assert!(!meta_line_moves(&meta, &Some(None), "ha-shared", &ex));
    assert!(!meta_line_moves(&None, &Some(Some("ikun".to_string())), "ha-shared", &ex));
}

#[test]
fn backup_paths_keep_the_database_text() {
    let plan = rewrite_plan(
        &options("ha-shared", &[], false),
        p("/h/./state_5.sqlite"),
        parse_provider_counts("ikun\t1\n").unwrap(),
        &Vec::new(),
        "T",
    );
    let want = std::path::Path::new("/h/./state_5.sqlite")
        .with_file_name("state_5.sqlite.provider-rewrite-T.bak");
    assert_eq!(plan.summary.backup.clone().unwrap().to_text(), want.to_string_lossy());
    assert_eq!(plan.summary.database.to_text(), "/h/./state_5.sqlite");
    assert_eq!(
        sqlite3_backup_command(&plan.summary.backup.unwrap()),
        format!(".backup '{}'", want.to_string_lossy())
    );
}
