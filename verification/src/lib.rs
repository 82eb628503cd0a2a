//! Codex history tools: merging the history of one Codex home into another, and
//! moving the threads of a Codex home to another model provider.
//!
//! The library decides; its caller reads and writes the files, runs `sqlite3` and
//! looks at the running processes, and hands the library what it found.
pub mod text;
pub mod paths;
pub mod sql;
pub mod jsonl;
pub mod session_log;
pub mod sessions;
pub mod history;
pub mod rewrite;
pub mod running;

pub use history::{
    check_migration_source, default_codex_home, expand_user_path, migrate, migration_homes,
    HistoryError, MigrationOptions, MigrationPlan, MigrationSummary,
};
pub use jsonl::{jsonl_append_text, jsonl_plan, JsonlPlan};
pub use paths::{Component, PathModel};
pub use rewrite::{
    check_database, provider_rewrite_paths, provider_rewrite_session_files, provider_total,
    rewrite_plan, rewrite_providers, session_backup_path, ProviderRewriteError, ProviderRewriteOptions,
    ProviderRewritePlan, ProviderRewriteSummary,
};
pub use running::{is_ignorable_codex_helper, running_codex_message};
pub use session_log::{
    is_session_meta, meta_line_moves, rewrite_provider_session_text,
    session_file_needs_provider_rewrite, SessionLogError,
};
pub use sessions::{session_action, session_paths, session_plan, SessionAction, SessionPlan};
pub use sql::{
    parse_provider_counts, provider_count_query, provider_rewrite_threads,
    provider_rewrite_where_clause, provider_threads_query, provider_update_query,
    sqlite3_backup_command, sqlite_quote, ProviderCountError, ProviderRewriteProvider,
};
