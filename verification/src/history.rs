//! Migrating the history of one Codex home into another.
use vstd::prelude::*;

use crate::jsonl::{file_text, fresh_lines, lemma_second_merge_adds_nothing, merged_text, JsonlPlan};
use crate::text::jsonl_lines;
use crate::paths::{join_paths, parse_path, path_text, push_text, PathModel, PathPart};
use crate::sessions::{action_for, plan_views, SessionAction, SessionPlan, SessionPlanView};
use crate::text::{
    chars_of, copy_strings, decimal, decimal_chars, join, join_chars, push_all, string_from, views,
};

verus! {

/// The home directory that a path which starts with `~` stands for.
pub open spec fn expanded_path(t: Seq<char>, home: Option<Seq<PathPart>>) -> Seq<PathPart> {
    if t == seq!['~'] {
        match home {
            Some(h) => h,
            None => parse_path(t),
        }
    } else if t.len() >= 2 && t[0] == '~' && t[1] == '/' {
        match home {
            Some(h) => join_paths(h, parse_path(t.skip(2))),
            None => parse_path(t),
        }
    } else {
        parse_path(t)
    }
}

pub open spec fn home_view(home: Option<&PathModel>) -> Option<Seq<PathPart>> {
    match home {
        Some(h) => Some(h@),
        None => None,
    }
}

pub open spec fn home_text(home: Option<&PathModel>) -> Option<Seq<char>> {
    match home {
        Some(h) => Some(h.text@),
        None => None,
    }
}

/// The text of `expand_user_path`: the home directory's text for `~`, the rest pushed
/// onto it for `~/rest` (`PathBuf::join`), and the text as it is otherwise or when
/// the home directory is unknown.
pub open spec fn expanded_text(t: Seq<char>, home: Option<Seq<char>>) -> Seq<char> {
    if t == seq!['~'] {
        match home {
            Some(h) => h,
            None => t,
        }
    } else if t.len() >= 2 && t[0] == '~' && t[1] == '/' {
        match home {
            Some(h) => push_text(h, t.skip(2)),
            None => t,
        }
    } else {
        t
    }
}

/// `path` with a leading `~` standing for the home directory `home` (`None`: the
/// home directory is unknown, and the path stays as it is).
pub fn expand_user_path(path: &str, home: Option<&PathModel>) -> (r: PathModel)
    ensures
        r@ == expanded_path(path@, home_view(home)),
        r.text@ == expanded_text(path@, home_text(home)),
{
    let t = chars_of(path);
    if t.len() == 1 && t[0] == '~' {
        assert(t@ =~= seq!['~']);
        return match home {
            Some(h) => h.duplicate(),
            None => PathModel::parse_chars(&t),
        };
    }
    assert(t@ != seq!['~']);
    if t.len() >= 2 && t[0] == '~' && t[1] == '/' {
        match home {
            Some(h) => {
                let mut rest: Vec<char> = Vec::new();
                let mut i: usize = 2;
                while i < t.len()
                    invariant
                        2 <= i <= t@.len(),
                        rest@ == t@.subrange(2, i as int),
                    decreases t@.len() - i,
                {
                    rest.push(t[i]);
                    i = i + 1;
                    assert(rest@ =~= t@.subrange(2, i as int));
                }
                assert(rest@ =~= t@.skip(2));
                h.join(&PathModel::parse_chars(&rest))
            },
            None => PathModel::parse_chars(&t),
        }
    } else {
        PathModel::parse_chars(&t)
    }
}

/// Where Codex keeps its files: `$CODEX_HOME` when it is set, else `.codex` in the
/// home directory (or in `.` when that is unknown).
pub open spec fn codex_home_path(env: Option<Seq<char>>, home: Option<Seq<PathPart>>) -> Seq<PathPart> {
    match env {
        Some(e) => parse_path(e),
        None => join_paths(
            match home {
                Some(h) => h,
                None => parse_path(seq!['.']),
            },
            parse_path(".codex"@),
        ),
    }
}

/// The text of the Codex home: `$CODEX_HOME` when it is set, else `.codex` pushed onto
/// the home directory (or onto `.`).
pub open spec fn codex_home_text(env: Option<Seq<char>>, home: Option<Seq<char>>) -> Seq<char> {
    match env {
        Some(e) => e,
        None => push_text(
            match home {
                Some(h) => h,
                None => seq!['.'],
            },
            ".codex"@,
        ),
    }
}

/// The Codex home from the value of `CODEX_HOME` (`None`: not set) and the home
/// directory (`default_codex_home`).
pub fn default_codex_home(codex_home_var: Option<&str>, home: Option<&PathModel>) -> (r: PathModel)
    ensures
        r@ == codex_home_path(
            match codex_home_var {
                Some(e) => Some(e@),
                None => None,
            },
            home_view(home),
        ),
        r.text@ == codex_home_text(
            match codex_home_var {
                Some(e) => Some(e@),
                None => None,
            },
            home_text(home),
        ),
{
    match codex_home_var {
        Some(e) => PathModel::parse(e),
        None => {
            let base = match home {
                Some(h) => h.duplicate(),
                None => {
                    let mut dot: Vec<char> = Vec::new();
                    dot.push('.');
                    assert(dot@ =~= seq!['.']);
                    PathModel::parse_chars(&dot)
                },
            };
            base.join(&PathModel::parse(".codex"))
        },
    }
}

// ---------------------------------------------------------------------------
// Migration
// ---------------------------------------------------------------------------

/// What the user asked to migrate: the source and target homes as given, and whether
/// to write anything.
#[derive(Debug, Clone, Default, PartialEq, Eq)]
pub struct MigrationOptions {
    pub from: String,
    pub to: String,
    pub dry_run: bool,
}

/// What a migration did (or, in a dry run, would do).
#[derive(Debug, Clone, Default, PartialEq, Eq)]
pub struct MigrationSummary {
    pub from: PathModel,
    pub to: PathModel,
    pub dry_run: bool,
    pub history_added: usize,
    pub history_existing: usize,
    pub session_index_added: usize,
    pub session_index_existing: usize,
    pub sessions_copied: usize,
    pub sessions_skipped: usize,
    pub session_conflicts: Vec<String>,
}

/// Why a migration is refused.
#[derive(Debug, Clone, PartialEq, Eq)]
pub enum HistoryError {
    /// The source and target homes are the same path.
    SameHome,
    /// The source home does not exist.
    Missing(PathModel),
    /// The source home is not a directory.
    NotDirectory(PathModel),
    /// Session files (paths relative to `sessions/`) that the target holds with other
    /// contents.
    Conflict(Vec<String>),
}

/// The two homes of a migration, with `~` expanded; refused when they are the same.
pub fn migration_homes(options: &MigrationOptions, home: Option<&PathModel>) -> (r: Result<
    (PathModel, PathModel),
    HistoryError,
>)
    ensures
        match r {
            Ok((from, to)) => {
                &&& from@ == expanded_path(options.from@, home_view(home))
                &&& to@ == expanded_path(options.to@, home_view(home))
                &&& from.text@ == expanded_text(options.from@, home_text(home))
                &&& to.text@ == expanded_text(options.to@, home_text(home))
                &&& from@ != to@
            },
            Err(e) => e == HistoryError::SameHome && expanded_path(options.from@, home_view(home))
                == expanded_path(options.to@, home_view(home)),
        },
{
    let from = expand_user_path(options.from.as_str(), home);
    let to = expand_user_path(options.to.as_str(), home);
    if from.same(&to) {
        return Err(HistoryError::SameHome);
    }
    Ok((from, to))
}

/// The source home must exist and be a directory.
pub fn check_migration_source(from: &PathModel, exists: bool, is_dir: bool) -> (r: Result<
    (),
    HistoryError,
>)
    ensures
        exists && is_dir <==> r is Ok,
        r matches Err(HistoryError::Missing(p)) ==> !exists && p@ == from@ && p.text@ == from.text@,
        r matches Err(HistoryError::NotDirectory(p)) ==> exists && !is_dir && p@ == from@ && p.text@
            == from.text@,
        r matches Err(e) ==> e is Missing || e is NotDirectory,
{
    if !exists {
        return Err(HistoryError::Missing(from.duplicate()));
    }
    if !is_dir {
        return Err(HistoryError::NotDirectory(from.duplicate()));
    }
    Ok(())
}

/// How many plans have the action `a`.
pub open spec fn count_action(v: Seq<SessionPlanView>, a: SessionAction) -> nat
    decreases v.len(),
{
    if v.len() == 0 {
        0
    } else {
        count_action(v.drop_last(), a) + if v.last().action == a {
            1nat
        } else {
            0nat
        }
    }
}

/// The texts of the relative paths of the conflicting plans, in order.
pub open spec fn conflict_paths(v: Seq<SessionPlanView>) -> Seq<Seq<char>>
    decreases v.len(),
{
    if v.len() == 0 {
        seq![]
    } else {
        conflict_paths(v.drop_last()) + if v.last().action == SessionAction::Conflict {
            seq![path_text(v.last().relative_path)]
        } else {
            seq![]
        }
    }
}

/// The (source, target) of each plan marked `Copy`, in order.
pub open spec fn copy_pairs(v: Seq<SessionPlanView>) -> Seq<(Seq<PathPart>, Seq<PathPart>)>
    decreases v.len(),
{
    if v.len() == 0 {
        seq![]
    } else {
        copy_pairs(v.drop_last()) + if v.last().action == SessionAction::Copy {
            seq![(v.last().source, v.last().target)]
        } else {
            seq![]
        }
    }
}

pub open spec fn pair_views(v: Seq<(PathModel, PathModel)>) -> Seq<(Seq<PathPart>, Seq<PathPart>)> {
    v.map_values(|c: (PathModel, PathModel)| (c.0@, c.1@))
}

/// What a migration does: its summary, whether the caller writes, and what it
/// writes: the lines to append to `history.jsonl` and to `session_index.jsonl`, and
/// the session files to copy, as (source, target). In a dry run nothing is written.
#[derive(Debug, Clone, PartialEq, Eq)]
pub struct MigrationPlan {
    pub summary: MigrationSummary,
    pub apply: bool,
    pub history_lines: Vec<String>,
    pub session_index_lines: Vec<String>,
    pub copies: Vec<(PathModel, PathModel)>,
}

proof fn lemma_count_action_bound(v: Seq<SessionPlanView>, a: SessionAction)
    ensures
        count_action(v, a) <= v.len(),
    decreases v.len(),
{
    if v.len() > 0 {
        lemma_count_action_bound(v.drop_last(), a);
    }
}

/// The outcome of a migration from the plans (`migrate`): the counts of the two
/// JSONL merges and of the session actions; refused, with the conflicting session
/// files in plan order, when any session file conflicts. Unless it is a dry run, the
/// caller appends the planned lines and copies the sessions marked `Copy`; in a dry
/// run the plan holds nothing to write.
pub fn migrate(
    from: PathModel,
    to: PathModel,
    dry_run: bool,
    history: &JsonlPlan,
    session_index: &JsonlPlan,
    sessions: &Vec<SessionPlan>,
) -> (r: Result<MigrationPlan, HistoryError>)
    ensures
        match r {
            Ok(p) => {
                let s = p.summary;
                &&& conflict_paths(plan_views(sessions@)).len() == 0
                &&& s.from == from
                &&& s.to == to
                &&& s.dry_run == dry_run
                &&& s.history_added == history.added@.len()
                &&& s.history_existing == history.existing
                &&& s.session_index_added == session_index.added@.len()
                &&& s.session_index_existing == session_index.existing
                &&& s.sessions_copied == count_action(plan_views(sessions@), SessionAction::Copy)
                &&& s.sessions_skipped == count_action(plan_views(sessions@), SessionAction::Skip)
                &&& s.session_conflicts@.len() == 0
                &&& p.apply == !dry_run
                &&& p.history_lines@ == (if dry_run { Seq::<String>::empty() } else { history.added@ })
                &&& p.session_index_lines@ == (if dry_run {
                    Seq::<String>::empty()
                } else {
                    session_index.added@
                })
                &&& pair_views(p.copies@) == (if dry_run {
                    Seq::empty()
                } else {
                    copy_pairs(plan_views(sessions@))
                })
            },
            Err(e) => {
                &&& e matches HistoryError::Conflict(list)
                &&& list@.map_values(|s: String| s@) == conflict_paths(plan_views(sessions@))
                &&& list@.len() > 0
            },
        },
{
    let ghost pv = plan_views(sessions@);
    let mut copied: usize = 0;
    let mut skipped: usize = 0;
    let mut conflicts: Vec<String> = Vec::new();
    let mut copies: Vec<(PathModel, PathModel)> = Vec::new();
    let mut i: usize = 0;
    assert(pv.take(0) =~= Seq::<SessionPlanView>::empty());
    assert(pair_views(copies@) =~= copy_pairs(pv.take(0)));
    while i < sessions.len()
        invariant
            i <= sessions@.len(),
            pv == plan_views(sessions@),
            copied == count_action(pv.take(i as int), SessionAction::Copy),
            skipped == count_action(pv.take(i as int), SessionAction::Skip),
            conflicts@.map_values(|s: String| s@) == conflict_paths(pv.take(i as int)),
            pair_views(copies@) == copy_pairs(pv.take(i as int)),
        decreases sessions@.len() - i,
    {
        let ghost t1 = pv.take(i + 1);
        assert(t1.drop_last() =~= pv.take(i as int));
        assert(t1.last() == sessions@[i as int]@);
        proof {
            lemma_count_action_bound(pv.take(i as int), SessionAction::Copy);
            lemma_count_action_bound(pv.take(i as int), SessionAction::Skip);
        }
        match sessions[i].action {
            SessionAction::Copy => {
                copied = copied + 1;
                let ghost before = pair_views(copies@);
                let pair = (sessions[i].source.duplicate(), sessions[i].target.duplicate());
                let ghost pairv = (pair.0@, pair.1@);
                copies.push(pair);
                assert(pair_views(copies@) =~= before.push(pairv));
            },
            SessionAction::Skip => {
                skipped = skipped + 1;
            },
            SessionAction::Conflict => {
                let text = sessions[i].relative_path.component_text();
                let ghost before = conflicts@.map_values(|s: String| s@);
                let ghost tv = text@;
                conflicts.push(text);
                assert(conflicts@.map_values(|s: String| s@) =~= before.push(tv));
            },
        }
        i = i + 1;
    }
    assert(pv.take(sessions@.len() as int) =~= pv);
    if conflicts.len() > 0 {
        return Err(HistoryError::Conflict(conflicts));
    }
    let summary = MigrationSummary {
        from,
        to,
        dry_run,
        history_added: history.added.len(),
        history_existing: history.existing,
        session_index_added: session_index.added.len(),
        session_index_existing: session_index.existing,
        sessions_copied: copied,
        sessions_skipped: skipped,
        session_conflicts: Vec::new(),
    };
    if dry_run {
        let none: Vec<(PathModel, PathModel)> = Vec::new();
        assert(pair_views(none@) =~= Seq::empty());
        return Ok(
            MigrationPlan {
                summary,
                apply: false,
                history_lines: Vec::new(),
                session_index_lines: Vec::new(),
                copies: none,
            },
        );
    }
    Ok(
        MigrationPlan {
            summary,
            apply: true,
            history_lines: copy_strings(&history.added),
            session_index_lines: copy_strings(&session_index.added),
            copies,
        },
    )
}

/// The text of a refusal.
pub open spec fn history_error_text(e: HistoryError) -> Seq<char> {
    match e {
        HistoryError::SameHome => "HistoryInvalid: --from and --to must be different Codex homes"@,
        HistoryError::Missing(p) => "HistoryMissing: "@ + p.text@ + " does not exist"@,
        HistoryError::NotDirectory(p) => "HistoryInvalid: "@ + p.text@ + " is not a directory"@,
        HistoryError::Conflict(list) => "HistoryConflict: "@ + decimal(list@.len()) + " session file(s) already exist with different contents: "@
            + join(list@.map_values(|s: String| s@), ", "@),
    }
}

impl HistoryError {
    /// The message that reports this refusal.
    pub fn message(&self) -> (r: String)
        ensures
            r@ == history_error_text(*self),
    {
        match self {
            HistoryError::SameHome => {
                string_from(&chars_of("HistoryInvalid: --from and --to must be different Codex homes"))
            },
            HistoryError::Missing(p) => {
                let mut r = chars_of("HistoryMissing: ");
                push_all(&mut r, &chars_of(p.to_text().as_str()));
                push_all(&mut r, &chars_of(" does not exist"));
                string_from(&r)
            },
            HistoryError::NotDirectory(p) => {
                let mut r = chars_of("HistoryInvalid: ");
                push_all(&mut r, &chars_of(p.to_text().as_str()));
                push_all(&mut r, &chars_of(" is not a directory"));
                string_from(&r)
            },
            HistoryError::Conflict(list) => {
                let mut r = chars_of("HistoryConflict: ");
                push_all(&mut r, &decimal_chars(list.len()));
                push_all(&mut r, &chars_of(" session file(s) already exist with different contents: "));
                let mut parts: Vec<Vec<char>> = Vec::new();
                let mut i: usize = 0;
                while i < list.len()
                    invariant
                        i <= list@.len(),
                        views(parts@) == list@.map_values(|s: String| s@).take(i as int),
                    decreases list@.len() - i,
                {
                    let c = chars_of(list[i].as_str());
                    let ghost before = views(parts@);
                    let ghost cv = c@;
                    parts.push(c);
                    assert(views(parts@) =~= before.push(cv));
                    i = i + 1;
                    assert(list@.map_values(|s: String| s@).take(i as int) =~= list@.map_values(
                        |s: String| s@,
                    ).take(i - 1).push(cv));
                }
                assert(list@.map_values(|s: String| s@).take(list@.len() as int) =~= list@.map_values(
                    |s: String| s@,
                ));
                push_all(&mut r, &join_chars(&parts, &chars_of(", ")));
                string_from(&r)
            },
        }
    }
}


/// Every session file is counted once: the copied, the skipped and the conflicting
/// add up to all of them.
pub proof fn lemma_sessions_counted_once(v: Seq<SessionPlanView>)
    ensures
        count_action(v, SessionAction::Copy) + count_action(v, SessionAction::Skip)
            + conflict_paths(v).len() == v.len(),
    decreases v.len(),
{
    if v.len() > 0 {
        lemma_sessions_counted_once(v.drop_last());
    }
}

/// A session file's copy in the target after a migration: the source's bytes when
/// the migration copied it, else what the target held.
pub open spec fn copied_target(source: Seq<u8>, target: Option<Seq<u8>>) -> Option<Seq<u8>> {
    if action_for(source, target) == SessionAction::Copy {
        Some(source)
    } else {
        target
    }
}

/// A second migration adds nothing: once a migration that was not refused has
/// appended its lines to both logs and copied its session files, a migration from the
/// same source finds no line to add to either log and skips every session file.
pub proof fn lemma_second_migration_adds_nothing(
    history: Seq<char>,
    history_target: Option<Seq<char>>,
    session_index: Seq<char>,
    session_index_target: Option<Seq<char>>,
    sessions: Seq<Seq<u8>>,
    session_targets: Seq<Option<Seq<u8>>>,
)
    requires
        sessions.len() == session_targets.len(),
        forall|i: int|
            0 <= i < sessions.len() ==> action_for(#[trigger] sessions[i], session_targets[i])
                != SessionAction::Conflict,
    ensures
        fresh_lines(
            jsonl_lines(file_text(merged_text(history_target, history))),
            jsonl_lines(history),
        ).len() == 0,
        fresh_lines(
            jsonl_lines(file_text(merged_text(session_index_target, session_index))),
            jsonl_lines(session_index),
        ).len() == 0,
        forall|i: int|
            0 <= i < sessions.len() ==> action_for(
                #[trigger] sessions[i],
                copied_target(sessions[i], session_targets[i]),
            ) == SessionAction::Skip,
{
    lemma_second_merge_adds_nothing(history_target, history);
    lemma_second_merge_adds_nothing(session_index_target, session_index);
}

/// A migration whose session files are all skipped copies none and meets no conflict.
pub proof fn lemma_all_skipped(v: Seq<SessionPlanView>)
    requires
        forall|i: int| 0 <= i < v.len() ==> (#[trigger] v[i]).action == SessionAction::Skip,
    ensures
        count_action(v, SessionAction::Copy) == 0,
        count_action(v, SessionAction::Skip) == v.len(),
        conflict_paths(v).len() == 0,
        copy_pairs(v).len() == 0,
    decreases v.len(),
{
    if v.len() > 0 {
        let p = v.drop_last();
        assert forall|i: int| 0 <= i < p.len() implies (#[trigger] p[i]).action == SessionAction::Skip by {
            assert(p[i] == v[i]);
        }
        lemma_all_skipped(p);
        assert(v.last() == v[v.len() - 1]);
    }
}

} // verus!
