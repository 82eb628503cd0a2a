//! Moving the threads of a Codex home to another model provider.
use vstd::prelude::*;

use crate::history::{expand_user_path, expanded_path, expanded_text, home_text, home_view};
use crate::paths::{
    file_name_spec, join_paths, parse_path, path_views, push_text, sorted_unique_paths,
    strictly_sorted, strip_prefix_spec, with_file_name_spec, with_file_name_text, PathModel,
    PathPart,
};
use crate::sql::{ProviderCountError, ProviderRewriteProvider};
use crate::text::{chars_of, copy_strings, is_blank, push_all, string_from};

verus! {

/// What the user asked to rewrite.
#[derive(Debug, Clone, Default, PartialEq, Eq)]
pub struct ProviderRewriteOptions {
    /// The Codex home, as given (`~` allowed).
    pub codex_home: String,
    /// The state database, as given; `None`: `state_5.sqlite` in the Codex home.
    pub database: Option<String>,
    /// The provider that the threads move to.
    pub to: String,
    /// Providers whose threads stay where they are.
    pub exclude: Vec<String>,
    pub dry_run: bool,
}

/// What a provider rewrite did (or, in a dry run, would do).
#[derive(Debug, Clone, Default, PartialEq, Eq)]
pub struct ProviderRewriteSummary {
    pub database: PathModel,
    pub dry_run: bool,
    pub to: String,
    pub excluded: Vec<String>,
    pub changed: usize,
    pub backup: Option<PathModel>,
    pub session_backup_dir: Option<PathModel>,
    pub session_files_changed: usize,
    pub providers: Vec<ProviderRewriteProvider>,
}

/// Why a provider rewrite is refused.
#[derive(Debug, Clone, PartialEq, Eq)]
pub enum ProviderRewriteError {
    /// The target provider is blank.
    EmptyTarget,
    /// The state database does not exist.
    Missing(PathModel),
    /// A row of the count query has no tab.
    InvalidRow(String),
    /// A count of the count query is not a `usize`.
    InvalidCount(String),
}

/// The database that a rewrite works on: the one given, with `~` expanded, or
/// `state_5.sqlite` in the Codex home.
pub open spec fn database_path(
    options: ProviderRewriteOptions,
    codex_home: Seq<PathPart>,
    home: Option<Seq<PathPart>>,
) -> Seq<PathPart> {
    match options.database {
        Some(d) => expanded_path(d@, home),
        None => join_paths(codex_home, parse_path("state_5.sqlite"@)),
    }
}

/// The text of the database path: the one given, with `~` expanded, or
/// `state_5.sqlite` pushed onto the Codex home's text.
pub open spec fn database_text(
    options: ProviderRewriteOptions,
    codex_home: Seq<char>,
    home: Option<Seq<char>>,
) -> Seq<char> {
    match options.database {
        Some(d) => expanded_text(d@, home),
        None => push_text(codex_home, "state_5.sqlite"@),
    }
}

/// The Codex home and the database of a rewrite; refused when the target provider is
/// blank.
pub fn provider_rewrite_paths(options: &ProviderRewriteOptions, home: Option<&PathModel>) -> (r:
    Result<(PathModel, PathModel), ProviderRewriteError>)
    ensures
        is_blank(options.to@) <==> r is Err,
        r matches Err(e) ==> e == ProviderRewriteError::EmptyTarget,
        r matches Ok((codex_home, database)) ==> {
            &&& codex_home@ == expanded_path(options.codex_home@, home_view(home))
            &&& database@ == database_path(*options, codex_home@, home_view(home))
            &&& codex_home.text@ == expanded_text(options.codex_home@, home_text(home))
            &&& database.text@ == database_text(*options, codex_home.text@, home_text(home))
        },
{
    if crate::text::blank(&chars_of(options.to.as_str())) {
        return Err(ProviderRewriteError::EmptyTarget);
    }
    let codex_home = expand_user_path(options.codex_home.as_str(), home);
    let database = match &options.database {
        Some(d) => expand_user_path(d.as_str(), home),
        None => codex_home.join(&PathModel::parse("state_5.sqlite")),
    };
    Ok((codex_home, database))
}

/// The database must exist.
pub fn check_database(database: &PathModel, exists: bool) -> (r: Result<(), ProviderRewriteError>)
    ensures
        exists <==> r is Ok,
        r matches Err(e) ==> (e matches ProviderRewriteError::Missing(p) && p@ == database@
            && p.text@ == database.text@),
{
    if !exists {
        return Err(ProviderRewriteError::Missing(database.duplicate()));
    }
    Ok(())
}

impl ProviderRewriteError {
    /// The rewrite error for a count row that does not read.
    pub fn from_count_error(e: ProviderCountError) -> (r: ProviderRewriteError)
        ensures
            match e {
                ProviderCountError::InvalidRow(l) => r == ProviderRewriteError::InvalidRow(l),
                ProviderCountError::InvalidCount(c) => r == ProviderRewriteError::InvalidCount(c),
            },
    {
        match e {
            ProviderCountError::InvalidRow(l) => ProviderRewriteError::InvalidRow(l),
            ProviderCountError::InvalidCount(c) => ProviderRewriteError::InvalidCount(c),
        }
    }
}

/// The text of a refusal (for a count that does not read: the count, which the
/// caller reports with the integer parser's own message).
pub open spec fn rewrite_error_text(e: ProviderRewriteError) -> Seq<char> {
    match e {
        ProviderRewriteError::EmptyTarget => "ProviderRewriteInvalid: --to must not be empty"@,
        ProviderRewriteError::Missing(p) => "ProviderRewriteMissing: "@ + p.text@ + " does not exist"@,
        ProviderRewriteError::InvalidRow(l) => "ProviderRewriteInvalidRow: "@ + l@,
        ProviderRewriteError::InvalidCount(c) => c@,
    }
}

impl ProviderRewriteError {
    /// The message that reports this refusal.
    pub fn message(&self) -> (r: String)
        ensures
            r@ == rewrite_error_text(*self),
    {
        match self {
            ProviderRewriteError::EmptyTarget => string_from(
                &chars_of("ProviderRewriteInvalid: --to must not be empty"),
            ),
            ProviderRewriteError::Missing(p) => {
                let mut r = chars_of("ProviderRewriteMissing: ");
                push_all(&mut r, &chars_of(p.to_text().as_str()));
                push_all(&mut r, &chars_of(" does not exist"));
                string_from(&r)
            },
            ProviderRewriteError::InvalidRow(l) => {
                let mut r = chars_of("ProviderRewriteInvalidRow: ");
                push_all(&mut r, &chars_of(l.as_str()));
                string_from(&r)
            },
            ProviderRewriteError::InvalidCount(c) => c.clone(),
        }
    }
}

// ---------------------------------------------------------------------------
// The session files to rewrite
// ---------------------------------------------------------------------------

/// The session files that a rewrite visits (`provider_rewrite_session_files`): the
/// session files of the selected threads (those that name one) and the session logs
/// found under `sessions/` that need it, each once, in path order.
pub fn provider_rewrite_session_files(threads: &Vec<PathModel>, found: &Vec<PathModel>) -> (r: Vec<
    PathModel,
>)
    ensures
        strictly_sorted(path_views(r@)),
        forall|p: Seq<PathPart>|
            path_views(r@).contains(p) <==> (p.len() > 0 && path_views(threads@).contains(p))
                || path_views(found@).contains(p),
{
    let mut all: Vec<PathModel> = Vec::new();
    let mut i: usize = 0;
    while i < threads.len()
        invariant
            i <= threads@.len(),
            forall|p: Seq<PathPart>|
                path_views(all@).contains(p) <==> (p.len() > 0 && path_views(threads@).take(
                    i as int,
                ).contains(p)),
        decreases threads@.len() - i,
    {
        let ghost before = path_views(all@);
        let ghost t = path_views(threads@).take(i as int);
        let ghost tv = threads@[i as int]@;
        assert(path_views(threads@).take(i + 1) =~= t.push(tv));
        if !threads[i].is_empty() {
            all.push(threads[i].duplicate());
            assert(path_views(all@) =~= before.push(tv));
        }
        proof {
            assert forall|p: Seq<PathPart>|
                path_views(all@).contains(p) <==> (p.len() > 0 && t.push(tv).contains(p)) by {
                if t.push(tv).contains(p) {
                    let k = choose|k: int| 0 <= k < t.push(tv).len() && t.push(tv)[k] == p;
                    if k < t.len() {
                        assert(t[k] == p);
                    }
                }
                if t.contains(p) {
                    let k = choose|k: int| 0 <= k < t.len() && t[k] == p;
                    assert(t.push(tv)[k] == p);
                }
                if p == tv {
                    assert(t.push(tv)[t.len() as int] == p);
                }
                if tv.len() > 0 {
                    if path_views(all@).contains(p) {
                        let k = choose|k: int| 0 <= k < path_views(all@).len() && path_views(all@)[k] == p;
                        if k < before.len() {
                            assert(before[k] == p);
                        }
                    }
                    if before.contains(p) {
                        let k = choose|k: int| 0 <= k < before.len() && before[k] == p;
                        assert(path_views(all@)[k] == p);
                    }
                    assert(path_views(all@)[before.len() as int] == tv);
                }
            }
        }
        i = i + 1;
    }
    assert(path_views(threads@).take(threads@.len() as int) =~= path_views(threads@));
    let ghost first = path_views(all@);
    let mut j: usize = 0;
    assert(first + path_views(found@).take(0) =~= first);
    while j < found.len()
        invariant
            j <= found@.len(),
            path_views(all@) == first + path_views(found@).take(j as int),
        decreases found@.len() - j,
    {
        let ghost before = path_views(all@);
        let ghost fv = found@[j as int]@;
        all.push(found[j].duplicate());
        assert(path_views(all@) =~= before.push(fv));
        assert(first + path_views(found@).take(j + 1) =~= before.push(fv));
        j = j + 1;
    }
    assert(path_views(found@).take(found@.len() as int) =~= path_views(found@));
    let ghost all_v = path_views(all@);
    assert(all_v == first + path_views(found@));
    let r = sorted_unique_paths(all);
    assert forall|p: Seq<PathPart>|
        path_views(r@).contains(p) <==> (p.len() > 0 && path_views(threads@).contains(p))
            || path_views(found@).contains(p) by {
        let fs = path_views(found@);
        assert(path_views(r@).contains(p) <==> all_v.contains(p));
        if all_v.contains(p) {
            let k = choose|k: int| 0 <= k < all_v.len() && all_v[k] == p;
            if k < first.len() {
                assert(first[k] == p);
            } else {
                assert(fs[k - first.len()] == p);
            }
        }
        if first.contains(p) {
            let k = choose|k: int| 0 <= k < first.len() && first[k] == p;
            assert(all_v[k] == p);
        }
        if fs.contains(p) {
            let k = choose|k: int| 0 <= k < fs.len() && fs[k] == p;
            assert(all_v[first.len() + k] == p);
        }
        assert(first.contains(p) <==> (p.len() > 0 && path_views(threads@).contains(p)));
    }
    r
}

/// Where the backup of a session file goes: its path under the Codex home, placed
/// under the backup directory; or its file name there when it lies elsewhere
/// (`session_backup_path`).
pub open spec fn backup_path_of(
    codex_home: Seq<PathPart>,
    backup_dir: Seq<PathPart>,
    path: Seq<PathPart>,
) -> Seq<PathPart> {
    match strip_prefix_spec(path, codex_home) {
        Some(rel) => join_paths(backup_dir, rel),
        None => join_paths(
            backup_dir,
            match file_name_spec(path) {
                Some(n) => parse_path(n),
                None => seq![],
            },
        ),
    }
}

pub fn session_backup_path(codex_home: &PathModel, backup_dir: &PathModel, path: &PathModel) -> (r:
    PathModel)
    ensures
        r@ == backup_path_of(codex_home@, backup_dir@, path@),
{
    match path.strip_prefix(codex_home) {
        Some(rel) => backup_dir.join(&rel),
        None => {
            let name = match path.file_name() {
                Some(n) => PathModel::parse(n.as_str()),
                None => PathModel::empty(),
            };
            backup_dir.join(&name)
        },
    }
}

// ---------------------------------------------------------------------------
// The rewrite
// ---------------------------------------------------------------------------

/// The number of threads that the counts add up to.
pub open spec fn total_count(v: Seq<ProviderRewriteProvider>) -> nat
    decreases v.len(),
{
    if v.len() == 0 {
        0
    } else {
        total_count(v.drop_last()) + v.last().count as nat
    }
}

/// The sum of the counts, when it fits in a `usize`.
pub fn provider_total(providers: &Vec<ProviderRewriteProvider>) -> (r: Option<usize>)
    ensures
        r matches Some(n) ==> n == total_count(providers@),
        r is None ==> total_count(providers@) > usize::MAX,
{
    let mut sum: usize = 0;
    let mut i: usize = 0;
    while i < providers.len()
        invariant
            i <= providers@.len(),
            sum == total_count(providers@.take(i as int)),
        decreases providers@.len() - i,
    {
        assert(providers@.take(i + 1).drop_last() =~= providers@.take(i as int));
        let c = providers[i].count;
        if sum > usize::MAX - c {
            proof {
                lemma_total_count_grows(providers@, i as int + 1);
            }
            return None;
        }
        sum = sum + c;
        i = i + 1;
    }
    assert(providers@.take(providers@.len() as int) =~= providers@);
    Some(sum)
}

/// The sum of the counts, which fits in a `usize`.
fn count_sum(providers: &Vec<ProviderRewriteProvider>) -> (r: usize)
    requires
        total_count(providers@) <= usize::MAX,
    ensures
        r == total_count(providers@),
{
    let mut sum: usize = 0;
    let mut i: usize = 0;
    while i < providers.len()
        invariant
            i <= providers@.len(),
            sum == total_count(providers@.take(i as int)),
            total_count(providers@) <= usize::MAX,
        decreases providers@.len() - i,
    {
        assert(providers@.take(i + 1).drop_last() =~= providers@.take(i as int));
        proof {
            lemma_total_count_grows(providers@, i as int + 1);
        }
        sum = sum + providers[i].count;
        i = i + 1;
    }
    assert(providers@.take(providers@.len() as int) =~= providers@);
    sum
}

proof fn lemma_total_count_grows(v: Seq<ProviderRewriteProvider>, i: int)
    requires
        0 <= i <= v.len(),
    ensures
        total_count(v.take(i)) <= total_count(v),
    decreases v.len() - i,
{
    if i < v.len() {
        lemma_total_count_grows(v, i + 1);
        assert(v.take(i + 1).drop_last() =~= v.take(i));
    } else {
        assert(v.take(i) =~= v);
    }
}

/// What a rewrite does: its summary, and whether the caller writes (backs the
/// database up, rewrites the session files, updates the threads).
#[derive(Debug, Clone, PartialEq, Eq)]
pub struct ProviderRewritePlan {
    pub summary: ProviderRewriteSummary,
    pub apply: bool,
}

/// The file name of the database, or `state_5.sqlite` when it has none.
pub open spec fn database_name(database: Seq<PathPart>) -> Seq<char> {
    match file_name_spec(database) {
        Some(n) => n,
        None => "state_5.sqlite"@,
    }
}

/// The file name of a backup of the database taken at `stamp`:
/// `<name>.provider-rewrite-<stamp><suffix>`.
pub open spec fn backup_file_name(database: Seq<PathPart>, stamp: Seq<char>, suffix: Seq<char>) -> Seq<char> {
    database_name(database) + ".provider-rewrite-"@ + stamp + suffix
}

/// The backup of the database taken at `stamp`: `<name>.provider-rewrite-<stamp>.bak`
/// beside it.
pub open spec fn database_backup(database: Seq<PathPart>, stamp: Seq<char>) -> Seq<PathPart> {
    with_file_name_spec(database, database_name(database) + ".provider-rewrite-"@ + stamp + ".bak"@)
}

/// The directory for the backups of the session files:
/// `<name>.provider-rewrite-<stamp>.sessions` beside the database.
pub open spec fn sessions_backup(database: Seq<PathPart>, stamp: Seq<char>) -> Seq<PathPart> {
    with_file_name_spec(
        database,
        database_name(database) + ".provider-rewrite-"@ + stamp + ".sessions"@,
    )
}

fn backup_name(database: &PathModel, stamp: &str, suffix: &str) -> (r: String)
    ensures
        r@ == database_name(database@) + ".provider-rewrite-"@ + stamp@ + suffix@,
{
    let mut r = match database.file_name() {
        Some(n) => chars_of(n.as_str()),
        None => chars_of("state_5.sqlite"),
    };
    push_all(&mut r, &chars_of(".provider-rewrite-"));
    push_all(&mut r, &chars_of(stamp));
    push_all(&mut r, &chars_of(suffix));
    string_from(&r)
}


/// Whether a rewrite writes anything: not in a dry run, and not when there is no
/// thread and no session file to change.
pub open spec fn writes(dry_run: bool, changed: nat, files: nat) -> bool {
    !(dry_run || (changed == 0 && files == 0))
}

/// `p` is the plan of a rewrite asked for by `options` on `db`, for the counts
/// `providers` of the selected threads and `files` session files to visit, with the
/// backups named after `stamp` when it writes (their texts as
/// `Path::with_file_name` makes them from the database's text).
pub open spec fn is_rewrite_plan(
    p: ProviderRewritePlan,
    options: ProviderRewriteOptions,
    db: PathModel,
    providers: Seq<ProviderRewriteProvider>,
    files: nat,
    stamp: Seq<char>,
) -> bool {
    let database = db@;
    &&& p.summary.database == db
    &&& p.apply ==> (p.summary.backup matches Some(b) && b.text@ == with_file_name_text(
        db.text@,
        backup_file_name(database, stamp, ".bak"@),
    ))
    &&& p.apply ==> (p.summary.session_backup_dir matches Some(b) && b.text@ == with_file_name_text(
        db.text@,
        backup_file_name(database, stamp, ".sessions"@),
    ))
    &&& p.summary.dry_run == options.dry_run
    &&& p.summary.to@ == options.to@
    &&& p.summary.excluded@ == options.exclude@
    &&& p.summary.changed == total_count(providers)
    &&& p.summary.session_files_changed == files
    &&& p.summary.providers@ == providers
    &&& p.apply == writes(options.dry_run, total_count(providers), files)
    &&& p.apply ==> (p.summary.backup matches Some(b) && b@ == database_backup(database, stamp))
    &&& p.apply ==> (p.summary.session_backup_dir matches Some(b) && b@ == sessions_backup(
        database,
        stamp,
    ))
    &&& !p.apply ==> p.summary.backup is None && p.summary.session_backup_dir is None
}

/// The plan of a provider rewrite from the counts of the selected threads and the
/// session files to visit, with the two backup paths named after `stamp` when
/// anything is written. Nothing is written in a dry run, nor when there is no thread
/// and no session file to change.
pub fn rewrite_plan(
    options: &ProviderRewriteOptions,
    database: PathModel,
    providers: Vec<ProviderRewriteProvider>,
    session_files: &Vec<PathModel>,
    stamp: &str,
) -> (r: ProviderRewritePlan)
    requires
        total_count(providers@) <= usize::MAX,
    ensures
        is_rewrite_plan(r, *options, database, providers@, session_files@.len(), stamp@),
{
    let changed = count_sum(&providers);
    let apply = !(options.dry_run || (changed == 0 && session_files.len() == 0));
    let (backup, session_backup_dir) = if apply {
        let b = database.with_file_name(backup_name(&database, stamp, ".bak").as_str());
        let s = database.with_file_name(backup_name(&database, stamp, ".sessions").as_str());
        (Some(b), Some(s))
    } else {
        (None, None)
    };
    ProviderRewritePlan {
        summary: ProviderRewriteSummary {
            database,
            dry_run: options.dry_run,
            to: options.to.clone(),
            excluded: copy_strings(&options.exclude),
            changed,
            backup,
            session_backup_dir,
            session_files_changed: session_files.len(),
            providers,
        },
        apply,
    }
}

// ---------------------------------------------------------------------------
// The time stamp of the backups
// ---------------------------------------------------------------------------

/// The UTC date and time `secs` seconds after the Unix epoch, written with the
/// `strftime` pattern `fmt` as chrono writes it; `None` when chrono holds no such
/// date.
pub uninterp spec fn utc_format_text(secs: i64, fmt: Seq<char>) -> Option<Seq<char>>;

/// `chrono::DateTime::from_timestamp(secs, 0)` written with `DateTime::format(fmt)`
/// and `to_string`. The contract names the text. `from_timestamp` gives `None` only
/// past chrono's range of dates (years about 262,000 either side of year 0), so a
/// result is promised for the 10^12 seconds either side of the epoch. A pattern with
/// an unknown specifier makes `to_string` panic; the one pattern admitted is the one
/// that stamps the backups.
#[verifier::external_body]
fn utc_format(secs: i64, fmt: &str) -> (r: Option<String>)
    requires
        fmt@ == "%Y%m%dT%H%M%S"@,
    ensures
        match r {
            Some(s) => utc_format_text(secs, fmt@) == Some(s@),
            None => utc_format_text(secs, fmt@) is None,
        },
        -1_000_000_000_000 <= secs <= 1_000_000_000_000 ==> r is Some,
{
    match chrono::DateTime::from_timestamp(secs, 0) {
        Some(time) => Some(time.format(fmt).to_string()),
        None => None,
    }
}

/// The stamp of the backups of a rewrite started `now_secs` seconds after the Unix
/// epoch: its UTC date and time as `YYYYMMDDTHHMMSS` (empty when chrono holds no
/// such date).
pub open spec fn backup_stamp(now_secs: i64) -> Seq<char> {
    match utc_format_text(now_secs, "%Y%m%dT%H%M%S"@) {
        Some(s) => s,
        None => seq![],
    }
}

/// The outcome of a provider rewrite started at `now_secs` seconds after the Unix
/// epoch (`rewrite_providers`), from the counts of the selected threads and the
/// session files to visit: the summary, and whether the caller writes. When it
/// writes, the backups are named after the UTC time of `now_secs`; `None` only when
/// it would write and that time lies past the dates that chrono holds.
pub fn rewrite_providers(
    options: &ProviderRewriteOptions,
    database: PathModel,
    providers: Vec<ProviderRewriteProvider>,
    session_files: &Vec<PathModel>,
    now_secs: i64,
) -> (r: Option<ProviderRewritePlan>)
    requires
        total_count(providers@) <= usize::MAX,
    ensures
        r is None <==> writes(options.dry_run, total_count(providers@), session_files@.len())
            && utc_format_text(now_secs, "%Y%m%dT%H%M%S"@) is None,
        r matches Some(p) ==> is_rewrite_plan(
            p,
            *options,
            database,
            providers@,
            session_files@.len(),
            backup_stamp(now_secs),
        ),
        -1_000_000_000_000 <= now_secs <= 1_000_000_000_000 ==> r is Some,
{
    let changed = count_sum(&providers);
    if options.dry_run || (changed == 0 && session_files.len() == 0) {
        return Some(rewrite_plan(options, database, providers, session_files, ""));
    }
    match utc_format(now_secs, "%Y%m%dT%H%M%S") {
        Some(stamp) => Some(rewrite_plan(options, database, providers, session_files, stamp.as_str())),
        None => None,
    }
}

} // verus!
