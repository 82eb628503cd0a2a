//! SQL text for the `sqlite3` shell, and what comes back from it.
use vstd::prelude::*;

use crate::paths::{parse_path, PathModel};
use crate::text::{
    chars_of, contains_text, first_index, join, join_chars, nonblank, occurs_at,
    nonblank_lines, parse_usize, parse_usize_chars, push_all, split_lines, string_from, views,
};

verus! {

// ---------------------------------------------------------------------------
// Quoting
// ---------------------------------------------------------------------------

/// `s` with each `'` doubled.
pub open spec fn double_quotes(s: Seq<char>) -> Seq<char>
    decreases s.len(),
{
    if s.len() == 0 {
        seq![]
    } else {
        double_quotes(s.drop_last()) + if s.last() == '\'' {
            seq!['\'', '\'']
        } else {
            seq![s.last()]
        }
    }
}

/// An SQL string literal that holds `s`: `'`, `s` with each `'` doubled, `'`.
pub open spec fn sql_quoted(s: Seq<char>) -> Seq<char> {
    seq!['\''] + double_quotes(s) + seq!['\'']
}

fn sql_quoted_chars(s: &Vec<char>) -> (r: Vec<char>)
    ensures
        r@ == sql_quoted(s@),
{
    let mut r: Vec<char> = Vec::new();
    r.push('\'');
    let mut i: usize = 0;
    while i < s.len()
        invariant
            i <= s@.len(),
            r@ == seq!['\''] + double_quotes(s@.take(i as int)),
        decreases s@.len() - i,
    {
        assert(s@.take(i + 1).drop_last() =~= s@.take(i as int));
        assert(s@.take(i + 1).last() == s@[i as int]);
        if s[i] == '\'' {
            r.push('\'');
            r.push('\'');
        } else {
            r.push(s[i]);
        }
        i = i + 1;
        assert(r@ =~= seq!['\''] + double_quotes(s@.take(i as int)));
    }
    assert(s@.take(s@.len() as int) =~= s@);
    r.push('\'');
    r
}

/// `value` as an SQL string literal.
pub fn sqlite_quote(value: &str) -> (r: String)
    ensures
        r@ == sql_quoted(value@),
{
    let v = chars_of(value);
    string_from(&sql_quoted_chars(&v))
}

proof fn lemma_double_quotes_len(s: Seq<char>)
    ensures
        double_quotes(s).len() >= s.len(),
        s.len() > 0 ==> double_quotes(s).len() > 0,
    decreases s.len(),
{
    if s.len() > 0 {
        lemma_double_quotes_len(s.drop_last());
    }
}

proof fn lemma_double_quotes_injective(a: Seq<char>, b: Seq<char>)
    requires
        double_quotes(a) == double_quotes(b),
    ensures
        a == b,
    decreases a.len() + b.len(),
{
    lemma_double_quotes_len(a);
    lemma_double_quotes_len(b);
    if a.len() == 0 || b.len() == 0 {
        assert(a.len() == 0 && b.len() == 0);
        assert(a =~= b);
    } else {
        let d = double_quotes(a);
        let da = double_quotes(a.drop_last());
        let db = double_quotes(b.drop_last());
        assert(d.last() == a.last());
        assert(d.last() == b.last());
        if a.last() == '\'' {
            assert(d =~= da + seq!['\'', '\'']);
            assert(d =~= db + seq!['\'', '\'']);
            assert(da =~= d.take(d.len() - 2));
            assert(db =~= d.take(d.len() - 2));
        } else {
            assert(d =~= da + seq![a.last()]);
            assert(d =~= db + seq![b.last()]);
            assert(da =~= d.drop_last());
            assert(db =~= d.drop_last());
        }
        lemma_double_quotes_injective(a.drop_last(), b.drop_last());
        assert(a =~= a.drop_last().push(a.last()));
        assert(b =~= b.drop_last().push(b.last()));
    }
}

/// Quoting keeps values apart: two different values never give the same SQL literal.
pub proof fn lemma_sql_quoted_injective(a: Seq<char>, b: Seq<char>)
    requires
        sql_quoted(a) == sql_quoted(b),
    ensures
        a == b,
{
    let qa = sql_quoted(a);
    assert(double_quotes(a) =~= qa.subrange(1, qa.len() - 1));
    assert(double_quotes(b) =~= qa.subrange(1, qa.len() - 1));
    lemma_double_quotes_injective(a, b);
}

/// `s` with each pair `''` read as one `'`.
pub open spec fn undouble_quotes(s: Seq<char>) -> Seq<char>
    decreases s.len(),
{
    if s.len() == 0 {
        seq![]
    } else if s.len() >= 2 && s.last() == '\'' && s[s.len() - 2] == '\'' {
        undouble_quotes(s.take(s.len() - 2)) + seq!['\'']
    } else {
        undouble_quotes(s.drop_last()) + seq![s.last()]
    }
}

/// The text that an SQL string literal stands for: the characters between its outer
/// quotes, each pair `''` read as one `'`.
pub open spec fn sql_literal_value(q: Seq<char>) -> Seq<char> {
    undouble_quotes(q.subrange(1, q.len() - 1))
}

proof fn lemma_undouble_double(s: Seq<char>)
    ensures
        undouble_quotes(double_quotes(s)) == s,
    decreases s.len(),
{
    if s.len() > 0 {
        let p = s.drop_last();
        let c = s.last();
        lemma_undouble_double(p);
        let d = double_quotes(s);
        if c == '\'' {
            assert(d =~= double_quotes(p) + seq!['\'', '\'']);
            assert(d.take(d.len() - 2) =~= double_quotes(p));
        } else {
            assert(d =~= double_quotes(p) + seq![c]);
            assert(d.drop_last() =~= double_quotes(p));
        }
        assert(s =~= p + seq![c]);
    }
}

/// Quoting round trip: the SQL literal that `sqlite_quote` writes for `s` stands for
/// `s` itself.
pub proof fn lemma_sql_quoted_round_trip(s: Seq<char>)
    ensures
        sql_literal_value(sql_quoted(s)) == s,
{
    let q = sql_quoted(s);
    assert(q.subrange(1, q.len() - 1) =~= double_quotes(s));
    lemma_undouble_double(s);
}

// ---------------------------------------------------------------------------
// Statements
// ---------------------------------------------------------------------------

pub open spec fn string_views(v: Seq<String>) -> Seq<Seq<char>> {
    v.map_values(|s: String| s@)
}

pub open spec fn quoted_all(vals: Seq<Seq<char>>) -> Seq<Seq<char>> {
    vals.map_values(|v: Seq<char>| sql_quoted(v))
}

/// The condition that selects the threads to rewrite: their provider is not `to`
/// and, when there are exclusions, not one of them either.
pub open spec fn where_clause(to: Seq<char>, exclude: Seq<Seq<char>>) -> Seq<char> {
    let first = "model_provider <> "@ + sql_quoted(to);
    if exclude.len() == 0 {
        first
    } else {
        first + " AND "@ + "model_provider NOT IN ("@ + join(quoted_all(exclude), ", "@) + ")"@
    }
}

/// The `WHERE` condition of a provider rewrite.
pub fn provider_rewrite_where_clause(to: &str, exclude: &Vec<String>) -> (r: String)
    ensures
        r@ == where_clause(to@, string_views(exclude@)),
{
    let mut r = chars_of("model_provider <> ");
    let tv = chars_of(to);
    let q = sql_quoted_chars(&tv);
    push_all(&mut r, &q);
    if exclude.len() == 0 {
        return string_from(&r);
    }
    let mut quoted: Vec<Vec<char>> = Vec::new();
    let mut i: usize = 0;
    let ghost ex = string_views(exclude@);
    while i < exclude.len()
        invariant
            i <= exclude@.len(),
            ex == string_views(exclude@),
            views(quoted@) == quoted_all(ex).take(i as int),
        decreases exclude@.len() - i,
    {
        let e = chars_of(exclude[i].as_str());
        let qe = sql_quoted_chars(&e);
        let ghost before = views(quoted@);
        let ghost qv = qe@;
        quoted.push(qe);
        assert(views(quoted@) =~= before.push(qv));
        i = i + 1;
        assert(quoted_all(ex).take(i as int) =~= quoted_all(ex).take(i - 1).push(qv));
    }
    assert(quoted_all(ex).take(exclude@.len() as int) =~= quoted_all(ex));
    let and = chars_of(" AND ");
    push_all(&mut r, &and);
    let not_in = chars_of("model_provider NOT IN (");
    push_all(&mut r, &not_in);
    let sep = chars_of(", ");
    let list = join_chars(&quoted, &sep);
    push_all(&mut r, &list);
    let close = chars_of(")");
    push_all(&mut r, &close);
    string_from(&r)
}

/// The statement that counts the threads to rewrite, per provider, most first.
pub open spec fn count_statement(where_: Seq<char>) -> Seq<char> {
    "SELECT model_provider, COUNT(*) FROM threads WHERE "@ + where_
        + " GROUP BY model_provider ORDER BY COUNT(*) DESC;"@
}

/// The statement that lists the session files of the threads to rewrite.
pub open spec fn threads_statement(where_: Seq<char>) -> Seq<char> {
    "SELECT rollout_path FROM threads WHERE "@ + where_ + ";"@
}

/// The statement that moves the selected threads to the provider `to`.
pub open spec fn update_statement(to: Seq<char>, where_: Seq<char>) -> Seq<char> {
    "BEGIN IMMEDIATE; UPDATE threads SET model_provider = "@ + sql_quoted(to) + " WHERE "@ + where_
        + "; COMMIT;"@
}

/// The `sqlite3` shell command that backs the database up to `backup`.
pub open spec fn backup_command(backup: Seq<char>) -> Seq<char> {
    ".backup "@ + sql_quoted(backup)
}

pub fn provider_count_query(where_clause: &str) -> (r: String)
    ensures
        r@ == count_statement(where_clause@),
{
    let mut r = chars_of("SELECT model_provider, COUNT(*) FROM threads WHERE ");
    push_all(&mut r, &chars_of(where_clause));
    push_all(&mut r, &chars_of(" GROUP BY model_provider ORDER BY COUNT(*) DESC;"));
    string_from(&r)
}

pub fn provider_threads_query(where_clause: &str) -> (r: String)
    ensures
        r@ == threads_statement(where_clause@),
{
    let mut r = chars_of("SELECT rollout_path FROM threads WHERE ");
    push_all(&mut r, &chars_of(where_clause));
    push_all(&mut r, &chars_of(";"));
    string_from(&r)
}

pub fn provider_update_query(to: &str, where_clause: &str) -> (r: String)
    ensures
        r@ == update_statement(to@, where_clause@),
{
    let mut r = chars_of("BEGIN IMMEDIATE; UPDATE threads SET model_provider = ");
    push_all(&mut r, &sql_quoted_chars(&chars_of(to)));
    push_all(&mut r, &chars_of(" WHERE "));
    push_all(&mut r, &chars_of(where_clause));
    push_all(&mut r, &chars_of("; COMMIT;"));
    string_from(&r)
}

/// The `sqlite3` shell command that backs the database up to `backup`, named by its
/// text.
pub fn sqlite3_backup_command(backup: &PathModel) -> (r: String)
    ensures
        r@ == backup_command(backup.text@),
{
    let text = backup.to_text();
    let mut r = chars_of(".backup ");
    push_all(&mut r, &sql_quoted_chars(&chars_of(text.as_str())));
    string_from(&r)
}

// ---------------------------------------------------------------------------
// Rows
// ---------------------------------------------------------------------------

/// How many threads of one provider a rewrite moves.
#[derive(Debug, Clone, Default, PartialEq, Eq)]
pub struct ProviderRewriteProvider {
    pub from: String,
    pub count: usize,
}

/// A row of the count query that cannot be read.
#[derive(Debug, Clone, PartialEq, Eq)]
pub enum ProviderCountError {
    /// The row has no tab between provider and count.
    InvalidRow(String),
    /// The count after the tab is not a `usize`.
    InvalidCount(String),
}

/// The rows of `sqlite3` output: its lines that are not blank.
pub open spec fn output_rows(text: Seq<char>) -> Seq<Seq<char>> {
    nonblank(split_lines(text))
}

pub open spec fn tab_at(row: Seq<char>) -> int {
    first_index(row, '\t')
}

pub open spec fn row_provider(row: Seq<char>) -> Seq<char> {
    row.take(tab_at(row))
}

pub open spec fn row_count_text(row: Seq<char>) -> Seq<char> {
    row.skip(tab_at(row) + 1)
}

/// A row reads as a provider, a tab, and a count.
pub open spec fn row_ok(row: Seq<char>) -> bool {
    tab_at(row) < row.len() && parse_usize(row_count_text(row)) is Some
}

/// The error for a row that does not read.
pub open spec fn row_error_matches(row: Seq<char>, e: ProviderCountError) -> bool {
    match e {
        ProviderCountError::InvalidRow(l) => tab_at(row) >= row.len() && l@ == row,
        ProviderCountError::InvalidCount(c) => tab_at(row) < row.len() && parse_usize(
            row_count_text(row),
        ) is None && c@ == row_count_text(row),
    }
}

/// The providers and counts of the count query's output (`parse_provider_counts`):
/// each row is split at its first tab; the first row that does not read is the
/// error.
pub fn parse_provider_counts(rows: &str) -> (r: Result<Vec<ProviderRewriteProvider>, ProviderCountError>)
    ensures
        match r {
            Ok(v) => {
                &&& v@.len() == output_rows(rows@).len()
                &&& forall|i: int|
                    0 <= i < v@.len() ==> {
                        &&& row_ok(#[trigger] output_rows(rows@)[i])
                        &&& v@[i].from@ == row_provider(output_rows(rows@)[i])
                        &&& Some(v@[i].count as nat) == parse_usize(
                            row_count_text(output_rows(rows@)[i]),
                        )
                    }
            },
            Err(e) => exists|i: int|
                0 <= i < output_rows(rows@).len() && (forall|j: int|
                    0 <= j < i ==> row_ok(#[trigger] output_rows(rows@)[j])) && !row_ok(
                    output_rows(rows@)[i],
                ) && row_error_matches(output_rows(rows@)[i], e),
        },
{
    let text = chars_of(rows);
    let lines = nonblank_lines(&text);
    let ghost rs = output_rows(rows@);
    let mut out: Vec<ProviderRewriteProvider> = Vec::new();
    let mut i: usize = 0;
    while i < lines.len()
        invariant
            i <= lines@.len(),
            views(lines@) == rs,
            rs == output_rows(rows@),
            out@.len() == i,
            forall|k: int|
                0 <= k < i ==> {
                    &&& row_ok(#[trigger] rs[k])
                    &&& out@[k].from@ == row_provider(rs[k])
                    &&& Some(out@[k].count as nat) == parse_usize(row_count_text(rs[k]))
                },
        decreases lines@.len() - i,
    {
        let line = &lines[i];
        assert(line@ == rs[i as int]);
        let mut t: usize = 0;
        while t < line.len() && line[t] != '\t'
            invariant
                t <= line@.len(),
                forall|k: int| 0 <= k < t ==> #[trigger] line@[k] != '\t',
            decreases line@.len() - t,
        {
            t = t + 1;
        }
        proof {
            crate::text::lemma_first_index(line@, '\t', t as int);
        }
        if t == line.len() {
            let e = ProviderCountError::InvalidRow(string_from(line));
            assert(row_error_matches(rs[i as int], e));
            return Err(e);
        }
        let mut from: Vec<char> = Vec::new();
        let mut k: usize = 0;
        while k < t
            invariant
                t < line@.len(),
                k <= t,
                from@ == line@.take(k as int),
            decreases t - k,
        {
            from.push(line[k]);
            k = k + 1;
            assert(from@ =~= line@.take(k as int));
        }
        let mut count: Vec<char> = Vec::new();
        let mut j: usize = t + 1;
        while j < line.len()
            invariant
                t < line@.len(),
                t + 1 <= j <= line@.len(),
                count@ == line@.subrange(t + 1, j as int),
            decreases line@.len() - j,
        {
            count.push(line[j]);
            j = j + 1;
            assert(count@ =~= line@.subrange(t + 1, j as int));
        }
        assert(count@ =~= row_count_text(line@));
        match parse_usize_chars(&count) {
            Some(n) => {
                out.push(ProviderRewriteProvider { from: string_from(&from), count: n });
            },
            None => {
                let e = ProviderCountError::InvalidCount(string_from(&count));
                assert(row_error_matches(rs[i as int], e));
                return Err(e);
            },
        }
        i = i + 1;
    }
    Ok(out)
}

/// The session files named by the threads query's output: each row that is not
/// blank, taken as a path (`provider_rewrite_threads`).
pub fn provider_rewrite_threads(rows: &str) -> (r: Vec<PathModel>)
    ensures
        r@.len() == output_rows(rows@).len(),
        forall|i: int|
            0 <= i < r@.len() ==> #[trigger] r@[i]@ == parse_path(output_rows(rows@)[i]),
{
    let text = chars_of(rows);
    let lines = nonblank_lines(&text);
    let mut out: Vec<PathModel> = Vec::new();
    let mut i: usize = 0;
    while i < lines.len()
        invariant
            i <= lines@.len(),
            views(lines@) == output_rows(rows@),
            out@.len() == i,
            forall|k: int| 0 <= k < i ==> #[trigger] out@[k]@ == parse_path(lines@[k]@),
        decreases lines@.len() - i,
    {
        out.push(PathModel::parse_chars(&lines[i]));
        i = i + 1;
    }
    out
}

// ---------------------------------------------------------------------------
// What the statements select
// ---------------------------------------------------------------------------

proof fn lemma_occurs_in_middle(a: Seq<char>, b: Seq<char>, c: Seq<char>, needle: Seq<char>, i: int)
    requires
        occurs_at(b, needle, i),
    ensures
        occurs_at(a + b + c, needle, a.len() + i),
{
    assert((a + b + c).subrange(a.len() + i, a.len() + i + needle.len()) =~= b.subrange(
        i,
        i + needle.len(),
    ));
}

proof fn lemma_join_holds_parts(parts: Seq<Seq<char>>, sep: Seq<char>, k: int)
    requires
        0 <= k < parts.len(),
    ensures
        contains_text(join(parts, sep), parts[k]),
    decreases parts.len(),
{
    if parts.len() == 1 {
        assert(join(parts, sep) == parts[0]);
        assert(occurs_at(parts[0], parts[0], 0)) by {
            assert(parts[0].subrange(0, parts[0].len() as int) =~= parts[0]);
        }
    } else {
        let p = parts.drop_last();
        let head = join(p, sep);
        assert(join(parts, sep) == head + sep + parts.last());
        if k == parts.len() - 1 {
            assert(parts.last().subrange(0, parts.last().len() as int) =~= parts.last());
            assert(parts[k] == parts.last());
            assert(occurs_at(parts.last(), parts[k], 0));
            lemma_occurs_in_middle(head + sep, parts.last(), Seq::<char>::empty(), parts[k], 0);
            assert(head + sep + parts.last() + Seq::<char>::empty() =~= head + sep + parts.last());
        } else {
            assert(p[k] == parts[k]);
            lemma_join_holds_parts(p, sep, k);
            let i = choose|i: int| occurs_at(head, parts[k], i);
            lemma_occurs_in_middle(Seq::<char>::empty(), head, sep + parts.last(), parts[k], i);
            assert(Seq::<char>::empty() + head + (sep + parts.last()) =~= head + sep + parts.last());
        }
    }
}

/// The condition of a rewrite skips the target and every excluded provider: it
/// names the target's literal after `model_provider <>`, and, when there are
/// exclusions, the literal of every one of them inside `model_provider NOT IN (...)`.
pub proof fn lemma_where_clause_skips_target_and_exclusions(to: Seq<char>, exclude: Seq<Seq<char>>)
    ensures
        ("model_provider <> "@ + sql_quoted(to)).is_prefix_of(where_clause(to, exclude)),
        exclude.len() > 0 ==> contains_text(where_clause(to, exclude), " AND model_provider NOT IN ("@),
        forall|k: int|
            0 <= k < exclude.len() ==> contains_text(
                where_clause(to, exclude),
                sql_quoted(#[trigger] exclude[k]),
            ),
{
    reveal_strlit("model_provider <> ");
    reveal_strlit(" AND ");
    reveal_strlit("model_provider NOT IN (");
    reveal_strlit(" AND model_provider NOT IN (");
    let head = "model_provider <> "@ + sql_quoted(to);
    let w = where_clause(to, exclude);
    assert(w.take(head.len() as int) =~= head);
    if exclude.len() > 0 {
        let q = quoted_all(exclude);
        let mid = " AND "@ + "model_provider NOT IN ("@;
        assert(mid =~= " AND model_provider NOT IN ("@);
        assert(w =~= (head + mid) + join(q, ", "@) + ")"@);
        assert(mid.subrange(0, mid.len() as int) =~= mid);
        assert(occurs_at(mid, " AND model_provider NOT IN ("@, 0));
        lemma_occurs_in_middle(head, mid, join(q, ", "@) + ")"@, " AND model_provider NOT IN ("@, 0);
        assert(head + mid + (join(q, ", "@) + ")"@) =~= w);
        assert forall|k: int| 0 <= k < exclude.len() implies contains_text(
            w,
            sql_quoted(#[trigger] exclude[k]),
        ) by {
            assert(q[k] == sql_quoted(exclude[k]));
            lemma_join_holds_parts(q, ", "@, k);
            let i = choose|i: int| occurs_at(join(q, ", "@), q[k], i);
            lemma_occurs_in_middle(head + mid, join(q, ", "@), ")"@, q[k], i);
        }
    }
}

/// The UPDATE moves exactly the threads that the rewrite's condition selects: it sets
/// `model_provider` to the target's literal and holds the condition verbatim after
/// `WHERE`, inside one transaction.
pub proof fn lemma_update_runs_under_the_where_clause(to: Seq<char>, w: Seq<char>)
    ensures
        update_statement(to, w) == "BEGIN IMMEDIATE; UPDATE threads SET model_provider = "@
            + sql_quoted(to) + " WHERE "@ + w + "; COMMIT;"@,
{
}

/// The statements of a rewrite select by the same condition: the count, the list of
/// session files and the UPDATE each hold the given condition verbatim after `WHERE`.
pub proof fn lemma_statements_select_by_the_where_clause(to: Seq<char>, w: Seq<char>)
    ensures
        count_statement(w) == "SELECT model_provider, COUNT(*) FROM threads WHERE "@ + w
            + " GROUP BY model_provider ORDER BY COUNT(*) DESC;"@,
        threads_statement(w) == "SELECT rollout_path FROM threads WHERE "@ + w + ";"@,
        update_statement(to, w) == "BEGIN IMMEDIATE; UPDATE threads SET model_provider = "@
            + sql_quoted(to) + " WHERE "@ + w + "; COMMIT;"@,
{
}

} // verus!
