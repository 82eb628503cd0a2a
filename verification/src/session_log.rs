//! Session logs (JSONL): which provider a session records, and moving it to another.
use vstd::prelude::*;

use crate::sql::string_views;
use crate::text::{
    bare_line, chars_of, is_blank, join, join_chars, lemma_split_join, lemma_split_lines_last,
    lemma_split_lines_no_newline, lines_of, no_newline, one_line, same_text, split_lines,
    string_from, views,
};

verus! {

/// The error that `serde_json` reports for text it cannot read or write.
#[verifier::external_type_specification]
#[verifier::external_body]
pub struct ExJsonError(serde_json::Error);

/// The text is one JSON value (`serde_json::from_str::<serde_json::Value>` succeeds).
pub uninterp spec fn json_parses(text: Seq<char>) -> bool;

/// The string held under `key` in the JSON object that `text` holds; `None` when the
/// value is not an object, has no such member, or that member is not a string.
pub uninterp spec fn json_member_text(text: Seq<char>, key: Seq<char>) -> Option<Seq<char>>;

/// The member `inner` of the object held under `outer` in the JSON object that `text`
/// holds: `None` when there is no such object or no such member in it, `Some(None)`
/// when the member is not a string, `Some(Some(s))` when it is the string `s`.
pub uninterp spec fn json_nested_member_text(
    text: Seq<char>,
    outer: Seq<char>,
    inner: Seq<char>,
) -> Option<Option<Seq<char>>>;

/// The compact JSON text (`serde_json::to_string`) of the value that `text` holds,
/// with the member `inner` of its member object `outer` set to the string `value`.
pub uninterp spec fn json_with_nested_text(
    text: Seq<char>,
    outer: Seq<char>,
    inner: Seq<char>,
    value: Seq<char>,
) -> Seq<char>;

/// Reads `text` once with `serde_json::from_str` as a `serde_json::Value`, and takes
/// from it `Value::get(key)` with `Value::as_str`, and `Value::get(outer)` with
/// `Value::as_object`, `Map::get(inner)` and `Value::as_str`. The contract names the
/// two results and says that reading fails exactly when `text` is not JSON.
#[verifier::external_body]
fn json_lookup(text: &str, key: &str, outer: &str, inner: &str) -> (r: Result<
    (Option<String>, Option<Option<String>>),
    serde_json::Error,
>)
    ensures
        r is Ok <==> json_parses(text@),
        r matches Ok((v, _)) ==> json_member_text(text@, key@) == (match v {
            Some(s) => Some(s@),
            None => None,
        }),
        r matches Ok((_, m)) ==> json_nested_member_text(text@, outer@, inner@) == (match m {
            Some(Some(s)) => Some(Some(s@)),
            Some(None) => Some(None),
            None => None,
        }),
{
    let value = serde_json::from_str::<serde_json::Value>(text)?;
    let member = value.get(key).and_then(serde_json::Value::as_str).map(str::to_owned);
    let nested = match value.get(outer).and_then(serde_json::Value::as_object) {
        Some(map) => map.get(inner),
        None => None,
    };
    Ok((member, nested.map(|field| field.as_str().map(str::to_owned))))
}

/// Reads `text` with `serde_json::from_str`, sets `value[outer][inner]` to the
/// string `new_value` (the index operator of `serde_json::Value`), and writes it
/// back with `serde_json::to_string`. The requirement that the member exists makes
/// the indexing safe. The contract names the text that comes out, and states what
/// reading it back gives: JSON again, `new_value` at `outer.inner`, and the same
/// string members as before under every other key (the serializer escapes every
/// character that it must, and the reader undoes it); and that the text is not empty
/// and holds no line break (the compact writer puts no white space between tokens
/// and escapes every control character inside strings). It says nothing of numbers.
/// Writing a `Value` back cannot fail (its map keys are strings, and the text is
/// written to memory), so the result is `Ok` whenever `text` is JSON.
#[verifier::external_body]
fn json_set_nested(text: &str, outer: &str, inner: &str, new_value: &str) -> (r: Result<
    String,
    serde_json::Error,
>)
    requires
        json_nested_member_text(text@, outer@, inner@) matches Some(Some(_)),
    ensures
        r matches Ok(s) ==> s@ == json_with_nested_text(text@, outer@, inner@, new_value@),
        r matches Ok(s) ==> json_parses(s@),
        r matches Ok(s) ==> json_nested_member_text(s@, outer@, inner@) == Some(Some(new_value@)),
        r matches Ok(s) ==> forall|k: Seq<char>|
            k != outer@ ==> #[trigger] json_member_text(s@, k) == json_member_text(text@, k),
        r matches Ok(s) ==> s@.len() > 0 && one_line(s@),
        json_parses(text@) ==> r is Ok,
{
    let mut value = serde_json::from_str::<serde_json::Value>(text)?;
    value[outer][inner] = serde_json::Value::String(new_value.to_owned());
    serde_json::to_string(&value)
}


// ---------------------------------------------------------------------------
// Which provider a session records
// ---------------------------------------------------------------------------

/// A session log that cannot be read as JSON lines.
#[derive(Debug)]
pub enum SessionLogError {
    /// A line that is not blank is not JSON.
    InvalidLine(serde_json::Error),
}

/// A line records the session's metadata: its `type` is `session_meta`.
pub open spec fn is_meta_line(line: Seq<char>) -> bool {
    json_member_text(line, "type"@) == Some("session_meta"@)
}

/// The provider that a metadata line records, when `payload.model_provider` is a string.
pub open spec fn recorded_provider(line: Seq<char>) -> Option<Seq<char>> {
    match json_nested_member_text(line, "payload"@, "model_provider"@) {
        Some(Some(p)) => Some(p),
        _ => None,
    }
}

/// A provider that a rewrite to `to` moves: not `to` itself and not excluded.
pub open spec fn moves_provider(p: Seq<char>, to: Seq<char>, exclude: Seq<Seq<char>>) -> bool {
    p != to && !exclude.contains(p)
}

/// A line whose provider a rewrite to `to` replaces: a metadata line that records a
/// provider the rewrite moves.
pub open spec fn line_to_rewrite(line: Seq<char>, to: Seq<char>, exclude: Seq<Seq<char>>) -> bool {
    &&& is_meta_line(line)
    &&& recorded_provider(line) matches Some(p)
    &&& moves_provider(p, to, exclude)
}

/// The provider `p` is neither `to` nor one of `exclude`.
pub fn provider_moves(p: &str, to: &str, exclude: &Vec<String>) -> (r: bool)
    ensures
        r == moves_provider(p@, to@, string_views(exclude@)),
{
    if same_text(p, to) {
        return false;
    }
    let mut i: usize = 0;
    while i < exclude.len()
        invariant
            i <= exclude@.len(),
            p@ != to@,
            forall|k: int| 0 <= k < i ==> string_views(exclude@)[k] != p@,
        decreases exclude@.len() - i,
    {
        if same_text(exclude[i].as_str(), p) {
            assert(string_views(exclude@)[i as int] == p@);
            return false;
        }
        i = i + 1;
    }
    true
}

/// The looked-up `type` of a line names the session metadata.
pub open spec fn names_meta(kind: Option<Seq<char>>) -> bool {
    kind == Some("session_meta"@)
}

/// From what a lookup found in a line (its `type`, and its `payload.model_provider`):
/// the line records the session's metadata, and a provider that the rewrite moves.
pub open spec fn meta_moves(
    kind: Option<Seq<char>>,
    provider: Option<Option<Seq<char>>>,
    to: Seq<char>,
    exclude: Seq<Seq<char>>,
) -> bool {
    &&& names_meta(kind)
    &&& provider matches Some(Some(p))
    &&& moves_provider(p, to, exclude)
}

pub open spec fn opt_view(v: Option<String>) -> Option<Seq<char>> {
    match v {
        Some(s) => Some(s@),
        None => None,
    }
}

pub open spec fn opt_opt_view(v: Option<Option<String>>) -> Option<Option<Seq<char>>> {
    match v {
        Some(Some(s)) => Some(Some(s@)),
        Some(None) => Some(None),
        None => None,
    }
}

/// The looked-up `type` of a line is `session_meta`.
pub fn is_session_meta(kind: &Option<String>) -> (r: bool)
    ensures
        r == names_meta(opt_view(*kind)),
{
    match kind {
        Some(k) => same_text(k.as_str(), "session_meta"),
        None => false,
    }
}

/// The decision that follows the lookup of a line's `type` and
/// `payload.model_provider`: the line records the session's metadata and a provider
/// that the rewrite to `to` moves.
pub fn meta_line_moves(
    kind: &Option<String>,
    provider: &Option<Option<String>>,
    to: &str,
    exclude: &Vec<String>,
) -> (r: bool)
    ensures
        r == meta_moves(opt_view(*kind), opt_opt_view(*provider), to@, string_views(exclude@)),
{
    if !is_session_meta(kind) {
        return false;
    }
    match provider {
        Some(Some(p)) => provider_moves(p.as_str(), to, exclude),
        _ => false,
    }
}

/// What the first metadata line among `lines` says: whether the session records a
/// provider that the rewrite moves (`None`: a line before it, or it, is not JSON).
pub open spec fn meta_verdict(lines: Seq<Seq<char>>, to: Seq<char>, exclude: Seq<Seq<char>>) -> Option<bool>
    decreases lines.len(),
{
    if lines.len() == 0 {
        Some(false)
    } else {
        let l = lines[0];
        if is_blank(l) {
            meta_verdict(lines.drop_first(), to, exclude)
        } else if !json_parses(l) {
            None
        } else if !is_meta_line(l) {
            meta_verdict(lines.drop_first(), to, exclude)
        } else {
            Some(line_to_rewrite(l, to, exclude))
        }
    }
}

/// A session log needs its provider rewritten when its first metadata line records a
/// provider that the rewrite moves (`session_file_needs_provider_rewrite`). Reading
/// stops at that line; a line before it that is not JSON is an error.
pub fn session_file_needs_provider_rewrite(text: &str, to: &str, exclude: &Vec<String>) -> (r:
    Result<bool, SessionLogError>)
    ensures
        match r {
            Ok(b) => meta_verdict(split_lines(text@), to@, string_views(exclude@)) == Some(b),
            Err(_) => meta_verdict(split_lines(text@), to@, string_views(exclude@)) is None,
        },
{
    let tv = chars_of(text);
    let lines = lines_of(&tv);
    let ghost ls = split_lines(text@);
    let ghost ex = string_views(exclude@);
    let mut i: usize = 0;
    assert(ls.skip(0) =~= ls);
    while i < lines.len()
        invariant
            i <= lines@.len(),
            views(lines@) == ls,
            ls == split_lines(text@),
            ex == string_views(exclude@),
            meta_verdict(ls, to@, ex) == meta_verdict(ls.skip(i as int), to@, ex),
        decreases lines@.len() - i,
    {
        let ghost rest = ls.skip(i as int);
        assert(rest[0] == lines@[i as int]@);
        assert(rest.drop_first() =~= ls.skip(i + 1));
        if crate::text::blank(&lines[i]) {
            i = i + 1;
            continue;
        }
        let line = string_from(&lines[i]);
        let (kind, provider) = match json_lookup(line.as_str(), "type", "payload", "model_provider") {
            Ok(found) => found,
            Err(e) => {
                return Err(SessionLogError::InvalidLine(e));
            },
        };
        if !is_session_meta(&kind) {
            i = i + 1;
            continue;
        }
        return Ok(meta_line_moves(&kind, &provider, to, exclude));
    }
    assert(ls.skip(i as int) =~= Seq::<Seq<char>>::empty());
    Ok(false)
}

// ---------------------------------------------------------------------------
// Moving a session to another provider
// ---------------------------------------------------------------------------

/// One line of a session log moved to the provider `to`
/// (`rewrite_provider_session_value`): `Some` with the line written back with the new
/// provider when it is a line to rewrite, `None` when it stays as it is.
pub fn rewrite_provider_session_value(line: &str, to: &str, exclude: &Vec<String>) -> (r: Result<
    Option<String>,
    SessionLogError,
>)
    ensures
        match r {
            Ok(None) => json_parses(line@) && !line_to_rewrite(line@, to@, string_views(exclude@)),
            Ok(Some(s)) => {
                &&& json_parses(line@)
                &&& line_to_rewrite(line@, to@, string_views(exclude@))
                &&& s@ == json_with_nested_text(line@, "payload"@, "model_provider"@, to@)
                &&& json_parses(s@)
                &&& is_meta_line(s@)
                &&& recorded_provider(s@) == Some(to@)
                &&& !line_to_rewrite(s@, to@, string_views(exclude@))
                &&& s@.len() > 0
                &&& one_line(s@)
            },
            Err(SessionLogError::InvalidLine(_)) => !json_parses(line@),
        },
        r is Ok <==> json_parses(line@),
        r matches Ok(v) ==> (v is Some <==> line_to_rewrite(line@, to@, string_views(exclude@))),
{
    let (kind, provider) = match json_lookup(line, "type", "payload", "model_provider") {
        Ok(found) => found,
        Err(e) => {
            return Err(SessionLogError::InvalidLine(e));
        },
    };
    if !meta_line_moves(&kind, &provider, to, exclude) {
        return Ok(None);
    }
    match json_set_nested(line, "payload", "model_provider", to) {
        Ok(s) => {
            proof {
                reveal_strlit("type");
                reveal_strlit("payload");
                assert("type"@.len() != "payload"@.len());
                assert(json_member_text(s@, "type"@) == json_member_text(line@, "type"@));
            }
            Ok(Some(s))
        },
        Err(e) => Err(SessionLogError::InvalidLine(e)),
    }
}

/// One line after a rewrite to `to`: a line to rewrite is written back with the new
/// provider; every other line stays as it was.
pub open spec fn rewritten_line(line: Seq<char>, to: Seq<char>, exclude: Seq<Seq<char>>) -> Seq<char> {
    if !is_blank(line) && line_to_rewrite(line, to, exclude) {
        json_with_nested_text(line, "payload"@, "model_provider"@, to)
    } else {
        line
    }
}

/// The text after a rewrite: the rewritten lines joined by `'\n'`, with a final
/// `'\n'` when the text had one.
pub open spec fn rewritten_text(text: Seq<char>, to: Seq<char>, exclude: Seq<Seq<char>>) -> Seq<char> {
    join(
        split_lines(text).map_values(|l: Seq<char>| rewritten_line(l, to, exclude)),
        seq!['\n'],
    ) + if text.len() > 0 && text.last() == '\n' {
        seq!['\n']
    } else {
        seq![]
    }
}

/// Every line that is not blank is JSON.
pub open spec fn all_lines_json(lines: Seq<Seq<char>>) -> bool {
    forall|i: int| 0 <= i < lines.len() && !is_blank(#[trigger] lines[i]) ==> json_parses(lines[i])
}

/// Some line is one to rewrite.
pub open spec fn any_line_to_rewrite(lines: Seq<Seq<char>>, to: Seq<char>, exclude: Seq<Seq<char>>) -> bool {
    exists|i: int|
        0 <= i < lines.len() && !is_blank(#[trigger] lines[i]) && line_to_rewrite(lines[i], to, exclude)
}

/// What a rewrite leaves of the line `orig`: `new` needs no further rewrite (it is
/// blank, or JSON and no line to rewrite), is `orig` itself or holds no line break,
/// and is not empty when `orig` was not.
pub open spec fn line_settles(orig: Seq<char>, new: Seq<char>, to: Seq<char>, exclude: Seq<Seq<char>>) -> bool {
    &&& !is_blank(new) ==> json_parses(new) && !line_to_rewrite(new, to, exclude)
    &&& new == orig || one_line(new)
    &&& orig.len() > 0 ==> new.len() > 0
}

/// The text ends in `'\n'`.
pub open spec fn ends_with_newline(text: Seq<char>) -> bool {
    text.len() > 0 && text.last() == '\n'
}

/// Every line that a rewrite keeps as it is, and that a `'\n'` follows in the result,
/// does not end in `'\r'` (a second reading by `str::lines` would take that `'\r'`
/// off). A `"\r\n"` line end leaves no such `'\r'`; a line that the rewrite writes
/// back, and a last line with no `'\n'` after it, may end in one.
pub open spec fn kept_lines_end_clean(text: Seq<char>, to: Seq<char>, exclude: Seq<Seq<char>>) -> bool {
    forall|i: int|
        0 <= i < split_lines(text).len() && (i + 1 < split_lines(text).len() || ends_with_newline(text))
            && !(!is_blank(#[trigger] split_lines(text)[i]) && line_to_rewrite(
            split_lines(text)[i],
            to,
            exclude,
        )) ==> !(split_lines(text)[i].len() > 0 && split_lines(text)[i].last() == '\r')
}

/// A session log moved to the provider `to` (`rewrite_provider_session_text`): each
/// metadata line whose provider the rewrite moves is written back with `to`; all
/// other lines stay; the flag says whether any line changed. It fails exactly when a
/// line that is not blank is not JSON. The rewrite settles: its result has no line
/// left to rewrite, so rewriting it again gives it back unchanged (and says that
/// nothing changed), on every log whose kept lines end cleanly
/// (`kept_lines_end_clean`); on the others the second reading takes off a `'\r'`.
pub fn rewrite_provider_session_text(text: &str, to: &str, exclude: &Vec<String>) -> (r: Result<
    (String, bool),
    SessionLogError,
>)
    ensures
        match r {
            Ok((t, changed)) => {
                &&& all_lines_json(split_lines(text@))
                &&& t@ == rewritten_text(text@, to@, string_views(exclude@))
                &&& changed == any_line_to_rewrite(split_lines(text@), to@, string_views(exclude@))
            },
            Err(SessionLogError::InvalidLine(_)) => !all_lines_json(split_lines(text@)),
        },
        r is Ok <==> all_lines_json(split_lines(text@)),
        r matches Ok((t, _)) ==> kept_lines_end_clean(text@, to@, string_views(exclude@)) ==> {
            &&& all_lines_json(split_lines(t@))
            &&& !any_line_to_rewrite(split_lines(t@), to@, string_views(exclude@))
            &&& rewritten_text(t@, to@, string_views(exclude@)) == t@
        },
{
    let tv = chars_of(text);
    let lines = lines_of(&tv);
    let ghost ls = split_lines(text@);
    let ghost ex = string_views(exclude@);
    let ghost f = |l: Seq<char>| rewritten_line(l, to@, ex);
    let mut out: Vec<Vec<char>> = Vec::new();
    let mut changed = false;
    let mut i: usize = 0;
    while i < lines.len()
        invariant
            i <= lines@.len(),
            views(lines@) == ls,
            ls == split_lines(text@),
            ex == string_views(exclude@),
            f == (|l: Seq<char>| rewritten_line(l, to@, ex)),
            views(out@) == ls.take(i as int).map_values(f),
            all_lines_json(ls.take(i as int)),
            changed == any_line_to_rewrite(ls.take(i as int), to@, ex),
            forall|k: int| 0 <= k < i ==> line_settles(#[trigger] ls[k], views(out@)[k], to@, ex),
        decreases lines@.len() - i,
    {
        let ghost l = ls[i as int];
        assert(lines@[i as int]@ == l);
        let ghost before = views(out@);
        let ghost t = ls.take(i as int);
        let ghost t1 = ls.take(i + 1);
        assert(t1 =~= t.push(l));
        assert(t1.map_values(f) =~= t.map_values(f).push(f(l)));
        let new_line: Vec<char>;
        if crate::text::blank(&lines[i]) {
            new_line = crate::text::copy_chars(&lines[i]);
        } else {
            let line = string_from(&lines[i]);
            match rewrite_provider_session_value(line.as_str(), to, exclude) {
                Ok(Some(s)) => {
                    new_line = chars_of(s.as_str());
                    changed = true;
                },
                Ok(None) => {
                    new_line = crate::text::copy_chars(&lines[i]);
                },
                Err(SessionLogError::InvalidLine(e)) => {
                    assert(!all_lines_json(ls)) by {
                        assert(ls[i as int] == t1[i as int]);
                    }
                    return Err(SessionLogError::InvalidLine(e));
                },
            }
        }
        assert(new_line@ == f(l));
        assert(line_settles(l, new_line@, to@, ex));
        let ghost nv = new_line@;
        out.push(new_line);
        assert(views(out@) =~= before.push(nv));
        proof {
            assert forall|k: int| 0 <= k < t1.len() && !is_blank(#[trigger] t1[k]) implies json_parses(
                t1[k],
            ) by {
                if k < i {
                    assert(t1[k] == t[k]);
                }
            }
            if any_line_to_rewrite(t, to@, ex) {
                let k = choose|k: int|
                    0 <= k < t.len() && !is_blank(#[trigger] t[k]) && line_to_rewrite(t[k], to@, ex);
                assert(t1[k] == t[k]);
            }
            if any_line_to_rewrite(t1, to@, ex) {
                let k = choose|k: int|
                    0 <= k < t1.len() && !is_blank(#[trigger] t1[k]) && line_to_rewrite(
                        t1[k],
                        to@,
                        ex,
                    );
                if k < i {
                    assert(t[k] == t1[k]);
                }
            }
            if !is_blank(l) && line_to_rewrite(l, to@, ex) {
                assert(t1[i as int] == l);
            }
            assert forall|k: int| 0 <= k < i + 1 implies line_settles(
                #[trigger] ls[k],
                views(out@)[k],
                to@,
                ex,
            ) by {
                if k < i {
                    assert(views(out@)[k] == before[k]);
                }
            }
        }
        i = i + 1;
    }
    assert(ls.take(lines@.len() as int) =~= ls);
    let mut sep: Vec<char> = Vec::new();
    sep.push('\n');
    assert(sep@ =~= seq!['\n']);
    let mut joined = join_chars(&out, &sep);
    let ends_nl = tv.len() > 0 && tv[tv.len() - 1] == '\n';
    let ghost base = joined@;
    if ends_nl {
        joined.push('\n');
    }
    proof {
        let suffix: Seq<char> = if text@.len() > 0 && text@.last() == '\n' {
            seq!['\n']
        } else {
            seq![]
        };
        assert(ends_nl == (text@.len() > 0 && text@.last() == '\n'));
        assert(joined@ =~= base + suffix);
        if kept_lines_end_clean(text@, to@, ex) {
            lemma_rewrite_settles(text@, to@, ex, views(out@), joined@);
        }
    }
    Ok((string_from(&joined), changed))
}

/// The rewritten lines of a text whose kept lines end cleanly, joined back, give a
/// text whose lines are those lines, none of which needs a rewrite.
proof fn lemma_rewrite_settles(
    text: Seq<char>,
    to: Seq<char>,
    ex: Seq<Seq<char>>,
    o: Seq<Seq<char>>,
    t: Seq<char>,
)
    requires
        kept_lines_end_clean(text, to, ex),
        o.len() == split_lines(text).len(),
        forall|k: int| 0 <= k < o.len() ==> #[trigger] o[k] == rewritten_line(split_lines(text)[k], to, ex),
        forall|k: int| 0 <= k < o.len() ==> line_settles(#[trigger] split_lines(text)[k], o[k], to, ex),
        t == join(o, seq!['\n']) + if ends_with_newline(text) {
            seq!['\n']
        } else {
            seq![]
        },
    ensures
        split_lines(t) == o,
        all_lines_json(split_lines(t)),
        !any_line_to_rewrite(split_lines(t), to, ex),
        rewritten_text(t, to, ex) == t,
{
    let ls = split_lines(text);
    let sep = seq!['\n'];
    let n = o.len();
    lemma_split_lines_no_newline(text);
    lemma_split_lines_last(text);
    assert forall|k: int| 0 <= k < n implies no_newline(#[trigger] o[k]) by {
        assert(line_settles(ls[k], o[k], to, ex));
        assert forall|j: int| 0 <= j < ls[k].len() implies #[trigger] ls[k][j] != '\n' by {}
        if o[k] != ls[k] {
            assert(one_line(o[k]));
        }
    }
    assert forall|k: int| 0 <= k < n && (k + 1 < n || ends_with_newline(text)) implies bare_line(
        #[trigger] o[k],
    ) by {
        assert(line_settles(ls[k], o[k], to, ex));
        assert(o[k] == rewritten_line(ls[k], to, ex));
        assert(no_newline(o[k]));
        if o[k] == ls[k] {
            if !is_blank(ls[k]) && line_to_rewrite(ls[k], to, ex) {
                assert(!line_to_rewrite(o[k], to, ex));
            }
            assert(!(ls[k].len() > 0 && ls[k].last() == '\r'));
        } else {
            assert(one_line(o[k]));
            if o[k].len() > 0 {
                assert(o[k].last() == o[k][o[k].len() - 1]);
            }
        }
    }
    if n > 0 {
        assert(no_newline(o[n - 1]));
        assert(o.last() == o[n - 1]);
    }
    lemma_split_join(o);
    let ends_nl = ends_with_newline(text);
    if ends_nl {
        assert(n > 0);
        assert(bare_line(o[n - 1]));
        assert(t == join(o, sep) + sep);
    } else {
        assert(t =~= join(o, sep));
        if n > 0 {
            assert(line_settles(ls[n - 1], o[n - 1], to, ex));
            assert(ls.last().len() > 0);
        }
    }
    assert(split_lines(t) == o);
    assert forall|k: int| 0 <= k < n && !is_blank(#[trigger] o[k]) implies json_parses(o[k]) by {
        assert(line_settles(ls[k], o[k], to, ex));
    }
    if any_line_to_rewrite(o, to, ex) {
        let k = choose|k: int|
            0 <= k < o.len() && !is_blank(#[trigger] o[k]) && line_to_rewrite(o[k], to, ex);
        assert(line_settles(ls[k], o[k], to, ex));
    }
    let mapped = o.map_values(|l: Seq<char>| rewritten_line(l, to, ex));
    assert forall|k: int| 0 <= k < n implies #[trigger] mapped[k] == o[k] by {
        assert(line_settles(ls[k], o[k], to, ex));
    }
    assert(mapped =~= o);
    let t_nl = t.len() > 0 && t.last() == '\n';
    if ends_nl {
        assert(t_nl);
    } else if n > 0 {
        let l = o.last();
        assert(line_settles(ls[n - 1], o[n - 1], to, ex));
        assert(l.len() > 0);
        if n == 1 {
            assert(join(o, sep) == o[0]);
        } else {
            assert(join(o, sep) == join(o.drop_last(), sep) + sep + l);
        }
        assert(t.last() == l.last());
        assert(l.last() == l[l.len() - 1]);
        assert(!t_nl);
    } else {
        assert(t.len() == 0);
    }
}

proof fn lemma_verdict_true_has_line(ls: Seq<Seq<char>>, to: Seq<char>, ex: Seq<Seq<char>>)
    requires
        meta_verdict(ls, to, ex) == Some(true),
    ensures
        any_line_to_rewrite(ls, to, ex),
    decreases ls.len(),
{
    let l = ls[0];
    if is_blank(l) || !is_meta_line(l) {
        lemma_verdict_true_has_line(ls.drop_first(), to, ex);
        let k = choose|k: int|
            0 <= k < ls.drop_first().len() && !is_blank(#[trigger] ls.drop_first()[k])
                && line_to_rewrite(ls.drop_first()[k], to, ex);
        assert(ls[k + 1] == ls.drop_first()[k]);
    } else {
        assert(!is_blank(ls[0]) && line_to_rewrite(ls[0], to, ex));
    }
}

/// A session log that needs its provider rewritten is changed by the rewrite: when
/// `session_file_needs_provider_rewrite` says yes, `rewrite_provider_session_text`
/// rewrites at least one line.
pub proof fn lemma_needed_rewrite_changes(text: Seq<char>, to: Seq<char>, exclude: Seq<Seq<char>>)
    requires
        meta_verdict(split_lines(text), to, exclude) == Some(true),
    ensures
        any_line_to_rewrite(split_lines(text), to, exclude),
{
    lemma_verdict_true_has_line(split_lines(text), to, exclude);
}

/// Which providers a rewrite moves: a provider moves exactly when it is not the
/// target and equals none of the exclusions, whichever position they hold.
pub proof fn lemma_moves_provider_honours_every_exclusion(
    p: Seq<char>,
    to: Seq<char>,
    exclude: Seq<Seq<char>>,
)
    ensures
        moves_provider(p, to, exclude) <==> (p != to && forall|i: int|
            0 <= i < exclude.len() ==> #[trigger] exclude[i] != p),
        !moves_provider(to, to, exclude),
        forall|i: int| 0 <= i < exclude.len() ==> !moves_provider(#[trigger] exclude[i], to, exclude),
{
    assert forall|i: int| 0 <= i < exclude.len() implies !moves_provider(#[trigger] exclude[i], to, exclude) by {
        assert(exclude.contains(exclude[i]));
    }
    if p != to && forall|i: int| 0 <= i < exclude.len() ==> #[trigger] exclude[i] != p {
        if exclude.contains(p) {
            let k = choose|k: int| 0 <= k < exclude.len() && exclude[k] == p;
            assert(exclude[k] != p);
        }
    }
}

} // verus!
