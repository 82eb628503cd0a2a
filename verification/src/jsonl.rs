//! Merging JSONL logs (`history.jsonl`, `session_index.jsonl`) line by line.
use vstd::prelude::*;

use crate::text::{
    chars_of, copy_chars, first_index, is_ws, jsonl_lines, lemma_first_index,
    lemma_first_index_bounds, lemma_split_line_newline, lemma_split_lines_concat, lemma_split_lines_no_newline,
    lemma_trim_end_blank, nonempty_lines, push_all, read_nonempty_lines, same_chars, split_lines,
    string_from, strip_cr, trim_end, views,
};

verus! {

/// The lines of `src` that a merge into a log that already holds `known` adds: each
/// line that is neither in `known` nor earlier in `src`, in order.
pub open spec fn fresh_lines(known: Seq<Seq<char>>, src: Seq<Seq<char>>) -> Seq<Seq<char>>
    decreases src.len(),
{
    if src.len() == 0 {
        seq![]
    } else {
        let prev = fresh_lines(known, src.drop_last());
        let x = src.last();
        if known.contains(x) || src.drop_last().contains(x) {
            prev
        } else {
            prev.push(x)
        }
    }
}

/// What merging one JSONL log into another does: the lines to add, and how many
/// lines of the source the target already has.
#[derive(Debug, Clone, Default, PartialEq, Eq)]
pub struct JsonlPlan {
    pub added: Vec<String>,
    pub existing: usize,
}

pub proof fn lemma_fresh_lines_cover(known: Seq<Seq<char>>, src: Seq<Seq<char>>)
    ensures
        forall|x: Seq<char>|
            (known.contains(x) || src.contains(x)) <==> (known.contains(x) || fresh_lines(
                known,
                src,
            ).contains(x)),
        forall|x: Seq<char>| fresh_lines(known, src).contains(x) ==> !known.contains(x),
        fresh_lines(known, src).len() <= src.len(),
    decreases src.len(),
{
    if src.len() > 0 {
        let s0 = src.drop_last();
        let x = src.last();
        lemma_fresh_lines_cover(known, s0);
        let prev = fresh_lines(known, s0);
        assert(src =~= s0.push(x));
        assert forall|y: Seq<char>|
            (known.contains(y) || src.contains(y)) <==> (known.contains(y) || fresh_lines(
                known,
                src,
            ).contains(y)) by {
            if src.contains(y) {
                let k = choose|k: int| 0 <= k < src.len() && src[k] == y;
                if k < s0.len() {
                    assert(s0[k] == y);
                }
            }
            if s0.contains(y) {
                let k = choose|k: int| 0 <= k < s0.len() && s0[k] == y;
                assert(src[k] == y);
            }
            if !(known.contains(x) || s0.contains(x)) {
                if prev.push(x).contains(y) {
                    let k = choose|k: int| 0 <= k < prev.push(x).len() && prev.push(x)[k] == y;
                    if k < prev.len() {
                        assert(prev[k] == y);
                    }
                }
                if prev.contains(y) {
                    let k = choose|k: int| 0 <= k < prev.len() && prev[k] == y;
                    assert(prev.push(x)[k] == y);
                }
                assert(prev.push(x)[prev.len() as int] == x);
            }
            assert(src[src.len() - 1] == x);
        }
        assert forall|y: Seq<char>| fresh_lines(known, src).contains(y) implies !known.contains(
            y,
        ) by {
            if !(known.contains(x) || s0.contains(x)) {
                let k = choose|k: int|
                    0 <= k < prev.push(x).len() && prev.push(x)[k] == y;
                if k < prev.len() {
                    assert(prev[k] == y);
                }
            }
        }
    }
}

/// `v` holds the text `x`.
fn holds_line(v: &Vec<Vec<char>>, x: &Vec<char>) -> (r: bool)
    ensures
        r == views(v@).contains(x@),
{
    let mut i: usize = 0;
    while i < v.len()
        invariant
            i <= v@.len(),
            forall|k: int| 0 <= k < i ==> views(v@)[k] != x@,
        decreases v@.len() - i,
    {
        if same_chars(&v[i], x) {
            assert(views(v@)[i as int] == x@);
            return true;
        }
        i = i + 1;
    }
    false
}

pub open spec fn text_or_empty(t: Option<&str>) -> Seq<char> {
    match t {
        Some(s) => s@,
        None => seq![],
    }
}

/// The merge plan of the JSONL log `source` into the log `target` (`None`: the file
/// does not exist): the kept lines of `source` that `target` lacks, each once, in
/// order, and the count of the others.
pub fn jsonl_plan(source: Option<&str>, target: Option<&str>) -> (r: JsonlPlan)
    ensures
        r.added@.map_values(|s: String| s@) == fresh_lines(
            jsonl_lines(text_or_empty(target)),
            jsonl_lines(text_or_empty(source)),
        ),
        r.existing + r.added@.len() == jsonl_lines(text_or_empty(source)).len(),
        source is None ==> r.added@.len() == 0 && r.existing == 0,
{
    let src_text = match source {
        Some(s) => chars_of(s),
        None => Vec::new(),
    };
    let tgt_text = match target {
        Some(t) => chars_of(t),
        None => Vec::new(),
    };
    assert(src_text@ == text_or_empty(source));
    assert(tgt_text@ == text_or_empty(target));
    proof {
        if source is None {
            assert(jsonl_lines(src_text@) =~= Seq::<Seq<char>>::empty());
        }
    }
    let known = read_nonempty_lines(&tgt_text);
    let src = read_nonempty_lines(&src_text);
    let ghost kv = views(known@);
    let ghost sv = views(src@);
    let mut added: Vec<Vec<char>> = Vec::new();
    let mut added_strings: Vec<String> = Vec::new();
    let mut existing: usize = 0;
    let mut i: usize = 0;
    assert(sv.take(0) =~= Seq::<Seq<char>>::empty());
    while i < src.len()
        invariant
            i <= src@.len(),
            kv == views(known@),
            sv == views(src@),
            views(added@) == fresh_lines(kv, sv.take(i as int)),
            added_strings@.map_values(|s: String| s@) == views(added@),
            existing + added@.len() == i,
        decreases src@.len() - i,
    {
        let ghost t = sv.take(i as int);
        proof {
            lemma_fresh_lines_cover(kv, t);
            assert(sv.take(i + 1).drop_last() =~= t);
            assert(sv.take(i + 1).last() == src@[i as int]@);
        }
        let line = &src[i];
        if holds_line(&known, line) || holds_line(&added, line) {
            existing = existing + 1;
        } else {
            let l = copy_chars(line);
            let s = string_from(line);
            let ghost before = views(added@);
            let ghost beforeS = added_strings@.map_values(|s: String| s@);
            let ghost lv = l@;
            added.push(l);
            added_strings.push(s);
            assert(views(added@) =~= before.push(lv));
            assert(added_strings@.map_values(|s: String| s@) =~= beforeS.push(lv));
        }
        i = i + 1;
    }
    assert(sv.take(src@.len() as int) =~= sv);
    JsonlPlan { added: added_strings, existing }
}


// ---------------------------------------------------------------------------
// Appending
// ---------------------------------------------------------------------------

/// The lines, each followed by `'\n'`.
pub open spec fn lines_text(lines: Seq<Seq<char>>) -> Seq<char>
    decreases lines.len(),
{
    if lines.len() == 0 {
        seq![]
    } else {
        lines_text(lines.drop_last()) + lines.last() + seq!['\n']
    }
}

/// A file that is not empty and does not end in a newline needs one before more lines.
pub open spec fn needs_leading_newline(existing: Seq<char>) -> bool {
    existing.len() > 0 && existing.last() != '\n'
}

/// What appending `lines` to a log whose present text is `existing` (`None`: no such
/// file) writes at its end.
pub open spec fn append_text(existing: Option<Seq<char>>, lines: Seq<Seq<char>>) -> Seq<char> {
    (if existing matches Some(e) && needs_leading_newline(e) {
        seq!['\n']
    } else {
        seq![]
    }) + lines_text(lines)
}

pub open spec fn string_texts(v: Seq<String>) -> Seq<Seq<char>> {
    v.map_values(|s: String| s@)
}

pub open spec fn option_text(t: Option<&str>) -> Option<Seq<char>> {
    match t {
        Some(s) => Some(s@),
        None => None,
    }
}

/// The text to append to a JSONL log whose present text is `existing` (`None`: no
/// such file) so that it ends with `lines`: nothing at all
/// when there are no lines; otherwise a newline first if the file does not end in
/// one, then each line and a newline.
pub fn jsonl_append_text(existing: Option<&str>, lines: &Vec<String>) -> (r: Option<String>)
    ensures
        lines@.len() == 0 <==> r is None,
        r matches Some(t) ==> t@ == append_text(option_text(existing), string_texts(lines@)),
{
    if lines.len() == 0 {
        return None;
    }
    let mut out: Vec<char> = Vec::new();
    match existing {
        Some(e) => {
            let ev = chars_of(e);
            if ev.len() > 0 && ev[ev.len() - 1] != '\n' {
                out.push('\n');
            }
        },
        None => {},
    }
    let ghost head = out@;
    assert(head == (if option_text(existing) matches Some(e) && needs_leading_newline(e) {
        seq!['\n']
    } else {
        seq![]
    }));
    let ghost ls = string_texts(lines@);
    let mut i: usize = 0;
    assert(ls.take(0) =~= Seq::<Seq<char>>::empty());
    assert(out@ =~= head + lines_text(ls.take(0)));
    while i < lines.len()
        invariant
            i <= lines@.len(),
            ls == string_texts(lines@),
            out@ == head + lines_text(ls.take(i as int)),
        decreases lines@.len() - i,
    {
        let l = chars_of(lines[i].as_str());
        push_all(&mut out, &l);
        out.push('\n');
        assert(ls.take(i + 1).drop_last() =~= ls.take(i as int));
        assert(ls.take(i + 1).last() == l@);
        i = i + 1;
        assert(out@ =~= head + lines_text(ls.take(i as int)));
    }
    assert(ls.take(lines@.len() as int) =~= ls);
    Some(string_from(&out))
}

// ---------------------------------------------------------------------------
// What a merge keeps
// ---------------------------------------------------------------------------

/// A line as a JSONL reader keeps it: not empty, no newline, no trailing white space.
pub open spec fn clean_line(l: Seq<char>) -> bool {
    &&& l.len() > 0
    &&& !is_ws(l.last())
    &&& forall|i: int| 0 <= i < l.len() ==> #[trigger] l[i] != '\n'
}

proof fn lemma_split_lines_text(ls: Seq<Seq<char>>)
    requires
        forall|i: int| 0 <= i < ls.len() ==> clean_line(#[trigger] ls[i]),
    ensures
        split_lines(lines_text(ls)) == ls,
    decreases ls.len(),
{
    if ls.len() > 0 {
        let p = ls.drop_last();
        assert forall|i: int| 0 <= i < p.len() implies clean_line(#[trigger] p[i]) by {
            assert(p[i] == ls[i]);
        }
        lemma_split_lines_text(p);
        let l = ls.last();
        assert(clean_line(ls[ls.len() - 1]));
        let pt = lines_text(p);
        if p.len() > 0 {
            assert(pt.last() == '\n');
        }
        assert(lines_text(ls) =~= pt + (l + seq!['\n']));
        lemma_split_lines_concat(pt, l + seq!['\n']);
        lemma_split_line_newline(l);
        assert(l.last() != '\r');
        assert(strip_cr(l) == l);
        assert(ls =~= p.push(l));
    }
}

proof fn lemma_nonempty_lines_concat(a: Seq<Seq<char>>, b: Seq<Seq<char>>)
    ensures
        nonempty_lines(a + b) == nonempty_lines(a) + nonempty_lines(b),
    decreases b.len(),
{
    if b.len() == 0 {
        assert(a + b =~= a);
        assert(nonempty_lines(a) + nonempty_lines(b) =~= nonempty_lines(a));
    } else {
        lemma_nonempty_lines_concat(a, b.drop_last());
        assert((a + b).drop_last() =~= a + b.drop_last());
        assert((a + b).last() == b.last());
    }
}

proof fn lemma_trim_end_clean(l: Seq<char>)
    requires
        clean_line(l),
    ensures
        trim_end(l) == l,
{
    assert(l.last() == l[l.len() - 1]);
}

proof fn lemma_nonempty_lines_clean(ls: Seq<Seq<char>>)
    requires
        forall|i: int| 0 <= i < ls.len() ==> clean_line(#[trigger] ls[i]),
    ensures
        nonempty_lines(ls) == ls,
    decreases ls.len(),
{
    if ls.len() > 0 {
        let p = ls.drop_last();
        assert forall|i: int| 0 <= i < p.len() implies clean_line(#[trigger] p[i]) by {
            assert(p[i] == ls[i]);
        }
        lemma_nonempty_lines_clean(p);
        assert(clean_line(ls[ls.len() - 1]));
        lemma_trim_end_clean(ls.last());
        assert(ls =~= p.push(ls.last()));
    }
}

proof fn lemma_split_lines_close(a: Seq<char>)
    requires
        needs_leading_newline(a),
    ensures
        split_lines(a).len() > 0,
        split_lines(a + seq!['\n']) == split_lines(a).drop_last().push(
            strip_cr(split_lines(a).last()),
        ),
    decreases a.len(),
{
    let i = first_index(a, '\n');
    lemma_first_index_bounds(a, '\n');
    let an = a + seq!['\n'];
    if i >= a.len() {
        lemma_split_line_newline(a);
        assert(split_lines(a) =~= seq![a]);
    } else {
        assert forall|k: int| 0 <= k < i implies #[trigger] an[k] != '\n' by {
            assert(an[k] == a[k]);
        }
        lemma_first_index(an, '\n', i);
        assert(an.take(i) =~= a.take(i));
        let rest = a.skip(i + 1);
        assert(an.skip(i + 1) =~= rest + seq!['\n']);
        assert(rest.len() > 0);
        assert(rest.last() == a.last());
        lemma_split_lines_close(rest);
        let h = seq![strip_cr(a.take(i))];
        assert(split_lines(a) == h + split_lines(rest));
        assert(split_lines(an) == h + split_lines(rest + seq!['\n']));
        assert((h + split_lines(rest)).drop_last() =~= h + split_lines(rest).drop_last());
        assert((h + split_lines(rest)).last() == split_lines(rest).last());
        assert(split_lines(an) =~= (h + split_lines(rest)).drop_last().push(
            strip_cr((h + split_lines(rest)).last()),
        ));
    }
}

proof fn lemma_jsonl_close(a: Seq<char>)
    requires
        needs_leading_newline(a),
    ensures
        jsonl_lines(a + seq!['\n']) == jsonl_lines(a),
{
    lemma_split_lines_close(a);
    let xs = split_lines(a);
    let ys = split_lines(a + seq!['\n']);
    let l = xs.last();
    assert(ys.drop_last() =~= xs.drop_last());
    assert(ys.last() == strip_cr(l));
    if l.len() > 0 && l.last() == '\r' {
        assert(trim_end(l) == trim_end(l.drop_last()));
    }
}

/// The kept lines of every text that `jsonl_lines` gives are clean lines.
pub proof fn lemma_jsonl_lines_clean(text: Seq<char>)
    ensures
        forall|i: int|
            0 <= i < jsonl_lines(text).len() ==> clean_line(#[trigger] jsonl_lines(text)[i]),
{
    lemma_split_lines_no_newline(text);
    lemma_nonempty_lines_clean_from(split_lines(text));
}

proof fn lemma_nonempty_lines_clean_from(ls: Seq<Seq<char>>)
    requires
        forall|i: int, k: int|
            0 <= i < ls.len() && 0 <= k < ls[i].len() ==> #[trigger] ls[i][k] != '\n',
    ensures
        forall|i: int|
            0 <= i < nonempty_lines(ls).len() ==> clean_line(#[trigger] nonempty_lines(ls)[i]),
    decreases ls.len(),
{
    if ls.len() > 0 {
        let p = ls.drop_last();
        assert forall|i: int, k: int|
            0 <= i < p.len() && 0 <= k < p[i].len() implies #[trigger] p[i][k] != '\n' by {
            assert(p[i] == ls[i]);
        }
        lemma_nonempty_lines_clean_from(p);
        let l = ls.last();
        let t = trim_end(l);
        lemma_trim_end_blank(l);
        if t.len() > 0 {
            assert forall|k: int| 0 <= k < t.len() implies #[trigger] t[k] != '\n' by {
                assert(t[k] == l[k]);
                assert(ls[ls.len() - 1][k] != '\n');
            }
            assert(clean_line(t));
            let n = nonempty_lines(ls);
            assert(n == nonempty_lines(p).push(t));
            assert forall|i: int| 0 <= i < n.len() implies clean_line(#[trigger] n[i]) by {
                if i < n.len() - 1 {
                    assert(n[i] == nonempty_lines(p)[i]);
                }
            }
        } else {
            assert(nonempty_lines(ls) =~= nonempty_lines(p));
        }
    }
}

/// Appending keeps a log: after the text that `jsonl_append_text` gives is written at
/// the end of a log, its kept lines are its former kept lines followed by the
/// appended lines (for lines as a JSONL reader keeps them).
pub proof fn lemma_append_keeps_history(existing: Option<Seq<char>>, lines: Seq<Seq<char>>)
    requires
        forall|i: int| 0 <= i < lines.len() ==> clean_line(#[trigger] lines[i]),
    ensures
        ({
            let before = match existing {
                Some(e) => e,
                None => seq![],
            };
            jsonl_lines(before + append_text(existing, lines)) == jsonl_lines(before) + lines
        }),
{
    let before = match existing {
        Some(e) => e,
        None => Seq::<char>::empty(),
    };
    let lt = lines_text(lines);
    lemma_split_lines_text(lines);
    lemma_nonempty_lines_clean(lines);
    if needs_leading_newline(before) && existing is Some {
        let closed = before + seq!['\n'];
        assert(before + append_text(existing, lines) =~= closed + lt);
        lemma_split_lines_concat(closed, lt);
        lemma_nonempty_lines_concat(split_lines(closed), split_lines(lt));
        lemma_jsonl_close(before);
    } else {
        assert(before + append_text(existing, lines) =~= before + lt);
        if existing is None {
            assert(before.len() == 0);
        }
        lemma_split_lines_concat(before, lt);
        lemma_nonempty_lines_concat(split_lines(before), split_lines(lt));
    }
}

/// Merging twice adds nothing the second time: once the lines that a plan adds are
/// appended to the target, a new plan from the same source finds every line there.
pub proof fn lemma_merge_is_idempotent(source: Seq<char>, target: Option<Seq<char>>)
    ensures
        ({
            let before = match target {
                Some(t) => t,
                None => seq![],
            };
            let added = fresh_lines(jsonl_lines(before), jsonl_lines(source));
            let merged = before + append_text(target, added);
            fresh_lines(jsonl_lines(merged), jsonl_lines(source)).len() == 0
        }),
{
    let before = match target {
        Some(t) => t,
        None => Seq::<char>::empty(),
    };
    let known = jsonl_lines(before);
    let src = jsonl_lines(source);
    let added = fresh_lines(known, src);
    lemma_fresh_lines_cover(known, src);
    lemma_jsonl_lines_clean(source);
    assert forall|i: int| 0 <= i < added.len() implies clean_line(#[trigger] added[i]) by {
        assert(added.contains(added[i]));
        assert(known.contains(added[i]) || src.contains(added[i]));
        let k = choose|k: int| 0 <= k < src.len() && src[k] == added[i];
        assert(clean_line(src[k]));
    }
    lemma_append_keeps_history(target, added);
    let merged_lines = known + added;
    assert forall|x: Seq<char>| src.contains(x) implies merged_lines.contains(x) by {
        if known.contains(x) {
            let k = choose|k: int| 0 <= k < known.len() && known[k] == x;
            assert(merged_lines[k] == x);
        } else {
            assert(added.contains(x));
            let k = choose|k: int| 0 <= k < added.len() && added[k] == x;
            assert(merged_lines[known.len() + k] == x);
        }
    }
    lemma_fresh_lines_none(merged_lines, src);
}

proof fn lemma_fresh_lines_none(known: Seq<Seq<char>>, src: Seq<Seq<char>>)
    requires
        forall|x: Seq<char>| src.contains(x) ==> known.contains(x),
    ensures
        fresh_lines(known, src).len() == 0,
    decreases src.len(),
{
    if src.len() > 0 {
        let p = src.drop_last();
        assert forall|x: Seq<char>| p.contains(x) implies known.contains(x) by {
            let k = choose|k: int| 0 <= k < p.len() && p[k] == x;
            assert(src[k] == x);
        }
        lemma_fresh_lines_none(known, p);
        assert(src.contains(src[src.len() - 1]));
    }
}


/// A merge adds no line twice, none that the target already has, and only lines of
/// the source; every line of the source ends up in the target or among the added.
pub proof fn lemma_plan_adds_new_lines_once(known: Seq<Seq<char>>, src: Seq<Seq<char>>)
    ensures
        fresh_lines(known, src).no_duplicates(),
        forall|x: Seq<char>| fresh_lines(known, src).contains(x) ==> !known.contains(x) && src.contains(x),
        forall|x: Seq<char>| src.contains(x) ==> known.contains(x) || fresh_lines(known, src).contains(x),
    decreases src.len(),
{
    lemma_fresh_lines_cover(known, src);
    if src.len() > 0 {
        let p = src.drop_last();
        let x = src.last();
        lemma_plan_adds_new_lines_once(known, p);
        let prev = fresh_lines(known, p);
        if !(known.contains(x) || p.contains(x)) {
            assert(!prev.contains(x));
            assert forall|i: int, j: int|
                0 <= i < prev.push(x).len() && 0 <= j < prev.push(x).len() && i != j implies prev.push(x)[i]
                != prev.push(x)[j] by {
                if i < prev.len() && j < prev.len() {
                    assert(prev[i] != prev[j]);
                } else if i < prev.len() {
                    assert(prev.contains(prev[i]));
                } else if j < prev.len() {
                    assert(prev.contains(prev[j]));
                }
            }
        }
    }
}

/// The text of a file that may be missing (`None`), empty when it is.
pub open spec fn file_text(t: Option<Seq<char>>) -> Seq<char> {
    match t {
        Some(s) => s,
        None => seq![],
    }
}

/// A log after the lines of `source` are merged into it (`None`: no such file): as it
/// was when the merge adds no line, else with the text that `jsonl_append_text`
/// gives written at its end.
pub open spec fn merged_text(target: Option<Seq<char>>, source: Seq<char>) -> Option<Seq<char>> {
    let added = fresh_lines(jsonl_lines(file_text(target)), jsonl_lines(source));
    if added.len() == 0 {
        target
    } else {
        Some(file_text(target) + append_text(target, added))
    }
}

/// A second merge of the same source adds nothing.
pub proof fn lemma_second_merge_adds_nothing(target: Option<Seq<char>>, source: Seq<char>)
    ensures
        fresh_lines(jsonl_lines(file_text(merged_text(target, source))), jsonl_lines(source)).len()
            == 0,
{
    let known = jsonl_lines(file_text(target));
    let src = jsonl_lines(source);
    let added = fresh_lines(known, src);
    if added.len() == 0 {
        lemma_fresh_lines_cover(known, src);
        assert forall|x: Seq<char>| src.contains(x) implies known.contains(x) by {
            if !known.contains(x) {
                assert(added.contains(x));
            }
        }
        lemma_fresh_lines_none(known, src);
    } else {
        lemma_merge_is_idempotent(source, target);
    }
}

} // verus!
