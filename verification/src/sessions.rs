//! The plan for copying session files from one Codex home to another.
use vstd::prelude::*;

use crate::paths::{
    join_paths, lemma_lex_le_transitive, lex_less, lex_lt, path_key, path_key_of, path_lt,
    strip_prefix_spec, PathModel, PathPart,
};

verus! {

/// What a migration does with one session file.
#[derive(Clone, Copy, Debug, PartialEq, Eq, Structural)]
pub enum SessionAction {
    /// The target has no such file: copy it.
    Copy,
    /// The target has the same file with the same contents: leave it.
    Skip,
    /// The target has the file with other contents: refuse the migration.
    Conflict,
}

/// One session file of the source home and what a migration does with it.
#[derive(Debug, Clone, PartialEq, Eq)]
pub struct SessionPlan {
    pub relative_path: PathModel,
    pub source: PathModel,
    pub target: PathModel,
    pub action: SessionAction,
}

pub struct SessionPlanView {
    pub relative_path: Seq<PathPart>,
    pub source: Seq<PathPart>,
    pub target: Seq<PathPart>,
    pub action: SessionAction,
}

impl View for SessionPlan {
    type V = SessionPlanView;

    open spec fn view(&self) -> SessionPlanView {
        SessionPlanView {
            relative_path: self.relative_path@,
            source: self.source@,
            target: self.target@,
            action: self.action,
        }
    }
}

pub open spec fn plan_views(v: Seq<SessionPlan>) -> Seq<SessionPlanView> {
    v.map_values(|p: SessionPlan| p@)
}

/// The action for a session file with contents `source`, given the contents of the
/// file of the same name in the target (`None`: there is none).
pub open spec fn action_for(source: Seq<u8>, target: Option<Seq<u8>>) -> SessionAction {
    match target {
        None => SessionAction::Copy,
        Some(t) => if t == source {
            SessionAction::Skip
        } else {
            SessionAction::Conflict
        },
    }
}

/// A session file that a migration copies is one that a second migration skips: the
/// target then holds the same bytes.
pub proof fn lemma_copied_then_skipped(bytes: Seq<u8>)
    ensures
        action_for(bytes, None) == SessionAction::Copy,
        action_for(bytes, Some(bytes)) == SessionAction::Skip,
{
}

/// What to do with a session file: copy it when the target lacks it, skip it when
/// the target has the same bytes, refuse otherwise.
pub fn session_action(source: &Vec<u8>, target: Option<&Vec<u8>>) -> (r: SessionAction)
    ensures
        r == action_for(source@, match target {
            Some(t) => Some(t@),
            None => None,
        }),
{
    match target {
        None => SessionAction::Copy,
        Some(t) => {
            if t.len() != source.len() {
                return SessionAction::Conflict;
            }
            let mut i: usize = 0;
            while i < t.len()
                invariant
                    target == Some(t),
                    t@.len() == source@.len(),
                    i <= t@.len(),
                    forall|k: int| 0 <= k < i ==> t@[k] == source@[k],
                decreases t@.len() - i,
            {
                if t[i] != source[i] {
                    assert(t@[i as int] != source@[i as int]);
                    assert(t@ != source@);
                    return SessionAction::Conflict;
                }
                i = i + 1;
            }
            assert(t@ =~= source@);
            SessionAction::Skip
        },
    }
}

/// Where a session file found at `path` under the source tree `root` goes: its path
/// relative to `root`, and that path under `target_dir` (`None`: `path` is not
/// under `root`).
pub fn session_paths(root: &PathModel, path: &PathModel, target_dir: &PathModel) -> (r: Option<
    (PathModel, PathModel),
>)
    ensures
        r is None <==> strip_prefix_spec(path@, root@) is None,
        r matches Some((rel, target)) ==> {
            &&& strip_prefix_spec(path@, root@) == Some(rel@)
            &&& target@ == join_paths(target_dir@, rel@)
        },
{
    match path.strip_prefix(root) {
        Some(rel) => {
            let target = target_dir.join(&rel);
            Some((rel, target))
        },
        None => None,
    }
}

/// In order of relative path (equal paths in any order).
pub open spec fn plans_sorted(v: Seq<SessionPlanView>) -> bool {
    forall|i: int, j: int|
        0 <= i < j < v.len() ==> !path_lt(#[trigger] v[j].relative_path, #[trigger] v[i].relative_path)
}

/// The plans whose relative path is `p`, in order.
pub open spec fn with_path(v: Seq<SessionPlanView>, p: Seq<PathPart>) -> Seq<SessionPlanView>
    decreases v.len(),
{
    if v.len() == 0 {
        seq![]
    } else {
        with_path(v.drop_last(), p) + if v.last().relative_path == p {
            seq![v.last()]
        } else {
            seq![]
        }
    }
}

proof fn lemma_with_path_add(a: Seq<SessionPlanView>, b: Seq<SessionPlanView>, p: Seq<PathPart>)
    ensures
        with_path(a + b, p) == with_path(a, p) + with_path(b, p),
    decreases b.len(),
{
    if b.len() == 0 {
        assert(a + b =~= a);
        assert(with_path(a, p) + with_path(b, p) =~= with_path(a, p));
    } else {
        lemma_with_path_add(a, b.drop_last(), p);
        assert((a + b).drop_last() =~= a + b.drop_last());
        assert((a + b).last() == b.last());
    }
}

proof fn lemma_with_path_none(a: Seq<SessionPlanView>, p: Seq<PathPart>)
    requires
        forall|k: int| 0 <= k < a.len() ==> (#[trigger] a[k]).relative_path != p,
    ensures
        with_path(a, p) == Seq::<SessionPlanView>::empty(),
    decreases a.len(),
{
    if a.len() > 0 {
        assert forall|k: int| 0 <= k < a.drop_last().len() implies (
        #[trigger] a.drop_last()[k]).relative_path != p by {
            assert(a.drop_last()[k] == a[k]);
        }
        lemma_with_path_none(a.drop_last(), p);
        assert(a.last() == a[a.len() - 1]);
        assert(with_path(a, p) =~= Seq::<SessionPlanView>::empty());
    }
}

/// The session plan (`session_plan`): the entries ordered by relative path; entries
/// with the same relative path keep their order (a stable sort).
pub fn session_plan(entries: Vec<SessionPlan>) -> (r: Vec<SessionPlan>)
    ensures
        plans_sorted(plan_views(r@)),
        plan_views(r@).to_multiset() == plan_views(entries@).to_multiset(),
        forall|p: Seq<PathPart>|
            #[trigger] with_path(plan_views(r@), p) == with_path(plan_views(entries@), p),
{
    let mut out: Vec<SessionPlan> = Vec::new();
    let mut keys: Vec<Vec<u32>> = Vec::new();
    let mut rest = entries;
    let ghost all = plan_views(rest@);
    let n = rest.len();
    // Entries are taken from the back, each placed before the equal keys already
    // placed, so that equal paths keep their order.
    assert(all.skip(n as int) =~= Seq::<SessionPlanView>::empty());
    assert(plan_views(out@) =~= Seq::<SessionPlanView>::empty());
    while rest.len() > 0
        invariant
            rest@.len() <= n,
            n == all.len(),
            plan_views(rest@) == all.take(rest@.len() as int),
            keys@.len() == out@.len(),
            forall|k: int| 0 <= k < keys@.len() ==> #[trigger] keys@[k]@ == path_key(
                out@[k].relative_path@,
            ),
            plans_sorted(plan_views(out@)),
            plan_views(out@).to_multiset() == all.skip(rest@.len() as int).to_multiset(),
            forall|p: Seq<PathPart>|
                #[trigger] with_path(plan_views(out@), p) == with_path(
                    all.skip(rest@.len() as int),
                    p,
                ),
        decreases rest@.len(),
    {
        let ghost before_rest = plan_views(rest@);
        let ghost old_vec = rest@;
        let item = rest.pop().unwrap();
        assert(item == old_vec.last());
        assert(before_rest[old_vec.len() - 1] == item@);
        assert(all[old_vec.len() - 1] == item@);
        assert(plan_views(rest@) =~= before_rest.drop_last());
        assert(all.take(rest@.len() as int) =~= before_rest.drop_last());
        let key = path_key_of(&item.relative_path);
        let mut pos: usize = 0;
        while pos < keys.len() && lex_less(&keys[pos], &key)
            invariant
                pos <= keys@.len(),
                keys@.len() == out@.len(),
                forall|k: int| 0 <= k < pos ==> lex_lt(#[trigger] keys@[k]@, key@),
            decreases keys@.len() - pos,
        {
            pos = pos + 1;
        }
        let ghost before = plan_views(out@);
        let ghost iv = item@;
        let ghost old_keys = keys@;
        out.insert(pos, item);
        keys.insert(pos, key);
        proof {
            assert(plan_views(out@) =~= before.insert(pos as int, iv));
            vstd::seq_lib::to_multiset_insert(before, pos as int, iv);
            let s_old = all.skip(rest@.len() as int + 1);
            let s_new = all.skip(rest@.len() as int);
            assert(s_new =~= seq![iv] + s_old);
            assert(all[rest@.len() as int] == iv);
            vstd::seq_lib::lemma_seq_union_to_multiset_commutative(seq![iv], s_old);
            vstd::seq_lib::to_multiset_build(s_old, iv);
            assert(s_old.push(iv) =~= s_old + seq![iv]);
            assert(plan_views(out@).to_multiset() == before.to_multiset().insert(iv));
            assert(before.to_multiset() == s_old.to_multiset());
            assert(s_new.to_multiset() == (s_old + seq![iv]).to_multiset());
            assert(s_new.to_multiset() == s_old.to_multiset().insert(iv));
            assert(forall|k: int|
                0 <= k < old_keys.len() ==> #[trigger] old_keys[k]@ == path_key(
                    before[k].relative_path,
                ));
            assert(iv.relative_path == before.insert(pos as int, iv)[pos as int].relative_path);
            assert(key@ == path_key(iv.relative_path));
            assert forall|p: Seq<PathPart>|
                #[trigger] with_path(plan_views(out@), p) == with_path(s_new, p) by {
                let head = before.take(pos as int);
                let tail = before.skip(pos as int);
                assert(before =~= head + tail);
                assert(plan_views(out@) =~= head + (seq![iv] + tail));
                lemma_with_path_add(head, seq![iv] + tail, p);
                lemma_with_path_add(seq![iv], tail, p);
                lemma_with_path_add(head, tail, p);
                lemma_with_path_add(seq![iv], s_old, p);
                assert(with_path(before, p) == with_path(s_old, p));
                assert(seq![iv].drop_last() =~= Seq::<SessionPlanView>::empty());
                assert(seq![iv].last() == iv);
                assert(with_path(Seq::<SessionPlanView>::empty(), p) =~= Seq::<SessionPlanView>::empty());
                assert(with_path(seq![iv], p) == with_path(seq![iv].drop_last(), p) + if iv.relative_path == p {
                    seq![iv]
                } else {
                    seq![]
                });
                if p == iv.relative_path {
                    assert forall|k: int| 0 <= k < head.len() implies (#[trigger] head[k]).relative_path
                        != p by {
                        assert(head[k] == before[k]);
                        assert(lex_lt(old_keys[k]@, key@));
                        if before[k].relative_path == p {
                            assert(old_keys[k]@ == key@);
                            crate::paths::lemma_lex_irreflexive(key@);
                        }
                    }
                    lemma_with_path_none(head, p);
                    assert(head + tail =~= before);
                    assert(Seq::<SessionPlanView>::empty() + with_path(tail, p) =~= with_path(tail, p));
                } else {
                    assert(with_path(seq![iv], p) =~= Seq::<SessionPlanView>::empty());
                }
            }
            assert forall|a: int, b: int|
                0 <= a < b < plan_views(out@).len() implies !path_lt(
                #[trigger] plan_views(out@)[b].relative_path,
                #[trigger] plan_views(out@)[a].relative_path,
            ) by {
                let o = plan_views(out@);
                if b < pos {
                    assert(o[a] == before[a] && o[b] == before[b]);
                } else if b == pos {
                    assert(o[a] == before[a]);
                    assert(lex_lt(old_keys[a]@, key@));
                    crate::paths::lemma_lex_asymmetric(old_keys[a]@, key@);
                } else if a == pos {
                    assert(o[b] == before[b - 1]);
                    assert(!lex_lt(old_keys[pos as int]@, key@));
                    if b - 1 > pos {
                        assert(!path_lt(before[b - 1].relative_path, before[pos as int].relative_path));
                        lemma_lex_le_transitive(key@, old_keys[pos as int]@, old_keys[b - 1]@);
                    }
                } else if a < pos {
                    assert(o[a] == before[a] && o[b] == before[b - 1]);
                    assert(lex_lt(old_keys[a]@, key@));
                    crate::paths::lemma_lex_asymmetric(old_keys[a]@, key@);
                    assert(!lex_lt(old_keys[pos as int]@, key@));
                    lemma_lex_le_transitive(old_keys[a]@, key@, old_keys[pos as int]@);
                    if b - 1 > pos {
                        assert(!path_lt(before[b - 1].relative_path, before[pos as int].relative_path));
                        lemma_lex_le_transitive(old_keys[a]@, old_keys[pos as int]@, old_keys[b - 1]@);
                    }
                } else {
                    assert(o[a] == before[a - 1] && o[b] == before[b - 1]);
                }
            }
        }
    }
    assert(all.skip(0) =~= all);
    out
}

/// What a migration does with one session file: it copies a file that the target
/// lacks, skips one only when the target holds exactly the same bytes, and refuses
/// (a conflict) whenever the target holds any other bytes, longer, shorter or changed.
pub proof fn lemma_skip_only_on_same_bytes(source: Seq<u8>, target: Seq<u8>)
    ensures
        action_for(source, None) == SessionAction::Copy,
        action_for(source, Some(target)) == SessionAction::Skip <==> target == source,
        action_for(source, Some(target)) == SessionAction::Conflict <==> target != source,
        action_for(source, Some(target)) != SessionAction::Copy,
{
}

} // verus!
