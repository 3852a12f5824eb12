//! Properties that relate several operations, stated over the operations' own contracts.

use vstd::prelude::*;

use crate::commands::{done_outcome, edit_applied, rebranched, EditOpts};
use crate::import::{
    built, import_fold, import_report, import_start, import_step, row_branch, uid_filled, ImportResult,
    ImportState, TaskParts,
};
use crate::model::AppConfig;
use crate::ops::ID_LIMIT;
use crate::date::Date;
use crate::model::{IdScope, Repeat, SortKey, TaskView};
use crate::ops::{
    after_set_done, flip_pred, in_branch, is_successor, lemma_max_id, max_id, move_outcome, moved,
    picked, rank, set_done_outcome, spawn_pred, spawns,
};
use crate::sort::{
    due_part, lemma_lex_concat, lex_cmp, priority_value, sort_key, sorted_by, task_cmp,
};
use crate::text::{
    ascii_fold, lemma_sorted_unique, same_text, trim_of, sorted_set, strictly_sorted, tag_norm, tag_set,
};

verus! {

/// Ids never repeat within their scope: within a branch (ignoring ASCII case), or anywhere.
pub open spec fn ids_unique(tasks: Seq<TaskView>, scope: IdScope) -> bool {
    forall|i: int, j: int|
        #![trigger tasks[i], tasks[j]]
        0 <= i < j < tasks.len() && (scope == IdScope::Global || in_branch(tasks[i], tasks[j].branch))
            ==> tasks[i].id != tasks[j].id
}

proof fn lemma_no_match_filter(s: Seq<TaskView>, p: spec_fn(TaskView) -> bool)
    requires
        forall|i: int| 0 <= i < s.len() ==> !p(#[trigger] s[i]),
    ensures
        s.filter(p).len() == 0,
{
    assert(s.all(|x: TaskView| !p(x)));
    s.lemma_all_neg_filter_empty(p);
}

/// Marking done with the same query twice in a row changes nothing the second time, where no
/// picked task repeats.
pub proof fn law_bulk_done_idempotent(
    before: Seq<TaskView>,
    mid: Seq<TaskView>,
    after: Seq<TaskView>,
    q: Seq<char>,
    b: Seq<char>,
    scope: IdScope,
    today: Date,
    stamp: Seq<char>,
    use_uuid: bool,
    first: int,
    second: int,
)
    requires
        forall|i: int| 0 <= i < before.len() && picked(#[trigger] before[i], q, b) ==> before[i].repeat is None,
        set_done_outcome(before, mid, q, b, true, scope, today, stamp, use_uuid, first),
        set_done_outcome(mid, after, q, b, true, scope, today, stamp, use_uuid, second),
    ensures
        second == 0,
{
    lemma_no_match_filter(before, spawn_pred(q, b, today));
    assert forall|i: int| 0 <= i < mid.len() implies !flip_pred(q, b, true)(#[trigger] mid[i]) by {
        assert(mid[i] == after_set_done(before[i], q, b, true));
    }
    lemma_no_match_filter(mid, flip_pred(q, b, true));
}

/// Normalising a list that is already sorted, free of repeats, and made of tags that
/// normalise to themselves gives the same list back.
pub proof fn law_normalized_tags_stable(tags: Seq<Seq<char>>)
    requires
        strictly_sorted(tags),
        forall|i: int| 0 <= i < tags.len() ==> tag_norm(#[trigger] tags[i]) == Some(tags[i]),
    ensures
        sorted_set(tag_set(tags)) == tags,
{
    assert(tag_set(tags) =~= tags.to_set()) by {
        assert forall|t: Seq<char>| tag_set(tags).contains(t) implies tags.to_set().contains(t) by {
            let k = choose|k: int| 0 <= k < tags.len() && tag_norm(tags[k]) == Some(t);
            assert(tags[k] == t);
        }
        assert forall|t: Seq<char>| tags.to_set().contains(t) implies tag_set(tags).contains(t) by {
            let k = choose|k: int| 0 <= k < tags.len() && tags[k] == t;
            assert(tag_norm(tags[k]) == Some(t));
        }
    }
    let s = sorted_set(tags.to_set());
    assert(strictly_sorted(s) && s.to_set() == tags.to_set()) by {
        assert(strictly_sorted(tags) && tags.to_set() == tags.to_set());
    }
    lemma_sorted_unique(s, tags);
}

proof fn lemma_rank_grows(before: Seq<TaskView>, i: int, j: int, p: spec_fn(TaskView) -> bool)
    requires
        0 <= i < j <= before.len(),
        p(before[i]),
    ensures
        rank(before, j, p) >= rank(before, i, p) + 1,
{
    let a = before.take(i + 1);
    let c = before.subrange(i + 1, j);
    assert(before.take(j) =~= a + c);
    Seq::filter_distributes_over_add(a, c, p);
    assert(a =~= before.take(i).push(before[i]));
    before.take(i).lemma_filter_push(before[i], p);
}

/// Marking done or open keeps ids unique within their scope: successors take ids above every
/// id in scope.
pub proof fn law_set_done_keeps_ids_unique(
    before: Seq<TaskView>,
    after: Seq<TaskView>,
    q: Seq<char>,
    b: Seq<char>,
    flag: bool,
    scope: IdScope,
    today: Date,
    stamp: Seq<char>,
    use_uuid: bool,
    count: int,
)
    requires
        ids_unique(before, scope),
        set_done_outcome(before, after, q, b, flag, scope, today, stamp, use_uuid, count),
    ensures
        ids_unique(after, scope),
{
    let src = crate::ops::spawn_sources(before, q, b, flag, today);
    let start = max_id(before, scope, b) + 1;
    let n = before.len() as int;
    lemma_bound_ids(before);
    lemma_max_id(before, scope, b, u64::MAX as int);
    assert forall|j: int| 0 <= j < src.len() implies in_branch(#[trigger] src[j], b) by {
        assert(spawn_pred(q, b, today)(src[j]));
    }
    assert forall|i: int, j: int|
        #![trigger after[i], after[j]]
        0 <= i < j < after.len() && (scope == IdScope::Global || in_branch(after[i], after[j].branch))
            implies after[i].id != after[j].id by {
        if j < n {
            assert(after[i] == after_set_done(before[i], q, b, flag));
            assert(after[j] == after_set_done(before[j], q, b, flag));
        } else if i < n {
            assert(after[i] == after_set_done(before[i], q, b, flag));
            assert(is_successor(src[j - n], after[n + (j - n)], start + (j - n), today, stamp, use_uuid));
            if scope == IdScope::Branch {
                assert(in_branch(src[j - n], b));
                assert(crate::ops::scoped(before[i], scope, b));
            }
        } else {
            assert(is_successor(src[i - n], after[n + (i - n)], start + (i - n), today, stamp, use_uuid));
            assert(is_successor(src[j - n], after[n + (j - n)], start + (j - n), today, stamp, use_uuid));
        }
    }
}

proof fn lemma_bound_ids(v: Seq<TaskView>)
    ensures
        forall|i: int| 0 <= i < v.len() ==> (#[trigger] v[i]).id <= u64::MAX,
{
}

/// A bulk move keeps ids unique within their scope: under branch-scoped ids the moved tasks
/// take ids above every id of the target branch.
pub proof fn law_move_keeps_ids_unique(
    before: Seq<TaskView>,
    after: Seq<TaskView>,
    p: spec_fn(TaskView) -> bool,
    target: Seq<char>,
    scope: IdScope,
    count: int,
)
    requires
        ids_unique(before, scope),
        move_outcome(before, after, p, target, scope, count),
        crate::ops::id_room(before),
    ensures
        ids_unique(after, scope),
{
    let start = max_id(before, scope, target) + 1;
    lemma_max_id(before, scope, target, crate::ops::ID_LIMIT - 1);
    assert forall|i: int| 0 <= i < before.len() implies rank(before, i, p) <= i by {
        before.take(i).lemma_filter_len(p);
    }
    assert forall|i: int, j: int|
        #![trigger after[i], after[j]]
        0 <= i < j < after.len() && (scope == IdScope::Global || in_branch(after[i], after[j].branch))
            implies after[i].id != after[j].id by {
        let (x, y) = (before[i], before[j]);
        assert(after[i] == if p(x) { moved(x, target, scope, start + rank(before, i, p)) } else { x });
        assert(after[j] == if p(y) { moved(y, target, scope, start + rank(before, j, p)) } else { y });
        if scope == IdScope::Branch {
            if p(x) && p(y) {
                lemma_rank_grows(before, i, j, p);
            } else if p(x) {
                assert(same_text(target, y.branch));
                assert(crate::ops::scoped(y, scope, target));
            } else if p(y) {
                assert(same_text(x.branch, target));
                assert(crate::ops::scoped(x, scope, target));
            }
        }
    }
}

/// Completing a weekly task due on `d` appends a successor due exactly seven days later,
/// open, with an id above every id in the task's branch.
pub proof fn law_weekly_successor(
    before: Seq<TaskView>,
    after: Seq<TaskView>,
    k: int,
    scope: IdScope,
    today: Date,
    stamp: Seq<char>,
    use_uuid: bool,
    d: Date,
)
    requires
        0 <= k < before.len(),
        before[k].repeat == Some(Repeat::Weekly),
        before[k].due == Some(d),
        !before[k].done,
        spawns(before[k], today),
        done_outcome(before, after, k, scope, today, stamp, use_uuid),
    ensures
        after.len() == before.len() + 1,
        after.last().due matches Some(x) && x.number() == d.number() + 7,
        !after.last().done,
        forall|i: int|
            0 <= i < before.len() && in_branch(#[trigger] before[i], before[k].branch) ==> before[i].id
                < after.last().id,
{
    let t = before[k];
    lemma_bound_ids(before);
    lemma_max_id(before, scope, t.branch, u64::MAX as int);
    assert forall|i: int|
        0 <= i < before.len() && in_branch(#[trigger] before[i], before[k].branch) implies before[i].id
        < after.last().id by {
        assert(crate::ops::scoped(before[i], scope, t.branch));
    }
}

/// Under the priority key, tasks of equal priority stay in ascending order of due date (undated
/// last) in both directions, and tasks of equal priority and due date in ascending order of id.
pub proof fn law_priority_ties_by_ascending_due(v: Seq<TaskView>, desc: bool, i: int, j: int)
    requires
        sorted_by(v, SortKey::Priority, desc),
        0 <= i < j < v.len(),
        v[i].priority == v[j].priority,
    ensures
        lex_cmp(due_part(v[i], false), due_part(v[j], false)) <= 0,
        v[i].due == v[j].due ==> v[i].id <= v[j].id,
{
    let (a, b) = (v[i], v[j]);
    let (pa, pb) = (seq![priority_value(a.priority, desc)], seq![priority_value(b.priority, desc)]);
    let (ida, idb) = (seq![a.id as int], seq![b.id as int]);
    assert(task_cmp(a, b, SortKey::Priority, desc) <= 0);
    lemma_lex_concat(pa, due_part(a, false), pb, due_part(b, false));
    lemma_lex_concat(pa + due_part(a, false), ida, pb + due_part(b, false), idb);
    assert(sort_key(a, SortKey::Priority, desc) == pa + due_part(a, false) + ida);
    assert(sort_key(b, SortKey::Priority, desc) == pb + due_part(b, false) + idb);
    crate::sort::lemma_lex_antisymmetric(pa, pb);
    crate::sort::lemma_lex_antisymmetric(due_part(a, false), due_part(b, false));
    reveal_with_fuel(lex_cmp, 2);
    assert(pa.drop_first() =~= Seq::<int>::empty());
    assert(pb.drop_first() =~= Seq::<int>::empty());
    assert(ida.drop_first() =~= Seq::<int>::empty());
    assert(idb.drop_first() =~= Seq::<int>::empty());
}

/// Under the due key, tasks with the same due date stay in order of urgency (no priority last)
/// and then of id, in both directions.
pub proof fn law_due_ties_by_urgency_then_id(v: Seq<TaskView>, desc: bool, i: int, j: int)
    requires
        sorted_by(v, SortKey::Due, desc),
        0 <= i < j < v.len(),
        v[i].due == v[j].due,
    ensures
        priority_value(v[i].priority, false) <= priority_value(v[j].priority, false),
        priority_value(v[i].priority, false) == priority_value(v[j].priority, false) ==> v[i].id
            <= v[j].id,
{
    let (a, b) = (v[i], v[j]);
    let (pa, pb) = (seq![priority_value(a.priority, false)], seq![priority_value(b.priority, false)]);
    let (ida, idb) = (seq![a.id as int], seq![b.id as int]);
    assert(task_cmp(a, b, SortKey::Due, desc) <= 0);
    assert(due_part(a, desc) == due_part(b, desc));
    crate::sort::lemma_lex_antisymmetric(due_part(a, desc), due_part(b, desc));
    lemma_lex_concat(pa, ida, pb, idb);
    assert(pa + ida =~= seq![priority_value(a.priority, false), a.id as int]);
    assert(pb + idb =~= seq![priority_value(b.priority, false), b.id as int]);
    lemma_lex_concat(due_part(a, desc), pa + ida, due_part(b, desc), pb + idb);
    assert(sort_key(a, SortKey::Due, desc) == due_part(a, desc) + (pa + ida));
    assert(sort_key(b, SortKey::Due, desc) == due_part(b, desc) + (pb + idb));
    reveal_with_fuel(lex_cmp, 2);
    assert(pa.drop_first() =~= Seq::<int>::empty());
    assert(pb.drop_first() =~= Seq::<int>::empty());
    assert(ida.drop_first() =~= Seq::<int>::empty());
    assert(idb.drop_first() =~= Seq::<int>::empty());
}

proof fn lemma_sorted_perm_unique(s1: Seq<TaskView>, s2: Seq<TaskView>, key: SortKey, desc: bool)
    requires
        sorted_by(s1, key, desc),
        sorted_by(s2, key, desc),
        s1.to_multiset() == s2.to_multiset(),
        forall|i: int, j: int|
            #![trigger s1[i], s1[j]]
            0 <= i < s1.len() && 0 <= j < s1.len() && i != j ==> task_cmp(s1[i], s1[j], key, desc)
                != 0,
    ensures
        s1 == s2,
    decreases s1.len(),
{
    broadcast use vstd::seq_lib::group_to_multiset_ensures;

    if s1.len() == 0 {
        if s2.len() > 0 {
            assert(s2.to_multiset().count(s2[0]) > 0);
            assert(s2.contains(s2[0]));
        }
        assert(s1 =~= s2);
    } else {
        assert(s1.contains(s1[0]));
        assert(s2.to_multiset().count(s1[0]) > 0);
        assert(s2.contains(s1[0]));
        assert(s2.len() > 0);
        assert(s2.contains(s2[0]));
        assert(s1.to_multiset().count(s2[0]) > 0);
        assert(s1.contains(s2[0]));
        if s1[0] != s2[0] {
            let k = choose|k: int| 0 <= k < s2.len() && s2[k] == s1[0];
            let m = choose|m: int| 0 <= m < s1.len() && s1[m] == s2[0];
            assert(task_cmp(s2[0], s2[k], key, desc) <= 0);
            assert(task_cmp(s1[0], s1[m], key, desc) <= 0);
            crate::sort::lemma_cmp_antisymmetric(s1[0], s2[0], key, desc);
        }
        let (t1, t2) = (s1.drop_first(), s2.drop_first());
        assert(s1.remove(0) =~= t1);
        assert(s2.remove(0) =~= t2);
        assert forall|i: int, j: int| 0 <= i < j < t1.len() implies task_cmp(
            #[trigger] t1[i],
            #[trigger] t1[j],
            key,
            desc,
        ) <= 0 by {
            assert(task_cmp(s1[i + 1], s1[j + 1], key, desc) <= 0);
        }
        assert forall|i: int, j: int| 0 <= i < j < t2.len() implies task_cmp(
            #[trigger] t2[i],
            #[trigger] t2[j],
            key,
            desc,
        ) <= 0 by {
            assert(task_cmp(s2[i + 1], s2[j + 1], key, desc) <= 0);
        }
        assert forall|i: int, j: int|
            #![trigger t1[i], t1[j]]
            0 <= i < t1.len() && 0 <= j < t1.len() && i != j implies task_cmp(t1[i], t1[j], key, desc)
            != 0 by {
            assert(t1[i] == s1[i + 1] && t1[j] == s1[j + 1]);
        }
        lemma_sorted_perm_unique(t1, t2, key, desc);
        assert(s1 =~= seq![s1[0]] + t1);
        assert(s2 =~= seq![s2[0]] + t2);
    }
}

/// The two tasks differ in the field that `key` compares: the id, the creation time, or (for the
/// due key) a due date that both have.
pub open spec fn sort_field_differs(x: TaskView, y: TaskView, key: SortKey) -> bool {
    match key {
        SortKey::Created => x.created_at != y.created_at,
        SortKey::Due => x.due is Some && y.due is Some && x.due != y.due,
        _ => x.id != y.id,
    }
}

proof fn lemma_date_flip(a: Date, b: Date)
    requires
        a != b,
    ensures
        lex_cmp(
            seq![0int, -(a.year as int), -(a.month as int), -(a.day as int)],
            seq![0int, -(b.year as int), -(b.month as int), -(b.day as int)],
        ) == lex_cmp(
            seq![0int, b.year as int, b.month as int, b.day as int],
            seq![0int, a.year as int, a.month as int, a.day as int],
        ),
        lex_cmp(
            seq![0int, a.year as int, a.month as int, a.day as int],
            seq![0int, b.year as int, b.month as int, b.day as int],
        ) != 0,
{
    reveal_with_fuel(lex_cmp, 5);
    let (x, y) = (seq![0int, -(a.year as int), -(a.month as int), -(a.day as int)], seq![0int, -(b.year as int), -(b.month as int), -(b.day as int)]);
    let (u, w) = (seq![0int, b.year as int, b.month as int, b.day as int], seq![0int, a.year as int, a.month as int, a.day as int]);
    assert(x.drop_first() =~= seq![-(a.year as int), -(a.month as int), -(a.day as int)]);
    assert(y.drop_first() =~= seq![-(b.year as int), -(b.month as int), -(b.day as int)]);
    assert(u.drop_first() =~= seq![b.year as int, b.month as int, b.day as int]);
    assert(w.drop_first() =~= seq![a.year as int, a.month as int, a.day as int]);
    assert(x.drop_first().drop_first() =~= seq![-(a.month as int), -(a.day as int)]);
    assert(y.drop_first().drop_first() =~= seq![-(b.month as int), -(b.day as int)]);
    assert(u.drop_first().drop_first() =~= seq![b.month as int, b.day as int]);
    assert(w.drop_first().drop_first() =~= seq![a.month as int, a.day as int]);
    assert(x.drop_first().drop_first().drop_first() =~= seq![-(a.day as int)]);
    assert(y.drop_first().drop_first().drop_first() =~= seq![-(b.day as int)]);
    assert(u.drop_first().drop_first().drop_first() =~= seq![b.day as int]);
    assert(w.drop_first().drop_first().drop_first() =~= seq![a.day as int]);
}

proof fn lemma_flip(x: TaskView, y: TaskView, key: SortKey)
    requires
        key == SortKey::Id || key == SortKey::Created || key == SortKey::Due,
        sort_field_differs(x, y, key),
    ensures
        task_cmp(x, y, key, true) == task_cmp(y, x, key, false),
        task_cmp(x, y, key, false) != 0,
{
    reveal_with_fuel(lex_cmp, 2);
    assert(seq![-(x.id as int)].drop_first() =~= Seq::<int>::empty());
    assert(seq![-(y.id as int)].drop_first() =~= Seq::<int>::empty());
    assert(seq![x.id as int].drop_first() =~= Seq::<int>::empty());
    assert(seq![y.id as int].drop_first() =~= Seq::<int>::empty());
    if key == SortKey::Due {
        let (a, b) = (x.due->0, y.due->0);
        lemma_date_flip(a, b);
        let rx = seq![priority_value(x.priority, false), x.id as int];
        let ry = seq![priority_value(y.priority, false), y.id as int];
        assert(due_part(x, true) == seq![0int, -(a.year as int), -(a.month as int), -(a.day as int)]);
        assert(due_part(y, true) == seq![0int, -(b.year as int), -(b.month as int), -(b.day as int)]);
        assert(due_part(x, false) == seq![0int, a.year as int, a.month as int, a.day as int]);
        assert(due_part(y, false) == seq![0int, b.year as int, b.month as int, b.day as int]);
        crate::sort::lemma_lex_antisymmetric(due_part(x, false), due_part(y, false));
        lemma_lex_concat(due_part(x, true), rx, due_part(y, true), ry);
        lemma_lex_concat(due_part(y, false), ry, due_part(x, false), rx);
        lemma_lex_concat(due_part(x, false), rx, due_part(y, false), ry);
        assert(sort_key(x, key, true) == due_part(x, true) + rx);
        assert(sort_key(y, key, true) == due_part(y, true) + ry);
        assert(sort_key(x, key, false) == due_part(x, false) + rx);
        assert(sort_key(y, key, false) == due_part(y, false) + ry);
    }
}

/// Under the id, creation or due key, where no two tasks share the compared field (for the due
/// key: every task is dated, on different days), sorting in descending order gives the
/// ascending order reversed.
pub proof fn law_desc_reverses_asc(
    v: Seq<TaskView>,
    asc: Seq<TaskView>,
    desc_order: Seq<TaskView>,
    key: SortKey,
)
    requires
        key == SortKey::Id || key == SortKey::Created || key == SortKey::Due,
        forall|i: int, j: int|
            #![trigger v[i], v[j]]
            0 <= i < j < v.len() ==> sort_field_differs(v[i], v[j], key),
        asc.to_multiset() == v.to_multiset(),
        desc_order.to_multiset() == v.to_multiset(),
        sorted_by(asc, key, false),
        sorted_by(desc_order, key, true),
    ensures
        desc_order == asc.reverse(),
{
    broadcast use vstd::seq_lib::group_to_multiset_ensures;
    broadcast use vstd::multiset::group_multiset_axioms;

    let r = asc.reverse();
    let n = asc.len() as int;
    asc.lemma_reverse_to_multiset();
    assert forall|i: int, j: int|
        #![trigger r[i], r[j]]
        0 <= i < r.len() && 0 <= j < r.len() && i != j implies sort_field_differs(r[i], r[j], key) by {
        let (x, y) = (r[i], r[j]);
        assert(r.contains(x) && r.contains(y));
        assert(r.to_multiset().count(x) > 0);
        assert(r.to_multiset().count(y) > 0);
        assert(v.contains(x));
        assert(v.contains(y));
        let a = choose|a: int| 0 <= a < v.len() && v[a] == x;
        let b = choose|b: int| 0 <= b < v.len() && v[b] == y;
        if a == b {
            // the same entry of `v` can sit at two places only if it occurs twice in `v`
            assert(r.to_multiset().count(x) >= 2) by {
                let rr = r.remove(i);
                assert(rr.contains(y)) by {
                    if j < i {
                        assert(rr[j] == y);
                    } else {
                        assert(rr[j - 1] == y);
                    }
                }
                vstd::seq_lib::to_multiset_remove(r, i);
                assert(rr.to_multiset().count(x) > 0);
                assert(r.to_multiset().remove(x).count(x) > 0);
            }
            assert(v.to_multiset().count(x) >= 2);
            assert(v.remove(a).contains(x)) by {
                vstd::seq_lib::to_multiset_remove(v, a);
                assert(v.remove(a).to_multiset().count(x) > 0);
            }
            let c = choose|c: int| 0 <= c < v.remove(a).len() && v.remove(a)[c] == x;
            if c < a {
                assert(sort_field_differs(v[c], v[a], key));
            } else {
                assert(sort_field_differs(v[a], v[c + 1], key));
            }
        } else if a < b {
            assert(sort_field_differs(v[a], v[b], key));
        } else {
            assert(sort_field_differs(v[b], v[a], key));
        }
    }
    assert forall|i: int, j: int| 0 <= i < j < r.len() implies task_cmp(
        #[trigger] r[i],
        #[trigger] r[j],
        key,
        true,
    ) <= 0 by {
        assert(sort_field_differs(r[i], r[j], key));
        lemma_flip(r[i], r[j], key);
        assert(r[i] == asc[n - 1 - i] && r[j] == asc[n - 1 - j]);
        assert(task_cmp(asc[n - 1 - j], asc[n - 1 - i], key, false) <= 0);
    }
    assert forall|i: int, j: int|
        #![trigger r[i], r[j]]
        0 <= i < r.len() && 0 <= j < r.len() && i != j implies task_cmp(r[i], r[j], key, true)
        != 0 by {
        assert(sort_field_differs(r[j], r[i], key));
        assert(sort_field_differs(r[i], r[j], key));
        lemma_flip(r[j], r[i], key);
        lemma_flip(r[i], r[j], key);
    }
    lemma_sorted_perm_unique(r, desc_order, key, true);
}

/// Completing a task by id keeps ids unique within their scope: its successor takes the next
/// free id of the task's branch.
pub proof fn law_done_keeps_ids_unique(
    before: Seq<TaskView>,
    after: Seq<TaskView>,
    k: int,
    scope: IdScope,
    today: Date,
    stamp: Seq<char>,
    use_uuid: bool,
)
    requires
        0 <= k < before.len(),
        ids_unique(before, scope),
        done_outcome(before, after, k, scope, today, stamp, use_uuid),
    ensures
        ids_unique(after, scope),
{
    let t = before[k];
    let n = before.len() as int;
    lemma_bound_ids(before);
    lemma_max_id(before, scope, t.branch, u64::MAX as int);
    let pre = after.take(n);
    assert forall|i: int, j: int|
        #![trigger after[i], after[j]]
        0 <= i < j < after.len() && (scope == IdScope::Global || in_branch(after[i], after[j].branch))
            implies after[i].id != after[j].id by {
        assert(pre[i] == after[i]);
        if j < n {
            assert(pre[j] == after[j]);
        } else {
            assert(crate::ops::scoped(before[i], scope, t.branch));
        }
    }
}

/// Creating a task keeps ids unique within their scope: it takes the next free id of its
/// branch, or of the whole list.
pub proof fn law_create_keeps_ids_unique(
    before: Seq<TaskView>,
    after: Seq<TaskView>,
    scope: IdScope,
    id: int,
)
    requires
        ids_unique(before, scope),
        after.len() == before.len() + 1,
        after.drop_last() == before,
        id == max_id(before, scope, after.last().branch) + 1,
        after.last().id == id,
    ensures
        ids_unique(after, scope),
{
    let n = before.len() as int;
    lemma_bound_ids(before);
    lemma_max_id(before, scope, after.last().branch, u64::MAX as int);
    assert forall|i: int, j: int|
        #![trigger after[i], after[j]]
        0 <= i < j < after.len() && (scope == IdScope::Global || in_branch(after[i], after[j].branch))
            implies after[i].id != after[j].id by {
        assert(after.drop_last()[i] == after[i]);
        if j < n {
            assert(after.drop_last()[j] == after[j]);
        } else {
            assert(crate::ops::scoped(before[i], scope, after.last().branch));
        }
    }
}

/// Editing a task keeps ids unique within their scope: under branch-scoped ids a task moved to
/// another branch takes that branch's next free id.
pub proof fn law_edit_keeps_ids_unique(
    before: Seq<TaskView>,
    after: Seq<TaskView>,
    k: int,
    o: EditOpts,
    due: Option<Date>,
    nb: Option<Seq<char>>,
    scope: IdScope,
)
    requires
        0 <= k < before.len(),
        ids_unique(before, scope),
        crate::ops::id_room(before),
        after == before.update(k, rebranched(edit_applied(before[k], o, due), nb, scope, before)),
    ensures
        ids_unique(after, scope),
{
    let t = before[k];
    if let Some(b) = nb {
        lemma_max_id(before, scope, b, crate::ops::ID_LIMIT - 1);
    }
    assert forall|i: int, j: int|
        #![trigger after[i], after[j]]
        0 <= i < j < after.len() && (scope == IdScope::Global || in_branch(after[i], after[j].branch))
            implies after[i].id != after[j].id by {
        if i != k && j != k {
            assert(after[i] == before[i] && after[j] == before[j]);
        } else if let Some(b) = nb {
            if scope == IdScope::Branch && !same_text(t.branch, b) {
                let other = if i == k { j } else { i };
                assert(after[other] == before[other]);
                assert(crate::ops::scoped(before[other], scope, b));
            } else if i == k {
                assert(after[j] == before[j]);
            } else {
                assert(after[i] == before[i]);
            }
        } else if i == k {
            assert(after[j] == before[j]);
        } else {
            assert(after[i] == before[i]);
        }
    }
}

/// What an import keeps true of its state: ids unique within their scope, every cursor above
/// the ids of its branch (under branch-scoped ids) or the global cursor above every id, and
/// ids and cursors bounded by the rows seen so far.
pub open spec fn import_sound(st: ImportState, scope: IdScope, n: int) -> bool {
    &&& ids_unique(st.tasks, scope)
    &&& forall|i: int| 0 <= i < st.tasks.len() ==> (#[trigger] st.tasks[i]).id <= ID_LIMIT - 1 + n
    &&& scope == IdScope::Branch ==> forall|key: Seq<int>, i: int|
        #![trigger st.cursors[key], st.tasks[i]]
        st.cursors.contains_key(key) && 0 <= i < st.tasks.len() && ascii_fold(st.tasks[i].branch)
            == key ==> st.tasks[i].id < st.cursors[key]
    &&& forall|key: Seq<int>| #[trigger] st.cursors.contains_key(key) ==> 0 <= st.cursors[key] <= ID_LIMIT + n
    &&& scope == IdScope::Global ==> forall|i: int| 0 <= i < st.tasks.len() ==> (#[trigger] st.tasks[i]).id < st.global
    &&& 0 <= st.global <= ID_LIMIT + n
}

proof fn lemma_import_sound(
    before: Seq<TaskView>,
    rows: Seq<Option<TaskParts>>,
    default: Seq<char>,
    scope: IdScope,
    today: Date,
    stamp: Seq<char>,
)
    requires
        ids_unique(before, scope),
        crate::ops::id_room(before),
        rows.len() < ID_LIMIT,
    ensures
        import_sound(
            import_fold(import_start(before, default, scope), rows, default, scope, today, stamp),
            scope,
            rows.len() as int,
        ),
    decreases rows.len(),
{
    if rows.len() == 0 {
        lemma_max_id(before, scope, default, ID_LIMIT - 1);
        let st = import_start(before, default, scope);
        if scope == IdScope::Global {
            assert forall|i: int| 0 <= i < st.tasks.len() implies (#[trigger] st.tasks[i]).id < st.global by {
                assert(crate::ops::scoped(st.tasks[i], scope, default));
            }
        }
    } else {
        let n = (rows.len() - 1) as int;
        lemma_import_sound(before, rows.drop_last(), default, scope, today, stamp);
        let st = import_fold(import_start(before, default, scope), rows.drop_last(), default, scope, today, stamp);
        let next = import_step(st, rows.last(), default, scope, today, stamp);
        assert(import_fold(import_start(before, default, scope), rows, default, scope, today, stamp) == next);
        if let Some(p) = rows.last() {
            let target = row_branch(p.branch, default);
            let key = ascii_fold(target);
            let cursor = if scope == IdScope::Branch {
                if st.cursors.contains_key(key) {
                    st.cursors[key]
                } else {
                    max_id(st.tasks, scope, target) + 1
                }
            } else {
                st.global
            };
            lemma_max_id(st.tasks, scope, target, ID_LIMIT - 1 + n);
            // every task of the target's branch has an id below the cursor
            assert forall|i: int|
                0 <= i < st.tasks.len() && (scope == IdScope::Global || ascii_fold(st.tasks[i].branch) == key)
                    implies (#[trigger] st.tasks[i]).id < cursor by {
                if scope == IdScope::Branch {
                    if st.cursors.contains_key(key) {
                        assert(st.tasks[i].id < st.cursors[key]);
                    } else {
                        assert(crate::ops::scoped(st.tasks[i], scope, target));
                    }
                }
            }
            if trim_of(p.title@).len() != 0 {
                assert(0 <= cursor <= ID_LIMIT + n);
                assert(ID_LIMIT + n <= u64::MAX);
                let t = built(p, default, cursor, today, stamp);
                assert(t.branch == target);
                assert(t.id == cursor);
                let tasks2 = st.tasks.push(t);
                assert(next.tasks == tasks2);
                assert forall|i: int, j: int|
                    #![trigger tasks2[i], tasks2[j]]
                    0 <= i < j < tasks2.len() && (scope == IdScope::Global || in_branch(tasks2[i], tasks2[j].branch))
                        implies tasks2[i].id != tasks2[j].id by {
                    assert(tasks2[i] == st.tasks[i]);
                    if j < st.tasks.len() {
                        assert(tasks2[j] == st.tasks[j]);
                    }
                }
                if scope == IdScope::Branch {
                    assert forall|kk: Seq<int>, i: int|
                        #![trigger next.cursors[kk], next.tasks[i]]
                        next.cursors.contains_key(kk) && 0 <= i < next.tasks.len() && ascii_fold(next.tasks[i].branch)
                            == kk implies next.tasks[i].id < next.cursors[kk] by {
                        if i < st.tasks.len() {
                            assert(next.tasks[i] == st.tasks[i]);
                            if kk != key {
                                assert(st.tasks[i].id < st.cursors[kk]);
                            }
                        }
                    }
                }
                if scope == IdScope::Global {
                    assert forall|i: int| 0 <= i < next.tasks.len() implies (#[trigger] next.tasks[i]).id < next.global by {
                        if i < st.tasks.len() {
                            assert(next.tasks[i] == st.tasks[i]);
                        }
                    }
                }
                assert forall|i: int| 0 <= i < next.tasks.len() implies (#[trigger] next.tasks[i]).id <= ID_LIMIT - 1 + (n + 1) by {
                    if i < st.tasks.len() {
                        assert(next.tasks[i] == st.tasks[i]);
                    }
                }
            } else if scope == IdScope::Branch {
                assert forall|kk: Seq<int>, i: int|
                    #![trigger next.cursors[kk], next.tasks[i]]
                    next.cursors.contains_key(kk) && 0 <= i < next.tasks.len() && ascii_fold(next.tasks[i].branch)
                        == kk implies next.tasks[i].id < next.cursors[kk] by {
                    if kk != key {
                        assert(st.tasks[i].id < st.cursors[kk]);
                    }
                }
            }
        }
    }
}

/// An import keeps ids unique within their scope: under branch-scoped ids each branch, named in
/// any ASCII case, numbers its rows from one cursor above all its ids.
pub proof fn law_import_keeps_ids_unique(
    before: Seq<TaskView>,
    after: Seq<TaskView>,
    parts: Seq<Option<TaskParts>>,
    branch: Seq<char>,
    config: AppConfig,
    today: Date,
    stamp: Seq<char>,
    r: ImportResult,
    json: bool,
)
    requires
        ids_unique(before, config.id_scope),
        crate::ops::id_room(before),
        parts.len() < ID_LIMIT,
        import_report(before, after, parts, branch, config, today, stamp, r, json),
    ensures
        ids_unique(after, config.id_scope),
{
    lemma_import_sound(before, parts, branch, config.id_scope, today, stamp);
    let st = import_fold(import_start(before, branch, config.id_scope), parts, branch, config.id_scope, today, stamp);
    assert forall|i: int| 0 <= i < after.len() implies (#[trigger] after[i]).id == st.tasks[i].id
        && after[i].branch == st.tasks[i].branch by {
        if i >= before.len() {
            assert(uid_filled(st.tasks[i], after[i], config.use_uuid));
        } else {
            lemma_import_keeps_prefix(before, parts, branch, config.id_scope, today, stamp, i);
        }
    }
    assert forall|i: int, j: int|
        #![trigger after[i], after[j]]
        0 <= i < j < after.len() && (config.id_scope == IdScope::Global || in_branch(after[i], after[j].branch))
            implies after[i].id != after[j].id by {
        assert(st.tasks[i].id != st.tasks[j].id || !(config.id_scope == IdScope::Global || in_branch(st.tasks[i], st.tasks[j].branch)));
    }
}

/// An import only appends: the tasks it started from stay first.
proof fn lemma_import_keeps_prefix(
    before: Seq<TaskView>,
    rows: Seq<Option<TaskParts>>,
    default: Seq<char>,
    scope: IdScope,
    today: Date,
    stamp: Seq<char>,
    i: int,
)
    requires
        0 <= i < before.len(),
    ensures
        ({
            let st = import_fold(import_start(before, default, scope), rows, default, scope, today, stamp);
            i < st.tasks.len() && st.tasks[i] == before[i]
        }),
    decreases rows.len(),
{
    if rows.len() > 0 {
        lemma_import_keeps_prefix(before, rows.drop_last(), default, scope, today, stamp, i);
    }
}

} // verus!
