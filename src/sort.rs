//! Ordering tasks by due date, priority, creation time or id.

use vstd::prelude::*;

use crate::date::Date;
use crate::model::{priority_rank, rank_of, Priority, SortKey, Task, TaskView};
use crate::text::{
    lemma_seq_lt_asymmetric, lemma_seq_lt_irreflexive, lemma_seq_lt_total,
    lemma_seq_lt_transitive, seq_lt, text_lt,
};

verus! {

/// Lexicographic comparison of integer sequences: -1, 0 or 1.
pub open spec fn lex_cmp(a: Seq<int>, b: Seq<int>) -> int
    decreases a.len(),
{
    if a.len() == 0 && b.len() == 0 {
        0
    } else if a.len() == 0 {
        -1
    } else if b.len() == 0 {
        1
    } else if a[0] < b[0] {
        -1
    } else if a[0] > b[0] {
        1
    } else {
        lex_cmp(a.drop_first(), b.drop_first())
    }
}

/// The first comparison, unless it finds the two equal.
pub open spec fn then_cmp(c: int, d: int) -> int {
    if c != 0 {
        c
    } else {
        d
    }
}

pub proof fn lemma_lex_antisymmetric(a: Seq<int>, b: Seq<int>)
    ensures
        lex_cmp(a, b) == -lex_cmp(b, a),
        -1 <= lex_cmp(a, b) <= 1,
    decreases a.len(),
{
    if a.len() > 0 && b.len() > 0 && a[0] == b[0] {
        lemma_lex_antisymmetric(a.drop_first(), b.drop_first());
    }
}

pub proof fn lemma_lex_transitive(a: Seq<int>, b: Seq<int>, c: Seq<int>)
    requires
        lex_cmp(a, b) <= 0,
        lex_cmp(b, c) <= 0,
    ensures
        lex_cmp(a, c) <= 0,
    decreases a.len(),
{
    if a.len() > 0 && b.len() > 0 && c.len() > 0 && a[0] == b[0] && b[0] == c[0] {
        lemma_lex_transitive(a.drop_first(), b.drop_first(), c.drop_first());
    }
}

pub proof fn lemma_lex_concat(x: Seq<int>, y: Seq<int>, x2: Seq<int>, y2: Seq<int>)
    requires
        x.len() == x2.len(),
    ensures
        lex_cmp(x + y, x2 + y2) == then_cmp(lex_cmp(x, x2), lex_cmp(y, y2)),
    decreases x.len(),
{
    if x.len() == 0 {
        assert(x + y =~= y);
        assert(x2 + y2 =~= y2);
    } else {
        assert((x + y).drop_first() =~= x.drop_first() + y);
        assert((x2 + y2).drop_first() =~= x2.drop_first() + y2);
        lemma_lex_concat(x.drop_first(), y, x2.drop_first(), y2);
    }
}

/// Where the due date stands in the order: dated tasks first, then by date, later dates
/// first when `desc`.
pub open spec fn due_part(t: TaskView, desc: bool) -> Seq<int> {
    match t.due {
        None => seq![1, 0, 0, 0],
        Some(d) => if desc {
            seq![0, -(d.year as int), -(d.month as int), -(d.day as int)]
        } else {
            seq![0, d.year as int, d.month as int, d.day as int]
        },
    }
}

/// The priority's place: by urgency, reversed among set priorities when `desc`; no priority
/// always last.
pub open spec fn priority_value(p: Option<Priority>, desc: bool) -> int {
    match p {
        Some(_) => if desc {
            2 - rank_of(p)
        } else {
            rank_of(p) as int
        },
        None => 3,
    }
}

/// The integer key that orders tasks under the due, priority and id keys.
pub open spec fn sort_key(t: TaskView, key: SortKey, desc: bool) -> Seq<int> {
    match key {
        SortKey::Due => due_part(t, desc) + seq![priority_value(t.priority, false), t.id as int],
        SortKey::Priority => seq![priority_value(t.priority, desc)] + due_part(t, false) + seq![
            t.id as int,
        ],
        _ => if desc {
            seq![-(t.id as int)]
        } else {
            seq![t.id as int]
        },
    }
}

/// Comparison of two strings in code-point order: -1, 0 or 1.
pub open spec fn text_cmp(a: Seq<char>, b: Seq<char>) -> int {
    if a == b {
        0
    } else if seq_lt(a, b) {
        -1
    } else {
        1
    }
}

/// How `a` compares with `b` under `key` and direction: -1 when `a` goes first, 1 when `b`
/// does, 0 for a tie.
pub open spec fn task_cmp(a: TaskView, b: TaskView, key: SortKey, desc: bool) -> int {
    match key {
        SortKey::Created => if desc {
            text_cmp(b.created_at, a.created_at)
        } else {
            text_cmp(a.created_at, b.created_at)
        },
        _ => lex_cmp(sort_key(a, key, desc), sort_key(b, key, desc)),
    }
}

/// Each task comes no later than the ones after it.
pub open spec fn sorted_by(v: Seq<TaskView>, key: SortKey, desc: bool) -> bool {
    forall|i: int, j: int| 0 <= i < j < v.len() ==> task_cmp(#[trigger] v[i], #[trigger] v[j], key, desc) <= 0
}

pub proof fn lemma_cmp_antisymmetric(a: TaskView, b: TaskView, key: SortKey, desc: bool)
    ensures
        task_cmp(a, b, key, desc) == -task_cmp(b, a, key, desc),
{
    match key {
        SortKey::Created => {
            let (x, y) = (a.created_at, b.created_at);
            if x != y {
                lemma_seq_lt_total(x, y);
                if seq_lt(x, y) {
                    lemma_seq_lt_asymmetric(x, y);
                } else {
                    lemma_seq_lt_asymmetric(y, x);
                }
            }
        },
        _ => {
            lemma_lex_antisymmetric(sort_key(a, key, desc), sort_key(b, key, desc));
        },
    }
}

pub proof fn lemma_cmp_transitive(a: TaskView, b: TaskView, c: TaskView, key: SortKey, desc: bool)
    requires
        task_cmp(a, b, key, desc) <= 0,
        task_cmp(b, c, key, desc) <= 0,
    ensures
        task_cmp(a, c, key, desc) <= 0,
{
    match key {
        SortKey::Created => {
            let (x, y, z) = (a.created_at, b.created_at, c.created_at);
            if desc {
                if z != y && y != x {
                    lemma_seq_lt_transitive(z, y, x);
                }
                if x == z && y != x {
                    lemma_seq_lt_asymmetric(z, y);
                }
            } else {
                if x != y && y != z {
                    lemma_seq_lt_transitive(x, y, z);
                }
                if x == z && y != x {
                    lemma_seq_lt_asymmetric(x, y);
                }
            }
        },
        _ => {
            lemma_lex_transitive(
                sort_key(a, key, desc),
                sort_key(b, key, desc),
                sort_key(c, key, desc),
            );
        },
    }
}

fn cmp_i64(a: i64, b: i64) -> (r: i8)
    ensures
        r == lex_cmp(seq![a as int], seq![b as int]),
{
    reveal_with_fuel(lex_cmp, 2);
    assert(seq![a as int].drop_first() =~= Seq::<int>::empty());
    assert(seq![b as int].drop_first() =~= Seq::<int>::empty());
    if a < b {
        -1
    } else if a > b {
        1
    } else {
        0
    }
}

fn compare_date(a: Date, b: Date, desc: bool) -> (r: i8)
    ensures
        r == (if desc {
            lex_cmp(
                seq![-(a.year as int), -(a.month as int), -(a.day as int)],
                seq![-(b.year as int), -(b.month as int), -(b.day as int)],
            )
        } else {
            lex_cmp(
                seq![a.year as int, a.month as int, a.day as int],
                seq![b.year as int, b.month as int, b.day as int],
            )
        }),
{
    let (ay, am, ad, by, bm, bd) = if desc {
        (-(a.year as i64), -(a.month as i64), -(a.day as i64), -(b.year as i64), -(b.month as i64), -(b.day as i64))
    } else {
        (a.year as i64, a.month as i64, a.day as i64, b.year as i64, b.month as i64, b.day as i64)
    };
    let c1 = cmp_i64(ay, by);
    let c2 = cmp_i64(am, bm);
    let c3 = cmp_i64(ad, bd);
    proof {
        lemma_lex_concat(seq![ay as int], seq![am as int], seq![by as int], seq![bm as int]);
        lemma_lex_concat(seq![ay as int, am as int], seq![ad as int], seq![by as int, bm as int], seq![bd as int]);
        assert(seq![ay as int] + seq![am as int] =~= seq![ay as int, am as int]);
        assert(seq![by as int] + seq![bm as int] =~= seq![by as int, bm as int]);
        assert(seq![ay as int, am as int] + seq![ad as int] =~= seq![ay as int, am as int, ad as int]);
        assert(seq![by as int, bm as int] + seq![bd as int] =~= seq![by as int, bm as int, bd as int]);
    }
    if c1 != 0 {
        c1
    } else if c2 != 0 {
        c2
    } else {
        c3
    }
}

fn compare_due(a: &Task, b: &Task, desc: bool) -> (r: i8)
    ensures
        r == lex_cmp(due_part(a@, desc), due_part(b@, desc)),
{
    let ghost ta = due_part(a@, desc);
    let ghost tb = due_part(b@, desc);
    match (a.due, b.due) {
        (None, None) => {
            proof {
                lemma_lex_antisymmetric(ta, tb);
            }
            0
        },
        (None, Some(y)) => {
            assert(ta[0] == 1 && tb[0] == 0 && ta.len() == 4 && tb.len() == 4);
            1
        },
        (Some(x), None) => {
            assert(ta[0] == 0 && tb[0] == 1 && ta.len() == 4 && tb.len() == 4);
            -1
        },
        (Some(x), Some(y)) => {
            let c = compare_date(x, y, desc);
            proof {
                assert(ta[0] == 0 && tb[0] == 0 && ta.len() == 4 && tb.len() == 4);
                if desc {
                    assert(ta.drop_first() =~= seq![-(x.year as int), -(x.month as int), -(x.day as int)]);
                    assert(tb.drop_first() =~= seq![-(y.year as int), -(y.month as int), -(y.day as int)]);
                } else {
                    assert(ta.drop_first() =~= seq![x.year as int, x.month as int, x.day as int]);
                    assert(tb.drop_first() =~= seq![y.year as int, y.month as int, y.day as int]);
                }
            }
            c
        },
    }
}

/// The priority's place in the order; see `priority_value`.
fn priority_sort_value(p: Option<Priority>, desc: bool) -> (r: u8)
    ensures
        r == priority_value(p, desc),
{
    match p {
        Some(_) => {
            let rank = priority_rank(p);
            if desc {
                2 - rank
            } else {
                rank
            }
        },
        None => 3,
    }
}

fn text_compare(a: &str, b: &str) -> (r: i8)
    ensures
        r == text_cmp(a@, b@),
{
    if text_lt(a, b) {
        proof {
            lemma_seq_lt_irreflexive(a@);
        }
        -1
    } else if text_lt(b, a) {
        proof {
            lemma_seq_lt_irreflexive(a@);
            if a@ != b@ {
                lemma_seq_lt_total(a@, b@);
            }
        }
        1
    } else {
        proof {
            if a@ != b@ {
                lemma_seq_lt_total(a@, b@);
            }
        }
        0
    }
}

fn cmp_u64(a: u64, b: u64) -> (r: i8)
    ensures
        r == lex_cmp(seq![a as int], seq![b as int]),
        r == lex_cmp(seq![-(b as int)], seq![-(a as int)]),
{
    reveal_with_fuel(lex_cmp, 2);
    assert(seq![a as int].drop_first() =~= Seq::<int>::empty());
    assert(seq![b as int].drop_first() =~= Seq::<int>::empty());
    assert(seq![-(a as int)].drop_first() =~= Seq::<int>::empty());
    assert(seq![-(b as int)].drop_first() =~= Seq::<int>::empty());
    if a < b {
        -1
    } else if a > b {
        1
    } else {
        0
    }
}

/// Compares two tasks under a sort key and direction; see `task_cmp`.
fn compare_tasks(a: &Task, b: &Task, key: SortKey, desc: bool) -> (r: i8)
    ensures
        r == task_cmp(a@, b@, key, desc),
{
    match key {
        SortKey::Due => {
            let c1 = compare_due(a, b, desc);
            let pa = priority_sort_value(a.priority, false);
            let pb = priority_sort_value(b.priority, false);
            let c2 = cmp_u64(pa as u64, pb as u64);
            let c3 = cmp_u64(a.id, b.id);
            proof {
                let (x, y) = (seq![pa as int], seq![pb as int]);
                let (u, v) = (seq![a.id as int], seq![b.id as int]);
                lemma_lex_concat(x, u, y, v);
                assert(x + u =~= seq![pa as int, a.id as int]);
                assert(y + v =~= seq![pb as int, b.id as int]);
                lemma_lex_concat(due_part(a@, desc), x + u, due_part(b@, desc), y + v);
            }
            if c1 != 0 {
                c1
            } else if c2 != 0 {
                c2
            } else {
                c3
            }
        },
        SortKey::Priority => {
            let pa = priority_sort_value(a.priority, desc);
            let pb = priority_sort_value(b.priority, desc);
            let c1 = cmp_u64(pa as u64, pb as u64);
            let c2 = compare_due(a, b, false);
            let c3 = cmp_u64(a.id, b.id);
            proof {
                let (x, y) = (seq![pa as int], seq![pb as int]);
                let (u, v) = (seq![a.id as int], seq![b.id as int]);
                let (da, db) = (due_part(a@, false), due_part(b@, false));
                lemma_lex_concat(x, da, y, db);
                lemma_lex_concat(x + da, u, y + db, v);
            }
            if c1 != 0 {
                c1
            } else if c2 != 0 {
                c2
            } else {
                c3
            }
        },
        SortKey::Created => {
            if desc {
                text_compare(b.created_at.as_str(), a.created_at.as_str())
            } else {
                text_compare(a.created_at.as_str(), b.created_at.as_str())
            }
        },
        SortKey::Id => {
            if desc {
                cmp_u64(b.id, a.id)
            } else {
                cmp_u64(a.id, b.id)
            }
        },
    }
}

/// Sorts a view of the task list by `key`, in descending order when `desc`; ties keep their
/// order.
pub fn sort_tasks(view: &mut Vec<&Task>, key: SortKey, desc: bool)
    ensures
        final(view)@.to_multiset() == old(view)@.to_multiset(),
        final(view)@.map_values(|t: &Task| t@).to_multiset() == old(view)@.map_values(
            |t: &Task| t@,
        ).to_multiset(),
        sorted_by(final(view)@.map_values(|t: &Task| t@), key, desc),
{
    let ghost orig = view@;
    let mut out: Vec<&Task> = Vec::new();
    let mut i: usize = 0;
    assert(out@ =~= orig.take(0));
    while i < view.len()
        invariant
            i <= view.len(),
            orig == view@,
            sorted_by(out@.map_values(|t: &Task| t@), key, desc),
            out@.to_multiset() == orig.take(i as int).to_multiset(),
            out@.map_values(|t: &Task| t@).to_multiset() == orig.take(i as int).map_values(
                |t: &Task| t@,
            ).to_multiset(),
        decreases view.len() - i,
    {
        let x = view[i];
        let mut p: usize = out.len();
        while p > 0 && compare_tasks(x, out[p - 1], key, desc) < 0
            invariant
                p <= out@.len(),
                forall|k: int| p <= k < out@.len() ==> task_cmp(x@, #[trigger] out@[k]@, key, desc) < 0,
            decreases p,
        {
            p = p - 1;
        }
        let ghost ov = out@;
        let ghost sv = ov.map_values(|t: &Task| t@);
        out.insert(p, x);
        proof {
            let nv = out@.map_values(|t: &Task| t@);
            assert(nv =~= sv.insert(p as int, x@));
            if p > 0 {
                lemma_cmp_antisymmetric(x@, sv[p - 1], key, desc);
            }
            assert forall|a: int, b: int| 0 <= a < b < nv.len() implies task_cmp(
                #[trigger] nv[a],
                #[trigger] nv[b],
                key,
                desc,
            ) <= 0 by {
                if a == p {
                    assert(task_cmp(x@, sv[b - 1], key, desc) < 0);
                } else if b == p {
                    if a < p - 1 {
                        lemma_cmp_transitive(sv[a], sv[p - 1], x@, key, desc);
                    }
                } else {
                    let a0 = if a < p { a } else { a - 1 };
                    let b0 = if b < p { b } else { b - 1 };
                    assert(nv[a] == sv[a0] && nv[b] == sv[b0]);
                }
            }
            assert(orig.take(i + 1) =~= orig.take(i as int).push(orig[i as int]));
            vstd::seq_lib::to_multiset_build(orig.take(i as int), orig[i as int]);
            vstd::seq_lib::to_multiset_insert(ov, p as int, x);
            let ow = orig.take(i as int).map_values(|t: &Task| t@);
            assert(orig.take(i + 1).map_values(|t: &Task| t@) =~= ow.push(x@));
            vstd::seq_lib::to_multiset_build(ow, x@);
            vstd::seq_lib::to_multiset_insert(sv, p as int, x@);
        }
        i = i + 1;
    }
    assert(orig.take(i as int) =~= orig);
    *view = out;
}

} // verus!
