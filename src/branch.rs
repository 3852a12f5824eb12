//! Branch names: normalisation, matching and ordering.

use vstd::prelude::*;

use crate::model::{default_branch, default_branch_name, AppState, Task, DEFAULT_BRANCH};
use crate::ops::in_branch;
use crate::text::{
    eq_ignore_case, lower_of, lowercase, opt_text, same_text, seq_lt, sort_dedup, sorted_set,
    text_lt, texts, trim_of, trim_text, lemma_seq_lt_total,
};

verus! {

/// A branch name trimmed; nothing when it is absent or only whitespace.
pub open spec fn branch_norm(b: Option<Seq<char>>) -> Option<Seq<char>> {
    match b {
        Some(s) => if trim_of(s).len() == 0 {
            None
        } else {
            Some(trim_of(s))
        },
        None => None,
    }
}

/// Trims a branch name; an absent or blank name gives nothing.
pub fn normalize_branch(branch: Option<String>) -> (r: Option<String>)
    ensures
        opt_text(r) == branch_norm(opt_text(branch)),
{
    match branch {
        Some(b) => {
            let trimmed = trim_text(b.as_str());
            if trimmed.unicode_len() == 0 {
                None
            } else {
                Some(trimmed)
            }
        },
        None => None,
    }
}

/// Whether the task is in the given branch, ignoring ASCII case; never for no branch.
pub fn branch_matches(task: &Task, branch: Option<&str>) -> (r: bool)
    ensures
        r == (branch matches Some(b) && in_branch(task@, b@)),
{
    match branch {
        Some(b) => eq_ignore_case(task.branch.as_str(), b),
        None => false,
    }
}

/// Whether a name is the default branch, ignoring ASCII case.
pub fn is_default_branch(branch: &str) -> (r: bool)
    ensures
        r == same_text(branch@, default_branch_name()),
{
    proof {
        reveal_strlit("personal");
    }
    eq_ignore_case(branch, DEFAULT_BRANCH)
}

/// Trims the current branch, falling back to the default branch when it is blank.
pub fn normalize_state(state: &mut AppState)
    ensures
        final(state).current_branch@ == match branch_norm(Some(old(state).current_branch@)) {
            Some(b) => b,
            None => default_branch_name(),
        },
        final(state).config == old(state).config,
        final(state).profile == old(state).profile,
{
    let current = match normalize_branch(Some(state.current_branch.clone())) {
        Some(b) => b,
        None => default_branch(),
    };
    state.current_branch = current;
}

/// The branch names that occur in the list.
pub open spec fn branch_names(tasks: Seq<Task>) -> Set<Seq<char>> {
    Set::new(|b: Seq<char>| exists|i: int| 0 <= i < tasks.len() && tasks[i].branch@ == b)
}

/// The distinct branch names of the list, sorted.
pub fn collect_branches(tasks: &[Task]) -> (r: Vec<String>)
    ensures
        texts(r@) == sorted_set(branch_names(tasks@)),
{
    let mut names: Vec<String> = Vec::new();
    let mut i: usize = 0;
    while i < tasks.len()
        invariant
            i <= tasks.len(),
            texts(names@) == tasks@.take(i as int).map_values(|t: Task| t.branch@),
        decreases tasks.len() - i,
    {
        let ghost nv = texts(names@);
        names.push(tasks[i].branch.clone());
        assert(texts(names@) =~= nv.push(tasks@[i as int].branch@));
        assert(tasks@.take(i + 1).map_values(|t: Task| t.branch@) =~= tasks@.take(i as int).map_values(
            |t: Task| t.branch@,
        ).push(tasks@[i as int].branch@));
        i = i + 1;
    }
    assert(tasks@.take(i as int) =~= tasks@);
    let ghost all = texts(names@);
    assert(all.to_set() =~= branch_names(tasks@)) by {
        assert forall|b: Seq<char>| all.to_set().contains(b) implies branch_names(tasks@).contains(b) by {
            let k = choose|k: int| 0 <= k < all.len() && all[k] == b;
            assert(tasks@[k].branch@ == b);
        }
        assert forall|b: Seq<char>| branch_names(tasks@).contains(b) implies all.to_set().contains(b) by {
            let k = choose|k: int| 0 <= k < tasks@.len() && tasks@[k].branch@ == b;
            assert(all[k] == b);
        }
    }
    sort_dedup(names)
}

/// The names in ascending order of their lower-case forms.
pub open spec fn sorted_by_lower(s: Seq<Seq<char>>) -> bool {
    forall|i: int, j: int| 0 <= i < j < s.len() ==> !seq_lt(lower_of(#[trigger] s[j]), lower_of(#[trigger] s[i]))
}

/// The first name equal to `current` up to ASCII case, where there is one.
pub open spec fn first_match(s: Seq<Seq<char>>, current: Seq<char>) -> Option<int> {
    if exists|k: int| 0 <= k < s.len() && same_text(s[k], current) {
        Some(choose|k: int| 0 <= k < s.len() && same_text(s[k], current) && forall|j: int| 0 <= j < k ==> !same_text(#[trigger] s[j], current))
    } else {
        None
    }
}

/// Sorts branch names by their lower-case forms, keeping the order of equal ones, then moves
/// the first one equal to `current` (ignoring ASCII case) to the front.
pub fn order_branches(branches: &mut Vec<String>, current: &str)
    ensures
        exists|s: Seq<Seq<char>>|
            #![trigger sorted_by_lower(s)]
            sorted_by_lower(s) && s.to_multiset() == texts(old(branches)@).to_multiset() && texts(
                final(branches)@,
            ) == match first_match(s, current@) {
                Some(k) => seq![s[k]] + s.remove(k),
                None => s,
            },
{
    let ghost orig = texts(branches@);
    let mut keys: Vec<String> = Vec::new();
    let mut sorted: Vec<String> = Vec::new();
    let mut i: usize = 0;
    assert(texts(sorted@) =~= orig.take(0));
    while i < branches.len()
        invariant
            i <= branches.len(),
            orig == texts(branches@),
            keys@.len() == sorted@.len(),
            forall|k: int| 0 <= k < keys@.len() ==> #[trigger] keys@[k]@ == lower_of(sorted@[k]@),
            sorted_by_lower(texts(sorted@)),
            texts(sorted@).to_multiset() == orig.take(i as int).to_multiset(),
        decreases branches.len() - i,
    {
        let name = branches[i].clone();
        let key = lowercase(name.as_str());
        let mut p: usize = sorted.len();
        while p > 0 && text_lt(key.as_str(), keys[p - 1].as_str())
            invariant
                p <= sorted@.len(),
                keys@.len() == sorted@.len(),
                forall|k: int| p <= k < sorted@.len() ==> seq_lt(key@, #[trigger] lower_of(sorted@[k]@)),
                forall|k: int| 0 <= k < keys@.len() ==> #[trigger] keys@[k]@ == lower_of(sorted@[k]@),
            decreases p,
        {
            p = p - 1;
        }
        let ghost sv = texts(sorted@);
        proof {
            if p > 0 {
                assert(!seq_lt(key@, lower_of(sv[p - 1])));
            }
        }
        sorted.insert(p, name);
        keys.insert(p, key);
        proof {
            let nv = texts(sorted@);
            assert(nv =~= sv.insert(p as int, branches@[i as int]@));
            assert forall|a: int, b: int| 0 <= a < b < nv.len() implies !seq_lt(
                lower_of(#[trigger] nv[b]),
                lower_of(#[trigger] nv[a]),
            ) by {
                let kv = lower_of(branches@[i as int]@);
                if a == p {
                    crate::text::lemma_seq_lt_asymmetric(kv, lower_of(nv[b]));
                } else if b == p {
                    if a < p - 1 {
                        if seq_lt(kv, lower_of(sv[a])) {
                            if seq_lt(lower_of(sv[a]), lower_of(sv[p - 1])) {
                                crate::text::lemma_seq_lt_transitive(kv, lower_of(sv[a]), lower_of(sv[p - 1]));
                            } else if lower_of(sv[a]) != lower_of(sv[p - 1]) {
                                lemma_seq_lt_total(lower_of(sv[a]), lower_of(sv[p - 1]));
                            }
                        }
                    }
                } else {
                    let a0 = if a < p { a } else { a - 1 };
                    let b0 = if b < p { b } else { b - 1 };
                    assert(nv[a] == sv[a0] && nv[b] == sv[b0]);
                }
            }
            assert(orig.take(i + 1) =~= orig.take(i as int).push(orig[i as int]));
            vstd::seq_lib::to_multiset_build(orig.take(i as int), orig[i as int]);
            vstd::seq_lib::to_multiset_insert(sv, p as int, orig[i as int]);
        }
        i = i + 1;
    }
    assert(orig.take(i as int) =~= orig);
    let ghost s = texts(sorted@);
    let mut pos: usize = 0;
    while pos < sorted.len() && !eq_ignore_case(sorted[pos].as_str(), current)
        invariant
            pos <= sorted@.len(),
            s == texts(sorted@),
            forall|j: int| 0 <= j < pos ==> !same_text(#[trigger] s[j], current@),
        decreases sorted.len() - pos,
    {
        pos = pos + 1;
    }
    if pos < sorted.len() {
        let name = sorted.remove(pos);
        sorted.insert(0, name);
        proof {
            assert(same_text(s[pos as int], current@));
            let k = choose|k: int| 0 <= k < s.len() && same_text(s[k], current@) && forall|j: int|
                0 <= j < k ==> !same_text(#[trigger] s[j], current@);
            if k > pos {
                assert(!same_text(s[pos as int], current@));
            }
            assert(k == pos);
            assert(first_match(s, current@) == Some(pos as int));
            assert(texts(sorted@) =~= seq![s[pos as int]] + s.remove(pos as int));
        }
    } else {
        assert(first_match(s, current@) is None);
    }
    *branches = sorted;
}

/// Why branch arguments are refused.
#[derive(Clone, Copy, Debug, PartialEq, Eq, Structural)]
pub enum BranchError {
    /// The source or only branch name is blank.
    InvalidSource,
    /// The target branch name is blank.
    InvalidTarget,
    /// Source and target name the same branch, ignoring ASCII case.
    SameBranch,
    /// The default branch cannot be deleted.
    DefaultBranch,
    /// The branch still holds tasks and deletion was not forced.
    NotEmpty,
}

/// Trims the two branch names of a move, copy or merge; both must be non-blank and differ
/// (ignoring ASCII case).
pub fn branch_pair(from: String, to: String) -> (r: Result<(String, String), BranchError>)
    ensures
        branch_norm(Some(from@)) is None ==> r == Err::<(String, String), BranchError>(BranchError::InvalidSource),
        branch_norm(Some(from@)) is Some && branch_norm(Some(to@)) is None ==> r == Err::<
            (String, String),
            BranchError,
        >(BranchError::InvalidTarget),
        match (branch_norm(Some(from@)), branch_norm(Some(to@))) {
            (Some(f), Some(t)) => if same_text(f, t) {
                r == Err::<(String, String), BranchError>(BranchError::SameBranch)
            } else {
                r matches Ok(p) && p.0@ == f && p.1@ == t
            },
            _ => true,
        },
{
    let f = match normalize_branch(Some(from)) {
        Some(x) => x,
        None => {
            return Err(BranchError::InvalidSource);
        },
    };
    let t = match normalize_branch(Some(to)) {
        Some(x) => x,
        None => {
            return Err(BranchError::InvalidTarget);
        },
    };
    if eq_ignore_case(f.as_str(), t.as_str()) {
        return Err(BranchError::SameBranch);
    }
    Ok((f, t))
}

/// Trims the name of a branch to delete: it must be non-blank, not the default branch, and
/// empty unless `force` is set; `count` is how many tasks it holds.
pub fn deletable_branch(name: String, count: usize, force: bool) -> (r: Result<String, BranchError>)
    ensures
        match branch_norm(Some(name@)) {
            None => r == Err::<String, BranchError>(BranchError::InvalidSource),
            Some(b) => if same_text(b, default_branch_name()) {
                r == Err::<String, BranchError>(BranchError::DefaultBranch)
            } else if count > 0 && !force {
                r == Err::<String, BranchError>(BranchError::NotEmpty)
            } else {
                r matches Ok(x) && x@ == b
            },
        },
{
    let b = match normalize_branch(Some(name)) {
        Some(x) => x,
        None => {
            return Err(BranchError::InvalidSource);
        },
    };
    if is_default_branch(b.as_str()) {
        return Err(BranchError::DefaultBranch);
    }
    if count > 0 && !force {
        return Err(BranchError::NotEmpty);
    }
    Ok(b)
}

} // verus!
