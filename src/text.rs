//! Text rules shared by tags, branch names and queries.

use vstd::prelude::*;

verus! {

/// What `str::trim` leaves of a string.
pub uninterp spec fn trim_of(s: Seq<char>) -> Seq<char>;

/// What `str::to_lowercase` makes of a string.
pub uninterp spec fn lower_of(s: Seq<char>) -> Seq<char>;

/// A character with ASCII upper-case letters sent to lower case, as a code point.
pub open spec fn fold_char(c: char) -> int {
    if 65 <= c as u32 <= 90 {
        c as u32 + 32
    } else {
        c as u32 as int
    }
}

/// A string with ASCII upper-case letters sent to lower case.
pub open spec fn ascii_fold(s: Seq<char>) -> Seq<int> {
    s.map_values(|c: char| fold_char(c))
}

/// Two strings that are equal up to ASCII case.
pub open spec fn same_text(a: Seq<char>, b: Seq<char>) -> bool {
    ascii_fold(a) == ascii_fold(b)
}

/// `needle` occurs in `hay` as a contiguous piece.
pub open spec fn contains_text(hay: Seq<char>, needle: Seq<char>) -> bool {
    exists|i: int|
        0 <= i <= hay.len() - needle.len() && #[trigger] hay.subrange(i, i + needle.len())
            == needle
}

/// The views of a sequence of strings.
pub open spec fn texts(v: Seq<String>) -> Seq<Seq<char>> {
    v.map_values(|s: String| s@)
}

/// Strict lexicographic order on code points, the order of `str`'s `Ord`.
pub open spec fn seq_lt(a: Seq<char>, b: Seq<char>) -> bool
    decreases a.len(),
{
    if b.len() == 0 {
        false
    } else if a.len() == 0 {
        true
    } else if a[0] != b[0] {
        a[0] < b[0]
    } else {
        seq_lt(a.drop_first(), b.drop_first())
    }
}

/// Every string comes strictly before the next one.
pub open spec fn strictly_sorted(s: Seq<Seq<char>>) -> bool {
    forall|i: int, j: int| 0 <= i < j < s.len() ==> seq_lt(#[trigger] s[i], #[trigger] s[j])
}

pub proof fn lemma_seq_lt_irreflexive(a: Seq<char>)
    ensures
        !seq_lt(a, a),
    decreases a.len(),
{
    if a.len() > 0 {
        lemma_seq_lt_irreflexive(a.drop_first());
    }
}

pub proof fn lemma_seq_lt_transitive(a: Seq<char>, b: Seq<char>, c: Seq<char>)
    requires
        seq_lt(a, b),
        seq_lt(b, c),
    ensures
        seq_lt(a, c),
    decreases a.len(),
{
    if a.len() > 0 && b.len() > 0 && c.len() > 0 && a[0] == b[0] && b[0] == c[0] {
        lemma_seq_lt_transitive(a.drop_first(), b.drop_first(), c.drop_first());
    }
}

pub proof fn lemma_seq_lt_total(a: Seq<char>, b: Seq<char>)
    requires
        a != b,
    ensures
        seq_lt(a, b) || seq_lt(b, a),
    decreases a.len(),
{
    if a.len() > 0 && b.len() > 0 {
        if a[0] == b[0] {
            if a.drop_first() == b.drop_first() {
                assert(a =~= seq![a[0]] + a.drop_first());
                assert(b =~= seq![b[0]] + b.drop_first());
            }
            lemma_seq_lt_total(a.drop_first(), b.drop_first());
        }
    } else if a.len() == 0 && b.len() == 0 {
        assert(a =~= b);
    }
}

pub proof fn lemma_seq_lt_asymmetric(a: Seq<char>, b: Seq<char>)
    requires
        seq_lt(a, b),
    ensures
        !seq_lt(b, a),
{
    if seq_lt(b, a) {
        lemma_seq_lt_transitive(a, b, a);
        lemma_seq_lt_irreflexive(a);
    }
}

/// Relies on `str::trim`: the string without leading and trailing whitespace.
#[verifier::external_body]
pub(crate) fn trim_text(s: &str) -> (r: String)
    ensures
        r@ == trim_of(s@),
{
    s.trim().to_string()
}

/// Relies on `str::to_lowercase`: the lower-case form, a function of the characters alone.
#[verifier::external_body]
pub(crate) fn lowercase(s: &str) -> (r: String)
    ensures
        r@ == lower_of(s@),
{
    s.to_lowercase()
}

fn fold_code(c: char) -> (r: u32)
    ensures
        r == fold_char(c),
{
    let x = c as u32;
    if 65 <= x && x <= 90 {
        x + 32
    } else {
        x
    }
}

/// Whether two strings are equal once ASCII letters are folded to lower case.
pub(crate) fn eq_ignore_case(a: &str, b: &str) -> (r: bool)
    ensures
        r == same_text(a@, b@),
{
    let la = a.unicode_len();
    let lb = b.unicode_len();
    if la != lb {
        assert(ascii_fold(a@).len() != ascii_fold(b@).len());
        return false;
    }
    let mut i: usize = 0;
    while i < la
        invariant
            la == a@.len(),
            lb == b@.len(),
            la == lb,
            i <= la,
            forall|k: int| 0 <= k < i ==> fold_char(#[trigger] a@[k]) == fold_char(b@[k]),
        decreases la - i,
    {
        if fold_code(a.get_char(i)) != fold_code(b.get_char(i)) {
            assert(ascii_fold(a@)[i as int] != ascii_fold(b@)[i as int]);
            return false;
        }
        i = i + 1;
    }
    assert(ascii_fold(a@) =~= ascii_fold(b@));
    true
}

/// Whether `needle` occurs in `hay` at position `i`.
fn occurs_at(hay: &str, needle: &str, i: usize) -> (r: bool)
    requires
        i + needle@.len() <= hay@.len(),
    ensures
        r == (hay@.subrange(i as int, i + needle@.len()) == needle@),
{
    let m = needle.unicode_len();
    let n = hay.unicode_len();
    let mut j: usize = 0;
    while j < m
        invariant
            m == needle@.len(),
            n == hay@.len(),
            i + m <= hay@.len(),
            j <= m,
            forall|k: int| 0 <= k < j ==> hay@[i + k] == needle@[k],
        decreases m - j,
    {
        if hay.get_char(i + j) != needle.get_char(j) {
            assert(hay@.subrange(i as int, i + m)[j as int] != needle@[j as int]);
            return false;
        }
        j = j + 1;
    }
    assert(hay@.subrange(i as int, i + m) =~= needle@);
    true
}

/// Whether `needle` occurs in `hay` as a contiguous piece.
pub(crate) fn contains(hay: &str, needle: &str) -> (r: bool)
    ensures
        r == contains_text(hay@, needle@),
{
    let n = hay.unicode_len();
    let m = needle.unicode_len();
    if m > n {
        return false;
    }
    if m == 0 {
        assert(hay@.subrange(0, 0 + needle@.len() as int) =~= needle@);
        return true;
    }
    let mut i: usize = 0;
    while i <= n - m
        invariant
            n == hay@.len(),
            m == needle@.len(),
            1 <= m <= n,
            i <= n - m + 1,
            forall|k: int| 0 <= k < i ==> #[trigger] hay@.subrange(k, k + m) != needle@,
        decreases n - m + 1 - i,
    {
        if occurs_at(hay, needle, i) {
            return true;
        }
        i = i + 1;
    }
    false
}

/// Whether `a` comes strictly before `b` in code-point order.
pub fn text_lt(a: &str, b: &str) -> (r: bool)
    ensures
        r == seq_lt(a@, b@),
{
    let la = a.unicode_len();
    let lb = b.unicode_len();
    let mut i: usize = 0;
    assert(a@.skip(0) =~= a@);
    assert(b@.skip(0) =~= b@);
    while i < la && i < lb
        invariant
            la == a@.len(),
            lb == b@.len(),
            i <= la,
            i <= lb,
            seq_lt(a@, b@) == seq_lt(a@.skip(i as int), b@.skip(i as int)),
        decreases la - i,
    {
        let ca = a.get_char(i);
        let cb = b.get_char(i);
        if ca != cb {
            return ca < cb;
        }
        assert(a@.skip(i as int).drop_first() =~= a@.skip(i + 1));
        assert(b@.skip(i as int).drop_first() =~= b@.skip(i + 1));
        i = i + 1;
    }
    i < lb
}

/// The strictly sorted list of the strings in `s`.
pub open spec fn sorted_set(s: Set<Seq<char>>) -> Seq<Seq<char>> {
    choose|x: Seq<Seq<char>>| strictly_sorted(x) && x.to_set() == s
}

proof fn lemma_sorted_tail_set(a: Seq<Seq<char>>)
    requires
        strictly_sorted(a),
        a.len() > 0,
    ensures
        a.drop_first().to_set() == a.to_set().remove(a[0]),
        strictly_sorted(a.drop_first()),
{
    let t = a.drop_first();
    assert forall|x: Seq<char>| t.to_set().contains(x) <==> a.to_set().remove(a[0]).contains(x) by {
        if t.to_set().contains(x) {
            let k = choose|k: int| 0 <= k < t.len() && t[k] == x;
            assert(a[k + 1] == x);
            assert(seq_lt(a[0], a[k + 1]));
            lemma_seq_lt_irreflexive(x);
        }
        if a.to_set().remove(a[0]).contains(x) {
            let k = choose|k: int| 0 <= k < a.len() && a[k] == x;
            assert(k != 0);
            assert(t[k - 1] == x);
        }
    }
    assert(t.to_set() =~= a.to_set().remove(a[0]));
    assert forall|i: int, j: int| 0 <= i < j < t.len() implies seq_lt(
        #[trigger] t[i],
        #[trigger] t[j],
    ) by {
        assert(seq_lt(a[i + 1], a[j + 1]));
    }
}

/// Two strictly sorted lists of the same strings are the same list.
pub proof fn lemma_sorted_unique(a: Seq<Seq<char>>, b: Seq<Seq<char>>)
    requires
        strictly_sorted(a),
        strictly_sorted(b),
        a.to_set() == b.to_set(),
    ensures
        a == b,
    decreases a.len(),
{
    if a.len() == 0 {
        if b.len() > 0 {
            assert(b.to_set().contains(b[0]));
        }
        assert(a =~= b);
    } else {
        assert(a.to_set().contains(a[0]));
        assert(b.len() > 0);
        assert(b.to_set().contains(b[0]));
        if a[0] != b[0] {
            let k = choose|k: int| 0 <= k < b.len() && b[k] == a[0];
            let m = choose|m: int| 0 <= m < a.len() && a[m] == b[0];
            assert(seq_lt(b[0], b[k]));
            assert(seq_lt(a[0], a[m]));
            lemma_seq_lt_asymmetric(a[0], b[0]);
        }
        lemma_sorted_tail_set(a);
        lemma_sorted_tail_set(b);
        lemma_sorted_unique(a.drop_first(), b.drop_first());
        assert(a =~= seq![a[0]] + a.drop_first());
        assert(b =~= seq![b[0]] + b.drop_first());
    }
}

/// A strictly sorted list is the sorted list of its own strings.
pub proof fn lemma_is_sorted_set(a: Seq<Seq<char>>)
    requires
        strictly_sorted(a),
    ensures
        sorted_set(a.to_set()) == a,
{
    let s = sorted_set(a.to_set());
    assert(strictly_sorted(s) && s.to_set() == a.to_set());
    lemma_sorted_unique(s, a);
}

/// Inserts `t` into a strictly sorted list unless it is already there.
fn insert_sorted(v: &mut Vec<String>, t: String)
    requires
        strictly_sorted(texts(old(v)@)),
    ensures
        strictly_sorted(texts(final(v)@)),
        texts(final(v)@).to_set() == texts(old(v)@).to_set().insert(t@),
{
    let mut i: usize = 0;
    while i < v.len() && text_lt(v[i].as_str(), t.as_str())
        invariant
            i <= v.len(),
            strictly_sorted(texts(v@)),
            forall|k: int| 0 <= k < i ==> seq_lt(#[trigger] v@[k]@, t@),
        decreases v.len() - i,
    {
        i = i + 1;
    }
    let ghost tv = texts(v@);
    if i < v.len() && v[i] == t {
        assert(tv[i as int] == t@);
        assert(tv.to_set().insert(t@) =~= tv.to_set());
        return;
    }
    proof {
        if i < v.len() {
            lemma_seq_lt_total(v@[i as int]@, t@);
        }
    }
    v.insert(i, t);
    proof {
        let nv = texts(v@);
        assert(nv =~= tv.insert(i as int, t@));
        assert forall|a: int, b: int| 0 <= a < b < nv.len() implies seq_lt(
            #[trigger] nv[a],
            #[trigger] nv[b],
        ) by {
            if b == i {
                assert(seq_lt(tv[a], t@));
            } else if a == i {
                assert(seq_lt(t@, tv[i as int]));
                if b - 1 > i {
                    lemma_seq_lt_transitive(t@, tv[i as int], tv[b - 1]);
                }
            } else if a < i && b > i {
                assert(seq_lt(tv[a], t@));
                assert(seq_lt(t@, tv[i as int]));
                lemma_seq_lt_transitive(tv[a], t@, tv[i as int]);
                if b - 1 > i {
                    lemma_seq_lt_transitive(tv[a], tv[i as int], tv[b - 1]);
                }
            }
        }
        assert forall|x: Seq<char>| nv.to_set().contains(x) <==> tv.to_set().insert(t@).contains(
            x,
        ) by {
            if nv.to_set().contains(x) {
                let k = choose|k: int| 0 <= k < nv.len() && nv[k] == x;
                if k < i {
                    assert(tv[k] == x);
                } else if k > i {
                    assert(tv[k - 1] == x);
                }
            }
            if tv.to_set().contains(x) {
                let k = choose|k: int| 0 <= k < tv.len() && tv[k] == x;
                if k < i {
                    assert(nv[k] == x);
                } else {
                    assert(nv[k + 1] == x);
                }
            }
            if x == t@ {
                assert(nv[i as int] == x);
            }
        }
        assert(nv.to_set() =~= tv.to_set().insert(t@));
    }
}

/// Sorts a list of strings and drops repeats.
pub fn sort_dedup(v: Vec<String>) -> (r: Vec<String>)
    ensures
        strictly_sorted(texts(r@)),
        texts(r@).to_set() == texts(v@).to_set(),
        texts(r@) == sorted_set(texts(v@).to_set()),
{
    let mut out: Vec<String> = Vec::new();
    let mut i: usize = 0;
    while i < v.len()
        invariant
            i <= v.len(),
            strictly_sorted(texts(out@)),
            texts(out@).to_set() == texts(v@.take(i as int)).to_set(),
        decreases v.len() - i,
    {
        let t = v[i].clone();
        insert_sorted(&mut out, t);
        proof {
            assert(texts(v@.take(i + 1)) =~= texts(v@.take(i as int)).push(v@[i as int]@));
            texts(v@.take(i as int)).lemma_push_to_set_commute(v@[i as int]@);
        }
        i = i + 1;
    }
    assert(v@.take(i as int) =~= v@);
    proof {
        lemma_is_sorted_set(texts(out@));
    }
    out
}

/// Equality of two string slices.
pub(crate) fn text_eq(a: &str, b: &str) -> (r: bool)
    ensures
        r == (a@ == b@),
{
    let x = String::from_str(a);
    let y = String::from_str(b);
    x == y
}

/// The option of a string, as its view.
pub open spec fn opt_text(o: Option<String>) -> Option<Seq<char>> {
    match o {
        Some(s) => Some(s@),
        None => None,
    }
}

/// A tag after trimming and lower-casing; nothing when only whitespace is left.
pub open spec fn tag_norm(s: Seq<char>) -> Option<Seq<char>> {
    if trim_of(s).len() == 0 {
        None
    } else {
        Some(lower_of(trim_of(s)))
    }
}

/// The tags that a list of raw tags normalises to.
pub open spec fn tag_set(values: Seq<Seq<char>>) -> Set<Seq<char>> {
    Set::new(|t: Seq<char>| exists|i: int| 0 <= i < values.len() && tag_norm(values[i]) == Some(t))
}

/// Trims and lower-cases a tag; an empty tag gives nothing.
pub fn normalize_tag(value: &str) -> (r: Option<String>)
    ensures
        opt_text(r) == tag_norm(value@),
{
    let trimmed = trim_text(value);
    if trimmed.unicode_len() == 0 {
        return None;
    }
    Some(lowercase(trimmed.as_str()))
}

/// Normalises every tag, drops the empty ones, sorts and removes repeats.
pub fn normalize_tags(values: &[String]) -> (r: Vec<String>)
    ensures
        strictly_sorted(texts(r@)),
        texts(r@).to_set() == tag_set(texts(values@)),
        texts(r@) == sorted_set(tag_set(texts(values@))),
{
    let mut tags: Vec<String> = Vec::new();
    let mut i: usize = 0;
    while i < values.len()
        invariant
            i <= values.len(),
            texts(tags@).to_set() == tag_set(texts(values@.take(i as int))),
        decreases values.len() - i,
    {
        let ghost before = texts(tags@);
        let ghost prev = texts(values@.take(i as int));
        let ghost next = texts(values@.take(i + 1));
        assert(next =~= prev.push(values@[i as int]@));
        let n = normalize_tag(values[i].as_str());
        match n {
            Some(t) => {
                tags.push(t);
                proof {
                    before.lemma_push_to_set_commute(t@);
                    assert(texts(tags@) =~= before.push(t@));
                    assert forall|x: Seq<char>|
                        tag_set(next).contains(x) <==> before.to_set().insert(t@).contains(x) by {
                        if tag_set(next).contains(x) {
                            let k = choose|k: int| 0 <= k < next.len() && tag_norm(next[k]) == Some(x);
                            if k < prev.len() {
                                assert(tag_set(prev).contains(x));
                            }
                        }
                        if before.to_set().contains(x) {
                            assert(tag_set(prev).contains(x));
                            let k = choose|k: int| 0 <= k < prev.len() && tag_norm(prev[k]) == Some(x);
                            assert(next[k] == prev[k]);
                        }
                        if x == t@ {
                            assert(tag_norm(next[i as int]) == Some(x));
                        }
                    }
                    assert(tag_set(next) =~= texts(tags@).to_set());
                }
            },
            None => {
                proof {
                    assert forall|x: Seq<char>|
                        tag_set(next).contains(x) <==> tag_set(prev).contains(x) by {
                        if tag_set(next).contains(x) {
                            let k = choose|k: int| 0 <= k < next.len() && tag_norm(next[k]) == Some(x);
                            if k < prev.len() {
                                assert(tag_set(prev).contains(x));
                            }
                        }
                        if tag_set(prev).contains(x) {
                            let k = choose|k: int| 0 <= k < prev.len() && tag_norm(prev[k]) == Some(x);
                            assert(next[k] == prev[k]);
                        }
                    }
                    assert(tag_set(next) =~= tag_set(prev));
                }
            },
        }
        i = i + 1;
    }
    assert(values@.take(i as int) =~= values@);
    sort_dedup(tags)
}

/// The value of a yes/no word, or nothing for any other word.
pub open spec fn bool_word(k: Seq<char>) -> Option<bool> {
    if k == "true"@ || k == "1"@ || k == "yes"@ || k == "y"@ {
        Some(true)
    } else if k == "false"@ || k == "0"@ || k == "no"@ || k == "n"@ {
        Some(false)
    } else {
        None
    }
}

/// Reads `true/1/yes/y` or `false/0/no/n`, ignoring case and surrounding whitespace.
pub fn parse_bool_flag(value: &str) -> (r: Option<bool>)
    ensures
        r == bool_word(lower_of(trim_of(value@))),
{
    let trimmed = trim_text(value);
    let key = lowercase(trimmed.as_str());
    let k = key.as_str();
    if text_eq(k, "true") || text_eq(k, "1") || text_eq(k, "yes") || text_eq(k, "y") {
        Some(true)
    } else if text_eq(k, "false") || text_eq(k, "0") || text_eq(k, "no") || text_eq(k, "n") {
        Some(false)
    } else {
        None
    }
}

} // verus!
