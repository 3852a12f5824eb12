//! Saved command aliases: expanding an alias into the arguments it stands for.

use vstd::prelude::*;

use crate::model::AppState;
use crate::model::copy_texts;
use crate::text::{eq_ignore_case, lower_of, lowercase, same_text, text_eq, texts, trim_of, trim_text};

verus! {

/// The first alias whose name equals `name` up to ASCII case.
pub open spec fn alias_index(saved: Seq<(String, Vec<String>)>, name: Seq<char>) -> Option<int> {
    if exists|k: int| 0 <= k < saved.len() && same_text(saved[k].0@, name) {
        Some(
            choose|k: int|
                0 <= k < saved.len() && same_text(saved[k].0@, name) && forall|j: int|
                    0 <= j < k ==> !same_text(#[trigger] saved[j].0@, name),
        )
    } else {
        None
    }
}

/// The arguments after alias expansion: where the first argument after the program names a
/// saved alias (ignoring ASCII case), is no option and no built-in command, and the alias is
/// not empty, it is replaced by the alias's arguments.
pub open spec fn expansion(
    raw: Seq<Seq<char>>,
    saved: Seq<(String, Vec<String>)>,
    reserved: Seq<Seq<char>>,
) -> Seq<Seq<char>> {
    if raw.len() < 2 {
        raw
    } else if raw[1].len() > 0 && raw[1][0] == '-' {
        raw
    } else if reserved.contains(lower_of(raw[1])) {
        raw
    } else {
        match alias_index(saved, raw[1]) {
            None => raw,
            Some(k) => if saved[k].1@.len() == 0 {
                raw
            } else {
                seq![raw[0]] + texts(saved[k].1@) + raw.skip(2)
            },
        }
    }
}

fn is_listed(list: &[String], s: &str) -> (r: bool)
    ensures
        r == texts(list@).contains(s@),
{
    let mut i: usize = 0;
    while i < list.len()
        invariant
            i <= list.len(),
            forall|j: int| 0 <= j < i ==> list@[j]@ != s@,
        decreases list.len() - i,
    {
        if text_eq(list[i].as_str(), s) {
            assert(texts(list@)[i as int] == s@);
            return true;
        }
        i = i + 1;
    }
    assert(!texts(list@).contains(s@)) by {
        if texts(list@).contains(s@) {
            let j = choose|j: int| 0 <= j < texts(list@).len() && texts(list@)[j] == s@;
            assert(list@[j]@ == s@);
        }
    }
    false
}

/// Expands a saved alias in the program arguments; `reserved` holds the lower-case names of
/// the built-in commands, which aliases never shadow.
pub fn expand_saved_command_args(raw_args: &[String], state: &AppState, reserved: &[String]) -> (r: Vec<String>)
    ensures
        texts(r@) == expansion(texts(raw_args@), state.profile.saved_commands@, texts(reserved@)),
{
    let ghost raw = texts(raw_args@);
    let whole = copy_texts(raw_args);
    if raw_args.len() < 2 {
        return whole;
    }
    let first = raw_args[1].as_str();
    if first.unicode_len() > 0 && first.get_char(0) == '-' {
        return whole;
    }
    let key = lowercase(first);
    if is_listed(reserved, key.as_str()) {
        return whole;
    }
    let saved = &state.profile.saved_commands;
    let k = match find_alias(saved.as_slice(), first) {
        Some(k) => k,
        None => {
            return whole;
        },
    };
    let args = &saved[k].1;
    if args.len() == 0 {
        return whole;
    }
    let mut out: Vec<String> = Vec::new();
    out.push(raw_args[0].clone());
    assert(texts(out@) =~= seq![raw[0]] + texts(args@).take(0));
    let mut i: usize = 0;
    while i < args.len()
        invariant
            i <= args@.len(),
            raw == texts(raw_args@),
            raw_args@.len() >= 2,
            texts(out@) == seq![raw[0]] + texts(args@).take(i as int),
        decreases args.len() - i,
    {
        let ghost ov = texts(out@);
        out.push(args[i].clone());
        assert(texts(out@) =~= ov.push(args@[i as int]@));
        assert(texts(args@).take(i + 1) =~= texts(args@).take(i as int).push(args@[i as int]@));
        assert(texts(out@) =~= seq![raw[0]] + texts(args@).take(i + 1));
        i = i + 1;
    }
    assert(texts(args@).take(i as int) =~= texts(args@));
    let mut j: usize = 2;
    while j < raw_args.len()
        invariant
            2 <= j <= raw_args@.len(),
            raw == texts(raw_args@),
            texts(out@) == seq![raw[0]] + texts(args@) + raw.subrange(2, j as int),
        decreases raw_args.len() - j,
    {
        let ghost ov = texts(out@);
        out.push(raw_args[j].clone());
        assert(texts(out@) =~= ov.push(raw[j as int]));
        assert(raw.subrange(2, j + 1) =~= raw.subrange(2, j as int).push(raw[j as int]));
        assert(texts(out@) =~= seq![raw[0]] + texts(args@) + raw.subrange(2, j + 1));
        j = j + 1;
    }
    assert(raw.subrange(2, j as int) =~= raw.skip(2));
    out
}

/// Why a name cannot be saved as an alias.
#[derive(Clone, Copy, Debug, PartialEq, Eq, Structural)]
pub enum AliasError {
    /// The name is blank.
    EmptyName,
    /// The name starts with `-`, like an option.
    LeadingDash,
    /// The name is a built-in command.
    Reserved,
    /// No arguments were given to save.
    NoCommand,
}

/// What saving `args` under `name` gives: the trimmed name, or why it cannot be saved.
pub open spec fn alias_check(name: Seq<char>, args_len: int, reserved: Seq<Seq<char>>) -> Result<
    Seq<char>,
    AliasError,
> {
    let t = trim_of(name);
    if t.len() == 0 {
        Err(AliasError::EmptyName)
    } else if t[0] == '-' {
        Err(AliasError::LeadingDash)
    } else if reserved.contains(lower_of(t)) {
        Err(AliasError::Reserved)
    } else if args_len == 0 {
        Err(AliasError::NoCommand)
    } else {
        Ok(t)
    }
}

/// Checks a new alias: its trimmed name must be non-blank, not start with `-`, and not be a
/// built-in command (`reserved` holds them in lower case), and it must stand for something.
/// Returns the trimmed name.
pub fn check_alias(name: &str, args: &[String], reserved: &[String]) -> (r: Result<String, AliasError>)
    ensures
        match r {
            Ok(t) => alias_check(name@, args@.len() as int, texts(reserved@)) == Ok::<Seq<char>, AliasError>(t@),
            Err(e) => alias_check(name@, args@.len() as int, texts(reserved@)) == Err::<Seq<char>, AliasError>(e),
        },
{
    let t = trim_text(name);
    if t.unicode_len() == 0 {
        return Err(AliasError::EmptyName);
    }
    if t.as_str().get_char(0) == '-' {
        return Err(AliasError::LeadingDash);
    }
    let key = lowercase(t.as_str());
    if is_listed(reserved, key.as_str()) {
        return Err(AliasError::Reserved);
    }
    if args.len() == 0 {
        return Err(AliasError::NoCommand);
    }
    Ok(t)
}

/// The position of the first alias named `name`, ignoring ASCII case.
pub fn find_alias(saved: &[(String, Vec<String>)], name: &str) -> (r: Option<usize>)
    ensures
        r matches Some(k) ==> k < saved@.len(),
        match r {
            Some(k) => alias_index(saved@, name@) == Some(k as int),
            None => alias_index(saved@, name@) is None,
        },
{
    let mut k: usize = 0;
    while k < saved.len() && !eq_ignore_case(saved[k].0.as_str(), name)
        invariant
            k <= saved@.len(),
            forall|j: int| 0 <= j < k ==> !same_text(#[trigger] saved@[j].0@, name@),
        decreases saved.len() - k,
    {
        k = k + 1;
    }
    if k == saved.len() {
        return None;
    }
    proof {
        let c = choose|c: int|
            0 <= c < saved@.len() && same_text(saved@[c].0@, name@) && forall|j: int|
                0 <= j < c ==> !same_text(#[trigger] saved@[j].0@, name@);
        if c > k {
            assert(!same_text(saved@[k as int].0@, name@));
        }
        assert(c == k);
    }
    Some(k)
}

} // verus!
