//! Width arithmetic for list views: padding, truncation, centring and column fitting.

use vstd::prelude::*;

use crate::model::ListColumn;

verus! {

/// `n` spaces.
pub open spec fn blank(n: int) -> Seq<char> {
    Seq::new(n as nat, |i: int| ' ')
}

fn spaces(n: usize) -> (r: String)
    ensures
        r@ == blank(n as int),
{
    let mut s = String::new();
    let mut i: usize = 0;
    proof {
        reveal_strlit(" ");
    }
    while i < n
        invariant
            i <= n,
            s@ == blank(i as int),
        decreases n - i,
    {
        proof {
            reveal_strlit(" ");
        }
        s.append(" ");
        assert(" "@ =~= seq![' ']);
        assert(s@ =~= blank(i + 1));
        i = i + 1;
    }
    s
}

/// The text cut to `width` characters, its last one replaced by an ellipsis when cut.
pub open spec fn truncated(text: Seq<char>, width: int) -> Seq<char> {
    if width == 0 {
        Seq::empty()
    } else if text.len() <= width {
        text
    } else if width == 1 {
        seq!['…']
    } else {
        text.take(width - 1).push('…')
    }
}

/// Cuts a text to `width` characters, ending it with an ellipsis when it was longer.
pub fn truncate_to_width(text: &str, width: usize) -> (r: String)
    ensures
        r@ == truncated(text@, width as int),
{
    proof {
        reveal_strlit("…");
    }
    if width == 0 {
        return String::new();
    }
    let len = text.unicode_len();
    if len <= width {
        return String::from_str(text);
    }
    if width == 1 {
        let r = String::from_str("…");
        assert(r@ =~= seq!['…']);
        return r;
    }
    let mut out = String::from_str(text.substring_char(0, width - 1));
    out.append("…");
    assert(out@ =~= text@.take(width - 1).push('…'));
    out
}

/// The text cut or filled with spaces to exactly `width` characters.
pub open spec fn padded(text: Seq<char>, width: int) -> Seq<char> {
    if text.len() >= width {
        text.take(width)
    } else {
        text + blank(width - text.len())
    }
}

/// Pads a text with spaces on the right, or cuts it, to exactly `width` characters.
pub fn pad_right(text: &str, width: usize) -> (r: String)
    ensures
        r@ == padded(text@, width as int),
{
    let len = text.unicode_len();
    if len >= width {
        return String::from_str(text.substring_char(0, width));
    }
    let mut out = String::from_str(text);
    let pad = spaces(width - len);
    out.append(pad.as_str());
    out
}

/// The text preceded by half the free width in spaces; unchanged when it does not fit.
pub open spec fn centered(text: Seq<char>, width: int) -> Seq<char> {
    if width <= text.len() {
        text
    } else {
        blank((width - text.len()) / 2) + text
    }
}

/// Centres a text in `width` columns by indenting it.
pub fn center_line(text: &str, width: usize) -> (r: String)
    ensures
        r@ == centered(text@, width as int),
{
    let len = text.unicode_len();
    if width <= len {
        return String::from_str(text);
    }
    let mut out = spaces((width - len) / 2);
    out.append(text);
    out
}

/// The text centred in exactly `width` columns, cut when it is wider.
pub open spec fn centered_in(text: Seq<char>, width: int) -> Seq<char> {
    if width <= text.len() {
        text.take(width)
    } else {
        let left = (width - text.len()) / 2;
        blank(left) + text + blank(width - text.len() - left)
    }
}

/// Centres a text in exactly `width` columns, filling both sides with spaces.
pub fn center_in_width(text: &str, width: usize) -> (r: String)
    ensures
        r@ == centered_in(text@, width as int),
{
    let len = text.unicode_len();
    if width <= len {
        return String::from_str(text.substring_char(0, width));
    }
    let left = (width - len) / 2;
    let right = width - len - left;
    let mut out = spaces(left);
    out.append(text);
    let tail = spaces(right);
    out.append(tail.as_str());
    out
}

/// The width of a list column.
pub open spec fn width_of(c: ListColumn) -> int {
    match c {
        ListColumn::Due => 10,
        ListColumn::Priority => 1,
        ListColumn::Branch => 12,
        ListColumn::Tags => 18,
        ListColumn::Repeat => 7,
        ListColumn::Content => 20,
    }
}

/// The width of a list column.
pub fn column_width(c: ListColumn) -> (r: usize)
    ensures
        r == width_of(c),
{
    match c {
        ListColumn::Due => 10,
        ListColumn::Priority => 1,
        ListColumn::Branch => 12,
        ListColumn::Tags => 18,
        ListColumn::Repeat => 7,
        ListColumn::Content => 20,
    }
}

/// The heading of a list column.
pub fn column_header(c: ListColumn) -> (r: &'static str)
    ensures
        r@ == match c {
            ListColumn::Due => "Due"@,
            ListColumn::Priority => "P"@,
            ListColumn::Branch => "Branch"@,
            ListColumn::Tags => "Tags"@,
            ListColumn::Repeat => "Repeat"@,
            ListColumn::Content => "Note"@,
        },
{
    match c {
        ListColumn::Due => "Due",
        ListColumn::Priority => "P",
        ListColumn::Branch => "Branch",
        ListColumn::Tags => "Tags",
        ListColumn::Repeat => "Repeat",
        ListColumn::Content => "Note",
    }
}

/// Columns of a table row besides the title: status, space, id and separator, then each column
/// with its separator.
pub open spec fn fixed_width(cols: Seq<ListColumn>) -> int
    decreases cols.len(),
{
    if cols.len() == 0 {
        8
    } else {
        fixed_width(cols.drop_last()) + 2 + width_of(cols.last())
    }
}

/// The title keeps at least 18 columns beside `cols` in a row `term_width` wide.
pub open spec fn leaves_title_room(term_width: int, cols: Seq<ListColumn>) -> bool {
    term_width - fixed_width(cols) >= 18
}

proof fn lemma_fixed_width_bound(cols: Seq<ListColumn>)
    ensures
        8 <= fixed_width(cols) <= 8 + 22 * cols.len(),
    decreases cols.len(),
{
    if cols.len() > 0 {
        lemma_fixed_width_bound(cols.drop_last());
    }
}

/// Drops columns from the end until the title keeps 18 columns; returns the longest such
/// prefix, or no columns.
pub fn fit_columns(term_width: usize, cols: &[ListColumn]) -> (r: Vec<ListColumn>)
    requires
        cols@.len() < usize::MAX / 32,
    ensures
        exists|k: int|
            0 <= k <= cols@.len() && r@ == cols@.take(k) && (leaves_title_room(term_width as int, r@)
                || k == 0) && forall|m: int|
                k < m <= cols@.len() ==> !leaves_title_room(term_width as int, #[trigger] cols@.take(m)),
{
    let mut selected: Vec<ListColumn> = Vec::new();
    let mut i: usize = 0;
    while i < cols.len()
        invariant
            i <= cols@.len(),
            selected@ == cols@.take(i as int),
        decreases cols.len() - i,
    {
        selected.push(cols[i]);
        assert(selected@ =~= cols@.take(i + 1));
        i = i + 1;
    }
    assert(cols@.take(i as int) =~= cols@);
    loop
        invariant
            selected@.len() <= cols@.len(),
            cols@.len() < usize::MAX / 32,
            selected@ == cols@.take(selected@.len() as int),
            forall|m: int|
                selected@.len() < m <= cols@.len() ==> !leaves_title_room(term_width as int, #[trigger] cols@.take(m)),
        decreases selected@.len(),
    {
        let mut fixed: usize = 8;
        let mut j: usize = 0;
        proof {
            lemma_fixed_width_bound(selected@);
        }
        while j < selected.len()
            invariant
                j <= selected@.len(),
                selected@.len() < usize::MAX / 32,
                fixed == fixed_width(selected@.take(j as int)),
            decreases selected.len() - j,
        {
            proof {
                assert(selected@.take(j + 1).drop_last() =~= selected@.take(j as int));
                lemma_fixed_width_bound(selected@.take(j as int));
            }
            fixed = fixed + 2 + column_width(selected[j]);
            j = j + 1;
        }
        assert(selected@.take(j as int) =~= selected@);
        let room = if term_width >= fixed { term_width - fixed } else { 0 };
        if room >= 18 {
            return selected;
        }
        if selected.len() == 0 {
            return selected;
        }
        let ghost before = selected@;
        selected.pop();
        assert(selected@ =~= cols@.take(selected@.len() as int));
    }
}

} // verus!
