//! Textual grid layouts: a layout string is trimmed of surrounding
//! whitespace, split into lines, and each line trimmed again; the remaining
//! rows (given top row first) must be nonempty, of equal width, at least two,
//! and consist of cell letters.

use vstd::prelude::*;

use crate::cell::is_cell_letter;

verus! {

/// The whitespace stripped around layouts and rows.
pub open spec fn is_layout_space(c: char) -> bool {
    c == ' ' || c == '\n' || c == '\t' || c == '\r'
}

/// The first index at or after `i` holding a non-space character, or the
/// length if there is none.
pub open spec fn first_non_space(s: Seq<char>, i: int) -> int
    decreases s.len() - i,
{
    if i < 0 || i >= s.len() {
        s.len() as int
    } else if !is_layout_space(s[i]) {
        i
    } else {
        first_non_space(s, i + 1)
    }
}

/// The index just past the last non-space character strictly before `i`, or 0
/// if there is none.
pub open spec fn last_non_space(s: Seq<char>, i: int) -> int
    decreases i,
{
    if i <= 0 || i > s.len() {
        0
    } else if !is_layout_space(s[i - 1]) {
        i
    } else {
        last_non_space(s, i - 1)
    }
}

/// The sequence with leading and trailing whitespace removed.
pub open spec fn spec_trim(s: Seq<char>) -> Seq<char> {
    let a = first_non_space(s, 0);
    let b = last_non_space(s, s.len() as int);
    if a < b {
        s.subrange(a, b)
    } else {
        Seq::empty()
    }
}

/// The lines of a sequence: pieces between newline characters. A sequence
/// with no newline is one line; every newline starts a further (possibly
/// empty) line.
pub open spec fn split_lines(s: Seq<char>) -> Seq<Seq<char>>
    decreases s.len(),
{
    if s.len() == 0 {
        seq![Seq::<char>::empty()]
    } else {
        let rest = split_lines(s.drop_last());
        if s.last() == '\n' {
            rest.push(Seq::empty())
        } else {
            rest.update(rest.len() - 1, rest.last().push(s.last()))
        }
    }
}

pub proof fn lemma_last_non_space_le(s: Seq<char>, i: int)
    requires
        i >= 0,
    ensures
        last_non_space(s, i) <= i,
    decreases i,
{
    if !(i <= 0 || i > s.len()) && is_layout_space(s[i - 1]) {
        lemma_last_non_space_le(s, i - 1);
    }
}

pub proof fn lemma_split_lines_nonempty(s: Seq<char>)
    ensures
        split_lines(s).len() >= 1,
    decreases s.len(),
{
    if s.len() > 0 {
        lemma_split_lines_nonempty(s.drop_last());
    }
}

/// The rows a layout string denotes: trim the whole string, split into lines,
/// trim each line.
pub open spec fn layout_rows(s: Seq<char>) -> Seq<Seq<char>> {
    split_lines(spec_trim(s)).map_values(|r: Seq<char>| spec_trim(r))
}

/// A layout string the grid constructor accepts: at least two rows, all
/// nonempty and of one width, made of cell letters, and small enough to index.
pub open spec fn valid_layout(s: Seq<char>) -> bool {
    let rows = layout_rows(s);
    &&& rows.len() >= 2
    &&& rows[0].len() >= 1
    &&& forall |j: int| 0 <= j < rows.len() ==> (#[trigger] rows[j]).len() == rows[0].len()
    &&& forall |j: int, i: int|
        0 <= j < rows.len() && 0 <= i < rows[0].len() ==> is_cell_letter(#[trigger] rows[j][i])
    &&& rows[0].len() * rows.len() < usize::MAX
}

/// The rows of a character matrix, as sequences.
pub open spec fn char_rows_view(v: Vec<Vec<char>>) -> Seq<Seq<char>> {
    v@.map_values(|row: Vec<char>| row@)
}

fn is_space_exec(c: char) -> (r: bool)
    ensures
        r == is_layout_space(c),
{
    c == ' ' || c == '\n' || c == '\t' || c == '\r'
}

/// The characters of a string, in order.
pub(crate) fn str_to_chars(s: &str) -> (r: Vec<char>)
    ensures
        r@ == s@,
{
    let len = s.unicode_len();
    let mut r: Vec<char> = Vec::new();
    let mut i: usize = 0;
    while i < len
        invariant
            len == s@.len(),
            i <= len,
            r@.len() == i,
            forall |j: int| 0 <= j < i ==> #[trigger] r@[j] == s@[j],
        decreases len - i,
    {
        r.push(s.get_char(i));
        i = i + 1;
    }
    proof {
        assert(r@ =~= s@);
    }
    r
}

/// The characters with surrounding whitespace removed.
pub(crate) fn trim_chars(v: &Vec<char>) -> (r: Vec<char>)
    ensures
        r@ == spec_trim(v@),
{
    let len = v.len();
    let mut a: usize = 0;
    while a < len && is_space_exec(v[a])
        invariant
            len == v@.len(),
            a <= len,
            first_non_space(v@, 0) == first_non_space(v@, a as int),
        decreases len - a,
    {
        a = a + 1;
    }
    proof {
        assert(first_non_space(v@, 0) == a as int);
    }
    let mut b: usize = len;
    while b > a && is_space_exec(v[b - 1])
        invariant
            len == v@.len(),
            a <= b <= len,
            first_non_space(v@, 0) == a as int,
            last_non_space(v@, len as int) == last_non_space(v@, b as int),
        decreases b,
    {
        b = b - 1;
    }
    let mut r: Vec<char> = Vec::new();
    let mut k: usize = a;
    while k < b
        invariant
            len == v@.len(),
            a <= k <= b <= len,
            r@.len() == k - a,
            forall |j: int| 0 <= j < r@.len() ==> #[trigger] r@[j] == v@[a + j],
        decreases b - k,
    {
        r.push(v[k]);
        k = k + 1;
    }
    proof {
        if b == a {
            lemma_last_non_space_le(v@, b as int);
            assert(last_non_space(v@, b as int) <= a as int);
            assert(r@ =~= spec_trim(v@));
        } else {
            assert(!is_layout_space(v@[b - 1]));
            assert(last_non_space(v@, len as int) == b as int);
            assert(r@ =~= v@.subrange(a as int, b as int));
            assert(r@ =~= spec_trim(v@));
        }
    }
    r
}

/// The lines of a character sequence, split on newlines.
pub(crate) fn split_rows(v: &Vec<char>) -> (r: Vec<Vec<char>>)
    ensures
        char_rows_view(r) == split_lines(v@),
{
    let mut rows: Vec<Vec<char>> = Vec::new();
    let mut cur: Vec<char> = Vec::new();
    let len = v.len();
    let mut i: usize = 0;
    proof {
        assert(v@.subrange(0, 0) =~= Seq::<char>::empty());
        assert(char_rows_view(rows).push(cur@) =~= split_lines(v@.subrange(0, 0)));
    }
    while i < len
        invariant
            len == v@.len(),
            i <= len,
            char_rows_view(rows).push(cur@) == split_lines(v@.subrange(0, i as int)),
        decreases len - i,
    {
        let ghost pre_rows = char_rows_view(rows);
        let ghost pre_cur = cur@;
        let c = v[i];
        if c == '\n' {
            rows.push(cur);
            cur = Vec::new();
        } else {
            cur.push(c);
        }
        proof {
            let pre = v@.subrange(0, i + 1);
            assert(pre.drop_last() =~= v@.subrange(0, i as int));
            assert(pre.last() == v@[i as int]);
            lemma_split_lines_nonempty(pre.drop_last());
            if c == '\n' {
                assert(char_rows_view(rows) =~= pre_rows.push(pre_cur));
                assert(char_rows_view(rows).push(cur@) =~= split_lines(pre));
            } else {
                let old_split = pre_rows.push(pre_cur);
                assert(old_split.last() == pre_cur);
                assert(split_lines(pre) =~= old_split.update(
                    old_split.len() - 1,
                    pre_cur.push(c),
                ));
                assert(char_rows_view(rows).push(cur@) =~= old_split.update(
                    old_split.len() - 1,
                    pre_cur.push(c),
                ));
            }
        }
        i = i + 1;
    }
    rows.push(cur);
    proof {
        assert(v@.subrange(0, v@.len() as int) =~= v@);
        assert(char_rows_view(rows) =~= split_lines(v@));
    }
    rows
}

} // verus!
