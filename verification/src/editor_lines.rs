//! Which rows of the editor's virtual list must be laid out again after an edit.
//!
//! A row is reused when its source line keeps its length in characters and the way it is
//! presented; the rows in between the unchanged head and the unchanged tail are redone.

use vstd::prelude::*;

verus! {

/// What the virtual list compares of a source line: its length in characters and a tag
/// that names how it is presented (paragraph, heading, code, ...).
#[derive(Clone, Copy, Debug, PartialEq, Eq, Structural)]
pub struct LineLayout {
    pub source_len_chars: usize,
    pub presentation: u32,
}

/// `p` is the length of the longest run at the start on which `a` and `b` agree.
pub open spec fn is_shared_prefix(a: Seq<LineLayout>, b: Seq<LineLayout>, p: int) -> bool {
    &&& 0 <= p <= a.len()
    &&& p <= b.len()
    &&& a.take(p) == b.take(p)
    &&& (p == a.len() || p == b.len() || a[p] != b[p])
}

/// `s` is the length of the longest run at the end on which `a` and `b` agree.
pub open spec fn is_shared_suffix(a: Seq<LineLayout>, b: Seq<LineLayout>, s: int) -> bool {
    &&& 0 <= s <= a.len()
    &&& s <= b.len()
    &&& a.skip(a.len() - s) == b.skip(b.len() - s)
    &&& (s == a.len() || s == b.len() || a[a.len() - 1 - s] != b[b.len() - 1 - s])
}

/// Whether a laid-out row can be kept for a new source line.
pub fn editor_line_layout_matches(old: &LineLayout, new: &LineLayout) -> (same: bool)
    ensures
        same == (*old == *new),
{
    old.source_len_chars == new.source_len_chars && old.presentation == new.presentation
}

/// The rows of `old_lines` to lay out again and how many rows of `new_lines` replace
/// them: `None` when nothing changed, else the range of old rows after the unchanged
/// head and before the unchanged tail, and the number of new rows in between.
pub fn changed_line_span(old_lines: &Vec<LineLayout>, new_lines: &Vec<LineLayout>) -> (span:
    Option<(core::ops::Range<usize>, usize)>)
    ensures
        span is None <==> old_lines@ == new_lines@,
        span matches Some((rows, count)) ==> {
            &&& is_shared_prefix(old_lines@, new_lines@, rows.start as int)
            &&& is_shared_suffix(
                old_lines@.skip(rows.start as int),
                new_lines@.skip(rows.start as int),
                old_lines.len() - rows.end,
            )
            &&& rows.start <= rows.end <= old_lines.len()
            &&& count == new_lines.len() - rows.start - (old_lines.len() - rows.end)
            &&& new_lines@ == old_lines@.take(rows.start as int) + new_lines@.subrange(
                rows.start as int,
                rows.start + count,
            ) + old_lines@.skip(rows.end as int)
        },
{
    let old_len = old_lines.len();
    let new_len = new_lines.len();
    let mut prefix: usize = 0;
    while prefix < old_len && prefix < new_len && editor_line_layout_matches(
        &old_lines[prefix],
        &new_lines[prefix],
    )
        invariant
            old_len == old_lines.len(),
            new_len == new_lines.len(),
            prefix <= old_len,
            prefix <= new_len,
            old_lines@.take(prefix as int) == new_lines@.take(prefix as int),
        decreases old_len - prefix,
    {
        assert(old_lines@.take(prefix + 1) =~= old_lines@.take(prefix as int).push(old_lines@[prefix as int]));
        assert(new_lines@.take(prefix + 1) =~= new_lines@.take(prefix as int).push(new_lines@[prefix as int]));
        prefix = prefix + 1;
    }
    if prefix == old_len && prefix == new_len {
        assert(old_lines@.take(prefix as int) =~= old_lines@);
        assert(new_lines@.take(prefix as int) =~= new_lines@);
        return None;
    }
    let ghost a = old_lines@.skip(prefix as int);
    let ghost b = new_lines@.skip(prefix as int);
    let mut suffix: usize = 0;
    while suffix < old_len - prefix && suffix < new_len - prefix && editor_line_layout_matches(
        &old_lines[old_len - 1 - suffix],
        &new_lines[new_len - 1 - suffix],
    )
        invariant
            old_len == old_lines.len(),
            new_len == new_lines.len(),
            prefix <= old_len,
            prefix <= new_len,
            a == old_lines@.skip(prefix as int),
            b == new_lines@.skip(prefix as int),
            suffix <= old_len - prefix,
            suffix <= new_len - prefix,
            a.skip(a.len() - suffix) == b.skip(b.len() - suffix),
        decreases old_len - suffix,
    {
        assert(a.skip(a.len() - (suffix + 1)) =~= seq![a[a.len() - 1 - suffix]] + a.skip(a.len() - suffix));
        assert(b.skip(b.len() - (suffix + 1)) =~= seq![b[b.len() - 1 - suffix]] + b.skip(b.len() - suffix));
        suffix = suffix + 1;
    }
    let end = old_len - suffix;
    let count = new_len - (prefix + suffix);
    proof {
        assert(new_lines@ =~= old_lines@.take(prefix as int) + new_lines@.subrange(
            prefix as int,
            prefix + count,
        ) + old_lines@.skip(end as int)) by {
            assert forall|i: int| 0 <= i < new_len implies new_lines@[i] == (old_lines@.take(
                prefix as int,
            ) + new_lines@.subrange(prefix as int, prefix + count) + old_lines@.skip(
                end as int,
            ))[i] by {
                if i >= prefix + count {
                    let k = i - prefix - count;
                    assert(a.skip(a.len() - suffix)[k] == b.skip(b.len() - suffix)[k]);
                } else if i < prefix {
                    assert(old_lines@.take(prefix as int)[i] == new_lines@.take(prefix as int)[i]);
                }
            }
        }
        if old_lines@ == new_lines@ {
            assert(old_lines@[prefix as int] == new_lines@[prefix as int]);
        }
        assert(old_lines@.skip(prefix as int).skip(a.len() - suffix) =~= old_lines@.skip(
            prefix as int,
        ).skip((old_len - prefix) - suffix));
    }
    Some((prefix..end, count))
}

} // verus!
