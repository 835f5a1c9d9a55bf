//! Markdown edits for the Enter key: fenced code blocks, list continuation, and the
//! paragraph below a trailing fenced code block.
//!
//! Offsets in a `MarkdownEdit` count characters (Unicode scalar values) of the source.

use std::ops::Range;

use vstd::prelude::*;

use crate::text::{
    all_ws, chars_in_bytes, chars_of, contains_char, count_lead_ws, count_run, count_trail_ws,
    find_line_end, find_line_start, has_char, is_boundary, is_whitespace, is_ws, lead_count,
    lead_ws, lemma_lead_count_bounds, lemma_lead_ws_bounds, lemma_line_end_at, lemma_utf8_len_mono, line_end_at,
    line_start_at, push_all, push_str, slice_chars, string_of, trim_end, utf8_len, utf8_prefix_len, utf8_width_of,
};

verus! {

/// Replace the characters `range` of the source by `replacement`, then put the caret at
/// character `cursor` of the result.
#[derive(Debug, Eq, PartialEq)]
pub struct MarkdownEdit {
    pub range: Range<usize>,
    pub replacement: String,
    pub cursor: usize,
}

impl View for MarkdownEdit {
    /// `(range start, range end, replacement, cursor)`.
    type V = (int, int, Seq<char>, int);

    open spec fn view(&self) -> (int, int, Seq<char>, int) {
        (self.range.start as int, self.range.end as int, self.replacement@, self.cursor as int)
    }
}

/// The view of an optional edit.
pub open spec fn opt_edit(e: Option<MarkdownEdit>) -> Option<(int, int, Seq<char>, int)> {
    match e {
        Some(e) => Some(e@),
        None => None,
    }
}

/// A closing code fence: `length` repetitions of `marker`.
#[derive(Clone, Copy)]
pub struct Fence {
    pub marker: char,
    pub length: usize,
}

/// The closing fence that `line` is, if any: at most three spaces, then only backticks
/// or only tildes, at least three of them.
pub open spec fn closing_fence(line: Seq<char>) -> Option<(char, nat)> {
    let indentation = lead_count(line, ' ');
    let rest = line.skip(indentation as int);
    if indentation > 3 || rest.len() == 0 {
        None
    } else if rest[0] != '`' && rest[0] != '~' {
        None
    } else if rest.len() >= 3 && (forall|i: int| 0 <= i < rest.len() ==> #[trigger] rest[i] == rest[0]) {
        Some((rest[0], rest.len()))
    } else {
        None
    }
}

/// `line` can open a fenced block that a fence of `length` times `marker` closes: at most
/// three spaces, at least `length` markers, and for backticks an info string without one.
pub open spec fn opens_fence(line: Seq<char>, marker: char, length: nat) -> bool {
    let indentation = lead_count(line, ' ');
    let rest = line.skip(indentation as int);
    let run = lead_count(rest, marker);
    &&& indentation <= 3
    &&& run >= length
    &&& (marker != '`' || !has_char(rest.skip(run as int), '`'))
}

/// Position `ls` of `p` starts a line that holds at least one character or a line break.
pub open spec fn is_line_start(p: Seq<char>, ls: int) -> bool {
    0 <= ls < p.len() && (ls == 0 || p[ls - 1] == '\n')
}

/// Where the line that starts at `ls` ends, its line break included.
pub open spec fn segment_end(p: Seq<char>, ls: int) -> int {
    if line_end_at(p, ls) < p.len() {
        line_end_at(p, ls) + 1
    } else {
        p.len() as int
    }
}

/// The line of `p` that starts at `ls` opens a fence closed by `marker` times `length`.
pub open spec fn opens_at(p: Seq<char>, ls: int, marker: char, length: nat) -> bool {
    is_line_start(p, ls) && opens_fence(p.subrange(ls, line_end_at(p, ls)), marker, length)
}

/// `ls` is the last line start of `p` whose line opens the fence.
pub open spec fn last_opening_line(p: Seq<char>, ls: int, marker: char, length: nat) -> bool {
    opens_at(p, ls, marker, length) && forall|l: int|
        #![trigger opens_at(p, l, marker, length)]
        l > ls ==> !opens_at(p, l, marker, length)
}

/// Where the content of the last fenced block opened in the first `before` characters of
/// `s` starts: just after its opening line.
pub open spec fn opening_content_start(s: Seq<char>, before: int, marker: char, length: nat) -> Option<int> {
    let p = prefix(s, before);
    if exists|ls: int| opens_at(p, ls, marker, length) {
        Some(segment_end(p, choose|ls: int| last_opening_line(p, ls, marker, length)))
    } else {
        None
    }
}

/// The first `n` characters of `s`, or all of them.
pub open spec fn prefix(s: Seq<char>, n: int) -> Seq<char> {
    s.take(if n < s.len() { n } else { s.len() as int })
}

/// `n` copies of `c`.
pub open spec fn repeat(c: char, n: nat) -> Seq<char> {
    Seq::new(n, |i: int| c)
}

/// The Enter edit that leaves a fenced code block: the caret stands on the second of two
/// blank lines right before the closing fence. The two blank lines go, and the caret
/// lands after the fence.
pub open spec fn exit_edit(s: Seq<char>, cursor_char: int) -> Option<(int, int, Seq<char>, int)> {
    let cursor = if cursor_char < s.len() { cursor_char } else { s.len() as int };
    if cursor < 2 || cursor >= s.len() || s[cursor] != '\n' || s[cursor - 2] != '\n' || s[cursor - 1]
        != '\n' {
        None
    } else {
        let closing_start = cursor + 1;
        let closing_end = line_end_at(s, closing_start);
        match closing_fence(s.subrange(closing_start, closing_end)) {
            None => None,
            Some((marker, length)) => match opening_content_start(s, cursor, marker, length) {
                None => None,
                Some(content_start) => if cursor < content_start + 2 {
                    None
                } else {
                    let has_following_line = closing_end < s.len();
                    let replacement = if has_following_line {
                        s.subrange(cursor, closing_end)
                    } else {
                        s.subrange(cursor, closing_end).push('\n')
                    };
                    Some(
                        (
                            cursor - 2,
                            closing_end,
                            replacement,
                            cursor - 2 + replacement.len() + if has_following_line {
                                1int
                            } else {
                                0int
                            },
                        ),
                    )
                },
            },
        }
    }
}

/// `line` closes a fence of at least `minimum` times `marker`: at most three spaces, the
/// markers, then only whitespace.
pub open spec fn closes_fence(line: Seq<char>, marker: char, minimum: nat) -> bool {
    let indentation = lead_count(line, ' ');
    let rest = line.skip(indentation as int);
    let run = lead_count(rest, marker);
    &&& indentation <= 3
    &&& run >= minimum
    &&& run == trim_end(rest).len()
    &&& forall|i: int| 0 <= i < rest.len() ==> rest[i] == marker || is_ws(#[trigger] rest[i])
}

/// The line of `s` that starts at `ls` as `str::lines` yields it: a `'\r'` before the
/// line break is dropped.
pub open spec fn lines_item(s: Seq<char>, ls: int) -> Seq<char> {
    let le = line_end_at(s, ls);
    let raw = s.subrange(ls, le);
    if le < s.len() && raw.len() > 0 && raw.last() == '\r' {
        raw.drop_last()
    } else {
        raw
    }
}

/// Some line after position `after` closes a fence of at least `minimum` times `marker`.
pub open spec fn has_closing_after(s: Seq<char>, after: int, marker: char, minimum: nat) -> bool {
    exists|ls: int|
        #![trigger is_line_start(s, ls)]
        ls > after && is_line_start(s, ls) && closes_fence(lines_item(s, ls), marker, minimum)
}

/// The Enter edit at the end of an opening code fence line: a new indented line, plus a
/// closing fence when none follows.
pub open spec fn enter_edit(s: Seq<char>, cursor_char: int) -> Option<(int, int, Seq<char>, int)> {
    let cursor = if cursor_char < s.len() { cursor_char } else { s.len() as int };
    let ls = line_start_at(s, cursor);
    let le = line_end_at(s, cursor);
    let line = s.subrange(ls, le);
    let indentation = lead_count(line, ' ');
    let rest = line.skip(indentation as int);
    if cursor != le || indentation > 3 || rest.len() == 0 {
        None
    } else {
        let marker = rest[0];
        let marker_len = lead_count(rest, marker);
        if marker != '`' && marker != '~' {
            None
        } else if marker_len < 3 {
            None
        } else if marker == '`' && has_char(rest.skip(marker_len as int), '`') {
            None
        } else {
            let indent = repeat(' ', indentation);
            let replacement = if has_closing_after(s, le, marker, marker_len) {
                seq!['\n'] + indent
            } else {
                seq!['\n'] + indent + seq!['\n'] + indent + repeat(marker, marker_len)
            };
            Some((cursor, cursor, replacement, cursor + 1 + indentation))
        }
    }
}

/// The edit that opens a paragraph below a fenced code block closing the text.
pub open spec fn trailing_paragraph_edit(s: Seq<char>) -> Option<(int, int, Seq<char>, int)> {
    if s.len() > 0 && s.last() == '\n' {
        None
    } else {
        let closing_start = line_start_at(s, s.len() as int);
        match closing_fence(s.skip(closing_start)) {
            None => None,
            Some((marker, length)) =>
            // The opening fence is searched among the first `b` characters, `b` being
            // the byte offset of the last line (its character offset in ASCII text).
            match opening_content_start(s, utf8_len(s.take(closing_start)) as int, marker, length) {
                None => None,
                Some(_) => Some((s.len() as int, s.len() as int, seq!['\n'], s.len() + 1int)),
            },
        }
    }
}

/// The paragraph edit below a fenced code block that closes `source`: a line break at
/// the end, with the caret after it. `None` unless the text does not end with a line
/// break, its last line is a closing fence, and an opening fence for it stands among the
/// first `b` characters, where `b` is the byte offset at which the last line starts. In
/// ASCII text `b` is the last line's character offset, so the opening fence is an earlier
/// line; before non-ASCII characters `b` reaches further, up to the whole text.
pub fn trailing_fenced_code_block_paragraph_edit(source: &str) -> (edit: Option<MarkdownEdit>)
    requires
        utf8_len(source@) <= isize::MAX,
    ensures
        opt_edit(edit) == trailing_paragraph_edit(source@),
{
    let chars = chars_of(source);
    let len = chars.len();
    proof {
        assert(chars@.take(chars@.len() as int) =~= chars@);
        lemma_utf8_len_mono(chars@, 0, chars@.len() as int);
    }
    if len > 0 && chars[len - 1] == '\n' {
        return None;
    }
    let closing_start = find_line_start(&chars, len);
    proof {
        assert(chars@.skip(closing_start as int) =~= chars@.subrange(closing_start as int, len as int));
    }
    let closing = match parse_closing_fence(&chars, closing_start, len) {
        Some(fence) => fence,
        None => return None,
    };
    let closing_start_byte = utf8_prefix_len(&chars, closing_start);
    match matching_opening_fence_before(&chars, closing_start_byte, closing) {
        Some(_) => {},
        None => return None,
    }
    let mut replacement: Vec<char> = Vec::new();
    replacement.push('\n');
    proof {
        assert(replacement@ =~= seq!['\n']);
    }
    Some(MarkdownEdit { range: len..len, replacement: string_of(&replacement), cursor: len + 1 })
}

/// The closing fence that `s[from..to]` is, if any.
fn parse_closing_fence(s: &Vec<char>, from: usize, to: usize) -> (fence: Option<Fence>)
    requires
        from <= to <= s.len(),
    ensures
        match closing_fence(s@.subrange(from as int, to as int)) {
            Some((marker, length)) => fence matches Some(f) && f.marker == marker && f.length == length,
            None => fence is None,
        },
{
    let ghost line = s@.subrange(from as int, to as int);
    let indentation = count_run(s, from, to, ' ');
    if indentation > 3 {
        return None;
    }
    let start = from + indentation;
    let ghost rest = line.skip(indentation as int);
    proof {
        assert(rest =~= s@.subrange(start as int, to as int));
    }
    if start >= to {
        return None;
    }
    let marker = s[start];
    if marker != '`' && marker != '~' {
        return None;
    }
    let length = count_run(s, start, to, marker);
    proof {
        lemma_lead_count_bounds(rest, marker);
        assert(rest[0] == marker);
    }
    if length >= 3 && length == to - start {
        Some(Fence { marker, length })
    } else {
        proof {
            if length < to - start {
                assert(rest[length as int] != rest[0]);
            }
        }
        None
    }
}

/// Whether `s[from..to]` can open a fence closed by `length` times `marker`.
fn line_opens_fence(s: &Vec<char>, from: usize, to: usize, marker: char, length: usize) -> (b: bool)
    requires
        from <= to <= s.len(),
    ensures
        b == opens_fence(s@.subrange(from as int, to as int), marker, length as nat),
{
    let ghost line = s@.subrange(from as int, to as int);
    let indentation = count_run(s, from, to, ' ');
    if indentation > 3 {
        return false;
    }
    let start = from + indentation;
    let ghost rest = line.skip(indentation as int);
    proof {
        assert(rest =~= s@.subrange(start as int, to as int));
    }
    let run = count_run(s, start, to, marker);
    if run < length {
        return false;
    }
    proof {
        assert(rest.skip(run as int) =~= s@.subrange(start + run, to as int));
    }
    !(marker == '`' && contains_char(s, start + run, to, '`'))
}

/// Where the content of the last fenced block opened in the first `before_char`
/// characters of `source` starts.
fn matching_opening_fence_before(source: &Vec<char>, before_char: usize, closing: Fence) -> (start: Option<usize>)
    ensures
        start is Some <==> opening_content_start(source@, before_char as int, closing.marker, closing.length as nat) is Some,
        start matches Some(v) ==> opening_content_start(source@, before_char as int, closing.marker, closing.length as nat)
            == Some(v as int) && v <= before_char && v <= source@.len(),
{
    let end = if before_char < source.len() {
        before_char
    } else {
        source.len()
    };
    let p = slice_chars(source, 0, end);
    let ghost m = closing.marker;
    let ghost n = closing.length as nat;
    proof {
        assert(p@ =~= source@.take(end as int));
    }
    let mut ls: usize = 0;
    let mut found: Option<usize> = None;
    let ghost mut found_ls: int = -1;
    while ls < p.len()
        invariant
            ls <= p.len() == end,
            p@ == source@.take(end as int),
            end == if before_char < source.len() { before_char } else { source.len() },
            ls == p.len() || ls == 0 || p@[ls - 1] == '\n',
            m == closing.marker,
            n == closing.length,
            found matches Some(v) ==> {
                &&& 0 <= found_ls < ls
                &&& opens_at(p@, found_ls, m, n)
                &&& v == segment_end(p@, found_ls)
                &&& v <= ls
                &&& forall|l: int| #![trigger opens_at(p@, l, m, n)] found_ls < l < ls ==> !opens_at(p@, l, m, n)
            },
            found is None ==> forall|l: int| #![trigger opens_at(p@, l, m, n)] 0 <= l < ls ==> !opens_at(p@, l, m, n),
        decreases p.len() - ls,
    {
        let le = find_line_end(&p, ls);
        let opens = line_opens_fence(&p, ls, le, closing.marker, closing.length);
        let next = if le < p.len() {
            le + 1
        } else {
            p.len()
        };
        proof {
            assert(opens_at(p@, ls as int, m, n) == opens);
            assert forall|l: int| #![trigger opens_at(p@, l, m, n)] ls < l < next implies !opens_at(p@, l, m, n) by {
                assert(p@[l - 1] != '\n');
            }
        }
        if opens {
            found = Some(next);
            proof {
                found_ls = ls as int;
            }
        }
        ls = next;
    }
    proof {
        if let Some(v) = found {
            assert forall|l: int| #![trigger opens_at(p@, l, m, n)] l > found_ls implies !opens_at(p@, l, m, n) by {
                if l < ls {
                }
            }
            assert(last_opening_line(p@, found_ls, m, n));
            let c = choose|l: int| last_opening_line(p@, l, m, n);
            if c < found_ls {
                assert(!opens_at(p@, found_ls, m, n));
            } else if c > found_ls {
                assert(!opens_at(p@, c, m, n));
            }
            assert(c == found_ls);
            let sp = prefix(source@, before_char as int);
            assert(sp == p@);
            assert(opens_at(sp, found_ls, m, n));
            assert(opening_content_start(source@, before_char as int, m, n) == Some(v as int));
        } else {
            assert forall|l: int| !opens_at(p@, l, m, n) by {
                if 0 <= l < ls {
                    assert(!opens_at(p@, l, m, n));
                }
            }
        }
    }
    found
}

/// The Enter edit that leaves a fenced code block.
fn fenced_code_block_exit_edit(chars: &Vec<char>, cursor_char: usize) -> (edit: Option<MarkdownEdit>)
    requires
        chars@.len() <= isize::MAX,
    ensures
        opt_edit(edit) == exit_edit(chars@, cursor_char as int),
{
    let len = chars.len();
    let cursor = if cursor_char < len {
        cursor_char
    } else {
        len
    };
    if cursor < 2 || cursor >= len || chars[cursor] != '\n' || chars[cursor - 2] != '\n' || chars[cursor - 1]
        != '\n' {
        return None;
    }
    let closing_start = cursor + 1;
    let closing_end = find_line_end(chars, closing_start);
    let closing = match parse_closing_fence(chars, closing_start, closing_end) {
        Some(fence) => fence,
        None => return None,
    };
    let content_start = match matching_opening_fence_before(chars, cursor, closing) {
        Some(start) => start,
        None => return None,
    };
    if cursor < content_start + 2 {
        return None;
    }
    let has_following_line = closing_end < len;
    let mut replacement = slice_chars(chars, cursor, closing_end);
    if !has_following_line {
        replacement.push('\n');
    }
    let start = cursor - 2;
    let replacement_len = replacement.len();
    Some(
        MarkdownEdit {
            range: start..closing_end,
            replacement: string_of(&replacement),
            cursor: start + replacement_len + if has_following_line {
                1
            } else {
                0
            },
        },
    )
}

/// Whether `s[from..to]` closes a fence of at least `minimum` times `marker`.
fn is_matching_closing_fence(s: &Vec<char>, from: usize, to: usize, marker: char, minimum: usize) -> (b: bool)
    requires
        from <= to <= s.len(),
    ensures
        b == closes_fence(s@.subrange(from as int, to as int), marker, minimum as nat),
{
    let ghost line = s@.subrange(from as int, to as int);
    let indentation = count_run(s, from, to, ' ');
    if indentation > 3 {
        return false;
    }
    let start = from + indentation;
    let ghost rest = line.skip(indentation as int);
    proof {
        assert(rest =~= s@.subrange(start as int, to as int));
    }
    let run = count_run(s, start, to, marker);
    if run < minimum {
        return false;
    }
    let trailing = count_trail_ws(s, start, to);
    if run != (to - start) - trailing {
        return false;
    }
    all_marker_or_ws(s, start, to, marker)
}

/// Whether every character of `s[from..to]` is `marker` or whitespace.
fn all_marker_or_ws(s: &Vec<char>, from: usize, to: usize, marker: char) -> (b: bool)
    requires
        from <= to <= s.len(),
    ensures
        b == forall|k: int| 0 <= k < to - from ==> s@.subrange(from as int, to as int)[k] == marker || is_ws(
            #[trigger] s@.subrange(from as int, to as int)[k],
        ),
{
    let ghost t = s@.subrange(from as int, to as int);
    let mut i = from;
    while i < to
        invariant
            from <= i <= to <= s.len(),
            t == s@.subrange(from as int, to as int),
            forall|k: int| 0 <= k < i - from ==> t[k] == marker || is_ws(#[trigger] t[k]),
        decreases to - i,
    {
        if s[i] != marker && !is_whitespace(s[i]) {
            assert(!(t[i - from] == marker || is_ws(t[i - from])));
            return false;
        }
        i += 1;
    }
    true
}

/// Whether a line after position `after` of `s` closes a fence of at least `minimum`
/// times `marker`.
fn has_closing_fence_after(s: &Vec<char>, after: usize, marker: char, minimum: usize) -> (b: bool)
    requires
        after <= s.len(),
        after == s.len() || s@[after as int] == '\n',
    ensures
        b == has_closing_after(s@, after as int, marker, minimum as nat),
{
    if after >= s.len() {
        return false;
    }
    let mut ls = after + 1;
    while ls < s.len()
        invariant
            after < ls <= s.len(),
            ls == s.len() || s@[ls - 1] == '\n',
            forall|l: int|
                #![trigger is_line_start(s@, l)]
                after < l < ls && is_line_start(s@, l) ==> !closes_fence(lines_item(s@, l), marker, minimum as nat),
        decreases s.len() - ls,
    {
        let le = find_line_end(s, ls);
        let item_end = if le < s.len() && le > ls && s[le - 1] == '\r' {
            le - 1
        } else {
            le
        };
        proof {
            let raw = s@.subrange(ls as int, le as int);
            if le < s.len() && le > ls && s@[le - 1] == '\r' {
                assert(raw.drop_last() =~= s@.subrange(ls as int, item_end as int));
            }
            assert(lines_item(s@, ls as int) == s@.subrange(ls as int, item_end as int));
        }
        if is_matching_closing_fence(s, ls, item_end, marker, minimum) {
            assert(is_line_start(s@, ls as int));
            return true;
        }
        let next = if le < s.len() {
            le + 1
        } else {
            s.len()
        };
        proof {
            assert forall|l: int| #![trigger is_line_start(s@, l)] ls < l < next implies !is_line_start(s@, l) by {
                assert(s@[l - 1] != '\n');
            }
        }
        ls = next;
    }
    false
}

/// The Enter edit at the end of an opening code fence line.
fn fenced_code_block_enter_edit(chars: &Vec<char>, cursor_char: usize) -> (edit: Option<MarkdownEdit>)
    requires
        chars@.len() <= isize::MAX,
    ensures
        opt_edit(edit) == enter_edit(chars@, cursor_char as int),
{
    let len = chars.len();
    let cursor = if cursor_char < len {
        cursor_char
    } else {
        len
    };
    let line_start = find_line_start(chars, cursor);
    let line_end = find_line_end(chars, cursor);
    let ghost line = chars@.subrange(line_start as int, line_end as int);
    if cursor != line_end {
        return None;
    }
    let indentation = count_run(chars, line_start, line_end, ' ');
    if indentation > 3 {
        return None;
    }
    let start = line_start + indentation;
    let ghost rest = line.skip(indentation as int);
    proof {
        assert(rest =~= chars@.subrange(start as int, line_end as int));
    }
    if start >= line_end {
        return None;
    }
    let marker = chars[start];
    if marker != '`' && marker != '~' {
        return None;
    }
    let marker_len = count_run(chars, start, line_end, marker);
    if marker_len < 3 {
        return None;
    }
    proof {
        assert(rest.skip(marker_len as int) =~= chars@.subrange(start + marker_len, line_end as int));
    }
    if marker == '`' && contains_char(chars, start + marker_len, line_end, '`') {
        return None;
    }
    let has_closing_fence = has_closing_fence_after(chars, line_end, marker, marker_len);
    let mut indent: Vec<char> = Vec::new();
    let mut k: usize = 0;
    while k < indentation
        invariant
            k <= indentation,
            indent@ == repeat(' ', k as nat),
        decreases indentation - k,
    {
        indent.push(' ');
        k += 1;
        assert(indent@ =~= repeat(' ', k as nat));
    }
    let mut replacement: Vec<char> = Vec::new();
    replacement.push('\n');
    push_all(&mut replacement, &indent);
    if !has_closing_fence {
        replacement.push('\n');
        push_all(&mut replacement, &indent);
        let mut j: usize = 0;
        let ghost base = replacement@;
        while j < marker_len
            invariant
                j <= marker_len,
                replacement@ == base + repeat(marker, j as nat),
            decreases marker_len - j,
        {
            replacement.push(marker);
            j += 1;
            assert(replacement@ =~= base + repeat(marker, j as nat));
        }
        assert(replacement@ =~= seq!['\n'] + indent@ + seq!['\n'] + indent@ + repeat(marker, marker_len as nat));
    } else {
        assert(replacement@ =~= seq!['\n'] + indent@);
    }
    Some(MarkdownEdit { range: cursor..cursor, cursor: cursor + 1 + indentation, replacement: string_of(&replacement) })
}

/// What the Markdown kernel reports about the line under the caret.
pub struct WritLine {
    /// Byte offset where the line starts.
    pub start: usize,
    /// Byte offset where the line's content starts, after its container markers.
    pub content_start: usize,
    /// For each container marker of the line, whether it is a list item marker.
    pub list_item_markers: Vec<bool>,
    /// The line has a container marker (list item, block quote, ...).
    pub has_container: bool,
    /// The markers that continue the line's containers on a new line.
    pub continuation: String,
    /// The line's text from `content_start` to its end.
    pub content: String,
}

impl View for WritLine {
    type V = (usize, usize, Seq<bool>, bool, Seq<char>, Seq<char>);

    open spec fn view(&self) -> (usize, usize, Seq<bool>, bool, Seq<char>, Seq<char>) {
        (
            self.start,
            self.content_start,
            self.list_item_markers@,
            self.has_container,
            self.continuation@,
            self.content@,
        )
    }
}

/// What the `writ` Markdown kernel reports about the line of `source` that holds byte
/// `cursor_byte`.
pub uninterp spec fn writ_line(source: Seq<char>, cursor_byte: usize) -> (
    usize,
    usize,
    Seq<bool>,
    bool,
    Seq<char>,
    Seq<char>,
);

/// Asks `writ` about the line of `source` under the caret at byte `cursor_byte`.
///
/// Trusted: builds `writ::editor::EditorState::new(source)`, places the caret with
/// `set_cursor`, and reads `Buffer::byte_to_line`, `Buffer::line_markers`,
/// `LineMarkers::content_start`, `has_container`, `continuation_rope` and
/// `Buffer::slice_cow`. Its contract names the result as a function of the arguments
/// and states two facts of the offsets. The content starts at the end of the line's
/// markers, which lie in the line, or at the line start, so never before the line
/// start. Both offsets fall on character boundaries of `source` (or at its end): line
/// starts follow a line break, marker ranges are parse-tree node offsets, extended only
/// over ASCII spaces. Nothing else is stated of how `writ` parses Markdown.
#[verifier::external_body]
fn writ_line_at(source: &str, cursor_byte: usize) -> (line: WritLine)
    ensures
        line@ == writ_line(source@, cursor_byte),
        line.content_start >= line.start,
        is_boundary(source@, line.start as int) || line.start >= utf8_len(source@),
        is_boundary(source@, line.content_start as int) || line.content_start >= utf8_len(source@),
{
    let mut editor = writ::editor::EditorState::new(source);
    editor.set_cursor(cursor_byte);
    let offset = editor.cursor().offset;
    let markers = editor.buffer.line_markers(editor.buffer.byte_to_line(offset));
    let content_start = markers.content_start();
    WritLine {
        start: markers.range.start,
        content_start,
        list_item_markers: markers.markers.iter().map(|marker| {
            matches!(marker.kind, writ::marker::MarkerKind::ListItem { .. })
        }).collect(),
        has_container: markers.has_container(),
        continuation: markers.continuation_rope(editor.buffer.rope()),
        content: editor.buffer.slice_cow(content_start..markers.range.end).into_owned(),
    }
}

/// The line under the caret is an empty list item: it has a list marker, the caret is in
/// its content, and the content is blank.
pub open spec fn empty_list_item(line: (usize, usize, Seq<bool>, bool, Seq<char>, Seq<char>), cursor_byte: int) -> bool {
    &&& exists|i: int| 0 <= i < line.2.len() && line.2[i]
    &&& cursor_byte >= line.1
    &&& all_ws(line.5)
}

/// The line's byte offsets can be turned into character offsets of `s`.
pub open spec fn line_offsets_valid(s: Seq<char>, line: (usize, usize, Seq<bool>, bool, Seq<char>, Seq<char>)) -> bool {
    &&& is_boundary(s, line.0 as int) || line.0 >= utf8_len(s)
    &&& is_boundary(s, line.1 as int) || line.1 >= utf8_len(s)
}

/// The number of characters of `s` before byte `b` (a character boundary).
pub open spec fn char_index_of_byte(s: Seq<char>, b: int) -> int {
    if b >= utf8_len(s) {
        s.len() as int
    } else {
        choose|k: int| 0 <= k <= s.len() && utf8_len(s.take(k)) == b
    }
}

/// The Enter edit from the kernel's view of the caret line: an empty list item loses its
/// marker; a line inside containers continues them; any other line gets a line break.
pub open spec fn line_edit(
    s: Seq<char>,
    cursor_char: int,
    line: (usize, usize, Seq<bool>, bool, Seq<char>, Seq<char>),
) -> (int, int, Seq<char>, int) {
    let cursor_byte = utf8_len(s.take(if cursor_char < s.len() { cursor_char } else { s.len() as int }));
    if empty_list_item(line, cursor_byte as int) {
        let start = char_index_of_byte(s, line.0 as int);
        let end = char_index_of_byte(s, line.1 as int);
        (start, end, Seq::empty(), start)
    } else {
        let replacement = if line.3 {
            seq!['\n'] + line.4
        } else {
            seq!['\n']
        };
        (cursor_char, cursor_char, replacement, cursor_char + replacement.len())
    }
}

/// The caret after the plain or continuing line break still fits in a `usize`.
pub open spec fn line_edit_fits(cursor_char: int, line: (usize, usize, Seq<bool>, bool, Seq<char>, Seq<char>)) -> bool {
    cursor_char + 1 + (if line.3 { line.4.len() as int } else { 0int }) <= usize::MAX
}

/// The caret's byte offset: the UTF-8 length of the characters before it.
pub open spec fn cursor_byte_of(s: Seq<char>, cursor_char: int) -> int {
    utf8_len(s.take(if cursor_char < s.len() { cursor_char } else { s.len() as int })) as int
}

/// The kernel's line view leads to an edit: byte offsets on character boundaries where
/// they are turned into character offsets, and a caret that fits in a `usize`.
pub open spec fn line_feasible(s: Seq<char>, cursor_char: int, line: (usize, usize, Seq<bool>, bool, Seq<char>, Seq<char>)) -> bool {
    if empty_list_item(line, cursor_byte_of(s, cursor_char)) {
        line_offsets_valid(s, line)
    } else {
        line_edit_fits(cursor_char, line)
    }
}

/// The Enter edit when the kernel reports `line` for the caret line.
pub open spec fn enter_key_edit(
    s: Seq<char>,
    cursor_char: int,
    line: (usize, usize, Seq<bool>, bool, Seq<char>, Seq<char>),
) -> (int, int, Seq<char>, int) {
    match exit_edit(s, cursor_char) {
        Some(e) => e,
        None => match enter_edit(s, cursor_char) {
            Some(e) => e,
            None => line_edit(s, cursor_char, line),
        },
    }
}

/// Whether any marker of the line is a list item marker.
fn any_list_item(line: &WritLine) -> (b: bool)
    ensures
        b == exists|j: int| 0 <= j < line.list_item_markers@.len() && line.list_item_markers@[j],
{
    let mut i: usize = 0;
    while i < line.list_item_markers.len()
        invariant
            i <= line.list_item_markers.len(),
            forall|j: int| 0 <= j < i ==> !line.list_item_markers@[j],
        decreases line.list_item_markers.len() - i,
    {
        if line.list_item_markers[i] {
            return true;
        }
        i += 1;
    }
    false
}

/// Whether `line` is an empty list item under a caret at byte `cursor_byte`.
fn is_empty_list_item(line: &WritLine, cursor_byte: usize) -> (b: bool)
    ensures
        b == empty_list_item(line@, cursor_byte as int),
{
    let has_list_item = any_list_item(line);
    let content = chars_of(line.content.as_str());
    let content_blank = count_lead_ws(&content, 0, content.len()) == content.len();
    proof {
        assert(content@.subrange(0, content@.len() as int) =~= content@);
        lemma_lead_ws_bounds(content@);
        if all_ws(content@) && lead_ws(content@) < content@.len() {
            assert(is_ws(content@[lead_ws(content@) as int]));
        }
    }
    assert(line@.2 == line.list_item_markers@);
    assert(line@.5 == content@);
    has_list_item && cursor_byte >= line.content_start && content_blank
}

/// The Enter edit, given what the Markdown kernel reports about the caret line.
///
/// Leaving and opening fenced code blocks come first; then an empty list item loses its
/// marker, a line in containers continues them, and any other line gets a line break.
pub fn smart_enter_edit_with_line(source: &str, cursor_char: usize, line: &WritLine) -> (edit: MarkdownEdit)
    requires
        utf8_len(source@) <= isize::MAX,
        exit_edit(source@, cursor_char as int) is None && enter_edit(source@, cursor_char as int) is None
            ==> line_feasible(source@, cursor_char as int, line@),
    ensures
        edit@ == enter_key_edit(source@, cursor_char as int, line@),
{
    let chars = chars_of(source);
    proof {
        assert(chars@.take(chars@.len() as int) =~= chars@);
        lemma_utf8_len_mono(chars@, 0, chars@.len() as int);
    }
    if let Some(edit) = fenced_code_block_exit_edit(&chars, cursor_char) {
        return edit;
    }
    if let Some(edit) = fenced_code_block_enter_edit(&chars, cursor_char) {
        return edit;
    }
    let cursor_byte = char_to_byte(&chars, cursor_char);
    if is_empty_list_item(line, cursor_byte) {
        let start = byte_to_char(&chars, line.start);
        let end = byte_to_char(&chars, line.content_start);
        return MarkdownEdit { range: start..end, replacement: String::new(), cursor: start };
    }
    let mut replacement: Vec<char> = Vec::new();
    replacement.push('\n');
    if line.has_container {
        push_str(&mut replacement, line.continuation.as_str());
    }
    let replacement_len = replacement.len();
    MarkdownEdit {
        range: cursor_char..cursor_char,
        cursor: cursor_char + replacement_len,
        replacement: string_of(&replacement),
    }
}

/// The kernel's view of the caret line of `source` for a caret at character
/// `cursor_char`.
pub open spec fn caret_line(s: Seq<char>, cursor_char: int) -> (usize, usize, Seq<bool>, bool, Seq<char>, Seq<char>) {
    writ_line(s, cursor_byte_of(s, cursor_char) as usize)
}

/// The caret after Enter fits in a `usize`: always, but for a plain or continuing line
/// break whose caret would pass `usize::MAX`.
pub open spec fn enter_caret_fits(s: Seq<char>, cursor_char: int) -> bool {
    ||| exit_edit(s, cursor_char) is Some
    ||| enter_edit(s, cursor_char) is Some
    ||| empty_list_item(caret_line(s, cursor_char), cursor_byte_of(s, cursor_char))
    ||| line_edit_fits(cursor_char, caret_line(s, cursor_char))
}

/// The Enter edit at character `cursor_char` of `source`.
///
/// The kernel's line view is a function of the source and the caret, so the edit is
/// stated through it; the edit fits the source whenever the caret is inside it.
pub fn smart_enter_edit(source: &str, cursor_char: usize) -> (edit: MarkdownEdit)
    requires
        utf8_len(source@) <= isize::MAX,
        enter_caret_fits(source@, cursor_char as int),
    ensures
        edit@ == enter_key_edit(source@, cursor_char as int, caret_line(source@, cursor_char as int)),
        cursor_char <= source@.len() ==> edit_fits(source@.len() as int, edit@),
{
    let chars = chars_of(source);
    proof {
        assert(chars@.take(chars@.len() as int) =~= chars@);
        lemma_utf8_len_mono(chars@, 0, chars@.len() as int);
    }
    let cursor_byte = char_to_byte(&chars, cursor_char);
    let line = writ_line_at(source, cursor_byte);
    proof {
        if cursor_char <= source@.len() {
            lemma_enter_key_edit_fits(source@, cursor_char as int, line@);
        }
    }
    smart_enter_edit_with_line(source, cursor_char, &line)
}

/// The Enter edit at character `cursor_char` of `source`, or `None` exactly where the
/// caret after a plain or continuing line break would pass `usize::MAX`.
pub fn try_smart_enter_edit(source: &str, cursor_char: usize) -> (edit: Option<MarkdownEdit>)
    requires
        utf8_len(source@) <= isize::MAX,
    ensures
        edit is Some <==> enter_caret_fits(source@, cursor_char as int),
        edit matches Some(e) ==> e@ == enter_key_edit(
            source@,
            cursor_char as int,
            caret_line(source@, cursor_char as int),
        ),
{
    let chars = chars_of(source);
    proof {
        assert(chars@.take(chars@.len() as int) =~= chars@);
        lemma_utf8_len_mono(chars@, 0, chars@.len() as int);
    }
    let fence = fenced_code_block_exit_edit(&chars, cursor_char).is_some()
        || fenced_code_block_enter_edit(&chars, cursor_char).is_some();
    if !fence {
        let cursor_byte = char_to_byte(&chars, cursor_char);
        let line = writ_line_at(source, cursor_byte);
        if !is_empty_list_item(&line, cursor_byte) {
            let continuation_len = if line.has_container {
                chars_of(line.continuation.as_str()).len()
            } else {
                0
            };
            if cursor_char == usize::MAX || continuation_len > usize::MAX - 1 - cursor_char {
                return None;
            }
        }
    }
    Some(smart_enter_edit(source, cursor_char))
}

/// Away from fences and empty list items, Enter inserts at the caret a line break
/// followed by the kernel's continuation markers when the line has any container (block
/// quote, list, ...), or a bare line break otherwise, and puts the caret after the
/// insertion. An empty list item instead loses everything from its line start to its
/// content, and the caret goes to the line start.
pub proof fn lemma_enter_continues_containers(
    s: Seq<char>,
    cursor_char: int,
    line: (usize, usize, Seq<bool>, bool, Seq<char>, Seq<char>),
)
    requires
        exit_edit(s, cursor_char) is None,
        enter_edit(s, cursor_char) is None,
    ensures
        !empty_list_item(line, cursor_byte_of(s, cursor_char)) ==> {
            let inserted = if line.3 {
                seq!['\n'] + line.4
            } else {
                seq!['\n']
            };
            enter_key_edit(s, cursor_char, line) == (cursor_char, cursor_char, inserted, cursor_char
                + inserted.len())
        },
        line.3 && !empty_list_item(line, cursor_byte_of(s, cursor_char)) ==> enter_key_edit(
            s,
            cursor_char,
            line,
        ).2 == seq!['\n'] + line.4,
        empty_list_item(line, cursor_byte_of(s, cursor_char)) ==> {
            let e = enter_key_edit(s, cursor_char, line);
            &&& e.0 == char_index_of_byte(s, line.0 as int)
            &&& e.1 == char_index_of_byte(s, line.1 as int)
            &&& e.2.len() == 0
            &&& e.3 == e.0
        },
{
}

/// The edit `e` applies to a text of `n` characters: its range is ordered and inside the
/// text, and its caret lies in the edited text.
pub open spec fn edit_fits(n: int, e: (int, int, Seq<char>, int)) -> bool {
    &&& 0 <= e.0 <= e.1 <= n
    &&& e.0 <= e.3 <= n - (e.1 - e.0) + e.2.len()
}

/// A character index of a byte offset lies in the text, and the index of a later byte
/// is not smaller.
proof fn lemma_char_index_of_byte_mono(s: Seq<char>, b0: int, b1: int)
    requires
        0 <= b0 <= b1,
        is_boundary(s, b0) || b0 >= utf8_len(s),
        is_boundary(s, b1) || b1 >= utf8_len(s),
    ensures
        0 <= char_index_of_byte(s, b0) <= char_index_of_byte(s, b1) <= s.len(),
{
    if b1 < utf8_len(s) {
        let k0 = char_index_of_byte(s, b0);
        let k1 = char_index_of_byte(s, b1);
        assert(0 <= k1 <= s.len() && utf8_len(s.take(k1)) == b1);
        assert(0 <= k0 <= s.len() && utf8_len(s.take(k0)) == b0);
        if k0 > k1 {
            lemma_utf8_len_mono(s, k1, k0);
        }
    } else if b0 < utf8_len(s) {
        assert(0 <= char_index_of_byte(s, b0) <= s.len());
    }
}

/// The Enter edit applies to the source, when the caret is inside it and the kernel
/// reports a line whose content does not start before the line.
pub proof fn lemma_enter_key_edit_fits(
    s: Seq<char>,
    cursor_char: int,
    line: (usize, usize, Seq<bool>, bool, Seq<char>, Seq<char>),
)
    requires
        0 <= cursor_char <= s.len(),
        line.1 >= line.0,
        exit_edit(s, cursor_char) is None && enter_edit(s, cursor_char) is None ==> line_feasible(
            s,
            cursor_char,
            line,
        ),
    ensures
        edit_fits(s.len() as int, enter_key_edit(s, cursor_char, line)),
{
    lemma_fence_edits_fit(s, cursor_char);
    if exit_edit(s, cursor_char) is None && enter_edit(s, cursor_char) is None && empty_list_item(
        line,
        cursor_byte_of(s, cursor_char),
    ) {
        lemma_char_index_of_byte_mono(s, line.0 as int, line.1 as int);
    }
}

/// The edits that leave and open fenced code blocks apply to the source.
proof fn lemma_fence_edits_fit(s: Seq<char>, cursor_char: int)
    requires
        0 <= cursor_char <= s.len(),
    ensures
        exit_edit(s, cursor_char) matches Some(e) ==> edit_fits(s.len() as int, e),
        enter_edit(s, cursor_char) matches Some(e) ==> edit_fits(s.len() as int, e),
{
    let cursor = if cursor_char < s.len() { cursor_char } else { s.len() as int };
    if exit_edit(s, cursor_char) is Some {
        lemma_line_end_at(s, cursor + 1);
    }
    if enter_edit(s, cursor_char) is Some {
        let ls = line_start_at(s, cursor);
        let le = line_end_at(s, cursor);
        let line_text = s.subrange(ls, le);
        let indentation = lead_count(line_text, ' ');
        let indent = repeat(' ', indentation);
        assert(indent.len() == indentation);
    }
}

/// Whether byte `b` of the UTF-8 encoding of `s` is a character boundary or lies past its end.
fn byte_is_boundary(s: &Vec<char>, b: usize) -> (r: bool)
    requires
        utf8_len(s@) <= usize::MAX,
    ensures
        r == (is_boundary(s@, b as int) || b >= utf8_len(s@)),
{
    let mut i: usize = 0;
    let mut acc: usize = 0;
    proof {
        assert(s@.take(s.len() as int) =~= s@);
    }
    while i < s.len() && acc < b
        invariant
            i <= s.len(),
            acc == utf8_len(s@.take(i as int)),
            utf8_len(s@) <= usize::MAX,
            s@.take(s.len() as int) == s@,
            forall|w: int| 0 <= w < i ==> utf8_len(s@.take(w)) < b,
        decreases s.len() - i,
    {
        proof {
            assert(s@.take(i + 1).drop_last() =~= s@.take(i as int));
            lemma_utf8_len_mono(s@, i + 1, s.len() as int);
            assert forall|w: int| 0 <= w < i + 1 implies utf8_len(s@.take(w)) < b by {
                if w < i {
                    lemma_utf8_len_mono(s@, w, i as int);
                }
            }
        }
        acc = acc + utf8_width_of(s[i]);
        i += 1;
    }
    proof {
        lemma_utf8_len_mono(s@, i as int, s.len() as int);
        if acc != b && b < utf8_len(s@) {
            assert forall|w: int| 0 <= w <= s.len() implies utf8_len(s@.take(w)) != b by {
                if w > i {
                    lemma_utf8_len_mono(s@, i as int, w);
                }
            }
        }
    }
    acc == b || b >= utf8_len_total(s)
}

/// Byte length of the UTF-8 encoding of all of `s`.
fn utf8_len_total(s: &Vec<char>) -> (n: usize)
    requires
        utf8_len(s@) <= usize::MAX,
    ensures
        n == utf8_len(s@),
{
    proof {
        assert(s@.take(s.len() as int) =~= s@);
    }
    utf8_prefix_len(s, s.len())
}

/// Byte offset of character `char_offset` of `text`, or the byte length of `text` when it
/// has no such character.
pub fn char_to_byte(text: &Vec<char>, char_offset: usize) -> (b: usize)
    requires
        utf8_len(text@) <= usize::MAX,
    ensures
        b == utf8_len(text@.take(if char_offset < text@.len() { char_offset as int } else { text@.len() as int })),
{
    let k = if char_offset < text.len() {
        char_offset
    } else {
        text.len()
    };
    utf8_prefix_len(text, k)
}

/// Number of characters of `text` before byte `byte_offset`, which must be a character
/// boundary unless it lies past the end.
pub fn byte_to_char(text: &Vec<char>, byte_offset: usize) -> (k: usize)
    requires
        utf8_len(text@) <= usize::MAX,
        is_boundary(text@, byte_offset as int) || byte_offset >= utf8_len(text@),
    ensures
        k == char_index_of_byte(text@, byte_offset as int),
{
    let k = chars_in_bytes(text, byte_offset);
    proof {
        if byte_offset < utf8_len(text@) {
            let w = choose|w: int| 0 <= w <= text@.len() && utf8_len(text@.take(w)) == byte_offset;
            if w < k {
                lemma_utf8_len_mono(text@, w + 1, k as int);
                lemma_utf8_len_mono(text@, w, w + 1);
            } else if w > k {
                lemma_utf8_len_mono(text@, k + 1, w);
                lemma_utf8_len_mono(text@, k as int, k + 1);
            }
        } else {
            assert(text@.take(text@.len() as int) =~= text@);
            if k < text@.len() {
                lemma_utf8_len_mono(text@, k + 1, text@.len() as int);
                lemma_utf8_len_mono(text@, k as int, k + 1);
            }
        }
    }
    k
}


/// Converting a character offset to bytes and back gives the offset again, whatever
/// characters (emoji, CJK) come before it.
pub proof fn lemma_char_byte_round_trip(text: Seq<char>, k: int)
    requires
        0 <= k <= text.len(),
    ensures
        char_index_of_byte(text, utf8_len(text.take(k)) as int) == k,
{
    let b = utf8_len(text.take(k)) as int;
    if b >= utf8_len(text) {
        if k < text.len() {
            assert(text.take(text.len() as int) =~= text);
            lemma_utf8_len_mono(text, k + 1, text.len() as int);
            lemma_utf8_len_mono(text, k, k + 1);
        }
    } else {
        let w = choose|w: int| 0 <= w <= text.len() && utf8_len(text.take(w)) == b;
        if w < k {
            lemma_utf8_len_mono(text, w + 1, k);
            lemma_utf8_len_mono(text, w, w + 1);
        } else if w > k {
            lemma_utf8_len_mono(text, k + 1, w);
            lemma_utf8_len_mono(text, k, k + 1);
        }
    }
}

} // verus!
