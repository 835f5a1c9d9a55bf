//! Selection edits of the editor: inline formats, fenced code blocks, clipboard text
//! and Markdown links.
//!
//! Offsets count characters (Unicode scalar values) of the text.

use std::ops::Range;

use vstd::prelude::*;

use crate::text::{
    chars_of, contains_exec, contains_seq, ends_with, ends_with_exec, find_line_end,
    find_line_start, find_seq, fits_in_memory, index_of_char, line_end_at, line_start_at,
    push_all, push_str, slice_chars, starts_with, starts_with_exec, string_of, trim, trim_chars,
};

verus! {

/// An inline Markdown format of the selection menu.
#[derive(Clone, Copy, Debug, Eq, PartialEq)]
pub enum InlineFormat {
    Bold,
    Italic,
    Underline,
    Strikethrough,
    Code,
}

/// Replace the characters `replace_range` by `replacement`, then select `selection`.
#[derive(Debug, Eq, PartialEq)]
pub struct InlineFormatEdit {
    pub replace_range: Range<usize>,
    pub replacement: String,
    pub selection: Range<usize>,
}

/// The view of an edit: `(replace start, replace end, replacement, selection start,
/// selection end)`.
pub open spec fn edit_view(e: InlineFormatEdit) -> (int, int, Seq<char>, int, int) {
    (
        e.replace_range.start as int,
        e.replace_range.end as int,
        e.replacement@,
        e.selection.start as int,
        e.selection.end as int,
    )
}

/// The view of an optional edit.
pub open spec fn opt_edit_view(e: Option<InlineFormatEdit>) -> Option<(int, int, Seq<char>, int, int)> {
    match e {
        Some(e) => Some(edit_view(e)),
        None => None,
    }
}

/// The opening and closing markers of a format.
pub open spec fn markers(format: InlineFormat) -> (Seq<char>, Seq<char>) {
    match format {
        InlineFormat::Bold => (seq!['*', '*'], seq!['*', '*']),
        InlineFormat::Italic => (seq!['*'], seq!['*']),
        InlineFormat::Underline => (seq!['<', 'u', '>'], seq!['<', '/', 'u', '>']),
        InlineFormat::Strikethrough => (seq!['~', '~'], seq!['~', '~']),
        InlineFormat::Code => (seq!['`'], seq!['`']),
    }
}

/// The opening and closing markers of a format.
pub fn inline_format_markers(format: InlineFormat) -> (m: (&'static str, &'static str))
    ensures
        (m.0@, m.1@) == markers(format),
{
    let m = match format {
        InlineFormat::Bold => ("**", "**"),
        InlineFormat::Italic => ("*", "*"),
        InlineFormat::Underline => ("<u>", "</u>"),
        InlineFormat::Strikethrough => ("~~", "~~"),
        InlineFormat::Code => ("`", "`"),
    };
    proof {
        reveal_strlit("**");
        reveal_strlit("*");
        reveal_strlit("<u>");
        reveal_strlit("</u>");
        reveal_strlit("~~");
        reveal_strlit("`");
        assert(m.0@ =~= markers(format).0);
        assert(m.1@ =~= markers(format).1);
    }
    m
}

/// Where the format already applies to the selection `s..e` of `c`: the marked text
/// and the text between the markers. Either the selection holds the markers, or they
/// stand just around it. For italics, a `**` selection or a `*` right outside the
/// markers is bold, not italic.
pub open spec fn format_bounds(c: Seq<char>, s: int, e: int, format: InlineFormat) -> Option<
    ((int, int), (int, int)),
> {
    let (o, cl) = markers(format);
    let sel = c.subrange(s, e);
    let italic = format == InlineFormat::Italic;
    if e > c.len() {
        None
    } else if !(italic && starts_with(sel, seq!['*', '*']) && ends_with(sel, seq!['*', '*']))
        && starts_with(sel, o) && ends_with(sel, cl) && e - s >= o.len() + cl.len() {
        Some(((s, e), (s + o.len(), e - cl.len())))
    } else if s >= o.len() && e + cl.len() <= c.len() {
        let os = s - o.len();
        let oe = e + cl.len();
        if !(italic && ((os > 0 && c[os - 1] == '*') || (oe < c.len() && c[oe] == '*')))
            && c.subrange(os, s) == o && c.subrange(e, oe) == cl {
            Some(((os, oe), (s, e)))
        } else {
            None
        }
    } else {
        None
    }
}

/// Where the format already applies to `selection` of `text`: the marked range and the
/// range between the markers.
pub fn inline_format_bounds(text: &str, selection: Range<usize>, format: InlineFormat) -> (r: Option<
    (Range<usize>, Range<usize>),
>)
    requires
        selection.start <= selection.end,
    ensures
        match format_bounds(text@, selection.start as int, selection.end as int, format) {
            Some((outer, inner)) => r matches Some(x) && x.0.start == outer.0 && x.0.end == outer.1
                && x.1.start == inner.0 && x.1.end == inner.1,
            None => r is None,
        },
{
    let c = chars_of(text);
    let s = selection.start;
    let e = selection.end;
    if e > c.len() {
        return None;
    }
    let (opening, closing) = inline_format_markers(format);
    let o = chars_of(opening);
    let cl = chars_of(closing);
    let sel = slice_chars(&c, s, e);
    let stars = chars_of("**");
    proof {
        reveal_strlit("**");
        assert(stars@ =~= seq!['*', '*']);
    }
    let italic = match format {
        InlineFormat::Italic => true,
        _ => false,
    };
    let ambiguous = italic && starts_with_exec(&sel, &stars) && ends_with_exec(&sel, &stars);
    if !ambiguous && starts_with_exec(&sel, &o) && ends_with_exec(&sel, &cl) && e - s >= o.len() + cl.len() {
        return Some((s..e, s + o.len()..e - cl.len()));
    }
    if s >= o.len() && cl.len() <= c.len() - e {
        let os = s - o.len();
        let oe = e + cl.len();
        let around = italic && ((os > 0 && c[os - 1] == '*') || (oe < c.len() && c[oe] == '*'));
        let before = slice_chars(&c, os, s);
        let after = slice_chars(&c, e, oe);
        if !around && crate::text::chars_equal(&before, &o) && crate::text::chars_equal(&after, &cl) {
            return Some((os..oe, s..e));
        }
    }
    None
}

/// Whether the format already applies to `selection` of `text`.
pub fn inline_format_is_active(text: &str, selection: Range<usize>, format: InlineFormat) -> (b: bool)
    requires
        selection.start <= selection.end,
    ensures
        b == format_bounds(text@, selection.start as int, selection.end as int, format) is Some,
{
    inline_format_bounds(text, selection, format).is_some()
}

/// The edit that toggles the format on the selection `s..e` of `c`: it takes the
/// markers off where the format applies, and puts them around the selection otherwise.
pub open spec fn format_edit(c: Seq<char>, s: int, e: int, format: InlineFormat) -> Option<
    (int, int, Seq<char>, int, int),
> {
    let (o, cl) = markers(format);
    match format_bounds(c, s, e, format) {
        Some((outer, inner)) => Some(
            (outer.0, outer.1, c.subrange(inner.0, inner.1), outer.0, outer.0 + (inner.1 - inner.0)),
        ),
        None => if e > c.len() {
            None
        } else {
            Some((s, e, o + c.subrange(s, e) + cl, s + o.len(), e + o.len()))
        },
    }
}

/// The edit that toggles `format` on `selection` of `text`.
pub fn inline_format_edit(text: &str, selection: Range<usize>, format: InlineFormat) -> (r: Option<
    InlineFormatEdit,
>)
    requires
        selection.start <= selection.end,
        fits_in_memory(text@),
    ensures
        opt_edit_view(r) == format_edit(text@, selection.start as int, selection.end as int, format),
{
    let s = selection.start;
    let e = selection.end;
    let c = chars_of(text);
    if let Some((outer, inner)) = inline_format_bounds(text, s..e, format) {
        let replacement = slice_chars(&c, inner.start, inner.end);
        let start = outer.start;
        let end = start + replacement.len();
        return Some(InlineFormatEdit { replace_range: outer, replacement: string_of(&replacement), selection: start..end });
    }
    if e > c.len() {
        return None;
    }
    let (opening, closing) = inline_format_markers(format);
    let mut out: Vec<char> = Vec::new();
    push_str(&mut out, opening);
    let selected = slice_chars(&c, s, e);
    push_all(&mut out, &selected);
    push_str(&mut out, closing);
    let n = opening.unicode_len();
    proof {
        assert(out@ =~= markers(format).0 + c@.subrange(s as int, e as int) + markers(format).1);
    }
    Some(InlineFormatEdit { replace_range: s..e, replacement: string_of(&out), selection: s + n..e + n })
}

/// The edit of the code block shortcut on the selection `s..e` of `c`: an empty code
/// block at the caret for an empty selection, else the whole lines it touches wrapped
/// in a fenced code block, with the wrapped text selected.
pub open spec fn code_block_edit(c: Seq<char>, s: int, e: int) -> Option<(int, int, Seq<char>, int, int)> {
    if e > c.len() {
        None
    } else if s >= e {
        Some((s, e, seq!['`', '`', '`', '\n', '\n', '`', '`', '`'], s + 4, s + 4))
    } else {
        let ls = line_start_at(c, s);
        let le = line_end_at(c, e);
        let content = c.subrange(ls, le);
        Some(
            (
                ls,
                le,
                seq!['`', '`', '`', '\n'] + content + seq!['\n', '`', '`', '`'],
                ls + 4,
                ls + 4 + content.len(),
            ),
        )
    }
}

/// The edit of the code block shortcut on `selection` of `text`.
pub fn fenced_code_block_edit(text: &str, selection: Range<usize>) -> (r: Option<InlineFormatEdit>)
    requires
        fits_in_memory(text@),
        selection.start + 4 <= usize::MAX || selection.end > text@.len(),
    ensures
        opt_edit_view(r) == code_block_edit(text@, selection.start as int, selection.end as int),
{
    let c = chars_of(text);
    let s = selection.start;
    let e = selection.end;
    if e > c.len() {
        return None;
    }
    if s >= e {
        let r = string_of(&chars_of("```\n\n```"));
        proof {
            reveal_strlit("```\n\n```");
            assert(r@ =~= seq!['`', '`', '`', '\n', '\n', '`', '`', '`']);
        }
        return Some(InlineFormatEdit { replace_range: s..e, replacement: r, selection: s + 4..s + 4 });
    }
    let ls = find_line_start(&c, s);
    let le = find_line_end(&c, e);
    let content = slice_chars(&c, ls, le);
    let mut out: Vec<char> = Vec::new();
    out.push('`');
    out.push('`');
    out.push('`');
    out.push('\n');
    push_all(&mut out, &content);
    out.push('\n');
    out.push('`');
    out.push('`');
    out.push('`');
    proof {
        assert(out@ =~= seq!['`', '`', '`', '\n'] + content@ + seq!['\n', '`', '`', '`']);
    }
    Some(
        InlineFormatEdit {
            replace_range: ls..le,
            replacement: string_of(&out),
            selection: ls + 4..ls + 4 + content.len(),
        },
    )
}


/// `s` with each CRLF and each lone CR turned into LF.
pub open spec fn unix_newlines(s: Seq<char>) -> Seq<char>
    decreases s.len(),
{
    if s.len() == 0 {
        Seq::empty()
    } else if s[0] == '\r' && s.len() >= 2 && s[1] == '\n' {
        seq!['\n'] + unix_newlines(s.skip(2))
    } else if s[0] == '\r' {
        seq!['\n'] + unix_newlines(s.skip(1))
    } else {
        seq![s[0]] + unix_newlines(s.skip(1))
    }
}

/// Clipboard text with platform line breaks turned into `'\n'`.
pub fn normalize_clipboard_text(text: &str) -> (out: String)
    ensures
        out@ == unix_newlines(text@),
{
    let c = chars_of(text);
    let mut out: Vec<char> = Vec::new();
    let mut i: usize = 0;
    proof {
        assert(c@.skip(0) =~= c@);
        assert(out@ + unix_newlines(c@) =~= unix_newlines(c@));
    }
    while i < c.len()
        invariant
            i <= c.len(),
            out@ + unix_newlines(c@.skip(i as int)) == unix_newlines(text@),
            c@ == text@,
        decreases c.len() - i,
    {
        let ghost rest = c@.skip(i as int);
        let ghost before = out@;
        if c[i] == '\r' && i + 1 < c.len() && c[i + 1] == '\n' {
            out.push('\n');
            proof {
                assert(rest.skip(2) =~= c@.skip(i + 2));
            }
            i += 2;
        } else if c[i] == '\r' {
            out.push('\n');
            proof {
                assert(rest.skip(1) =~= c@.skip(i + 1));
            }
            i += 1;
        } else {
            out.push(c[i]);
            proof {
                assert(rest.skip(1) =~= c@.skip(i + 1));
            }
            i += 1;
        }
        proof {
            assert(out@ + unix_newlines(c@.skip(i as int)) =~= before + unix_newlines(rest));
        }
    }
    proof {
        assert(c@.skip(c.len() as int) =~= Seq::<char>::empty());
        assert(out@ + Seq::<char>::empty() =~= out@);
    }
    string_of(&out)
}

/// The link `[label](destination)` under a selection, with its range in the text.
#[derive(Debug, Eq, PartialEq)]
pub struct MarkdownLinkContext {
    pub outer: Range<usize>,
    pub label: String,
    pub destination: String,
}

/// The first link of the line `l` from position `cur` on whose label holds the
/// selection `s..e` (positions in the line): the positions of its `[`, of its `](`
/// and of its `)`. Links are read left to right; each one starts at the first `[`
/// after the previous link, its label ends at the first `](` after that, and its
/// destination at the first `)` after that.
pub open spec fn link_from(l: Seq<char>, cur: int, s: int, e: int) -> Option<(int, int, int)>
    decreases l.len() - cur,
{
    if cur < 0 || cur > l.len() {
        None
    } else {
        let open = cur + index_of_char(l.skip(cur), '[');
        if open >= l.len() {
            None
        } else {
            match find_seq(l.skip(open + 1), seq![']', '(']) {
                None => None,
                Some(k) => {
                    let sep = open + 1 + k;
                    let close = sep + 2 + index_of_char(l.skip(sep + 2), ')');
                    if k < 0 || close >= l.len() {
                        None
                    } else if s >= open + 1 && e <= sep {
                        Some((open, sep, close))
                    } else {
                        link_from(l, close + 1, s, e)
                    }
                },
            }
        }
    }
}

/// The link on the line of the selection `s..e` of `c` whose label holds the
/// selection: its range, label and destination.
pub open spec fn link_context(c: Seq<char>, s: int, e: int) -> Option<(int, int, Seq<char>, Seq<char>)> {
    if e > c.len() {
        None
    } else {
        let ls = line_start_at(c, s);
        let l = c.subrange(ls, line_end_at(c, e));
        link_at(l, ls, link_from(l, 0, s - ls, e - ls))
    }
}

/// The range, label and destination of the link at `found` of the line `l` that
/// starts at `ls`.
pub open spec fn link_at(l: Seq<char>, ls: int, found: Option<(int, int, int)>) -> Option<
    (int, int, Seq<char>, Seq<char>),
> {
    match found {
        None => None,
        Some((open, sep, close)) => Some(
            (ls + open, ls + close + 1, l.subrange(open + 1, sep), l.subrange(sep + 2, close)),
        ),
    }
}

/// One step of reading the links of a line.
proof fn lemma_link_step(l: Seq<char>, cur: int, open: int, sep: int, close: int, s: int, e: int)
    requires
        0 <= cur <= l.len(),
        open == cur + index_of_char(l.skip(cur), '['),
        open < l.len(),
        find_seq(l.skip(open + 1), seq![']', '(']) == Some(sep - open - 1),
        open + 1 <= sep,
        close == sep + 2 + index_of_char(l.skip(sep + 2), ')'),
        close < l.len(),
    ensures
        link_from(l, cur, s, e) == if s >= open + 1 && e <= sep {
            Some((open, sep, close))
        } else {
            link_from(l, close + 1, s, e)
        },
{
}

/// The link whose label holds `selection` of `text`, if any.
pub fn markdown_link_context(text: &str, selection: Range<usize>) -> (r: Option<MarkdownLinkContext>)
    requires
        selection.end <= text@.len() ==> selection.start <= text@.len() && line_start_at(
            text@,
            selection.start as int,
        ) <= line_end_at(text@, selection.end as int),
    ensures
        match link_context(text@, selection.start as int, selection.end as int) {
            None => r is None,
            Some((os, oe, label, destination)) => r matches Some(x) && x.outer.start == os
                && x.outer.end == oe && x.label@ == label && x.destination@ == destination,
        },
{
    let c = chars_of(text);
    let s = selection.start;
    let e = selection.end;
    if e > c.len() {
        return None;
    }
    let ls = find_line_start(&c, s);
    let le = find_line_end(&c, e);
    let l = slice_chars(&c, ls, le);
    let sep_pat = chars_of("](");
    proof {
        reveal_strlit("](");
        assert(sep_pat@ =~= seq![']', '(']);
    }
    let ghost rs = s - ls;
    let ghost re = e - ls;
    let ghost target = link_context(text@, s as int, e as int);
    let mut cur: usize = 0;
    assert(ls + l@.len() == le);
    while cur <= l.len()
        invariant
            cur <= l.len() + 1,
            ls <= s,
            s == selection.start,
            e == selection.end,
            ls + l@.len() <= usize::MAX,
            target == link_context(text@, selection.start as int, selection.end as int),
            rs == s - ls,
            re == e - ls,
            sep_pat@ == seq![']', '('],
            target == link_at(l@, ls as int, link_from(l@, cur as int, rs, re)),
        decreases l.len() + 1 - cur,
    {
        let len = l.len();
        let o = crate::text::find_char(&l, cur, len, '[');
        proof {
            assert(l@.subrange(cur as int, len as int) =~= l@.skip(cur as int));
        }
        let open = cur + o;
        if open >= len {
            return None;
        }
        let sep = match crate::text::find_from(&l, open + 1, &sep_pat) {
            Some(i) => i,
            None => return None,
        };
        let k2 = crate::text::find_char(&l, sep + 2, len, ')');
        proof {
            assert(l@.subrange(sep + 2, len as int) =~= l@.skip(sep + 2));
        }
        let close = sep + 2 + k2;
        if close >= len {
            return None;
        }
        proof {
            lemma_link_step(l@, cur as int, open as int, sep as int, close as int, rs, re);
        }
        if s >= ls + open + 1 && e <= ls + sep {
            let label = slice_chars(&l, open + 1, sep);
            let destination = slice_chars(&l, sep + 2, close);
            return Some(
                MarkdownLinkContext {
                    outer: ls + open..ls + close + 1,
                    label: string_of(&label),
                    destination: string_of(&destination),
                },
            );
        }
        cur = close + 1;
    }
    None
}

/// What the link menu stores for a typed destination: anchors, absolute and relative
/// paths, URLs with a scheme and `mailto:` stay as they are (trimmed); anything else
/// gets `https://` in front.
pub open spec fn link_destination(value: Seq<char>) -> Seq<char> {
    let v = trim(value);
    if starts_with(v, seq!['#']) || starts_with(v, seq!['/']) || starts_with(v, seq!['.', '/'])
        || starts_with(v, seq!['.', '.', '/']) || contains_seq(v, seq![':', '/', '/'])
        || starts_with(v, seq!['m', 'a', 'i', 'l', 't', 'o', ':']) {
        v
    } else {
        seq!['h', 't', 't', 'p', 's', ':', '/', '/'] + v
    }
}

/// The destination to store for a typed link target.
pub fn normalize_markdown_link_destination(value: &str) -> (out: String)
    ensures
        out@ == link_destination(value@),
{
    let v = trim_chars(value);
    let hash = chars_of("#");
    let slash = chars_of("/");
    let dot_slash = chars_of("./");
    let up = chars_of("../");
    let scheme = chars_of("://");
    let mailto = chars_of("mailto:");
    let https = chars_of("https://");
    proof {
        reveal_strlit("#");
        reveal_strlit("/");
        reveal_strlit("./");
        reveal_strlit("../");
        reveal_strlit("://");
        reveal_strlit("mailto:");
        reveal_strlit("https://");
        assert(hash@ =~= seq!['#']);
        assert(slash@ =~= seq!['/']);
        assert(dot_slash@ =~= seq!['.', '/']);
        assert(up@ =~= seq!['.', '.', '/']);
        assert(scheme@ =~= seq![':', '/', '/']);
        assert(mailto@ =~= seq!['m', 'a', 'i', 'l', 't', 'o', ':']);
        assert(https@ =~= seq!['h', 't', 't', 'p', 's', ':', '/', '/']);
    }
    if starts_with_exec(&v, &hash) || starts_with_exec(&v, &slash) || starts_with_exec(&v, &dot_slash)
        || starts_with_exec(&v, &up) || contains_exec(&v, &scheme) || starts_with_exec(&v, &mailto) {
        string_of(&v)
    } else {
        let mut out = https;
        push_all(&mut out, &v);
        string_of(&out)
    }
}


/// The text after an edit `(start, end, replacement, ..)`.
pub open spec fn apply_edit(c: Seq<char>, edit: (int, int, Seq<char>, int, int)) -> Seq<char> {
    c.take(edit.0) + edit.2 + c.skip(edit.1)
}

/// Toggling a format twice gives the text and the selection back: putting the markers
/// around a selection where the format does not apply, then toggling the selection
/// between them, removes exactly those markers. For italics, the selection must not
/// touch a `*` on either side (the `*` would make the result bold). The text in between
/// is longer by the markers, at most seven characters.
pub proof fn lemma_format_toggle_round_trip(c: Seq<char>, s: int, e: int, format: InlineFormat)
    requires
        0 <= s <= e <= c.len(),
        format_bounds(c, s, e, format) is None,
        format == InlineFormat::Italic ==> (s == 0 || c[s - 1] != '*') && (e == c.len() || c[e] != '*'),
    ensures
        ({
            let first = format_edit(c, s, e, format).unwrap();
            let c1 = apply_edit(c, first);
            let second = format_edit(c1, first.3, first.4, format).unwrap();
            &&& format_edit(c, s, e, format) is Some
            &&& format_edit(c1, first.3, first.4, format) is Some
            &&& apply_edit(c1, second) == c
            &&& second.3 == s && second.4 == e
            &&& c1.len() == c.len() + markers(format).0.len() + markers(format).1.len()
            &&& markers(format).0.len() + markers(format).1.len() <= 7
        }),
{
    let (o, cl) = markers(format);
    let sel = c.subrange(s, e);
    let first = format_edit(c, s, e, format).unwrap();
    assert(first == (s, e, o + sel + cl, s + o.len(), e + o.len()));
    let c1 = apply_edit(c, first);
    assert(c1 =~= c.take(s) + o + sel + cl + c.skip(e));
    let s1 = s + o.len();
    let e1 = e + o.len();
    assert(c1.subrange(s1, e1) =~= sel);
    assert(c1.subrange(s, s1) =~= o);
    assert(c1.subrange(e1, e1 + cl.len()) =~= cl);
    if s > 0 {
        assert(c1[s - 1] == c[s - 1]);
    }
    if e1 + cl.len() < c1.len() {
        assert(c1[e1 + cl.len()] == c[e]);
    }
    assert(format_bounds(c1, s1, e1, format) == Some(((s, e1 + cl.len()), (s1, e1))));
    let second = format_edit(c1, s1, e1, format).unwrap();
    assert(second == (s, e1 + cl.len(), sel, s, e));
    assert(c1.take(s) =~= c.take(s));
    assert(c1.skip(e1 + cl.len()) =~= c.skip(e));
    assert(apply_edit(c1, second) =~= c);
}

/// Normalized clipboard text holds no carriage return.
pub proof fn lemma_unix_newlines_no_cr(s: Seq<char>)
    ensures
        !unix_newlines(s).contains('\r'),
    decreases s.len(),
{
    if s.len() > 0 {
        let rest = if s[0] == '\r' && s.len() >= 2 && s[1] == '\n' {
            s.skip(2)
        } else {
            s.skip(1)
        };
        lemma_unix_newlines_no_cr(rest);
        let head = if s[0] == '\r' {
            '\n'
        } else {
            s[0]
        };
        assert(unix_newlines(s) == seq![head] + unix_newlines(rest));
        if unix_newlines(s).contains('\r') {
            let k = choose|k: int| 0 <= k < unix_newlines(s).len() && unix_newlines(s)[k] == '\r';
            if k > 0 {
                assert(unix_newlines(rest)[k - 1] == '\r');
            }
        }
    }
}

/// Text without carriage returns is left as it is.
pub proof fn lemma_unix_newlines_identity(s: Seq<char>)
    requires
        !s.contains('\r'),
    ensures
        unix_newlines(s) == s,
    decreases s.len(),
{
    if s.len() > 0 {
        assert(s[0] != '\r');
        let rest = s.skip(1);
        if rest.contains('\r') {
            let k = choose|k: int| 0 <= k < rest.len() && rest[k] == '\r';
            assert(s[k + 1] == '\r');
        }
        lemma_unix_newlines_identity(rest);
        assert(seq![s[0]] + rest =~= s);
    }
}

/// Normalizing clipboard text twice changes nothing more.
pub proof fn lemma_unix_newlines_idempotent(s: Seq<char>)
    ensures
        unix_newlines(unix_newlines(s)) == unix_newlines(s),
{
    lemma_unix_newlines_no_cr(s);
    lemma_unix_newlines_identity(unix_newlines(s));
}


/// A link read from a line lies inside it, in order: `[`, then `](`, then `)`.
proof fn lemma_link_from_bounds(l: Seq<char>, cur: int, s: int, e: int)
    ensures
        link_from(l, cur, s, e) matches Some((open, sep, close)) ==> 0 <= cur <= open && open + 1 <= sep
            && sep + 2 <= close && close < l.len(),
    decreases l.len() - cur,
{
    if 0 <= cur <= l.len() {
        let open = cur + index_of_char(l.skip(cur), '[');
        if open < l.len() {
            if let Some(k) = find_seq(l.skip(open + 1), seq![']', '(']) {
                let sep = open + 1 + k;
                let close = sep + 2 + index_of_char(l.skip(sep + 2), ')');
                if k >= 0 && close < l.len() && !(s >= open + 1 && e <= sep) {
                    lemma_link_from_bounds(l, close + 1, s, e);
                }
            }
        }
    }
}

/// The link under a selection lies inside the text.
pub proof fn lemma_link_context_bounds(c: Seq<char>, s: int, e: int)
    requires
        0 <= s <= e,
    ensures
        link_context(c, s, e) matches Some((os, oe, label, destination)) ==> 0 <= os < oe <= c.len()
            && label.len() < oe - os && destination.len() < oe - os,
{
    if e <= c.len() {
        crate::text::lemma_line_start_at(c, s);
        crate::text::lemma_line_end_at(c, e);
        let ls = line_start_at(c, s);
        let l = c.subrange(ls, line_end_at(c, e));
        lemma_link_from_bounds(l, 0, s - ls, e - ls);
    }
}

/// The edit of the link menu for the selection `s..e` of `c` and the typed target
/// `input`: the link under the selection (else the selection) becomes
/// `[label](destination)` with the stored form of the trimmed input, or just its label
/// when the input is blank; the label ends up selected.
pub open spec fn link_edit(c: Seq<char>, s: int, e: int, input: Seq<char>) -> (int, int, Seq<char>, int, int) {
    let t = trim(input);
    let context = link_context(c, s, e);
    let selected = c.skip(s).take(if e > s { e - s } else { 0 });
    let label = match context {
        Some((_, _, label, _)) => label,
        None => selected,
    };
    let replacement = if t.len() == 0 {
        label
    } else {
        seq!['['] + label + seq![']', '('] + link_destination(t) + seq![')']
    };
    let (start, end) = match context {
        Some((os, oe, _, _)) => (os, oe),
        None => (s, e),
    };
    let label_start = start + if t.len() == 0 {
        0int
    } else {
        1int
    };
    (start, end, replacement, label_start, label_start + label.len())
}

/// The edit that links the selection of `text` to the typed target `input`.
pub fn selection_link_edit(text: &str, selection: Range<usize>, input: &str) -> (r: InlineFormatEdit)
    requires
        fits_in_memory(text@),
        selection.start <= selection.end <= text@.len(),
    ensures
        edit_view(r) == link_edit(text@, selection.start as int, selection.end as int, input@),
{
    let s = selection.start;
    let e = selection.end;
    let c = chars_of(text);
    let t = trim_chars(input);
    proof {
        crate::text::lemma_line_start_at(text@, s as int);
        crate::text::lemma_line_end_at(text@, e as int);
        lemma_link_context_bounds(text@, s as int, e as int);
    }
    let context = markdown_link_context(text, s..e);
    let label: Vec<char> = match &context {
        Some(link) => chars_of(link.label.as_str()),
        None => {
            let selected = slice_chars(&c, s, e);
            proof {
                assert(selected@ =~= c@.skip(s as int).take(e - s));
            }
            selected
        },
    };
    let mut replacement: Vec<char> = Vec::new();
    if t.len() == 0 {
        push_all(&mut replacement, &label);
    } else {
        let trimmed = string_of(&t);
        let destination = normalize_markdown_link_destination(trimmed.as_str());
        replacement.push('[');
        push_all(&mut replacement, &label);
        replacement.push(']');
        replacement.push('(');
        push_str(&mut replacement, destination.as_str());
        replacement.push(')');
        proof {
            crate::text::lemma_trim_idempotent(input@);
            assert(replacement@ =~= seq!['['] + label@ + seq![']', '('] + link_destination(t@) + seq![')']);
        }
    }
    let (start, end) = match &context {
        Some(link) => (link.outer.start, link.outer.end),
        None => (s, e),
    };
    let label_start = if t.len() == 0 {
        start
    } else {
        start + 1
    };
    InlineFormatEdit { replace_range: start..end, replacement: string_of(&replacement), selection: label_start..label_start + label.len() }
}

} // verus!
