//! The line format that stores todos: field escaping, the length-prefixed tag list,
//! and the line splitting of `str::lines`.

use vstd::prelude::*;

use crate::text::{
    all_digits, chars_of, decimal, decimal_of, digits_value, find_char, index_of_char,
    is_boundary, is_digit, lemma_decimal_digits, lemma_index_of_char_at, lemma_utf8_len_mono,
    parse_decimal, parse_unsigned, push_all, starts_with, string_of, utf8_len, utf8_prefix_len,
    utf8_width, utf8_width_of,
};

verus! {

/// The escaped form of one character: backslash, tab, line feed and carriage return
/// become `\\`, `\t`, `\n` and `\r`.
pub open spec fn escape_char(c: char) -> Seq<char> {
    if c == '\\' {
        seq!['\\', '\\']
    } else if c == '\t' {
        seq!['\\', 't']
    } else if c == '\n' {
        seq!['\\', 'n']
    } else if c == '\r' {
        seq!['\\', 'r']
    } else {
        seq![c]
    }
}

/// The escaped form of a field.
pub open spec fn escape_seq(s: Seq<char>) -> Seq<char>
    decreases s.len(),
{
    if s.len() == 0 {
        Seq::empty()
    } else {
        escape_char(s[0]) + escape_seq(s.drop_first())
    }
}

/// `c` followed by the characters of `o`, if any.
pub open spec fn cons(c: char, o: Option<Seq<char>>) -> Option<Seq<char>> {
    match o {
        Some(r) => Some(seq![c] + r),
        None => None,
    }
}

/// The field an escaped form stands for; `None` for a dangling backslash or an unknown
/// escape.
pub open spec fn unescape_seq(s: Seq<char>) -> Option<Seq<char>>
    decreases s.len(),
{
    if s.len() == 0 {
        Some(Seq::empty())
    } else if s[0] != '\\' {
        cons(s[0], unescape_seq(s.drop_first()))
    } else if s.len() < 2 {
        None
    } else if s[1] == '\\' {
        cons('\\', unescape_seq(s.skip(2)))
    } else if s[1] == 't' {
        cons('\t', unescape_seq(s.skip(2)))
    } else if s[1] == 'n' {
        cons('\n', unescape_seq(s.skip(2)))
    } else if s[1] == 'r' {
        cons('\r', unescape_seq(s.skip(2)))
    } else {
        None
    }
}

/// Escaping distributes over concatenation.
pub proof fn lemma_escape_concat(a: Seq<char>, b: Seq<char>)
    ensures
        escape_seq(a + b) == escape_seq(a) + escape_seq(b),
    decreases a.len(),
{
    if a.len() == 0 {
        assert(a + b =~= b);
    } else {
        lemma_escape_concat(a.drop_first(), b);
        assert((a + b).drop_first() =~= a.drop_first() + b);
        assert(escape_char(a[0]) + escape_seq(a.drop_first()) + escape_seq(b) =~= escape_char(a[0]) + (
        escape_seq(a.drop_first()) + escape_seq(b)));
    }
}

/// Unescaping an escaped field gives the field back.
pub proof fn lemma_unescape_escape(s: Seq<char>)
    ensures
        unescape_seq(escape_seq(s)) == Some(s),
    decreases s.len(),
{
    if s.len() > 0 {
        lemma_unescape_escape(s.drop_first());
        let e = escape_seq(s);
        let rest = escape_seq(s.drop_first());
        let c = s[0];
        if c == '\\' || c == '\t' || c == '\n' || c == '\r' {
            assert(e.skip(2) =~= rest);
        } else {
            assert(e.drop_first() =~= rest);
        }
        assert(seq![c] + s.drop_first() =~= s);
    }
}

/// Escaped fields hold no tab, line feed or carriage return.
pub proof fn lemma_escape_no_separators(s: Seq<char>)
    ensures
        forall|i: int|
            0 <= i < escape_seq(s).len() ==> #[trigger] escape_seq(s)[i] != '\t' && escape_seq(s)[i] != '\n'
                && escape_seq(s)[i] != '\r',
    decreases s.len(),
{
    if s.len() > 0 {
        lemma_escape_no_separators(s.drop_first());
        let e = escape_seq(s);
        let h = escape_char(s[0]);
        assert forall|i: int| 0 <= i < e.len() implies #[trigger] e[i] != '\t' && e[i] != '\n' && e[i] != '\r' by {
            if i >= h.len() {
                assert(e[i] == escape_seq(s.drop_first())[i - h.len()]);
            }
        }
    }
}

/// Escapes backslashes, tabs, line feeds and carriage returns of a field.
pub fn escape_field(value: &str) -> (out: String)
    ensures
        out@ == escape_seq(value@),
{
    let s = chars_of(value);
    let mut out: Vec<char> = Vec::new();
    let mut i: usize = 0;
    while i < s.len()
        invariant
            i <= s.len(),
            out@ == escape_seq(s@.take(i as int)),
        decreases s.len() - i,
    {
        let c = s[i];
        if c == '\\' {
            out.push('\\');
            out.push('\\');
        } else if c == '\t' {
            out.push('\\');
            out.push('t');
        } else if c == '\n' {
            out.push('\\');
            out.push('n');
        } else if c == '\r' {
            out.push('\\');
            out.push('r');
        } else {
            out.push(c);
        }
        proof {
            lemma_escape_concat(s@.take(i as int), seq![c]);
            assert(s@.take(i + 1) =~= s@.take(i as int) + seq![c]);
            assert(seq![c].drop_first() =~= Seq::<char>::empty());
            assert(seq![c][0] == c);
            assert(escape_seq(seq![c]) == escape_char(c) + escape_seq(Seq::<char>::empty()));
            assert(escape_seq(seq![c]) =~= escape_char(c));
        }
        i += 1;
    }
    assert(s@.take(s.len() as int) =~= s@);
    string_of(&out)
}

/// `o` with `p` put in front of its characters.
pub open spec fn with_prefix(p: Seq<char>, o: Option<Seq<char>>) -> Option<Seq<char>> {
    match o {
        Some(r) => Some(p + r),
        None => None,
    }
}

/// Reads an escaped field back; `None` for a dangling backslash or an unknown escape.
pub fn unescape_chars(s: &Vec<char>, from: usize, to: usize) -> (out: Option<Vec<char>>)
    requires
        from <= to <= s.len(),
    ensures
        match unescape_seq(s@.subrange(from as int, to as int)) {
            Some(v) => out matches Some(x) && x@ == v,
            None => out is None,
        },
{
    let mut out: Vec<char> = Vec::new();
    let mut i = from;
    assert(out@ + s@.subrange(from as int, to as int) =~= s@.subrange(from as int, to as int));
    while i < to
        invariant
            from <= i <= to <= s.len(),
            unescape_seq(s@.subrange(from as int, to as int)) == with_prefix(
                out@,
                unescape_seq(s@.subrange(i as int, to as int)),
            ),
        decreases to - i,
    {
        let ghost rest = s@.subrange(i as int, to as int);
        let c = s[i];
        if c != '\\' {
            proof {
                assert(rest.drop_first() =~= s@.subrange(i + 1, to as int));
                assert forall|r: Seq<char>| out@ + (seq![c] + r) =~= out@.push(c) + r by {}
            }
            out.push(c);
            i += 1;
        } else {
            if i + 1 >= to {
                return None;
            }
            let k = s[i + 1];
            let u = if k == '\\' {
                '\\'
            } else if k == 't' {
                '\t'
            } else if k == 'n' {
                '\n'
            } else if k == 'r' {
                '\r'
            } else {
                return None;
            };
            proof {
                assert(rest.skip(2) =~= s@.subrange(i + 2, to as int));
                assert forall|r: Seq<char>| out@ + (seq![u] + r) =~= out@.push(u) + r by {}
            }
            out.push(u);
            i += 2;
        }
    }
    assert(s@.subrange(to as int, to as int) =~= Seq::<char>::empty());
    assert(out@ + Seq::<char>::empty() =~= out@);
    Some(out)
}

/// Reads an escaped field back.
pub fn unescape_field(value: &str) -> (out: Option<String>)
    ensures
        match unescape_seq(value@) {
            Some(v) => out matches Some(x) && x@ == v,
            None => out is None,
        },
{
    let s = chars_of(value);
    assert(s@.subrange(0, s.len() as int) =~= s@);
    match unescape_chars(&s, 0, s.len()) {
        Some(v) => Some(string_of(&v)),
        None => None,
    }
}

/// One tag in the list format: the byte length of its escaped form, a colon, then
/// the escaped form.
pub open spec fn encode_tag(tag: Seq<char>) -> Seq<char> {
    decimal(utf8_len(escape_seq(tag))) + seq![':'] + escape_seq(tag)
}

/// The tags one after another in the list format.
pub open spec fn encode_tag_list(tags: Seq<Seq<char>>) -> Seq<char>
    decreases tags.len(),
{
    if tags.len() == 0 {
        Seq::empty()
    } else {
        encode_tag(tags[0]) + encode_tag_list(tags.drop_first())
    }
}

/// A tag list in the `v2:` format.
pub open spec fn encode_tags_seq(tags: Seq<Seq<char>>) -> Seq<char> {
    "v2:"@ + encode_tag_list(tags)
}

/// Every tag's escaped form has a byte length that a `usize` holds.
pub open spec fn tags_fit(tags: Seq<Seq<char>>) -> bool {
    forall|i: int| 0 <= i < tags.len() ==> utf8_len(escape_seq(#[trigger] tags[i])) <= usize::MAX
}

/// The characters of a list of strings.
pub open spec fn strings_view(v: Seq<String>) -> Seq<Seq<char>> {
    Seq::new(v.len(), |i: int| v[i]@)
}

/// Writes tags in the `v2:` list format.
pub fn encode_tags(tags: &Vec<String>) -> (out: String)
    requires
        tags_fit(strings_view(tags@)),
    ensures
        out@ == encode_tags_seq(strings_view(tags@)),
{
    let ghost ts = strings_view(tags@);
    let mut out: Vec<char> = Vec::new();
    out.push('v');
    out.push('2');
    out.push(':');
    proof {
        reveal_strlit("v2:");
        assert(out@ =~= "v2:"@);
    }
    let mut i: usize = 0;
    assert(ts.skip(0) =~= ts);
    while i < tags.len()
        invariant
            i <= tags.len(),
            ts == strings_view(tags@),
            tags_fit(ts),
            "v2:"@ + encode_tag_list(ts) == out@ + encode_tag_list(ts.skip(i as int)),
        decreases tags.len() - i,
    {
        let escaped = escape_field(tags[i].as_str());
        let e = chars_of(escaped.as_str());
        proof {
            assert(ts[i as int] == tags@[i as int]@);
            assert(utf8_len(escape_seq(ts[i as int])) <= usize::MAX);
            assert(e@.take(e.len() as int) =~= e@);
        }
        let byte_len = utf8_prefix_len(&e, e.len());
        let ghost before = out@;
        let digits = decimal_of(byte_len as u64);
        push_all(&mut out, &digits);
        out.push(':');
        push_all(&mut out, &e);
        proof {
            assert(ts.skip(i as int).drop_first() =~= ts.skip(i + 1));
            assert(ts.skip(i as int)[0] == ts[i as int]);
            assert(out@ =~= before + encode_tag(ts[i as int]));
            assert(before + encode_tag_list(ts.skip(i as int)) =~= before + (encode_tag(ts[i as int])
                + encode_tag_list(ts.skip(i + 1))));
        }
        i += 1;
    }
    proof {
        assert(ts.skip(i as int).len() == 0);
        assert(out@ + Seq::<char>::empty() =~= out@);
    }
    string_of(&out)
}

/// The number of characters of `r` whose UTF-8 encoding takes exactly `b` bytes, if a
/// character boundary lies there.
pub open spec fn chars_for_bytes(r: Seq<char>, b: int) -> Option<int> {
    if is_boundary(r, b) {
        Some(choose|k: int| 0 <= k <= r.len() && utf8_len(r.take(k)) == b)
    } else {
        None
    }
}

/// Reads the `v2:` tag list `rem` after the tags `acc` already read: each entry is a
/// byte length, a colon, and that many bytes of an escaped tag. Empty tags and
/// repeated tags are dropped.
pub open spec fn decode_tag_list(rem: Seq<char>, acc: Seq<Seq<char>>) -> Option<Seq<Seq<char>>>
    decreases rem.len(),
{
    if rem.len() == 0 {
        Some(acc)
    } else {
        let sep = index_of_char(rem, ':');
        if sep >= rem.len() {
            None
        } else {
            match parse_unsigned(rem.take(sep as int), usize::MAX as int) {
                None => None,
                Some(b) => {
                    let r = rem.skip(sep + 1int);
                    match chars_for_bytes(r, b) {
                        None => None,
                        Some(k) => if k < 0 || k > r.len() {
                            None
                        } else {
                            match unescape_seq(r.take(k)) {
                                None => None,
                                Some(tag) => decode_tag_list(
                                    r.skip(k),
                                    if tag.len() > 0 && !acc.contains(tag) {
                                        acc.push(tag)
                                    } else {
                                        acc
                                    },
                                ),
                            }
                        },
                    }
                },
            }
        }
    }
}

/// Reads a stored tag list: the `v2:` format, or a single escaped tag as older
/// versions wrote it (nothing when that tag is empty).
pub open spec fn decode_tags_seq(value: Seq<char>) -> Option<Seq<Seq<char>>> {
    if starts_with(value, "v2:"@) {
        decode_tag_list(value.skip(3), Seq::empty())
    } else {
        match unescape_seq(value) {
            None => None,
            Some(tag) => Some(if tag.len() > 0 { seq![tag] } else { Seq::empty() }),
        }
    }
}

/// Whether `acc` holds a string equal to `tag`.
fn contains_string(acc: &Vec<String>, tag: &Vec<char>) -> (b: bool)
    ensures
        b == strings_view(acc@).contains(tag@),
{
    let mut i: usize = 0;
    while i < acc.len()
        invariant
            i <= acc.len(),
            forall|j: int| 0 <= j < i ==> acc@[j]@ != tag@,
        decreases acc.len() - i,
    {
        let a = chars_of(acc[i].as_str());
        if crate::text::chars_equal(&a, tag) {
            assert(strings_view(acc@)[i as int] == tag@);
            return true;
        }
        i += 1;
    }
    proof {
        if strings_view(acc@).contains(tag@) {
            let j = choose|j: int| 0 <= j < strings_view(acc@).len() && strings_view(acc@)[j] == tag@;
            assert(acc@[j]@ == tag@);
        }
    }
    false
}

/// The number of characters of `s[from..]` that take exactly `b` bytes, if a character
/// boundary lies there.
fn chars_for_bytes_exec(s: &Vec<char>, from: usize, b: usize) -> (k: Option<usize>)
    requires
        from <= s.len(),
    ensures
        match chars_for_bytes(s@.skip(from as int), b as int) {
            Some(n) => k matches Some(x) && x as int == n && from + x <= s.len(),
            None => k is None,
        },
{
    let ghost r = s@.skip(from as int);
    let mut i = from;
    let mut acc: usize = 0;
    proof {
        assert(r.take(0) =~= Seq::<char>::empty());
    }
    while i < s.len() && acc < b
        invariant
            from <= i <= s.len(),
            r == s@.skip(from as int),
            acc == utf8_len(r.take(i - from)),
            acc <= b,
        decreases s.len() - i,
    {
        let w = utf8_width_of(s[i]);
        proof {
            assert(r.take(i + 1 - from).drop_last() =~= r.take(i - from));
            assert(r[i - from] == s@[i as int]);
        }
        if w > b - acc {
            proof {
                assert forall|k: int| 0 <= k <= r.len() implies utf8_len(r.take(k)) != b by {
                    if k > i - from {
                        lemma_utf8_len_mono(r, i + 1 - from, k);
                    } else if k < i - from {
                        lemma_utf8_len_mono(r, k, i - from);
                    }
                }
            }
            return None;
        }
        acc = acc + w;
        i += 1;
    }
    if acc == b {
        proof {
            let n = choose|k: int| 0 <= k <= r.len() && utf8_len(r.take(k)) == b;
            if n < i - from {
                lemma_utf8_len_mono(r, n + 1, i - from);
                lemma_utf8_len_mono(r, n, n + 1);
            } else if n > i - from {
                lemma_utf8_len_mono(r, i - from + 1, n);
                lemma_utf8_len_mono(r, i - from, i - from + 1);
            }
        }
        Some(i - from)
    } else {
        proof {
            assert(i == s.len());
            assert forall|k: int| 0 <= k <= r.len() implies utf8_len(r.take(k)) != b by {
                if k < i - from {
                    lemma_utf8_len_mono(r, k, i - from);
                }
            }
        }
        None
    }
}

/// Reads a stored tag list.
pub fn decode_tags(value: &str) -> (out: Option<Vec<String>>)
    ensures
        match decode_tags_seq(value@) {
            Some(v) => out matches Some(x) && strings_view(x@) == v,
            None => out is None,
        },
{
    let s = chars_of(value);
    assert(s@.subrange(0, s.len() as int) =~= value@);
    decode_tags_chars(&s, 0, s.len())
}

/// Reads the stored tag list `s[from..to]`.
pub fn decode_tags_chars(s: &Vec<char>, from: usize, to: usize) -> (out: Option<Vec<String>>)
    requires
        from <= to <= s.len(),
    ensures
        match decode_tags_seq(s@.subrange(from as int, to as int)) {
            Some(v) => out matches Some(x) && strings_view(x@) == v,
            None => out is None,
        },
{
    let part = crate::text::slice_chars(s, from, to);
    let ghost value = part@;
    let prefix = chars_of("v2:");
    proof {
        reveal_strlit("v2:");
    }
    if !crate::text::starts_with_exec(&part, &prefix) {
        assert(part@.subrange(0, part.len() as int) =~= part@);
        let tag = match unescape_chars(&part, 0, part.len()) {
            Some(t) => t,
            None => return None,
        };
        let mut tags: Vec<String> = Vec::new();
        if tag.len() > 0 {
            tags.push(string_of(&tag));
            assert(strings_view(tags@) =~= seq![tag@]);
        } else {
            assert(strings_view(tags@) =~= Seq::<Seq<char>>::empty());
        }
        return Some(tags);
    }
    let mut tags: Vec<String> = Vec::new();
    let mut pos: usize = 3;
    proof {
        assert(part@.skip(3) =~= part@.skip(pos as int));
        assert(strings_view(tags@) =~= Seq::<Seq<char>>::empty());
    }
    while pos < part.len()
        invariant
            3 <= pos <= part.len(),
            value == part@,
            part@ == s@.subrange(from as int, to as int),
            starts_with(value, "v2:"@),
            decode_tag_list(value.skip(3), Seq::empty()) == decode_tag_list(
                part@.skip(pos as int),
                strings_view(tags@),
            ),
        decreases part.len() - pos,
    {
        let ghost rem = part@.skip(pos as int);
        let sep = find_char(&part, pos, part.len(), ':');
        proof {
            assert(part@.subrange(pos as int, part.len() as int) =~= rem);
        }
        if pos + sep == part.len() {
            return None;
        }
        proof {
            assert(rem.take(sep as int) =~= part@.subrange(pos as int, pos + sep));
        }
        let b = match parse_decimal(&part, pos, pos + sep, usize::MAX as u64) {
            Some(b) => b as usize,
            None => return None,
        };
        let start = pos + sep + 1;
        proof {
            assert(rem.skip(sep + 1) =~= part@.skip(start as int));
        }
        let k = match chars_for_bytes_exec(&part, start, b) {
            Some(k) => k,
            None => return None,
        };
        proof {
            assert(part@.skip(start as int).take(k as int) =~= part@.subrange(start as int, start + k));
            assert(part@.skip(start as int).skip(k as int) =~= part@.skip(start + k));
        }
        let tag = match unescape_chars(&part, start, start + k) {
            Some(t) => t,
            None => return None,
        };
        if tag.len() > 0 && !contains_string(&tags, &tag) {
            let ghost before = tags@;
            tags.push(string_of(&tag));
            proof {
                assert(strings_view(tags@) =~= strings_view(before).push(tag@));
            }
        }
        pos = start + k;
    }
    proof {
        assert(part@.skip(pos as int).len() == 0);
    }
    Some(tags)
}

/// Reading back an encoded tag list gives the tags after `acc`, when they are
/// non-empty, distinct and not in `acc`.
#[verifier::rlimit(40)]
pub proof fn lemma_decode_encode_list(tags: Seq<Seq<char>>, acc: Seq<Seq<char>>)
    requires
        tags_fit(tags),
        forall|i: int| 0 <= i < tags.len() ==> (#[trigger] tags[i]).len() > 0 && !acc.contains(tags[i]),
        forall|i: int, j: int| 0 <= i < j < tags.len() ==> tags[i] != tags[j],
    ensures
        decode_tag_list(encode_tag_list(tags), acc) == Some(acc + tags),
    decreases tags.len(),
{
    if tags.len() == 0 {
        assert(acc + tags =~= acc);
    } else {
        let t = tags[0];
        let e = escape_seq(t);
        let l = utf8_len(e);
        let d = decimal(l);
        let rest = tags.drop_first();
        let rem = encode_tag_list(tags);
        assert(rem == encode_tag(t) + encode_tag_list(rest));
        lemma_decimal_digits(l);
        // The length field ends at the first colon.
        assert forall|j: int| 0 <= j < d.len() implies rem[j] != ':' by {
            assert(rem[j] == d[j]);
            assert(is_digit(d[j]));
        }
        assert(rem[d.len() as int] == ':');
        lemma_index_of_char_at(rem, ':', d.len() as int);
        assert(rem.take(d.len() as int) =~= d);
        assert(parse_unsigned(d, usize::MAX as int) == Some(l as int));
        let r = rem.skip(d.len() + 1int);
        assert(r =~= e + encode_tag_list(rest));
        // The byte length covers exactly the escaped tag.
        assert(r.take(e.len() as int) =~= e);
        assert(is_boundary(r, l as int));
        let k = choose|k: int| 0 <= k <= r.len() && utf8_len(r.take(k)) == l;
        if k < e.len() {
            lemma_utf8_len_mono(r, k + 1, e.len() as int);
            lemma_utf8_len_mono(r, k, k + 1);
        } else if k > e.len() {
            lemma_utf8_len_mono(r, e.len() + 1int, k);
            lemma_utf8_len_mono(r, e.len() as int, e.len() + 1int);
        }
        assert(chars_for_bytes(r, l as int) == Some(e.len() as int));
        lemma_unescape_escape(t);
        assert(r.skip(e.len() as int) =~= encode_tag_list(rest));
        assert(t.len() > 0 && !acc.contains(t));
        let acc2 = acc.push(t);
        assert forall|i: int| 0 <= i < rest.len() implies (#[trigger] rest[i]).len() > 0 && !acc2.contains(rest[i]) by {
            assert(rest[i] == tags[i + 1]);
            assert(tags[0] != tags[i + 1]);
            if acc2.contains(rest[i]) {
                let j = choose|j: int| 0 <= j < acc2.len() && acc2[j] == rest[i];
                if j < acc.len() {
                    assert(acc.contains(tags[i + 1]));
                }
            }
        }
        assert forall|i: int| 0 <= i < rest.len() implies utf8_len(escape_seq(#[trigger] rest[i])) <= usize::MAX by {
            assert(rest[i] == tags[i + 1]);
        }
        assert forall|i: int, j: int| 0 <= i < j < rest.len() implies rest[i] != rest[j] by {
            assert(rest[i] == tags[i + 1]);
            assert(rest[j] == tags[j + 1]);
        }
        lemma_decode_encode_list(rest, acc2);
        assert(acc2 + rest =~= acc + tags);
    }
}

/// Tags written in the list format read back unchanged, when they are non-empty and
/// distinct.
pub proof fn lemma_decode_encode_tags(tags: Seq<Seq<char>>)
    requires
        tags_fit(tags),
        forall|i: int| 0 <= i < tags.len() ==> (#[trigger] tags[i]).len() > 0,
        forall|i: int, j: int| 0 <= i < j < tags.len() ==> tags[i] != tags[j],
    ensures
        decode_tags_seq(encode_tags_seq(tags)) == Some(tags),
{
    reveal_strlit("v2:");
    let enc = encode_tags_seq(tags);
    assert(enc.take(3) =~= "v2:"@);
    assert(enc.skip(3) =~= encode_tag_list(tags));
    lemma_decode_encode_list(tags, Seq::empty());
    assert(Seq::<Seq<char>>::empty() + tags =~= tags);
}


/// A tag list in the list format holds no tab and no line feed.
pub proof fn lemma_encode_tags_clean(tags: Seq<Seq<char>>)
    ensures
        forall|i: int| 0 <= i < encode_tags_seq(tags).len() ==> #[trigger] encode_tags_seq(tags)[i] != '\t'
            && encode_tags_seq(tags)[i] != '\n',
{
    reveal_strlit("v2:");
    lemma_encode_tag_list_clean(tags);
    let e = encode_tags_seq(tags);
    assert forall|i: int| 0 <= i < e.len() implies #[trigger] e[i] != '\t' && e[i] != '\n' by {
        if i >= 3 {
            assert(e[i] == encode_tag_list(tags)[i - 3]);
        }
    }
}

/// The tags one after another in the list format hold no tab and no line feed.
proof fn lemma_encode_tag_list_clean(tags: Seq<Seq<char>>)
    ensures
        forall|i: int| 0 <= i < encode_tag_list(tags).len() ==> #[trigger] encode_tag_list(tags)[i] != '\t'
            && encode_tag_list(tags)[i] != '\n',
    decreases tags.len(),
{
    if tags.len() > 0 {
        lemma_encode_tag_list_clean(tags.drop_first());
        let t = tags[0];
        let x = escape_seq(t);
        let d = decimal(utf8_len(x));
        lemma_decimal_digits(utf8_len(x));
        lemma_escape_no_separators(t);
        let h = encode_tag(t);
        let e = encode_tag_list(tags);
        assert(e == h + encode_tag_list(tags.drop_first()));
        assert forall|i: int| 0 <= i < e.len() implies #[trigger] e[i] != '\t' && e[i] != '\n' by {
            if i < d.len() {
                assert(e[i] == d[i]);
                assert(is_digit(d[i]));
            } else if i == d.len() {
                assert(e[i] == ':');
            } else if i < h.len() {
                assert(e[i] == x[i - d.len() - 1]);
            } else {
                assert(e[i] == encode_tag_list(tags.drop_first())[i - h.len()]);
            }
        }
    }
}

} // verus!
