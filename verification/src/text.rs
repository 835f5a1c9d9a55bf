//! Character-level helpers shared by the editing and persistence logic.
//!
//! Text is handled as a sequence of Unicode scalar values (`Seq<char>`); the
//! exec helpers work on `Vec<char>` copies of the `&str` inputs.

use vstd::prelude::*;

verus! {

/// Unicode `White_Space`, the property that `char::is_whitespace` tests.
pub open spec fn is_ws(c: char) -> bool {
    let v = c as u32;
    ||| (0x9 <= v && v <= 0xD)
    ||| v == 0x20
    ||| v == 0x85
    ||| v == 0xA0
    ||| v == 0x1680
    ||| (0x2000 <= v && v <= 0x200A)
    ||| v == 0x2028
    ||| v == 0x2029
    ||| v == 0x202F
    ||| v == 0x205F
    ||| v == 0x3000
}

/// Every character of `s` is whitespace.
pub open spec fn all_ws(s: Seq<char>) -> bool {
    forall|i: int| 0 <= i < s.len() ==> is_ws(#[trigger] s[i])
}

/// Number of leading characters of `s` equal to `c`.
pub open spec fn lead_count(s: Seq<char>, c: char) -> nat
    decreases s.len(),
{
    if s.len() > 0 && s[0] == c {
        1 + lead_count(s.drop_first(), c)
    } else {
        0
    }
}

/// Number of leading whitespace characters of `s`.
pub open spec fn lead_ws(s: Seq<char>) -> nat
    decreases s.len(),
{
    if s.len() > 0 && is_ws(s[0]) {
        1 + lead_ws(s.drop_first())
    } else {
        0
    }
}

/// Number of trailing whitespace characters of `s`.
pub open spec fn trail_ws(s: Seq<char>) -> nat
    decreases s.len(),
{
    if s.len() > 0 && is_ws(s.last()) {
        1 + trail_ws(s.drop_last())
    } else {
        0
    }
}

/// `s` without its leading whitespace (`str::trim_start`).
pub open spec fn trim_start(s: Seq<char>) -> Seq<char> {
    s.skip(lead_ws(s) as int)
}

/// `s` without its trailing whitespace (`str::trim_end`).
pub open spec fn trim_end(s: Seq<char>) -> Seq<char> {
    s.take(s.len() - trail_ws(s))
}

/// `s` without leading and trailing whitespace (`str::trim`).
pub open spec fn trim(s: Seq<char>) -> Seq<char> {
    trim_end(trim_start(s))
}

/// `c` occurs in `s`.
pub open spec fn has_char(s: Seq<char>, c: char) -> bool {
    exists|i: int| 0 <= i < s.len() && s[i] == c
}

/// Start of the line that holds position `i`: just after the last `'\n'` before `i`, or 0.
pub open spec fn line_start_at(s: Seq<char>, i: int) -> int
    decreases i,
{
    if i <= 0 {
        0
    } else if s[i - 1] == '\n' {
        i
    } else {
        line_start_at(s, i - 1)
    }
}

/// End of the line that holds position `i`: the first `'\n'` at or after `i`, or `s.len()`.
pub open spec fn line_end_at(s: Seq<char>, i: int) -> int
    decreases s.len() - i,
{
    if i >= s.len() {
        s.len() as int
    } else if s[i] == '\n' {
        i
    } else {
        line_end_at(s, i + 1)
    }
}

/// `v` is a character of the ASCII digits `'0'..='9'`.
pub open spec fn is_digit(c: char) -> bool {
    '0' <= c && c <= '9'
}

/// The numeric value of an ASCII digit.
pub open spec fn digit_value(c: char) -> int {
    c as int - '0' as int
}

/// Every character of `s` is an ASCII digit.
pub open spec fn all_digits(s: Seq<char>) -> bool {
    forall|i: int| 0 <= i < s.len() ==> is_digit(#[trigger] s[i])
}

/// The decimal value of a string of digits.
pub open spec fn digits_value(s: Seq<char>) -> int
    decreases s.len(),
{
    if s.len() == 0 {
        0
    } else {
        digits_value(s.drop_last()) * 10 + digit_value(s.last())
    }
}

/// What `str::parse` gives for an unsigned integer type whose largest value is `max`:
/// an optional `'+'` sign, then at least one ASCII digit and nothing else, in range.
pub open spec fn parse_unsigned(s: Seq<char>, max: int) -> Option<int> {
    let digits = if s.len() > 0 && s[0] == '+' {
        s.drop_first()
    } else {
        s
    };
    if digits.len() > 0 && all_digits(digits) && digits_value(digits) <= max {
        Some(digits_value(digits))
    } else {
        None
    }
}

/// The character of a decimal digit value.
pub open spec fn digit_char(d: int) -> char {
    if d == 0 {
        '0'
    } else if d == 1 {
        '1'
    } else if d == 2 {
        '2'
    } else if d == 3 {
        '3'
    } else if d == 4 {
        '4'
    } else if d == 5 {
        '5'
    } else if d == 6 {
        '6'
    } else if d == 7 {
        '7'
    } else if d == 8 {
        '8'
    } else {
        '9'
    }
}

/// Decimal representation of `n` without leading zeros (`u64::to_string`).
pub open spec fn decimal(n: nat) -> Seq<char>
    decreases n,
{
    if n < 10 {
        seq![digit_char(n as int)]
    } else {
        decimal(n / 10).push(digit_char((n % 10) as int))
    }
}

/// The ASCII lowercase of one character (`char::to_ascii_lowercase`).
pub open spec fn ascii_lower(c: char) -> char {
    if 'A' <= c && c <= 'Z' {
        ((c as u32) + 32) as char
    } else {
        c
    }
}

/// The ASCII lowercase of a string (`str::to_ascii_lowercase`).
pub open spec fn ascii_lower_seq(s: Seq<char>) -> Seq<char> {
    Seq::new(s.len(), |i: int| ascii_lower(s[i]))
}

/// `needle` occurs in `s` starting at position `i`.
pub open spec fn occurs_at(s: Seq<char>, needle: Seq<char>, i: int) -> bool {
    0 <= i && i + needle.len() <= s.len() && s.subrange(i, i + needle.len()) == needle
}

/// `needle` occurs somewhere in `s` (`str::contains`).
pub open spec fn contains_seq(s: Seq<char>, needle: Seq<char>) -> bool {
    exists|i: int| occurs_at(s, needle, i)
}

/// The first position at which `needle` occurs in `s` (`str::find`).
#[verifier::opaque]
pub open spec fn find_seq(s: Seq<char>, needle: Seq<char>) -> Option<int> {
    if contains_seq(s, needle) {
        Some(choose|i: int| occurs_at(s, needle, i) && forall|j: int| 0 <= j < i ==> !occurs_at(s, needle, j))
    } else {
        None
    }
}

/// Number of bytes of the UTF-8 encoding of `c` (`char::len_utf8`).
pub open spec fn utf8_width(c: char) -> nat {
    let v = c as u32;
    if v < 0x80 {
        1
    } else if v < 0x800 {
        2
    } else if v < 0x10000 {
        3
    } else {
        4
    }
}

/// Number of bytes of the UTF-8 encoding of `s` (`str::len`).
pub open spec fn utf8_len(s: Seq<char>) -> nat
    decreases s.len(),
{
    if s.len() == 0 {
        0
    } else {
        utf8_len(s.drop_last()) + utf8_width(s.last())
    }
}

/// A Rust string never holds more than `isize::MAX` bytes, nor so many characters.
pub open spec fn fits_in_memory(s: Seq<char>) -> bool {
    s.len() <= isize::MAX
}

pub proof fn lemma_lead_count_step(s: Seq<char>, c: char, i: int)
    requires
        0 <= i < s.len(),
        s[i] == c,
    ensures
        lead_count(s.skip(i), c) == 1 + lead_count(s.skip(i + 1), c),
{
    assert(s.skip(i).drop_first() =~= s.skip(i + 1));
}

pub proof fn lemma_lead_ws_step(s: Seq<char>, i: int)
    requires
        0 <= i < s.len(),
        is_ws(s[i]),
    ensures
        lead_ws(s.skip(i)) == 1 + lead_ws(s.skip(i + 1)),
{
    assert(s.skip(i).drop_first() =~= s.skip(i + 1));
}

pub proof fn lemma_trail_ws_step(s: Seq<char>, j: int)
    requires
        0 < j <= s.len(),
        is_ws(s[j - 1]),
    ensures
        trail_ws(s.take(j)) == 1 + trail_ws(s.take(j - 1)),
{
    assert(s.take(j).drop_last() =~= s.take(j - 1));
}

/// The leading run of `c` in `s` consists of `c` and stops before a different character.
pub proof fn lemma_lead_count_bounds(s: Seq<char>, c: char)
    ensures
        lead_count(s, c) <= s.len(),
        forall|i: int| 0 <= i < lead_count(s, c) ==> s[i] == c,
        lead_count(s, c) < s.len() ==> s[lead_count(s, c) as int] != c,
    decreases s.len(),
{
    if s.len() > 0 && s[0] == c {
        lemma_lead_count_bounds(s.drop_first(), c);
        assert forall|i: int| 0 <= i < lead_count(s, c) implies s[i] == c by {
            if i > 0 {
                assert(s.drop_first()[i - 1] == s[i]);
            }
        }
    }
}

/// The leading whitespace of `s` is whitespace and stops before a non-whitespace character.
pub proof fn lemma_lead_ws_bounds(s: Seq<char>)
    ensures
        lead_ws(s) <= s.len(),
        forall|i: int| 0 <= i < lead_ws(s) ==> is_ws(s[i]),
        lead_ws(s) < s.len() ==> !is_ws(s[lead_ws(s) as int]),
    decreases s.len(),
{
    if s.len() > 0 && is_ws(s[0]) {
        lemma_lead_ws_bounds(s.drop_first());
        assert forall|i: int| 0 <= i < lead_ws(s) implies is_ws(s[i]) by {
            if i > 0 {
                assert(s.drop_first()[i - 1] == s[i]);
            }
        }
    }
}

/// The trailing whitespace of `s` is whitespace and starts after a non-whitespace character.
pub proof fn lemma_trail_ws_bounds(s: Seq<char>)
    ensures
        trail_ws(s) <= s.len(),
        forall|i: int| s.len() - trail_ws(s) <= i < s.len() ==> is_ws(s[i]),
        trail_ws(s) < s.len() ==> !is_ws(s[s.len() - trail_ws(s) - 1]),
    decreases s.len(),
{
    if s.len() > 0 && is_ws(s.last()) {
        lemma_trail_ws_bounds(s.drop_last());
        assert forall|i: int| s.len() - trail_ws(s) <= i < s.len() implies is_ws(s[i]) by {
            if i < s.len() - 1 {
                assert(s.drop_last()[i] == s[i]);
            }
        }
    }
}

/// A string is trimmed to nothing exactly when it is all whitespace.
pub proof fn lemma_trim_empty(s: Seq<char>)
    ensures
        (trim(s).len() == 0) == all_ws(s),
{
    lemma_lead_ws_bounds(s);
    let t = trim_start(s);
    lemma_trail_ws_bounds(t);
    if all_ws(s) {
        if lead_ws(s) < s.len() {
            assert(is_ws(s[lead_ws(s) as int]));
        }
    } else {
        let k = choose|k: int| 0 <= k < s.len() && !is_ws(s[k]);
        assert(k >= lead_ws(s));
        assert(t[k - lead_ws(s)] == s[k]);
    }
}

/// A non-empty trimmed string is not blank, and neither is the string it came from.
pub proof fn lemma_trim_nonblank(s: Seq<char>)
    ensures
        trim(s).len() > 0 ==> !all_ws(trim(s)) && !all_ws(s),
{
    lemma_trim_empty(s);
    let t = trim(s);
    if t.len() > 0 {
        lemma_trim_idempotent_nonblank(s);
    }
}

/// The first character of a non-empty trimmed string is not whitespace.
pub proof fn lemma_trim_idempotent_nonblank(s: Seq<char>)
    requires
        trim(s).len() > 0,
    ensures
        !is_ws(trim(s)[0]),
        !all_ws(trim(s)),
{
    lemma_lead_ws_bounds(s);
    let u = trim_start(s);
    lemma_trail_ws_bounds(u);
    assert(u.len() > 0);
    assert(u[0] == s[lead_ws(s) as int]);
    assert(trim(s)[0] == u[0]);
}

/// The last character of a non-empty trimmed string is not whitespace.
pub proof fn lemma_trim_last_nonblank(s: Seq<char>)
    requires
        trim(s).len() > 0,
    ensures
        !is_ws(trim(s).last()),
{
    lemma_lead_ws_bounds(s);
    let u = trim_start(s);
    lemma_trail_ws_bounds(u);
    assert(trim(s).last() == u[u.len() - trail_ws(u) - 1]);
}

/// A word without whitespace at either end is its own trim.
pub proof fn lemma_trim_plain(s: Seq<char>)
    requires
        s.len() > 0,
        !is_ws(s[0]),
        !is_ws(s.last()),
    ensures
        trim(s) == s,
{
    assert(lead_ws(s) == 0);
    assert(trim_start(s) =~= s);
    assert(trail_ws(s) == 0);
    assert(trim_end(s) =~= s);
}

/// Trimming twice changes nothing more.
pub proof fn lemma_trim_idempotent(s: Seq<char>)
    ensures
        trim(trim(s)) == trim(s),
{
    let t = trim(s);
    if t.len() == 0 {
        assert(lead_ws(t) == 0);
        assert(trim(t) =~= t);
    } else {
        lemma_trim_idempotent_nonblank(s);
        lemma_trim_last_nonblank(s);
        lemma_trim_plain(t);
    }
}

/// Positions between `i` and the end of its line hold no line break.
pub proof fn lemma_line_end_at(s: Seq<char>, i: int)
    requires
        0 <= i <= s.len(),
    ensures
        i <= line_end_at(s, i) <= s.len(),
        forall|k: int| i <= k < line_end_at(s, i) ==> s[k] != '\n',
        line_end_at(s, i) == s.len() || s[line_end_at(s, i)] == '\n',
    decreases s.len() - i,
{
    if i < s.len() && s[i] != '\n' {
        lemma_line_end_at(s, i + 1);
    }
}

/// Positions between the start of a line and `i` hold no line break.
pub proof fn lemma_line_start_at(s: Seq<char>, i: int)
    requires
        0 <= i <= s.len(),
    ensures
        0 <= line_start_at(s, i) <= i,
        forall|k: int| line_start_at(s, i) <= k < i ==> s[k] != '\n',
        line_start_at(s, i) == 0 || s[line_start_at(s, i) - 1] == '\n',
    decreases i,
{
    if i > 0 && s[i - 1] != '\n' {
        lemma_line_start_at(s, i - 1);
    }
}

/// `utf8_len` grows by at least one byte per character.
pub proof fn lemma_utf8_len_mono(s: Seq<char>, i: int, j: int)
    requires
        0 <= i <= j <= s.len(),
    ensures
        utf8_len(s.take(i)) + (j - i) <= utf8_len(s.take(j)),
    decreases j - i,
{
    if i < j {
        lemma_utf8_len_mono(s, i, j - 1);
        assert(s.take(j).drop_last() =~= s.take(j - 1));
    }
}

/// Byte `b` of the UTF-8 encoding of `s` starts a character, or is its end.
pub open spec fn is_boundary(s: Seq<char>, b: int) -> bool {
    exists|k: int| 0 <= k <= s.len() && utf8_len(s.take(k)) == b
}

/// The number of bytes of the UTF-8 encoding of `c`.
pub fn utf8_width_of(c: char) -> (w: usize)
    ensures
        w == utf8_width(c),
{
    let v = c as u32;
    if v < 0x80 {
        1
    } else if v < 0x800 {
        2
    } else if v < 0x10000 {
        3
    } else {
        4
    }
}

/// Byte length of the UTF-8 encoding of the first `k` characters of `s`.
pub fn utf8_prefix_len(s: &Vec<char>, k: usize) -> (n: usize)
    requires
        k <= s.len(),
        utf8_len(s@) <= usize::MAX,
    ensures
        n == utf8_len(s@.take(k as int)),
{
    let mut i: usize = 0;
    let mut n: usize = 0;
    proof {
        assert(s@.take(s.len() as int) =~= s@);
    }
    while i < k
        invariant
            i <= k <= s.len(),
            utf8_len(s@) <= usize::MAX,
            s@.take(s.len() as int) == s@,
            n == utf8_len(s@.take(i as int)),
        decreases k - i,
    {
        proof {
            lemma_utf8_len_mono(s@, i + 1, s.len() as int);
            assert(s@.take(i + 1).drop_last() =~= s@.take(i as int));
        }
        n = n + utf8_width_of(s[i]);
        i += 1;
    }
    n
}

/// Number of characters in the first `b` bytes of the UTF-8 encoding of `s`, for `b` on
/// a character boundary; every byte offset past the end counts all characters.
pub fn chars_in_bytes(s: &Vec<char>, b: usize) -> (k: usize)
    requires
        is_boundary(s@, b as int) || b >= utf8_len(s@),
        utf8_len(s@) <= usize::MAX,
    ensures
        k <= s.len(),
        utf8_len(s@.take(k as int)) == if b < utf8_len(s@) { b as int } else { utf8_len(s@) as int },
{
    let mut i: usize = 0;
    let mut acc: usize = 0;
    proof {
        assert(s@.take(s.len() as int) =~= s@);
    }
    while i < s.len() && acc < b
        invariant
            i <= s.len(),
            acc == utf8_len(s@.take(i as int)),
            utf8_len(s@) <= usize::MAX,
            s@.take(s.len() as int) == s@,
            is_boundary(s@, b as int) || b >= utf8_len(s@),
            forall|w: int| 0 <= w <= s.len() && utf8_len(s@.take(w)) == b ==> i <= w,
        decreases s.len() - i,
    {
        proof {
            assert(s@.take(i + 1).drop_last() =~= s@.take(i as int));
            lemma_utf8_len_mono(s@, i + 1, s.len() as int);
            assert forall|w: int| 0 <= w <= s.len() && utf8_len(s@.take(w)) == b implies i + 1 <= w by {
                if w <= i {
                    lemma_utf8_len_mono(s@, w, i as int);
                }
            }
        }
        acc = acc + utf8_width_of(s[i]);
        i += 1;
    }
    proof {
        lemma_utf8_len_mono(s@, i as int, s.len() as int);
        if i < s.len() && b < utf8_len(s@) {
            let w = choose|w: int| 0 <= w <= s.len() && utf8_len(s@.take(w)) == b;
            if w > i {
                lemma_utf8_len_mono(s@, i as int, w);
            }
        }
    }
    i
}

/// Position of the first `c` in `s`, or `s.len()` when there is none.
pub open spec fn index_of_char(s: Seq<char>, c: char) -> nat
    decreases s.len(),
{
    if s.len() == 0 || s[0] == c {
        0
    } else {
        1 + index_of_char(s.drop_first(), c)
    }
}

pub proof fn lemma_index_of_char_step(s: Seq<char>, c: char, i: int)
    requires
        0 <= i < s.len(),
        s[i] != c,
    ensures
        index_of_char(s.skip(i), c) == 1 + index_of_char(s.skip(i + 1), c),
{
    assert(s.skip(i).drop_first() =~= s.skip(i + 1));
}

/// `index_of_char` is the first position holding `c`, or the length.
pub proof fn lemma_index_of_char_at(s: Seq<char>, c: char, k: int)
    requires
        0 <= k <= s.len(),
        forall|j: int| 0 <= j < k ==> s[j] != c,
        k == s.len() || s[k] == c,
    ensures
        index_of_char(s, c) == k,
    decreases k,
{
    if k > 0 {
        assert forall|j: int| 0 <= j < k - 1 implies s.drop_first()[j] != c by {
            assert(s.drop_first()[j] == s[j + 1]);
        }
        lemma_index_of_char_at(s.drop_first(), c, k - 1);
    }
}

/// `index_of_char` is at most the length.
pub proof fn lemma_index_of_char_le(s: Seq<char>, c: char)
    ensures
        index_of_char(s, c) <= s.len(),
        index_of_char(s, c) < s.len() ==> s[index_of_char(s, c) as int] == c,
        forall|j: int| 0 <= j < index_of_char(s, c) ==> s[j] != c,
    decreases s.len(),
{
    if s.len() > 0 && s[0] != c {
        lemma_index_of_char_le(s.drop_first(), c);
        assert forall|j: int| 0 <= j < index_of_char(s, c) implies s[j] != c by {
            if j > 0 {
                assert(s[j] == s.drop_first()[j - 1]);
            }
        }
    }
}

/// The first line of `s`: up to the first `'\n'`, without a `'\r'` just before it.
pub open spec fn first_line(s: Seq<char>) -> Seq<char> {
    let n = index_of_char(s, '\n');
    if n < s.len() && n > 0 && s[n - 1] == '\r' {
        s.take(n - 1)
    } else {
        s.take(n as int)
    }
}

/// What follows the first line of `s` and its `'\n'`.
pub open spec fn after_first_line(s: Seq<char>) -> Seq<char> {
    let n = index_of_char(s, '\n');
    if n < s.len() {
        s.skip(n + 1int)
    } else {
        Seq::empty()
    }
}

/// The lines of `s` as `str::lines` gives them: split after each `'\n'`, that
/// `'\n'` and a `'\r'` before it dropped, and no line after a final `'\n'`.
pub open spec fn lines_of(s: Seq<char>) -> Seq<Seq<char>>
    decreases s.len(),
{
    if s.len() == 0 {
        Seq::empty()
    } else {
        proof {
            lemma_index_of_char_le(s, '\n');
        }
        seq![first_line(s)] + lines_of(after_first_line(s))
    }
}

/// The next line of `s` from `pos`: where its text ends and where the line after
/// it starts.
pub fn next_line(s: &Vec<char>, pos: usize) -> (r: (usize, usize))
    requires
        pos < s.len(),
    ensures
        pos <= r.0 <= r.1 <= s.len(),
        pos < r.1,
        s@.subrange(pos as int, r.0 as int) == first_line(s@.skip(pos as int)),
        s@.skip(r.1 as int) == after_first_line(s@.skip(pos as int)),
{
    let len = s.len();
    let n = find_char(s, pos, len, '\n');
    let ghost t = s@.skip(pos as int);
    proof {
        assert(s@.subrange(pos as int, len as int) =~= t);
        lemma_index_of_char_le(t, '\n');
    }
    if pos + n < len {
        let end = if n > 0 && s[pos + n - 1] == '\r' {
            pos + n - 1
        } else {
            pos + n
        };
        proof {
            assert(s@.subrange(pos as int, end as int) =~= first_line(t));
            assert(s@.skip(pos + n + 1) =~= after_first_line(t));
        }
        (end, pos + n + 1)
    } else {
        proof {
            assert(s@.subrange(pos as int, (pos + n) as int) =~= first_line(t));
            assert(s@.skip(len as int) =~= after_first_line(t));
        }
        (pos + n, len)
    }
}

/// Position of the first `c` in `s[from..to]`, relative to `from`, or `to - from`.
pub fn find_char(s: &Vec<char>, from: usize, to: usize, c: char) -> (n: usize)
    requires
        from <= to <= s.len(),
    ensures
        n == index_of_char(s@.subrange(from as int, to as int), c),
        from + n <= to,
        forall|k: int| from <= k < from + n ==> s@[k] != c,
        from + n < to ==> s@[from + n] == c,
{
    let ghost t = s@.subrange(from as int, to as int);
    assert(t.skip(0) =~= t);
    let mut i = from;
    while i < to && s[i] != c
        invariant
            from <= i <= to <= s.len(),
            t == s@.subrange(from as int, to as int),
            index_of_char(t, c) == (i - from) + index_of_char(t.skip(i - from), c),
            forall|k: int| from <= k < i ==> s@[k] != c,
        decreases to - i,
    {
        proof {
            lemma_index_of_char_step(t, c, i - from);
        }
        i += 1;
    }
    i - from
}

/// The digits of `s[from..to]` read as `str::parse` reads an unsigned integer no larger
/// than `max`.
pub fn parse_decimal(s: &Vec<char>, from: usize, to: usize, max: u64) -> (r: Option<u64>)
    requires
        from <= to <= s.len(),
    ensures
        match parse_unsigned(s@.subrange(from as int, to as int), max as int) {
            Some(v) => r matches Some(x) && x as int == v,
            None => r is None,
        },
        r matches Some(x) ==> x <= max,
{
    let ghost t = s@.subrange(from as int, to as int);
    let start = if from < to && s[from] == '+' {
        from + 1
    } else {
        from
    };
    let ghost digits = s@.subrange(start as int, to as int);
    proof {
        if from < to && s@[from as int] == '+' {
            assert(t.drop_first() =~= digits);
        } else {
            assert(t =~= digits);
        }
    }
    if start >= to {
        return None;
    }
    let mut acc: u64 = 0;
    let mut i = start;
    while i < to
        invariant
            start < to <= s.len(),
            start <= i <= to,
            t == s@.subrange(from as int, to as int),
            digits == s@.subrange(start as int, to as int),
            digits == (if t.len() > 0 && t[0] == '+' { t.drop_first() } else { t }),
            all_digits(digits.take(i - start)),
            acc == digits_value(digits.take(i - start)),
            acc <= max,
        decreases to - i,
    {
        let c = s[i];
        proof {
            assert(digits.take(i + 1 - start).drop_last() =~= digits.take(i - start));
        }
        if c < '0' || c > '9' {
            assert(!is_digit(digits[i - start]));
            return None;
        }
        let d = (c as u32 - '0' as u32) as u64;
        proof {
            assert(all_digits(digits.take(i + 1 - start)));
            assert(digits.take(digits.len() as int) =~= digits);
        }
        if d > max {
            proof {
                lemma_digits_value_nonneg(digits.take(i - start));
                lemma_digits_value_prefix_le(digits, i + 1 - start, digits.len() as int);
            }
            return None;
        }
        if acc > (max - d) / 10 {
            proof {
                assert(acc * 10 + d > max) by (nonlinear_arith)
                    requires
                        acc > (max - d) / 10,
                        d <= max,
                ;
                lemma_digits_value_prefix_le(digits, i + 1 - start, digits.len() as int);
            }
            return None;
        }
        proof {
            assert(acc * 10 + d <= max) by (nonlinear_arith)
                requires
                    acc <= (max - d) / 10,
                    d <= max,
            ;
        }
        acc = acc * 10 + d;
        i += 1;
    }
    proof {
        assert(digits.take(to - start) =~= digits);
    }
    Some(acc)
}

/// A longer run of digits never has a smaller value.
pub proof fn lemma_digits_value_prefix_le(s: Seq<char>, j: int, k: int)
    requires
        0 <= j <= k <= s.len(),
        all_digits(s.take(j)),
    ensures
        all_digits(s.take(k)) ==> digits_value(s.take(j)) <= digits_value(s.take(k)),
    decreases k - j,
{
    if j < k {
        lemma_digits_value_prefix_le(s, j, k - 1);
        if all_digits(s.take(k)) {
            assert(s.take(k).drop_last() =~= s.take(k - 1));
            assert(all_digits(s.take(k - 1)));
            assert(is_digit(s.take(k)[k - 1]));
            assert(digits_value(s.take(k - 1)) >= 0) by {
                lemma_digits_value_nonneg(s.take(k - 1));
            }
        }
    }
}

pub proof fn lemma_digits_value_nonneg(s: Seq<char>)
    requires
        all_digits(s),
    ensures
        digits_value(s) >= 0,
    decreases s.len(),
{
    if s.len() > 0 {
        assert(all_digits(s.drop_last()));
        lemma_digits_value_nonneg(s.drop_last());
        assert(is_digit(s[s.len() - 1]));
    }
}

/// The decimal digits of `n`.
pub fn decimal_of(n: u64) -> (out: Vec<char>)
    ensures
        out@ == decimal(n as nat),
    decreases n,
{
    if n < 10 {
        let mut out: Vec<char> = Vec::new();
        out.push(digit_of(n));
        assert(out@ =~= decimal(n as nat));
        out
    } else {
        let mut out = decimal_of(n / 10);
        out.push(digit_of(n % 10));
        out
    }
}

/// The decimal digits of a 128-bit `n`.
pub fn decimal_of_wide(n: u128) -> (out: Vec<char>)
    ensures
        out@ == decimal(n as nat),
    decreases n,
{
    if n < 10 {
        let mut out: Vec<char> = Vec::new();
        out.push(digit_of(n as u64));
        assert(out@ =~= decimal(n as nat));
        out
    } else {
        let mut out = decimal_of_wide(n / 10);
        out.push(digit_of((n % 10) as u64));
        out
    }
}

/// The character of a digit value below ten.
fn digit_of(d: u64) -> (c: char)
    requires
        d < 10,
    ensures
        c == digit_char(d as int),
{
    if d == 0 {
        '0'
    } else if d == 1 {
        '1'
    } else if d == 2 {
        '2'
    } else if d == 3 {
        '3'
    } else if d == 4 {
        '4'
    } else if d == 5 {
        '5'
    } else if d == 6 {
        '6'
    } else if d == 7 {
        '7'
    } else if d == 8 {
        '8'
    } else {
        '9'
    }
}

/// A digit value's character is a digit with that value.
pub proof fn lemma_digit_char(d: int)
    requires
        0 <= d < 10,
    ensures
        is_digit(digit_char(d)),
        digit_value(digit_char(d)) == d,
{
}

/// The decimal representation of a number reads back as that number.
pub proof fn lemma_decimal_digits(n: nat)
    ensures
        decimal(n).len() > 0,
        all_digits(decimal(n)),
        digits_value(decimal(n)) == n,
        decimal(n)[0] != '+',
    decreases n,
{
    reveal_with_fuel(decimal, 2);
    if n < 10 {
        lemma_digit_char(n as int);
        let d = decimal(n);
        assert(d.drop_last() =~= Seq::<char>::empty());
        assert(digits_value(d) == digits_value(d.drop_last()) * 10 + digit_value(d.last()));
    } else {
        lemma_digit_char((n % 10) as int);
        lemma_decimal_digits(n / 10);
        let d = decimal(n);
        assert(d.drop_last() =~= decimal(n / 10));
        assert(d.last() == digit_char((n % 10) as int));
        assert(digits_value(d) == digits_value(d.drop_last()) * 10 + digit_value(d.last()));
        assert forall|i: int| 0 <= i < d.len() implies is_digit(#[trigger] d[i]) by {
            if i < d.len() - 1 {
                assert(d[i] == decimal(n / 10)[i]);
            }
        }
    }
}

/// Whether `needle` occurs in `s` at position `i`.
pub fn occurs_at_exec(s: &Vec<char>, needle: &Vec<char>, i: usize) -> (b: bool)
    requires
        i <= s.len(),
    ensures
        b == occurs_at(s@, needle@, i as int),
{
    if needle.len() > s.len() - i {
        return false;
    }
    let mut k: usize = 0;
    while k < needle.len()
        invariant
            k <= needle.len(),
            i + needle.len() <= s.len(),
            forall|j: int| 0 <= j < k ==> s@[i + j] == needle@[j],
        decreases needle.len() - k,
    {
        if s[i + k] != needle[k] {
            assert(s@.subrange(i as int, i + needle.len())[k as int] != needle@[k as int]);
            return false;
        }
        k += 1;
    }
    assert(s@.subrange(i as int, i + needle.len()) =~= needle@);
    true
}

/// Occurrences in `s.skip(from)` are occurrences in `s`, shifted by `from`.
pub proof fn lemma_occurs_skip(s: Seq<char>, needle: Seq<char>, from: int, j: int)
    requires
        0 <= from <= s.len(),
        0 <= j,
    ensures
        occurs_at(s.skip(from), needle, j) == occurs_at(s, needle, from + j),
{
    let t = s.skip(from);
    if j + needle.len() <= t.len() {
        assert(t.subrange(j, j + needle.len()) =~= s.subrange(from + j, from + j + needle.len()));
    }
}

/// The first occurrence at or after `from` is what `find_seq` finds in `s.skip(from)`.
pub proof fn lemma_find_seq_first(s: Seq<char>, needle: Seq<char>, from: int, k: int)
    requires
        0 <= from <= k,
        from <= s.len(),
        occurs_at(s, needle, k),
        forall|j: int| from <= j < k ==> !occurs_at(s, needle, j),
    ensures
        find_seq(s.skip(from), needle) == Some(k - from),
{
    reveal(find_seq);
    let t = s.skip(from);
    lemma_occurs_skip(s, needle, from, k - from);
    assert forall|j: int| 0 <= j < k - from implies !occurs_at(t, needle, j) by {
        lemma_occurs_skip(s, needle, from, j);
    }
    assert(occurs_at(t, needle, k - from));
    let c = choose|c: int| occurs_at(t, needle, c) && forall|j: int| 0 <= j < c ==> !occurs_at(t, needle, j);
    if c < k - from {
        assert(!occurs_at(t, needle, c));
    } else if c > k - from {
        assert(!occurs_at(t, needle, k - from));
    }
}

/// Without an occurrence at or after `from`, `find_seq` finds nothing in `s.skip(from)`.
pub proof fn lemma_find_seq_none(s: Seq<char>, needle: Seq<char>, from: int)
    requires
        0 <= from <= s.len(),
        forall|j: int| from <= j ==> !occurs_at(s, needle, j),
    ensures
        find_seq(s.skip(from), needle) is None,
{
    reveal(find_seq);
    let t = s.skip(from);
    assert forall|j: int| !occurs_at(t, needle, j) by {
        if j >= 0 {
            lemma_occurs_skip(s, needle, from, j);
        }
    }
}

/// The first position at or after `from` where `needle` occurs in `s`.
pub fn find_from(s: &Vec<char>, from: usize, needle: &Vec<char>) -> (r: Option<usize>)
    requires
        from <= s.len(),
    ensures
        match r {
            Some(i) => from <= i && occurs_at(s@, needle@, i as int) && forall|j: int|
                from <= j < i ==> !occurs_at(s@, needle@, j),
            None => forall|j: int| from <= j ==> !occurs_at(s@, needle@, j),
        },
        match find_seq(s@.skip(from as int), needle@) {
            Some(k) => r matches Some(i) && i as int == from + k,
            None => r is None,
        },
{
    let mut i = from;
    while i < s.len() && !occurs_at_exec(s, needle, i)
        invariant
            from <= i <= s.len(),
            forall|j: int| from <= j < i ==> !occurs_at(s@, needle@, j),
        decreases s.len() - i,
    {
        i += 1;
    }
    if i < s.len() || occurs_at_exec(s, needle, i) {
        proof {
            lemma_find_seq_first(s@, needle@, from as int, i as int);
        }
        Some(i)
    } else {
        proof {
            assert forall|j: int| from <= j implies !occurs_at(s@, needle@, j) by {
                if j > s.len() {
                }
            }
            lemma_find_seq_none(s@, needle@, from as int);
        }
        None
    }
}

/// `s` ends with `suffix` (`str::ends_with`).
pub open spec fn ends_with(s: Seq<char>, suffix: Seq<char>) -> bool {
    suffix.len() <= s.len() && s.subrange(s.len() - suffix.len(), s.len() as int) == suffix
}

/// `s` starts with `prefix` (`str::starts_with`).
pub open spec fn starts_with(s: Seq<char>, prefix: Seq<char>) -> bool {
    prefix.len() <= s.len() && s.take(prefix.len() as int) == prefix
}

/// Whether `s` ends with `suffix`.
pub fn ends_with_exec(s: &Vec<char>, suffix: &Vec<char>) -> (b: bool)
    ensures
        b == ends_with(s@, suffix@),
{
    if suffix.len() > s.len() {
        return false;
    }
    occurs_at_exec(s, suffix, s.len() - suffix.len())
}

/// Whether `s` starts with `prefix`.
pub fn starts_with_exec(s: &Vec<char>, prefix: &Vec<char>) -> (b: bool)
    ensures
        b == starts_with(s@, prefix@),
{
    if prefix.len() > s.len() {
        return false;
    }
    let b = occurs_at_exec(s, prefix, 0);
    assert(s@.subrange(0, prefix@.len() as int) =~= s@.take(prefix@.len() as int));
    b
}

/// Whether `needle` occurs in `s`.
pub fn contains_exec(s: &Vec<char>, needle: &Vec<char>) -> (b: bool)
    ensures
        b == contains_seq(s@, needle@),
{
    match find_from(s, 0, needle) {
        Some(i) => true,
        None => {
            assert forall|j: int| !occurs_at(s@, needle@, j) by {
                if j < 0 {
                }
            }
            false
        },
    }
}

/// The ASCII lowercase of `s`.
pub fn to_ascii_lowercase(s: &Vec<char>) -> (out: Vec<char>)
    ensures
        out@ == ascii_lower_seq(s@),
{
    let mut out: Vec<char> = Vec::new();
    let mut i: usize = 0;
    while i < s.len()
        invariant
            i <= s.len(),
            out@ == ascii_lower_seq(s@.take(i as int)),
        decreases s.len() - i,
    {
        let c = s[i];
        let l = if 'A' <= c && c <= 'Z' {
            ((c as u8) + 32) as char
        } else {
            c
        };
        out.push(l);
        i += 1;
        assert(out@ =~= ascii_lower_seq(s@.take(i as int)));
    }
    assert(s@.take(s.len() as int) =~= s@);
    out
}

/// The lowercase form of a string (`str::to_lowercase`, full Unicode case mapping).
pub uninterp spec fn lowercase(s: Seq<char>) -> Seq<char>;

/// Lowercases `s`.
///
/// Trusted: calls `str::to_lowercase`; its result is only named as a function of the
/// argument (Unicode case mapping is not restated here).
#[verifier::external_body]
pub(crate) fn to_lowercase(s: &str) -> (out: String)
    ensures
        out@ == lowercase(s@),
{
    s.to_lowercase()
}

/// Whether `a` and `b` hold the same characters.
pub fn chars_equal(a: &Vec<char>, b: &Vec<char>) -> (r: bool)
    ensures
        r == (a@ == b@),
{
    if a.len() != b.len() {
        return false;
    }
    let mut i: usize = 0;
    while i < a.len()
        invariant
            i <= a.len() == b.len(),
            forall|j: int| 0 <= j < i ==> a@[j] == b@[j],
        decreases a.len() - i,
    {
        if a[i] != b[i] {
            return false;
        }
        i += 1;
    }
    assert(a@ =~= b@);
    true
}

/// The characters of `value` without leading and trailing whitespace.
pub fn trim_chars(value: &str) -> (out: Vec<char>)
    ensures
        out@ == trim(value@),
{
    let s = chars_of(value);
    let len = s.len();
    let lead = count_lead_ws(&s, 0, len);
    let trail = count_trail_ws(&s, lead, len);
    proof {
        assert(s@.subrange(0, len as int) =~= s@);
        assert(trim_start(s@) =~= s@.subrange(lead as int, len as int));
        assert(trim(s@) =~= s@.subrange(lead as int, (len - trail) as int));
    }
    slice_chars(&s, lead, len - trail)
}

/// The characters of `s`, in order.
pub fn chars_of(s: &str) -> (out: Vec<char>)
    ensures
        out@ == s@,
{
    let mut out: Vec<char> = Vec::new();
    for c in it: s.chars()
        invariant
            out@ == it.seq().take(it.index() as int),
    {
        out.push(c);
    }
    out
}

/// A `String` holding exactly the given characters.
///
/// Trusted: calls `String::from_iter` over the characters, which std documents as
/// collecting them in order.
#[verifier::external_body]
pub(crate) fn string_of(chars: &Vec<char>) -> (s: String)
    ensures
        s@ == chars@,
{
    String::from_iter(chars.iter())
}

/// The characters `s[start..end]`.
pub fn slice_chars(s: &Vec<char>, start: usize, end: usize) -> (out: Vec<char>)
    requires
        start <= end <= s.len(),
    ensures
        out@ == s@.subrange(start as int, end as int),
{
    let mut out: Vec<char> = Vec::new();
    let mut i = start;
    while i < end
        invariant
            start <= i <= end <= s.len(),
            out@ == s@.subrange(start as int, i as int),
        decreases end - i,
    {
        out.push(s[i]);
        i += 1;
    }
    out
}

/// Appends `extra` to `out`.
pub fn push_all(out: &mut Vec<char>, extra: &Vec<char>)
    ensures
        final(out)@ == old(out)@ + extra@,
{
    let mut i: usize = 0;
    let ghost start = out@;
    while i < extra.len()
        invariant
            i <= extra.len(),
            out@ == start + extra@.take(i as int),
            start == old(out)@,
        decreases extra.len() - i,
    {
        out.push(extra[i]);
        i += 1;
    }
    assert(extra@.take(extra.len() as int) =~= extra@);
}

/// Appends the characters of `extra` to `out`.
pub fn push_str(out: &mut Vec<char>, extra: &str)
    ensures
        final(out)@ == old(out)@ + extra@,
{
    let e = chars_of(extra);
    push_all(out, &e);
}

/// Number of characters equal to `c` in the run that starts at `from`, within `s[from..to]`.
pub fn count_run(s: &Vec<char>, from: usize, to: usize, c: char) -> (n: usize)
    requires
        from <= to <= s.len(),
    ensures
        n == lead_count(s@.subrange(from as int, to as int), c),
        from + n <= to,
{
    let ghost t = s@.subrange(from as int, to as int);
    assert(t.skip(0) =~= t);
    let mut i = from;
    while i < to && s[i] == c
        invariant
            from <= i <= to <= s.len(),
            t == s@.subrange(from as int, to as int),
            lead_count(t, c) == (i - from) + lead_count(t.skip(i - from), c),
        decreases to - i,
    {
        proof {
            lemma_lead_count_step(t, c, i - from);
        }
        i += 1;
    }
    i - from
}

/// Number of leading whitespace characters of `s[from..to]`.
pub fn count_lead_ws(s: &Vec<char>, from: usize, to: usize) -> (n: usize)
    requires
        from <= to <= s.len(),
    ensures
        n == lead_ws(s@.subrange(from as int, to as int)),
        from + n <= to,
{
    let ghost t = s@.subrange(from as int, to as int);
    assert(t.skip(0) =~= t);
    let mut i = from;
    while i < to && is_whitespace(s[i])
        invariant
            from <= i <= to <= s.len(),
            t == s@.subrange(from as int, to as int),
            lead_ws(t) == (i - from) + lead_ws(t.skip(i - from)),
        decreases to - i,
    {
        proof {
            lemma_lead_ws_step(t, i - from);
        }
        i += 1;
    }
    i - from
}

/// Number of trailing whitespace characters of `s[from..to]`.
pub fn count_trail_ws(s: &Vec<char>, from: usize, to: usize) -> (n: usize)
    requires
        from <= to <= s.len(),
    ensures
        n == trail_ws(s@.subrange(from as int, to as int)),
        n <= to - from,
{
    let ghost t = s@.subrange(from as int, to as int);
    assert(t.take(to - from) =~= t);
    let mut j = to;
    while j > from && is_whitespace(s[j - 1])
        invariant
            from <= j <= to <= s.len(),
            t == s@.subrange(from as int, to as int),
            trail_ws(t) == (to - j) + trail_ws(t.take(j - from)),
        decreases j - from,
    {
        proof {
            lemma_trail_ws_step(t, j - from);
        }
        j -= 1;
    }
    to - j
}

/// Whether `c` is whitespace (`char::is_whitespace`).
pub fn is_whitespace(c: char) -> (b: bool)
    ensures
        b == is_ws(c),
{
    let v = c as u32;
    (0x9 <= v && v <= 0xD) || v == 0x20 || v == 0x85 || v == 0xA0 || v == 0x1680 || (0x2000
        <= v && v <= 0x200A) || v == 0x2028 || v == 0x2029 || v == 0x202F || v == 0x205F || v
        == 0x3000
}

/// Whether `c` occurs in `s[from..to]`.
pub fn contains_char(s: &Vec<char>, from: usize, to: usize, c: char) -> (b: bool)
    requires
        from <= to <= s.len(),
    ensures
        b == has_char(s@.subrange(from as int, to as int), c),
{
    let ghost t = s@.subrange(from as int, to as int);
    let mut i = from;
    while i < to
        invariant
            from <= i <= to <= s.len(),
            t == s@.subrange(from as int, to as int),
            forall|k: int| 0 <= k < i - from ==> t[k] != c,
        decreases to - i,
    {
        if s[i] == c {
            assert(t[i - from] == c);
            return true;
        }
        i += 1;
    }
    false
}

/// Start of the line holding position `i`.
pub fn find_line_start(s: &Vec<char>, i: usize) -> (r: usize)
    requires
        i <= s.len(),
    ensures
        r == line_start_at(s@, i as int),
        r <= i,
        forall|k: int| r <= k < i ==> s@[k] != '\n',
        r == 0 || s@[r - 1] == '\n',
{
    let mut j = i;
    while j > 0 && s[j - 1] != '\n'
        invariant
            j <= i <= s.len(),
            line_start_at(s@, i as int) == line_start_at(s@, j as int),
            forall|k: int| j <= k < i ==> s@[k] != '\n',
        decreases j,
    {
        j -= 1;
    }
    j
}

/// End of the line holding position `i`.
pub fn find_line_end(s: &Vec<char>, i: usize) -> (r: usize)
    requires
        i <= s.len(),
    ensures
        r == line_end_at(s@, i as int),
        i <= r <= s.len(),
        forall|k: int| i <= k < r ==> s@[k] != '\n',
        r == s.len() || s@[r as int] == '\n',
{
    let mut j = i;
    while j < s.len() && s[j] != '\n'
        invariant
            i <= j <= s.len(),
            line_end_at(s@, i as int) == line_end_at(s@, j as int),
            forall|k: int| i <= k < j ==> s@[k] != '\n',
        decreases s.len() - j,
    {
        j += 1;
    }
    j
}

} // verus!
