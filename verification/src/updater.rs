//! Release checking: version parsing and ordering, the GitHub release JSON fields the
//! updater reads, and the choice of the platform installer.

use vstd::prelude::*;

use crate::preferences::{text_in, AppLanguage};
use crate::text::{
    ascii_lower_seq, chars_equal, chars_of, contains_exec, contains_seq, count_lead_ws,
    count_trail_ws, decimal, decimal_of, ends_with, ends_with_exec, find_char, find_from,
    find_seq, index_of_char, lemma_lead_ws_bounds, lemma_trail_ws_bounds, occurs_at,
    parse_decimal, parse_unsigned, push_all, push_str, string_of, to_ascii_lowercase, trim,
    trim_start, lead_ws, trail_ws, is_ws,
};

verus! {

/// The version of this build.
pub const APP_VERSION: &'static str = "0.1.0";

/// The GitHub API endpoint of the latest published release.
pub const GITHUB_LATEST_RELEASE_URL: &'static str = "https://api.github.com/repos/08820048/Synapse/releases/latest";

/// A `major.minor.patch` release version.
#[derive(Clone, Copy, Debug, Eq, PartialEq, Ord, PartialOrd)]
pub struct AppVersion {
    pub major: u32,
    pub minor: u32,
    pub patch: u32,
}

/// The platform whose installer an update downloads.
#[derive(Clone, Copy, Debug, Eq, PartialEq)]
pub enum UpdatePlatform {
    Macos,
    Windows,
    Other,
}

/// A release newer than the running build.
#[derive(Clone, Debug, Eq, PartialEq)]
pub struct AvailableUpdate {
    pub version: String,
    pub release_url: String,
    pub download_url: String,
}

/// Where an update check stands.
#[derive(Clone, Debug, Default, Eq, PartialEq)]
pub enum UpdateCheckState {
    #[default]
    Idle,
    Checking,
    Available(AvailableUpdate),
    Current,
    Failed(String),
}

/// Who started an update check.
#[derive(Clone, Copy, Debug, Eq, PartialEq)]
pub enum UpdateCheckOrigin {
    Startup,
    Manual,
}

impl View for AvailableUpdate {
    type V = (Seq<char>, Seq<char>, Seq<char>);

    open spec fn view(&self) -> (Seq<char>, Seq<char>, Seq<char>) {
        (self.version@, self.release_url@, self.download_url@)
    }
}

/// Number of leading `'v'` or `'V'` characters.
pub open spec fn lead_v(s: Seq<char>) -> nat
    decreases s.len(),
{
    if s.len() > 0 && (s[0] == 'v' || s[0] == 'V') {
        1 + lead_v(s.drop_first())
    } else {
        0
    }
}

/// Position of the first `'-'` or `'+'`, or `s.len()`.
pub open spec fn index_of_sign(s: Seq<char>) -> nat
    decreases s.len(),
{
    if s.len() == 0 || s[0] == '-' || s[0] == '+' {
        0
    } else {
        1 + index_of_sign(s.drop_first())
    }
}

/// The numeric part of a version tag: trimmed, without a leading `v`/`V`, cut at the
/// first pre-release (`-`) or build (`+`) suffix.
pub open spec fn version_core(value: Seq<char>) -> Seq<char> {
    let t = trim(value);
    let u = t.skip(lead_v(t) as int);
    u.take(index_of_sign(u) as int)
}

/// The `major.minor.patch` numbers of a version tag: one to three dot-separated
/// unsigned numbers, the missing ones zero.
pub open spec fn parse_version(value: Seq<char>) -> Option<(u32, u32, u32)> {
    let core = version_core(value);
    let d0 = index_of_char(core, '.');
    let p0 = core.take(d0 as int);
    let r1 = core.skip(d0 + 1int);
    let d1 = index_of_char(r1, '.');
    let r2 = r1.skip(d1 + 1int);
    let d2 = index_of_char(r2, '.');
    let p1 = if d0 == core.len() { seq!['0'] } else { r1.take(d1 as int) };
    let p2 = if d0 == core.len() || d1 == r1.len() { seq!['0'] } else { r2.take(d2 as int) };
    let extra = d0 < core.len() && d1 < r1.len() && d2 < r2.len();
    match (parse_unsigned(p0, u32::MAX as int), parse_unsigned(p1, u32::MAX as int), parse_unsigned(p2, u32::MAX as int)) {
        (Some(a), Some(b), Some(c)) => if extra {
            None
        } else {
            Some((a as u32, b as u32, c as u32))
        },
        _ => None,
    }
}

/// The triple of a version.
pub open spec fn triple(v: AppVersion) -> (u32, u32, u32) {
    (v.major, v.minor, v.patch)
}

/// `a` is a later version than `b` (numbers compared major first).
pub open spec fn is_newer(a: (u32, u32, u32), b: (u32, u32, u32)) -> bool {
    ||| a.0 > b.0
    ||| (a.0 == b.0 && a.1 > b.1)
    ||| (a.0 == b.0 && a.1 == b.1 && a.2 > b.2)
}

/// `major.minor.patch` in decimal.
pub open spec fn version_string(v: (u32, u32, u32)) -> Seq<char> {
    decimal(v.0 as nat) + seq!['.'] + decimal(v.1 as nat) + seq!['.'] + decimal(v.2 as nat)
}

pub proof fn lemma_lead_v_step(s: Seq<char>, i: int)
    requires
        0 <= i < s.len(),
        s[i] == 'v' || s[i] == 'V',
    ensures
        lead_v(s.skip(i)) == 1 + lead_v(s.skip(i + 1)),
{
    assert(s.skip(i).drop_first() =~= s.skip(i + 1));
}

pub proof fn lemma_index_of_sign_step(s: Seq<char>, i: int)
    requires
        0 <= i < s.len(),
        s[i] != '-' && s[i] != '+',
    ensures
        index_of_sign(s.skip(i)) == 1 + index_of_sign(s.skip(i + 1)),
{
    assert(s.skip(i).drop_first() =~= s.skip(i + 1));
}

/// Bounds of the numeric part of a version tag within `s`.
fn version_core_bounds(s: &Vec<char>) -> (r: (usize, usize))
    ensures
        r.0 <= r.1 <= s.len(),
        s@.subrange(r.0 as int, r.1 as int) == version_core(s@),
{
    let len = s.len();
    let lead = count_lead_ws(s, 0, len);
    let trail = count_trail_ws(s, lead, len);
    let end = len - trail;
    let ghost t = trim(s@);
    proof {
        assert(s@.subrange(0, len as int) =~= s@);
        assert(trim_start(s@) =~= s@.subrange(lead as int, len as int));
        assert(t =~= s@.subrange(lead as int, end as int));
    }
    let mut start = lead;
    proof {
        assert(t.skip(0) =~= t);
    }
    while start < end && (s[start] == 'v' || s[start] == 'V')
        invariant
            lead <= start <= end <= len == s.len(),
            t == s@.subrange(lead as int, end as int),
            lead_v(t) == (start - lead) + lead_v(t.skip(start - lead)),
        decreases end - start,
    {
        proof {
            lemma_lead_v_step(t, start - lead);
        }
        start += 1;
    }
    let ghost u = t.skip(lead_v(t) as int);
    proof {
        assert(u =~= s@.subrange(start as int, end as int));
        assert(u.skip(0) =~= u);
    }
    let mut stop = start;
    while stop < end && s[stop] != '-' && s[stop] != '+'
        invariant
            start <= stop <= end <= s.len(),
            u == s@.subrange(start as int, end as int),
            index_of_sign(u) == (stop - start) + index_of_sign(u.skip(stop - start)),
        decreases end - stop,
    {
        proof {
            lemma_index_of_sign_step(u, stop - start);
        }
        stop += 1;
    }
    proof {
        assert(u.take(index_of_sign(u) as int) =~= s@.subrange(start as int, stop as int));
    }
    (start, stop)
}

impl AppVersion {
    /// Reads a version tag such as `v0.1.2`, `0.1.2` or `1.0`.
    pub fn parse(value: &str) -> (v: Option<AppVersion>)
        ensures
            match parse_version(value@) {
                Some(t) => v matches Some(x) && triple(x) == t,
                None => v is None,
            },
    {
        let s = chars_of(value);
        let (start, stop) = version_core_bounds(&s);
        let ghost core = s@.subrange(start as int, stop as int);
        let d0 = find_char(&s, start, stop, '.');
        proof {
            assert(core == version_core(value@));
            assert(core.take(d0 as int) =~= s@.subrange(start as int, start + d0));
        }
        let major = match parse_decimal(&s, start, start + d0, 0xffff_ffff) {
            Some(v) => {
                assert(parse_unsigned(core.take(d0 as int), u32::MAX as int) == Some(v as int));
                v as u32
            },
            None => return None,
        };
        if start + d0 == stop {
            proof {
                reveal_with_fuel(crate::text::digits_value, 2);
                assert(parse_unsigned(seq!['0'], u32::MAX as int) == Some(0int)) by {
                    assert(seq!['0'].drop_last() =~= Seq::<char>::empty());
                }
                assert(d0 == core.len());
                assert(parse_version(value@) == Some((major, 0u32, 0u32)));
            }
            return Some(AppVersion { major, minor: 0, patch: 0 });
        }
        let s1 = start + d0 + 1;
        let ghost r1 = core.skip(d0 + 1);
        proof {
            assert(r1 =~= s@.subrange(s1 as int, stop as int));
        }
        let d1 = find_char(&s, s1, stop, '.');
        proof {
            assert(r1.take(d1 as int) =~= s@.subrange(s1 as int, s1 + d1));
        }
        let minor = match parse_decimal(&s, s1, s1 + d1, 0xffff_ffff) {
            Some(v) => {
                assert(parse_unsigned(r1.take(d1 as int), u32::MAX as int) == Some(v as int));
                v as u32
            },
            None => return None,
        };
        if s1 + d1 == stop {
            proof {
                reveal_with_fuel(crate::text::digits_value, 2);
                assert(parse_unsigned(seq!['0'], u32::MAX as int) == Some(0int)) by {
                    assert(seq!['0'].drop_last() =~= Seq::<char>::empty());
                }
                assert(d1 == r1.len());
                assert(parse_version(value@) == Some((major, minor, 0u32)));
            }
            return Some(AppVersion { major, minor, patch: 0 });
        }
        let s2 = s1 + d1 + 1;
        let ghost r2 = r1.skip(d1 + 1);
        proof {
            assert(r2 =~= s@.subrange(s2 as int, stop as int));
        }
        let d2 = find_char(&s, s2, stop, '.');
        proof {
            assert(r2.take(d2 as int) =~= s@.subrange(s2 as int, s2 + d2));
        }
        let patch = match parse_decimal(&s, s2, s2 + d2, 0xffff_ffff) {
            Some(v) => {
                assert(parse_unsigned(r2.take(d2 as int), u32::MAX as int) == Some(v as int));
                v as u32
            },
            None => return None,
        };
        if s2 + d2 < stop {
            return None;
        }
        proof {
            assert(parse_version(value@) == Some((major, minor, patch)));
        }
        Some(AppVersion { major, minor, patch })
    }

    /// The version of this build.
    pub fn current() -> (v: Option<AppVersion>)
        ensures
            match parse_version(APP_VERSION@) {
                Some(t) => v matches Some(x) && triple(x) == t,
                None => v is None,
            },
    {
        Self::parse(APP_VERSION)
    }

    /// Whether `self` is a later version than `other`.
    pub fn is_newer_than(&self, other: &AppVersion) -> (b: bool)
        ensures
            b == is_newer(triple(*self), triple(*other)),
    {
        self.major > other.major || (self.major == other.major && self.minor > other.minor) || (
        self.major == other.major && self.minor == other.minor && self.patch > other.patch)
    }
}

/// The file-name suffix and name marker of the installer for `platform`.
pub open spec fn installer_fits(name: Seq<char>, platform: UpdatePlatform) -> bool {
    let lower = ascii_lower_seq(name);
    match platform {
        UpdatePlatform::Macos => ends_with(lower, ".dmg"@) && contains_seq(lower, "macos"@),
        UpdatePlatform::Windows => ends_with(lower, ".exe"@) && contains_seq(lower, "windows"@),
        UpdatePlatform::Other => false,
    }
}

/// The URL of the first asset whose name fits the platform's installer.
pub open spec fn first_installer(assets: Seq<(Seq<char>, Seq<char>)>, platform: UpdatePlatform) -> Option<Seq<char>>
    decreases assets.len(),
{
    if assets.len() == 0 {
        None
    } else if installer_fits(assets[0].0, platform) {
        Some(assets[0].1)
    } else {
        first_installer(assets.drop_first(), platform)
    }
}

/// The `(name, url)` pairs held by a list of assets.
pub open spec fn assets_view(assets: Seq<(String, String)>) -> Seq<(Seq<char>, Seq<char>)> {
    Seq::new(assets.len(), |i: int| (assets[i].0@, assets[i].1@))
}

/// The download URL of the platform's installer among the release assets: the first
/// whose lowercase name ends with `.dmg` and names `macos`, or ends with `.exe` and
/// names `windows`. `None` for other platforms.
pub fn preferred_download_url(assets: &Vec<(String, String)>, platform: UpdatePlatform) -> (url: Option<&str>)
    ensures
        match first_installer(assets_view(assets@), platform) {
            Some(u) => url matches Some(x) && x@ == u,
            None => url is None,
        },
{
    let (suffix, marker) = match platform {
        UpdatePlatform::Macos => (".dmg", "macos"),
        UpdatePlatform::Windows => (".exe", "windows"),
        UpdatePlatform::Other => {
            proof {
                lemma_no_installer_for_other(assets_view(assets@));
            }
            return None;
        },
    };
    let suffix = chars_of(suffix);
    let marker = chars_of(marker);
    let ghost all = assets_view(assets@);
    let mut i: usize = 0;
    proof {
        assert(all.skip(0) =~= all);
    }
    while i < assets.len()
        invariant
            i <= assets.len(),
            all == assets_view(assets@),
            platform != UpdatePlatform::Other,
            suffix@ == (if platform == UpdatePlatform::Macos { ".dmg"@ } else { ".exe"@ }),
            marker@ == (if platform == UpdatePlatform::Macos { "macos"@ } else { "windows"@ }),
            first_installer(all, platform) == first_installer(all.skip(i as int), platform),
        decreases assets.len() - i,
    {
        let name = chars_of(assets[i].0.as_str());
        let lower = to_ascii_lowercase(&name);
        let fits = ends_with_exec(&lower, &suffix) && contains_exec(&lower, &marker);
        proof {
            assert(all.skip(i as int)[0] == all[i as int]);
            assert(fits == installer_fits(all[i as int].0, platform));
        }
        if fits {
            return Some(assets[i].1.as_str());
        }
        proof {
            assert(all.skip(i as int).drop_first() =~= all.skip(i + 1));
        }
        i += 1;
    }
    proof {
        assert(all.skip(i as int).len() == 0);
    }
    None
}

pub proof fn lemma_no_installer_for_other(assets: Seq<(Seq<char>, Seq<char>)>)
    ensures
        first_installer(assets, UpdatePlatform::Other) is None,
    decreases assets.len(),
{
    if assets.len() > 0 {
        lemma_no_installer_for_other(assets.drop_first());
    }
}

/// Whether to prompt at startup for `latest`: not when its version is the one the user
/// dismissed.
pub fn should_prompt_for_update(latest: &AvailableUpdate, dismissed_version: Option<&str>) -> (b: bool)
    ensures
        b == match dismissed_version {
            Some(d) => d@ != latest.version@,
            None => true,
        },
{
    match dismissed_version {
        None => true,
        Some(dismissed) => !chars_equal(&chars_of(dismissed), &chars_of(latest.version.as_str())),
    }
}

/// `c` followed by the characters of `o`, if any.
pub open spec fn prepend(c: char, o: Option<Seq<char>>) -> Option<Seq<char>> {
    match o {
        Some(r) => Some(seq![c] + r),
        None => None,
    }
}

/// The character a JSON escape `\c` stands for, as the updater reads it: `n`, `r` and
/// `t` are control characters, any other character stands for itself.
pub open spec fn json_unescape(c: char) -> char {
    if c == 'n' {
        '\n'
    } else if c == 'r' {
        '\r'
    } else if c == 't' {
        '\t'
    } else {
        c
    }
}

/// The rest of a JSON string after its opening quote, up to the closing quote;
/// `escaped` when the previous character was an unconsumed backslash.
pub open spec fn json_string_body(s: Seq<char>, escaped: bool) -> Option<Seq<char>>
    decreases s.len(),
{
    if s.len() == 0 {
        None
    } else if escaped {
        prepend(json_unescape(s[0]), json_string_body(s.drop_first(), false))
    } else if s[0] == '\\' {
        json_string_body(s.drop_first(), true)
    } else if s[0] == '"' {
        Some(Seq::empty())
    } else {
        prepend(s[0], json_string_body(s.drop_first(), false))
    }
}

/// The JSON string literal that `s` starts with, decoded.
pub open spec fn json_string(s: Seq<char>) -> Option<Seq<char>> {
    if s.len() == 0 || s[0] != '"' {
        None
    } else {
        json_string_body(s.drop_first(), false)
    }
}

/// The string value of the first `"key"` in `source`: the JSON string after the next
/// colon and any whitespace.
#[verifier::opaque]
pub open spec fn json_field(source: Seq<char>, key: Seq<char>) -> Option<Seq<char>> {
    let needle = seq!['"'] + key + seq!['"'];
    match find_seq(source, needle) {
        None => None,
        Some(start) => {
            let after_key = source.skip(start + needle.len());
            let colon = index_of_char(after_key, ':');
            if colon == after_key.len() {
                None
            } else {
                json_string(trim_start(after_key.skip(colon + 1int)))
            }
        },
    }
}

/// `o` with `p` put in front of its characters.
pub open spec fn prefixed(p: Seq<char>, o: Option<Seq<char>>) -> Option<Seq<char>> {
    match o {
        Some(r) => Some(p + r),
        None => None,
    }
}

/// Decodes the JSON string literal at position `from` of `s`.
fn parse_json_string(s: &Vec<char>, from: usize) -> (r: Option<Vec<char>>)
    requires
        from <= s.len(),
    ensures
        match json_string(s@.skip(from as int)) {
            Some(v) => r matches Some(x) && x@ == v,
            None => r is None,
        },
{
    let ghost t = s@.skip(from as int);
    if from >= s.len() || s[from] != '"' {
        return None;
    }
    let mut out: Vec<char> = Vec::new();
    let mut escaped = false;
    let mut i = from + 1;
    proof {
        assert(t.drop_first() =~= s@.skip(i as int));
    }
    while i < s.len()
        invariant
            from < i <= s.len(),
            t == s@.skip(from as int),
            t.len() > 0 && t[0] == '"',
            json_string(t) == prefixed(out@, json_string_body(s@.skip(i as int), escaped)),
        decreases s.len() - i,
    {
        let c = s[i];
        let ghost rest = s@.skip(i as int);
        proof {
            assert(rest.drop_first() =~= s@.skip(i + 1));
            assert(rest[0] == c);
        }
        if escaped {
            let u = if c == 'n' {
                '\n'
            } else if c == 'r' {
                '\r'
            } else if c == 't' {
                '\t'
            } else {
                c
            };
            proof {
                assert(out@ + (seq![u] + Seq::<char>::empty()) =~= out@.push(u));
                assert forall|r: Seq<char>| out@ + (seq![u] + r) =~= out@.push(u) + r by {}
            }
            out.push(u);
            escaped = false;
        } else if c == '\\' {
            escaped = true;
        } else if c == '"' {
            assert(out@ + Seq::<char>::empty() =~= out@);
            return Some(out);
        } else {
            proof {
                assert forall|r: Seq<char>| out@ + (seq![c] + r) =~= out@.push(c) + r by {}
            }
            out.push(c);
        }
        i += 1;
    }
    None
}

/// The string value of `key` in the JSON text `s[from..]`.
fn json_field_from(s: &Vec<char>, from: usize, key: &str) -> (r: Option<Vec<char>>)
    requires
        from <= s.len(),
    ensures
        match json_field(s@.skip(from as int), key@) {
            Some(v) => r matches Some(x) && x@ == v,
            None => r is None,
        },
{
    let mut needle: Vec<char> = Vec::new();
    needle.push('"');
    push_str(&mut needle, key);
    needle.push('"');
    let ghost t = s@.skip(from as int);
    proof {
        reveal(json_field);
        assert(needle@ =~= seq!['"'] + key@ + seq!['"']);
    }
    let ghost sp_needle = seq!['"'] + key@ + seq!['"'];
    let start = match find_from(s, from, &needle) {
        Some(i) => i,
        None => {
            assert(find_seq(t, sp_needle) is None);
            return None;
        },
    };
    let after_key = start + needle.len();
    let ghost ak = t.skip((start - from) + sp_needle.len());
    proof {
        assert(find_seq(t, sp_needle) == Some(start - from));
        assert(ak =~= s@.skip(after_key as int));
    }
    let colon = find_char(s, after_key, s.len(), ':');
    proof {
        assert(s@.subrange(after_key as int, s.len() as int) =~= s@.skip(after_key as int));
        assert(index_of_char(ak, ':') == colon);
    }
    if after_key + colon == s.len() {
        assert(json_field(t, key@) is None);
        return None;
    }
    let value_start = after_key + colon + 1;
    let lead = count_lead_ws(s, value_start, s.len());
    proof {
        assert(ak.skip(colon + 1) =~= s@.subrange(value_start as int, s.len() as int));
        assert(trim_start(ak.skip(colon + 1)) =~= s@.skip(value_start + lead));
        assert(json_field(t, key@) == json_string(s@.skip(value_start + lead)));
    }
    parse_json_string(s, value_start + lead)
}

/// The string value of `key` in the JSON text `source`.
pub fn json_string_field(source: &str, key: &str) -> (r: Option<String>)
    ensures
        match json_field(source@, key@) {
            Some(v) => r matches Some(x) && x@ == v,
            None => r is None,
        },
{
    let s = chars_of(source);
    assert(s@.skip(0) =~= s@);
    match json_field_from(&s, 0, key) {
        Some(v) => Some(string_of(&v)),
        None => None,
    }
}

/// The `(name, browser_download_url)` pairs read from the `"name"` occurrences of the
/// asset array `a`, starting the search at `from`. After each `"name"` the URL is the
/// first `"browser_download_url"` that follows; a name without one is skipped, and the
/// first `"name"` without a string value ends the list.
#[verifier::opaque]
pub open spec fn assets_from(a: Seq<char>, from: int) -> Seq<(Seq<char>, Seq<char>)>
    decreases a.len() - from,
{
    if from < 0 || from > a.len() {
        Seq::empty()
    } else {
        match find_seq(a.skip(from), "\"name\""@) {
            None => Seq::empty(),
            Some(rel) => if rel < 0 || from + rel + 6 > a.len() {
                Seq::empty()
            } else {
                let slice = a.skip(from + rel);
                match json_field(slice, "name"@) {
                    None => Seq::empty(),
                    Some(name) => match json_field(slice, "browser_download_url"@) {
                        None => assets_from(a, from + rel + 6),
                        Some(url) => seq![(name, url)] + assets_from(a, from + rel + 6),
                    },
                }
            },
        }
    }
}

/// The release assets listed in the JSON text `source`: the pairs read from the array
/// that follows the first `"assets"` key.
pub open spec fn named_assets(source: Seq<char>) -> Seq<(Seq<char>, Seq<char>)> {
    match find_seq(source, "\"assets\""@) {
        None => Seq::empty(),
        Some(k) => {
            let after_key = source.skip(k + 8);
            let bracket = index_of_char(after_key, '[');
            if bracket == after_key.len() {
                Seq::empty()
            } else {
                assets_from(after_key.skip(bracket as int), 0)
            }
        },
    }
}

/// One step of `assets_from`: the `"name"` found at `pos`.
proof fn lemma_assets_step(a: Seq<char>, from: int, pos: int)
    requires
        0 <= from <= pos,
        from <= a.len(),
        find_seq(a.skip(from), "\"name\""@) == Some(pos - from),
        pos + 6 <= a.len(),
    ensures
        assets_from(a, from) == match json_field(a.skip(pos), "name"@) {
            None => Seq::empty(),
            Some(name) => match json_field(a.skip(pos), "browser_download_url"@) {
                None => assets_from(a, pos + 6),
                Some(url) => seq![(name, url)] + assets_from(a, pos + 6),
            },
        },
{
    reveal(assets_from);
    assert(a.skip(from + (pos - from)) == a.skip(pos));
}

/// Past the end of the array nothing more is read.
proof fn lemma_assets_past_end(a: Seq<char>, from: int)
    requires
        from > a.len(),
    ensures
        assets_from(a, from) == Seq::<(Seq<char>, Seq<char>)>::empty(),
{
    reveal(assets_from);
}

/// Without another `"name"` nothing more is read.
proof fn lemma_assets_no_name(a: Seq<char>, from: int)
    requires
        0 <= from <= a.len(),
        find_seq(a.skip(from), "\"name\""@) is None,
    ensures
        assets_from(a, from) == Seq::<(Seq<char>, Seq<char>)>::empty(),
{
    reveal(assets_from);
}

/// The asset pairs of the array `a`.
#[verifier::rlimit(40)]
fn assets_in(a: &Vec<char>) -> (out: Vec<(String, String)>)
    ensures
        assets_view(out@) == assets_from(a@, 0),
{
    let name_needle = chars_of("\"name\"");
    let mut out: Vec<(String, String)> = Vec::new();
    let mut search_from: usize = 0;
    proof {
        reveal_strlit("\"name\"");
        assert(name_needle@.len() == 6);
        assert(assets_view(out@) + assets_from(a@, 0) =~= assets_from(a@, 0));
    }
    while search_from <= a.len()
        invariant
            search_from <= a.len() + 1,
            name_needle@ == "\"name\""@,
            name_needle@.len() == 6,
            assets_from(a@, 0) == assets_view(out@) + assets_from(a@, search_from as int),
        decreases a.len() + 1 - search_from,
    {
        let pos = match find_from(a, search_from, &name_needle) {
            Some(p) => p,
            None => {
                proof {
                    lemma_assets_no_name(a@, search_from as int);
                }
                assert(assets_view(out@) + Seq::<(Seq<char>, Seq<char>)>::empty() =~= assets_view(out@));
                return out;
            },
        };
        proof {
            lemma_assets_step(a@, search_from as int, pos as int);
        }
        let name = match json_field_from(a, pos, "name") {
            Some(n) => n,
            None => {
                assert(assets_view(out@) + Seq::<(Seq<char>, Seq<char>)>::empty() =~= assets_view(out@));
                return out;
            },
        };
        let url = json_field_from(a, pos, "browser_download_url");
        let ghost before = out@;
        match url {
            Some(u) => {
                out.push((string_of(&name), string_of(&u)));
                proof {
                    assert(assets_view(out@) =~= assets_view(before) + seq![(name@, u@)]);
                    assert(assets_view(before) + (seq![(name@, u@)] + assets_from(a@, pos + 6))
                        =~= assets_view(out@) + assets_from(a@, pos + 6));
                }
            },
            None => {},
        }
        search_from = pos + 6;
    }
    proof {
        lemma_assets_past_end(a@, search_from as int);
        assert(assets_view(out@) + Seq::<(Seq<char>, Seq<char>)>::empty() =~= assets_view(out@));
    }
    out
}

/// The release assets listed in the JSON text `source`.
pub fn json_named_assets(source: &str) -> (assets: Vec<(String, String)>)
    ensures
        assets_view(assets@) == named_assets(source@),
{
    let s = chars_of(source);
    let key = chars_of("\"assets\"");
    proof {
        reveal_strlit("\"assets\"");
        assert(s@.skip(0) =~= s@);
    }
    let k = match find_from(&s, 0, &key) {
        Some(k) => k,
        None => return Vec::new(),
    };
    let after_key = k + key.len();
    let bracket = find_char(&s, after_key, s.len(), '[');
    proof {
        assert(s@.subrange(after_key as int, s.len() as int) =~= s@.skip(k + 8));
    }
    if after_key + bracket == s.len() {
        return Vec::new();
    }
    let array = slice_to_end(&s, after_key + bracket);
    proof {
        assert(s@.skip(k + 8).skip(bracket as int) =~= array@);
    }
    assets_in(&array)
}

/// The characters `s[from..]`.
fn slice_to_end(s: &Vec<char>, from: usize) -> (out: Vec<char>)
    requires
        from <= s.len(),
    ensures
        out@ == s@.skip(from as int),
{
    let out = crate::text::slice_chars(s, from, s.len());
    assert(out@ =~= s@.skip(from as int));
    out
}

/// `index_of_sign` is the length of a string without `'-'` and `'+'`.
proof fn lemma_no_sign(s: Seq<char>)
    requires
        forall|j: int| 0 <= j < s.len() ==> s[j] != '-' && s[j] != '+',
    ensures
        index_of_sign(s) == s.len(),
    decreases s.len(),
{
    if s.len() > 0 {
        assert forall|j: int| 0 <= j < s.len() - 1 implies s.drop_first()[j] != '-' && s.drop_first()[j] != '+' by {
            assert(s.drop_first()[j] == s[j + 1]);
        }
        lemma_no_sign(s.drop_first());
    }
}

/// A decimal representation reads back as its number.
proof fn lemma_parse_decimal_string(n: u32)
    ensures
        parse_unsigned(decimal(n as nat), u32::MAX as int) == Some(n as int),
{
    crate::text::lemma_decimal_digits(n as nat);
}

/// Every version reads back from its `major.minor.patch` string.
pub proof fn lemma_version_string_round_trip(v: (u32, u32, u32))
    ensures
        parse_version(version_string(v)) == Some(v),
{
    let a = decimal(v.0 as nat);
    let b = decimal(v.1 as nat);
    let c = decimal(v.2 as nat);
    crate::text::lemma_decimal_digits(v.0 as nat);
    crate::text::lemma_decimal_digits(v.1 as nat);
    crate::text::lemma_decimal_digits(v.2 as nat);
    lemma_parse_decimal_string(v.0);
    lemma_parse_decimal_string(v.1);
    lemma_parse_decimal_string(v.2);
    let s = version_string(v);
    let dot = seq!['.'];
    assert(s =~= a + dot + b + dot + c);
    assert forall|j: int| 0 <= j < s.len() implies (crate::text::is_digit(#[trigger] s[j]) || s[j] == '.') by {
        if j < a.len() {
            assert(s[j] == a[j]);
        } else if j == a.len() {
        } else if j < a.len() + 1 + b.len() {
            assert(s[j] == b[j - a.len() - 1]);
        } else if j == a.len() + 1 + b.len() {
        } else {
            assert(s[j] == c[j - a.len() - 2 - b.len()]);
        }
    }
    // No whitespace around it, no `v` prefix, no suffix.
    assert(s[0] == a[0]);
    assert(crate::text::is_digit(s[0]));
    assert(lead_ws(s) == 0);
    assert(s.last() == c.last());
    assert(crate::text::is_digit(c[c.len() - 1]));
    assert(trail_ws(s.skip(0)) == 0) by {
        assert(s.skip(0) =~= s);
    }
    assert(trim(s) =~= s);
    assert(lead_v(s) == 0);
    assert(s.skip(0) =~= s);
    lemma_no_sign(s);
    assert(s.take(s.len() as int) =~= s);
    assert(version_core(s) == s);
    // The three parts.
    crate::text::lemma_index_of_char_at(s, '.', a.len() as int);
    assert(s.take(a.len() as int) =~= a);
    let r1 = s.skip(a.len() + 1int);
    assert(r1 =~= b + dot + c);
    crate::text::lemma_index_of_char_at(r1, '.', b.len() as int);
    assert(r1.take(b.len() as int) =~= b);
    let r2 = r1.skip(b.len() + 1int);
    assert(r2 =~= c);
    crate::text::lemma_index_of_char_at(r2, '.', c.len() as int);
    assert(r2.take(c.len() as int) =~= c);
}

/// A run of `v`/`V` before a character that is neither is all that `lead_v` counts.
proof fn lemma_lead_v_concat(p: Seq<char>, rest: Seq<char>)
    requires
        forall|i: int| 0 <= i < p.len() ==> p[i] == 'v' || p[i] == 'V',
        rest.len() == 0 || (rest[0] != 'v' && rest[0] != 'V'),
    ensures
        lead_v(p + rest) == p.len(),
    decreases p.len(),
{
    if p.len() == 0 {
        assert(p + rest =~= rest);
    } else {
        assert((p + rest).drop_first() =~= p.drop_first() + rest);
        assert((p + rest)[0] == p[0]);
        lemma_lead_v_concat(p.drop_first(), rest);
    }
}

/// A sign-free run before a suffix that starts with a sign ends at the suffix.
proof fn lemma_index_of_sign_concat(core: Seq<char>, suffix: Seq<char>)
    requires
        forall|j: int| 0 <= j < core.len() ==> core[j] != '-' && core[j] != '+',
        suffix.len() == 0 || suffix[0] == '-' || suffix[0] == '+',
    ensures
        index_of_sign(core + suffix) == core.len(),
    decreases core.len(),
{
    if core.len() == 0 {
        assert(core + suffix =~= suffix);
    } else {
        assert((core + suffix).drop_first() =~= core.drop_first() + suffix);
        assert((core + suffix)[0] == core[0]);
        lemma_index_of_sign_concat(core.drop_first(), suffix);
    }
}

/// Whitespace around a text that neither starts nor ends with whitespace is all that
/// trimming removes.
proof fn lemma_trim_around(before: Seq<char>, m: Seq<char>, after: Seq<char>)
    requires
        crate::text::all_ws(before),
        crate::text::all_ws(after),
        m.len() > 0,
        !is_ws(m[0]),
        !is_ws(m.last()),
    ensures
        trim(before + m + after) == m,
{
    let s = before + m + after;
    crate::text::lemma_lead_ws_bounds(s);
    let k = lead_ws(s);
    if k < before.len() {
        assert(is_ws(s[k as int]));
    }
    if k > before.len() {
        assert(s[before.len() as int] == m[0]);
    }
    assert(trim_start(s) =~= m + after);
    let t = m + after;
    crate::text::lemma_trail_ws_bounds(t);
    let r = trail_ws(t);
    if r < after.len() {
        assert(is_ws(t[t.len() - r - 1]));
    }
    if r > after.len() {
        assert(t[m.len() - 1] == m.last());
    }
    assert(trim(s) =~= m);
}

/// The version core of a tag with whitespace around it, a run of `v`/`V` before the
/// numbers, and an optional suffix starting with `-` or `+`, is the numbers.
proof fn lemma_formatted_version_core(
    before: Seq<char>,
    prefix: Seq<char>,
    numbers: Seq<char>,
    suffix: Seq<char>,
    after: Seq<char>,
)
    requires
        crate::text::all_ws(before),
        crate::text::all_ws(after),
        forall|i: int| 0 <= i < prefix.len() ==> prefix[i] == 'v' || prefix[i] == 'V',
        numbers.len() > 0,
        forall|j: int| 0 <= j < numbers.len() ==> crate::text::is_digit(#[trigger] numbers[j]) || numbers[j] == '.',
        crate::text::is_digit(numbers[0]),
        crate::text::is_digit(numbers.last()),
        suffix.len() == 0 || ((suffix[0] == '-' || suffix[0] == '+') && !is_ws(suffix.last())),
    ensures
        version_core(before + prefix + numbers + suffix + after) == numbers,
{
    let m = prefix + numbers + suffix;
    assert(before + prefix + numbers + suffix + after =~= before + m + after);
    if prefix.len() > 0 {
        assert(m[0] == prefix[0]);
    } else {
        assert(m[0] == numbers[0]);
    }
    if suffix.len() > 0 {
        assert(m.last() == suffix.last());
    } else {
        assert(m.last() == numbers.last());
    }
    lemma_trim_around(before, m, after);
    assert(m =~= prefix + (numbers + suffix));
    assert((numbers + suffix)[0] == numbers[0]);
    lemma_lead_v_concat(prefix, numbers + suffix);
    assert(m.skip(prefix.len() as int) =~= numbers + suffix);
    lemma_index_of_sign_concat(numbers, suffix);
    assert((numbers + suffix).take(numbers.len() as int) =~= numbers);
}

/// The characters of a version string are digits and dots, with a digit at each end.
proof fn lemma_version_string_chars(v: (u32, u32, u32))
    ensures
        version_string(v).len() > 0,
        forall|j: int| 0 <= j < version_string(v).len() ==> crate::text::is_digit(
            #[trigger] version_string(v)[j],
        ) || version_string(v)[j] == '.',
        crate::text::is_digit(version_string(v)[0]),
        crate::text::is_digit(version_string(v).last()),
{
    let a = decimal(v.0 as nat);
    let b = decimal(v.1 as nat);
    let c = decimal(v.2 as nat);
    crate::text::lemma_decimal_digits(v.0 as nat);
    crate::text::lemma_decimal_digits(v.1 as nat);
    crate::text::lemma_decimal_digits(v.2 as nat);
    let s = version_string(v);
    let dot = seq!['.'];
    assert(s =~= a + dot + b + dot + c);
    assert forall|j: int| 0 <= j < s.len() implies (crate::text::is_digit(#[trigger] s[j]) || s[j] == '.') by {
        if j < a.len() {
            assert(s[j] == a[j]);
        } else if j == a.len() {
        } else if j < a.len() + 1 + b.len() {
            assert(s[j] == b[j - a.len() - 1]);
        } else if j == a.len() + 1 + b.len() {
        } else {
            assert(s[j] == c[j - a.len() - 2 - b.len()]);
        }
    }
    assert(s[0] == a[0]);
    assert(s.last() == c.last());
}

/// A version written with whitespace around it, any run of `v` or `V` before it, and a
/// pre-release (`-...`) or build (`+...`) suffix, reads back as that version.
pub proof fn lemma_formatted_version_reads_back(
    v: (u32, u32, u32),
    before: Seq<char>,
    prefix: Seq<char>,
    suffix: Seq<char>,
    after: Seq<char>,
)
    requires
        crate::text::all_ws(before),
        crate::text::all_ws(after),
        forall|i: int| 0 <= i < prefix.len() ==> prefix[i] == 'v' || prefix[i] == 'V',
        suffix.len() == 0 || ((suffix[0] == '-' || suffix[0] == '+') && !is_ws(suffix.last())),
    ensures
        parse_version(before + prefix + version_string(v) + suffix + after) == Some(v),
{
    let n = version_string(v);
    lemma_version_string_chars(v);
    lemma_formatted_version_core(before, prefix, n, suffix, after);
    lemma_formatted_version_core(Seq::empty(), Seq::empty(), n, Seq::empty(), Seq::empty());
    assert(Seq::<char>::empty() + Seq::<char>::empty() + n + Seq::<char>::empty() + Seq::<char>::empty() =~= n);
    lemma_version_string_round_trip(v);
    assert(version_core(before + prefix + n + suffix + after) == version_core(n));
}

/// A version of two numbers reads back with a zero patch number.
#[verifier::rlimit(40)]
pub proof fn lemma_two_part_version_reads_back(major: u32, minor: u32)
    ensures
        parse_version(decimal(major as nat) + seq!['.'] + decimal(minor as nat)) == Some((major, minor, 0u32)),
{
    let a = decimal(major as nat);
    let b = decimal(minor as nat);
    let s = a + seq!['.'] + b;
    crate::text::lemma_decimal_digits(major as nat);
    crate::text::lemma_decimal_digits(minor as nat);
    lemma_parse_decimal_string(major);
    lemma_parse_decimal_string(minor);
    lemma_parse_decimal_string(0);
    assert(decimal(0) =~= seq!['0']);
    assert forall|j: int| 0 <= j < s.len() implies (crate::text::is_digit(#[trigger] s[j]) || s[j] == '.') by {
        if j < a.len() {
            assert(s[j] == a[j]);
        } else if j > a.len() {
            assert(s[j] == b[j - a.len() - 1]);
        }
    }
    assert(s[0] == a[0]);
    assert(s.last() == b.last());
    lemma_formatted_version_core(Seq::empty(), Seq::empty(), s, Seq::empty(), Seq::empty());
    assert(Seq::<char>::empty() + Seq::<char>::empty() + s + Seq::<char>::empty() + Seq::<char>::empty() =~= s);
    crate::text::lemma_index_of_char_at(s, '.', a.len() as int);
    assert(s.take(a.len() as int) =~= a);
    let r1 = s.skip(a.len() + 1int);
    assert(r1 =~= b);
    crate::text::lemma_index_of_char_at(r1, '.', b.len() as int);
    assert(r1.take(b.len() as int) =~= b);
}

/// A version with a fourth number is refused.
#[verifier::rlimit(40)]
pub proof fn lemma_four_part_version_refused(v: (u32, u32, u32), extra: u32)
    ensures
        parse_version(version_string(v) + seq!['.'] + decimal(extra as nat)) is None,
{
    let a = decimal(v.0 as nat);
    let b = decimal(v.1 as nat);
    let c = decimal(v.2 as nat);
    let d = decimal(extra as nat);
    crate::text::lemma_decimal_digits(v.0 as nat);
    crate::text::lemma_decimal_digits(v.1 as nat);
    crate::text::lemma_decimal_digits(v.2 as nat);
    crate::text::lemma_decimal_digits(extra as nat);
    let dot = seq!['.'];
    let s = version_string(v) + dot + d;
    assert(s =~= a + dot + b + dot + c + dot + d);
    assert forall|j: int| 0 <= j < s.len() implies (crate::text::is_digit(#[trigger] s[j]) || s[j] == '.') by {
        if j < a.len() {
            assert(s[j] == a[j]);
        } else if j == a.len() {
        } else if j < a.len() + 1 + b.len() {
            assert(s[j] == b[j - a.len() - 1]);
        } else if j == a.len() + 1 + b.len() {
        } else if j < a.len() + 2 + b.len() + c.len() {
            assert(s[j] == c[j - a.len() - 2 - b.len()]);
        } else if j == a.len() + 2 + b.len() + c.len() {
        } else {
            assert(s[j] == d[j - a.len() - 3 - b.len() - c.len()]);
        }
    }
    assert(s[0] == a[0]);
    assert(s.last() == d.last());
    lemma_formatted_version_core(Seq::empty(), Seq::empty(), s, Seq::empty(), Seq::empty());
    assert(Seq::<char>::empty() + Seq::<char>::empty() + s + Seq::<char>::empty() + Seq::<char>::empty() =~= s);
    crate::text::lemma_index_of_char_at(s, '.', a.len() as int);
    let r1 = s.skip(a.len() + 1int);
    assert(r1 =~= b + dot + c + dot + d);
    crate::text::lemma_index_of_char_at(r1, '.', b.len() as int);
    let r2 = r1.skip(b.len() + 1int);
    assert(r2 =~= c + dot + d);
    crate::text::lemma_index_of_char_at(r2, '.', c.len() as int);
}

/// Newer means later in the order of (major, minor, patch): the first number that
/// differs decides. In particular a release that differs only in its patch number is
/// newer exactly when that number is larger, and the order is strict and total.
pub proof fn lemma_newer_is_version_order(a: (u32, u32, u32), b: (u32, u32, u32))
    ensures
        is_newer(a, b) <==> if a.0 != b.0 {
            a.0 > b.0
        } else if a.1 != b.1 {
            a.1 > b.1
        } else {
            a.2 > b.2
        },
        a.0 == b.0 && a.1 == b.1 ==> (is_newer(a, b) <==> a.2 > b.2),
        !is_newer(a, a),
        is_newer(a, b) ==> !is_newer(b, a),
        a != b ==> is_newer(a, b) || is_newer(b, a),
{
}

/// Newer is transitive.
pub proof fn lemma_newer_transitive(a: (u32, u32, u32), b: (u32, u32, u32), c: (u32, u32, u32))
    requires
        is_newer(a, b),
        is_newer(b, c),
    ensures
        is_newer(a, c),
{
}

/// A release whose version reads back is offered exactly when it is later than the
/// running version in the order of (major, minor, patch).
pub proof fn lemma_classify_offers_later_releases(latest: (u32, u32, u32), current: (u32, u32, u32))
    ensures
        is_newer(latest, current) <==> (latest.0 > current.0 || (latest.0 == current.0 && (latest.1
            > current.1 || (latest.1 == current.1 && latest.2 > current.2)))),
{
}

/// What the updater reads from the latest-release JSON `body`: the release version in
/// `major.minor.patch` form, the release page, and the installer URL (the release page
/// when no asset fits the platform); or why the body is unusable.
pub open spec fn latest_release(body: Seq<char>, platform: UpdatePlatform) -> Result<(Seq<char>, Seq<char>, Seq<char>), Seq<char>> {
    match json_field(body, "tag_name"@) {
        None => Err("missing tag_name"@),
        Some(tag) => match parse_version(tag) {
            None => Err("invalid tag "@ + tag),
            Some(v) => {
                let release_url = match json_field(body, "html_url"@) {
                    Some(u) => u,
                    None => "https://github.com/08820048/Synapse/releases/tag/"@ + tag,
                };
                let download_url = match first_installer(named_assets(body), platform) {
                    Some(u) => u,
                    None => release_url,
                };
                Ok((version_string(v), release_url, download_url))
            },
        },
    }
}

/// The `major.minor.patch` string of a version.
fn version_text(v: &AppVersion) -> (s: String)
    ensures
        s@ == version_string(triple(*v)),
{
    let mut out = decimal_of(v.major as u64);
    out.push('.');
    let minor = decimal_of(v.minor as u64);
    push_all(&mut out, &minor);
    out.push('.');
    let patch = decimal_of(v.patch as u64);
    push_all(&mut out, &patch);
    string_of(&out)
}

/// Reads the latest-release JSON `body` of the GitHub API.
pub fn parse_latest_release(body: &str, platform: UpdatePlatform) -> (r: Result<AvailableUpdate, String>)
    ensures
        match latest_release(body@, platform) {
            Ok(u) => r matches Ok(x) && x@ == u,
            Err(e) => r matches Err(x) && x@ == e,
        },
{
    let tag = match json_string_field(body, "tag_name") {
        Some(tag) => tag,
        None => return Err("missing tag_name".to_owned()),
    };
    let version = match AppVersion::parse(tag.as_str()) {
        Some(v) => v,
        None => {
            let mut message: Vec<char> = Vec::new();
            push_str(&mut message, "invalid tag ");
            push_str(&mut message, tag.as_str());
            return Err(string_of(&message));
        },
    };
    let release_url = match json_string_field(body, "html_url") {
        Some(url) => url,
        None => {
            let mut url: Vec<char> = Vec::new();
            push_str(&mut url, "https://github.com/08820048/Synapse/releases/tag/");
            push_str(&mut url, tag.as_str());
            string_of(&url)
        },
    };
    let assets = json_named_assets(body);
    let download_url = match preferred_download_url(&assets, platform) {
        Some(url) => url.to_owned(),
        None => release_url.clone(),
    };
    Ok(AvailableUpdate { version: version_text(&version), release_url, download_url })
}

/// What the answer to the latest-release request gives: a missing release for 404,
/// `HTTP <status>` for any other status outside 200..=299, else the release read from
/// `body`.
pub open spec fn release_response(status: u16, body: Seq<char>, platform: UpdatePlatform) -> Result<
    (Seq<char>, Seq<char>, Seq<char>),
    Seq<char>,
> {
    if status == 404 {
        Err("no published release"@)
    } else if !(200 <= status < 300) {
        Err("HTTP "@ + decimal(status as nat))
    } else {
        latest_release(body, platform)
    }
}

/// Reads the answer to the latest-release request: its HTTP `status` and `body`.
pub fn release_from_response(status: u16, body: &str, platform: UpdatePlatform) -> (r: Result<
    AvailableUpdate,
    String,
>)
    ensures
        match release_response(status, body@, platform) {
            Ok(u) => r matches Ok(x) && x@ == u,
            Err(e) => r matches Err(x) && x@ == e,
        },
{
    if status == 404 {
        let message = "no published release";
        proof {
            reveal_strlit("no published release");
        }
        return Err(string_of(&chars_of(message)));
    }
    if !(200 <= status && status < 300) {
        let mut message: Vec<char> = Vec::new();
        push_str(&mut message, "HTTP ");
        let digits = decimal_of(status as u64);
        push_all(&mut message, &digits);
        proof {
            reveal_strlit("HTTP ");
        }
        return Err(string_of(&message));
    }
    parse_latest_release(body, platform)
}

/// The texts of the dialog that offers a newer release: title, message, and the labels
/// of its two buttons.
pub open spec fn update_prompt_texts(language: AppLanguage, version: Seq<char>) -> (Seq<char>, Seq<char>, Seq<char>, Seq<char>) {
    (
        text_in(language, "发现新版本"@, "Update available"@),
        text_in(
            language,
            "Synapse "@ + version + " 已发布，当前版本是 "@ + APP_VERSION@
                + "。下载后安装即可完成更新。"@,
            "Synapse "@ + version + " is available. You're on "@ + APP_VERSION@ + "."@,
        ),
        text_in(language, "下载更新"@, "Download"@),
        text_in(language, "稍后"@, "Later"@),
    )
}

/// The dialog that offers the release `update`: its title, message, and the labels of
/// the download and later buttons, in `language`.
pub fn update_prompt(update: &AvailableUpdate, language: AppLanguage) -> (texts: (String, String, String, String))
    ensures
        (texts.0@, texts.1@, texts.2@, texts.3@) == update_prompt_texts(language, update.version@),
{
    let mut message: Vec<char> = Vec::new();
    push_str(&mut message, "Synapse ");
    push_str(&mut message, update.version.as_str());
    push_str(&mut message, language.text(" 已发布，当前版本是 ", " is available. You're on "));
    push_str(&mut message, APP_VERSION);
    push_str(&mut message, language.text("。下载后安装即可完成更新。", "."));
    let title = string_of(&chars_of(language.text("发现新版本", "Update available")));
    let download = string_of(&chars_of(language.text("下载更新", "Download")));
    let later = string_of(&chars_of(language.text("稍后", "Later")));
    proof {
        let v = update.version@;
        match language {
            AppLanguage::SimplifiedChinese => {
                assert(message@ =~= "Synapse "@ + v + " 已发布，当前版本是 "@ + APP_VERSION@
                    + "。下载后安装即可完成更新。"@);
            },
            AppLanguage::English => {
                assert(message@ =~= "Synapse "@ + v + " is available. You're on "@ + APP_VERSION@
                    + "."@);
            },
        }
    }
    (title, string_of(&message), download, later)
}

/// Keeps `latest` when it is newer than the running `current` version; otherwise says
/// the build is current, or that the latest version is unreadable.
pub fn classify_release(latest: AvailableUpdate, current: AppVersion) -> (r: Result<AvailableUpdate, UpdateCheckState>)
    ensures
        match parse_version(latest.version@) {
            None => r matches Err(UpdateCheckState::Failed(m)) && m@ == "invalid latest version"@,
            Some(v) => if is_newer(v, triple(current)) {
                r == Ok::<AvailableUpdate, UpdateCheckState>(latest)
            } else {
                r == Err::<AvailableUpdate, UpdateCheckState>(UpdateCheckState::Current)
            },
        },
{
    let latest_version = match AppVersion::parse(latest.version.as_str()) {
        Some(v) => v,
        None => return Err(UpdateCheckState::Failed("invalid latest version".to_owned())),
    };
    if latest_version.is_newer_than(&current) {
        Ok(latest)
    } else {
        Err(UpdateCheckState::Current)
    }
}

/// A release read from the API always carries a version string that reads back as the
/// release's tag version, so classifying it never fails.
pub proof fn lemma_parsed_release_version_reads_back(body: Seq<char>, platform: UpdatePlatform)
    requires
        latest_release(body, platform) is Ok,
    ensures
        latest_release(body, platform) matches Ok(release) && parse_version(release.0) == parse_version(
            json_field(body, "tag_name"@).unwrap(),
        ),
{
    let tag = json_field(body, "tag_name"@).unwrap();
    let v = parse_version(tag).unwrap();
    lemma_version_string_round_trip(v);
}


impl AvailableUpdate {
    /// A copy of the release.
    pub fn duplicate(&self) -> (c: AvailableUpdate)
        ensures
            c@ == self@,
    {
        AvailableUpdate {
            version: self.version.clone(),
            release_url: self.release_url.clone(),
            download_url: self.download_url.clone(),
        }
    }
}

/// What the shell shows once an update check has answered.
#[derive(Debug, Eq, PartialEq)]
pub enum UpdateNotice {
    /// Nothing beyond the new state.
    Silent,
    /// Offer the release.
    Prompt(AvailableUpdate),
    /// Say that the installation is the latest one.
    UpToDate,
    /// Say that the check failed, and why.
    CheckFailed(String),
}

/// The state and notice after an update check: `(state, notice)`, each by kind and
/// text. State kinds: 2 available (the release), 3 current, 4 failed (the reason).
/// Notice kinds: 0 silent, 1 prompt (the release), 2 up to date, 3 failed (the reason).
pub open spec fn check_outcome(
    origin: UpdateCheckOrigin,
    result: Result<(Seq<char>, Seq<char>, Seq<char>), Seq<char>>,
    current: Option<(u32, u32, u32)>,
    dismissed_version: Option<Seq<char>>,
    language: AppLanguage,
) -> ((int, Seq<Seq<char>>), (int, Seq<Seq<char>>)) {
    let manual = origin == UpdateCheckOrigin::Manual;
    match current {
        None => ((4, seq![text_in(language, "无法读取当前版本"@, "Unable to read the current version"@)]), (0, seq![])),
        Some(cur) => match result {
            Err(e) => ((4, seq![e]), if manual {
                (3, seq![e])
            } else {
                (0, seq![])
            }),
            Ok(latest) => match parse_version(latest.0) {
                None => ((4, seq!["invalid latest version"@]), (0, seq![])),
                Some(v) => if is_newer(v, cur) {
                    let release = seq![latest.0, latest.1, latest.2];
                    ((2, release), if manual || dismissed_version != Some(latest.0) {
                        (1, release)
                    } else {
                        (0, seq![])
                    })
                } else {
                    ((3, seq![]), if manual {
                        (2, seq![])
                    } else {
                        (0, seq![])
                    })
                },
            },
        },
    }
}

/// A state by kind and text.
pub open spec fn state_view(s: UpdateCheckState) -> (int, Seq<Seq<char>>) {
    match s {
        UpdateCheckState::Idle => (0, seq![]),
        UpdateCheckState::Checking => (1, seq![]),
        UpdateCheckState::Available(u) => (2, seq![u.version@, u.release_url@, u.download_url@]),
        UpdateCheckState::Current => (3, seq![]),
        UpdateCheckState::Failed(m) => (4, seq![m@]),
    }
}

/// A notice by kind and text.
pub open spec fn notice_view(n: UpdateNotice) -> (int, Seq<Seq<char>>) {
    match n {
        UpdateNotice::Silent => (0, seq![]),
        UpdateNotice::Prompt(u) => (1, seq![u.version@, u.release_url@, u.download_url@]),
        UpdateNotice::UpToDate => (2, seq![]),
        UpdateNotice::CheckFailed(m) => (3, seq![m@]),
    }
}

/// The new state of the update check and what to show, once the release lookup has
/// answered: a manual check always reports its outcome, a startup check only offers
/// a newer release that was not dismissed.
pub fn update_check_outcome(
    origin: UpdateCheckOrigin,
    result: Result<AvailableUpdate, String>,
    current: Option<AppVersion>,
    dismissed_version: Option<&str>,
    language: AppLanguage,
) -> (r: (UpdateCheckState, UpdateNotice))
    ensures
        (state_view(r.0), notice_view(r.1)) == check_outcome(
            origin,
            match result {
                Ok(u) => Ok(u@),
                Err(e) => Err(e@),
            },
            match current {
                Some(c) => Some(triple(c)),
                None => None,
            },
            match dismissed_version {
                Some(d) => Some(d@),
                None => None,
            },
            language,
        ),
{
    let manual = match origin {
        UpdateCheckOrigin::Manual => true,
        UpdateCheckOrigin::Startup => false,
    };
    let current = match current {
        Some(c) => c,
        None => {
            let m = string_of(&chars_of(language.text("无法读取当前版本", "Unable to read the current version")));
            return (UpdateCheckState::Failed(m), UpdateNotice::Silent);
        },
    };
    match result {
        Err(e) => {
            let notice = if manual {
                UpdateNotice::CheckFailed(e.clone())
            } else {
                UpdateNotice::Silent
            };
            (UpdateCheckState::Failed(e), notice)
        },
        Ok(latest) => {
            let ghost l = latest@;
            match classify_release(latest, current) {
                Ok(latest) => {
                    let notice = if manual || should_prompt_for_update(&latest, dismissed_version) {
                        UpdateNotice::Prompt(latest.duplicate())
                    } else {
                        UpdateNotice::Silent
                    };
                    proof {
                        assert(latest@ == l);
                    }
                    (UpdateCheckState::Available(latest), notice)
                },
                Err(state) => {
                    let notice = match state {
                        UpdateCheckState::Current => if manual {
                            UpdateNotice::UpToDate
                        } else {
                            UpdateNotice::Silent
                        },
                        _ => UpdateNotice::Silent,
                    };
                    proof {
                        reveal_strlit("invalid latest version");
                    }
                    (state, notice)
                },
            }
        },
    }
}

} // verus!
