//! The persisted preferences: theme, interface language, the todo auto-clear switch,
//! and the choice of the Vault opened at startup.

use vstd::prelude::*;

use crate::text::{ascii_lower_seq, chars_equal, chars_of, count_lead_ws, count_trail_ws, lemma_lead_ws_bounds, string_of, to_ascii_lowercase, trim, trim_start};

verus! {

/// The colour theme the user picked.
#[derive(Clone, Copy, Debug, Default, Eq, PartialEq)]
pub enum ThemePreference {
    #[default]
    System,
    Light,
    Dark,
}

/// The interface language.
#[derive(Clone, Copy, Debug, Default, Eq, PartialEq)]
pub enum AppLanguage {
    #[default]
    SimplifiedChinese,
    English,
}

/// The trimmed, ASCII-lowercased form of a stored preference value.
pub open spec fn normalized(value: Seq<char>) -> Seq<char> {
    ascii_lower_seq(trim(value))
}

/// The trimmed, ASCII-lowercased characters of `value`.
pub fn normalize(value: &str) -> (out: Vec<char>)
    ensures
        out@ == normalized(value@),
{
    let s = chars_of(value);
    let len = s.len();
    let lead = count_lead_ws(&s, 0, len);
    let trail = count_trail_ws(&s, lead, len);
    proof {
        assert(s@.subrange(0, len as int) =~= s@);
        assert(trim_start(s@) =~= s@.subrange(lead as int, len as int));
        assert(trim(s@) =~= s@.subrange(lead as int, (len - trail) as int));
    }
    let trimmed = crate::text::slice_chars(&s, lead, len - trail);
    to_ascii_lowercase(&trimmed)
}

/// Whether the characters of `a` spell the literal `b`.
fn is_word(a: &Vec<char>, b: &str) -> (r: bool)
    ensures
        r == (a@ == b@),
{
    chars_equal(a, &chars_of(b))
}

impl ThemePreference {
    /// Every theme, in the order of the settings control.
    pub fn all() -> (all: [ThemePreference; 3])
        ensures
            all@ == seq![ThemePreference::System, ThemePreference::Light, ThemePreference::Dark],
    {
        let all = [ThemePreference::System, ThemePreference::Light, ThemePreference::Dark];
        assert(all@ =~= seq![ThemePreference::System, ThemePreference::Light, ThemePreference::Dark]);
        all
    }

    /// Reads a stored theme: `system`, `light` or `dark`, in any ASCII case, with
    /// surrounding whitespace.
    pub fn parse(value: &str) -> (theme: Option<ThemePreference>)
        ensures
            theme == theme_of(value@),
    {
        let v = normalize(value);
        if is_word(&v, "system") {
            Some(ThemePreference::System)
        } else if is_word(&v, "light") {
            Some(ThemePreference::Light)
        } else if is_word(&v, "dark") {
            Some(ThemePreference::Dark)
        } else {
            None
        }
    }

    /// The stored name of the theme.
    pub fn as_str(self) -> (s: &'static str)
        ensures
            s@ == theme_name(self),
    {
        match self {
            ThemePreference::System => "system",
            ThemePreference::Light => "light",
            ThemePreference::Dark => "dark",
        }
    }

    /// The theme's name in the settings, in `language`.
    pub fn label(self, language: AppLanguage) -> (s: &'static str)
        ensures
            s@ == match self {
                ThemePreference::System => text_in(language, "系统"@, "System"@),
                ThemePreference::Light => text_in(language, "浅色"@, "Light"@),
                ThemePreference::Dark => text_in(language, "深色"@, "Dark"@),
            },
    {
        match self {
            ThemePreference::System => language.text("系统", "System"),
            ThemePreference::Light => language.text("浅色", "Light"),
            ThemePreference::Dark => language.text("深色", "Dark"),
        }
    }
}

/// The text in `language` out of its Simplified Chinese and English forms.
pub open spec fn text_in(language: AppLanguage, simplified_chinese: Seq<char>, english: Seq<char>) -> Seq<char> {
    match language {
        AppLanguage::SimplifiedChinese => simplified_chinese,
        AppLanguage::English => english,
    }
}

impl AppLanguage {
    /// Every language, in the order of the settings control.
    pub fn all() -> (all: [AppLanguage; 2])
        ensures
            all@ == seq![AppLanguage::SimplifiedChinese, AppLanguage::English],
    {
        let all = [AppLanguage::SimplifiedChinese, AppLanguage::English];
        assert(all@ =~= seq![AppLanguage::SimplifiedChinese, AppLanguage::English]);
        all
    }

    /// Reads a stored locale code: `zh-CN`, `zh_CN` or `zh` for Simplified Chinese;
    /// `en`, `en-US` or `en_US` for English; in any ASCII case, with surrounding
    /// whitespace.
    pub fn parse(value: &str) -> (language: Option<AppLanguage>)
        ensures
            language == language_of(value@),
    {
        let v = normalize(value);
        if is_word(&v, "zh-cn") || is_word(&v, "zh_cn") || is_word(&v, "zh") {
            Some(AppLanguage::SimplifiedChinese)
        } else if is_word(&v, "en") || is_word(&v, "en-us") || is_word(&v, "en_us") {
            Some(AppLanguage::English)
        } else {
            None
        }
    }

    /// The stored locale code of the language.
    pub fn as_str(self) -> (s: &'static str)
        ensures
            s@ == language_code(self),
    {
        match self {
            AppLanguage::SimplifiedChinese => "zh-CN",
            AppLanguage::English => "en",
        }
    }

    /// The form of a text in this language.
    pub fn text(self, simplified_chinese: &'static str, english: &'static str) -> (s: &'static str)
        ensures
            s@ == text_in(self, simplified_chinese@, english@),
    {
        match self {
            AppLanguage::SimplifiedChinese => simplified_chinese,
            AppLanguage::English => english,
        }
    }

    /// The language's own name.
    pub fn label(self) -> (s: &'static str)
        ensures
            s@ == match self {
                AppLanguage::SimplifiedChinese => "简体中文"@,
                AppLanguage::English => "English"@,
            },
    {
        match self {
            AppLanguage::SimplifiedChinese => "简体中文",
            AppLanguage::English => "English",
        }
    }
}

/// Reads a stored switch: `true`, `1`, `on` or `false`, `0`, `off`, in any ASCII case,
/// with surrounding whitespace.
pub fn parse_boolean_preference(value: &str) -> (b: Option<bool>)
    ensures
        b == (if normalized(value@) == "true"@ || normalized(value@) == "1"@ || normalized(value@)
            == "on"@ {
            Some(true)
        } else if normalized(value@) == "false"@ || normalized(value@) == "0"@ || normalized(
            value@,
        ) == "off"@ {
            Some(false)
        } else {
            None
        }),
{
    let v = normalize(value);
    if is_word(&v, "true") || is_word(&v, "1") || is_word(&v, "on") {
        Some(true)
    } else if is_word(&v, "false") || is_word(&v, "0") || is_word(&v, "off") {
        Some(false)
    } else {
        None
    }
}

/// The Vault to open at startup, and whether it is the default one (which must then be
/// created and remembered): the command-line argument first, then the saved Vault when
/// it is still a directory, then the default.
pub fn select_startup_vault_path(
    argument: Option<String>,
    saved: Option<String>,
    saved_is_dir: bool,
    default: String,
) -> (choice: (String, bool))
    ensures
        choice == match argument {
            Some(a) => (a, false),
            None => match saved {
                Some(s) => if saved_is_dir {
                    (s, false)
                } else {
                    (default, true)
                },
                None => (default, true),
            },
        },
{
    if let Some(argument) = argument {
        return (argument, false);
    }
    if let Some(saved) = saved {
        if saved_is_dir {
            return (saved, false);
        }
    }
    (default, true)
}


/// The theme a stored value names: `system`, `light` or `dark`, in any ASCII case,
/// with surrounding whitespace.
pub open spec fn theme_of(value: Seq<char>) -> Option<ThemePreference> {
    if normalized(value) == "system"@ {
        Some(ThemePreference::System)
    } else if normalized(value) == "light"@ {
        Some(ThemePreference::Light)
    } else if normalized(value) == "dark"@ {
        Some(ThemePreference::Dark)
    } else {
        None
    }
}

/// The stored name of a theme.
pub open spec fn theme_name(theme: ThemePreference) -> Seq<char> {
    match theme {
        ThemePreference::System => "system"@,
        ThemePreference::Light => "light"@,
        ThemePreference::Dark => "dark"@,
    }
}

/// The language a stored locale code names: `zh-CN`, `zh_CN` or `zh` for Simplified
/// Chinese; `en`, `en-US` or `en_US` for English; in any ASCII case, with surrounding
/// whitespace.
pub open spec fn language_of(value: Seq<char>) -> Option<AppLanguage> {
    if normalized(value) == "zh-cn"@ || normalized(value) == "zh_cn"@ || normalized(value) == "zh"@ {
        Some(AppLanguage::SimplifiedChinese)
    } else if normalized(value) == "en"@ || normalized(value) == "en-us"@ || normalized(value) == "en_us"@ {
        Some(AppLanguage::English)
    } else {
        None
    }
}

/// The stored locale code of a language.
pub open spec fn language_code(language: AppLanguage) -> Seq<char> {
    match language {
        AppLanguage::SimplifiedChinese => "zh-CN"@,
        AppLanguage::English => "en"@,
    }
}

/// A stored theme name reads back as the theme.
pub proof fn lemma_theme_name_round_trip(theme: ThemePreference)
    ensures
        theme_of(theme_name(theme)) == Some(theme),
{
    reveal_strlit("system");
    reveal_strlit("light");
    reveal_strlit("dark");
    let n = theme_name(theme);
    crate::text::lemma_trim_plain(n);
    assert(ascii_lower_seq(n) =~= n);
}

/// A stored locale code reads back as the language.
pub proof fn lemma_language_code_round_trip(language: AppLanguage)
    ensures
        language_of(language_code(language)) == Some(language),
{
    reveal_strlit("zh-CN");
    reveal_strlit("zh-cn");
    reveal_strlit("zh_cn");
    reveal_strlit("zh");
    reveal_strlit("en");
    let n = language_code(language);
    crate::text::lemma_trim_plain(n);
    match language {
        AppLanguage::SimplifiedChinese => {
            assert(ascii_lower_seq(n) =~= "zh-cn"@);
        },
        AppLanguage::English => {
            assert(ascii_lower_seq(n) =~= "en"@);
        },
    }
}


/// A stored single-line value (a dismissed version, a Vault path): the file's text
/// trimmed, or nothing when that is empty.
pub fn stored_value(contents: &str) -> (v: Option<String>)
    ensures
        match v {
            Some(x) => x@ == trim(contents@) && x@.len() > 0,
            None => trim(contents@).len() == 0,
        },
{
    let t = crate::text::trim_chars(contents);
    if t.len() == 0 {
        None
    } else {
        Some(string_of(&t))
    }
}

} // verus!
