use synapse::preferences::{
    parse_boolean_preference, select_startup_vault_path, stored_value, AppLanguage,
    ThemePreference,
};
use synapse::workbench::synapse_theme_palette;

#[test]
fn editor_theme_supports_system_light_and_dark_preferences() {
    assert_eq!(
        ThemePreference::parse("system"),
        Some(ThemePreference::System)
    );
    assert_eq!(
        ThemePreference::parse("LIGHT\n"),
        Some(ThemePreference::Light)
    );
    assert_eq!(ThemePreference::parse("dark"), Some(ThemePreference::Dark));
    assert_eq!(ThemePreference::parse("unknown"), None);

    let light = synapse_theme_palette(false);
    let dark = synapse_theme_palette(true);
    assert_eq!(light.panel, 0xf4f4f2);
    assert_eq!(light.background, 0xfbfbfa);
    assert_eq!(light.tab_inactive, 0xe9e9e6);
    assert_eq!(dark.panel, 0x151515);
    assert_eq!(dark.background, 0x1a1a1a);
    assert_eq!(dark.tab_inactive, 0x0f0f0f);
    assert_ne!(dark.background, dark.panel);
    assert_ne!(light.background, dark.background);
}

#[test]
fn startup_workspace_prefers_argument_then_valid_saved_path_then_default() {
    let argument = "/tmp/argument-workspace".to_owned();
    let saved = "/tmp/saved-workspace".to_owned();
    let fallback = "/tmp/synapse-default-workspace-test".to_owned();

    assert_eq!(
        select_startup_vault_path(
            Some(argument.clone()),
            Some(saved.clone()),
            true,
            fallback.clone(),
        ),
        (argument, false)
    );
    assert_eq!(
        select_startup_vault_path(None, Some(saved.clone()), true, fallback.clone()),
        (saved.clone(), false)
    );
    assert_eq!(
        select_startup_vault_path(
            None,
            Some(format!("{saved}/missing")),
            false,
            fallback.clone()
        ),
        (fallback, true)
    );
}

#[test]
fn app_language_parses_persisted_locale_codes_and_translates_settings_title() {
    assert_eq!(
        AppLanguage::parse("zh-CN\n"),
        Some(AppLanguage::SimplifiedChinese)
    );
    assert_eq!(AppLanguage::parse("en"), Some(AppLanguage::English));
    assert_eq!(AppLanguage::parse("fr"), None);
    assert_eq!(
        AppLanguage::SimplifiedChinese.text("Synapse 设置", "Synapse Settings"),
        "Synapse 设置"
    );
}

#[test]
fn todo_auto_clear_preference_parser_is_strict_and_backward_compatible() {
    assert_eq!(parse_boolean_preference("true\n"), Some(true));
    assert_eq!(parse_boolean_preference("1"), Some(true));
    assert_eq!(parse_boolean_preference("off"), Some(false));
    assert_eq!(parse_boolean_preference("enabled"), None);
}

#[test]
fn preference_names_round_trip_through_their_stored_form() {
    for theme in ThemePreference::all() {
        assert_eq!(ThemePreference::parse(theme.as_str()), Some(theme));
    }
    for language in AppLanguage::all() {
        assert_eq!(AppLanguage::parse(language.as_str()), Some(language));
    }
    assert_eq!(ThemePreference::default(), ThemePreference::System);
    assert_eq!(ThemePreference::Dark.label(AppLanguage::English), "Dark");
    assert_eq!(AppLanguage::English.label(), "English");
}

#[test]
fn stored_values_are_trimmed_and_never_empty() {
    assert_eq!(stored_value(" 0.2.0\n"), Some("0.2.0".to_owned()));
    assert_eq!(stored_value(" \n\t"), None);
    assert_eq!(
        stored_value("/Users/me/Vault\n"),
        Some("/Users/me/Vault".to_owned())
    );
}
