use synapse::preferences::AppLanguage;
use synapse::slash_menu::{
    all_slash_commands, filtered_slash_commands, slash_command_keywords, slash_command_label,
    SlashCommand, SlashMenuState,
};

#[test]
fn slash_menu_filters_localized_labels_and_reference_keywords() {
    assert_eq!(
        filtered_slash_commands("一级", AppLanguage::SimplifiedChinese, true),
        vec![SlashCommand::Heading1]
    );
    assert_eq!(
        filtered_slash_commands("ordered", AppLanguage::English, true),
        vec![SlashCommand::BulletList, SlashCommand::OrderedList]
    );
    assert!(!filtered_slash_commands("", AppLanguage::English, false)
        .contains(&SlashCommand::NoteLink));
}

#[test]
fn empty_query_lists_every_command_in_menu_order() {
    let all = filtered_slash_commands("  ", AppLanguage::English, true);
    assert_eq!(all, all_slash_commands().to_vec());
    assert_eq!(all.len(), 12);
    assert_eq!(
        filtered_slash_commands("", AppLanguage::English, false).len(),
        11
    );
}

#[test]
fn queries_match_labels_case_insensitively() {
    assert_eq!(
        filtered_slash_commands(" CODE ", AppLanguage::English, true),
        vec![SlashCommand::CodeBlock]
    );
    assert_eq!(
        filtered_slash_commands("Link", AppLanguage::English, false),
        Vec::<SlashCommand>::new()
    );
    assert_eq!(
        filtered_slash_commands("link", AppLanguage::English, true),
        vec![SlashCommand::NoteLink]
    );
    assert_eq!(slash_command_label(AppLanguage::SimplifiedChinese, SlashCommand::Table), "表格");
    assert_eq!(slash_command_label(AppLanguage::English, SlashCommand::OrderedList), "Numbered list");
    assert_eq!(slash_command_keywords(SlashCommand::Quote), "quote blockquote 引用");
}

fn menu(query: &str, start: usize, selected: usize) -> SlashMenuState {
    SlashMenuState {
        query: query.to_owned(),
        range: start..start + 1 + query.chars().count(),
        selected,
    }
}

#[test]
fn refreshing_the_slash_menu_keeps_the_highlight_only_for_the_same_trigger() {
    let fresh = SlashMenuState::refreshed(None, String::new(), 3..4, AppLanguage::English, true);
    assert_eq!(fresh.selected, 0);
    assert_eq!(fresh.range, 3..4);

    let previous = menu("", 3, 5);
    let kept =
        SlashMenuState::refreshed(Some(&previous), String::new(), 3..4, AppLanguage::English, true);
    assert_eq!(kept.selected, 5);

    let moved =
        SlashMenuState::refreshed(Some(&previous), String::new(), 7..8, AppLanguage::English, true);
    assert_eq!(moved.selected, 0);

    let typed =
        SlashMenuState::refreshed(Some(&previous), "t".to_owned(), 3..5, AppLanguage::English, true);
    assert_eq!(typed.selected, 0);

    let far = menu("", 3, 40);
    let all = filtered_slash_commands("", AppLanguage::English, false).len();
    let clamped =
        SlashMenuState::refreshed(Some(&far), String::new(), 3..4, AppLanguage::English, false);
    assert_eq!(clamped.selected, all - 1);

    let nothing = menu("zzzz", 3, 2);
    let empty =
        SlashMenuState::refreshed(Some(&nothing), "zzzz".to_owned(), 3..8, AppLanguage::English, true);
    assert_eq!(empty.selected, 0);
}

#[test]
fn moving_the_slash_highlight_wraps_around() {
    let count = filtered_slash_commands("", AppLanguage::English, true).len();
    let mut state = menu("", 0, 0);
    state.move_selection(-1, AppLanguage::English, true);
    assert_eq!(state.selected, count - 1);
    state.move_selection(1, AppLanguage::English, true);
    assert_eq!(state.selected, 0);
    state.move_selection(1, AppLanguage::English, true);
    assert_eq!(state.selected, 1);

    let mut nothing = menu("zzzz", 0, 2);
    nothing.move_selection(1, AppLanguage::English, true);
    assert_eq!(nothing.selected, 2);
}
