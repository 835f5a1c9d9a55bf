use synapse::preferences::AppLanguage;
use synapse::todo_workspace::{
    clear_completed_label, tag_color_rgb, AddTodoTagError, TodoItem, TodoTextError,
    TodoToggleOutcome, TodoWorkspace,
};

#[test]
fn tags_trim_validate_deduplicate_and_select_the_new_item() {
    let mut workspace = TodoWorkspace::default();
    assert_eq!(workspace.add_tag("  产品  "), Ok(1));
    assert_eq!(workspace.tags()[0].name(), "产品");
    assert_eq!(workspace.selected_tag_id(), Some(1));
    assert_eq!(workspace.add_tag("产品"), Err(AddTodoTagError::Duplicate));
    assert_eq!(workspace.add_tag("  "), Err(AddTodoTagError::Empty));
    assert_eq!(
        workspace.add_tag(&"长".repeat(49)),
        Err(AddTodoTagError::TooLong)
    );
}

#[test]
fn tags_round_trip_through_the_native_config_format() {
    let mut workspace = TodoWorkspace::default();
    workspace.add_tag("工作").unwrap();
    workspace.add_tag("生活").unwrap();
    let source = workspace.tags_text();

    let loaded = TodoWorkspace::load_tags_text(&source);
    assert_eq!(
        loaded
            .tags()
            .iter()
            .map(|tag| tag.name())
            .collect::<Vec<_>>(),
        ["工作", "生活"]
    );
    assert_eq!(loaded.selected_tag_id(), None);
}

#[test]
fn todos_trim_validate_attach_the_selected_tag_and_update_counts() {
    let mut workspace = TodoWorkspace::default();
    let work_tag = workspace.add_tag("工作").unwrap();
    assert_eq!(workspace.add_todo("  完成待办输入  "), Ok(1));
    assert_eq!(workspace.add_todo("  "), Err(TodoTextError::Empty));
    assert_eq!(
        workspace.add_todo(&"长".repeat(501)),
        Err(TodoTextError::TooLong)
    );
    assert_eq!(workspace.total_count(), 1);
    assert_eq!(workspace.tag_usage_count(work_tag), 1);
    assert_eq!(workspace.visible_todos()[0].text, "完成待办输入");
    assert_eq!(workspace.visible_todos()[0].tags, ["工作"]);
    assert!(workspace.toggle_todo(1));
    assert!(workspace.visible_todos()[0].done);
    assert!(!workspace.toggle_todo(99));
}

#[test]
fn sidebar_todos_keep_completed_items_visible_and_in_original_order() {
    let mut workspace = TodoWorkspace::default();
    let first_id = workspace.add_todo("第一项").unwrap();
    let second_id = workspace.add_todo("第二项").unwrap();
    assert!(workspace.toggle_todo(first_id));

    let sidebar_todos = workspace.sidebar_todos();
    assert_eq!(sidebar_todos.len(), 2);
    assert_eq!(sidebar_todos[0].id, second_id);
    assert!(!sidebar_todos[0].done);
    assert_eq!(sidebar_todos[1].id, first_id);
    assert!(sidebar_todos[1].done);
}

#[test]
fn auto_clear_removes_only_a_newly_completed_todo() {
    let mut workspace = TodoWorkspace::default();
    let todo_id = workspace.add_todo("完成后自动清理").unwrap();

    assert_eq!(
        workspace.toggle_todo_with_auto_clear(todo_id, true),
        TodoToggleOutcome::Removed
    );
    assert!(!workspace.contains_todo(todo_id));
}

#[test]
fn auto_clear_keeps_legacy_completed_todos_available_for_reopening() {
    let mut workspace = TodoWorkspace::default();
    let todo_id = workspace.add_todo("旧的已完成待办").unwrap();
    assert!(workspace.toggle_todo(todo_id));

    assert_eq!(
        workspace.toggle_todo_with_auto_clear(todo_id, true),
        TodoToggleOutcome::Updated
    );
    assert!(workspace.contains_todo(todo_id));
    assert!(!workspace.visible_todos()[0].done);
}

#[test]
fn todos_support_multiple_tag_assignment_filtering_removal_and_deletion() {
    let mut workspace = TodoWorkspace::default();
    let work_tag = workspace.add_tag("工作").unwrap();
    let urgent_tag = workspace.add_tag("紧急").unwrap();
    workspace.select_tag(Some(work_tag));
    workspace.add_todo("发布版本").unwrap();

    assert!(workspace.toggle_todo_tag(1, urgent_tag));
    assert_eq!(workspace.todos()[0].tags, ["工作", "紧急"]);
    assert_eq!(workspace.tag_usage_count(work_tag), 1);
    assert_eq!(workspace.tag_usage_count(urgent_tag), 1);
    workspace.select_tag(Some(urgent_tag));
    assert_eq!(workspace.visible_todos().len(), 1);
    assert!(workspace.remove_todo_tag(1, urgent_tag));
    assert!(workspace.visible_todos().is_empty());
    assert!(!workspace.remove_todo_tag(1, urgent_tag));
    assert!(workspace.delete_todo(1));
    assert_eq!(workspace.total_count(), 0);
    assert!(!workspace.delete_todo(1));
}

#[test]
fn clear_completed_removes_every_done_todo_and_keeps_open_items() {
    let mut workspace = TodoWorkspace::default();
    let work_tag = workspace.add_tag("工作").unwrap();
    let first_id = workspace.add_todo("第一项").unwrap();
    let second_id = workspace.add_todo("第二项").unwrap();
    let third_id = workspace.add_todo("第三项").unwrap();

    assert!(workspace.toggle_todo(first_id));
    assert!(workspace.toggle_todo(third_id));
    assert_eq!(workspace.completed_count(), 2);
    assert_eq!(workspace.clear_completed(), 2);
    assert_eq!(workspace.completed_count(), 0);
    assert_eq!(workspace.total_count(), 1);
    assert!(workspace.contains_todo(second_id));
    assert!(!workspace.contains_todo(first_id));
    assert!(!workspace.contains_todo(third_id));
    assert_eq!(workspace.tag_usage_count(work_tag), 1);
    assert_eq!(workspace.clear_completed(), 0);
}

#[test]
fn deleting_a_tag_removes_every_assignment_without_deleting_todos() {
    let mut workspace = TodoWorkspace::default();
    let tag_id = workspace.add_tag("工作").unwrap();
    workspace.add_todo("保留这条待办").unwrap();
    assert!(workspace.delete_tag(tag_id));
    assert!(workspace.tags().is_empty());
    assert_eq!(workspace.todos().len(), 1);
    assert!(workspace.todos()[0].tags.is_empty());
    assert_eq!(workspace.selected_tag_id(), None);
}

#[test]
fn todos_round_trip_text_completion_and_tag_in_native_format() {
    let mut workspace = TodoWorkspace::default();
    let product_tag = workspace.add_tag("产品").unwrap();
    workspace.add_todo("修复\\输入\t行为").unwrap();
    let urgent_tag = workspace.add_tag("紧急").unwrap();
    assert!(workspace.toggle_todo_tag(1, urgent_tag));
    workspace.toggle_todo(1);
    let source = workspace.todos_text();

    let mut loaded = TodoWorkspace::default();
    assert_eq!(loaded.add_tag("产品"), Ok(product_tag));
    loaded.add_tag("紧急").unwrap();
    loaded.select_tag(None);
    loaded.load_todos_text(&source);
    assert_eq!(loaded.total_count(), 1);
    assert_eq!(loaded.todos()[0].text, "修复\\输入\t行为");
    assert!(loaded.todos()[0].done);
    assert_eq!(loaded.todos()[0].tags, ["产品", "紧急"]);
    assert_eq!(loaded.add_todo("下一项"), Ok(2));
}

#[test]
fn legacy_single_tag_records_remain_readable_after_multi_tag_upgrade() {
    let mut workspace = TodoWorkspace::default();
    workspace.load_todos_text("7\t0\t旧标签\t旧待办\n");
    assert_eq!(workspace.todos()[0].tags, ["旧标签"]);
    assert_eq!(workspace.todos()[0].text, "旧待办");
    assert_eq!(workspace.add_todo("新待办"), Ok(8));
}

#[test]
fn todos_file_writes_one_tab_separated_line_per_todo() {
    let mut workspace = TodoWorkspace::default();
    workspace.add_tag("a\tb").unwrap();
    workspace.add_todo("line\nbreak").unwrap();
    workspace.select_tag(None);
    workspace.add_todo("plain").unwrap();
    assert_eq!(
        workspace.todos_text(),
        "2\t0\tv2:\tplain\n1\t0\tv2:4:a\\tb\tline\\nbreak\n"
    );
}

#[test]
fn todos_file_skips_unreadable_lines_and_reads_crlf() {
    let mut workspace = TodoWorkspace::default();
    workspace.add_todo("dropped").unwrap();
    let source = [
        "x\t0\tv2:\tbad id\n",
        "3\t2\tv2:\tbad flag\n",
        "4\t1\tv2:\t   \n",
        "5\t1\tv2:\tbad\\qescape\n",
        "6\t0\tv2:\n",
        "+9\t1\tv2:2:ab2:ab0:\tkept\ttabbed\r\n",
        "12\t0\t\tno tags\n",
    ]
    .concat();
    workspace.load_todos_text(&source);
    assert_eq!(workspace.total_count(), 2);
    assert_eq!(workspace.todos()[0].id, 9);
    assert!(workspace.todos()[0].done);
    assert_eq!(workspace.todos()[0].tags, ["ab"]);
    assert_eq!(workspace.todos()[0].text, "kept\ttabbed");
    assert_eq!(workspace.todos()[1].id, 12);
    assert!(workspace.todos()[1].tags.is_empty());
    assert_eq!(workspace.add_todo("next"), Ok(13));
}

#[test]
fn an_empty_todos_file_resets_the_next_identifier_to_one() {
    let mut workspace = TodoWorkspace::default();
    workspace.add_todo("a").unwrap();
    workspace.add_todo("b").unwrap();
    workspace.load_todos_text("");
    assert_eq!(workspace.total_count(), 0);
    assert_eq!(workspace.add_todo("c"), Ok(1));
}

#[test]
fn tags_file_lists_names_and_loading_applies_the_tag_rules() {
    let mut workspace = TodoWorkspace::default();
    assert_eq!(workspace.tags_text(), "");
    workspace.add_tag("one").unwrap();
    workspace.add_tag("two").unwrap();
    assert_eq!(workspace.tags_text(), "one\ntwo\n");

    let loaded = TodoWorkspace::load_tags_text("  a \r\n\nB\nb\nA\n");
    let names: Vec<&str> = loaded.tags().iter().map(|tag| tag.name()).collect();
    assert_eq!(names, ["a", "B"]);
    assert_eq!(loaded.tags()[1].id(), 2);
    assert_eq!(loaded.tags()[1].color_index, 1);
    assert_eq!(loaded.selected_tag_id(), None);
}

#[test]
fn update_todo_text_trims_validates_and_reports_changes() {
    let mut workspace = TodoWorkspace::default();
    let id = workspace.add_todo("first").unwrap();
    assert_eq!(workspace.update_todo_text(id, "  second "), Ok(true));
    assert_eq!(workspace.todo_text(id), Some("second".to_owned()));
    assert_eq!(workspace.update_todo_text(id, "second"), Ok(false));
    assert_eq!(workspace.update_todo_text(42, "other"), Ok(false));
    assert_eq!(workspace.update_todo_text(id, " \t"), Err(TodoTextError::Empty));
    assert_eq!(
        workspace.update_todo_text(id, &"x".repeat(501)),
        Err(TodoTextError::TooLong)
    );
    assert_eq!(workspace.todo_is_done(id), Some(false));
    assert_eq!(workspace.todo_is_done(42), None);
    assert_eq!(workspace.todo_text(42), None);
}

#[test]
fn tag_operations_on_missing_items_change_nothing() {
    let mut workspace = TodoWorkspace::default();
    let tag = workspace.add_tag("t").unwrap();
    let todo = workspace.add_todo("x").unwrap();
    assert!(!workspace.toggle_todo_tag(todo, 99));
    assert!(!workspace.toggle_todo_tag(99, tag));
    assert!(!workspace.remove_todo_tag(99, tag));
    assert!(!workspace.delete_tag(99));
    assert_eq!(workspace.tag_usage_count(99), 0);
    workspace.select_tag(Some(99));
    assert_eq!(workspace.selected_tag_id(), None);
    assert_eq!(workspace.visible_todos().len(), 1);
}

#[test]
fn error_messages_follow_the_language() {
    assert_eq!(
        TodoTextError::TooLong.message(AppLanguage::English),
        "Todo text cannot exceed 500 characters"
    );
    assert_eq!(
        TodoTextError::Empty.message(AppLanguage::SimplifiedChinese),
        "待办内容不能为空"
    );
    assert_eq!(
        AddTodoTagError::Duplicate.message(AppLanguage::English),
        "A tag with this name already exists"
    );
    assert_eq!(
        AddTodoTagError::TooLong.message(AppLanguage::SimplifiedChinese),
        "标签名称不能超过 48 个字符"
    );
}

#[test]
fn tag_colors_cycle_through_the_palette() {
    assert_eq!(tag_color_rgb(0), 0x2f8cff);
    assert_eq!(tag_color_rgb(5), 0x35b779);
    assert_eq!(tag_color_rgb(6), 0x2f8cff);
    assert_eq!(tag_color_rgb(9), 0x6c63e8);
}

#[test]
fn toggling_a_todo_twice_restores_it() {
    let mut workspace = TodoWorkspace::default();
    workspace.add_tag("t").unwrap();
    let id = workspace.add_todo("task").unwrap();
    workspace.add_todo("other").unwrap();
    let before = workspace.sidebar_todos();
    assert!(workspace.toggle_todo(id));
    assert_ne!(workspace.sidebar_todos(), before);
    assert!(workspace.toggle_todo(id));
    assert_eq!(workspace.sidebar_todos(), before);
}

#[test]
fn the_active_pill_follows_the_selected_tag() {
    let mut workspace = TodoWorkspace::default();
    assert_eq!(workspace.active_tag_pill_index(), 0);
    let first = workspace.add_tag("first").unwrap();
    let second = workspace.add_tag("second").unwrap();
    assert_eq!(workspace.active_tag_pill_index(), 2);
    workspace.select_tag(Some(first));
    assert_eq!(workspace.active_tag_pill_index(), 1);
    assert!(workspace.delete_tag(first));
    assert_eq!(workspace.active_tag_pill_index(), 0);
    workspace.select_tag(Some(second));
    assert_eq!(workspace.active_tag_pill_index(), 1);
}

#[test]
fn todo_rows_show_known_tags_in_the_todo_order() {
    let mut workspace = TodoWorkspace::default();
    let work = workspace.add_tag("work").unwrap();
    let home = workspace.add_tag("home").unwrap();
    let todo = TodoItem {
        id: 9,
        text: "x".to_owned(),
        done: false,
        tags: vec!["home".to_owned(), "gone".to_owned(), "work".to_owned()],
    };
    let shown = workspace.assigned_tags(&todo);
    assert_eq!(shown.len(), 2);
    assert_eq!((shown[0].0, shown[0].1.as_str()), (home, "home"));
    assert_eq!((shown[1].0, shown[1].1.as_str()), (work, "work"));
    assert_eq!(shown[0].2, workspace.tags()[1].color_index);
    assert_eq!(shown[1].2, workspace.tags()[0].color_index);
}

#[test]
fn the_clear_completed_button_counts_the_done_todos() {
    assert_eq!(clear_completed_label(AppLanguage::English, 3), "Clear completed · 3");
    assert_eq!(clear_completed_label(AppLanguage::SimplifiedChinese, 12), "清除已完成 · 12");
}

#[test]
fn new_identifiers_are_never_reused() {
    let mut workspace = TodoWorkspace::default();
    let first_tag = workspace.add_tag("a").unwrap();
    assert!(workspace.delete_tag(first_tag));
    let second_tag = workspace.add_tag("b").unwrap();
    assert!(second_tag > first_tag);

    let first_todo = workspace.add_todo("x").unwrap();
    assert!(workspace.delete_todo(first_todo));
    let second_todo = workspace.add_todo("y").unwrap();
    assert!(second_todo > first_todo);

    workspace.load_todos_text("7\t0\t\tloaded\n");
    assert!(workspace.contains_todo(7));
    let next = workspace.add_todo("after").unwrap();
    assert!(next > 7);
}
