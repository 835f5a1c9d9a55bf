use synapse::dangerous_action::{DangerousAction, TreeTarget};
use synapse::preferences::AppLanguage;
use synapse::todo_workspace::TodoWorkspace;
use synapse::vault::VaultEntryKind;

#[test]
fn notification_spec_dangerous_copy_is_localized_and_names_the_target() {
    let action = DangerousAction::DeleteTodo {
        id: 7,
        display_name: "发布说明".to_owned(),
    };

    let chinese = action.copy(AppLanguage::SimplifiedChinese);
    assert_eq!(chinese.title, "删除待办？");
    assert!(chinese.description.contains("发布说明"));
    assert_eq!(chinese.confirm_label, "确认删除");

    let english = action.copy(AppLanguage::English);
    assert_eq!(english.title, "Delete Todo?");
    assert!(english.description.contains("发布说明"));
    assert_eq!(english.confirm_label, "Delete");
}

#[test]
fn notification_spec_clear_completed_requires_a_nonzero_count() {
    assert!(!DangerousAction::ClearCompletedTodos { count: 0 }.is_actionable());

    let action = DangerousAction::ClearCompletedTodos { count: 4 };
    assert!(action.is_actionable());
    assert!(action.copy(AppLanguage::English).description.contains('4'));
}

#[test]
fn notification_spec_trash_copy_distinguishes_folder_from_note() {
    let folder = DangerousAction::TrashTreeEntry {
        target: TreeTarget {
            relative_path: vec!["archive".to_owned()],
            name: "archive".to_owned(),
            kind: VaultEntryKind::Directory,
        },
    };
    let note = DangerousAction::TrashTreeEntry {
        target: TreeTarget {
            relative_path: vec!["draft.md".to_owned()],
            name: "draft".to_owned(),
            kind: VaultEntryKind::Note,
        },
    };

    assert!(folder
        .copy(AppLanguage::English)
        .description
        .contains("folder"));
    assert!(note.copy(AppLanguage::English).description.contains("note"));
}

#[test]
fn every_copy_names_its_target_in_full_sentences() {
    let folder = DangerousAction::TrashTreeEntry {
        target: TreeTarget {
            relative_path: vec!["archive".to_owned()],
            name: "archive".to_owned(),
            kind: VaultEntryKind::Directory,
        },
    };
    let copy = folder.copy(AppLanguage::English);
    assert_eq!(copy.title, "Move to Trash?");
    assert_eq!(
        copy.description,
        "Move the folder “archive” to Trash? Any affected tabs will be closed."
    );
    assert_eq!(copy.confirm_label, "Move to Trash");
    assert_eq!(copy.success_title, "Action completed");
    assert_eq!(copy.success_message, "“archive” was moved to Trash");

    let zh = folder.copy(AppLanguage::SimplifiedChinese);
    assert_eq!(
        zh.description,
        "确定要将文件夹“archive”移到废纸篓吗？此操作会关闭受影响的页签。"
    );
    assert_eq!(zh.success_title, "操作成功");

    let clear = DangerousAction::ClearCompletedTodos { count: 12 };
    let zh = clear.copy(AppLanguage::SimplifiedChinese);
    assert_eq!(zh.description, "确定要永久删除 12 条已完成待办吗？");
    assert_eq!(zh.success_message, "已清除 12 条完成项");

    let tag = DangerousAction::RemoveBookmarkTagAssignment {
        bookmark_id: 1,
        tag_id: 2,
        display_name: "读".to_owned(),
    };
    let copy = tag.copy(AppLanguage::English);
    assert_eq!(copy.title, "Remove Tag?");
    assert_eq!(copy.description, "Remove the tag “读” from this item?");
    assert_eq!(copy.success_message, "Tag “读” removed");
    assert_eq!(copy.confirm_label, "Delete");

    let bookmark = DangerousAction::DeleteBookmark {
        id: 3,
        display_name: "站点".to_owned(),
    };
    let copy = bookmark.copy(AppLanguage::SimplifiedChinese);
    assert_eq!(copy.description, "确定要永久删除书签“站点”吗？");
    assert_eq!(copy.success_message, "书签已删除");

    let note = DangerousAction::TrashActiveNote {
        relative_path: vec!["a.md".to_owned()],
        display_name: "a".to_owned(),
    };
    let copy = note.copy(AppLanguage::English);
    assert_eq!(copy.title, "Delete Note?");
    assert_eq!(copy.success_message, "Note “a” was moved to Trash");
}

const MISSING_EN: &str = "The target no longer exists or was removed by another operation";

fn workspace_with_tagged_todo() -> (TodoWorkspace, u64, u64) {
    // A new tag is selected, so the todo added after it carries it.
    let mut workspace = TodoWorkspace::default();
    let tag = workspace.add_tag("Work").unwrap();
    let todo = workspace.add_todo("Ship").unwrap();
    assert_eq!(workspace.tag_usage_count(tag), 1);
    (workspace, todo, tag)
}

#[test]
fn confirmed_todo_deletion_removes_the_todo_or_reports_it_missing() {
    let (mut workspace, todo, _) = workspace_with_tagged_todo();
    let action = DangerousAction::DeleteTodo { id: todo, display_name: "Ship".to_owned() };
    assert_eq!(action.apply_to_todos(&mut workspace, AppLanguage::English), Some(Ok(())));
    assert!(!workspace.contains_todo(todo));
    assert_eq!(
        action.apply_to_todos(&mut workspace, AppLanguage::English),
        Some(Err(MISSING_EN.to_owned()))
    );
    assert_eq!(
        action.apply_to_todos(&mut workspace, AppLanguage::SimplifiedChinese),
        Some(Err("目标不存在或已被其他操作移除".to_owned()))
    );
}

#[test]
fn confirmed_clear_completed_needs_a_done_todo() {
    let mut workspace = TodoWorkspace::default();
    let open = workspace.add_todo("open").unwrap();
    let done = workspace.add_todo("done").unwrap();
    let action = DangerousAction::ClearCompletedTodos { count: 1 };
    assert_eq!(
        action.apply_to_todos(&mut workspace, AppLanguage::English),
        Some(Err(MISSING_EN.to_owned()))
    );
    assert!(workspace.toggle_todo(done));
    assert_eq!(action.apply_to_todos(&mut workspace, AppLanguage::English), Some(Ok(())));
    assert!(workspace.contains_todo(open));
    assert!(!workspace.contains_todo(done));
}

#[test]
fn confirmed_tag_deletion_and_unassignment_act_once() {
    let (mut workspace, todo, tag) = workspace_with_tagged_todo();
    let unassign = DangerousAction::RemoveTodoTagAssignment {
        todo_id: todo,
        tag_id: tag,
        display_name: "Work".to_owned(),
    };
    assert_eq!(unassign.apply_to_todos(&mut workspace, AppLanguage::English), Some(Ok(())));
    assert_eq!(workspace.tag_usage_count(tag), 0);
    assert_eq!(
        unassign.apply_to_todos(&mut workspace, AppLanguage::English),
        Some(Err(MISSING_EN.to_owned()))
    );

    let delete = DangerousAction::DeleteTodoTag { id: tag, display_name: "Work".to_owned() };
    assert_eq!(delete.apply_to_todos(&mut workspace, AppLanguage::English), Some(Ok(())));
    assert!(workspace.tags().is_empty());
    assert!(workspace.contains_todo(todo));
    assert_eq!(
        delete.apply_to_todos(&mut workspace, AppLanguage::English),
        Some(Err(MISSING_EN.to_owned()))
    );
}

#[test]
fn actions_on_notes_and_bookmarks_leave_the_todos_alone() {
    let (mut workspace, _, _) = workspace_with_tagged_todo();
    let before = workspace.clone();
    let trash = DangerousAction::TrashActiveNote {
        relative_path: vec!["a.md".to_owned()],
        display_name: "a".to_owned(),
    };
    let bookmark = DangerousAction::DeleteBookmark { id: 1, display_name: "x".to_owned() };
    assert_eq!(trash.apply_to_todos(&mut workspace, AppLanguage::English), None);
    assert_eq!(bookmark.apply_to_todos(&mut workspace, AppLanguage::English), None);
    assert_eq!(workspace, before);
}
