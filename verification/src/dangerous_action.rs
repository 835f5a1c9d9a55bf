//! Actions that destroy data, and the confirmation and success texts shown for them.

use vstd::prelude::*;

use crate::preferences::{text_in, AppLanguage};
use crate::text::{decimal, decimal_of, push_all, push_str, string_of};
use crate::todo_workspace::{
    carries_tag_id, completed_cleared, has_tag_id, has_todo, is_done, tag_deleted, todo_deleted,
    todo_tag_removed, TodoWorkspace,
};
use crate::vault::VaultEntryKind;

verus! {

/// A folder or note of the file tree that an action targets.
#[derive(Debug, Eq, PartialEq)]
pub struct TreeTarget {
    pub relative_path: Vec<String>,
    pub name: String,
    pub kind: VaultEntryKind,
}

/// An action that needs confirmation because it destroys data.
#[derive(Debug, Eq, PartialEq)]
pub enum DangerousAction {
    TrashTreeEntry { target: TreeTarget },
    TrashActiveNote { relative_path: Vec<String>, display_name: String },
    DeleteTodo { id: u64, display_name: String },
    ClearCompletedTodos { count: usize },
    DeleteTodoTag { id: u64, display_name: String },
    RemoveTodoTagAssignment { todo_id: u64, tag_id: u64, display_name: String },
    DeleteBookmark { id: u64, display_name: String },
    DeleteBookmarkTag { id: u64, display_name: String },
    RemoveBookmarkTagAssignment { bookmark_id: u64, tag_id: u64, display_name: String },
}

/// The texts of a confirmation and of the notification after it.
#[derive(Debug, Eq, PartialEq)]
pub struct DangerousActionCopy {
    pub title: String,
    pub description: String,
    pub confirm_label: String,
    pub success_title: String,
    pub success_message: String,
}

/// The texts of a copy: `(title, description, confirm label, success title, success
/// message)`.
pub open spec fn copy_view(c: DangerousActionCopy) -> (Seq<char>, Seq<char>, Seq<char>, Seq<char>, Seq<char>) {
    (c.title@, c.description@, c.confirm_label@, c.success_title@, c.success_message@)
}

/// `a`, the name, then `b`.
pub open spec fn around(a: Seq<char>, name: Seq<char>, b: Seq<char>) -> Seq<char> {
    a + name + b
}

/// The title, description and success message of an action, in `language`.
pub open spec fn action_texts(action: DangerousAction, language: AppLanguage) -> (Seq<char>, Seq<char>, Seq<char>) {
    let zh = language == AppLanguage::SimplifiedChinese;
    match action {
        DangerousAction::TrashTreeEntry { target } => {
            let kind = match target.kind {
                VaultEntryKind::Directory => text_in(language, "文件夹"@, "folder"@),
                VaultEntryKind::Note => text_in(language, "笔记"@, "note"@),
            };
            let n = target.name@;
            (
                text_in(language, "移到废纸篓？"@, "Move to Trash?"@),
                if zh {
                    "确定要将"@ + kind + "“"@ + n + "”移到废纸篓吗？此操作会关闭受影响的页签。"@
                } else {
                    "Move the "@ + kind + " “"@ + n + "” to Trash? Any affected tabs will be closed."@
                },
                if zh {
                    around("“"@, n, "”已移到废纸篓"@)
                } else {
                    around("“"@, n, "” was moved to Trash"@)
                },
            )
        },
        DangerousAction::TrashActiveNote { display_name, .. } => {
            let n = display_name@;
            (
                text_in(language, "删除笔记？"@, "Delete Note?"@),
                if zh {
                    around("确定要将笔记“"@, n, "”移到废纸篓吗？"@)
                } else {
                    around("Move the note “"@, n, "” to Trash?"@)
                },
                if zh {
                    around("笔记“"@, n, "”已移到废纸篓"@)
                } else {
                    around("Note “"@, n, "” was moved to Trash"@)
                },
            )
        },
        DangerousAction::DeleteTodo { display_name, .. } => {
            let n = display_name@;
            (
                text_in(language, "删除待办？"@, "Delete Todo?"@),
                if zh {
                    around("确定要永久删除待办“"@, n, "”吗？"@)
                } else {
                    around("Permanently delete the todo “"@, n, "”?"@)
                },
                text_in(language, "待办已删除"@, "Todo deleted"@),
            )
        },
        DangerousAction::ClearCompletedTodos { count } => {
            let n = decimal(count as nat);
            (
                text_in(language, "清除已完成待办？"@, "Clear Completed Todos?"@),
                if zh {
                    around("确定要永久删除 "@, n, " 条已完成待办吗？"@)
                } else {
                    around("Permanently delete "@, n, " completed todos?"@)
                },
                if zh {
                    around("已清除 "@, n, " 条完成项"@)
                } else {
                    around("Cleared "@, n, " completed todos"@)
                },
            )
        },
        DangerousAction::DeleteTodoTag { display_name, .. } | DangerousAction::DeleteBookmarkTag {
            display_name,
            ..
        } => {
            let n = display_name@;
            (
                text_in(language, "删除标签？"@, "Delete Tag?"@),
                if zh {
                    around("确定要删除标签“"@, n, "”吗？该标签会从所有关联项目中移除。"@)
                } else {
                    around("Delete the tag “"@, n, "”? It will be removed from every associated item."@)
                },
                if zh {
                    around("标签“"@, n, "”已删除"@)
                } else {
                    around("Tag “"@, n, "” deleted"@)
                },
            )
        },
        DangerousAction::RemoveTodoTagAssignment { display_name, .. }
        | DangerousAction::RemoveBookmarkTagAssignment { display_name, .. } => {
            let n = display_name@;
            (
                text_in(language, "移除标签？"@, "Remove Tag?"@),
                if zh {
                    around("确定要从当前项目中移除标签“"@, n, "”吗？"@)
                } else {
                    around("Remove the tag “"@, n, "” from this item?"@)
                },
                if zh {
                    around("标签“"@, n, "”已移除"@)
                } else {
                    around("Tag “"@, n, "” removed"@)
                },
            )
        },
        DangerousAction::DeleteBookmark { display_name, .. } => {
            let n = display_name@;
            (
                text_in(language, "删除书签？"@, "Delete Bookmark?"@),
                if zh {
                    around("确定要永久删除书签“"@, n, "”吗？"@)
                } else {
                    around("Permanently delete the bookmark “"@, n, "”?"@)
                },
                text_in(language, "书签已删除"@, "Bookmark deleted"@),
            )
        },
    }
}

/// The confirm button of an action: moving to the Trash for notes and folders,
/// deleting otherwise.
pub open spec fn confirm_label_of(action: DangerousAction, language: AppLanguage) -> Seq<char> {
    match action {
        DangerousAction::TrashTreeEntry { .. } | DangerousAction::TrashActiveNote { .. } => text_in(
            language,
            "移到废纸篓"@,
            "Move to Trash"@,
        ),
        _ => text_in(language, "确认删除"@, "Delete"@),
    }
}

/// `a`, then `name`, then `b`, as a string.
fn text_around(a: &str, name: &Vec<char>, b: &str) -> (out: String)
    ensures
        out@ == around(a@, name@, b@),
{
    let mut v: Vec<char> = Vec::new();
    push_str(&mut v, a);
    push_all(&mut v, name);
    push_str(&mut v, b);
    proof {
        assert(v@ =~= around(a@, name@, b@));
    }
    string_of(&v)
}

/// The text in `language`, as a string.
fn owned_text(language: AppLanguage, simplified_chinese: &'static str, english: &'static str) -> (out: String)
    ensures
        out@ == text_in(language, simplified_chinese@, english@),
{
    string_of(&crate::text::chars_of(language.text(simplified_chinese, english)))
}

impl DangerousAction {
    /// Whether there is anything to do: clearing zero completed todos is not.
    pub fn is_actionable(&self) -> (b: bool)
        ensures
            b == !(*self matches DangerousAction::ClearCompletedTodos { count } && count == 0),
    {
        match self {
            DangerousAction::ClearCompletedTodos { count } => *count != 0,
            _ => true,
        }
    }

    /// The confirmation and success texts of the action, in `language`, naming its
    /// target.
    pub fn copy(&self, language: AppLanguage) -> (c: DangerousActionCopy)
        ensures
            copy_view(c) == ({
                let (title, description, success_message) = action_texts(*self, language);
                (
                    title,
                    description,
                    confirm_label_of(*self, language),
                    text_in(language, "操作成功"@, "Action completed"@),
                    success_message,
                )
            }),
    {
        let zh = match language {
            AppLanguage::SimplifiedChinese => true,
            AppLanguage::English => false,
        };
        let confirm_label = match self {
            DangerousAction::TrashTreeEntry { .. } | DangerousAction::TrashActiveNote { .. } => owned_text(
                language,
                "移到废纸篓",
                "Move to Trash",
            ),
            _ => owned_text(language, "确认删除", "Delete"),
        };
        let success_title = owned_text(language, "操作成功", "Action completed");
        let (title, description, success_message) = match self {
            DangerousAction::TrashTreeEntry { target } => {
                let kind = match target.kind {
                    VaultEntryKind::Directory => language.text("文件夹", "folder"),
                    VaultEntryKind::Note => language.text("笔记", "note"),
                };
                let n = crate::text::chars_of(target.name.as_str());
                let mut d: Vec<char> = Vec::new();
                if zh {
                    push_str(&mut d, "确定要将");
                    push_str(&mut d, kind);
                    push_str(&mut d, "“");
                    push_all(&mut d, &n);
                    push_str(&mut d, "”移到废纸篓吗？此操作会关闭受影响的页签。");
                } else {
                    push_str(&mut d, "Move the ");
                    push_str(&mut d, kind);
                    push_str(&mut d, " “");
                    push_all(&mut d, &n);
                    push_str(&mut d, "” to Trash? Any affected tabs will be closed.");
                }
                (
                    owned_text(language, "移到废纸篓？", "Move to Trash?"),
                    string_of(&d),
                    if zh {
                        text_around("“", &n, "”已移到废纸篓")
                    } else {
                        text_around("“", &n, "” was moved to Trash")
                    },
                )
            },
            DangerousAction::TrashActiveNote { display_name, .. } => {
                let n = crate::text::chars_of(display_name.as_str());
                (
                    owned_text(language, "删除笔记？", "Delete Note?"),
                    if zh {
                        text_around("确定要将笔记“", &n, "”移到废纸篓吗？")
                    } else {
                        text_around("Move the note “", &n, "” to Trash?")
                    },
                    if zh {
                        text_around("笔记“", &n, "”已移到废纸篓")
                    } else {
                        text_around("Note “", &n, "” was moved to Trash")
                    },
                )
            },
            DangerousAction::DeleteTodo { display_name, .. } => {
                let n = crate::text::chars_of(display_name.as_str());
                (
                    owned_text(language, "删除待办？", "Delete Todo?"),
                    if zh {
                        text_around("确定要永久删除待办“", &n, "”吗？")
                    } else {
                        text_around("Permanently delete the todo “", &n, "”?")
                    },
                    owned_text(language, "待办已删除", "Todo deleted"),
                )
            },
            DangerousAction::ClearCompletedTodos { count } => {
                let n = decimal_of(*count as u64);
                (
                    owned_text(language, "清除已完成待办？", "Clear Completed Todos?"),
                    if zh {
                        text_around("确定要永久删除 ", &n, " 条已完成待办吗？")
                    } else {
                        text_around("Permanently delete ", &n, " completed todos?")
                    },
                    if zh {
                        text_around("已清除 ", &n, " 条完成项")
                    } else {
                        text_around("Cleared ", &n, " completed todos")
                    },
                )
            },
            DangerousAction::DeleteTodoTag { display_name, .. } | DangerousAction::DeleteBookmarkTag {
                display_name,
                ..
            } => {
                let n = crate::text::chars_of(display_name.as_str());
                (
                    owned_text(language, "删除标签？", "Delete Tag?"),
                    if zh {
                        text_around("确定要删除标签“", &n, "”吗？该标签会从所有关联项目中移除。")
                    } else {
                        text_around("Delete the tag “", &n, "”? It will be removed from every associated item.")
                    },
                    if zh {
                        text_around("标签“", &n, "”已删除")
                    } else {
                        text_around("Tag “", &n, "” deleted")
                    },
                )
            },
            DangerousAction::RemoveTodoTagAssignment { display_name, .. }
            | DangerousAction::RemoveBookmarkTagAssignment { display_name, .. } => {
                let n = crate::text::chars_of(display_name.as_str());
                (
                    owned_text(language, "移除标签？", "Remove Tag?"),
                    if zh {
                        text_around("确定要从当前项目中移除标签“", &n, "”吗？")
                    } else {
                        text_around("Remove the tag “", &n, "” from this item?")
                    },
                    if zh {
                        text_around("标签“", &n, "”已移除")
                    } else {
                        text_around("Tag “", &n, "” removed")
                    },
                )
            },
            DangerousAction::DeleteBookmark { display_name, .. } => {
                let n = crate::text::chars_of(display_name.as_str());
                (
                    owned_text(language, "删除书签？", "Delete Bookmark?"),
                    if zh {
                        text_around("确定要永久删除书签“", &n, "”吗？")
                    } else {
                        text_around("Permanently delete the bookmark “", &n, "”?")
                    },
                    owned_text(language, "书签已删除", "Bookmark deleted"),
                )
            },
        };
        DangerousActionCopy { title, description, confirm_label, success_title, success_message }
    }
}

/// The text of the error when the target of a confirmed action is already gone.
pub open spec fn missing_target_text(language: AppLanguage) -> Seq<char> {
    text_in(
        language,
        "目标不存在或已被其他操作移除"@,
        "The target no longer exists or was removed by another operation"@,
    )
}

/// Whether the action works on the todo workspace.
pub open spec fn is_todo_action(action: DangerousAction) -> bool {
    ||| action is DeleteTodo
    ||| action is ClearCompletedTodos
    ||| action is DeleteTodoTag
    ||| action is RemoveTodoTagAssignment
}

/// Whether a todo action found what it names in `ws`: the todo, a done todo, the tag,
/// or the tag on the todo.
pub open spec fn todo_target_found(action: DangerousAction, ws: TodoWorkspace) -> bool {
    match action {
        DangerousAction::DeleteTodo { id, .. } => has_todo(ws.todo_seq(), id),
        DangerousAction::ClearCompletedTodos { .. } => ws.todo_seq().filter(is_done()).len() > 0,
        DangerousAction::DeleteTodoTag { id, .. } => has_tag_id(ws.tag_seq(), id),
        DangerousAction::RemoveTodoTagAssignment { todo_id, tag_id, .. } => carries_tag_id(
            ws,
            todo_id,
            tag_id,
        ),
        _ => false,
    }
}

/// What a todo action does to the workspace `old`, giving `new`.
pub open spec fn todo_action_applied(action: DangerousAction, old: TodoWorkspace, new: TodoWorkspace) -> bool {
    match action {
        DangerousAction::DeleteTodo { id, .. } => todo_deleted(old, new, id),
        DangerousAction::ClearCompletedTodos { .. } => completed_cleared(old, new),
        DangerousAction::DeleteTodoTag { id, .. } => tag_deleted(old, new, id),
        DangerousAction::RemoveTodoTagAssignment { todo_id, tag_id, .. } => todo_tag_removed(
            old,
            new,
            todo_id,
            tag_id,
        ),
        _ => new == old,
    }
}

impl DangerousAction {
    /// Carries out a confirmed action on the todo workspace. `None` for an action on
    /// notes or bookmarks, which leaves the workspace as it is; else the workspace is
    /// changed as the action says, and the result is the error text in `language` when
    /// it found nothing to act on. Writing the workspace to disk is the caller's part.
    pub fn apply_to_todos(&self, workspace: &mut TodoWorkspace, language: AppLanguage) -> (r:
        Option<Result<(), String>>)
        ensures
            r is None <==> !is_todo_action(*self),
            todo_action_applied(*self, *old(workspace), *final(workspace)),
            r matches Some(outcome) ==> (outcome is Ok <==> todo_target_found(
                *self,
                *old(workspace),
            )),
            r matches Some(Err(message)) ==> message@ == missing_target_text(language),
            old(workspace).wf() ==> final(workspace).wf(),
            old(workspace).ids_fresh() ==> final(workspace).ids_fresh(),
    {
        let found = match self {
            DangerousAction::DeleteTodo { id, .. } => workspace.delete_todo(*id),
            DangerousAction::ClearCompletedTodos { .. } => workspace.clear_completed() != 0,
            DangerousAction::DeleteTodoTag { id, .. } => workspace.delete_tag(*id),
            DangerousAction::RemoveTodoTagAssignment { todo_id, tag_id, .. } => {
                workspace.remove_todo_tag(*todo_id, *tag_id)
            },
            _ => return None,
        };
        if found {
            Some(Ok(()))
        } else {
            Some(
                Err(
                    owned_text(
                        language,
                        "目标不存在或已被其他操作移除",
                        "The target no longer exists or was removed by another operation",
                    ),
                ),
            )
        }
    }
}

} // verus!
