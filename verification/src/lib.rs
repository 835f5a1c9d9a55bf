//! Verified editing, persistence and release logic of the Synapse Markdown editor.

pub mod text;
pub mod markdown_command;
pub mod updater;
pub mod todo_codec;
pub mod preferences;
pub mod todo_workspace;
pub mod editor_format;
pub mod vault;
pub mod dangerous_action;
pub mod slash_menu;
pub mod workbench;
pub mod editor_lines;
pub mod todo_auto_clear;
pub mod vault_refresh;
