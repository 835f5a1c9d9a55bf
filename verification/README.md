# synapse

The editing, persistence and release logic of the Synapse Markdown editor, written in
Verus: every function in `src/` carries a contract that Verus proves.

## Layout

- `src/text.rs`: characters, whitespace, lines, decimal numbers and UTF-8 offsets.
- `src/markdown_command.rs`: what Enter does in lists and fenced code blocks (the line
  analysis comes from the `writ` crate), and the paragraph added after a final code block.
- `src/editor_format.rs`: inline format toggles, code block wrapping, clipboard newlines
  and Markdown link editing.
- `src/editor_lines.rs`: which editor rows must be laid out again after an edit.
- `src/slash_menu.rs`: the slash commands, their filter, and the menu's highlight.
- `src/vault.rs`: the file tree rows, folded folders, note links, note link search, and
  where a Markdown image points.
- `src/todo_codec.rs`, `src/todo_workspace.rs`: the todo workspace, its rules and its two
  text files.
- `src/todo_auto_clear.rs`: the hold-and-leave runs of todos cleared on completion.
- `src/vault_refresh.rs`: the trailing debounce of file tree refreshes after changes on
  disk.
- `src/dangerous_action.rs`: confirmations of destructive actions and their effect on the
  todos.
- `src/preferences.rs`, `src/updater.rs`, `src/workbench.rs`: stored preferences, release
  checks, and the shell's window-free decisions.
- `app/`: the program around the library: configuration files, todo files, pasted
  images, the file manager, and the floating-point motion curves.
- `tests/`: tests of the library on concrete values.

Laws that relate several functions are public proof functions named `lemma_*` next to the
functions they speak of.
