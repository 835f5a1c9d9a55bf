use synapse::editor_format::markdown_link_context;
use synapse::vault::{
    markdown_image_target, ImageTarget, build_file_tree_rows, hex_value, internal_note_destination, linked_vault_note,
    note_breadcrumb_parts, note_link_candidates, percent_decode_path,
    prune_collapsed_directories, toggle_collapsed_directory, FileTreeRow, NoteLinkPickerState,
    VaultEntry, VaultEntryKind,
};

fn path(value: &str) -> Vec<String> {
    value.split('/').map(str::to_owned).collect()
}

fn entry(relative_path: &str, name: &str, kind: VaultEntryKind) -> VaultEntry {
    VaultEntry {
        relative_path: path(relative_path),
        name: name.to_owned(),
        kind,
    }
}

#[test]
fn rendered_internal_note_links_resolve_only_to_existing_vault_notes() {
    let entries = vec![entry("产品规划/需求文档.md", "需求文档", VaultEntryKind::Note)];
    let source = "参见 [需求文档](%E4%BA%A7%E5%93%81%E8%A7%84%E5%88%92/%E9%9C%80%E6%B1%82%E6%96%87%E6%A1%A3.md)";
    let link = markdown_link_context(source, 4..4).expect("cursor is inside link label");

    assert_eq!(
        linked_vault_note(&link.destination, &entries),
        Some(path("产品规划/需求文档.md"))
    );
    assert_eq!(
        linked_vault_note("产品规划/需求文档", &entries),
        Some(entries[0].relative_path.clone())
    );
    assert_eq!(
        linked_vault_note("https://example.com/note.md", &entries),
        None
    );
    assert_eq!(linked_vault_note("../需求文档.md", &entries), None);
    assert_eq!(linked_vault_note("不存在.md", &entries), None);
}

#[test]
fn p3_note_breadcrumb_uses_folders_and_extensionless_title() {
    assert_eq!(
        note_breadcrumb_parts(&path("山海异界/山海经原文译文/山海经_卷七_海外西经.md")),
        ["山海异界", "山海经原文译文", "山海经_卷七_海外西经"]
    );
}

#[test]
fn v2_ac5_builds_parent_first_hierarchical_file_rows() {
    let rows = build_file_tree_rows(
        &[
            entry("product", "product", VaultEntryKind::Directory),
            entry("product/archive", "archive", VaultEntryKind::Directory),
            entry("product/archive/old.md", "old", VaultEntryKind::Note),
            entry("product/plan.md", "plan", VaultEntryKind::Note),
            entry("product/second.md", "second", VaultEntryKind::Note),
            entry("root.md", "root", VaultEntryKind::Note),
        ],
        &Vec::new(),
    );

    assert_eq!(
        rows,
        vec![
            FileTreeRow::Directory {
                relative_path: path("product"),
                name: "product".to_owned(),
                depth: 0,
            },
            FileTreeRow::Directory {
                relative_path: path("product/archive"),
                name: "archive".to_owned(),
                depth: 1,
            },
            FileTreeRow::Note {
                relative_path: path("product/archive/old.md"),
                name: "old".to_owned(),
                depth: 2,
            },
            FileTreeRow::Note {
                relative_path: path("product/plan.md"),
                name: "plan".to_owned(),
                depth: 1,
            },
            FileTreeRow::Note {
                relative_path: path("product/second.md"),
                name: "second".to_owned(),
                depth: 1,
            },
            FileTreeRow::Note {
                relative_path: path("root.md"),
                name: "root".to_owned(),
                depth: 0,
            },
        ]
    );
}

#[test]
fn v3_ac1_empty_folders_are_preserved_as_tree_rows() {
    let rows = build_file_tree_rows(
        &[entry("empty", "empty", VaultEntryKind::Directory)],
        &Vec::new(),
    );

    assert_eq!(
        rows,
        vec![
            FileTreeRow::Directory {
                relative_path: path("empty"),
                name: "empty".to_owned(),
                depth: 0,
            },
            FileTreeRow::EmptyDirectory {
                relative_path: path("empty"),
                depth: 1,
            },
        ]
    );
}

#[test]
fn pruning_collapsed_directories_keeps_folders_that_still_exist() {
    let entries = [
        entry("keep", "keep", VaultEntryKind::Directory),
        entry("keep/note.md", "note", VaultEntryKind::Note),
    ];
    let mut collapsed = vec![path("keep"), path("deleted"), path("deleted/nested")];

    prune_collapsed_directories(&mut collapsed, &entries);

    assert_eq!(collapsed, vec![path("keep")]);
}

#[test]
fn v3_fr15_collapsed_folders_hide_descendants_and_empty_placeholders() {
    let entries = [
        entry("folder", "folder", VaultEntryKind::Directory),
        entry("folder/note.md", "note", VaultEntryKind::Note),
    ];
    let collapsed = vec![path("folder")];

    assert_eq!(
        build_file_tree_rows(&entries, &collapsed),
        vec![FileTreeRow::Directory {
            relative_path: path("folder"),
            name: "folder".to_owned(),
            depth: 0,
        }]
    );
}

#[test]
fn note_link_picker_searches_paths_and_excludes_the_current_note() {
    let entries = vec![
        entry("产品/规划.md", "规划", VaultEntryKind::Note),
        entry("产品/当前.md", "当前", VaultEntryKind::Note),
        entry("产品/归档", "归档", VaultEntryKind::Directory),
    ];

    let current = path("产品/当前.md");
    let candidates = note_link_candidates(&entries, Some(&current), "规划");
    assert_eq!(candidates.len(), 1);
    assert_eq!(candidates[0].title, "规划");
    assert_eq!(candidates[0].folder.as_deref(), Some("产品"));
}

#[test]
fn note_link_picker_caps_at_eight_and_matches_case_insensitively() {
    let entries: Vec<VaultEntry> = (0..10)
        .map(|index| entry(&format!("Notes/Day{index}.md"), "day", VaultEntryKind::Note))
        .collect();
    let candidates = note_link_candidates(&entries, None, "  notes/DAY ");
    assert_eq!(candidates.len(), 8);
    assert_eq!(candidates[7].relative_path, path("Notes/Day7.md"));
    assert_eq!(candidates[0].folder.as_deref(), Some("Notes"));

    let root = vec![entry("todo.tar.gz", "todo", VaultEntryKind::Note)];
    let found = note_link_candidates(&root, None, "");
    assert_eq!(found[0].title, "todo.tar");
    assert_eq!(found[0].folder, None);
    assert!(note_link_candidates(&root, None, "missing").is_empty());
}

#[test]
fn open_folders_with_children_get_no_placeholder() {
    let entries = [
        entry("a", "a", VaultEntryKind::Directory),
        entry("a/b", "b", VaultEntryKind::Directory),
    ];
    let rows = build_file_tree_rows(&entries, &vec![path("a/b")]);
    assert_eq!(
        rows,
        vec![
            FileTreeRow::Directory {
                relative_path: path("a"),
                name: "a".to_owned(),
                depth: 0,
            },
            FileTreeRow::Directory {
                relative_path: path("a/b"),
                name: "b".to_owned(),
                depth: 1,
            },
        ]
    );
}

#[test]
fn percent_decoding_reads_escapes_and_rejects_bad_ones() {
    assert_eq!(percent_decode_path("a%20b"), Ok("a b".to_owned()));
    assert_eq!(
        percent_decode_path("%E5%9B%BE"),
        Ok("图".to_owned())
    );
    assert_eq!(
        percent_decode_path("bad%2"),
        Err("Invalid percent-encoded image path".to_owned())
    );
    assert_eq!(
        percent_decode_path("bad%zz"),
        Err("Invalid percent-encoded image path".to_owned())
    );
    assert_eq!(
        percent_decode_path("%FF"),
        Err("Image path is not valid UTF-8".to_owned())
    );
    assert_eq!(hex_value(b'7'), Some(7));
    assert_eq!(hex_value(b'c'), Some(12));
    assert_eq!(hex_value(b'F'), Some(15));
    assert_eq!(hex_value(b'g'), None);
}

#[test]
fn internal_destinations_add_the_note_extension_and_reject_outside_paths() {
    assert_eq!(internal_note_destination(" ./a//b "), Some(path("a/b.md")));
    assert_eq!(internal_note_destination("a/b.txt?x=1#top"), Some(path("a/b.txt")));
    assert_eq!(internal_note_destination(".hidden"), Some(path(".hidden.md")));
    assert_eq!(internal_note_destination("#anchor"), None);
    assert_eq!(internal_note_destination("/abs.md"), None);
    assert_eq!(internal_note_destination("c:/x.md"), None);
    assert_eq!(internal_note_destination("a/../b.md"), None);
    assert_eq!(internal_note_destination("%2Fabs.md"), None);
    assert_eq!(internal_note_destination("."), None);
    assert_eq!(internal_note_destination(""), None);
}

#[test]
fn markdown_image_targets_resolve_relative_root_remote_and_reject_escape() {
    let note = path("notes/deep/note.md");
    assert_eq!(
        markdown_image_target(&note, "../assets/%E5%9B%BE%20%E7%89%87.png"),
        ImageTarget::Local(path("notes/assets/图 片.png"))
    );
    assert_eq!(
        markdown_image_target(&note, "/shared/root.png"),
        ImageTarget::Local(path("shared/root.png"))
    );
    assert_eq!(
        markdown_image_target(&note, " https://example.com/image.png "),
        ImageTarget::Remote("https://example.com/image.png".to_owned())
    );
    assert_eq!(
        markdown_image_target(&note, "../../../outside.png"),
        ImageTarget::Error("Image path escapes the current Vault".to_owned())
    );
    assert_eq!(
        markdown_image_target(&note, "data:image/png;base64,AAAA"),
        ImageTarget::Error("Unsupported image URL scheme".to_owned())
    );
    assert_eq!(
        markdown_image_target(&note, "ftp://host/a.png"),
        ImageTarget::Error("Unsupported image URL scheme".to_owned())
    );
    assert_eq!(
        markdown_image_target(&note, "./a.png?raw#x"),
        ImageTarget::Local(path("notes/deep/a.png"))
    );
    assert_eq!(
        markdown_image_target(&note, "%zz.png"),
        ImageTarget::Error("Invalid percent-encoded image path".to_owned())
    );
    assert_eq!(
        markdown_image_target(&path("note.md"), "./"),
        ImageTarget::Error("Image path is empty".to_owned())
    );
}

#[test]
fn clicking_a_folder_folds_it_and_clicking_again_unfolds_it() {
    let mut collapsed = vec![path("docs")];
    toggle_collapsed_directory(&mut collapsed, &path("notes/daily"));
    assert_eq!(collapsed, vec![path("docs"), path("notes/daily")]);
    toggle_collapsed_directory(&mut collapsed, &path("docs"));
    assert_eq!(collapsed, vec![path("notes/daily")]);
    toggle_collapsed_directory(&mut collapsed, &path("notes/daily"));
    assert!(collapsed.is_empty());
}

#[test]
fn the_note_link_picker_wraps_with_the_arrow_keys() {
    let mut picker = NoteLinkPickerState { range: 4..6, selected: 0 };
    picker.select_previous(3);
    assert_eq!(picker.selected, 2);
    picker.select_next(3);
    assert_eq!(picker.selected, 0);
    picker.select_next(3);
    assert_eq!(picker.selected, 1);
    picker.select_next(0);
    picker.select_previous(0);
    assert_eq!(picker.selected, 1);
    assert_eq!(picker.range, 4..6);
}

#[test]
fn folding_keeps_each_folder_once() {
    let mut collapsed = Vec::new();
    toggle_collapsed_directory(&mut collapsed, &path("a"));
    toggle_collapsed_directory(&mut collapsed, &path("b"));
    toggle_collapsed_directory(&mut collapsed, &path("a"));
    toggle_collapsed_directory(&mut collapsed, &path("a"));
    assert_eq!(collapsed, vec![path("b"), path("a")]);
}
