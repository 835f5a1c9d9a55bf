use synapse::editor_format::{
    fenced_code_block_edit, inline_format_bounds, inline_format_edit, inline_format_is_active,
    inline_format_markers, markdown_link_context, normalize_clipboard_text,
    normalize_markdown_link_destination, selection_link_edit, InlineFormat, InlineFormatEdit,
};

#[test]
fn selection_menu_inline_formats_preserve_unicode_selection_and_toggle_cleanly() {
    let text = "前缀中文后缀";
    let edit = inline_format_edit(text, 2..4, InlineFormat::Bold).unwrap();
    assert_eq!(edit.replace_range, 2..4);
    assert_eq!(edit.replacement, "**中文**");
    assert_eq!(edit.selection, 4..6);

    let formatted = "前缀**中文**后缀";
    assert!(inline_format_is_active(formatted, 4..6, InlineFormat::Bold));
    assert_eq!(
        inline_format_edit(formatted, 4..6, InlineFormat::Bold),
        Some(InlineFormatEdit {
            replace_range: 2..8,
            replacement: "中文".to_owned(),
            selection: 2..4,
        })
    );
    assert!(!inline_format_is_active(
        formatted,
        4..6,
        InlineFormat::Italic
    ));
}

#[test]
fn format_shortcuts_insert_paired_markers_at_an_empty_cursor() {
    assert_eq!(
        inline_format_edit("中文", 1..1, InlineFormat::Bold),
        Some(InlineFormatEdit {
            replace_range: 1..1,
            replacement: "****".to_owned(),
            selection: 3..3,
        })
    );
    assert_eq!(
        inline_format_edit("中文", 1..1, InlineFormat::Code),
        Some(InlineFormatEdit {
            replace_range: 1..1,
            replacement: "``".to_owned(),
            selection: 2..2,
        })
    );
}

#[test]
fn code_block_shortcut_wraps_complete_lines_or_inserts_an_empty_block() {
    assert_eq!(
        fenced_code_block_edit("前言\n第一行\n第二行\n结尾", 4..9),
        Some(InlineFormatEdit {
            replace_range: 3..10,
            replacement: "```\n第一行\n第二行\n```".to_owned(),
            selection: 7..14,
        })
    );
    assert_eq!(
        fenced_code_block_edit("正文", 1..1),
        Some(InlineFormatEdit {
            replace_range: 1..1,
            replacement: "```\n\n```".to_owned(),
            selection: 5..5,
        })
    );
}

#[test]
fn selection_menu_link_parser_and_destination_normalizer_are_predictable() {
    assert_eq!(markdown_link_context("plain text", 0..5), None);
    assert_eq!(
        markdown_link_context("before [Synapse](docs/start.md) after", 8..15).map(|link| (
            link.outer,
            link.label,
            link.destination
        )),
        Some((7..31, "Synapse".to_owned(), "docs/start.md".to_owned()))
    );
    assert_eq!(
        normalize_markdown_link_destination("example.com/docs"),
        "https://example.com/docs"
    );
    assert_eq!(
        normalize_markdown_link_destination("../other.md"),
        "../other.md"
    );
}

#[test]
fn p2_clipboard_normalizes_platform_newlines_without_dropping_markdown() {
    assert_eq!(
        normalize_clipboard_text("# 标题\r\n\r\n- 第一项\r- 第二项"),
        "# 标题\n\n- 第一项\n- 第二项"
    );
}

#[test]
fn markers_of_each_format() {
    assert_eq!(inline_format_markers(InlineFormat::Bold), ("**", "**"));
    assert_eq!(inline_format_markers(InlineFormat::Italic), ("*", "*"));
    assert_eq!(inline_format_markers(InlineFormat::Underline), ("<u>", "</u>"));
    assert_eq!(inline_format_markers(InlineFormat::Strikethrough), ("~~", "~~"));
    assert_eq!(inline_format_markers(InlineFormat::Code), ("`", "`"));
}

#[test]
fn selected_markers_are_taken_off_and_bold_is_not_italic() {
    assert_eq!(
        inline_format_edit("a<u>b</u>c", 1..9, InlineFormat::Underline),
        Some(InlineFormatEdit {
            replace_range: 1..9,
            replacement: "b".to_owned(),
            selection: 1..2,
        })
    );
    assert_eq!(
        inline_format_bounds("x**y**z", 1..6, InlineFormat::Bold),
        Some((1..6, 3..4))
    );
    assert_eq!(inline_format_bounds("x**y**z", 1..6, InlineFormat::Italic), None);
    assert_eq!(inline_format_bounds("**y**", 2..3, InlineFormat::Italic), None);
    assert_eq!(inline_format_bounds("*y*", 1..2, InlineFormat::Italic), Some((0..3, 1..2)));
    assert_eq!(inline_format_edit("ab", 1..3, InlineFormat::Bold), None);
    assert_eq!(
        inline_format_edit("~~s~~", 2..3, InlineFormat::Strikethrough),
        Some(InlineFormatEdit {
            replace_range: 0..5,
            replacement: "s".to_owned(),
            selection: 0..1,
        })
    );
}

#[test]
fn code_block_edit_of_a_whole_text_and_out_of_range() {
    assert_eq!(
        fenced_code_block_edit("one", 0..3),
        Some(InlineFormatEdit {
            replace_range: 0..3,
            replacement: "```\none\n```".to_owned(),
            selection: 4..7,
        })
    );
    assert_eq!(fenced_code_block_edit("one", 0..4), None);
}

#[test]
fn link_context_finds_the_link_under_the_selection_only() {
    let text = "[a](x) and [bb](y)\n[c](z)";
    let second = markdown_link_context(text, 12..13).unwrap();
    assert_eq!(second.outer, 11..18);
    assert_eq!(second.label, "bb");
    assert_eq!(second.destination, "y");
    assert_eq!(markdown_link_context(text, 4..5), None);
    assert_eq!(markdown_link_context(text, 12..16), None);
    let third = markdown_link_context(text, 20..20).unwrap();
    assert_eq!(third.outer, 19..25);
    assert_eq!(markdown_link_context("[open](no close", 1..2), None);
    assert_eq!(markdown_link_context(text, 0..40), None);
}

#[test]
fn link_destinations_keep_schemes_paths_and_anchors() {
    assert_eq!(normalize_markdown_link_destination("  #top "), "#top");
    assert_eq!(normalize_markdown_link_destination("/abs"), "/abs");
    assert_eq!(normalize_markdown_link_destination("./here"), "./here");
    assert_eq!(normalize_markdown_link_destination("ftp://host"), "ftp://host");
    assert_eq!(normalize_markdown_link_destination("mailto:a@b.c"), "mailto:a@b.c");
    assert_eq!(normalize_markdown_link_destination("notes.md"), "https://notes.md");
}

#[test]
fn lone_carriage_returns_and_crlf_become_line_feeds() {
    assert_eq!(normalize_clipboard_text("a\r\r\nb\r"), "a\n\nb\n");
    assert_eq!(normalize_clipboard_text(""), "");
}

#[test]
fn link_menu_wraps_the_selection_or_rewrites_the_link_under_it() {
    assert_eq!(
        selection_link_edit("see docs here", 4..8, " example.com "),
        InlineFormatEdit {
            replace_range: 4..8,
            replacement: "[docs](https://example.com)".to_owned(),
            selection: 5..9,
        }
    );
    assert_eq!(
        selection_link_edit("a [b](c) d", 3..4, "../x.md"),
        InlineFormatEdit {
            replace_range: 2..8,
            replacement: "[b](../x.md)".to_owned(),
            selection: 3..4,
        }
    );
    assert_eq!(
        selection_link_edit("a [b](c) d", 3..4, "   "),
        InlineFormatEdit {
            replace_range: 2..8,
            replacement: "b".to_owned(),
            selection: 2..3,
        }
    );
}

#[test]
fn normalizing_clipboard_text_twice_changes_nothing_more() {
    let once = normalize_clipboard_text("a\r\nb\rc\r\r\n");
    assert!(!once.contains('\r'));
    assert_eq!(normalize_clipboard_text(&once), once);
}
