use synapse::markdown_command::{
    byte_to_char, char_to_byte, smart_enter_edit, trailing_fenced_code_block_paragraph_edit,
    try_smart_enter_edit, MarkdownEdit,
};

fn apply(source: &str, cursor: usize) -> (String, usize) {
    let edit = smart_enter_edit(source, cursor);
    let mut chars: Vec<char> = source.chars().collect();
    chars.splice(edit.range, edit.replacement.chars());
    (chars.into_iter().collect(), edit.cursor)
}

#[test]
fn p2_writ_continues_unordered_and_ordered_lists_on_plain_enter() {
    assert_eq!(apply("- 第一项", 5), ("- 第一项\n- ".to_owned(), 8));
    assert_eq!(apply("9. 第一项", 6), ("9. 第一项\n10. ".to_owned(), 11));
    assert_eq!(apply("9) 第一项", 6), ("9) 第一项\n10) ".to_owned(), 11));
}

#[test]
fn p2_writ_continues_task_list_as_unchecked() {
    assert_eq!(
        apply("- [x] 完成", 8),
        ("- [x] 完成\n- [ ] ".to_owned(), 15)
    );
}

#[test]
fn p2_writ_exits_empty_list_and_keeps_plain_enter_plain() {
    assert_eq!(apply("- ", 2), (String::new(), 0));
    assert_eq!(apply("普通段落", 4), ("普通段落\n".to_owned(), 5));
}

#[test]
fn p2_writ_cursor_conversion_preserves_emoji_and_chinese() {
    assert_eq!(apply("- 😀中文", 5), ("- 😀中文\n- ".to_owned(), 8));
}

#[test]
fn markdown_fence_enter_creates_a_complete_language_code_block() {
    assert_eq!(apply("```rust", 7), ("```rust\n\n```".to_owned(), 8));
    assert_eq!(
        apply("  ~~~typescript", 15),
        ("  ~~~typescript\n  \n  ~~~".to_owned(), 18)
    );
    assert_eq!(
        apply("```java  title=example", 22),
        ("```java  title=example\n\n```".to_owned(), 23)
    );
}

#[test]
fn markdown_fence_enter_reuses_an_existing_closing_fence() {
    assert_eq!(apply("```rust\n```", 7), ("```rust\n\n```".to_owned(), 8));
}

#[test]
fn markdown_fence_enter_rejects_inline_or_incomplete_markers() {
    assert_eq!(apply("text ```rust", 12), ("text ```rust\n".to_owned(), 13));
    assert_eq!(apply("``rust", 6), ("``rust\n".to_owned(), 7));
}

#[test]
fn third_enter_exits_a_fenced_code_block_and_removes_the_two_blank_lines() {
    let source = "```rust\nfn main() {}\n\n\n```";
    let cursor = source.rfind("\n```").unwrap();
    assert_eq!(
        apply(source, cursor),
        ("```rust\nfn main() {}\n```\n".to_owned(), 25)
    );

    let source = "```rust\nfn main() {}\n\n\n```\n下一段";
    let cursor = source.rfind("\n```").unwrap();
    assert_eq!(
        apply(source, cursor),
        ("```rust\nfn main() {}\n```\n下一段".to_owned(), 25)
    );
}

#[test]
fn first_and_second_code_block_enters_remain_inside_the_block() {
    let (after_first, cursor) = apply("```rust\nfn main() {}\n```", 20);
    assert_eq!(after_first, "```rust\nfn main() {}\n\n```");
    assert_eq!(cursor, 21);

    let (after_second, cursor) = apply(&after_first, cursor);
    assert_eq!(after_second, "```rust\nfn main() {}\n\n\n```");
    assert_eq!(cursor, 22);

    assert_eq!(
        apply(&after_second, cursor),
        ("```rust\nfn main() {}\n```\n".to_owned(), 25)
    );
}

#[test]
fn clicking_below_a_final_fenced_block_can_create_a_real_paragraph() {
    assert_eq!(
        trailing_fenced_code_block_paragraph_edit("```rust\ncode\n```"),
        Some(MarkdownEdit {
            range: 16..16,
            replacement: "\n".to_owned(),
            cursor: 17,
        })
    );
    assert!(trailing_fenced_code_block_paragraph_edit("普通段落").is_none());
    assert!(trailing_fenced_code_block_paragraph_edit("```rust\ncode").is_none());
}

#[test]
fn trailing_paragraph_edit_requires_a_matching_opening_fence() {
    assert!(trailing_fenced_code_block_paragraph_edit("```").is_none());
    assert!(trailing_fenced_code_block_paragraph_edit("~~~\ncode\n```").is_none());
    assert!(trailing_fenced_code_block_paragraph_edit("````\ncode\n```").is_some());
    assert!(trailing_fenced_code_block_paragraph_edit("```\ncode\n````").is_none());
    assert!(trailing_fenced_code_block_paragraph_edit("```rust\ncode\n```\n").is_none());
    assert!(trailing_fenced_code_block_paragraph_edit("```a`b\ncode\n```").is_none());
}

#[test]
fn fence_enter_keeps_indentation_and_tildes() {
    assert_eq!(apply("   ~~~~", 7), ("   ~~~~\n   \n   ~~~~".to_owned(), 11));
    assert_eq!(apply("    ```", 7), ("    ```\n".to_owned(), 8));
    assert_eq!(apply("```rust\n```\r", 7), ("```rust\n\n```\r".to_owned(), 8));
}

#[test]
fn cursor_offsets_convert_to_bytes_and_back() {
    let text: Vec<char> = "- 😀中文x".chars().collect();
    let bytes: Vec<usize> = (0..=text.len()).map(|k| char_to_byte(&text, k)).collect();
    assert_eq!(bytes, [0, 1, 2, 6, 9, 12, 13]);
    for (k, byte) in bytes.iter().enumerate() {
        assert_eq!(byte_to_char(&text, *byte), k);
    }
    assert_eq!(char_to_byte(&text, 99), 13);
    assert_eq!(byte_to_char(&text, 99), text.len());
}

#[test]
fn the_checked_enter_edit_agrees_and_fits_the_source() {
    for (source, cursor) in [("- 第一项", 5), ("- ", 2), ("> 引用", 4), ("```rust", 7), ("普通段落", 4)] {
        let edit = try_smart_enter_edit(source, cursor).expect("an Enter edit");
        assert_eq!(edit, smart_enter_edit(source, cursor));
        let n = source.chars().count();
        assert!(edit.range.start <= edit.range.end && edit.range.end <= n);
        assert!(edit.range.start <= edit.cursor);
        assert!(edit.cursor <= n - (edit.range.end - edit.range.start) + edit.replacement.chars().count());
    }
}
