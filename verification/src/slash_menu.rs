//! The slash menu of the editor: its commands, their labels and search keywords, and
//! the filter by the typed query.

use vstd::prelude::*;

use crate::preferences::{text_in, AppLanguage};
use crate::text::{chars_equal, chars_of, contains_exec, contains_seq, lowercase, push_str, string_of, to_lowercase, trim, trim_chars};

verus! {

/// A command of the slash menu.
#[derive(Clone, Copy, Debug, Eq, PartialEq)]
pub enum SlashCommand {
    NoteLink,
    Text,
    Heading1,
    Heading2,
    Heading3,
    BulletList,
    OrderedList,
    TaskList,
    Quote,
    CodeBlock,
    Divider,
    Table,
}

/// The commands in menu order.
pub open spec fn all_commands() -> Seq<SlashCommand> {
    seq![
        SlashCommand::NoteLink,
        SlashCommand::Text,
        SlashCommand::Heading1,
        SlashCommand::Heading2,
        SlashCommand::Heading3,
        SlashCommand::BulletList,
        SlashCommand::OrderedList,
        SlashCommand::TaskList,
        SlashCommand::Quote,
        SlashCommand::CodeBlock,
        SlashCommand::Divider,
        SlashCommand::Table,
    ]
}

/// The commands in menu order.
pub fn all_slash_commands() -> (all: [SlashCommand; 12])
    ensures
        all@ == all_commands(),
{
    let all = [
        SlashCommand::NoteLink,
        SlashCommand::Text,
        SlashCommand::Heading1,
        SlashCommand::Heading2,
        SlashCommand::Heading3,
        SlashCommand::BulletList,
        SlashCommand::OrderedList,
        SlashCommand::TaskList,
        SlashCommand::Quote,
        SlashCommand::CodeBlock,
        SlashCommand::Divider,
        SlashCommand::Table,
    ];
    assert(all@ =~= all_commands());
    all
}

/// The label of a command in `language`.
pub open spec fn label_of(language: AppLanguage, command: SlashCommand) -> Seq<char> {
    match command {
        SlashCommand::NoteLink => text_in(language, "链接到笔记"@, "Link to note"@),
        SlashCommand::Text => text_in(language, "正文"@, "Text"@),
        SlashCommand::Heading1 => text_in(language, "一级标题"@, "Heading 1"@),
        SlashCommand::Heading2 => text_in(language, "二级标题"@, "Heading 2"@),
        SlashCommand::Heading3 => text_in(language, "三级标题"@, "Heading 3"@),
        SlashCommand::BulletList => text_in(language, "无序列表"@, "Bullet list"@),
        SlashCommand::OrderedList => text_in(language, "有序列表"@, "Numbered list"@),
        SlashCommand::TaskList => text_in(language, "任务列表"@, "Task list"@),
        SlashCommand::Quote => text_in(language, "引用"@, "Quote"@),
        SlashCommand::CodeBlock => text_in(language, "代码块"@, "Code block"@),
        SlashCommand::Divider => text_in(language, "分割线"@, "Divider"@),
        SlashCommand::Table => text_in(language, "表格"@, "Table"@),
    }
}

/// The search keywords of a command, in both languages.
pub open spec fn keywords_of(command: SlashCommand) -> Seq<char> {
    match command {
        SlashCommand::NoteLink => "page link reference mention connect note 笔记 链接 引用"@,
        SlashCommand::Text => "paragraph plain text 正文 段落 文本"@,
        SlashCommand::Heading1 => "heading title big h1 一级 标题"@,
        SlashCommand::Heading2 => "heading subtitle section h2 二级 标题"@,
        SlashCommand::Heading3 => "heading subheading h3 三级 标题"@,
        SlashCommand::BulletList => "bullet unordered ul 无序 列表"@,
        SlashCommand::OrderedList => "numbered ordered ol 有序 列表"@,
        SlashCommand::TaskList => "task todo checkbox check 任务 待办 列表"@,
        SlashCommand::Quote => "quote blockquote 引用"@,
        SlashCommand::CodeBlock => "code snippet pre fence 代码 块"@,
        SlashCommand::Divider => "divider rule hr line separator 分割线"@,
        SlashCommand::Table => "table grid rows columns 表格"@,
    }
}

/// The label of a command in `language`.
pub fn slash_command_label(language: AppLanguage, command: SlashCommand) -> (s: &'static str)
    ensures
        s@ == label_of(language, command),
{
    match command {
        SlashCommand::NoteLink => language.text("链接到笔记", "Link to note"),
        SlashCommand::Text => language.text("正文", "Text"),
        SlashCommand::Heading1 => language.text("一级标题", "Heading 1"),
        SlashCommand::Heading2 => language.text("二级标题", "Heading 2"),
        SlashCommand::Heading3 => language.text("三级标题", "Heading 3"),
        SlashCommand::BulletList => language.text("无序列表", "Bullet list"),
        SlashCommand::OrderedList => language.text("有序列表", "Numbered list"),
        SlashCommand::TaskList => language.text("任务列表", "Task list"),
        SlashCommand::Quote => language.text("引用", "Quote"),
        SlashCommand::CodeBlock => language.text("代码块", "Code block"),
        SlashCommand::Divider => language.text("分割线", "Divider"),
        SlashCommand::Table => language.text("表格", "Table"),
    }
}

/// The search keywords of a command.
pub fn slash_command_keywords(command: SlashCommand) -> (s: &'static str)
    ensures
        s@ == keywords_of(command),
{
    match command {
        SlashCommand::NoteLink => "page link reference mention connect note 笔记 链接 引用",
        SlashCommand::Text => "paragraph plain text 正文 段落 文本",
        SlashCommand::Heading1 => "heading title big h1 一级 标题",
        SlashCommand::Heading2 => "heading subtitle section h2 二级 标题",
        SlashCommand::Heading3 => "heading subheading h3 三级 标题",
        SlashCommand::BulletList => "bullet unordered ul 无序 列表",
        SlashCommand::OrderedList => "numbered ordered ol 有序 列表",
        SlashCommand::TaskList => "task todo checkbox check 任务 待办 列表",
        SlashCommand::Quote => "quote blockquote 引用",
        SlashCommand::CodeBlock => "code snippet pre fence 代码 块",
        SlashCommand::Divider => "divider rule hr line separator 分割线",
        SlashCommand::Table => "table grid rows columns 表格",
    }
}

/// The menu shows the command: note links only where allowed, and only commands
/// whose label and keywords, lowercased, hold the query (all for an empty query).
pub open spec fn shown(language: AppLanguage, allow_note_links: bool, query: Seq<char>) -> spec_fn(SlashCommand) -> bool {
    |command: SlashCommand|
        (allow_note_links || command != SlashCommand::NoteLink) && (query.len() == 0 || contains_seq(
            lowercase(label_of(language, command) + seq![' '] + keywords_of(command)),
            query,
        ))
}

/// The commands the menu shows for `query`, in menu order; the query is trimmed and
/// lowercased.
pub fn filtered_slash_commands(query: &str, language: AppLanguage, allow_note_links: bool) -> (out: Vec<SlashCommand>)
    ensures
        out@ == all_commands().filter(shown(language, allow_note_links, lowercase(trim(query@)))),
{
    let trimmed = string_of(&trim_chars(query));
    let q = chars_of(to_lowercase(trimmed.as_str()).as_str());
    let ghost keep = shown(language, allow_note_links, q@);
    let all = all_slash_commands();
    let mut out: Vec<SlashCommand> = Vec::new();
    let mut i: usize = 0;
    proof {
        crate::todo_workspace::lemma_filter_none(all@, keep);
    }
    while i < 12
        invariant
            i <= 12,
            all@ == all_commands(),
            keep == shown(language, allow_note_links, q@),
            out@ == all@.take(i as int).filter(keep),
        decreases 12 - i,
    {
        let command = all[i];
        proof {
            crate::todo_workspace::lemma_filter_step(all@, keep, i as int);
        }
        let allowed = allow_note_links || match command {
            SlashCommand::NoteLink => false,
            _ => true,
        };
        let matched = allowed && (q.len() == 0 || {
            let mut text: Vec<char> = Vec::new();
            push_str(&mut text, slash_command_label(language, command));
            text.push(' ');
            push_str(&mut text, slash_command_keywords(command));
            let joined = string_of(&text);
            let lowered = chars_of(to_lowercase(joined.as_str()).as_str());
            proof {
                assert(joined@ =~= label_of(language, command) + seq![' '] + keywords_of(command));
            }
            contains_exec(&lowered, &q)
        });
        if matched {
            out.push(command);
        }
        proof {
            assert(matched == keep(all@[i as int]));
        }
        i += 1;
    }
    proof {
        assert(all@.take(12) =~= all@);
    }
    out
}

/// The commands the menu shows for `query`, in menu order.
pub open spec fn shown_commands(query: Seq<char>, language: AppLanguage, allow_note_links: bool) -> Seq<SlashCommand> {
    all_commands().filter(shown(language, allow_note_links, lowercase(trim(query))))
}

/// The open slash menu: what was typed after `/`, where the trigger stands in the note
/// (in characters), and the highlighted command.
#[derive(Debug, PartialEq, Eq)]
pub struct SlashMenuState {
    pub query: String,
    pub range: core::ops::Range<usize>,
    pub selected: usize,
}

/// The highlight after the menu is refreshed: the previous one, clamped to the last of
/// the `count` commands shown, when the trigger starts at `start` as before and its
/// query is unchanged; else the first command.
pub open spec fn refreshed_selection(previous: Option<&SlashMenuState>, query: Seq<char>, start: usize, count: nat) -> nat {
    match previous {
        Some(menu) => if menu.range.start == start && menu.query@ == query {
            if menu.selected < count {
                menu.selected as nat
            } else if count == 0 {
                0
            } else {
                (count - 1) as nat
            }
        } else {
            0
        },
        None => 0,
    }
}

impl SlashMenuState {
    /// The menu for a trigger with `query` at `range`, following the menu `previous`.
    pub fn refreshed(
        previous: Option<&SlashMenuState>,
        query: String,
        range: core::ops::Range<usize>,
        language: AppLanguage,
        allow_note_links: bool,
    ) -> (menu: SlashMenuState)
        ensures
            menu.query@ == query@,
            menu.range == range,
            menu.selected == refreshed_selection(
                previous,
                query@,
                range.start,
                shown_commands(query@, language, allow_note_links).len(),
            ),
    {
        let count = filtered_slash_commands(query.as_str(), language, allow_note_links).len();
        let keep = match previous {
            Some(menu) => menu.range.start == range.start && chars_equal(
                &chars_of(menu.query.as_str()),
                &chars_of(query.as_str()),
            ),
            None => false,
        };
        let selected = match previous {
            Some(menu) => if keep {
                if menu.selected < count {
                    menu.selected
                } else if count == 0 {
                    0
                } else {
                    count - 1
                }
            } else {
                0
            },
            None => 0,
        };
        SlashMenuState { query, range, selected }
    }

    /// Moves the highlight by `direction` among the commands shown, wrapping around at
    /// either end; nothing moves when no command is shown.
    pub fn move_selection(&mut self, direction: isize, language: AppLanguage, allow_note_links: bool)
        requires
            old(self).selected <= isize::MAX,
            old(self).selected + direction <= isize::MAX,
        ensures
            ({
                let count = shown_commands(old(self).query@, language, allow_note_links).len();
                final(self).selected == if count == 0 {
                    old(self).selected as int
                } else {
                    (old(self).selected + direction) % (count as int)
                }
            }),
            final(self).query == old(self).query,
            final(self).range == old(self).range,
    {
        let count = filtered_slash_commands(self.query.as_str(), language, allow_note_links).len();
        if count == 0 {
            return;
        }
        let position = self.selected as i128 + direction as i128;
        match position.checked_rem_euclid(count as i128) {
            Some(wrapped) => {
                self.selected = wrapped as usize;
            },
            None => {},
        }
    }
}

/// Every command is in the menu.
proof fn lemma_all_commands_hold(c: SlashCommand)
    ensures
        all_commands().contains(c),
{
    let all = all_commands();
    match c {
        SlashCommand::NoteLink => assert(all[0] == c),
        SlashCommand::Text => assert(all[1] == c),
        SlashCommand::Heading1 => assert(all[2] == c),
        SlashCommand::Heading2 => assert(all[3] == c),
        SlashCommand::Heading3 => assert(all[4] == c),
        SlashCommand::BulletList => assert(all[5] == c),
        SlashCommand::OrderedList => assert(all[6] == c),
        SlashCommand::TaskList => assert(all[7] == c),
        SlashCommand::Quote => assert(all[8] == c),
        SlashCommand::CodeBlock => assert(all[9] == c),
        SlashCommand::Divider => assert(all[10] == c),
        SlashCommand::Table => assert(all[11] == c),
    }
}

/// The menu shows a command for `query` exactly when it is allowed (note links only
/// where allowed) and either the query is blank or the lowercased "label keywords"
/// text of the command holds the query, trimmed and lowercased.
pub proof fn lemma_slash_filter_matches_lowercase(
    query: Seq<char>,
    language: AppLanguage,
    allow_note_links: bool,
    c: SlashCommand,
)
    ensures
        shown_commands(query, language, allow_note_links).contains(c) <==> {
            &&& (allow_note_links || c != SlashCommand::NoteLink)
            &&& (lowercase(trim(query)).len() == 0 || contains_seq(
                lowercase(label_of(language, c) + seq![' '] + keywords_of(c)),
                lowercase(trim(query)),
            ))
        },
{
    broadcast use vstd::seq_lib::group_filter_ensures;

    let keep = shown(language, allow_note_links, lowercase(trim(query)));
    lemma_all_commands_hold(c);
    let k = choose|k: int| 0 <= k < all_commands().len() && all_commands()[k] == c;
    if keep(c) {
        all_commands().lemma_filter_contains(keep, k);
    }
    if all_commands().filter(keep).contains(c) {
        let j = choose|j: int| 0 <= j < all_commands().filter(keep).len() && all_commands().filter(keep)[j] == c;
        assert(keep(all_commands().filter(keep)[j]));
    }
}

} // verus!
