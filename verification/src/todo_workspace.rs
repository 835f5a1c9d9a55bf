//! The todo workspace: tags, todos with multiple tags, the tag filter, and the text
//! formats that persist them.

use vstd::prelude::*;

use crate::preferences::{text_in, AppLanguage};
use crate::text::{
    lowercase, to_lowercase, after_first_line, all_ws, chars_equal, chars_of, count_lead_ws, decimal, decimal_of, find_char,
    first_line, index_of_char, lemma_decimal_digits, lemma_index_of_char_at, lemma_lead_ws_bounds, lemma_trim_empty,
    lemma_trim_last_nonblank, lines_of, next_line, parse_decimal, parse_unsigned, push_all,
    push_str, slice_chars, starts_with, string_of, trim, trim_chars,
};
use crate::todo_codec::{
    chars_for_bytes, decode_tag_list, decode_tags_chars, decode_tags_seq, encode_tags,
    encode_tags_seq, escape_char, escape_field, escape_seq, lemma_decode_encode_tags,
    lemma_encode_tags_clean, lemma_escape_no_separators, lemma_unescape_escape, strings_view,
    tags_fit, unescape_chars, unescape_seq,
};

verus! {

/// Longest tag name, in characters.
pub const TAG_NAME_MAX_CHARS: usize = 48;

/// Longest todo text, in characters.
pub const TODO_TEXT_MAX_CHARS: usize = 500;

/// A tag that todos can carry.
#[derive(Clone, Debug, Eq, PartialEq)]
pub struct TodoTag {
    pub id: u64,
    pub name: String,
    pub color_index: usize,
}

/// One todo.
#[derive(Clone, Debug, Eq, PartialEq)]
pub struct TodoItem {
    pub id: u64,
    pub text: String,
    pub done: bool,
    pub tags: Vec<String>,
}

/// What toggling a todo did.
#[derive(Clone, Copy, Debug, Eq, PartialEq)]
pub enum TodoToggleOutcome {
    Missing,
    Updated,
    Removed,
}

/// Why a tag name was refused.
#[derive(Clone, Copy, Debug, Eq, PartialEq)]
pub enum AddTodoTagError {
    Empty,
    Duplicate,
    TooLong,
}

/// Why a todo text was refused.
#[derive(Clone, Copy, Debug, Eq, PartialEq)]
pub enum TodoTextError {
    Empty,
    TooLong,
}

/// The todo workspace: tags in creation order, todos newest first, the selected tag,
/// and the next identifiers to hand out.
#[derive(Clone, Debug, Eq, PartialEq)]
pub struct TodoWorkspace {
    tags: Vec<TodoTag>,
    todos: Vec<TodoItem>,
    selected_tag_id: Option<u64>,
    next_tag_id: u64,
    next_todo_id: u64,
}

impl TodoTag {
    /// The tag's identifier.
    pub fn id(&self) -> (id: u64)
        ensures
            id == self.id,
    {
        self.id
    }

    /// The tag's name.
    pub fn name(&self) -> (name: &str)
        ensures
            name@ == self.name@,
    {
        self.name.as_str()
    }

    /// A copy of the tag.
    pub fn duplicate(&self) -> (t: TodoTag)
        ensures
            t.id == self.id && t.name@ == self.name@ && t.color_index == self.color_index,
    {
        TodoTag { id: self.id, name: self.name.clone(), color_index: self.color_index }
    }
}

/// Filtering one more element of `s`.
pub proof fn lemma_filter_step<A>(s: Seq<A>, p: spec_fn(A) -> bool, i: int)
    requires
        0 <= i < s.len(),
    ensures
        s.take(i + 1).filter(p) == if p(s[i]) {
            s.take(i).filter(p).push(s[i])
        } else {
            s.take(i).filter(p)
        },
{
    reveal(Seq::filter);
    assert(s.take(i + 1).drop_last() =~= s.take(i));
    assert(s.take(i + 1).last() == s[i]);
}

/// Filtering nothing gives nothing.
pub proof fn lemma_filter_none<A>(s: Seq<A>, p: spec_fn(A) -> bool)
    ensures
        s.take(0).filter(p) == Seq::<A>::empty(),
{
    reveal(Seq::filter);
    assert(s.take(0) =~= Seq::<A>::empty());
}

/// The characters of a todo: `(id, text, done, tags)`.
pub open spec fn item_view(t: TodoItem) -> (u64, Seq<char>, bool, Seq<Seq<char>>) {
    (t.id, t.text@, t.done, strings_view(t.tags@))
}

/// The characters of a list of todos.
pub open spec fn items_view(v: Seq<TodoItem>) -> Seq<(u64, Seq<char>, bool, Seq<Seq<char>>)> {
    Seq::new(v.len(), |i: int| item_view(v[i]))
}

/// Appending todos with equal characters keeps the characters of two lists equal.
pub proof fn lemma_items_view_push(a: Seq<TodoItem>, x: TodoItem, b: Seq<TodoItem>, y: TodoItem)
    requires
        items_view(a) == items_view(b),
        item_view(x) == item_view(y),
    ensures
        items_view(a.push(x)) == items_view(b.push(y)),
{
    assert(items_view(a).len() == a.len());
    assert(items_view(b).len() == b.len());
    assert forall|k: int| 0 <= k < a.len() + 1 implies #[trigger] items_view(a.push(x))[k] == items_view(b.push(y))[k] by {
        if k < a.len() {
            assert(items_view(a)[k] == items_view(b)[k]);
        }
    }
    assert(items_view(a.push(x)) =~= items_view(b.push(y)));
}

/// A copy of the strings of `v`.
pub(crate) fn copy_strings(v: &Vec<String>) -> (out: Vec<String>)
    ensures
        strings_view(out@) == strings_view(v@),
{
    let mut out: Vec<String> = Vec::new();
    let mut i: usize = 0;
    while i < v.len()
        invariant
            i <= v.len(),
            strings_view(out@) == strings_view(v@).take(i as int),
        decreases v.len() - i,
    {
        let ghost before = out@;
        assert(strings_view(before).len() == before.len());
        assert(before.len() == i);
        let c = v[i].clone();
        out.push(c);
        proof {
            assert forall|k: int| 0 <= k < before.len() implies (#[trigger] out@[k])@ == v@[k]@ by {
                assert(out@[k] == before[k]);
                assert(strings_view(before)[k] == before[k]@);
                assert(strings_view(v@).len() == v@.len());
                assert(strings_view(v@)[k] == v@[k]@);
                assert(strings_view(v@).take(i as int)[k] == strings_view(v@)[k]);
            }
        }
        i += 1;
        assert(strings_view(out@) =~= strings_view(v@).take(i as int));
    }
    assert(strings_view(v@).take(v.len() as int) =~= strings_view(v@));
    out
}

impl TodoItem {
    /// A copy of the todo.
    pub fn duplicate(&self) -> (t: TodoItem)
        ensures
            item_view(t) == item_view(*self),
    {
        TodoItem { id: self.id, text: self.text.clone(), done: self.done, tags: copy_strings(&self.tags) }
    }
}

/// `i` is the first position of a tag with identifier `id`.
pub open spec fn first_tag(tags: Seq<TodoTag>, id: u64, i: int) -> bool {
    0 <= i < tags.len() && tags[i].id == id && forall|j: int| 0 <= j < i ==> tags[j].id != id
}

/// Some tag has identifier `id`.
pub open spec fn has_tag_id(tags: Seq<TodoTag>, id: u64) -> bool {
    exists|i: int| 0 <= i < tags.len() && tags[i].id == id
}

/// The first position of a tag with identifier `id`.
pub open spec fn tag_index(tags: Seq<TodoTag>, id: u64) -> int {
    choose|i: int| first_tag(tags, id, i)
}

/// The name of the first tag with identifier `id`.
pub open spec fn tag_name(tags: Seq<TodoTag>, id: u64) -> Option<Seq<char>> {
    if has_tag_id(tags, id) {
        Some(tags[tag_index(tags, id)].name@)
    } else {
        None
    }
}

/// A tag with identifier `id` has a first position.
pub proof fn lemma_first_tag_exists(tags: Seq<TodoTag>, id: u64)
    requires
        has_tag_id(tags, id),
    ensures
        first_tag(tags, id, tag_index(tags, id)),
    decreases tags.len(),
{
    if tags[0].id == id {
        assert(first_tag(tags, id, 0));
    } else {
        let rest = tags.drop_first();
        let w = choose|i: int| 0 <= i < tags.len() && tags[i].id == id;
        assert(rest[w - 1].id == id);
        lemma_first_tag_exists(rest, id);
        let k = tag_index(rest, id);
        assert forall|j: int| 0 <= j < k + 1 implies tags[j].id != id by {
            if j > 0 {
                assert(tags[j] == rest[j - 1]);
            }
        }
        assert(first_tag(tags, id, k + 1));
    }
}

/// A todo with identifier `id` has a first position.
pub proof fn lemma_first_todo_exists(todos: Seq<TodoItem>, id: u64)
    requires
        has_todo(todos, id),
    ensures
        first_todo(todos, id, todo_index(todos, id)),
    decreases todos.len(),
{
    if todos[0].id == id {
        assert(first_todo(todos, id, 0));
    } else {
        let rest = todos.drop_first();
        let w = choose|i: int| 0 <= i < todos.len() && todos[i].id == id;
        assert(rest[w - 1].id == id);
        lemma_first_todo_exists(rest, id);
        let k = todo_index(rest, id);
        assert forall|j: int| 0 <= j < k + 1 implies todos[j].id != id by {
            if j > 0 {
                assert(todos[j] == rest[j - 1]);
            }
        }
        assert(first_todo(todos, id, k + 1));
    }
}

/// `i` is the first position of a todo with identifier `id`.
pub open spec fn first_todo(todos: Seq<TodoItem>, id: u64, i: int) -> bool {
    0 <= i < todos.len() && todos[i].id == id && forall|j: int| 0 <= j < i ==> todos[j].id != id
}

/// Some todo has identifier `id`.
pub open spec fn has_todo(todos: Seq<TodoItem>, id: u64) -> bool {
    exists|i: int| 0 <= i < todos.len() && todos[i].id == id
}

/// The first position of a todo with identifier `id`.
pub open spec fn todo_index(todos: Seq<TodoItem>, id: u64) -> int {
    choose|i: int| first_todo(todos, id, i)
}

/// The todo carries a tag named `name`.
pub open spec fn carries(t: TodoItem, name: Seq<char>) -> bool {
    strings_view(t.tags@).contains(name)
}

/// Keeps the todos that carry `name`, or all of them when there is no name.
pub open spec fn shows_under(name: Option<Seq<char>>) -> spec_fn(TodoItem) -> bool {
    |t: TodoItem|
        match name {
            None => true,
            Some(n) => carries(t, n),
        }
}

/// Keeps the todos that are done.
pub open spec fn is_done() -> spec_fn(TodoItem) -> bool {
    |t: TodoItem| t.done
}

/// Keeps the todos that are not done.
pub open spec fn is_open() -> spec_fn(TodoItem) -> bool {
    |t: TodoItem| !t.done
}

/// Keeps the todos whose identifier is not `id`.
pub open spec fn id_is_not(id: u64) -> spec_fn(TodoItem) -> bool {
    |t: TodoItem| t.id != id
}

/// Keeps the tag names other than `name`.
pub open spec fn name_is_not(name: Seq<char>) -> spec_fn(Seq<char>) -> bool {
    |s: Seq<char>| s != name
}

/// `t` is `old` with its tag list replaced by `tags`.
pub open spec fn retagged(t: TodoItem, old: TodoItem, tags: Seq<Seq<char>>) -> bool {
    t.id == old.id && t.text == old.text && t.done == old.done && strings_view(t.tags@) == tags
}

/// Tag names as the workspace holds them: trimmed, non-empty, at most 48 characters,
/// and distinct ignoring case.
pub open spec fn tag_names_ok(names: Seq<Seq<char>>) -> bool {
    &&& forall|i: int| 0 <= i < names.len() ==> trim(#[trigger] names[i]) == names[i] && 0 < names[i].len()
        <= TAG_NAME_MAX_CHARS
    &&& forall|i: int, j: int| 0 <= i < j < names.len() ==> lowercase(#[trigger] names[i]) != lowercase(
        #[trigger] names[j],
    )
}

/// Tag names as a todo holds them: none empty, none twice.
pub open spec fn names_ok(names: Seq<Seq<char>>) -> bool {
    &&& forall|i: int| 0 <= i < names.len() ==> (#[trigger] names[i]).len() > 0
    &&& names.no_duplicates()
}

/// The todos the workspace holds: the text is not blank, and the tags are non-empty
/// and distinct.
#[verifier::opaque]
pub open spec fn todo_ok(t: TodoItem) -> bool {
    &&& !all_ws(t.text@)
    &&& names_ok(strings_view(t.tags@))
}

/// Dropping names from the first `i` keeps them non-empty and distinct, and takes
/// them from those `i`.
proof fn lemma_filter_names_ok_upto(names: Seq<Seq<char>>, p: spec_fn(Seq<char>) -> bool, i: int)
    requires
        names_ok(names),
        0 <= i <= names.len(),
    ensures
        names_ok(names.take(i).filter(p)),
        forall|x: Seq<char>| names.take(i).filter(p).contains(x) ==> names.take(i).contains(x),
    decreases i,
{
    if i == 0 {
        lemma_filter_none(names, p);
        assert(names.take(0).filter(p).len() == 0);
    } else {
        let h = i - 1;
        lemma_filter_names_ok_upto(names, p, h);
        lemma_filter_step(names, p, h);
        let f = names.take(h).filter(p);
        if p(names[h]) {
            if f.contains(names[h]) {
                assert(names.take(h).contains(names[h]));
                let j = choose|j: int| 0 <= j < names.take(h).len() && names.take(h)[j] == names[h];
                assert(names[j] == names[h]);
            }
            let g = f.push(names[h]);
            assert forall|a: int, b: int| 0 <= a < g.len() && 0 <= b < g.len() && a != b implies g[a] != g[b] by {
                if b == g.len() - 1 {
                    assert(g[b] == names[h]);
                    assert(f.contains(g[a]));
                } else if a == g.len() - 1 {
                    assert(g[a] == names[h]);
                    assert(f.contains(g[b]));
                } else {
                    assert(g[a] == f[a] && g[b] == f[b]);
                }
            }
            assert forall|x: Seq<char>| g.contains(x) implies names.take(i).contains(x) by {
                let a = choose|a: int| 0 <= a < g.len() && g[a] == x;
                if a < f.len() {
                    assert(f.contains(x));
                    assert(names.take(h).contains(x));
                    let c = choose|c: int| 0 <= c < names.take(h).len() && names.take(h)[c] == x;
                    assert(names.take(i)[c] == x);
                } else {
                    assert(names.take(i)[h] == x);
                }
            }
        } else {
            assert forall|x: Seq<char>| f.contains(x) implies names.take(i).contains(x) by {
                assert(names.take(h).contains(x));
                let c = choose|c: int| 0 <= c < names.take(h).len() && names.take(h)[c] == x;
                assert(names.take(i)[c] == x);
            }
        }
    }
}

/// Dropping names keeps them non-empty and distinct.
pub proof fn lemma_filter_names_ok(names: Seq<Seq<char>>, p: spec_fn(Seq<char>) -> bool)
    requires
        names_ok(names),
    ensures
        names_ok(names.filter(p)),
{
    lemma_filter_names_ok_upto(names, p, names.len() as int);
    assert(names.take(names.len() as int) =~= names);
}

impl TodoWorkspace {
    /// The tags, in creation order.
    pub closed spec fn tag_seq(&self) -> Seq<TodoTag> {
        self.tags@
    }

    /// The todos, newest first.
    pub closed spec fn todo_seq(&self) -> Seq<TodoItem> {
        self.todos@
    }

    /// The selected tag, if any.
    pub closed spec fn selected(&self) -> Option<u64> {
        self.selected_tag_id
    }

    /// The next tag identifier to hand out.
    pub closed spec fn next_tag(&self) -> u64 {
        self.next_tag_id
    }

    /// The next todo identifier to hand out.
    pub closed spec fn next_todo(&self) -> u64 {
        self.next_todo_id
    }

    /// Well-formed: tag names are trimmed, non-empty, at most 48 characters and
    /// distinct ignoring case; todo texts are not blank, and each todo's tags are
    /// non-empty and distinct.
    pub open spec fn wf(&self) -> bool {
        &&& tag_names_ok(tag_names(self.tag_seq()))
        &&& forall|i: int| 0 <= i < self.todo_seq().len() ==> todo_ok(#[trigger] self.todo_seq()[i])
    }

    /// Every tag identifier in use is below the one handed out next.
    pub open spec fn tag_ids_fresh(&self) -> bool {
        forall|i: int| 0 <= i < self.tag_seq().len() ==> #[trigger] self.tag_seq()[i].id < fresh_id(self.next_tag())
    }

    /// Every todo identifier in use is below the one handed out next.
    pub open spec fn todo_ids_fresh(&self) -> bool {
        forall|i: int| 0 <= i < self.todo_seq().len() ==> #[trigger] self.todo_seq()[i].id < fresh_id(self.next_todo())
    }

    /// The identifiers handed out next are not in use: every identifier in use is below
    /// them. Every operation keeps this, but for adding a tag or todo once its counter
    /// has reached `u64::MAX` (that identifier is then handed out again).
    pub open spec fn ids_fresh(&self) -> bool {
        self.tag_ids_fresh() && self.todo_ids_fresh()
    }

    /// The name of the selected tag, when it exists.
    pub open spec fn selected_name(&self) -> Option<Seq<char>> {
        match self.selected() {
            None => None,
            Some(id) => tag_name(self.tag_seq(), id),
        }
    }

    /// An empty workspace.
    pub fn new() -> (ws: TodoWorkspace)
        ensures
            ws.tag_seq().len() == 0,
            ws.todo_seq().len() == 0,
            ws.selected() is None,
            ws.ids_fresh(),
            ws.next_tag() == 0,
            ws.next_todo() == 0,
            ws.wf(),
    {
        TodoWorkspace { tags: Vec::new(), todos: Vec::new(), selected_tag_id: None, next_tag_id: 0, next_todo_id: 0 }
    }

    /// The tags, in creation order.
    pub fn tags(&self) -> (tags: &[TodoTag])
        ensures
            tags@ == self.tag_seq(),
    {
        self.tags.as_slice()
    }

    /// The todos, newest first.
    pub fn todos(&self) -> (todos: &[TodoItem])
        ensures
            todos@ == self.todo_seq(),
    {
        self.todos.as_slice()
    }

    /// The selected tag, if any.
    pub fn selected_tag_id(&self) -> (id: Option<u64>)
        ensures
            id == self.selected(),
    {
        self.selected_tag_id
    }

    /// Number of todos.
    pub fn total_count(&self) -> (n: usize)
        ensures
            n == self.todo_seq().len(),
    {
        self.todos.len()
    }

    /// Number of todos that are done.
    pub fn completed_count(&self) -> (n: usize)
        ensures
            n == self.todo_seq().filter(is_done()).len(),
    {
        let mut n: usize = 0;
        let mut i: usize = 0;
        proof {
            lemma_filter_none(self.todos@, is_done());
        }
        while i < self.todos.len()
            invariant
                i <= self.todos.len(),
                n == self.todos@.take(i as int).filter(is_done()).len(),
                n <= i,
            decreases self.todos.len() - i,
        {
            proof {
                lemma_filter_step(self.todos@, is_done(), i as int);
            }
            if self.todos[i].done {
                n += 1;
            }
            i += 1;
        }
        proof {
            assert(self.todos@.take(self.todos.len() as int) =~= self.todos@);
        }
        n
    }

    /// The position of the first tag with identifier `id`.
    fn tag_position(&self, id: u64) -> (r: Option<usize>)
        ensures
            match r {
                Some(i) => first_tag(self.tag_seq(), id, i as int) && i == tag_index(self.tag_seq(), id)
                    && has_tag_id(self.tag_seq(), id),
                None => !has_tag_id(self.tag_seq(), id),
            },
    {
        let mut i: usize = 0;
        while i < self.tags.len()
            invariant
                i <= self.tags.len(),
                forall|j: int| 0 <= j < i ==> self.tags@[j].id != id,
            decreases self.tags.len() - i,
        {
            if self.tags[i].id == id {
                proof {
                    let c = tag_index(self.tags@, id);
                    assert(first_tag(self.tags@, id, i as int));
                    if c < i {
                        assert(self.tags@[c].id != id);
                    } else if c > i {
                        assert(!first_tag(self.tags@, id, c));
                    }
                }
                return Some(i);
            }
            i += 1;
        }
        None
    }

    /// The position of the first todo with identifier `id`.
    fn todo_position(&self, id: u64) -> (r: Option<usize>)
        ensures
            match r {
                Some(i) => first_todo(self.todo_seq(), id, i as int) && i == todo_index(self.todo_seq(), id)
                    && has_todo(self.todo_seq(), id),
                None => !has_todo(self.todo_seq(), id),
            },
    {
        let mut i: usize = 0;
        while i < self.todos.len()
            invariant
                i <= self.todos.len(),
                forall|j: int| 0 <= j < i ==> self.todos@[j].id != id,
            decreases self.todos.len() - i,
        {
            if self.todos[i].id == id {
                proof {
                    let c = todo_index(self.todos@, id);
                    assert(first_todo(self.todos@, id, i as int));
                    if c < i {
                        assert(self.todos@[c].id != id);
                    } else if c > i {
                        assert(!first_todo(self.todos@, id, c));
                    }
                }
                return Some(i);
            }
            i += 1;
        }
        None
    }

    /// The name of the selected tag, when it exists.
    pub fn selected_tag_name(&self) -> (name: Option<&str>)
        ensures
            match self.selected_name() {
                Some(n) => name matches Some(x) && x@ == n,
                None => name is None,
            },
    {
        let id = match self.selected_tag_id {
            Some(id) => id,
            None => return None,
        };
        match self.tag_position(id) {
            Some(i) => Some(self.tags[i].name.as_str()),
            None => None,
        }
    }

    /// The todos shown under the selected tag (all of them without one), newest first.
    pub fn visible_todos(&self) -> (out: Vec<TodoItem>)
        ensures
            items_view(out@) == items_view(self.todo_seq().filter(shows_under(self.selected_name()))),
    {
        let name = match self.selected_tag_name() {
            Some(n) => Some(chars_of(n)),
            None => None,
        };
        let ghost keep = shows_under(self.selected_name());
        let mut out: Vec<TodoItem> = Vec::new();
        let mut i: usize = 0;
        proof {
            lemma_filter_none(self.todos@, keep);
            assert(items_view(out@) =~= items_view(Seq::<TodoItem>::empty()));
        }
        while i < self.todos.len()
            invariant
                i <= self.todos.len(),
                keep == shows_under(self.selected_name()),
                match self.selected_name() {
                    Some(n) => name matches Some(x) && x@ == n,
                    None => name is None,
                },
                items_view(out@) == items_view(self.todos@.take(i as int).filter(keep)),
            decreases self.todos.len() - i,
        {
            let item = &self.todos[i];
            let shown = match &name {
                None => true,
                Some(n) => carries_name(item, n),
            };
            let ghost before = out@;
            proof {
                lemma_filter_step(self.todos@, keep, i as int);
                assert(shown == keep(self.todos@[i as int]));
            }
            if shown {
                let copy = item.duplicate();
                out.push(copy);
                proof {
                    let f = self.todos@.take(i as int).filter(keep);
                    lemma_items_view_push(before, copy, f, self.todos@[i as int]);
                }
            }
            i += 1;
        }
        proof {
            assert(self.todos@.take(self.todos.len() as int) =~= self.todos@);
        }
        out
    }

    /// All todos, done or not, newest first.
    pub fn sidebar_todos(&self) -> (out: Vec<TodoItem>)
        ensures
            items_view(out@) == items_view(self.todo_seq()),
    {
        let mut out: Vec<TodoItem> = Vec::new();
        let mut i: usize = 0;
        while i < self.todos.len()
            invariant
                i <= self.todos.len(),
                items_view(out@) == items_view(self.todos@.take(i as int)),
            decreases self.todos.len() - i,
        {
            let ghost before = out@;
            let copy = self.todos[i].duplicate();
            out.push(copy);
            proof {
                lemma_items_view_push(before, copy, self.todos@.take(i as int), self.todos@[i as int]);
                assert(self.todos@.take(i as int).push(self.todos@[i as int]) =~= self.todos@.take(i + 1));
            }
            i += 1;
        }
        assert(self.todos@.take(self.todos.len() as int) =~= self.todos@);
        out
    }

    /// Number of todos that carry the tag `tag_id`; zero for an unknown tag.
    pub fn tag_usage_count(&self, tag_id: u64) -> (n: usize)
        ensures
            n == match tag_name(self.tag_seq(), tag_id) {
                None => 0,
                Some(name) => self.todo_seq().filter(shows_under(Some(name))).len(),
            },
    {
        let position = match self.tag_position(tag_id) {
            Some(p) => p,
            None => return 0,
        };
        let name = chars_of(self.tags[position].name.as_str());
        let ghost keep = shows_under(Some(name@));
        let mut n: usize = 0;
        let mut i: usize = 0;
        proof {
            lemma_filter_none(self.todos@, keep);
        }
        while i < self.todos.len()
            invariant
                i <= self.todos.len(),
                keep == shows_under(Some(name@)),
                n == self.todos@.take(i as int).filter(keep).len(),
                n <= i,
            decreases self.todos.len() - i,
        {
            proof {
                lemma_filter_step(self.todos@, keep, i as int);
            }
            if carries_name(&self.todos[i], &name) {
                n += 1;
            }
            i += 1;
        }
        proof {
            assert(self.todos@.take(self.todos.len() as int) =~= self.todos@);
        }
        n
    }

    /// The text of the todo `todo_id`.
    pub fn todo_text(&self, todo_id: u64) -> (text: Option<String>)
        ensures
            match text {
                Some(t) => has_todo(self.todo_seq(), todo_id) && t@ == self.todo_seq()[todo_index(
                    self.todo_seq(),
                    todo_id,
                )].text@,
                None => !has_todo(self.todo_seq(), todo_id),
            },
    {
        match self.todo_position(todo_id) {
            Some(i) => Some(self.todos[i].text.clone()),
            None => None,
        }
    }

    /// Whether the todo `todo_id` is done.
    pub fn todo_is_done(&self, todo_id: u64) -> (done: Option<bool>)
        ensures
            done == if has_todo(self.todo_seq(), todo_id) {
                Some(self.todo_seq()[todo_index(self.todo_seq(), todo_id)].done)
            } else {
                None
            },
    {
        match self.todo_position(todo_id) {
            Some(i) => Some(self.todos[i].done),
            None => None,
        }
    }

    /// Whether some todo has identifier `todo_id`.
    pub fn contains_todo(&self, todo_id: u64) -> (b: bool)
        ensures
            b == has_todo(self.todo_seq(), todo_id),
    {
        self.todo_position(todo_id).is_some()
    }
}

/// Whether the todo carries a tag named `name`.
fn carries_name(item: &TodoItem, name: &Vec<char>) -> (b: bool)
    ensures
        b == carries(*item, name@),
{
    let mut i: usize = 0;
    while i < item.tags.len()
        invariant
            i <= item.tags.len(),
            forall|j: int| 0 <= j < i ==> item.tags@[j]@ != name@,
        decreases item.tags.len() - i,
    {
        if chars_equal(&chars_of(item.tags[i].as_str()), name) {
            assert(strings_view(item.tags@)[i as int] == name@);
            return true;
        }
        i += 1;
    }
    proof {
        if strings_view(item.tags@).contains(name@) {
            let j = choose|j: int| 0 <= j < strings_view(item.tags@).len() && strings_view(item.tags@)[j] == name@;
            assert(item.tags@[j]@ == name@);
        }
    }
    false
}

/// `id + 1`, or `u64::MAX` when that would overflow.
pub open spec fn next_id(id: u64) -> u64 {
    if id == u64::MAX {
        u64::MAX
    } else {
        (id + 1) as u64
    }
}

/// The identifier handed out next: the counter, but at least 1.
pub open spec fn fresh_id(counter: u64) -> u64 {
    if counter == 0 {
        1
    } else {
        counter
    }
}

/// Keeping some of the todos keeps their identifiers below the next one.
proof fn lemma_todo_ids_fresh_filter(old: TodoWorkspace, new: TodoWorkspace, p: spec_fn(TodoItem) -> bool)
    requires
        old.todo_ids_fresh(),
        new.todo_seq() == old.todo_seq().filter(p),
        new.next_todo() == old.next_todo(),
    ensures
        new.todo_ids_fresh(),
{
    assert forall|i: int| 0 <= i < new.todo_seq().len() implies #[trigger] new.todo_seq()[i].id < fresh_id(
        new.next_todo(),
    ) by {
        let x = new.todo_seq()[i];
        assert(old.todo_seq().filter(p).contains(x));
        old.todo_seq().lemma_filter_contains_rev(p, x);
        let j = choose|j: int| 0 <= j < old.todo_seq().len() && old.todo_seq()[j] == x;
        assert(old.todo_seq()[j].id < fresh_id(old.next_todo()));
    }
}

/// Removing the elements that `p` refuses, one position at a time.
proof fn lemma_retain_keep<A>(old: Seq<A>, p: spec_fn(A) -> bool, j: int)
    requires
        0 <= j < old.len(),
        p(old[j]),
    ensures
        old.take(j).filter(p) + old.skip(j) == old.take(j + 1).filter(p) + old.skip(j + 1),
        (old.take(j).filter(p) + old.skip(j))[old.take(j).filter(p).len() as int] == old[j],
{
    lemma_filter_step(old, p, j);
    let f = old.take(j).filter(p);
    assert(f + old.skip(j) =~= f.push(old[j]) + old.skip(j + 1));
}

proof fn lemma_retain_drop<A>(old: Seq<A>, p: spec_fn(A) -> bool, j: int)
    requires
        0 <= j < old.len(),
        !p(old[j]),
    ensures
        (old.take(j).filter(p) + old.skip(j)).remove(old.take(j).filter(p).len() as int) == old.take(j + 1).filter(p)
            + old.skip(j + 1),
        (old.take(j).filter(p) + old.skip(j))[old.take(j).filter(p).len() as int] == old[j],
{
    lemma_filter_step(old, p, j);
    let f = old.take(j).filter(p);
    assert((f + old.skip(j)).remove(f.len() as int) =~= f + old.skip(j + 1));
}


/// The todos that dropping by `target` keeps: those whose identifier is not the
/// target, or the open ones when there is no target.
pub open spec fn kept_by(target: Option<u64>) -> spec_fn(TodoItem) -> bool {
    match target {
        Some(id) => id_is_not(id),
        None => is_open(),
    }
}

/// Drops the todos that `kept_by(target)` refuses, keeping the order of the others;
/// returns how many were dropped.
fn drop_todos(todos: &mut Vec<TodoItem>, target: Option<u64>) -> (n: usize)
    ensures
        final(todos)@ == old(todos)@.filter(kept_by(target)),
        n == old(todos)@.len() - final(todos)@.len(),
        n > 0 <==> exists|j: int| 0 <= j < old(todos)@.len() && !kept_by(target)(old(todos)@[j]),
{
    let ghost keep = kept_by(target);
    let ghost before = todos@;
    let mut i: usize = 0;
    let mut n: usize = 0;
    let ghost mut j: int = 0;
    proof {
        assert(before.len() == todos.len());
        lemma_filter_none(before, keep);
        assert(before.take(0).filter(keep) + before.skip(0) =~= before);
    }
    while i < todos.len()
        invariant
            keep == kept_by(target),
            before.len() <= usize::MAX,
            0 <= j <= before.len(),
            todos@ == before.take(j).filter(keep) + before.skip(j),
            i == before.take(j).filter(keep).len(),
            n == j - i,
            n > 0 <==> exists|m: int| 0 <= m < j && !keep(before[m]),
        decreases before.len() - j,
    {
        proof {
            assert(todos@.len() == i + before.len() - j);
            assert(j < before.len());
            assert(todos@[i as int] == before[j]);
        }
        let drop = match target {
            Some(id) => todos[i].id == id,
            None => todos[i].done,
        };
        proof {
            assert(drop == !keep(before[j]));
            lemma_filter_step(before, keep, j);
        }
        if drop {
            proof {
                lemma_retain_drop(before, keep, j);
            }
            todos.remove(i);
            n += 1;
            proof {
                j = j + 1;
            }
        } else {
            proof {
                lemma_retain_keep(before, keep, j);
                assert forall|m: int| 0 <= m < j + 1 && !keep(before[m]) implies m < j by {}
            }
            i += 1;
            proof {
                j = j + 1;
            }
        }
    }
    proof {
        assert(todos@.len() == i + before.len() - j);
        assert(j == before.len());
        assert(before.take(j) =~= before);
        assert(before.skip(j) =~= Seq::<TodoItem>::empty());
        assert(todos@ =~= before.filter(keep));
    }
    n
}

/// The tag names of `tags` other than `name`.
fn without_name(tags: &Vec<String>, name: &Vec<char>) -> (out: Vec<String>)
    ensures
        strings_view(out@) == strings_view(tags@).filter(name_is_not(name@)),
{
    let ghost sv = strings_view(tags@);
    let ghost keep = name_is_not(name@);
    let mut out: Vec<String> = Vec::new();
    let mut i: usize = 0;
    proof {
        lemma_filter_none(sv, keep);
        assert(strings_view(out@) =~= Seq::<Seq<char>>::empty());
    }
    while i < tags.len()
        invariant
            i <= tags.len(),
            sv == strings_view(tags@),
            keep == name_is_not(name@),
            strings_view(out@) == sv.take(i as int).filter(keep),
        decreases tags.len() - i,
    {
        proof {
            lemma_filter_step(sv, keep, i as int);
        }
        let t = chars_of(tags[i].as_str());
        if !chars_equal(&t, name) {
            let ghost before = out@;
            let c = tags[i].clone();
            out.push(c);
            proof {
                assert(strings_view(out@) =~= strings_view(before).push(tags@[i as int]@));
            }
        }
        i += 1;
    }
    proof {
        assert(sv.take(tags.len() as int) =~= sv);
    }
    out
}

/// A workspace with the tags of a well-formed one and well-formed todos is
/// well-formed.
proof fn lemma_wf_same_tags(old: TodoWorkspace, new: TodoWorkspace)
    requires
        old.wf(),
        new.tag_seq() == old.tag_seq(),
        forall|j: int| 0 <= j < new.todo_seq().len() ==> todo_ok(#[trigger] new.todo_seq()[j]),
    ensures
        new.wf(),
{
}

/// Replacing one todo of a well-formed workspace by a well-formed one keeps it
/// well-formed.
proof fn lemma_wf_replace_todo(old: TodoWorkspace, new: TodoWorkspace, k: int)
    requires
        old.wf(),
        new.tag_seq() == old.tag_seq(),
        new.todo_seq().len() == old.todo_seq().len(),
        0 <= k < old.todo_seq().len(),
        forall|j: int| 0 <= j < old.todo_seq().len() && j != k ==> new.todo_seq()[j] == old.todo_seq()[j],
        todo_ok(new.todo_seq()[k]),
    ensures
        new.wf(),
{
    assert forall|j: int| 0 <= j < new.todo_seq().len() implies todo_ok(#[trigger] new.todo_seq()[j]) by {
        if j != k {
            assert(todo_ok(old.todo_seq()[j]));
        }
    }
}

impl TodoWorkspace {
    /// Adds a todo at the top, carrying the selected tag. The text is trimmed; it
    /// must not be empty nor longer than 500 characters.
    pub fn add_todo(&mut self, text: &str) -> (r: Result<u64, TodoTextError>)
        ensures
            ({
                let t = trim(text@);
                if t.len() == 0 {
                    r == Err::<u64, TodoTextError>(TodoTextError::Empty) && *final(self) == *old(self)
                } else if t.len() > TODO_TEXT_MAX_CHARS {
                    r == Err::<u64, TodoTextError>(TodoTextError::TooLong) && *final(self) == *old(self)
                } else {
                    let id = fresh_id(old(self).next_todo());
                    let n = final(self).todo_seq()[0];
                    &&& r == Ok::<u64, TodoTextError>(id)
                    &&& final(self).next_todo() == next_id(id)
                    &&& final(self).todo_seq().len() == old(self).todo_seq().len() + 1
                    &&& final(self).todo_seq().skip(1) == old(self).todo_seq()
                    &&& n.id == id && n.text@ == t && !n.done
                    &&& strings_view(n.tags@) == match old(self).selected_name() {
                        Some(name) => seq![name],
                        None => Seq::<Seq<char>>::empty(),
                    }
                    &&& final(self).tag_seq() == old(self).tag_seq()
                    &&& final(self).selected() == old(self).selected()
                    &&& final(self).next_tag() == old(self).next_tag()
                }
            }),
            old(self).ids_fresh() && fresh_id(old(self).next_todo()) < u64::MAX ==> final(self).ids_fresh(),
            old(self).todo_ids_fresh() ==> (r matches Ok(id) ==> forall|i: int|
                0 <= i < old(self).todo_seq().len() ==> #[trigger] old(self).todo_seq()[i].id < id),
            old(self).wf() ==> final(self).wf(),
    {
        let t = trim_chars(text);
        if t.len() == 0 {
            return Err(TodoTextError::Empty);
        }
        if t.len() > TODO_TEXT_MAX_CHARS {
            return Err(TodoTextError::TooLong);
        }
        let id = if self.next_todo_id == 0 {
            1
        } else {
            self.next_todo_id
        };
        self.next_todo_id = if id == u64::MAX {
            u64::MAX
        } else {
            id + 1
        };
        let mut tags: Vec<String> = Vec::new();
        match self.selected_tag_name() {
            Some(name) => {
                tags.push(name.to_owned());
                assert(strings_view(tags@) =~= seq![name@]);
            },
            None => {
                assert(strings_view(tags@) =~= Seq::<Seq<char>>::empty());
            },
        }
        let ghost old_todos = self.todos@;
        let item = TodoItem { id, text: string_of(&t), done: false, tags };
        proof {
            crate::text::lemma_trim_nonblank(text@);
            assert(item.text@ == trim(text@));
            if old(self).wf() {
                reveal(todo_ok);
                if let Some(name) = old(self).selected_name() {
                    let sel = old(self).selected_tag_id.unwrap();
                    lemma_first_tag_exists(old(self).tags@, sel);
                    let k = tag_index(old(self).tags@, sel);
                    assert(tag_names(old(self).tags@)[k] == old(self).tags@[k].name@);
                    assert(old(self).tags@[k].name@.len() > 0);
                    assert(item.tags@.len() == 1);
                    assert(strings_view(item.tags@)[0] == item.tags@[0]@);
                    assert(item.tags@[0]@.len() > 0);
                } else {
                    assert(strings_view(item.tags@).len() == 0);
                }
                assert(todo_ok(item));
            }
        }
        let ghost new_item = item;
        self.todos.insert(0, item);
        proof {
            assert(self.todos@.skip(1) =~= old_todos);
            if old(self).wf() {
                reveal(todo_ok);
                assert forall|i: int| 0 <= i < self.todos@.len() implies todo_ok(#[trigger] self.todos@[i]) by {
                    if i > 0 {
                        assert(self.todos@[i] == old_todos[i - 1]);
                        assert(old_todos[i - 1] == old(self).todo_seq()[i - 1]);
                        assert(todo_ok(old(self).todo_seq()[i - 1]));
                    } else {
                        assert(self.todos@[0] == new_item);
                        assert(todo_ok(new_item));
                    }
                }
            }
        }
        Ok(id)
    }

    /// Replaces the text of the todo `todo_id`, trimmed and checked as on creation.
    /// `Ok(false)` when the todo does not exist or the text is unchanged.
    #[verifier::spinoff_prover]
    #[verifier::rlimit(30)]
    pub fn update_todo_text(&mut self, todo_id: u64, text: &str) -> (r: Result<bool, TodoTextError>)
        ensures
            ({
                let t = trim(text@);
                let todos = old(self).todo_seq();
                let k = todo_index(todos, todo_id);
                if t.len() == 0 {
                    r == Err::<bool, TodoTextError>(TodoTextError::Empty) && *final(self) == *old(self)
                } else if t.len() > TODO_TEXT_MAX_CHARS {
                    r == Err::<bool, TodoTextError>(TodoTextError::TooLong) && *final(self) == *old(self)
                } else if !has_todo(todos, todo_id) || todos[k].text@ == t {
                    r == Ok::<bool, TodoTextError>(false) && *final(self) == *old(self)
                } else {
                    &&& r == Ok::<bool, TodoTextError>(true)
                    &&& final(self).todo_seq().len() == todos.len()
                    &&& forall|j: int| 0 <= j < todos.len() && j != k ==> final(self).todo_seq()[j] == todos[j]
                    &&& final(self).todo_seq()[k].id == todos[k].id
                    &&& final(self).todo_seq()[k].done == todos[k].done
                    &&& final(self).todo_seq()[k].tags == todos[k].tags
                    &&& final(self).todo_seq()[k].text@ == t
                    &&& final(self).tag_seq() == old(self).tag_seq()
                    &&& final(self).selected() == old(self).selected()
                    &&& final(self).next_tag() == old(self).next_tag()
                    &&& final(self).next_todo() == old(self).next_todo()
                }
            }),
            old(self).ids_fresh() ==> final(self).ids_fresh(),
            old(self).wf() ==> final(self).wf(),
    {
        let t = trim_chars(text);
        if t.len() == 0 {
            return Err(TodoTextError::Empty);
        }
        if t.len() > TODO_TEXT_MAX_CHARS {
            return Err(TodoTextError::TooLong);
        }
        let index = match self.todo_position(todo_id) {
            Some(i) => i,
            None => return Ok(false),
        };
        if chars_equal(&chars_of(self.todos[index].text.as_str()), &t) {
            return Ok(false);
        }
        let ghost old_todos = self.todos@;
        let mut item = self.todos.remove(index);
        item.text = string_of(&t);
        let ghost new_item = item;
        self.todos.insert(index, item);
        proof {
            crate::text::lemma_trim_nonblank(text@);
            assert forall|j: int| 0 <= j < old_todos.len() && j != index implies self.todos@[j] == old_todos[j] by {
                if j < index {
                } else {
                }
            }
            if old(self).wf() {
                reveal(todo_ok);
                assert(todo_ok(old(self).todo_seq()[index as int]));
                assert(self.todos@[index as int] == new_item);
                assert(todo_ok(new_item));
                lemma_wf_replace_todo(*old(self), *self, index as int);
            }
        }
        Ok(true)
    }

    /// Flips the todo `todo_id` between open and done; `false` when it does not exist.
    pub fn toggle_todo(&mut self, todo_id: u64) -> (b: bool)
        ensures
            b == has_todo(old(self).todo_seq(), todo_id),
            toggled(*old(self), *final(self), todo_id),
            old(self).ids_fresh() ==> final(self).ids_fresh(),
            old(self).wf() ==> final(self).wf(),
    {
        match self.toggle_todo_with_auto_clear(todo_id, false) {
            TodoToggleOutcome::Updated => true,
            _ => false,
        }
    }

    /// Toggles the todo `todo_id`. With auto-clear on, completing an open todo removes
    /// it; reopening a done todo always just flips it.
    #[verifier::spinoff_prover]
    #[verifier::rlimit(30)]
    pub fn toggle_todo_with_auto_clear(&mut self, todo_id: u64, auto_clear_completed: bool) -> (outcome: TodoToggleOutcome)
        ensures
            ({
                let todos = old(self).todo_seq();
                let k = todo_index(todos, todo_id);
                if !has_todo(todos, todo_id) {
                    outcome == TodoToggleOutcome::Missing && *final(self) == *old(self)
                } else if auto_clear_completed && !todos[k].done {
                    &&& outcome == TodoToggleOutcome::Removed
                    &&& final(self).todo_seq() == todos.remove(k)
                    &&& final(self).tag_seq() == old(self).tag_seq()
                    &&& final(self).selected() == old(self).selected()
                    &&& final(self).next_tag() == old(self).next_tag()
                    &&& final(self).next_todo() == old(self).next_todo()
                } else {
                    outcome == TodoToggleOutcome::Updated && toggled(*old(self), *final(self), todo_id)
                }
            }),
            old(self).ids_fresh() ==> final(self).ids_fresh(),
            old(self).wf() ==> final(self).wf(),
    {
        let index = match self.todo_position(todo_id) {
            Some(i) => i,
            None => return TodoToggleOutcome::Missing,
        };
        let ghost old_todos = self.todos@;
        if auto_clear_completed && !self.todos[index].done {
            self.todos.remove(index);
            proof {
                if old(self).wf() {
                    assert forall|j: int| 0 <= j < self.todos@.len() implies todo_ok(#[trigger] self.todos@[j]) by {
                        if j < index {
                            assert(self.todos@[j] == old(self).todo_seq()[j]);
                            assert(todo_ok(old(self).todo_seq()[j]));
                        } else {
                            assert(self.todos@[j] == old(self).todo_seq()[j + 1]);
                            assert(todo_ok(old(self).todo_seq()[j + 1]));
                        }
                    }
                }
            }
            TodoToggleOutcome::Removed
        } else {
            let mut item = self.todos.remove(index);
            item.done = !item.done;
            let ghost new_item = item;
            self.todos.insert(index, item);
            proof {
                assert forall|j: int| 0 <= j < old_todos.len() && j != index implies self.todos@[j] == old_todos[j] by {
                }
                if old(self).wf() {
                    reveal(todo_ok);
                    assert(todo_ok(old(self).todo_seq()[index as int]));
                    assert(self.todos@[index as int] == new_item);
                    assert(todo_ok(new_item));
                    lemma_wf_replace_todo(*old(self), *self, index as int);
                }
            }
            TodoToggleOutcome::Updated
        }
    }
}

/// `new` is `old` with the first todo `todo_id` flipped between open and done, or
/// unchanged when there is none.
pub open spec fn toggled(old: TodoWorkspace, new: TodoWorkspace, todo_id: u64) -> bool {
    let todos = old.todo_seq();
    let k = todo_index(todos, todo_id);
    if !has_todo(todos, todo_id) {
        new == old
    } else {
        &&& new.todo_seq().len() == todos.len()
        &&& forall|j: int| 0 <= j < todos.len() && j != k ==> new.todo_seq()[j] == todos[j]
        &&& new.todo_seq()[k].id == todos[k].id
        &&& new.todo_seq()[k].text == todos[k].text
        &&& new.todo_seq()[k].tags == todos[k].tags
        &&& new.todo_seq()[k].done == !todos[k].done
        &&& new.tag_seq() == old.tag_seq()
        &&& new.selected() == old.selected()
        &&& new.next_tag() == old.next_tag()
        &&& new.next_todo() == old.next_todo()
    }
}


/// `new` is `old` with only the tags of the todo at `k` changed.
pub open spec fn retagged_at(old: TodoWorkspace, new: TodoWorkspace, k: int, tags: Seq<Seq<char>>) -> bool {
    &&& new.todo_seq().len() == old.todo_seq().len()
    &&& forall|j: int| 0 <= j < old.todo_seq().len() && j != k ==> new.todo_seq()[j] == old.todo_seq()[j]
    &&& retagged(new.todo_seq()[k], old.todo_seq()[k], tags)
    &&& new.tag_seq() == old.tag_seq()
    &&& new.selected() == old.selected()
    &&& new.next_tag() == old.next_tag()
    &&& new.next_todo() == old.next_todo()
}

/// The todo `todo_id` carries the tag `tag_id`, both existing.
pub open spec fn carries_tag_id(ws: TodoWorkspace, todo_id: u64, tag_id: u64) -> bool {
    let todos = ws.todo_seq();
    &&& has_tag_id(ws.tag_seq(), tag_id)
    &&& has_todo(todos, todo_id)
    &&& strings_view(todos[todo_index(todos, todo_id)].tags@).contains(
        tag_name(ws.tag_seq(), tag_id).unwrap(),
    )
}

/// `new` is `old` with the tag `tag_id` taken off the todo `todo_id`, or unchanged when
/// either does not exist.
pub open spec fn todo_tag_removed(old: TodoWorkspace, new: TodoWorkspace, todo_id: u64, tag_id: u64) -> bool {
    let todos = old.todo_seq();
    let k = todo_index(todos, todo_id);
    if !has_tag_id(old.tag_seq(), tag_id) || !has_todo(todos, todo_id) {
        new == old
    } else {
        let name = tag_name(old.tag_seq(), tag_id).unwrap();
        retagged_at(old, new, k, strings_view(todos[k].tags@).filter(name_is_not(name)))
    }
}

/// `new` is `old` without any todo `todo_id`.
pub open spec fn todo_deleted(old: TodoWorkspace, new: TodoWorkspace, todo_id: u64) -> bool {
    &&& new.todo_seq() == old.todo_seq().filter(id_is_not(todo_id))
    &&& new.tag_seq() == old.tag_seq()
    &&& new.selected() == old.selected()
    &&& new.next_tag() == old.next_tag()
    &&& new.next_todo() == old.next_todo()
}

/// `new` is `old` with only its open todos left.
pub open spec fn completed_cleared(old: TodoWorkspace, new: TodoWorkspace) -> bool {
    &&& new.todo_seq() == old.todo_seq().filter(is_open())
    &&& new.tag_seq() == old.tag_seq()
    &&& new.selected() == old.selected()
    &&& new.next_tag() == old.next_tag()
    &&& new.next_todo() == old.next_todo()
}

/// `new` is `old` without the tag `tag_id`, which no todo carries any more and which is
/// no longer selected; unchanged when there is no such tag.
pub open spec fn tag_deleted(old: TodoWorkspace, new: TodoWorkspace, tag_id: u64) -> bool {
    let tags = old.tag_seq();
    let todos = old.todo_seq();
    if !has_tag_id(tags, tag_id) {
        new == old
    } else {
        let k = tag_index(tags, tag_id);
        let name = tags[k].name@;
        &&& new.tag_seq() == tags.remove(k)
        &&& new.todo_seq().len() == todos.len()
        &&& forall|j: int| 0 <= j < todos.len() ==> retagged(
            #[trigger] new.todo_seq()[j],
            todos[j],
            strings_view(todos[j].tags@).filter(name_is_not(name)),
        )
        &&& new.selected() == if old.selected() == Some(tag_id) {
            None
        } else {
            old.selected()
        }
        &&& new.next_tag() == old.next_tag()
        &&& new.next_todo() == old.next_todo()
    }
}

impl TodoWorkspace {
    /// The tag `tag_id` has a non-empty name in a well-formed workspace.
    proof fn lemma_tag_name_nonempty(&self, tag_id: u64)
        requires
            self.wf(),
            has_tag_id(self.tag_seq(), tag_id),
        ensures
            tag_name(self.tag_seq(), tag_id) matches Some(n) && n.len() > 0,
    {
        lemma_first_tag_exists(self.tags@, tag_id);
        let k = tag_index(self.tags@, tag_id);
        assert(tag_names(self.tag_seq())[k] == self.tag_seq()[k].name@);
        assert(self.tag_seq()[k].name@.len() > 0);
    }

    /// Replaces the tags of the todo at `index` by `tags`.
    fn set_todo_tags(&mut self, index: usize, tags: Vec<String>)
        requires
            index < old(self).todo_seq().len(),
        ensures
            retagged_at(*old(self), *final(self), index as int, strings_view(tags@)),
            old(self).wf() && names_ok(strings_view(tags@)) ==> final(self).wf(),
    {
        let ghost old_todos = self.todos@;
        let mut item = self.todos.remove(index);
        item.tags = tags;
        let ghost new_item = item;
        self.todos.insert(index, item);
        proof {
            assert forall|j: int| 0 <= j < old_todos.len() && j != index implies self.todos@[j] == old_todos[j] by {
            }
            assert(self.todos@[index as int] == new_item);
            if old(self).wf() && names_ok(strings_view(tags@)) {
                reveal(todo_ok);
                assert(todo_ok(old(self).todo_seq()[index as int]));
                assert(todo_ok(new_item));
                lemma_wf_replace_todo(*old(self), *self, index as int);
            }
        }
    }

    /// Adds the tag `tag_id` to the todo `todo_id`, or takes it off when the todo
    /// already carries it. `false` when either does not exist.
    #[verifier::spinoff_prover]
    pub fn toggle_todo_tag(&mut self, todo_id: u64, tag_id: u64) -> (b: bool)
        ensures
            ({
                let todos = old(self).todo_seq();
                let k = todo_index(todos, todo_id);
                if !has_tag_id(old(self).tag_seq(), tag_id) || !has_todo(todos, todo_id) {
                    !b && *final(self) == *old(self)
                } else {
                    let name = tag_name(old(self).tag_seq(), tag_id).unwrap();
                    let tags = strings_view(todos[k].tags@);
                    &&& b
                    &&& retagged_at(*old(self), *final(self), k, if tags.contains(name) {
                        tags.filter(name_is_not(name))
                    } else {
                        tags.push(name)
                    })
                }
            }),
            old(self).ids_fresh() ==> final(self).ids_fresh(),
            old(self).wf() ==> final(self).wf(),
    {
        let position = match self.tag_position(tag_id) {
            Some(p) => p,
            None => return false,
        };
        let index = match self.todo_position(todo_id) {
            Some(i) => i,
            None => return false,
        };
        let name = chars_of(self.tags[position].name.as_str());
        let ghost tags = strings_view(self.todos@[index as int].tags@);
        let new_tags = if carries_name(&self.todos[index], &name) {
            without_name(&self.todos[index].tags, &name)
        } else {
            let mut t = copy_strings(&self.todos[index].tags);
            let ghost before = t@;
            t.push(self.tags[position].name.clone());
            proof {
                assert(strings_view(t@) =~= strings_view(before).push(name@));
            }
            t
        };
        proof {
            if old(self).wf() {
                reveal(todo_ok);
                assert(todo_ok(self.todos@[index as int]));
                if tags.contains(name@) {
                    lemma_filter_names_ok(tags, name_is_not(name@));
                } else {
                    self.lemma_tag_name_nonempty(tag_id);
                    let g = tags.push(name@);
                    assert forall|a: int, c: int| 0 <= a < g.len() && 0 <= c < g.len() && a != c implies g[a] != g[c] by {
                        if a == tags.len() {
                            assert(tags[c] == g[c]);
                        } else if c == tags.len() {
                            assert(tags[a] == g[a]);
                        }
                    }
                    assert(names_ok(g));
                }
            }
        }
        self.set_todo_tags(index, new_tags);
        true
    }

    /// Takes the tag `tag_id` off the todo `todo_id`; `true` when the todo carried it.
    #[verifier::spinoff_prover]
    pub fn remove_todo_tag(&mut self, todo_id: u64, tag_id: u64) -> (b: bool)
        ensures
            b == carries_tag_id(*old(self), todo_id, tag_id),
            todo_tag_removed(*old(self), *final(self), todo_id, tag_id),
            old(self).ids_fresh() ==> final(self).ids_fresh(),
            old(self).wf() ==> final(self).wf(),
    {
        let position = match self.tag_position(tag_id) {
            Some(p) => p,
            None => return false,
        };
        let index = match self.todo_position(todo_id) {
            Some(i) => i,
            None => return false,
        };
        let name = chars_of(self.tags[position].name.as_str());
        let carried = carries_name(&self.todos[index], &name);
        let new_tags = without_name(&self.todos[index].tags, &name);
        proof {
            if old(self).wf() {
                reveal(todo_ok);
                assert(todo_ok(self.todos@[index as int]));
                lemma_filter_names_ok(strings_view(self.todos@[index as int].tags@), name_is_not(name@));
            }
        }
        self.set_todo_tags(index, new_tags);
        carried
    }
}


/// Keeping some of the todos keeps them well-formed.
proof fn lemma_filter_todos_ok(todos: Seq<TodoItem>, p: spec_fn(TodoItem) -> bool)
    requires
        forall|i: int| 0 <= i < todos.len() ==> todo_ok(#[trigger] todos[i]),
    ensures
        forall|i: int| 0 <= i < todos.filter(p).len() ==> todo_ok(#[trigger] todos.filter(p)[i]),
{
    assert forall|i: int| 0 <= i < todos.filter(p).len() implies todo_ok(#[trigger] todos.filter(p)[i]) by {
        let x = todos.filter(p)[i];
        assert(todos.filter(p).contains(x));
        todos.lemma_filter_contains_rev(p, x);
        let j = choose|j: int| 0 <= j < todos.len() && todos[j] == x;
        assert(todo_ok(todos[j]));
    }
}

/// The done todos and the open todos together are all of them.
proof fn lemma_done_open_len(todos: Seq<TodoItem>, i: int)
    requires
        0 <= i <= todos.len(),
    ensures
        todos.take(i).filter(is_done()).len() + todos.take(i).filter(is_open()).len() == i,
    decreases i,
{
    if i == 0 {
        lemma_filter_none(todos, is_done());
        lemma_filter_none(todos, is_open());
    } else {
        lemma_done_open_len(todos, i - 1);
        lemma_filter_step(todos, is_done(), i - 1);
        lemma_filter_step(todos, is_open(), i - 1);
    }
}

impl TodoWorkspace {
    /// Every todo of a well-formed workspace is well-formed.
    proof fn lemma_todos_ok(&self)
        requires
            self.wf(),
        ensures
            forall|i: int| 0 <= i < self.todos@.len() ==> todo_ok(#[trigger] self.todos@[i]),
    {
        assert forall|i: int| 0 <= i < self.todos@.len() implies todo_ok(#[trigger] self.todos@[i]) by {
            assert(todo_ok(self.todo_seq()[i]));
        }
    }

    /// Deletes every todo with identifier `todo_id`; `true` when there was one.
    #[verifier::spinoff_prover]
    pub fn delete_todo(&mut self, todo_id: u64) -> (b: bool)
        ensures
            b == has_todo(old(self).todo_seq(), todo_id),
            todo_deleted(*old(self), *final(self), todo_id),
            old(self).ids_fresh() ==> final(self).ids_fresh(),
            old(self).wf() ==> final(self).wf(),
    {
        let n = drop_todos(&mut self.todos, Some(todo_id));
        proof {
            assert(kept_by(Some(todo_id)) == id_is_not(todo_id));
            if old(self).wf() {
                old(self).lemma_todos_ok();
                lemma_filter_todos_ok(old(self).todos@, id_is_not(todo_id));
                assert(self.todos@ == old(self).todos@.filter(id_is_not(todo_id)));
                assert forall|i: int| 0 <= i < self.todo_seq().len() implies todo_ok(#[trigger] self.todo_seq()[i]) by {
                    assert(todo_ok(old(self).todos@.filter(id_is_not(todo_id))[i]));
                }
                lemma_wf_same_tags(*old(self), *self);
            }
            if old(self).ids_fresh() {
                lemma_todo_ids_fresh_filter(*old(self), *self, id_is_not(todo_id));
            }
        }
        n > 0
    }

    /// Deletes every done todo; returns how many there were.
    #[verifier::spinoff_prover]
    pub fn clear_completed(&mut self) -> (n: usize)
        ensures
            n == old(self).todo_seq().filter(is_done()).len(),
            completed_cleared(*old(self), *final(self)),
            old(self).ids_fresh() ==> final(self).ids_fresh(),
            old(self).wf() ==> final(self).wf(),
    {
        let n = drop_todos(&mut self.todos, None);
        proof {
            let before = old(self).todos@;
            assert(kept_by(None) == is_open());
            lemma_done_open_len(before, before.len() as int);
            assert(before.take(before.len() as int) =~= before);
            if old(self).wf() {
                old(self).lemma_todos_ok();
                lemma_filter_todos_ok(before, is_open());
                assert forall|i: int| 0 <= i < self.todo_seq().len() implies todo_ok(#[trigger] self.todo_seq()[i]) by {
                    assert(todo_ok(before.filter(is_open())[i]));
                }
                lemma_wf_same_tags(*old(self), *self);
            }
            if old(self).ids_fresh() {
                lemma_todo_ids_fresh_filter(*old(self), *self, is_open());
            }
        }
        n
    }

    /// Selects the tag `tag_id`, or no tag when it is `None` or names no tag.
    pub fn select_tag(&mut self, tag_id: Option<u64>)
        ensures
            final(self).selected() == match tag_id {
                Some(id) => if has_tag_id(old(self).tag_seq(), id) {
                    Some(id)
                } else {
                    None
                },
                None => None,
            },
            final(self).tag_seq() == old(self).tag_seq(),
            final(self).todo_seq() == old(self).todo_seq(),
            final(self).next_tag() == old(self).next_tag(),
            final(self).next_todo() == old(self).next_todo(),
            old(self).ids_fresh() ==> final(self).ids_fresh(),
            old(self).wf() ==> final(self).wf(),
    {
        self.selected_tag_id = match tag_id {
            Some(id) => if self.tag_position(id).is_some() {
                Some(id)
            } else {
                None
            },
            None => None,
        };
        proof {
            if old(self).wf() {
                old(self).lemma_todos_ok();
                lemma_wf_same_tags(*old(self), *self);
            }
            assert(self.tag_seq() == old(self).tag_seq());
            assert(self.todo_seq() == old(self).todo_seq());
        }
    }

    /// Deletes the tag `tag_id` and takes it off every todo; the todos stay. Clears
    /// the selection when it was that tag. `false` when the tag does not exist.
    #[verifier::spinoff_prover]
    pub fn delete_tag(&mut self, tag_id: u64) -> (b: bool)
        ensures
            b == has_tag_id(old(self).tag_seq(), tag_id),
            tag_deleted(*old(self), *final(self), tag_id),
            old(self).ids_fresh() ==> final(self).ids_fresh(),
            old(self).wf() ==> final(self).wf(),
    {
        let index = match self.tag_position(tag_id) {
            Some(i) => i,
            None => return false,
        };
        let ghost old_todos = self.todos@;
        let removed = self.tags.remove(index);
        let name = chars_of(removed.name.as_str());
        let mut i: usize = 0;
        while i < self.todos.len()
            invariant
                name@ == old(self).tag_seq()[index as int].name@,
                self.todos@.len() == old_todos.len(),
                old_todos == old(self).todo_seq(),
                i <= self.todos@.len(),
                forall|j: int| 0 <= j < i ==> retagged(
                    #[trigger] self.todos@[j],
                    old_todos[j],
                    strings_view(old_todos[j].tags@).filter(name_is_not(name@)),
                ),
                forall|j: int| i <= j < self.todos@.len() ==> #[trigger] self.todos@[j] == old_todos[j],
                self.tags@ == old(self).tag_seq().remove(index as int),
                self.selected_tag_id == old(self).selected(),
                self.next_tag_id == old(self).next_tag(),
                self.next_todo_id == old(self).next_todo(),
            decreases self.todos@.len() - i,
        {
            let ghost before = self.todos@;
            let mut item = self.todos.remove(i);
            item.tags = without_name(&item.tags, &name);
            self.todos.insert(i, item);
            proof {
                assert forall|j: int| 0 <= j < self.todos@.len() && j != i implies self.todos@[j] == before[j] by {}
            }
            i += 1;
        }
        if self.selected_tag_id == Some(tag_id) {
            self.selected_tag_id = None;
        }
        proof {
            if old(self).wf() {
                reveal(todo_ok);
                lemma_tag_names_ok_remove(tag_names(old(self).tags@), index as int);
                assert(tag_names(self.tags@) =~= tag_names(old(self).tags@).remove(index as int));
                assert forall|j: int| 0 <= j < self.todos@.len() implies todo_ok(#[trigger] self.todos@[j]) by {
                    assert(todo_ok(old_todos[j]));
                    lemma_filter_names_ok(strings_view(old_todos[j].tags@), name_is_not(name@));
                }
            }
        }
        true
    }
}


/// The names of the tags, in order.
pub open spec fn tag_names(tags: Seq<TodoTag>) -> Seq<Seq<char>> {
    Seq::new(tags.len(), |i: int| tags[i].name@)
}

/// Some name of `names` equals `name` once both are lowercased.
pub open spec fn name_taken(names: Seq<Seq<char>>, name: Seq<char>) -> bool {
    exists|i: int| 0 <= i < names.len() && lowercase(#[trigger] names[i]) == lowercase(name)
}

/// Some tag's name equals `name` once both are lowercased.
pub open spec fn has_name_ignoring_case(tags: Seq<TodoTag>, name: Seq<char>) -> bool {
    name_taken(tag_names(tags), name)
}

impl TodoWorkspace {
    /// Whether some tag's name equals `name` once both are lowercased.
    fn has_tag_named(&self, name: &str) -> (b: bool)
        ensures
            b == has_name_ignoring_case(self.tag_seq(), name@),
    {
        let wanted = chars_of(to_lowercase(name).as_str());
        let mut i: usize = 0;
        while i < self.tags.len()
            invariant
                i <= self.tags.len(),
                wanted@ == lowercase(name@),
                forall|j: int| 0 <= j < i ==> lowercase(#[trigger] self.tags@[j].name@) != lowercase(name@),
            decreases self.tags.len() - i,
        {
            let lowered = chars_of(to_lowercase(self.tags[i].name.as_str()).as_str());
            if chars_equal(&lowered, &wanted) {
                assert(tag_names(self.tags@)[i as int] == self.tags@[i as int].name@);
                return true;
            }
            i += 1;
        }
        proof {
            assert forall|j: int| 0 <= j < tag_names(self.tags@).len() implies lowercase(#[trigger] tag_names(self.tags@)[j]) != lowercase(name@) by {
                assert(tag_names(self.tags@)[j] == self.tags@[j].name@);
            }
        }
        false
    }

    /// Adds a tag at the end and selects it. The name is trimmed; it must not be
    /// empty, longer than 48 characters, or equal to an existing name ignoring case.
    #[verifier::spinoff_prover]
    pub fn add_tag(&mut self, name: &str) -> (r: Result<u64, AddTodoTagError>)
        ensures
            ({
                let t = trim(name@);
                let tags = old(self).tag_seq();
                if t.len() == 0 {
                    r == Err::<u64, AddTodoTagError>(AddTodoTagError::Empty) && *final(self) == *old(self)
                } else if t.len() > TAG_NAME_MAX_CHARS {
                    r == Err::<u64, AddTodoTagError>(AddTodoTagError::TooLong) && *final(self) == *old(self)
                } else if has_name_ignoring_case(tags, t) {
                    r == Err::<u64, AddTodoTagError>(AddTodoTagError::Duplicate) && *final(self) == *old(self)
                } else {
                    let id = fresh_id(old(self).next_tag());
                    let n = final(self).tag_seq().last();
                    &&& r == Ok::<u64, AddTodoTagError>(id)
                    &&& final(self).tag_seq().len() == tags.len() + 1
                    &&& final(self).tag_seq().drop_last() == tags
                    &&& n.id == id && n.name@ == t && n.color_index == tags.len()
                    &&& final(self).selected() == Some(id)
                    &&& final(self).next_tag() == next_id(id)
                    &&& final(self).todo_seq() == old(self).todo_seq()
                    &&& final(self).next_todo() == old(self).next_todo()
                }
            }),
            old(self).ids_fresh() && fresh_id(old(self).next_tag()) < u64::MAX ==> final(self).ids_fresh(),
            old(self).tag_ids_fresh() ==> (r matches Ok(id) ==> forall|i: int|
                0 <= i < old(self).tag_seq().len() ==> #[trigger] old(self).tag_seq()[i].id < id),
            old(self).wf() ==> final(self).wf(),
    {
        let t = trim_chars(name);
        if t.len() == 0 {
            return Err(AddTodoTagError::Empty);
        }
        if t.len() > TAG_NAME_MAX_CHARS {
            return Err(AddTodoTagError::TooLong);
        }
        let trimmed = string_of(&t);
        if self.has_tag_named(trimmed.as_str()) {
            return Err(AddTodoTagError::Duplicate);
        }
        let id = if self.next_tag_id == 0 {
            1
        } else {
            self.next_tag_id
        };
        self.next_tag_id = if id == u64::MAX {
            u64::MAX
        } else {
            id + 1
        };
        let color_index = self.tags.len();
        let ghost old_tags = self.tags@;
        let ghost trimmed_view = trimmed@;
        self.tags.push(TodoTag { id, name: trimmed, color_index });
        self.selected_tag_id = Some(id);
        proof {
            assert(self.tags@.drop_last() =~= old_tags);
            if old(self).wf() {
                crate::text::lemma_trim_idempotent(name@);
                lemma_tag_names_ok_push(tag_names(old_tags), trimmed_view);
                assert(tag_names(self.tags@) =~= tag_names(old_tags).push(trimmed_view));
                old(self).lemma_todos_ok();
            }
        }
        Ok(id)
    }
}

impl Default for TodoWorkspace {
    /// An empty workspace.
    fn default() -> (ws: TodoWorkspace)
        ensures
            ws.tag_seq().len() == 0,
            ws.todo_seq().len() == 0,
            ws.selected() is None,
            ws.next_tag() == 0,
            ws.next_todo() == 0,
    {
        TodoWorkspace::new()
    }
}

impl TodoTextError {
    /// The message shown for this error, in `language`.
    pub fn message(self, language: AppLanguage) -> (s: &'static str)
        ensures
            s@ == match self {
                TodoTextError::Empty => text_in(language, "待办内容不能为空"@, "Todo text cannot be empty"@),
                TodoTextError::TooLong => text_in(
                    language,
                    "待办内容不能超过 500 个字符"@,
                    "Todo text cannot exceed 500 characters"@,
                ),
            },
    {
        match self {
            TodoTextError::Empty => language.text("待办内容不能为空", "Todo text cannot be empty"),
            TodoTextError::TooLong => language.text(
                "待办内容不能超过 500 个字符",
                "Todo text cannot exceed 500 characters",
            ),
        }
    }
}

impl AddTodoTagError {
    /// The message shown for this error, in `language`.
    pub fn message(self, language: AppLanguage) -> (s: &'static str)
        ensures
            s@ == match self {
                AddTodoTagError::Empty => text_in(language, "标签名称不能为空"@, "Tag name cannot be empty"@),
                AddTodoTagError::Duplicate => text_in(
                    language,
                    "已经存在同名标签"@,
                    "A tag with this name already exists"@,
                ),
                AddTodoTagError::TooLong => text_in(
                    language,
                    "标签名称不能超过 48 个字符"@,
                    "Tag name cannot exceed 48 characters"@,
                ),
            },
    {
        match self {
            AddTodoTagError::Empty => language.text("标签名称不能为空", "Tag name cannot be empty"),
            AddTodoTagError::Duplicate => language.text("已经存在同名标签", "A tag with this name already exists"),
            AddTodoTagError::TooLong => language.text(
                "标签名称不能超过 48 个字符",
                "Tag name cannot exceed 48 characters",
            ),
        }
    }
}

/// The palette of tag colors, as `0xRRGGBB`.
pub open spec fn tag_colors() -> Seq<u32> {
    seq![0x2f8cffu32, 0xff9f1au32, 0x16a3ffu32, 0x6c63e8u32, 0xa0a0a0u32, 0x35b779u32]
}

/// The color of the tag at `index`, as `0xRRGGBB`: the palette, round and round.
pub fn tag_color_rgb(index: usize) -> (rgb: u32)
    ensures
        rgb == tag_colors()[(index % 6) as int],
{
    let colors: [u32; 6] = [0x2f8cff, 0xff9f1a, 0x16a3ff, 0x6c63e8, 0xa0a0a0, 0x35b779];
    proof {
        assert(colors@ =~= tag_colors());
    }
    colors[index % 6]
}


/// The names joined by `'\n'`.
pub open spec fn join_lines(names: Seq<Seq<char>>) -> Seq<char>
    decreases names.len(),
{
    if names.len() == 0 {
        Seq::empty()
    } else if names.len() == 1 {
        names[0]
    } else {
        names[0] + seq!['\n'] + join_lines(names.drop_first())
    }
}

/// The tags file: the names joined by `'\n'`, and a final `'\n'` unless that is
/// empty.
pub open spec fn tags_file(names: Seq<Seq<char>>) -> Seq<char> {
    let j = join_lines(names);
    if j.len() == 0 {
        j
    } else {
        j.push('\n')
    }
}

/// Joining one more name adds a `'\n'` and the name.
proof fn lemma_join_lines_push(names: Seq<Seq<char>>, x: Seq<char>)
    requires
        names.len() >= 1,
    ensures
        join_lines(names.push(x)) == join_lines(names) + seq!['\n'] + x,
    decreases names.len(),
{
    let p = names.push(x);
    assert(p.drop_first() =~= names.drop_first().push(x));
    if names.len() == 1 {
        assert(p.drop_first() =~= seq![x]);
        assert(join_lines(p.drop_first()) == x);
    } else {
        lemma_join_lines_push(names.drop_first(), x);
        assert(join_lines(p) =~= join_lines(names) + seq!['\n'] + x);
    }
}

/// The name on `line` taken as `add_tag` takes it, after the names `acc`.
pub open spec fn accept_tag(acc: Seq<Seq<char>>, line: Seq<char>) -> Seq<Seq<char>> {
    let t = trim(line);
    if t.len() == 0 || t.len() > TAG_NAME_MAX_CHARS || name_taken(acc, t) {
        acc
    } else {
        acc.push(t)
    }
}

/// The names on `lines` taken one by one after the names `acc`.
pub open spec fn accept_tags(acc: Seq<Seq<char>>, lines: Seq<Seq<char>>) -> Seq<Seq<char>>
    decreases lines.len(),
{
    if lines.len() == 0 {
        acc
    } else {
        accept_tags(accept_tag(acc, lines[0]), lines.drop_first())
    }
}

/// Names that a tags file holds and gives back: trimmed, non-empty, at most 48
/// characters, on one line, and distinct ignoring case.
pub open spec fn names_loadable(names: Seq<Seq<char>>) -> bool {
    &&& forall|i: int| 0 <= i < names.len() ==> {
        &&& trim(#[trigger] names[i]) == names[i]
        &&& 0 < names[i].len() <= TAG_NAME_MAX_CHARS
        &&& !names[i].contains('\n')
    }
    &&& forall|i: int, j: int| 0 <= i < j < names.len() ==> lowercase(#[trigger] names[i]) != lowercase(
        #[trigger] names[j],
    )
}

impl TodoWorkspace {
    /// The tags file: one tag name per line.
    pub fn tags_text(&self) -> (out: String)
        ensures
            out@ == tags_file(tag_names(self.tag_seq())),
    {
        let ghost names = tag_names(self.tags@);
        let mut out: Vec<char> = Vec::new();
        let mut i: usize = 0;
        while i < self.tags.len()
            invariant
                i <= self.tags.len(),
                names == tag_names(self.tags@),
                out@ == join_lines(names.take(i as int)),
            decreases self.tags.len() - i,
        {
            let ghost before = out@;
            if i > 0 {
                out.push('\n');
            }
            push_str(&mut out, self.tags[i].name.as_str());
            proof {
                assert(names[i as int] == self.tags@[i as int].name@);
                assert(names.take(i + 1) =~= names.take(i as int).push(names[i as int]));
                if i > 0 {
                    lemma_join_lines_push(names.take(i as int), names[i as int]);
                    assert(out@ =~= before + seq!['\n'] + names[i as int]);
                } else {
                    assert(names.take(1) =~= seq![names[0]]);
                    assert(out@ =~= names[0]);
                }
            }
            i += 1;
        }
        proof {
            assert(names.take(self.tags.len() as int) =~= names);
        }
        if out.len() > 0 {
            out.push('\n');
        }
        string_of(&out)
    }

    /// A workspace with the tags of a tags file, each line taken as `add_tag` takes
    /// it, and no tag selected.
    pub fn load_tags_text(source: &str) -> (ws: TodoWorkspace)
        ensures
            tag_names(ws.tag_seq()) == accept_tags(Seq::empty(), lines_of(source@)),
            forall|i: int| 0 <= i < ws.tag_seq().len() ==> (#[trigger] ws.tag_seq()[i]).id == i + 1
                && ws.tag_seq()[i].color_index == i,
            ws.next_tag() == if ws.tag_seq().len() == 0 {
                0
            } else {
                next_id(ws.tag_seq().len() as u64)
            },
            ws.selected() is None,
            ws.todo_seq().len() == 0,
            ws.next_todo() == 0,
            ws.wf(),
            ws.tag_seq().len() < u64::MAX ==> ws.ids_fresh(),
    {
        let s = chars_of(source);
        let mut ws = TodoWorkspace::new();
        let mut pos: usize = 0;
        proof {
            assert(s@.skip(0) =~= s@);
            assert(tag_names(ws.tag_seq()) =~= Seq::<Seq<char>>::empty());
        }
        while pos < s.len()
            invariant
                pos <= s.len(),
                s@ == source@,
                accept_tags(tag_names(ws.tag_seq()), lines_of(s@.skip(pos as int))) == accept_tags(
                    Seq::empty(),
                    lines_of(source@),
                ),
                ws.tag_seq().len() <= pos,
                forall|i: int| 0 <= i < ws.tag_seq().len() ==> (#[trigger] ws.tag_seq()[i]).id == i + 1
                    && ws.tag_seq()[i].color_index == i,
                ws.next_tag() == if ws.tag_seq().len() == 0 {
                    0
                } else {
                    next_id(ws.tag_seq().len() as u64)
                },
                ws.todo_seq().len() == 0,
                ws.next_todo() == 0,
                ws.wf(),
            decreases s.len() - pos,
        {
            let (end, next) = next_line(&s, pos);
            let line = string_of(&slice_chars(&s, pos, end));
            let ghost before = ws;
            let ghost rest = s@.skip(pos as int);
            proof {
                assert(rest.len() > 0);
                assert(lines_of(rest) == seq![first_line(rest)] + lines_of(after_first_line(rest)));
                assert((seq![first_line(rest)] + lines_of(after_first_line(rest))).drop_first() =~= lines_of(
                    after_first_line(rest),
                ));
                assert(line@ == first_line(rest));
            }
            let _ = ws.add_tag(line.as_str());
            proof {
                let n = before.tag_seq().len();
                let t = trim(line@);
                if ws.tag_seq().len() != n {
                    assert(tag_names(ws.tag_seq()) =~= tag_names(before.tag_seq()).push(t));
                    assert forall|i: int| 0 <= i < ws.tag_seq().len() implies (#[trigger] ws.tag_seq()[i]).id == i
                        + 1 && ws.tag_seq()[i].color_index == i by {
                        if i < n {
                            assert(ws.tag_seq()[i] == ws.tag_seq().drop_last()[i]);
                            assert(ws.tag_seq().drop_last()[i] == before.tag_seq()[i]);
                        }
                    }
                } else {
                    assert(tag_names(ws.tag_seq()) == tag_names(before.tag_seq()));
                }
                assert(tag_names(ws.tag_seq()) == accept_tag(tag_names(before.tag_seq()), line@));
            }
            pos = next;
        }
        ws.select_tag(None);
        ws
    }
}

/// Taking names that are trimmed, short, non-empty and new ignoring case keeps
/// them all, in order.
proof fn lemma_accept_tags_all(acc: Seq<Seq<char>>, names: Seq<Seq<char>>)
    requires
        names_loadable(names),
        forall|i: int, j: int| 0 <= i < acc.len() && 0 <= j < names.len() ==> lowercase(#[trigger] acc[i]) != lowercase(
            #[trigger] names[j],
        ),
    ensures
        accept_tags(acc, names) == acc + names,
    decreases names.len(),
{
    if names.len() == 0 {
        assert(acc + names =~= acc);
    } else {
        let n = names[0];
        assert(trim(n) == n);
        if name_taken(acc, n) {
            let i = choose|i: int| 0 <= i < acc.len() && lowercase(#[trigger] acc[i]) == lowercase(n);
            assert(lowercase(acc[i]) != lowercase(names[0]));
        }
        assert(accept_tag(acc, n) == acc.push(n));
        let rest = names.drop_first();
        let acc2 = acc.push(n);
        assert forall|i: int| 0 <= i < rest.len() implies {
            &&& trim(#[trigger] rest[i]) == rest[i]
            &&& 0 < rest[i].len() <= TAG_NAME_MAX_CHARS
            &&& !rest[i].contains('\n')
        } by {
            assert(rest[i] == names[i + 1]);
        }
        assert forall|i: int, j: int| 0 <= i < j < rest.len() implies lowercase(#[trigger] rest[i]) != lowercase(
            #[trigger] rest[j],
        ) by {
            assert(rest[i] == names[i + 1] && rest[j] == names[j + 1]);
        }
        assert forall|i: int, j: int| 0 <= i < acc2.len() && 0 <= j < rest.len() implies lowercase(
            #[trigger] acc2[i],
        ) != lowercase(#[trigger] rest[j]) by {
            assert(rest[j] == names[j + 1]);
            if i < acc.len() {
                assert(acc2[i] == acc[i]);
            } else {
                assert(acc2[i] == names[0]);
            }
        }
        lemma_accept_tags_all(acc2, rest);
        assert(acc2 + rest =~= acc + names);
    }
}

/// The lines of names joined by `'\n'` with a final `'\n'` are the names, when each
/// is on one line and does not end in `'\r'`.
proof fn lemma_lines_of_joined(names: Seq<Seq<char>>)
    requires
        names.len() >= 1,
        forall|i: int| 0 <= i < names.len() ==> !(#[trigger] names[i]).contains('\n') && (names[i].len() == 0
            || names[i].last() != '\r'),
    ensures
        lines_of(join_lines(names).push('\n')) == names,
    decreases names.len(),
{
    let n = names[0];
    let s = join_lines(names).push('\n');
    let rest = names.drop_first();
    let tail = if names.len() == 1 {
        Seq::<char>::empty()
    } else {
        join_lines(rest).push('\n')
    };
    assert(!n.contains('\n'));
    assert(s =~= n + seq!['\n'] + tail);
    assert forall|j: int| 0 <= j < n.len() implies s[j] != '\n' by {
        assert(s[j] == n[j]);
        if n[j] == '\n' {
            assert(n.contains('\n'));
        }
    }
    assert(s[n.len() as int] == '\n');
    lemma_index_of_char_at(s, '\n', n.len() as int);
    assert(s.take(n.len() as int) =~= n);
    assert(first_line(s) == n);
    assert(after_first_line(s) =~= tail);
    if names.len() == 1 {
        assert(after_first_line(s).len() == 0);
        assert(lines_of(after_first_line(s)) =~= Seq::<Seq<char>>::empty());
        assert(lines_of(s) =~= seq![n]);
        assert(names =~= seq![n]);
    } else {
        assert forall|i: int| 0 <= i < rest.len() implies !(#[trigger] rest[i]).contains('\n') && (rest[i].len()
            == 0 || rest[i].last() != '\r') by {
            assert(rest[i] == names[i + 1]);
        }
        lemma_lines_of_joined(rest);
        assert(lines_of(s) =~= seq![n] + rest);
        assert(names =~= seq![n] + rest);
    }
}

/// A tags file reads back as the names it was written from, when the names are
/// trimmed, non-empty, at most 48 characters, on one line, and distinct ignoring
/// case (as `add_tag` leaves them, but for names holding a line break).
pub proof fn lemma_tags_file_round_trip(names: Seq<Seq<char>>)
    requires
        names_loadable(names),
    ensures
        accept_tags(Seq::empty(), lines_of(tags_file(names))) == names,
{
    if names.len() == 0 {
        assert(tags_file(names) =~= Seq::<char>::empty());
        assert(lines_of(Seq::<char>::empty()) =~= Seq::<Seq<char>>::empty());
    } else {
        assert forall|i: int| 0 <= i < names.len() implies !(#[trigger] names[i]).contains('\n') && (names[i].len()
            == 0 || names[i].last() != '\r') by {
            assert(trim(names[i]) == names[i]);
            lemma_trim_last_nonblank(names[i]);
        }
        assert(join_lines(names).len() >= names[0].len());
        lemma_lines_of_joined(names);
        lemma_accept_tags_all(Seq::empty(), names);
        assert(Seq::<Seq<char>>::empty() + names =~= names);
    }
}


/// The characters of one todo: `(id, text, done, tags)`.
pub type TodoView = (u64, Seq<char>, bool, Seq<Seq<char>>);

/// One line of the todos file: the identifier, `1` or `0` for done, the tags in the
/// list format and the escaped text, separated by tabs and ended by `'\n'`.
pub open spec fn todo_line(t: TodoView) -> Seq<char> {
    decimal(t.0 as nat) + seq!['\t'] + seq![if t.2 { '1' } else { '0' }] + seq!['\t'] + encode_tags_seq(t.3)
        + seq!['\t'] + escape_seq(t.1) + seq!['\n']
}

/// The todos file: one line per todo, in order.
pub open spec fn todos_file(items: Seq<TodoView>) -> Seq<char>
    decreases items.len(),
{
    if items.len() == 0 {
        Seq::empty()
    } else {
        todo_line(items[0]) + todos_file(items.drop_first())
    }
}

/// The text before the first tab of `s` and the text after it, when there is one.
pub open spec fn split_tab(s: Seq<char>) -> Option<(Seq<char>, Seq<char>)> {
    let n = index_of_char(s, '\t');
    if n < s.len() {
        Some((s.take(n as int), s.skip(n + 1int)))
    } else {
        None
    }
}

/// `"0"` reads as open and `"1"` as done.
pub open spec fn done_flag(f: Seq<char>) -> Option<bool> {
    if f == seq!['0'] {
        Some(false)
    } else if f == seq!['1'] {
        Some(true)
    } else {
        None
    }
}

/// The todo on one line of the todos file: four tab-separated fields (the last one
/// takes the rest of the line) that read as an identifier, a done flag, a tag list
/// and an escaped text that is not blank.
pub open spec fn read_todo_line(line: Seq<char>) -> Option<TodoView> {
    match split_tab(line) {
        None => None,
        Some((f1, r1)) => match split_tab(r1) {
            None => None,
            Some((f2, r2)) => match split_tab(r2) {
                None => None,
                Some((f3, f4)) => match (
                    parse_unsigned(f1, u64::MAX as int),
                    done_flag(f2),
                    decode_tags_seq(f3),
                    unescape_seq(f4),
                ) {
                    (Some(id), Some(done), Some(tags), Some(text)) => if all_ws(text) {
                        None
                    } else {
                        Some((id as u64, text, done, tags))
                    },
                    _ => None,
                },
            },
        },
    }
}

/// The todos of the lines that read as todos, in order.
pub open spec fn read_todo_lines(lines: Seq<Seq<char>>) -> Seq<TodoView>
    decreases lines.len(),
{
    if lines.len() == 0 {
        Seq::empty()
    } else {
        let rest = read_todo_lines(lines.drop_first());
        match read_todo_line(lines[0]) {
            Some(t) => seq![t] + rest,
            None => rest,
        }
    }
}

/// The next todo identifier after reading `items`, starting from `next`: past the
/// largest identifier read.
pub open spec fn next_after(next: u64, items: Seq<TodoView>) -> u64
    decreases items.len(),
{
    if items.len() == 0 {
        next
    } else {
        let n = next_id(items[0].0);
        next_after(if n > next { n } else { next }, items.drop_first())
    }
}

/// A tag list that reads back holds non-empty, distinct names.
proof fn lemma_decode_tag_list_ok(rem: Seq<char>, acc: Seq<Seq<char>>)
    requires
        names_ok(acc),
    ensures
        decode_tag_list(rem, acc) matches Some(r) ==> names_ok(r),
    decreases rem.len(),
{
    if rem.len() > 0 {
        let sep = index_of_char(rem, ':');
        if sep < rem.len() {
            if let Some(b) = parse_unsigned(rem.take(sep as int), usize::MAX as int) {
                let r = rem.skip(sep + 1int);
                if let Some(k) = chars_for_bytes(r, b) {
                    if 0 <= k <= r.len() {
                        if let Some(tag) = unescape_seq(r.take(k)) {
                            let acc2 = if tag.len() > 0 && !acc.contains(tag) {
                                acc.push(tag)
                            } else {
                                acc
                            };
                            if tag.len() > 0 && !acc.contains(tag) {
                                assert forall|a: int, c: int| 0 <= a < acc2.len() && 0 <= c < acc2.len() && a != c implies acc2[a] != acc2[c] by {
                                    if a == acc.len() {
                                        assert(acc.contains(acc2[c]));
                                    } else if c == acc.len() {
                                        assert(acc.contains(acc2[a]));
                                    }
                                }
                            }
                            lemma_decode_tag_list_ok(r.skip(k), acc2);
                        }
                    }
                }
            }
        }
    }
}

/// A stored tag list that reads back holds non-empty, distinct names.
proof fn lemma_decode_tags_ok(value: Seq<char>)
    ensures
        decode_tags_seq(value) matches Some(r) ==> names_ok(r),
{
    if starts_with(value, "v2:"@) {
        lemma_decode_tag_list_ok(value.skip(3), Seq::empty());
    }
}

/// Reading a todo back from `s[from..to]`.
fn read_todo(s: &Vec<char>, from: usize, to: usize) -> (r: Option<TodoItem>)
    requires
        from <= to <= s.len(),
    ensures
        match read_todo_line(s@.subrange(from as int, to as int)) {
            Some(v) => r matches Some(x) && item_view(x) == v && todo_ok(x),
            None => r is None,
        },
{
    let ghost line = s@.subrange(from as int, to as int);
    let a = find_char(s, from, to, '\t');
    if from + a >= to {
        return None;
    }
    let t1 = from + a;
    let ghost r1 = s@.subrange(t1 + 1, to as int);
    proof {
        assert(line.take(a as int) =~= s@.subrange(from as int, t1 as int));
        assert(line.skip(a + 1int) =~= r1);
    }
    let b = find_char(s, t1 + 1, to, '\t');
    if t1 + 1 + b >= to {
        return None;
    }
    let t2 = t1 + 1 + b;
    let ghost r2 = s@.subrange(t2 + 1, to as int);
    proof {
        assert(r1.take(b as int) =~= s@.subrange(t1 + 1, t2 as int));
        assert(r1.skip(b + 1int) =~= r2);
    }
    let c = find_char(s, t2 + 1, to, '\t');
    if t2 + 1 + c >= to {
        return None;
    }
    let t3 = t2 + 1 + c;
    proof {
        assert(r2.take(c as int) =~= s@.subrange(t2 + 1, t3 as int));
        assert(r2.skip(c + 1int) =~= s@.subrange(t3 + 1, to as int));
    }
    let id = match parse_decimal(s, from, t1, u64::MAX) {
        Some(v) => v,
        None => return None,
    };
    let ghost f2 = s@.subrange(t1 + 1, t2 as int);
    let done = if t2 == t1 + 2 && s[t1 + 1] == '0' {
        assert(f2 =~= seq!['0']);
        false
    } else if t2 == t1 + 2 && s[t1 + 1] == '1' {
        assert(f2 =~= seq!['1']);
        true
    } else {
        proof {
            if f2 == seq!['0'] || f2 == seq!['1'] {
                assert(f2[0] == s@[t1 + 1]);
            }
        }
        return None;
    };
    let tags = match decode_tags_chars(s, t2 + 1, t3) {
        Some(v) => v,
        None => return None,
    };
    let text = match unescape_chars(s, t3 + 1, to) {
        Some(v) => v,
        None => return None,
    };
    let lead = count_lead_ws(&text, 0, text.len());
    proof {
        assert(text@.subrange(0, text.len() as int) =~= text@);
        lemma_lead_ws_bounds(text@);
    }
    if lead == text.len() {
        return None;
    }
    let item = TodoItem { id, text: string_of(&text), done, tags };
    proof {
        lemma_decode_tags_ok(s@.subrange(t2 + 1, t3 as int));
        reveal(todo_ok);
    }
    Some(item)
}

impl TodoWorkspace {
    /// The todos file: one line per todo, newest first.
    #[verifier::spinoff_prover]
    #[verifier::rlimit(40)]
    pub fn todos_text(&self) -> (out: String)
        requires
            forall|i: int| 0 <= i < self.todo_seq().len() ==> tags_fit(
                strings_view(#[trigger] self.todo_seq()[i].tags@),
            ),
        ensures
            out@ == todos_file(items_view(self.todo_seq())),
    {
        let ghost items = items_view(self.todos@);
        let mut out: Vec<char> = Vec::new();
        let mut i: usize = 0;
        proof {
            assert(items.skip(0) =~= items);
            assert(out@ + todos_file(items) =~= todos_file(items));
            assert forall|k: int| 0 <= k < self.todos@.len() implies tags_fit(
                strings_view(#[trigger] self.todos@[k].tags@),
            ) by {
                assert(tags_fit(strings_view(self.todo_seq()[k].tags@)));
            }
        }
        while i < self.todos.len()
            invariant
                i <= self.todos.len(),
                items == items_view(self.todos@),
                forall|k: int| 0 <= k < self.todos@.len() ==> tags_fit(
                    strings_view(#[trigger] self.todos@[k].tags@),
                ),
                out@ + todos_file(items.skip(i as int)) == todos_file(items),
            decreases self.todos.len() - i,
        {
            let todo = &self.todos[i];
            let ghost before = out@;
            push_all(&mut out, &decimal_of(todo.id));
            out.push('\t');
            out.push(if todo.done { '1' } else { '0' });
            out.push('\t');
            assert(tags_fit(strings_view(self.todos@[i as int].tags@)));
            let tags = encode_tags(&todo.tags);
            push_str(&mut out, tags.as_str());
            out.push('\t');
            let text = escape_field(todo.text.as_str());
            push_str(&mut out, text.as_str());
            out.push('\n');
            proof {
                let v = items[i as int];
                assert(v == item_view(*todo));
                assert(out@ =~= before + todo_line(v));
                let rest = items.skip(i as int);
                assert(rest[0] == v);
                assert(rest.drop_first() =~= items.skip(i + 1));
                assert(todos_file(rest) == todo_line(v) + todos_file(items.skip(i + 1)));
                assert(out@ + todos_file(items.skip(i + 1)) =~= before + todos_file(rest));
            }
            i += 1;
        }
        proof {
            assert(items.skip(self.todos.len() as int) =~= Seq::<TodoView>::empty());
            assert(out@ + Seq::<char>::empty() =~= out@);
        }
        string_of(&out)
    }

    /// Replaces the todos by those of a todos file, in its order; lines that do not
    /// read as a todo are skipped. The next todo identifier goes past the largest
    /// one read, and is at least 1.
    #[verifier::spinoff_prover]
    #[verifier::rlimit(60)]
    pub fn load_todos_text(&mut self, source: &str)
        ensures
            items_view(final(self).todo_seq()) == read_todo_lines(lines_of(source@)),
            final(self).next_todo() == next_after(1, read_todo_lines(lines_of(source@))),
            final(self).tag_seq() == old(self).tag_seq(),
            final(self).selected() == old(self).selected(),
            final(self).next_tag() == old(self).next_tag(),
            old(self).tag_ids_fresh() && (forall|i: int|
                0 <= i < final(self).todo_seq().len() ==> #[trigger] final(self).todo_seq()[i].id < u64::MAX)
                ==> final(self).ids_fresh(),
            old(self).wf() ==> final(self).wf(),
    {
        let s = chars_of(source);
        self.todos = Vec::new();
        self.next_todo_id = 1;
        let mut pos: usize = 0;
        proof {
            assert(s@.skip(0) =~= s@);
            assert(items_view(self.todos@) + read_todo_lines(lines_of(s@)) =~= read_todo_lines(lines_of(s@)));
        }
        while pos < s.len()
            invariant
                pos <= s.len(),
                s@ == source@,
                items_view(self.todos@) + read_todo_lines(lines_of(s@.skip(pos as int))) == read_todo_lines(
                    lines_of(source@),
                ),
                next_after(self.next_todo_id, read_todo_lines(lines_of(s@.skip(pos as int)))) == next_after(
                    1,
                    read_todo_lines(lines_of(source@)),
                ),
                forall|i: int| 0 <= i < self.todos@.len() ==> todo_ok(#[trigger] self.todos@[i]),
                self.tags == old(self).tags,
                self.selected_tag_id == old(self).selected_tag_id,
                self.next_tag_id == old(self).next_tag_id,
                self.next_todo_id >= 1,
                forall|i: int| 0 <= i < self.todos@.len() ==> (#[trigger] self.todos@[i]).id < self.next_todo_id
                    || self.todos@[i].id == u64::MAX,
            decreases s.len() - pos,
        {
            let (end, next) = next_line(&s, pos);
            let ghost rest = s@.skip(pos as int);
            let ghost after = s@.skip(next as int);
            proof {
                assert(rest.len() > 0);
                assert(lines_of(rest) == seq![first_line(rest)] + lines_of(after_first_line(rest)));
                let ls = lines_of(rest);
                assert(ls[0] == first_line(rest));
                assert(ls.drop_first() =~= lines_of(after));
                assert(s@.subrange(pos as int, end as int) == first_line(rest));
            }
            let ghost before = self.todos@;
            match read_todo(&s, pos, end) {
                Some(item) => {
                    let n = if item.id == u64::MAX {
                        u64::MAX
                    } else {
                        item.id + 1
                    };
                    if n > self.next_todo_id {
                        self.next_todo_id = n;
                    }
                    let ghost v = item_view(item);
                    self.todos.push(item);
                    proof {
                        lemma_items_view_push_one(before, item);
                        let r = read_todo_lines(lines_of(after));
                        assert(read_todo_lines(lines_of(rest)) == seq![v] + r);
                        assert(items_view(self.todos@) + r =~= items_view(before) + (seq![v] + r));
                        assert((seq![v] + r)[0] == v);
                        assert((seq![v] + r).drop_first() =~= r);
                    }
                },
                None => {},
            }
            pos = next;
        }
        proof {
            assert(s@.skip(s.len() as int) =~= Seq::<char>::empty());
            assert(lines_of(Seq::<char>::empty()) =~= Seq::<Seq<char>>::empty());
            assert(read_todo_lines(Seq::<Seq<char>>::empty()) =~= Seq::<TodoView>::empty());
            assert(items_view(self.todos@) + Seq::<TodoView>::empty() =~= items_view(self.todos@));
            if old(self).wf() {
                lemma_wf_same_tags(*old(self), *self);
            }
        }
    }
}

/// Appending one todo appends its characters.
proof fn lemma_items_view_push_one(a: Seq<TodoItem>, x: TodoItem)
    ensures
        items_view(a.push(x)) == items_view(a).push(item_view(x)),
{
    assert(items_view(a.push(x)) =~= items_view(a).push(item_view(x)));
}


/// The todos a todos file gives back: text not blank, tags non-empty and distinct,
/// and each escaped tag short enough for its byte length to be written.
pub open spec fn todo_storable(t: TodoView) -> bool {
    &&& !all_ws(t.1)
    &&& names_ok(t.3)
    &&& tags_fit(t.3)
}

/// The body of a todo line: the fields and tabs, without the line feed.
pub open spec fn todo_body(t: TodoView) -> Seq<char> {
    decimal(t.0 as nat) + seq!['\t'] + seq![if t.2 { '1' } else { '0' }] + seq!['\t'] + encode_tags_seq(t.3)
        + seq!['\t'] + escape_seq(t.1)
}

/// A todo line holds no line break before its final line feed, and its body does
/// not end in a carriage return.
proof fn lemma_todo_line_shape(t: TodoView)
    requires
        !all_ws(t.1),
    ensures
        todo_line(t) == todo_body(t).push('\n'),
        forall|i: int| 0 <= i < todo_body(t).len() ==> #[trigger] todo_body(t)[i] != '\n',
        todo_body(t).len() > 0 && todo_body(t).last() != '\r',
{
    let d = decimal(t.0 as nat);
    let e = encode_tags_seq(t.3);
    let x = escape_seq(t.1);
    let body = todo_body(t);
    assert(todo_line(t) =~= body.push('\n'));
    lemma_decimal_digits(t.0 as nat);
    lemma_encode_tags_clean(t.3);
    lemma_escape_no_separators(t.1);
    assert(x.len() > 0) by {
        if t.1.len() > 0 {
            assert(escape_seq(t.1) == escape_char(t.1[0]) + escape_seq(t.1.drop_first()));
        }
    }
    assert(body.last() == x.last());
    assert forall|i: int| 0 <= i < body.len() implies #[trigger] body[i] != '\n' by {
        let a = d.len() as int;
        if i < a {
            assert(body[i] == d[i]);
            assert(crate::text::is_digit(d[i]));
        } else if i < a + 3 {
        } else if i < a + 3 + e.len() {
            assert(body[i] == e[i - a - 3]);
        } else if i == a + 3 + e.len() {
        } else {
            assert(body[i] == x[i - a - 4 - e.len()]);
        }
    }
}

/// The body of a todo line splits at its tabs into the four fields.
proof fn lemma_todo_body_fields(t: TodoView)
    ensures
        split_tab(todo_body(t)) == Some(
            (
                decimal(t.0 as nat),
                seq![if t.2 { '1' } else { '0' }] + seq!['\t'] + encode_tags_seq(t.3) + seq!['\t'] + escape_seq(
                    t.1,
                ),
            ),
        ),
        split_tab(seq![if t.2 { '1' } else { '0' }] + seq!['\t'] + encode_tags_seq(t.3) + seq!['\t'] + escape_seq(t.1))
            == Some((seq![if t.2 { '1' } else { '0' }], encode_tags_seq(t.3) + seq!['\t'] + escape_seq(t.1))),
        split_tab(encode_tags_seq(t.3) + seq!['\t'] + escape_seq(t.1)) == Some(
            (encode_tags_seq(t.3), escape_seq(t.1)),
        ),
{
    let d = decimal(t.0 as nat);
    let f = if t.2 {
        '1'
    } else {
        '0'
    };
    let e = encode_tags_seq(t.3);
    let x = escape_seq(t.1);
    let body = todo_body(t);
    let r1 = seq![f] + seq!['\t'] + e + seq!['\t'] + x;
    let r2 = e + seq!['\t'] + x;
    lemma_decimal_digits(t.0 as nat);
    assert forall|j: int| 0 <= j < d.len() implies body[j] != '\t' by {
        assert(body[j] == d[j]);
        assert(crate::text::is_digit(d[j]));
    }
    assert(body[d.len() as int] == '\t');
    lemma_index_of_char_at(body, '\t', d.len() as int);
    assert(body.take(d.len() as int) =~= d);
    assert(body.skip(d.len() + 1int) =~= r1);
    assert(r1[1] == '\t');
    lemma_index_of_char_at(r1, '\t', 1);
    assert(r1.take(1) =~= seq![f]);
    assert(r1.skip(2) =~= r2);
    lemma_encode_tags_clean(t.3);
    assert forall|j: int| 0 <= j < e.len() implies r2[j] != '\t' by {
        assert(r2[j] == e[j]);
    }
    assert(r2[e.len() as int] == '\t');
    lemma_index_of_char_at(r2, '\t', e.len() as int);
    assert(r2.take(e.len() as int) =~= e);
    assert(r2.skip(e.len() + 1int) =~= x);
}

/// The body of a stored todo line reads back as the todo.
proof fn lemma_todo_line_reads_back(t: TodoView)
    requires
        todo_storable(t),
    ensures
        read_todo_line(todo_body(t)) == Some(t),
{
    lemma_todo_body_fields(t);
    lemma_decimal_digits(t.0 as nat);
    assert(parse_unsigned(decimal(t.0 as nat), u64::MAX as int) == Some(t.0 as int));
    assert(done_flag(seq![if t.2 { '1' } else { '0' }]) == Some(t.2));
    lemma_decode_encode_tags(t.3);
    lemma_unescape_escape(t.1);
}

/// The lines of a todos file are its todo lines without their line feed.
#[verifier::spinoff_prover]
#[verifier::rlimit(40)]
proof fn lemma_todos_file_reads_back(items: Seq<TodoView>)
    requires
        forall|i: int| 0 <= i < items.len() ==> todo_storable(#[trigger] items[i]),
    ensures
        read_todo_lines(lines_of(todos_file(items))) == items,
    decreases items.len(),
{
    if items.len() == 0 {
        assert(lines_of(Seq::<char>::empty()) =~= Seq::<Seq<char>>::empty());
        assert(read_todo_lines(Seq::<Seq<char>>::empty()) =~= Seq::<TodoView>::empty());
    } else {
        let t = items[0];
        assert(todo_storable(t));
        lemma_todo_line_shape(t);
        lemma_todo_line_reads_back(t);
        let b = todo_body(t);
        let rest = items.drop_first();
        let f = todos_file(items);
        assert(f =~= b + seq!['\n'] + todos_file(rest));
        let n = b.len() as int;
        assert forall|j: int| 0 <= j < n implies f[j] != '\n' by {
            assert(f[j] == b[j]);
        }
        assert(f[n] == '\n');
        lemma_index_of_char_at(f, '\n', n);
        assert(f[n - 1] == b[n - 1]);
        assert(f.take(n) =~= b);
        assert(first_line(f) == b);
        assert(after_first_line(f) =~= todos_file(rest));
        let ls = lines_of(f);
        assert(ls == seq![b] + lines_of(todos_file(rest)));
        assert(ls[0] == b);
        assert(ls.drop_first() =~= lines_of(todos_file(rest)));
        assert forall|i: int| 0 <= i < rest.len() implies todo_storable(#[trigger] rest[i]) by {
            assert(rest[i] == items[i + 1]);
        }
        lemma_todos_file_reads_back(rest);
        assert(read_todo_lines(ls) == seq![t] + rest);
        assert(seq![t] + rest =~= items);
    }
}

/// A todos file reads back as the todos it was written from (identifier, text, done
/// flag and tags, in order), when every todo can be stored.
pub proof fn lemma_todos_file_round_trip(items: Seq<TodoView>)
    requires
        forall|i: int| 0 <= i < items.len() ==> todo_storable(#[trigger] items[i]),
    ensures
        read_todo_lines(lines_of(todos_file(items))) == items,
{
    lemma_todos_file_reads_back(items);
}

/// One past the largest identifier of `items`, and at least 1.
pub open spec fn one_past_largest_id(items: Seq<TodoView>) -> int
    decreases items.len(),
{
    if items.len() == 0 {
        1
    } else {
        let rest = one_past_largest_id(items.drop_first());
        if items[0].0 + 1 > rest {
            items[0].0 + 1
        } else {
            rest
        }
    }
}

/// Reading todos whose identifiers are below `u64::MAX` moves the counter `next` to one
/// past the largest of them, unless it was already further.
proof fn lemma_next_after_largest(next: u64, items: Seq<TodoView>)
    requires
        next >= 1,
        forall|i: int| 0 <= i < items.len() ==> (#[trigger] items[i]).0 < u64::MAX,
    ensures
        next_after(next, items) == if next > one_past_largest_id(items) {
            next as int
        } else {
            one_past_largest_id(items)
        },
    decreases items.len(),
{
    if items.len() > 0 {
        let n = next_id(items[0].0);
        let m: u64 = if n > next { n } else { next };
        assert forall|i: int| 0 <= i < items.drop_first().len() implies (#[trigger] items.drop_first()[i]).0
            < u64::MAX by {
            assert(items.drop_first()[i] == items[i + 1]);
        }
        lemma_next_after_largest(m, items.drop_first());
    }
}

/// Writing the todos of a workspace and loading the file into a workspace `loaded` gives
/// back the same todos (identifier, text, done flag and tags, in order), and the next
/// todo added there gets one past the largest identifier (1 when there are none). The
/// todos must fit the file and have identifiers below `u64::MAX`.
pub proof fn lemma_workspace_todos_reload(ws: TodoWorkspace, loaded: TodoWorkspace)
    requires
        ws.wf(),
        forall|i: int| 0 <= i < ws.todo_seq().len() ==> tags_fit(strings_view(#[trigger] ws.todo_seq()[i].tags@)),
        forall|i: int| 0 <= i < ws.todo_seq().len() ==> (#[trigger] ws.todo_seq()[i]).id < u64::MAX,
        items_view(loaded.todo_seq()) == read_todo_lines(lines_of(todos_file(items_view(ws.todo_seq())))),
        loaded.next_todo() == next_after(1, read_todo_lines(lines_of(todos_file(items_view(ws.todo_seq()))))),
    ensures
        items_view(loaded.todo_seq()) == items_view(ws.todo_seq()),
        fresh_id(loaded.next_todo()) == one_past_largest_id(items_view(ws.todo_seq())),
{
    let items = items_view(ws.todo_seq());
    lemma_workspace_todos_storable(ws);
    lemma_todos_file_round_trip(items);
    assert forall|i: int| 0 <= i < items.len() implies (#[trigger] items[i]).0 < u64::MAX by {
        assert(items[i].0 == ws.todo_seq()[i].id);
    }
    lemma_next_after_largest(1, items);
    lemma_one_past_largest_positive(items);
}

/// One past the largest identifier is at least 1.
proof fn lemma_one_past_largest_positive(items: Seq<TodoView>)
    ensures
        one_past_largest_id(items) >= 1,
    decreases items.len(),
{
    if items.len() > 0 {
        lemma_one_past_largest_positive(items.drop_first());
    }
}

/// The todos of a well-formed workspace can be stored when their tags fit.
pub proof fn lemma_workspace_todos_storable(ws: TodoWorkspace)
    requires
        ws.wf(),
        forall|i: int| 0 <= i < ws.todo_seq().len() ==> tags_fit(strings_view(#[trigger] ws.todo_seq()[i].tags@)),
    ensures
        forall|i: int| 0 <= i < items_view(ws.todo_seq()).len() ==> todo_storable(
            #[trigger] items_view(ws.todo_seq())[i],
        ),
{
    reveal(todo_ok);
    assert forall|i: int| 0 <= i < items_view(ws.todo_seq()).len() implies todo_storable(
        #[trigger] items_view(ws.todo_seq())[i],
    ) by {
        assert(todo_ok(ws.todo_seq()[i]));
        assert(tags_fit(strings_view(ws.todo_seq()[i].tags@)));
        assert(items_view(ws.todo_seq())[i] == item_view(ws.todo_seq()[i]));
    }
}


/// The first position of a todo with a given identifier is unique.
proof fn lemma_first_todo_unique(todos: Seq<TodoItem>, id: u64, i: int, j: int)
    requires
        first_todo(todos, id, i),
        first_todo(todos, id, j),
    ensures
        i == j,
{
    if i < j {
        assert(todos[i].id != id);
    } else if j < i {
        assert(todos[j].id != id);
    }
}

/// Toggling a todo twice gives the workspace back.
pub proof fn lemma_toggle_twice(a: TodoWorkspace, b: TodoWorkspace, c: TodoWorkspace, todo_id: u64)
    requires
        toggled(a, b, todo_id),
        toggled(b, c, todo_id),
    ensures
        c.todo_seq() == a.todo_seq(),
        c.tag_seq() == a.tag_seq(),
        c.selected() == a.selected(),
        c.next_tag() == a.next_tag(),
        c.next_todo() == a.next_todo(),
{
    let ta = a.todo_seq();
    let tb = b.todo_seq();
    if has_todo(ta, todo_id) {
        lemma_first_todo_exists(ta, todo_id);
        let k = todo_index(ta, todo_id);
        assert(first_todo(tb, todo_id, k)) by {
            assert forall|j: int| 0 <= j < k implies tb[j].id != todo_id by {
                assert(tb[j] == ta[j]);
            }
        }
        assert(has_todo(tb, todo_id));
        lemma_first_todo_exists(tb, todo_id);
        lemma_first_todo_unique(tb, todo_id, k, todo_index(tb, todo_id));
        assert(c.todo_seq()[k] == ta[k]);
        assert(c.todo_seq() =~= ta);
    }
}

/// After deleting a todo, no todo has its identifier.
pub proof fn lemma_deleted_todo_gone(todos: Seq<TodoItem>, todo_id: u64)
    ensures
        !has_todo(todos.filter(id_is_not(todo_id)), todo_id),
{
    let f = todos.filter(id_is_not(todo_id));
    if has_todo(f, todo_id) {
        let i = choose|i: int| 0 <= i < f.len() && f[i].id == todo_id;
        todos.lemma_filter_pred(id_is_not(todo_id), i);
    }
}

/// After clearing the completed todos, none is done.
pub proof fn lemma_cleared_todos_open(todos: Seq<TodoItem>)
    ensures
        forall|i: int| 0 <= i < todos.filter(is_open()).len() ==> !(#[trigger] todos.filter(is_open())[i]).done,
{
    assert forall|i: int| 0 <= i < todos.filter(is_open()).len() implies !(#[trigger] todos.filter(is_open())[i]).done by {
        todos.lemma_filter_pred(is_open(), i);
    }
}

/// After deleting a tag, no todo carries its name.
pub proof fn lemma_deleted_tag_gone(tags: Seq<Seq<char>>, name: Seq<char>)
    ensures
        !tags.filter(name_is_not(name)).contains(name),
{
    let f = tags.filter(name_is_not(name));
    if f.contains(name) {
        let i = choose|i: int| 0 <= i < f.len() && f[i] == name;
        tags.lemma_filter_pred(name_is_not(name), i);
    }
}


/// Removing a tag name keeps the names well-formed.
proof fn lemma_tag_names_ok_remove(names: Seq<Seq<char>>, k: int)
    requires
        tag_names_ok(names),
        0 <= k < names.len(),
    ensures
        tag_names_ok(names.remove(k)),
{
    let r = names.remove(k);
    assert forall|i: int| 0 <= i < r.len() implies trim(#[trigger] r[i]) == r[i] && 0 < r[i].len() <= TAG_NAME_MAX_CHARS by {
        if i < k {
            assert(r[i] == names[i]);
        } else {
            assert(r[i] == names[i + 1]);
        }
    }
    assert forall|i: int, j: int| 0 <= i < j < r.len() implies lowercase(#[trigger] r[i]) != lowercase(#[trigger] r[j]) by {
        let a = if i < k { i } else { i + 1 };
        let b = if j < k { j } else { j + 1 };
        assert(r[i] == names[a] && r[j] == names[b]);
    }
}

/// Adding a trimmed, short name that no name equals ignoring case keeps the names
/// well-formed.
proof fn lemma_tag_names_ok_push(names: Seq<Seq<char>>, t: Seq<char>)
    requires
        tag_names_ok(names),
        trim(t) == t,
        0 < t.len() <= TAG_NAME_MAX_CHARS,
        !name_taken(names, t),
    ensures
        tag_names_ok(names.push(t)),
{
    let p = names.push(t);
    assert forall|i: int| 0 <= i < p.len() implies trim(#[trigger] p[i]) == p[i] && 0 < p[i].len() <= TAG_NAME_MAX_CHARS by {
        if i < names.len() {
            assert(p[i] == names[i]);
        }
    }
    assert forall|i: int, j: int| 0 <= i < j < p.len() implies lowercase(#[trigger] p[i]) != lowercase(#[trigger] p[j]) by {
        assert(p[i] == names[i]);
        if j == names.len() {
            assert(p[j] == t);
            if lowercase(names[i]) == lowercase(t) {
                assert(name_taken(names, t));
            }
        } else {
            assert(p[j] == names[j]);
        }
    }
}

/// A tags file of a well-formed workspace reads back as its tag names, when no name
/// holds a line break.
pub proof fn lemma_workspace_tags_round_trip(ws: TodoWorkspace)
    requires
        ws.wf(),
        forall|i: int| 0 <= i < tag_names(ws.tag_seq()).len() ==> !(#[trigger] tag_names(ws.tag_seq())[i]).contains('\n'),
    ensures
        accept_tags(Seq::empty(), lines_of(tags_file(tag_names(ws.tag_seq())))) == tag_names(ws.tag_seq()),
{
    let names = tag_names(ws.tag_seq());
    assert(names_loadable(names));
    lemma_tags_file_round_trip(names);
}

/// `i` is the first position of a tag named `name`.
pub open spec fn first_tag_named(tags: Seq<TodoTag>, name: Seq<char>, i: int) -> bool {
    0 <= i < tags.len() && tags[i].name@ == name && forall|j: int| 0 <= j < i ==> tags[j].name@ != name
}

/// Some tag is named `name`.
pub open spec fn has_tag_named(tags: Seq<TodoTag>, name: Seq<char>) -> bool {
    exists|i: int| 0 <= i < tags.len() && tags[i].name@ == name
}

/// The first position of a tag named `name`.
pub open spec fn tag_named_index(tags: Seq<TodoTag>, name: Seq<char>) -> int {
    choose|i: int| first_tag_named(tags, name, i)
}

/// A tag as a todo row shows it: identifier, name and color.
pub open spec fn shown_tag(t: TodoTag) -> (u64, Seq<char>, usize) {
    (t.id, t.name@, t.color_index)
}

/// The tags that the names `names` of a todo stand for, in the todo's order: for each
/// name the first tag of `tags` with that name; a name that no tag has is left out.
pub open spec fn assigned_tags_of(tags: Seq<TodoTag>, names: Seq<Seq<char>>) -> Seq<(u64, Seq<char>, usize)>
    decreases names.len(),
{
    if names.len() == 0 {
        Seq::empty()
    } else {
        let rest = assigned_tags_of(tags, names.drop_last());
        if has_tag_named(tags, names.last()) {
            rest.push(shown_tag(tags[tag_named_index(tags, names.last())]))
        } else {
            rest
        }
    }
}

/// What the tag rows show: identifier, name and color of each.
pub open spec fn shown_tags(v: Seq<(u64, String, usize)>) -> Seq<(u64, Seq<char>, usize)> {
    Seq::new(v.len(), |i: int| (v[i].0, v[i].1@, v[i].2))
}

/// The label of the button that clears the done todos.
pub open spec fn clear_completed_label_text(language: AppLanguage, count: nat) -> Seq<char> {
    text_in(
        language,
        "清除已完成 · "@ + decimal(count),
        "Clear completed · "@ + decimal(count),
    )
}

/// The label of the button that clears the `count` done todos, in `language`.
pub fn clear_completed_label(language: AppLanguage, count: usize) -> (label: String)
    ensures
        label@ == clear_completed_label_text(language, count as nat),
{
    let mut out: Vec<char> = Vec::new();
    push_str(&mut out, language.text("清除已完成 · ", "Clear completed · "));
    let n = decimal_of(count as u64);
    push_all(&mut out, &n);
    proof {
        reveal_strlit("清除已完成 · ");
        reveal_strlit("Clear completed · ");
    }
    string_of(&out)
}

impl TodoWorkspace {
    /// The position of the highlighted pill in the tag list: 0 for "all", else one
    /// after the position of the selected tag (0 again when that tag is gone).
    pub fn active_tag_pill_index(&self) -> (index: usize)
        ensures
            index == match self.selected() {
                None => 0,
                Some(id) => if has_tag_id(self.tag_seq(), id) {
                    tag_index(self.tag_seq(), id) + 1
                } else {
                    0
                },
            },
    {
        match self.selected_tag_id {
            None => 0,
            Some(id) => match self.tag_position(id) {
                Some(i) => {
                    let count = self.tags.len();
                    assert(i < count);
                    i + 1
                },
                None => 0,
            },
        }
    }

    /// The first position of a tag named `name`.
    fn tag_position_named(&self, name: &Vec<char>) -> (r: Option<usize>)
        ensures
            match r {
                Some(i) => first_tag_named(self.tag_seq(), name@, i as int) && i == tag_named_index(
                    self.tag_seq(),
                    name@,
                ) && has_tag_named(self.tag_seq(), name@),
                None => !has_tag_named(self.tag_seq(), name@),
            },
    {
        let mut i: usize = 0;
        while i < self.tags.len()
            invariant
                i <= self.tags.len(),
                forall|j: int| 0 <= j < i ==> self.tags@[j].name@ != name@,
            decreases self.tags.len() - i,
        {
            if chars_equal(&chars_of(self.tags[i].name.as_str()), name) {
                proof {
                    let c = tag_named_index(self.tags@, name@);
                    assert(first_tag_named(self.tags@, name@, i as int));
                    if c < i {
                        assert(self.tags@[c].name@ != name@);
                    } else if c > i {
                        assert(!first_tag_named(self.tags@, name@, c));
                    }
                }
                return Some(i);
            }
            i += 1;
        }
        None
    }

    /// The tags a todo row shows for `todo`: for each of its tag names, in order, the
    /// identifier, name and color of the first workspace tag with that name; names
    /// that no tag has are skipped.
    pub fn assigned_tags(&self, todo: &TodoItem) -> (out: Vec<(u64, String, usize)>)
        ensures
            shown_tags(out@) == assigned_tags_of(self.tag_seq(), strings_view(todo.tags@)),
    {
        let ghost names = strings_view(todo.tags@);
        let mut out: Vec<(u64, String, usize)> = Vec::new();
        let mut i: usize = 0;
        while i < todo.tags.len()
            invariant
                i <= todo.tags.len(),
                names == strings_view(todo.tags@),
                shown_tags(out@) == assigned_tags_of(self.tag_seq(), names.take(i as int)),
            decreases todo.tags.len() - i,
        {
            let name = chars_of(todo.tags[i].as_str());
            let ghost before = out@;
            assert(names.take(i + 1).drop_last() =~= names.take(i as int));
            assert(names.take(i + 1).last() == name@);
            match self.tag_position_named(&name) {
                Some(k) => {
                    let tag = &self.tags[k];
                    out.push((tag.id, tag.name.clone(), tag.color_index));
                    assert(shown_tags(out@) =~= shown_tags(before).push(shown_tag(self.tags@[k as int])));
                },
                None => {},
            }
            i += 1;
        }
        assert(names.take(todo.tags.len() as int) =~= names);
        out
    }
}

} // verus!
