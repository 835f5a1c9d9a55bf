//! The notes and folders of a Vault: the file tree of the sidebar, the note link
//! picker, breadcrumbs, and internal links between notes.
//!
//! A relative path is held as its components, in order (`"a/b.md"` is `["a", "b.md"]`).

use vstd::prelude::*;

use crate::text::{chars_equal, chars_of, index_of_char, starts_with};
use crate::todo_codec::strings_view;
use vstd::utf8::{decode_utf8, encode_utf8, valid_utf8};

verus! {

/// What a Vault entry is.
#[derive(Clone, Copy, Debug, Eq, PartialEq)]
pub enum VaultEntryKind {
    Directory,
    Note,
}

/// A folder or note of the Vault, by its path relative to the Vault root.
#[derive(Debug, Eq, PartialEq)]
pub struct VaultEntry {
    pub relative_path: Vec<String>,
    pub name: String,
    pub kind: VaultEntryKind,
}

/// The components of a relative path, as characters.
pub type PathView = Seq<Seq<char>>;

/// An entry as `(kind, path, name)`.
pub open spec fn entry_view(e: VaultEntry) -> (VaultEntryKind, PathView, Seq<char>) {
    (e.kind, strings_view(e.relative_path@), e.name@)
}

/// The entries as `(kind, path, name)`.
pub open spec fn entries_view(v: Seq<VaultEntry>) -> Seq<(VaultEntryKind, PathView, Seq<char>)> {
    Seq::new(v.len(), |i: int| entry_view(v[i]))
}

/// The paths of a list of paths, as characters.
pub open spec fn paths_view(v: Seq<Vec<String>>) -> Seq<PathView> {
    Seq::new(v.len(), |i: int| strings_view(v[i]@))
}

/// Whether two paths have the same components.
pub fn same_path(a: &Vec<String>, b: &Vec<String>) -> (r: bool)
    ensures
        r == (strings_view(a@) == strings_view(b@)),
{
    if a.len() != b.len() {
        proof {
            assert(strings_view(a@).len() != strings_view(b@).len());
        }
        return false;
    }
    let r = same_prefix(a, b, b.len());
    proof {
        assert(strings_view(a@).take(b.len() as int) =~= strings_view(a@));
    }
    r
}

/// Whether the first `k` components of `a` are the components of `b`.
pub fn same_prefix(a: &Vec<String>, b: &Vec<String>, k: usize) -> (r: bool)
    requires
        k == b.len(),
    ensures
        r == (k <= a.len() && strings_view(a@).take(k as int) == strings_view(b@)),
{
    if k > a.len() {
        return false;
    }
    let mut i: usize = 0;
    while i < k
        invariant
            i <= k <= a.len(),
            k == b.len(),
            forall|j: int| 0 <= j < i ==> a@[j]@ == b@[j]@,
        decreases k - i,
    {
        if !chars_equal(&chars_of(a[i].as_str()), &chars_of(b[i].as_str())) {
            proof {
                assert(strings_view(a@).take(k as int)[i as int] == a@[i as int]@);
                assert(strings_view(b@)[i as int] == b@[i as int]@);
            }
            return false;
        }
        i += 1;
    }
    proof {
        assert(strings_view(a@).take(k as int) =~= strings_view(b@));
    }
    true
}

/// A copy of a path.
pub fn copy_path(p: &Vec<String>) -> (out: Vec<String>)
    ensures
        strings_view(out@) == strings_view(p@),
{
    crate::todo_workspace::copy_strings(p)
}

/// A row of the sidebar file tree.
#[derive(Debug, Eq, PartialEq)]
pub enum FileTreeRow {
    Directory { relative_path: Vec<String>, name: String, depth: usize },
    Note { relative_path: Vec<String>, name: String, depth: usize },
    EmptyDirectory { relative_path: Vec<String>, depth: usize },
}

/// A row as `(kind, path, name, depth)`: kind 0 for a folder, 1 for a note and 2 for
/// the placeholder of an empty open folder (whose name is empty).
pub open spec fn row_view(r: FileTreeRow) -> (int, PathView, Seq<char>, int) {
    match r {
        FileTreeRow::Directory { relative_path, name, depth } => (0, strings_view(relative_path@), name@, depth as int),
        FileTreeRow::Note { relative_path, name, depth } => (1, strings_view(relative_path@), name@, depth as int),
        FileTreeRow::EmptyDirectory { relative_path, depth } => (2, strings_view(relative_path@), Seq::empty(), depth as int),
    }
}

/// The rows as `(kind, path, name, depth)`.
pub open spec fn rows_view(v: Seq<FileTreeRow>) -> Seq<(int, PathView, Seq<char>, int)> {
    Seq::new(v.len(), |i: int| row_view(v[i]))
}

/// One of the folders above `p` (the Vault root included) is collapsed.
pub open spec fn hidden(p: PathView, collapsed: Seq<PathView>) -> bool {
    exists|k: int| 0 <= k < p.len() && #[trigger] collapsed.contains(p.take(k))
}

/// How deep `p` sits below the Vault root.
pub open spec fn depth_of(p: PathView) -> int {
    if p.len() == 0 {
        0
    } else {
        p.len() - 1
    }
}

/// Some entry lies directly in the folder `p`.
pub open spec fn has_children(entries: Seq<(VaultEntryKind, PathView, Seq<char>)>, p: PathView) -> bool {
    exists|j: int| 0 <= j < entries.len() && (#[trigger] entries[j]).1.len() > 0 && entries[j].1.drop_last() == p
}

/// The rows of one entry: none under a collapsed folder; a folder row, followed by
/// a placeholder when the folder is open and holds nothing; a note row.
pub open spec fn rows_for(
    entries: Seq<(VaultEntryKind, PathView, Seq<char>)>,
    collapsed: Seq<PathView>,
    e: (VaultEntryKind, PathView, Seq<char>),
) -> Seq<(int, PathView, Seq<char>, int)> {
    let (kind, p, name) = e;
    let d = depth_of(p);
    if hidden(p, collapsed) {
        Seq::empty()
    } else {
        match kind {
            VaultEntryKind::Directory => if !collapsed.contains(p) && !has_children(entries, p) {
                seq![(0int, p, name, d), (2int, p, Seq::<char>::empty(), d + 1)]
            } else {
                seq![(0int, p, name, d)]
            },
            VaultEntryKind::Note => seq![(1int, p, name, d)],
        }
    }
}

/// The rows of the first `n` entries, in order.
pub open spec fn tree_rows(
    entries: Seq<(VaultEntryKind, PathView, Seq<char>)>,
    collapsed: Seq<PathView>,
    n: int,
) -> Seq<(int, PathView, Seq<char>, int)>
    decreases n,
{
    if n <= 0 {
        Seq::empty()
    } else {
        tree_rows(entries, collapsed, n - 1) + rows_for(entries, collapsed, entries[n - 1])
    }
}

/// Whether `paths` holds `p`.
fn holds_path(paths: &Vec<Vec<String>>, p: &Vec<String>) -> (r: bool)
    ensures
        r == paths_view(paths@).contains(strings_view(p@)),
{
    let mut i: usize = 0;
    while i < paths.len()
        invariant
            i <= paths.len(),
            forall|j: int| 0 <= j < i ==> paths_view(paths@)[j] != strings_view(p@),
        decreases paths.len() - i,
    {
        if same_path(&paths[i], p) {
            assert(paths_view(paths@)[i as int] == strings_view(p@));
            return true;
        }
        i += 1;
    }
    false
}

/// Whether `paths` holds the first `k` components of `p`.
fn holds_prefix(paths: &Vec<Vec<String>>, p: &Vec<String>, k: usize) -> (r: bool)
    requires
        k <= p.len(),
    ensures
        r == paths_view(paths@).contains(strings_view(p@).take(k as int)),
{
    let mut i: usize = 0;
    while i < paths.len()
        invariant
            i <= paths.len(),
            k <= p.len(),
            forall|j: int| 0 <= j < i ==> paths_view(paths@)[j] != strings_view(p@).take(k as int),
        decreases paths.len() - i,
    {
        let q = &paths[i];
        if q.len() == k && same_prefix(p, q, k) {
            assert(paths_view(paths@)[i as int] == strings_view(p@).take(k as int));
            return true;
        }
        proof {
            if paths_view(paths@)[i as int] == strings_view(p@).take(k as int) {
                assert(strings_view(q@).len() == q@.len());
            }
        }
        i += 1;
    }
    false
}

/// Whether a folder above `p` is collapsed.
fn is_hidden(p: &Vec<String>, collapsed: &Vec<Vec<String>>) -> (r: bool)
    ensures
        r == hidden(strings_view(p@), paths_view(collapsed@)),
{
    let mut k: usize = 0;
    while k < p.len()
        invariant
            k <= p.len(),
            forall|j: int| 0 <= j < k ==> !paths_view(collapsed@).contains(strings_view(p@).take(j)),
        decreases p.len() - k,
    {
        if holds_prefix(collapsed, p, k) {
            return true;
        }
        k += 1;
    }
    false
}

/// Whether some entry lies directly in the folder `p`.
fn any_child(entries: &[VaultEntry], p: &Vec<String>) -> (r: bool)
    ensures
        r == has_children(entries_view(entries@), strings_view(p@)),
{
    let ghost ev = entries_view(entries@);
    let mut j: usize = 0;
    while j < entries.len()
        invariant
            j <= entries.len(),
            ev == entries_view(entries@),
            forall|m: int| 0 <= m < j ==> !((#[trigger] ev[m]).1.len() > 0 && ev[m].1.drop_last() == strings_view(p@)),
        decreases entries.len() - j,
    {
        let q = &entries[j].relative_path;
        proof {
            assert(ev[j as int].1 == strings_view(q@));
            assert(strings_view(q@).len() == q@.len());
        }
        if q.len() > 0 && q.len() - 1 == p.len() && same_prefix(q, p, p.len()) {
            proof {
                assert(ev[j as int].1.drop_last() =~= strings_view(q@).take(p.len() as int));
            }
            return true;
        }
        proof {
            if ev[j as int].1.len() > 0 && ev[j as int].1.drop_last() == strings_view(p@) {
                assert(ev[j as int].1.drop_last() =~= strings_view(q@).take(q.len() - 1));
                assert(strings_view(p@).len() == p@.len());
            }
        }
        j += 1;
    }
    false
}

/// The rows of the sidebar file tree: each entry in order, folders followed by a
/// placeholder when open and empty, and nothing below a collapsed folder.
pub fn build_file_tree_rows(entries: &[VaultEntry], collapsed_directories: &Vec<Vec<String>>) -> (rows: Vec<
    FileTreeRow,
>)
    ensures
        rows_view(rows@) == tree_rows(
            entries_view(entries@),
            paths_view(collapsed_directories@),
            entries@.len() as int,
        ),
{
    let ghost ev = entries_view(entries@);
    let ghost cv = paths_view(collapsed_directories@);
    let mut rows: Vec<FileTreeRow> = Vec::new();
    let mut i: usize = 0;
    proof {
        assert(rows_view(rows@) =~= tree_rows(ev, cv, 0));
    }
    while i < entries.len()
        invariant
            i <= entries.len(),
            ev == entries_view(entries@),
            cv == paths_view(collapsed_directories@),
            rows_view(rows@) == tree_rows(ev, cv, i as int),
        decreases entries.len() - i,
    {
        let entry = &entries[i];
        let p = &entry.relative_path;
        let ghost before = rows@;
        proof {
            assert(ev[i as int] == entry_view(*entry));
            assert(strings_view(p@).len() == p@.len());
        }
        if !is_hidden(p, collapsed_directories) {
            let depth = if p.len() == 0 {
                0
            } else {
                p.len() - 1
            };
            match entry.kind {
                VaultEntryKind::Directory => {
                    rows.push(FileTreeRow::Directory { relative_path: copy_path(p), name: entry.name.clone(), depth });
                    let open = !holds_path(collapsed_directories, p);
                    if open && !any_child(entries, p) {
                        rows.push(FileTreeRow::EmptyDirectory { relative_path: copy_path(p), depth: depth + 1 });
                    }
                },
                VaultEntryKind::Note => {
                    rows.push(FileTreeRow::Note { relative_path: copy_path(p), name: entry.name.clone(), depth });
                },
            }
        }
        proof {
            let add = rows_for(ev, cv, ev[i as int]);
            assert(rows_view(rows@) =~= rows_view(before) + add);
        }
        i += 1;
    }
    rows
}

/// Keeps the collapsed folders that are still folders of the Vault.
pub open spec fn is_directory_of(entries: Seq<(VaultEntryKind, PathView, Seq<char>)>) -> spec_fn(PathView) -> bool {
    |p: PathView| exists|j: int| 0 <= j < entries.len() && (#[trigger] entries[j]).0 == VaultEntryKind::Directory && entries[j].1 == p
}

/// Whether `p` is the path of a folder entry.
fn is_directory_path(entries: &[VaultEntry], p: &Vec<String>) -> (r: bool)
    ensures
        r == is_directory_of(entries_view(entries@))(strings_view(p@)),
{
    let ghost ev = entries_view(entries@);
    let mut j: usize = 0;
    while j < entries.len()
        invariant
            j <= entries.len(),
            ev == entries_view(entries@),
            forall|m: int| 0 <= m < j ==> !((#[trigger] ev[m]).0 == VaultEntryKind::Directory && ev[m].1 == strings_view(p@)),
        decreases entries.len() - j,
    {
        proof {
            assert(ev[j as int] == entry_view(entries@[j as int]));
        }
        let is_dir = match entries[j].kind {
            VaultEntryKind::Directory => true,
            VaultEntryKind::Note => false,
        };
        if is_dir && same_path(&entries[j].relative_path, p) {
            return true;
        }
        j += 1;
    }
    false
}

/// Forgets the collapsed folders that are no longer folders of the Vault, keeping the
/// order of the others.
pub fn prune_collapsed_directories(collapsed_directories: &mut Vec<Vec<String>>, entries: &[VaultEntry])
    ensures
        paths_view(final(collapsed_directories)@) == paths_view(old(collapsed_directories)@).filter(
            is_directory_of(entries_view(entries@)),
        ),
        paths_view(old(collapsed_directories)@).no_duplicates() ==> paths_view(
            final(collapsed_directories)@,
        ).no_duplicates(),
{
    proof {
        if paths_view(collapsed_directories@).no_duplicates() {
            lemma_filter_no_duplicates(
                paths_view(collapsed_directories@),
                is_directory_of(entries_view(entries@)),
            );
        }
    }
    let ghost keep = is_directory_of(entries_view(entries@));
    let ghost before = paths_view(collapsed_directories@);
    let mut i: usize = 0;
    let ghost mut j: int = 0;
    proof {
        crate::todo_workspace::lemma_filter_none(before, keep);
        assert(paths_view(collapsed_directories@) =~= before.take(0).filter(keep) + before.skip(0));
    }
    while i < collapsed_directories.len()
        invariant
            keep == is_directory_of(entries_view(entries@)),
            0 <= j <= before.len(),
            paths_view(collapsed_directories@) == before.take(j).filter(keep) + before.skip(j),
            i == before.take(j).filter(keep).len(),
        decreases before.len() - j,
    {
        proof {
            assert(paths_view(collapsed_directories@).len() == collapsed_directories@.len());
            assert(paths_view(collapsed_directories@)[i as int] == before[j]);
            crate::todo_workspace::lemma_filter_step(before, keep, j);
        }
        let ghost cur = collapsed_directories@;
        if is_directory_path(entries, &collapsed_directories[i]) {
            i += 1;
            proof {
                assert(before.take(j).filter(keep) + before.skip(j) =~= before.take(j + 1).filter(keep) + before.skip(j + 1));
                j = j + 1;
            }
        } else {
            collapsed_directories.remove(i);
            proof {
                assert(paths_view(collapsed_directories@) =~= paths_view(cur).remove(i as int));
                assert((before.take(j).filter(keep) + before.skip(j)).remove(i as int) =~= before.take(j + 1).filter(keep) + before.skip(j + 1));
                j = j + 1;
            }
        }
    }
    proof {
        assert(paths_view(collapsed_directories@).len() == collapsed_directories@.len());
        assert(before.take(j) =~= before);
        assert(before.skip(j) =~= Seq::<PathView>::empty());
        assert(paths_view(collapsed_directories@) =~= before.filter(keep));
    }
}


/// Position of the last `c` in `s`, or -1 when there is none.
pub open spec fn last_index_of(s: Seq<char>, c: char) -> int
    decreases s.len(),
{
    if s.len() == 0 {
        -1
    } else if s.last() == c {
        s.len() - 1
    } else {
        last_index_of(s.drop_last(), c)
    }
}

/// `last_index_of` is a position of `c`, after which `c` does not occur.
pub proof fn lemma_last_index_of(s: Seq<char>, c: char)
    ensures
        -1 <= last_index_of(s, c) < s.len(),
        last_index_of(s, c) >= 0 ==> s[last_index_of(s, c)] == c,
        forall|j: int| last_index_of(s, c) < j < s.len() ==> s[j] != c,
    decreases s.len(),
{
    if s.len() > 0 && s.last() != c {
        lemma_last_index_of(s.drop_last(), c);
        assert forall|j: int| last_index_of(s, c) < j < s.len() implies s[j] != c by {
            if j < s.len() - 1 {
                assert(s[j] == s.drop_last()[j]);
            }
        }
    }
}

/// Position of the last `c` in `s`, or `None`.
fn find_last(s: &Vec<char>, c: char) -> (r: Option<usize>)
    ensures
        match r {
            Some(k) => k as int == last_index_of(s@, c),
            None => last_index_of(s@, c) == -1,
        },
{
    let mut i = s.len();
    proof {
        assert(s@.take(i as int) =~= s@);
    }
    while i > 0
        invariant
            i <= s.len(),
            last_index_of(s@, c) == last_index_of(s@.take(i as int), c),
        decreases i,
    {
        if s[i - 1] == c {
            return Some(i - 1);
        }
        proof {
            assert(s@.take(i as int).drop_last() =~= s@.take(i - 1));
        }
        i -= 1;
    }
    None
}

/// The stem of a file name as `Path::file_stem` gives it: the name before its last
/// `.`, or the whole name when the only `.` leads it or there is none.
pub open spec fn stem(name: Seq<char>) -> Seq<char> {
    let k = last_index_of(name, '.');
    if name == seq!['.', '.'] || k <= 0 {
        name
    } else {
        name.take(k)
    }
}

/// The name has an extension (`Path::extension`): a `.` after its first character.
pub open spec fn has_extension(name: Seq<char>) -> bool {
    name != seq!['.', '.'] && last_index_of(name, '.') > 0
}

/// The stem of a path's file name, if it has a file name.
pub open spec fn path_stem(p: PathView) -> Option<Seq<char>> {
    if p.len() == 0 || p.last() == seq!['.', '.'] {
        None
    } else {
        Some(stem(p.last()))
    }
}

/// The stem of a file name.
fn stem_of(name: &Vec<char>) -> (out: Vec<char>)
    ensures
        out@ == stem(name@),
{
    let dots = chars_of("..");
    proof {
        reveal_strlit("..");
        assert(dots@ =~= seq!['.', '.']);
    }
    if chars_equal(name, &dots) {
        return crate::text::slice_chars(name, 0, name.len());
    }
    proof {
        lemma_last_index_of(name@, '.');
        assert(name@.subrange(0, name.len() as int) =~= name@);
    }
    match find_last(name, '.') {
        Some(k) if k > 0 => {
            let out = crate::text::slice_chars(name, 0, k);
            assert(out@ =~= name@.take(k as int));
            out
        },
        _ => crate::text::slice_chars(name, 0, name.len()),
    }
}

/// The breadcrumb of a note: its folders, then its name without the extension.
pub open spec fn breadcrumb(p: PathView) -> Seq<Seq<char>> {
    match path_stem(p) {
        Some(s) => p.update(p.len() - 1, s),
        None => p,
    }
}

/// The breadcrumb of the note at `relative_path`.
pub fn note_breadcrumb_parts(relative_path: &Vec<String>) -> (parts: Vec<String>)
    ensures
        strings_view(parts@) == breadcrumb(strings_view(relative_path@)),
{
    let mut parts = copy_path(relative_path);
    let n = parts.len();
    proof {
        assert(strings_view(relative_path@).len() == relative_path@.len());
    }
    if n > 0 {
        let last = chars_of(relative_path[n - 1].as_str());
        let dots = chars_of("..");
        proof {
            reveal_strlit("..");
            assert(dots@ =~= seq!['.', '.']);
            assert(strings_view(relative_path@).last() == relative_path@[n - 1]@);
        }
        if !chars_equal(&last, &dots) {
            let s = stem_of(&last);
            let ghost before = parts@;
            parts.set(n - 1, crate::text::string_of(&s));
            proof {
                assert(strings_view(parts@) =~= strings_view(before).update(n - 1, s@));
            }
        }
    }
    parts
}

/// The parts joined by `sep`.
pub open spec fn join_with(parts: Seq<Seq<char>>, sep: Seq<char>) -> Seq<char>
    decreases parts.len(),
{
    if parts.len() == 0 {
        Seq::empty()
    } else if parts.len() == 1 {
        parts[0]
    } else {
        parts[0] + sep + join_with(parts.drop_first(), sep)
    }
}

/// Joining one more part adds the separator and the part.
proof fn lemma_join_with_push(parts: Seq<Seq<char>>, sep: Seq<char>, x: Seq<char>)
    requires
        parts.len() >= 1,
    ensures
        join_with(parts.push(x), sep) == join_with(parts, sep) + sep + x,
    decreases parts.len(),
{
    let p = parts.push(x);
    assert(p.drop_first() =~= parts.drop_first().push(x));
    if parts.len() == 1 {
        assert(p.drop_first() =~= seq![x]);
        assert(join_with(p.drop_first(), sep) == x);
        assert(join_with(p, sep) =~= join_with(parts, sep) + sep + x);
    } else {
        lemma_join_with_push(parts.drop_first(), sep, x);
        assert(join_with(p, sep) =~= join_with(parts, sep) + sep + x);
    }
}

/// The first `n` components of a path joined by `sep`.
fn join_path(p: &Vec<String>, n: usize, sep: &Vec<char>) -> (out: Vec<char>)
    requires
        n <= p.len(),
    ensures
        out@ == join_with(strings_view(p@).take(n as int), sep@),
{
    let ghost v = strings_view(p@);
    let mut out: Vec<char> = Vec::new();
    let mut i: usize = 0;
    proof {
        assert(v.take(0).len() == 0);
    }
    while i < n
        invariant
            i <= n <= p.len(),
            v == strings_view(p@),
            out@ == join_with(v.take(i as int), sep@),
        decreases n - i,
    {
        let ghost before = out@;
        if i > 0 {
            crate::text::push_all(&mut out, sep);
        }
        crate::text::push_str(&mut out, p[i].as_str());
        proof {
            assert(v[i as int] == p@[i as int]@);
            assert(v.take(i + 1) =~= v.take(i as int).push(v[i as int]));
            if i > 0 {
                lemma_join_with_push(v.take(i as int), sep@, v[i as int]);
                assert(out@ =~= before + sep@ + v[i as int]);
            } else {
                assert(v.take(1) =~= seq![v[0]]);
                assert(out@ =~= v[0]);
            }
        }
        i += 1;
    }
    out
}

/// A note offered by the note link picker.
#[derive(Debug, Eq, PartialEq)]
pub struct NoteLinkCandidate {
    pub relative_path: Vec<String>,
    pub title: String,
    pub folder: Option<String>,
}

/// A candidate as `(path, title, folder)`.
pub open spec fn candidate_view(c: NoteLinkCandidate) -> (PathView, Seq<char>, Option<Seq<char>>) {
    (
        strings_view(c.relative_path@),
        c.title@,
        match c.folder {
            Some(f) => Some(f@),
            None => None,
        },
    )
}

/// The candidates as `(path, title, folder)`.
pub open spec fn candidates_view(v: Seq<NoteLinkCandidate>) -> Seq<(PathView, Seq<char>, Option<Seq<char>>)> {
    Seq::new(v.len(), |i: int| candidate_view(v[i]))
}

/// The picker's candidate for a note: its path, its title (the stem of its file name,
/// else the entry's name) and the folders above it joined by ` / ` (none at the Vault
/// root).
pub open spec fn candidate_of(e: (VaultEntryKind, PathView, Seq<char>)) -> (PathView, Seq<char>, Option<Seq<char>>) {
    let p = e.1;
    (
        p,
        match path_stem(p) {
            Some(s) => s,
            None => e.2,
        },
        if p.len() <= 1 {
            None
        } else {
            Some(join_with(p.drop_last(), seq![' ', '/', ' ']))
        },
    )
}

/// The picker offers the entry: a note other than the current one whose path, joined
/// by `/` and lowercased, holds the query (any note for an empty query).
pub open spec fn offered(e: (VaultEntryKind, PathView, Seq<char>), current: Option<PathView>, query: Seq<char>) -> bool {
    &&& e.0 == VaultEntryKind::Note
    &&& current != Some(e.1)
    &&& (query.len() == 0 || crate::text::contains_seq(crate::text::lowercase(join_with(e.1, seq!['/'])), query))
}

/// The candidates among the first `n` entries: the offered ones in order, at most
/// eight.
pub open spec fn link_candidates(
    entries: Seq<(VaultEntryKind, PathView, Seq<char>)>,
    current: Option<PathView>,
    query: Seq<char>,
    n: int,
) -> Seq<(PathView, Seq<char>, Option<Seq<char>>)>
    decreases n,
{
    if n <= 0 {
        Seq::empty()
    } else {
        let prev = link_candidates(entries, current, query, n - 1);
        if prev.len() < 8 && offered(entries[n - 1], current, query) {
            prev.push(candidate_of(entries[n - 1]))
        } else {
            prev
        }
    }
}

/// The notes the note link picker offers for `query`, leaving out the current note.
pub fn note_link_candidates(entries: &[VaultEntry], current_path: Option<&Vec<String>>, query: &str) -> (out: Vec<
    NoteLinkCandidate,
>)
    ensures
        candidates_view(out@) == link_candidates(
            entries_view(entries@),
            match current_path {
                Some(p) => Some(strings_view(p@)),
                None => None,
            },
            crate::text::lowercase(crate::text::trim(query@)),
            entries@.len() as int,
        ),
{
    let ghost ev = entries_view(entries@);
    let ghost cur = match current_path {
        Some(p) => Some(strings_view(p@)),
        None => None,
    };
    let trimmed = crate::text::string_of(&crate::text::trim_chars(query));
    let q = chars_of(crate::text::to_lowercase(trimmed.as_str()).as_str());
    let slash = chars_of("/");
    let folder_sep = chars_of(" / ");
    proof {
        reveal_strlit("/");
        reveal_strlit(" / ");
        assert(slash@ =~= seq!['/']);
        assert(folder_sep@ =~= seq![' ', '/', ' ']);
    }
    let mut out: Vec<NoteLinkCandidate> = Vec::new();
    let mut i: usize = 0;
    proof {
        assert(candidates_view(out@) =~= link_candidates(ev, cur, q@, 0));
    }
    while i < entries.len()
        invariant
            i <= entries.len(),
            ev == entries_view(entries@),
            cur == match current_path {
                Some(p) => Some(strings_view(p@)),
                None => None,
            },
            q@ == crate::text::lowercase(crate::text::trim(query@)),
            slash@ == seq!['/'],
            folder_sep@ == seq![' ', '/', ' '],
            candidates_view(out@) == link_candidates(ev, cur, q@, i as int),
        decreases entries.len() - i,
    {
        let entry = &entries[i];
        let p = &entry.relative_path;
        let ghost e = ev[i as int];
        let ghost before = out@;
        proof {
            assert(e == entry_view(*entry));
            assert(strings_view(p@).len() == p@.len());
        }
        let is_note = match entry.kind {
            VaultEntryKind::Note => true,
            VaultEntryKind::Directory => false,
        };
        let is_current = match current_path {
            Some(c) => same_path(c, p),
            None => false,
        };
        if out.len() < 8 && is_note && !is_current {
            let matched = if q.len() == 0 {
                true
            } else {
                let joined = crate::text::string_of(&join_path(p, p.len(), &slash));
                let lowered = chars_of(crate::text::to_lowercase(joined.as_str()).as_str());
                proof {
                    assert(strings_view(p@).take(p.len() as int) =~= strings_view(p@));
                }
                crate::text::contains_exec(&lowered, &q)
            };
            if matched {
                let n = p.len();
                let title = if n > 0 {
                    let last = chars_of(p[n - 1].as_str());
                    let dots = chars_of("..");
                    proof {
                        reveal_strlit("..");
                        assert(dots@ =~= seq!['.', '.']);
                        assert(strings_view(p@).last() == p@[n - 1]@);
                    }
                    if chars_equal(&last, &dots) {
                        entry.name.clone()
                    } else {
                        crate::text::string_of(&stem_of(&last))
                    }
                } else {
                    entry.name.clone()
                };
                let folder = if n <= 1 {
                    None
                } else {
                    proof {
                        assert(strings_view(p@).take(n - 1) =~= strings_view(p@).drop_last());
                    }
                    Some(crate::text::string_of(&join_path(p, n - 1, &folder_sep)))
                };
                out.push(NoteLinkCandidate { relative_path: copy_path(p), title, folder });
                proof {
                    assert(candidates_view(out@) =~= candidates_view(before).push(candidate_of(e)));
                }
            }
        }
        i += 1;
    }
    out
}


/// The value of an ASCII hexadecimal digit.
pub open spec fn hex_digit(b: u8) -> Option<u8> {
    if 0x30 <= b <= 0x39 {
        Some((b - 0x30) as u8)
    } else if 0x61 <= b <= 0x66 {
        Some((b - 0x61 + 10) as u8)
    } else if 0x41 <= b <= 0x46 {
        Some((b - 0x41 + 10) as u8)
    } else {
        None
    }
}

/// The value of an ASCII hexadecimal digit.
pub fn hex_value(byte: u8) -> (r: Option<u8>)
    ensures
        r == hex_digit(byte),
{
    if 0x30 <= byte && byte <= 0x39 {
        Some(byte - 0x30)
    } else if 0x61 <= byte && byte <= 0x66 {
        Some(byte - 0x61 + 10)
    } else if 0x41 <= byte && byte <= 0x46 {
        Some(byte - 0x41 + 10)
    } else {
        None
    }
}

/// `o` with `p` put in front of its bytes.
pub open spec fn prefixed(p: Seq<u8>, o: Option<Seq<u8>>) -> Option<Seq<u8>> {
    match o {
        Some(r) => Some(p + r),
        None => None,
    }
}

/// Bytes with each `%` and two hexadecimal digits turned into the byte they spell;
/// `None` for a `%` without two hexadecimal digits after it.
pub open spec fn percent_decoded(b: Seq<u8>) -> Option<Seq<u8>>
    decreases b.len(),
{
    if b.len() == 0 {
        Some(Seq::empty())
    } else if b[0] == 0x25 {
        if b.len() >= 3 && hex_digit(b[1]) is Some && hex_digit(b[2]) is Some {
            prefixed(
                seq![(hex_digit(b[1]).unwrap() * 16 + hex_digit(b[2]).unwrap()) as u8],
                percent_decoded(b.skip(3)),
            )
        } else {
            None
        }
    } else {
        prefixed(seq![b[0]], percent_decoded(b.skip(1)))
    }
}

/// Reads bytes as UTF-8 text.
///
/// Trusted: calls `String::from_utf8`, which std documents as succeeding exactly on
/// valid UTF-8, giving the characters those bytes encode.
#[verifier::external_body]
fn string_from_utf8(bytes: Vec<u8>) -> (r: Option<String>)
    ensures
        match r {
            Some(s) => valid_utf8(bytes@) && s@ == decode_utf8(bytes@),
            None => !valid_utf8(bytes@),
        },
{
    match String::from_utf8(bytes) {
        Ok(s) => Some(s),
        Err(_) => None,
    }
}

/// The message for a malformed percent escape.
pub open spec fn invalid_escape_message() -> Seq<char> {
    "Invalid percent-encoded image path"@
}

/// The message for decoded bytes that are not UTF-8.
pub open spec fn invalid_utf8_message() -> Seq<char> {
    "Image path is not valid UTF-8"@
}

/// A percent-encoded path decoded: the UTF-8 bytes of `source` with their escapes
/// decoded, read back as UTF-8.
pub fn percent_decode_path(source: &str) -> (r: Result<String, String>)
    ensures
        match percent_decoded(encode_utf8(source@)) {
            None => r matches Err(e) && e@ == invalid_escape_message(),
            Some(b) => if valid_utf8(b) {
                r matches Ok(s) && s@ == decode_utf8(b)
            } else {
                r matches Err(e) && e@ == invalid_utf8_message()
            },
        },
{
    let bytes = source.as_bytes();
    let ghost b = bytes@;
    let mut decoded: Vec<u8> = Vec::new();
    let mut cursor: usize = 0;
    proof {
        assert(b.skip(0) =~= b);
        assert(decoded@ + Seq::<u8>::empty() =~= decoded@);
    }
    while cursor < bytes.len()
        invariant
            cursor <= bytes.len(),
            b == bytes@,
            b == encode_utf8(source@),
            percent_decoded(b) == prefixed(decoded@, percent_decoded(b.skip(cursor as int))),
        decreases bytes.len() - cursor,
    {
        let ghost rest = b.skip(cursor as int);
        let ghost before = decoded@;
        if bytes[cursor] == 0x25 {
            if bytes.len() - cursor <= 2 {
                let e = crate::text::string_of(&chars_of("Invalid percent-encoded image path"));
                proof {
                    reveal_strlit("Invalid percent-encoded image path");
                }
                return Err(e);
            }
            let high = match hex_value(bytes[cursor + 1]) {
                Some(h) => h,
                None => {
                    let e = crate::text::string_of(&chars_of("Invalid percent-encoded image path"));
                    proof {
                        reveal_strlit("Invalid percent-encoded image path");
                    }
                    return Err(e);
                },
            };
            let low = match hex_value(bytes[cursor + 2]) {
                Some(l) => l,
                None => {
                    let e = crate::text::string_of(&chars_of("Invalid percent-encoded image path"));
                    proof {
                        reveal_strlit("Invalid percent-encoded image path");
                    }
                    return Err(e);
                },
            };
            decoded.push(high * 16 + low);
            proof {
                assert(rest.skip(3) =~= b.skip(cursor + 3));
                assert forall|r: Seq<u8>| before + (seq![(high * 16 + low) as u8] + r) =~= decoded@ + r by {}
            }
            cursor += 3;
        } else {
            decoded.push(bytes[cursor]);
            proof {
                assert(rest.skip(1) =~= b.skip(cursor + 1));
                assert forall|r: Seq<u8>| before + (seq![bytes@[cursor as int]] + r) =~= decoded@ + r by {}
            }
            cursor += 1;
        }
    }
    proof {
        assert(b.skip(cursor as int) =~= Seq::<u8>::empty());
        assert(decoded@ + Seq::<u8>::empty() =~= decoded@);
    }
    match string_from_utf8(decoded) {
        Some(s) => Ok(s),
        None => {
            let e = crate::text::string_of(&chars_of("Image path is not valid UTF-8"));
            proof {
                reveal_strlit("Image path is not valid UTF-8");
            }
            Err(e)
        },
    }
}


/// Position of the first character of `s` that is one of `stops`, or `s.len()`.
pub open spec fn first_of(s: Seq<char>, stops: Seq<char>) -> nat
    decreases s.len(),
{
    if s.len() == 0 || stops.contains(s[0]) {
        0
    } else {
        1 + first_of(s.drop_first(), stops)
    }
}

/// `first_of` is a position of one of `stops`, or the length, with none before it.
proof fn lemma_first_of(s: Seq<char>, stops: Seq<char>)
    ensures
        first_of(s, stops) <= s.len(),
        first_of(s, stops) < s.len() ==> stops.contains(s[first_of(s, stops) as int]),
        forall|j: int| 0 <= j < first_of(s, stops) ==> !stops.contains(#[trigger] s[j]),
    decreases s.len(),
{
    if s.len() > 0 && !stops.contains(s[0]) {
        lemma_first_of(s.drop_first(), stops);
        assert forall|j: int| 0 <= j < first_of(s, stops) implies !stops.contains(#[trigger] s[j]) by {
            if j > 0 {
                assert(s[j] == s.drop_first()[j - 1]);
            }
        }
    }
}

/// Position of the first character of `s` that is one of `stops`, or `s.len()`.
fn find_first_of(s: &Vec<char>, stops: &Vec<char>) -> (n: usize)
    ensures
        n == first_of(s@, stops@),
{
    proof {
        lemma_first_of(s@, stops@);
    }
    let mut i: usize = 0;
    while i < s.len()
        invariant
            i <= s.len(),
            first_of(s@, stops@) <= s.len(),
            forall|j: int| 0 <= j < first_of(s@, stops@) ==> !stops@.contains(#[trigger] s@[j]),
            first_of(s@, stops@) < s.len() ==> stops@.contains(s@[first_of(s@, stops@) as int]),
            i <= first_of(s@, stops@),
        decreases s.len() - i,
    {
        if crate::text::contains_char(stops, 0, stops.len(), s[i]) {
            proof {
                assert(stops@.subrange(0, stops.len() as int) =~= stops@);
                if i < first_of(s@, stops@) {
                    assert(!stops@.contains(s@[i as int]));
                }
            }
            return i;
        }
        proof {
            assert(stops@.subrange(0, stops.len() as int) =~= stops@);
            if i == first_of(s@, stops@) {
                assert(stops@.contains(s@[i as int]));
            }
        }
        i += 1;
    }
    i
}

/// The path components of `t` split at `/` as `Path::components` reads a relative
/// path: empty and `.` parts dropped; `None` when a part is `..`.
pub open spec fn parts_of(t: Seq<char>) -> Option<Seq<Seq<char>>>
    decreases t.len(),
{
    let n = index_of_char(t, '/');
    let piece = t.take(n as int);
    if piece == seq!['.', '.'] {
        None
    } else {
        let rest = if n < t.len() {
            proof {
                crate::text::lemma_index_of_char_le(t, '/');
            }
            parts_of(t.skip(n + 1int))
        } else {
            Some(Seq::empty())
        };
        match rest {
            None => None,
            Some(r) => Some(
                if piece.len() == 0 || piece == seq!['.'] {
                    r
                } else {
                    seq![piece] + r
                },
            ),
        }
    }
}

/// `o` with the parts `p` put in front.
pub open spec fn parts_prefixed(p: Seq<Seq<char>>, o: Option<Seq<Seq<char>>>) -> Option<Seq<Seq<char>>> {
    match o {
        Some(r) => Some(p + r),
        None => None,
    }
}

/// The relative note path that an internal link points to, as the editor reads it:
/// not empty, not an anchor, not absolute, without a scheme or drive; the part before
/// any `?` or `#`, percent-decoded, split into components without `..`; `.md` added
/// when the file name has no extension.
pub open spec fn note_destination(destination: Seq<char>) -> Option<PathView> {
    let d = crate::text::trim(destination);
    if d.len() == 0 || d[0] == '#' || d[0] == '/' || d[0] == '\\' || crate::text::contains_seq(
        d,
        seq![':', '/', '/'],
    ) || d.take(first_of(d, seq!['/', '\\', '?', '#']) as int).contains(':') {
        None
    } else {
        let path = crate::text::trim(d.take(first_of(d, seq!['?', '#']) as int));
        match percent_decoded(encode_utf8(path)) {
            None => None,
            Some(b) => if !valid_utf8(b) {
                None
            } else {
                let t = decode_utf8(b);
                if t.len() > 0 && t[0] == '/' {
                    None
                } else {
                    match parts_of(t) {
                        None => None,
                        Some(parts) => if parts.len() == 0 {
                            None
                        } else if has_extension(parts.last()) {
                            Some(parts)
                        } else {
                            Some(parts.update(parts.len() - 1, parts.last() + seq!['.', 'm', 'd']))
                        },
                    }
                }
            },
        }
    }
}

/// The path components of `t`, or `None` when one is `..`.
fn split_parts(t: &Vec<char>) -> (r: Option<Vec<String>>)
    ensures
        match parts_of(t@) {
            None => r is None,
            Some(p) => r matches Some(v) && strings_view(v@) == p,
        },
{
    let mut out: Vec<String> = Vec::new();
    let mut pos: usize = 0;
    let dots = chars_of("..");
    let dot = chars_of(".");
    proof {
        reveal_strlit("..");
        reveal_strlit(".");
        assert(dots@ =~= seq!['.', '.']);
        assert(dot@ =~= seq!['.']);
        assert(t@.skip(0) =~= t@);
        assert(parts_prefixed(strings_view(out@), parts_of(t@)) =~= parts_of(t@)) by {
            assert(strings_view(out@) =~= Seq::<Seq<char>>::empty());
            if let Some(r) = parts_of(t@) {
                assert(Seq::<Seq<char>>::empty() + r =~= r);
            }
        }
    }
    loop
        invariant
            pos <= t.len(),
            dots@ == seq!['.', '.'],
            dot@ == seq!['.'],
            parts_of(t@) == parts_prefixed(strings_view(out@), parts_of(t@.skip(pos as int))),
        decreases t.len() - pos,
    {
        let len = t.len();
        let n = crate::text::find_char(t, pos, len, '/');
        let ghost rest = t@.skip(pos as int);
        proof {
            assert(t@.subrange(pos as int, len as int) =~= rest);
        }
        let piece = crate::text::slice_chars(t, pos, pos + n);
        proof {
            assert(piece@ =~= rest.take(n as int));
        }
        if chars_equal(&piece, &dots) {
            return None;
        }
        let ghost before = out@;
        if piece.len() > 0 && !chars_equal(&piece, &dot) {
            out.push(crate::text::string_of(&piece));
        }
        if pos + n < len {
            proof {
                assert(rest.skip(n + 1int) =~= t@.skip(pos + n + 1));
                if let Some(r) = parts_of(t@.skip(pos + n + 1)) {
                    if piece.len() > 0 && piece@ != seq!['.'] {
                        assert(strings_view(out@) =~= strings_view(before).push(piece@));
                        assert(strings_view(before) + (seq![piece@] + r) =~= strings_view(out@) + r);
                    } else {
                        assert(strings_view(out@) == strings_view(before));
                    }
                }
            }
            pos = pos + n + 1;
        } else {
            proof {
                if piece.len() > 0 && piece@ != seq!['.'] {
                    assert(strings_view(out@) =~= strings_view(before).push(piece@));
                    assert(strings_view(before) + (seq![piece@] + Seq::<Seq<char>>::empty()) =~= strings_view(out@));
                } else {
                    assert(strings_view(out@) == strings_view(before));
                    assert(strings_view(before) + Seq::<Seq<char>>::empty() =~= strings_view(out@));
                }
            }
            return Some(out);
        }
    }
}

/// The relative note path that an internal link points to, if it is one.
pub fn internal_note_destination(destination: &str) -> (r: Option<Vec<String>>)
    ensures
        match note_destination(destination@) {
            None => r is None,
            Some(p) => r matches Some(v) && strings_view(v@) == p,
        },
{
    let d = crate::text::trim_chars(destination);
    let scheme = chars_of("://");
    let seps = chars_of("/\\?#");
    let query = chars_of("?#");
    proof {
        reveal_strlit("://");
        reveal_strlit("/\\?#");
        reveal_strlit("?#");
        assert(scheme@ =~= seq![':', '/', '/']);
        assert(seps@ =~= seq!['/', '\\', '?', '#']);
        assert(query@ =~= seq!['?', '#']);
    }
    if d.len() == 0 || d[0] == '#' || d[0] == '/' || d[0] == '\\' || crate::text::contains_exec(&d, &scheme) {
        return None;
    }
    let first = find_first_of(&d, &seps);
    proof {
        lemma_first_of(d@, seps@);
    }
    if crate::text::contains_char(&d, 0, first, ':') {
        proof {
            assert(d@.subrange(0, first as int) =~= d@.take(first as int));
        }
        return None;
    }
    proof {
        assert(d@.subrange(0, first as int) =~= d@.take(first as int));
    }
    let end = find_first_of(&d, &query);
    proof {
        lemma_first_of(d@, query@);
    }
    let before = crate::text::string_of(&crate::text::slice_chars(&d, 0, end));
    proof {
        assert(before@ =~= d@.take(end as int));
    }
    let path = crate::text::string_of(&crate::text::trim_chars(before.as_str()));
    let decoded = match percent_decode_path(path.as_str()) {
        Ok(s) => chars_of(s.as_str()),
        Err(_) => return None,
    };
    if decoded.len() > 0 && decoded[0] == '/' {
        return None;
    }
    let mut parts = match split_parts(&decoded) {
        Some(p) => p,
        None => return None,
    };
    let n = parts.len();
    proof {
        assert(strings_view(parts@).len() == n);
    }
    if n == 0 {
        return None;
    }
    let last = chars_of(parts[n - 1].as_str());
    proof {
        assert(strings_view(parts@).last() == last@);
    }
    let dots = chars_of("..");
    proof {
        reveal_strlit("..");
        assert(dots@ =~= seq!['.', '.']);
        lemma_last_index_of(last@, '.');
    }
    let has_ext = !chars_equal(&last, &dots) && match find_last(&last, '.') {
        Some(k) => k > 0,
        None => false,
    };
    if !has_ext {
        let mut named = last;
        named.push('.');
        named.push('m');
        named.push('d');
        let ghost old_parts = parts@;
        parts.set(n - 1, crate::text::string_of(&named));
        proof {
            assert(named@ =~= last@ + seq!['.', 'm', 'd']);
            assert(strings_view(parts@) =~= strings_view(old_parts).update(n - 1, last@ + seq!['.', 'm', 'd']));
        }
    }
    Some(parts)
}

/// The note of the Vault that an internal link points to, if it exists.
pub open spec fn linked_note(destination: Seq<char>, entries: Seq<(VaultEntryKind, PathView, Seq<char>)>) -> Option<PathView> {
    match note_destination(destination) {
        None => None,
        Some(p) => if exists|j: int| 0 <= j < entries.len() && (#[trigger] entries[j]).0 == VaultEntryKind::Note && entries[j].1 == p {
            Some(p)
        } else {
            None
        },
    }
}

/// The note of the Vault that the link `destination` points to, if it exists.
pub fn linked_vault_note(destination: &str, entries: &[VaultEntry]) -> (r: Option<Vec<String>>)
    ensures
        match linked_note(destination@, entries_view(entries@)) {
            None => r is None,
            Some(p) => r matches Some(v) && strings_view(v@) == p,
        },
{
    let relative = match internal_note_destination(destination) {
        Some(p) => p,
        None => return None,
    };
    let ghost ev = entries_view(entries@);
    let mut j: usize = 0;
    while j < entries.len()
        invariant
            j <= entries.len(),
            ev == entries_view(entries@),
            note_destination(destination@) == Some(strings_view(relative@)),
            forall|m: int| 0 <= m < j ==> !((#[trigger] ev[m]).0 == VaultEntryKind::Note && ev[m].1 == strings_view(relative@)),
        decreases entries.len() - j,
    {
        proof {
            assert(ev[j as int] == entry_view(entries@[j as int]));
        }
        let is_note = match entries[j].kind {
            VaultEntryKind::Note => true,
            VaultEntryKind::Directory => false,
        };
        if is_note && same_path(&entries[j].relative_path, &relative) {
            assert(ev[j as int].0 == VaultEntryKind::Note && ev[j as int].1 == strings_view(relative@));
            return Some(relative);
        }
        j += 1;
    }
    None
}


/// Where a Markdown image points, before the file system is asked.
#[derive(Debug, Eq, PartialEq)]
pub enum ImageTarget {
    /// An `http` or `https` URL, trimmed.
    Remote(String),
    /// A path relative to the Vault root, by its components.
    Local(Vec<String>),
    /// Why the image cannot be shown.
    Error(String),
}

/// The view of a target: `(0, url)` remote, `(1, path)` local, `(2, message)` error.
pub open spec fn target_view(t: ImageTarget) -> (int, Seq<Seq<char>>) {
    match t {
        ImageTarget::Remote(u) => (0, seq![u@]),
        ImageTarget::Local(p) => (1, strings_view(p@)),
        ImageTarget::Error(e) => (2, seq![e@]),
    }
}

/// The components of `base` followed by the path `t`: empty and `.` parts stay put,
/// `..` goes up a folder; `None` when it goes above the Vault root.
pub open spec fn resolve_parts(base: PathView, t: Seq<char>) -> Option<PathView>
    decreases t.len(),
{
    let n = index_of_char(t, '/');
    let piece = t.take(n as int);
    let next = if piece.len() == 0 || piece == seq!['.'] {
        Some(base)
    } else if piece == seq!['.', '.'] {
        if base.len() == 0 {
            None
        } else {
            Some(base.drop_last())
        }
    } else {
        Some(base.push(piece))
    };
    match next {
        None => None,
        Some(b) => if n < t.len() {
            proof {
                crate::text::lemma_index_of_char_le(t, '/');
            }
            resolve_parts(b, t.skip(n + 1int))
        } else {
            Some(b)
        },
    }
}

/// `s` without its leading `/`s.
pub open spec fn without_leading_slashes(s: Seq<char>) -> Seq<char> {
    s.skip(crate::text::lead_count(s, '/') as int)
}

/// Where the image `url` of the note at `note` points: remote `http(s)` URLs; no
/// other scheme, no `data:` or `file:`; else the part before any `?` or `#`,
/// percent-decoded, taken from the note's folder (from the Vault root when it starts
/// with `/`), not above the Vault root and not empty.
pub open spec fn image_target(note: PathView, url: Seq<char>) -> (int, Seq<Seq<char>>) {
    let u = crate::text::trim(url);
    if starts_with(u, "https://"@) || starts_with(u, "http://"@) {
        (0, seq![u])
    } else if crate::text::contains_seq(u, "://"@) || starts_with(u, "data:"@) || starts_with(u, "file:"@) {
        (2, seq!["Unsupported image URL scheme"@])
    } else {
        let local = u.take(first_of(u, seq!['?', '#']) as int);
        match percent_decoded(encode_utf8(local)) {
            None => (2, seq![invalid_escape_message()]),
            Some(b) => if !valid_utf8(b) {
                (2, seq![invalid_utf8_message()])
            } else {
                let t = decode_utf8(b);
                let base = if t.len() > 0 && t[0] == '/' || note.len() == 0 {
                    Seq::empty()
                } else {
                    note.drop_last()
                };
                match resolve_parts(base, without_leading_slashes(t)) {
                    None => (2, seq!["Image path escapes the current Vault"@]),
                    Some(p) => if p.len() == 0 {
                        (2, seq!["Image path is empty"@])
                    } else {
                        (1, p)
                    },
                }
            },
        }
    }
}

/// An error target with the message `m`.
fn image_error(m: &str) -> (t: ImageTarget)
    ensures
        target_view(t) == (2int, seq![m@]),
{
    ImageTarget::Error(crate::text::string_of(&chars_of(m)))
}

/// The components of `base` followed by the path `t`, or `None` above the root.
fn resolve_into(base: Vec<String>, t: &Vec<char>, from: usize) -> (r: Option<Vec<String>>)
    requires
        from <= t.len(),
    ensures
        match resolve_parts(strings_view(base@), t@.skip(from as int)) {
            None => r is None,
            Some(p) => r matches Some(v) && strings_view(v@) == p,
        },
{
    let mut out = base;
    let mut pos = from;
    let dots = chars_of("..");
    let dot = chars_of(".");
    proof {
        reveal_strlit("..");
        reveal_strlit(".");
        assert(dots@ =~= seq!['.', '.']);
        assert(dot@ =~= seq!['.']);
    }
    let ghost target = resolve_parts(strings_view(base@), t@.skip(from as int));
    loop
        invariant
            from <= pos <= t.len(),
            dots@ == seq!['.', '.'],
            dot@ == seq!['.'],
            target == resolve_parts(strings_view(base@), t@.skip(from as int)),
            target == resolve_parts(strings_view(out@), t@.skip(pos as int)),
        decreases t.len() - pos,
    {
        let len = t.len();
        let n = crate::text::find_char(t, pos, len, '/');
        let ghost rest = t@.skip(pos as int);
        proof {
            assert(t@.subrange(pos as int, len as int) =~= rest);
        }
        let piece = crate::text::slice_chars(t, pos, pos + n);
        proof {
            assert(piece@ =~= rest.take(n as int));
        }
        let ghost before = strings_view(out@);
        if piece.len() == 0 || chars_equal(&piece, &dot) {
        } else if chars_equal(&piece, &dots) {
            if out.len() == 0 {
                return None;
            }
            out.pop();
            proof {
                assert(strings_view(out@) =~= before.drop_last());
            }
        } else {
            out.push(crate::text::string_of(&piece));
            proof {
                assert(strings_view(out@) =~= before.push(piece@));
            }
        }
        if pos + n < len {
            proof {
                assert(rest.skip(n + 1int) =~= t@.skip(pos + n + 1));
            }
            pos = pos + n + 1;
        } else {
            return Some(out);
        }
    }
}

/// Where the image `url` of the note at `note_relative_path` points, before the file
/// system is asked whether the file exists inside the Vault.
pub fn markdown_image_target(note_relative_path: &Vec<String>, url: &str) -> (t: ImageTarget)
    ensures
        target_view(t) == image_target(strings_view(note_relative_path@), url@),
{
    let u = crate::text::trim_chars(url);
    let https = chars_of("https://");
    let http = chars_of("http://");
    let scheme = chars_of("://");
    let data = chars_of("data:");
    let file = chars_of("file:");
    let query = chars_of("?#");
    proof {
        reveal_strlit("?#");
        assert(query@ =~= seq!['?', '#']);
    }
    if crate::text::starts_with_exec(&u, &https) || crate::text::starts_with_exec(&u, &http) {
        let r = ImageTarget::Remote(crate::text::string_of(&u));
        return r;
    }
    if crate::text::contains_exec(&u, &scheme) || crate::text::starts_with_exec(&u, &data)
        || crate::text::starts_with_exec(&u, &file) {
        return image_error("Unsupported image URL scheme");
    }
    let end = find_first_of(&u, &query);
    proof {
        lemma_first_of(u@, query@);
    }
    let local = crate::text::string_of(&crate::text::slice_chars(&u, 0, end));
    proof {
        assert(local@ =~= u@.take(end as int));
    }
    let decoded = match percent_decode_path(local.as_str()) {
        Ok(s) => chars_of(s.as_str()),
        Err(e) => {
            let t = ImageTarget::Error(e);
            return t;
        },
    };
    let n = note_relative_path.len();
    proof {
        assert(strings_view(note_relative_path@).len() == n);
    }
    let base = if decoded.len() > 0 && decoded[0] == '/' || n == 0 {
        let b: Vec<String> = Vec::new();
        proof {
            assert(strings_view(b@) =~= Seq::<Seq<char>>::empty());
        }
        b
    } else {
        let mut b = copy_path(note_relative_path);
        let ghost full = strings_view(b@);
        b.pop();
        proof {
            assert(strings_view(b@) =~= full.drop_last());
        }
        b
    };
    let slashes = crate::text::count_run(&decoded, 0, decoded.len(), '/');
    proof {
        assert(decoded@.subrange(0, decoded.len() as int) =~= decoded@);
        crate::text::lemma_lead_count_bounds(decoded@, '/');
    }
    match resolve_into(base, &decoded, slashes) {
        None => image_error("Image path escapes the current Vault"),
        Some(p) => {
            if p.len() == 0 {
                proof {
                    assert(strings_view(p@).len() == 0);
                }
                image_error("Image path is empty")
            } else {
                proof {
                    assert(strings_view(p@).len() == p.len());
                }
                ImageTarget::Local(p)
            }
        },
    }
}


/// No row of the file tree lies below a collapsed folder, and no collapsed folder
/// shows the empty placeholder.
pub proof fn lemma_collapsed_folders_hide_rows(
    entries: Seq<(VaultEntryKind, PathView, Seq<char>)>,
    collapsed: Seq<PathView>,
    n: int,
)
    requires
        n <= entries.len(),
    ensures
        forall|i: int| 0 <= i < tree_rows(entries, collapsed, n).len() ==> {
            let r = #[trigger] tree_rows(entries, collapsed, n)[i];
            &&& !hidden(r.1, collapsed)
            &&& r.0 == 2 ==> !collapsed.contains(r.1)
        },
    decreases n,
{
    if n > 0 {
        lemma_collapsed_folders_hide_rows(entries, collapsed, n - 1);
        let prev = tree_rows(entries, collapsed, n - 1);
        let add = rows_for(entries, collapsed, entries[n - 1]);
        assert forall|i: int| 0 <= i < tree_rows(entries, collapsed, n).len() implies {
            let r = #[trigger] tree_rows(entries, collapsed, n)[i];
            &&& !hidden(r.1, collapsed)
            &&& r.0 == 2 ==> !collapsed.contains(r.1)
        } by {
            if i < prev.len() {
                assert(tree_rows(entries, collapsed, n)[i] == prev[i]);
            } else {
                assert(tree_rows(entries, collapsed, n)[i] == add[i - prev.len()]);
            }
        }
    }
}


/// No row of the file tree lies under a collapsed folder, at any depth: no leading part
/// of a row's path (the empty one included), short of the whole path, is collapsed.
pub proof fn lemma_no_row_below_collapsed(
    entries: Seq<(VaultEntryKind, PathView, Seq<char>)>,
    collapsed: Seq<PathView>,
    n: int,
)
    requires
        n <= entries.len(),
    ensures
        forall|i: int, k: int|
            0 <= i < tree_rows(entries, collapsed, n).len() && 0 <= k < tree_rows(entries, collapsed, n)[i].1.len()
                ==> !collapsed.contains(#[trigger] tree_rows(entries, collapsed, n)[i].1.take(k)),
{
    lemma_collapsed_folders_hide_rows(entries, collapsed, n);
    assert forall|i: int, k: int|
        0 <= i < tree_rows(entries, collapsed, n).len() && 0 <= k < tree_rows(entries, collapsed, n)[i].1.len()
            implies !collapsed.contains(#[trigger] tree_rows(entries, collapsed, n)[i].1.take(k)) by {
        let r = tree_rows(entries, collapsed, n)[i];
        assert(!hidden(r.1, collapsed));
    }
}

/// The note link picker offers at most eight notes, never the current note, and
/// only notes.
pub proof fn lemma_link_candidates_exclude_current(
    entries: Seq<(VaultEntryKind, PathView, Seq<char>)>,
    current: Option<PathView>,
    query: Seq<char>,
    n: int,
)
    requires
        n <= entries.len(),
    ensures
        link_candidates(entries, current, query, n).len() <= 8,
        forall|i: int| 0 <= i < link_candidates(entries, current, query, n).len() ==> current != Some(
            (#[trigger] link_candidates(entries, current, query, n)[i]).0,
        ) && exists|j: int| 0 <= j < n && entries[j].0 == VaultEntryKind::Note && entries[j].1 == link_candidates(
            entries,
            current,
            query,
            n,
        )[i].0,
    decreases n,
{
    if n > 0 {
        lemma_link_candidates_exclude_current(entries, current, query, n - 1);
        let prev = link_candidates(entries, current, query, n - 1);
        let now = link_candidates(entries, current, query, n);
        assert forall|i: int| 0 <= i < now.len() implies current != Some((#[trigger] now[i]).0) && exists|j: int|
            0 <= j < n && entries[j].0 == VaultEntryKind::Note && entries[j].1 == now[i].0 by {
            if i < prev.len() {
                assert(now[i] == prev[i]);
                let j = choose|j: int| 0 <= j < n - 1 && entries[j].0 == VaultEntryKind::Note && entries[j].1 == prev[i].0;
                assert(0 <= j < n);
            } else {
                assert(now[i] == candidate_of(entries[n - 1]));
                assert(entries[n - 1].1 == now[i].0);
            }
        }
    }
}

/// Keeping some elements of a sequence without repetitions leaves none.
pub proof fn lemma_filter_no_duplicates<A>(s: Seq<A>, p: spec_fn(A) -> bool)
    requires
        s.no_duplicates(),
    ensures
        s.filter(p).no_duplicates(),
{
    lemma_filter_no_duplicates_upto(s, p, s.len() as int);
    assert(s.take(s.len() as int) =~= s);
}

/// The first `i` elements of a sequence without repetitions keep none when filtered.
proof fn lemma_filter_no_duplicates_upto<A>(s: Seq<A>, p: spec_fn(A) -> bool, i: int)
    requires
        s.no_duplicates(),
        0 <= i <= s.len(),
    ensures
        s.take(i).filter(p).no_duplicates(),
    decreases i,
{
    if i == 0 {
        crate::todo_workspace::lemma_filter_none(s, p);
    } else {
        lemma_filter_no_duplicates_upto(s, p, i - 1);
        crate::todo_workspace::lemma_filter_step(s, p, i - 1);
        let t = s.take(i - 1).filter(p);
        let head = s.take(i - 1);
        if p(s[i - 1]) {
            if t.contains(s[i - 1]) {
                head.lemma_filter_contains_rev(p, s[i - 1]);
                let k = choose|k: int| 0 <= k < head.len() && head[k] == s[i - 1];
                assert(s[k] == s[i - 1]);
            }
            let u = t.push(s[i - 1]);
            assert forall|a: int, b: int| 0 <= a < b < u.len() implies u[a] != u[b] by {
                if b == t.len() {
                    assert(u[a] == t[a]);
                }
            }
        }
    }
}

/// Every path but `p`.
pub open spec fn path_is_not(p: PathView) -> spec_fn(PathView) -> bool {
    |q: PathView| q != p
}

/// The folded folders after the folder `p` was clicked: unfolded when it was folded,
/// else folded.
pub open spec fn collapsed_toggled(collapsed: Seq<PathView>, p: PathView) -> Seq<PathView> {
    if collapsed.contains(p) {
        collapsed.filter(path_is_not(p))
    } else {
        collapsed.push(p)
    }
}

/// Folds the folder `relative_path` in the file tree, or unfolds it when it is folded.
pub fn toggle_collapsed_directory(collapsed_directories: &mut Vec<Vec<String>>, relative_path: &Vec<String>)
    ensures
        paths_view(final(collapsed_directories)@) == collapsed_toggled(
            paths_view(old(collapsed_directories)@),
            strings_view(relative_path@),
        ),
        paths_view(old(collapsed_directories)@).no_duplicates() ==> paths_view(
            final(collapsed_directories)@,
        ).no_duplicates(),
{
    proof {
        let before = paths_view(collapsed_directories@);
        let p = strings_view(relative_path@);
        if before.no_duplicates() {
            lemma_filter_no_duplicates(before, path_is_not(p));
            if !before.contains(p) {
                let pushed = before.push(p);
                assert forall|i: int, j: int| 0 <= i < j < pushed.len() implies pushed[i] != pushed[j] by {
                    if j == before.len() {
                        assert(before[i] == pushed[i]);
                    }
                }
            }
        }
    }
    let ghost p = strings_view(relative_path@);
    let ghost before = paths_view(collapsed_directories@);
    let ghost keep = path_is_not(p);
    let mut kept: Vec<Vec<String>> = Vec::new();
    let mut found = false;
    let mut i: usize = 0;
    proof {
        crate::todo_workspace::lemma_filter_none(before, keep);
    }
    while i < collapsed_directories.len()
        invariant
            i <= collapsed_directories.len(),
            before == paths_view(collapsed_directories@),
            keep == path_is_not(p),
            p == strings_view(relative_path@),
            paths_view(kept@) == before.take(i as int).filter(keep),
            found == before.take(i as int).contains(p),
        decreases collapsed_directories.len() - i,
    {
        proof {
            crate::todo_workspace::lemma_filter_step(before, keep, i as int);
            assert(before.take(i + 1) =~= before.take(i as int).push(before[i as int]));
            vstd::seq_lib::lemma_seq_contains_after_push(before.take(i as int), before[i as int], p);
        }
        if same_path(&collapsed_directories[i], relative_path) {
            found = true;
        } else {
            let ghost old_kept = kept@;
            let copy = crate::todo_workspace::copy_strings(&collapsed_directories[i]);
            kept.push(copy);
            proof {
                assert(paths_view(kept@) =~= paths_view(old_kept).push(before[i as int]));
            }
        }
        i += 1;
    }
    proof {
        assert(before.take(collapsed_directories.len() as int) =~= before);
    }
    if found {
        *collapsed_directories = kept;
    } else {
        let ghost old_dirs = collapsed_directories@;
        let copy = crate::todo_workspace::copy_strings(relative_path);
        collapsed_directories.push(copy);
        proof {
            assert(paths_view(collapsed_directories@) =~= paths_view(old_dirs).push(p));
        }
    }
}

/// Clicking a folder twice leaves the same folders folded.
pub proof fn lemma_toggle_collapsed_twice(collapsed: Seq<PathView>, p: PathView)
    ensures
        collapsed_toggled(collapsed_toggled(collapsed, p), p).to_set() == collapsed.to_set(),
{
    broadcast use vstd::seq_lib::group_seq_properties, vstd::seq_lib::group_filter_ensures;

    let once = collapsed_toggled(collapsed, p);
    let twice = collapsed_toggled(once, p);
    assert forall|q: PathView| twice.contains(q) <==> collapsed.contains(q) by {
        if collapsed.contains(p) {
            let i = choose|i: int| 0 <= i < once.len() && once[i] == p;
            if once.contains(p) {
                once.lemma_filter_contains_rev(path_is_not(p), p);
                let k = choose|k: int| 0 <= k < once.len() && once[k] == p;
                assert(path_is_not(p)(once[k]));
            }
            if collapsed.contains(q) && q != p {
                let k = choose|k: int| 0 <= k < collapsed.len() && collapsed[k] == q;
                collapsed.lemma_filter_contains(path_is_not(p), k);
            }
            if once.contains(q) {
                collapsed.lemma_filter_contains_rev(path_is_not(p), q);
            }
        } else {
            if twice.contains(q) {
                once.lemma_filter_contains_rev(path_is_not(p), q);
            }
            if collapsed.contains(q) {
                let k = choose|k: int| 0 <= k < collapsed.len() && collapsed[k] == q;
                assert(once[k] == q);
                once.lemma_filter_contains(path_is_not(p), k);
            }
        }
    }
    assert(twice.to_set() =~= collapsed.to_set());
}

/// The note link picker: where its trigger stands in the note (in characters) and the
/// highlighted candidate.
#[derive(Debug, PartialEq, Eq)]
pub struct NoteLinkPickerState {
    pub range: core::ops::Range<usize>,
    pub selected: usize,
}

impl NoteLinkPickerState {
    /// The down key: the next of `count` candidates, wrapping to the first; nothing
    /// moves when there is none.
    pub fn select_next(&mut self, count: usize)
        requires
            old(self).selected < usize::MAX,
        ensures
            final(self).selected == if count == 0 {
                old(self).selected as int
            } else {
                (old(self).selected + 1) % (count as int)
            },
            final(self).range == old(self).range,
    {
        if count > 0 {
            self.selected = (self.selected + 1) % count;
        }
    }

    /// The up key: the previous of `count` candidates, wrapping to the last; nothing
    /// moves when there is none.
    pub fn select_previous(&mut self, count: usize)
        requires
            old(self).selected + count <= usize::MAX,
        ensures
            final(self).selected == if count == 0 {
                old(self).selected as int
            } else {
                (old(self).selected + count - 1) % (count as int)
            },
            final(self).range == old(self).range,
    {
        if count > 0 {
            self.selected = (self.selected + count - 1) % count;
        }
    }
}

} // verus!
