//! A folder: its listing rows, cursor, sort cache and per-extension sizes.

use vstd::prelude::*;
use vstd::string::StringExecFns;
use crate::folder_entry::{
    EntryView, FolderEntry, FolderEntryType, le_by_title, le_by_size_desc, lemma_le_by_title_total_preorder,
    lemma_le_by_size_desc_total_preorder,
    title_le_exec,
};
use crate::ordering::{insertion_sort, sort_by, sorted_by, lemma_sort_by_len, lemma_sort_by_idempotent};

verus! {

/// Title of the synthetic parent-directory row.
pub const TEXT_PARENT_DIR: &'static str = "..";

/// Sort key last applied to a folder.
#[derive(Debug, Clone, Copy, PartialEq, Eq, Structural)]
pub enum SortBy {
    Title,
    Size,
}

#[derive(Debug)]
pub struct Folder {
    pub title: String,
    pub cursor_index: usize,
    /// Sort key last applied; `None` once entries or sizes changed since.
    pub sorted_by: Option<SortBy>,
    pub entries: Vec<FolderEntry>,
    /// Reading the folder failed.
    pub has_error: bool,
    /// Cumulative byte size per file extension, one pair per extension.
    pub file_type_map: Vec<(String, u64)>,
}

/// What a folder holds, with strings as characters.
pub struct FolderView {
    pub title: Seq<char>,
    pub cursor_index: int,
    pub sorted_by: Option<SortBy>,
    pub entries: Seq<EntryView>,
    pub has_error: bool,
    pub file_types: Seq<(Seq<char>, u64)>,
}

/// Views of `(extension, size)` pairs.
pub open spec fn pairs_view(m: Seq<(String, u64)>) -> Seq<(Seq<char>, u64)> {
    m.map_values(|p: (String, u64)| (p.0@, p.1))
}

impl View for Folder {
    type V = FolderView;

    open spec fn view(&self) -> FolderView {
        FolderView {
            title: self.title@,
            cursor_index: self.cursor_index as int,
            sorted_by: self.sorted_by,
            entries: self.entries@.map_values(|e: FolderEntry| e@),
            has_error: self.has_error,
            file_types: pairs_view(self.file_type_map@),
        }
    }
}

/// The parent-directory row.
pub open spec fn parent_row() -> EntryView {
    EntryView { title: TEXT_PARENT_DIR@, size: None, kind: FolderEntryType::Parent, is_loaded: true }
}

/// A folder titled `title` holding only the parent-directory row.
pub open spec fn fresh_folder(title: Seq<char>) -> FolderView {
    FolderView {
        title,
        cursor_index: 0,
        sorted_by: None,
        entries: seq![parent_row()],
        has_error: false,
        file_types: Seq::empty(),
    }
}

/// Index of the last pair for extension `k`, or -1.
pub open spec fn key_index(m: Seq<(Seq<char>, u64)>, k: Seq<char>) -> int
    decreases m.len(),
{
    if m.len() == 0 {
        -1
    } else if m.last().0 == k {
        m.len() - 1
    } else {
        key_index(m.drop_last(), k)
    }
}

/// `m` with `size` added to extension `k` (saturating), or with `(k, size)`
/// appended when `k` is new.
pub open spec fn ext_added(m: Seq<(Seq<char>, u64)>, k: Seq<char>, size: u64) -> Seq<(Seq<char>, u64)> {
    let i = key_index(m, k);
    if i >= 0 {
        m.update(i, (k, cap_u64(m[i].1 + size) as u64))
    } else {
        m.push((k, size))
    }
}

/// Index of the last folder row titled `title`, or -1.
pub open spec fn folder_row(entries: Seq<EntryView>, title: Seq<char>) -> int
    decreases entries.len(),
{
    if entries.len() == 0 {
        -1
    } else if entries.last().title == title && entries.last().kind == FolderEntryType::Folder {
        entries.len() - 1
    } else {
        folder_row(entries.drop_last(), title)
    }
}

impl FolderView {
    /// The folder with `row` appended, `size` counted under extension `ext`
    /// when there is one, and the sort cache cleared.
    pub open spec fn with_row(self, row: EntryView, ext: Seq<char>, size: u64) -> FolderView {
        FolderView {
            entries: self.entries.push(row),
            sorted_by: None,
            file_types: if ext.len() > 0 {
                ext_added(self.file_types, ext, size)
            } else {
                self.file_types
            },
            ..self
        }
    }

    /// The folder with its sub-folder row titled `title`, when there is one,
    /// showing size `v` (clearing the sort cache), and with `size` counted
    /// under extension `ext` when there is one.
    pub open spec fn with_child_set(self, title: Seq<char>, v: u64, ext: Seq<char>, size: u64) -> FolderView {
        let j = folder_row(self.entries, title);
        let f = if j >= 0 {
            FolderView {
                entries: self.entries.update(j, EntryView { size: Some(v), ..self.entries[j] }),
                sorted_by: None,
                ..self
            }
        } else {
            self
        };
        if ext.len() > 0 {
            FolderView { file_types: ext_added(f.file_types, ext, size), ..f }
        } else {
            f
        }
    }
}

impl FolderView {
    /// The folder with `d` taken (saturating) from its sub-folder row titled
    /// `title` when there is one; the sort cache is cleared.
    pub open spec fn with_child_shrunk(self, title: Seq<char>, d: u64) -> FolderView {
        let j = folder_row(self.entries, title);
        FolderView {
            entries: if j >= 0 {
                self.entries.update(j, self.entries[j].decremented(d))
            } else {
                self.entries
            },
            sorted_by: None,
            ..self
        }
    }

    /// The folder without the selected row, the cursor kept on a row.
    pub open spec fn without_selected(self) -> FolderView {
        FolderView {
            entries: self.entries.remove(self.cursor_index),
            cursor_index: if self.cursor_index < self.entries.len() - 1 {
                self.cursor_index
            } else {
                self.entries.len() - 2
            },
            ..self
        }
    }

    /// Sum of the rows' sizes, unknown sizes counting as zero.
    pub open spec fn size(self) -> int {
        rows_total(self.entries)
    }
}

/// Sum of the rows' sizes, unknown sizes counting as zero.
pub open spec fn rows_total(s: Seq<EntryView>) -> int
    decreases s.len(),
{
    if s.len() == 0 {
        0
    } else {
        rows_total(s.drop_last()) + match s.last().size {
            Some(x) => x as int,
            None => 0,
        }
    }
}

pub proof fn lemma_rows_total(s: Seq<FolderEntry>)
    ensures
        rows_total(s.map_values(|e: FolderEntry| e@)) == total_size(s),
    decreases s.len(),
{
    if s.len() > 0 {
        lemma_rows_total(s.drop_last());
        assert(s.map_values(|e: FolderEntry| e@).drop_last() =~= s.drop_last().map_values(|e: FolderEntry| e@));
    }
}

pub proof fn lemma_key_index_absent(m: Seq<(Seq<char>, u64)>, k: Seq<char>)
    requires
        forall|i: int| 0 <= i < m.len() ==> (#[trigger] m[i]).0 != k,
    ensures
        key_index(m, k) == -1,
    decreases m.len(),
{
    if m.len() > 0 {
        assert(m.last() == m[m.len() - 1]);
        assert forall|i: int| 0 <= i < m.drop_last().len() implies (#[trigger] m.drop_last()[i]).0 != k by {
            assert(m.drop_last()[i] == m[i]);
        }
        lemma_key_index_absent(m.drop_last(), k);
    }
}

pub proof fn lemma_key_index_present(m: Seq<(Seq<char>, u64)>, k: Seq<char>, i: int)
    requires
        0 <= i < m.len(),
        m[i].0 == k,
        forall|j: int| 0 <= j < m.len() && j != i ==> (#[trigger] m[j]).0 != k,
    ensures
        key_index(m, k) == i,
    decreases m.len(),
{
    if i != m.len() - 1 {
        assert(m.last() == m[m.len() - 1]);
        assert forall|j: int| 0 <= j < m.drop_last().len() && j != i implies (#[trigger] m.drop_last()[j]).0 != k by {
            assert(m.drop_last()[j] == m[j]);
        }
        assert(m.drop_last()[i] == m[i]);
        lemma_key_index_present(m.drop_last(), k, i);
    }
}

pub proof fn lemma_folder_row_bounds(entries: Seq<EntryView>, title: Seq<char>)
    ensures
        -1 <= folder_row(entries, title) < entries.len(),
        folder_row(entries, title) >= 0 ==> entries[folder_row(entries, title)].title == title
            && entries[folder_row(entries, title)].kind == FolderEntryType::Folder,
    decreases entries.len(),
{
    if entries.len() > 0 {
        lemma_folder_row_bounds(entries.drop_last(), title);
        let j = folder_row(entries.drop_last(), title);
        if j >= 0 {
            assert(entries.drop_last()[j] == entries[j]);
        }
    }
}

/// `folder_row` reads titles and kinds only.
pub proof fn lemma_folder_row_shape(e: Seq<EntryView>, f: Seq<EntryView>, t: Seq<char>)
    requires
        e.len() == f.len(),
        forall|i: int| 0 <= i < e.len() ==> (#[trigger] e[i]).title == f[i].title && e[i].kind == f[i].kind,
    ensures
        folder_row(e, t) == folder_row(f, t),
    decreases e.len(),
{
    if e.len() > 0 {
        assert(e.last() == e[e.len() - 1] && f.last() == f[f.len() - 1]);
        assert forall|i: int| 0 <= i < e.drop_last().len() implies (#[trigger] e.drop_last()[i]).title
            == f.drop_last()[i].title && e.drop_last()[i].kind == f.drop_last()[i].kind by {
            assert(e.drop_last()[i] == e[i] && f.drop_last()[i] == f[i]);
        }
        lemma_folder_row_shape(e.drop_last(), f.drop_last(), t);
    }
}

/// With no folder row titled `title` in `[from, len)`, the last one overall
/// is the last one before `from`.
pub proof fn lemma_folder_row_prefix(entries: Seq<EntryView>, title: Seq<char>, from: int)
    requires
        0 <= from <= entries.len(),
        forall|k: int| from <= k < entries.len() ==> !((#[trigger] entries[k]).title == title
            && entries[k].kind == FolderEntryType::Folder),
    ensures
        folder_row(entries, title) == folder_row(entries.subrange(0, from), title),
    decreases entries.len(),
{
    if from == entries.len() {
        assert(entries.subrange(0, from) =~= entries);
    } else {
        assert(entries.last() == entries[entries.len() - 1]);
        let d = entries.drop_last();
        assert forall|k: int| from <= k < d.len() implies !((#[trigger] d[k]).title == title
            && d[k].kind == FolderEntryType::Folder) by {
            assert(d[k] == entries[k]);
        }
        lemma_folder_row_prefix(d, title, from);
        assert(d.subrange(0, from) =~= entries.subrange(0, from));
    }
}

impl Clone for Folder {
    fn clone(&self) -> (r: Self)
        ensures
            r.same_as(*self),
    {
        let entries = self.entries.clone();
        assert(entries@ =~= self.entries@);
        let file_type_map = clone_pairs(&self.file_type_map);
        Folder {
            title: self.title.clone(),
            cursor_index: self.cursor_index,
            sorted_by: self.sorted_by,
            entries,
            has_error: self.has_error,
            file_type_map,
        }
    }
}

fn clone_pairs(v: &Vec<(String, u64)>) -> (r: Vec<(String, u64)>)
    ensures
        r@ == v@,
{
    let mut r: Vec<(String, u64)> = Vec::new();
    let mut i: usize = 0;
    while i < v.len()
        invariant
            0 <= i <= v@.len(),
            r@ == v@.subrange(0, i as int),
        decreases v@.len() - i,
    {
        let k = v[i].0.clone();
        r.push((k, v[i].1));
        assert(r@ =~= v@.subrange(0, i + 1));
        i = i + 1;
    }
    assert(v@.subrange(0, v@.len() as int) =~= v@);
    r
}

/// Size of an entry, an unknown size counting as zero.
pub open spec fn entry_size(e: FolderEntry) -> int {
    match e.size {
        Some(s) => s as int,
        None => 0,
    }
}

/// Sum of the entries' sizes, unknown sizes counting as zero.
pub open spec fn total_size(s: Seq<FolderEntry>) -> int
    decreases s.len(),
{
    if s.len() == 0 {
        0
    } else {
        total_size(s.drop_last()) + entry_size(s.last())
    }
}

/// Largest known size among the entries, zero if none is known.
pub open spec fn max_size(s: Seq<FolderEntry>) -> int
    decreases s.len(),
{
    if s.len() == 0 {
        0
    } else {
        let m = max_size(s.drop_last());
        if entry_size(s.last()) > m {
            entry_size(s.last())
        } else {
            m
        }
    }
}

/// `x` capped at `u64::MAX`.
pub open spec fn cap_u64(x: int) -> int {
    if x > u64::MAX as int {
        u64::MAX as int
    } else {
        x
    }
}

/// Pairs `(extension, size)` with no extension twice.
pub open spec fn keys_unique(m: Seq<(String, u64)>) -> bool {
    forall|i: int, j: int| 0 <= i < j < m.len() ==> (#[trigger] m[i]).0@ != (#[trigger] m[j]).0@
}

impl Folder {
    /// Equal field by field, the vectors by content.
    pub open spec fn same_as(self, other: Folder) -> bool {
        &&& self.title == other.title
        &&& self.cursor_index == other.cursor_index
        &&& self.sorted_by == other.sorted_by
        &&& self.entries@ == other.entries@
        &&& self.has_error == other.has_error
        &&& self.file_type_map@ == other.file_type_map@
    }

    /// The cursor points at an entry, so there is at least one; extensions
    /// are listed once each.
    pub open spec fn wf(&self) -> bool {
        &&& self.cursor_index < self.entries@.len()
        &&& keys_unique(self.file_type_map@)
    }

    /// The entry under the cursor.
    pub open spec fn selected(&self) -> FolderEntry {
        self.entries@[self.cursor_index as int]
    }

    /// A folder holding only the parent-directory row.
    pub fn new(title: String) -> (r: Folder)
        ensures
            r.wf(),
            r.title == title,
            r.cursor_index == 0,
            r.sorted_by is None,
            r.entries@.len() == 1,
            r.entries@[0].kind == FolderEntryType::Parent,
            r.entries@[0].title@ == TEXT_PARENT_DIR@,
            r.entries@[0].size is None,
            r.entries@[0].is_loaded,
            !r.has_error,
            r.file_type_map@.len() == 0,
            r@ == fresh_folder(title@),
    {
        let mut entries: Vec<FolderEntry> = Vec::new();
        entries.push(
            FolderEntry {
                kind: FolderEntryType::Parent,
                title: String::from_str(TEXT_PARENT_DIR),
                size: None,
                is_loaded: true,
            },
        );
        let r = Folder {
            title,
            cursor_index: 0,
            sorted_by: None,
            entries,
            has_error: false,
            file_type_map: Vec::new(),
        };
        assert(r@.entries =~= fresh_folder(title@).entries);
        assert(r@.file_types =~= fresh_folder(title@).file_types);
        r
    }

    /// Sum of the entries' sizes (unknown counts as zero), capped at `u64::MAX`.
    pub fn get_size(&self) -> (r: u64)
        ensures
            r as int == cap_u64(total_size(self.entries@)),
            r as int == cap_u64(self@.size()),
    {
        proof {
            lemma_rows_total(self.entries@);
        }
        let mut acc: u64 = 0;
        let mut i: usize = 0;
        while i < self.entries.len()
            invariant
                0 <= i <= self.entries@.len(),
                acc as int == cap_u64(total_size(self.entries@.subrange(0, i as int))),
            decreases self.entries@.len() - i,
        {
            assert(self.entries@.subrange(0, i + 1).drop_last() =~= self.entries@.subrange(0, i as int));
            let s = match self.entries[i].size {
                Some(s) => s,
                None => 0,
            };
            acc = acc.saturating_add(s);
            i = i + 1;
        }
        assert(self.entries@.subrange(0, i as int) =~= self.entries@);
        acc
    }

    /// Size of the selected entry, zero when unknown.
    pub fn get_selected_entry_size(&self) -> (r: u64)
        requires
            self.wf(),
        ensures
            r as int == entry_size(self.selected()),
    {
        match self.get_selected_entry().size {
            Some(s) => s,
            None => 0,
        }
    }

    /// Removes the selected entry and keeps the cursor on an entry.
    pub fn remove_selected(&mut self)
        requires
            old(self).wf(),
            old(self).entries@.len() >= 2,
        ensures
            final(self).wf(),
            final(self).entries@ == old(self).entries@.remove(old(self).cursor_index as int),
            final(self).cursor_index == if old(self).cursor_index < final(self).entries@.len() {
                old(self).cursor_index
            } else {
                (final(self).entries@.len() - 1) as usize
            },
            final(self).title == old(self).title,
            final(self).sorted_by == old(self).sorted_by,
            final(self).has_error == old(self).has_error,
            final(self).file_type_map == old(self).file_type_map,
            final(self)@ == old(self)@.without_selected(),
    {
        self.entries.remove(self.cursor_index);
        let last = self.entries.len() - 1;
        if self.cursor_index > last {
            self.cursor_index = last;
        }
        assert(self@.entries =~= old(self)@.entries.remove(old(self).cursor_index as int));
    }

    /// The entry under the cursor.
    pub fn get_selected_entry(&self) -> (r: &FolderEntry)
        requires
            self.wf(),
        ensures
            *r == self.selected(),
    {
        &self.entries[self.cursor_index]
    }

    /// A copy of the entries, in order.
    pub fn to_list(&self) -> (r: Vec<FolderEntry>)
        ensures
            r@ == self.entries@,
    {
        let r = self.entries.clone();
        assert(r@ =~= self.entries@);
        r
    }

    /// Largest known entry size, zero when none is known.
    pub fn get_max_entry_size(&self) -> (r: u64)
        ensures
            r as int == max_size(self.entries@),
    {
        let mut max_entry_size: u64 = 0;
        let mut i: usize = 0;
        while i < self.entries.len()
            invariant
                0 <= i <= self.entries@.len(),
                max_entry_size as int == max_size(self.entries@.subrange(0, i as int)),
            decreases self.entries@.len() - i,
        {
            assert(self.entries@.subrange(0, i + 1).drop_last() =~= self.entries@.subrange(0, i as int));
            if let Some(size) = self.entries[i].size {
                if size > max_entry_size {
                    max_entry_size = size;
                }
            }
            i = i + 1;
        }
        assert(self.entries@.subrange(0, i as int) =~= self.entries@);
        max_entry_size
    }

    /// Stable sort by kind (parent row, folders, files), then by title.
    pub fn sort_by_title(&mut self)
        requires
            old(self).wf(),
        ensures
            final(self).wf(),
            final(self).entries@ == sort_by(old(self).entries@, |a: FolderEntry, b: FolderEntry| le_by_title(a, b)),
            sorted_by(final(self).entries@, |a: FolderEntry, b: FolderEntry| le_by_title(a, b)),
            final(self).entries@.to_multiset() == old(self).entries@.to_multiset(),
            final(self).cursor_index == old(self).cursor_index,
            final(self).title == old(self).title,
            final(self).sorted_by == old(self).sorted_by,
            final(self).has_error == old(self).has_error,
            final(self).file_type_map == old(self).file_type_map,
    {
        proof {
            lemma_sort_by_len(self.entries@, |a: FolderEntry, b: FolderEntry| le_by_title(a, b));
            lemma_le_by_title_total_preorder();
        }
        insertion_sort(
            &mut self.entries,
            title_order_le,
            Ghost(|a: FolderEntry, b: FolderEntry| le_by_title(a, b)),
        );
    }

    /// Stable sort: parent row first, then known sizes from largest to
    /// smallest, then entries of unknown size.
    pub fn sort_by_size(&mut self)
        requires
            old(self).wf(),
        ensures
            final(self).wf(),
            final(self).entries@ == sort_by(old(self).entries@, |a: FolderEntry, b: FolderEntry| le_by_size_desc(a, b)),
            sorted_by(final(self).entries@, |a: FolderEntry, b: FolderEntry| le_by_size_desc(a, b)),
            final(self).entries@.to_multiset() == old(self).entries@.to_multiset(),
            final(self).cursor_index == old(self).cursor_index,
            final(self).title == old(self).title,
            final(self).sorted_by == old(self).sorted_by,
            final(self).has_error == old(self).has_error,
            final(self).file_type_map == old(self).file_type_map,
    {
        proof {
            lemma_sort_by_len(self.entries@, |a: FolderEntry, b: FolderEntry| le_by_size_desc(a, b));
            lemma_le_by_size_desc_total_preorder();
        }
        insertion_sort(
            &mut self.entries,
            size_desc_le,
            Ghost(|a: FolderEntry, b: FolderEntry| le_by_size_desc(a, b)),
        );
    }
}

impl Folder {
    /// Adds `size` to the byte count of extension `file_type` (saturating at
    /// `u64::MAX`), listing the extension first if it is new.
    pub fn append_file_type_size(&mut self, file_type: &String, size: u64)
        requires
            old(self).wf(),
        ensures
            final(self).wf(),
            forall|i: int|
                0 <= i < old(self).file_type_map@.len() && (#[trigger] old(self).file_type_map@[i]).0@
                    == file_type@ ==> final(self).file_type_map@ == old(self).file_type_map@.update(
                    i,
                    (
                        old(self).file_type_map@[i].0,
                        cap_u64(old(self).file_type_map@[i].1 + size) as u64,
                    ),
                ),
            (forall|i: int|
                0 <= i < old(self).file_type_map@.len() ==> (#[trigger] old(self).file_type_map@[i]).0@
                    != file_type@) ==> final(self).file_type_map@.drop_last()
                == old(self).file_type_map@ && final(self).file_type_map@.len()
                == old(self).file_type_map@.len() + 1 && final(self).file_type_map@.last().0@
                == file_type@ && final(self).file_type_map@.last().1 == size,
            final(self).title == old(self).title,
            final(self).cursor_index == old(self).cursor_index,
            final(self).sorted_by == old(self).sorted_by,
            final(self).entries == old(self).entries,
            final(self).has_error == old(self).has_error,
            final(self)@ == (FolderView {
                file_types: ext_added(old(self)@.file_types, file_type@, size),
                ..old(self)@
            }),
    {
        let ghost v0 = pairs_view(self.file_type_map@);
        let mut i: usize = 0;
        while i < self.file_type_map.len()
            invariant
                0 <= i <= self.file_type_map@.len(),
                *self == *old(self),
                self.wf(),
                v0 == pairs_view(self.file_type_map@),
                forall|j: int| 0 <= j < i ==> (#[trigger] self.file_type_map@[j]).0@ != file_type@,
            decreases self.file_type_map@.len() - i,
        {
            if self.file_type_map[i].0 == *file_type {
                let key = self.file_type_map[i].0.clone();
                let total = self.file_type_map[i].1.saturating_add(size);
                let ghost before = self.file_type_map@;
                self.file_type_map.set(i, (key, total));
                assert forall|j: int| 0 <= j < before.len() && (#[trigger] before[j]).0@ == file_type@
                    implies j == i by {
                    if j != i {
                        assert(keys_unique(before));
                    }
                }
                assert(self.file_type_map@[i as int].0 == before[i as int].0);
                assert forall|a: int, b: int| 0 <= a < b < self.file_type_map@.len() implies
                    (#[trigger] self.file_type_map@[a]).0@ != (#[trigger] self.file_type_map@[b]).0@ by {
                    assert(self.file_type_map@[a].0 == before[a].0);
                    assert(self.file_type_map@[b].0 == before[b].0);
                    assert(before[a].0@ != before[b].0@);
                }
                proof {
                    assert(v0.len() == before.len());
                    assert forall|j: int| 0 <= j < v0.len() && j != i implies (#[trigger] v0[j]).0 != file_type@ by {
                        assert(v0[j].0 == before[j].0@);
                        assert(before[j].0@ != before[i as int].0@);
                    }
                    assert(v0[i as int].0 == file_type@);
                    lemma_key_index_present(v0, file_type@, i as int);
                    assert(pairs_view(self.file_type_map@) =~= ext_added(v0, file_type@, size));
                }
                return;
            }
            i = i + 1;
        }
        let ghost before = self.file_type_map@;
        proof {
            assert(v0.len() == before.len());
            assert forall|j: int| 0 <= j < v0.len() implies (#[trigger] v0[j]).0 != file_type@ by {
                assert(v0[j].0 == before[j].0@);
                assert(before[j].0@ != file_type@);
            }
            lemma_key_index_absent(v0, file_type@);
        }
        self.file_type_map.push((file_type.clone(), size));
        assert(self.file_type_map@.drop_last() =~= before);
        assert(pairs_view(self.file_type_map@) =~= ext_added(v0, file_type@, size));
        assert forall|a: int, b: int| 0 <= a < b < self.file_type_map@.len() implies
            (#[trigger] self.file_type_map@[a]).0@ != (#[trigger] self.file_type_map@[b]).0@ by {
            if b < before.len() {
                assert(before[a].0@ != before[b].0@);
            }
        }
    }

    /// Extensions with their sizes, largest first; equal sizes ordered by
    /// extension.
    pub fn get_sorted_file_types_by_size(&self) -> (r: Vec<(String, u64)>)
        ensures
            r@ == sort_by(self.file_type_map@, |a: (String, u64), b: (String, u64)| chart_le(a, b)),
            sorted_by(r@, |a: (String, u64), b: (String, u64)| chart_le(a, b)),
            r@.to_multiset() == self.file_type_map@.to_multiset(),
    {
        proof {
            lemma_chart_le_total_preorder();
        }
        let mut file_types = clone_pairs(&self.file_type_map);
        insertion_sort(
            &mut file_types,
            pair_size_desc_le,
            Ghost(|a: (String, u64), b: (String, u64)| chart_le(a, b)),
        );
        file_types
    }

    /// Buckets for the size-by-extension chart: extensions from largest to
    /// smallest while the share taken so far is at most
    /// `threshold_num / threshold_den` of the whole and fewer than
    /// `max_items - 1` buckets are out; everything else is summed into a
    /// trailing `"rest"` bucket, present only when non-zero.
    pub fn get_chart_data(&self, threshold_num: u64, threshold_den: u64, max_items: usize) -> (r: Vec<(String, u64)>)
        requires
            threshold_den > 0,
            max_items >= 1,
        ensures
            ({
                let sorted = sort_by(self.file_type_map@, |a: (String, u64), b: (String, u64)| chart_le(a, b));
                let split = chart_split(
                    sorted,
                    0,
                    0,
                    cap_u64(pairs_total(sorted)),
                    threshold_num as int,
                    threshold_den as int,
                    max_items as int,
                );
                &&& r@.len() == split.0.len() + if split.1 > 0 { 1int } else { 0int }
                &&& r@.subrange(0, split.0.len() as int) == split.0
                &&& split.1 > 0 ==> r@.last().0@ == CHART_REST@ && r@.last().1 == split.1
            }),
    {
        let sorted = self.get_sorted_file_types_by_size();
        let ghost ss = sorted@;
        let mut total: u64 = 0;
        let mut i: usize = 0;
        while i < sorted.len()
            invariant
                0 <= i <= ss.len(),
                ss == sorted@,
                total as int == cap_u64(pairs_total(ss.subrange(0, i as int))),
            decreases ss.len() - i,
        {
            assert(ss.subrange(0, i + 1).drop_last() =~= ss.subrange(0, i as int));
            total = total.saturating_add(sorted[i].1);
            i = i + 1;
        }
        assert(ss.subrange(0, ss.len() as int) =~= ss);
        let ghost num = threshold_num as int;
        let ghost den = threshold_den as int;
        let ghost goal = chart_split(ss, 0, 0, total as int, num, den, max_items as int);
        let mut accumulated_size: u64 = 0;
        let mut chart_data: Vec<(String, u64)> = Vec::new();
        let mut rest_size: u64 = 0;
        let mut sorted = sorted;
        let mut j: usize = 0;
        assert(ss.skip(0) =~= ss);
        proof {
            lemma_chart_split_rest_bounds(ss, 0, 0, total as int, num, den, max_items as int);
        }
        while j < sorted.len()
            invariant
                0 <= j <= ss.len(),
                sorted@ == ss,
                num == threshold_num as int,
                den == threshold_den as int,
                chart_data@.len() <= j,
                max_items >= 1,
                threshold_den > 0,
                ({
                    let tail = chart_split(
                        ss.skip(j as int),
                        accumulated_size as int,
                        chart_data@.len() as int,
                        total as int,
                        num,
                        den,
                        max_items as int,
                    );
                    &&& goal.0 == chart_data@ + tail.0
                    &&& goal.1 == cap_u64(rest_size + tail.1)
                }),
            decreases ss.len() - j,
        {
            let ghost tl = ss.skip(j as int);
            assert(tl.drop_first() =~= ss.skip(j + 1));
            assert(tl[0] == ss[j as int]);
            proof {
                lemma_chart_split_rest_bounds(ss.skip(j + 1), accumulated_size as int,
                    chart_data@.len() as int, total as int, num, den, max_items as int);
                lemma_chart_split_rest_bounds(ss.skip(j + 1), cap_u64(accumulated_size + tl[0].1),
                    chart_data@.len() + 1int, total as int, num, den, max_items as int);
            }
            let key = sorted[j].0.clone();
            let size = sorted[j].1;
            let a = accumulated_size as u128;
            let d = threshold_den as u128;
            let n = threshold_num as u128;
            let t = total as u128;
            assert(a * d <= u64::MAX as u128 * u64::MAX as u128) by (nonlinear_arith)
                requires a <= u64::MAX as u128, d <= u64::MAX as u128;
            assert(n * t <= u64::MAX as u128 * u64::MAX as u128) by (nonlinear_arith)
                requires n <= u64::MAX as u128, t <= u64::MAX as u128;
            assert((a * d) as int == (accumulated_size as int) * den) by (nonlinear_arith)
                requires a == accumulated_size as u128, d as int == den;
            assert((n * t) as int == num * (total as int)) by (nonlinear_arith)
                requires n as int == num, t == total as u128;
            let fits = total > 0 && a * d <= n * t;
            if fits && chart_data.len() < max_items - 1 {
                let ghost prev = chart_data@;
                chart_data.push((key, size));
                accumulated_size = accumulated_size.saturating_add(size);
                proof {
                    let t = chart_split(ss.skip(j + 1), accumulated_size as int, chart_data@.len() as int,
                        total as int, num, den, max_items as int);
                    assert(fits_threshold(a as int, total as int, num, den));
                    assert(chart_split(tl, a as int, prev.len() as int, total as int, num, den, max_items as int)
                        == (seq![tl[0]] + t.0, t.1));
                    assert(prev + (seq![tl[0]] + t.0) =~= chart_data@ + t.0);
                }
            } else {
                let ghost prev_rest = rest_size as int;
                rest_size = rest_size.saturating_add(size);
                proof {
                    let t = chart_split(ss.skip(j + 1), accumulated_size as int, chart_data@.len() as int,
                        total as int, num, den, max_items as int);
                    assert(!(fits_threshold(a as int, total as int, num, den) && chart_data@.len() < max_items - 1));
                    assert(chart_split(tl, a as int, chart_data@.len() as int, total as int, num, den, max_items as int)
                        == (t.0, cap_u64(t.1 + tl[0].1)));
                    assert(cap_u64(prev_rest + cap_u64(t.1 + tl[0].1)) == cap_u64(rest_size + t.1));
                }
            }
            j = j + 1;
        }
        assert(ss.skip(j as int).len() == 0);
        assert(chart_data@ + Seq::<(String, u64)>::empty() =~= chart_data@);
        if rest_size > 0 {
            chart_data.push((String::from_str(CHART_REST), rest_size));
        }
        chart_data
    }
}

impl Folder {
    /// Appends `row`, counts `size` under extension `ext` when it is not
    /// empty, and clears the sort cache.
    pub fn add_row(&mut self, row: FolderEntry, ext: &String, size: u64)
        requires
            old(self).wf(),
        ensures
            final(self).wf(),
            final(self)@ == old(self)@.with_row(row@, ext@, size),
    {
        let ghost v0 = self@;
        if !ext.as_str().is_empty() {
            self.append_file_type_size(ext, size);
        }
        self.entries.push(row);
        self.sorted_by = None;
        assert(self@.entries =~= v0.entries.push(row@));
    }

    /// Makes the last sub-folder row titled `title`, if any, show size `v`
    /// (then clearing the sort cache), and counts `size` under extension
    /// `ext` when that is not empty.
    pub fn set_child_size(&mut self, title: &String, v: u64, ext: &String, size: u64)
        requires
            old(self).wf(),
        ensures
            final(self).wf(),
            final(self)@ == old(self)@.with_child_set(title@, v, ext@, size),
    {
        let ghost v0 = self@;
        let mut i: usize = self.entries.len();
        let mut found = false;
        while i > 0
            invariant_except_break
                !found,
            invariant
                0 <= i <= self.entries@.len(),
                *self == *old(self),
                self@ == v0,
                forall|k: int| i <= k < v0.entries.len() ==> !((#[trigger] v0.entries[k]).title == title@
                    && v0.entries[k].kind == FolderEntryType::Folder),
            ensures
                found ==> i > 0 && v0.entries[i - 1].title == title@ && v0.entries[i - 1].kind
                    == FolderEntryType::Folder,
                !found ==> i == 0,
            decreases i,
        {
            if self.entries[i - 1].kind == FolderEntryType::Folder && self.entries[i - 1].title == *title {
                found = true;
                break;
            }
            i = i - 1;
        }
        if found {
            proof {
                lemma_folder_row_prefix(v0.entries, title@, i as int);
                let p = v0.entries.subrange(0, i as int);
                assert(p.last() == v0.entries[i - 1]);
                assert(folder_row(p, title@) == i - 1);
            }
            let j = i - 1;
            let mut e = self.entries.remove(j);
            e.size = Some(v);
            self.entries.insert(j, e);
            self.sorted_by = None;
        } else {
            proof {
                lemma_folder_row_prefix(v0.entries, title@, 0);
            }
        }
        let ghost v1 = self@;
        assert(v1.entries =~= (if found {
            v0.entries.update(i - 1, EntryView { size: Some(v), ..v0.entries[i - 1] })
        } else {
            v0.entries
        }));
        if !ext.as_str().is_empty() {
            self.append_file_type_size(ext, size);
        }
    }
}

impl Folder {
    /// Takes `d` (saturating) from the last sub-folder row titled `title`,
    /// if any, and clears the sort cache.
    pub fn shrink_child(&mut self, title: &String, d: u64)
        requires
            old(self).wf(),
        ensures
            final(self).wf(),
            final(self)@ == old(self)@.with_child_shrunk(title@, d),
    {
        let ghost v0 = self@;
        let mut i: usize = self.entries.len();
        let mut found = false;
        while i > 0
            invariant_except_break
                !found,
            invariant
                0 <= i <= self.entries@.len(),
                *self == *old(self),
                self@ == v0,
                forall|k: int| i <= k < v0.entries.len() ==> !((#[trigger] v0.entries[k]).title == title@
                    && v0.entries[k].kind == FolderEntryType::Folder),
            ensures
                found ==> i > 0 && v0.entries[i - 1].title == title@ && v0.entries[i - 1].kind
                    == FolderEntryType::Folder,
                !found ==> i == 0,
            decreases i,
        {
            if self.entries[i - 1].kind == FolderEntryType::Folder && self.entries[i - 1].title == *title {
                found = true;
                break;
            }
            i = i - 1;
        }
        if found {
            proof {
                lemma_folder_row_prefix(v0.entries, title@, i as int);
                let p = v0.entries.subrange(0, i as int);
                assert(p.last() == v0.entries[i - 1]);
                assert(folder_row(p, title@) == i - 1);
            }
            let j = i - 1;
            let mut e = self.entries.remove(j);
            e.size = match e.size {
                Some(s) => Some(s.saturating_sub(d)),
                None => None,
            };
            self.entries.insert(j, e);
            assert(self@.entries =~= v0.entries.update(j as int, v0.entries[j as int].decremented(d)));
        } else {
            proof {
                lemma_folder_row_prefix(v0.entries, title@, 0);
            }
        }
        self.sorted_by = None;
    }
}

/// Title of the bucket that sums the extensions left out of the chart.
pub const CHART_REST: &'static str = "rest";

/// Sum of the sizes in `(extension, size)` pairs.
pub open spec fn pairs_total(s: Seq<(String, u64)>) -> int
    decreases s.len(),
{
    if s.len() == 0 {
        0
    } else {
        pairs_total(s.drop_last()) + s.last().1
    }
}

/// The taken share `acc / total` is at most `num / den`.
pub open spec fn fits_threshold(acc: int, total: int, num: int, den: int) -> bool {
    total > 0 && acc * den <= num * total
}

/// Walks `s` front to back with `acc` bytes already charted in `taken`
/// buckets: returns the pairs charted from `s` and the bytes left over
/// (capped at `u64::MAX`).
pub open spec fn chart_split(
    s: Seq<(String, u64)>,
    acc: int,
    taken: int,
    total: int,
    num: int,
    den: int,
    max_items: int,
) -> (Seq<(String, u64)>, int)
    decreases s.len(),
{
    if s.len() == 0 {
        (Seq::empty(), 0)
    } else if fits_threshold(acc, total, num, den) && taken < max_items - 1 {
        let r = chart_split(s.drop_first(), cap_u64(acc + s[0].1), taken + 1, total, num, den, max_items);
        (seq![s[0]] + r.0, r.1)
    } else {
        let r = chart_split(s.drop_first(), acc, taken, total, num, den, max_items);
        (r.0, cap_u64(r.1 + s[0].1))
    }
}

pub proof fn lemma_chart_split_rest_bounds(
    s: Seq<(String, u64)>,
    acc: int,
    taken: int,
    total: int,
    num: int,
    den: int,
    max_items: int,
)
    ensures
        0 <= chart_split(s, acc, taken, total, num, den, max_items).1 <= u64::MAX,
    decreases s.len(),
{
    if s.len() > 0 {
        lemma_chart_split_rest_bounds(s.drop_first(), cap_u64(acc + s[0].1), taken + 1, total, num, den, max_items);
        lemma_chart_split_rest_bounds(s.drop_first(), acc, taken, total, num, den, max_items);
    }
}

/// Chart order of `(extension, size)` pairs: larger size first, equal
/// sizes by extension.
pub open spec fn chart_le(a: (String, u64), b: (String, u64)) -> bool {
    a.1 > b.1 || (a.1 == b.1 && crate::folder_entry::title_le(a.0@, b.0@))
}

pub proof fn lemma_chart_le_total_preorder()
    ensures
        crate::ordering::total_preorder(|a: (String, u64), b: (String, u64)| chart_le(a, b)),
{
    assert forall|a: (String, u64), b: (String, u64)| chart_le(a, b) || chart_le(b, a) by {
        crate::folder_entry::lemma_title_le_total(a.0@, b.0@);
    }
    assert forall|a: (String, u64), b: (String, u64), c: (String, u64)|
        chart_le(a, b) && chart_le(b, c) implies chart_le(a, c) by {
        if a.1 == b.1 && b.1 == c.1 {
            crate::folder_entry::lemma_title_le_transitive(a.0@, b.0@, c.0@);
        }
    }
}

/// Decides `chart_le`.
fn pair_size_desc_le(a: &(String, u64), b: &(String, u64)) -> (r: bool)
    ensures
        r == chart_le(*a, *b),
{
    if a.1 != b.1 {
        a.1 > b.1
    } else {
        title_le_exec(&a.0, &b.0)
    }
}

/// Decides `le_by_title`.
pub fn title_order_le(a: &FolderEntry, b: &FolderEntry) -> (r: bool)
    ensures
        r == le_by_title(*a, *b),
{
    let ra = a.kind.order_rank();
    let rb = b.kind.order_rank();
    if ra != rb {
        ra < rb
    } else {
        title_le_exec(&a.title, &b.title)
    }
}

/// Decides `le_by_size_desc`.
pub fn size_desc_le(a: &FolderEntry, b: &FolderEntry) -> (r: bool)
    ensures
        r == le_by_size_desc(*a, *b),
{
    let ga: u8 = if a.kind == FolderEntryType::Parent {
        0
    } else if a.size.is_some() {
        1
    } else {
        2
    };
    let gb: u8 = if b.kind == FolderEntryType::Parent {
        0
    } else if b.size.is_some() {
        1
    } else {
        2
    };
    if ga != gb {
        ga < gb
    } else if ga != 1 {
        true
    } else {
        a.size.unwrap() >= b.size.unwrap()
    }
}

/// Sorting a folder by title twice leaves the entries in the same order as
/// sorting once.
pub proof fn lemma_sort_by_title_idempotent(entries: Seq<FolderEntry>)
    ensures
        sort_by(sort_by(entries, |a: FolderEntry, b: FolderEntry| le_by_title(a, b)), |a: FolderEntry, b: FolderEntry| le_by_title(a, b))
            == sort_by(entries, |a: FolderEntry, b: FolderEntry| le_by_title(a, b)),
{
    lemma_le_by_title_total_preorder();
    lemma_sort_by_idempotent(entries, |a: FolderEntry, b: FolderEntry| le_by_title(a, b));
}

} // verus!
