//! One row of a folder listing: a file, a sub-folder, or the synthetic
//! parent-directory row.

use vstd::prelude::*;
use vstd::string::StrSliceExecFns;
use crate::ordering::{insertion_sort, sort_by, sorted_by};

verus! {

/// Kind of a listing row. Display order: `Parent`, then `Folder`, then `File`.
#[derive(Debug, Clone, Copy, PartialEq, Eq, Structural)]
pub enum FolderEntryType {
    Parent,
    File,
    Folder,
}

impl FolderEntryType {
    /// Position of the kind in display order.
    pub open spec fn rank(self) -> int {
        match self {
            FolderEntryType::Parent => 0,
            FolderEntryType::Folder => 1,
            FolderEntryType::File => 2,
        }
    }

    pub fn order_rank(&self) -> (r: u8)
        ensures
            r as int == self.rank(),
    {
        match self {
            FolderEntryType::Parent => 0,
            FolderEntryType::Folder => 1,
            FolderEntryType::File => 2,
        }
    }
}

#[derive(Debug)]
pub struct FolderEntry {
    pub title: String,
    /// Byte size; `None` while unknown.
    pub size: Option<u64>,
    pub kind: FolderEntryType,
    /// The entry's own content is fully known.
    pub is_loaded: bool,
}

/// What a row holds, with the title as characters.
pub struct EntryView {
    pub title: Seq<char>,
    pub size: Option<u64>,
    pub kind: FolderEntryType,
    pub is_loaded: bool,
}

impl View for FolderEntry {
    type V = EntryView;

    open spec fn view(&self) -> EntryView {
        EntryView { title: self.title@, size: self.size, kind: self.kind, is_loaded: self.is_loaded }
    }
}

impl Clone for FolderEntry {
    fn clone(&self) -> (r: Self)
        ensures
            r == *self,
    {
        FolderEntry {
            title: self.title.clone(),
            size: self.size,
            kind: self.kind,
            is_loaded: self.is_loaded,
        }
    }
}

impl EntryView {
    /// The row with `addition` added to its size (unknown counts as zero),
    /// saturating at `u64::MAX`.
    pub open spec fn incremented(self, addition: u64) -> EntryView {
        let sum = match self.size {
            Some(s) => s as int + addition as int,
            None => addition as int,
        };
        EntryView {
            size: Some((if sum > u64::MAX as int { u64::MAX as int } else { sum }) as u64),
            ..self
        }
    }
}

impl EntryView {
    /// The row with `d` taken from its size, saturating at zero; an unknown
    /// size stays unknown.
    pub open spec fn decremented(self, d: u64) -> EntryView {
        EntryView {
            size: match self.size {
                Some(s) => Some(if s >= d { (s - d) as u64 } else { 0 }),
                None => None,
            },
            ..self
        }
    }
}

/// Lexicographic order on titles, character by character by code point
/// (the order of `str`'s `Ord`).
pub open spec fn title_le(a: Seq<char>, b: Seq<char>) -> bool
    decreases a.len(),
{
    if a.len() == 0 {
        true
    } else if b.len() == 0 {
        false
    } else if (a[0] as u32) != (b[0] as u32) {
        (a[0] as u32) < (b[0] as u32)
    } else {
        title_le(a.drop_first(), b.drop_first())
    }
}

pub proof fn lemma_title_le_total(a: Seq<char>, b: Seq<char>)
    ensures
        title_le(a, b) || title_le(b, a),
    decreases a.len(),
{
    if a.len() > 0 && b.len() > 0 && (a[0] as u32) == (b[0] as u32) {
        lemma_title_le_total(a.drop_first(), b.drop_first());
    }
}

pub proof fn lemma_title_le_transitive(a: Seq<char>, b: Seq<char>, c: Seq<char>)
    requires
        title_le(a, b),
        title_le(b, c),
    ensures
        title_le(a, c),
    decreases a.len(),
{
    if a.len() > 0 && b.len() > 0 && c.len() > 0 && (a[0] as u32) == (b[0] as u32) && (b[0] as u32) == (c[0] as u32) {
        lemma_title_le_transitive(a.drop_first(), b.drop_first(), c.drop_first());
    }
}

/// Title order of entries: by kind, then by title.
pub open spec fn le_by_title(a: FolderEntry, b: FolderEntry) -> bool {
    a.kind.rank() < b.kind.rank() || (a.kind.rank() == b.kind.rank() && title_le(
        a.title@,
        b.title@,
    ))
}

/// Where an entry falls when sorted by size: parent row, known size, unknown size.
pub open spec fn size_group(e: FolderEntry) -> int {
    if e.kind == FolderEntryType::Parent {
        0
    } else if e.size is Some {
        1
    } else {
        2
    }
}

/// Size order of entries: parent row first, then known sizes from largest
/// to smallest, then unknown sizes.
pub open spec fn le_by_size_desc(a: FolderEntry, b: FolderEntry) -> bool {
    size_group(a) < size_group(b) || (size_group(a) == size_group(b) && (size_group(a) != 1
        || a.size.unwrap() >= b.size.unwrap()))
}

/// Ascending size order of entries, unknown sizes last.
pub open spec fn le_by_size_asc(a: FolderEntry, b: FolderEntry) -> bool {
    match (a.size, b.size) {
        (Some(x), Some(y)) => x <= y,
        (Some(_), None) => true,
        (None, Some(_)) => false,
        (None, None) => true,
    }
}

pub proof fn lemma_le_by_title_total_preorder()
    ensures
        crate::ordering::total_preorder(|a: FolderEntry, b: FolderEntry| le_by_title(a, b)),
{
    assert forall|a: FolderEntry, b: FolderEntry| le_by_title(a, b) || le_by_title(b, a) by {
        lemma_title_le_total(a.title@, b.title@);
    }
    assert forall|a: FolderEntry, b: FolderEntry, c: FolderEntry|
        le_by_title(a, b) && le_by_title(b, c) implies le_by_title(a, c) by {
        if a.kind.rank() == b.kind.rank() && b.kind.rank() == c.kind.rank() {
            lemma_title_le_transitive(a.title@, b.title@, c.title@);
        }
    }
}

pub proof fn lemma_le_by_size_desc_total_preorder()
    ensures
        crate::ordering::total_preorder(|a: FolderEntry, b: FolderEntry| le_by_size_desc(a, b)),
{
}

pub proof fn lemma_le_by_size_asc_total_preorder()
    ensures
        crate::ordering::total_preorder(|a: FolderEntry, b: FolderEntry| le_by_size_asc(a, b)),
{
}

/// Decides `title_le` on two strings.
pub fn title_le_exec(a: &String, b: &String) -> (r: bool)
    ensures
        r == title_le(a@, b@),
{
    let sa = a.as_str();
    let sb = b.as_str();
    let la = sa.unicode_len();
    let lb = sb.unicode_len();
    let mut i: usize = 0;
    assert(a@.skip(0) =~= a@);
    assert(b@.skip(0) =~= b@);
    while i < la && i < lb
        invariant
            la == a@.len(),
            lb == b@.len(),
            sa@ == a@,
            sb@ == b@,
            0 <= i <= la,
            i <= lb,
            title_le(a@, b@) == title_le(a@.skip(i as int), b@.skip(i as int)),
        decreases la - i,
    {
        let ca = sa.get_char(i);
        let cb = sb.get_char(i);
        assert(a@.skip(i as int)[0] == ca && b@.skip(i as int)[0] == cb);
        if (ca as u32) != (cb as u32) {
            return (ca as u32) < (cb as u32);
        }
        assert(a@.skip(i as int).drop_first() =~= a@.skip(i + 1));
        assert(b@.skip(i as int).drop_first() =~= b@.skip(i + 1));
        i = i + 1;
    }
    i == la
}

/// Decides `le_by_size_asc`.
pub fn size_asc_le(a: &FolderEntry, b: &FolderEntry) -> (r: bool)
    ensures
        r == le_by_size_asc(*a, *b),
{
    match (a.size, b.size) {
        (Some(x), Some(y)) => x <= y,
        (Some(_), None) => true,
        (None, Some(_)) => false,
        (None, None) => true,
    }
}

impl FolderEntry {
    /// Adds `addition` to the size, an unknown size counting as zero; the
    /// sum saturates at `u64::MAX`.
    pub fn increment_size(&mut self, addition: u64)
        ensures
            final(self).size == Some(
                (if old(self).size.unwrap_or(0) as int + addition as int > u64::MAX as int {
                    u64::MAX as int
                } else {
                    old(self).size.unwrap_or(0) as int + addition as int
                }) as u64,
            ),
            final(self).title == old(self).title,
            final(self).kind == old(self).kind,
            final(self).is_loaded == old(self).is_loaded,
            final(self)@ == old(self)@.incremented(addition),
    {
        match self.size {
            Some(s) => {
                self.size = Some(s.saturating_add(addition));
            },
            None => {
                self.size = Some(addition);
            },
        }
    }

    /// Sorts entries by ascending size, entries of unknown size last; stable.
    pub fn sort_by_size(entries: &mut Vec<FolderEntry>)
        ensures
            final(entries)@ == sort_by(old(entries)@, |a: FolderEntry, b: FolderEntry| le_by_size_asc(a, b)),
            sorted_by(final(entries)@, |a: FolderEntry, b: FolderEntry| le_by_size_asc(a, b)),
            final(entries)@.to_multiset() == old(entries)@.to_multiset(),
    {
        proof {
            lemma_le_by_size_asc_total_preorder();
        }
        insertion_sort(
            entries,
            size_asc_le,
            Ghost(|a: FolderEntry, b: FolderEntry| le_by_size_asc(a, b)),
        );
    }
}

} // verus!
