//! Folding traversal events into the store: each discovered entry is added
//! to its parent folder and the rows for the branch in every recorded
//! ancestor are brought up to the totals recorded below them, so arrival
//! order does not matter for sizes.

use vstd::prelude::*;
use vstd::string::StrSliceExecFns;
use crate::folder::{Folder, FolderView, fresh_folder, cap_u64, folder_row};
use crate::folder_entry::{EntryView, FolderEntry, FolderEntryType};
use crate::store::{DSHashmap, path_view, clone_path};

verus! {

/// Metadata read for a discovered entry.
#[derive(Debug, Clone, Copy, PartialEq, Eq, Structural)]
pub struct EntryState {
    pub size: u64,
}

/// One filesystem object found by a traversal.
#[derive(Debug)]
pub struct TraversalEntry {
    /// Folder that holds the object.
    pub parent_path: Vec<String>,
    pub file_name: String,
    pub is_dir: bool,
    /// Metadata, `None` when it could not be read.
    pub client_state: Option<EntryState>,
}

/// Index of the last `'.'` in `name`, or -1.
pub open spec fn last_dot(name: Seq<char>) -> int
    decreases name.len(),
{
    if name.len() == 0 {
        -1
    } else if name.last() == '.' {
        name.len() - 1
    } else {
        last_dot(name.drop_last())
    }
}

/// Extension of a file name: what follows the last dot; empty when there is
/// no dot or the last dot starts the name.
pub open spec fn extension_of(name: Seq<char>) -> Seq<char> {
    let d = last_dot(name);
    if d <= 0 {
        Seq::empty()
    } else {
        name.subrange(d + 1, name.len() as int)
    }
}

/// Extension of a file name (see `extension_of`).
pub fn extension(name: &String) -> (r: String)
    ensures
        r@ == extension_of(name@),
{
    let s = name.as_str();
    let n = s.unicode_len();
    let mut i: usize = n;
    assert(name@.subrange(0, n as int) =~= name@);
    while i > 0
        invariant
            0 <= i <= n,
            n == name@.len(),
            s@ == name@,
            last_dot(name@) == last_dot(name@.subrange(0, i as int)),
        ensures
            last_dot(name@) == i - 1,
        decreases i,
    {
        let ghost p = name@.subrange(0, i as int);
        assert(p.drop_last() =~= name@.subrange(0, i - 1));
        if s.get_char(i - 1) == '.' {
            assert(p.last() == '.');
            break;
        }
        i = i - 1;
        proof {
            if i == 0 {
                assert(name@.subrange(0, 0) =~= Seq::<char>::empty());
            }
        }
    }
    if i <= 1 {
        return String::new();
    }
    s.substring_char(i, n).to_owned()
}

/// Byte size an entry adds to its ancestors: file metadata size, zero for
/// folders and unreadable metadata.
pub open spec fn event_size(e: TraversalEntry) -> u64 {
    if e.is_dir {
        0
    } else {
        match e.client_state {
            Some(st) => st.size,
            None => 0,
        }
    }
}

/// Extension an entry is counted under; folders have none.
pub open spec fn event_ext(e: TraversalEntry) -> Seq<char> {
    if e.is_dir {
        Seq::empty()
    } else {
        extension_of(e.file_name@)
    }
}

/// Size a folder row shows for the folder at `k`: the total recorded
/// there, capped at `u64::MAX`, or zero without a record.
pub open spec fn recorded_size(m: Map<Seq<Seq<char>>, FolderView>, k: Seq<Seq<char>>) -> u64 {
    if m.contains_key(k) {
        cap_u64(m[k].size()) as u64
    } else {
        0
    }
}

/// The row an entry becomes in its parent folder, showing size `v`.
pub open spec fn event_row(e: TraversalEntry, v: u64) -> EntryView {
    EntryView {
        title: e.file_name@,
        size: Some(v),
        kind: if e.is_dir {
            FolderEntryType::Folder
        } else {
            FolderEntryType::File
        },
        is_loaded: true,
    }
}

/// Walks up from the folder at `path` through every recorded ancestor,
/// stopping at the first without a record: each ancestor's row for the
/// folder just below it comes to show that folder's recorded total, and
/// `size` is counted under extension `ext` in each ancestor.
pub open spec fn refresh(
    m: Map<Seq<Seq<char>>, FolderView>,
    path: Seq<Seq<char>>,
    ext: Seq<char>,
    size: u64,
) -> Map<Seq<Seq<char>>, FolderView>
    decreases path.len(),
{
    if path.len() == 0 {
        m
    } else {
        let up = path.drop_last();
        if !m.contains_key(up) {
            m
        } else {
            refresh(
                m.insert(up, m[up].with_child_set(path.last(), recorded_size(m, path), ext, size)),
                up,
                ext,
                size,
            )
        }
    }
}

/// The store with a folder's own record created when the entry is a folder
/// that has none.
pub open spec fn fold_stage_one(m: Map<Seq<Seq<char>>, FolderView>, e: TraversalEntry) -> Map<
    Seq<Seq<char>>,
    FolderView,
> {
    let child = path_view(e.parent_path).push(e.file_name@);
    if e.is_dir && !m.contains_key(child) {
        m.insert(child, fresh_folder(e.file_name@))
    } else {
        m
    }
}

/// Size the entry's row shows: a file's metadata size, or a folder's total
/// recorded so far (zero for a folder first seen now).
pub open spec fn row_size(m: Map<Seq<Seq<char>>, FolderView>, e: TraversalEntry) -> u64 {
    if e.is_dir {
        recorded_size(fold_stage_one(m, e), path_view(e.parent_path).push(e.file_name@))
    } else {
        event_size(e)
    }
}

/// The store after one discovered entry is folded in: a folder gets a record
/// of its own if it has none; the entry's row is appended to its parent's
/// record (created if missing, unless the parent is the root), a folder's
/// row showing the total already recorded for it; then every recorded
/// ancestor's row for the branch is brought up to date (see `refresh`).
pub open spec fn fold_entry_spec(m: Map<Seq<Seq<char>>, FolderView>, e: TraversalEntry) -> Map<
    Seq<Seq<char>>,
    FolderView,
> {
    let parent = path_view(e.parent_path);
    let size = event_size(e);
    let ext = event_ext(e);
    let m1 = fold_stage_one(m, e);
    let row = event_row(e, row_size(m, e));
    let m2 = if m1.contains_key(parent) {
        m1.insert(parent, m1[parent].with_row(row, ext, size))
    } else if parent.len() > 0 {
        m1.insert(parent, fresh_folder(parent.last()).with_row(row, ext, size))
    } else {
        m1
    };
    if parent.len() > 0 {
        refresh(m2, parent, ext, size)
    } else {
        m2
    }
}

/// Brings the rows for `start` and its ancestors up to date, counting
/// `size` under `ext` on the way.
fn refresh_up(store: &mut DSHashmap, start: Vec<String>, ext: &String, size: u64)
    requires
        old(store).wf(),
    ensures
        final(store).wf(),
        final(store)@ == refresh(old(store)@, path_view(start), ext@, size),
        final(store).current_path == old(store).current_path,
{
    let ghost goal = refresh(store@, path_view(start), ext@, size);
    let mut path = start;
    while path.len() > 0
        invariant
            goal == refresh(old(store)@, path_view(start), ext@, size),
            store.wf(),
            store.current_path == old(store).current_path,
            goal == refresh(store@, path_view(path), ext@, size),
        decreases path@.len(),
    {
        let ghost pv = path_view(path);
        let v = match store.get_entry_size(&path) {
            Some(v) => v,
            None => 0,
        };
        assert(v == recorded_size(store@, pv));
        let last = path[path.len() - 1].clone();
        assert(last@ == pv.last());
        path.pop();
        assert(path_view(path) =~= pv.drop_last());
        match store.find(&path) {
            None => {
                assert(refresh(store@, pv, ext@, size) == store@);
                return;
            },
            Some(i) => {
                store.set_child_at(i, &last, v, ext, size);
            },
        }
    }
    assert(path_view(path).len() == 0);
}

/// Folds one discovered entry into the store (see `fold_entry_spec`).
pub fn fold_entry(store: &mut DSHashmap, e: &TraversalEntry)
    requires
        old(store).wf(),
    ensures
        final(store).wf(),
        final(store)@ == fold_entry_spec(old(store)@, *e),
        final(store).current_path == old(store).current_path,
{
    let ghost m0 = store@;
    let size: u64 = if e.is_dir {
        0
    } else {
        match e.client_state {
            Some(st) => st.size,
            None => 0,
        }
    };
    let ext = if e.is_dir {
        String::new()
    } else {
        extension(&e.file_name)
    };
    let parent = &e.parent_path;
    let mut child = clone_path(parent);
    child.push(e.file_name.clone());
    assert(path_view(child) =~= path_view(*parent).push(e.file_name@));
    if e.is_dir && !store.has_path(&child) {
        store.set_folder(&child, Folder::new(e.file_name.clone()));
    }
    assert(store@ == fold_stage_one(m0, *e));
    let shown: u64 = if e.is_dir {
        match store.get_entry_size(&child) {
            Some(v) => v,
            None => 0,
        }
    } else {
        size
    };
    let row = FolderEntry {
        title: e.file_name.clone(),
        size: Some(shown),
        kind: if e.is_dir {
            FolderEntryType::Folder
        } else {
            FolderEntryType::File
        },
        is_loaded: true,
    };
    assert(row@ == event_row(*e, row_size(m0, *e)));
    match store.find(parent) {
        Some(i) => {
            store.add_row_at(i, row, &ext, size);
        },
        None => {
            if parent.len() > 0 {
                let mut f = Folder::new(parent[parent.len() - 1].clone());
                f.add_row(row, &ext, size);
                store.set_folder(parent, f);
            }
        },
    }
    if parent.len() > 0 {
        refresh_up(store, clone_path(parent), &ext, size);
    }
}

} // verus!

verus! {

/// `k` is a proper ancestor of `p`.
pub open spec fn strict_prefix(k: Seq<Seq<char>>, p: Seq<Seq<char>>) -> bool {
    k.len() < p.len() && k == p.subrange(0, k.len() as int)
}

/// Refreshing changes proper ancestors of `path` only.
pub proof fn lemma_refresh_frame(
    m: Map<Seq<Seq<char>>, FolderView>,
    path: Seq<Seq<char>>,
    ext: Seq<char>,
    size: u64,
    k: Seq<Seq<char>>,
)
    requires
        !strict_prefix(k, path),
    ensures
        refresh(m, path, ext, size).contains_key(k) == m.contains_key(k),
        m.contains_key(k) ==> refresh(m, path, ext, size)[k] == m[k],
    decreases path.len(),
{
    if path.len() > 0 {
        let up = path.drop_last();
        if m.contains_key(up) {
            assert(up =~= path.subrange(0, up.len() as int));
            assert(k != up);
            if strict_prefix(k, up) {
                assert(up.subrange(0, k.len() as int) =~= path.subrange(0, k.len() as int));
            }
            lemma_refresh_frame(
                m.insert(up, m[up].with_child_set(path.last(), recorded_size(m, path), ext, size)),
                up,
                ext,
                size,
                k,
            );
        }
    }
}

/// Folding the entry of a folder that has no record yet leaves it with a
/// record of its own holding only the parent-directory row, of total size
/// zero: an empty folder is recorded even though no child ever names it.
pub proof fn lemma_empty_folder_recorded(m: Map<Seq<Seq<char>>, FolderView>, e: TraversalEntry)
    requires
        e.is_dir,
        !m.contains_key(path_view(e.parent_path).push(e.file_name@)),
    ensures
        ({
            let child = path_view(e.parent_path).push(e.file_name@);
            let r = fold_entry_spec(m, e);
            &&& r.contains_key(child)
            &&& r[child] == crate::folder::fresh_folder(e.file_name@)
            &&& r[child].entries == seq![crate::folder::parent_row()]
            &&& r[child].size() == 0
        }),
{
    let parent = path_view(e.parent_path);
    let child = parent.push(e.file_name@);
    assert(child != parent) by {
        assert(child.len() != parent.len());
    }
    let m1 = fold_stage_one(m, e);
    let row = event_row(e, row_size(m, e));
    let m2 = if m1.contains_key(parent) {
        m1.insert(parent, m1[parent].with_row(row, event_ext(e), event_size(e)))
    } else if parent.len() > 0 {
        m1.insert(parent, fresh_folder(parent.last()).with_row(row, event_ext(e), event_size(e)))
    } else {
        m1
    };
    assert(m2.contains_key(child) && m2[child] == fresh_folder(e.file_name@));
    if parent.len() > 0 {
        lemma_refresh_frame(m2, parent, event_ext(e), event_size(e), child);
    }
    let rows = seq![crate::folder::parent_row()];
    assert(rows.drop_last() =~= Seq::<EntryView>::empty());
    assert(rows.last().size is None);
    assert(crate::folder::rows_total(rows.drop_last()) == 0);
    assert(crate::folder::rows_total(rows) == 0);
}

/// Where the folder at `d` and its parent are both recorded and the parent
/// has a row for it, that row shows `d`'s recorded total.
pub open spec fn row_matches(m: Map<Seq<Seq<char>>, FolderView>, d: Seq<Seq<char>>) -> bool {
    let p = d.drop_last();
    (d.len() > 0 && m.contains_key(d) && m.contains_key(p) && folder_row(m[p].entries, d.last()) >= 0)
        ==> m[p].entries[folder_row(m[p].entries, d.last())].size == Some(recorded_size(m, d))
}

/// Every folder row of a recorded folder shows the total recorded for it.
pub open spec fn rows_consistent(m: Map<Seq<Seq<char>>, FolderView>) -> bool {
    forall|d: Seq<Seq<char>>| #[trigger] row_matches(m, d)
}

/// Rows are consistent except perhaps the one for the folder at `x`.
pub open spec fn consistent_except(m: Map<Seq<Seq<char>>, FolderView>, x: Seq<Seq<char>>) -> bool {
    forall|d: Seq<Seq<char>>| d != x ==> #[trigger] row_matches(m, d)
}

proof fn lemma_same_parent_same_last(a: Seq<Seq<char>>, b: Seq<Seq<char>>)
    requires
        a.len() > 0,
        b.len() > 0,
        a.drop_last() == b.drop_last(),
        a.last() == b.last(),
    ensures
        a == b,
{
    assert(a =~= a.drop_last().push(a.last()));
    assert(b =~= b.drop_last().push(b.last()));
}

proof fn lemma_fresh_has_no_folder_row(title: Seq<char>, t: Seq<char>)
    ensures
        folder_row(fresh_folder(title).entries, t) == -1,
{
    let e = fresh_folder(title).entries;
    assert(e.drop_last() =~= Seq::<EntryView>::empty());
    assert(folder_row(e.drop_last(), t) == -1);
}

/// Refreshing from a folder whose row alone may be stale leaves every row
/// consistent.
pub proof fn lemma_refresh_consistent(
    m: Map<Seq<Seq<char>>, FolderView>,
    path: Seq<Seq<char>>,
    ext: Seq<char>,
    size: u64,
)
    requires
        consistent_except(m, path),
    ensures
        rows_consistent(refresh(m, path, ext, size)),
    decreases path.len(),
{
    if path.len() == 0 || !m.contains_key(path.drop_last()) {
        assert forall|d: Seq<Seq<char>>| #[trigger] row_matches(m, d) by {
            if d == path {
            }
        }
    } else {
        let up = path.drop_last();
        let f = m[up];
        let v = recorded_size(m, path);
        let f2 = f.with_child_set(path.last(), v, ext, size);
        let m2 = m.insert(up, f2);
        assert(path != up) by {
            assert(path.len() != up.len());
        }
        crate::folder::lemma_folder_row_bounds(f.entries, path.last());
        assert forall|d: Seq<Seq<char>>| d != up implies #[trigger] row_matches(m2, d) by {
            crate::folder::lemma_folder_row_bounds(f.entries, d.last());
            assert(f2.entries.len() == f.entries.len());
            assert forall|i: int| 0 <= i < f2.entries.len() implies (#[trigger] f2.entries[i]).title
                == f.entries[i].title && f2.entries[i].kind == f.entries[i].kind by {}
            crate::folder::lemma_folder_row_shape(f2.entries, f.entries, d.last());
            assert(recorded_size(m2, d) == recorded_size(m, d));
            if d.len() > 0 && d.drop_last() == up && d != path {
                if d.last() == path.last() {
                    lemma_same_parent_same_last(d, path);
                }
                assert(row_matches(m, d));
            } else if d.len() > 0 && d.drop_last() != up {
                assert(row_matches(m, d));
            }
        }
        lemma_refresh_consistent(m2, up, ext, size);
    }
}

/// Folding any entry into a store whose folder rows all show their
/// folders' recorded totals keeps it so: whatever order entries arrive in,
/// a folder's row always shows the total recorded under its path, also when
/// the folder's contents were folded before its own entry.
pub proof fn lemma_fold_keeps_rows_consistent(m: Map<Seq<Seq<char>>, FolderView>, e: TraversalEntry)
    requires
        rows_consistent(m),
    ensures
        rows_consistent(fold_entry_spec(m, e)),
{
    let parent = path_view(e.parent_path);
    let c = parent.push(e.file_name@);
    let size = event_size(e);
    let ext = event_ext(e);
    let m1 = fold_stage_one(m, e);
    let row = event_row(e, row_size(m, e));
    let base = if m1.contains_key(parent) { m1[parent] } else { fresh_folder(parent.last()) };
    let m2 = if m1.contains_key(parent) {
        m1.insert(parent, m1[parent].with_row(row, ext, size))
    } else if parent.len() > 0 {
        m1.insert(parent, fresh_folder(parent.last()).with_row(row, ext, size))
    } else {
        m1
    };
    assert(c != parent) by {
        assert(c.len() != parent.len());
    }
    assert(c.drop_last() =~= parent);
    let created = e.is_dir && !m.contains_key(c);
    assert forall|d: Seq<Seq<char>>| d != parent implies #[trigger] row_matches(m2, d) by {
        let q = d.drop_last();
        assert(row_matches(m, d));
        if d.len() > 0 && m2.contains_key(d) && m2.contains_key(q) {
            assert(m2[d] == m1[d]);
            if q == parent {
                let ents = base.entries.push(row);
                assert(m2[q].entries == ents);
                assert(ents.drop_last() =~= base.entries);
                if row.title == d.last() && row.kind == FolderEntryType::Folder {
                    lemma_same_parent_same_last(d, c);
                    assert(folder_row(ents, d.last()) == base.entries.len());
                } else {
                    assert(folder_row(ents, d.last()) == folder_row(base.entries, d.last()));
                    crate::folder::lemma_folder_row_bounds(base.entries, d.last());
                    if !m1.contains_key(parent) {
                        lemma_fresh_has_no_folder_row(parent.last(), d.last());
                    } else {
                        assert(m1[parent] == m[parent]);
                        if d == c {
                            assert(!e.is_dir);
                        }
                        assert(recorded_size(m1, d) == recorded_size(m, d));
                    }
                }
            } else if q == c && created {
                assert(m2[q] == fresh_folder(e.file_name@));
                lemma_fresh_has_no_folder_row(e.file_name@, d.last());
            } else {
                assert(m2[q] == m[q]);
                if d == c {
                    assert(q == parent);
                }
                assert(recorded_size(m1, d) == recorded_size(m, d));
            }
        }
    }
    if parent.len() > 0 {
        lemma_refresh_consistent(m2, parent, ext, size);
    } else {
        assert forall|d: Seq<Seq<char>>| #[trigger] row_matches(m2, d) by {
            if d == parent {
            }
        }
    }
}

/// The store after folding `es` in order.
pub open spec fn fold_all(m: Map<Seq<Seq<char>>, FolderView>, es: Seq<TraversalEntry>) -> Map<
    Seq<Seq<char>>,
    FolderView,
>
    decreases es.len(),
{
    if es.len() == 0 {
        m
    } else {
        fold_entry_spec(fold_all(m, es.drop_last()), es.last())
    }
}

/// Starting from an empty store, after any entries folded in any order,
/// each folder row of a recorded folder shows the total recorded for that
/// folder; so a folder's size is the sum of its files and of its recorded
/// sub-folders' totals.
pub proof fn lemma_any_order_rows_consistent(es: Seq<TraversalEntry>)
    ensures
        rows_consistent(fold_all(Map::empty(), es)),
    decreases es.len(),
{
    if es.len() == 0 {
        assert forall|d: Seq<Seq<char>>| #[trigger] row_matches(Map::<Seq<Seq<char>>, FolderView>::empty(), d) by {}
    } else {
        lemma_any_order_rows_consistent(es.drop_last());
        lemma_fold_keeps_rows_consistent(fold_all(Map::empty(), es.drop_last()), es.last());
    }
}


/// `k` is `p` or one of its ancestors.
pub open spec fn prefix_of(k: Seq<Seq<char>>, p: Seq<Seq<char>>) -> bool {
    k.len() <= p.len() && k == p.subrange(0, k.len() as int)
}

/// The entry of the folder at `d` itself.
pub open spec fn names(e: TraversalEntry, d: Seq<Seq<char>>) -> bool {
    e.is_dir && path_view(e.parent_path).push(e.file_name@) == d
}

/// Folding an entry that neither is `d`'s own nor lies inside `d` leaves
/// `d`'s record (or its absence) as it was.
proof fn lemma_fold_frame(m: Map<Seq<Seq<char>>, FolderView>, e: TraversalEntry, d: Seq<Seq<char>>)
    requires
        !names(e, d) || m.contains_key(d),
        !prefix_of(d, path_view(e.parent_path)),
    ensures
        fold_entry_spec(m, e).contains_key(d) == m.contains_key(d),
        m.contains_key(d) ==> fold_entry_spec(m, e)[d] == m[d],
{
    let parent = path_view(e.parent_path);
    let c = parent.push(e.file_name@);
    let m1 = fold_stage_one(m, e);
    let row = event_row(e, row_size(m, e));
    let m2 = if m1.contains_key(parent) {
        m1.insert(parent, m1[parent].with_row(row, event_ext(e), event_size(e)))
    } else if parent.len() > 0 {
        m1.insert(parent, fresh_folder(parent.last()).with_row(row, event_ext(e), event_size(e)))
    } else {
        m1
    };
    assert(d != parent) by {
        if d == parent {
            assert(parent.subrange(0, parent.len() as int) =~= parent);
        }
    }
    assert(m1.contains_key(d) == m.contains_key(d));
    assert(m2.contains_key(d) == m.contains_key(d));
    if parent.len() > 0 {
        lemma_refresh_frame(m2, parent, event_ext(e), event_size(e), d);
    }
}

/// A folder with no entry inside it: after its own entry and any others,
/// in any order and starting from an empty store, its record holds only
/// the parent-directory row, totals zero, and the row for it in its
/// recorded parent shows zero.
pub proof fn lemma_empty_folder_over_run(es: Seq<TraversalEntry>, d: Seq<Seq<char>>)
    requires
        exists|i: int| 0 <= i < es.len() && names(#[trigger] es[i], d),
        forall|i: int| 0 <= i < es.len() ==> !prefix_of(d, path_view((#[trigger] es[i]).parent_path)),
    ensures
        ({
            let r = fold_all(Map::empty(), es);
            &&& r.contains_key(d)
            &&& r[d] == fresh_folder(d.last())
            &&& r[d].size() == 0
            &&& row_matches(r, d)
            &&& recorded_size(r, d) == 0
        }),
{
    lemma_empty_folder_run(es, d);
    lemma_any_order_rows_consistent(es);
    let rows = seq![crate::folder::parent_row()];
    assert(rows.drop_last() =~= Seq::<EntryView>::empty());
    assert(crate::folder::rows_total(rows.drop_last()) == 0);
    assert(crate::folder::rows_total(rows) == 0);
    assert(fresh_folder(d.last()).entries == rows);
}

proof fn lemma_empty_folder_run(es: Seq<TraversalEntry>, d: Seq<Seq<char>>)
    requires
        forall|i: int| 0 <= i < es.len() ==> !prefix_of(d, path_view((#[trigger] es[i]).parent_path)),
    ensures
        (exists|i: int| 0 <= i < es.len() && names(#[trigger] es[i], d)) ==> fold_all(Map::empty(), es).contains_key(d)
            && fold_all(Map::empty(), es)[d] == fresh_folder(d.last()),
        !(exists|i: int| 0 <= i < es.len() && names(#[trigger] es[i], d)) ==> !fold_all(Map::empty(), es).contains_key(d),
    decreases es.len(),
{
    if es.len() > 0 {
        let pre = es.drop_last();
        let e = es.last();
        assert forall|i: int| 0 <= i < pre.len() implies !prefix_of(d, path_view((#[trigger] pre[i]).parent_path)) by {
            assert(pre[i] == es[i]);
        }
        assert(!prefix_of(d, path_view(es[es.len() - 1].parent_path)));
        lemma_empty_folder_run(pre, d);
        let m = fold_all(Map::empty(), pre);
        let had = exists|i: int| 0 <= i < pre.len() && names(#[trigger] pre[i], d);
        if had {
            let i = choose|i: int| 0 <= i < pre.len() && names(#[trigger] pre[i], d);
            assert(es[i] == pre[i]);
            lemma_fold_frame(m, e, d);
        } else if names(e, d) {
            assert(names(es[es.len() - 1], d));
            let parent = path_view(e.parent_path);
            let m1 = fold_stage_one(m, e);
            let row = event_row(e, row_size(m, e));
            let m2 = if m1.contains_key(parent) {
                m1.insert(parent, m1[parent].with_row(row, event_ext(e), event_size(e)))
            } else if parent.len() > 0 {
                m1.insert(parent, fresh_folder(parent.last()).with_row(row, event_ext(e), event_size(e)))
            } else {
                m1
            };
            assert(d != parent) by {
                assert(d.len() != parent.len());
            }
            assert(d.last() == e.file_name@);
            assert(m2.contains_key(d) && m2[d] == fresh_folder(d.last()));
            if parent.len() > 0 {
                assert(!strict_prefix(d, parent));
                lemma_refresh_frame(m2, parent, event_ext(e), event_size(e), d);
            }
        } else {
            lemma_fold_frame(m, e, d);
            assert forall|i: int| 0 <= i < es.len() implies !names(#[trigger] es[i], d) by {
                if i < pre.len() {
                    assert(es[i] == pre[i]);
                }
            }
        }
    }
}

} // verus!
