//! Reconciling one fresh, non-recursive listing of a folder with what the
//! store already knows of it.

use vstd::prelude::*;
use crate::folder::{Folder, FolderView};
use crate::folder_entry::{EntryView, FolderEntry, FolderEntryType};
use crate::store::{DSHashmap, path_view, clone_path};

verus! {

/// Some row of `s` is titled `t`.
pub open spec fn has_title(s: Seq<EntryView>, t: Seq<char>) -> bool {
    exists|k: int| 0 <= k < s.len() && (#[trigger] s[k]).title == t
}

/// `entries` with each listed non-folder row whose title is not there yet
/// appended, in listing order.
pub open spec fn merged_rows(entries: Seq<EntryView>, listed: Seq<EntryView>) -> Seq<EntryView>
    decreases listed.len(),
{
    if listed.len() == 0 {
        entries
    } else {
        let e0 = merged_rows(entries, listed.drop_last());
        let c = listed.last();
        if has_title(e0, c.title) || c.kind == FolderEntryType::Folder {
            e0
        } else {
            e0.push(c)
        }
    }
}

/// Paths under `p` of the listed folders whose title `entries` (as merged so
/// far) does not hold, in listing order.
pub open spec fn unknown_folders(p: Seq<Seq<char>>, entries: Seq<EntryView>, listed: Seq<EntryView>) -> Seq<
    Seq<Seq<char>>,
>
    decreases listed.len(),
{
    if listed.len() == 0 {
        Seq::empty()
    } else {
        let r0 = unknown_folders(p, entries, listed.drop_last());
        let c = listed.last();
        if c.kind == FolderEntryType::Folder && !has_title(merged_rows(entries, listed.drop_last()), c.title) {
            r0.push(p.push(c.title))
        } else {
            r0
        }
    }
}

/// The listed rows that are not folders, in order.
pub open spec fn non_folder_rows(listed: Seq<EntryView>) -> Seq<EntryView>
    decreases listed.len(),
{
    if listed.len() == 0 {
        listed
    } else if listed.last().kind == FolderEntryType::Folder {
        non_folder_rows(listed.drop_last())
    } else {
        non_folder_rows(listed.drop_last()).push(listed.last())
    }
}

/// Paths under `p` of all listed folders, in order.
pub open spec fn listed_folders(p: Seq<Seq<char>>, listed: Seq<EntryView>) -> Seq<Seq<Seq<char>>>
    decreases listed.len(),
{
    if listed.len() == 0 {
        Seq::empty()
    } else if listed.last().kind == FolderEntryType::Folder {
        listed_folders(p, listed.drop_last()).push(p.push(listed.last().title))
    } else {
        listed_folders(p, listed.drop_last())
    }
}

/// Views of a list of paths.
pub open spec fn paths_view(v: Seq<Vec<String>>) -> Seq<Seq<Seq<char>>> {
    v.map_values(|p: Vec<String>| path_view(p))
}

/// Whether some entry is titled `t`.
fn has_title_exec(entries: &Vec<FolderEntry>, t: &String) -> (r: bool)
    ensures
        r == has_title(entries@.map_values(|e: FolderEntry| e@), t@),
{
    let ghost v = entries@.map_values(|e: FolderEntry| e@);
    let mut i: usize = 0;
    while i < entries.len()
        invariant
            0 <= i <= entries@.len(),
            v == entries@.map_values(|e: FolderEntry| e@),
            forall|k: int| 0 <= k < i ==> (#[trigger] v[k]).title != t@,
        decreases entries@.len() - i,
    {
        if entries[i].title == *t {
            assert(v[i as int].title == t@);
            return true;
        }
        i = i + 1;
    }
    false
}

/// Reconciles the store's record of `path` with a fresh listing `listed` of
/// that folder (its rows: a parent row first, then files with their sizes
/// and folders). With a record, listed files it lacks are appended and its
/// sort cache is cleared; without one, the listing minus its folders
/// becomes the record. Returns the paths of the listed folders that still
/// need a traversal: those the record lacked, or all of them.
pub fn process_path_sync(store: &mut DSHashmap, path: &Vec<String>, listed: Folder) -> (r: Vec<Vec<String>>)
    requires
        old(store).wf(),
        listed.wf(),
        listed.entries@[0].kind == FolderEntryType::Parent,
    ensures
        final(store).wf(),
        final(store).current_path == old(store).current_path,
        old(store)@.contains_key(path_view(*path)) ==> ({
            let f = old(store)@[path_view(*path)];
            &&& final(store)@ == old(store)@.insert(
                path_view(*path),
                FolderView { entries: merged_rows(f.entries, listed@.entries), sorted_by: None, ..f },
            )
            &&& paths_view(r@) == unknown_folders(path_view(*path), f.entries, listed@.entries)
        }),
        !old(store)@.contains_key(path_view(*path)) ==> ({
            &&& final(store)@ == old(store)@.insert(
                path_view(*path),
                FolderView { entries: non_folder_rows(listed@.entries), cursor_index: 0, ..listed@ },
            )
            &&& paths_view(r@) == listed_folders(path_view(*path), listed@.entries)
        }),
{
    let ghost lv = listed@.entries;
    let ghost pv = path_view(*path);
    let mut paths_to_process: Vec<Vec<String>> = Vec::new();
    match store.find(path) {
        Some(idx) => {
            let ghost s0 = store.store@;
            proof {
                crate::store::lemma_records_lookup(s0, pv);
            }
            let (k, mut f) = store.store.remove(idx);
            assert(k == s0[idx as int].0 && f == s0[idx as int].1);
            let ghost fv = f@;
            let mut i: usize = 0;
            while i < listed.entries.len()
                invariant
                    0 <= i <= lv.len(),
                    lv == listed@.entries,
                    pv == path_view(*path),
                    f.wf(),
                    f@ == (FolderView { entries: merged_rows(fv.entries, lv.subrange(0, i as int)), ..fv }),
                    paths_view(paths_to_process@) == unknown_folders(pv, fv.entries, lv.subrange(0, i as int)),
                decreases lv.len() - i,
            {
                let ghost sub = lv.subrange(0, i as int);
                assert(lv.subrange(0, i + 1).drop_last() =~= sub);
                assert(lv.subrange(0, i + 1).last() == lv[i as int]);
                let child = &listed.entries[i];
                if !has_title_exec(&f.entries, &child.title) {
                    if child.kind == FolderEntryType::Folder {
                        let mut child_path = clone_path(path);
                        child_path.push(child.title.clone());
                        let ghost before = paths_to_process@;
                        paths_to_process.push(child_path);
                        assert(path_view(child_path) =~= pv.push(child.title@));
                        assert(paths_view(paths_to_process@) =~= paths_view(before).push(path_view(child_path)));
                    } else {
                        let ghost before = f@.entries;
                        f.entries.push(child.clone());
                        assert(f@.entries =~= before.push(child@));
                    }
                }
                i = i + 1;
            }
            assert(lv.subrange(0, lv.len() as int) =~= lv);
            f.sorted_by = None;
            store.store.insert(idx, (k, f));
            proof {
                assert(store.store@ =~= s0.update(idx as int, (k, f)));
                crate::store::lemma_put_back(s0, idx as int, (k, f));
            }
        },
        None => {
            let mut kept: Vec<FolderEntry> = Vec::new();
            let mut listed = listed;
            let ghost l0 = listed@;
            let mut i: usize = 0;
            assert(lv[0].kind == FolderEntryType::Parent);
            while i < listed.entries.len()
                invariant
                    0 <= i <= lv.len(),
                    lv == listed@.entries,
                    listed@ == l0,
                    pv == path_view(*path),
                    lv.len() > 0,
                    lv[0].kind == FolderEntryType::Parent,
                    i > 0 ==> kept@.len() > 0,
                    kept@.map_values(|e: FolderEntry| e@) == non_folder_rows(lv.subrange(0, i as int)),
                    paths_view(paths_to_process@) == listed_folders(pv, lv.subrange(0, i as int)),
                decreases lv.len() - i,
            {
                let ghost sub = lv.subrange(0, i as int);
                assert(lv.subrange(0, i + 1).drop_last() =~= sub);
                assert(lv.subrange(0, i + 1).last() == lv[i as int]);
                let child = &listed.entries[i];
                if child.kind == FolderEntryType::Folder {
                    let mut child_path = clone_path(path);
                    child_path.push(child.title.clone());
                    let ghost before = paths_to_process@;
                    paths_to_process.push(child_path);
                    assert(path_view(child_path) =~= pv.push(child.title@));
                    assert(paths_view(paths_to_process@) =~= paths_view(before).push(path_view(child_path)));
                } else {
                    let ghost before = kept@;
                    kept.push(child.clone());
                    assert(kept@.map_values(|e: FolderEntry| e@) =~= before.map_values(|e: FolderEntry| e@).push(child@));
                }
                i = i + 1;
            }
            assert(lv.subrange(0, lv.len() as int) =~= lv);
            listed.entries = kept;
            listed.cursor_index = 0;
            store.set_folder(path, listed);
        },
    }
    paths_to_process
}

} // verus!
