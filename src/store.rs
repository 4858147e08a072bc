//! Path-addressed store of folders plus the active path.

use vstd::prelude::*;
use crate::folder::{Folder, FolderView, SortBy};
use crate::folder_entry::{FolderEntry, le_by_title, le_by_size_desc};
use crate::ordering::sort_by;

verus! {

/// A path as its components, root first; the filesystem root is empty.
pub open spec fn path_view(p: Vec<String>) -> Seq<Seq<char>> {
    p@.map_values(|c: String| c@)
}

/// Map from path to folder held by a list of records; a later record wins.
pub open spec fn records_map(s: Seq<(Vec<String>, Folder)>) -> Map<Seq<Seq<char>>, FolderView>
    decreases s.len(),
{
    if s.len() == 0 {
        Map::empty()
    } else {
        records_map(s.drop_last()).insert(path_view(s.last().0), s.last().1@)
    }
}

/// No path is recorded twice.
pub open spec fn paths_unique(s: Seq<(Vec<String>, Folder)>) -> bool {
    forall|i: int, j: int|
        0 <= i < j < s.len() ==> path_view((#[trigger] s[i]).0) != path_view((#[trigger] s[j]).0)
}

pub proof fn lemma_unique_drop_last(s: Seq<(Vec<String>, Folder)>)
    requires
        paths_unique(s),
        s.len() > 0,
    ensures
        paths_unique(s.drop_last()),
        forall|i: int| 0 <= i < s.len() - 1 ==> path_view((#[trigger] s.drop_last()[i]).0) != path_view(s.last().0),
{
    assert forall|i: int| 0 <= i < s.len() - 1 implies path_view((#[trigger] s.drop_last()[i]).0) != path_view(s.last().0) by {
        assert(s.drop_last()[i] == s[i]);
        assert(s.last() == s[s.len() - 1]);
    }
    assert forall|i: int, j: int| 0 <= i < j < s.drop_last().len() implies
        path_view((#[trigger] s.drop_last()[i]).0) != path_view((#[trigger] s.drop_last()[j]).0) by {
        assert(s.drop_last()[i] == s[i] && s.drop_last()[j] == s[j]);
    }
}

/// A path is in the map exactly when some record holds it.
pub proof fn lemma_records_lookup(s: Seq<(Vec<String>, Folder)>, k: Seq<Seq<char>>)
    requires
        paths_unique(s),
    ensures
        records_map(s).contains_key(k) <==> exists|i: int| 0 <= i < s.len() && path_view((#[trigger] s[i]).0) == k,
        forall|i: int| 0 <= i < s.len() && path_view((#[trigger] s[i]).0) == k ==> records_map(s)[k] == s[i].1@,
        records_map(s).dom().finite(),
        records_map(s).dom().len() == s.len(),
    decreases s.len(),
{
    if s.len() > 0 {
        let d = s.drop_last();
        lemma_unique_drop_last(s);
        lemma_records_lookup(d, k);
        lemma_records_lookup(d, path_view(s.last().0));
        assert(s.last() == s[s.len() - 1]);
        if records_map(s).contains_key(k) && path_view(s.last().0) != k {
            let i = choose|i: int| 0 <= i < d.len() && path_view((#[trigger] d[i]).0) == k;
            assert(s[i] == d[i]);
        }
        assert forall|i: int| 0 <= i < s.len() && path_view((#[trigger] s[i]).0) == k implies records_map(s)[k] == s[i].1@ by {
            if i < s.len() - 1 {
                assert(s[i] == d[i]);
            }
        }
        if exists|i: int| 0 <= i < s.len() && path_view((#[trigger] s[i]).0) == k {
            let i = choose|i: int| 0 <= i < s.len() && path_view((#[trigger] s[i]).0) == k;
            if i < s.len() - 1 {
                assert(d[i] == s[i]);
            }
        }
        if records_map(d).contains_key(path_view(s.last().0)) {
            let i = choose|i: int| 0 <= i < d.len() && path_view((#[trigger] d[i]).0) == path_view(s.last().0);
            assert(false);
        }
    }
}

/// Replacing a record by one for the same path updates that path only.
pub proof fn lemma_records_update(s: Seq<(Vec<String>, Folder)>, i: int, r: (Vec<String>, Folder))
    requires
        paths_unique(s),
        0 <= i < s.len(),
        path_view(r.0) == path_view(s[i].0),
    ensures
        paths_unique(s.update(i, r)),
        records_map(s.update(i, r)) == records_map(s).insert(path_view(r.0), r.1@),
    decreases s.len(),
{
    let u = s.update(i, r);
    assert forall|a: int, b: int| 0 <= a < b < u.len() implies
        path_view((#[trigger] u[a]).0) != path_view((#[trigger] u[b]).0) by {
        assert(path_view(u[a].0) == path_view(s[a].0));
        assert(path_view(u[b].0) == path_view(s[b].0));
    }
    let d = s.drop_last();
    lemma_unique_drop_last(s);
    if i == s.len() - 1 {
        assert(u.drop_last() =~= d);
        assert(records_map(u) =~= records_map(s).insert(path_view(r.0), r.1@));
    } else {
        assert(u.drop_last() =~= d.update(i, r));
        assert(d[i] == s[i]);
        lemma_records_update(d, i, r);
        assert(u.last() == s.last());
        assert(path_view(s.last().0) != path_view(r.0));
        assert(records_map(u) =~= records_map(s).insert(path_view(r.0), r.1@));
    }
}

/// Removing the record of a path removes that path only.
pub proof fn lemma_records_remove(s: Seq<(Vec<String>, Folder)>, i: int)
    requires
        paths_unique(s),
        0 <= i < s.len(),
    ensures
        paths_unique(s.remove(i)),
        records_map(s.remove(i)) == records_map(s).remove(path_view(s[i].0)),
    decreases s.len(),
{
    let u = s.remove(i);
    let k = path_view(s[i].0);
    assert forall|a: int, b: int| 0 <= a < b < u.len() implies
        path_view((#[trigger] u[a]).0) != path_view((#[trigger] u[b]).0) by {
        let sa = if a < i { a } else { a + 1 };
        let sb = if b < i { b } else { b + 1 };
        assert(u[a] == s[sa] && u[b] == s[sb]);
    }
    let d = s.drop_last();
    lemma_unique_drop_last(s);
    if i == s.len() - 1 {
        assert(u =~= d);
        lemma_records_lookup(d, k);
        if records_map(d).contains_key(k) {
            let j = choose|j: int| 0 <= j < d.len() && path_view((#[trigger] d[j]).0) == k;
            assert(false);
        }
        assert(records_map(u) =~= records_map(s).remove(k));
    } else {
        assert(u.drop_last() =~= d.remove(i));
        assert(u.last() == s.last());
        assert(d[i] == s[i]);
        lemma_records_remove(d, i);
        assert(path_view(s.last().0) != k);
        assert(records_map(u) =~= records_map(s).remove(k));
    }
}

/// Putting a well-formed folder back under the path it was taken from
/// keeps the records well formed and updates that path only.
pub proof fn lemma_put_back(s: Seq<(Vec<String>, Folder)>, i: int, r: (Vec<String>, Folder))
    requires
        paths_unique(s),
        forall|j: int| 0 <= j < s.len() ==> (#[trigger] s[j]).1.wf(),
        0 <= i < s.len(),
        r.0 == s[i].0,
        r.1.wf(),
    ensures
        paths_unique(s.update(i, r)),
        forall|j: int| 0 <= j < s.len() ==> (#[trigger] s.update(i, r)[j]).1.wf(),
        records_map(s.update(i, r)) == records_map(s).insert(path_view(r.0), r.1@),
{
    lemma_records_update(s, i, r);
    assert forall|j: int| 0 <= j < s.len() implies (#[trigger] s.update(i, r)[j]).1.wf() by {
        if j != i {
            assert(s.update(i, r)[j] == s[j]);
        }
    }
}

/// Equal components give equal paths.
pub fn same_path(a: &Vec<String>, b: &Vec<String>) -> (r: bool)
    ensures
        r == (path_view(*a) == path_view(*b)),
{
    if a.len() != b.len() {
        assert(path_view(*a).len() != path_view(*b).len());
        return false;
    }
    let mut i: usize = 0;
    while i < a.len()
        invariant
            a@.len() == b@.len(),
            0 <= i <= a@.len(),
            forall|k: int| 0 <= k < i ==> (#[trigger] a@[k])@ == b@[k]@,
        decreases a@.len() - i,
    {
        if a[i] != b[i] {
            assert(path_view(*a)[i as int] != path_view(*b)[i as int]);
            return false;
        }
        i = i + 1;
    }
    assert(path_view(*a) =~= path_view(*b));
    true
}

/// A copy of a path.
pub fn clone_path(p: &Vec<String>) -> (r: Vec<String>)
    ensures
        r@ == p@,
{
    let r = p.clone();
    assert(r@ =~= p@);
    r
}

/// Store of folders keyed by path, with the active path.
#[derive(Debug)]
pub struct DSHashmap {
    /// Active path.
    pub current_path: Vec<String>,
    /// One record per known path.
    pub store: Vec<(Vec<String>, Folder)>,
}

impl View for DSHashmap {
    type V = Map<Seq<Seq<char>>, FolderView>;

    open spec fn view(&self) -> Map<Seq<Seq<char>>, FolderView> {
        records_map(self.store@)
    }
}

impl DSHashmap {
    /// Paths are recorded once each and every folder is well formed.
    pub open spec fn wf(&self) -> bool {
        &&& paths_unique(self.store@)
        &&& forall|i: int| 0 <= i < self.store@.len() ==> (#[trigger] self.store@[i]).1.wf()
    }

    /// The active path as components.
    pub open spec fn current(&self) -> Seq<Seq<char>> {
        path_view(self.current_path)
    }

    /// An empty store whose active path is the root.
    pub fn new() -> (r: DSHashmap)
        ensures
            r.wf(),
            r@ == Map::<Seq<Seq<char>>, FolderView>::empty(),
            r.current().len() == 0,
    {
        let r = DSHashmap { current_path: Vec::new(), store: Vec::new() };
        assert(r.current() =~= Seq::<Seq<char>>::empty());
        r
    }

    /// Index of the record for `path`, if any.
    pub fn find(&self, path: &Vec<String>) -> (r: Option<usize>)
        requires
            self.wf(),
        ensures
            match r {
                Some(i) => i < self.store@.len() && path_view(self.store@[i as int].0) == path_view(*path),
                None => !self@.contains_key(path_view(*path)),
            },
            r is Some <==> self@.contains_key(path_view(*path)),
    {
        proof {
            lemma_records_lookup(self.store@, path_view(*path));
        }
        let mut i: usize = 0;
        while i < self.store.len()
            invariant
                0 <= i <= self.store@.len(),
                self.wf(),
                forall|k: int| 0 <= k < i ==> path_view((#[trigger] self.store@[k]).0) != path_view(*path),
            decreases self.store@.len() - i,
        {
            if same_path(&self.store[i].0, path) {
                proof {
                    lemma_records_lookup(self.store@, path_view(*path));
                    assert(0 <= i < self.store@.len() && path_view(self.store@[i as int].0) == path_view(*path));
                }
                return Some(i);
            }
            i = i + 1;
        }
        None
    }

    /// The active path.
    pub fn get_current_path(&self) -> (r: &Vec<String>)
        ensures
            *r == self.current_path,
    {
        &self.current_path
    }

    /// Makes `path` the active path.
    pub fn set_current_path(&mut self, path: &Vec<String>)
        ensures
            final(self).current() == path_view(*path),
            final(self).store == old(self).store,
    {
        self.current_path = clone_path(path);
    }

    /// Whether `path` has a folder.
    pub fn has_path(&self, path: &Vec<String>) -> (r: bool)
        requires
            self.wf(),
        ensures
            r == self@.contains_key(path_view(*path)),
    {
        self.find(path).is_some()
    }

    /// The folder of `path`, if any.
    pub fn get_folder(&self, path: &Vec<String>) -> (r: Option<&Folder>)
        requires
            self.wf(),
        ensures
            r is Some <==> self@.contains_key(path_view(*path)),
            r is Some ==> r.unwrap()@ == self@[path_view(*path)] && r.unwrap().wf(),
    {
        proof {
            lemma_records_lookup(self.store@, path_view(*path));
        }
        match self.find(path) {
            Some(i) => Some(&self.store[i].1),
            None => None,
        }
    }

    /// The folder of the active path, if any.
    pub fn get_current_folder(&self) -> (r: Option<&Folder>)
        requires
            self.wf(),
        ensures
            r is Some <==> self@.contains_key(self.current()),
            r is Some ==> r.unwrap()@ == self@[self.current()] && r.unwrap().wf(),
    {
        self.get_folder(&self.current_path)
    }

    /// Stores `folder` under `path`, replacing any folder there.
    pub fn set_folder(&mut self, path: &Vec<String>, folder: Folder)
        requires
            old(self).wf(),
            folder.wf(),
        ensures
            final(self).wf(),
            final(self)@ == old(self)@.insert(path_view(*path), folder@),
            final(self).current_path == old(self).current_path,
    {
        proof {
            lemma_records_lookup(self.store@, path_view(*path));
        }
        match self.find(path) {
            Some(i) => {
                let ghost s0 = self.store@;
                let (k, _old_folder) = self.store.remove(i);
                self.store.insert(i, (k, folder));
                proof {
                    assert(self.store@ =~= s0.update(i as int, (k, folder)));
                    lemma_records_update(s0, i as int, (k, folder));
                    assert forall|j: int| 0 <= j < self.store@.len() implies (#[trigger] self.store@[j]).1.wf() by {
                        if j != i {
                            assert(self.store@[j] == s0[j]);
                        }
                    }
                }
            },
            None => {
                let ghost s0 = self.store@;
                self.store.push((clone_path(path), folder));
                proof {
                    assert(self.store@.drop_last() =~= s0);
                    assert forall|a: int, b: int| 0 <= a < b < self.store@.len() implies
                        path_view((#[trigger] self.store@[a]).0) != path_view((#[trigger] self.store@[b]).0) by {
                        assert(self.store@[a] == s0[a]);
                        if b < s0.len() {
                            assert(self.store@[b] == s0[b]);
                        } else {
                            assert(path_view(self.store@[b].0) =~= path_view(*path));
                        }
                    }
                    assert(path_view(self.store@.last().0) =~= path_view(*path));
                    assert forall|j: int| 0 <= j < self.store@.len() implies (#[trigger] self.store@[j]).1.wf() by {
                        if j < s0.len() {
                            assert(self.store@[j] == s0[j]);
                        }
                    }
                }
            },
        }
    }

    /// Stores `folder` under the active path.
    pub fn set_current_folder(&mut self, folder: Folder)
        requires
            old(self).wf(),
            folder.wf(),
        ensures
            final(self).wf(),
            final(self)@ == old(self)@.insert(old(self).current(), folder@),
            final(self).current_path == old(self).current_path,
    {
        let path = clone_path(&self.current_path);
        self.set_folder(&path, folder);
    }

    /// Forgets the folder of `path`.
    pub fn remove_path(&mut self, path: &Vec<String>)
        requires
            old(self).wf(),
        ensures
            final(self).wf(),
            final(self)@ == old(self)@.remove(path_view(*path)),
            final(self).current_path == old(self).current_path,
    {
        proof {
            lemma_records_lookup(self.store@, path_view(*path));
        }
        match self.find(path) {
            Some(i) => {
                let ghost s0 = self.store@;
                let _removed = self.store.remove(i);
                proof {
                    lemma_records_remove(s0, i as int);
                    assert forall|j: int| 0 <= j < self.store@.len() implies (#[trigger] self.store@[j]).1.wf() by {
                        if j < i {
                            assert(self.store@[j] == s0[j]);
                        } else {
                            assert(self.store@[j] == s0[j + 1]);
                        }
                    }
                }
            },
            None => {
                assert(self@ =~= self@.remove(path_view(*path)));
            },
        }
    }

    /// Total size of the folder of `path`, if it has one.
    pub fn get_entry_size(&self, path: &Vec<String>) -> (r: Option<u64>)
        requires
            self.wf(),
        ensures
            r is Some <==> self@.contains_key(path_view(*path)),
            r is Some ==> r.unwrap() as int == crate::folder::cap_u64(self@[path_view(*path)].size()),
    {
        proof {
            lemma_records_lookup(self.store@, path_view(*path));
        }
        match self.find(path) {
            Some(i) => {
                proof {
                    crate::folder::lemma_rows_total(self.store@[i as int].1.entries@);
                }
                Some(self.store[i].1.get_size())
            },
            None => None,
        }
    }

    /// Index of the record of `k`.
    pub open spec fn find_spec(&self, k: Seq<Seq<char>>) -> int {
        choose|i: int| 0 <= i < self.store@.len() && path_view((#[trigger] self.store@[i]).0) == k
    }

    /// Appends `row` to the folder of record `i`, counting `size` under
    /// extension `ext`, and clears its sort cache.
    pub fn add_row_at(&mut self, i: usize, row: FolderEntry, ext: &String, size: u64)
        requires
            old(self).wf(),
            i < old(self).store@.len(),
        ensures
            final(self).wf(),
            final(self)@ == old(self)@.insert(
                path_view(old(self).store@[i as int].0),
                old(self)@[path_view(old(self).store@[i as int].0)].with_row(row@, ext@, size),
            ),
            final(self).store@.len() == old(self).store@.len(),
            forall|j: int| 0 <= j < old(self).store@.len() ==> (#[trigger] final(self).store@[j]).0 == old(self).store@[j].0,
            final(self).current_path == old(self).current_path,
    {
        let ghost s0 = self.store@;
        proof {
            lemma_records_lookup(s0, path_view(s0[i as int].0));
        }
        let (k, mut f) = self.store.remove(i);
        assert(k == s0[i as int].0 && f == s0[i as int].1);
        f.add_row(row, ext, size);
        self.store.insert(i, (k, f));
        proof {
            assert(self.store@ =~= s0.update(i as int, (k, f)));
            lemma_put_back(s0, i as int, (k, f));
        }
    }

    /// Makes the sub-folder row `title` of the folder of record `i` show
    /// size `v`, counting `size` under extension `ext`.
    pub fn set_child_at(&mut self, i: usize, title: &String, v: u64, ext: &String, size: u64)
        requires
            old(self).wf(),
            i < old(self).store@.len(),
        ensures
            final(self).wf(),
            final(self)@ == old(self)@.insert(
                path_view(old(self).store@[i as int].0),
                old(self)@[path_view(old(self).store@[i as int].0)].with_child_set(title@, v, ext@, size),
            ),
            final(self).current_path == old(self).current_path,
    {
        let ghost s0 = self.store@;
        proof {
            lemma_records_lookup(s0, path_view(s0[i as int].0));
        }
        let (k, mut f) = self.store.remove(i);
        assert(k == s0[i as int].0 && f == s0[i as int].1);
        f.set_child_size(title, v, ext, size);
        self.store.insert(i, (k, f));
        proof {
            assert(self.store@ =~= s0.update(i as int, (k, f)));
            lemma_put_back(s0, i as int, (k, f));
        }
    }

    /// Takes `d` from the sub-folder row `title` of the folder of record
    /// `i`; returns that folder's title.
    pub fn shrink_child_at(&mut self, i: usize, title: &String, d: u64) -> (r: String)
        requires
            old(self).wf(),
            i < old(self).store@.len(),
        ensures
            final(self).wf(),
            final(self)@ == old(self)@.insert(
                path_view(old(self).store@[i as int].0),
                old(self)@[path_view(old(self).store@[i as int].0)].with_child_shrunk(title@, d),
            ),
            r@ == old(self)@[path_view(old(self).store@[i as int].0)].title,
            final(self).current_path == old(self).current_path,
    {
        let ghost s0 = self.store@;
        proof {
            lemma_records_lookup(s0, path_view(s0[i as int].0));
        }
        let (k, mut f) = self.store.remove(i);
        assert(k == s0[i as int].0 && f == s0[i as int].1);
        let t = f.title.clone();
        f.shrink_child(title, d);
        self.store.insert(i, (k, f));
        proof {
            assert(self.store@ =~= s0.update(i as int, (k, f)));
            lemma_put_back(s0, i as int, (k, f));
        }
        t
    }

    /// Removes the selected row of the folder of record `i`.
    pub fn remove_selected_at(&mut self, i: usize)
        requires
            old(self).wf(),
            i < old(self).store@.len(),
            old(self).store@[i as int].1.entries@.len() >= 2,
        ensures
            final(self).wf(),
            final(self)@ == old(self)@.insert(
                path_view(old(self).store@[i as int].0),
                old(self)@[path_view(old(self).store@[i as int].0)].without_selected(),
            ),
            final(self).current_path == old(self).current_path,
    {
        let ghost s0 = self.store@;
        proof {
            lemma_records_lookup(s0, path_view(s0[i as int].0));
        }
        let (k, mut f) = self.store.remove(i);
        assert(k == s0[i as int].0 && f == s0[i as int].1);
        f.remove_selected();
        self.store.insert(i, (k, f));
        proof {
            assert(self.store@ =~= s0.update(i as int, (k, f)));
            lemma_put_back(s0, i as int, (k, f));
        }
    }

    /// Sorts the active folder by `sort_by` unless that is already its sort
    /// key, then records `sort_by` as its sort key. No-op without an active
    /// folder.
    pub fn sort_current_folder(&mut self, sort_by_key: SortBy)
        requires
            old(self).wf(),
        ensures
            final(self).wf(),
            final(self).current_path == old(self).current_path,
            !old(self)@.contains_key(old(self).current()) ==> final(self)@ == old(self)@,
            old(self)@.contains_key(old(self).current()) ==> ({
                let f = old(self).store@[old(self).find_spec(old(self).current())].1;
                let entries = if f.sorted_by == Some(sort_by_key) {
                    f.entries@
                } else if sort_by_key == SortBy::Title {
                    sort_by(f.entries@, |a: FolderEntry, b: FolderEntry| le_by_title(a, b))
                } else {
                    sort_by(f.entries@, |a: FolderEntry, b: FolderEntry| le_by_size_desc(a, b))
                };
                final(self)@ == old(self)@.insert(
                    old(self).current(),
                    FolderView {
                        entries: entries.map_values(|e: FolderEntry| e@),
                        sorted_by: Some(sort_by_key),
                        ..f@
                    },
                )
            }),
    {
        proof {
            lemma_records_lookup(self.store@, self.current());
        }
        match self.find(&self.current_path) {
            Some(i) => {
                let ghost s0 = self.store@;
                proof {
                    lemma_records_lookup(s0, path_view(s0[i as int].0));
                }
                let (k, mut f) = self.store.remove(i);
                assert(k == s0[i as int].0 && f == s0[i as int].1);
                if f.sorted_by != Some(sort_by_key) {
                    match sort_by_key {
                        SortBy::Title => f.sort_by_title(),
                        SortBy::Size => f.sort_by_size(),
                    }
                }
                f.sorted_by = Some(sort_by_key);
                self.store.insert(i, (k, f));
                proof {
                    assert(self.store@ =~= s0.update(i as int, (k, f)));
                    lemma_put_back(s0, i as int, (k, f));
                    let k = self.current();
                    assert(old(self).find_spec(k) == i) by {
                        let j = old(self).find_spec(k);
                        assert(0 <= j < old(self).store@.len() && path_view(old(self).store@[j].0) == k);
                        if j != i {
                            assert(path_view(old(self).store@[j].0) != path_view(old(self).store@[i as int].0));
                        }
                    }
                }
            },
            None => {},
        }
    }

    /// Number of paths that have a folder.
    pub fn get_nodes_len(&self) -> (r: usize)
        requires
            self.wf(),
        ensures
            r as int == self@.dom().len(),
    {
        proof {
            lemma_records_lookup(self.store@, Seq::empty());
        }
        self.store.len()
    }

    /// Copies of the recorded paths, in record order.
    pub fn get_keys(&self) -> (r: Vec<Vec<String>>)
        ensures
            r@.len() == self.store@.len(),
            forall|i: int| 0 <= i < r@.len() ==> path_view(#[trigger] r@[i]) == path_view(self.store@[i].0),
    {
        let mut keys: Vec<Vec<String>> = Vec::new();
        let mut i: usize = 0;
        while i < self.store.len()
            invariant
                0 <= i <= self.store@.len(),
                keys@.len() == i,
                forall|j: int| 0 <= j < i ==> path_view(#[trigger] keys@[j]) == path_view(self.store@[j].0),
            decreases self.store@.len() - i,
        {
            keys.push(clone_path(&self.store[i].0));
            assert(path_view(keys@[i as int]) =~= path_view(self.store@[i as int].0));
            i = i + 1;
        }
        keys
    }

    /// Makes the parent of the active path active; the root stays.
    pub fn move_to_parent(&mut self)
        ensures
            final(self).current() == if old(self).current().len() == 0 {
                old(self).current()
            } else {
                old(self).current().drop_last()
            },
            final(self).store == old(self).store,
    {
        if self.current_path.len() > 0 {
            let _last = self.current_path.pop();
            assert(self.current() =~= old(self).current().drop_last());
        }
    }

    /// Makes the child `title` of the active path active.
    pub fn move_to_child(&mut self, title: &str)
        ensures
            final(self).current() == old(self).current().push(title@),
            final(self).store == old(self).store,
    {
        self.current_path.push(title.to_owned());
        assert(self.current() =~= old(self).current().push(title@));
    }
}

} // verus!

verus! {

/// Path-addressed folder storage with an active path.
pub trait DataStore: Sized {
    /// Folders by path.
    spec fn folders(&self) -> Map<Seq<Seq<char>>, FolderView>;

    /// The active path.
    spec fn active(&self) -> Seq<Seq<char>>;

    /// Internal consistency.
    spec fn inv(&self) -> bool;

    /// An empty store whose active path is the root.
    fn new() -> (r: Self)
        ensures
            r.inv(),
            r.folders() == Map::<Seq<Seq<char>>, FolderView>::empty(),
            r.active().len() == 0;

    /// The active path.
    fn get_current_path(&self) -> (r: &Vec<String>)
        ensures
            path_view(*r) == self.active();

    /// Makes `path` the active path.
    fn set_current_path(&mut self, path: &Vec<String>)
        requires
            old(self).inv(),
        ensures
            final(self).inv(),
            final(self).active() == path_view(*path),
            final(self).folders() == old(self).folders();

    /// Whether `path` has a folder.
    fn has_path(&self, path: &Vec<String>) -> (r: bool)
        requires
            self.inv(),
        ensures
            r == self.folders().contains_key(path_view(*path));

    /// The folder of the active path, if any.
    fn get_current_folder(&self) -> (r: Option<&Folder>)
        requires
            self.inv(),
        ensures
            r is Some <==> self.folders().contains_key(self.active()),
            r is Some ==> r.unwrap()@ == self.folders()[self.active()];

    /// The folder of `path`, if any.
    fn get_folder(&self, path: &Vec<String>) -> (r: Option<&Folder>)
        requires
            self.inv(),
        ensures
            r is Some <==> self.folders().contains_key(path_view(*path)),
            r is Some ==> r.unwrap()@ == self.folders()[path_view(*path)];

    /// Stores `folder` under `path`.
    fn set_folder(&mut self, path: &Vec<String>, folder: Folder)
        requires
            old(self).inv(),
            folder.wf(),
        ensures
            final(self).inv(),
            final(self).folders() == old(self).folders().insert(path_view(*path), folder@),
            final(self).active() == old(self).active();

    /// Stores `folder` under the active path.
    fn set_current_folder(&mut self, folder: Folder)
        requires
            old(self).inv(),
            folder.wf(),
        ensures
            final(self).inv(),
            final(self).folders() == old(self).folders().insert(old(self).active(), folder@),
            final(self).active() == old(self).active();

    /// Sorts the active folder by `sort_by` unless already so sorted, and
    /// records the key.
    fn sort_current_folder(&mut self, sort_by: SortBy)
        requires
            old(self).inv(),
        ensures
            final(self).inv(),
            final(self).active() == old(self).active(),
            final(self).folders().dom() == old(self).folders().dom(),
            old(self).folders().contains_key(old(self).active()) ==> final(self).folders()[old(
                self,
            ).active()].sorted_by == Some(sort_by);

    /// Makes the parent of the active path active; the root stays.
    fn move_to_parent(&mut self)
        requires
            old(self).inv(),
        ensures
            final(self).inv(),
            final(self).folders() == old(self).folders(),
            final(self).active() == if old(self).active().len() == 0 {
                old(self).active()
            } else {
                old(self).active().drop_last()
            };

    /// Makes the child `title` of the active path active.
    fn move_to_child(&mut self, title: &str)
        requires
            old(self).inv(),
        ensures
            final(self).inv(),
            final(self).folders() == old(self).folders(),
            final(self).active() == old(self).active().push(title@);

    /// Forgets the folder of `path`.
    fn remove_path(&mut self, path: &Vec<String>)
        requires
            old(self).inv(),
        ensures
            final(self).inv(),
            final(self).folders() == old(self).folders().remove(path_view(*path)),
            final(self).active() == old(self).active();

    /// Total size of the folder of `path`, if it has one.
    fn get_entry_size(&self, path: &Vec<String>) -> (r: Option<u64>)
        requires
            self.inv(),
        ensures
            r is Some <==> self.folders().contains_key(path_view(*path)),
            r is Some ==> r.unwrap() as int == crate::folder::cap_u64(self.folders()[path_view(*path)].size());

    /// Number of paths that have a folder.
    fn get_nodes_len(&self) -> (r: usize)
        requires
            self.inv(),
        ensures
            r as int == self.folders().dom().len();
}

impl DataStore for DSHashmap {
    open spec fn folders(&self) -> Map<Seq<Seq<char>>, FolderView> {
        self@
    }

    open spec fn active(&self) -> Seq<Seq<char>> {
        self.current()
    }

    open spec fn inv(&self) -> bool {
        self.wf()
    }

    fn new() -> (r: Self) {
        DSHashmap::new()
    }

    fn get_current_path(&self) -> (r: &Vec<String>) {
        DSHashmap::get_current_path(self)
    }

    fn set_current_path(&mut self, path: &Vec<String>) {
        DSHashmap::set_current_path(self, path)
    }

    fn has_path(&self, path: &Vec<String>) -> (r: bool) {
        DSHashmap::has_path(self, path)
    }

    fn get_current_folder(&self) -> (r: Option<&Folder>) {
        DSHashmap::get_current_folder(self)
    }

    fn get_folder(&self, path: &Vec<String>) -> (r: Option<&Folder>) {
        DSHashmap::get_folder(self, path)
    }

    fn set_folder(&mut self, path: &Vec<String>, folder: Folder) {
        DSHashmap::set_folder(self, path, folder)
    }

    fn set_current_folder(&mut self, folder: Folder) {
        DSHashmap::set_current_folder(self, folder)
    }

    fn sort_current_folder(&mut self, sort_by: SortBy) {
        DSHashmap::sort_current_folder(self, sort_by);
        assert(self@.dom() =~= old(self)@.dom());
    }

    fn move_to_parent(&mut self) {
        DSHashmap::move_to_parent(self)
    }

    fn move_to_child(&mut self, title: &str) {
        DSHashmap::move_to_child(self, title)
    }

    fn remove_path(&mut self, path: &Vec<String>) {
        DSHashmap::remove_path(self, path)
    }

    fn get_entry_size(&self, path: &Vec<String>) -> (r: Option<u64>) {
        DSHashmap::get_entry_size(self, path)
    }

    fn get_nodes_len(&self) -> (r: usize) {
        DSHashmap::get_nodes_len(self)
    }
}

} // verus!
