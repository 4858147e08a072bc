//! Bringing the store in line after the selected entry of the active
//! folder was deleted from disk.

use vstd::prelude::*;
use crate::folder::FolderView;
use crate::folder_entry::FolderEntryType;
use crate::store::{DSHashmap, path_view, clone_path};

verus! {

/// Takes `d` (saturating) from the row for the branch toward `path` in
/// every recorded ancestor of `path`, each row matched by the path
/// component just below that ancestor; stops at the first ancestor without
/// a record.
pub open spec fn shrink(m: Map<Seq<Seq<char>>, FolderView>, path: Seq<Seq<char>>, d: u64) -> Map<
    Seq<Seq<char>>,
    FolderView,
>
    decreases path.len(),
{
    if path.len() == 0 {
        m
    } else {
        let up = path.drop_last();
        if !m.contains_key(up) {
            m
        } else {
            shrink(m.insert(up, m[up].with_child_shrunk(path.last(), d)), up, d)
        }
    }
}

/// The active folder `cur` has a selected row that is not the parent row,
/// and another row besides it.
pub open spec fn deletion_applies(m: Map<Seq<Seq<char>>, FolderView>, cur: Seq<Seq<char>>) -> bool {
    &&& m.contains_key(cur)
    &&& 0 <= m[cur].cursor_index < m[cur].entries.len()
    &&& m[cur].entries.len() >= 2
    &&& m[cur].entries[m[cur].cursor_index].kind != FolderEntryType::Parent
}

/// The store once the selected row of folder `cur` is gone from disk: the
/// row leaves the folder, its known size is taken from every recorded
/// ancestor's row for the branch, and a deleted folder loses its record.
pub open spec fn deletion_spec(m: Map<Seq<Seq<char>>, FolderView>, cur: Seq<Seq<char>>) -> Map<
    Seq<Seq<char>>,
    FolderView,
> {
    let f = m[cur];
    let e = f.entries[f.cursor_index];
    let m1 = m.insert(cur, f.without_selected());
    let m2 = match e.size {
        Some(s) => if cur.len() > 0 {
            shrink(m1, cur, s)
        } else {
            m1
        },
        None => m1,
    };
    if e.kind == FolderEntryType::Folder {
        m2.remove(cur.push(e.title))
    } else {
        m2
    }
}

impl DSHashmap {
    /// Takes `d` from the rows for the branch toward `start` in its
    /// recorded ancestors.
    fn shrink_up(&mut self, start: Vec<String>, d: u64)
        requires
            old(self).wf(),
        ensures
            final(self).wf(),
            final(self)@ == shrink(old(self)@, path_view(start), d),
            final(self).current_path == old(self).current_path,
    {
        let ghost goal = shrink(self@, path_view(start), d);
        let mut path = start;
        while path.len() > 0
            invariant
                goal == shrink(old(self)@, path_view(start), d),
                self.wf(),
                self.current_path == old(self).current_path,
                goal == shrink(self@, path_view(path), d),
            decreases path@.len(),
        {
            let ghost pv = path_view(path);
            let last = path[path.len() - 1].clone();
            assert(last@ == pv.last());
            path.pop();
            assert(path_view(path) =~= pv.drop_last());
            match self.find(&path) {
                None => {
                    assert(shrink(self@, pv, d) == self@);
                    return;
                },
                Some(i) => {
                    let _title = self.shrink_child_at(i, &last, d);
                },
            }
        }
        assert(path_view(path).len() == 0);
    }

    /// Call once the selected entry of the active folder was deleted from
    /// disk: updates the store as `deletion_spec` says and returns `true`;
    /// returns `false` and changes nothing where `deletion_applies` fails.
    pub fn apply_deletion(&mut self) -> (r: bool)
        requires
            old(self).wf(),
        ensures
            final(self).wf(),
            final(self).current_path == old(self).current_path,
            r == deletion_applies(old(self)@, old(self).current()),
            r ==> final(self)@ == deletion_spec(old(self)@, old(self).current()),
            !r ==> final(self)@ == old(self)@,
    {
        let ghost m0 = self@;
        let ghost cur = self.current();
        let i = match self.find(&self.current_path) {
            Some(i) => i,
            None => {
                return false;
            },
        };
        proof {
            crate::store::lemma_records_lookup(self.store@, cur);
        }
        let f = &self.store[i].1;
        assert(f@ == m0[cur]);
        let sel = f.get_selected_entry();
        if sel.kind == FolderEntryType::Parent || f.entries.len() < 2 {
            return false;
        }
        let size = sel.size;
        let kind = sel.kind;
        let title = sel.title.clone();
        assert(sel@ == m0[cur].entries[m0[cur].cursor_index]);
        self.remove_selected_at(i);
        assert(self@ == m0.insert(cur, m0[cur].without_selected()));
        if let Some(s) = size {
            if self.current_path.len() > 0 {
                let start = clone_path(&self.current_path);
                self.shrink_up(start, s);
            }
        }
        if kind == FolderEntryType::Folder {
            let mut child = clone_path(&self.current_path);
            child.push(title);
            assert(path_view(child) =~= cur.push(sel@.title));
            self.remove_path(&child);
        }
        true
    }
}

} // verus!

verus! {

/// The folder at `k` is a proper ancestor of `path` and every folder from
/// `k` down to `path`'s parent is recorded: the walk from `path` reaches it.
pub open spec fn reached(m: Map<Seq<Seq<char>>, FolderView>, path: Seq<Seq<char>>, k: Seq<Seq<char>>) -> bool
    decreases path.len(),
{
    path.len() > 0 && m.contains_key(path.drop_last()) && (k == path.drop_last() || reached(
        m,
        path.drop_last(),
        k,
    ))
}

proof fn lemma_reached_dom(a: Map<Seq<Seq<char>>, FolderView>, b: Map<Seq<Seq<char>>, FolderView>, path: Seq<Seq<char>>, k: Seq<Seq<char>>)
    requires
        a.dom() == b.dom(),
    ensures
        reached(a, path, k) == reached(b, path, k),
    decreases path.len(),
{
    if path.len() > 0 {
        assert(a.contains_key(path.drop_last()) == b.contains_key(path.drop_last()));
        lemma_reached_dom(a, b, path.drop_last(), k);
    }
}

proof fn lemma_reached_shorter(m: Map<Seq<Seq<char>>, FolderView>, path: Seq<Seq<char>>, k: Seq<Seq<char>>)
    ensures
        reached(m, path, k) ==> k.len() < path.len() && m.contains_key(k) && k == path.subrange(0, k.len() as int),
    decreases path.len(),
{
    if path.len() > 0 {
        let up = path.drop_last();
        lemma_reached_shorter(m, up, k);
        if reached(m, up, k) {
            assert(up.subrange(0, k.len() as int) =~= path.subrange(0, k.len() as int));
        }
        if k == up {
            assert(up =~= path.subrange(0, up.len() as int));
        }
    }
}

/// Shrinking from `path` changes exactly the folders the walk reaches: in
/// each, the row for the path component just below it loses `d`
/// (saturating) and the sort cache is cleared; every other folder stays as
/// it was, and no path is added or removed.
pub proof fn lemma_shrink_pointwise(m: Map<Seq<Seq<char>>, FolderView>, path: Seq<Seq<char>>, d: u64)
    ensures
        shrink(m, path, d).dom() == m.dom(),
        forall|k: Seq<Seq<char>>| #[trigger] m.contains_key(k) ==> shrink(m, path, d)[k] == if reached(m, path, k) {
            m[k].with_child_shrunk(path[k.len() as int], d)
        } else {
            m[k]
        },
    decreases path.len(),
{
    if path.len() > 0 {
        let up = path.drop_last();
        if m.contains_key(up) {
            let m2 = m.insert(up, m[up].with_child_shrunk(path.last(), d));
            assert(m2.dom() =~= m.dom());
            lemma_shrink_pointwise(m2, up, d);
            assert forall|k: Seq<Seq<char>>| #[trigger] m.contains_key(k) implies shrink(m, path, d)[k] == if reached(m, path, k) {
                m[k].with_child_shrunk(path[k.len() as int], d)
            } else {
                m[k]
            } by {
                lemma_reached_dom(m2, m, up, k);
                lemma_reached_shorter(m, up, k);
                if reached(m, up, k) {
                    assert(k != up);
                    assert(up[k.len() as int] == path[k.len() as int]);
                }
            }
        }
    }
}

/// Deleting the selected entry of folder `cur`, of known size `s`: `cur`
/// loses exactly that one row, the others keeping their order; every
/// recorded ancestor of `cur` up to the first unrecorded one has its row
/// for the branch toward `cur` reduced by exactly `s` (saturating at zero)
/// and its sort cache cleared, nothing else in it changing; every other
/// folder is unchanged; a deleted folder's own record is gone and no other
/// path appears or disappears.
pub proof fn lemma_deletion_every_ancestor(m: Map<Seq<Seq<char>>, FolderView>, cur: Seq<Seq<char>>)
    requires
        deletion_applies(m, cur),
        m[cur].entries[m[cur].cursor_index].size is Some,
    ensures
        ({
            let f = m[cur];
            let e = f.entries[f.cursor_index];
            let s = e.size.unwrap();
            let child = cur.push(e.title);
            let r = deletion_spec(m, cur);
            &&& r.contains_key(cur)
            &&& r[cur].entries == f.entries.remove(f.cursor_index)
            &&& r[cur].entries.len() == f.entries.len() - 1
            &&& (e.kind == FolderEntryType::File ==> r.dom() == m.dom())
            &&& (e.kind == FolderEntryType::Folder ==> r.dom() == m.dom().remove(child))
            &&& forall|k: Seq<Seq<char>>|
                #![trigger r.contains_key(k)]
                m.contains_key(k) && k != cur && k != child ==> r.contains_key(k) && r[k] == if reached(m, cur, k) {
                    m[k].with_child_shrunk(cur[k.len() as int], s)
                } else {
                    m[k]
                }
        }),
{
    let f = m[cur];
    let e = f.entries[f.cursor_index];
    let s = e.size.unwrap();
    let child = cur.push(e.title);
    let m1 = m.insert(cur, f.without_selected());
    assert(m1.dom() =~= m.dom());
    assert(f.without_selected().entries.len() == f.entries.len() - 1);
    assert(child != cur) by {
        assert(child.len() != cur.len());
    }
    if cur.len() > 0 {
        lemma_shrink_pointwise(m1, cur, s);
        assert forall|k: Seq<Seq<char>>| m.contains_key(k) && k != cur implies reached(m1, cur, k) == reached(m, cur, k) by {
            lemma_reached_dom(m1, m, cur, k);
        }
        lemma_reached_shorter(m1, cur, cur);
        let m2 = shrink(m1, cur, s);
        assert(m2.dom() == m.dom());
        assert(m2[cur] == m1[cur]);
        if e.kind == FolderEntryType::Folder {
            assert(m2.remove(child).dom() =~= m.dom().remove(child));
        }
    } else {
        if e.kind == FolderEntryType::Folder {
            assert(m1.remove(child).dom() =~= m.dom().remove(child));
        }
        assert forall|k: Seq<Seq<char>>| !reached(m, cur, k) by {}
    }
}

} // verus!
