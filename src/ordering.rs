//! Stable insertion sort over a spec comparator, with its laws.

use vstd::prelude::*;

verus! {

/// `le` is total and transitive: a total preorder.
pub open spec fn total_preorder<T>(le: spec_fn(T, T) -> bool) -> bool {
    &&& forall|a: T, b: T| #[trigger] le(a, b) || le(b, a)
    &&& forall|a: T, b: T, c: T| #[trigger] le(a, b) && #[trigger] le(b, c) ==> le(a, c)
}

/// Every earlier element is `le` every later one.
pub open spec fn sorted_by<T>(s: Seq<T>, le: spec_fn(T, T) -> bool) -> bool {
    forall|i: int, j: int| 0 <= i < j < s.len() ==> le(#[trigger] s[i], #[trigger] s[j])
}

/// Places `e` right after the last element of `s` that is `le` it, scanning
/// from the end; equal elements keep their order.
pub open spec fn insert_sorted<T>(s: Seq<T>, e: T, le: spec_fn(T, T) -> bool) -> Seq<T>
    decreases s.len(),
{
    if s.len() == 0 {
        seq![e]
    } else if le(s.last(), e) {
        s.push(e)
    } else {
        insert_sorted(s.drop_last(), e, le).push(s.last())
    }
}

/// The stable sort of `s` by `le`.
pub open spec fn sort_by<T>(s: Seq<T>, le: spec_fn(T, T) -> bool) -> Seq<T>
    decreases s.len(),
{
    if s.len() == 0 {
        s
    } else {
        insert_sorted(sort_by(s.drop_last(), le), s.last(), le)
    }
}

/// Inserting at the position found by a backwards scan is `insert_sorted`.
pub proof fn lemma_insert_at<T>(s: Seq<T>, e: T, le: spec_fn(T, T) -> bool, pos: int)
    requires
        0 <= pos <= s.len(),
        forall|k: int| pos <= k < s.len() ==> !le(#[trigger] s[k], e),
        pos == 0 || le(s[pos - 1], e),
    ensures
        insert_sorted(s, e, le) == s.insert(pos, e),
    decreases s.len(),
{
    if s.len() == 0 {
        assert(s.insert(pos, e) =~= seq![e]);
    } else if le(s.last(), e) {
        assert(s.insert(pos, e) =~= s.push(e));
    } else {
        let d = s.drop_last();
        assert forall|k: int| pos <= k < d.len() implies !le(#[trigger] d[k], e) by {
            assert(d[k] == s[k]);
        }
        if pos > 0 {
            assert(d[pos - 1] == s[pos - 1]);
        }
        lemma_insert_at(d, e, le, pos);
        assert(d.insert(pos, e).push(s.last()) =~= s.insert(pos, e));
    }
}

/// `insert_sorted` puts `e` at some position `pos` of `s`, after every
/// element at most `e` that precedes it and before elements not `le` it.
pub proof fn lemma_insert_pos<T>(s: Seq<T>, e: T, le: spec_fn(T, T) -> bool) -> (pos: int)
    ensures
        0 <= pos <= s.len(),
        insert_sorted(s, e, le) == s.insert(pos, e),
        forall|k: int| pos <= k < s.len() ==> !le(#[trigger] s[k], e),
        pos == 0 || le(s[pos - 1], e),
    decreases s.len(),
{
    if s.len() == 0 {
        assert(s.insert(0, e) =~= seq![e]);
        0
    } else if le(s.last(), e) {
        assert(s.insert(s.len() as int, e) =~= s.push(e));
        s.len() as int
    } else {
        let d = s.drop_last();
        let p = lemma_insert_pos(d, e, le);
        assert(d.insert(p, e).push(s.last()) =~= s.insert(p, e));
        assert forall|k: int| p <= k < s.len() implies !le(#[trigger] s[k], e) by {
            if k < d.len() {
                assert(s[k] == d[k]);
            }
        }
        if p > 0 {
            assert(d[p - 1] == s[p - 1]);
        }
        p
    }
}

/// Inserting into a sorted sequence keeps it sorted.
pub proof fn lemma_insert_sorted_keeps_order<T>(s: Seq<T>, e: T, le: spec_fn(T, T) -> bool)
    requires
        total_preorder(le),
        sorted_by(s, le),
    ensures
        sorted_by(insert_sorted(s, e, le), le),
{
    let pos = lemma_insert_pos(s, e, le);
    let r = s.insert(pos, e);
    assert forall|i: int, j: int| 0 <= i < j < r.len() implies le(#[trigger] r[i], #[trigger] r[j]) by {
        if j < pos {
            assert(r[i] == s[i] && r[j] == s[j]);
        } else if j == pos {
            assert(r[i] == s[i]);
            if i < pos - 1 {
                assert(le(s[i], s[pos - 1]));
            }
        } else if i == pos {
            assert(r[j] == s[j - 1]);
            assert(!le(s[j - 1], e));
            assert(le(s[j - 1], e) || le(e, s[j - 1]));
        } else if i < pos {
            assert(r[i] == s[i] && r[j] == s[j - 1]);
        } else {
            assert(r[i] == s[i - 1] && r[j] == s[j - 1]);
        }
    }
}

/// The stable sort yields a sorted sequence.
pub proof fn lemma_sort_by_sorted<T>(s: Seq<T>, le: spec_fn(T, T) -> bool)
    requires
        total_preorder(le),
    ensures
        sorted_by(sort_by(s, le), le),
        sort_by(s, le).len() == s.len(),
    decreases s.len(),
{
    if s.len() > 0 {
        lemma_sort_by_sorted(s.drop_last(), le);
        lemma_insert_sorted_keeps_order(sort_by(s.drop_last(), le), s.last(), le);
        let _ = lemma_insert_pos(sort_by(s.drop_last(), le), s.last(), le);
    }
}

/// The stable sort is a permutation: it keeps every element, as often.
pub proof fn lemma_sort_by_permutation<T>(s: Seq<T>, le: spec_fn(T, T) -> bool)
    ensures
        sort_by(s, le).to_multiset() == s.to_multiset(),
    decreases s.len(),
{
    if s.len() > 0 {
        let d = s.drop_last();
        lemma_sort_by_permutation(d, le);
        let pos = lemma_insert_pos(sort_by(d, le), s.last(), le);
        vstd::seq_lib::to_multiset_insert(sort_by(d, le), pos, s.last());
        vstd::seq_lib::to_multiset_build(d, s.last());
        assert(d.push(s.last()) =~= s);
    }
}

/// Sorting keeps the length.
pub proof fn lemma_sort_by_len<T>(s: Seq<T>, le: spec_fn(T, T) -> bool)
    ensures
        sort_by(s, le).len() == s.len(),
    decreases s.len(),
{
    if s.len() > 0 {
        lemma_sort_by_len(s.drop_last(), le);
        let _ = lemma_insert_pos(sort_by(s.drop_last(), le), s.last(), le);
    }
}

/// Sorting a sorted sequence leaves it as it is.
pub proof fn lemma_sort_by_sorted_identity<T>(s: Seq<T>, le: spec_fn(T, T) -> bool)
    requires
        sorted_by(s, le),
    ensures
        sort_by(s, le) == s,
    decreases s.len(),
{
    if s.len() > 0 {
        let d = s.drop_last();
        assert(sorted_by(d, le)) by {
            assert forall|i: int, j: int| 0 <= i < j < d.len() implies le(#[trigger] d[i], #[trigger] d[j]) by {
                assert(d[i] == s[i] && d[j] == s[j]);
            }
        }
        lemma_sort_by_sorted_identity(d, le);
        if d.len() > 0 {
            assert(le(s[d.len() - 1], s[s.len() - 1]));
        }
        assert(d.push(s.last()) =~= s);
    }
}

/// Sorting twice gives the same sequence as sorting once.
pub proof fn lemma_sort_by_idempotent<T>(s: Seq<T>, le: spec_fn(T, T) -> bool)
    requires
        total_preorder(le),
    ensures
        sort_by(sort_by(s, le), le) == sort_by(s, le),
{
    lemma_sort_by_sorted(s, le);
    lemma_sort_by_sorted_identity(sort_by(s, le), le);
}

/// Sorts `v` in place, stably, with the executable comparator `le_exec`
/// that decides the spec comparator `le`.
pub fn insertion_sort<T, F: Fn(&T, &T) -> bool>(
    v: &mut Vec<T>,
    le_exec: F,
    Ghost(le): Ghost<spec_fn(T, T) -> bool>,
)
    requires
        total_preorder(le),
        forall|a: &T, b: &T| #[trigger] le_exec.requires((a, b)),
        forall|a: &T, b: &T, r: bool| le_exec.ensures((a, b), r) ==> r == le(*a, *b),
    ensures
        final(v)@ == sort_by(old(v)@, le),
        sorted_by(final(v)@, le),
        final(v)@.to_multiset() == old(v)@.to_multiset(),
{
    proof {
        lemma_sort_by_sorted(v@, le);
        lemma_sort_by_permutation(v@, le);
    }
    let ghost orig = v@;
    let n = v.len();
    let mut i: usize = 0;
    while i < n
        invariant
            0 <= i <= n,
            n == orig.len(),
            v@.len() == n,
            v@.subrange(0, i as int) == sort_by(orig.subrange(0, i as int), le),
            v@.subrange(i as int, n as int) == orig.subrange(i as int, n as int),
            forall|a: &T, b: &T| #[trigger] le_exec.requires((a, b)),
            forall|a: &T, b: &T, r: bool| le_exec.ensures((a, b), r) ==> r == le(*a, *b),
        decreases n - i,
    {
        let ghost before = v@;
        let e = v.remove(i);
        assert(e == orig[i as int]) by {
            assert(before.subrange(i as int, n as int)[0] == orig.subrange(i as int, n as int)[0]);
        }
        let mut pos: usize = i;
        while pos > 0 && !le_exec(&v[pos - 1], &e)
            invariant
                0 <= pos <= i < n,
                v@.len() == n - 1,
                v@ == before.remove(i as int),
                forall|k: int| pos <= k < i ==> !le(#[trigger] v@[k], e),
                forall|a: &T, b: &T| #[trigger] le_exec.requires((a, b)),
                forall|a: &T, b: &T, r: bool| le_exec.ensures((a, b), r) ==> r == le(*a, *b),
            decreases pos,
        {
            pos = pos - 1;
        }
        let ghost prefix = v@.subrange(0, i as int);
        assert(prefix == before.subrange(0, i as int));
        assert forall|k: int| pos <= k < prefix.len() implies !le(#[trigger] prefix[k], e) by {
            assert(prefix[k] == v@[k]);
        }
        proof {
            if pos > 0 {
                assert(prefix[pos - 1] == v@[pos - 1]);
            }
            lemma_insert_at(prefix, e, le, pos as int);
        }
        v.insert(pos, e);
        assert(orig.subrange(0, i + 1).drop_last() =~= orig.subrange(0, i as int));
        assert(v@.subrange(0, i + 1) =~= prefix.insert(pos as int, e));
        assert(v@.subrange(i + 1, n as int) =~= orig.subrange(i + 1, n as int)) by {
            assert forall|k: int| 0 <= k < n - (i + 1) implies #[trigger] v@.subrange(i + 1, n as int)[k]
                == orig.subrange(i + 1, n as int)[k] by {
                assert(v@[i + 1 + k] == before[i + 1 + k]);
                assert(before[i + 1 + k] == before.subrange(i as int, n as int)[k + 1]);
            }
        }
        i = i + 1;
    }
    assert(v@.subrange(0, n as int) =~= v@);
    assert(orig.subrange(0, n as int) =~= orig);
}

} // verus!
