//! Sorting by integer keys.
//!
//! Every ordered listing of the library (claims by position, hits by size, findings by
//! severity) is the same operation: keys of three integers, compared from the left, with
//! the item's index as the last of them so that equal items keep their order.

use vstd::multiset::group_multiset_axioms;
use vstd::prelude::*;
use vstd::relations::{sorted_by, total_ordering};
use vstd::seq_lib::{group_to_multiset_ensures, lemma_multiset_commutative, lemma_sorted_unique};

verus! {

/// A sort key; the leftmost component decides first.
pub type Key = (u64, u64, u64);

/// `a` comes no later than `b`.
pub open spec fn key_le(a: Key, b: Key) -> bool {
    if a.0 != b.0 {
        a.0 < b.0
    } else if a.1 != b.1 {
        a.1 < b.1
    } else {
        a.2 <= b.2
    }
}

/// [`key_le`] as a relation.
pub open spec fn ascending() -> spec_fn(Key, Key) -> bool {
    |a: Key, b: Key| key_le(a, b)
}

/// The keys of `s` in ascending order.
pub open spec fn sorted(s: Seq<Key>) -> Seq<Key> {
    s.sort_by(ascending())
}

/// The order of keys is total.
pub proof fn lemma_ascending_is_total()
    ensures
        total_ordering(ascending()),
{
}

/// What sorting gives: the same keys, ascending.
pub proof fn lemma_sorted(s: Seq<Key>)
    ensures
        sorted(s).to_multiset() == s.to_multiset(),
        sorted(s).len() == s.len(),
        forall|i: int, j: int|
            #![trigger sorted(s)[i], sorted(s)[j]]
            0 <= i < j < s.len() ==> key_le(sorted(s)[i], sorted(s)[j]),
        forall|k: Key| sorted(s).contains(k) <==> s.contains(k),
{
    broadcast use group_to_multiset_ensures;

    lemma_ascending_is_total();
    s.lemma_sort_by_ensures(ascending());
    let t = sorted(s);
    s.to_multiset_ensures();
    t.to_multiset_ensures();
    assert forall|i: int, j: int|
        #![trigger t[i], t[j]]
        0 <= i < j < s.len() implies key_le(t[i], t[j]) by {
        assert(ascending()(t[i], t[j]));
    }
    assert forall|k: Key| t.contains(k) <==> s.contains(k) by {
        assert(t.to_multiset().count(k) == s.to_multiset().count(k));
    }
}

/// Ascending keys with the multiset of `s` are `s` sorted.
pub proof fn lemma_sorted_is_unique(t: Seq<Key>, s: Seq<Key>)
    requires
        t.to_multiset() == s.to_multiset(),
        forall|i: int, j: int|
            #![trigger t[i], t[j]]
            0 <= i < j < t.len() ==> key_le(t[i], t[j]),
    ensures
        t == sorted(s),
{
    lemma_ascending_is_total();
    s.lemma_sort_by_ensures(ascending());
    assert forall|i: int, j: int| 0 <= i < j < t.len() implies #[trigger] ascending()(
        t[i],
        t[j],
    ) by {
        assert(key_le(t[i], t[j]));
    }
    assert(sorted_by(t, ascending()));
    lemma_sorted_unique(t, sorted(s), ascending());
}

/// Sorting sees only which keys there are, not how they were arranged.
pub proof fn lemma_sorted_of_same(s: Seq<Key>, t: Seq<Key>)
    requires
        s.to_multiset() == t.to_multiset(),
    ensures
        sorted(s) == sorted(t),
{
    lemma_sorted(s);
    lemma_sorted_is_unique(sorted(s), t);
}

fn less_or_equal(a: Key, b: Key) -> (r: bool)
    ensures
        r == key_le(a, b),
{
    if a.0 != b.0 {
        a.0 < b.0
    } else if a.1 != b.1 {
        a.1 < b.1
    } else {
        a.2 <= b.2
    }
}

fn merge(left: &Vec<Key>, right: &Vec<Key>) -> (out: Vec<Key>)
    requires
        left@ == sorted(left@),
        right@ == sorted(right@),
        left@.len() + right@.len() <= usize::MAX,
    ensures
        out@ == sorted(left@ + right@),
{
    broadcast use group_to_multiset_ensures;

    let mut out: Vec<Key> = Vec::with_capacity(left.len() + right.len());
    let mut i: usize = 0;
    let mut j: usize = 0;
    proof {
        lemma_sorted(left@);
        lemma_sorted(right@);
        assert(left@.take(0) =~= Seq::<Key>::empty());
        assert(right@.take(0) =~= Seq::<Key>::empty());
        assert(out@ =~= left@.take(0) + right@.take(0));
        lemma_multiset_commutative(left@.take(0), right@.take(0));
    }
    while i < left.len() || j < right.len()
        invariant
            i <= left.len(),
            j <= right.len(),
            out@.to_multiset() =~= left@.take(i as int).to_multiset().add(
                right@.take(j as int).to_multiset(),
            ),
            forall|a: int, b: int|
                #![trigger left@[a], left@[b]]
                0 <= a < b < left.len() ==> key_le(left@[a], left@[b]),
            forall|a: int, b: int|
                #![trigger right@[a], right@[b]]
                0 <= a < b < right.len() ==> key_le(right@[a], right@[b]),
            forall|a: int, b: int|
                #![trigger out@[a], out@[b]]
                0 <= a < b < out.len() ==> key_le(out@[a], out@[b]),
            forall|a: int, b: int|
                #![trigger out@[a], left@[b]]
                0 <= a < out.len() && i <= b < left.len() ==> key_le(out@[a], left@[b]),
            forall|a: int, b: int|
                #![trigger out@[a], right@[b]]
                0 <= a < out.len() && j <= b < right.len() ==> key_le(out@[a], right@[b]),
        decreases left.len() - i + right.len() - j,
    {
        if j >= right.len() || (i < left.len() && less_or_equal(left[i], right[j])) {
            proof {
                broadcast use {group_multiset_axioms, group_to_multiset_ensures};

                assert(left@.take(i + 1) =~= left@.take(i as int).push(left@[i as int]));
                assert(out@.push(left@[i as int]).to_multiset() =~= left@.take(
                    i + 1,
                ).to_multiset().add(right@.take(j as int).to_multiset()));
            }
            out.push(left[i]);
            i += 1;
        } else {
            proof {
                broadcast use {group_multiset_axioms, group_to_multiset_ensures};

                assert(right@.take(j + 1) =~= right@.take(j as int).push(right@[j as int]));
                assert(out@.push(right@[j as int]).to_multiset() =~= left@.take(
                    i as int,
                ).to_multiset().add(right@.take(j + 1).to_multiset()));
            }
            out.push(right[j]);
            j += 1;
        }
    }
    proof {
        assert(left@.take(i as int) =~= left@);
        assert(right@.take(j as int) =~= right@);
        lemma_multiset_commutative(left@, right@);
        lemma_sorted_is_unique(out@, left@ + right@);
    }
    out
}

/// The keys of `v` in ascending order.
pub fn sort_keys(v: &[Key]) -> (out: Vec<Key>)
    ensures
        out@ == sorted(v@),
    decreases v@.len(),
{
    let n: usize = v.len();
    if n <= 1 {
        let mut out: Vec<Key> = Vec::new();
        if n == 1 {
            out.push(v[0]);
        }
        assert(out@ =~= v@);
        proof {
            lemma_sorted_is_unique(out@, v@);
        }
        return out;
    }
    let mid: usize = n / 2;
    let left = sort_keys(vstd::slice::slice_subrange(v, 0, mid));
    let right = sort_keys(vstd::slice::slice_subrange(v, mid, n));
    let ghost l = v@.subrange(0, mid as int);
    let ghost r = v@.subrange(mid as int, n as int);
    proof {
        lemma_sorted(l);
        lemma_sorted(r);
        lemma_sorted_of_same(left@, l);
        lemma_sorted_of_same(right@, r);
        lemma_multiset_commutative(l, r);
        lemma_multiset_commutative(left@, right@);
        assert(l + r =~= v@);
        lemma_sorted_of_same(left@ + right@, v@);
    }
    merge(&left, &right)
}

} // verus!
