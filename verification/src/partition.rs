//! What the coverage invariant promises: every byte of a file belongs to exactly one leaf.

use vstd::prelude::*;

use crate::claim::{ClaimId, ClaimView};
use crate::coverage;
use crate::coverage::{CoverageError, Ledger};
use crate::index;
use crate::order;
use crate::order::Key;
use crate::span::{FileId, Span};

verus! {

/// The claim at `i` is a leaf, and `off` of `file` is one of its bytes.
pub open spec fn owns(claims: Seq<ClaimView>, i: int, file: FileId, off: int) -> bool {
    0 <= i < claims.len() && coverage::leaf(claims, i) && claims[i].span.has(file, off)
}

/// Some leaf has `off` of `file` as one of its bytes.
pub open spec fn owned(claims: Seq<ClaimView>, file: FileId, off: int) -> bool {
    exists|i: int| owns(claims, i, file, off)
}

/// How many claims can have ids of their own.
pub open spec fn id_limit() -> int {
    0x1_0000_0000
}

/// The key of the claim at `i`.
spec fn leaf_key(claims: Seq<ClaimView>, i: int) -> Key {
    (claims[i].span.start, claims[i].span.spec_end(), i as u64)
}

/// The claim at `i` is a non-empty leaf of `file`.
spec fn tiles(claims: Seq<ClaimView>, i: int, file: FileId) -> bool {
    claims[i].span.file == file && claims[i].span.len != 0 && coverage::leaf(claims, i)
}

proof fn lemma_leaf_keys(claims: Seq<ClaimView>, n: int, file: FileId)
    requires
        0 <= n <= claims.len() <= usize::MAX,
    ensures
        forall|i: int|
            0 <= i < n && #[trigger] tiles(claims, i, file) ==> coverage::leaf_keys(
                claims,
                n,
                file,
            ).contains(leaf_key(claims, i)),
        forall|p: int|
            0 <= p < coverage::leaf_keys(claims, n, file).len() ==> {
                let k = #[trigger] coverage::leaf_keys(claims, n, file)[p];
                k.2 < n && tiles(claims, k.2 as int, file) && k == leaf_key(claims, k.2 as int)
            },
    decreases n,
{
    if n > 0 {
        lemma_leaf_keys(claims, n - 1, file);
        let rest = coverage::leaf_keys(claims, n - 1, file);
        let all = coverage::leaf_keys(claims, n, file);
        assert forall|i: int| 0 <= i < n && #[trigger] tiles(
            claims,
            i,
            file,
        ) implies all.contains(leaf_key(claims, i)) by {
            if i < n - 1 {
                assert(rest.contains(leaf_key(claims, i)));
                let p = choose|p: int| 0 <= p < rest.len() && rest[p] == leaf_key(claims, i);
                assert(all[p] == rest[p]);
            } else {
                assert(all[all.len() - 1] == leaf_key(claims, i));
            }
        }
        assert forall|p: int| 0 <= p < all.len() implies {
            let k = #[trigger] all[p];
            k.2 < n && tiles(claims, k.2 as int, file) && k == leaf_key(claims, k.2 as int)
        } by {
            if p < rest.len() {
                assert(all[p] == rest[p]);
            }
        }
    }
}

/// What the sorted leaves of a file are.
proof fn lemma_sorted_leaves(claims: Seq<ClaimView>, file: FileId)
    requires
        claims.len() <= usize::MAX,
    ensures
        ({
            let s = coverage::sorted_leaves(claims, file);
            &&& forall|i: int|
                0 <= i < claims.len() && #[trigger] tiles(claims, i, file) ==> s.contains(
                    leaf_key(claims, i),
                )
            &&& forall|p: int|
                0 <= p < s.len() ==> {
                    let k = #[trigger] s[p];
                    &&& k.2 < claims.len()
                    &&& tiles(claims, k.2 as int, file)
                    &&& k == leaf_key(claims, k.2 as int)
                    &&& k.0 <= k.1
                }
            &&& forall|p: int, q: int|
                #![trigger s[p], s[q]]
                0 <= p <= q < s.len() ==> s[p].0 <= s[q].0
        }),
{
    let raw = coverage::leaf_keys(claims, claims.len() as int, file);
    let s = coverage::sorted_leaves(claims, file);
    lemma_leaf_keys(claims, claims.len() as int, file);
    order::lemma_sorted(raw);
    assert forall|p: int| 0 <= p < s.len() implies {
        let k = #[trigger] s[p];
        &&& k.2 < claims.len()
        &&& tiles(claims, k.2 as int, file)
        &&& k == leaf_key(claims, k.2 as int)
        &&& k.0 <= k.1
    } by {
        assert(s.contains(s[p]));
        assert(raw.contains(s[p]));
        let q = choose|q: int| 0 <= q < raw.len() && raw[q] == s[p];
        assert(raw[q].2 < claims.len());
    }
    assert forall|p: int, q: int|
        #![trigger s[p], s[q]]
        0 <= p <= q < s.len() implies s[p].0 <= s[q].0 by {
        if p < q {
            assert(order::key_le(s[p], s[q]));
        }
    }
}

/// Without a fault, each leaf starts where the one before it ends, and they reach `len`.
proof fn lemma_no_fault_tiles(leaves: Seq<Key>, k: int, file: FileId, len: u64)
    requires
        0 <= k <= leaves.len(),
        coverage::tiling_fault(leaves, k, file, len) is None,
    ensures
        forall|p: int|
            k <= p < leaves.len() ==> (#[trigger] leaves[p]).0 == coverage::tiled_to(leaves, p),
        coverage::tiled_to(leaves, leaves.len() as int) >= len,
    decreases leaves.len() - k,
{
    if k < leaves.len() {
        assert(leaves[k].0 == coverage::tiled_to(leaves, k));
        lemma_no_fault_tiles(leaves, k + 1, file, len);
        assert forall|p: int| k <= p < leaves.len() implies (#[trigger] leaves[p]).0
            == coverage::tiled_to(leaves, p) by {
            if p > k {
                assert(k + 1 <= p);
            }
        }
    }
}

/// A tiling up to `n` leaves an owner for every offset below where it ends.
proof fn lemma_tiling_finds(leaves: Seq<Key>, n: int, off: u64) -> (p: int)
    requires
        0 <= n <= leaves.len(),
        off < coverage::tiled_to(leaves, n),
        forall|p: int|
            0 <= p < leaves.len() ==> (#[trigger] leaves[p]).0 == coverage::tiled_to(leaves, p),
    ensures
        0 <= p < n,
        leaves[p].0 <= off < leaves[p].1,
    decreases n,
{
    assert(leaves[n - 1].0 == coverage::tiled_to(leaves, n - 1));
    if off < leaves[n - 1].0 {
        lemma_tiling_finds(leaves, n - 1, off)
    } else {
        n - 1
    }
}

proof fn lemma_no_fault_anywhere(l: Ledger, k: int, f: int)
    requires
        0 <= k <= f < l.files.len(),
        l.fault(k) is None,
    ensures
        coverage::tiling_fault(
            coverage::sorted_leaves(l.claims, l.files[f].0),
            0,
            l.files[f].0,
            l.files[f].1,
        ) is None,
    decreases f - k,
{
    if k < f {
        lemma_no_fault_anywhere(l, k + 1, f);
    }
}

/// The non-empty leaves of a file, sorted, each start where the one before it ends, and
/// reach the end of the file.
pub proof fn lemma_leaves_tile(l: Ledger, f: int)
    requires
        l.valid(),
        l.fault(0) is None,
        0 <= f < l.files.len(),
    ensures
        ({
            let s = coverage::sorted_leaves(l.claims, l.files[f].0);
            &&& forall|p: int|
                0 <= p < s.len() ==> {
                    let k = #[trigger] s[p];
                    &&& k.2 < l.claims.len()
                    &&& k.0 == coverage::tiled_to(s, p)
                    &&& k.0 == l.claims[k.2 as int].span.start
                    &&& k.1 == l.claims[k.2 as int].span.spec_end()
                    &&& l.claims[k.2 as int].span.file == l.files[f].0
                    &&& l.claims[k.2 as int].span.len != 0
                }
            &&& coverage::tiled_to(s, s.len() as int) >= l.files[f].1
        }),
{
    let (file, len) = l.files[f];
    let s = coverage::sorted_leaves(l.claims, file);
    lemma_no_fault_anywhere(l, 0, f);
    lemma_no_fault_tiles(s, 0, file, len);
    lemma_sorted_leaves(l.claims, file);
}

/// The sorted leaves stand for claims, and give their ranges.
pub proof fn lemma_leaf_positions(claims: Seq<ClaimView>, file: FileId)
    requires
        claims.len() <= usize::MAX,
    ensures
        forall|p: int|
            0 <= p < coverage::sorted_leaves(claims, file).len() ==> {
                let k = #[trigger] coverage::sorted_leaves(claims, file)[p];
                &&& k.2 < claims.len()
                &&& claims[k.2 as int].span.start == k.0
                &&& claims[k.2 as int].span.spec_end() == k.1
            },
{
    lemma_sorted_leaves(claims, file);
}

/// The coverage invariant: in a ledger without a fault, every byte of every declared file is
/// claimed by exactly one leaf.
pub proof fn law_every_byte_has_one_leaf(l: Ledger, f: int, off: u64)
    requires
        l.valid(),
        l.fault(0) is None,
        0 <= f < l.files.len(),
        off < l.files[f].1,
    ensures
        owned(l.claims, l.files[f].0, off as int),
        forall|i: int, j: int|
            owns(l.claims, i, l.files[f].0, off as int) && owns(
                l.claims,
                j,
                l.files[f].0,
                off as int,
            ) ==> i == j,
{
    let (file, len) = l.files[f];
    let s = coverage::sorted_leaves(l.claims, file);
    lemma_no_fault_anywhere(l, 0, f);
    lemma_no_fault_tiles(s, 0, file, len);
    lemma_sorted_leaves(l.claims, file);
    let p = lemma_tiling_finds(s, s.len() as int, off);
    assert(owns(l.claims, s[p].2 as int, file, off as int));
    assert forall|i: int, j: int|
        owns(l.claims, i, file, off as int) && owns(l.claims, j, file, off as int) implies i
        == j by {
        assert(tiles(l.claims, i, file) && tiles(l.claims, j, file));
        assert(s.contains(leaf_key(l.claims, i)) && s.contains(leaf_key(l.claims, j)));
        let a = choose|a: int| 0 <= a < s.len() && s[a] == leaf_key(l.claims, i);
        let b = choose|b: int| 0 <= b < s.len() && s[b] == leaf_key(l.claims, j);
        if a < b {
            assert(s[a + 1].0 == coverage::tiled_to(s, a + 1));
            assert(s[a + 1].0 <= s[b].0);
        }
        if b < a {
            assert(s[b + 1].0 == coverage::tiled_to(s, b + 1));
            assert(s[b + 1].0 <= s[a].0);
        }
    }
}

/// The key `k` is that of the span at `i`, a non-empty one of `file`.
spec fn keyed(spans: Seq<(Span, ClaimId)>, file: FileId, k: Key, i: int) -> bool {
    &&& 0 <= i < spans.len()
    &&& spans[i].0.len != 0
    &&& spans[i].0.file == file
    &&& k == index::entry_key(spans[i].0, spans[i].1)
}

/// The key `k` is that of some non-empty span of `file`.
spec fn stands_for_one(spans: Seq<(Span, ClaimId)>, file: FileId, k: Key) -> bool {
    exists|i: int| #[trigger] keyed(spans, file, k, i)
}

proof fn lemma_file_keys(spans: Seq<(Span, ClaimId)>, file: FileId)
    ensures
        forall|i: int|
            0 <= i < spans.len() && (#[trigger] spans[i]).0.len != 0 && spans[i].0.file == file
                ==> index::file_keys(spans, file).contains(
                index::entry_key(spans[i].0, spans[i].1),
            ),
        forall|p: int|
            0 <= p < index::file_keys(spans, file).len() ==> stands_for_one(
                spans,
                file,
                #[trigger] index::file_keys(spans, file)[p],
            ),
        forall|p: int, q: int|
            #![trigger index::file_keys(spans, file)[p], index::file_keys(spans, file)[q]]
            (forall|a: int, b: int|
                #![trigger spans[a], spans[b]]
                0 <= a < b < spans.len() ==> spans[a].1 != spans[b].1) && 0 <= p < q
                < index::file_keys(spans, file).len() ==> index::file_keys(spans, file)[p].2
                != index::file_keys(spans, file)[q].2,
    decreases spans.len(),
{
    if spans.len() > 0 {
        let front = spans.drop_last();
        let rest = index::file_keys(front, file);
        let all = index::file_keys(spans, file);
        lemma_file_keys(front, file);
        assert forall|i: int|
            0 <= i < spans.len() && (#[trigger] spans[i]).0.len != 0 && spans[i].0.file
                == file implies all.contains(index::entry_key(spans[i].0, spans[i].1)) by {
            let k = index::entry_key(spans[i].0, spans[i].1);
            if i < front.len() {
                assert(front[i] == spans[i]);
                assert(rest.contains(k));
                let p = choose|p: int| 0 <= p < rest.len() && rest[p] == k;
                assert(all[p] == k);
            } else {
                assert(all[all.len() - 1] == k);
            }
        }
        assert forall|p: int| 0 <= p < all.len() implies stands_for_one(
            spans,
            file,
            #[trigger] all[p],
        ) by {
            if p < rest.len() {
                assert(all[p] == rest[p]);
                let i = choose|i: int| #[trigger] keyed(front, file, rest[p], i);
                assert(keyed(spans, file, all[p], i));
            } else {
                assert(keyed(spans, file, all[p], spans.len() - 1));
            }
        }
        assert forall|p: int, q: int|
            #![trigger all[p], all[q]]
            (forall|a: int, b: int|
                #![trigger spans[a], spans[b]]
                0 <= a < b < spans.len() ==> spans[a].1 != spans[b].1) && 0 <= p < q
                < all.len() implies all[p].2 != all[q].2 by {
            assert forall|a: int, b: int|
                #![trigger front[a], front[b]]
                0 <= a < b < front.len() implies front[a].1 != front[b].1 by {
                assert(front[a] == spans[a] && front[b] == spans[b]);
            }
            if q < rest.len() {
                assert(all[p] == rest[p] && all[q] == rest[q]);
            } else {
                assert(all[p] == rest[p]);
                assert(stands_for_one(front, file, rest[p]));
                let i = choose|i: int| #[trigger] keyed(front, file, rest[p], i);
                assert(front[i] == spans[i]);
                assert(spans[i].1 != spans[spans.len() - 1].1);
            }
        }
    }
}

proof fn lemma_hits_distinct(l: Seq<Key>, lo: int, hi: int, by_len: bool)
    requires
        forall|p: int, q: int|
            #![trigger l[p], l[q]]
            0 <= p < q < l.len() ==> l[p].2 != l[q].2,
    ensures
        ({
            let h = index::hits(l, lo, hi, by_len);
            forall|p: int, q: int| #![trigger h[p], h[q]] 0 <= p < q < h.len() ==> h[p].1 != h[q].1
        }),
    decreases l.len(),
{
    if l.len() > 0 {
        let rest = l.drop_first();
        let tail = index::hits(rest, lo, hi, by_len);
        let all = index::hits(l, lo, hi, by_len);
        assert forall|p: int, q: int|
            #![trigger rest[p], rest[q]]
            0 <= p < q < rest.len() implies rest[p].2 != rest[q].2 by {
            assert(rest[p] == l[p + 1] && rest[q] == l[q + 1]);
        }
        lemma_hits_distinct(rest, lo, hi, by_len);
        if index::reaches(l[0], lo, hi) {
            assert forall|p: int, q: int|
                #![trigger all[p], all[q]]
                0 <= p < q < all.len() implies all[p].1 != all[q].1 by {
                assert(all[q] == tail[q - 1]);
                if p > 0 {
                    assert(all[p] == tail[p - 1]);
                } else {
                    index::lemma_hits_contain(rest, lo, hi, by_len, tail[q - 1]);
                    assert(tail.contains(tail[q - 1]));
                    let i = choose|i: int|
                        0 <= i < rest.len() && index::reaches(#[trigger] rest[i], lo, hi)
                            && index::hit_key(rest[i], by_len) == tail[q - 1];
                    assert(rest[i] == l[i + 1]);
                    assert(l[0].2 != l[i + 1].2);
                }
            }
        }
    }
}

/// How many offsets the range of a claim has.
pub open spec fn reach(claims: Seq<ClaimView>, id: ClaimId) -> int {
    claims[id.0 as int].span.spec_end() - claims[id.0 as int].span.start
}

/// The hover query: a claim is listed for a byte exactly when it covers that byte, it is
/// listed once, and the shortest come first, those of one length by id.
pub proof fn law_point_query_is_exact(l: Ledger, file: FileId, off: u64)
    requires
        l.valid(),
        l.claims.len() <= id_limit(),
    ensures
        ({
            let r = index::innermost_first(index::file_keys(l.spans(), file), off);
            &&& r.no_duplicates()
            &&& forall|id: ClaimId| #[trigger]
                r.contains(id) <==> id.0 < l.claims.len() && l.claims[id.0 as int].span.has(
                    file,
                    off as int,
                )
            &&& forall|p: int, q: int|
                #![trigger r[p], r[q]]
                0 <= p < q < r.len() ==> reach(l.claims, r[p]) < reach(l.claims, r[q]) || (reach(
                    l.claims,
                    r[p],
                ) == reach(l.claims, r[q]) && r[p].0 < r[q].0)
        }),
{
    let spans = l.spans();
    let keys = index::file_keys(spans, file);
    let found = index::hits(keys, off as int, off + 1, true);
    let s = order::sorted(found);
    let r = index::ids_of(s);
    assert forall|a: int, b: int|
        #![trigger spans[a], spans[b]]
        0 <= a < b < spans.len() implies spans[a].1 != spans[b].1 by {}
    lemma_file_keys(spans, file);
    lemma_hits_distinct(keys, off as int, off + 1, true);
    order::lemma_sorted(found);
    assert(found.no_duplicates());
    found.lemma_multiset_has_no_duplicates();
    s.lemma_multiset_has_no_duplicates_conv();
    assert forall|p: int| 0 <= p < s.len() implies found.contains(#[trigger] s[p]) by {
        assert(s.contains(s[p]));
    }
    assert forall|h: Key| #[trigger] found.contains(h) implies exists|i: int|
        0 <= i < l.claims.len() && (#[trigger] l.claims[i]).span.has(file, off as int) && h
            == index::hit_key(index::entry_key(l.claims[i].span, mint_of(i)), true) by {
        index::lemma_hits_contain(keys, off as int, off + 1, true, h);
        let p = choose|p: int|
            0 <= p < keys.len() && index::reaches(#[trigger] keys[p], off as int, off + 1)
                && index::hit_key(keys[p], true) == h;
        let i = choose|i: int| #[trigger] keyed(spans, file, keys[p], i);
        assert(l.claims[i].span.has(file, off as int));
    }
    assert forall|p: int, q: int| 0 <= p < r.len() && 0 <= q < r.len() && p != q implies r[p]
        != r[q] by {
        let x = s[p];
        let y = s[q];
        assert(found.contains(x) && found.contains(y));
        let a = choose|a: int| 0 <= a < found.len() && found[a] == x;
        let b = choose|b: int| 0 <= b < found.len() && found[b] == y;
        if a == b {
            assert(s[p] == s[q]);
        }
    }
    assert forall|p: int, q: int|
        #![trigger r[p], r[q]]
        0 <= p < q < r.len() implies reach(l.claims, r[p]) < reach(l.claims, r[q]) || (reach(
        l.claims,
        r[p],
    ) == reach(l.claims, r[q]) && r[p].0 < r[q].0) by {
        assert(found.contains(s[p]) && found.contains(s[q]));
        assert(order::key_le(s[p], s[q]));
        assert(r[p] != r[q]);
    }
    assert forall|id: ClaimId| #[trigger] r.contains(id) <==> id.0 < l.claims.len()
        && l.claims[id.0 as int].span.has(file, off as int) by {
        if r.contains(id) {
            let p = choose|p: int| 0 <= p < r.len() && r[p] == id;
            assert(found.contains(s[p]));
        }
        if id.0 < l.claims.len() && l.claims[id.0 as int].span.has(file, off as int) {
            let i = id.0 as int;
            assert(spans[i].1 == id);
            let k = index::entry_key(spans[i].0, spans[i].1);
            assert(keys.contains(k));
            let p = choose|p: int| 0 <= p < keys.len() && keys[p] == k;
            let h = index::hit_key(k, true);
            index::lemma_hits_contain(keys, off as int, off + 1, true, h);
            assert(index::reaches(keys[p], off as int, off + 1));
            assert(found.contains(h));
            assert(s.contains(h));
            let q = choose|q: int| 0 <= q < s.len() && s[q] == h;
            assert(r[q] == id);
        }
    }
}

spec fn mint_of(i: int) -> ClaimId {
    coverage::mint(i)
}

/// Hovering over any byte of a covered file finds exactly one leaf.
pub proof fn law_hover_finds_one_leaf(l: Ledger, f: int, off: u64)
    requires
        l.valid(),
        l.fault(0) is None,
        l.claims.len() <= id_limit(),
        0 <= f < l.files.len(),
        off < l.files[f].1,
    ensures
        ({
            let r = index::innermost_first(index::file_keys(l.spans(), l.files[f].0), off);
            exists|p: int|
                0 <= p < r.len() && coverage::leaf(l.claims, (#[trigger] r[p]).0 as int)
                    && forall|q: int|
                    0 <= q < r.len() && coverage::leaf(l.claims, (#[trigger] r[q]).0 as int) ==> q
                        == p
        }),
{
    let file = l.files[f].0;
    let r = index::innermost_first(index::file_keys(l.spans(), file), off);
    law_every_byte_has_one_leaf(l, f, off);
    law_point_query_is_exact(l, file, off);
    let i = choose|i: int| owns(l.claims, i, file, off as int);
    let id = ClaimId(i as u32);
    assert(r.contains(id));
    let p = choose|p: int| 0 <= p < r.len() && r[p] == id;
    assert forall|q: int|
        0 <= q < r.len() && coverage::leaf(l.claims, (#[trigger] r[q]).0 as int) implies q == p by {
        assert(r.contains(r[q]));
        assert(owns(l.claims, r[q].0 as int, file, off as int));
        assert(owns(l.claims, i, file, off as int));
    }
}

/// Past the end of a file, and in a file that was not declared, there is nothing to find.
pub proof fn law_nothing_is_found_outside(l: Ledger, file: FileId, off: u64)
    requires
        l.valid(),
        l.contained(),
        l.claims.len() <= id_limit(),
        coverage::len_of(l.files, file) matches Some(len) ==> len <= off,
    ensures
        index::innermost_first(index::file_keys(l.spans(), file), off).len() == 0,
{
    let r = index::innermost_first(index::file_keys(l.spans(), file), off);
    law_point_query_is_exact(l, file, off);
    if r.len() > 0 {
        assert(r.contains(r[0]));
        assert(coverage::len_of(l.files, l.claims[r[0].0 as int].span.file) is Some);
    }
}

/// A path to the root starts at the claim asked for, steps from child to parent, each of
/// which contains the one before, and is no longer than there are claims.
pub proof fn law_ancestry_climbs(claims: Seq<ClaimView>, id: ClaimId)
    requires
        coverage::nested(claims),
        id.0 < claims.len(),
    ensures
        ({
            let r = coverage::chain(claims, id);
            &&& 0 < r.len() <= claims.len()
            &&& r[0] == id
            &&& forall|i: int|
                #![trigger r[i]]
                0 <= i < r.len() ==> r[i].0 < claims.len() && (if i + 1 < r.len() {
                    &&& claims[r[i].0 as int].parent == Some(r[i + 1])
                    &&& claims[r[i + 1].0 as int].span.nests(claims[r[i].0 as int].span)
                } else {
                    claims[r[i].0 as int].parent is None
                })
        }),
    decreases id.0,
{
    let r = coverage::chain(claims, id);
    coverage::lemma_chain_is_bounded(claims, id);
    let c = claims[id.0 as int];
    if c.parent is Some {
        let up = coverage::chain(claims, c.parent->0);
        law_ancestry_climbs(claims, c.parent->0);
        assert forall|i: int|
            #![trigger r[i]]
            0 <= i < r.len() implies r[i].0 < claims.len() && (if i + 1 < r.len() {
            &&& claims[r[i].0 as int].parent == Some(r[i + 1])
            &&& claims[r[i + 1].0 as int].span.nests(claims[r[i].0 as int].span)
        } else {
            claims[r[i].0 as int].parent is None
        }) by {
            if i > 0 {
                assert(r[i] == up[i - 1]);
                if i + 1 < r.len() {
                    assert(r[i + 1] == up[i]);
                }
            } else {
                assert(r[1] == up[0]);
            }
        }
    }
}

pub proof fn lemma_len_of(files: Seq<(FileId, u64)>, k: int)
    requires
        coverage::ascending(files),
        0 <= k < files.len(),
    ensures
        coverage::len_of(files, files[k].0) == Some(files[k].1),
    decreases files.len(),
{
    if k > 0 {
        let rest = files.drop_first();
        assert(files[0].0.0 < files[k].0.0);
        assert forall|i: int, j: int|
            #![trigger rest[i], rest[j]]
            0 <= i < j < rest.len() implies rest[i].0.0 < rest[j].0.0 by {
            assert(rest[i] == files[i + 1] && rest[j] == files[j + 1]);
        }
        assert(rest[k - 1] == files[k]);
        lemma_len_of(rest, k - 1);
    }
}

/// A key covers `off`.
spec fn covers(k: Key, off: int) -> bool {
    k.0 <= off < k.1
}

proof fn lemma_holes_cover(leaves: Seq<Key>, cursor: u64, file: FileId, len: u64, off: u64)
    requires
        cursor <= off < len,
    ensures
        (exists|p: int| 0 <= p < leaves.len() && covers(#[trigger] leaves[p], off as int)) || (
        exists|h: int|
            0 <= h < coverage::holes(leaves, cursor, file, len).len()
                && #[trigger] coverage::holes(leaves, cursor, file, len)[h].has(file, off as int)),
    decreases leaves.len(),
{
    let all = coverage::holes(leaves, cursor, file, len);
    if leaves.len() == 0 {
        assert(all[0].has(file, off as int));
    } else {
        let (start, end, at) = leaves[0];
        let next = if cursor < end {
            end
        } else {
            cursor
        };
        let tail = leaves.drop_first();
        let rest = coverage::holes(tail, next, file, len);
        if covers(leaves[0], off as int) {
        } else if start > cursor && off < start {
            assert(all[0].has(file, off as int));
        } else {
            lemma_holes_cover(tail, next, file, len, off);
            if exists|p: int| 0 <= p < tail.len() && covers(#[trigger] tail[p], off as int) {
                let p = choose|p: int| 0 <= p < tail.len() && covers(#[trigger] tail[p], off as int);
                assert(leaves[p + 1] == tail[p]);
            } else {
                let h = choose|h: int|
                    0 <= h < rest.len() && #[trigger] rest[h].has(file, off as int);
                if start > cursor {
                    assert(all[h + 1] == rest[h]);
                } else {
                    assert(all[h] == rest[h]);
                }
            }
        }
    }
}

/// Holes are non-empty, ascending, within the file, and clear of every leaf.
proof fn lemma_holes_are_clear(leaves: Seq<Key>, cursor: u64, file: FileId, len: u64)
    requires
        forall|p: int| 0 <= p < leaves.len() ==> (#[trigger] leaves[p]).0 <= leaves[p].1,
        forall|p: int| 0 <= p < leaves.len() ==> (#[trigger] leaves[p]).0 <= len,
        forall|p: int, q: int|
            #![trigger leaves[p], leaves[q]]
            0 <= p <= q < leaves.len() ==> leaves[p].0 <= leaves[q].0,
    ensures
        ({
            let all = coverage::holes(leaves, cursor, file, len);
            &&& forall|h: int|
                #![trigger all[h]]
                0 <= h < all.len() ==> all[h].file == file && all[h].len > 0 && all[h].start
                    >= cursor && all[h].start + all[h].len <= len
            &&& forall|h: int, p: int|
                #![trigger all[h], leaves[p]]
                0 <= h < all.len() && 0 <= p < leaves.len() ==> leaves[p].1 <= all[h].start
                    || all[h].start + all[h].len <= leaves[p].0
            &&& forall|g: int, h: int|
                #![trigger all[g], all[h]]
                0 <= g < h < all.len() ==> all[g].start + all[g].len <= all[h].start
        }),
    decreases leaves.len(),
{
    if leaves.len() > 0 {
        let (start, end, at) = leaves[0];
        assert(leaves[0].0 <= leaves[0].1);
        let next = if cursor < end {
            end
        } else {
            cursor
        };
        let tail = leaves.drop_first();
        let rest = coverage::holes(tail, next, file, len);
        let all = coverage::holes(leaves, cursor, file, len);
        assert forall|p: int| 0 <= p < tail.len() implies (#[trigger] tail[p]).0 <= tail[p].1
            && tail[p].0 <= len by {
            assert(tail[p] == leaves[p + 1]);
        }
        assert forall|p: int, q: int|
            #![trigger tail[p], tail[q]]
            0 <= p <= q < tail.len() implies tail[p].0 <= tail[q].0 by {
            assert(tail[p] == leaves[p + 1] && tail[q] == leaves[q + 1]);
        }
        lemma_holes_are_clear(tail, next, file, len);
        let shift: int = if start > cursor {
            1
        } else {
            0
        };
        assert forall|h: int| shift <= h < all.len() implies #[trigger] all[h] == rest[h
            - shift] by {}
        assert forall|h: int, p: int|
            #![trigger all[h], leaves[p]]
            0 <= h < all.len() && 0 <= p < leaves.len() implies leaves[p].1 <= all[h].start
            || all[h].start + all[h].len <= leaves[p].0 by {
            if h < shift {
                assert(leaves[0].0 <= leaves[p].0);
            } else {
                assert(all[h] == rest[h - shift]);
                if p > 0 {
                    assert(leaves[p] == tail[p - 1]);
                }
            }
        }
        assert forall|g: int, h: int|
            #![trigger all[g], all[h]]
            0 <= g < h < all.len() implies all[g].start + all[g].len <= all[h].start by {
            assert(all[h] == rest[h - shift]);
            if g >= shift {
                assert(all[g] == rest[g - shift]);
            }
        }
    }
}

proof fn lemma_innermost_contains(claims: Seq<ClaimView>, span: Span)
    ensures
        coverage::innermost(claims, span) matches Some(i) ==> {
            &&& 0 <= i < claims.len()
            &&& claims[i].span.len != 0
            &&& claims[i].span.nests(span)
        },
    decreases claims.len(),
{
    if claims.len() > 0 {
        lemma_innermost_contains(claims.drop_last(), span);
    }
}

/// No leaf shares a byte with `h`.
spec fn clear(claims: Seq<ClaimView>, h: Span) -> bool {
    forall|i: int|
        0 <= i < claims.len() && #[trigger] coverage::leaf(claims, i) ==> !claims[i].span.meets(h)
}

/// `parent` is a shortest non-empty claim that contains `span`, or there is none and it is
/// nothing.
pub open spec fn shortest_around(
    claims: Seq<ClaimView>,
    span: Span,
    parent: Option<ClaimId>,
) -> bool {
    match parent {
        None => forall|i: int|
            0 <= i < claims.len() ==> (#[trigger] claims[i]).span.len == 0
                || !claims[i].span.nests(span),
        Some(p) => {
            &&& p.0 < claims.len()
            &&& claims[p.0 as int].span.len != 0
            &&& claims[p.0 as int].span.nests(span)
            &&& forall|i: int|
                0 <= i < claims.len() && (#[trigger] claims[i]).span.len != 0
                    && claims[i].span.nests(span) ==> claims[p.0 as int].span.len
                    <= claims[i].span.len
        },
    }
}

/// The claim at `i` of `after` names a hole of `before`: it is an unclaimed, non-empty leaf
/// that no leaf before it touches, under a shortest claim around it.
pub open spec fn names_hole(before: Seq<ClaimView>, after: Seq<ClaimView>, i: int) -> bool {
    &&& after[i].kind is Unclaimed
    &&& after[i].span.len != 0
    &&& coverage::leaf(after, i)
    &&& forall|j: int|
        0 <= j < i && #[trigger] coverage::leaf(after, j) ==> !after[j].span.meets(after[i].span)
    &&& shortest_around(before, after[i].span, after[i].parent)
}

/// `after` is `before` with holes of it named behind its claims, which stay as they are.
pub open spec fn only_named(before: Seq<ClaimView>, after: Seq<ClaimView>) -> bool {
    &&& before.len() <= after.len()
    &&& forall|i: int|
        0 <= i < before.len() ==> (#[trigger] after[i]) == before[i] && coverage::leaf(after, i)
            == coverage::leaf(before, i)
    &&& forall|i: int|
        before.len() <= i < after.len() ==> #[trigger] names_hole(before, after, i)
}

proof fn lemma_innermost_is_shortest(claims: Seq<ClaimView>, span: Span)
    ensures
        match coverage::innermost(claims, span) {
            None => forall|i: int|
                0 <= i < claims.len() ==> (#[trigger] claims[i]).span.len == 0
                    || !claims[i].span.nests(span),
            Some(p) => forall|i: int|
                0 <= i < claims.len() && (#[trigger] claims[i]).span.len != 0
                    && claims[i].span.nests(span) ==> claims[p].span.len <= claims[i].span.len,
        },
    decreases claims.len(),
{
    if claims.len() > 0 {
        let front = claims.drop_last();
        lemma_innermost_is_shortest(front, span);
        lemma_innermost_contains(front, span);
        assert forall|i: int| 0 <= i < front.len() implies front[i] == #[trigger] claims[i] by {}
    }
}

/// Naming one more hole leaves a ledger in which only holes were named.
proof fn lemma_one_more_named(before: Seq<ClaimView>, l: Ledger, h: Span)
    requires
        l.valid(),
        l.contained(),
        l.claims.len() <= id_limit(),
        h.len > 0,
        coverage::len_of(l.files, h.file) is Some,
        h.start + h.len <= coverage::len_of(l.files, h.file)->0,
        clear(l.claims, h),
        only_named(before, l.claims),
    ensures
        only_named(before, l.with(l.hole_claim(h)).claims),
{
    let c = l.hole_claim(h);
    let after = l.with(c).claims;
    let n = l.claims.len() as int;
    lemma_name_hole(l, h);
    lemma_innermost_contains(l.claims, h);
    lemma_innermost_is_shortest(l.claims, h);
    assert forall|i: int| 0 <= i < before.len() implies (#[trigger] after[i]) == before[i]
        && coverage::leaf(after, i) == coverage::leaf(before, i) by {
        assert(after[i] == l.claims[i]);
    }
    assert forall|i: int| before.len() <= i < after.len() implies #[trigger] names_hole(
        before,
        after,
        i,
    ) by {
        if i < n {
            assert(names_hole(before, l.claims, i));
            assert(after[i] == l.claims[i]);
            assert forall|j: int| 0 <= j < i && #[trigger] coverage::leaf(
                after,
                j,
            ) implies !after[j].span.meets(after[i].span) by {
                assert(coverage::leaf(l.claims, j));
            }
        } else {
            assert forall|j: int| 0 <= j < i && #[trigger] coverage::leaf(
                after,
                j,
            ) implies !after[j].span.meets(after[i].span) by {
                assert(coverage::leaf(l.claims, j));
            }
            if coverage::innermost(l.claims, h) is Some {
                let p = coverage::innermost(l.claims, h)->0;
                if p >= before.len() {
                    assert(names_hole(before, l.claims, p));
                    assert(l.claims[p].span.meets(h));
                }
                assert(l.claims[p] == before[p]);
            }
            assert forall|k: int| 0 <= k < before.len() implies #[trigger] before[k]
                == l.claims[k] by {}
            assert(shortest_around(before, h, c.parent));
        }
    }
}

/// Naming a hole that no leaf touches succeeds, makes a leaf of it, and takes leafness from
/// no other claim.
proof fn lemma_name_hole(l: Ledger, h: Span)
    requires
        l.valid(),
        l.contained(),
        l.claims.len() <= id_limit(),
        h.len > 0,
        coverage::len_of(l.files, h.file) is Some,
        h.start + h.len <= coverage::len_of(l.files, h.file)->0,
        clear(l.claims, h),
    ensures
        ({
            let c = l.hole_claim(h);
            let next = l.with(c);
            &&& l.push_fault(c) is None
            &&& c.span == h
            &&& next.claims.len() <= usize::MAX ==> next.valid()
            &&& next.contained()
            &&& coverage::leaf(next.claims, l.claims.len() as int)
            &&& forall|i: int|
                0 <= i < l.claims.len() ==> #[trigger] coverage::leaf(next.claims, i)
                    == coverage::leaf(l.claims, i)
        }),
{
    let c = l.hole_claim(h);
    let next = l.with(c);
    let n = l.claims.len() as int;
    lemma_innermost_contains(l.claims, h);
    assert(c.parent is Some ==> {
        let p = (c.parent->0).0 as int;
        p < n && l.claims[p].span.nests(h) && !coverage::leaf(l.claims, p)
    }) by {
        if coverage::innermost(l.claims, h) is Some {
            let p = coverage::innermost(l.claims, h)->0;
            if coverage::leaf(l.claims, p) {
                assert(l.claims[p].span.meets(h));
            }
        }
    }
    assert forall|i: int|
        #![trigger next.claims[i]]
        0 <= i < next.claims.len() && next.claims[i].parent is Some implies {
        let p = (next.claims[i].parent->0).0 as int;
        p < i && next.claims[p].span.nests(next.claims[i].span)
    } by {
        if i < n {
            assert(next.claims[i] == l.claims[i]);
        }
    }
    assert forall|i: int|
        #![trigger next.claims[i]]
        0 <= i < next.claims.len() implies {
        let s = next.claims[i].span;
        coverage::len_of(next.files, s.file) is Some && s.spec_end() <= coverage::len_of(
            next.files,
            s.file,
        )->0
    } by {
        if i < n {
            assert(next.claims[i] == l.claims[i]);
        }
    }
    assert forall|i: int| 0 <= i < n implies #[trigger] coverage::leaf(next.claims, i)
        == coverage::leaf(l.claims, i) by {
        if coverage::leaf(l.claims, i) {
            assert forall|j: int| 0 <= j < next.claims.len() implies !#[trigger] coverage::parents(
                next.claims,
                i,
                j,
            ) by {
                if j < n {
                    assert(!coverage::parents(l.claims, i, j));
                }
            }
        } else {
            let j = choose|j: int| 0 <= j < n && coverage::parents(l.claims, i, j);
            assert(coverage::parents(next.claims, i, j));
        }
    }
    assert forall|j: int| 0 <= j < next.claims.len() implies !#[trigger] coverage::parents(
        next.claims,
        n,
        j,
    ) by {
        assert(next.claims[j].parent is Some ==> (next.claims[j].parent->0).0 < j);
    }
}

/// Naming ascending holes clear of all leaves names every one of them.
proof fn lemma_name_holes(before: Seq<ClaimView>, l: Ledger, all: Seq<Span>, q: int)
    requires
        only_named(before, l.claims),
        l.valid(),
        l.contained(),
        0 <= q <= all.len(),
        l.with_holes(all.take(q)).claims.len() <= id_limit(),
        l.with_holes(all.take(q)).claims.len() <= usize::MAX,
        forall|h: int|
            #![trigger all[h]]
            0 <= h < all.len() ==> {
                &&& all[h].len > 0
                &&& coverage::len_of(l.files, all[h].file) is Some
                &&& all[h].start + all[h].len <= coverage::len_of(l.files, all[h].file)->0
                &&& clear(l.claims, all[h])
            },
        forall|g: int, h: int|
            #![trigger all[g], all[h]]
            0 <= g < h < all.len() ==> all[g].start + all[g].len <= all[h].start,
    ensures
        ({
            let r = l.with_holes(all.take(q));
            let n = l.claims.len();
            &&& r.valid()
            &&& r.contained()
            &&& r.files == l.files
            &&& only_named(before, r.claims)
            &&& r.claims.len() == n + q
            &&& forall|i: int|
                0 <= i < n ==> #[trigger] r.claims[i] == l.claims[i] && coverage::leaf(r.claims, i)
                    == coverage::leaf(l.claims, i)
            &&& forall|h: int|
                0 <= h < q ==> (#[trigger] r.claims[n + h]).span == all[h] && coverage::leaf(
                    r.claims,
                    n + h,
                )
        }),
    decreases q,
{
    let n = l.claims.len() as int;
    let r = l.with_holes(all.take(q));
    if q == 0 {
        assert(all.take(0) =~= Seq::<Span>::empty());
    } else {
        assert(all.take(q).drop_last() =~= all.take(q - 1));
        let b = l.with_holes(all.take(q - 1));
        let h = all[q - 1];
        assert(all.take(q).last() == h);
        lemma_filling_grows(l, all.take(q - 1));
        lemma_name_holes(before, l, all, q - 1);
        assert forall|i: int|
            0 <= i < b.claims.len() && #[trigger] coverage::leaf(
                b.claims,
                i,
            ) implies !b.claims[i].span.meets(h) by {
            if i < n {
                assert(b.claims[i] == l.claims[i]);
                assert(coverage::leaf(l.claims, i));
            } else {
                assert(b.claims[n + (i - n)].span == all[i - n]);
                assert(all[i - n].start + all[i - n].len <= h.start);
            }
        }
        lemma_name_hole(b, h);
        lemma_one_more_named(before, b, h);
        assert(r == b.with(b.hole_claim(h)));
        assert forall|i: int| 0 <= i < n implies #[trigger] r.claims[i] == l.claims[i]
            && coverage::leaf(r.claims, i) == coverage::leaf(l.claims, i) by {
            assert(r.claims[i] == b.claims[i]);
        }
        assert forall|g: int| 0 <= g < q implies (#[trigger] r.claims[n + g]).span == all[g]
            && coverage::leaf(r.claims, n + g) by {
            if g < q - 1 {
                assert(r.claims[n + g] == b.claims[n + g]);
            }
        }
    }
}

/// Filling adds claims and takes none away.
proof fn lemma_filling_grows(l: Ledger, all: Seq<Span>)
    ensures
        l.with_holes(all).files == l.files,
        l.claims.len() <= l.with_holes(all).claims.len() <= l.claims.len() + all.len(),
    decreases all.len(),
{
    if all.len() > 0 {
        lemma_filling_grows(l, all.drop_last());
    }
}

/// After filling, every byte of the first `n` files has a leaf.
proof fn lemma_filled_owns(l: Ledger, n: int)
    requires
        l.valid(),
        l.contained(),
        0 <= n <= l.files.len(),
        l.filled(n).claims.len() <= id_limit(),
        l.filled(n).claims.len() <= usize::MAX,
    ensures
        l.filled(n).valid(),
        l.filled(n).contained(),
        l.filled(n).files == l.files,
        only_named(l.claims, l.filled(n).claims),
        forall|k: int, off: int|
            0 <= k < n && 0 <= off < l.files[k].1 ==> #[trigger] owned(
                l.filled(n).claims,
                l.files[k].0,
                off,
            ),
    decreases n,
{
    if n > 0 {
        let b = l.filled(n - 1);
        let r = l.filled(n);
        let (file, len) = l.files[n - 1];
        let leaves = coverage::sorted_leaves(b.claims, file);
        let all = coverage::holes(leaves, 0, file, len);
        lemma_filling_grows(b, all);
        lemma_filled_owns(l, n - 1);
        lemma_len_of(l.files, n - 1);
        lemma_sorted_leaves(b.claims, file);
        assert forall|p: int| 0 <= p < leaves.len() implies (#[trigger] leaves[p]).0 <= len by {
            assert(b.claims[leaves[p].2 as int].span.spec_end() <= len);
        }
        lemma_holes_are_clear(leaves, 0, file, len);
        assert forall|h: int|
            #![trigger all[h]]
            0 <= h < all.len() implies clear(b.claims, all[h]) by {
            assert forall|i: int|
                0 <= i < b.claims.len() && #[trigger] coverage::leaf(
                    b.claims,
                    i,
                ) implies !b.claims[i].span.meets(all[h]) by {
                if b.claims[i].span.file == file && b.claims[i].span.len != 0 {
                    assert(tiles(b.claims, i, file));
                    assert(leaves.contains(leaf_key(b.claims, i)));
                    let p = choose|p: int| 0 <= p < leaves.len() && leaves[p] == leaf_key(b.claims, i);
                    assert(leaves[p].1 <= all[h].start || all[h].start + all[h].len
                        <= leaves[p].0);
                }
            }
        }
        assert(all.take(all.len() as int) =~= all);
        lemma_name_holes(l.claims, b, all, all.len() as int);
        let old_len = b.claims.len() as int;
        assert forall|k: int, off: int|
            0 <= k < n && 0 <= off < l.files[k].1 implies #[trigger] owned(
            r.claims,
            l.files[k].0,
            off,
        ) by {
            if k < n - 1 {
                assert(owned(b.claims, l.files[k].0, off));
                let i = choose|i: int| owns(b.claims, i, l.files[k].0, off);
                assert(r.claims[i] == b.claims[i]);
                assert(owns(r.claims, i, l.files[k].0, off));
            } else {
                lemma_holes_cover(leaves, 0, file, len, off as u64);
                if exists|p: int| 0 <= p < leaves.len() && covers(#[trigger] leaves[p], off) {
                    let p = choose|p: int|
                        0 <= p < leaves.len() && covers(#[trigger] leaves[p], off);
                    let i = leaves[p].2 as int;
                    assert(r.claims[i] == b.claims[i]);
                    assert(owns(r.claims, i, file, off));
                } else {
                    let h = choose|h: int| 0 <= h < all.len() && #[trigger] all[h].has(file, off);
                    assert(r.claims[old_len + h].span == all[h]);
                    assert(owns(r.claims, old_len + h, file, off));
                }
            }
        }
    }
}

/// Some key covers `off`.
spec fn covered(leaves: Seq<Key>, off: int) -> bool {
    exists|p: int| 0 <= p < leaves.len() && covers(#[trigger] leaves[p], off)
}

/// A gap in a tiling is an offset no leaf covers.
proof fn lemma_gap_is_uncovered(leaves: Seq<Key>, k: int, file: FileId, len: u64)
    requires
        0 <= k <= leaves.len(),
        forall|p: int|
            0 <= p < leaves.len() ==> (#[trigger] leaves[p]).0 <= leaves[p].1 && leaves[p].1
                <= len,
        forall|p: int, q: int|
            #![trigger leaves[p], leaves[q]]
            0 <= p <= q < leaves.len() ==> leaves[p].0 <= leaves[q].0,
        forall|p: int| 0 <= p < k ==> (#[trigger] leaves[p]).1 <= coverage::tiled_to(leaves, k),
        forall|off: int| 0 <= off < len ==> #[trigger] covered(leaves, off),
    ensures
        !(coverage::tiling_fault(leaves, k, file, len) matches Some(CoverageError::Gap { .. })),
    decreases leaves.len() - k,
{
    let cursor = coverage::tiled_to(leaves, k);
    if k >= leaves.len() {
        if cursor < len {
            assert(covered(leaves, cursor as int));
            let p = choose|p: int|
                0 <= p < leaves.len() && covers(#[trigger] leaves[p], cursor as int);
            assert(leaves[p].1 <= cursor);
        }
    } else {
        let start = leaves[k].0;
        if start > cursor {
            assert(leaves[k].1 <= len);
            assert(covered(leaves, cursor as int));
            let p = choose|p: int|
                0 <= p < leaves.len() && covers(#[trigger] leaves[p], cursor as int);
            if p >= k {
                assert(leaves[k].0 <= leaves[p].0);
            }
        } else if start == cursor {
            assert forall|p: int| 0 <= p < k + 1 implies (#[trigger] leaves[p]).1
                <= coverage::tiled_to(leaves, k + 1) by {
                assert(leaves[k].0 <= leaves[k].1);
            }
            lemma_gap_is_uncovered(leaves, k + 1, file, len);
        }
    }
}

proof fn lemma_no_gap_from(l: Ledger, k: int)
    requires
        l.valid(),
        l.contained(),
        0 <= k <= l.files.len(),
        forall|f: int, off: int|
            0 <= f < l.files.len() && 0 <= off < l.files[f].1 ==> #[trigger] owned(
                l.claims,
                l.files[f].0,
                off,
            ),
    ensures
        !(l.fault(k) matches Some(CoverageError::Gap { .. })),
    decreases l.files.len() - k,
{
    if k < l.files.len() {
        let (file, len) = l.files[k];
        let leaves = coverage::sorted_leaves(l.claims, file);
        lemma_sorted_leaves(l.claims, file);
        lemma_len_of(l.files, k);
        assert forall|p: int| 0 <= p < leaves.len() implies (#[trigger] leaves[p]).0 <= leaves[p].1
            && leaves[p].1 <= len by {
            assert(l.claims[leaves[p].2 as int].span.spec_end() <= len);
        }
        assert forall|off: int| 0 <= off < len implies #[trigger] covered(leaves, off) by {
            assert(owned(l.claims, l.files[k].0, off));
            let i = choose|i: int| owns(l.claims, i, file, off);
            assert(tiles(l.claims, i, file));
            assert(leaves.contains(leaf_key(l.claims, i)));
            let p = choose|p: int| 0 <= p < leaves.len() && leaves[p] == leaf_key(l.claims, i);
            assert(covers(leaves[p], off));
        }
        lemma_gap_is_uncovered(leaves, 0, file, len);
        lemma_no_gap_from(l, k + 1);
    }
}

/// Filling closes every gap: afterwards every byte of every declared file has a leaf, and the
/// partition can only fail where two leaves overlap.
pub proof fn law_filling_leaves_no_gap(l: Ledger)
    requires
        l.valid(),
        l.contained(),
        l.filled(l.files.len() as int).claims.len() <= id_limit(),
        l.filled(l.files.len() as int).claims.len() <= usize::MAX,
    ensures
        ({
            let r = l.filled(l.files.len() as int);
            &&& r.files == l.files
            &&& forall|f: int, off: int|
                0 <= f < r.files.len() && 0 <= off < r.files[f].1 ==> #[trigger] owned(
                    r.claims,
                    r.files[f].0,
                    off,
                )
            &&& r.fault(0) is Some ==> r.fault(0)->0 is LeafOverlap
        }),
{
    let n = l.files.len() as int;
    let r = l.filled(n);
    lemma_filled_owns(l, n);
    lemma_no_gap_from(r, 0);
    lemma_fault_kinds(r, 0);
}

/// Filling only names holes: the claims that were there keep their places, and each claim
/// that is added is unclaimed, not empty, touched by no leaf before it, and under a shortest
/// non-empty claim of those that were there to contain it, if one does.
pub proof fn law_filling_only_names_holes(l: Ledger)
    requires
        l.valid(),
        l.contained(),
        l.filled(l.files.len() as int).claims.len() <= id_limit(),
        l.filled(l.files.len() as int).claims.len() <= usize::MAX,
    ensures
        only_named(l.claims, l.filled(l.files.len() as int).claims),
        l.filled(l.files.len() as int).contained(),
{
    lemma_filled_owns(l, l.files.len() as int);
}

/// Where every byte of a file has a leaf, there is no hole to name.
proof fn lemma_owned_has_no_holes(l: Ledger, f: int)
    requires
        l.valid(),
        l.contained(),
        0 <= f < l.files.len(),
        forall|off: int|
            0 <= off < l.files[f].1 ==> #[trigger] owned(l.claims, l.files[f].0, off),
    ensures
        coverage::holes(
            coverage::sorted_leaves(l.claims, l.files[f].0),
            0,
            l.files[f].0,
            l.files[f].1,
        ).len() == 0,
{
    let (file, len) = l.files[f];
    let leaves = coverage::sorted_leaves(l.claims, file);
    let all = coverage::holes(leaves, 0, file, len);
    lemma_len_of(l.files, f);
    lemma_sorted_leaves(l.claims, file);
    assert forall|p: int| 0 <= p < leaves.len() implies (#[trigger] leaves[p]).0 <= len by {
        assert(l.claims[leaves[p].2 as int].span.spec_end() <= len);
    }
    lemma_holes_are_clear(leaves, 0, file, len);
    if all.len() > 0 {
        let off = all[0].start as int;
        assert(owned(l.claims, file, off));
        let i = choose|i: int| owns(l.claims, i, file, off);
        assert(tiles(l.claims, i, file));
        assert(leaves.contains(leaf_key(l.claims, i)));
        let p = choose|p: int| 0 <= p < leaves.len() && leaves[p] == leaf_key(l.claims, i);
        assert(leaves[p].1 <= all[0].start || all[0].start + all[0].len <= leaves[p].0);
    }
}

proof fn lemma_nothing_left_to_fill(l: Ledger, n: int)
    requires
        l.valid(),
        l.contained(),
        0 <= n <= l.files.len(),
        forall|f: int, off: int|
            0 <= f < l.files.len() && 0 <= off < l.files[f].1 ==> #[trigger] owned(
                l.claims,
                l.files[f].0,
                off,
            ),
    ensures
        l.filled(n) == l,
    decreases n,
{
    if n > 0 {
        lemma_nothing_left_to_fill(l, n - 1);
        lemma_owned_has_no_holes(l, n - 1);
    }
}

/// Filling twice is filling once: the second time adds nothing.
pub proof fn law_a_second_fill_adds_nothing(l: Ledger)
    requires
        l.valid(),
        l.contained(),
        l.filled(l.files.len() as int).claims.len() <= id_limit(),
        l.filled(l.files.len() as int).claims.len() <= usize::MAX,
    ensures
        ({
            let r = l.filled(l.files.len() as int);
            r.filled(r.files.len() as int) == r
        }),
{
    lemma_filled_owns(l, l.files.len() as int);
    lemma_nothing_left_to_fill(l.filled(l.files.len() as int), l.files.len() as int);
}

proof fn lemma_tiling_fault_kinds(leaves: Seq<Key>, k: int, file: FileId, len: u64)
    ensures
        coverage::tiling_fault(leaves, k, file, len) matches Some(e) ==> e is Gap
            || e is LeafOverlap,
    decreases leaves.len() - k,
{
    if 0 <= k < leaves.len() {
        lemma_tiling_fault_kinds(leaves, k + 1, file, len);
    } else if k < 0 {
        lemma_tiling_fault_kinds(leaves, k + 1, file, len);
    }
}

proof fn lemma_fault_kinds(l: Ledger, k: int)
    ensures
        l.fault(k) matches Some(e) ==> e is Gap || e is LeafOverlap,
    decreases l.files.len() - k,
{
    if 0 <= k < l.files.len() {
        let (file, len) = l.files[k];
        lemma_tiling_fault_kinds(coverage::sorted_leaves(l.claims, file), 0, file, len);
        lemma_fault_kinds(l, k + 1);
    }
}

// The partition, the other way round.

/// Every byte of every declared file belongs to exactly one leaf.
pub open spec fn partitioned(l: Ledger) -> bool {
    forall|f: int, off: int|
        0 <= f < l.files.len() && 0 <= off < l.files[f].1 ==> #[trigger] owned_once(
            l.claims,
            l.files[f].0,
            off,
        )
}

/// Exactly one leaf has `off` of `file` as one of its bytes.
pub open spec fn owned_once(claims: Seq<ClaimView>, file: FileId, off: int) -> bool {
    &&& owned(claims, file, off)
    &&& forall|i: int, j: int|
        #![trigger owns(claims, i, file, off), owns(claims, j, file, off)]
        owns(claims, i, file, off) && owns(claims, j, file, off) ==> i == j
}

proof fn lemma_leaf_keys_distinct(claims: Seq<ClaimView>, n: int, file: FileId)
    requires
        0 <= n <= claims.len() <= usize::MAX,
    ensures
        coverage::leaf_keys(claims, n, file).no_duplicates(),
    decreases n,
{
    if n > 0 {
        lemma_leaf_keys_distinct(claims, n - 1, file);
        lemma_leaf_keys(claims, n - 1, file);
        let rest = coverage::leaf_keys(claims, n - 1, file);
        let all = coverage::leaf_keys(claims, n, file);
        assert forall|p: int, q: int|
            0 <= p < all.len() && 0 <= q < all.len() && p != q implies all[p] != all[q] by {
            if p < rest.len() {
                assert(all[p] == rest[p] && rest[p].2 < n - 1);
            }
            if q < rest.len() {
                assert(all[q] == rest[q] && rest[q].2 < n - 1);
            }
        }
    }
}

/// The sorted leaves stand for different claims.
proof fn lemma_sorted_leaves_distinct(claims: Seq<ClaimView>, file: FileId)
    requires
        claims.len() <= usize::MAX,
    ensures
        ({
            let s = coverage::sorted_leaves(claims, file);
            forall|p: int, q: int|
                #![trigger s[p], s[q]]
                0 <= p < q < s.len() ==> s[p].2 != s[q].2
        }),
{
    let raw = coverage::leaf_keys(claims, claims.len() as int, file);
    let s = coverage::sorted_leaves(claims, file);
    lemma_leaf_keys_distinct(claims, claims.len() as int, file);
    lemma_sorted_leaves(claims, file);
    order::lemma_sorted(raw);
    raw.lemma_multiset_has_no_duplicates();
    s.lemma_multiset_has_no_duplicates_conv();
    assert forall|p: int, q: int|
        #![trigger s[p], s[q]]
        0 <= p < q < s.len() implies s[p].2 != s[q].2 by {
        assert(s[p] != s[q]);
        assert(s[p] == leaf_key(claims, s[p].2 as int));
        assert(s[q] == leaf_key(claims, s[q].2 as int));
    }
}

/// Leaves that do not meet leave no overlap to report.
proof fn lemma_no_overlap(leaves: Seq<Key>, k: int, file: FileId, len: u64)
    requires
        0 <= k <= leaves.len(),
        forall|p: int, q: int|
            #![trigger leaves[p], leaves[q]]
            0 <= p < q < leaves.len() ==> leaves[p].1 <= leaves[q].0,
    ensures
        !(coverage::tiling_fault(leaves, k, file, len) matches Some(
            CoverageError::LeafOverlap { .. },
        )),
    decreases leaves.len() - k,
{
    if k < leaves.len() {
        if k > 0 {
            assert(leaves[k - 1].1 <= leaves[k].0);
        }
        lemma_no_overlap(leaves, k + 1, file, len);
    }
}

proof fn lemma_no_fault_from(l: Ledger, k: int)
    requires
        l.valid(),
        l.contained(),
        partitioned(l),
        0 <= k <= l.files.len(),
    ensures
        !(l.fault(k) matches Some(CoverageError::LeafOverlap { .. })),
    decreases l.files.len() - k,
{
    if k < l.files.len() {
        let (file, len) = l.files[k];
        let s = coverage::sorted_leaves(l.claims, file);
        lemma_len_of(l.files, k);
        lemma_sorted_leaves(l.claims, file);
        lemma_sorted_leaves_distinct(l.claims, file);
        assert forall|p: int, q: int|
            #![trigger s[p], s[q]]
            0 <= p < q < s.len() implies s[p].1 <= s[q].0 by {
            let i = s[p].2 as int;
            let j = s[q].2 as int;
            let off = s[q].0 as int;
            if s[q].0 < s[p].1 {
                assert(l.claims[i].span.spec_end() <= len);
                assert(owned_once(l.claims, l.files[k].0, off));
                assert(owns(l.claims, i, file, off));
                assert(owns(l.claims, j, file, off));
            }
        }
        lemma_no_overlap(s, 0, file, len);
        lemma_no_fault_from(l, k + 1);
    }
}

/// The coverage invariant, both ways: where every claim lies within its file, a ledger is
/// accepted exactly where every byte of every declared file belongs to exactly one leaf.
pub proof fn law_accepted_is_partitioned(l: Ledger)
    requires
        l.valid(),
        l.contained(),
    ensures
        l.fault(0) is None <==> partitioned(l),
{
    if l.fault(0) is None {
        assert forall|f: int, off: int|
            0 <= f < l.files.len() && 0 <= off < l.files[f].1 implies #[trigger] owned_once(
            l.claims,
            l.files[f].0,
            off,
        ) by {
            law_every_byte_has_one_leaf(l, f, off as u64);
        }
    }
    if partitioned(l) {
        assert forall|f: int, off: int|
            0 <= f < l.files.len() && 0 <= off < l.files[f].1 implies #[trigger] owned(
            l.claims,
            l.files[f].0,
            off,
        ) by {
            assert(owned_once(l.claims, l.files[f].0, off));
        }
        lemma_no_gap_from(l, 0);
        lemma_no_fault_from(l, 0);
        lemma_fault_kinds(l, 0);
    }
}

/// The bytes of the first `n` of these leaves.
pub open spec fn leaves_sum(claims: Seq<ClaimView>, leaves: Seq<Key>, n: int) -> nat
    decreases n,
{
    if n <= 0 {
        0
    } else {
        leaves_sum(claims, leaves, n - 1) + claims[leaves[n - 1].2 as int].span.len as nat
    }
}

proof fn lemma_leaves_sum(claims: Seq<ClaimView>, leaves: Seq<Key>, n: int)
    requires
        0 <= n <= leaves.len(),
        forall|p: int|
            0 <= p < leaves.len() ==> (#[trigger] leaves[p]).0 == coverage::tiled_to(leaves, p)
                && leaves[p].1 == leaves[p].0 + claims[leaves[p].2 as int].span.len,
    ensures
        leaves_sum(claims, leaves, n) == coverage::tiled_to(leaves, n),
    decreases n,
{
    if n > 0 {
        lemma_leaves_sum(claims, leaves, n - 1);
        assert(leaves[n - 1].0 == coverage::tiled_to(leaves, n - 1));
    }
}

/// The non-empty leaves of a declared file, by start, run from its start to its end, each
/// from where the one before it ends, so that their lengths sum to that of the file.
pub proof fn law_leaves_tile_each_file(l: Ledger, f: int)
    requires
        l.valid(),
        l.contained(),
        l.fault(0) is None,
        0 <= f < l.files.len(),
    ensures
        ({
            let (file, len) = l.files[f];
            let s = coverage::sorted_leaves(l.claims, file);
            &&& forall|i: int| #[trigger]
                listed(s, i) <==> 0 <= i < l.claims.len() && l.claims[i].span.file == file
                    && l.claims[i].span.len != 0 && coverage::leaf(l.claims, i)
            &&& forall|p: int|
                0 <= p < s.len() ==> (#[trigger] s[p]).0 == coverage::tiled_to(s, p) && s[p].0
                    == l.claims[s[p].2 as int].span.start && s[p].1 == l.claims[s[p].2
                    as int].span.spec_end()
            &&& coverage::tiled_to(s, s.len() as int) == len
            &&& len < u64::MAX ==> leaves_sum(l.claims, s, s.len() as int) == len
        }),
{
    let (file, len) = l.files[f];
    let s = coverage::sorted_leaves(l.claims, file);
    lemma_leaves_tile(l, f);
    lemma_sorted_leaves(l.claims, file);
    lemma_len_of(l.files, f);
    assert forall|p: int| 0 <= p < s.len() implies (#[trigger] s[p]).1 <= len by {
        assert(l.claims[s[p].2 as int].span.spec_end() <= len);
    }
    assert forall|i: int| #[trigger] listed(s, i) <==> 0 <= i < l.claims.len()
        && l.claims[i].span.file == file && l.claims[i].span.len != 0 && coverage::leaf(
        l.claims,
        i,
    ) by {
        if 0 <= i < l.claims.len() && tiles(l.claims, i, file) {
            lemma_leaf_is_listed(l.claims, file, i);
        }
        if listed(s, i) {
            let p = choose|p: int| 0 <= p < s.len() && (#[trigger] s[p]).2 == i;
            assert(tiles(l.claims, s[p].2 as int, file));
        }
    }
    if s.len() > 0 {
        assert(s[s.len() - 1].1 <= len);
    }
    if len < u64::MAX {
        assert forall|p: int| 0 <= p < s.len() implies (#[trigger] s[p]).0 == coverage::tiled_to(
            s,
            p,
        ) && s[p].1 == s[p].0 + l.claims[s[p].2 as int].span.len by {
            assert(s[p].1 <= len);
        }
        lemma_leaves_sum(l.claims, s, s.len() as int);
    }
}

/// Every non-empty leaf is among the sorted leaves of its file.
pub proof fn lemma_leaf_is_listed(claims: Seq<ClaimView>, file: FileId, i: int)
    requires
        claims.len() <= usize::MAX,
        0 <= i < claims.len(),
        claims[i].span.file == file,
        claims[i].span.len != 0,
        coverage::leaf(claims, i),
    ensures
        listed(coverage::sorted_leaves(claims, file), i),
{
    let s = coverage::sorted_leaves(claims, file);
    lemma_sorted_leaves(claims, file);
    assert(tiles(claims, i, file));
    assert(s.contains(leaf_key(claims, i)));
    let p = choose|p: int| 0 <= p < s.len() && s[p] == leaf_key(claims, i);
    assert(s[p].2 == i);
}

/// The claim at `i` is among these leaves.
pub open spec fn listed(leaves: Seq<Key>, i: int) -> bool {
    exists|p: int| 0 <= p < leaves.len() && (#[trigger] leaves[p]).2 == i
}

// The tree.

/// The ids ascend, none twice.
pub open spec fn rising(ids: Seq<ClaimId>) -> bool {
    forall|i: int, j: int|
        #![trigger ids[i], ids[j]]
        0 <= i < j < ids.len() ==> ids[i].0 < ids[j].0
}

/// One more id behind smaller ones.
proof fn lemma_one_more(ids: Seq<ClaimId>, id: ClaimId)
    requires
        rising(ids),
        forall|x: ClaimId| #[trigger] ids.contains(x) ==> x.0 < id.0,
    ensures
        rising(ids.push(id)),
        forall|x: ClaimId| #[trigger] ids.push(id).contains(x) <==> ids.contains(x) || x == id,
{
    let more = ids.push(id);
    assert forall|i: int, j: int|
        #![trigger more[i], more[j]]
        0 <= i < j < more.len() implies more[i].0 < more[j].0 by {
        assert(ids.contains(ids[i]));
    }
    assert forall|x: ClaimId| #[trigger] more.contains(x) <==> ids.contains(x) || x == id by {
        if ids.contains(x) {
            let i = choose|i: int| 0 <= i < ids.len() && ids[i] == x;
            assert(more[i] == x);
        }
        assert(more[ids.len() as int] == id);
    }
}

proof fn lemma_child_ids(claims: Seq<ClaimView>, p: ClaimId)
    requires
        claims.len() <= id_limit(),
    ensures
        ({
            let r = coverage::child_ids(claims, p.0 as int);
            &&& rising(r)
            &&& forall|c: ClaimId| #[trigger]
                r.contains(c) <==> c.0 < claims.len() && claims[c.0 as int].parent == Some(p)
        }),
    decreases claims.len(),
{
    if claims.len() > 0 {
        let front = claims.drop_last();
        let n = claims.len() - 1;
        lemma_child_ids(front, p);
        let rest = coverage::child_ids(front, p.0 as int);
        assert forall|c: ClaimId| c.0 < n implies #[trigger] claims[c.0 as int] == front[c.0
            as int] by {}
        if coverage::parents(claims, p.0 as int, n) {
            lemma_one_more(rest, coverage::mint(n));
        }
        assert forall|c: ClaimId| #[trigger]
            coverage::child_ids(claims, p.0 as int).contains(c) <==> c.0 < claims.len()
                && claims[c.0 as int].parent == Some(p) by {
            if c.0 < n {
                assert(claims[c.0 as int] == front[c.0 as int]);
            }
            assert(rest.contains(c) ==> c.0 < n);
        }
    }
}

/// The children of a claim, in order of id and none twice, are exactly the claims that name
/// it as their parent; an id that no claim has has none.
pub proof fn law_children_are_those_that_name_it(claims: Seq<ClaimView>, p: ClaimId)
    requires
        coverage::nested(claims),
        claims.len() <= id_limit(),
    ensures
        ({
            let r = coverage::child_ids(claims, p.0 as int);
            &&& rising(r)
            &&& forall|c: ClaimId| #[trigger]
                r.contains(c) <==> c.0 < claims.len() && claims[c.0 as int].parent == Some(p)
            &&& p.0 >= claims.len() ==> r.len() == 0
        }),
{
    let r = coverage::child_ids(claims, p.0 as int);
    lemma_child_ids(claims, p);
    if p.0 >= claims.len() && r.len() > 0 {
        assert(r.contains(r[0]));
        assert((claims[r[0].0 as int].parent->0).0 < r[0].0);
    }
}

proof fn lemma_root_ids(claims: Seq<ClaimView>)
    requires
        claims.len() <= id_limit(),
    ensures
        rising(coverage::root_ids(claims)),
        forall|c: ClaimId| #[trigger]
            coverage::root_ids(claims).contains(c) <==> c.0 < claims.len() && claims[c.0
                as int].parent is None,
    decreases claims.len(),
{
    if claims.len() > 0 {
        let front = claims.drop_last();
        let n = claims.len() - 1;
        lemma_root_ids(front);
        let rest = coverage::root_ids(front);
        if claims.last().parent is None {
            lemma_one_more(rest, coverage::mint(n));
        }
        assert forall|c: ClaimId| #[trigger]
            coverage::root_ids(claims).contains(c) <==> c.0 < claims.len() && claims[c.0
                as int].parent is None by {
            if c.0 < n {
                assert(claims[c.0 as int] == front[c.0 as int]);
            }
            assert(rest.contains(c) ==> c.0 < n);
        }
    }
}

/// The roots, in order of id and none twice, are exactly the claims without a parent, and
/// the way up from every claim ends at one of them.
pub proof fn law_every_path_ends_at_a_root(claims: Seq<ClaimView>)
    requires
        coverage::nested(claims),
        claims.len() <= id_limit(),
    ensures
        ({
            let r = coverage::root_ids(claims);
            &&& rising(r)
            &&& forall|c: ClaimId| #[trigger]
                r.contains(c) <==> c.0 < claims.len() && claims[c.0 as int].parent is None
            &&& forall|id: ClaimId|
                id.0 < claims.len() ==> r.contains((#[trigger] coverage::chain(claims, id)).last())
        }),
{
    let r = coverage::root_ids(claims);
    lemma_root_ids(claims);
    assert forall|id: ClaimId| id.0 < claims.len() implies r.contains(
        (#[trigger] coverage::chain(claims, id)).last(),
    ) by {
        let up = coverage::chain(claims, id);
        law_ancestry_climbs(claims, id);
        assert(up[up.len() - 1] == up.last());
    }
}

proof fn lemma_leaf_ids(claims: Seq<ClaimView>, n: int)
    requires
        0 <= n <= claims.len() <= id_limit(),
    ensures
        rising(coverage::leaf_ids(claims, n)),
        forall|c: ClaimId| #[trigger]
            coverage::leaf_ids(claims, n).contains(c) <==> c.0 < n && coverage::leaf(
                claims,
                c.0 as int,
            ),
    decreases n,
{
    if n > 0 {
        lemma_leaf_ids(claims, n - 1);
        let rest = coverage::leaf_ids(claims, n - 1);
        if coverage::leaf(claims, n - 1) {
            lemma_one_more(rest, coverage::mint(n - 1));
        }
    }
}

/// The leaves, in order of id and none twice, are exactly the claims without children.
pub proof fn law_leaves_are_the_childless(claims: Seq<ClaimView>)
    requires
        claims.len() <= id_limit(),
    ensures
        ({
            let r = coverage::leaf_ids(claims, claims.len() as int);
            &&& rising(r)
            &&& forall|c: ClaimId| #[trigger]
                r.contains(c) <==> c.0 < claims.len() && coverage::child_ids(
                    claims,
                    c.0 as int,
                ).len() == 0
        }),
{
    let r = coverage::leaf_ids(claims, claims.len() as int);
    lemma_leaf_ids(claims, claims.len() as int);
    assert forall|c: ClaimId| #[trigger] r.contains(c) <==> c.0 < claims.len()
        && coverage::child_ids(claims, c.0 as int).len() == 0 by {
        coverage::lemma_leaf_has_no_children(claims, c.0 as int);
    }
}

} // verus!
