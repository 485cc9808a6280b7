//! Point queries over a static set of nested spans.
//!
//! The UI asks one question constantly: *given a byte offset, which claims cover it?* At
//! hover rate, over a few million claims, against a set that never changes after parsing.
//!
//! That shape rules out a general interval tree. What it wants is the classic augmented
//! sorted array: entries sorted by start, plus a running maximum of `end`. A point query
//! binary-searches for the last entry that begins at or before the offset, then walks
//! backwards, stopping as soon as the running maximum proves no earlier entry can reach.
//!
//! Construction is one sort per file; queries are `O(log n + k)` with no pointer chasing.

use vstd::multiset::group_multiset_axioms;
use vstd::prelude::*;
use vstd::seq_lib::{group_to_multiset_ensures, lemma_multiset_commutative};

use crate::claim::ClaimId;
use crate::order;
use crate::order::Key;
use crate::span::{FileId, Span};

verus! {

/// The range of a span and the id it stands for.
pub open spec fn entry_key(span: Span, id: ClaimId) -> Key {
    (span.start, span.spec_end(), id.0 as u64)
}

/// The ranges of the non-empty spans of one file, in the order given.
pub open spec fn file_keys(spans: Seq<(Span, ClaimId)>, file: FileId) -> Seq<Key>
    decreases spans.len(),
{
    if spans.len() == 0 {
        Seq::empty()
    } else {
        let rest = file_keys(spans.drop_last(), file);
        let (span, id) = spans.last();
        if span.len != 0 && span.file == file {
            rest.push(entry_key(span, id))
        } else {
            rest
        }
    }
}

/// How many of the spans are not empty.
pub open spec fn nonempty(spans: Seq<(Span, ClaimId)>) -> nat
    decreases spans.len(),
{
    if spans.len() == 0 {
        0
    } else {
        nonempty(spans.drop_last()) + if spans.last().0.len != 0 {
            1nat
        } else {
            0nat
        }
    }
}

/// The range `k` shares an offset with `[lo, hi)`.
pub open spec fn reaches(k: Key, lo: int, hi: int) -> bool {
    k.0 < hi && lo < k.1
}

/// What a hit is ordered by: its length or its start, then its id.
pub open spec fn hit_key(k: Key, by_len: bool) -> Key {
    (
        if by_len {
            if k.1 >= k.0 {
                (k.1 - k.0) as u64
            } else {
                0
            }
        } else {
            k.0
        },
        k.2,
        0,
    )
}

/// The hits of `[lo, hi)` among `l`.
pub open spec fn hits(l: Seq<Key>, lo: int, hi: int, by_len: bool) -> Seq<Key>
    decreases l.len(),
{
    if l.len() == 0 {
        Seq::empty()
    } else {
        let rest = hits(l.drop_first(), lo, hi, by_len);
        if reaches(l[0], lo, hi) {
            seq![hit_key(l[0], by_len)] + rest
        } else {
            rest
        }
    }
}

/// The ids of hits, in the hits' order.
pub open spec fn ids_of(hits: Seq<Key>) -> Seq<ClaimId> {
    hits.map_values(|k: Key| ClaimId(k.1 as u32))
}

/// The ids of the ranges of `l` that cover `off`, shortest range first, ties by id.
pub open spec fn innermost_first(l: Seq<Key>, off: u64) -> Seq<ClaimId> {
    ids_of(order::sorted(hits(l, off as int, off + 1, true)))
}

/// The ids of the ranges of `l` that meet `probe`, by ascending start, ties by id.
pub open spec fn by_start(l: Seq<Key>, probe: Span) -> Seq<ClaimId> {
    if probe.len == 0 {
        Seq::empty()
    } else {
        ids_of(order::sorted(hits(l, probe.start as int, probe.spec_end() as int, false)))
    }
}

proof fn lemma_hits_add(a: Seq<Key>, b: Seq<Key>, lo: int, hi: int, by_len: bool)
    ensures
        hits(a + b, lo, hi, by_len) == hits(a, lo, hi, by_len) + hits(b, lo, hi, by_len),
    decreases a.len(),
{
    if a.len() == 0 {
        assert(a + b =~= b);
    } else {
        assert((a + b).drop_first() =~= a.drop_first() + b);
        lemma_hits_add(a.drop_first(), b, lo, hi, by_len);
    }
}

proof fn lemma_no_hits(l: Seq<Key>, lo: int, hi: int, by_len: bool)
    requires
        forall|i: int| 0 <= i < l.len() ==> !reaches(#[trigger] l[i], lo, hi),
    ensures
        hits(l, lo, hi, by_len) == Seq::<Key>::empty(),
    decreases l.len(),
{
    if l.len() > 0 {
        assert(!reaches(l[0], lo, hi));
        assert forall|i: int| 0 <= i < l.drop_first().len() implies !reaches(
            #[trigger] l.drop_first()[i],
            lo,
            hi,
        ) by {
            assert(l.drop_first()[i] == l[i + 1]);
        }
        lemma_no_hits(l.drop_first(), lo, hi, by_len);
    }
}

/// Hits see only which ranges there are, not how they were arranged.
pub proof fn lemma_hits_of_same(a: Seq<Key>, b: Seq<Key>, lo: int, hi: int, by_len: bool)
    requires
        a.to_multiset() == b.to_multiset(),
    ensures
        hits(a, lo, hi, by_len).to_multiset() == hits(b, lo, hi, by_len).to_multiset(),
    decreases a.len(),
{
    broadcast use {group_multiset_axioms, group_to_multiset_ensures};

    a.to_multiset_ensures();
    b.to_multiset_ensures();
    if a.len() == 0 {
        assert(b.len() == 0);
        assert(a =~= b);
    } else {
        let k = a[0];
        assert(a.contains(k));
        assert(b.to_multiset().count(k) > 0);
        assert(b.contains(k));
        let j = choose|j: int| 0 <= j < b.len() && b[j] == k;
        assert(a.drop_first() =~= a.remove(0));
        lemma_hits_of_same(a.drop_first(), b.remove(j), lo, hi, by_len);
        let l = b.take(j);
        let r = b.skip(j + 1);
        assert(b.remove(j) =~= l + r);
        assert(b =~= l + (seq![k] + r));
        lemma_hits_add(l, r, lo, hi, by_len);
        lemma_hits_add(l, seq![k] + r, lo, hi, by_len);
        assert((seq![k] + r).drop_first() =~= r);
        let hl = hits(l, lo, hi, by_len);
        let hr = hits(r, lo, hi, by_len);
        let h = hit_key(k, by_len);
        if reaches(k, lo, hi) {
            lemma_multiset_commutative(hl, hr);
            lemma_multiset_commutative(hl, seq![h] + hr);
            lemma_multiset_commutative(seq![h], hr);
            lemma_multiset_commutative(seq![h], hits(a.drop_first(), lo, hi, by_len));
        }
    }
}

/// The hits of a list and of the same list sorted come out in the same order.
pub proof fn lemma_queries_of_sorted(l: Seq<Key>, off: u64, probe: Span)
    ensures
        innermost_first(order::sorted(l), off) == innermost_first(l, off),
        by_start(order::sorted(l), probe) == by_start(l, probe),
{
    let s = order::sorted(l);
    order::lemma_sorted(l);
    lemma_hits_of_same(s, l, off as int, off + 1, true);
    order::lemma_sorted_of_same(hits(s, off as int, off + 1, true), hits(l, off as int, off + 1, true));
    let (lo, hi) = (probe.start as int, probe.spec_end() as int);
    lemma_hits_of_same(s, l, lo, hi, false);
    order::lemma_sorted_of_same(hits(s, lo, hi, false), hits(l, lo, hi, false));
}

/// A hit comes from a range that reaches, and every such range gives one.
pub proof fn lemma_hits_contain(l: Seq<Key>, lo: int, hi: int, by_len: bool, h: Key)
    ensures
        hits(l, lo, hi, by_len).contains(h) <==> exists|i: int|
            0 <= i < l.len() && reaches(#[trigger] l[i], lo, hi) && hit_key(l[i], by_len) == h,
    decreases l.len(),
{
    let all = hits(l, lo, hi, by_len);
    if l.len() > 0 {
        let rest = l.drop_first();
        let tail = hits(rest, lo, hi, by_len);
        lemma_hits_contain(rest, lo, hi, by_len, h);
        if all.contains(h) {
            let p = choose|p: int| 0 <= p < all.len() && all[p] == h;
            if reaches(l[0], lo, hi) {
                if p == 0 {
                    assert(reaches(l[0], lo, hi) && hit_key(l[0], by_len) == h);
                } else {
                    assert(tail[p - 1] == h);
                    assert(tail.contains(h));
                }
            }
            if tail.contains(h) {
                let i = choose|i: int|
                    0 <= i < rest.len() && reaches(#[trigger] rest[i], lo, hi) && hit_key(
                        rest[i],
                        by_len,
                    ) == h;
                assert(rest[i] == l[i + 1]);
            }
        }
        if exists|i: int|
            0 <= i < l.len() && reaches(#[trigger] l[i], lo, hi) && hit_key(l[i], by_len) == h {
            let i = choose|i: int|
                0 <= i < l.len() && reaches(#[trigger] l[i], lo, hi) && hit_key(l[i], by_len) == h;
            if i == 0 {
                assert(all[0] == h);
            } else {
                assert(rest[i - 1] == l[i]);
                assert(tail.contains(h));
                let p = choose|p: int| 0 <= p < tail.len() && tail[p] == h;
                if reaches(l[0], lo, hi) {
                    assert(all[p + 1] == h);
                } else {
                    assert(all[p] == h);
                }
            }
        }
    }
}

#[derive(Clone, Copy, Debug)]
struct Entry {
    start: u64,
    end: u64,
    /// Running maximum of `end` over all entries up to and including this one.
    max_end: u64,
    id: ClaimId,
}

impl Entry {
    spec fn key(self) -> Key {
        (self.start, self.end, self.id.0 as u64)
    }
}

spec fn keys(list: Seq<Entry>) -> Seq<Key> {
    list.map_values(|e: Entry| e.key())
}

/// Sorted by start, and `max_end` bounds every end up to its entry.
spec fn ready(list: Seq<Entry>) -> bool {
    &&& forall|i: int, j: int|
        #![trigger list[i], list[j]]
        0 <= i <= j < list.len() ==> list[i].start <= list[j].start && list[i].end
            <= list[j].max_end
    &&& forall|i: int| 0 <= i < list.len() ==> #[trigger] list[i].start <= list[i].end
}

/// Immutable index over the spans of one [`Coverage`](crate::Coverage).
#[derive(Clone, Debug)]
pub struct IntervalIndex {
    /// Per-file entry lists, sorted by `start`. Files are sparse and few, so a `Vec`
    /// searched by id beats a map.
    files: Vec<(FileId, Vec<Entry>)>,
    /// How many entries there are over all files.
    total: usize,
}

impl Default for IntervalIndex {
    fn default() -> (r: Self)
        ensures
            r.wf(),
            r.count() == 0,
            forall|file: FileId| #[trigger] r.list(file) == Seq::<Key>::empty(),
    {
        Self { files: Vec::new(), total: 0 }
    }
}

spec fn find(files: Seq<(FileId, Vec<Entry>)>, file: FileId) -> Seq<Entry>
    decreases files.len(),
{
    if files.len() == 0 {
        Seq::empty()
    } else if files[0].0 == file {
        files[0].1@
    } else {
        find(files.drop_first(), file)
    }
}

/// What has no entry in the list of files has no keys to look for.
proof fn lemma_find_missing(files: Seq<(FileId, Vec<Entry>)>, file: FileId)
    requires
        forall|i: int| 0 <= i < files.len() ==> (#[trigger] files[i]).0 != file,
    ensures
        find(files, file) == Seq::<Entry>::empty(),
    decreases files.len(),
{
    if files.len() > 0 {
        assert(files[0].0 != file);
        assert forall|i: int| 0 <= i < files.drop_first().len() implies (
        #[trigger] files.drop_first()[i]).0 != file by {
            assert(files.drop_first()[i] == files[i + 1]);
        }
        lemma_find_missing(files.drop_first(), file);
    }
}

proof fn lemma_find_is_member(files: Seq<(FileId, Vec<Entry>)>, file: FileId, at: int)
    requires
        0 <= at < files.len(),
        files[at].0 == file,
        forall|i: int| 0 <= i < at ==> (#[trigger] files[i]).0 != file,
    ensures
        find(files, file) == files[at].1@,
    decreases files.len(),
{
    if at > 0 {
        assert(files[0].0 != file);
        assert(files.drop_first()[at - 1] == files[at]);
        assert forall|i: int| 0 <= i < at - 1 implies (#[trigger] files.drop_first()[i]).0
            != file by {
            assert(files.drop_first()[i] == files[i + 1]);
        }
        lemma_find_is_member(files.drop_first(), file, at - 1);
    }
}

proof fn lemma_file_keys_shape(spans: Seq<(Span, ClaimId)>, file: FileId)
    ensures
        file_keys(spans, file).len() <= spans.len(),
        forall|i: int|
            0 <= i < file_keys(spans, file).len() ==> {
                let k = #[trigger] file_keys(spans, file)[i];
                k.0 <= k.1 && k.2 <= u32::MAX
            },
    decreases spans.len(),
{
    if spans.len() > 0 {
        lemma_file_keys_shape(spans.drop_last(), file);
    }
}

/// The sorted entry list of one file.
fn file_list(spans: &[(Span, ClaimId)], file: FileId) -> (r: Vec<Entry>)
    ensures
        keys(r@) == order::sorted(file_keys(spans@, file)),
        ready(r@),
{
    let mut raw: Vec<Key> = Vec::new();
    let mut i: usize = 0;
    assert(spans@.take(0) =~= Seq::<(Span, ClaimId)>::empty());
    while i < spans.len()
        invariant
            i <= spans@.len(),
            raw@ == file_keys(spans@.take(i as int), file),
        decreases spans.len() - i,
    {
        let (span, id) = spans[i];
        assert(spans@.take(i + 1).drop_last() =~= spans@.take(i as int));
        if span.len != 0 && span.file.0 == file.0 {
            raw.push((span.start, span.end(), id.0 as u64));
        }
        i += 1;
    }
    assert(spans@.take(i as int) =~= spans@);
    let sorted = order::sort_keys(raw.as_slice());
    proof {
        lemma_file_keys_shape(spans@, file);
        order::lemma_sorted(raw@);
        assert forall|n: int| 0 <= n < sorted@.len() implies sorted@[n].0 <= sorted@[n].1
            && (#[trigger] sorted@[n]).2 <= u32::MAX by {
            assert(sorted@.contains(sorted@[n]));
            assert(raw@.contains(sorted@[n]));
        }
    }
    let mut out: Vec<Entry> = Vec::new();
    let mut running: u64 = 0;
    let mut n: usize = 0;
    while n < sorted.len()
        invariant
            n <= sorted@.len(),
            out@.len() == n,
            sorted@ == order::sorted(raw@),
            forall|a: int| 0 <= a < n ==> (#[trigger] out@[a]).key() == sorted@[a],
            ready(out@),
            forall|a: int| 0 <= a < n ==> (#[trigger] out@[a]).end <= running,
            forall|a: int, b: int|
                #![trigger sorted@[a], sorted@[b]]
                0 <= a < b < sorted@.len() ==> order::key_le(sorted@[a], sorted@[b]),
            forall|a: int|
                0 <= a < sorted@.len() ==> sorted@[a].0 <= sorted@[a].1 && (
                #[trigger] sorted@[a]).2 <= u32::MAX,
        decreases sorted.len() - n,
    {
        let k = sorted[n];
        if running < k.1 {
            running = k.1;
        }
        let e = Entry { start: k.0, end: k.1, max_end: running, id: ClaimId(k.2 as u32) };
        proof {
            assert forall|a: int| 0 <= a < n implies (#[trigger] out@[a]).start <= e.start by {
                assert(out@[a].key() == sorted@[a]);
                assert(order::key_le(sorted@[a], sorted@[n as int]));
            }
        }
        out.push(e);
        n += 1;
    }
    assert(keys(out@) =~= sorted@);
    out
}

/// How many entries of a sorted list start before `bound`, or at it where `inclusive`.
fn starting_by(entries: &Vec<Entry>, bound: u64, inclusive: bool) -> (hi: usize)
    requires
        ready(entries@),
    ensures
        hi <= entries@.len(),
        forall|i: int|
            0 <= i < hi ==> (#[trigger] entries@[i]).start < bound + if inclusive {
                1int
            } else {
                0int
            },
        forall|i: int|
            hi <= i < entries@.len() ==> (#[trigger] entries@[i]).start >= bound + if inclusive {
                1int
            } else {
                0int
            },
{
    let mut lo: usize = 0;
    let mut hi: usize = entries.len();
    while lo < hi
        invariant
            lo <= hi <= entries@.len(),
            ready(entries@),
            forall|i: int|
                0 <= i < lo ==> (#[trigger] entries@[i]).start < bound + if inclusive {
                    1int
                } else {
                    0int
                },
            forall|i: int|
                hi <= i < entries@.len() ==> (#[trigger] entries@[i]).start >= bound
                    + if inclusive {
                    1int
                } else {
                    0int
                },
        decreases hi - lo,
    {
        let mid: usize = lo + (hi - lo) / 2;
        let start: u64 = entries[mid].start;
        if start < bound || (inclusive && start == bound) {
            lo = mid + 1;
        } else {
            hi = mid;
        }
    }
    lo
}

/// The ids of the hits among the first `hi` entries, in query order.
fn gather(entries: &Vec<Entry>, hi: usize, lo: u64, Ghost(top): Ghost<int>, by_len: bool) -> (r: Vec<
    ClaimId,
>)
    requires
        ready(entries@),
        hi <= entries@.len(),
        forall|i: int| 0 <= i < hi ==> (#[trigger] entries@[i]).start < top,
        forall|i: int| hi <= i < entries@.len() ==> (#[trigger] entries@[i]).start >= top,
    ensures
        r@ == ids_of(order::sorted(hits(keys(entries@), lo as int, top, by_len))),
{
    let ghost l = keys(entries@);
    let mut found: Vec<Key> = Vec::new();
    let mut i: usize = hi;
    let mut done: bool = false;
    proof {
        let beyond = l.skip(hi as int);
        assert forall|n: int| 0 <= n < beyond.len() implies !reaches(
            #[trigger] beyond[n],
            lo as int,
            top,
        ) by {
            assert(beyond[n] == entries@[hi + n].key());
        }
        lemma_no_hits(beyond, lo as int, top, by_len);
    }
    while i > 0 && !done
        invariant
            i <= hi <= entries@.len(),
            l == keys(entries@),
            ready(entries@),
            forall|n: int| 0 <= n < hi ==> (#[trigger] entries@[n]).start < top,
            found@.to_multiset() == hits(l.skip(i as int), lo as int, top, by_len).to_multiset(),
            done ==> forall|n: int| 0 <= n < i ==> !reaches(#[trigger] l[n], lo as int, top),
        decreases
            i,
            if done {
                0int
            } else {
                1int
            },
    {
        let e = entries[i - 1];
        if e.max_end <= lo {
            proof {
                assert forall|n: int| 0 <= n < i implies !reaches(
                    #[trigger] l[n],
                    lo as int,
                    top,
                ) by {
                    assert(l[n] == entries@[n].key());
                    assert(entries@[n].end <= entries@[i - 1].max_end);
                }
            }
            done = true;
        } else {
            proof {
                broadcast use {group_multiset_axioms, group_to_multiset_ensures};

                let here = l.skip(i - 1);
                assert(here[0] == e.key());
                assert(here.drop_first() =~= l.skip(i as int));
                let rest = hits(l.skip(i as int), lo as int, top, by_len);
                let h = hit_key(e.key(), by_len);
                lemma_multiset_commutative(seq![h], rest);
                assert(found@.push(h).to_multiset() =~= (seq![h] + rest).to_multiset());
            }
            if e.end > lo {
                let rank: u64 = if by_len {
                    e.end - e.start
                } else {
                    e.start
                };
                found.push((rank, e.id.0 as u64, 0));
            }
            i -= 1;
        }
    }
    proof {
        let front = l.take(i as int);
        assert forall|n: int| 0 <= n < front.len() implies !reaches(
            #[trigger] front[n],
            lo as int,
            top,
        ) by {
            assert(front[n] == l[n]);
        }
        lemma_no_hits(front, lo as int, top, by_len);
        lemma_hits_add(front, l.skip(i as int), lo as int, top, by_len);
        assert(l =~= front + l.skip(i as int));
        assert(hits(l, lo as int, top, by_len) =~= hits(l.skip(i as int), lo as int, top, by_len));
        order::lemma_sorted_of_same(found@, hits(l, lo as int, top, by_len));
    }
    let ranked = order::sort_keys(found.as_slice());
    let mut out: Vec<ClaimId> = Vec::new();
    let mut n: usize = 0;
    while n < ranked.len()
        invariant
            n <= ranked@.len(),
            out@ =~= ids_of(ranked@.take(n as int)),
        decreases ranked.len() - n,
    {
        assert(ranked@.take(n + 1) =~= ranked@.take(n as int).push(ranked@[n as int]));
        out.push(ClaimId(ranked[n].1 as u32));
        n += 1;
    }
    assert(ranked@.take(n as int) =~= ranked@);
    out
}

impl IntervalIndex {
    /// The ranges indexed for `file`.
    pub closed spec fn list(&self, file: FileId) -> Seq<Key> {
        keys(find(self.files@, file))
    }

    /// How many ranges are indexed.
    pub closed spec fn count(&self) -> nat {
        self.total as nat
    }

    /// Every list is sorted and carries its running maximum.
    pub closed spec fn wf(&self) -> bool {
        forall|i: int| 0 <= i < self.files@.len() ==> ready((#[trigger] self.files@[i]).1@)
    }

    /// Build from `(span, id)` pairs. Empty spans are skipped: they cover no byte and so
    /// can never satisfy a point query.
    #[must_use]
    pub fn build(spans: &[(Span, ClaimId)]) -> (r: Self)
        ensures
            r.wf(),
            r.count() == nonempty(spans@),
            forall|file: FileId| #[trigger]
                r.list(file) == order::sorted(file_keys(spans@, file)),
    {
        let mut files: Vec<(FileId, Vec<Entry>)> = Vec::new();
        let mut total: usize = 0;
        let mut i: usize = 0;
        assert(spans@.take(0) =~= Seq::<(Span, ClaimId)>::empty());
        while i < spans.len()
            invariant
                i <= spans@.len(),
                total <= i,
                total == nonempty(spans@.take(i as int)),
                forall|n: int| 0 <= n < files@.len() ==> ready((#[trigger] files@[n]).1@),
                forall|n: int|
                    0 <= n < files@.len() ==> keys((#[trigger] files@[n]).1@) == order::sorted(
                        file_keys(spans@, files@[n].0),
                    ),
                forall|a: int, b: int|
                    #![trigger files@[a], files@[b]]
                    0 <= a < b < files@.len() ==> files@[a].0 != files@[b].0,
                forall|n: int|
                    #![trigger spans@[n]]
                    0 <= n < i && spans@[n].0.len != 0 ==> exists|a: int|
                        0 <= a < files@.len() && (#[trigger] files@[a]).0 == spans@[n].0.file,
            decreases spans.len() - i,
        {
            let (span, id) = spans[i];
            proof {
                assert(spans@.take(i + 1).drop_last() =~= spans@.take(i as int));
            }
            if span.len != 0 {
                total += 1;
                let mut known: bool = false;
                let mut k: usize = 0;
                while k < files.len()
                    invariant
                        k <= files@.len(),
                        known <==> exists|a: int|
                            0 <= a < k && (#[trigger] files@[a]).0 == span.file,
                    decreases files.len() - k,
                {
                    if files[k].0.0 == span.file.0 {
                        known = true;
                    }
                    k += 1;
                }
                let ghost before = files@;
                if !known {
                    let list = file_list(spans, span.file);
                    files.push((span.file, list));
                    assert(files@[before.len() as int].0 == span.file);
                    assert(forall|a: int| 0 <= a < before.len() ==> files@[a] == before[a]);
                }
                assert forall|n: int|
                    #![trigger spans@[n]]
                    0 <= n < i + 1 && spans@[n].0.len != 0 implies exists|a: int|
                    0 <= a < files@.len() && (#[trigger] files@[a]).0 == spans@[n].0.file by {
                    if n < i {
                        let a = choose|a: int|
                            0 <= a < before.len() && (#[trigger] before[a]).0
                                == spans@[n].0.file;
                        assert(files@[a] == before[a]);
                    }
                }
            }
            i += 1;
        }
        assert(spans@.take(i as int) =~= spans@);
        let r = Self { files, total };
        proof {
            assert forall|file: FileId| #[trigger]
                r.list(file) == order::sorted(file_keys(spans@, file)) by {
                if exists|a: int| 0 <= a < files@.len() && (#[trigger] files@[a]).0 == file {
                    let a = choose|a: int|
                        0 <= a < files@.len() && (#[trigger] files@[a]).0 == file;
                    lemma_find_is_member(files@, file, a);
                } else {
                    lemma_find_missing(files@, file);
                    lemma_only_empty(spans@, file);
                    assert(keys(Seq::<Entry>::empty()) =~= Seq::<Key>::empty());
                    order::lemma_sorted(Seq::<Key>::empty());
                    assert(order::sorted(Seq::<Key>::empty()) =~= Seq::<Key>::empty());
                }
            }
        }
        r
    }

    /// The entry list of `file`, if it has one.
    fn entries(&self, file: FileId) -> (r: Option<&Vec<Entry>>)
        requires
            self.wf(),
        ensures
            r matches Some(l) ==> ready(l@) && keys(l@) == self.list(file),
            r is None ==> self.list(file) == Seq::<Key>::empty(),
    {
        let mut i: usize = 0;
        while i < self.files.len()
            invariant
                i <= self.files@.len(),
                self.wf(),
                forall|n: int| 0 <= n < i ==> (#[trigger] self.files@[n]).0 != file,
            decreases self.files.len() - i,
        {
            if self.files[i].0.0 == file.0 {
                proof {
                    lemma_find_is_member(self.files@, file, i as int);
                }
                return Some(&self.files[i].1);
            }
            i += 1;
        }
        proof {
            lemma_find_missing(self.files@, file);
            assert(keys(Seq::<Entry>::empty()) =~= Seq::<Key>::empty());
        }
        None
    }

    /// Every claim whose span covers `off`, innermost first.
    ///
    /// "Innermost first" means shortest span first, which for a well-formed nesting is the
    /// deepest claim: the one the cursor is really pointing at. Ties break on id for
    /// determinism.
    #[must_use]
    pub fn at(&self, file: FileId, off: u64) -> (r: Vec<ClaimId>)
        requires
            self.wf(),
        ensures
            r@ == innermost_first(self.list(file), off),
    {
        match self.entries(file) {
            Some(list) => {
                // Entries beginning after `off` cannot contain it.
                let hi: usize = starting_by(list, off, true);
                gather(list, hi, off, Ghost(off + 1), true)
            },
            None => {
                proof {
                    order::lemma_sorted(Seq::<Key>::empty());
                    assert(order::sorted(Seq::<Key>::empty()) =~= Seq::<Key>::empty());
                    assert(ids_of(Seq::<Key>::empty()) =~= Seq::<ClaimId>::empty());
                }
                Vec::new()
            },
        }
    }

    /// The innermost claim covering `off`, if any.
    #[must_use]
    pub fn innermost(&self, file: FileId, off: u64) -> (r: Option<ClaimId>)
        requires
            self.wf(),
        ensures
            r == (if innermost_first(self.list(file), off).len() > 0 {
                Some(innermost_first(self.list(file), off)[0])
            } else {
                None
            }),
    {
        let hits = self.at(file, off);
        if hits.len() > 0 {
            Some(hits[0])
        } else {
            None
        }
    }

    /// Every claim whose span intersects `probe`, in ascending start order.
    ///
    /// This is the viewport query: the byte river asks for everything visible in the
    /// currently scrolled range.
    #[must_use]
    pub fn overlapping(&self, probe: Span) -> (r: Vec<ClaimId>)
        requires
            self.wf(),
        ensures
            r@ == by_start(self.list(probe.file), probe),
    {
        if probe.is_empty() {
            return Vec::new();
        }
        match self.entries(probe.file) {
            Some(list) => {
                let hi: usize = starting_by(list, probe.end(), false);
                gather(list, hi, probe.start, Ghost(probe.spec_end() as int), false)
            },
            None => {
                proof {
                    order::lemma_sorted(Seq::<Key>::empty());
                    assert(order::sorted(Seq::<Key>::empty()) =~= Seq::<Key>::empty());
                    assert(ids_of(Seq::<Key>::empty()) =~= Seq::<ClaimId>::empty());
                }
                Vec::new()
            },
        }
    }

    #[must_use]
    pub fn len(&self) -> (r: usize)
        ensures
            r == self.count(),
    {
        self.total
    }

    #[must_use]
    pub fn is_empty(&self) -> (r: bool)
        ensures
            r == (self.count() == 0),
    {
        self.total == 0
    }
}

proof fn lemma_only_empty(spans: Seq<(Span, ClaimId)>, file: FileId)
    requires
        forall|i: int|
            0 <= i < spans.len() && (#[trigger] spans[i]).0.len != 0 ==> spans[i].0.file != file,
    ensures
        file_keys(spans, file) == Seq::<Key>::empty(),
    decreases spans.len(),
{
    if spans.len() > 0 {
        let last = spans[spans.len() - 1];
        assert(last.0.len != 0 ==> last.0.file != file);
        assert forall|i: int|
            0 <= i < spans.drop_last().len() && (#[trigger] spans.drop_last()[i]).0.len
                != 0 implies spans.drop_last()[i].0.file != file by {
            assert(spans.drop_last()[i] == spans[i]);
        }
        lemma_only_empty(spans.drop_last(), file);
    }
}

} // verus!
