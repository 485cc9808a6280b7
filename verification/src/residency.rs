//! How much of a file is in memory, and how much of it is there twice.
//!
//! Two segments can share a file page: the kernel then maps that page at two addresses with
//! two protections. Counting residency byte by byte, rather than segment by segment, is what
//! keeps such a page from being counted as more of the file than it is.

use vstd::prelude::*;
use vstd::seq_lib::lemma_fold_left_permutation;
use vstd::set_lib::{lemma_int_range, lemma_set_disjoint_lens, set_int_range};

use crate::model;
use crate::model::{MapSource, Mapping, MemImage, Resident};
use crate::order;
use crate::order::Key;
use crate::parse::Segment;
use crate::span;
use crate::span::{FileId, Span};

verus! {

/// `off` lies in the resident range `r`.
pub open spec fn holds(r: Resident, off: int) -> bool {
    r.span.start <= off < r.span.spec_end()
}

/// The file offsets that are in memory.
pub open spec fn resident_set(rs: Seq<Resident>) -> Set<int> {
    Set::new(|off: int| exists|i: int| 0 <= i < rs.len() && holds(#[trigger] rs[i], off))
}

/// The file offsets that are in memory more than once.
pub open spec fn shared_set(rs: Seq<Resident>) -> Set<int> {
    Set::new(
        |off: int|
            exists|i: int, j: int|
                #![trigger rs[i], rs[j]]
                0 <= i < rs.len() && 0 <= j < rs.len() && i != j && holds(rs[i], off) && holds(
                    rs[j],
                    off,
                ),
    )
}

spec fn within(k: Key, off: int) -> bool {
    k.0 <= off < k.1
}

/// The offsets that the first `n` keys cover.
spec fn once(s: Seq<Key>, n: int) -> Set<int> {
    Set::new(|off: int| exists|i: int| 0 <= i < n && within(#[trigger] s[i], off))
}

/// The offsets that two of the first `n` keys cover.
spec fn twice(s: Seq<Key>, n: int) -> Set<int> {
    Set::new(
        |off: int|
            exists|i: int, j: int|
                #![trigger s[i], s[j]]
                0 <= i < n && 0 <= j < n && i != j && within(s[i], off) && within(s[j], off),
    )
}

spec fn range_keys(rs: Seq<Resident>) -> Seq<Key> {
    Seq::new(rs.len(), |i: int| (rs[i].span.start, rs[i].span.spec_end(), i as u64))
}

/// Sorting the ranges changes neither set.
proof fn lemma_sets_of_sorted(rs: Seq<Resident>)
    requires
        rs.len() <= usize::MAX,
    ensures
        ({
            let s = order::sorted(range_keys(rs));
            &&& s.len() == rs.len()
            &&& once(s, s.len() as int) == resident_set(rs)
            &&& twice(s, s.len() as int) == shared_set(rs)
        }),
{
    let raw = range_keys(rs);
    let s = order::sorted(raw);
    order::lemma_sorted(raw);
    assert forall|p: int| 0 <= p < s.len() implies {
        let k = #[trigger] s[p];
        k.2 < rs.len() && k == raw[k.2 as int]
    } by {
        assert(s.contains(s[p]));
        assert(raw.contains(s[p]));
        let i = choose|i: int| 0 <= i < raw.len() && raw[i] == s[p];
        assert(raw[i].2 == i);
    }
    assert forall|off: int| once(s, s.len() as int).contains(off) == resident_set(rs).contains(
        off,
    ) by {
        if once(s, s.len() as int).contains(off) {
            let p = choose|p: int| 0 <= p < s.len() && within(#[trigger] s[p], off);
            assert(holds(rs[s[p].2 as int], off));
        }
        if resident_set(rs).contains(off) {
            let i = choose|i: int| 0 <= i < rs.len() && holds(#[trigger] rs[i], off);
            assert(raw.contains(raw[i]));
            assert(s.contains(raw[i]));
            let p = choose|p: int| 0 <= p < s.len() && s[p] == raw[i];
            assert(within(s[p], off));
        }
    }
    assert(once(s, s.len() as int) =~= resident_set(rs));
    lemma_pairs_of_sorted(rs);
}

proof fn lemma_pairs_of_sorted(rs: Seq<Resident>)
    requires
        rs.len() <= usize::MAX,
    ensures
        ({
            let s = order::sorted(range_keys(rs));
            twice(s, s.len() as int) == shared_set(rs)
        }),
{
    let raw = range_keys(rs);
    let s = order::sorted(raw);
    order::lemma_sorted(raw);
    assert(raw.no_duplicates()) by {
        assert forall|i: int, j: int|
            0 <= i < raw.len() && 0 <= j < raw.len() && i != j implies raw[i] != raw[j] by {
            assert(raw[i].2 != raw[j].2);
        }
    }
    raw.lemma_multiset_has_no_duplicates();
    s.lemma_multiset_has_no_duplicates_conv();
    assert forall|p: int| 0 <= p < s.len() implies {
        let k = #[trigger] s[p];
        k.2 < rs.len() && k == raw[k.2 as int]
    } by {
        assert(s.contains(s[p]));
        assert(raw.contains(s[p]));
        let i = choose|i: int| 0 <= i < raw.len() && raw[i] == s[p];
        assert(raw[i].2 == i);
    }
    assert forall|off: int| twice(s, s.len() as int).contains(off) == shared_set(rs).contains(
        off,
    ) by {
        if twice(s, s.len() as int).contains(off) {
            let (p, q) = choose|p: int, q: int|
                #![trigger s[p], s[q]]
                0 <= p < s.len() && 0 <= q < s.len() && p != q && within(s[p], off) && within(
                    s[q],
                    off,
                );
            let i = s[p].2 as int;
            let j = s[q].2 as int;
            assert(s[p] != s[q]);
            assert(i != j);
            assert(holds(rs[i], off) && holds(rs[j], off));
        }
        if shared_set(rs).contains(off) {
            let (i, j) = choose|i: int, j: int|
                #![trigger rs[i], rs[j]]
                0 <= i < rs.len() && 0 <= j < rs.len() && i != j && holds(rs[i], off) && holds(
                    rs[j],
                    off,
                );
            assert(raw.contains(raw[i]) && raw.contains(raw[j]));
            assert(s.contains(raw[i]) && s.contains(raw[j]));
            let p = choose|p: int| 0 <= p < s.len() && s[p] == raw[i];
            let q = choose|q: int| 0 <= q < s.len() && s[q] == raw[j];
            assert(raw[i].2 != raw[j].2);
            assert(p != q);
            assert(within(s[p], off) && within(s[q], off));
        }
    }
    assert(twice(s, s.len() as int) =~= shared_set(rs));
}

/// Where the coverage of the first `n` keys ends, and where the double coverage does.
spec fn reach(s: Seq<Key>, n: int, c1: u64, c2: u64) -> bool {
    &&& c2 <= c1
    &&& forall|off: int|
        (n > 0 ==> s[n - 1].0 <= off) ==> (#[trigger] once(s, n).contains(off) <==> 0 <= off < c1
            && n > 0)
    &&& forall|off: int|
        (n > 0 ==> s[n - 1].0 <= off) ==> (#[trigger] twice(s, n).contains(off) <==> 0 <= off < c2
            && n > 0)
}

/// What one more key adds to the offsets covered once and twice.
proof fn lemma_sweep_step(s: Seq<Key>, n: int, c1: u64, c2: u64)
    requires
        0 <= n < s.len(),
        s[n].0 <= s[n].1,
        n > 0 ==> s[n - 1].0 <= s[n].0,
        n == 0 ==> c1 == 0,
        reach(s, n, c1, c2),
        once(s, n).finite(),
        twice(s, n).finite(),
    ensures
        ({
            let (a, b, i) = s[n];
            let low1 = if a < c1 {
                c1
            } else {
                a
            };
            let low2 = if a < c2 {
                c2
            } else {
                a
            };
            let high2 = if b < c1 {
                b
            } else {
                c1
            };
            let d1 = if c1 < b {
                b
            } else {
                c1
            };
            let d2 = if c2 < high2 {
                high2
            } else {
                c2
            };
            &&& once(s, n + 1).finite()
            &&& twice(s, n + 1).finite()
            &&& once(s, n + 1).len() == once(s, n).len() + if low1 < b {
                b - low1
            } else {
                0
            }
            &&& twice(s, n + 1).len() == twice(s, n).len() + if low2 < high2 {
                high2 - low2
            } else {
                0
            }
            &&& reach(s, n + 1, d1, d2)
        }),
{
    let (a, b, i) = s[n];
    let low1 = if a < c1 {
        c1
    } else {
        a
    };
    let low2 = if a < c2 {
        c2
    } else {
        a
    };
    let high2 = if b < c1 {
        b
    } else {
        c1
    };
    let d1 = if c1 < b {
        b
    } else {
        c1
    };
    let d2 = if c2 < high2 {
        high2
    } else {
        c2
    };
    let new1 = set_int_range(low1 as int, if low1 < b { b as int } else { low1 as int });
    let new2 = set_int_range(low2 as int, if low2 < high2 { high2 as int } else { low2 as int });
    lemma_int_range(low1 as int, if low1 < b { b as int } else { low1 as int });
    lemma_int_range(low2 as int, if low2 < high2 { high2 as int } else { low2 as int });
    assert forall|off: int| #[trigger] once(s, n + 1).contains(off) == (once(s, n).contains(off)
        || within(s[n], off)) by {
        if once(s, n + 1).contains(off) {
            let p = choose|p: int| 0 <= p < n + 1 && within(#[trigger] s[p], off);
            if p < n {
                assert(once(s, n).contains(off));
            }
        }
        if once(s, n).contains(off) {
            let p = choose|p: int| 0 <= p < n && within(#[trigger] s[p], off);
            assert(within(s[p], off));
        }
        if within(s[n], off) {
            assert(0 <= n < n + 1);
        }
    }
    assert forall|off: int| #[trigger] twice(s, n + 1).contains(off) == (twice(s, n).contains(off)
        || (within(s[n], off) && once(s, n).contains(off))) by {
        if twice(s, n + 1).contains(off) {
            let (p, q) = choose|p: int, q: int|
                #![trigger s[p], s[q]]
                0 <= p < n + 1 && 0 <= q < n + 1 && p != q && within(s[p], off) && within(
                    s[q],
                    off,
                );
            if p < n && q < n {
                assert(twice(s, n).contains(off));
            } else if p < n {
                assert(within(s[p], off));
                assert(once(s, n).contains(off));
            } else {
                assert(within(s[q], off));
                assert(once(s, n).contains(off));
            }
        }
        if twice(s, n).contains(off) {
            let (p, q) = choose|p: int, q: int|
                #![trigger s[p], s[q]]
                0 <= p < n && 0 <= q < n && p != q && within(s[p], off) && within(s[q], off);
            assert(within(s[p], off) && within(s[q], off));
        }
        if within(s[n], off) && once(s, n).contains(off) {
            let p = choose|p: int| 0 <= p < n && within(#[trigger] s[p], off);
            assert(within(s[p], off) && within(s[n], off));
        }
    }
    assert(once(s, n + 1) =~= once(s, n) + new1);
    assert(once(s, n).disjoint(new1));
    lemma_set_disjoint_lens(once(s, n), new1);
    assert(twice(s, n + 1) =~= twice(s, n) + new2);
    assert(twice(s, n).disjoint(new2));
    lemma_set_disjoint_lens(twice(s, n), new2);
}

impl MemImage {
    /// How many bytes of the file are in memory, and how many are there more than once.
    fn residency(&self) -> (r: (u64, u64))
        ensures
            r.0 == resident_set(self.ranges()).len(),
            r.1 == shared_set(self.ranges()).len(),
            resident_set(self.ranges()).finite(),
            shared_set(self.ranges()).finite(),
    {
        let ranges = self.resident();
        let ghost rs = ranges@;
        let mut raw: Vec<Key> = Vec::new();
        let mut i: usize = 0;
        while i < ranges.len()
            invariant
                i <= rs.len(),
                rs == ranges@,
                raw@ =~= range_keys(rs).take(i as int),
            decreases ranges.len() - i,
        {
            let span = ranges[i].span;
            raw.push((span.start, span.end(), i as u64));
            i += 1;
        }
        assert(raw@ =~= range_keys(rs));
        let s = order::sort_keys(raw.as_slice());
        proof {
            order::lemma_sorted(raw@);
            assert(rs.len() == ranges.len());
            lemma_sets_of_sorted(rs);
            assert forall|n: int| 0 <= n < s@.len() implies (#[trigger] s@[n]).0 <= s@[n].1 by {
                assert(s@.contains(s@[n]));
                assert(raw@.contains(s@[n]));
            }
            assert forall|p: int, q: int|
                #![trigger s@[p], s@[q]]
                0 <= p < q < s@.len() implies s@[p].0 <= s@[q].0 by {
                assert(order::key_le(s@[p], s@[q]));
            }
            assert(once(s@, 0) =~= Set::<int>::empty());
            assert(twice(s@, 0) =~= Set::<int>::empty());
        }
        let mut c1: u64 = 0;
        let mut c2: u64 = 0;
        let mut covered: u64 = 0;
        let mut double: u64 = 0;
        let mut n: usize = 0;
        while n < s.len()
            invariant
                n <= s@.len(),
                n == 0 ==> c1 == 0,
                reach(s@, n as int, c1, c2),
                once(s@, n as int).finite(),
                twice(s@, n as int).finite(),
                covered == once(s@, n as int).len(),
                double == twice(s@, n as int).len(),
                covered <= c1,
                double <= c2,
                forall|p: int| 0 <= p < s@.len() ==> (#[trigger] s@[p]).0 <= s@[p].1,
                forall|p: int, q: int|
                    #![trigger s@[p], s@[q]]
                    0 <= p < q < s@.len() ==> s@[p].0 <= s@[q].0,
            decreases s.len() - n,
        {
            proof {
                lemma_sweep_step(s@, n as int, c1, c2);
            }
            let (a, b, at) = s[n];
            let low1: u64 = if a < c1 {
                c1
            } else {
                a
            };
            let low2: u64 = if a < c2 {
                c2
            } else {
                a
            };
            let high2: u64 = if b < c1 {
                b
            } else {
                c1
            };
            if low1 < b {
                covered = covered + (b - low1);
            }
            if low2 < high2 {
                double = double + (high2 - low2);
            }
            if c2 < high2 {
                c2 = high2;
            }
            if c1 < b {
                c1 = b;
            }
            n += 1;
        }
        (covered, double)
    }

    /// How many bytes of the file are in memory, whatever shares a mapped page included.
    #[must_use]
    pub fn resident_bytes(&self) -> (r: u64)
        ensures
            r == resident_set(self.ranges()).len(),
    {
        self.residency().0
    }

    /// How many bytes of the file are in memory more than once: file pages that two segments
    /// share are mapped at two addresses.
    #[must_use]
    pub fn double_mapped_bytes(&self) -> (r: u64)
        ensures
            r == shared_set(self.ranges()).len(),
    {
        self.residency().1
    }
}

/// No more of a file is in memory than there is of it.
pub proof fn law_no_more_is_resident_than_the_file_holds(segs: Seq<Segment>, file_len: u64)
    ensures
        resident_set(model::residents(segs, file_len, segs.len() as int)).len() <= file_len,
{
    let rs = model::residents(segs, file_len, segs.len() as int);
    let s = resident_set(rs);
    let whole = vstd::set_lib::set_int_range(0, file_len as int);
    vstd::set_lib::lemma_int_range(0, file_len as int);
    assert forall|off: int| s.contains(off) implies whole.contains(off) by {
        let i = choose|i: int| 0 <= i < rs.len() && holds(#[trigger] rs[i], off);
        lemma_residents_end(segs, file_len, segs.len() as int, i);
    }
    vstd::set_lib::lemma_len_subset(s, whole);
}

proof fn lemma_residents_end(segs: Seq<Segment>, file_len: u64, n: int, i: int)
    requires
        0 <= n <= segs.len(),
        0 <= i < model::residents(segs, file_len, n).len(),
    ensures
        ({
            let r = model::residents(segs, file_len, n)[i];
            r.span.len == 0 || r.span.start + r.span.len <= file_len
        }),
    decreases n,
{
    if n > 0 && i < model::residents(segs, file_len, n - 1).len() {
        lemma_residents_end(segs, file_len, n - 1, i);
    }
}

proof fn lemma_resident_vaddr(rs: Seq<Resident>, off: u64)
    ensures
        model::resident_vaddr(rs, off) is Some <==> resident_set(rs).contains(off as int),
    decreases rs.len(),
{
    if rs.len() > 0 {
        let rest = rs.drop_first();
        lemma_resident_vaddr(rest, off);
        if holds(rs[0], off as int) {
        } else if resident_set(rs).contains(off as int) {
            let i = choose|i: int| 0 <= i < rs.len() && holds(#[trigger] rs[i], off as int);
            assert(rest[i - 1] == rs[i]);
        } else if resident_set(rest).contains(off as int) {
            let i = choose|i: int| 0 <= i < rest.len() && holds(#[trigger] rest[i], off as int);
            assert(rs[i + 1] == rest[i]);
        }
    }
}

/// A mapping loads `off` from the file.
pub open spec fn loads(m: Mapping, off: u64) -> bool {
    m.source matches MapSource::FromFile(s) && s.start <= off < s.spec_end()
}

proof fn lemma_exact_vaddr(maps: Seq<Mapping>, off: u64)
    requires
        model::exact_vaddr(maps, off) is Some,
    ensures
        exists|i: int| 0 <= i < maps.len() && loads(#[trigger] maps[i], off),
    decreases maps.len(),
{
    if loads(maps[0], off) {
    } else {
        let rest = maps.drop_first();
        lemma_exact_vaddr(rest, off);
        let i = choose|i: int| 0 <= i < rest.len() && loads(#[trigger] rest[i], off);
        assert(maps[i + 1] == rest[i]);
    }
}

proof fn lemma_loaded_is_resident(
    segs: Seq<Segment>,
    file_len: u64,
    n: int,
    i: int,
    off: u64,
)
    requires
        0 <= n <= segs.len(),
        0 <= i < model::raw_mappings(segs, n).len(),
        loads(model::raw_mappings(segs, n)[i], off),
        off < file_len,
    ensures
        resident_set(model::residents(segs, file_len, n)).contains(off as int),
    decreases n,
{
    if n > 0 {
        let before = model::raw_mappings(segs, n - 1);
        let rs = model::residents(segs, file_len, n - 1);
        let all = model::residents(segs, file_len, n);
        if i < before.len() {
            assert(model::raw_mappings(segs, n)[i] == before[i]);
            lemma_loaded_is_resident(segs, file_len, n - 1, i, off);
            let k = choose|k: int| 0 <= k < rs.len() && holds(#[trigger] rs[k], off as int);
            assert(all[k] == rs[k]);
        } else {
            let seg = segs[n - 1];
            assert(all[rs.len() as int] == model::resident_of(seg, file_len));
            assert(holds(all[rs.len() as int], off as int));
        }
    }
}

/// A byte of the file has an address exactly where it is resident, so what has none is what
/// is never loaded.
pub proof fn law_resident_bytes_are_those_with_an_address(
    segs: Seq<Segment>,
    file_len: u64,
    off: u64,
)
    requires
        2 * segs.len() <= usize::MAX,
        off < file_len,
    ensures
        ({
            let rs = model::residents(segs, file_len, segs.len() as int);
            model::address(model::mappings_of(segs), rs, off) is Some <==> resident_set(
                rs,
            ).contains(off as int)
        }),
{
    let n = segs.len() as int;
    let rs = model::residents(segs, file_len, n);
    let maps = model::mappings_of(segs);
    lemma_resident_vaddr(rs, off);
    if model::exact_vaddr(maps, off) is Some {
        lemma_exact_vaddr(maps, off);
        let i = choose|i: int| 0 <= i < maps.len() && loads(#[trigger] maps[i], off);
        let raw = model::raw_mappings(segs, n);
        let keys = model::mapping_keys(raw);
        order::lemma_sorted(keys);
        let k = order::sorted(keys)[i];
        assert(order::sorted(keys).contains(k));
        assert(keys.contains(k));
        let j = choose|j: int| 0 <= j < keys.len() && keys[j] == k;
        lemma_raw_mappings_len(segs, n);
        assert(maps[i] == raw[k.2 as int]);
        lemma_loaded_is_resident(segs, file_len, n, j, off);
    }
}

proof fn lemma_raw_mappings_len(segs: Seq<Segment>, n: int)
    requires
        0 <= n <= segs.len(),
    ensures
        model::raw_mappings(segs, n).len() <= 2 * n,
    decreases n,
{
    if n > 0 {
        lemma_raw_mappings_len(segs, n - 1);
    }
}

// What the segments add up to, whatever order they are mapped in.

/// The file bytes that the first `n` segments load, saturating.
pub open spec fn loaded_bytes(segs: Seq<Segment>, n: int) -> u64
    decreases n,
{
    if n <= 0 {
        0
    } else if segs[n - 1].p_type == model::PT_LOAD {
        span::sat_add(loaded_bytes(segs, n - 1), segs[n - 1].filesz)
    } else {
        loaded_bytes(segs, n - 1)
    }
}

/// The bytes that the first `n` segments have in memory and not in the file, saturating.
pub open spec fn cleared_bytes(segs: Seq<Segment>, n: int) -> u64
    decreases n,
{
    if n <= 0 {
        0
    } else if segs[n - 1].p_type == model::PT_LOAD && segs[n - 1].memsz > segs[n - 1].filesz {
        span::sat_add(
            cleared_bytes(segs, n - 1),
            (segs[n - 1].memsz - segs[n - 1].filesz) as u64,
        )
    } else {
        cleared_bytes(segs, n - 1)
    }
}

/// The file bytes of one mapping, or its bytes with no file behind them.
spec fn weight(m: Mapping, from_file: bool) -> u64 {
    match m.source {
        MapSource::FromFile(s) => if from_file {
            s.len
        } else {
            0
        },
        MapSource::ZeroFill => if from_file {
            0
        } else {
            m.len
        },
    }
}

/// Adds the weight of the mapping that a key stands for.
spec fn weigh(raw: Seq<Mapping>, from_file: bool) -> spec_fn(u64, Key) -> u64 {
    |sum: u64, k: Key| span::sat_add(sum, weight(raw[k.2 as int], from_file))
}

/// The sums over mappings are sums over the keys that stand for them.
proof fn lemma_sums_are_folds(raw: Seq<Mapping>, keys: Seq<Key>, n: int)
    requires
        0 <= n <= keys.len(),
    ensures
        ({
            let maps = keys.map_values(|k: Key| raw[k.2 as int]);
            &&& model::file_bytes(maps, n) == keys.take(n).fold_left(0u64, weigh(raw, true))
            &&& model::zero_bytes(maps, n) == keys.take(n).fold_left(0u64, weigh(raw, false))
        }),
    decreases n,
{
    if n > 0 {
        lemma_sums_are_folds(raw, keys, n - 1);
        assert(keys.take(n).drop_last() =~= keys.take(n - 1));
        assert(keys.take(n).last() == keys[n - 1]);
    }
}

/// Ordering the mappings by address changes neither sum.
pub proof fn lemma_sums_keep(raw: Seq<Mapping>)
    requires
        raw.len() <= u64::MAX,
    ensures
        ({
            let maps = model::by_address(raw);
            let n = maps.len() as int;
            &&& model::file_bytes(maps, n) == model::file_bytes(raw, raw.len() as int)
            &&& model::zero_bytes(maps, n) == model::zero_bytes(raw, raw.len() as int)
        }),
{
    let keys = model::mapping_keys(raw);
    let s = order::sorted(keys);
    order::lemma_sorted(keys);
    lemma_sums_are_folds(raw, keys, keys.len() as int);
    lemma_sums_are_folds(raw, s, s.len() as int);
    assert(keys.take(keys.len() as int) =~= keys);
    assert(s.take(s.len() as int) =~= s);
    assert(keys.map_values(|k: Key| raw[k.2 as int]) =~= raw);
    lemma_fold_left_permutation(s, keys, weigh(raw, true), 0u64);
    lemma_fold_left_permutation(s, keys, weigh(raw, false), 0u64);
}

proof fn lemma_sum_of_prefix(maps: Seq<Mapping>, longer: Seq<Mapping>, n: int)
    requires
        0 <= n <= maps.len(),
        n <= longer.len(),
        forall|i: int| 0 <= i < n ==> maps[i] == #[trigger] longer[i],
    ensures
        model::file_bytes(longer, n) == model::file_bytes(maps, n),
        model::zero_bytes(longer, n) == model::zero_bytes(maps, n),
    decreases n,
{
    if n > 0 {
        lemma_sum_of_prefix(maps, longer, n - 1);
    }
}

/// The sums over the mappings of the first `n` segments.
pub proof fn lemma_raw_sums(segs: Seq<Segment>, n: int)
    requires
        0 <= n <= segs.len(),
    ensures
        ({
            let raw = model::raw_mappings(segs, n);
            &&& model::file_bytes(raw, raw.len() as int) == loaded_bytes(segs, n)
            &&& model::zero_bytes(raw, raw.len() as int) == cleared_bytes(segs, n)
        }),
    decreases n,
{
    if n > 0 {
        lemma_raw_sums(segs, n - 1);
        let before = model::raw_mappings(segs, n - 1);
        let raw = model::raw_mappings(segs, n);
        let k = before.len() as int;
        lemma_sum_of_prefix(before, raw, k);
        reveal_with_fuel(model::file_bytes, 3);
        reveal_with_fuel(model::zero_bytes, 3);
        assert(raw.len() == k || raw.len() == k + 1 || raw.len() == k + 2);
    }
}

/// What the segments map is the sum of their sizes in the file, over those that are loaded,
/// saturating: in whatever order they come, and whatever the other segments are.
pub proof fn law_mapped_bytes_are_the_file_sizes(segs: Seq<Segment>)
    requires
        2 * segs.len() <= usize::MAX,
    ensures
        ({
            let maps = model::mappings_of(segs);
            model::file_bytes(maps, maps.len() as int) == loaded_bytes(segs, segs.len() as int)
        }),
{
    lemma_raw_mappings_len(segs, segs.len() as int);
    lemma_sums_keep(model::raw_mappings(segs, segs.len() as int));
    lemma_raw_sums(segs, segs.len() as int);
}

/// What is zero-filled is the sum of what the loaded segments have in memory beyond their
/// sizes in the file, saturating.
pub proof fn law_zero_filled_bytes_are_the_rest(segs: Seq<Segment>)
    requires
        2 * segs.len() <= usize::MAX,
    ensures
        ({
            let maps = model::mappings_of(segs);
            model::zero_bytes(maps, maps.len() as int) == cleared_bytes(segs, segs.len() as int)
        }),
{
    lemma_raw_mappings_len(segs, segs.len() as int);
    lemma_sums_keep(model::raw_mappings(segs, segs.len() as int));
    lemma_raw_sums(segs, segs.len() as int);
}

proof fn lemma_loaded_insert(segs: Seq<Segment>, at: int, seg: Segment, n: int)
    requires
        0 <= at <= segs.len(),
        seg.p_type != model::PT_LOAD,
        0 <= n <= segs.len() + 1,
    ensures
        loaded_bytes(segs.insert(at, seg), n) == loaded_bytes(
            segs,
            if n <= at {
                n
            } else {
                n - 1
            },
        ),
    decreases n,
{
    if n > 0 {
        lemma_loaded_insert(segs, at, seg, n - 1);
    }
}

/// A segment that is not loaded adds nothing to what is mapped, wherever it stands.
pub proof fn law_other_segments_map_nothing(segs: Seq<Segment>, at: int, seg: Segment)
    requires
        2 * (segs.len() + 1) <= usize::MAX,
        0 <= at <= segs.len(),
        seg.p_type != model::PT_LOAD,
    ensures
        ({
            let a = model::mappings_of(segs);
            let b = model::mappings_of(segs.insert(at, seg));
            model::file_bytes(b, b.len() as int) == model::file_bytes(a, a.len() as int)
        }),
{
    let more = segs.insert(at, seg);
    law_mapped_bytes_are_the_file_sizes(segs);
    law_mapped_bytes_are_the_file_sizes(more);
    lemma_loaded_insert(segs, at, seg, more.len() as int);
}

proof fn lemma_loaded_whatever_the_memory(a: Seq<Segment>, b: Seq<Segment>, n: int)
    requires
        a.len() == b.len(),
        0 <= n <= a.len(),
        forall|i: int|
            0 <= i < a.len() ==> (#[trigger] a[i]).p_type == b[i].p_type && a[i].filesz
                == b[i].filesz,
    ensures
        loaded_bytes(a, n) == loaded_bytes(b, n),
    decreases n,
{
    if n > 0 {
        lemma_loaded_whatever_the_memory(a, b, n - 1);
        assert(a[n - 1].p_type == b[n - 1].p_type);
    }
}

/// What is mapped depends on which segments are loaded and on their sizes in the file: not on
/// their sizes in memory, nor on where they are put.
pub proof fn law_sizes_in_memory_do_not_matter(a: Seq<Segment>, b: Seq<Segment>)
    requires
        2 * a.len() <= usize::MAX,
        a.len() == b.len(),
        forall|i: int|
            0 <= i < a.len() ==> (#[trigger] a[i]).p_type == b[i].p_type && a[i].filesz
                == b[i].filesz,
    ensures
        ({
            let x = model::mappings_of(a);
            let y = model::mappings_of(b);
            model::file_bytes(x, x.len() as int) == model::file_bytes(y, y.len() as int)
        }),
{
    law_mapped_bytes_are_the_file_sizes(a);
    law_mapped_bytes_are_the_file_sizes(b);
    lemma_loaded_whatever_the_memory(a, b, a.len() as int);
}

// What an image is, said of the segments.

/// The mapping is the part of segment `i` that the file holds.
pub open spec fn is_file_part(m: Mapping, segs: Seq<Segment>, i: int) -> bool {
    &&& 0 <= i < segs.len()
    &&& segs[i].p_type == 1
    &&& segs[i].filesz > 0
    &&& m.vaddr == segs[i].vaddr
    &&& m.len == segs[i].filesz
    &&& m.source == MapSource::FromFile(
        Span { file: FileId(0), start: segs[i].offset, len: segs[i].filesz },
    )
    &&& allows(m, segs[i])
    &&& i <= u32::MAX ==> m.segment == i
}

/// The mapping is the part of segment `i` that the file does not hold: it starts where the
/// file part ends.
pub open spec fn is_zero_part(m: Mapping, segs: Seq<Segment>, i: int) -> bool {
    &&& 0 <= i < segs.len()
    &&& segs[i].p_type == 1
    &&& segs[i].memsz > segs[i].filesz
    &&& m.vaddr == if segs[i].vaddr + segs[i].filesz > u64::MAX {
        u64::MAX as int
    } else {
        segs[i].vaddr + segs[i].filesz
    }
    &&& m.len == segs[i].memsz - segs[i].filesz
    &&& m.source is ZeroFill
    &&& allows(m, segs[i])
    &&& i <= u32::MAX ==> m.segment == i
}

/// The mapping allows what the flag bits of the segment say.
pub open spec fn allows(m: Mapping, seg: Segment) -> bool {
    &&& m.prot.execute <==> seg.flags % 2 == 1
    &&& m.prot.write <==> seg.flags / 2 % 2 == 1
    &&& m.prot.read <==> seg.flags / 4 % 2 == 1
}

/// The mapping is a part of one of the first `n` segments.
pub open spec fn is_part(m: Mapping, segs: Seq<Segment>, n: int) -> bool {
    exists|i: int|
        #![trigger segs[i]]
        0 <= i < n && (is_file_part(m, segs, i) || is_zero_part(m, segs, i))
}

/// Segment `i` has all its parts among the mappings.
pub open spec fn has_parts(maps: Seq<Mapping>, segs: Seq<Segment>, i: int) -> bool {
    &&& segs[i].p_type == 1 && segs[i].filesz > 0 ==> exists|k: int|
        0 <= k < maps.len() && is_file_part(#[trigger] maps[k], segs, i)
    &&& segs[i].p_type == 1 && segs[i].memsz > segs[i].filesz ==> exists|k: int|
        0 <= k < maps.len() && is_zero_part(#[trigger] maps[k], segs, i)
}

/// How many parts the first `n` segments have.
pub open spec fn part_count(segs: Seq<Segment>, n: int) -> int
    decreases n,
{
    if n <= 0 {
        0
    } else {
        part_count(segs, n - 1) + (if segs[n - 1].p_type == 1 && segs[n - 1].filesz > 0 {
            1int
        } else {
            0
        }) + if segs[n - 1].p_type == 1 && segs[n - 1].memsz > segs[n - 1].filesz {
            1int
        } else {
            0
        }
    }
}

proof fn lemma_raw_parts(segs: Seq<Segment>, n: int)
    requires
        0 <= n <= segs.len(),
    ensures
        ({
            let raw = model::raw_mappings(segs, n);
            &&& raw.len() == part_count(segs, n)
            &&& forall|k: int| 0 <= k < raw.len() ==> is_part(#[trigger] raw[k], segs, n)
            &&& forall|i: int| 0 <= i < n ==> #[trigger] has_parts(raw, segs, i)
        }),
    decreases n,
{
    if n > 0 {
        lemma_raw_parts(segs, n - 1);
        let before = model::raw_mappings(segs, n - 1);
        let raw = model::raw_mappings(segs, n);
        let seg = segs[n - 1];
        crate::model::law_flag_bits_are_protections(seg.flags);
        assert forall|k: int| 0 <= k < before.len() implies raw[k] == before[k] by {}
        assert forall|k: int| 0 <= k < raw.len() implies is_part(#[trigger] raw[k], segs, n) by {
            if k < before.len() {
                assert(is_part(before[k], segs, n - 1));
                let i = choose|i: int|
                    #![trigger segs[i]]
                    0 <= i < n - 1 && (is_file_part(before[k], segs, i) || is_zero_part(
                        before[k],
                        segs,
                        i,
                    ));
                assert(is_file_part(raw[k], segs, i) || is_zero_part(raw[k], segs, i));
                assert(segs[i] == segs[i]);
            } else {
                assert(is_file_part(raw[k], segs, n - 1) || is_zero_part(raw[k], segs, n - 1));
                assert(segs[n - 1] == seg);
            }
        }
        assert forall|i: int| 0 <= i < n implies #[trigger] has_parts(raw, segs, i) by {
            if i < n - 1 {
                assert(has_parts(before, segs, i));
                if segs[i].p_type == 1 && segs[i].filesz > 0 {
                    let k = choose|k: int|
                        0 <= k < before.len() && is_file_part(#[trigger] before[k], segs, i);
                    assert(is_file_part(raw[k], segs, i));
                }
                if segs[i].p_type == 1 && segs[i].memsz > segs[i].filesz {
                    let k = choose|k: int|
                        0 <= k < before.len() && is_zero_part(#[trigger] before[k], segs, i);
                    assert(is_zero_part(raw[k], segs, i));
                }
            } else {
                if seg.p_type == 1 && seg.filesz > 0 {
                    assert(is_file_part(raw[before.len() as int], segs, i));
                }
                if seg.p_type == 1 && seg.memsz > seg.filesz {
                    assert(is_zero_part(raw[raw.len() - 1], segs, i));
                }
            }
        }
    }
}

/// Ordering the mappings loses none and adds none.
proof fn lemma_ordered(raw: Seq<Mapping>)
    requires
        raw.len() <= u64::MAX,
    ensures
        ({
            let maps = model::by_address(raw);
            &&& maps.len() == raw.len()
            &&& forall|k: int| 0 <= k < maps.len() ==> raw.contains(#[trigger] maps[k])
            &&& forall|k: int| 0 <= k < raw.len() ==> maps.contains(#[trigger] raw[k])
            &&& forall|a: int, b: int|
                #![trigger maps[a], maps[b]]
                0 <= a <= b < maps.len() ==> maps[a].vaddr <= maps[b].vaddr
        }),
{
    let keys = model::mapping_keys(raw);
    let s = order::sorted(keys);
    let maps = model::by_address(raw);
    order::lemma_sorted(keys);
    assert forall|k: int| 0 <= k < maps.len() implies raw.contains(#[trigger] maps[k]) && s[k].0
        == maps[k].vaddr by {
        assert(s.contains(s[k]));
        assert(keys.contains(s[k]));
        let j = choose|j: int| 0 <= j < keys.len() && keys[j] == s[k];
        assert(keys[j] == (raw[j].vaddr, raw[j].len, j as u64));
        assert(maps[k] == raw[j]);
    }
    assert forall|k: int| 0 <= k < raw.len() implies maps.contains(#[trigger] raw[k]) by {
        assert(keys.contains(keys[k]));
        assert(s.contains(keys[k]));
        let j = choose|j: int| 0 <= j < s.len() && s[j] == keys[k];
        assert(keys[k] == (raw[k].vaddr, raw[k].len, k as u64));
        assert(maps[j] == raw[k]);
    }
    assert forall|a: int, b: int| #![trigger maps[a], maps[b]] 0 <= a <= b < maps.len() implies
        maps[a].vaddr <= maps[b].vaddr by {
        assert(raw.contains(maps[a]) && raw.contains(maps[b]));
        if a < b {
            assert(order::key_le(s[a], s[b]));
        }
    }
}

/// An image holds the parts of the loadable segments and nothing else, by ascending address:
/// of each, what the file holds, at the address and with the flags that its header gives, and
/// behind it what is zero-filled.
pub proof fn law_an_image_is_the_loadable_segments(segs: Seq<Segment>)
    requires
        2 * segs.len() <= usize::MAX,
    ensures
        ({
            let maps = model::mappings_of(segs);
            &&& maps.len() == part_count(segs, segs.len() as int)
            &&& forall|k: int|
                0 <= k < maps.len() ==> is_part(#[trigger] maps[k], segs, segs.len() as int)
            &&& forall|i: int| 0 <= i < segs.len() ==> #[trigger] has_parts(maps, segs, i)
            &&& forall|a: int, b: int|
                #![trigger maps[a], maps[b]]
                0 <= a <= b < maps.len() ==> maps[a].vaddr <= maps[b].vaddr
        }),
{
    let n = segs.len() as int;
    let raw = model::raw_mappings(segs, n);
    let maps = model::mappings_of(segs);
    lemma_raw_mappings_len(segs, n);
    lemma_raw_parts(segs, n);
    lemma_ordered(raw);
    assert forall|k: int| 0 <= k < maps.len() implies is_part(#[trigger] maps[k], segs, n) by {
        assert(raw.contains(maps[k]));
        let j = choose|j: int| 0 <= j < raw.len() && raw[j] == maps[k];
        assert(is_part(raw[j], segs, n));
    }
    assert forall|i: int| 0 <= i < n implies #[trigger] has_parts(maps, segs, i) by {
        assert(has_parts(raw, segs, i));
        if segs[i].p_type == 1 && segs[i].filesz > 0 {
            let k = choose|k: int|
                0 <= k < raw.len() && is_file_part(#[trigger] raw[k], segs, i);
            assert(maps.contains(raw[k]));
            let j = choose|j: int| 0 <= j < maps.len() && maps[j] == raw[k];
            assert(is_file_part(maps[j], segs, i));
        }
        if segs[i].p_type == 1 && segs[i].memsz > segs[i].filesz {
            let k = choose|k: int|
                0 <= k < raw.len() && is_zero_part(#[trigger] raw[k], segs, i);
            assert(maps.contains(raw[k]));
            let j = choose|j: int| 0 <= j < maps.len() && maps[j] == raw[k];
            assert(is_zero_part(maps[j], segs, i));
        }
    }
}

/// The image reaches from its lowest mapping to the highest end, and every mapping lies within.
pub proof fn law_the_extent_holds_every_mapping(maps: Seq<Mapping>)
    ensures
        forall|k: int| 0 <= k < maps.len() ==> (#[trigger] maps[k]).spec_end() <= model::top_of(maps),
        model::top_of(maps) > 0 ==> exists|k: int|
            0 <= k < maps.len() && (#[trigger] maps[k]).spec_end() == model::top_of(maps),
    decreases maps.len(),
{
    if maps.len() > 0 {
        let less = maps.drop_last();
        law_the_extent_holds_every_mapping(less);
        assert forall|k: int| 0 <= k < maps.len() implies (#[trigger] maps[k]).spec_end()
            <= model::top_of(maps) by {
            if k < maps.len() - 1 {
                assert(less[k] == maps[k]);
            }
        }
        if model::top_of(maps) > 0 {
            if maps.last().spec_end() > model::top_of(less) {
                assert(maps[maps.len() - 1].spec_end() == model::top_of(maps));
            } else {
                let k = choose|k: int|
                    0 <= k < less.len() && (#[trigger] less[k]).spec_end() == model::top_of(less);
                assert(maps[k].spec_end() == model::top_of(maps));
            }
        }
    }
}

/// The range is what mapping the segment makes resident: whole pages from the one that holds
/// its first byte, at the end too unless memory goes on past the file, and no more than there
/// is of the file.
pub open spec fn is_resident_for(r: Resident, seg: Segment, file_len: u64) -> bool {
    let from = r.span.start as int;
    let to = r.span.start + r.span.len;
    let last = seg.offset + seg.filesz;
    &&& r.span.file == FileId(0)
    &&& from % 4096 == 0
    &&& from <= seg.offset < from + 4096
    &&& seg.vaddr >= seg.offset - from ==> r.vaddr == seg.vaddr - (seg.offset - from)
    &&& last + 4096 <= u64::MAX && from < file_len ==> if seg.memsz > seg.filesz {
        to == if last < file_len {
            last
        } else {
            file_len as int
        }
    } else {
        &&& to <= file_len
        &&& to < last + 4096
        &&& to == file_len || (to % 4096 == 0 && last <= to)
    }
}

/// What is resident is one range for each loadable segment that has bytes in the file, in the
/// order of the segments.
pub proof fn law_whole_pages_are_resident(segs: Seq<Segment>, file_len: u64, n: int)
    requires
        0 <= n <= segs.len(),
    ensures
        ({
            let rs = model::residents(segs, file_len, n);
            &&& n == 0 ==> rs.len() == 0
            &&& n > 0 ==> {
                let before = model::residents(segs, file_len, n - 1);
                if segs[n - 1].p_type == 1 && segs[n - 1].filesz > 0 {
                    &&& rs.len() == before.len() + 1
                    &&& rs.drop_last() == before
                    &&& is_resident_for(rs.last(), segs[n - 1], file_len)
                } else {
                    rs == before
                }
            }
        }),
{
    if n > 0 && segs[n - 1].p_type == 1 && segs[n - 1].filesz > 0 {
        let before = model::residents(segs, file_len, n - 1);
        assert(model::residents(segs, file_len, n).drop_last() =~= before);
    }
}

/// Mapping `k` is the first that loads the byte.
pub open spec fn first_to_load(maps: Seq<Mapping>, off: u64, k: int) -> bool {
    &&& 0 <= k < maps.len()
    &&& loads(maps[k], off)
    &&& forall|j: int| 0 <= j < k ==> !loads(#[trigger] maps[j], off)
}

/// Range `k` is the first that holds the byte.
pub open spec fn first_to_keep(rs: Seq<Resident>, off: u64, k: int) -> bool {
    &&& 0 <= k < rs.len()
    &&& holds(rs[k], off as int)
    &&& forall|j: int| 0 <= j < k ==> !holds(#[trigger] rs[j], off as int)
}

proof fn lemma_exact(maps: Seq<Mapping>, off: u64)
    ensures
        match model::exact_vaddr(maps, off) {
            Some(va) => exists|k: int|
                #[trigger] first_to_load(maps, off, k) && va == span::sat_add(
                    maps[k].vaddr,
                    (off - maps[k].source->FromFile_0.start) as u64,
                ),
            None => forall|k: int| 0 <= k < maps.len() ==> !loads(#[trigger] maps[k], off),
        },
    decreases maps.len(),
{
    if maps.len() > 0 {
        let rest = maps.drop_first();
        if loads(maps[0], off) {
            assert(first_to_load(maps, off, 0));
        } else {
            lemma_exact(rest, off);
            match model::exact_vaddr(maps, off) {
                Some(va) => {
                    let k = choose|k: int|
                        #[trigger] first_to_load(rest, off, k) && va == span::sat_add(
                            rest[k].vaddr,
                            (off - rest[k].source->FromFile_0.start) as u64,
                        );
                    assert(rest[k] == maps[k + 1]);
                    assert(first_to_load(maps, off, k + 1)) by {
                        assert forall|j: int| 0 <= j < k + 1 implies !loads(
                            #[trigger] maps[j],
                            off,
                        ) by {
                            if j > 0 {
                                assert(rest[j - 1] == maps[j]);
                            }
                        }
                    }
                },
                None => {
                    assert forall|k: int| 0 <= k < maps.len() implies !loads(
                        #[trigger] maps[k],
                        off,
                    ) by {
                        if k > 0 {
                            assert(rest[k - 1] == maps[k]);
                        }
                    }
                },
            }
        }
    }
}

proof fn lemma_kept(rs: Seq<Resident>, off: u64)
    ensures
        match model::resident_vaddr(rs, off) {
            Some(va) => exists|k: int|
                #[trigger] first_to_keep(rs, off, k) && va == span::sat_add(
                    rs[k].vaddr,
                    (off - rs[k].span.start) as u64,
                ),
            None => forall|k: int| 0 <= k < rs.len() ==> !holds(#[trigger] rs[k], off as int),
        },
    decreases rs.len(),
{
    if rs.len() > 0 {
        let rest = rs.drop_first();
        if holds(rs[0], off as int) {
            assert(first_to_keep(rs, off, 0));
        } else {
            lemma_kept(rest, off);
            match model::resident_vaddr(rs, off) {
                Some(va) => {
                    let k = choose|k: int|
                        #[trigger] first_to_keep(rest, off, k) && va == span::sat_add(
                            rest[k].vaddr,
                            (off - rest[k].span.start) as u64,
                        );
                    assert(rest[k] == rs[k + 1]);
                    assert(first_to_keep(rs, off, k + 1)) by {
                        assert forall|j: int| 0 <= j < k + 1 implies !holds(
                            #[trigger] rs[j],
                            off as int,
                        ) by {
                            if j > 0 {
                                assert(rest[j - 1] == rs[j]);
                            }
                        }
                    }
                },
                None => {
                    assert forall|k: int| 0 <= k < rs.len() implies !holds(
                        #[trigger] rs[k],
                        off as int,
                    ) by {
                        if k > 0 {
                            assert(rest[k - 1] == rs[k]);
                        }
                    }
                },
            }
        }
    }
}

/// A byte of the file is where the first mapping that loads it puts it, as far from the start
/// of the mapping as the byte is from the start of what is loaded; a byte that no mapping
/// loads is where the first page that holds it is, counted in the same way; and any other byte
/// is nowhere.
pub proof fn law_a_byte_is_where_its_segment_says(
    maps: Seq<Mapping>,
    rs: Seq<Resident>,
    off: u64,
)
    ensures
        match model::address(maps, rs, off) {
            Some(va) => {
                ||| exists|k: int|
                    #[trigger] first_to_load(maps, off, k) && va == span::sat_add(
                        maps[k].vaddr,
                        (off - maps[k].source->FromFile_0.start) as u64,
                    )
                ||| (forall|j: int| 0 <= j < maps.len() ==> !loads(#[trigger] maps[j], off))
                    && exists|k: int|
                    #[trigger] first_to_keep(rs, off, k) && va == span::sat_add(
                        rs[k].vaddr,
                        (off - rs[k].span.start) as u64,
                    )
            },
            None => {
                &&& forall|j: int| 0 <= j < maps.len() ==> !loads(#[trigger] maps[j], off)
                &&& forall|j: int| 0 <= j < rs.len() ==> !holds(#[trigger] rs[j], off as int)
            },
        },
{
    lemma_exact(maps, off);
    lemma_kept(rs, off);
}

} // verus!
