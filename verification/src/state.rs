//! Memory at one moment of a load: what is mapped, how it is protected, what was written.

use vstd::prelude::*;

use crate::model;
use crate::model::{MapSource, Mapping, MemImage, Prot, Vma};
use crate::span;
use crate::span::Span;

verus! {

/// One write of the loader.
#[derive(Clone, PartialEq, Eq, Debug)]
pub struct Poke {
    pub addr: u64,
    pub len: u64,
    pub cause: String,
}

/// A [`Poke`] with its cause as a character sequence.
pub struct PokeView {
    pub addr: u64,
    pub len: u64,
    pub cause: Seq<char>,
}

impl View for Poke {
    type V = PokeView;

    open spec fn view(&self) -> PokeView {
        PokeView { addr: self.addr, len: self.len, cause: self.cause@ }
    }
}

impl Poke {
    /// The same write again.
    pub(crate) fn copy(&self) -> (r: Poke)
        ensures
            r@ == self@,
    {
        Poke { addr: self.addr, len: self.len, cause: self.cause.clone() }
    }
}

/// The writes as views.
pub open spec fn poke_views(p: Seq<Poke>) -> Seq<PokeView> {
    p.map_values(|x: Poke| x@)
}

/// Memory at one moment of a load.
#[derive(Clone, Debug)]
pub struct State {
    /// Exact extents, in the order they were mapped. A later one hides an earlier one.
    pub mappings: Vec<Mapping>,
    /// Every write so far.
    pub poked: Vec<Poke>,
}

/// A [`State`] as sequences.
#[verifier::ext_equal]
pub struct StateView {
    pub mappings: Seq<Mapping>,
    pub poked: Seq<PokeView>,
}

impl View for State {
    type V = StateView;

    open spec fn view(&self) -> StateView {
        StateView { mappings: self.mappings@, poked: poke_views(self.poked@) }
    }
}

/// The part of `m` from `from` on, up to `to`, with the protection `prot`.
pub open spec fn piece(m: Mapping, from: u64, to: u64, prot: Prot) -> Mapping {
    Mapping {
        vaddr: from,
        len: (to - from) as u64,
        prot,
        source: match m.source {
            MapSource::FromFile(s) => MapSource::FromFile(
                Span {
                    file: s.file,
                    start: span::sat_add(s.start, (from - m.vaddr) as u64),
                    len: (to - from) as u64,
                },
            ),
            MapSource::ZeroFill => MapSource::ZeroFill,
        },
        segment: m.segment,
    }
}

/// What `mprotect` over `[start, end)` leaves of one mapping: it splits it, rather than
/// recolouring it.
pub open spec fn split(s: Seq<Mapping>, m: Mapping, start: u64, end: u64, to: Prot) -> Seq<Mapping> {
    let stop = m.spec_end();
    if start >= end || m.vaddr >= end || stop <= start {
        s.push(m)
    } else {
        let from = if m.vaddr < start {
            start
        } else {
            m.vaddr
        };
        let upto = if stop < end {
            stop
        } else {
            end
        };
        let s = if m.vaddr < from {
            s.push(piece(m, m.vaddr, from, m.prot))
        } else {
            s
        };
        let s = s.push(piece(m, from, upto, to));
        if upto < stop {
            s.push(piece(m, upto, stop, m.prot))
        } else {
            s
        }
    }
}

/// The first `n` mappings after `mprotect` over `[start, end)`.
pub open spec fn protected(maps: Seq<Mapping>, start: u64, end: u64, to: Prot, n: int) -> Seq<
    Mapping,
>
    decreases n,
{
    if n <= 0 {
        Seq::empty()
    } else {
        split(protected(maps, start, end, to, n - 1), maps[n - 1], start, end, to)
    }
}

/// The protection that the last of `maps` to hold `va` gives it.
pub open spec fn exact_prot(maps: Seq<Mapping>, va: u64) -> Option<Prot>
    decreases maps.len(),
{
    if maps.len() == 0 {
        None
    } else if maps.last().has(va) {
        Some(maps.last().prot)
    } else {
        exact_prot(maps.drop_last(), va)
    }
}

/// `va` is on one of the pages that `m` touches.
pub open spec fn touches(m: Mapping, va: u64) -> bool {
    model::page_down(m.vaddr) <= va < model::page_up(m.spec_end())
}

/// The protection that the last of `maps` to touch the page of `va` gives it.
pub open spec fn page_prot(maps: Seq<Mapping>, va: u64) -> Option<Prot>
    decreases maps.len(),
{
    if maps.len() == 0 {
        None
    } else if touches(maps.last(), va) {
        Some(maps.last().prot)
    } else {
        page_prot(maps.drop_last(), va)
    }
}

/// Some of the first `n` mappings brings bytes of the file for segment `seg`.
pub open spec fn has_file_part(maps: Seq<Mapping>, seg: u32, n: int) -> bool
    decreases n,
{
    if n <= 0 {
        false
    } else {
        has_file_part(maps, seg, n - 1) || (maps[n - 1].segment == seg
            && maps[n - 1].source is FromFile)
    }
}

/// The pages of one mapping. `.bss` begins on the page after the last one the file backs, if
/// its segment has a file part at all, and its pages are anonymous.
pub open spec fn pages_of(maps: Seq<Mapping>, m: Mapping) -> Vma {
    let end = model::page_up(m.spec_end());
    match m.source {
        MapSource::FromFile(s) => {
            let start = model::page_down(m.vaddr);
            let lead = m.vaddr - start;
            Vma {
                start,
                end,
                prot: m.prot,
                offset: Some(
                    if s.start >= lead {
                        (s.start - lead) as u64
                    } else {
                        0
                    },
                ),
                segment: m.segment,
            }
        },
        MapSource::ZeroFill => Vma {
            start: if has_file_part(maps, m.segment, maps.len() as int) {
                model::page_up(m.vaddr)
            } else {
                model::page_down(m.vaddr)
            },
            end,
            prot: m.prot,
            offset: None,
            segment: m.segment,
        },
    }
}

/// The part of `v` from `from` on.
pub open spec fn tail(v: Vma, from: u64) -> Vma {
    Vma {
        start: from,
        offset: match v.offset {
            Some(o) => Some(span::sat_add(o, (from - v.start) as u64)),
            None => None,
        },
        ..v
    }
}

/// What the first `n` rows have below `start`.
pub open spec fn below(rows: Seq<Vma>, start: u64, n: int) -> Seq<Vma>
    decreases n,
{
    if n <= 0 {
        Seq::empty()
    } else {
        let s = below(rows, start, n - 1);
        let v = rows[n - 1];
        if v.start < start {
            s.push(
                Vma {
                    end: if v.end < start {
                        v.end
                    } else {
                        start
                    },
                    ..v
                },
            )
        } else {
            s
        }
    }
}

/// `s` and what the first `n` rows have above `end`.
pub open spec fn above(s: Seq<Vma>, rows: Seq<Vma>, end: u64, n: int) -> Seq<Vma>
    decreases n,
{
    if n <= 0 {
        s
    } else {
        let s = above(s, rows, end, n - 1);
        let v = rows[n - 1];
        if v.end > end {
            s.push(
                if v.start < end {
                    tail(v, end)
                } else {
                    v
                },
            )
        } else {
            s
        }
    }
}

/// The rows with `new` laid over them. An empty one changes nothing.
pub open spec fn overlay(rows: Seq<Vma>, new: Vma) -> Seq<Vma> {
    if new.start >= new.end {
        rows
    } else {
        above(
            below(rows, new.start, rows.len() as int).push(new),
            rows,
            new.end,
            rows.len() as int,
        )
    }
}

/// The pages of the first `n` mappings, later ones over earlier ones.
pub open spec fn laid(maps: Seq<Mapping>, n: int) -> Seq<Vma>
    decreases n,
{
    if n <= 0 {
        Seq::empty()
    } else {
        overlay(laid(maps, n - 1), pages_of(maps, maps[n - 1]))
    }
}

/// `b` continues `a`: adjacent pages of one segment, alike in protection, and following each
/// other in the file or both in none.
pub open spec fn continues(a: Vma, b: Vma) -> bool {
    &&& a.end == b.start
    &&& a.segment == b.segment
    &&& a.prot == b.prot
    &&& match (a.offset, b.offset) {
        (Some(x), Some(y)) => x + (a.end - a.start) == y,
        (None, None) => true,
        _ => false,
    }
}

/// The first `n` rows, with what continues a row joined to it.
pub open spec fn merged(rows: Seq<Vma>, n: int) -> Seq<Vma>
    decreases n,
{
    if n <= 0 {
        Seq::empty()
    } else {
        let s = merged(rows, n - 1);
        let v = rows[n - 1];
        if s.len() > 0 && continues(s.last(), v) {
            s.update(s.len() - 1, Vma { end: v.end, ..s.last() })
        } else {
            s.push(v)
        }
    }
}

/// The kernel's mapping table for these mappings.
pub open spec fn table(maps: Seq<Mapping>) -> Seq<Vma> {
    let rows = laid(maps, maps.len() as int);
    merged(rows, rows.len() as int)
}

/// Rows in order, none empty, none meeting another.
pub open spec fn tidy(rows: Seq<Vma>) -> bool {
    &&& forall|i: int| 0 <= i < rows.len() ==> (#[trigger] rows[i]).start < rows[i].end
    &&& forall|i: int, j: int|
        #![trigger rows[i], rows[j]]
        0 <= i < j < rows.len() ==> rows[i].end <= rows[j].start
}

/// What the row says of `va`: protection, segment, and offset in the file.
pub open spec fn shown(v: Vma, va: int) -> (Prot, u32, Option<int>) {
    (
        v.prot,
        v.segment,
        match v.offset {
            Some(o) => Some(o + (va - v.start)),
            None => None,
        },
    )
}

/// What the row that `va` is in says of it, if it is in one.
pub open spec fn seen_at(rows: Seq<Vma>, va: int) -> Option<(Prot, u32, Option<int>)>
    decreases rows.len(),
{
    if rows.len() == 0 {
        None
    } else if rows.last().start <= va < rows.last().end {
        Some(shown(rows.last(), va))
    } else {
        seen_at(rows.drop_last(), va)
    }
}

impl State {
    /// Nothing mapped, nothing written.
    pub fn new() -> (r: State)
        ensures
            r@ == (StateView { mappings: Seq::empty(), poked: Seq::empty() }),
    {
        let r = State { mappings: Vec::new(), poked: Vec::new() };
        assert(r@ =~= StateView { mappings: Seq::empty(), poked: Seq::empty() });
        r
    }

    /// `mprotect` over `[start, start + len)`.
    pub fn protect(&mut self, start: u64, len: u64, to: Prot)
        ensures
            final(self)@ == (StateView {
                mappings: protected(
                    old(self)@.mappings,
                    start,
                    span::sat_add(start, len),
                    to,
                    old(self)@.mappings.len() as int,
                ),
                ..old(self)@
            }),
    {
        let end: u64 = start.saturating_add(len);
        let mut out: Vec<Mapping> = Vec::new();
        let mut i: usize = 0;
        while i < self.mappings.len()
            invariant
                i <= self.mappings@.len(),
                out@ == protected(self.mappings@, start, end, to, i as int),
            decreases self.mappings.len() - i,
        {
            let m = self.mappings[i];
            let stop: u64 = m.end();
            if start >= end || m.vaddr >= end || stop <= start {
                out.push(m);
            } else {
                let from: u64 = if m.vaddr < start {
                    start
                } else {
                    m.vaddr
                };
                let upto: u64 = if stop < end {
                    stop
                } else {
                    end
                };
                if m.vaddr < from {
                    out.push(cut(m, m.vaddr, from, m.prot));
                }
                out.push(cut(m, from, upto, to));
                if upto < stop {
                    out.push(cut(m, upto, stop, m.prot));
                }
            }
            i += 1;
        }
        self.mappings = out;
        assert(self.poked@ == old(self).poked@);
    }

    /// The protection at `va`: that of the mapping that holds it, or of the page it is on.
    #[must_use]
    pub fn prot_at(&self, va: u64) -> (r: Option<Prot>)
        ensures
            r == (match exact_prot(self@.mappings, va) {
                Some(p) => Some(p),
                None => page_prot(self@.mappings, va),
            }),
    {
        let ghost maps = self.mappings@;
        let mut i: usize = self.mappings.len();
        assert(maps.take(i as int) =~= maps);
        while i > 0
            invariant
                i <= maps.len(),
                maps == self.mappings@,
                exact_prot(maps, va) == exact_prot(maps.take(i as int), va),
            decreases i,
        {
            i -= 1;
            assert(maps.take(i + 1).drop_last() =~= maps.take(i as int));
            let m = self.mappings[i];
            if m.vaddr <= va && va < m.end() {
                return Some(m.prot);
            }
        }
        let mut k: usize = self.mappings.len();
        assert(maps.take(k as int) =~= maps);
        while k > 0
            invariant
                k <= maps.len(),
                maps == self.mappings@,
                exact_prot(maps, va) is None,
                page_prot(maps, va) == page_prot(maps.take(k as int), va),
            decreases k,
        {
            k -= 1;
            assert(maps.take(k + 1).drop_last() =~= maps.take(k as int));
            let m = self.mappings[k];
            if model::round_down(m.vaddr) <= va && va < model::round_up(m.end()) {
                return Some(m.prot);
            }
        }
        None
    }

    /// The mapping table the kernel would show: whole pages, later mappings over earlier
    /// ones, and no merging across segments.
    #[must_use]
    pub fn vmas(&self) -> (r: Vec<Vma>)
        ensures
            r@ == table(self@.mappings),
    {
        kernel_table(self.mappings.as_slice())
    }
}

impl MemImage {
    /// The mapping table the kernel shows before the loader has run.
    #[must_use]
    pub fn vmas(&self) -> (r: Vec<Vma>)
        ensures
            r@ == table(self.maps()),
    {
        kernel_table(self.mappings())
    }
}

fn cut(m: Mapping, from: u64, to: u64, prot: Prot) -> (r: Mapping)
    requires
        m.vaddr <= from <= to,
    ensures
        r == piece(m, from, to, prot),
{
    Mapping {
        vaddr: from,
        len: to - from,
        prot,
        source: match m.source {
            MapSource::FromFile(s) => MapSource::FromFile(
                Span::new(s.file, s.start.saturating_add(from - m.vaddr), to - from),
            ),
            MapSource::ZeroFill => MapSource::ZeroFill,
        },
        segment: m.segment,
    }
}

fn any_file_part(maps: &[Mapping], seg: u32) -> (r: bool)
    ensures
        r == has_file_part(maps@, seg, maps@.len() as int),
{
    let mut found: bool = false;
    let mut i: usize = 0;
    while i < maps.len()
        invariant
            i <= maps@.len(),
            found == has_file_part(maps@, seg, i as int),
        decreases maps.len() - i,
    {
        if let MapSource::FromFile(_) = maps[i].source {
            if maps[i].segment == seg {
                found = true;
            }
        }
        i += 1;
    }
    found
}

fn mapping_pages(maps: &[Mapping], m: Mapping) -> (r: Vma)
    ensures
        r == pages_of(maps@, m),
{
    let end: u64 = model::round_up(m.end());
    match m.source {
        MapSource::FromFile(s) => {
            let start: u64 = model::round_down(m.vaddr);
            Vma {
                start,
                end,
                prot: m.prot,
                offset: Some(s.start.saturating_sub(m.vaddr - start)),
                segment: m.segment,
            }
        },
        MapSource::ZeroFill => {
            let start: u64 = if any_file_part(maps, m.segment) {
                model::round_up(m.vaddr)
            } else {
                model::round_down(m.vaddr)
            };
            Vma { start, end, prot: m.prot, offset: None, segment: m.segment }
        },
    }
}

/// The rows with `new` laid over them.
fn lay(rows: Vec<Vma>, new: Vma) -> (out: Vec<Vma>)
    ensures
        out@ == overlay(rows@, new),
{
    if new.start >= new.end {
        return rows;
    }
    let mut out: Vec<Vma> = Vec::new();
    let mut i: usize = 0;
    while i < rows.len()
        invariant
            i <= rows@.len(),
            out@ == below(rows@, new.start, i as int),
        decreases rows.len() - i,
    {
        let v = rows[i];
        if v.start < new.start {
            let end: u64 = if v.end < new.start {
                v.end
            } else {
                new.start
            };
            out.push(Vma { end, ..v });
        }
        i += 1;
    }
    out.push(new);
    let ghost low = out@;
    let mut k: usize = 0;
    while k < rows.len()
        invariant
            k <= rows@.len(),
            out@ == above(low, rows@, new.end, k as int),
        decreases rows.len() - k,
    {
        let v = rows[k];
        if v.end > new.end {
            if v.start < new.end {
                let offset: Option<u64> = match v.offset {
                    Some(o) => Some(o.saturating_add(new.end - v.start)),
                    None => None,
                };
                out.push(Vma { start: new.end, offset, ..v });
            } else {
                out.push(v);
            }
        }
        k += 1;
    }
    out
}

fn kernel_table(maps: &[Mapping]) -> (out: Vec<Vma>)
    ensures
        out@ == table(maps@),
{
    let mut rows: Vec<Vma> = Vec::new();
    let mut i: usize = 0;
    while i < maps.len()
        invariant
            i <= maps@.len(),
            rows@ == laid(maps@, i as int),
        decreases maps.len() - i,
    {
        rows = lay(rows, mapping_pages(maps, maps[i]));
        i += 1;
    }
    proof {
        lemma_laid_is_tidy(maps@, maps@.len() as int);
    }
    let mut out: Vec<Vma> = Vec::new();
    let mut k: usize = 0;
    while k < rows.len()
        invariant
            k <= rows@.len(),
            tidy(rows@),
            out@ == merged(rows@, k as int),
            merged(rows@, k as int).len() > 0 ==> merged(rows@, k as int).last().start
                <= merged(rows@, k as int).last().end,
        decreases rows.len() - k,
    {
        let v = rows[k];
        let last: usize = out.len();
        let mut joined: bool = false;
        if last > 0 {
            let w = out[last - 1];
            let follows: bool = match (w.offset, v.offset) {
                (Some(x), Some(y)) => y >= x && y - x == w.end - w.start,
                (None, None) => true,
                _ => false,
            };
            if w.end == v.start && w.segment == v.segment && w.prot == v.prot && follows {
                out[last - 1] = Vma { end: v.end, ..w };
                joined = true;
            }
        }
        if !joined {
            out.push(v);
        }
        k += 1;
    }
    out
}

proof fn lemma_below_is_tidy(rows: Seq<Vma>, start: u64, n: int)
    requires
        tidy(rows),
        0 <= n <= rows.len(),
    ensures
        tidy(below(rows, start, n)),
        forall|i: int|
            0 <= i < below(rows, start, n).len() ==> (#[trigger] below(rows, start, n)[i]).end
                <= start,
        forall|i: int, j: int|
            #![trigger below(rows, start, n)[i], rows[j]]
            0 <= i < below(rows, start, n).len() && n <= j < rows.len() ==> below(
                rows,
                start,
                n,
            )[i].end <= rows[j].start,
    decreases n,
{
    if n > 0 {
        lemma_below_is_tidy(rows, start, n - 1);
        let s = below(rows, start, n - 1);
        let t = below(rows, start, n);
        assert forall|i: int, j: int|
            #![trigger t[i], rows[j]]
            0 <= i < t.len() && n <= j < rows.len() implies t[i].end <= rows[j].start by {
            if i < s.len() {
                assert(t[i] == s[i]);
            } else {
                assert(rows[n - 1].end <= rows[j].start);
            }
        }
        assert forall|i: int, j: int|
            #![trigger t[i], t[j]]
            0 <= i < j < t.len() implies t[i].end <= t[j].start by {
            assert(t[i] == s[i]);
            if j < s.len() {
                assert(t[j] == s[j]);
            } else {
                assert(s[i].end <= rows[n - 1].start);
            }
        }
    }
}

proof fn lemma_above_is_tidy(s: Seq<Vma>, rows: Seq<Vma>, end: u64, n: int)
    requires
        tidy(rows),
        tidy(s),
        forall|i: int| 0 <= i < s.len() ==> (#[trigger] s[i]).end <= end,
        0 <= n <= rows.len(),
    ensures
        tidy(above(s, rows, end, n)),
        forall|i: int, j: int|
            #![trigger above(s, rows, end, n)[i], rows[j]]
            0 <= i < above(s, rows, end, n).len() && n <= j < rows.len() ==> above(
                s,
                rows,
                end,
                n,
            )[i].end <= end || above(s, rows, end, n)[i].end <= rows[j].start,
    decreases n,
{
    if n > 0 {
        lemma_above_is_tidy(s, rows, end, n - 1);
        let a = above(s, rows, end, n - 1);
        let t = above(s, rows, end, n);
        assert forall|i: int, j: int|
            #![trigger t[i], rows[j]]
            0 <= i < t.len() && n <= j < rows.len() implies t[i].end <= end || t[i].end
            <= rows[j].start by {
            if i < a.len() {
                assert(t[i] == a[i]);
                assert(a[i].end <= end || a[i].end <= rows[j].start);
            } else {
                assert(rows[n - 1].end <= rows[j].start);
            }
        }
        assert forall|i: int, j: int|
            #![trigger t[i], t[j]]
            0 <= i < j < t.len() implies t[i].end <= t[j].start by {
            assert(t[i] == a[i]);
            if j < a.len() {
                assert(t[j] == a[j]);
            } else {
                assert(a[i].end <= end || a[i].end <= rows[n - 1].start);
            }
        }
    }
}

proof fn lemma_overlay_is_tidy(rows: Seq<Vma>, new: Vma)
    requires
        tidy(rows),
    ensures
        tidy(overlay(rows, new)),
{
    if new.start < new.end {
        let n = rows.len() as int;
        lemma_below_is_tidy(rows, new.start, n);
        let s = below(rows, new.start, n).push(new);
        assert forall|i: int| 0 <= i < s.len() implies (#[trigger] s[i]).end <= new.end by {
            if i < s.len() - 1 {
                assert(s[i] == below(rows, new.start, n)[i]);
            }
        }
        assert forall|i: int, j: int|
            #![trigger s[i], s[j]]
            0 <= i < j < s.len() implies s[i].end <= s[j].start by {
            assert(s[i] == below(rows, new.start, n)[i]);
        }
        lemma_above_is_tidy(s, rows, new.end, n);
    }
}

proof fn lemma_laid_is_tidy(maps: Seq<Mapping>, n: int)
    requires
        0 <= n <= maps.len(),
    ensures
        tidy(laid(maps, n)),
    decreases n,
{
    if n > 0 {
        lemma_laid_is_tidy(maps, n - 1);
        lemma_overlay_is_tidy(laid(maps, n - 1), pages_of(maps, maps[n - 1]));
    }
}

/// Looking up an address in tidy rows finds the row it is in.
proof fn lemma_seen_in(rows: Seq<Vma>, i: int, va: int)
    requires
        tidy(rows),
        0 <= i < rows.len(),
        rows[i].start <= va < rows[i].end,
    ensures
        seen_at(rows, va) == Some(shown(rows[i], va)),
    decreases rows.len(),
{
    if i < rows.len() - 1 {
        assert(rows[i].end <= rows[rows.len() - 1].start);
        let front = rows.drop_last();
        assert(front[i] == rows[i]);
        assert(tidy(front)) by {
            assert forall|a: int| 0 <= a < front.len() implies (#[trigger] front[a]).start
                < front[a].end by {
                assert(front[a] == rows[a]);
            }
            assert forall|a: int, b: int|
                #![trigger front[a], front[b]]
                0 <= a < b < front.len() implies front[a].end <= front[b].start by {
                assert(front[a] == rows[a] && front[b] == rows[b]);
            }
        }
        lemma_seen_in(front, i, va);
    }
}

/// An address in none of the rows is part of nothing.
proof fn lemma_seen_nowhere(rows: Seq<Vma>, va: int)
    requires
        forall|i: int| 0 <= i < rows.len() ==> !((#[trigger] rows[i]).start <= va < rows[i].end),
    ensures
        seen_at(rows, va) is None,
    decreases rows.len(),
{
    if rows.len() > 0 {
        let front = rows.drop_last();
        assert(!(rows[rows.len() - 1].start <= va < rows[rows.len() - 1].end));
        assert forall|i: int| 0 <= i < front.len() implies !((#[trigger] front[i]).start <= va
            < front[i].end) by {
            assert(front[i] == rows[i]);
        }
        lemma_seen_nowhere(front, va);
    }
}

/// A row of the part below `start` is a row that was there, cut at `start`.
proof fn lemma_below_rows(rows: Seq<Vma>, start: u64, n: int)
    requires
        0 <= n <= rows.len(),
    ensures
        forall|i: int|
            #![trigger below(rows, start, n)[i]]
            0 <= i < below(rows, start, n).len() ==> exists|j: int|
                0 <= j < n && (#[trigger] rows[j]).start < start && below(rows, start, n)[i] == (
                Vma {
                    end: if rows[j].end < start {
                        rows[j].end
                    } else {
                        start
                    },
                    ..rows[j]
                }),
        forall|j: int|
            0 <= j < n && (#[trigger] rows[j]).start < start ==> below(rows, start, n).contains(
                Vma {
                    end: if rows[j].end < start {
                        rows[j].end
                    } else {
                        start
                    },
                    ..rows[j]
                },
            ),
    decreases n,
{
    if n > 0 {
        lemma_below_rows(rows, start, n - 1);
        let s = below(rows, start, n - 1);
        let t = below(rows, start, n);
        assert forall|i: int|
            #![trigger t[i]]
            0 <= i < t.len() implies exists|j: int|
            0 <= j < n && (#[trigger] rows[j]).start < start && t[i] == (Vma {
                end: if rows[j].end < start {
                    rows[j].end
                } else {
                    start
                },
                ..rows[j]
            }) by {
            if i < s.len() {
                assert(t[i] == s[i]);
                let j = choose|j: int|
                    0 <= j < n - 1 && (#[trigger] rows[j]).start < start && s[i] == (Vma {
                        end: if rows[j].end < start {
                            rows[j].end
                        } else {
                            start
                        },
                        ..rows[j]
                    });
                assert(rows[j].start < start);
            } else {
                assert(rows[n - 1].start < start);
            }
        }
        assert forall|j: int| 0 <= j < n && (#[trigger] rows[j]).start < start implies t.contains(
            Vma {
                end: if rows[j].end < start {
                    rows[j].end
                } else {
                    start
                },
                ..rows[j]
            },
        ) by {
            let v = Vma {
                end: if rows[j].end < start {
                    rows[j].end
                } else {
                    start
                },
                ..rows[j]
            };
            if j < n - 1 {
                assert(s.contains(v));
                let p = choose|p: int| 0 <= p < s.len() && s[p] == v;
                assert(t[p] == v);
            } else {
                assert(t[t.len() - 1] == v);
            }
        }
    }
}

/// What a row has above `end`.
spec fn kept(v: Vma, end: u64) -> Vma {
    if v.start < end {
        tail(v, end)
    } else {
        v
    }
}

proof fn lemma_above_rows(s: Seq<Vma>, rows: Seq<Vma>, end: u64, n: int)
    requires
        0 <= n <= rows.len(),
    ensures
        above(s, rows, end, n).len() >= s.len(),
        forall|i: int| 0 <= i < s.len() ==> #[trigger] above(s, rows, end, n)[i] == s[i],
        forall|i: int|
            #![trigger above(s, rows, end, n)[i]]
            s.len() <= i < above(s, rows, end, n).len() ==> exists|j: int|
                0 <= j < n && (#[trigger] rows[j]).end > end && above(s, rows, end, n)[i] == kept(
                    rows[j],
                    end,
                ),
        forall|j: int|
            0 <= j < n && (#[trigger] rows[j]).end > end ==> above(s, rows, end, n).contains(
                kept(rows[j], end),
            ),
    decreases n,
{
    if n > 0 {
        lemma_above_rows(s, rows, end, n - 1);
        let a = above(s, rows, end, n - 1);
        let t = above(s, rows, end, n);
        assert forall|i: int| 0 <= i < s.len() implies #[trigger] t[i] == s[i] by {
            assert(t[i] == a[i]);
        }
        assert forall|i: int|
            #![trigger t[i]]
            s.len() <= i < t.len() implies exists|j: int|
            0 <= j < n && (#[trigger] rows[j]).end > end && t[i] == kept(rows[j], end) by {
            if i < a.len() {
                assert(t[i] == a[i]);
                let j = choose|j: int|
                    0 <= j < n - 1 && (#[trigger] rows[j]).end > end && a[i] == kept(rows[j], end);
                assert(rows[j].end > end);
            } else {
                assert(rows[n - 1].end > end);
            }
        }
        assert forall|j: int| 0 <= j < n && (#[trigger] rows[j]).end > end implies t.contains(
            kept(rows[j], end),
        ) by {
            let v = kept(rows[j], end);
            if j < n - 1 {
                assert(a.contains(v));
                let p = choose|p: int| 0 <= p < a.len() && a[p] == v;
                assert(t[p] == v);
            } else {
                assert(t[t.len() - 1] == v);
            }
        }
    }
}

/// Below the new pages an address is part of what it was part of before.
proof fn lemma_overlay_below(rows: Seq<Vma>, new: Vma, j: int, va: int)
    requires
        tidy(rows),
        new.start < new.end,
        0 <= j < rows.len(),
        rows[j].start <= va < rows[j].end,
        va < new.start,
    ensures
        seen_at(overlay(rows, new), va) == seen_at(rows, va),
{
    let n = rows.len() as int;
    let low = below(rows, new.start, n);
    let s = low.push(new);
    let t = overlay(rows, new);
    lemma_overlay_is_tidy(rows, new);
    lemma_below_rows(rows, new.start, n);
    lemma_above_rows(s, rows, new.end, n);
    lemma_seen_in(rows, j, va);
    let v = Vma {
        end: if rows[j].end < new.start {
            rows[j].end
        } else {
            new.start
        },
        ..rows[j]
    };
    assert(low.contains(v));
    let p = choose|p: int| 0 <= p < low.len() && low[p] == v;
    assert(s[p] == v);
    assert(t[p] == v);
    lemma_seen_in(t, p, va);
}

/// Above the new pages an address is part of what it was part of before.
proof fn lemma_overlay_above(rows: Seq<Vma>, new: Vma, j: int, va: int)
    requires
        tidy(rows),
        new.start < new.end,
        0 <= j < rows.len(),
        rows[j].start <= va < rows[j].end,
        new.end <= va,
        rows[j].offset matches Some(o) ==> o + (rows[j].end - rows[j].start) <= u64::MAX,
    ensures
        seen_at(overlay(rows, new), va) == seen_at(rows, va),
{
    let n = rows.len() as int;
    let s = below(rows, new.start, n).push(new);
    let t = overlay(rows, new);
    lemma_overlay_is_tidy(rows, new);
    lemma_above_rows(s, rows, new.end, n);
    lemma_seen_in(rows, j, va);
    let v = kept(rows[j], new.end);
    assert(t.contains(v));
    let p = choose|p: int| 0 <= p < t.len() && t[p] == v;
    lemma_seen_in(t, p, va);
}

/// What was part of nothing, and is not on the new pages, is part of nothing.
proof fn lemma_overlay_nowhere(rows: Seq<Vma>, new: Vma, va: int)
    requires
        tidy(rows),
        new.start < new.end,
        !(new.start <= va < new.end),
        forall|i: int| 0 <= i < rows.len() ==> !((#[trigger] rows[i]).start <= va < rows[i].end),
    ensures
        seen_at(overlay(rows, new), va) is None,
{
    let n = rows.len() as int;
    let low = below(rows, new.start, n);
    let s = low.push(new);
    let t = overlay(rows, new);
    lemma_below_rows(rows, new.start, n);
    lemma_above_rows(s, rows, new.end, n);
    assert forall|i: int| 0 <= i < t.len() implies !((#[trigger] t[i]).start <= va < t[i].end) by {
        if i < low.len() {
            assert(t[i] == s[i]);
            assert(s[i] == low[i]);
            let j = choose|j: int|
                0 <= j < n && (#[trigger] rows[j]).start < new.start && low[i] == (Vma {
                    end: if rows[j].end < new.start {
                        rows[j].end
                    } else {
                        new.start
                    },
                    ..rows[j]
                });
            assert(!(rows[j].start <= va < rows[j].end));
        } else if i == low.len() {
            assert(t[i] == s[i]);
        } else {
            let j = choose|j: int|
                0 <= j < n && (#[trigger] rows[j]).end > new.end && t[i] == kept(
                    rows[j],
                    new.end,
                );
            assert(!(rows[j].start <= va < rows[j].end));
        }
    }
    lemma_seen_nowhere(t, va);
}

/// Laying pages over a table hides what was there and changes nothing else: inside the new
/// pages an address is part of them, outside it is part of what it was part of before.
pub proof fn law_later_mappings_win(rows: Seq<Vma>, new: Vma, va: int)
    requires
        tidy(rows),
        new.start < new.end,
        forall|i: int|
            0 <= i < rows.len() ==> ((#[trigger] rows[i]).offset matches Some(o) ==> o + (
            rows[i].end - rows[i].start) <= u64::MAX),
    ensures
        tidy(overlay(rows, new)),
        seen_at(overlay(rows, new), va) == if new.start <= va < new.end {
            Some(shown(new, va))
        } else {
            seen_at(rows, va)
        },
{
    let n = rows.len() as int;
    lemma_overlay_is_tidy(rows, new);
    if new.start <= va < new.end {
        let low = below(rows, new.start, n);
        lemma_above_rows(low.push(new), rows, new.end, n);
        assert(overlay(rows, new)[low.len() as int] == low.push(new)[low.len() as int]);
        lemma_seen_in(overlay(rows, new), low.len() as int, va);
    } else if exists|i: int| 0 <= i < n && (#[trigger] rows[i]).start <= va < rows[i].end {
        let j = choose|j: int| 0 <= j < n && (#[trigger] rows[j]).start <= va < rows[j].end;
        if va < new.start {
            lemma_overlay_below(rows, new, j, va);
        } else {
            lemma_overlay_above(rows, new, j, va);
        }
    } else {
        lemma_seen_nowhere(rows, va);
        lemma_overlay_nowhere(rows, new, va);
    }
}

proof fn lemma_seen_push(s: Seq<Vma>, v: Vma, va: int)
    ensures
        seen_at(s.push(v), va) == if v.start <= va < v.end {
            Some(shown(v, va))
        } else {
            seen_at(s, va)
        },
{
    assert(s.push(v).drop_last() =~= s);
}

/// Joining rows that continue each other changes nothing about any address, and leaves the
/// rows in order.
pub proof fn law_merging_keeps_what_is_shown(rows: Seq<Vma>, n: int, va: int)
    requires
        tidy(rows),
        0 <= n <= rows.len(),
    ensures
        tidy(merged(rows, n)),
        seen_at(merged(rows, n), va) == seen_at(rows.take(n), va),
        n > 0 ==> merged(rows, n).len() > 0 && merged(rows, n).last().end == rows[n - 1].end,
    decreases n,
{
    if n == 0 {
        assert(rows.take(0) =~= Seq::<Vma>::empty());
    } else {
        law_merging_keeps_what_is_shown(rows, n - 1, va);
        let s = merged(rows, n - 1);
        let t = merged(rows, n);
        let v = rows[n - 1];
        assert(rows.take(n) =~= rows.take(n - 1).push(v));
        lemma_seen_push(rows.take(n - 1), v, va);
        if n >= 2 {
            assert(rows[n - 2].end <= v.start);
        }
        if s.len() > 0 && continues(s.last(), v) {
            let w = s.last();
            let front = s.drop_last();
            let joined = Vma { end: v.end, ..w };
            assert(t =~= front.push(joined));
            assert(s =~= front.push(w));
            lemma_seen_push(front, joined, va);
            lemma_seen_push(front, w, va);
            assert forall|i: int, j: int|
                #![trigger t[i], t[j]]
                0 <= i < j < t.len() implies t[i].end <= t[j].start by {
                assert(t[i] == s[i]);
                assert(s[i].end <= s[j].start);
                if j == t.len() - 1 {
                    assert(s[j] == w);
                }
            }
            assert forall|i: int| 0 <= i < t.len() implies (#[trigger] t[i]).start < t[i].end by {
                assert(s[i].start < s[i].end);
            }
        } else {
            lemma_seen_push(s, v, va);
            assert forall|i: int, j: int|
                #![trigger t[i], t[j]]
                0 <= i < j < t.len() implies t[i].end <= t[j].start by {
                assert(t[i] == s[i]);
                if j == t.len() - 1 {
                    if i < s.len() - 1 {
                        assert(s[i].end <= s[s.len() - 1].start);
                        assert(s[s.len() - 1].start < s[s.len() - 1].end);
                    }
                } else {
                    assert(t[j] == s[j]);
                }
            }
        }
    }
}

proof fn lemma_exact_push(s: Seq<Mapping>, m: Mapping, va: u64)
    ensures
        exact_prot(s.push(m), va) == if m.has(va) {
            Some(m.prot)
        } else {
            exact_prot(s, va)
        },
{
    assert(s.push(m).drop_last() =~= s);
}

proof fn lemma_split_prot(s: Seq<Mapping>, m: Mapping, start: u64, end: u64, to: Prot, va: u64)
    ensures
        exact_prot(split(s, m, start, end, to), va) == if m.has(va) {
            Some(
                if start <= va < end {
                    to
                } else {
                    m.prot
                },
            )
        } else {
            exact_prot(s, va)
        },
{
    let stop = m.spec_end();
    if start >= end || m.vaddr >= end || stop <= start {
        lemma_exact_push(s, m, va);
    } else {
        let from = if m.vaddr < start {
            start
        } else {
            m.vaddr
        };
        let upto = if stop < end {
            stop
        } else {
            end
        };
        let first = piece(m, m.vaddr, from, m.prot);
        let mid = piece(m, from, upto, to);
        let last = piece(m, upto, stop, m.prot);
        let a = if m.vaddr < from {
            s.push(first)
        } else {
            s
        };
        lemma_exact_push(s, first, va);
        lemma_exact_push(a, mid, va);
        lemma_exact_push(a.push(mid), last, va);
    }
}

/// `mprotect` changes the protection of what is mapped in its range, and of nothing else.
pub proof fn law_protect_changes_only_its_range(
    maps: Seq<Mapping>,
    start: u64,
    end: u64,
    to: Prot,
    n: int,
    va: u64,
)
    requires
        0 <= n <= maps.len(),
    ensures
        exact_prot(protected(maps, start, end, to, n), va) == match exact_prot(maps.take(n), va) {
            Some(p) => Some(
                if start <= va < end {
                    to
                } else {
                    p
                },
            ),
            None => None,
        },
    decreases n,
{
    if n == 0 {
        assert(maps.take(0) =~= Seq::<Mapping>::empty());
    } else {
        law_protect_changes_only_its_range(maps, start, end, to, n - 1, va);
        assert(maps.take(n) =~= maps.take(n - 1).push(maps[n - 1]));
        lemma_exact_push(maps.take(n - 1), maps[n - 1], va);
        lemma_split_prot(
            protected(maps, start, end, to, n - 1),
            maps[n - 1],
            start,
            end,
            to,
            va,
        );
    }
}

/// A boundary between pages, or the end of the address space.
pub open spec fn boundary(a: u64) -> bool {
    a % 4096 == 0 || a == u64::MAX
}

/// Rows of whole pages.
pub open spec fn paged(rows: Seq<Vma>) -> bool {
    forall|i: int|
        0 <= i < rows.len() ==> (#[trigger] rows[i]).start % 4096 == 0 && boundary(rows[i].end)
}

proof fn lemma_below_is_paged(rows: Seq<Vma>, start: u64, n: int)
    requires
        paged(rows),
        start % 4096 == 0,
        0 <= n <= rows.len(),
    ensures
        paged(below(rows, start, n)),
    decreases n,
{
    if n > 0 {
        lemma_below_is_paged(rows, start, n - 1);
        assert(rows[n - 1].start % 4096 == 0);
    }
}

proof fn lemma_above_is_paged(s: Seq<Vma>, rows: Seq<Vma>, end: u64, n: int)
    requires
        paged(s),
        paged(rows),
        boundary(end),
        0 <= n <= rows.len(),
    ensures
        paged(above(s, rows, end, n)),
    decreases n,
{
    if n > 0 {
        lemma_above_is_paged(s, rows, end, n - 1);
        assert(rows[n - 1].start % 4096 == 0);
    }
}

proof fn lemma_laid(maps: Seq<Mapping>, n: int)
    requires
        0 <= n <= maps.len(),
    ensures
        tidy(laid(maps, n)),
        paged(laid(maps, n)),
    decreases n,
{
    if n > 0 {
        lemma_laid(maps, n - 1);
        let rows = laid(maps, n - 1);
        let new = pages_of(maps, maps[n - 1]);
        if new.start < new.end {
            lemma_overlay_is_tidy(rows, new);
            lemma_below_is_paged(rows, new.start, rows.len() as int);
            let low = below(rows, new.start, rows.len() as int);
            lemma_above_is_paged(low.push(new), rows, new.end, rows.len() as int);
        }
    }
}

proof fn lemma_merged_is_paged(rows: Seq<Vma>, n: int)
    requires
        paged(rows),
        0 <= n <= rows.len(),
    ensures
        paged(merged(rows, n)),
    decreases n,
{
    if n > 0 {
        lemma_merged_is_paged(rows, n - 1);
        assert(rows[n - 1].start % 4096 == 0);
    }
}

/// The kernel's table is of whole pages, in order of address, no page in two rows; and two
/// rows that meet differ in what they are of, or they would be one.
pub proof fn law_the_table_is_of_whole_pages_in_order(maps: Seq<Mapping>)
    ensures
        tidy(table(maps)),
        paged(table(maps)),
        forall|i: int|
            0 <= i < table(maps).len() - 1 ==> !continues(
                #[trigger] table(maps)[i],
                table(maps)[i + 1],
            ),
{
    let rows = laid(maps, maps.len() as int);
    let n = rows.len() as int;
    lemma_laid(maps, maps.len() as int);
    law_merging_keeps_what_is_shown(rows, n, 0);
    lemma_merged_is_paged(rows, n);
    lemma_merged_is_joined(rows, n);
}

/// Rows that meet differ in what they are of.
proof fn lemma_merged_is_joined(rows: Seq<Vma>, n: int)
    requires
        tidy(rows),
        0 <= n <= rows.len(),
    ensures
        forall|i: int|
            0 <= i < merged(rows, n).len() - 1 ==> !continues(
                #[trigger] merged(rows, n)[i],
                merged(rows, n)[i + 1],
            ),
    decreases n,
{
    if n > 0 {
        lemma_merged_is_joined(rows, n - 1);
        let s = merged(rows, n - 1);
        let t = merged(rows, n);
        assert forall|i: int| 0 <= i < t.len() - 1 implies !continues(
            #[trigger] t[i],
            t[i + 1],
        ) by {
            if i < s.len() - 1 {
                assert(t[i] == s[i]);
                assert(!continues(s[i], s[i + 1]));
            }
        }
    }
}

// What is at an address.

/// Mapping `k` is the last of the first `n` to hold the address.
pub open spec fn last_to_hold(maps: Seq<Mapping>, n: int, va: u64, k: int) -> bool {
    &&& 0 <= k < n <= maps.len()
    &&& maps[k].vaddr <= va < maps[k].spec_end()
    &&& forall|j: int|
        k < j < n ==> !((#[trigger] maps[j]).vaddr <= va && va < maps[j].spec_end())
}

/// Mapping `k` is the last of the first `n` with a byte on the page of the address.
pub open spec fn last_on_page(maps: Seq<Mapping>, n: int, va: u64, k: int) -> bool {
    &&& 0 <= k < n <= maps.len()
    &&& near(maps[k], va)
    &&& forall|j: int| k < j < n ==> !near(#[trigger] maps[j], va)
}

/// The address is not before the page that the mapping starts on, nor past the page that it
/// ends on.
pub open spec fn near(m: Mapping, va: u64) -> bool {
    let end = m.spec_end() as int;
    m.vaddr / 4096 <= va / 4096 && va < u64::MAX && if end % 4096 == 0 {
        va < end
    } else {
        va / 4096 <= end / 4096
    }
}

proof fn lemma_holding(maps: Seq<Mapping>, va: u64)
    ensures
        match exact_prot(maps, va) {
            Some(p) => exists|k: int|
                #[trigger] last_to_hold(maps, maps.len() as int, va, k) && p == maps[k].prot,
            None => forall|k: int| !#[trigger] last_to_hold(maps, maps.len() as int, va, k),
        },
    decreases maps.len(),
{
    let n = maps.len() as int;
    if n > 0 {
        let less = maps.drop_last();
        if maps.last().has(va) {
            assert(last_to_hold(maps, n, va, n - 1));
        } else {
            lemma_holding(less, va);
            assert forall|k: int| last_to_hold(less, n - 1, va, k) <==> #[trigger] last_to_hold(
                maps,
                n,
                va,
                k,
            ) by {
                if last_to_hold(less, n - 1, va, k) {
                    assert(less[k] == maps[k]);
                    assert forall|j: int| k < j < n implies !((#[trigger] maps[j]).vaddr <= va && va
                        < maps[j].spec_end()) by {
                        if j < n - 1 {
                            assert(less[j] == maps[j]);
                        }
                    }
                }
                if last_to_hold(maps, n, va, k) {
                    assert(less[k] == maps[k]);
                    assert forall|j: int| k < j < n - 1 implies !((#[trigger] less[j]).vaddr <= va
                        && va < less[j].spec_end()) by {
                        assert(less[j] == maps[j]);
                    }
                }
            }
            if exact_prot(maps, va) is Some {
                let p = exact_prot(maps, va)->0;
                let k = choose|k: int|
                    #[trigger] last_to_hold(less, n - 1, va, k) && p == less[k].prot;
                assert(last_to_hold(maps, n, va, k) && p == maps[k].prot);
            }
        }
    }
}

proof fn lemma_touching(m: Mapping, va: u64)
    requires
        m.spec_end() + 4096 <= u64::MAX,
    ensures
        touches(m, va) <==> near(m, va),
{
}

proof fn lemma_paging(maps: Seq<Mapping>, va: u64)
    requires
        forall|k: int| 0 <= k < maps.len() ==> (#[trigger] maps[k]).spec_end() + 4096 <= u64::MAX,
    ensures
        match page_prot(maps, va) {
            Some(p) => exists|k: int|
                #[trigger] last_on_page(maps, maps.len() as int, va, k) && p == maps[k].prot,
            None => forall|k: int| 0 <= k < maps.len() ==> !near(#[trigger] maps[k], va),
        },
    decreases maps.len(),
{
    let n = maps.len() as int;
    if n > 0 {
        let less = maps.drop_last();
        assert(maps[n - 1].spec_end() + 4096 <= u64::MAX);
        lemma_touching(maps.last(), va);
        if touches(maps.last(), va) {
            assert(last_on_page(maps, n, va, n - 1));
        } else {
            assert forall|k: int| 0 <= k < less.len() implies (#[trigger] less[k]).spec_end() + 4096
                <= u64::MAX by {
                assert(less[k] == maps[k]);
            }
            lemma_paging(less, va);
            match page_prot(maps, va) {
                Some(p) => {
                    let k = choose|k: int|
                        #[trigger] last_on_page(less, n - 1, va, k) && p == less[k].prot;
                    assert(less[k] == maps[k]);
                    assert(last_on_page(maps, n, va, k)) by {
                        assert forall|j: int| k < j < n implies !near(#[trigger] maps[j], va) by {
                            if j < n - 1 {
                                assert(less[j] == maps[j]);
                            }
                        }
                    }
                },
                None => {
                    assert forall|k: int| 0 <= k < n implies !near(#[trigger] maps[k], va) by {
                        if k < n - 1 {
                            assert(less[k] == maps[k]);
                        }
                    }
                },
            }
        }
    }
}

/// An address is protected as the last mapping that holds it says; where none holds it, as the
/// last mapping with a byte on its page says; and where there is none, it is not there.
pub proof fn law_an_address_is_protected_by_the_last(maps: Seq<Mapping>, va: u64, k: int)
    requires
        forall|k: int| 0 <= k < maps.len() ==> (#[trigger] maps[k]).spec_end() + 4096 <= u64::MAX,
    ensures
        ({
            let n = maps.len() as int;
            let held = exists|j: int| #[trigger] last_to_hold(maps, n, va, j);
            let prot = match exact_prot(maps, va) {
                Some(p) => Some(p),
                None => page_prot(maps, va),
            };
            &&& last_to_hold(maps, n, va, k) ==> prot == Some(maps[k].prot)
            &&& !held && last_on_page(maps, n, va, k) ==> prot == Some(maps[k].prot)
            &&& !held && (forall|j: int| 0 <= j < n ==> !near(#[trigger] maps[j], va)) ==> prot
                is None
        }),
{
    let n = maps.len() as int;
    lemma_holding(maps, va);
    lemma_paging(maps, va);
    if last_to_hold(maps, n, va, k) {
        let p = exact_prot(maps, va)->0;
        let j = choose|j: int| #[trigger] last_to_hold(maps, n, va, j) && p == maps[j].prot;
        if j < k {
            assert(!(maps[k].vaddr <= va && va < maps[k].spec_end()));
        }
        if k < j {
            assert(!(maps[j].vaddr <= va && va < maps[j].spec_end()));
        }
    }
    if last_on_page(maps, n, va, k) && page_prot(maps, va) is Some {
        let p = page_prot(maps, va)->0;
        let j = choose|j: int| #[trigger] last_on_page(maps, n, va, j) && p == maps[j].prot;
        if j < k {
            assert(!near(maps[k], va));
        }
        if k < j {
            assert(!near(maps[j], va));
        }
    }
}

/// Where in the file the byte at an address comes from, if from the file, as the last mapping
/// that holds the address says.
pub open spec fn origin(maps: Seq<Mapping>, va: u64) -> Option<Option<int>>
    decreases maps.len(),
{
    if maps.len() == 0 {
        None
    } else if maps.last().vaddr <= va < maps.last().spec_end() {
        match maps.last().source {
            MapSource::FromFile(s) => Some(Some(s.start + (va - maps.last().vaddr))),
            MapSource::ZeroFill => Some(None),
        }
    } else {
        origin(maps.drop_last(), va)
    }
}

proof fn lemma_origin_push(s: Seq<Mapping>, m: Mapping, va: u64)
    ensures
        origin(s.push(m), va) == if m.vaddr <= va < m.spec_end() {
            match m.source {
                MapSource::FromFile(f) => Some(Some(f.start + (va - m.vaddr))),
                MapSource::ZeroFill => Some(None),
            }
        } else {
            origin(s, va)
        },
{
    assert(s.push(m).drop_last() =~= s);
}

proof fn lemma_split_origin(s: Seq<Mapping>, m: Mapping, start: u64, end: u64, to: Prot, va: u64)
    requires
        m.source matches MapSource::FromFile(f) ==> f.start + m.len <= u64::MAX,
    ensures
        origin(split(s, m, start, end, to), va) == origin(s.push(m), va),
{
    let stop = m.spec_end();
    lemma_origin_push(s, m, va);
    if !(start >= end || m.vaddr >= end || stop <= start) {
        let from = if m.vaddr < start {
            start
        } else {
            m.vaddr
        };
        let upto = if stop < end {
            stop
        } else {
            end
        };
        let first = piece(m, m.vaddr, from, m.prot);
        let mid = piece(m, from, upto, to);
        let last = piece(m, upto, stop, m.prot);
        let a = if m.vaddr < from {
            s.push(first)
        } else {
            s
        };
        lemma_origin_push(s, first, va);
        lemma_origin_push(a, mid, va);
        lemma_origin_push(a.push(mid), last, va);
    }
}

/// `mprotect` moves nothing: every byte comes from where it came from before.
pub proof fn law_protect_moves_nothing(
    maps: Seq<Mapping>,
    start: u64,
    end: u64,
    to: Prot,
    n: int,
    va: u64,
)
    requires
        0 <= n <= maps.len(),
        forall|k: int|
            0 <= k < maps.len() ==> ((#[trigger] maps[k]).source matches MapSource::FromFile(f)
                ==> f.start + maps[k].len <= u64::MAX),
    ensures
        origin(protected(maps, start, end, to, n), va) == origin(maps.take(n), va),
    decreases n,
{
    if n == 0 {
        assert(maps.take(0) =~= Seq::<Mapping>::empty());
    } else {
        law_protect_moves_nothing(maps, start, end, to, n - 1, va);
        let before = protected(maps, start, end, to, n - 1);
        let m = maps[n - 1];
        assert(maps.take(n) =~= maps.take(n - 1).push(m));
        lemma_origin_push(maps.take(n - 1), m, va);
        lemma_origin_push(before, m, va);
        lemma_split_origin(before, m, start, end, to, va);
    }
}

// What the kernel's table shows of a page.

/// The start of the first page of mapping `k`. Zero-filled memory starts on the page after the
/// last one that the file backs, where its segment has a part in the file.
pub open spec fn first_page(maps: Seq<Mapping>, k: int) -> int {
    let backed = exists|j: int|
        0 <= j < maps.len() && (#[trigger] maps[j]).segment == maps[k].segment && maps[j].source
            is FromFile;
    if maps[k].source is ZeroFill && backed {
        (maps[k].vaddr + 4095) / 4096 * 4096
    } else {
        maps[k].vaddr / 4096 * 4096
    }
}

/// The address is on one of the pages of mapping `k`.
pub open spec fn on_pages(maps: Seq<Mapping>, k: int, va: int) -> bool {
    first_page(maps, k) <= va < (maps[k].vaddr + maps[k].len + 4095) / 4096 * 4096
}

/// Mapping `k` is the last of the first `n` with the address on its pages.
pub open spec fn last_to_cover(maps: Seq<Mapping>, n: int, va: int, k: int) -> bool {
    &&& 0 <= k < n <= maps.len()
    &&& on_pages(maps, k, va)
    &&& forall|j: int| k < j < n ==> !#[trigger] on_pages(maps, j, va)
}

/// The pages fit below the end of the address space and of the file, and a mapping starts no
/// earlier in the file than in its page.
pub open spec fn fits(m: Mapping) -> bool {
    &&& m.vaddr + m.len + 8192 <= u64::MAX
    &&& m.source matches MapSource::FromFile(s) ==> s.start >= m.vaddr % 4096 && s.start + m.len
        + 8192 <= u64::MAX
}

proof fn lemma_file_part(maps: Seq<Mapping>, seg: u32, n: int)
    requires
        0 <= n <= maps.len(),
    ensures
        has_file_part(maps, seg, n) <==> exists|j: int|
            0 <= j < n && (#[trigger] maps[j]).segment == seg && maps[j].source is FromFile,
    decreases n,
{
    if n > 0 {
        lemma_file_part(maps, seg, n - 1);
        if has_file_part(maps, seg, n - 1) {
            let j = choose|j: int|
                0 <= j < n - 1 && (#[trigger] maps[j]).segment == seg && maps[j].source
                    is FromFile;
            assert(maps[j].segment == seg && maps[j].source is FromFile);
        }
    }
}

proof fn lemma_pages(maps: Seq<Mapping>, k: int, va: int)
    requires
        0 <= k < maps.len(),
        fits(maps[k]),
    ensures
        ({
            let v = pages_of(maps, maps[k]);
            &&& (v.start < v.end && v.start <= va < v.end) <==> on_pages(maps, k, va)
            &&& v.prot == maps[k].prot
            &&& v.segment == maps[k].segment
            &&& match maps[k].source {
                MapSource::FromFile(s) => v.offset is Some && v.offset->0 + (va - v.start)
                    == s.start + (va - maps[k].vaddr),
                MapSource::ZeroFill => v.offset is None,
            }
            &&& v.offset matches Some(o) ==> v.end >= v.start ==> o + (v.end - v.start) <= u64::MAX
        }),
{
    lemma_file_part(maps, maps[k].segment, maps.len() as int);
}

/// No row runs past the end of what offsets can say.
spec fn sized(rows: Seq<Vma>) -> bool {
    forall|i: int|
        0 <= i < rows.len() ==> ((#[trigger] rows[i]).offset matches Some(o) ==> o + (rows[i].end
            - rows[i].start) <= u64::MAX)
}

proof fn lemma_overlay_is_sized(rows: Seq<Vma>, new: Vma)
    requires
        tidy(rows),
        sized(rows),
        new.offset matches Some(o) ==> new.end >= new.start ==> o + (new.end - new.start)
            <= u64::MAX,
    ensures
        sized(overlay(rows, new)),
{
    if new.start < new.end {
        let n = rows.len() as int;
        let low = below(rows, new.start, n);
        let s = low.push(new);
        let t = overlay(rows, new);
        lemma_below_rows(rows, new.start, n);
        lemma_above_rows(s, rows, new.end, n);
        assert forall|i: int| 0 <= i < t.len() implies ((#[trigger] t[i]).offset matches Some(o)
            ==> o + (t[i].end - t[i].start) <= u64::MAX) by {
            if i < low.len() {
                assert(t[i] == s[i] && s[i] == low[i]);
                let j = choose|j: int|
                    0 <= j < n && (#[trigger] rows[j]).start < new.start && low[i] == (Vma {
                        end: if rows[j].end < new.start {
                            rows[j].end
                        } else {
                            new.start
                        },
                        ..rows[j]
                    });
                assert(rows[j].start < rows[j].end);
            } else if i == low.len() {
                assert(t[i] == s[i]);
            } else {
                let j = choose|j: int|
                    0 <= j < n && (#[trigger] rows[j]).end > new.end && t[i] == kept(
                        rows[j],
                        new.end,
                    );
                assert(rows[j].start < rows[j].end);
            }
        }
    }
}

proof fn lemma_laid_seen(maps: Seq<Mapping>, n: int, va: int, k: int)
    requires
        0 <= n <= maps.len(),
        forall|i: int| 0 <= i < maps.len() ==> fits(#[trigger] maps[i]),
    ensures
        sized(laid(maps, n)),
        last_to_cover(maps, n, va, k) ==> seen_at(laid(maps, n), va) == Some(
            (
                maps[k].prot,
                maps[k].segment,
                match maps[k].source {
                    MapSource::FromFile(s) => Some(s.start + (va - maps[k].vaddr)),
                    MapSource::ZeroFill => None,
                },
            ),
        ),
        (forall|j: int| 0 <= j < n ==> !#[trigger] on_pages(maps, j, va)) ==> seen_at(
            laid(maps, n),
            va,
        ) is None,
    decreases n,
{
    if n > 0 {
        lemma_laid_seen(maps, n - 1, va, k);
        lemma_laid(maps, n - 1);
        let rows = laid(maps, n - 1);
        assert(fits(maps[n - 1]));
        lemma_pages(maps, n - 1, va);
        let new = pages_of(maps, maps[n - 1]);
        lemma_overlay_is_sized(rows, new);
        if new.start < new.end {
            law_later_mappings_win(rows, new, va);
        }
        if last_to_cover(maps, n, va, k) && k < n - 1 {
            assert(!on_pages(maps, n - 1, va));
            assert(last_to_cover(maps, n - 1, va, k));
        }
        if forall|j: int| 0 <= j < n ==> !#[trigger] on_pages(maps, j, va) {
            assert(!on_pages(maps, n - 1, va));
        }
    }
}

/// A page of the kernel's table is that of the last mapping with the page among its own: with
/// its protection, its segment, and the place in the file that the mapping loads there.
/// Pages of no mapping are not in the table.
pub proof fn law_a_page_shows_the_last_mapping_on_it(maps: Seq<Mapping>, va: int, k: int)
    requires
        forall|i: int| 0 <= i < maps.len() ==> fits(#[trigger] maps[i]),
    ensures
        last_to_cover(maps, maps.len() as int, va, k) ==> seen_at(table(maps), va) == Some(
            (
                maps[k].prot,
                maps[k].segment,
                match maps[k].source {
                    MapSource::FromFile(s) => Some(s.start + (va - maps[k].vaddr)),
                    MapSource::ZeroFill => None,
                },
            ),
        ),
        (forall|j: int| 0 <= j < maps.len() ==> !#[trigger] on_pages(maps, j, va)) ==> seen_at(
            table(maps),
            va,
        ) is None,
{
    let n = maps.len() as int;
    let rows = laid(maps, n);
    lemma_laid_seen(maps, n, va, k);
    lemma_laid(maps, n);
    law_merging_keeps_what_is_shown(rows, rows.len() as int, va);
    assert(rows.take(rows.len() as int) =~= rows);
}

} // verus!
