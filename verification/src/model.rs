//! The memory image: what the file becomes once the kernel has mapped it.
//!
//! Three views of the same mapping: the segment extents, exact to the byte; the pages the
//! kernel creates for them; and the ranges of the file that are resident because they share
//! a page with something mapped. What `execve` does here is true even for a static binary.
//!
//! Addresses are looked up from the file's side: a file offset is given at most one virtual
//! address, and **most file offsets have none at all**.

use vstd::prelude::*;

use crate::claim::RelocTableKind;
use crate::layout;
use crate::order;
use crate::order::Key;
use crate::parse::{Reloc, Segment, Summary};
use crate::residency;
use crate::span;
use crate::span::{FileId, Span};
use crate::text;

verus! {

/// The unit `mmap` works in.
pub const PAGE_SIZE: u64 = 4096;

pub const PT_LOAD: u32 = 1;

pub const PF_X: u32 = 1;

pub const PF_W: u32 = 2;

pub const PF_R: u32 = 4;

/// The start of the page that holds `a`.
pub open spec fn page_down(a: u64) -> u64 {
    (a / 4096 * 4096) as u64
}

/// The first page boundary not before `a`, saturating.
pub open spec fn page_up(a: u64) -> u64 {
    if a % 4096 == 0 {
        a
    } else {
        span::sat_add(page_down(a), 4096)
    }
}

/// The start of the page that holds `a`.
pub(crate) fn round_down(a: u64) -> (r: u64)
    ensures
        r == page_down(a),
        r <= a,
{
    a / PAGE_SIZE * PAGE_SIZE
}

/// The first page boundary not before `a`, saturating.
pub(crate) fn round_up(a: u64) -> (r: u64)
    ensures
        r == page_up(a),
        r >= a,
{
    if a % PAGE_SIZE == 0 {
        a
    } else {
        round_down(a).saturating_add(PAGE_SIZE)
    }
}

#[derive(Clone, Copy, PartialEq, Eq, Debug, Structural)]
pub struct Prot {
    pub read: bool,
    pub write: bool,
    pub execute: bool,
}

impl Default for Prot {
    fn default() -> (r: Self)
        ensures
            r == (Prot { read: false, write: false, execute: false }),
    {
        Prot { read: false, write: false, execute: false }
    }
}

impl Prot {
    /// The protection that the flag bits of a program header ask for.
    pub open spec fn of_flags(f: u32) -> Prot {
        Prot { read: (f & PF_R) != 0, write: (f & PF_W) != 0, execute: (f & PF_X) != 0 }
    }

    #[must_use]
    pub fn from_flags(f: u32) -> (r: Self)
        ensures
            r == Prot::of_flags(f),
    {
        Self { read: (f & PF_R) != 0, write: (f & PF_W) != 0, execute: (f & PF_X) != 0 }
    }

    /// The protection that a `/proc/<pid>/maps` column names: a letter in its place.
    pub open spec fn of_perms(p: Seq<char>) -> Prot {
        Prot {
            read: p.len() > 0 && p[0] == 'r',
            write: p.len() > 1 && p[1] == 'w',
            execute: p.len() > 2 && p[2] == 'x',
        }
    }

    /// The protection that a `/proc/<pid>/maps` column such as `r-xp` names.
    #[must_use]
    pub fn from_perms(perms: &str) -> (r: Self)
        ensures
            r == Prot::of_perms(perms@),
    {
        let p = text::chars_of(perms);
        Self {
            read: p.len() > 0 && p[0] == 'r',
            write: p.len() > 1 && p[1] == 'w',
            execute: p.len() > 2 && p[2] == 'x',
        }
    }

    /// `rwx`-style string, with `-` for absent bits.
    pub open spec fn spec_str(self) -> &'static str {
        match (self.read, self.write, self.execute) {
            (true, false, false) => "r--",
            (true, true, false) => "rw-",
            (true, false, true) => "r-x",
            (true, true, true) => "rwx",
            (false, true, false) => "-w-",
            (false, false, true) => "--x",
            (false, true, true) => "-wx",
            (false, false, false) => "---",
        }
    }

    /// `rwx`-style string, with `-` for absent bits.
    #[must_use]
    pub fn as_str(&self) -> (r: &'static str)
        ensures
            r == self.spec_str(),
    {
        match (self.read, self.write, self.execute) {
            (true, false, false) => "r--",
            (true, true, false) => "rw-",
            (true, false, true) => "r-x",
            (true, true, true) => "rwx",
            (false, true, false) => "-w-",
            (false, false, true) => "--x",
            (false, true, true) => "-wx",
            (false, false, false) => "---",
        }
    }
}

/// Where the bytes of a mapping come from.
#[derive(Clone, Copy, PartialEq, Eq, Debug, Structural)]
pub enum MapSource {
    /// Copied from this span of the file.
    FromFile(Span),
    /// `.bss`: `p_memsz` beyond `p_filesz`, zeroed by the kernel. No file behind it.
    ZeroFill,
}

#[derive(Clone, Copy, PartialEq, Eq, Debug, Structural)]
pub struct Mapping {
    pub vaddr: u64,
    pub len: u64,
    pub prot: Prot,
    pub source: MapSource,
    /// Index of the `PT_LOAD` that produced this mapping.
    pub segment: u32,
}

impl Mapping {
    /// One past the last address, saturating.
    pub open spec fn spec_end(self) -> u64 {
        span::sat_add(self.vaddr, self.len)
    }

    /// `va` is one of the addresses of this mapping.
    pub open spec fn has(self, va: u64) -> bool {
        self.vaddr <= va < self.spec_end()
    }

    #[must_use]
    pub fn end(&self) -> (r: u64)
        ensures
            r == self.spec_end(),
    {
        self.vaddr.saturating_add(self.len)
    }
}

/// A range of the file that is in memory, and the address it starts at.
///
/// `mmap` starts at the page that holds `p_offset`, so the tail of whatever precedes the
/// segment comes with it. Whole pages come from the file at the other end too, unless
/// `p_memsz` exceeds `p_filesz`: the kernel then wipes what follows.
#[derive(Clone, Copy, PartialEq, Eq, Debug, Structural)]
pub struct Resident {
    pub span: Span,
    pub vaddr: u64,
}

/// One row of the kernel's mapping table.
#[derive(Clone, Copy, PartialEq, Eq, Debug, Structural)]
pub struct Vma {
    pub start: u64,
    pub end: u64,
    pub prot: Prot,
    /// File offset of the first page; nothing for an anonymous mapping.
    pub offset: Option<u64>,
    /// Index of the `PT_LOAD` the pages belong to.
    pub segment: u32,
}

/// The mappings of one segment: its file part, then its zero-filled part.
pub open spec fn segment_mappings(s: Seq<Mapping>, seg: Segment, i: int) -> Seq<Mapping> {
    let prot = Prot::of_flags(seg.flags);
    let segment = layout::narrow(i);
    if seg.p_type != PT_LOAD {
        s
    } else {
        let s = if seg.filesz > 0 {
            s.push(
                Mapping {
                    vaddr: seg.vaddr,
                    len: seg.filesz,
                    prot,
                    source: MapSource::FromFile(
                        Span { file: FileId(0), start: seg.offset, len: seg.filesz },
                    ),
                    segment,
                },
            )
        } else {
            s
        };
        if seg.memsz > seg.filesz {
            s.push(
                Mapping {
                    vaddr: span::sat_add(seg.vaddr, seg.filesz),
                    len: (seg.memsz - seg.filesz) as u64,
                    prot,
                    source: MapSource::ZeroFill,
                    segment,
                },
            )
        } else {
            s
        }
    }
}

/// The mappings of the first `n` segments, in segment order.
pub open spec fn raw_mappings(segs: Seq<Segment>, n: int) -> Seq<Mapping>
    decreases n,
{
    if n <= 0 {
        Seq::empty()
    } else {
        segment_mappings(raw_mappings(segs, n - 1), segs[n - 1], n - 1)
    }
}

/// What a mapping is ordered by: its address, its length, its place in segment order.
pub open spec fn mapping_keys(raw: Seq<Mapping>) -> Seq<Key> {
    Seq::new(raw.len(), |i: int| (raw[i].vaddr, raw[i].len, i as u64))
}

/// The mappings by ascending address.
pub open spec fn by_address(raw: Seq<Mapping>) -> Seq<Mapping> {
    order::sorted(mapping_keys(raw)).map_values(|k: Key| raw[k.2 as int])
}

/// The mappings of a file, by ascending address.
pub open spec fn mappings_of(segs: Seq<Segment>) -> Seq<Mapping> {
    by_address(raw_mappings(segs, segs.len() as int))
}

/// The range of a file of `file_len` bytes that mapping a segment makes resident.
pub open spec fn resident_of(seg: Segment, file_len: u64) -> Resident {
    let start = page_down(seg.offset);
    let exact = span::sat_add(seg.offset, seg.filesz);
    let end = if seg.memsz > seg.filesz {
        exact
    } else {
        page_up(exact)
    };
    let stop = if end < file_len {
        end
    } else {
        file_len
    };
    let lead = seg.offset - start;
    Resident {
        span: Span {
            file: FileId(0),
            start,
            len: if stop > start {
                (stop - start) as u64
            } else {
                0
            },
        },
        vaddr: if seg.vaddr >= lead {
            (seg.vaddr - lead) as u64
        } else {
            0
        },
    }
}

/// The resident ranges of the first `n` segments.
pub open spec fn residents(segs: Seq<Segment>, file_len: u64, n: int) -> Seq<Resident>
    decreases n,
{
    if n <= 0 {
        Seq::empty()
    } else {
        let s = residents(segs, file_len, n - 1);
        let seg = segs[n - 1];
        if seg.p_type == PT_LOAD && seg.filesz > 0 {
            s.push(resident_of(seg, file_len))
        } else {
            s
        }
    }
}

/// The address the first of `maps` that loads `offset` loads it at.
pub open spec fn exact_vaddr(maps: Seq<Mapping>, offset: u64) -> Option<u64>
    decreases maps.len(),
{
    if maps.len() == 0 {
        None
    } else {
        let m = maps[0];
        match m.source {
            MapSource::FromFile(s) => if s.start <= offset < s.spec_end() {
                Some(span::sat_add(m.vaddr, (offset - s.start) as u64))
            } else {
                exact_vaddr(maps.drop_first(), offset)
            },
            MapSource::ZeroFill => exact_vaddr(maps.drop_first(), offset),
        }
    }
}

/// The address the first of `rs` that holds `offset` holds it at.
pub open spec fn resident_vaddr(rs: Seq<Resident>, offset: u64) -> Option<u64>
    decreases rs.len(),
{
    if rs.len() == 0 {
        None
    } else if rs[0].span.start <= offset < rs[0].span.spec_end() {
        Some(span::sat_add(rs[0].vaddr, (offset - rs[0].span.start) as u64))
    } else {
        resident_vaddr(rs.drop_first(), offset)
    }
}

/// Where a byte of the file is in memory: where its segment says, or else where its page is.
pub open spec fn address(maps: Seq<Mapping>, rs: Seq<Resident>, offset: u64) -> Option<u64> {
    match exact_vaddr(maps, offset) {
        Some(va) => Some(va),
        None => resident_vaddr(rs, offset),
    }
}

/// The highest end among `maps`, or 0.
pub open spec fn top_of(maps: Seq<Mapping>) -> u64
    decreases maps.len(),
{
    if maps.len() == 0 {
        0
    } else {
        let rest = top_of(maps.drop_last());
        if maps.last().spec_end() > rest {
            maps.last().spec_end()
        } else {
            rest
        }
    }
}

/// The file bytes of the first `n` mappings, saturating.
pub open spec fn file_bytes(maps: Seq<Mapping>, n: int) -> u64
    decreases n,
{
    if n <= 0 {
        0
    } else {
        match maps[n - 1].source {
            MapSource::FromFile(s) => span::sat_add(file_bytes(maps, n - 1), s.len),
            MapSource::ZeroFill => file_bytes(maps, n - 1),
        }
    }
}

/// The zero-filled bytes of the first `n` mappings, saturating.
pub open spec fn zero_bytes(maps: Seq<Mapping>, n: int) -> u64
    decreases n,
{
    if n <= 0 {
        0
    } else {
        match maps[n - 1].source {
            MapSource::FromFile(s) => zero_bytes(maps, n - 1),
            MapSource::ZeroFill => span::sat_add(zero_bytes(maps, n - 1), maps[n - 1].len),
        }
    }
}

/// The address space of one loaded object.
#[derive(Clone, Debug)]
pub struct MemImage {
    mappings: Vec<Mapping>,
    resident: Vec<Resident>,
}

impl Default for MemImage {
    fn default() -> (r: Self)
        ensures
            r.maps() == Seq::<Mapping>::empty(),
            r.ranges() == Seq::<Resident>::empty(),
    {
        Self { mappings: Vec::new(), resident: Vec::new() }
    }
}

impl MemImage {
    /// The mappings, exact to the byte, by ascending address.
    pub closed spec fn maps(&self) -> Seq<Mapping> {
        self.mappings@
    }

    /// The ranges of the file that are in memory, in segment order.
    pub closed spec fn ranges(&self) -> Seq<Resident> {
        self.resident@
    }

    /// Build from the program headers, as the kernel would.
    ///
    /// For `ET_DYN` the addresses are relative to a load base the kernel randomises; they
    /// are used here as given, which is what `readelf` shows and what makes two runs
    /// comparable. Where the file ends is not known, so no resident range is cut short.
    #[must_use]
    pub fn from_segments(segments: &[Segment]) -> (r: Self)
        ensures
            r.maps() == mappings_of(segments@),
            r.ranges() == residents(segments@, u64::MAX, segments@.len() as int),
            file_bytes(r.maps(), r.maps().len() as int) == residency::loaded_bytes(
                segments@,
                segments@.len() as int,
            ),
            zero_bytes(r.maps(), r.maps().len() as int) == residency::cleared_bytes(
                segments@,
                segments@.len() as int,
            ),
    {
        Self::for_file(segments, u64::MAX)
    }

    /// Build from the program headers of a file of `file_len` bytes.
    #[must_use]
    pub fn for_file(segments: &[Segment], file_len: u64) -> (r: Self)
        ensures
            r.maps() == mappings_of(segments@),
            r.ranges() == residents(segments@, file_len, segments@.len() as int),
            file_bytes(r.maps(), r.maps().len() as int) == residency::loaded_bytes(
                segments@,
                segments@.len() as int,
            ),
            zero_bytes(r.maps(), r.maps().len() as int) == residency::cleared_bytes(
                segments@,
                segments@.len() as int,
            ),
    {
        let mut raw: Vec<Mapping> = Vec::new();
        let mut resident: Vec<Resident> = Vec::new();
        let mut i: usize = 0;
        while i < segments.len()
            invariant
                i <= segments@.len(),
                raw@ == raw_mappings(segments@, i as int),
                resident@ == residents(segments@, file_len, i as int),
            decreases segments.len() - i,
        {
            let seg = segments[i];
            if seg.p_type == PT_LOAD {
                let idx: u32 = if i as u64 > u32::MAX as u64 {
                    u32::MAX
                } else {
                    i as u32
                };
                let prot = Prot::from_flags(seg.flags);
                if seg.filesz > 0 {
                    raw.push(
                        Mapping {
                            vaddr: seg.vaddr,
                            len: seg.filesz,
                            prot,
                            source: MapSource::FromFile(
                                Span::new(FileId::primary(), seg.offset, seg.filesz),
                            ),
                            segment: idx,
                        },
                    );
                    resident.push(resident_range(seg, file_len));
                }
                let zero: u64 = seg.zero_fill();
                if zero > 0 {
                    raw.push(
                        Mapping {
                            vaddr: seg.vaddr.saturating_add(seg.filesz),
                            len: zero,
                            prot,
                            source: MapSource::ZeroFill,
                            segment: idx,
                        },
                    );
                }
            }
            i += 1;
        }
        proof {
            assert(raw.len() <= u64::MAX);
            residency::lemma_sums_keep(raw@);
            residency::lemma_raw_sums(segments@, segments@.len() as int);
        }
        let mappings = sort_mappings(&raw);
        Self { mappings, resident }
    }

    #[must_use]
    pub fn mappings(&self) -> (r: &[Mapping])
        ensures
            r@ == self.maps(),
    {
        self.mappings.as_slice()
    }

    #[must_use]
    pub fn is_empty(&self) -> (r: bool)
        ensures
            r == (self.maps().len() == 0),
    {
        self.mappings.len() == 0
    }

    /// The ranges of the file that are in memory.
    #[must_use]
    pub fn resident(&self) -> (r: &[Resident])
        ensures
            r@ == self.ranges(),
    {
        self.resident.as_slice()
    }

    /// The virtual address a file offset ends up at, if any.
    ///
    /// A byte of a segment is where the segment says; a byte that is only resident because
    /// it shares a page with one is where the page is. Returns `None` for the large fraction
    /// of a file that is never loaded: section headers, symbol tables, debug info.
    #[must_use]
    pub fn vaddr_of(&self, offset: u64) -> (r: Option<u64>)
        ensures
            r == address(self.maps(), self.ranges(), offset),
    {
        let mut i: usize = 0;
        assert(self.mappings@.skip(0) =~= self.mappings@);
        while i < self.mappings.len()
            invariant
                i <= self.mappings@.len(),
                exact_vaddr(self.maps(), offset) == exact_vaddr(
                    self.mappings@.skip(i as int),
                    offset,
                ),
            decreases self.mappings.len() - i,
        {
            let m = self.mappings[i];
            assert(self.mappings@.skip(i as int).drop_first() =~= self.mappings@.skip(i + 1));
            if let MapSource::FromFile(s) = m.source {
                if offset >= s.start && offset < s.end() {
                    return Some(m.vaddr.saturating_add(offset - s.start));
                }
            }
            i += 1;
        }
        let mut k: usize = 0;
        assert(self.resident@.skip(0) =~= self.resident@);
        while k < self.resident.len()
            invariant
                k <= self.resident@.len(),
                exact_vaddr(self.maps(), offset) is None,
                resident_vaddr(self.ranges(), offset) == resident_vaddr(
                    self.resident@.skip(k as int),
                    offset,
                ),
            decreases self.resident.len() - k,
        {
            let r = self.resident[k];
            assert(self.resident@.skip(k as int).drop_first() =~= self.resident@.skip(k + 1));
            if offset >= r.span.start && offset < r.span.end() {
                return Some(r.vaddr.saturating_add(offset - r.span.start));
            }
            k += 1;
        }
        None
    }

    /// Lowest and highest virtual address in the image.
    #[must_use]
    pub fn extent(&self) -> (r: Option<(u64, u64)>)
        ensures
            r == (if self.maps().len() == 0 {
                None
            } else {
                Some((self.maps()[0].vaddr, top_of(self.maps())))
            }),
    {
        if self.mappings.len() == 0 {
            return None;
        }
        let lo: u64 = self.mappings[0].vaddr;
        let mut hi: u64 = 0;
        let mut i: usize = 0;
        assert(self.mappings@.take(0) =~= Seq::<Mapping>::empty());
        while i < self.mappings.len()
            invariant
                i <= self.mappings@.len(),
                hi == top_of(self.mappings@.take(i as int)),
            decreases self.mappings.len() - i,
        {
            assert(self.mappings@.take(i + 1).drop_last() =~= self.mappings@.take(i as int));
            let end: u64 = self.mappings[i].end();
            if end > hi {
                hi = end;
            }
            i += 1;
        }
        assert(self.mappings@.take(i as int) =~= self.mappings@);
        Some((lo, hi))
    }

    /// Bytes of the file that end up in memory because a segment names them.
    #[must_use]
    pub fn mapped_bytes(&self) -> (r: u64)
        ensures
            r == file_bytes(self.maps(), self.maps().len() as int),
    {
        let mut sum: u64 = 0;
        let mut i: usize = 0;
        while i < self.mappings.len()
            invariant
                i <= self.mappings@.len(),
                sum == file_bytes(self.maps(), i as int),
            decreases self.mappings.len() - i,
        {
            if let MapSource::FromFile(s) = self.mappings[i].source {
                sum = sum.saturating_add(s.len);
            }
            i += 1;
        }
        sum
    }

    /// Bytes of memory with no file behind them.
    #[must_use]
    pub fn zero_filled_bytes(&self) -> (r: u64)
        ensures
            r == zero_bytes(self.maps(), self.maps().len() as int),
    {
        let mut sum: u64 = 0;
        let mut i: usize = 0;
        while i < self.mappings.len()
            invariant
                i <= self.mappings@.len(),
                sum == zero_bytes(self.maps(), i as int),
            decreases self.mappings.len() - i,
        {
            if let MapSource::ZeroFill = self.mappings[i].source {
                sum = sum.saturating_add(self.mappings[i].len);
            }
            i += 1;
        }
        sum
    }
}

/// The range of a file that mapping a segment makes resident.
fn resident_range(seg: Segment, file_len: u64) -> (r: Resident)
    ensures
        r == resident_of(seg, file_len),
{
    let start: u64 = round_down(seg.offset);
    let exact: u64 = seg.offset.saturating_add(seg.filesz);
    let end: u64 = if seg.memsz > seg.filesz {
        exact
    } else {
        round_up(exact)
    };
    let stop: u64 = if end < file_len {
        end
    } else {
        file_len
    };
    Resident {
        span: Span::new(FileId::primary(), start, stop.saturating_sub(start)),
        vaddr: seg.vaddr.saturating_sub(seg.offset - start),
    }
}

/// The mappings by ascending address.
fn sort_mappings(raw: &Vec<Mapping>) -> (out: Vec<Mapping>)
    ensures
        out@ == by_address(raw@),
{
    let mut keys: Vec<Key> = Vec::new();
    let mut i: usize = 0;
    while i < raw.len()
        invariant
            i <= raw@.len(),
            keys@ =~= mapping_keys(raw@).take(i as int),
        decreases raw.len() - i,
    {
        keys.push((raw[i].vaddr, raw[i].len, i as u64));
        i += 1;
    }
    assert(keys@ =~= mapping_keys(raw@));
    let ranked = order::sort_keys(keys.as_slice());
    proof {
        order::lemma_sorted(keys@);
        assert forall|n: int| 0 <= n < ranked@.len() implies (#[trigger] ranked@[n]).2
            < raw@.len() by {
            assert(ranked@.contains(ranked@[n]));
            assert(keys@.contains(ranked@[n]));
        }
    }
    let mut out: Vec<Mapping> = Vec::new();
    let mut n: usize = 0;
    while n < ranked.len()
        invariant
            n <= ranked@.len(),
            forall|a: int| 0 <= a < ranked@.len() ==> (#[trigger] ranked@[a]).2 < raw@.len(),
            out@.len() == n,
            forall|a: int| 0 <= a < n ==> #[trigger] out@[a] == raw@[ranked@[a].2 as int],
        decreases ranked.len() - n,
    {
        let at: u64 = ranked[n].2;
        assert(at < raw.len());
        out.push(raw[at as usize]);
        n += 1;
    }
    assert(out@ =~= by_address(raw@));
    out
}

/// A relocation the loader leaves alone at startup: a PLT entry of a lazily bound object.
pub open spec fn deferred(bind_now: bool, table: RelocTableKind) -> bool {
    !bind_now && table == RelocTableKind::JmpRel
}

/// Whether the loader leaves this relocation alone at startup.
#[must_use]
pub fn is_deferred(summary: &Summary, reloc: &Reloc) -> (r: bool)
    ensures
        r == deferred(summary.bind_now, reloc.table),
{
    !summary.bind_now && reloc.table == RelocTableKind::JmpRel
}

/// A protection is read back from how it is written, and from the column of a mapping table
/// whatever follows in it.
pub proof fn law_a_protection_is_read_back(p: Prot, rest: Seq<char>)
    ensures
        p.spec_str()@.len() == 3,
        Prot::of_perms(p.spec_str()@ + rest) == p,
{
    reveal_strlit("r--");
    reveal_strlit("rw-");
    reveal_strlit("r-x");
    reveal_strlit("rwx");
    reveal_strlit("-w-");
    reveal_strlit("--x");
    reveal_strlit("-wx");
    reveal_strlit("---");
}

/// The three lowest flag bits are, from the lowest, run, write and read, and no other bit
/// matters.
pub proof fn law_flag_bits_are_protections(f: u32)
    ensures
        Prot::of_flags(f).execute <==> f % 2 == 1,
        Prot::of_flags(f).write <==> f / 2 % 2 == 1,
        Prot::of_flags(f).read <==> f / 4 % 2 == 1,
{
    assert(f & 1 != 0 <==> f % 2 == 1) by (bit_vector);
    assert(f & 2 != 0 <==> f / 2 % 2 == 1) by (bit_vector);
    assert(f & 4 != 0 <==> f / 4 % 2 == 1) by (bit_vector);
}

} // verus!
