//! Structural audit: the questions a total accounting makes cheap to ask.
//!
//! `readelf` prints the fields. It does not mind that `e_entry` points outside every
//! executable mapping, that two `PT_LOAD`s overlap, or that 400 KB of the file belongs to
//! no structure. Those are not parse errors, the file is well-formed: they are the file
//! disagreeing with itself.
//!
//! Every check here is derived from data the parser and the memory model already produce.
//! The coverage invariant does most of the work: a parser that accounts for every byte
//! knows exactly which bytes it could not account for, and that set is where appended
//! payloads, packers and patched-in data live.
//!
//! This reports; it does not judge. "Suspicious" means worth a look, not malicious: a
//! self-extracting installer and a packed sample look identical from here, and saying
//! otherwise would be pretending to knowledge the structure does not carry.

use vstd::prelude::*;

use crate::claim::{ClaimId, ClaimKind, ClaimView};
use crate::coverage;
use crate::coverage::Coverage;
use crate::model;
use crate::model::{MemImage, Mapping, Prot, PAGE_SIZE, PT_LOAD};
use crate::parse::{Parsed, Reloc, RelocView, Segment};
use crate::span;
use crate::span::Span;
use crate::text;

verus! {

#[derive(Clone, Copy, PartialEq, Eq, PartialOrd, Ord, Debug, Structural)]
pub enum Severity {
    /// True and worth knowing; not unusual.
    Note,
    /// Unusual. Legitimate binaries do this, but few of them.
    Odd,
    /// The file contradicts itself, or carries something it does not describe.
    Suspicious,
}

impl Severity {
    pub open spec fn spec_str(self) -> &'static str {
        match self {
            Self::Note => "note",
            Self::Odd => "odd",
            Self::Suspicious => "suspect",
        }
    }

    #[must_use]
    pub fn as_str(self) -> (r: &'static str)
        ensures
            r == self.spec_str(),
    {
        match self {
            Self::Note => "note",
            Self::Odd => "odd",
            Self::Suspicious => "suspect",
        }
    }

    /// How bad it is.
    pub open spec fn rank(self) -> int {
        match self {
            Self::Note => 0,
            Self::Odd => 1,
            Self::Suspicious => 2,
        }
    }
}

#[derive(Clone, PartialEq, Eq, Debug)]
pub struct Finding {
    pub severity: Severity,
    pub title: &'static str,
    pub detail: String,
    /// Where in the file, when the finding has a location.
    pub span: Option<Span>,
}

/// A [`Finding`] with its texts as character sequences.
pub struct FindingView {
    pub severity: Severity,
    pub title: Seq<char>,
    pub detail: Seq<char>,
    pub span: Option<Span>,
}

impl View for Finding {
    type V = FindingView;

    open spec fn view(&self) -> FindingView {
        FindingView {
            severity: self.severity,
            title: self.title@,
            detail: self.detail@,
            span: self.span,
        }
    }
}

/// The findings as views.
pub open spec fn finding_views(s: Seq<Finding>) -> Seq<FindingView> {
    s.map_values(|f: Finding| f@)
}

/// What was measured of a region: its entropy in bits per byte, to one decimal, and
/// whether that is as high as in compressed or encrypted data.
///
/// The threshold suggests and does not prove: a bitmap of random noise is high entropy and
/// harmless.
#[derive(Clone, PartialEq, Eq, Debug)]
pub struct Reading {
    pub entropy: String,
    pub high: bool,
}

/// How often `v` stands among the bytes.
pub open spec fn occurrences(bytes: Seq<u8>, v: u8) -> nat
    decreases bytes.len(),
{
    if bytes.len() == 0 {
        0
    } else {
        occurrences(bytes.drop_last(), v) + if bytes.last() == v {
            1nat
        } else {
            0nat
        }
    }
}

/// The count that a `u32` can hold of `n`.
pub open spec fn capped(n: nat) -> u32 {
    if n > u32::MAX {
        u32::MAX
    } else {
        n as u32
    }
}

/// How often each byte value stands among the bytes: what entropy is computed from.
#[must_use]
pub fn byte_counts(bytes: &[u8]) -> (r: Vec<u32>)
    ensures
        r@.len() == 256,
        forall|v: int|
            0 <= v < 256 ==> #[trigger] r@[v] == capped(occurrences(bytes@, v as u8)),
{
    let mut counts: Vec<u32> = Vec::new();
    let mut k: usize = 0;
    while k < 256
        invariant
            k <= 256,
            counts@.len() == k,
            forall|v: int| 0 <= v < k ==> #[trigger] counts@[v] == 0,
        decreases 256 - k,
    {
        counts.push(0);
        k += 1;
    }
    assert(bytes@.take(0) =~= Seq::<u8>::empty());
    let mut i: usize = 0;
    while i < bytes.len()
        invariant
            i <= bytes@.len(),
            counts@.len() == 256,
            forall|v: int|
                0 <= v < 256 ==> #[trigger] counts@[v] == capped(
                    occurrences(bytes@.take(i as int), v as u8),
                ),
        decreases bytes.len() - i,
    {
        assert(bytes@.take(i + 1).drop_last() =~= bytes@.take(i as int));
        let b: usize = bytes[i] as usize;
        let c: u32 = counts[b].saturating_add(1);
        counts.set(b, c);
        i += 1;
    }
    assert(bytes@.take(i as int) =~= bytes@);
    counts
}

/// Digits in groups of three, from the right.
pub open spec fn grouped(d: Seq<char>) -> Seq<char>
    decreases d.len(),
{
    if d.len() <= 3 {
        d
    } else {
        grouped(d.take(d.len() - 3)) + ","@ + d.skip(d.len() - 3)
    }
}

fn group(d: &[char]) -> (r: String)
    ensures
        r@ == grouped(d@),
    decreases d@.len(),
{
    if d.len() <= 3 {
        text::string_of(d)
    } else {
        let at: usize = d.len() - 3;
        let head = vstd::slice::slice_subrange(d, 0, at);
        let rest = vstd::slice::slice_subrange(d, at, d.len());
        assert(head@ =~= d@.take(at as int));
        assert(rest@ =~= d@.skip(at as int));
        let mut r = group(head);
        r.append(",");
        r.append(text::string_of(rest).as_str());
        r
    }
}

/// Thousands separators.
///
/// Byte counts are most of what a finding says. Printing one of them as `402,859` and the
/// next as `171131` in the same sentence reads as two different tools talking.
#[must_use]
pub fn commas(n: u64) -> (r: String)
    ensures
        r@ == grouped(text::dec(n as int)),
{
    let digits = text::chars_of(text::dec_text(n).as_str());
    group(digits.as_slice())
}

/// Whether the bytes begin with these.
pub open spec fn starts(bytes: Seq<u8>, magic: Seq<u8>) -> bool {
    bytes.len() >= magic.len() && bytes.take(magic.len() as int) == magic
}

/// What a run of bytes starts with.
pub open spec fn container(b: Seq<u8>) -> Option<&'static str> {
    if starts(b, seq![0x7fu8, 0x45, 0x4c, 0x46]) {
        Some("an ELF file")
    } else if starts(b, seq![0x41u8, 0x52, 0x4a, 0x5f, 0x53, 0x46, 0x58]) {
        Some("an ARJ self-extracting stub")
    } else if starts(b, seq![0x50u8, 0x4b, 0x03, 0x04]) {
        Some("a zip archive")
    } else if starts(b, seq![0x1fu8, 0x8b]) {
        Some("gzip data")
    } else if starts(b, seq![0x37u8, 0x7a, 0xbc, 0xaf, 0x27, 0x1c]) {
        Some("a 7-zip archive")
    } else if starts(b, seq![0xfdu8, 0x37, 0x7a, 0x58, 0x5a]) {
        Some("xz data")
    } else if starts(b, seq![0x75u8, 0x73, 0x74, 0x61, 0x72]) {
        Some("a tar archive")
    } else if starts(b, seq![0x4du8, 0x5a]) {
        Some("a PE/DOS executable")
    } else if starts(b, seq![0xcau8, 0xfe, 0xba, 0xbe]) {
        Some("a Mach-O fat binary or Java class")
    } else {
        None
    }
}

fn starts_with(bytes: &[u8], magic: &[u8]) -> (r: bool)
    ensures
        r == starts(bytes@, magic@),
{
    if bytes.len() < magic.len() {
        return false;
    }
    let mut i: usize = 0;
    while i < magic.len()
        invariant
            i <= magic@.len() <= bytes@.len(),
            forall|k: int| 0 <= k < i ==> bytes@[k] == magic@[k],
        decreases magic.len() - i,
    {
        if bytes[i] != magic[i] {
            assert(bytes@.take(magic@.len() as int)[i as int] != magic@[i as int]);
            return false;
        }
        i += 1;
    }
    assert(bytes@.take(magic@.len() as int) =~= magic@);
    true
}

/// Name what a run of bytes starts with, when it is something recognisable.
///
/// Appended data is far more useful with its container named: `/usr/bin/arj` carries an
/// `ARJ_SFX` marker followed by a whole second ELF file, which says "self-extracting
/// archive" rather than "171 KB of mystery".
#[must_use]
pub fn identify(bytes: &[u8]) -> (r: Option<&'static str>)
    ensures
        r == container(bytes@),
{
    let elf: [u8; 4] = [0x7f, 0x45, 0x4c, 0x46];
    let arj: [u8; 7] = [0x41, 0x52, 0x4a, 0x5f, 0x53, 0x46, 0x58];
    let zip: [u8; 4] = [0x50, 0x4b, 0x03, 0x04];
    let gzip: [u8; 2] = [0x1f, 0x8b];
    let seven: [u8; 6] = [0x37, 0x7a, 0xbc, 0xaf, 0x27, 0x1c];
    let xz: [u8; 5] = [0xfd, 0x37, 0x7a, 0x58, 0x5a];
    let tar: [u8; 5] = [0x75, 0x73, 0x74, 0x61, 0x72];
    let pe: [u8; 2] = [0x4d, 0x5a];
    let fat: [u8; 4] = [0xca, 0xfe, 0xba, 0xbe];
    proof {
        assert(elf@ =~= seq![0x7fu8, 0x45, 0x4c, 0x46]);
        assert(arj@ =~= seq![0x41u8, 0x52, 0x4a, 0x5f, 0x53, 0x46, 0x58]);
        assert(zip@ =~= seq![0x50u8, 0x4b, 0x03, 0x04]);
        assert(gzip@ =~= seq![0x1fu8, 0x8b]);
        assert(seven@ =~= seq![0x37u8, 0x7a, 0xbc, 0xaf, 0x27, 0x1c]);
        assert(xz@ =~= seq![0xfdu8, 0x37, 0x7a, 0x58, 0x5a]);
        assert(tar@ =~= seq![0x75u8, 0x73, 0x74, 0x61, 0x72]);
        assert(pe@ =~= seq![0x4du8, 0x5a]);
        assert(fat@ =~= seq![0xcau8, 0xfe, 0xba, 0xbe]);
    }
    if starts_with(bytes, elf.as_slice()) {
        Some("an ELF file")
    } else if starts_with(bytes, arj.as_slice()) {
        Some("an ARJ self-extracting stub")
    } else if starts_with(bytes, zip.as_slice()) {
        Some("a zip archive")
    } else if starts_with(bytes, gzip.as_slice()) {
        Some("gzip data")
    } else if starts_with(bytes, seven.as_slice()) {
        Some("a 7-zip archive")
    } else if starts_with(bytes, xz.as_slice()) {
        Some("xz data")
    } else if starts_with(bytes, tar.as_slice()) {
        Some("a tar archive")
    } else if starts_with(bytes, pe.as_slice()) {
        Some("a PE/DOS executable")
    } else if starts_with(bytes, fat.as_slice()) {
        Some("a Mach-O fat binary or Java class")
    } else {
        None
    }
}

// Bytes no structure accounts for.

/// Whether a claim is a region worth measuring: unexplained, and not small.
pub open spec fn measured(c: ClaimView) -> bool {
    c.kind is Unclaimed && c.span.len >= 256
}

/// The regions worth measuring among the first `n` of these claims.
pub open spec fn regions_in(claims: Seq<ClaimView>, ids: Seq<ClaimId>, n: int) -> Seq<Span>
    decreases n,
{
    if n <= 0 {
        Seq::empty()
    } else {
        let i = ids[n - 1].0 as int;
        if i < claims.len() && measured(claims[i]) {
            regions_in(claims, ids, n - 1).push(claims[i].span)
        } else {
            regions_in(claims, ids, n - 1)
        }
    }
}

/// The regions of a file worth measuring: leaves that no structure explains.
pub open spec fn regions_of(cov: Coverage) -> Seq<Span> {
    let claims = cov@.claims;
    let ids = coverage::leaf_ids(claims, claims.len() as int);
    regions_in(claims, ids, ids.len() as int)
}

/// The bytes of a span, where the file has them.
pub open spec fn within(bytes: Seq<u8>, s: Span) -> Seq<u8> {
    if s.start + s.len <= bytes.len() {
        bytes.subrange(s.start as int, s.start + s.len)
    } else {
        Seq::empty()
    }
}

/// What an appended region begins with, in words.
pub open spec fn beginning(b: Seq<u8>) -> Seq<char> {
    match container(b) {
        Some(name) => ", beginning with "@ + name@,
        None => Seq::empty(),
    }
}

/// What is to be said of one unexplained region of a file of `total` bytes.
///
/// Everything past the last structure is appended: nothing in the file describes it, and
/// nothing in the file needs it. Self-extracting archives, embedded payloads and
/// signatures all live here.
pub open spec fn region_finding(
    region: Span,
    total: u64,
    content: Seq<u8>,
    entropy: Seq<char>,
    high: bool,
) -> Option<FindingView> {
    if region.len < 1024 {
        None
    } else if region.spec_end() >= total {
        Some(
            FindingView {
                severity: Severity::Suspicious,
                title: "data appended past the last structure"@,
                detail: grouped(text::dec(region.len as int)) + " bytes at "@ + text::hex(
                    region.start as int,
                ) + " that no header, section or segment describes"@ + beginning(content)
                    + " (entropy "@ + entropy + ")"@,
                span: Some(region),
            },
        )
    } else if high {
        Some(
            FindingView {
                severity: Severity::Odd,
                title: "high-entropy region belongs to nothing"@,
                detail: grouped(text::dec(region.len as int)) + " bytes at "@ + text::hex(
                    region.start as int,
                ) + ", entropy "@ + entropy + " — compressed, encrypted, or random"@,
                span: Some(region),
            },
        )
    } else {
        None
    }
}

/// With one more finding, where there is one.
pub open spec fn added(s: Seq<FindingView>, f: Option<FindingView>) -> Seq<FindingView> {
    match f {
        Some(x) => s.push(x),
        None => s,
    }
}

/// What is to be said of the first `n` regions.
pub open spec fn region_findings(
    regions: Seq<Span>,
    total: u64,
    bytes: Seq<u8>,
    readings: Seq<Reading>,
    n: int,
) -> Seq<FindingView>
    decreases n,
{
    if n <= 0 {
        Seq::empty()
    } else {
        added(
            region_findings(regions, total, bytes, readings, n - 1),
            region_finding(
                regions[n - 1],
                total,
                within(bytes, regions[n - 1]),
                readings[n - 1].entropy@,
                readings[n - 1].high,
            ),
        )
    }
}

fn add(out: &mut Vec<Finding>, f: Finding)
    ensures
        finding_views(final(out)@) == finding_views(old(out)@).push(f@),
{
    let ghost before = out@;
    out.push(f);
    assert(finding_views(out@) =~= finding_views(before).push(f@));
}

/// The regions of a file whose entropy an audit needs, in order.
#[must_use]
pub fn regions(parsed: &Parsed) -> (r: Vec<Span>)
    requires
        parsed.coverage.wf(),
    ensures
        r@ == regions_of(parsed.coverage),
{
    let cov = &parsed.coverage;
    let leaves = cov.leaves();
    let mut out: Vec<Span> = Vec::new();
    let mut k: usize = 0;
    while k < leaves.len()
        invariant
            k <= leaves@.len(),
            out@ == regions_in(cov@.claims, leaves@, k as int),
        decreases leaves.len() - k,
    {
        if let Some(claim) = cov.claim(leaves[k]) {
            if let ClaimKind::Unclaimed = claim.kind {
                if claim.span.len >= 256 {
                    out.push(claim.span);
                }
            }
        }
        k += 1;
    }
    out
}

fn slice_of<'a>(bytes: &'a [u8], s: Span) -> (r: &'a [u8])
    ensures
        r@ == within(bytes@, s),
{
    let len: u64 = bytes.len() as u64;
    if s.start <= len && s.len <= len - s.start {
        vstd::slice::slice_subrange(bytes, s.start as usize, (s.start + s.len) as usize)
    } else {
        &[]
    }
}

/// What is to be said of one unexplained region.
fn judge_region(region: Span, total: u64, content: &[u8], reading: &Reading) -> (r: Option<Finding>)
    ensures
        match r {
            Some(f) => region_finding(
                region,
                total,
                content@,
                reading.entropy@,
                reading.high,
            ) == Some(f@),
            None => region_finding(
                region,
                total,
                content@,
                reading.entropy@,
                reading.high,
            ) is None,
        },
{
    if region.len < 1024 {
        return None;
    }
    let mut detail = commas(region.len);
    detail.append(" bytes at ");
    detail.append(text::hex_text(region.start).as_str());
    if region.end() >= total {
        detail.append(" that no header, section or segment describes");
        let mut what = String::new();
        if let Some(name) = identify(content) {
            what.append(", beginning with ");
            what.append(name);
        }
        assert(what@ =~= beginning(content@));
        detail.append(what.as_str());
        detail.append(" (entropy ");
        detail.append(reading.entropy.as_str());
        detail.append(")");
        Some(
            Finding {
                severity: Severity::Suspicious,
                title: "data appended past the last structure",
                detail,
                span: Some(region),
            },
        )
    } else if reading.high {
        detail.append(", entropy ");
        detail.append(reading.entropy.as_str());
        detail.append(" — compressed, encrypted, or random");
        Some(
            Finding {
                severity: Severity::Odd,
                title: "high-entropy region belongs to nothing",
                detail,
                span: Some(region),
            },
        )
    } else {
        None
    }
}

/// Bytes no structure accounts for.
fn unexplained(parsed: &Parsed, bytes: &[u8], readings: &[Reading]) -> (out: Vec<Finding>)
    requires
        parsed.coverage.wf(),
        readings@.len() == regions_of(parsed.coverage).len(),
    ensures
        finding_views(out@) == region_findings(
            regions_of(parsed.coverage),
            coverage::total_len(
                parsed.coverage@.files,
                parsed.coverage@.files.len() as int,
            ),
            bytes@,
            readings@,
            readings@.len() as int,
        ),
{
    let total: u64 = parsed.coverage.stats().total_bytes;
    let regions = regions(parsed);
    let mut out: Vec<Finding> = Vec::new();
    assert(finding_views(out@) =~= Seq::empty());
    let mut k: usize = 0;
    while k < regions.len()
        invariant
            k <= regions@.len() == readings@.len(),
            finding_views(out@) == region_findings(regions@, total, bytes@, readings@, k as int),
        decreases regions.len() - k,
    {
        let content = slice_of(bytes, regions[k]);
        if let Some(f) = judge_region(regions[k], total, content, &readings[k]) {
            self::add(&mut out, f);
        }
        k += 1;
    }
    out
}

// Segments.

/// The loadable segments among the first `n`.
pub open spec fn loads_in(segs: Seq<Segment>, n: int) -> Seq<Segment>
    decreases n,
{
    if n <= 0 {
        Seq::empty()
    } else if segs[n - 1].p_type == PT_LOAD {
        loads_in(segs, n - 1).push(segs[n - 1])
    } else {
        loads_in(segs, n - 1)
    }
}

/// More of the file than of memory.
pub open spec fn oversized(s: Segment) -> Option<FindingView> {
    if s.filesz > s.memsz {
        Some(
            FindingView {
                severity: Severity::Suspicious,
                title: "segment claims more file than memory"@,
                detail: "p_filesz "@ + text::hex(s.filesz as int) + " exceeds p_memsz "@
                    + text::hex(s.memsz as int) + "; the loader cannot satisfy this"@,
                span: None,
            },
        )
    } else {
        None
    }
}

/// mmap can only place a segment correctly when its offset and address agree modulo the
/// page size. A file that breaks this cannot be loaded as written.
pub open spec fn incongruent(s: Segment) -> Option<FindingView> {
    if s.filesz > 0 && s.offset % PAGE_SIZE != s.vaddr % PAGE_SIZE {
        Some(
            FindingView {
                severity: Severity::Suspicious,
                title: "segment offset and address are not page-congruent"@,
                detail: "p_offset "@ + text::hex(s.offset as int) + " and p_vaddr "@
                    + text::hex(s.vaddr as int) + " differ mod "@ + text::hex(
                    PAGE_SIZE as int,
                ),
                span: None,
            },
        )
    } else {
        None
    }
}

/// Memory that is writable and executable.
pub open spec fn write_and_run(s: Segment) -> Option<FindingView> {
    if Prot::of_flags(s.flags).write && Prot::of_flags(s.flags).execute {
        Some(
            FindingView {
                severity: Severity::Suspicious,
                title: "segment is writable and executable"@,
                detail: text::hex(s.vaddr as int) + ".."@ + text::hex(
                    span::sat_add(s.vaddr, s.memsz) as int,
                ) + " is mapped W+X; nothing a modern toolchain emits is"@,
                span: None,
            },
        )
    } else {
        None
    }
}

/// Two segments in the same memory.
pub open spec fn colliding(a: Segment, b: Segment) -> Option<FindingView> {
    let a_end = span::sat_add(a.vaddr, a.memsz);
    let b_end = span::sat_add(b.vaddr, b.memsz);
    if a.vaddr < b_end && b.vaddr < a_end {
        Some(
            FindingView {
                severity: Severity::Suspicious,
                title: "two PT_LOAD segments overlap in memory"@,
                detail: text::hex(a.vaddr as int) + ".."@ + text::hex(a_end as int)
                    + " overlaps "@ + text::hex(b.vaddr as int) + ".."@ + text::hex(
                    b_end as int,
                )
                    + "; the later mapping wins and the earlier one is partly unreachable"@,
                span: None,
            },
        )
    } else {
        None
    }
}

/// What is to be said of the first `n` segments, each alone.
pub open spec fn each_segment(s: Seq<FindingView>, loads: Seq<Segment>, n: int) -> Seq<FindingView>
    decreases n,
{
    if n <= 0 {
        s
    } else {
        let seg = loads[n - 1];
        added(
            added(added(each_segment(s, loads, n - 1), oversized(seg)), incongruent(seg)),
            write_and_run(seg),
        )
    }
}

/// What is to be said of segment `i` and those after it, up to `n`.
pub open spec fn later_segments(
    s: Seq<FindingView>,
    loads: Seq<Segment>,
    i: int,
    n: int,
) -> Seq<FindingView>
    decreases n,
{
    if n <= i + 1 || n <= 0 {
        s
    } else {
        added(later_segments(s, loads, i, n - 1), colliding(loads[i], loads[n - 1]))
    }
}

/// What is to be said of the first `n` segments, each with those after it.
pub open spec fn segment_pairs(s: Seq<FindingView>, loads: Seq<Segment>, n: int) -> Seq<FindingView>
    decreases n,
{
    if n <= 0 {
        s
    } else {
        later_segments(segment_pairs(s, loads, n - 1), loads, n - 1, loads.len() as int)
    }
}

/// What is to be said of the segments.
pub open spec fn segment_findings(s: Seq<FindingView>, segs: Seq<Segment>) -> Seq<FindingView> {
    let loads = loads_in(segs, segs.len() as int);
    segment_pairs(each_segment(s, loads, loads.len() as int), loads, loads.len() as int)
}

fn one_segment(s: &Segment, out: &mut Vec<Finding>)
    ensures
        finding_views(final(out)@) == added(
            added(added(finding_views(old(out)@), oversized(*s)), incongruent(*s)),
            write_and_run(*s),
        ),
{
    if s.filesz > s.memsz {
        let mut detail = "p_filesz ".to_string();
        detail.append(text::hex_text(s.filesz).as_str());
        detail.append(" exceeds p_memsz ");
        detail.append(text::hex_text(s.memsz).as_str());
        detail.append("; the loader cannot satisfy this");
        self::add(
            out,
            Finding {
                severity: Severity::Suspicious,
                title: "segment claims more file than memory",
                detail,
                span: None,
            },
        );
    }
    if s.filesz > 0 && s.offset % PAGE_SIZE != s.vaddr % PAGE_SIZE {
        let mut detail = "p_offset ".to_string();
        detail.append(text::hex_text(s.offset).as_str());
        detail.append(" and p_vaddr ");
        detail.append(text::hex_text(s.vaddr).as_str());
        detail.append(" differ mod ");
        detail.append(text::hex_text(PAGE_SIZE).as_str());
        self::add(
            out,
            Finding {
                severity: Severity::Suspicious,
                title: "segment offset and address are not page-congruent",
                detail,
                span: None,
            },
        );
    }
    let prot = Prot::from_flags(s.flags);
    if prot.write && prot.execute {
        let mut detail = text::hex_text(s.vaddr);
        detail.append("..");
        detail.append(text::hex_text(s.vaddr.saturating_add(s.memsz)).as_str());
        detail.append(" is mapped W+X; nothing a modern toolchain emits is");
        self::add(
            out,
            Finding {
                severity: Severity::Suspicious,
                title: "segment is writable and executable",
                detail,
                span: None,
            },
        );
    }
}

fn two_segments(a: &Segment, b: &Segment, out: &mut Vec<Finding>)
    ensures
        finding_views(final(out)@) == added(finding_views(old(out)@), colliding(*a, *b)),
{
    let a_end: u64 = a.vaddr.saturating_add(a.memsz);
    let b_end: u64 = b.vaddr.saturating_add(b.memsz);
    if a.vaddr < b_end && b.vaddr < a_end {
        let mut detail = text::hex_text(a.vaddr);
        detail.append("..");
        detail.append(text::hex_text(a_end).as_str());
        detail.append(" overlaps ");
        detail.append(text::hex_text(b.vaddr).as_str());
        detail.append("..");
        detail.append(text::hex_text(b_end).as_str());
        detail.append("; the later mapping wins and the earlier one is partly unreachable");
        self::add(
            out,
            Finding {
                severity: Severity::Suspicious,
                title: "two PT_LOAD segments overlap in memory",
                detail,
                span: None,
            },
        );
    }
}

fn segments(segs: &Vec<Segment>, out: &mut Vec<Finding>)
    ensures
        finding_views(final(out)@) == segment_findings(finding_views(old(out)@), segs@),
{
    let ghost start = finding_views(out@);
    let mut loads: Vec<Segment> = Vec::new();
    let mut i: usize = 0;
    while i < segs.len()
        invariant
            i <= segs@.len(),
            loads@ == loads_in(segs@, i as int),
        decreases segs.len() - i,
    {
        if segs[i].p_type == PT_LOAD {
            loads.push(segs[i]);
        }
        i += 1;
    }
    let mut k: usize = 0;
    while k < loads.len()
        invariant
            k <= loads@.len(),
            finding_views(out@) == each_segment(start, loads@, k as int),
        decreases loads.len() - k,
    {
        one_segment(&loads[k], out);
        k += 1;
    }
    let ghost each = finding_views(out@);
    let mut a: usize = 0;
    while a < loads.len()
        invariant
            a <= loads@.len(),
            finding_views(out@) == segment_pairs(each, loads@, a as int),
        decreases loads.len() - a,
    {
        let ghost before = finding_views(out@);
        let mut b: usize = a + 1;
        while b < loads.len()
            invariant
                a < b <= loads@.len(),
                finding_views(out@) == later_segments(before, loads@, a as int, b as int),
            decreases loads.len() - b,
        {
            two_segments(&loads[a], &loads[b], out);
            b += 1;
        }
        a += 1;
    }
}

// Entry point, relocations, section headers.

/// The first mapping, from `i` on, that holds the address.
pub open spec fn mapping_at(maps: Seq<Mapping>, va: u64, i: int) -> Option<Mapping>
    decreases maps.len() - i,
{
    if i < 0 || i >= maps.len() {
        None
    } else if maps[i].has(va) {
        Some(maps[i])
    } else {
        mapping_at(maps, va, i + 1)
    }
}

/// Where the program starts.
pub open spec fn entry_finding(entry: u64, maps: Seq<Mapping>) -> Option<FindingView> {
    if entry == 0 {
        None
    } else {
        match mapping_at(maps, entry, 0) {
            None => Some(
                FindingView {
                    severity: Severity::Suspicious,
                    title: "entry point is not in any mapping"@,
                    detail: "e_entry "@ + text::hex(entry as int)
                        + " lies outside every PT_LOAD"@,
                    span: None,
                },
            ),
            Some(m) => if m.prot.execute {
                None
            } else {
                Some(
                    FindingView {
                        severity: Severity::Suspicious,
                        title: "entry point is not executable"@,
                        detail: "e_entry "@ + text::hex(entry as int) + " lands in a "@
                            + m.prot.spec_str()@ + " mapping"@,
                        span: None,
                    },
                )
            },
        }
    }
}

/// The addresses that the first `n` relocations write where nothing may be written.
pub open spec fn unwritable(relocs: Seq<RelocView>, maps: Seq<Mapping>, n: int) -> Seq<u64>
    decreases n,
{
    if n <= 0 {
        Seq::empty()
    } else {
        let before = unwritable(relocs, maps, n - 1);
        let at = relocs[n - 1].offset;
        let writable = match mapping_at(maps, at, 0) {
            Some(m) => m.prot.write,
            None => false,
        };
        if writable {
            before
        } else {
            before.push(at)
        }
    }
}

/// Relocations that write into memory the loader will not make writable.
pub open spec fn textrel_finding(relocs: Seq<RelocView>, maps: Seq<Mapping>) -> Option<
    FindingView,
> {
    let at = unwritable(relocs, maps, relocs.len() as int);
    if at.len() == 0 {
        None
    } else {
        Some(
            FindingView {
                severity: Severity::Odd,
                title: "relocations target non-writable memory"@,
                detail: text::dec(at.len() as int) + " relocation(s), first at "@ + text::hex(
                    at[0] as int,
                ) + " — the loader must unprotect the page to apply them"@,
                span: None,
            },
        )
    }
}

/// A file that does not describe itself.
pub open spec fn sectionless(shnum: u64) -> Option<FindingView> {
    if shnum == 0 {
        Some(
            FindingView {
                severity: Severity::Odd,
                title: "no section headers"@,
                detail: "the file is loadable but describes none of itself; packers and hand-built binaries look like this"@,
                span: None,
            },
        )
    } else {
        None
    }
}

fn find_mapping(maps: &[Mapping], va: u64) -> (r: Option<Mapping>)
    ensures
        r == mapping_at(maps@, va, 0),
{
    let mut i: usize = 0;
    while i < maps.len()
        invariant
            i <= maps@.len(),
            mapping_at(maps@, va, 0) == mapping_at(maps@, va, i as int),
        decreases maps.len() - i,
    {
        let m = maps[i];
        if va >= m.vaddr && va < m.end() {
            return Some(m);
        }
        i += 1;
    }
    None
}

fn entry_point(entry: u64, image: &MemImage, out: &mut Vec<Finding>)
    ensures
        finding_views(final(out)@) == added(
            finding_views(old(out)@),
            entry_finding(entry, image.maps()),
        ),
{
    if entry == 0 {
        return;
    }
    let mut detail = "e_entry ".to_string();
    detail.append(text::hex_text(entry).as_str());
    match find_mapping(image.mappings(), entry) {
        None => {
            detail.append(" lies outside every PT_LOAD");
            self::add(
                out,
                Finding {
                    severity: Severity::Suspicious,
                    title: "entry point is not in any mapping",
                    detail,
                    span: None,
                },
            );
        },
        Some(m) => {
            if !m.prot.execute {
                detail.append(" lands in a ");
                detail.append(m.prot.as_str());
                detail.append(" mapping");
                self::add(
                    out,
                    Finding {
                        severity: Severity::Suspicious,
                        title: "entry point is not executable",
                        detail,
                        span: None,
                    },
                );
            }
        },
    }
}

/// Relocations that write into memory the loader will not make writable.
///
/// This is `DT_TEXTREL` observed rather than declared: if a relocation targets a segment
/// with no write bit, the loader has to make the page writable to apply it, which means
/// code pages that are briefly modifiable. Position-dependent shared objects do it;
/// almost nothing else should.
fn writable_code(relocs: &Vec<Reloc>, image: &MemImage, out: &mut Vec<Finding>)
    ensures
        finding_views(final(out)@) == added(
            finding_views(old(out)@),
            textrel_finding(crate::parse::reloc_views(relocs@), image.maps()),
        ),
{
    let ghost views = crate::parse::reloc_views(relocs@);
    let mut count: usize = 0;
    let mut first: u64 = 0;
    let mut i: usize = 0;
    while i < relocs.len()
        invariant
            count <= i <= relocs@.len(),
            views == crate::parse::reloc_views(relocs@),
            count == unwritable(views, image.maps(), i as int).len(),
            count > 0 ==> first == unwritable(views, image.maps(), i as int)[0],
        decreases relocs.len() - i,
    {
        assert(views[i as int] == relocs@[i as int]@);
        let at: u64 = relocs[i].offset;
        let writable = match find_mapping(image.mappings(), at) {
            Some(m) => m.prot.write,
            None => false,
        };
        if !writable {
            if count == 0 {
                first = at;
            }
            count += 1;
        }
        i += 1;
    }
    if count > 0 {
        let mut detail = text::dec_text(count as u64);
        detail.append(" relocation(s), first at ");
        detail.append(text::hex_text(first).as_str());
        detail.append(" — the loader must unprotect the page to apply them");
        self::add(
            out,
            Finding {
                severity: Severity::Odd,
                title: "relocations target non-writable memory",
                detail,
                span: None,
            },
        );
    }
}

fn section_headers(shnum: u64, out: &mut Vec<Finding>)
    ensures
        finding_views(final(out)@) == added(finding_views(old(out)@), sectionless(shnum)),
{
    if shnum == 0 {
        self::add(
            out,
            Finding {
                severity: Severity::Odd,
                title: "no section headers",
                detail: "the file is loadable but describes none of itself; packers and hand-built binaries look like this".to_string(),
                span: None,
            },
        );
    }
}

// All of it.

/// The findings of one severity among the first `n`, in order.
pub open spec fn of_severity(s: Seq<FindingView>, severity: Severity, n: int) -> Seq<FindingView>
    decreases n,
{
    if n <= 0 {
        Seq::empty()
    } else if s[n - 1].severity == severity {
        of_severity(s, severity, n - 1).push(s[n - 1])
    } else {
        of_severity(s, severity, n - 1)
    }
}

/// The findings, worst first, in their order within a severity.
pub open spec fn ranked(s: Seq<FindingView>) -> Seq<FindingView> {
    let n = s.len() as int;
    of_severity(s, Severity::Suspicious, n) + of_severity(s, Severity::Odd, n) + of_severity(
        s,
        Severity::Note,
        n,
    )
}

/// What every check has to say, in the order of the checks.
pub open spec fn findings_of(
    parsed: Parsed,
    maps: Seq<Mapping>,
    bytes: Seq<u8>,
    readings: Seq<Reading>,
) -> Seq<FindingView> {
    let files = parsed.coverage@.files;
    let facts = parsed.summary@;
    let a = region_findings(
        regions_of(parsed.coverage),
        coverage::total_len(files, files.len() as int),
        bytes,
        readings,
        readings.len() as int,
    );
    let b = segment_findings(a, facts.segments);
    let c = added(b, entry_finding(facts.entry, maps));
    let d = added(c, textrel_finding(facts.relocs, maps));
    added(d, sectionless(facts.shnum))
}

fn push_severity(found: &Vec<Finding>, severity: Severity, out: &mut Vec<Finding>)
    ensures
        finding_views(final(out)@) == finding_views(old(out)@) + of_severity(
            finding_views(found@),
            severity,
            found@.len() as int,
        ),
{
    let ghost all = finding_views(found@);
    let ghost start = finding_views(out@);
    assert(start + Seq::<FindingView>::empty() =~= start);
    let mut i: usize = 0;
    while i < found.len()
        invariant
            i <= found@.len(),
            all == finding_views(found@),
            finding_views(out@) == start + of_severity(all, severity, i as int),
        decreases found.len() - i,
    {
        let f = &found[i];
        assert(all[i as int] == f@);
        if f.severity == severity {
            let copy = Finding {
                severity: f.severity,
                title: f.title,
                detail: f.detail.clone(),
                span: f.span,
            };
            assert(copy@ == f@);
            self::add(out, copy);
            assert((start + of_severity(all, severity, i as int)).push(f@) =~= start + of_severity(
                all,
                severity,
                i + 1,
            ));
        }
        i += 1;
    }
}

/// Run every check. `readings` holds what was measured of each of [`regions`], in order.
#[must_use]
pub fn audit(parsed: &Parsed, image: &MemImage, bytes: &[u8], readings: &[Reading]) -> (r: Vec<
    Finding,
>)
    requires
        parsed.coverage.wf(),
        readings@.len() == regions_of(parsed.coverage).len(),
    ensures
        finding_views(r@) == ranked(findings_of(*parsed, image.maps(), bytes@, readings@)),
{
    let mut found = unexplained(parsed, bytes, readings);
    segments(&parsed.summary.segments, &mut found);
    entry_point(parsed.summary.entry, image, &mut found);
    writable_code(&parsed.summary.relocs, image, &mut found);
    section_headers(parsed.summary.shnum, &mut found);
    let mut out: Vec<Finding> = Vec::new();
    assert(finding_views(out@) =~= Seq::empty());
    push_severity(&found, Severity::Suspicious, &mut out);
    push_severity(&found, Severity::Odd, &mut out);
    push_severity(&found, Severity::Note, &mut out);
    proof {
        let s = finding_views(found@);
        assert(finding_views(out@) =~= ranked(s));
    }
    out
}

// Laws.

/// Thousands separators only separate: the digits are those of the number.
pub proof fn law_commas_keep_the_digits(d: Seq<char>)
    requires
        forall|i: int| 0 <= i < d.len() ==> #[trigger] d[i] != ',',
    ensures
        grouped(d).filter(|c: char| c != ',') == d,
    decreases d.len(),
{
    reveal_strlit(",");
    let keep = |c: char| c != ',';
    if d.len() <= 3 {
        lemma_keeps_all(d);
    } else {
        let head = d.take(d.len() - 3);
        let rest = d.skip(d.len() - 3);
        law_commas_keep_the_digits(head);
        lemma_keeps_all(rest);
        let comma = ","@;
        assert(comma =~= seq![',']);
        assert(comma.filter(keep) =~= Seq::<char>::empty()) by {
            reveal(Seq::filter);
            reveal_with_fuel(Seq::filter, 2);
        }
        Seq::filter_distributes_over_add(grouped(head), comma, keep);
        Seq::filter_distributes_over_add(grouped(head) + comma, rest, keep);
        assert(head + rest =~= d);
        assert(head + Seq::<char>::empty() =~= head);
    }
}

proof fn lemma_keeps_all(d: Seq<char>)
    requires
        forall|i: int| 0 <= i < d.len() ==> #[trigger] d[i] != ',',
    ensures
        d.filter(|c: char| c != ',') == d,
    decreases d.len(),
{
    reveal(Seq::filter);
    if d.len() > 0 {
        lemma_keeps_all(d.drop_last());
        assert(d.drop_last().push(d.last()) =~= d);
    } else {
        assert(d.filter(|c: char| c != ',') =~= d);
    }
}

proof fn lemma_of_severity(s: Seq<FindingView>, severity: Severity, n: int)
    requires
        0 <= n <= s.len(),
    ensures
        forall|i: int|
            0 <= i < of_severity(s, severity, n).len() ==> (#[trigger] of_severity(
                s,
                severity,
                n,
            )[i]).severity == severity,
    decreases n,
{
    if n > 0 {
        lemma_of_severity(s, severity, n - 1);
    }
}

/// An audit reports the worst first.
pub proof fn law_the_worst_come_first(s: Seq<FindingView>, i: int, j: int)
    requires
        0 <= i < j < ranked(s).len(),
    ensures
        ranked(s)[i].severity.rank() >= ranked(s)[j].severity.rank(),
{
    let n = s.len() as int;
    lemma_of_severity(s, Severity::Suspicious, n);
    lemma_of_severity(s, Severity::Odd, n);
    lemma_of_severity(s, Severity::Note, n);
    let a = of_severity(s, Severity::Suspicious, n);
    let b = of_severity(s, Severity::Odd, n);
    let c = of_severity(s, Severity::Note, n);
    let r = ranked(s);
    assert forall|k: int| 0 <= k < r.len() implies #[trigger] r[k].severity.rank() == (if k
        < a.len() {
        2int
    } else if k < a.len() + b.len() {
        1
    } else {
        0
    }) by {
        if k < a.len() {
            assert(r[k] == a[k]);
        } else if k < a.len() + b.len() {
            assert(r[k] == b[k - a.len()]);
        } else {
            assert(r[k] == c[k - a.len() - b.len()]);
        }
    }
}

/// Ranking drops no finding and invents none.
pub proof fn law_ranking_keeps_every_finding(s: Seq<FindingView>)
    ensures
        ranked(s).to_multiset() == s.to_multiset(),
{
    broadcast use {
        vstd::seq_lib::group_to_multiset_ensures,
        vstd::multiset::group_multiset_axioms,
    };

    let n = s.len() as int;
    lemma_partition(s, n);
    let a = of_severity(s, Severity::Suspicious, n);
    let b = of_severity(s, Severity::Odd, n);
    let c = of_severity(s, Severity::Note, n);
    vstd::seq_lib::lemma_multiset_commutative(a, b);
    vstd::seq_lib::lemma_multiset_commutative(a + b, c);
    assert(s.take(n) =~= s);
    assert(ranked(s) == a + b + c);
}

proof fn lemma_partition(s: Seq<FindingView>, n: int)
    requires
        0 <= n <= s.len(),
    ensures
        of_severity(s, Severity::Suspicious, n).to_multiset().add(
            of_severity(s, Severity::Odd, n).to_multiset(),
        ).add(of_severity(s, Severity::Note, n).to_multiset()) == s.take(n).to_multiset(),
    decreases n,
{
    broadcast use {
        vstd::seq_lib::group_to_multiset_ensures,
        vstd::multiset::group_multiset_axioms,
    };

    let a = of_severity(s, Severity::Suspicious, n).to_multiset();
    let b = of_severity(s, Severity::Odd, n).to_multiset();
    let c = of_severity(s, Severity::Note, n).to_multiset();
    if n > 0 {
        lemma_partition(s, n - 1);
        assert(s.take(n) =~= s.take(n - 1).push(s[n - 1]));
        assert(a.add(b).add(c) =~= s.take(n).to_multiset());
    } else {
        assert(s.take(0) =~= Seq::<FindingView>::empty());
        assert(a.add(b).add(c) =~= s.take(n).to_multiset());
    }
}

// When each finding is made.

/// The finding has this severity and this title.
pub open spec fn heads(f: FindingView, title: (Severity, Seq<char>)) -> bool {
    f.severity == title.0 && f.title == title.1
}

/// There is a finding with this severity and this title.
pub open spec fn reported(s: Seq<FindingView>, title: (Severity, Seq<char>)) -> bool {
    exists|i: int| 0 <= i < s.len() && heads(#[trigger] s[i], title)
}

/// No two checks use the same title.
proof fn lemma_titles()
    ensures
        ({
            let t = seq![
                "data appended past the last structure"@,
                "high-entropy region belongs to nothing"@,
                "segment claims more file than memory"@,
                "segment offset and address are not page-congruent"@,
                "segment is writable and executable"@,
                "two PT_LOAD segments overlap in memory"@,
                "entry point is not in any mapping"@,
                "entry point is not executable"@,
                "relocations target non-writable memory"@,
                "no section headers"@,
            ];
            forall|i: int, j: int|
                #![trigger t[i], t[j]]
                0 <= i < j < 10 ==> t[i] != t[j]
        }),
{
    reveal_strlit("data appended past the last structure");
    reveal_strlit("high-entropy region belongs to nothing");
    reveal_strlit("segment claims more file than memory");
    reveal_strlit("segment offset and address are not page-congruent");
    reveal_strlit("segment is writable and executable");
    reveal_strlit("two PT_LOAD segments overlap in memory");
    reveal_strlit("entry point is not in any mapping");
    reveal_strlit("entry point is not executable");
    reveal_strlit("relocations target non-writable memory");
    reveal_strlit("no section headers");
    let t = seq![
        "data appended past the last structure"@,
        "high-entropy region belongs to nothing"@,
        "segment claims more file than memory"@,
        "segment offset and address are not page-congruent"@,
        "segment is writable and executable"@,
        "two PT_LOAD segments overlap in memory"@,
        "entry point is not in any mapping"@,
        "entry point is not executable"@,
        "relocations target non-writable memory"@,
        "no section headers"@,
    ];
    assert forall|i: int, j: int|
        #![trigger t[i], t[j]]
        0 <= i < j < 10 implies t[i] != t[j] by {
        assert(t[i].len() != t[j].len() || t[i][0] != t[j][0] || t[i][1] != t[j][1] || t[i][16]
            != t[j][16]);
    }
}

proof fn lemma_added(s: Seq<FindingView>, f: Option<FindingView>, title: (Severity, Seq<char>))
    ensures
        reported(added(s, f), title) <==> reported(s, title) || (f matches Some(x) && heads(x, title)),
{
    let r = added(s, f);
    if reported(s, title) {
        let i = choose|i: int| 0 <= i < s.len() && heads(#[trigger] s[i], title);
        assert(heads(r[i], title));
    }
    if f is Some {
        assert(r[s.len() as int] == f->0);
        if reported(r, title) && !heads(f->0, title) {
            let i = choose|i: int| 0 <= i < r.len() && heads(#[trigger] r[i], title);
            assert(heads(s[i], title));
        }
    }
}

/// Ranking keeps what is reported.
proof fn lemma_ranked_reports(s: Seq<FindingView>, title: (Severity, Seq<char>))
    ensures
        reported(ranked(s), title) <==> reported(s, title),
{
    broadcast use vstd::seq_lib::group_to_multiset_ensures;

    law_ranking_keeps_every_finding(s);
    let r = ranked(s);
    if reported(s, title) {
        let i = choose|i: int| 0 <= i < s.len() && heads(#[trigger] s[i], title);
        assert(s.contains(s[i]));
        assert(r.to_multiset().count(s[i]) > 0);
        assert(r.contains(s[i]));
        let j = choose|j: int| 0 <= j < r.len() && r[j] == s[i];
        assert(heads(r[j], title));
    }
    if reported(r, title) {
        let i = choose|i: int| 0 <= i < r.len() && heads(#[trigger] r[i], title);
        assert(r.contains(r[i]));
        assert(s.to_multiset().count(r[i]) > 0);
        assert(s.contains(r[i]));
        let j = choose|j: int| 0 <= j < s.len() && s[j] == r[i];
        assert(heads(s[j], title));
    }
}

/// Mapping `k` is the first to hold the address.
pub open spec fn first_to_hold(maps: Seq<Mapping>, va: u64, k: int) -> bool {
    &&& 0 <= k < maps.len()
    &&& maps[k].vaddr <= va < maps[k].spec_end()
    &&& forall|m: int|
        0 <= m < k ==> !((#[trigger] maps[m]).vaddr <= va && va < maps[m].spec_end())
}

/// The first mapping to hold the address lets it be written, whatever is behind it.
pub open spec fn writable_at(maps: Seq<Mapping>, va: u64) -> bool {
    exists|k: int| #[trigger] first_to_hold(maps, va, k) && maps[k].prot.write
}

proof fn lemma_mapping_at(maps: Seq<Mapping>, va: u64, i: int)
    requires
        0 <= i <= maps.len(),
        forall|m: int| 0 <= m < i ==> !(#[trigger] maps[m]).has(va),
    ensures
        match mapping_at(maps, va, i) {
            Some(x) => exists|k: int| #[trigger] first_to_hold(maps, va, k) && maps[k] == x,
            None => forall|k: int| !#[trigger] first_to_hold(maps, va, k),
        },
    decreases maps.len() - i,
{
    if i < maps.len() {
        if maps[i].has(va) {
            assert(first_to_hold(maps, va, i));
        } else {
            lemma_mapping_at(maps, va, i + 1);
        }
    } else {
        assert forall|k: int| !#[trigger] first_to_hold(maps, va, k) by {
            if 0 <= k < maps.len() {
                assert(!maps[k].has(va));
            }
        }
    }
}

proof fn lemma_one_first(maps: Seq<Mapping>, va: u64, a: int, b: int)
    requires
        first_to_hold(maps, va, a),
        first_to_hold(maps, va, b),
    ensures
        a == b,
{
    if a < b {
        assert(!(maps[a].vaddr <= va && va < maps[a].spec_end()));
    }
    if b < a {
        assert(!(maps[b].vaddr <= va && va < maps[b].spec_end()));
    }
}

/// How many of the first `n` relocations write where the first mapping does not allow it.
pub open spec fn misplaced(relocs: Seq<RelocView>, maps: Seq<Mapping>, n: int) -> int
    decreases n,
{
    if n <= 0 {
        0
    } else {
        misplaced(relocs, maps, n - 1) + if writable_at(maps, relocs[n - 1].offset) {
            0int
        } else {
            1int
        }
    }
}

proof fn lemma_unwritable(relocs: Seq<RelocView>, maps: Seq<Mapping>, n: int)
    requires
        0 <= n <= relocs.len(),
    ensures
        unwritable(relocs, maps, n).len() == misplaced(relocs, maps, n),
        misplaced(relocs, maps, n) > 0 <==> exists|i: int|
            0 <= i < n && !writable_at(maps, (#[trigger] relocs[i]).offset),
    decreases n,
{
    if n > 0 {
        lemma_unwritable(relocs, maps, n - 1);
        let at = relocs[n - 1].offset;
        lemma_mapping_at(maps, at, 0);
        match mapping_at(maps, at, 0) {
            Some(x) => {
                let k = choose|k: int| #[trigger] first_to_hold(maps, at, k) && maps[k] == x;
                if writable_at(maps, at) {
                    let j = choose|j: int|
                        #[trigger] first_to_hold(maps, at, j) && maps[j].prot.write;
                    lemma_one_first(maps, at, k, j);
                }
            },
            None => {},
        }
        if exists|i: int| 0 <= i < n - 1 && !writable_at(maps, (#[trigger] relocs[i]).offset) {
            let i = choose|i: int|
                0 <= i < n - 1 && !writable_at(maps, (#[trigger] relocs[i]).offset);
            assert(!writable_at(maps, relocs[i].offset));
        }
    }
}

/// A loadable segment of this index.
pub open spec fn loadable(segs: Seq<Segment>, i: int) -> bool {
    0 <= i < segs.len() && segs[i].p_type == 1
}

/// The segment may be written and run: the two lowest of its flag bits are set.
pub open spec fn writes_and_runs(s: Segment) -> bool {
    s.flags % 2 == 1 && s.flags / 2 % 2 == 1
}

/// Where the segment ends in memory, or where the address space does.
pub open spec fn memory_end(s: Segment) -> int {
    if s.vaddr + s.memsz > u64::MAX {
        u64::MAX as int
    } else {
        s.vaddr + s.memsz
    }
}

/// Two segments share an address.
pub open spec fn collide(a: Segment, b: Segment) -> bool {
    a.vaddr < memory_end(b) && b.vaddr < memory_end(a)
}

/// The segment at `j` of the loadable ones is the one at `i` of all.
spec fn stands_for(segs: Seq<Segment>, n: int, j: int, i: int) -> bool {
    &&& 0 <= i < n
    &&& loadable(segs, i)
    &&& loads_in(segs, n)[j] == segs[i]
    &&& loads_in(segs, i).len() == j
}

spec fn placed(segs: Seq<Segment>, n: int, j: int) -> bool {
    exists|i: int| #[trigger] stands_for(segs, n, j, i)
}

proof fn lemma_loads_in(segs: Seq<Segment>, n: int)
    requires
        0 <= n <= segs.len(),
    ensures
        forall|i: int|
            0 <= i < n && #[trigger] loadable(segs, i) ==> loads_in(segs, i).len() < loads_in(
                segs,
                n,
            ).len() && loads_in(segs, n)[loads_in(segs, i).len() as int] == segs[i],
        forall|j: int| 0 <= j < loads_in(segs, n).len() ==> #[trigger] placed(segs, n, j),
    decreases n,
{
    if n > 0 {
        lemma_loads_in(segs, n - 1);
        let before = loads_in(segs, n - 1);
        let all = loads_in(segs, n);
        assert forall|j: int| 0 <= j < all.len() implies #[trigger] placed(segs, n, j) by {
            if j < before.len() {
                assert(placed(segs, n - 1, j));
                let i = choose|i: int| #[trigger] stands_for(segs, n - 1, j, i);
                assert(stands_for(segs, n, j, i));
            } else {
                assert(stands_for(segs, n, j, n - 1));
            }
        }
    }
}

proof fn lemma_loads_ascend(segs: Seq<Segment>, a: int, b: int)
    requires
        0 <= a <= b <= segs.len(),
    ensures
        loads_in(segs, a).len() <= loads_in(segs, b).len(),
        a < b && loadable(segs, a) ==> loads_in(segs, a).len() < loads_in(segs, b).len(),
    decreases b,
{
    if a < b {
        lemma_loads_ascend(segs, a, b - 1);
    }
}

/// What one kind of finding says of single segments.
spec fn alone_says(s: Segment, title: (Severity, Seq<char>)) -> bool {
    ||| s.filesz > s.memsz && title == (Severity::Suspicious, "segment claims more file than memory"@)
    ||| s.filesz > 0 && s.offset % 4096 != s.vaddr % 4096 && title
        == (Severity::Suspicious, "segment offset and address are not page-congruent"@)
    ||| writes_and_runs(s) && title == (Severity::Suspicious, "segment is writable and executable"@)
}

proof fn lemma_each_segment(
    s: Seq<FindingView>,
    loads: Seq<Segment>,
    n: int,
    title: (Severity, Seq<char>),
)
    requires
        0 <= n <= loads.len(),
    ensures
        reported(each_segment(s, loads, n), title) <==> reported(s, title) || exists|j: int|
            0 <= j < n && alone_says(#[trigger] loads[j], title),
    decreases n,
{
    if n > 0 {
        lemma_each_segment(s, loads, n - 1, title);
        let seg = loads[n - 1];
        let a = each_segment(s, loads, n - 1);
        let b = added(a, oversized(seg));
        let c = added(b, incongruent(seg));
        lemma_added(a, oversized(seg), title);
        lemma_added(b, incongruent(seg), title);
        lemma_added(c, write_and_run(seg), title);
        crate::model::law_flag_bits_are_protections(seg.flags);
        if exists|j: int| 0 <= j < n - 1 && alone_says(#[trigger] loads[j], title) {
            let j = choose|j: int| 0 <= j < n - 1 && alone_says(#[trigger] loads[j], title);
            assert(alone_says(loads[j], title));
        }
    }
}

proof fn lemma_later_segments(
    s: Seq<FindingView>,
    loads: Seq<Segment>,
    i: int,
    n: int,
    title: (Severity, Seq<char>),
)
    requires
        0 <= i < loads.len(),
        0 <= n <= loads.len(),
    ensures
        reported(later_segments(s, loads, i, n), title) <==> reported(s, title) || (title
            == (Severity::Suspicious, "two PT_LOAD segments overlap in memory"@) && exists|j: int|
            i < j < n && collide(loads[i], #[trigger] loads[j])),
    decreases n,
{
    if n > i + 1 {
        lemma_later_segments(s, loads, i, n - 1, title);
        lemma_added(
            later_segments(s, loads, i, n - 1),
            colliding(loads[i], loads[n - 1]),
            title,
        );
        if exists|j: int| i < j < n - 1 && collide(loads[i], #[trigger] loads[j]) {
            let j = choose|j: int| i < j < n - 1 && collide(loads[i], #[trigger] loads[j]);
            assert(collide(loads[i], loads[j]));
        }
    }
}

/// Some of the first `n` segments shares an address with a later one.
spec fn some_collide(loads: Seq<Segment>, n: int) -> bool {
    exists|i: int, j: int|
        0 <= i < n && i < j < loads.len() && collide(#[trigger] loads[i], #[trigger] loads[j])
}

proof fn lemma_segment_pairs(s: Seq<FindingView>, loads: Seq<Segment>, n: int, title: (Severity, Seq<char>))
    requires
        0 <= n <= loads.len(),
    ensures
        reported(segment_pairs(s, loads, n), title) <==> reported(s, title) || (title
            == (Severity::Suspicious, "two PT_LOAD segments overlap in memory"@) && some_collide(loads, n)),
    decreases n,
{
    if n > 0 {
        lemma_segment_pairs(s, loads, n - 1, title);
        lemma_later_segments(
            segment_pairs(s, loads, n - 1),
            loads,
            n - 1,
            loads.len() as int,
            title,
        );
        if some_collide(loads, n - 1) {
            let (i, j) = choose|i: int, j: int|
                0 <= i < n - 1 && i < j < loads.len() && collide(
                    #[trigger] loads[i],
                    #[trigger] loads[j],
                );
            assert(collide(loads[i], loads[j]));
        }
        if exists|j: int| n - 1 < j < loads.len() && collide(loads[n - 1], #[trigger] loads[j]) {
            let j = choose|j: int|
                n - 1 < j < loads.len() && collide(loads[n - 1], #[trigger] loads[j]);
            assert(collide(loads[n - 1], loads[j]));
        }
    }
}

/// What one kind of finding says of a region.
spec fn region_says(region: Span, total: u64, high: bool, title: (Severity, Seq<char>)) -> bool {
    region.len >= 1024 && ((region.spec_end() >= total && title
        == (Severity::Suspicious, "data appended past the last structure"@)) || (region.spec_end() < total && high
        && title == (Severity::Odd, "high-entropy region belongs to nothing"@)))
}

proof fn lemma_region_findings(
    regions: Seq<Span>,
    total: u64,
    bytes: Seq<u8>,
    readings: Seq<Reading>,
    n: int,
    title: (Severity, Seq<char>),
)
    requires
        0 <= n <= regions.len(),
    ensures
        reported(region_findings(regions, total, bytes, readings, n), title) <==> exists|k: int|
            0 <= k < n && region_says(
                #[trigger] regions[k],
                total,
                readings[k].high,
                title,
            ),
    decreases n,
{
    if n > 0 {
        lemma_region_findings(regions, total, bytes, readings, n - 1, title);
        lemma_added(
            region_findings(regions, total, bytes, readings, n - 1),
            region_finding(
                regions[n - 1],
                total,
                within(bytes, regions[n - 1]),
                readings[n - 1].entropy@,
                readings[n - 1].high,
            ),
            title,
        );
        if exists|k: int|
            0 <= k < n - 1 && region_says(#[trigger] regions[k], total, readings[k].high, title) {
            let k = choose|k: int|
                0 <= k < n - 1 && region_says(
                    #[trigger] regions[k],
                    total,
                    readings[k].high,
                    title,
                );
            assert(region_says(regions[k], total, readings[k].high, title));
        }
    }
}

/// What each check says, all of them together.
proof fn lemma_findings(
    parsed: Parsed,
    maps: Seq<Mapping>,
    bytes: Seq<u8>,
    readings: Seq<Reading>,
    title: (Severity, Seq<char>),
)
    requires
        readings.len() == regions_of(parsed.coverage).len(),
    ensures
        ({
            let files = parsed.coverage@.files;
            let f = parsed.summary@;
            let loads = loads_in(f.segments, f.segments.len() as int);
            let total = coverage::total_len(files, files.len() as int);
            let regions = regions_of(parsed.coverage);
            reported(ranked(findings_of(parsed, maps, bytes, readings)), title) <==> {
                ||| exists|k: int|
                    0 <= k < regions.len() && region_says(
                        #[trigger] regions[k],
                        total,
                        readings[k].high,
                        title,
                    )
                ||| exists|j: int| 0 <= j < loads.len() && alone_says(#[trigger] loads[j], title)
                ||| title == (Severity::Suspicious, "two PT_LOAD segments overlap in memory"@) && some_collide(
                    loads,
                    loads.len() as int,
                )
                ||| entry_finding(f.entry, maps) matches Some(x) && heads(x, title)
                ||| textrel_finding(f.relocs, maps) matches Some(x) && heads(x, title)
                ||| sectionless(f.shnum) matches Some(x) && heads(x, title)
            }
        }),
{
    let files = parsed.coverage@.files;
    let f = parsed.summary@;
    let loads = loads_in(f.segments, f.segments.len() as int);
    let n = loads.len() as int;
    let total = coverage::total_len(files, files.len() as int);
    let regions = regions_of(parsed.coverage);
    let a = region_findings(regions, total, bytes, readings, readings.len() as int);
    let b = segment_findings(a, f.segments);
    let c = added(b, entry_finding(f.entry, maps));
    let d = added(c, textrel_finding(f.relocs, maps));
    lemma_ranked_reports(findings_of(parsed, maps, bytes, readings), title);
    lemma_region_findings(regions, total, bytes, readings, readings.len() as int, title);
    lemma_each_segment(a, loads, n, title);
    lemma_segment_pairs(each_segment(a, loads, n), loads, n, title);
    lemma_added(b, entry_finding(f.entry, maps), title);
    lemma_added(c, textrel_finding(f.relocs, maps), title);
    lemma_added(d, sectionless(f.shnum), title);
}

/// The titles, as a list.
proof fn lemma_title(i: int, j: int)
    requires
        0 <= i < 10,
        0 <= j < 10,
        i != j,
    ensures
        title(i) != title(j),
{
    lemma_titles();
    let t = seq![
        "data appended past the last structure"@,
        "high-entropy region belongs to nothing"@,
        "segment claims more file than memory"@,
        "segment offset and address are not page-congruent"@,
        "segment is writable and executable"@,
        "two PT_LOAD segments overlap in memory"@,
        "entry point is not in any mapping"@,
        "entry point is not executable"@,
        "relocations target non-writable memory"@,
        "no section headers"@,
    ];
    assert(t[i] == title(i).1 && t[j] == title(j).1);
    if i < j {
        assert(t[i] != t[j]);
    } else {
        assert(t[j] != t[i]);
    }
}

spec fn title(i: int) -> (Severity, Seq<char>) {
    if i == 0 {
        (Severity::Suspicious, "data appended past the last structure"@)
    } else if i == 1 {
        (Severity::Odd, "high-entropy region belongs to nothing"@)
    } else if i == 2 {
        (Severity::Suspicious, "segment claims more file than memory"@)
    } else if i == 3 {
        (Severity::Suspicious, "segment offset and address are not page-congruent"@)
    } else if i == 4 {
        (Severity::Suspicious, "segment is writable and executable"@)
    } else if i == 5 {
        (Severity::Suspicious, "two PT_LOAD segments overlap in memory"@)
    } else if i == 6 {
        (Severity::Suspicious, "entry point is not in any mapping"@)
    } else if i == 7 {
        (Severity::Suspicious, "entry point is not executable"@)
    } else if i == 8 {
        (Severity::Odd, "relocations target non-writable memory"@)
    } else {
        (Severity::Odd, "no section headers"@)
    }
}

proof fn lemma_titles_differ(i: int)
    requires
        0 <= i < 10,
    ensures
        forall|j: int| 0 <= j < 10 && j != i ==> #[trigger] title(j) != title(i),
{
    assert forall|j: int| 0 <= j < 10 && j != i implies #[trigger] title(j) != title(i) by {
        lemma_title(j, i);
    }
}

/// Relocations are found to target memory that may not be written exactly where the first
/// mapping that holds the address of one does not let it be written, or none holds it,
/// whatever the mapping is backed by; and the finding counts them.
pub proof fn law_relocations_must_be_writable(
    parsed: Parsed,
    maps: Seq<Mapping>,
    bytes: Seq<u8>,
    readings: Seq<Reading>,
)
    requires
        readings.len() == regions_of(parsed.coverage).len(),
    ensures
        ({
            let relocs = parsed.summary@.relocs;
            let n = relocs.len() as int;
            &&& reported(
                ranked(findings_of(parsed, maps, bytes, readings)),
                (Severity::Odd, "relocations target non-writable memory"@),
            ) <==> exists|i: int|
                0 <= i < n && !writable_at(maps, (#[trigger] relocs[i]).offset)
            &&& textrel_finding(relocs, maps) matches Some(x) ==> text::stands_at(
                x.detail,
                text::dec(misplaced(relocs, maps, n)) + " relocation(s)"@,
                0,
            )
        }),
{
    let relocs = parsed.summary@.relocs;
    let n = relocs.len() as int;
    lemma_findings(parsed, maps, bytes, readings, title(8));
    lemma_unwritable(relocs, maps, n);
    lemma_titles_differ(8);
    assert(title(0) != title(8) && title(1) != title(8) && title(2) != title(8) && title(3)
        != title(8) && title(4) != title(8) && title(5) != title(8) && title(6) != title(8)
        && title(7) != title(8) && title(9) != title(8));
    if let Some(x) = textrel_finding(relocs, maps) {
        let head = text::dec(misplaced(relocs, maps, n)) + " relocation(s)"@;
        reveal_strlit(" relocation(s)");
        reveal_strlit(" relocation(s), first at ");
        assert(x.detail.subrange(0, head.len() as int) =~= head);
    }
}

/// The entry point is reported exactly where it is set and no mapping holds it, or the first
/// that does may not be run.
pub proof fn law_the_entry_must_be_executable(
    parsed: Parsed,
    maps: Seq<Mapping>,
    bytes: Seq<u8>,
    readings: Seq<Reading>,
)
    requires
        readings.len() == regions_of(parsed.coverage).len(),
    ensures
        ({
            let r = ranked(findings_of(parsed, maps, bytes, readings));
            let entry = parsed.summary@.entry;
            &&& reported(r, (Severity::Suspicious, "entry point is not in any mapping"@)) <==> entry != 0 && forall|k: int|
                !#[trigger] first_to_hold(maps, entry, k)
            &&& reported(r, (Severity::Suspicious, "entry point is not executable"@)) <==> entry != 0 && exists|k: int|
                #[trigger] first_to_hold(maps, entry, k) && !maps[k].prot.execute
        }),
{
    let entry = parsed.summary@.entry;
    lemma_mapping_at(maps, entry, 0);
    lemma_findings(parsed, maps, bytes, readings, title(6));
    lemma_titles_differ(6);
    assert(title(0) != title(6) && title(1) != title(6) && title(2) != title(6) && title(3)
        != title(6) && title(4) != title(6) && title(5) != title(6) && title(8) != title(6)
        && title(7) != title(6) && title(9) != title(6));
    lemma_findings(parsed, maps, bytes, readings, title(7));
    lemma_titles_differ(7);
    assert(title(0) != title(7) && title(1) != title(7) && title(2) != title(7) && title(3)
        != title(7) && title(4) != title(7) && title(5) != title(7) && title(8) != title(7)
        && title(6) != title(7) && title(9) != title(7));
    if let Some(x) = mapping_at(maps, entry, 0) {
        let k = choose|k: int| #[trigger] first_to_hold(maps, entry, k) && maps[k] == x;
        assert forall|j: int| #[trigger] first_to_hold(maps, entry, j) implies j == k by {
            lemma_one_first(maps, entry, j, k);
        }
    }
}

/// A file is reported to have no section headers exactly where it says it has none.
pub proof fn law_missing_sections_are_reported(
    parsed: Parsed,
    maps: Seq<Mapping>,
    bytes: Seq<u8>,
    readings: Seq<Reading>,
)
    requires
        readings.len() == regions_of(parsed.coverage).len(),
    ensures
        reported(
            ranked(findings_of(parsed, maps, bytes, readings)),
            (Severity::Odd, "no section headers"@),
        ) <==> parsed.summary@.shnum == 0,
{
    lemma_findings(parsed, maps, bytes, readings, title(9));
    lemma_titles_differ(9);
    assert(title(0) != title(9) && title(1) != title(9) && title(2) != title(9) && title(3)
        != title(9) && title(4) != title(9) && title(5) != title(9) && title(8) != title(9)
        && title(6) != title(9) && title(7) != title(9));
}

/// What is said of one of the loadable segments is said of a segment that is loadable.
proof fn lemma_alone(segs: Seq<Segment>, t: (Severity, Seq<char>))
    ensures
        ({
            let loads = loads_in(segs, segs.len() as int);
            (exists|j: int| 0 <= j < loads.len() && alone_says(#[trigger] loads[j], t))
                <==> exists|i: int|
                #![trigger loadable(segs, i)]
                loadable(segs, i) && alone_says(segs[i], t)
        }),
{
    let n = segs.len() as int;
    let loads = loads_in(segs, n);
    lemma_loads_in(segs, n);
    if exists|j: int| 0 <= j < loads.len() && alone_says(#[trigger] loads[j], t) {
        let j = choose|j: int| 0 <= j < loads.len() && alone_says(#[trigger] loads[j], t);
        assert(placed(segs, n, j));
        let i = choose|i: int| #[trigger] stands_for(segs, n, j, i);
        assert(loadable(segs, i) && alone_says(segs[i], t));
    }
    if exists|i: int| #![trigger loadable(segs, i)] loadable(segs, i) && alone_says(segs[i], t) {
        let i = choose|i: int|
            #![trigger loadable(segs, i)]
            loadable(segs, i) && alone_says(segs[i], t);
        assert(alone_says(loads[loads_in(segs, i).len() as int], t));
    }
}

/// A segment is reported exactly where it is loadable and contradicts itself: more of the file
/// than of memory, a place in the file and one in memory that differ within the page, or
/// memory that may be both written and run.
pub proof fn law_contradictory_segments_are_reported(
    parsed: Parsed,
    maps: Seq<Mapping>,
    bytes: Seq<u8>,
    readings: Seq<Reading>,
)
    requires
        readings.len() == regions_of(parsed.coverage).len(),
    ensures
        ({
            let r = ranked(findings_of(parsed, maps, bytes, readings));
            let segs = parsed.summary@.segments;
            &&& reported(r, (Severity::Suspicious, "segment claims more file than memory"@)) <==> exists|i: int|
                #[trigger] loadable(segs, i) && segs[i].filesz > segs[i].memsz
            &&& reported(r, (Severity::Suspicious, "segment offset and address are not page-congruent"@)) <==> exists|
                i: int,
            |
                #[trigger] loadable(segs, i) && segs[i].filesz > 0 && segs[i].offset % 4096
                    != segs[i].vaddr % 4096
            &&& reported(r, (Severity::Suspicious, "segment is writable and executable"@)) <==> exists|i: int|
                #[trigger] loadable(segs, i) && writes_and_runs(segs[i])
            &&& reported(r, (Severity::Suspicious, "two PT_LOAD segments overlap in memory"@)) <==> exists|
                i: int,
                j: int,
            |
                i < j && #[trigger] loadable(segs, i) && #[trigger] loadable(segs, j) && collide(
                    segs[i],
                    segs[j],
                )
        }),
{
    let segs = parsed.summary@.segments;
    let n = segs.len() as int;
    let loads = loads_in(segs, n);
    lemma_loads_in(segs, n);
    lemma_alone(segs, title(2));
    lemma_alone(segs, title(3));
    lemma_alone(segs, title(4));
    lemma_segment_title(parsed, maps, bytes, readings, 2);
    lemma_segment_title(parsed, maps, bytes, readings, 3);
    lemma_segment_title(parsed, maps, bytes, readings, 4);
    lemma_segment_title(parsed, maps, bytes, readings, 5);
    lemma_titles_differ(2);
    lemma_titles_differ(3);
    lemma_titles_differ(4);
    assert(title(3) != title(2) && title(4) != title(2) && title(4) != title(3));
    assert forall|i: int| #[trigger] loadable(segs, i) && segs[i].filesz > segs[i].memsz implies
        alone_says(segs[i], title(2)) by {}
    assert forall|i: int|
        #[trigger] loadable(segs, i) && segs[i].filesz > 0 && segs[i].offset % 4096
            != segs[i].vaddr % 4096 implies alone_says(segs[i], title(3)) by {}
    assert forall|i: int| #[trigger] loadable(segs, i) && writes_and_runs(segs[i]) implies
        alone_says(segs[i], title(4)) by {}
    if some_collide(loads, loads.len() as int) {
        let (a, b) = choose|a: int, b: int|
            0 <= a < loads.len() && a < b < loads.len() && collide(
                #[trigger] loads[a],
                #[trigger] loads[b],
            );
        assert(placed(segs, n, a) && placed(segs, n, b));
        let i = choose|i: int| #[trigger] stands_for(segs, n, a, i);
        let j = choose|j: int| #[trigger] stands_for(segs, n, b, j);
        if j <= i {
            lemma_loads_ascend(segs, j, i);
        }
        assert(loadable(segs, i) && loadable(segs, j) && collide(segs[i], segs[j]));
    }
    if exists|i: int, j: int|
        i < j && #[trigger] loadable(segs, i) && #[trigger] loadable(segs, j) && collide(
            segs[i],
            segs[j],
        ) {
        let (i, j) = choose|i: int, j: int|
            i < j && #[trigger] loadable(segs, i) && #[trigger] loadable(segs, j) && collide(
                segs[i],
                segs[j],
            );
        lemma_loads_ascend(segs, i, j);
        let a = loads_in(segs, i).len() as int;
        let b = loads_in(segs, j).len() as int;
        assert(collide(loads[a], loads[b]));
    }
}

/// The findings on segments come from nowhere else.
proof fn lemma_segment_title(
    parsed: Parsed,
    maps: Seq<Mapping>,
    bytes: Seq<u8>,
    readings: Seq<Reading>,
    k: int,
)
    requires
        readings.len() == regions_of(parsed.coverage).len(),
        2 <= k <= 5,
    ensures
        ({
            let segs = parsed.summary@.segments;
            let loads = loads_in(segs, segs.len() as int);
            reported(ranked(findings_of(parsed, maps, bytes, readings)), title(k)) <==> {
                ||| k != 5 && exists|j: int|
                    0 <= j < loads.len() && alone_says(#[trigger] loads[j], title(k))
                ||| k == 5 && some_collide(loads, loads.len() as int)
            }
        }),
{
    lemma_findings(parsed, maps, bytes, readings, title(k));
    lemma_titles_differ(k);
    assert(title(0) != title(k) && title(1) != title(k) && title(6) != title(k) && title(7)
        != title(k) && title(8) != title(k) && title(9) != title(k));
    if k == 5 {
        assert(title(2) != title(k) && title(3) != title(k) && title(4) != title(k));
    } else {
        assert(title(5) != title(k));
    }
}

/// A region that no structure explains is reported exactly where it has a kilobyte or more and
/// either reaches the end of the file, or was measured to look like noise.
pub proof fn law_unexplained_regions_are_reported(
    parsed: Parsed,
    maps: Seq<Mapping>,
    bytes: Seq<u8>,
    readings: Seq<Reading>,
)
    requires
        readings.len() == regions_of(parsed.coverage).len(),
    ensures
        ({
            let r = ranked(findings_of(parsed, maps, bytes, readings));
            let files = parsed.coverage@.files;
            let total = coverage::total_len(files, files.len() as int);
            let g = regions_of(parsed.coverage);
            &&& reported(r, (Severity::Suspicious, "data appended past the last structure"@)) <==> exists|k: int|
                0 <= k < g.len() && (#[trigger] g[k]).len >= 1024 && g[k].spec_end() >= total
            &&& reported(r, (Severity::Odd, "high-entropy region belongs to nothing"@)) <==> exists|k: int|
                0 <= k < g.len() && (#[trigger] g[k]).len >= 1024 && g[k].spec_end() < total
                    && readings[k].high
        }),
{
    let g = regions_of(parsed.coverage);
    let files = parsed.coverage@.files;
    let total = coverage::total_len(files, files.len() as int);
    lemma_findings(parsed, maps, bytes, readings, title(0));
    lemma_titles_differ(0);
    assert(title(1) != title(0) && title(2) != title(0) && title(3) != title(0) && title(4)
        != title(0) && title(5) != title(0) && title(6) != title(0) && title(7) != title(0)
        && title(8) != title(0) && title(9) != title(0));
    lemma_findings(parsed, maps, bytes, readings, title(1));
    lemma_titles_differ(1);
    assert(title(0) != title(1) && title(2) != title(1) && title(3) != title(1) && title(4)
        != title(1) && title(5) != title(1) && title(6) != title(1) && title(7) != title(1)
        && title(8) != title(1) && title(9) != title(1));
    assert forall|k: int|
        0 <= k < g.len() && (#[trigger] g[k]).len >= 1024 && g[k].spec_end() >= total implies
        region_says(g[k], total, readings[k].high, title(0)) by {}
    assert forall|k: int|
        0 <= k < g.len() && (#[trigger] g[k]).len >= 1024 && g[k].spec_end() < total
            && readings[k].high implies region_says(g[k], total, readings[k].high, title(1)) by {}
}

/// The regions that are judged are the leaves that no structure claims and that are not small,
/// none left out.
pub proof fn law_the_regions_are_the_unclaimed_leaves(cov: Coverage, region: Span)
    ensures
        ({
            let claims = cov@.claims;
            let ids = coverage::leaf_ids(claims, claims.len() as int);
            regions_of(cov).contains(region) <==> exists|k: int|
                0 <= k < ids.len() && is_region(claims, #[trigger] ids[k], region)
        }),
{
    let claims = cov@.claims;
    let ids = coverage::leaf_ids(claims, claims.len() as int);
    lemma_regions_in(claims, ids, ids.len() as int, region);
}

/// The region is the unclaimed bytes of this claim, at least a quarter of a kilobyte.
pub open spec fn is_region(claims: Seq<ClaimView>, id: ClaimId, region: Span) -> bool {
    &&& id.0 < claims.len()
    &&& claims[id.0 as int].kind is Unclaimed
    &&& claims[id.0 as int].span == region
    &&& region.len >= 256
}

proof fn lemma_regions_in(claims: Seq<ClaimView>, ids: Seq<ClaimId>, n: int, region: Span)
    requires
        0 <= n <= ids.len(),
    ensures
        regions_in(claims, ids, n).contains(region) <==> exists|k: int|
            0 <= k < n && is_region(claims, #[trigger] ids[k], region),
    decreases n,
{
    if n > 0 {
        lemma_regions_in(claims, ids, n - 1, region);
        let before = regions_in(claims, ids, n - 1);
        let all = regions_in(claims, ids, n);
        if before.contains(region) {
            let k = choose|k: int| 0 <= k < before.len() && before[k] == region;
            assert(all[k] == region);
            let j = choose|j: int| 0 <= j < n - 1 && is_region(claims, #[trigger] ids[j], region);
            assert(is_region(claims, ids[j], region));
        }
        if all.contains(region) {
            let k = choose|k: int| 0 <= k < all.len() && all[k] == region;
            if k < before.len() {
                assert(before[k] == region);
            } else {
                assert(is_region(claims, ids[n - 1], region));
            }
        }
        if is_region(claims, ids[n - 1], region) {
            assert(all[before.len() as int] == region);
        }
    }
}

/// What a run of bytes is told by are its first bytes, whatever follows them; and a run that
/// starts with none of the marks is told by nothing.
pub proof fn law_a_container_is_told_by_its_first_bytes(rest: Seq<u8>)
    ensures
        container(seq![127u8, 69, 76, 70] + rest) == Some("an ELF file"),
        container(seq![65u8, 82, 74, 95, 83, 70, 88] + rest) == Some("an ARJ self-extracting stub"),
        container(seq![80u8, 75, 3, 4] + rest) == Some("a zip archive"),
        container(seq![31u8, 139] + rest) == Some("gzip data"),
        container(seq![55u8, 122, 188, 175, 39, 28] + rest) == Some("a 7-zip archive"),
        container(seq![253u8, 55, 122, 88, 90] + rest) == Some("xz data"),
        container(seq![117u8, 115, 116, 97, 114] + rest) == Some("a tar archive"),
        container(seq![77u8, 90] + rest) == Some("a PE/DOS executable"),
        container(seq![202u8, 254, 186, 190] + rest) == Some("a Mach-O fat binary or Java class"),
        rest.len() == 0 || !(seq![127u8, 65, 80, 31, 55, 253, 117, 77, 202].contains(rest[0]))
            ==> container(rest) is None,
{
    lemma_starts_with(seq![127u8, 69, 76, 70], rest);
    lemma_starts_with(seq![65u8, 82, 74, 95, 83, 70, 88], rest);
    lemma_starts_with(seq![80u8, 75, 3, 4], rest);
    lemma_starts_with(seq![31u8, 139], rest);
    lemma_starts_with(seq![55u8, 122, 188, 175, 39, 28], rest);
    lemma_starts_with(seq![253u8, 55, 122, 88, 90], rest);
    lemma_starts_with(seq![117u8, 115, 116, 97, 114], rest);
    lemma_starts_with(seq![77u8, 90], rest);
    lemma_starts_with(seq![202u8, 254, 186, 190], rest);
    lemma_other_start(rest);
    let firsts = seq![127u8, 65, 80, 31, 55, 253, 117, 77, 202];
    if rest.len() > 0 && !firsts.contains(rest[0]) {
        assert(firsts[0] != rest[0] && firsts[1] != rest[0] && firsts[2] != rest[0] && firsts[3]
            != rest[0] && firsts[4] != rest[0] && firsts[5] != rest[0] && firsts[6] != rest[0]
            && firsts[7] != rest[0] && firsts[8] != rest[0]);
    }
}

/// What starts with a mark starts with no mark of another first byte.
proof fn lemma_starts_with(m: Seq<u8>, rest: Seq<u8>)
    requires
        m.len() > 0,
    ensures
        starts(m + rest, m),
        forall|x: Seq<u8>| x.len() > 0 && x[0] != m[0] ==> !#[trigger] starts(m + rest, x),
{
    assert((m + rest).take(m.len() as int) =~= m);
    assert forall|x: Seq<u8>| x.len() > 0 && x[0] != m[0] implies !#[trigger] starts(
        m + rest,
        x,
    ) by {
        if starts(m + rest, x) {
            assert((m + rest).take(x.len() as int)[0] == m[0]);
        }
    }
}

proof fn lemma_other_start(b: Seq<u8>)
    ensures
        forall|x: Seq<u8>|
            x.len() > 0 && (b.len() == 0 || x[0] != b[0]) ==> !#[trigger] starts(b, x),
{
    assert forall|x: Seq<u8>| x.len() > 0 && (b.len() == 0 || x[0] != b[0]) implies
        !#[trigger] starts(b, x) by {
        if starts(b, x) {
            assert(b.take(x.len() as int)[0] == b[0]);
        }
    }
}

} // verus!
