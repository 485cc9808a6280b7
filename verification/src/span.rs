//! Byte spans: the coordinate system everything else is expressed in.

use vstd::prelude::*;

use crate::text;

verus! {

/// Identifies one file in a specimen's dependency closure.
///
/// The analysed binary is [`FileId::primary`]; its `DT_NEEDED` closure is numbered from 1
/// in the order the loader model resolves them.
#[derive(Clone, Copy, PartialEq, Eq, PartialOrd, Ord, Hash, Debug, Structural)]
pub struct FileId(pub u32);

impl FileId {
    /// The specimen itself.
    #[must_use]
    pub fn primary() -> (r: FileId)
        ensures
            r == FileId(0),
    {
        FileId(0)
    }

    /// The short name of the file: `f` and its number.
    pub open spec fn text(self) -> Seq<char> {
        "f"@ + text::dec(self.0 as int)
    }

    /// The short name of the file: `f` and its number.
    pub fn to_text(self) -> (r: String)
        ensures
            r@ == self.text(),
    {
        let mut r = "f".to_string();
        text::push_number(&mut r, self.0 as u64, 10);
        r
    }
}

/// The sum of `a` and `b`, or `u64::MAX` where it does not fit.
pub open spec fn sat_add(a: u64, b: u64) -> u64 {
    if a + b > u64::MAX {
        u64::MAX
    } else {
        (a + b) as u64
    }
}

/// A half-open byte range `[start, start + len)` within one file.
///
/// All arithmetic saturates. Spans are routinely constructed from untrusted header fields,
/// so a malformed `sh_size` of `u64::MAX` must produce a nonsensical span, not a panic.
#[derive(Clone, Copy, PartialEq, Eq, Hash, Debug, Structural)]
pub struct Span {
    pub file: FileId,
    pub start: u64,
    pub len: u64,
}

impl Span {
    /// One past the last byte, saturating.
    pub open spec fn spec_end(self) -> u64 {
        sat_add(self.start, self.len)
    }

    /// `off` of `file` is one of the bytes of this span.
    pub open spec fn has(self, file: FileId, off: int) -> bool {
        self.file == file && self.start <= off < self.spec_end()
    }

    /// `other` lies within this span, its ends included.
    pub open spec fn nests(self, other: Span) -> bool {
        &&& self.file == other.file
        &&& self.start <= other.start
        &&& other.spec_end() <= self.spec_end()
    }

    /// Both spans are non-empty and their ranges meet.
    pub open spec fn meets(self, other: Span) -> bool {
        &&& self.file == other.file
        &&& self.len != 0
        &&& other.len != 0
        &&& self.start < other.spec_end()
        &&& other.start < self.spec_end()
    }

    /// How the span is written: file, range, length.
    pub open spec fn text(self) -> Seq<char> {
        self.file.text() + ":"@ + text::hex(self.start as int) + ".."@ + text::hex(
            self.spec_end() as int,
        ) + " ("@ + text::dec(self.len as int) + ")"@
    }

    #[must_use]
    pub fn new(file: FileId, start: u64, len: u64) -> (r: Self)
        ensures
            r == (Span { file, start, len }),
    {
        Self { file, start, len }
    }

    /// A zero-length marker at `start`. Legal, and excluded from the coverage partition.
    #[must_use]
    pub fn empty_at(file: FileId, start: u64) -> (r: Self)
        ensures
            r == (Span { file, start, len: 0 }),
    {
        Self { file, start, len: 0 }
    }

    /// One past the last byte, saturating.
    #[must_use]
    pub fn end(self) -> (r: u64)
        ensures
            r == self.spec_end(),
    {
        self.start.saturating_add(self.len)
    }

    #[must_use]
    pub fn is_empty(self) -> (r: bool)
        ensures
            r == (self.len == 0),
    {
        self.len == 0
    }

    #[must_use]
    pub fn contains(self, file: FileId, off: u64) -> (r: bool)
        ensures
            r == self.has(file, off as int),
    {
        self.file.0 == file.0 && off >= self.start && off < self.end()
    }

    /// True if `other` lies entirely within `self`. Empty spans are contained if their
    /// start point falls inside the closed range, so a zero-length section at the end of a
    /// parent still nests correctly.
    #[must_use]
    pub fn contains_span(self, other: Span) -> (r: bool)
        ensures
            r == self.nests(other),
    {
        if self.file.0 != other.file.0 {
            return false;
        }
        other.start >= self.start && other.end() <= self.end()
    }

    /// True if the two spans share at least one byte. Empty spans never overlap.
    #[must_use]
    pub fn overlaps(self, other: Span) -> (r: bool)
        ensures
            r == self.meets(other),
    {
        if self.file.0 != other.file.0 || self.is_empty() || other.is_empty() {
            return false;
        }
        self.start < other.end() && other.start < self.end()
    }

    /// The bytes two overlapping spans share; `None` exactly when they do not overlap.
    #[must_use]
    pub fn intersection(self, other: Span) -> (r: Option<Span>)
        ensures
            r is Some <==> self.meets(other),
            r matches Some(s) ==> {
                &&& s.file == self.file
                &&& s.start == if self.start < other.start { other.start } else { self.start }
                &&& s.spec_end() == if self.spec_end() < other.spec_end() {
                    self.spec_end()
                } else {
                    other.spec_end()
                }
                &&& s.start + s.len == s.spec_end()
                &&& forall|f: FileId, off: int|
                    s.has(f, off) <==> self.has(f, off) && other.has(f, off)
            },
    {
        if !self.overlaps(other) {
            return None;
        }
        let start: u64 = if self.start < other.start { other.start } else { self.start };
        let end: u64 = if self.end() < other.end() { self.end() } else { other.end() };
        Some(Span::new(self.file, start, end.saturating_sub(start)))
    }

    /// The hole between the end of `self` and the start of `next`, if there is one.
    #[must_use]
    pub fn gap_to(self, next: Span) -> (r: Option<Span>)
        ensures
            r is Some <==> self.file == next.file && self.spec_end() < next.start,
            r matches Some(s) ==> {
                &&& s.file == self.file
                &&& s.start == self.spec_end()
                &&& s.start + s.len == next.start
            },
    {
        if self.file.0 != next.file.0 || next.start <= self.end() {
            return None;
        }
        Some(Span::new(self.file, self.end(), next.start.saturating_sub(self.end())))
    }

    /// The span as text: file, range, length.
    pub fn to_text(self) -> (r: String)
        ensures
            r@ == self.text(),
    {
        let mut r = self.file.to_text();
        r.append(":");
        r.append(text::hex_text(self.start).as_str());
        r.append("..");
        r.append(text::hex_text(self.end()).as_str());
        r.append(" (");
        r.append(text::dec_text(self.len).as_str());
        r.append(")");
        r
    }
}

/// Overlap is symmetric, and is exactly having a byte in common.
pub proof fn law_overlap_is_a_shared_byte(a: Span, b: Span)
    ensures
        a.meets(b) == b.meets(a),
        a.meets(b) <==> exists|f: FileId, off: int| a.has(f, off) && b.has(f, off),
{
    if a.meets(b) {
        let off: int = if a.start < b.start { b.start as int } else { a.start as int };
        assert(a.has(a.file, off) && b.has(a.file, off));
    }
}

/// A span nested in another holds none but the other's bytes, and nesting is transitive.
pub proof fn law_nesting_is_inclusion(a: Span, b: Span, c: Span)
    ensures
        a.nests(a),
        a.nests(b) && b.nests(c) ==> a.nests(c),
        a.nests(b) ==> forall|f: FileId, off: int| b.has(f, off) ==> a.has(f, off),
{
}

} // verus!
