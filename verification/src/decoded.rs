//! What the summary of a file says of its bytes.
//!
//! The laws here speak of the file by byte offsets alone: where a header or a table has a
//! number, and which text an offset points at.

use vstd::prelude::*;

use crate::claim::RelocTableKind;
use crate::coverage::Ledger;
use crate::layout;
use crate::parse::{ParseErrorView, RelocView, SectionInfo, Segment, SummaryView};
use crate::reader;
use crate::span;
use crate::span::{FileId, Span};
use crate::text;

verus! {

// The file as numbers and texts.

/// The number that the `n` bytes at `at` write, the lowest byte first; 0 past the end.
pub open spec fn num(bytes: Seq<u8>, at: int, n: int) -> int {
    if 0 <= at && at + n <= bytes.len() {
        reader::le_value(bytes.subrange(at, at + n)) as int
    } else {
        0
    }
}

/// The text from `at` to the next NUL, at most `max` bytes of it; nothing where it is none.
pub open spec fn text_at(bytes: Seq<u8>, at: int, max: int) -> Seq<char> {
    match reader::cstr(bytes, at, max) {
        Some(s) => match text::utf8(s) {
            Some(t) => t,
            None => Seq::empty(),
        },
        None => Seq::empty(),
    }
}

/// How many sections the header speaks of: a count of 0 defers to section 0.
pub open spec fn said_sections(bytes: Seq<u8>) -> int {
    if num(bytes, 60, 2) == 0 && num(bytes, 40, 8) != 0 && num(bytes, 58, 2) >= 64 {
        num(bytes, num(bytes, 40, 8) + 32, 8)
    } else {
        num(bytes, 60, 2)
    }
}

/// How many sections there are to read.
pub open spec fn sh_count(bytes: Seq<u8>) -> int {
    if num(bytes, 40, 8) == 0 || num(bytes, 58, 2) == 0 {
        0
    } else {
        said_sections(bytes)
    }
}

/// The `n`-byte number at `k` of section header `i`.
pub open spec fn sh(bytes: Seq<u8>, i: int, k: int, n: int) -> int {
    num(bytes, num(bytes, 40, 8) + i * num(bytes, 58, 2) + k, n)
}

/// How many program headers the header speaks of: a count of 0xffff defers to section 0.
pub open spec fn said_programs(bytes: Seq<u8>) -> int {
    if num(bytes, 56, 2) == 0xffff && num(bytes, 40, 8) != 0 && num(bytes, 58, 2) >= 64 {
        num(bytes, num(bytes, 40, 8) + 44, 4)
    } else {
        num(bytes, 56, 2)
    }
}

/// How many program headers there are to read.
pub open spec fn ph_count(bytes: Seq<u8>) -> int {
    if num(bytes, 32, 8) == 0 || num(bytes, 54, 2) == 0 {
        0
    } else {
        said_programs(bytes)
    }
}

/// The `n`-byte number at `k` of program header `i`.
pub open spec fn ph(bytes: Seq<u8>, i: int, k: int, n: int) -> int {
    num(bytes, num(bytes, 32, 8) + i * num(bytes, 54, 2) + k, n)
}

/// The text at `off` of the string table that section `i` is; nothing without a section.
pub open spec fn string_in(bytes: Seq<u8>, i: int, off: int) -> Seq<char> {
    if 0 <= i < sh_count(bytes) {
        text_at(bytes, sh(bytes, i, 24, 8) + off, sh(bytes, i, 32, 8))
    } else {
        Seq::empty()
    }
}

/// Section `i` is of type `t`, and has bytes in the file.
pub open spec fn holds(bytes: Seq<u8>, i: int, t: int) -> bool {
    &&& 0 <= i < sh_count(bytes)
    &&& sh(bytes, i, 4, 4) == t
    &&& sh(bytes, i, 32, 8) != 0
    &&& sh(bytes, i, 24, 8) + sh(bytes, i, 32, 8) <= bytes.len()
}

/// The size of the entries of section `i`: what it says, or else `default`.
pub open spec fn entry(bytes: Seq<u8>, i: int, default: int) -> int {
    if sh(bytes, i, 56, 8) == 0 {
        default
    } else {
        sh(bytes, i, 56, 8)
    }
}

/// Where entry `j` of section `i` is.
pub open spec fn entry_at(bytes: Seq<u8>, i: int, j: int, default: int) -> int {
    sh(bytes, i, 24, 8) + j * entry(bytes, i, default)
}

/// How many entries section `i` has room for.
pub open spec fn entries(bytes: Seq<u8>, i: int, default: int) -> int {
    sh(bytes, i, 32, 8) / entry(bytes, i, default)
}

// The parser's own readings of the same numbers.

pub proof fn lemma_num(bytes: Seq<u8>, at: int)
    requires
        0 <= at,
    ensures
        reader::le16(bytes, at) == num(bytes, at, 2),
        reader::le32(bytes, at) == num(bytes, at, 4),
        reader::le64(bytes, at) == num(bytes, at, 8),
        reader::byte_or_zero(bytes, at) == num(bytes, at, 1),
{
    reveal_with_fuel(reader::pow256, 9);
    if at + 1 <= bytes.len() {
        let s = bytes.subrange(at, at + 1);
        reveal_with_fuel(reader::le_value, 2);
        assert(s.drop_first().len() == 0);
        assert(s[0] == bytes[at]);
    }
    if at + 2 <= bytes.len() {
        reader::lemma_le_value_bound(bytes.subrange(at, at + 2));
    }
    if at + 4 <= bytes.len() {
        reader::lemma_le_value_bound(bytes.subrange(at, at + 4));
    }
    if at + 8 <= bytes.len() {
        reader::lemma_le_value_bound(bytes.subrange(at, at + 8));
    }
}

/// A place past the end of the address space is past the end of the file.
pub proof fn lemma_num_sat(bytes: Seq<u8>, base: u64, k: u64)
    requires
        bytes.len() <= u64::MAX,
    ensures
        reader::le16(bytes, span::sat_add(base, k) as int) == num(bytes, base + k, 2),
        reader::le32(bytes, span::sat_add(base, k) as int) == num(bytes, base + k, 4),
        reader::le64(bytes, span::sat_add(base, k) as int) == num(bytes, base + k, 8),
        reader::byte_or_zero(bytes, span::sat_add(base, k) as int) == num(bytes, base + k, 1),
{
    lemma_num(bytes, span::sat_add(base, k) as int);
}

proof fn lemma_num_bound(bytes: Seq<u8>, at: int)
    ensures
        0 <= num(bytes, at, 1) <= u8::MAX,
        0 <= num(bytes, at, 2) <= u16::MAX,
        0 <= num(bytes, at, 4) <= u32::MAX,
        0 <= num(bytes, at, 8) <= u64::MAX,
{
    if 0 <= at {
        lemma_num(bytes, at);
    }
}

pub proof fn lemma_counts(bytes: Seq<u8>)
    requires
        bytes.len() <= u64::MAX,
    ensures
        layout::shoff(bytes) == num(bytes, 40, 8),
        layout::shentsize(bytes) == num(bytes, 58, 2),
        layout::shstrndx(bytes) == num(bytes, 62, 2),
        layout::phoff(bytes) == num(bytes, 32, 8),
        layout::phentsize(bytes) == num(bytes, 54, 2),
        layout::shnum(bytes) == said_sections(bytes),
        layout::phnum(bytes) == said_programs(bytes),
        layout::sections(bytes).len() == sh_count(bytes),
        layout::has_programs(bytes) ==> layout::phnum(bytes) == ph_count(bytes),
        !layout::has_programs(bytes) ==> ph_count(bytes) == 0,
{
    lemma_num(bytes, 40);
    lemma_num(bytes, 58);
    lemma_num(bytes, 60);
    lemma_num(bytes, 62);
    lemma_num(bytes, 32);
    lemma_num(bytes, 54);
    lemma_num(bytes, 56);
    lemma_num_sat(bytes, layout::shoff(bytes), 32);
    lemma_num_sat(bytes, layout::shoff(bytes), 44);
}

/// The tables of a file that parses lie within it.
pub open spec fn whole(bytes: Seq<u8>) -> bool {
    &&& bytes.len() <= u64::MAX
    &&& !layout::sections_cut(bytes)
    &&& !layout::programs_cut(bytes)
}

pub proof fn lemma_whole(bytes: Seq<u8>)
    requires
        layout::outcome(bytes) is Ok,
        bytes.len() <= u64::MAX,
    ensures
        whole(bytes),
{
}

pub proof fn lemma_row(off: u64, count: u64, size: u64, i: int, len: int)
    requires
        off != 0,
        off + layout::sat_mul(count, size) <= len <= u64::MAX,
        0 <= i < count,
    ensures
        layout::row(off, i, size) == off + i * size,
        off + i * size + size <= len,
{
    assert(layout::sat_mul(count, size) == count * size) by {
        if count * size > u64::MAX {
            assert(layout::sat_mul(count, size) == u64::MAX);
        }
    }
    assert(0 <= i * size && i * size + size <= count * size) by (nonlinear_arith)
        requires
            0 <= i < count,
            0 <= size,
    ;
}

/// A section header as the parser reads it has the numbers at their places.
pub proof fn lemma_section(bytes: Seq<u8>, i: int)
    requires
        whole(bytes),
        0 <= i < sh_count(bytes),
    ensures
        ({
            let sec = layout::sections(bytes)[i];
            &&& sec.name_off == sh(bytes, i, 0, 4)
            &&& sec.sh_type == sh(bytes, i, 4, 4)
            &&& sec.offset == sh(bytes, i, 24, 8)
            &&& sec.size == sh(bytes, i, 32, 8)
            &&& sec.link == sh(bytes, i, 40, 4)
            &&& sec.entsize == sh(bytes, i, 56, 8)
        }),
{
    lemma_counts(bytes);
    let off = layout::shoff(bytes);
    let size = layout::shentsize(bytes);
    lemma_row(off, layout::shnum(bytes), size, i, bytes.len() as int);
    let base = layout::row(off, i, size);
    lemma_num(bytes, base as int);
    lemma_num_sat(bytes, base, 4);
    lemma_num_sat(bytes, base, 24);
    lemma_num_sat(bytes, base, 32);
    lemma_num_sat(bytes, base, 40);
    lemma_num_sat(bytes, base, 56);
}

/// A program header as the parser reads it has the numbers at their places.
pub proof fn lemma_segment(bytes: Seq<u8>, i: int)
    requires
        whole(bytes),
        0 <= i < ph_count(bytes),
    ensures
        ({
            let seg = layout::segment(
                bytes,
                layout::row(layout::phoff(bytes), i, layout::phentsize(bytes)),
            );
            &&& seg.p_type == ph(bytes, i, 0, 4)
            &&& seg.flags == ph(bytes, i, 4, 4)
            &&& seg.offset == ph(bytes, i, 8, 8)
            &&& seg.vaddr == ph(bytes, i, 16, 8)
            &&& seg.filesz == ph(bytes, i, 32, 8)
            &&& seg.memsz == ph(bytes, i, 40, 8)
            &&& seg.align == ph(bytes, i, 48, 8)
        }),
{
    lemma_counts(bytes);
    let off = layout::phoff(bytes);
    let size = layout::phentsize(bytes);
    lemma_row(off, layout::phnum(bytes), size, i, bytes.len() as int);
    let base = layout::row(off, i, size);
    lemma_num(bytes, base as int);
    lemma_num_sat(bytes, base, 4);
    lemma_num_sat(bytes, base, 8);
    lemma_num_sat(bytes, base, 16);
    lemma_num_sat(bytes, base, 32);
    lemma_num_sat(bytes, base, 40);
    lemma_num_sat(bytes, base, 48);
}

pub proof fn lemma_string_in(bytes: Seq<u8>, i: u64, off: u32)
    requires
        whole(bytes),
    ensures
        layout::lookup(bytes, layout::section_at(layout::sections(bytes), i), off) == string_in(
            bytes,
            i as int,
            off as int,
        ),
{
    lemma_counts(bytes);
    if i < sh_count(bytes) {
        lemma_section(bytes, i as int);
        let t = layout::sections(bytes)[i as int];
        lemma_text_sat(bytes, t.offset, off as u64, t.size);
    }
}

proof fn lemma_text_sat(bytes: Seq<u8>, base: u64, k: u64, max: u64)
    requires
        bytes.len() <= u64::MAX,
    ensures
        layout::string_at(bytes, span::sat_add(base, k), max) == text_at(
            bytes,
            base + k,
            max as int,
        ),
{
    if base + k > u64::MAX && bytes.len() == u64::MAX {
        let window = bytes.subrange(u64::MAX as int, u64::MAX as int);
        assert(window.take(reader::before_nul(window) as int) =~= Seq::<u8>::empty());
        text::lemma_utf8_of_nothing();
    }
}

pub proof fn lemma_entry(off: u64, size: u64, esz: u64, j: int, len: int)
    requires
        off + size <= len <= u64::MAX,
        esz > 0,
        0 <= j < size / esz,
    ensures
        layout::row(off, j, esz) == off + j * esz,
        off + j * esz + esz <= off + size,
{
    assert(0 <= j * esz && j * esz + esz <= size) by (nonlinear_arith)
        requires
            0 <= j < size / esz,
            esz > 0,
    ;
}

// The headers.

/// The summary has the numbers of the file header.
pub proof fn law_the_header_is_read(bytes: Seq<u8>)
    requires
        layout::outcome(bytes) is Ok,
        bytes.len() <= u64::MAX,
    ensures
        ({
            let f = (layout::outcome(bytes)->Ok_0).1;
            &&& f.e_type == num(bytes, 16, 2)
            &&& f.machine == num(bytes, 18, 2)
            &&& f.entry == num(bytes, 24, 8)
            &&& f.phnum == said_programs(bytes)
            &&& f.shnum == said_sections(bytes)
        }),
{
    lemma_counts(bytes);
    lemma_num(bytes, 16);
    lemma_num(bytes, 18);
    lemma_num(bytes, 24);
    let n = layout::sections(bytes).len() as int;
    lemma_bodies_keep_headers(layout::header_facts(bytes), bytes, layout::sections(bytes), n);
}

/// What is read from section bodies leaves what the headers say.
proof fn lemma_bodies_keep_headers(f: SummaryView, bytes: Seq<u8>, secs: Seq<SectionInfo>, n: int)
    ensures
        ({
            let g = layout::all_body_facts(f, bytes, secs, n);
            &&& g.e_type == f.e_type
            &&& g.machine == f.machine
            &&& g.entry == f.entry
            &&& g.phnum == f.phnum
            &&& g.shnum == f.shnum
            &&& g.interp == f.interp
            &&& g.has_dynamic == f.has_dynamic
            &&& g.segments == f.segments
        }),
    decreases n,
{
    if n > 0 {
        lemma_bodies_keep_headers(f, bytes, secs, n - 1);
        let b = layout::all_body_facts(f, bytes, secs, n - 1);
        let sec = secs[n - 1];
        let size = layout::entry_size(sec, 16);
        lemma_dyn_keeps_headers(b, bytes, secs, sec, layout::entry_count(sec, size) as int);
    }
}

proof fn lemma_dyn_keeps_headers(
    f: SummaryView,
    bytes: Seq<u8>,
    secs: Seq<SectionInfo>,
    sec: SectionInfo,
    n: int,
)
    ensures
        ({
            let g = layout::dyn_facts(f, bytes, secs, sec, n);
            &&& g.e_type == f.e_type
            &&& g.machine == f.machine
            &&& g.entry == f.entry
            &&& g.phnum == f.phnum
            &&& g.shnum == f.shnum
            &&& g.interp == f.interp
            &&& g.has_dynamic == f.has_dynamic
            &&& g.segments == f.segments
            &&& g.relocs == f.relocs
            &&& g.has_relr == f.has_relr
        }),
    decreases n,
{
    if n > 0 {
        lemma_dyn_keeps_headers(f, bytes, secs, sec, n - 1);
    }
}

/// There is a segment for every program header, in order, with the numbers that stand there.
pub proof fn law_segments_are_the_program_headers(bytes: Seq<u8>)
    requires
        layout::outcome(bytes) is Ok,
        bytes.len() <= u64::MAX,
    ensures
        ({
            let s = (layout::outcome(bytes)->Ok_0).1.segments;
            &&& s.len() == ph_count(bytes)
            &&& forall|i: int|
                0 <= i < s.len() ==> {
                    let seg = #[trigger] s[i];
                    &&& seg.p_type == ph(bytes, i, 0, 4)
                    &&& seg.flags == ph(bytes, i, 4, 4)
                    &&& seg.offset == ph(bytes, i, 8, 8)
                    &&& seg.vaddr == ph(bytes, i, 16, 8)
                    &&& seg.filesz == ph(bytes, i, 32, 8)
                    &&& seg.memsz == ph(bytes, i, 40, 8)
                    &&& seg.align == ph(bytes, i, 48, 8)
                }
        }),
{
    lemma_counts(bytes);
    lemma_whole(bytes);
    let n = layout::sections(bytes).len() as int;
    lemma_bodies_keep_headers(layout::header_facts(bytes), bytes, layout::sections(bytes), n);
    assert forall|i: int| 0 <= i < ph_count(bytes) implies {
        let seg = #[trigger] layout::facts(bytes).segments[i];
        &&& seg.p_type == ph(bytes, i, 0, 4)
        &&& seg.flags == ph(bytes, i, 4, 4)
        &&& seg.offset == ph(bytes, i, 8, 8)
        &&& seg.vaddr == ph(bytes, i, 16, 8)
        &&& seg.filesz == ph(bytes, i, 32, 8)
        &&& seg.memsz == ph(bytes, i, 40, 8)
        &&& seg.align == ph(bytes, i, 48, 8)
    } by {
        lemma_segment(bytes, i);
    }
}

/// Program header `i` names an interpreter: it is of type 3, and its bytes up to the first
/// NUL are text.
pub open spec fn names_interp(bytes: Seq<u8>, i: int) -> bool {
    &&& ph(bytes, i, 0, 4) == 3
    &&& reader::cstr(bytes, ph(bytes, i, 8, 8), ph(bytes, i, 32, 8)) matches Some(s)
        && text::utf8(s) is Some
}

/// The interpreter is the text that the first program header to name one points at, and there
/// is none exactly where no program header names one.
pub proof fn law_the_interpreter_is_the_first_named(bytes: Seq<u8>)
    requires
        layout::outcome(bytes) is Ok,
        bytes.len() <= u64::MAX,
    ensures
        ({
            let f = (layout::outcome(bytes)->Ok_0).1;
            &&& f.interp is None <==> forall|i: int|
                0 <= i < ph_count(bytes) ==> !#[trigger] names_interp(bytes, i)
            &&& forall|i: int|
                0 <= i < ph_count(bytes) && #[trigger] names_interp(bytes, i) && (forall|j: int|
                    0 <= j < i ==> !#[trigger] names_interp(bytes, j)) ==> f.interp == Some(
                    text_at(bytes, ph(bytes, i, 8, 8), ph(bytes, i, 32, 8)),
                )
            &&& f.has_dynamic <==> exists|i: int|
                0 <= i < ph_count(bytes) && #[trigger] ph(bytes, i, 0, 4) == 2
        }),
{
    lemma_counts(bytes);
    lemma_whole(bytes);
    let n = layout::sections(bytes).len() as int;
    let f = layout::facts(bytes);
    lemma_bodies_keep_headers(layout::header_facts(bytes), bytes, layout::sections(bytes), n);
    let k = ph_count(bytes);
    lemma_num_bound(bytes, 56);
    lemma_num_bound(bytes, num(bytes, 40, 8) + 44);
    lemma_interp(bytes, k);
    assert forall|i: int| 0 <= i < k && #[trigger] names_interp(bytes, i) && (forall|j: int|
        0 <= j < i ==> !#[trigger] names_interp(bytes, j)) implies f.interp == Some(
        text_at(bytes, ph(bytes, i, 8, 8), ph(bytes, i, 32, 8)),
    ) by {
        lemma_interp(bytes, i);
        lemma_interp(bytes, i + 1);
        lemma_interp_stays(bytes, i + 1, k);
        lemma_segment(bytes, i);
    }
    law_segments_are_the_program_headers(bytes);
    if f.has_dynamic {
        let i = choose|i: int| 0 <= i < f.segments.len() && (#[trigger] f.segments[i]).p_type == 2;
        assert(ph(bytes, i, 0, 4) == 2);
    }
    if exists|i: int| 0 <= i < k && #[trigger] ph(bytes, i, 0, 4) == 2 {
        let i = choose|i: int| 0 <= i < k && #[trigger] ph(bytes, i, 0, 4) == 2;
        assert(f.segments[i].p_type == 2);
    }
}

proof fn lemma_interp(bytes: Seq<u8>, n: int)
    requires
        whole(bytes),
        0 <= n <= ph_count(bytes),
    ensures
        layout::interp(bytes, n) is None <==> forall|i: int|
            0 <= i < n ==> !#[trigger] names_interp(bytes, i),
    decreases n,
{
    if n > 0 {
        lemma_interp(bytes, n - 1);
        lemma_segment(bytes, n - 1);
        if layout::interp(bytes, n) is Some && layout::interp(bytes, n - 1) is None {
            assert(names_interp(bytes, n - 1));
        }
        if layout::interp(bytes, n - 1) is Some {
            let i = choose|i: int| 0 <= i < n - 1 && names_interp(bytes, i);
            assert(names_interp(bytes, i));
        }
        if layout::interp(bytes, n) is None {
            assert(!names_interp(bytes, n - 1));
        }
    }
}

proof fn lemma_interp_stays(bytes: Seq<u8>, a: int, b: int)
    requires
        0 <= a <= b,
        layout::interp(bytes, a) is Some,
    ensures
        layout::interp(bytes, b) == layout::interp(bytes, a),
    decreases b,
{
    if a < b {
        lemma_interp_stays(bytes, a, b - 1);
    }
}

// The dynamic table.

/// An entry of the dynamic table: its tag, its value, and the text its value points at in the
/// string table that the section links to.
pub struct DynEntry {
    pub tag: int,
    pub val: int,
    pub name: Seq<char>,
}

/// Entry `j` of section `i`.
pub open spec fn dyn_entry(bytes: Seq<u8>, i: int, j: int) -> DynEntry {
    let at = entry_at(bytes, i, j, 16);
    let val = num(bytes, at + 8, 8);
    DynEntry {
        tag: num(bytes, at, 8),
        val,
        name: string_in(
            bytes,
            sh(bytes, i, 40, 4),
            if val > u32::MAX {
                0
            } else {
                val
            },
        ),
    }
}

/// The entries of the dynamic tables among the first `n` sections, in order.
pub open spec fn dynamic(bytes: Seq<u8>, n: int) -> Seq<DynEntry>
    decreases n,
{
    if n <= 0 {
        Seq::empty()
    } else if holds(bytes, n - 1, 6) {
        dynamic(bytes, n - 1) + Seq::new(
            entries(bytes, n - 1, 16) as nat,
            |j: int| dyn_entry(bytes, n - 1, j),
        )
    } else {
        dynamic(bytes, n - 1)
    }
}

/// The entry names a library that is needed.
pub open spec fn asks(e: DynEntry) -> bool {
    e.tag == 1 && e.name.len() != 0
}

/// How many of the first `n` entries name a library that is needed.
pub open spec fn asked(d: Seq<DynEntry>, n: int) -> int
    decreases n,
{
    if n <= 0 {
        0
    } else {
        asked(d, n - 1) + if asks(d[n - 1]) {
            1int
        } else {
            0int
        }
    }
}

/// `v` is the value of the last entry with this tag; nothing where no entry has it.
pub open spec fn last_value(d: Seq<DynEntry>, tag: int, v: Option<int>) -> bool {
    match v {
        Some(x) => exists|k: int|
            0 <= k < d.len() && (#[trigger] d[k]).tag == tag && d[k].val == x && forall|m: int|
                k < m < d.len() ==> (#[trigger] d[m]).tag != tag,
        None => forall|k: int| 0 <= k < d.len() ==> (#[trigger] d[k]).tag != tag,
    }
}

/// `v` is the name that the last entry with this tag and a name has; nothing without one.
pub open spec fn last_name(d: Seq<DynEntry>, tag: int, v: Option<Seq<char>>) -> bool {
    match v {
        Some(x) => exists|k: int|
            0 <= k < d.len() && (#[trigger] d[k]).tag == tag && d[k].name == x && x.len() != 0
                && forall|m: int|
                k < m < d.len() ==> (#[trigger] d[m]).tag != tag || d[m].name.len() == 0,
        None => forall|k: int|
            0 <= k < d.len() ==> (#[trigger] d[k]).tag != tag || d[k].name.len() == 0,
    }
}

/// `v` as a value that may be missing and then is 0.
pub open spec fn or_zero(d: Seq<DynEntry>, tag: int, v: u64) -> bool {
    last_value(d, tag, Some(v as int)) || (last_value(d, tag, None) && v == 0)
}

/// What the entries `d` make of a summary.
pub open spec fn says(d: Seq<DynEntry>, f: SummaryView) -> bool {
    &&& f.needed.len() == asked(d, d.len() as int)
    &&& forall|k: int|
        0 <= k < d.len() && asks(#[trigger] d[k]) ==> f.needed[asked(d, k)] == d[k].name
    &&& last_name(d, 14, f.soname)
    &&& f.bind_now <==> exists|k: int|
        0 <= k < d.len() && (#[trigger] d[k]).tag == 30 && (d[k].val as u64) & 8 != 0
    &&& match f.init {
        Some(x) => last_value(d, 12, Some(x as int)),
        None => last_value(d, 12, None),
    }
    &&& match f.init_array {
        Some((at, size)) => or_zero(d, 25, at) && or_zero(d, 27, size) && !(last_value(d, 25, None)
            && last_value(d, 27, None)),
        None => last_value(d, 25, None) && last_value(d, 27, None),
    }
}

proof fn lemma_asked_prefix(d: Seq<DynEntry>, e: DynEntry, n: int)
    requires
        0 <= n <= d.len(),
    ensures
        asked(d.push(e), n) == asked(d, n),
        0 <= asked(d, n) <= n,
    decreases n,
{
    if n > 0 {
        lemma_asked_prefix(d, e, n - 1);
        assert(d.push(e)[n - 1] == d[n - 1]);
    }
}

proof fn lemma_asked_grows(d: Seq<DynEntry>, a: int, b: int)
    requires
        0 <= a <= b <= d.len(),
    ensures
        asked(d, a) <= asked(d, b),
        a < b && asks(d[a]) ==> asked(d, a) < asked(d, b),
    decreases b - a,
{
    if a < b {
        lemma_asked_grows(d, a, b - 1);
        if a < b - 1 {
        } else {
            assert(asked(d, b) == asked(d, a) + if asks(d[a]) {
                1int
            } else {
                0int
            });
        }
    }
}

proof fn lemma_last_value_push(d: Seq<DynEntry>, e: DynEntry, tag: int, v: Option<int>)
    requires
        last_value(d, tag, v),
    ensures
        e.tag == tag ==> last_value(d.push(e), tag, Some(e.val)),
        e.tag != tag ==> last_value(d.push(e), tag, v),
{
    let t = d.push(e);
    assert(t[d.len() as int] == e);
    if e.tag != tag {
        match v {
            Some(x) => {
                let k = choose|k: int|
                    0 <= k < d.len() && (#[trigger] d[k]).tag == tag && d[k].val == x
                        && forall|m: int| k < m < d.len() ==> (#[trigger] d[m]).tag != tag;
                assert(t[k] == d[k]);
                assert forall|m: int| k < m < t.len() implies (#[trigger] t[m]).tag != tag by {
                    if m < d.len() {
                        assert(t[m] == d[m]);
                    }
                }
            },
            None => {
                assert forall|m: int| 0 <= m < t.len() implies (#[trigger] t[m]).tag != tag by {
                    if m < d.len() {
                        assert(t[m] == d[m]);
                    }
                }
            },
        }
    }
}

proof fn lemma_last_name_push(d: Seq<DynEntry>, e: DynEntry, tag: int, v: Option<Seq<char>>)
    requires
        last_name(d, tag, v),
    ensures
        e.tag == tag && e.name.len() != 0 ==> last_name(d.push(e), tag, Some(e.name)),
        e.tag != tag || e.name.len() == 0 ==> last_name(d.push(e), tag, v),
{
    let t = d.push(e);
    assert(t[d.len() as int] == e);
    if e.tag != tag || e.name.len() == 0 {
        match v {
            Some(x) => {
                let k = choose|k: int|
                    0 <= k < d.len() && (#[trigger] d[k]).tag == tag && d[k].name == x && x.len()
                        != 0 && forall|m: int|
                        k < m < d.len() ==> (#[trigger] d[m]).tag != tag || d[m].name.len() == 0;
                assert(t[k] == d[k]);
                assert forall|m: int| k < m < t.len() implies (#[trigger] t[m]).tag != tag
                    || t[m].name.len() == 0 by {
                    if m < d.len() {
                        assert(t[m] == d[m]);
                    }
                }
            },
            None => {
                assert forall|m: int| 0 <= m < t.len() implies (#[trigger] t[m]).tag != tag
                    || t[m].name.len() == 0 by {
                    if m < d.len() {
                        assert(t[m] == d[m]);
                    }
                }
            },
        }
    }
}

/// `v`, where it is the last value or 0 without one.
proof fn lemma_or_zero_push(d: Seq<DynEntry>, e: DynEntry, tag: int, v: u64)
    requires
        or_zero(d, tag, v),
    ensures
        e.tag == tag && 0 <= e.val <= u64::MAX ==> or_zero(d.push(e), tag, e.val as u64),
        e.tag != tag ==> or_zero(d.push(e), tag, v),
        e.tag == tag ==> !last_value(d.push(e), tag, None),
{
    if last_value(d, tag, Some(v as int)) {
        lemma_last_value_push(d, e, tag, Some(v as int));
    } else {
        lemma_last_value_push(d, e, tag, None);
    }
    assert(d.push(e)[d.len() as int] == e);
}

/// One more entry does to the summary what it says.
proof fn lemma_one_more_entry(
    d: Seq<DynEntry>,
    f: SummaryView,
    bytes: Seq<u8>,
    i: int,
    j: int,
)
    requires
        whole(bytes),
        says(d, f),
        holds(bytes, i, 6),
        0 <= j < entries(bytes, i, 16),
    ensures
        says(
            d.push(dyn_entry(bytes, i, j)),
            layout::dyn_fact(
                f,
                bytes,
                layout::sections(bytes),
                layout::sections(bytes)[i],
                j,
            ),
        ),
{
    let secs = layout::sections(bytes);
    let sec = secs[i];
    let e = dyn_entry(bytes, i, j);
    let g = layout::dyn_fact(f, bytes, secs, sec, j);
    let t = d.push(e);
    lemma_dyn_entry(bytes, i, j);
    assert forall|k: int| 0 <= k < d.len() implies #[trigger] t[k] == d[k] by {}
    assert(t[d.len() as int] == e);
    // The libraries.
    lemma_asked_prefix(d, e, d.len() as int);
    assert(asked(t, t.len() as int) == asked(d, d.len() as int) + if asks(e) {
        1int
    } else {
        0int
    });
    assert forall|k: int| 0 <= k < t.len() && asks(#[trigger] t[k]) implies g.needed[asked(t, k)]
        == t[k].name by {
        lemma_asked_prefix(d, e, k);
        if k < d.len() {
            assert(asks(d[k]));
            lemma_asked_grows(d, k, d.len() as int);
        }
    }
    // The rest.
    lemma_last_name_push(d, e, 14, f.soname);
    if exists|k: int| 0 <= k < d.len() && (#[trigger] d[k]).tag == 30 && (d[k].val as u64) & 8
        != 0 {
        let k = choose|k: int|
            0 <= k < d.len() && (#[trigger] d[k]).tag == 30 && (d[k].val as u64) & 8 != 0;
        assert(t[k] == d[k]);
    }
    lemma_last_value_push(
        d,
        e,
        12,
        match f.init {
            Some(x) => Some(x as int),
            None => None,
        },
    );
    match f.init_array {
        Some((at, size)) => {
            lemma_or_zero_push(d, e, 25, at);
            lemma_or_zero_push(d, e, 27, size);
            if last_value(t, 25, None) && last_value(t, 27, None) {
                assert forall|k: int| 0 <= k < d.len() implies (#[trigger] d[k]).tag != 25
                    && d[k].tag != 27 by {
                    assert(t[k] == d[k]);
                }
            }
        },
        None => {
            lemma_last_value_push(d, e, 25, None);
            lemma_last_value_push(d, e, 27, None);
            if e.tag == 25 || e.tag == 27 {
                assert(t[d.len() as int].tag == e.tag);
            }
        },
    }
}

/// An entry as the parser reads it.
proof fn lemma_dyn_entry(bytes: Seq<u8>, i: int, j: int)
    requires
        whole(bytes),
        holds(bytes, i, 6),
        0 <= j < entries(bytes, i, 16),
    ensures
        ({
            let secs = layout::sections(bytes);
            let e = dyn_entry(bytes, i, j);
            &&& layout::dyn_tag(bytes, secs[i], j) == e.tag
            &&& layout::dyn_val(bytes, secs[i], j) == e.val
            &&& layout::dyn_name(bytes, secs, secs[i], j) == e.name
        }),
{
    lemma_counts(bytes);
    lemma_section(bytes, i);
    let secs = layout::sections(bytes);
    let sec = secs[i];
    let esz = layout::entry_size(sec, 16);
    lemma_entry(sec.offset, sec.size, esz, j, bytes.len() as int);
    let base = layout::row(sec.offset, j, esz);
    lemma_num(bytes, base as int);
    lemma_num_sat(bytes, base, 8);
    let val = layout::dyn_val(bytes, sec, j);
    lemma_string_in(
        bytes,
        sec.link as u64,
        if val > u32::MAX {
            0
        } else {
            val as u32
        },
    );
}

proof fn lemma_dyn_facts(d: Seq<DynEntry>, f: SummaryView, bytes: Seq<u8>, i: int, n: int)
    requires
        whole(bytes),
        says(d, f),
        holds(bytes, i, 6),
        0 <= n <= entries(bytes, i, 16),
    ensures
        says(
            d + Seq::new(n as nat, |j: int| dyn_entry(bytes, i, j)),
            layout::dyn_facts(
                f,
                bytes,
                layout::sections(bytes),
                layout::sections(bytes)[i],
                n,
            ),
        ),
    decreases n,
{
    let all = d + Seq::new(n as nat, |j: int| dyn_entry(bytes, i, j));
    if n > 0 {
        lemma_dyn_facts(d, f, bytes, i, n - 1);
        let front = d + Seq::new((n - 1) as nat, |j: int| dyn_entry(bytes, i, j));
        let secs = layout::sections(bytes);
        lemma_one_more_entry(
            front,
            layout::dyn_facts(f, bytes, secs, secs[i], n - 1),
            bytes,
            i,
            n - 1,
        );
        assert(all =~= front.push(dyn_entry(bytes, i, n - 1)));
    } else {
        assert(all =~= d);
    }
}

/// The parser passes over a section exactly where it has no bytes in the file.
proof fn lemma_skipped(bytes: Seq<u8>, i: int, t: int)
    requires
        whole(bytes),
        0 <= i < sh_count(bytes),
        t != 0 && t != 8,
    ensures
        holds(bytes, i, t) <==> !layout::skipped(bytes, layout::sections(bytes)[i])
            && layout::sections(bytes)[i].sh_type == t,
{
    lemma_section(bytes, i);
}

proof fn lemma_all_says(bytes: Seq<u8>, n: int)
    requires
        whole(bytes),
        0 <= n <= sh_count(bytes),
    ensures
        says(
            dynamic(bytes, n),
            layout::all_body_facts(
                layout::header_facts(bytes),
                bytes,
                layout::sections(bytes),
                n,
            ),
        ),
    decreases n,
{
    let secs = layout::sections(bytes);
    if n > 0 {
        lemma_all_says(bytes, n - 1);
        lemma_section(bytes, n - 1);
        lemma_skipped(bytes, n - 1, 6);
        let f = layout::all_body_facts(layout::header_facts(bytes), bytes, secs, n - 1);
        if holds(bytes, n - 1, 6) {
            assert(entries(bytes, n - 1, 16) >= 0) by {
                lemma_num_bound(
                    bytes,
                    num(bytes, 40, 8) + (n - 1) * num(bytes, 58, 2) + 32,
                );
                lemma_num_bound(
                    bytes,
                    num(bytes, 40, 8) + (n - 1) * num(bytes, 58, 2) + 56,
                );
                vstd::arithmetic::div_mod::lemma_div_pos_is_pos(
                    sh(bytes, n - 1, 32, 8),
                    entry(bytes, n - 1, 16),
                );
            }
            lemma_dyn_facts(dynamic(bytes, n - 1), f, bytes, n - 1, entries(bytes, n - 1, 16));
        }
    }
}

/// What the dynamic table says is in the summary: the libraries that are needed, in order and
/// none left out; the last of its names for itself; whether it asks to bind at startup; and
/// where its initialisers are.
pub proof fn law_the_dynamic_table_is_read(bytes: Seq<u8>)
    requires
        layout::outcome(bytes) is Ok,
        bytes.len() <= u64::MAX,
    ensures
        says(dynamic(bytes, sh_count(bytes)), (layout::outcome(bytes)->Ok_0).1),
{
    lemma_whole(bytes);
    lemma_counts(bytes);
    lemma_all_says(bytes, sh_count(bytes));
}

// Relocations.

/// Section `i` is a relocation table of this kind of entry.
pub open spec fn relocates(bytes: Seq<u8>, i: int, rela: bool) -> bool {
    holds(
        bytes,
        i,
        if rela {
            4
        } else {
            9
        },
    )
}

/// The size that the format gives an entry.
pub open spec fn reloc_default(rela: bool) -> int {
    if rela {
        24
    } else {
        16
    }
}

/// How many places the first `n` words of the packed table in section `i` stand for: an even
/// word for one, an odd one for as many as it has bits set, its lowest left out.
pub open spec fn packed(bytes: Seq<u8>, i: int, n: int) -> int
    decreases n,
{
    if n <= 0 {
        0
    } else {
        let word = num(bytes, sh(bytes, i, 24, 8) + (n - 1) * 8, 8);
        packed(bytes, i, n - 1) + if word % 2 == 0 {
            1
        } else {
            layout::ones((word / 2) as u64) as int
        }
    }
}

/// How many relocations section `i` has.
pub open spec fn relocs_in(bytes: Seq<u8>, i: int) -> int {
    if relocates(bytes, i, true) {
        entries(bytes, i, 24)
    } else if relocates(bytes, i, false) {
        entries(bytes, i, 16)
    } else if holds(bytes, i, 19) {
        packed(bytes, i, sh(bytes, i, 32, 8) / 8)
    } else {
        0
    }
}

/// How many relocations the first `n` sections have.
pub open spec fn relocs_before(bytes: Seq<u8>, n: int) -> int
    decreases n,
{
    if n <= 0 {
        0
    } else {
        relocs_before(bytes, n - 1) + relocs_in(bytes, n - 1)
    }
}

/// The symbol that the entry at `at` of section `i` names stands here; 0 is no symbol.
pub open spec fn symbol_place(bytes: Seq<u8>, i: int, at: int) -> Option<int> {
    let table = sh(bytes, i, 40, 4);
    let index = num(bytes, at + 8, 8) / 0x1_0000_0000;
    if index == 0 || table >= sh_count(bytes) {
        None
    } else {
        Some(sh(bytes, table, 24, 8) + index * entry(bytes, table, 24))
    }
}

/// The name of that symbol, in the string table that the symbol table links to.
pub open spec fn symbol_text(bytes: Seq<u8>, i: int, at: int) -> Seq<char> {
    match symbol_place(bytes, i, at) {
        Some(p) => string_in(bytes, sh(bytes, sh(bytes, i, 40, 4), 40, 4), num(bytes, p, 4)),
        None => Seq::empty(),
    }
}

/// `r` is what the entry at `at` of section `i` says: the address it writes, the low half of
/// its second number as the type, the high half as the symbol, and the third as the addend.
pub open spec fn is_entry(bytes: Seq<u8>, i: int, j: int, rela: bool, r: RelocView) -> bool {
    let at = entry_at(bytes, i, j, reloc_default(rela));
    let name = symbol_text(bytes, i, at);
    let section = string_in(bytes, num(bytes, 62, 2), sh(bytes, i, 0, 4));
    &&& r.offset == num(bytes, at, 8)
    &&& r.r_type == num(bytes, at + 8, 8) % 0x1_0000_0000
    &&& r.addend == if rela {
        (num(bytes, at + 16, 8) as u64) as i64
    } else {
        0
    }
    &&& r.symbol == if name.len() == 0 {
        None
    } else {
        Some(name)
    }
    &&& r.weak <==> name.len() != 0 && num(bytes, symbol_place(bytes, i, at)->0 + 4, 1) / 16 == 2
        && num(bytes, symbol_place(bytes, i, at)->0 + 6, 2) == 0
    &&& r.table == if text::ends(section, ".plt"@) {
        RelocTableKind::JmpRel
    } else if rela {
        RelocTableKind::Rela
    } else {
        RelocTableKind::Rel
    }
    &&& r.file_span == (Span {
        file: FileId(0),
        start: at as u64,
        len: entry(bytes, i, reloc_default(rela)) as u64,
    })
}

proof fn lemma_sym_place(bytes: Seq<u8>, st: SectionInfo, sym: u64)
    requires
        bytes.len() <= u64::MAX,
    ensures
        ({
            let esz = layout::entry_size(st, 24);
            let p = span::sat_add(st.offset, layout::sat_mul(sym, esz));
            let q = st.offset + sym * esz;
            &&& reader::le32(bytes, p as int) == num(bytes, q, 4)
            &&& reader::byte_or_zero(bytes, span::sat_add(p, 4) as int) == num(bytes, q + 4, 1)
            &&& reader::le16(bytes, span::sat_add(p, 6) as int) == num(bytes, q + 6, 2)
        }),
{
    let esz = layout::entry_size(st, 24);
    let p = span::sat_add(st.offset, layout::sat_mul(sym, esz));
    let q = st.offset + sym * esz;
    assert(sym * esz >= 0) by (nonlinear_arith)
        requires
            sym >= 0,
            esz >= 0,
    ;
    assert(q <= u64::MAX ==> p == q);
    assert(q > u64::MAX ==> p == u64::MAX);
    lemma_num(bytes, p as int);
    lemma_num_sat(bytes, p, 4);
    lemma_num_sat(bytes, p, 6);
}

/// An entry as the parser reads it.
proof fn lemma_reloc(bytes: Seq<u8>, i: int, j: int, rela: bool)
    requires
        whole(bytes),
        relocates(bytes, i, rela),
        0 <= j < entries(bytes, i, reloc_default(rela)),
    ensures
        ({
            let secs = layout::sections(bytes);
            let name = layout::section_name(
                bytes,
                secs,
                layout::shstrndx(bytes),
                secs[i].name_off,
            );
            is_entry(bytes, i, j, rela, layout::reloc(bytes, secs, secs[i], rela, name, j))
        }),
{
    lemma_counts(bytes);
    lemma_section(bytes, i);
    let secs = layout::sections(bytes);
    let sec = secs[i];
    let name = layout::section_name(bytes, secs, layout::shstrndx(bytes), sec.name_off);
    lemma_string_in(bytes, layout::shstrndx(bytes), sec.name_off);
    let esz = layout::reloc_size(sec, rela);
    lemma_entry(sec.offset, sec.size, esz, j, bytes.len() as int);
    let base = layout::row(sec.offset, j, esz);
    lemma_num(bytes, base as int);
    lemma_num_sat(bytes, base, 8);
    lemma_num_sat(bytes, base, 16);
    let sym = reader::le64(bytes, span::sat_add(base, 8) as int) / 0x1_0000_0000;
    if sec.link < secs.len() {
        lemma_section(bytes, sec.link as int);
        let st = secs[sec.link as int];
        lemma_sym_place(bytes, st, sym);
        let p = span::sat_add(
            st.offset,
            layout::sat_mul(sym, layout::entry_size(st, 24)),
        );
        lemma_string_in(bytes, st.link as u64, reader::le32(bytes, p as int));
    }
}

/// Every relocation table among the first `n` sections is in `r`, each at its place.
pub open spec fn lists(bytes: Seq<u8>, n: int, r: Seq<RelocView>) -> bool {
    &&& r.len() == relocs_before(bytes, n)
    &&& forall|i: int, j: int, rela: bool|
        0 <= i < n && #[trigger] relocates(bytes, i, rela) && 0 <= j < entries(
            bytes,
            i,
            reloc_default(rela),
        ) ==> is_entry(bytes, i, j, rela, #[trigger] r[relocs_before(bytes, i) + j])
}

proof fn lemma_entries_bound(bytes: Seq<u8>, i: int, default: int)
    requires
        default > 0,
    ensures
        entries(bytes, i, default) >= 0,
        entry(bytes, i, default) > 0,
{
    lemma_num_bound(bytes, num(bytes, 40, 8) + i * num(bytes, 58, 2) + 32);
    lemma_num_bound(bytes, num(bytes, 40, 8) + i * num(bytes, 58, 2) + 56);
    vstd::arithmetic::div_mod::lemma_div_pos_is_pos(
        sh(bytes, i, 32, 8),
        entry(bytes, i, default),
    );
}

proof fn lemma_packed_grows(bytes: Seq<u8>, i: int, n: int)
    ensures
        packed(bytes, i, n) >= 0,
    decreases n,
{
    if n > 0 {
        lemma_packed_grows(bytes, i, n - 1);
    }
}

proof fn lemma_relocs_before(bytes: Seq<u8>, a: int, b: int)
    requires
        0 <= a <= b,
    ensures
        0 <= relocs_before(bytes, a) <= relocs_before(bytes, b),
        a < b ==> relocs_before(bytes, a) + relocs_in(bytes, a) <= relocs_before(bytes, b),
    decreases b,
{
    if b > 0 {
        lemma_entries_bound(bytes, b - 1, 24);
        lemma_entries_bound(bytes, b - 1, 16);
        lemma_packed_grows(bytes, b - 1, sh(bytes, b - 1, 32, 8) / 8);
        if a < b {
            lemma_relocs_before(bytes, a, b - 1);
        } else {
            lemma_relocs_before(bytes, a - 1, b - 1);
        }
    }
}

proof fn lemma_packed(s: Seq<RelocView>, bytes: Seq<u8>, i: int, n: int)
    requires
        whole(bytes),
        holds(bytes, i, 19),
        0 <= n <= sh(bytes, i, 32, 8) / 8,
    ensures
        ({
            let r = layout::relr_relocs(s, bytes, layout::sections(bytes)[i], n);
            &&& r.len() == s.len() + packed(bytes, i, n)
            &&& r.take(s.len() as int) == s
        }),
    decreases n,
{
    let sec = layout::sections(bytes)[i];
    let r = layout::relr_relocs(s, bytes, sec, n);
    if n > 0 {
        lemma_packed(s, bytes, i, n - 1);
        lemma_section(bytes, i);
        lemma_entry(sec.offset, sec.size, 8, n - 1, bytes.len() as int);
        let at = layout::row(sec.offset, n - 1, 8);
        lemma_num(bytes, at as int);
        let word = layout::relr_word(bytes, sec, n - 1);
        let before = layout::relr_relocs(s, bytes, sec, n - 1);
        let cursor = layout::relr_cursor(bytes, sec, n - 1);
        layout::law_a_bitmap_word_is_its_set_bits(before, word, cursor, layout::at(at, 8));
        lemma_packed_grows(bytes, i, n - 1);
        assert(r.take(s.len() as int) =~= r.take(before.len() as int).take(s.len() as int));
        assert(before.take(s.len() as int) == s);
        if word % 2 == 0 {
            assert(r.take(before.len() as int) =~= before);
        }
    } else {
        assert(r.take(s.len() as int) =~= s);
    }
}

/// What one section adds to the relocations.
proof fn lemma_section_adds(f: SummaryView, bytes: Seq<u8>, i: int)
    requires
        whole(bytes),
        0 <= i < sh_count(bytes),
    ensures
        ({
            let g = layout::body_facts(f, bytes, layout::sections(bytes), i);
            let n = f.relocs.len() as int;
            &&& g.relocs.len() == n + relocs_in(bytes, i)
            &&& forall|k: int| 0 <= k < n ==> #[trigger] g.relocs[k] == f.relocs[k]
            &&& forall|j: int, rela: bool|
                #[trigger] relocates(bytes, i, rela) && 0 <= j < entries(
                    bytes,
                    i,
                    reloc_default(rela),
                ) ==> is_entry(bytes, i, j, rela, #[trigger] g.relocs[n + j])
            &&& g.has_relr <==> f.has_relr || holds(bytes, i, 19)
        }),
{
    let secs = layout::sections(bytes);
    let sec = secs[i];
    let g = layout::body_facts(f, bytes, secs, i);
    let n = f.relocs.len() as int;
    lemma_counts(bytes);
    lemma_section(bytes, i);
    lemma_skipped(bytes, i, 4);
    lemma_skipped(bytes, i, 9);
    lemma_skipped(bytes, i, 19);
    lemma_skipped(bytes, i, 6);
    lemma_dyn_keeps_headers(
        f,
        bytes,
        secs,
        sec,
        layout::entry_count(sec, layout::entry_size(sec, 16)) as int,
    );
    lemma_entries_bound(bytes, i, 24);
    lemma_entries_bound(bytes, i, 16);
    if holds(bytes, i, 19) {
        lemma_num_bound(bytes, num(bytes, 40, 8) + i * num(bytes, 58, 2) + 32);
        let words = sh(bytes, i, 32, 8) / 8;
        lemma_packed(f.relocs, bytes, i, words);
        lemma_packed_grows(bytes, i, words);
        assert forall|k: int| 0 <= k < n implies #[trigger] g.relocs[k] == f.relocs[k] by {
            assert(g.relocs.take(n)[k] == g.relocs[k]);
        }
    }
    assert forall|j: int, rela: bool|
        #[trigger] relocates(bytes, i, rela) && 0 <= j < entries(
            bytes,
            i,
            reloc_default(rela),
        ) implies is_entry(bytes, i, j, rela, #[trigger] g.relocs[n + j]) by {
        lemma_reloc(bytes, i, j, rela);
    }
}

proof fn lemma_all_lists(bytes: Seq<u8>, n: int)
    requires
        whole(bytes),
        0 <= n <= sh_count(bytes),
    ensures
        lists(
            bytes,
            n,
            layout::all_body_facts(
                layout::header_facts(bytes),
                bytes,
                layout::sections(bytes),
                n,
            ).relocs,
        ),
        layout::all_body_facts(
            layout::header_facts(bytes),
            bytes,
            layout::sections(bytes),
            n,
        ).has_relr <==> exists|i: int| 0 <= i < n && #[trigger] holds(bytes, i, 19),
    decreases n,
{
    let secs = layout::sections(bytes);
    let r = layout::all_body_facts(layout::header_facts(bytes), bytes, secs, n);
    if n > 0 {
        lemma_all_lists(bytes, n - 1);
        let b = layout::all_body_facts(layout::header_facts(bytes), bytes, secs, n - 1);
        lemma_section_adds(b, bytes, n - 1);
        assert forall|i: int, j: int, rela: bool|
            0 <= i < n && #[trigger] relocates(bytes, i, rela) && 0 <= j < entries(
                bytes,
                i,
                reloc_default(rela),
            ) implies is_entry(
            bytes,
            i,
            j,
            rela,
            #[trigger] r.relocs[relocs_before(bytes, i) + j],
        ) by {
            lemma_relocs_before(bytes, i, n - 1);
            if i < n - 1 {
                assert(is_entry(bytes, i, j, rela, b.relocs[relocs_before(bytes, i) + j]));
            }
        }
        if exists|i: int| 0 <= i < n - 1 && #[trigger] holds(bytes, i, 19) {
            let i = choose|i: int| 0 <= i < n - 1 && #[trigger] holds(bytes, i, 19);
            assert(holds(bytes, i, 19) && i < n);
        }
    }
}

/// Every entry of every relocation table is in the summary, in the order of the file, with
/// the numbers that stand there and the name of the symbol it points at.
pub proof fn law_relocations_are_the_table_entries(bytes: Seq<u8>)
    requires
        layout::outcome(bytes) is Ok,
        bytes.len() <= u64::MAX,
    ensures
        lists(bytes, sh_count(bytes), (layout::outcome(bytes)->Ok_0).1.relocs),
        (layout::outcome(bytes)->Ok_0).1.has_relr <==> exists|i: int|
            0 <= i < sh_count(bytes) && #[trigger] holds(bytes, i, 19),
{
    lemma_whole(bytes);
    lemma_counts(bytes);
    lemma_all_lists(bytes, sh_count(bytes));
}

/// Bit `m` of `v`, counted from the lowest.
pub open spec fn bit(v: int, m: int) -> bool
    decreases m,
{
    if m <= 0 {
        v % 2 == 1
    } else {
        bit(v / 2, m - 1)
    }
}

/// How many of the lowest `m` bits of `v` are set.
pub open spec fn bits_below(v: int, m: int) -> int
    decreases m,
{
    if m <= 0 {
        0
    } else {
        v % 2 + bits_below(v / 2, m - 1)
    }
}

/// Word `n` of the packed table in section `i`.
pub open spec fn packed_word(bytes: Seq<u8>, i: int, n: int) -> int {
    num(bytes, sh(bytes, i, 24, 8) + n * 8, 8)
}

/// The address that the first bit of word `n` would stand for: one word past the last address
/// before it, and 63 words further for every bitmap in between.
pub open spec fn packed_from(bytes: Seq<u8>, i: int, n: int) -> int
    decreases n,
{
    if n <= 0 {
        0
    } else if packed_word(bytes, i, n - 1) % 2 == 0 {
        packed_word(bytes, i, n - 1) + 8
    } else {
        packed_from(bytes, i, n - 1) + 63 * 8
    }
}

/// `r` is the relative relocation of `at`, or of the end of the address space.
pub open spec fn is_relative(r: RelocView, at: int) -> bool {
    &&& r.offset == if at > u64::MAX {
        u64::MAX as int
    } else {
        at
    }
    &&& r.r_type == 8
    &&& r.addend == 0
    &&& r.symbol is None
    &&& !r.weak
    &&& r.table == RelocTableKind::Relr
}

proof fn lemma_bits_below(v: int, m: int)
    requires
        0 <= v <= u64::MAX,
        0 <= m,
        bit(v, m),
    ensures
        0 <= bits_below(v, m) < layout::ones(v as u64),
    decreases m,
{
    if m > 0 {
        lemma_bits_below(v / 2, m - 1);
        assert(v > 0) by {
            if v == 0 {
                lemma_zero_has_no_bits(m);
            }
        }
        assert((v as u64) / 2 == v / 2);
    }
}

proof fn lemma_zero_has_no_bits(m: int)
    ensures
        !bit(0, m),
    decreases m,
{
    if m > 0 {
        lemma_zero_has_no_bits(m - 1);
    }
}

proof fn lemma_bitmap(s: Seq<RelocView>, bits: u64, addr: u64, far: int, file_span: Span, m: int)
    requires
        0 <= m,
        bit(bits as int, m),
        addr == if far > u64::MAX {
            u64::MAX as int
        } else {
            far
        },
        0 <= far,
    ensures
        ({
            let r = layout::relr_bits(s, bits, addr, file_span);
            is_relative(r[s.len() + bits_below(bits as int, m)], far + 8 * m)
        }),
    decreases m,
{
    if bits == 0 {
        lemma_zero_has_no_bits(m);
    }
    let t = if bits % 2 == 1 {
        s.push(layout::relr_at(addr, file_span))
    } else {
        s
    };
    let next = span::sat_add(addr, 8);
    let r = layout::relr_bits(s, bits, addr, file_span);
    assert(r == layout::relr_bits(t, bits / 2, next, file_span));
    if m > 0 {
        lemma_bitmap(t, bits / 2, next, far + 8, file_span, m - 1);
    } else {
        layout::lemma_relr_bits(t, bits / 2, next, file_span);
        assert(r.take(t.len() as int)[s.len() as int] == t[s.len() as int]);
    }
}

proof fn lemma_packed_from(bytes: Seq<u8>, i: int, n: int)
    requires
        whole(bytes),
        holds(bytes, i, 19),
        0 <= n <= sh(bytes, i, 32, 8) / 8,
    ensures
        0 <= packed_from(bytes, i, n),
        layout::relr_cursor(bytes, layout::sections(bytes)[i], n) == if packed_from(bytes, i, n)
            > u64::MAX {
            u64::MAX as int
        } else {
            packed_from(bytes, i, n)
        },
    decreases n,
{
    if n > 0 {
        lemma_packed_from(bytes, i, n - 1);
        lemma_packed_word(bytes, i, n - 1);
    }
}

proof fn lemma_packed_word(bytes: Seq<u8>, i: int, n: int)
    requires
        whole(bytes),
        holds(bytes, i, 19),
        0 <= n < sh(bytes, i, 32, 8) / 8,
    ensures
        layout::relr_word(bytes, layout::sections(bytes)[i], n) == packed_word(bytes, i, n),
        0 <= packed_word(bytes, i, n) <= u64::MAX,
{
    let sec = layout::sections(bytes)[i];
    lemma_section(bytes, i);
    lemma_entry(sec.offset, sec.size, 8, n, bytes.len() as int);
    lemma_num(bytes, layout::row(sec.offset, n, 8) as int);
}

/// What the words of a packed table stand for, behind the relocations `s`.
proof fn lemma_unpacked(s: Seq<RelocView>, bytes: Seq<u8>, i: int, w: int, n: int)
    requires
        whole(bytes),
        holds(bytes, i, 19),
        0 <= w < n <= sh(bytes, i, 32, 8) / 8,
    ensures
        ({
            let r = layout::relr_relocs(s, bytes, layout::sections(bytes)[i], n);
            let word = packed_word(bytes, i, w);
            let from = s.len() + packed(bytes, i, w);
            &&& word % 2 == 0 ==> is_relative(r[from], word)
            &&& word % 2 == 1 ==> forall|m: int|
                0 <= m < 63 && #[trigger] bit(word / 2, m) ==> is_relative(
                    r[from + bits_below(word / 2, m)],
                    packed_from(bytes, i, w) + 8 * m,
                )
        }),
    decreases n,
{
    let sec = layout::sections(bytes)[i];
    let r = layout::relr_relocs(s, bytes, sec, n);
    let b = layout::relr_relocs(s, bytes, sec, n - 1);
    let last = layout::relr_word(bytes, sec, n - 1);
    let file_span = layout::at(layout::row(sec.offset, n - 1, 8), 8);
    lemma_packed_word(bytes, i, n - 1);
    lemma_packed(s, bytes, i, n - 1);
    lemma_packed_grows(bytes, i, n - 1);
    lemma_packed_from(bytes, i, n - 1);
    let cursor = layout::relr_cursor(bytes, sec, n - 1);
    layout::lemma_relr_bits(b, last / 2, cursor, file_span);
    assert forall|k: int| 0 <= k < b.len() implies r[k] == b[k] by {
        if last % 2 == 1 {
            assert(r.take(b.len() as int)[k] == r[k]);
        }
    }
    let word = packed_word(bytes, i, w);
    let from = s.len() + packed(bytes, i, w);
    lemma_packed_word(bytes, i, w);
    if w < n - 1 {
        lemma_unpacked(s, bytes, i, w, n - 1);
        lemma_packed_mono(bytes, i, w + 1, n - 1);
        lemma_packed_grows(bytes, i, w);
        assert forall|m: int|
            word % 2 == 1 && 0 <= m < 63 && #[trigger] bit(word / 2, m) implies is_relative(
            r[from + bits_below(word / 2, m)],
            packed_from(bytes, i, w) + 8 * m,
        ) by {
            lemma_bits_below(word / 2, m);
        }
    } else {
        assert forall|m: int|
            word % 2 == 1 && 0 <= m < 63 && #[trigger] bit(word / 2, m) implies is_relative(
            r[from + bits_below(word / 2, m)],
            packed_from(bytes, i, w) + 8 * m,
        ) by {
            lemma_bitmap(b, last / 2, cursor, packed_from(bytes, i, w), file_span, m);
        }
    }
}

proof fn lemma_packed_mono(bytes: Seq<u8>, i: int, a: int, b: int)
    requires
        0 <= a <= b,
    ensures
        packed(bytes, i, a) <= packed(bytes, i, b),
    decreases b,
{
    if a < b {
        lemma_packed_mono(bytes, i, a, b - 1);
    }
}

proof fn lemma_unpacked_stays(bytes: Seq<u8>, i: int, n: int)
    requires
        whole(bytes),
        0 <= i < n <= sh_count(bytes),
    ensures
        ({
            let secs = layout::sections(bytes);
            let head = layout::header_facts(bytes);
            let a = layout::all_body_facts(head, bytes, secs, i + 1).relocs;
            let b = layout::all_body_facts(head, bytes, secs, n).relocs;
            &&& a.len() <= b.len()
            &&& forall|k: int| 0 <= k < a.len() ==> b[k] == #[trigger] a[k]
        }),
    decreases n,
{
    if i + 1 < n {
        lemma_unpacked_stays(bytes, i, n - 1);
        let secs = layout::sections(bytes);
        let head = layout::header_facts(bytes);
        let b = layout::all_body_facts(head, bytes, secs, n - 1);
        lemma_section_adds(b, bytes, n - 1);
        lemma_relocs_before(bytes, n - 1, n);
        lemma_entries_bound(bytes, n - 1, 24);
        lemma_entries_bound(bytes, n - 1, 16);
        lemma_packed_grows(bytes, n - 1, sh(bytes, n - 1, 32, 8) / 8);
    }
}

/// A packed table is expanded word by word: an even word is one address, and bit `m + 1` of an
/// odd one, where it is set, the address `m` words past where the bitmap starts to count.
pub proof fn law_packed_relocations_are_expanded(bytes: Seq<u8>, i: int, w: int)
    requires
        layout::outcome(bytes) is Ok,
        bytes.len() <= u64::MAX,
        0 <= i < sh_count(bytes),
        holds(bytes, i, 19),
        0 <= w < sh(bytes, i, 32, 8) / 8,
    ensures
        ({
            let r = (layout::outcome(bytes)->Ok_0).1.relocs;
            let word = packed_word(bytes, i, w);
            let from = relocs_before(bytes, i) + packed(bytes, i, w);
            &&& word % 2 == 0 ==> is_relative(r[from], word)
            &&& word % 2 == 1 ==> forall|m: int|
                0 <= m < 63 && #[trigger] bit(word / 2, m) ==> is_relative(
                    r[from + bits_below(word / 2, m)],
                    packed_from(bytes, i, w) + 8 * m,
                )
        }),
{
    lemma_whole(bytes);
    lemma_counts(bytes);
    let secs = layout::sections(bytes);
    let n = sh_count(bytes);
    let head = layout::header_facts(bytes);
    let b = layout::all_body_facts(head, bytes, secs, i);
    let words = sh(bytes, i, 32, 8) / 8;
    lemma_all_lists(bytes, i);
    lemma_section(bytes, i);
    lemma_skipped(bytes, i, 19);
    lemma_section_adds(b, bytes, i);
    lemma_unpacked(b.relocs, bytes, i, w, words);
    lemma_unpacked_stays(bytes, i, n);
    lemma_packed_mono(bytes, i, w + 1, words);
    lemma_packed_grows(bytes, i, w);
    lemma_packed_word(bytes, i, w);
    let word = packed_word(bytes, i, w);
    let from = relocs_before(bytes, i) + packed(bytes, i, w);
    let a = layout::all_body_facts(head, bytes, secs, i + 1).relocs;
    let r = layout::facts(bytes).relocs;
    assert(a == layout::relr_relocs(b.relocs, bytes, secs[i], words));
    if word % 2 == 0 {
        assert(r[from] == a[from]);
    } else {
        assert forall|m: int| 0 <= m < 63 && #[trigger] bit(word / 2, m) implies is_relative(
            r[from + bits_below(word / 2, m)],
            packed_from(bytes, i, w) + 8 * m,
        ) by {
            lemma_bits_below(word / 2, m);
            assert(r[from + bits_below(word / 2, m)] == a[from + bits_below(word / 2, m)]);
        }
    }
}

// What is refused.

/// The file starts as a 64-bit little-endian ELF file does.
pub open spec fn starts_as_elf(b: Seq<u8>) -> bool {
    b.len() >= 64 && b[0] == 0x7f && b[1] == 0x45 && b[2] == 0x4c && b[3] == 0x46 && b[4] == 2
        && b[5] == 1
}

/// A file is refused for the first thing that is wrong with its start: too short for a header,
/// no ELF file, not of the 64-bit class, not little-endian. It is refused too where one of its
/// header tables runs past its end.
pub proof fn law_a_file_is_refused_by_its_start(b: Seq<u8>)
    requires
        b.len() <= u64::MAX,
    ensures
        b.len() < 64 <==> layout::outcome(b) matches Err(ParseErrorView::TooSmall { .. }),
        b.len() < 64 ==> layout::outcome(b) == Err::<(Ledger, SummaryView), ParseErrorView>(
            ParseErrorView::TooSmall { len: b.len() as u64 },
        ),
        b.len() >= 64 && !(b[0] == 0x7f && b[1] == 0x45 && b[2] == 0x4c && b[3] == 0x46)
            <==> layout::outcome(b) matches Err(ParseErrorView::BadMagic { .. }),
        b.len() >= 64 && b[0] == 0x7f && b[1] == 0x45 && b[2] == 0x4c && b[3] == 0x46 && b[4] != 2
            ==> layout::outcome(b) == Err::<(Ledger, SummaryView), ParseErrorView>(
            ParseErrorView::UnsupportedClass { class: b[4] },
        ),
        b.len() >= 64 && b[0] == 0x7f && b[1] == 0x45 && b[2] == 0x4c && b[3] == 0x46 && b[4] == 2
            && b[5] != 1 ==> layout::outcome(b) == Err::<(Ledger, SummaryView), ParseErrorView>(
            ParseErrorView::UnsupportedData { data: b[5] },
        ),
        layout::outcome(b) is Ok ==> starts_as_elf(b),
        layout::outcome(b) is Ok ==> num(b, 40, 8) + sh_count(b) * num(b, 58, 2) <= b.len()
            || sh_count(b) == 0,
        layout::outcome(b) is Ok ==> num(b, 32, 8) + ph_count(b) * num(b, 54, 2) <= b.len()
            || ph_count(b) == 0,
{
    lemma_counts(b);
    if b.len() >= 64 {
        let m = b.take(4);
        if b[0] == 0x7f && b[1] == 0x45 && b[2] == 0x4c && b[3] == 0x46 {
            assert(m =~= crate::elf::ELF_MAGIC@);
        } else if m == crate::elf::ELF_MAGIC@ {
            assert(m[0] == b[0] && m[1] == b[1] && m[2] == b[2] && m[3] == b[3]);
        }
    }
    if layout::outcome(b) is Ok {
        lemma_whole(b);
        let n = layout::shnum(b) * layout::shentsize(b);
        let p = layout::phnum(b) * layout::phentsize(b);
        assert(layout::sections_cut(b) == false && layout::programs_cut(b) == false);
    }
}

} // verus!
