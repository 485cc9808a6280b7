//! What the claims of a file say of its bytes.
//!
//! The laws here speak of the file by byte offsets alone: every structure that a header
//! announces is claimed where the header puts it, under its name and with the number that
//! stands there, and no claim says a number that its bytes do not.

use vstd::prelude::*;

use crate::claim::{ClaimId, ClaimKind, ClaimView, RelocTableKind, ValueView, VersionTableKind};
use crate::coverage;
use crate::coverage::Ledger;
use crate::decoded;
use crate::layout;
use crate::parse::SectionInfo;
use crate::reader;
use crate::span;
use crate::span::{FileId, Span};
use crate::text;

verus! {

/// One of the claims is of this kind, for these bytes, with this value.
pub open spec fn shown(
    claims: Seq<ClaimView>,
    kind: ClaimKind,
    start: int,
    len: int,
    value: ValueView,
) -> bool {
    exists|k: int|
        0 <= k < claims.len() && says(#[trigger] claims[k], kind, start, len, value)
}

/// The claim is of this kind, for these bytes, with this value.
pub open spec fn says(
    c: ClaimView,
    kind: ClaimKind,
    start: int,
    len: int,
    value: ValueView,
) -> bool {
    &&& c.kind == kind
    &&& c.span == (Span { file: FileId(0), start: start as u64, len: len as u64 })
    &&& c.value == value
}

/// The claims of a file that parses.
pub open spec fn claims_of(bytes: Seq<u8>) -> Seq<ClaimView> {
    (layout::outcome(bytes)->Ok_0).0.claims
}

spec fn extends(a: Seq<ClaimView>, b: Seq<ClaimView>) -> bool {
    a.len() <= b.len() && forall|k: int| 0 <= k < a.len() ==> #[trigger] b[k] == a[k]
}

proof fn lemma_shown_in(
    a: Seq<ClaimView>,
    b: Seq<ClaimView>,
    kind: ClaimKind,
    start: int,
    len: int,
    value: ValueView,
)
    requires
        extends(a, b),
        shown(a, kind, start, len, value),
    ensures
        shown(b, kind, start, len, value),
{
    let k = choose|k: int|
        0 <= k < a.len() && says(#[trigger] a[k], kind, start, len, value);
    assert(says(b[k], kind, start, len, value));
}

proof fn lemma_shown_behind(
    before: Seq<ClaimView>,
    a: Seq<ClaimView>,
    kind: ClaimKind,
    start: int,
    len: int,
    value: ValueView,
)
    requires
        shown(a, kind, start, len, value),
    ensures
        shown(before + a, kind, start, len, value),
{
    let k = choose|k: int|
        0 <= k < a.len() && says(#[trigger] a[k], kind, start, len, value);
    assert(says((before + a)[before.len() + k], kind, start, len, value));
}

// How the claims of a file are made up.

proof fn lemma_with_holes(l: Ledger, holes: Seq<Span>)
    ensures
        extends(l.claims, l.with_holes(holes).claims),
        forall|k: int|
            l.claims.len() <= k < l.with_holes(holes).claims.len() ==> (
            #[trigger] l.with_holes(holes).claims[k]).kind is Unclaimed,
    decreases holes.len(),
{
    if holes.len() > 0 {
        lemma_with_holes(l, holes.drop_last());
    }
}

/// The claims of the tables and the sections, in order; what is added behind them only names
/// holes.
proof fn lemma_parts(bytes: Seq<u8>)
    requires
        layout::outcome(bytes) is Ok,
    ensures
        ({
            let a = layout::header(bytes);
            let b = layout::section_table(bytes, a.len() as int);
            let c = layout::program_table(bytes, (a + b).len() as int);
            let secs = layout::sections(bytes);
            let d = layout::bodies(bytes, secs, secs.len() as int, (a + b + c).len() as int);
            &&& extends(a + b + c + d, claims_of(bytes))
            &&& forall|k: int|
                (a + b + c + d).len() <= k < claims_of(bytes).len() ==> (
                #[trigger] claims_of(bytes)[k]).kind is Unclaimed
        }),
{
    let blank = layout::blank(bytes);
    let a = layout::header(bytes);
    let b = layout::section_table(bytes, a.len() as int);
    let c = layout::program_table(bytes, (a + b).len() as int);
    let secs = layout::sections(bytes);
    let d = layout::bodies(bytes, secs, secs.len() as int, (a + b + c).len() as int);
    let l = layout::claimed(bytes)->Ok_0;
    layout::lemma_push_all_adds(blank, a);
    let la = layout::push_all(blank, a)->Ok_0;
    assert(la.claims =~= a);
    layout::lemma_push_all_adds(la, b);
    let lb = layout::push_all(la, b)->Ok_0;
    assert(lb.claims =~= a + b);
    layout::lemma_push_all_adds(lb, c);
    let lc = layout::push_all(lb, c)->Ok_0;
    assert(lc.claims =~= a + b + c);
    layout::lemma_push_all_adds(lc, d);
    assert(l.claims =~= a + b + c + d);
    reveal_with_fuel(Ledger::filled, 2);
    let (file, len) = l.files[0];
    lemma_with_holes(l, coverage::holes(coverage::sorted_leaves(l.claims, file), 0, file, len));
}

/// What is shown in one of the parts is shown in the whole.
proof fn lemma_shown_in_whole(
    bytes: Seq<u8>,
    kind: ClaimKind,
    start: int,
    len: int,
    value: ValueView,
)
    requires
        layout::outcome(bytes) is Ok,
        ({
            let a = layout::header(bytes);
            let b = layout::section_table(bytes, a.len() as int);
            let c = layout::program_table(bytes, (a + b).len() as int);
            let secs = layout::sections(bytes);
            let d = layout::bodies(bytes, secs, secs.len() as int, (a + b + c).len() as int);
            ||| shown(a, kind, start, len, value)
            ||| shown(b, kind, start, len, value)
            ||| shown(c, kind, start, len, value)
            ||| shown(d, kind, start, len, value)
        }),
    ensures
        shown(claims_of(bytes), kind, start, len, value),
{
    let a = layout::header(bytes);
    let b = layout::section_table(bytes, a.len() as int);
    let c = layout::program_table(bytes, (a + b).len() as int);
    let secs = layout::sections(bytes);
    let d = layout::bodies(bytes, secs, secs.len() as int, (a + b + c).len() as int);
    let all = a + b + c + d;
    lemma_parts(bytes);
    if shown(a, kind, start, len, value) {
        lemma_shown_in(a, all, kind, start, len, value);
    } else if shown(b, kind, start, len, value) {
        lemma_shown_behind(a, b, kind, start, len, value);
        lemma_shown_in(a + b, all, kind, start, len, value);
    } else if shown(c, kind, start, len, value) {
        lemma_shown_behind(a + b, c, kind, start, len, value);
        lemma_shown_in(a + b + c, all, kind, start, len, value);
    } else {
        lemma_shown_behind(a + b + c, d, kind, start, len, value);
    }
    lemma_shown_in(all, claims_of(bytes), kind, start, len, value);
}

// The file header.

/// A field of the file header.
pub open spec fn header_field(name: &'static str) -> ClaimKind {
    ClaimKind::FileHeaderField { name }
}

/// The file header is claimed, and each of its fields under its name, at its place, with the
/// number that stands there.
pub proof fn law_the_file_header_is_explained(bytes: Seq<u8>)
    requires
        layout::outcome(bytes) is Ok,
        bytes.len() <= u64::MAX,
    ensures
        ({
            let c = claims_of(bytes);
            &&& shown(c, ClaimKind::FileHeader, 0, 64, ValueView::Nothing)
            &&& shown(c, header_field("e_ident"), 0, 16, ValueView::Nothing)
            &&& shown(c, header_field("ei_mag"), 0, 4, ValueView::Raw)
            &&& shown(c, header_field("ei_class"), 4, 1, ValueView::Unsigned(bytes[4] as u64))
            &&& shown(c, header_field("ei_data"), 5, 1, ValueView::Unsigned(bytes[5] as u64))
            &&& shown(c, header_field("ei_version"), 6, 1, ValueView::Unsigned(bytes[6] as u64))
            &&& shown(c, header_field("ei_osabi"), 7, 1, ValueView::Unsigned(bytes[7] as u64))
            &&& shown(c, header_field("ei_abiversion"), 8, 1, ValueView::Unsigned(bytes[8] as u64))
            &&& shown(c, header_field("ei_pad"), 9, 7, ValueView::Raw)
            &&& shown(c, header_field("e_type"), 16, 2, plain(bytes, 16, 2))
            &&& shown(c, header_field("e_machine"), 18, 2, plain(bytes, 18, 2))
            &&& shown(c, header_field("e_version"), 20, 4, plain(bytes, 20, 4))
            &&& shown(c, header_field("e_entry"), 24, 8, address(bytes, 24))
            &&& shown(c, header_field("e_phoff"), 32, 8, place(bytes, 32))
            &&& shown(c, header_field("e_shoff"), 40, 8, place(bytes, 40))
            &&& shown(c, header_field("e_flags"), 48, 4, flags(bytes, 48, 4))
            &&& shown(c, header_field("e_ehsize"), 52, 2, plain(bytes, 52, 2))
            &&& shown(c, header_field("e_phentsize"), 54, 2, plain(bytes, 54, 2))
            &&& shown(c, header_field("e_phnum"), 56, 2, plain(bytes, 56, 2))
            &&& shown(c, header_field("e_shentsize"), 58, 2, plain(bytes, 58, 2))
            &&& shown(c, header_field("e_shnum"), 60, 2, plain(bytes, 60, 2))
            &&& shown(c, header_field("e_shstrndx"), 62, 2, plain(bytes, 62, 2))
        }),
{
    decoded::lemma_num(bytes, 16);
    decoded::lemma_num(bytes, 18);
    decoded::lemma_num(bytes, 20);
    decoded::lemma_num(bytes, 24);
    decoded::lemma_num(bytes, 32);
    decoded::lemma_num(bytes, 40);
    decoded::lemma_num(bytes, 48);
    decoded::lemma_num(bytes, 52);
    decoded::lemma_num(bytes, 54);
    decoded::lemma_num(bytes, 56);
    decoded::lemma_num(bytes, 58);
    decoded::lemma_num(bytes, 60);
    decoded::lemma_num(bytes, 62);
    let none = ValueView::Nothing;
    lemma_header_at(bytes, 0, ClaimKind::FileHeader, 0, 64, none);
    lemma_header_at(bytes, 1, header_field("e_ident"), 0, 16, none);
    lemma_header_at(bytes, 2, header_field("ei_mag"), 0, 4, ValueView::Raw);
    lemma_header_at(
        bytes,
        3,
        header_field("ei_class"),
        4,
        1,
        ValueView::Unsigned(bytes[4] as u64),
    );
    lemma_header_at(bytes, 4, header_field("ei_data"), 5, 1, ValueView::Unsigned(bytes[5] as u64));
    lemma_header_at(
        bytes,
        5,
        header_field("ei_version"),
        6,
        1,
        ValueView::Unsigned(bytes[6] as u64),
    );
    lemma_header_at(
        bytes,
        6,
        header_field("ei_osabi"),
        7,
        1,
        ValueView::Unsigned(bytes[7] as u64),
    );
    lemma_header_at(
        bytes,
        7,
        header_field("ei_abiversion"),
        8,
        1,
        ValueView::Unsigned(bytes[8] as u64),
    );
    lemma_header_at(bytes, 8, header_field("ei_pad"), 9, 7, ValueView::Raw);
    lemma_header_at(bytes, 9, header_field("e_type"), 16, 2, plain(bytes, 16, 2));
    lemma_header_at(bytes, 10, header_field("e_machine"), 18, 2, plain(bytes, 18, 2));
    lemma_header_at(bytes, 11, header_field("e_version"), 20, 4, plain(bytes, 20, 4));
    lemma_header_at(bytes, 12, header_field("e_entry"), 24, 8, address(bytes, 24));
    lemma_header_at(bytes, 13, header_field("e_phoff"), 32, 8, place(bytes, 32));
    lemma_header_at(bytes, 14, header_field("e_shoff"), 40, 8, place(bytes, 40));
    lemma_header_at(bytes, 15, header_field("e_flags"), 48, 4, flags(bytes, 48, 4));
    lemma_header_at(bytes, 16, header_field("e_ehsize"), 52, 2, plain(bytes, 52, 2));
    lemma_header_at(bytes, 17, header_field("e_phentsize"), 54, 2, plain(bytes, 54, 2));
    lemma_header_at(bytes, 18, header_field("e_phnum"), 56, 2, plain(bytes, 56, 2));
    lemma_header_at(bytes, 19, header_field("e_shentsize"), 58, 2, plain(bytes, 58, 2));
    lemma_header_at(bytes, 20, header_field("e_shnum"), 60, 2, plain(bytes, 60, 2));
    lemma_header_at(bytes, 21, header_field("e_shstrndx"), 62, 2, plain(bytes, 62, 2));
}

proof fn lemma_header_at(
    bytes: Seq<u8>,
    k: int,
    kind: ClaimKind,
    start: int,
    len: int,
    value: ValueView,
)
    requires
        layout::outcome(bytes) is Ok,
        0 <= k < layout::header(bytes).len(),
        says(layout::header(bytes)[k], kind, start, len, value),
    ensures
        shown(claims_of(bytes), kind, start, len, value),
{
    assert(shown(layout::header(bytes), kind, start, len, value));
    lemma_shown_in_whole(bytes, kind, start, len, value);
}

/// The number at a place, as a plain number.
pub open spec fn plain(bytes: Seq<u8>, at: int, n: int) -> ValueView {
    ValueView::Unsigned(decoded::num(bytes, at, n) as u64)
}

/// The number at a place, as an address.
pub open spec fn address(bytes: Seq<u8>, at: int) -> ValueView {
    ValueView::Address(decoded::num(bytes, at, 8) as u64)
}

/// The number at a place, as a place in the file.
pub open spec fn place(bytes: Seq<u8>, at: int) -> ValueView {
    ValueView::FileOffset(decoded::num(bytes, at, 8) as u64)
}

/// The number at a place, as flags.
pub open spec fn flags(bytes: Seq<u8>, at: int, n: int) -> ValueView {
    ValueView::Flags(decoded::num(bytes, at, n) as u64)
}

// The header tables.

/// Where section header `i` is.
pub open spec fn section_header_at(bytes: Seq<u8>, i: int) -> int {
    decoded::num(bytes, 40, 8) + i * decoded::num(bytes, 58, 2)
}

/// Where program header `i` is.
pub open spec fn program_header_at(bytes: Seq<u8>, i: int) -> int {
    decoded::num(bytes, 32, 8) + i * decoded::num(bytes, 54, 2)
}

/// A field of section header `i`.
pub open spec fn section_field(i: int, name: &'static str) -> ClaimKind {
    ClaimKind::SectionHeaderField { idx: i as u32, name }
}

/// A field of program header `i`.
pub open spec fn program_field(i: int, name: &'static str) -> ClaimKind {
    ClaimKind::ProgramHeaderField { idx: i as u32, name }
}

proof fn lemma_section_rows_grow(
    bytes: Seq<u8>,
    secs: Seq<SectionInfo>,
    n: int,
    m: int,
    start: int,
)
    requires
        0 <= n <= m,
    ensures
        extends(
            layout::section_rows(bytes, secs, n, start),
            layout::section_rows(bytes, secs, m, start),
        ),
    decreases m,
{
    reveal(layout::fit);
    if n < m {
        lemma_section_rows_grow(bytes, secs, n, m - 1, start);
    }
}

proof fn lemma_program_rows_grow(bytes: Seq<u8>, n: int, m: int, start: int)
    requires
        0 <= n <= m,
    ensures
        extends(layout::program_rows(bytes, n, start), layout::program_rows(bytes, m, start)),
    decreases m,
{
    reveal(layout::fit);
    if n < m {
        lemma_program_rows_grow(bytes, n, m - 1, start);
    }
}

proof fn lemma_section_at(
    bytes: Seq<u8>,
    i: int,
    k: int,
    kind: ClaimKind,
    at: int,
    len: int,
    value: ValueView,
)
    requires
        layout::outcome(bytes) is Ok,
        bytes.len() <= u64::MAX,
        0 <= i < decoded::sh_count(bytes),
        ({
            let start = layout::header(bytes).len() as int;
            let secs = layout::sections(bytes);
            let s = layout::section_rows(bytes, secs, i, start);
            let t = layout::section_rows(bytes, secs, i + 1, start);
            0 <= k && s.len() + k < t.len() && says(t[s.len() + k], kind, at, len, value)
        }),
    ensures
        shown(claims_of(bytes), kind, at, len, value),
{
    decoded::lemma_counts(bytes);
    let start = layout::header(bytes).len() as int;
    let secs = layout::sections(bytes);
    let t = layout::section_rows(bytes, secs, i + 1, start);
    let n = layout::shnum(bytes) as int;
    assert(shown(t, kind, at, len, value));
    lemma_section_rows_grow(bytes, secs, i + 1, n, start);
    lemma_shown_in(t, layout::section_rows(bytes, secs, n, start), kind, at, len, value);
    lemma_shown_in_whole(bytes, kind, at, len, value);
}

proof fn lemma_program_at(
    bytes: Seq<u8>,
    i: int,
    k: int,
    kind: ClaimKind,
    at: int,
    len: int,
    value: ValueView,
)
    requires
        layout::outcome(bytes) is Ok,
        bytes.len() <= u64::MAX,
        0 <= i < decoded::ph_count(bytes),
        ({
            let a = layout::header(bytes);
            let b = layout::section_table(bytes, a.len() as int);
            let start = (a + b).len() as int;
            let s = layout::program_rows(bytes, i, start);
            let t = layout::program_rows(bytes, i + 1, start);
            0 <= k && s.len() + k < t.len() && says(t[s.len() + k], kind, at, len, value)
        }),
    ensures
        shown(claims_of(bytes), kind, at, len, value),
{
    decoded::lemma_counts(bytes);
    let a = layout::header(bytes);
    let b = layout::section_table(bytes, a.len() as int);
    let start = (a + b).len() as int;
    let t = layout::program_rows(bytes, i + 1, start);
    let n = layout::phnum(bytes) as int;
    assert(shown(t, kind, at, len, value));
    lemma_program_rows_grow(bytes, i + 1, n, start);
    lemma_shown_in(t, layout::program_rows(bytes, n, start), kind, at, len, value);
    lemma_shown_in_whole(bytes, kind, at, len, value);
}

/// What a row of the section header table holds, claim by claim.
spec fn section_row_says(bytes: Seq<u8>, i: int, k: int, c: ClaimView) -> bool {
    let at = section_header_at(bytes, i);
    if k == 0 {
        says(
            c,
            ClaimKind::SectionHeader { idx: i as u32 },
            at,
            decoded::num(bytes, 58, 2),
            ValueView::Nothing,
        )
    } else if k == 1 {
        says(c, section_field(i, "sh_name"), at, 4, plain(bytes, at, 4))
    } else if k == 2 {
        says(c, section_field(i, "sh_type"), at + 4, 4, plain(bytes, at + 4, 4))
    } else if k == 3 {
        says(c, section_field(i, "sh_flags"), at + 8, 8, flags(bytes, at + 8, 8))
    } else if k == 4 {
        says(c, section_field(i, "sh_addr"), at + 16, 8, address(bytes, at + 16))
    } else if k == 5 {
        says(c, section_field(i, "sh_offset"), at + 24, 8, place(bytes, at + 24))
    } else if k == 6 {
        says(c, section_field(i, "sh_size"), at + 32, 8, plain(bytes, at + 32, 8))
    } else if k == 7 {
        says(c, section_field(i, "sh_link"), at + 40, 4, plain(bytes, at + 40, 4))
    } else if k == 8 {
        says(c, section_field(i, "sh_info"), at + 44, 4, plain(bytes, at + 44, 4))
    } else if k == 9 {
        says(c, section_field(i, "sh_addralign"), at + 48, 8, plain(bytes, at + 48, 8))
    } else {
        says(c, section_field(i, "sh_entsize"), at + 56, 8, plain(bytes, at + 56, 8))
    }
}

proof fn lemma_section_row(bytes: Seq<u8>, i: int, start: int)
    requires
        decoded::whole(bytes),
        0 <= i < decoded::sh_count(bytes),
        i <= u32::MAX,
        decoded::num(bytes, 58, 2) >= 64,
    ensures
        ({
            let secs = layout::sections(bytes);
            let s = layout::section_rows(bytes, secs, i, start);
            let t = layout::section_rows(bytes, secs, i + 1, start);
            &&& t.len() == s.len() + 11
            &&& forall|k: int|
                0 <= k < 11 ==> #[trigger] section_row_says(bytes, i, k, t[s.len() + k])
        }),
{
    reveal(layout::fit);
    decoded::lemma_counts(bytes);
    decoded::lemma_section(bytes, i);
    let secs = layout::sections(bytes);
    let off = layout::shoff(bytes);
    let size = layout::shentsize(bytes);
    decoded::lemma_row(off, layout::shnum(bytes), size, i, bytes.len() as int);
    let base = layout::row(off, i, size);
    decoded::lemma_num_sat(bytes, base, 8);
    decoded::lemma_num_sat(bytes, base, 16);
    decoded::lemma_num_sat(bytes, base, 44);
    decoded::lemma_num_sat(bytes, base, 48);
}

/// Each section header is claimed where the file header puts it, and each of its fields under
/// its name, at its place, with the number that stands there.
pub proof fn law_section_headers_are_explained(bytes: Seq<u8>, i: int)
    requires
        layout::outcome(bytes) is Ok,
        bytes.len() <= u64::MAX,
        0 <= i < decoded::sh_count(bytes),
        i <= u32::MAX,
        decoded::num(bytes, 58, 2) >= 64,
    ensures
        ({
            let c = claims_of(bytes);
            let at = section_header_at(bytes, i);
            &&& shown(
                c,
                ClaimKind::SectionHeader { idx: i as u32 },
                at,
                decoded::num(bytes, 58, 2),
                ValueView::Nothing,
            )
            &&& shown(c, section_field(i, "sh_name"), at, 4, plain(bytes, at, 4))
            &&& shown(c, section_field(i, "sh_type"), at + 4, 4, plain(bytes, at + 4, 4))
            &&& shown(c, section_field(i, "sh_flags"), at + 8, 8, flags(bytes, at + 8, 8))
            &&& shown(c, section_field(i, "sh_addr"), at + 16, 8, address(bytes, at + 16))
            &&& shown(c, section_field(i, "sh_offset"), at + 24, 8, place(bytes, at + 24))
            &&& shown(c, section_field(i, "sh_size"), at + 32, 8, plain(bytes, at + 32, 8))
            &&& shown(c, section_field(i, "sh_link"), at + 40, 4, plain(bytes, at + 40, 4))
            &&& shown(c, section_field(i, "sh_info"), at + 44, 4, plain(bytes, at + 44, 4))
            &&& shown(c, section_field(i, "sh_addralign"), at + 48, 8, plain(bytes, at + 48, 8))
            &&& shown(c, section_field(i, "sh_entsize"), at + 56, 8, plain(bytes, at + 56, 8))
        }),
{
    decoded::lemma_whole(bytes);
    let start = layout::header(bytes).len() as int;
    let secs = layout::sections(bytes);
    let s = layout::section_rows(bytes, secs, i, start);
    let t = layout::section_rows(bytes, secs, i + 1, start);
    let n = s.len() as int;
    lemma_section_row(bytes, i, start);
    let at = section_header_at(bytes, i);
    assert(section_row_says(bytes, i, 0, t[n + 0]));
    lemma_section_at(
        bytes,
        i,
        0,
        ClaimKind::SectionHeader { idx: i as u32 },
        at,
        decoded::num(bytes, 58, 2),
        ValueView::Nothing,
    );
    assert(section_row_says(bytes, i, 1, t[n + 1]));
    lemma_section_at(bytes, i, 1, section_field(i, "sh_name"), at, 4, plain(bytes, at, 4));
    assert(section_row_says(bytes, i, 2, t[n + 2]));
    lemma_section_at(bytes, i, 2, section_field(i, "sh_type"), at + 4, 4, plain(bytes, at + 4, 4));
    assert(section_row_says(bytes, i, 3, t[n + 3]));
    lemma_section_at(
        bytes,
        i,
        3,
        section_field(i, "sh_flags"),
        at + 8,
        8,
        flags(bytes, at + 8, 8),
    );
    assert(section_row_says(bytes, i, 4, t[n + 4]));
    lemma_section_at(bytes, i, 4, section_field(i, "sh_addr"), at + 16, 8, address(bytes, at + 16));
    assert(section_row_says(bytes, i, 5, t[n + 5]));
    lemma_section_at(bytes, i, 5, section_field(i, "sh_offset"), at + 24, 8, place(bytes, at + 24));
    assert(section_row_says(bytes, i, 6, t[n + 6]));
    lemma_section_at(
        bytes,
        i,
        6,
        section_field(i, "sh_size"),
        at + 32,
        8,
        plain(bytes, at + 32, 8),
    );
    assert(section_row_says(bytes, i, 7, t[n + 7]));
    lemma_section_at(
        bytes,
        i,
        7,
        section_field(i, "sh_link"),
        at + 40,
        4,
        plain(bytes, at + 40, 4),
    );
    assert(section_row_says(bytes, i, 8, t[n + 8]));
    lemma_section_at(
        bytes,
        i,
        8,
        section_field(i, "sh_info"),
        at + 44,
        4,
        plain(bytes, at + 44, 4),
    );
    assert(section_row_says(bytes, i, 9, t[n + 9]));
    lemma_section_at(
        bytes,
        i,
        9,
        section_field(i, "sh_addralign"),
        at + 48,
        8,
        plain(bytes, at + 48, 8),
    );
    assert(section_row_says(bytes, i, 10, t[n + 10]));
    lemma_section_at(
        bytes,
        i,
        10,
        section_field(i, "sh_entsize"),
        at + 56,
        8,
        plain(bytes, at + 56, 8),
    );
}

/// What a row of the program header table holds, claim by claim.
spec fn program_row_says(bytes: Seq<u8>, i: int, k: int, c: ClaimView) -> bool {
    let at = program_header_at(bytes, i);
    if k == 0 {
        says(
            c,
            ClaimKind::ProgramHeader { idx: i as u32 },
            at,
            decoded::num(bytes, 54, 2),
            ValueView::Nothing,
        )
    } else if k == 1 {
        says(c, program_field(i, "p_type"), at, 4, plain(bytes, at, 4))
    } else if k == 2 {
        says(c, program_field(i, "p_flags"), at + 4, 4, flags(bytes, at + 4, 4))
    } else if k == 3 {
        says(c, program_field(i, "p_offset"), at + 8, 8, place(bytes, at + 8))
    } else if k == 4 {
        says(c, program_field(i, "p_vaddr"), at + 16, 8, address(bytes, at + 16))
    } else if k == 5 {
        says(c, program_field(i, "p_paddr"), at + 24, 8, address(bytes, at + 24))
    } else if k == 6 {
        says(c, program_field(i, "p_filesz"), at + 32, 8, plain(bytes, at + 32, 8))
    } else if k == 7 {
        says(c, program_field(i, "p_memsz"), at + 40, 8, plain(bytes, at + 40, 8))
    } else {
        says(c, program_field(i, "p_align"), at + 48, 8, plain(bytes, at + 48, 8))
    }
}

proof fn lemma_program_row(bytes: Seq<u8>, i: int, start: int)
    requires
        decoded::whole(bytes),
        0 <= i < decoded::ph_count(bytes),
        i <= u32::MAX,
        decoded::num(bytes, 54, 2) >= 56,
    ensures
        ({
            let s = layout::program_rows(bytes, i, start);
            let t = layout::program_rows(bytes, i + 1, start);
            &&& t.len() == s.len() + 9
            &&& forall|k: int|
                0 <= k < 9 ==> #[trigger] program_row_says(bytes, i, k, t[s.len() + k])
        }),
{
    reveal(layout::fit);
    decoded::lemma_counts(bytes);
    decoded::lemma_segment(bytes, i);
    let off = layout::phoff(bytes);
    let size = layout::phentsize(bytes);
    decoded::lemma_row(off, layout::phnum(bytes), size, i, bytes.len() as int);
    let base = layout::row(off, i, size);
    decoded::lemma_num_sat(bytes, base, 24);
}

/// Each program header is claimed where the file header puts it, and each of its fields under
/// its name, at its place, with the number that stands there.
pub proof fn law_program_headers_are_explained(bytes: Seq<u8>, i: int)
    requires
        layout::outcome(bytes) is Ok,
        bytes.len() <= u64::MAX,
        0 <= i < decoded::ph_count(bytes),
        i <= u32::MAX,
        decoded::num(bytes, 54, 2) >= 56,
    ensures
        ({
            let c = claims_of(bytes);
            let at = program_header_at(bytes, i);
            &&& shown(
                c,
                ClaimKind::ProgramHeader { idx: i as u32 },
                at,
                decoded::num(bytes, 54, 2),
                ValueView::Nothing,
            )
            &&& shown(c, program_field(i, "p_type"), at, 4, plain(bytes, at, 4))
            &&& shown(c, program_field(i, "p_flags"), at + 4, 4, flags(bytes, at + 4, 4))
            &&& shown(c, program_field(i, "p_offset"), at + 8, 8, place(bytes, at + 8))
            &&& shown(c, program_field(i, "p_vaddr"), at + 16, 8, address(bytes, at + 16))
            &&& shown(c, program_field(i, "p_paddr"), at + 24, 8, address(bytes, at + 24))
            &&& shown(c, program_field(i, "p_filesz"), at + 32, 8, plain(bytes, at + 32, 8))
            &&& shown(c, program_field(i, "p_memsz"), at + 40, 8, plain(bytes, at + 40, 8))
            &&& shown(c, program_field(i, "p_align"), at + 48, 8, plain(bytes, at + 48, 8))
        }),
{
    decoded::lemma_whole(bytes);
    let a = layout::header(bytes);
    let b = layout::section_table(bytes, a.len() as int);
    let start = (a + b).len() as int;
    let s = layout::program_rows(bytes, i, start);
    let t = layout::program_rows(bytes, i + 1, start);
    let n = s.len() as int;
    lemma_program_row(bytes, i, start);
    let at = program_header_at(bytes, i);
    assert(program_row_says(bytes, i, 0, t[n + 0]));
    lemma_program_at(
        bytes,
        i,
        0,
        ClaimKind::ProgramHeader { idx: i as u32 },
        at,
        decoded::num(bytes, 54, 2),
        ValueView::Nothing,
    );
    assert(program_row_says(bytes, i, 1, t[n + 1]));
    lemma_program_at(bytes, i, 1, program_field(i, "p_type"), at, 4, plain(bytes, at, 4));
    assert(program_row_says(bytes, i, 2, t[n + 2]));
    lemma_program_at(bytes, i, 2, program_field(i, "p_flags"), at + 4, 4, flags(bytes, at + 4, 4));
    assert(program_row_says(bytes, i, 3, t[n + 3]));
    lemma_program_at(bytes, i, 3, program_field(i, "p_offset"), at + 8, 8, place(bytes, at + 8));
    assert(program_row_says(bytes, i, 4, t[n + 4]));
    lemma_program_at(bytes, i, 4, program_field(i, "p_vaddr"), at + 16, 8, address(bytes, at + 16));
    assert(program_row_says(bytes, i, 5, t[n + 5]));
    lemma_program_at(bytes, i, 5, program_field(i, "p_paddr"), at + 24, 8, address(bytes, at + 24));
    assert(program_row_says(bytes, i, 6, t[n + 6]));
    lemma_program_at(
        bytes,
        i,
        6,
        program_field(i, "p_filesz"),
        at + 32,
        8,
        plain(bytes, at + 32, 8),
    );
    assert(program_row_says(bytes, i, 7, t[n + 7]));
    lemma_program_at(
        bytes,
        i,
        7,
        program_field(i, "p_memsz"),
        at + 40,
        8,
        plain(bytes, at + 40, 8),
    );
    assert(program_row_says(bytes, i, 8, t[n + 8]));
    lemma_program_at(
        bytes,
        i,
        8,
        program_field(i, "p_align"),
        at + 48,
        8,
        plain(bytes, at + 48, 8),
    );
}

/// The two header tables are claimed whole, where the file header puts them.
pub proof fn law_header_tables_are_explained(bytes: Seq<u8>)
    requires
        layout::outcome(bytes) is Ok,
        bytes.len() <= u64::MAX,
    ensures
        decoded::sh_count(bytes) > 0 ==> shown(
            claims_of(bytes),
            ClaimKind::SectionHeaderTable,
            decoded::num(bytes, 40, 8),
            decoded::sh_count(bytes) * decoded::num(bytes, 58, 2),
            ValueView::Nothing,
        ),
        decoded::ph_count(bytes) > 0 ==> shown(
            claims_of(bytes),
            ClaimKind::ProgramHeaderTable,
            decoded::num(bytes, 32, 8),
            decoded::ph_count(bytes) * decoded::num(bytes, 54, 2),
            ValueView::Nothing,
        ),
{
    decoded::lemma_counts(bytes);
    decoded::lemma_whole(bytes);
    let a = layout::header(bytes);
    let b = layout::section_table(bytes, a.len() as int);
    let none = ValueView::Nothing;
    if decoded::sh_count(bytes) > 0 {
        let start = a.len() as int;
        let secs = layout::sections(bytes);
        let n = layout::shnum(bytes) as int;
        let s = layout::section_rows(bytes, secs, 0, start);
        let at = decoded::num(bytes, 40, 8);
        let len = decoded::sh_count(bytes) * decoded::num(bytes, 58, 2);
        assert(layout::sat_mul(layout::shnum(bytes), layout::shentsize(bytes)) == len);
        assert(says(s[0], ClaimKind::SectionHeaderTable, at, len, none));
        assert(shown(s, ClaimKind::SectionHeaderTable, at, len, none));
        lemma_section_rows_grow(bytes, secs, 0, n, start);
        lemma_shown_in(
            s,
            layout::section_rows(bytes, secs, n, start),
            ClaimKind::SectionHeaderTable,
            at,
            len,
            none,
        );
        lemma_shown_in_whole(bytes, ClaimKind::SectionHeaderTable, at, len, none);
    }
    if decoded::ph_count(bytes) > 0 {
        let start = (a + b).len() as int;
        let n = layout::phnum(bytes) as int;
        let s = layout::program_rows(bytes, 0, start);
        let at = decoded::num(bytes, 32, 8);
        let len = decoded::ph_count(bytes) * decoded::num(bytes, 54, 2);
        assert(layout::sat_mul(layout::phnum(bytes), layout::phentsize(bytes)) == len);
        assert(says(s[0], ClaimKind::ProgramHeaderTable, at, len, none));
        assert(shown(s, ClaimKind::ProgramHeaderTable, at, len, none));
        lemma_program_rows_grow(bytes, 0, n, start);
        lemma_shown_in(
            s,
            layout::program_rows(bytes, n, start),
            ClaimKind::ProgramHeaderTable,
            at,
            len,
            none,
        );
        lemma_shown_in_whole(bytes, ClaimKind::ProgramHeaderTable, at, len, none);
    }
}

// The sections.

/// Section `i` has bytes in the file.
pub open spec fn has_body(bytes: Seq<u8>, i: int) -> bool {
    &&& 0 <= i < decoded::sh_count(bytes)
    &&& decoded::sh(bytes, i, 4, 4) != 0
    &&& decoded::sh(bytes, i, 4, 4) != 8
    &&& decoded::sh(bytes, i, 32, 8) != 0
    &&& decoded::sh(bytes, i, 24, 8) + decoded::sh(bytes, i, 32, 8) <= bytes.len()
}

/// What the bytes of section `i` are, by the number of its type; one of no particular type is
/// the name of the interpreter where the section is called so.
pub open spec fn body_of(bytes: Seq<u8>, i: int) -> ClaimKind {
    let t = decoded::sh(bytes, i, 4, 4);
    let idx = i as u32;
    if t == 2 {
        ClaimKind::SymbolTable { dynamic: false }
    } else if t == 3 {
        ClaimKind::StringTable { table: idx }
    } else if t == 4 {
        ClaimKind::RelocationTable { kind: RelocTableKind::Rela }
    } else if t == 5 {
        ClaimKind::HashTable { gnu: false }
    } else if t == 6 {
        ClaimKind::DynamicTable
    } else if t == 9 {
        ClaimKind::RelocationTable { kind: RelocTableKind::Rel }
    } else if t == 11 {
        ClaimKind::SymbolTable { dynamic: true }
    } else if t == 19 {
        ClaimKind::RelocationTable { kind: RelocTableKind::Relr }
    } else if t == 0x6fff_fff6 {
        ClaimKind::HashTable { gnu: true }
    } else if t == 0x6fff_fffd {
        ClaimKind::VersionTable { kind: VersionTableKind::VerDef }
    } else if t == 0x6fff_fffe {
        ClaimKind::VersionTable { kind: VersionTableKind::VerNeed }
    } else if t == 0x6fff_ffff {
        ClaimKind::VersionTable { kind: VersionTableKind::VerSym }
    } else if decoded::string_in(bytes, decoded::num(bytes, 62, 2), decoded::sh(bytes, i, 0, 4))
        == ".interp"@ {
        ClaimKind::Interp
    } else {
        ClaimKind::SectionBody { idx }
    }
}

proof fn lemma_strings_extend(
    s: Seq<ClaimView>,
    bytes: Seq<u8>,
    sec: SectionInfo,
    table: u32,
    parent: ClaimId,
    off: u64,
)
    ensures
        extends(s, layout::strings(s, bytes, sec, table, parent, off)),
    decreases sec.size - off,
{
    if off < sec.size {
        lemma_strings_extend(
            s.push(layout::string_claim(bytes, sec, table, parent, off)),
            bytes,
            sec,
            table,
            parent,
            (off + layout::string_span(bytes, sec, off)) as u64,
        );
    }
}

proof fn lemma_notes_extend(
    s: Seq<ClaimView>,
    bytes: Seq<u8>,
    sec: SectionInfo,
    parent: ClaimId,
    off: u64,
    idx: u32,
)
    ensures
        extends(s, layout::notes(s, bytes, sec, parent, off, idx)),
    decreases sec.size - off,
{
    let base = span::sat_add(sec.offset, off);
    let total = layout::note_len(bytes, base);
    if !(span::sat_add(off, 12) > sec.size || span::sat_add(off, total) > sec.size || off
        >= sec.size || total == 0) {
        lemma_notes_extend(
            s.push(layout::note_claim(bytes, base, parent, idx)),
            bytes,
            sec,
            parent,
            span::sat_add(off, total),
            if idx == u32::MAX {
                idx
            } else {
                (idx + 1) as u32
            },
        );
    }
}

proof fn lemma_symbols_listed(
    s: Seq<ClaimView>,
    bytes: Seq<u8>,
    secs: Seq<SectionInfo>,
    sec: SectionInfo,
    table: u32,
    parent: ClaimId,
    n: int,
)
    requires
        0 <= n,
    ensures
        ({
            let t = layout::symbols(s, bytes, secs, sec, table, parent, n);
            &&& extends(s, t)
            &&& t.len() == s.len() + n
            &&& forall|j: int|
                0 <= j < n ==> #[trigger] t[s.len() + j] == layout::symbol(
                    bytes,
                    secs,
                    sec,
                    table,
                    parent,
                    j,
                )
        }),
    decreases n,
{
    if n > 0 {
        lemma_symbols_listed(s, bytes, secs, sec, table, parent, n - 1);
    }
}

proof fn lemma_relocs_listed(
    s: Seq<ClaimView>,
    bytes: Seq<u8>,
    secs: Seq<SectionInfo>,
    sec: SectionInfo,
    rela: bool,
    name: Seq<char>,
    table: u32,
    parent: ClaimId,
    n: int,
)
    requires
        0 <= n,
    ensures
        ({
            let t = layout::reloc_claims(s, bytes, secs, sec, rela, name, table, parent, n);
            &&& extends(s, t)
            &&& t.len() == s.len() + n
            &&& forall|j: int|
                0 <= j < n ==> #[trigger] t[s.len() + j] == layout::reloc_claim(
                    layout::reloc(bytes, secs, sec, rela, name, j),
                    table,
                    parent,
                    j,
                )
        }),
    decreases n,
{
    if n > 0 {
        lemma_relocs_listed(s, bytes, secs, sec, rela, name, table, parent, n - 1);
    }
}

proof fn lemma_relr_listed(
    s: Seq<ClaimView>,
    bytes: Seq<u8>,
    sec: SectionInfo,
    table: u32,
    parent: ClaimId,
    n: int,
)
    requires
        0 <= n,
    ensures
        ({
            let t = layout::relr_claims(s, bytes, sec, table, parent, n);
            &&& extends(s, t)
            &&& t.len() == s.len() + n
            &&& forall|j: int|
                0 <= j < n ==> #[trigger] t[s.len() + j] == layout::relr_claim(
                    bytes,
                    sec,
                    table,
                    parent,
                    j,
                )
        }),
    decreases n,
{
    if n > 0 {
        lemma_relr_listed(s, bytes, sec, table, parent, n - 1);
    }
}

proof fn lemma_dyn_listed(
    s: Seq<ClaimView>,
    bytes: Seq<u8>,
    secs: Seq<SectionInfo>,
    sec: SectionInfo,
    parent: ClaimId,
    n: int,
)
    requires
        0 <= n,
    ensures
        ({
            let t = layout::dyn_claims(s, bytes, secs, sec, parent, n);
            &&& extends(s, t)
            &&& t.len() == s.len() + n
            &&& forall|j: int|
                0 <= j < n ==> #[trigger] t[s.len() + j] == layout::dyn_claim(
                    bytes,
                    secs,
                    sec,
                    parent,
                    j,
                )
        }),
    decreases n,
{
    if n > 0 {
        lemma_dyn_listed(s, bytes, secs, sec, parent, n - 1);
    }
}

/// The claim of the body of a section, before the entries in it.
spec fn opened(s: Seq<ClaimView>, bytes: Seq<u8>, secs: Seq<SectionInfo>, i: int) -> Seq<
    ClaimView,
> {
    let sec = secs[i];
    let name = layout::section_name(bytes, secs, layout::shstrndx(bytes), sec.name_off);
    s.push(
        ClaimView::bare(
            layout::at(sec.offset, sec.size),
            layout::body_kind(sec, name, layout::narrow(i)),
        ).noted(
            if name.len() == 0 {
                "section "@ + text::dec(i)
            } else {
                name
            },
        ),
    )
}

proof fn lemma_body_extends(
    s: Seq<ClaimView>,
    bytes: Seq<u8>,
    secs: Seq<SectionInfo>,
    i: int,
    start: int,
)
    ensures
        extends(s, layout::body(s, bytes, secs, i, start)),
        !layout::skipped(bytes, secs[i]) ==> extends(
            opened(s, bytes, secs, i),
            layout::body(s, bytes, secs, i, start),
        ),
{
    let sec = secs[i];
    if !layout::skipped(bytes, sec) {
        let idx = layout::narrow(i);
        let parent = coverage::mint(start + s.len());
        let name = layout::section_name(bytes, secs, layout::shstrndx(bytes), sec.name_off);
        let t = opened(s, bytes, secs, i);
        lemma_strings_extend(t, bytes, sec, idx, parent, 0);
        lemma_notes_extend(t, bytes, sec, parent, 0, 0);
        let n = layout::entry_count(sec, layout::entry_size(sec, 24)) as int;
        lemma_symbols_listed(t, bytes, secs, sec, idx, parent, n);
        let rela = sec.sh_type == 4;
        let n = layout::entry_count(sec, layout::reloc_size(sec, rela)) as int;
        lemma_relocs_listed(t, bytes, secs, sec, rela, name, idx, parent, n);
        lemma_relr_listed(t, bytes, sec, idx, parent, layout::entry_count(sec, 8) as int);
        let n = layout::entry_count(sec, layout::entry_size(sec, 16)) as int;
        lemma_dyn_listed(t, bytes, secs, sec, parent, n);
    }
}

proof fn lemma_bodies_grow(
    bytes: Seq<u8>,
    secs: Seq<SectionInfo>,
    n: int,
    m: int,
    start: int,
)
    requires
        0 <= n <= m,
    ensures
        extends(
            layout::bodies(bytes, secs, n, start),
            layout::bodies(bytes, secs, m, start),
        ),
    decreases m,
{
    if n < m {
        lemma_bodies_grow(bytes, secs, n, m - 1, start);
        lemma_body_extends(
            layout::bodies(bytes, secs, m - 1, start),
            bytes,
            secs,
            m - 1,
            start,
        );
    }
}

/// How many claims stand before those of the sections.
spec fn before_bodies(bytes: Seq<u8>) -> int {
    let a = layout::header(bytes);
    let b = layout::section_table(bytes, a.len() as int);
    let c = layout::program_table(bytes, (a + b).len() as int);
    (a + b + c).len() as int
}

proof fn lemma_body_shown(
    bytes: Seq<u8>,
    i: int,
    k: int,
    kind: ClaimKind,
    at: int,
    len: int,
    value: ValueView,
)
    requires
        layout::outcome(bytes) is Ok,
        bytes.len() <= u64::MAX,
        0 <= i < decoded::sh_count(bytes),
        ({
            let t = layout::bodies(bytes, layout::sections(bytes), i + 1, before_bodies(bytes));
            0 <= k < t.len() && says(t[k], kind, at, len, value)
        }),
    ensures
        shown(claims_of(bytes), kind, at, len, value),
{
    decoded::lemma_counts(bytes);
    let secs = layout::sections(bytes);
    let start = before_bodies(bytes);
    let t = layout::bodies(bytes, secs, i + 1, start);
    let n = secs.len() as int;
    assert(shown(t, kind, at, len, value));
    lemma_bodies_grow(bytes, secs, i + 1, n, start);
    lemma_shown_in(t, layout::bodies(bytes, secs, n, start), kind, at, len, value);
    lemma_shown_in_whole(bytes, kind, at, len, value);
}

/// Each section with bytes in the file is claimed where its header puts it, as what the number
/// of its type says it is.
pub proof fn law_sections_are_explained(bytes: Seq<u8>, i: int)
    requires
        layout::outcome(bytes) is Ok,
        bytes.len() <= u64::MAX,
        has_body(bytes, i),
        i <= u32::MAX,
    ensures
        shown(
            claims_of(bytes),
            body_of(bytes, i),
            decoded::sh(bytes, i, 24, 8),
            decoded::sh(bytes, i, 32, 8),
            ValueView::Nothing,
        ),
{
    decoded::lemma_counts(bytes);
    decoded::lemma_whole(bytes);
    decoded::lemma_section(bytes, i);
    let secs = layout::sections(bytes);
    let start = before_bodies(bytes);
    let s = layout::bodies(bytes, secs, i, start);
    decoded::lemma_string_in(bytes, layout::shstrndx(bytes), secs[i].name_off);
    lemma_body_extends(s, bytes, secs, i, start);
    let o = opened(s, bytes, secs, i);
    let t = layout::bodies(bytes, secs, i + 1, start);
    assert(t[s.len() as int] == o[s.len() as int]);
    lemma_body_shown(
        bytes,
        i,
        s.len() as int,
        body_of(bytes, i),
        decoded::sh(bytes, i, 24, 8),
        decoded::sh(bytes, i, 32, 8),
        ValueView::Nothing,
    );
}

/// Each entry of the dynamic table is claimed where it stands, with its tag and its value.
pub proof fn law_dynamic_entries_are_explained(bytes: Seq<u8>, i: int, j: int)
    requires
        layout::outcome(bytes) is Ok,
        bytes.len() <= u64::MAX,
        has_body(bytes, i),
        decoded::sh(bytes, i, 4, 4) == 6,
        0 <= j < decoded::entries(bytes, i, 16),
        j <= u32::MAX,
    ensures
        ({
            let at = decoded::entry_at(bytes, i, j, 16);
            shown(
                claims_of(bytes),
                ClaimKind::DynamicEntry {
                    idx: j as u32,
                    tag: decoded::num(bytes, at, 8) as u64,
                },
                at,
                decoded::entry(bytes, i, 16),
                plain(bytes, at + 8, 8),
            )
        }),
{
    decoded::lemma_counts(bytes);
    decoded::lemma_whole(bytes);
    decoded::lemma_section(bytes, i);
    let secs = layout::sections(bytes);
    let sec = secs[i];
    let start = before_bodies(bytes);
    let s = layout::bodies(bytes, secs, i, start);
    let o = opened(s, bytes, secs, i);
    let parent = coverage::mint(start + s.len());
    let size = layout::entry_size(sec, 16);
    let n = layout::entry_count(sec, size) as int;
    decoded::lemma_entry(sec.offset, sec.size, size, j, bytes.len() as int);
    let base = layout::row(sec.offset, j, size);
    let at = decoded::entry_at(bytes, i, j, 16);
    assert(at == base);
    decoded::lemma_num(bytes, base as int);
    decoded::lemma_num_sat(bytes, base, 8);
    lemma_dyn_listed(o, bytes, secs, sec, parent, n);
    let t = layout::bodies(bytes, secs, i + 1, start);
    assert(t == layout::dyn_claims(o, bytes, secs, sec, parent, n));
    assert(t[o.len() + j] == layout::dyn_claim(bytes, secs, sec, parent, j));
    lemma_body_shown(
        bytes,
        i,
        o.len() + j,
        ClaimKind::DynamicEntry { idx: j as u32, tag: decoded::num(bytes, at, 8) as u64 },
        at,
        decoded::entry(bytes, i, 16),
        plain(bytes, at + 8, 8),
    );
}

/// Each symbol is claimed where it stands, with its value.
pub proof fn law_symbols_are_explained(bytes: Seq<u8>, i: int, j: int)
    requires
        layout::outcome(bytes) is Ok,
        bytes.len() <= u64::MAX,
        has_body(bytes, i),
        decoded::sh(bytes, i, 4, 4) == 2 || decoded::sh(bytes, i, 4, 4) == 11,
        0 <= j < decoded::entries(bytes, i, 24),
        i <= u32::MAX,
        j <= u32::MAX,
    ensures
        ({
            let at = decoded::entry_at(bytes, i, j, 24);
            shown(
                claims_of(bytes),
                ClaimKind::SymbolEntry { table: i as u32, idx: j as u32 },
                at,
                decoded::entry(bytes, i, 24),
                address(bytes, at + 8),
            )
        }),
{
    decoded::lemma_counts(bytes);
    decoded::lemma_whole(bytes);
    decoded::lemma_section(bytes, i);
    let secs = layout::sections(bytes);
    let sec = secs[i];
    let start = before_bodies(bytes);
    let s = layout::bodies(bytes, secs, i, start);
    let o = opened(s, bytes, secs, i);
    let parent = coverage::mint(start + s.len());
    let size = layout::entry_size(sec, 24);
    let n = layout::entry_count(sec, size) as int;
    decoded::lemma_entry(sec.offset, sec.size, size, j, bytes.len() as int);
    let base = layout::row(sec.offset, j, size);
    let at = decoded::entry_at(bytes, i, j, 24);
    assert(at == base);
    decoded::lemma_num_sat(bytes, base, 8);
    lemma_symbols_listed(o, bytes, secs, sec, layout::narrow(i), parent, n);
    let t = layout::bodies(bytes, secs, i + 1, start);
    assert(t == layout::symbols(o, bytes, secs, sec, layout::narrow(i), parent, n));
    assert(t[o.len() + j] == layout::symbol(bytes, secs, sec, layout::narrow(i), parent, j));
    lemma_body_shown(
        bytes,
        i,
        o.len() + j,
        ClaimKind::SymbolEntry { table: i as u32, idx: j as u32 },
        at,
        decoded::entry(bytes, i, 24),
        address(bytes, at + 8),
    );
}

/// Each relocation is claimed where it stands, with its type and the address that it changes.
pub proof fn law_relocations_are_explained(bytes: Seq<u8>, i: int, j: int)
    requires
        layout::outcome(bytes) is Ok,
        bytes.len() <= u64::MAX,
        has_body(bytes, i),
        decoded::sh(bytes, i, 4, 4) == 4 || decoded::sh(bytes, i, 4, 4) == 9,
        i <= u32::MAX,
        j <= u32::MAX,
        0 <= j < decoded::entries(bytes, i, entry_of(bytes, i)),
    ensures
        ({
            let at = decoded::entry_at(bytes, i, j, entry_of(bytes, i));
            shown(
                claims_of(bytes),
                ClaimKind::RelocationEntry {
                    table: i as u32,
                    idx: j as u32,
                    r_type: (decoded::num(bytes, at + 8, 8) % 0x1_0000_0000) as u32,
                },
                at,
                decoded::entry(bytes, i, entry_of(bytes, i)),
                address(bytes, at),
            )
        }),
{
    decoded::lemma_counts(bytes);
    decoded::lemma_whole(bytes);
    decoded::lemma_section(bytes, i);
    let secs = layout::sections(bytes);
    let sec = secs[i];
    let start = before_bodies(bytes);
    let s = layout::bodies(bytes, secs, i, start);
    let o = opened(s, bytes, secs, i);
    let parent = coverage::mint(start + s.len());
    let name = layout::section_name(bytes, secs, layout::shstrndx(bytes), sec.name_off);
    let rela = sec.sh_type == 4;
    let size = layout::reloc_size(sec, rela);
    let n = layout::entry_count(sec, size) as int;
    decoded::lemma_entry(sec.offset, sec.size, size, j, bytes.len() as int);
    let base = layout::row(sec.offset, j, size);
    let at = decoded::entry_at(bytes, i, j, entry_of(bytes, i));
    assert(at == base);
    decoded::lemma_num(bytes, base as int);
    decoded::lemma_num_sat(bytes, base, 8);
    let idx = layout::narrow(i);
    lemma_relocs_listed(o, bytes, secs, sec, rela, name, idx, parent, n);
    let t = layout::bodies(bytes, secs, i + 1, start);
    assert(t == layout::reloc_claims(o, bytes, secs, sec, rela, name, idx, parent, n));
    assert(t[o.len() + j] == layout::reloc_claim(
        layout::reloc(bytes, secs, sec, rela, name, j),
        idx,
        parent,
        j,
    ));
    lemma_body_shown(
        bytes,
        i,
        o.len() + j,
        ClaimKind::RelocationEntry {
            table: i as u32,
            idx: j as u32,
            r_type: (decoded::num(bytes, at + 8, 8) % 0x1_0000_0000) as u32,
        },
        at,
        decoded::entry(bytes, i, entry_of(bytes, i)),
        address(bytes, at),
    );
}

/// How long the relocations of section `i` are where it does not say: with an addend or
/// without.
pub open spec fn entry_of(bytes: Seq<u8>, i: int) -> int {
    if decoded::sh(bytes, i, 4, 4) == 4 {
        24
    } else {
        16
    }
}

/// Each word of packed relocations is claimed where it stands, with its number.
pub proof fn law_packed_words_are_explained(bytes: Seq<u8>, i: int, j: int)
    requires
        layout::outcome(bytes) is Ok,
        bytes.len() <= u64::MAX,
        has_body(bytes, i),
        decoded::sh(bytes, i, 4, 4) == 19,
        i <= u32::MAX,
        j <= u32::MAX,
        0 <= j < decoded::sh(bytes, i, 32, 8) / 8,
    ensures
        ({
            let at = decoded::sh(bytes, i, 24, 8) + 8 * j;
            shown(
                claims_of(bytes),
                ClaimKind::RelrWord { table: i as u32, idx: j as u32 },
                at,
                8,
                plain(bytes, at, 8),
            )
        }),
{
    decoded::lemma_counts(bytes);
    decoded::lemma_whole(bytes);
    decoded::lemma_section(bytes, i);
    let secs = layout::sections(bytes);
    let sec = secs[i];
    let start = before_bodies(bytes);
    let s = layout::bodies(bytes, secs, i, start);
    let o = opened(s, bytes, secs, i);
    let parent = coverage::mint(start + s.len());
    let n = layout::entry_count(sec, 8) as int;
    decoded::lemma_entry(sec.offset, sec.size, 8, j, bytes.len() as int);
    let base = layout::row(sec.offset, j, 8);
    let at = decoded::sh(bytes, i, 24, 8) + 8 * j;
    assert(at == base);
    decoded::lemma_num(bytes, base as int);
    lemma_relr_listed(o, bytes, sec, layout::narrow(i), parent, n);
    let t = layout::bodies(bytes, secs, i + 1, start);
    assert(t == layout::relr_claims(o, bytes, sec, layout::narrow(i), parent, n));
    assert(t[o.len() + j] == layout::relr_claim(bytes, sec, layout::narrow(i), parent, j));
    lemma_body_shown(
        bytes,
        i,
        o.len() + j,
        ClaimKind::RelrWord { table: i as u32, idx: j as u32 },
        at,
        8,
        plain(bytes, at, 8),
    );
}

// Strings.

/// The claim is that of the string at `p` of a table of `size` bytes at `off`: it goes on to
/// the first NUL and holds it, or to the end of the table.
pub open spec fn is_string(
    bytes: Seq<u8>,
    c: ClaimView,
    table: int,
    off: int,
    size: int,
    p: int,
) -> bool {
    let len = c.span.len as int;
    &&& c.kind == (ClaimKind::StringEntry { table: table as u32, offset: p as u32 })
    &&& c.span.file == FileId(0)
    &&& c.span.start == off + p
    &&& 1 <= len <= size - p
    &&& forall|q: int| 0 <= q < len - 1 ==> #[trigger] bytes[off + p + q] != 0
    &&& len == size - p || bytes[off + p + len - 1] == 0
}

proof fn lemma_string_claim(
    bytes: Seq<u8>,
    sec: SectionInfo,
    table: u32,
    parent: ClaimId,
    p: u64,
)
    requires
        sec.offset + sec.size <= bytes.len() <= u64::MAX,
        p < sec.size,
        p <= u32::MAX,
    ensures
        is_string(
            bytes,
            layout::string_claim(bytes, sec, table, parent, p),
            table as int,
            sec.offset as int,
            sec.size as int,
            p as int,
        ),
{
    let at = sec.offset + p;
    let raw = layout::string_bytes(bytes, sec, p);
    reader::law_cstr_stops_at_nul_or_cap(bytes, at, sec.size - p);
    let c = layout::string_claim(bytes, sec, table, parent, p);
    let len = c.span.len as int;
    assert forall|q: int| 0 <= q < len - 1 implies #[trigger] bytes[at + q] != 0 by {
        assert(raw[q] == bytes[at + q]);
    }
}

proof fn lemma_strings_show(
    s: Seq<ClaimView>,
    bytes: Seq<u8>,
    sec: SectionInfo,
    table: u32,
    parent: ClaimId,
    off: u64,
    p: u64,
) -> (k: int)
    requires
        sec.offset + sec.size <= bytes.len() <= u64::MAX,
        off <= p < sec.size,
        p <= u32::MAX,
        p == off || bytes[sec.offset + p - 1] == 0,
    ensures
        0 <= k < layout::strings(s, bytes, sec, table, parent, off).len(),
        layout::strings(s, bytes, sec, table, parent, off)[k] == layout::string_claim(
            bytes,
            sec,
            table,
            parent,
            p,
        ),
    decreases sec.size - off,
{
    let c = layout::string_claim(bytes, sec, table, parent, off);
    let next = (off + layout::string_span(bytes, sec, off)) as u64;
    lemma_strings_extend(s.push(c), bytes, sec, table, parent, next);
    if p == off {
        assert(s.push(c)[s.len() as int] == c);
        s.len() as int
    } else {
        lemma_string_claim(bytes, sec, table, parent, off);
        assert(next <= p) by {
            if next > p {
                let q = p - 1 - off;
                assert(bytes[sec.offset + off + q] != 0);
            }
        }
        lemma_strings_show(s.push(c), bytes, sec, table, parent, next, p)
    }
}

/// Each string of a string table is claimed where it stands: at the start of the table, and
/// behind each NUL in it.
pub proof fn law_strings_are_explained(bytes: Seq<u8>, i: int, p: int)
    requires
        layout::outcome(bytes) is Ok,
        bytes.len() <= u64::MAX,
        has_body(bytes, i),
        decoded::sh(bytes, i, 4, 4) == 3,
        i <= u32::MAX,
        0 <= p < decoded::sh(bytes, i, 32, 8),
        p <= u32::MAX,
        p == 0 || bytes[decoded::sh(bytes, i, 24, 8) + p - 1] == 0,
    ensures
        exists|k: int|
            0 <= k < claims_of(bytes).len() && is_string(
                bytes,
                #[trigger] claims_of(bytes)[k],
                i,
                decoded::sh(bytes, i, 24, 8),
                decoded::sh(bytes, i, 32, 8),
                p,
            ),
{
    decoded::lemma_counts(bytes);
    decoded::lemma_whole(bytes);
    decoded::lemma_section(bytes, i);
    let secs = layout::sections(bytes);
    let sec = secs[i];
    let start = before_bodies(bytes);
    let s = layout::bodies(bytes, secs, i, start);
    let o = opened(s, bytes, secs, i);
    let parent = coverage::mint(start + s.len());
    let idx = layout::narrow(i);
    let t = layout::bodies(bytes, secs, i + 1, start);
    assert(t == layout::strings(o, bytes, sec, idx, parent, 0));
    let k = lemma_strings_show(o, bytes, sec, idx, parent, 0, p as u64);
    lemma_string_claim(bytes, sec, idx, parent, p as u64);
    let n = secs.len() as int;
    lemma_bodies_grow(bytes, secs, i + 1, n, start);
    lemma_parts(bytes);
    let a = layout::header(bytes);
    let b = layout::section_table(bytes, a.len() as int);
    let c = layout::program_table(bytes, (a + b).len() as int);
    let d = layout::bodies(bytes, secs, n, start);
    let all = a + b + c + d;
    let at = (a + b + c).len() + k;
    assert(d[k] == t[k]);
    assert(all[at] == d[k]);
    assert(claims_of(bytes)[at] == all[at]);
}

// No claim says what its bytes do not.

/// The number that a value is, where it is one.
pub open spec fn number_of(v: ValueView) -> Option<int> {
    match v {
        ValueView::Unsigned(n) => Some(n as int),
        ValueView::Address(n) => Some(n as int),
        ValueView::FileOffset(n) => Some(n as int),
        ValueView::Flags(n) => Some(n as int),
        _ => None,
    }
}

/// The text is that of the bytes at `at`, at most `len` of them, up to the first NUL.
pub open spec fn spelled(bytes: Seq<u8>, at: int, len: int, t: Seq<char>) -> bool {
    exists|raw: Seq<u8>|
        {
            &&& #[trigger] text::utf8(raw) == Some(t)
            &&& raw.len() <= len
            &&& 0 <= at && at + raw.len() <= bytes.len()
            &&& raw == bytes.subrange(at, at + raw.len())
            &&& forall|q: int| 0 <= q < raw.len() ==> raw[q] != 0
            &&& raw.len() == len || at + raw.len() == bytes.len() || bytes[at + raw.len()] == 0
        }
}

/// What the claim says is what its bytes say: a field of a header is the number that its bytes
/// write; an entry of a table has its numbers at their places in it; a note is its three
/// numbers, its name and its content, both in fours of bytes; a string is the text that stands
/// there.
pub open spec fn truthful(bytes: Seq<u8>, c: ClaimView) -> bool {
    let at = c.span.start as int;
    let len = c.span.len as int;
    let n = number_of(c.value);
    match c.kind {
        ClaimKind::FileHeaderField { .. } => n is Some ==> n == Some(
            decoded::num(bytes, at, len),
        ),
        ClaimKind::ProgramHeaderField { .. } => n == Some(decoded::num(bytes, at, len)),
        ClaimKind::SectionHeaderField { .. } => n == Some(decoded::num(bytes, at, len)),
        ClaimKind::DynamicEntry { tag, .. } => tag == decoded::num(bytes, at, 8) && n == Some(
            decoded::num(bytes, at + 8, 8),
        ),
        ClaimKind::SymbolEntry { .. } => n == Some(decoded::num(bytes, at + 8, 8)),
        ClaimKind::RelocationEntry { r_type, .. } => n == Some(decoded::num(bytes, at, 8))
            && r_type == decoded::num(bytes, at + 8, 8) % 0x1_0000_0000,
        ClaimKind::RelrWord { .. } => n == Some(decoded::num(bytes, at, 8)),
        ClaimKind::Note { .. } => n == Some(decoded::num(bytes, at + 8, 4)) && len == 12 + (
        decoded::num(bytes, at, 4) + 3) / 4 * 4 + (decoded::num(bytes, at + 4, 4) + 3) / 4 * 4,
        ClaimKind::StringEntry { .. } => c.value matches ValueView::Text(t) ==> spelled(
            bytes,
            at,
            len,
            t,
        ),
        _ => n is None,
    }
}

#[verifier::opaque]
spec fn all_true(bytes: Seq<u8>, s: Seq<ClaimView>) -> bool {
    forall|k: int| 0 <= k < s.len() ==> truthful(bytes, #[trigger] s[k])
}

proof fn lemma_header_true(bytes: Seq<u8>)
    requires
        layout::refused(bytes) is None,
        bytes.len() <= u64::MAX,
    ensures
        all_true(bytes, layout::header(bytes)),
{
    reveal(all_true);
    decoded::lemma_num(bytes, 4);
    decoded::lemma_num(bytes, 5);
    decoded::lemma_num(bytes, 6);
    decoded::lemma_num(bytes, 7);
    decoded::lemma_num(bytes, 8);
    decoded::lemma_num(bytes, 16);
    decoded::lemma_num(bytes, 18);
    decoded::lemma_num(bytes, 20);
    decoded::lemma_num(bytes, 24);
    decoded::lemma_num(bytes, 32);
    decoded::lemma_num(bytes, 40);
    decoded::lemma_num(bytes, 48);
    decoded::lemma_num(bytes, 52);
    decoded::lemma_num(bytes, 54);
    decoded::lemma_num(bytes, 56);
    decoded::lemma_num(bytes, 58);
    decoded::lemma_num(bytes, 60);
    decoded::lemma_num(bytes, 62);
}

proof fn lemma_fit_true(bytes: Seq<u8>, s: Seq<ClaimView>, end: u64, size: u64, c: ClaimView)
    requires
        all_true(bytes, s),
        truthful(bytes, c),
    ensures
        all_true(bytes, layout::fit(s, end, size, c)),
{
    reveal(layout::fit);
    reveal(all_true);
}

proof fn lemma_first_fields_true(s: Seq<ClaimView>, bytes: Seq<u8>, i: int, entry: ClaimId)
    requires
        bytes.len() <= u64::MAX,
        0 <= i < decoded::sh_count(bytes),
        all_true(bytes, s),
    ensures
        all_true(bytes, with_first_fields(s, bytes, i, entry)),
{
    let size = layout::shentsize(bytes);
    let base = layout::row(layout::shoff(bytes), i, size);
    let idx = layout::narrow(i);
    let info = layout::sections(bytes)[i];
    decoded::lemma_counts(bytes);
    let c = layout::section_field(
        entry,
        idx,
        "sh_name",
        base,
        0,
        4,
        ValueView::Unsigned(info.name_off as u64),
    );
    assert(truthful(bytes, c)) by {
        decoded::lemma_num(bytes, base as int);
        decoded::lemma_num(bytes, span::sat_add(base, 0) as int);
    }
    lemma_fit_true(bytes, s, 4, size, c);
    let s = layout::fit(s, 4, size, c);
    let c = layout::section_field(
        entry,
        idx,
        "sh_type",
        base,
        4,
        4,
        ValueView::Unsigned(info.sh_type as u64),
    );
    assert(truthful(bytes, c)) by {
        decoded::lemma_num(bytes, base as int);
        decoded::lemma_num(bytes, span::sat_add(base, 4) as int);
    }
    lemma_fit_true(bytes, s, 8, size, c);
    let s = layout::fit(s, 8, size, c);
    let c = layout::section_field(
        entry,
        idx,
        "sh_flags",
        base,
        8,
        8,
        ValueView::Flags(reader::le64(bytes, span::sat_add(base, 8) as int)),
    );
    assert(truthful(bytes, c)) by {
        decoded::lemma_num(bytes, base as int);
        decoded::lemma_num(bytes, span::sat_add(base, 8) as int);
    }
    lemma_fit_true(bytes, s, 16, size, c);
    let s = layout::fit(s, 16, size, c);
    let c = layout::section_field(
        entry,
        idx,
        "sh_addr",
        base,
        16,
        8,
        ValueView::Address(reader::le64(bytes, span::sat_add(base, 16) as int)),
    );
    assert(truthful(bytes, c)) by {
        decoded::lemma_num(bytes, base as int);
        decoded::lemma_num(bytes, span::sat_add(base, 16) as int);
    }
    lemma_fit_true(bytes, s, 24, size, c);
    let s = layout::fit(s, 24, size, c);
    let c = layout::section_field(
        entry,
        idx,
        "sh_offset",
        base,
        24,
        8,
        ValueView::FileOffset(info.offset),
    );
    assert(truthful(bytes, c)) by {
        decoded::lemma_num(bytes, base as int);
        decoded::lemma_num(bytes, span::sat_add(base, 24) as int);
    }
    lemma_fit_true(bytes, s, 32, size, c);
    let s = layout::fit(s, 32, size, c);
}

/// A row with its first fields.
spec fn with_first_fields(s: Seq<ClaimView>, bytes: Seq<u8>, i: int, entry: ClaimId) -> Seq<ClaimView> {
    let size = layout::shentsize(bytes);
    let base = layout::row(layout::shoff(bytes), i, size);
    let idx = layout::narrow(i);
    let info = layout::sections(bytes)[i];
    let c = layout::section_field(
        entry,
        idx,
        "sh_name",
        base,
        0,
        4,
        ValueView::Unsigned(info.name_off as u64),
    );
    let s = layout::fit(s, 4, size, c);
    let c = layout::section_field(
        entry,
        idx,
        "sh_type",
        base,
        4,
        4,
        ValueView::Unsigned(info.sh_type as u64),
    );
    let s = layout::fit(s, 8, size, c);
    let c = layout::section_field(
        entry,
        idx,
        "sh_flags",
        base,
        8,
        8,
        ValueView::Flags(reader::le64(bytes, span::sat_add(base, 8) as int)),
    );
    let s = layout::fit(s, 16, size, c);
    let c = layout::section_field(
        entry,
        idx,
        "sh_addr",
        base,
        16,
        8,
        ValueView::Address(reader::le64(bytes, span::sat_add(base, 16) as int)),
    );
    let s = layout::fit(s, 24, size, c);
    let c = layout::section_field(
        entry,
        idx,
        "sh_offset",
        base,
        24,
        8,
        ValueView::FileOffset(info.offset),
    );
    let s = layout::fit(s, 32, size, c);
    s
}

proof fn lemma_last_fields_true(s: Seq<ClaimView>, bytes: Seq<u8>, i: int, entry: ClaimId)
    requires
        bytes.len() <= u64::MAX,
        0 <= i < decoded::sh_count(bytes),
        all_true(bytes, s),
    ensures
        all_true(bytes, with_last_fields(s, bytes, i, entry)),
{
    let size = layout::shentsize(bytes);
    let base = layout::row(layout::shoff(bytes), i, size);
    let idx = layout::narrow(i);
    let info = layout::sections(bytes)[i];
    decoded::lemma_counts(bytes);
    let c = layout::section_field(
        entry,
        idx,
        "sh_size",
        base,
        32,
        8,
        ValueView::Unsigned(info.size),
    );
    assert(truthful(bytes, c)) by {
        decoded::lemma_num(bytes, base as int);
        decoded::lemma_num(bytes, span::sat_add(base, 32) as int);
    }
    lemma_fit_true(bytes, s, 40, size, c);
    let s = layout::fit(s, 40, size, c);
    let c = layout::section_field(
        entry,
        idx,
        "sh_link",
        base,
        40,
        4,
        ValueView::Unsigned(info.link as u64),
    );
    assert(truthful(bytes, c)) by {
        decoded::lemma_num(bytes, base as int);
        decoded::lemma_num(bytes, span::sat_add(base, 40) as int);
    }
    lemma_fit_true(bytes, s, 44, size, c);
    let s = layout::fit(s, 44, size, c);
    let c = layout::section_field(
        entry,
        idx,
        "sh_info",
        base,
        44,
        4,
        ValueView::Unsigned(reader::le32(bytes, span::sat_add(base, 44) as int) as u64),
    );
    assert(truthful(bytes, c)) by {
        decoded::lemma_num(bytes, base as int);
        decoded::lemma_num(bytes, span::sat_add(base, 44) as int);
    }
    lemma_fit_true(bytes, s, 48, size, c);
    let s = layout::fit(s, 48, size, c);
    let c = layout::section_field(
        entry,
        idx,
        "sh_addralign",
        base,
        48,
        8,
        ValueView::Unsigned(reader::le64(bytes, span::sat_add(base, 48) as int)),
    );
    assert(truthful(bytes, c)) by {
        decoded::lemma_num(bytes, base as int);
        decoded::lemma_num(bytes, span::sat_add(base, 48) as int);
    }
    lemma_fit_true(bytes, s, 56, size, c);
    let s = layout::fit(s, 56, size, c);
    let c = layout::section_field(
        entry,
        idx,
        "sh_entsize",
        base,
        56,
        8,
        ValueView::Unsigned(info.entsize),
    );
    assert(truthful(bytes, c)) by {
        decoded::lemma_num(bytes, base as int);
        decoded::lemma_num(bytes, span::sat_add(base, 56) as int);
    }
    lemma_fit_true(bytes, s, 64, size, c);
    let s = layout::fit(s, 64, size, c);
}

/// A row with its last fields.
spec fn with_last_fields(s: Seq<ClaimView>, bytes: Seq<u8>, i: int, entry: ClaimId) -> Seq<ClaimView> {
    let size = layout::shentsize(bytes);
    let base = layout::row(layout::shoff(bytes), i, size);
    let idx = layout::narrow(i);
    let info = layout::sections(bytes)[i];
    let c = layout::section_field(
        entry,
        idx,
        "sh_size",
        base,
        32,
        8,
        ValueView::Unsigned(info.size),
    );
    let s = layout::fit(s, 40, size, c);
    let c = layout::section_field(
        entry,
        idx,
        "sh_link",
        base,
        40,
        4,
        ValueView::Unsigned(info.link as u64),
    );
    let s = layout::fit(s, 44, size, c);
    let c = layout::section_field(
        entry,
        idx,
        "sh_info",
        base,
        44,
        4,
        ValueView::Unsigned(reader::le32(bytes, span::sat_add(base, 44) as int) as u64),
    );
    let s = layout::fit(s, 48, size, c);
    let c = layout::section_field(
        entry,
        idx,
        "sh_addralign",
        base,
        48,
        8,
        ValueView::Unsigned(reader::le64(bytes, span::sat_add(base, 48) as int)),
    );
    let s = layout::fit(s, 56, size, c);
    let c = layout::section_field(
        entry,
        idx,
        "sh_entsize",
        base,
        56,
        8,
        ValueView::Unsigned(info.entsize),
    );
    let s = layout::fit(s, 64, size, c);
    s
}

proof fn lemma_section_row_true(
    s: Seq<ClaimView>,
    bytes: Seq<u8>,
    i: int,
    table: ClaimId,
    entry: ClaimId,
)
    requires
        bytes.len() <= u64::MAX,
        0 <= i < decoded::sh_count(bytes),
        all_true(bytes, s),
    ensures
        all_true(
            bytes,
            layout::section_row(s, bytes, layout::sections(bytes), i, table, entry),
        ),
{
    decoded::lemma_counts(bytes);
    let secs = layout::sections(bytes);
    let size = layout::shentsize(bytes);
    let base = layout::row(layout::shoff(bytes), i, size);
    let idx = layout::narrow(i);
    let info = secs[i];
    let kind_name = layout::named(info.sh_type as u64, crate::elf::spec_sht_name(info.sh_type));
    let name = layout::section_name(bytes, secs, layout::shstrndx(bytes), info.name_off);
    let note = if name.len() == 0 {
        kind_name
    } else {
        name + "  "@ + kind_name
    };
    let s = s.push(
        ClaimView::bare(
            layout::at(base, size),
            ClaimKind::SectionHeader { idx },
        ).under(table).noted(note),
    );
    assert(all_true(bytes, s)) by {
        reveal(all_true);
    }
    lemma_first_fields_true(s, bytes, i, entry);
    lemma_last_fields_true(with_first_fields(s, bytes, i, entry), bytes, i, entry);
}

proof fn lemma_section_rows_true(bytes: Seq<u8>, n: int, start: int)
    requires
        bytes.len() <= u64::MAX,
        0 <= n <= decoded::sh_count(bytes),
    ensures
        all_true(bytes, layout::section_rows(bytes, layout::sections(bytes), n, start)),
    decreases n,
{
    reveal(all_true);
    if n > 0 {
        lemma_section_rows_true(bytes, n - 1, start);
        let s = layout::section_rows(bytes, layout::sections(bytes), n - 1, start);
        lemma_section_row_true(
            s,
            bytes,
            n - 1,
            coverage::mint(start),
            coverage::mint(start + s.len()),
        );
    }
}

proof fn lemma_program_row_true(
    s: Seq<ClaimView>,
    bytes: Seq<u8>,
    i: int,
    table: ClaimId,
    entry: ClaimId,
)
    requires
        bytes.len() <= u64::MAX,
        all_true(bytes, s),
    ensures
        all_true(bytes, layout::program_row(s, bytes, i, table, entry)),
{
    let size = layout::phentsize(bytes);
    let base = layout::row(layout::phoff(bytes), i, size);
    let idx = layout::narrow(i);
    let seg = layout::segment(bytes, base);
    let s = s.push(
        ClaimView::bare(
            layout::at(base, size),
            ClaimKind::ProgramHeader { idx },
        ).under(table).noted(
            layout::named(seg.p_type as u64, crate::elf::spec_pt_name(seg.p_type)),
        ),
    );
    assert(all_true(bytes, s)) by {
        reveal(all_true);
    }
    let c = layout::program_field(
        entry,
        idx,
        "p_type",
        base,
        0,
        4,
        ValueView::Unsigned(seg.p_type as u64),
        None,
    );
    assert(truthful(bytes, c)) by {
        decoded::lemma_num(bytes, base as int);
        decoded::lemma_num(bytes, span::sat_add(base, 0) as int);
    }
    lemma_fit_true(bytes, s, 4, size, c);
    let s = layout::fit(s, 4, size, c);
    let c = layout::program_field(
        entry,
        idx,
        "p_flags",
        base,
        4,
        4,
        ValueView::Flags(seg.flags as u64),
        None,
    );
    assert(truthful(bytes, c)) by {
        decoded::lemma_num(bytes, base as int);
        decoded::lemma_num(bytes, span::sat_add(base, 4) as int);
    }
    lemma_fit_true(bytes, s, 8, size, c);
    let s = layout::fit(s, 8, size, c);
    let c = layout::program_field(
        entry,
        idx,
        "p_offset",
        base,
        8,
        8,
        ValueView::FileOffset(seg.offset),
        None,
    );
    assert(truthful(bytes, c)) by {
        decoded::lemma_num(bytes, base as int);
        decoded::lemma_num(bytes, span::sat_add(base, 8) as int);
    }
    lemma_fit_true(bytes, s, 16, size, c);
    let s = layout::fit(s, 16, size, c);
    let c = layout::program_field(
        entry,
        idx,
        "p_vaddr",
        base,
        16,
        8,
        ValueView::Address(seg.vaddr),
        None,
    );
    assert(truthful(bytes, c)) by {
        decoded::lemma_num(bytes, base as int);
        decoded::lemma_num(bytes, span::sat_add(base, 16) as int);
    }
    lemma_fit_true(bytes, s, 24, size, c);
    let s = layout::fit(s, 24, size, c);
    let c = layout::program_field(
        entry,
        idx,
        "p_paddr",
        base,
        24,
        8,
        ValueView::Address(reader::le64(bytes, span::sat_add(base, 24) as int)),
        None,
    );
    assert(truthful(bytes, c)) by {
        decoded::lemma_num(bytes, base as int);
        decoded::lemma_num(bytes, span::sat_add(base, 24) as int);
    }
    lemma_fit_true(bytes, s, 32, size, c);
    let s = layout::fit(s, 32, size, c);
    let c = layout::program_field(
        entry,
        idx,
        "p_filesz",
        base,
        32,
        8,
        ValueView::Unsigned(seg.filesz),
        None,
    );
    assert(truthful(bytes, c)) by {
        decoded::lemma_num(bytes, base as int);
        decoded::lemma_num(bytes, span::sat_add(base, 32) as int);
    }
    lemma_fit_true(bytes, s, 40, size, c);
    let s = layout::fit(s, 40, size, c);
    let c = layout::program_field(
        entry,
        idx,
        "p_memsz",
        base,
        40,
        8,
        ValueView::Unsigned(seg.memsz),
        layout::memsz_note(seg),
    );
    assert(truthful(bytes, c)) by {
        decoded::lemma_num(bytes, base as int);
        decoded::lemma_num(bytes, span::sat_add(base, 40) as int);
    }
    lemma_fit_true(bytes, s, 48, size, c);
    let s = layout::fit(s, 48, size, c);
    let c = layout::program_field(
        entry,
        idx,
        "p_align",
        base,
        48,
        8,
        ValueView::Unsigned(seg.align),
        None,
    );
    assert(truthful(bytes, c)) by {
        decoded::lemma_num(bytes, base as int);
        decoded::lemma_num(bytes, span::sat_add(base, 48) as int);
    }
    lemma_fit_true(bytes, s, 56, size, c);
    let s = layout::fit(s, 56, size, c);
}

proof fn lemma_program_rows_true(bytes: Seq<u8>, n: int, start: int)
    requires
        bytes.len() <= u64::MAX,
        0 <= n,
    ensures
        all_true(bytes, layout::program_rows(bytes, n, start)),
    decreases n,
{
    reveal(all_true);
    if n > 0 {
        lemma_program_rows_true(bytes, n - 1, start);
        let s = layout::program_rows(bytes, n - 1, start);
        lemma_program_row_true(
            s,
            bytes,
            n - 1,
            coverage::mint(start),
            coverage::mint(start + s.len()),
        );
    }
}

proof fn lemma_string_true(
    bytes: Seq<u8>,
    sec: SectionInfo,
    table: u32,
    parent: ClaimId,
    off: u64,
)
    requires
        off < sec.size,
    ensures
        truthful(bytes, layout::string_claim(bytes, sec, table, parent, off)),
{
    let c = layout::string_claim(bytes, sec, table, parent, off);
    let at = span::sat_add(sec.offset, off) as int;
    let raw = layout::string_bytes(bytes, sec, off);
    if at <= bytes.len() {
        reader::law_cstr_stops_at_nul_or_cap(bytes, at, sec.size - off);
        if let ValueView::Text(t) = c.value {
            assert(text::utf8(raw) == Some(t));
            assert(spelled(bytes, at, c.span.len as int, t));
        }
    } else {
        assert(raw =~= Seq::<u8>::empty());
        text::lemma_utf8_of_nothing();
    }
}

proof fn lemma_strings_true(
    s: Seq<ClaimView>,
    bytes: Seq<u8>,
    sec: SectionInfo,
    table: u32,
    parent: ClaimId,
    off: u64,
)
    requires
        all_true(bytes, s),
    ensures
        all_true(bytes, layout::strings(s, bytes, sec, table, parent, off)),
    decreases sec.size - off,
{
    reveal(all_true);
    if off < sec.size {
        lemma_string_true(bytes, sec, table, parent, off);
        lemma_strings_true(
            s.push(layout::string_claim(bytes, sec, table, parent, off)),
            bytes,
            sec,
            table,
            parent,
            (off + layout::string_span(bytes, sec, off)) as u64,
        );
    }
}

proof fn lemma_notes_true(
    s: Seq<ClaimView>,
    bytes: Seq<u8>,
    sec: SectionInfo,
    parent: ClaimId,
    off: u64,
    idx: u32,
)
    requires
        bytes.len() <= u64::MAX,
        all_true(bytes, s),
    ensures
        all_true(bytes, layout::notes(s, bytes, sec, parent, off, idx)),
    decreases sec.size - off,
{
    reveal(all_true);
    let base = span::sat_add(sec.offset, off);
    let total = layout::note_len(bytes, base);
    if !(span::sat_add(off, 12) > sec.size || span::sat_add(off, total) > sec.size || off
        >= sec.size || total == 0) {
        decoded::lemma_num(bytes, base as int);
        decoded::lemma_num_sat(bytes, base, 4);
        decoded::lemma_num_sat(bytes, base, 8);
        lemma_notes_true(
            s.push(layout::note_claim(bytes, base, parent, idx)),
            bytes,
            sec,
            parent,
            span::sat_add(off, total),
            if idx == u32::MAX {
                idx
            } else {
                (idx + 1) as u32
            },
        );
    }
}

proof fn lemma_symbols_true(
    s: Seq<ClaimView>,
    bytes: Seq<u8>,
    secs: Seq<SectionInfo>,
    sec: SectionInfo,
    table: u32,
    parent: ClaimId,
    n: int,
)
    requires
        bytes.len() <= u64::MAX,
        all_true(bytes, s),
    ensures
        all_true(bytes, layout::symbols(s, bytes, secs, sec, table, parent, n)),
    decreases n,
{
    reveal(all_true);
    if n > 0 {
        lemma_symbols_true(s, bytes, secs, sec, table, parent, n - 1);
        let base = layout::row(sec.offset, n - 1, layout::entry_size(sec, 24));
        decoded::lemma_num_sat(bytes, base, 8);
    }
}

proof fn lemma_relocs_true(
    s: Seq<ClaimView>,
    bytes: Seq<u8>,
    secs: Seq<SectionInfo>,
    sec: SectionInfo,
    rela: bool,
    name: Seq<char>,
    table: u32,
    parent: ClaimId,
    n: int,
)
    requires
        bytes.len() <= u64::MAX,
        all_true(bytes, s),
    ensures
        all_true(
            bytes,
            layout::reloc_claims(s, bytes, secs, sec, rela, name, table, parent, n),
        ),
    decreases n,
{
    reveal(all_true);
    if n > 0 {
        lemma_relocs_true(s, bytes, secs, sec, rela, name, table, parent, n - 1);
        let base = layout::row(sec.offset, n - 1, layout::reloc_size(sec, rela));
        decoded::lemma_num(bytes, base as int);
        decoded::lemma_num_sat(bytes, base, 8);
    }
}

proof fn lemma_relr_true(
    s: Seq<ClaimView>,
    bytes: Seq<u8>,
    sec: SectionInfo,
    table: u32,
    parent: ClaimId,
    n: int,
)
    requires
        bytes.len() <= u64::MAX,
        all_true(bytes, s),
    ensures
        all_true(bytes, layout::relr_claims(s, bytes, sec, table, parent, n)),
    decreases n,
{
    reveal(all_true);
    if n > 0 {
        lemma_relr_true(s, bytes, sec, table, parent, n - 1);
        decoded::lemma_num(bytes, layout::row(sec.offset, n - 1, 8) as int);
    }
}

proof fn lemma_dyn_true(
    s: Seq<ClaimView>,
    bytes: Seq<u8>,
    secs: Seq<SectionInfo>,
    sec: SectionInfo,
    parent: ClaimId,
    n: int,
)
    requires
        bytes.len() <= u64::MAX,
        all_true(bytes, s),
    ensures
        all_true(bytes, layout::dyn_claims(s, bytes, secs, sec, parent, n)),
    decreases n,
{
    reveal(all_true);
    if n > 0 {
        lemma_dyn_true(s, bytes, secs, sec, parent, n - 1);
        let base = layout::row(sec.offset, n - 1, layout::entry_size(sec, 16));
        decoded::lemma_num(bytes, base as int);
        decoded::lemma_num_sat(bytes, base, 8);
    }
}

proof fn lemma_bodies_true(bytes: Seq<u8>, secs: Seq<SectionInfo>, n: int, start: int)
    requires
        bytes.len() <= u64::MAX,
        0 <= n,
    ensures
        all_true(bytes, layout::bodies(bytes, secs, n, start)),
    decreases n,
{
    reveal(all_true);
    if n > 0 {
        lemma_bodies_true(bytes, secs, n - 1, start);
        let s = layout::bodies(bytes, secs, n - 1, start);
        let sec = secs[n - 1];
        if !layout::skipped(bytes, sec) {
            let idx = layout::narrow(n - 1);
            let parent = coverage::mint(start + s.len());
            let name = layout::section_name(bytes, secs, layout::shstrndx(bytes), sec.name_off);
            let t = opened(s, bytes, secs, n - 1);
            assert(all_true(bytes, t));
            lemma_strings_true(t, bytes, sec, idx, parent, 0);
            lemma_notes_true(t, bytes, sec, parent, 0, 0);
            let m = layout::entry_count(sec, layout::entry_size(sec, 24)) as int;
            lemma_symbols_true(t, bytes, secs, sec, idx, parent, m);
            let rela = sec.sh_type == 4;
            let m = layout::entry_count(sec, layout::reloc_size(sec, rela)) as int;
            lemma_relocs_true(t, bytes, secs, sec, rela, name, idx, parent, m);
            lemma_relr_true(t, bytes, sec, idx, parent, layout::entry_count(sec, 8) as int);
            let m = layout::entry_count(sec, layout::entry_size(sec, 16)) as int;
            lemma_dyn_true(t, bytes, secs, sec, parent, m);
        }
    }
}

/// Whatever a claim of a parsed file says is what its bytes say.
pub proof fn law_every_claim_says_what_its_bytes_say(bytes: Seq<u8>, k: int)
    requires
        layout::outcome(bytes) is Ok,
        bytes.len() <= u64::MAX,
        0 <= k < claims_of(bytes).len(),
        !(claims_of(bytes)[k].kind is Unclaimed),
    ensures
        truthful(bytes, claims_of(bytes)[k]),
{
    reveal(all_true);
    let a = layout::header(bytes);
    let b = layout::section_table(bytes, a.len() as int);
    let c = layout::program_table(bytes, (a + b).len() as int);
    let secs = layout::sections(bytes);
    let d = layout::bodies(bytes, secs, secs.len() as int, (a + b + c).len() as int);
    decoded::lemma_counts(bytes);
    lemma_parts(bytes);
    lemma_header_true(bytes);
    if layout::has_sections(bytes) {
        lemma_section_rows_true(bytes, layout::shnum(bytes) as int, a.len() as int);
    }
    if layout::has_programs(bytes) {
        lemma_program_rows_true(bytes, layout::phnum(bytes) as int, (a + b).len() as int);
    }
    lemma_bodies_true(bytes, secs, secs.len() as int, (a + b + c).len() as int);
    let all = a + b + c + d;
    assert(claims_of(bytes)[k] == all[k]);
    if k < a.len() {
        assert(all[k] == a[k]);
    } else if k < (a + b).len() {
        assert(all[k] == b[k - a.len()]);
    } else if k < (a + b + c).len() {
        assert(all[k] == c[k - (a + b).len()]);
    } else {
        assert(all[k] == d[k - (a + b + c).len()]);
    }
}

} // verus!
