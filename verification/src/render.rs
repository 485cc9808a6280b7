//! The morph, as far as it is not geometry.
//!
//! One picture, one slider. At one end the file is drawn in file order; at the other the
//! same bytes are drawn at the addresses the kernel maps them to. Everything in between is
//! interpolation, and the interpolation is the argument:
//!
//! - bands that are mapped slide across and land at their virtual addresses,
//! - bands that are **not** mapped (section headers, symbol tables, debug info, the
//!   padding between segments) drift left and fade, because nothing loads them,
//! - `.bss` grows from nothing on the right, because it is in `p_memsz` and in no file.
//!
//! A [`Scene`] says which bands there are, where each lands, what is protected how and
//! what was written. Drawing it is a matter of scale.

use vstd::prelude::*;

use crate::claim::{ClaimId, ClaimKind, ClaimView};
use crate::coverage;
use crate::coverage::{Coverage, Ledger};
use crate::model;
use crate::model::{MapSource, Mapping, MemImage, Prot};
use crate::order::Key;
use crate::partition;
use crate::residency;
use crate::span;
use crate::span::{FileId, Span};
use crate::state;
use crate::state::{PokeView, State};
use crate::text;

verus! {

/// A contiguous stretch of file claimed by one top-level structure: in practice, one
/// section. Grouping at this level keeps a 1,200-claim binary to ~30 bands, which is what
/// makes the picture legible rather than a barcode.
#[derive(Clone, Debug)]
pub struct Run {
    pub span: Span,
    pub label: String,
    pub class: Class,
}

/// A [`Run`] with its label as a character sequence.
pub struct RunView {
    pub span: Span,
    pub label: Seq<char>,
    pub class: Class,
}

impl View for Run {
    type V = RunView;

    open spec fn view(&self) -> RunView {
        RunView { span: self.span, label: self.label@, class: self.class }
    }
}

/// The bands as views.
pub open spec fn run_views(s: Seq<Run>) -> Seq<RunView> {
    s.map_values(|r: Run| r@)
}

#[derive(Clone, Copy, PartialEq, Eq, Debug, Structural)]
pub enum Class {
    Header,
    Code,
    ReadOnly,
    Data,
    Dynamic,
    Reloc,
    Symbols,
    Debug,
    Filler,
    Other,
    ZeroFill,
}

impl Class {
    pub open spec fn spec_color(self) -> &'static str {
        match self {
            Self::Header => "#4c8dff",
            Self::Code => "#ff8b3d",
            Self::ReadOnly => "#2fb8a8",
            Self::Data => "#5fd38d",
            Self::Dynamic => "#e8c547",
            Self::Reloc => "#ef6ea8",
            Self::Symbols => "#a98bff",
            Self::Debug => "#5a6b82",
            Self::Filler => "#2b3038",
            Self::Other => "#8892a0",
            Self::ZeroFill => "#00d0c0",
        }
    }

    #[must_use]
    pub fn color(self) -> (r: &'static str)
        ensures
            r == self.spec_color(),
    {
        match self {
            Self::Header => "#4c8dff",
            Self::Code => "#ff8b3d",
            Self::ReadOnly => "#2fb8a8",
            Self::Data => "#5fd38d",
            Self::Dynamic => "#e8c547",
            Self::Reloc => "#ef6ea8",
            Self::Symbols => "#a98bff",
            Self::Debug => "#5a6b82",
            Self::Filler => "#2b3038",
            Self::Other => "#8892a0",
            Self::ZeroFill => "#00d0c0",
        }
    }

    /// The class of a section, by its name.
    pub open spec fn of_name(label: Seq<char>) -> Class {
        if label == ".text"@ || label == ".init"@ || label == ".fini"@ || label == ".plt"@
            || label == ".plt.got"@ || label == ".plt.sec"@ {
            Self::Code
        } else if label == ".rodata"@ || label == ".eh_frame"@ || label == ".eh_frame_hdr"@ {
            Self::ReadOnly
        } else if label == ".data"@ || label == ".got"@ || label == ".got.plt"@ || label
            == ".data.rel.ro"@ || label == ".init_array"@ || label == ".fini_array"@ {
            Self::Data
        } else {
            Self::Other
        }
    }

    /// The class of a structure, by what it is and what it is called.
    pub open spec fn spec_of(kind: ClaimKind, label: Seq<char>) -> Class {
        if text::stands_at(label, ".debug"@, 0) || label == ".comment"@ {
            Self::Debug
        } else {
            match kind {
                ClaimKind::FileHeader => Self::Header,
                ClaimKind::ProgramHeaderTable => Self::Header,
                ClaimKind::SectionHeaderTable => Self::Header,
                ClaimKind::DynamicTable => Self::Dynamic,
                ClaimKind::Interp => Self::Dynamic,
                ClaimKind::RelocationTable { .. } => Self::Reloc,
                ClaimKind::SymbolTable { .. } => Self::Symbols,
                ClaimKind::StringTable { .. } => Self::Symbols,
                ClaimKind::HashTable { .. } => Self::Symbols,
                ClaimKind::VersionTable { .. } => Self::Symbols,
                ClaimKind::Unclaimed => Self::Filler,
                ClaimKind::Padding { .. } => Self::Filler,
                _ => Self::of_name(label),
            }
        }
    }

    /// The class of a structure, by what it is and what it is called.
    #[must_use]
    pub fn of(kind: &ClaimKind, label: &str) -> (r: Class)
        ensures
            r == Self::spec_of(*kind, label@),
    {
        if text::begins_with(label, ".debug") || text::same(label, ".comment") {
            return Self::Debug;
        }
        match kind {
            ClaimKind::FileHeader => Self::Header,
            ClaimKind::ProgramHeaderTable => Self::Header,
            ClaimKind::SectionHeaderTable => Self::Header,
            ClaimKind::DynamicTable => Self::Dynamic,
            ClaimKind::Interp => Self::Dynamic,
            ClaimKind::RelocationTable { .. } => Self::Reloc,
            ClaimKind::SymbolTable { .. } => Self::Symbols,
            ClaimKind::StringTable { .. } => Self::Symbols,
            ClaimKind::HashTable { .. } => Self::Symbols,
            ClaimKind::VersionTable { .. } => Self::Symbols,
            ClaimKind::Unclaimed => Self::Filler,
            ClaimKind::Padding { .. } => Self::Filler,
            _ => class_of_name(label),
        }
    }
}

fn class_of_name(label: &str) -> (r: Class)
    ensures
        r == Class::of_name(label@),
{
    if text::same(label, ".text") || text::same(label, ".init") || text::same(label, ".fini")
        || text::same(label, ".plt") || text::same(label, ".plt.got") || text::same(
        label,
        ".plt.sec",
    ) {
        Class::Code
    } else if text::same(label, ".rodata") || text::same(label, ".eh_frame") || text::same(
        label,
        ".eh_frame_hdr",
    ) {
        Class::ReadOnly
    } else if text::same(label, ".data") || text::same(label, ".got") || text::same(
        label,
        ".got.plt",
    ) || text::same(label, ".data.rel.ro") || text::same(label, ".init_array") || text::same(
        label,
        ".fini_array",
    ) {
        Class::Data
    } else {
        Class::Other
    }
}

// Bands.

/// A note, or nothing.
pub open spec fn note_of(c: ClaimView) -> Seq<char> {
    match c.note {
        Some(n) => n,
        None => Seq::empty(),
    }
}

/// What a band is called.
///
/// Section names are already the right label. Everything else carries explanatory prose,
/// which belongs in a tooltip, not on a 12px band.
pub open spec fn band_label(c: ClaimView) -> Seq<char> {
    let note = note_of(c);
    match c.kind {
        ClaimKind::FileHeader => "ELF header"@,
        ClaimKind::ProgramHeaderTable => "program headers"@,
        ClaimKind::SectionHeaderTable => "section headers"@,
        ClaimKind::Unclaimed => Seq::empty(),
        ClaimKind::Padding { .. } => Seq::empty(),
        _ => if note.len() > 0 && note[0] == '.' {
            note
        } else {
            c.kind.spec_label()@
        },
    }
}

/// A band of one leaf, under the structure `top`.
pub open spec fn new_band(claims: Seq<ClaimView>, top: ClaimId, span: Span) -> RunView {
    if top.0 < claims.len() {
        let c = claims[top.0 as int];
        RunView { span, label: band_label(c), class: Class::spec_of(c.kind, note_of(c)) }
    } else {
        RunView { span, label: Seq::empty(), class: Class::Other }
    }
}

/// The outermost structure around a claim.
pub open spec fn outermost(claims: Seq<ClaimView>, id: ClaimId) -> ClaimId {
    coverage::chain(claims, id).last()
}

/// The bands, each with its outermost structure, with one more leaf: it joins the last band
/// where it continues it under the same structure.
pub open spec fn with_leaf(
    before: Seq<(ClaimId, RunView)>,
    claims: Seq<ClaimView>,
    at: int,
) -> Seq<(ClaimId, RunView)> {
    let span = claims[at].span;
    let top = outermost(claims, coverage::mint(at));
    if before.len() > 0 && before.last().0 == top && before.last().1.span.spec_end()
        == span.start {
        before.drop_last().push((top, longer(before.last().1, span.len)))
    } else {
        before.push((top, new_band(claims, top, span)))
    }
}

/// A band with more bytes at its end.
pub open spec fn longer(run: RunView, more: u64) -> RunView {
    RunView {
        span: Span {
            file: run.span.file,
            start: run.span.start,
            len: span::sat_add(run.span.len, more),
        },
        label: run.label,
        class: run.class,
    }
}

/// The bands that the first `n` leaves make, each with its outermost structure.
pub open spec fn banded(claims: Seq<ClaimView>, leaves: Seq<Key>, n: int) -> Seq<(ClaimId, RunView)>
    decreases n,
{
    if n <= 0 {
        Seq::empty()
    } else {
        with_leaf(banded(claims, leaves, n - 1), claims, leaves[n - 1].2 as int)
    }
}

/// The bands of a file, in file order.
pub open spec fn bands(claims: Seq<ClaimView>, file: FileId) -> Seq<RunView> {
    let leaves = coverage::sorted_leaves(claims, file);
    alone(banded(claims, leaves, leaves.len() as int))
}

fn label_of(cov: &Coverage, top: ClaimId, span: Span) -> (r: Run)
    ensures
        r@ == new_band(cov@.claims, top, span),
{
    match cov.claim(top) {
        None => {
            let label = String::new();
            assert(label@ =~= Seq::<char>::empty());
            Run { span, label, class: Class::Other }
        },
        Some(c) => {
            let note = match &c.note {
                Some(n) => n.clone(),
                None => String::new(),
            };
            assert(note@ =~= note_of(c@));
            let label = match c.kind {
                ClaimKind::FileHeader => "ELF header".to_string(),
                ClaimKind::ProgramHeaderTable => "program headers".to_string(),
                ClaimKind::SectionHeaderTable => "section headers".to_string(),
                ClaimKind::Unclaimed => String::new(),
                ClaimKind::Padding { .. } => String::new(),
                _ => {
                    let chars = text::chars_of(note.as_str());
                    if chars.len() > 0 && chars[0] == '.' {
                        note.clone()
                    } else {
                        c.kind.label().to_string()
                    }
                },
            };
            assert(label@ =~= band_label(c@));
            let class = Class::of(&c.kind, note.as_str());
            Run { span, label, class }
        },
    }
}

/// The bands and their structures, side by side.
spec fn zipped(tops: Seq<ClaimId>, out: Seq<Run>) -> Seq<(ClaimId, RunView)> {
    Seq::new(out.len(), |i: int| (tops[i], out[i]@))
}

/// Merge leaves into top-level bands, in file order.
#[must_use]
pub fn runs(cov: &Coverage) -> (r: Vec<Run>)
    requires
        cov.wf(),
    ensures
        run_views(r@) == bands(cov@.claims, FileId(0)),
{
    let ghost claims = cov@.claims;
    let leaves = cov.sorted_leaves(FileId::primary());
    proof {
        cov.lemma_valid();
        partition::lemma_leaf_positions(claims, FileId(0));
    }
    let mut out: Vec<Run> = Vec::new();
    let mut tops: Vec<ClaimId> = Vec::new();
    assert(zipped(tops@, out@) =~= Seq::empty());
    let mut n: usize = 0;
    while n < leaves.len()
        invariant
            n <= leaves@.len(),
            cov.wf(),
            claims == cov@.claims,
            claims.len() <= usize::MAX,
            forall|p: int|
                0 <= p < leaves@.len() ==> (#[trigger] leaves@[p]).2 < claims.len()
                    && claims[leaves@[p].2 as int].span.start == leaves@[p].0
                    && claims[leaves@[p].2 as int].span.spec_end() == leaves@[p].1,
            tops@.len() == out@.len(),
            zipped(tops@, out@) == banded(claims, leaves@, n as int),
        decreases leaves.len() - n,
    {
        let ghost before = zipped(tops@, out@);
        let at: u64 = leaves[n].2;
        let span = cov.nth_span(at as usize);
        let id = coverage::mint_id(at);
        let chain = cov.ancestry(id);
        let top = chain[chain.len() - 1];
        assert(top == outermost(claims, coverage::mint(at as int)));
        assert(before.len() == out@.len());
        if out.len() > 0 && tops[out.len() - 1].0 == top.0 && out[out.len() - 1].span.end()
            == span.start {
            let ghost was = out@.last()@;
            assert(before.last() == (top, was));
            if let Some(run) = out.pop() {
                let Run { span: s, label, class } = run;
                let len: u64 = s.len.saturating_add(span.len);
                out.push(Run { span: Span { file: s.file, start: s.start, len }, label, class });
                proof {
                    assert(out@.last()@ == longer(was, span.len));
                    assert(zipped(tops@, out@) =~= before.drop_last().push(
                        (top, longer(was, span.len)),
                    ));
                    assert(zipped(tops@, out@) == with_leaf(before, claims, at as int));
                }
            }
        } else {
            let ghost was = out@;
            let ghost wast = tops@;
            let band = label_of(cov, top, span);
            let ghost added = band@;
            out.push(band);
            tops.push(top);
            proof {
                if before.len() > 0 {
                    assert(before.last() == (wast.last(), was.last()@));
                }
                assert(zipped(tops@, out@) =~= before.push((top, added)));
                assert(zipped(tops@, out@) == with_leaf(before, claims, at as int));
            }
        }
        n += 1;
    }
    assert(run_views(out@) =~= bands(claims, FileId(0)));
    out
}

// Scenes.

/// A moment in the modelled load.
#[derive(Clone, Copy, Debug)]
pub struct StepView<'a> {
    pub state: &'a State,
    pub narration: &'a str,
    pub n: usize,
    pub total: usize,
}

/// Everything a frame needs besides the geometry.
#[derive(Clone, Copy, Debug)]
pub struct Frame<'a> {
    pub coverage: &'a Coverage,
    pub image: &'a MemImage,
    pub title: &'a str,
    pub subtitle: &'a str,
    /// When set, the memory side shows the image *as of this step*: only what has been
    /// mapped so far, protections as they currently stand, and a mark at every address
    /// written up to now.
    pub step: Option<StepView<'a>>,
}

/// A band, and the address it lands at, if it does.
#[derive(Clone, Debug)]
pub struct Band {
    pub run: Run,
    pub lands_at: Option<u64>,
}

/// A stretch of memory and the colour of its protection.
#[derive(Clone, Copy, Debug)]
pub struct Stripe {
    pub start: u64,
    pub end: u64,
    pub color: &'static str,
}

/// What a frame shows, in bytes and addresses.
#[derive(Clone, Debug)]
pub struct Scene {
    /// Length of the file; at least 1, so that there is something to scale by.
    pub file_len: u64,
    /// The lowest and highest address of the image.
    pub low: u64,
    pub high: u64,
    pub bands: Vec<Band>,
    /// Protection as it currently stands. RELRO is visible here and nowhere else: a stripe
    /// that changes its colour partway through the load.
    pub stripes: Vec<Stripe>,
    /// Every address the loader has written so far, within the image.
    pub pokes: Vec<u64>,
    /// Memory that comes from no file.
    pub zero_fill: Vec<(u64, u64)>,
    /// Bytes of the file that are never loaded.
    ///
    /// Measured on the image rather than accumulated per band: a band can straddle the
    /// edge of a mapped page, and attributing it by its first byte would be wrong.
    pub never_loaded: u64,
}

/// The length of the file a frame shows.
pub open spec fn shown_len(l: Ledger) -> u64 {
    match coverage::len_of(l.files, FileId(0)) {
        Some(n) => if n == 0 {
            1
        } else {
            n
        },
        None => 1,
    }
}

/// The address of a file offset.
pub open spec fn address_of(image: MemImage, offset: u64) -> Option<u64> {
    model::address(image.maps(), image.ranges(), offset)
}

/// The protection at an address.
pub open spec fn protection_at(maps: Seq<Mapping>, va: u64) -> Option<Prot> {
    match state::exact_prot(maps, va) {
        Some(p) => Some(p),
        None => state::page_prot(maps, va),
    }
}

/// Where a band lands: at its address, once the step that maps it has run.
pub open spec fn landing(image: MemImage, step: Option<StepView>, start: u64) -> Option<u64> {
    match (address_of(image, start), step) {
        (Some(va), Some(view)) => if protection_at(view.state@.mappings, va) is None {
            None
        } else {
            Some(va)
        },
        (m, _) => m,
    }
}

/// The colour of a protection.
pub open spec fn stripe_color(p: Prot) -> &'static str {
    if p.execute {
        Class::Code.spec_color()
    } else if p.write {
        Class::Data.spec_color()
    } else {
        Class::Header.spec_color()
    }
}

/// The writes, among the first `n`, that are within the image.
pub open spec fn pokes_within(pokes: Seq<PokeView>, low: u64, high: u64, n: int) -> Seq<u64>
    decreases n,
{
    if n <= 0 {
        Seq::empty()
    } else {
        let before = pokes_within(pokes, low, high, n - 1);
        let addr = pokes[n - 1].addr;
        if low <= addr < high {
            before.push(addr)
        } else {
            before
        }
    }
}

/// The mappings, among the first `n`, that come from no file.
pub open spec fn zero_filled(maps: Seq<Mapping>, n: int) -> Seq<(u64, u64)>
    decreases n,
{
    if n <= 0 {
        Seq::empty()
    } else {
        let m = maps[n - 1];
        if m.source is ZeroFill {
            zero_filled(maps, n - 1).push((m.vaddr, m.spec_end()))
        } else {
            zero_filled(maps, n - 1)
        }
    }
}

/// The addresses a frame shows.
pub open spec fn shown_range(maps: Seq<Mapping>) -> (u64, u64) {
    if maps.len() == 0 {
        (0, 1)
    } else {
        (maps[0].vaddr, model::top_of(maps))
    }
}

/// The stripe of a mapping.
pub open spec fn stripe(m: Mapping) -> Stripe {
    Stripe { start: m.vaddr, end: m.spec_end(), color: stripe_color(m.prot) }
}

impl Scene {
    /// Whether this is what the frame shows.
    pub open spec fn shows(&self, frame: Frame) -> bool {
        let (low, high) = shown_range(frame.image.maps());
        let all = bands(frame.coverage@.claims, FileId(0));
        &&& self.file_len == shown_len(frame.coverage@)
        &&& self.low == low
        &&& self.high == high
        &&& self.bands@.len() == all.len()
        &&& forall|i: int|
            0 <= i < all.len() ==> (#[trigger] self.bands@[i]).run@ == all[i]
                && self.bands@[i].lands_at == landing(*frame.image, frame.step, all[i].span.start)
        &&& self.stripes@ == (match frame.step {
            Some(view) => view.state@.mappings.map_values(|m: Mapping| stripe(m)),
            None => Seq::empty(),
        })
        &&& self.pokes@ == (match frame.step {
            Some(view) => pokes_within(
                view.state@.poked,
                low,
                high,
                view.state@.poked.len() as int,
            ),
            None => Seq::empty(),
        })
        &&& self.zero_fill@ == zero_filled(frame.image.maps(), frame.image.maps().len() as int)
        &&& self.never_loaded == never_loaded_of(frame)
    }
}

/// How many bytes of the file are never loaded.
pub open spec fn never_loaded_of(frame: Frame) -> u64 {
    let len = shown_len(frame.coverage@);
    let loaded = residency::resident_set(frame.image.ranges()).len();
    if loaded < len {
        (len - loaded) as u64
    } else {
        0
    }
}

fn stripes_of(view: &StepView) -> (r: Vec<Stripe>)
    ensures
        r@ == view.state@.mappings.map_values(|m: Mapping| stripe(m)),
{
    let maps = &view.state.mappings;
    let ghost all = maps@.map_values(|m: Mapping| stripe(m));
    let mut out: Vec<Stripe> = Vec::new();
    let mut i: usize = 0;
    while i < maps.len()
        invariant
            i <= maps@.len(),
            all == maps@.map_values(|m: Mapping| stripe(m)),
            out@ =~= all.take(i as int),
        decreases maps.len() - i,
    {
        let m = maps[i];
        let color = if m.prot.execute {
            Class::Code.color()
        } else if m.prot.write {
            Class::Data.color()
        } else {
            Class::Header.color()
        };
        out.push(Stripe { start: m.vaddr, end: m.end(), color });
        assert(all.take(i + 1) =~= all.take(i as int).push(stripe(m)));
        i += 1;
    }
    assert(all.take(i as int) =~= all);
    out
}

fn pokes_of(view: &StepView, low: u64, high: u64) -> (r: Vec<u64>)
    ensures
        r@ == pokes_within(view.state@.poked, low, high, view.state@.poked.len() as int),
{
    let poked = &view.state.poked;
    let ghost all = view.state@.poked;
    let mut out: Vec<u64> = Vec::new();
    let mut i: usize = 0;
    while i < poked.len()
        invariant
            i <= poked@.len(),
            all == state::poke_views(poked@),
            out@ == pokes_within(all, low, high, i as int),
        decreases poked.len() - i,
    {
        assert(all[i as int] == poked@[i as int]@);
        let addr: u64 = poked[i].addr;
        if low <= addr && addr < high {
            out.push(addr);
        }
        i += 1;
    }
    out
}

fn zero_fill_of(image: &MemImage) -> (r: Vec<(u64, u64)>)
    ensures
        r@ == zero_filled(image.maps(), image.maps().len() as int),
{
    let maps = image.mappings();
    let mut out: Vec<(u64, u64)> = Vec::new();
    let mut i: usize = 0;
    while i < maps.len()
        invariant
            i <= maps@.len(),
            out@ == zero_filled(maps@, i as int),
        decreases maps.len() - i,
    {
        if let MapSource::ZeroFill = maps[i].source {
            out.push((maps[i].vaddr, maps[i].end()));
        }
        i += 1;
    }
    out
}

fn land(frame: &Frame, start: u64) -> (r: Option<u64>)
    ensures
        r == landing(*frame.image, frame.step, start),
{
    match frame.image.vaddr_of(start) {
        None => None,
        Some(va) => match frame.step {
            None => Some(va),
            Some(view) => match view.state.prot_at(va) {
                None => None,
                Some(_) => Some(va),
            },
        },
    }
}

/// What a frame shows, in bytes and addresses.
#[must_use]
pub fn scene(frame: &Frame) -> (r: Scene)
    requires
        frame.coverage.wf(),
    ensures
        r.shows(*frame),
{
    let file_len: u64 = match frame.coverage.file_len(FileId::primary()) {
        Some(n) => if n == 0 {
            1
        } else {
            n
        },
        None => 1,
    };
    let (low, high): (u64, u64) = match frame.image.extent() {
        Some((lo, hi)) => (lo, hi),
        None => (0, 1),
    };
    let all = runs(frame.coverage);
    let ghost want = bands(frame.coverage@.claims, FileId(0));
    let mut out: Vec<Band> = Vec::new();
    for run in it: all
        invariant
            it.seq() == all@,
            want == run_views(all@),
            out@.len() == it.index(),
            forall|i: int|
                0 <= i < out@.len() ==> (#[trigger] out@[i]).run@ == want[i] && out@[i].lands_at
                    == landing(*frame.image, frame.step, want[i].span.start),
    {
        let lands_at = land(frame, run.span.start);
        out.push(Band { run, lands_at });
    }
    let (stripes, pokes): (Vec<Stripe>, Vec<u64>) = match &frame.step {
        Some(view) => (stripes_of(view), pokes_of(view, low, high)),
        None => (Vec::new(), Vec::new()),
    };
    let never_loaded: u64 = file_len.saturating_sub(frame.image.resident_bytes());
    Scene {
        file_len,
        low,
        high,
        bands: out,
        stripes,
        pokes,
        zero_fill: zero_fill_of(frame.image),
        never_loaded,
    }
}

/// The line under the picture. `share` is the part of the file that is never loaded, in
/// percent.
pub open spec fn caption_of(frame: Frame, share: Seq<char>) -> Seq<char> {
    match frame.step {
        None => share + "% of the file is never loaded   \u{b7}   "@ + text::dec(
            model::zero_bytes(frame.image.maps(), frame.image.maps().len() as int) as int,
        ) + " bytes of memory come from no file"@,
        Some(view) => "step "@ + text::dec(view.n as int) + " / "@ + text::dec(view.total as int)
            + "   \u{b7}   "@ + view.narration@ + "   \u{b7}   "@ + text::dec(
            view.state@.poked.len() as int,
        ) + " addresses written so far"@,
    }
}

/// The line under the picture. `share` is the part of the file that is never loaded, in
/// percent.
#[must_use]
pub fn caption(frame: &Frame, share: &str) -> (r: String)
    ensures
        r@ == caption_of(*frame, share@),
{
    match &frame.step {
        None => {
            let mut r = share.to_string();
            r.append("% of the file is never loaded   \u{b7}   ");
            r.append(text::dec_text(frame.image.zero_filled_bytes()).as_str());
            r.append(" bytes of memory come from no file");
            r
        },
        Some(view) => {
            let mut r = "step ".to_string();
            r.append(text::dec_text(view.n as u64).as_str());
            r.append(" / ");
            r.append(text::dec_text(view.total as u64).as_str());
            r.append("   \u{b7}   ");
            r.append(view.narration);
            r.append("   \u{b7}   ");
            r.append(text::dec_text(view.state.poked.len() as u64).as_str());
            r.append(" addresses written so far");
            r
        },
    }
}

// Laws.

/// Where the bands before `i` end.
pub open spec fn end_before(b: Seq<RunView>, i: int) -> u64 {
    if i <= 0 {
        0
    } else {
        b[i - 1].span.spec_end()
    }
}

/// The band at `i` is not empty, and starts where those before it end.
pub open spec fn abuts(b: Seq<RunView>, i: int) -> bool {
    b[i].span.len != 0 && b[i].span.start == end_before(b, i)
}

/// The bands without their structures.
pub open spec fn alone(z: Seq<(ClaimId, RunView)>) -> Seq<RunView> {
    z.map_values(|b: (ClaimId, RunView)| b.1)
}

proof fn lemma_leaf_tiles(before: Seq<(ClaimId, RunView)>, claims: Seq<ClaimView>, at: int)
    requires
        forall|i: int| 0 <= i < before.len() ==> #[trigger] abuts(alone(before), i),
        claims[at].span.len != 0,
        claims[at].span.start == end_before(alone(before), before.len() as int),
    ensures
        ({
            let b = alone(with_leaf(before, claims, at));
            &&& b.len() > 0
            &&& forall|i: int| 0 <= i < b.len() ==> #[trigger] abuts(b, i)
            &&& end_before(b, b.len() as int) == claims[at].span.spec_end()
        }),
{
    let a = alone(before);
    let b = alone(with_leaf(before, claims, at));
    let n = a.len() as int;
    assert forall|i: int| 0 <= i < b.len() - 1 implies b[i] == a[i] by {}
    assert forall|i: int| 0 <= i < b.len() implies #[trigger] abuts(b, i) by {
        if i < n {
            assert(abuts(a, i));
        }
    }
    if b.len() == n {
        assert(abuts(a, n - 1));
        assert(b[n - 1] == longer(a[n - 1], claims[at].span.len));
    }
}

proof fn lemma_bands_tile(claims: Seq<ClaimView>, leaves: Seq<Key>, n: int)
    requires
        0 <= n <= leaves.len(),
        forall|p: int|
            0 <= p < leaves.len() ==> {
                let k = #[trigger] leaves[p];
                &&& k.0 == coverage::tiled_to(leaves, p)
                &&& k.0 == claims[k.2 as int].span.start
                &&& k.1 == claims[k.2 as int].span.spec_end()
                &&& claims[k.2 as int].span.len != 0
            },
    ensures
        ({
            let b = alone(banded(claims, leaves, n));
            &&& n > 0 ==> b.len() > 0
            &&& forall|i: int| 0 <= i < b.len() ==> #[trigger] abuts(b, i)
            &&& end_before(b, b.len() as int) == coverage::tiled_to(leaves, n)
        }),
    decreases n,
{
    if n > 0 {
        lemma_bands_tile(claims, leaves, n - 1);
        assert(leaves[n - 1].0 == coverage::tiled_to(leaves, n - 1));
        lemma_leaf_tiles(banded(claims, leaves, n - 1), claims, leaves[n - 1].2 as int);
    }
}

/// Merging keeps the invariant of the parser, one level up: the bands tile the file. None is
/// empty, each starts where the one before it ends, and together they reach the end of the
/// file, and no further where every claim lies within it.
pub proof fn law_bands_tile_the_file(l: Ledger, f: int)
    requires
        l.valid(),
        l.fault(0) is None,
        0 <= f < l.files.len(),
        l.files[f].0 == FileId(0),
    ensures
        ({
            let b = bands(l.claims, FileId(0));
            &&& forall|i: int| 0 <= i < b.len() ==> #[trigger] abuts(b, i)
            &&& end_before(b, b.len() as int) >= l.files[f].1
            &&& l.contained() ==> end_before(b, b.len() as int) == l.files[f].1
        }),
{
    let leaves = coverage::sorted_leaves(l.claims, FileId(0));
    let n = leaves.len() as int;
    partition::lemma_leaves_tile(l, f);
    lemma_bands_tile(l.claims, leaves, n);
    if l.contained() && n > 0 {
        let c = l.claims[leaves[n - 1].2 as int].span;
        assert(coverage::len_of(l.files, c.file) is Some);
        partition::lemma_len_of(l.files, f);
    }
}

/// The bands of a file, each with its outermost structure.
pub open spec fn bands_under(claims: Seq<ClaimView>, file: FileId) -> Seq<(ClaimId, RunView)> {
    let leaves = coverage::sorted_leaves(claims, file);
    banded(claims, leaves, leaves.len() as int)
}

/// The claim at `at` lies in the band at `i`, which is of its outermost structure.
pub open spec fn in_band(
    z: Seq<(ClaimId, RunView)>,
    claims: Seq<ClaimView>,
    i: int,
    at: int,
) -> bool {
    &&& z[i].0 == outermost(claims, coverage::mint(at))
    &&& z[i].1.span.nests(claims[at].span)
}

/// The claim at `at` lies in a band of its outermost structure.
pub open spec fn banded_in(z: Seq<(ClaimId, RunView)>, claims: Seq<ClaimView>, at: int) -> bool {
    exists|i: int| 0 <= i < z.len() && #[trigger] in_band(z, claims, i, at)
}

/// Neighbours are of different structures, and each band shows its own.
pub open spec fn apart(z: Seq<(ClaimId, RunView)>, claims: Seq<ClaimView>) -> bool {
    &&& forall|i: int, j: int|
        #![trigger z[i], z[j]]
        0 <= i < z.len() && j == i + 1 && j < z.len() ==> z[i].0 != z[j].0
    &&& forall|i: int|
        0 <= i < z.len() ==> (#[trigger] z[i]).1 == new_band(claims, z[i].0, z[i].1.span)
}

/// One more leaf lies in the last band, and takes no other out of its own.
proof fn lemma_leaf_joins(before: Seq<(ClaimId, RunView)>, claims: Seq<ClaimView>, at: int)
    requires
        apart(before, claims),
        claims[at].span.start == end_before(alone(before), before.len() as int),
        forall|i: int| 0 <= i < before.len() ==> #[trigger] before[i].1.span.file
            == claims[at].span.file,
    ensures
        ({
            let z = with_leaf(before, claims, at);
            &&& apart(z, claims)
            &&& in_band(z, claims, z.len() - 1, at)
            &&& forall|i: int| 0 <= i < z.len() ==> #[trigger] z[i].1.span.file
                == claims[at].span.file
            &&& forall|i: int, other: int|
                0 <= i < before.len() && #[trigger] in_band(before, claims, i, other) ==> in_band(
                    z,
                    claims,
                    i,
                    other,
                )
        }),
{
    let z = with_leaf(before, claims, at);
    let n = before.len() as int;
    if n > 0 {
        assert(alone(before)[n - 1] == before[n - 1].1);
    }
    assert forall|i: int| 0 <= i < z.len() - 1 implies #[trigger] z[i] == before[i] by {}
    assert forall|i: int, j: int|
        #![trigger z[i], z[j]]
        0 <= i < z.len() && j == i + 1 && j < z.len() implies z[i].0 != z[j].0 by {
        if j < n {
            assert(before[i].0 != before[j].0);
        }
    }
    assert forall|i: int, other: int|
        0 <= i < before.len() && #[trigger] in_band(before, claims, i, other) implies in_band(
        z,
        claims,
        i,
        other,
    ) by {
        if i < z.len() - 1 {
            assert(z[i] == before[i]);
        }
    }
}

proof fn lemma_leaves_are_banded(claims: Seq<ClaimView>, leaves: Seq<Key>, n: int, file: FileId)
    requires
        0 <= n <= leaves.len(),
        forall|p: int|
            0 <= p < leaves.len() ==> {
                let k = #[trigger] leaves[p];
                &&& k.0 == coverage::tiled_to(leaves, p)
                &&& k.0 == claims[k.2 as int].span.start
                &&& k.1 == claims[k.2 as int].span.spec_end()
                &&& claims[k.2 as int].span.file == file
                &&& claims[k.2 as int].span.len != 0
            },
    ensures
        ({
            let z = banded(claims, leaves, n);
            &&& apart(z, claims)
            &&& forall|i: int| 0 <= i < z.len() ==> #[trigger] z[i].1.span.file == file
            &&& forall|p: int|
                0 <= p < n ==> banded_in(z, claims, (#[trigger] leaves[p]).2 as int)
        }),
    decreases n,
{
    if n > 0 {
        let before = banded(claims, leaves, n - 1);
        let z = banded(claims, leaves, n);
        let at = leaves[n - 1].2 as int;
        lemma_leaves_are_banded(claims, leaves, n - 1, file);
        lemma_bands_tile(claims, leaves, n - 1);
        assert(leaves[n - 1].0 == coverage::tiled_to(leaves, n - 1));
        lemma_leaf_joins(before, claims, at);
        assert forall|p: int| 0 <= p < n implies banded_in(
            z,
            claims,
            (#[trigger] leaves[p]).2 as int,
        ) by {
            let other = leaves[p].2 as int;
            if p < n - 1 {
                assert(banded_in(before, claims, other));
                let i = choose|i: int|
                    0 <= i < before.len() && #[trigger] in_band(before, claims, i, other);
                assert(in_band(z, claims, i, other));
            } else {
                assert(in_band(z, claims, z.len() - 1, at));
            }
        }
    }
}

/// A band is one structure, and all of it that is in one piece: neighbouring bands are of
/// different outermost structures, each is named and coloured after its own, and every
/// non-empty leaf lies in a band of its outermost structure.
pub proof fn law_bands_are_the_outermost_structures(l: Ledger, f: int)
    requires
        l.valid(),
        l.fault(0) is None,
        0 <= f < l.files.len(),
        l.files[f].0 == FileId(0),
    ensures
        ({
            let z = bands_under(l.claims, FileId(0));
            &&& bands(l.claims, FileId(0)) == alone(z)
            &&& apart(z, l.claims)
            &&& forall|at: int|
                0 <= at < l.claims.len() && #[trigger] coverage::leaf(l.claims, at)
                    && l.claims[at].span.file == FileId(0) && l.claims[at].span.len != 0
                    ==> banded_in(z, l.claims, at)
        }),
{
    let leaves = coverage::sorted_leaves(l.claims, FileId(0));
    partition::lemma_leaves_tile(l, f);
    lemma_leaves_are_banded(l.claims, leaves, leaves.len() as int, FileId(0));
    assert forall|at: int|
        0 <= at < l.claims.len() && #[trigger] coverage::leaf(l.claims, at)
            && l.claims[at].span.file == FileId(0) && l.claims[at].span.len
            != 0 implies banded_in(bands_under(l.claims, FileId(0)), l.claims, at) by {
        partition::lemma_leaf_is_listed(l.claims, FileId(0), at);
        let p = choose|p: int| 0 <= p < leaves.len() && (#[trigger] leaves[p]).2 == at;
        assert(banded_in(bands_under(l.claims, FileId(0)), l.claims, leaves[p].2 as int));
    }
}

// What a frame shows, and what it leaves out.

/// The writes that are shown are those within the image, in order, none left out.
pub proof fn law_writes_within_the_image_are_shown(
    pokes: Seq<PokeView>,
    last: PokeView,
    low: u64,
    high: u64,
)
    ensures
        pokes_within(Seq::empty(), low, high, 0) == Seq::<u64>::empty(),
        ({
            let n = pokes.len() as int;
            pokes_within(pokes.push(last), low, high, n + 1) == pokes_within(pokes, low, high, n)
                + if low <= last.addr && last.addr < high {
                seq![last.addr]
            } else {
                Seq::empty()
            }
        }),
{
    let n = pokes.len() as int;
    lemma_pokes_prefix(pokes, last, low, high, n);
    let before = pokes_within(pokes, low, high, n);
    assert(pokes_within(pokes.push(last), low, high, n + 1) =~= before + if low <= last.addr
        && last.addr < high {
        seq![last.addr]
    } else {
        Seq::empty()
    });
}

proof fn lemma_pokes_prefix(pokes: Seq<PokeView>, last: PokeView, low: u64, high: u64, n: int)
    requires
        0 <= n <= pokes.len(),
    ensures
        pokes_within(pokes.push(last), low, high, n) == pokes_within(pokes, low, high, n),
    decreases n,
{
    if n > 0 {
        lemma_pokes_prefix(pokes, last, low, high, n - 1);
    }
}

/// What is shown as zero-filled is every mapping with no file behind it, and nothing else.
pub proof fn law_zero_filled_memory_is_shown(maps: Seq<Mapping>, n: int)
    requires
        0 <= n <= maps.len(),
    ensures
        forall|k: int|
            0 <= k < zero_filled(maps, n).len() ==> is_zero_range(
                maps,
                n,
                #[trigger] zero_filled(maps, n)[k],
            ),
        forall|i: int|
            0 <= i < n && (#[trigger] maps[i]).source is ZeroFill ==> zero_filled(maps, n).contains(
                (maps[i].vaddr, maps[i].spec_end()),
            ),
    decreases n,
{
    if n > 0 {
        law_zero_filled_memory_is_shown(maps, n - 1);
        let before = zero_filled(maps, n - 1);
        let z = zero_filled(maps, n);
        assert forall|k: int| 0 <= k < z.len() implies is_zero_range(maps, n, #[trigger] z[k]) by {
            if k < before.len() {
                assert(is_zero_range(maps, n - 1, before[k]));
                let i = choose|i: int|
                    0 <= i < n - 1 && (#[trigger] maps[i]).source is ZeroFill && before[k] == (
                        maps[i].vaddr,
                        maps[i].spec_end(),
                    );
                assert(maps[i].source is ZeroFill && z[k] == (maps[i].vaddr, maps[i].spec_end()));
            } else {
                assert(maps[n - 1].source is ZeroFill);
            }
        }
        assert forall|i: int| 0 <= i < n && (#[trigger] maps[i]).source is ZeroFill implies
            z.contains((maps[i].vaddr, maps[i].spec_end())) by {
            let x = (maps[i].vaddr, maps[i].spec_end());
            if i < n - 1 {
                assert(before.contains(x));
                let k = choose|k: int| 0 <= k < before.len() && before[k] == x;
                assert(z[k] == x);
            } else {
                assert(z[before.len() as int] == x);
            }
        }
    }
}

/// The range is that of one of the first `n` mappings, and no file is behind it.
pub open spec fn is_zero_range(maps: Seq<Mapping>, n: int, r: (u64, u64)) -> bool {
    exists|i: int|
        0 <= i < n && (#[trigger] maps[i]).source is ZeroFill && r == (
            maps[i].vaddr,
            maps[i].spec_end(),
        )
}

/// A band is shown in memory exactly where its first byte has an address and, at a step of the
/// load, something is mapped there by then; and it is shown at that address.
pub proof fn law_a_band_lands_where_it_is_mapped(
    image: MemImage,
    step: Option<StepView>,
    start: u64,
)
    ensures
        match landing(image, step, start) {
            Some(va) => model::address(image.maps(), image.ranges(), start) == Some(va) && (step
                is Some ==> protection_at(step->0.state@.mappings, va) is Some),
            None => model::address(image.maps(), image.ranges(), start) is None || (step is Some
                && protection_at(
                step->0.state@.mappings,
                model::address(image.maps(), image.ranges(), start)->0,
            ) is None),
        },
{
}

/// What can be run is coloured as code, whatever else it may be; of the rest, what can be
/// written is coloured as data.
pub proof fn law_code_outshines_data(p: Prot)
    ensures
        p.execute ==> stripe_color(p) == Class::Code.spec_color(),
        !p.execute && p.write ==> stripe_color(p) == Class::Data.spec_color(),
        !p.execute && !p.write ==> stripe_color(p) == Class::Header.spec_color(),
{
}

/// Debugging information is told by its name, whatever kind of structure it is.
pub proof fn law_debugging_is_told_by_name(kind: ClaimKind, rest: Seq<char>)
    ensures
        Class::spec_of(kind, ".debug"@ + rest) == Class::Debug,
        Class::spec_of(kind, ".comment"@) == Class::Debug,
{
    assert((".debug"@ + rest).subrange(0, ".debug"@.len() as int) =~= ".debug"@);
}

/// What is loaded and what is never loaded are together the file.
pub proof fn law_loaded_and_never_loaded_make_the_file(frame: Frame)
    requires
        residency::resident_set(frame.image.ranges()).len() <= shown_len(frame.coverage@),
    ensures
        residency::resident_set(frame.image.ranges()).len() + never_loaded_of(frame) == shown_len(
            frame.coverage@,
        ),
{
}

} // verus!
