//! What a parsed file has to say, as text.

use vstd::prelude::*;

use crate::audit;
use crate::audit::{Finding, FindingView, Severity};
use crate::claim::{Claim, ClaimId, ClaimKind, ClaimView, Value, ValueView};
use crate::columns;
use crate::coverage;
use crate::coverage::Coverage;
use crate::elf;
use crate::model;
use crate::model::{MapSource, Mapping, MemImage, Vma};
use crate::order;
use crate::order::Key;
use crate::parse::{Parsed, Summary, SummaryView};
use crate::render;
use crate::residency;
use crate::scan;
use crate::span::{FileId, Span};
use crate::state;
use crate::text;
use crate::timeline;
use crate::timeline::{Step, StepFacts, Timeline};

verus! {

// What kind of file it is.

/// The name of a file type.
pub open spec fn type_text(v: u16) -> Seq<char> {
    match elf::spec_et_name(v) {
        Some(n) => n@,
        None => "ET_?"@,
    }
}

/// The name of a machine.
pub open spec fn machine_text(v: u16) -> Seq<char> {
    match elf::spec_em_name(v) {
        Some(n) => n@,
        None => "EM_?"@,
    }
}

fn et_text(v: u16) -> (r: &'static str)
    ensures
        r@ == type_text(v),
{
    match elf::et_name(v) {
        Some(n) => n,
        None => "ET_?",
    }
}

fn em_text(v: u16) -> (r: &'static str)
    ensures
        r@ == machine_text(v),
{
    match elf::em_name(v) {
        Some(n) => n,
        None => "EM_?",
    }
}

/// What the file is and how large, in one line.
pub open spec fn subtitle_of(f: SummaryView, size: Seq<char>) -> Seq<char> {
    type_text(f.e_type) + "  "@ + machine_text(f.machine) + "  entry "@ + text::hex(f.entry as int)
        + "   "@ + size + " bytes on disk"@
}

/// What the file is and how large, in one line. `size` is the number of its bytes, as it is
/// to be read.
#[must_use]
pub fn subtitle(summary: &Summary, size: &str) -> (r: String)
    ensures
        r@ == subtitle_of(summary@, size@),
{
    let mut r = et_text(summary.e_type).to_string();
    r.append("  ");
    r.append(em_text(summary.machine));
    r.append("  entry ");
    r.append(text::hex_text(summary.entry).as_str());
    r.append("   ");
    r.append(size);
    r.append(" bytes on disk");
    r
}

/// With one more text, where there is one to add.
pub open spec fn with_if(s: Seq<Seq<char>>, add: bool, t: Seq<char>) -> Seq<Seq<char>> {
    if add {
        s.push(t)
    } else {
        s
    }
}

/// What the file says of how it is linked, piece by piece. `needs` introduces the libraries.
pub open spec fn linkage(
    s: Seq<Seq<char>>,
    f: SummaryView,
    needs: Seq<char>,
) -> Seq<Seq<char>> {
    let a = match f.interp {
        Some(i) => s.push("interp "@ + i),
        None => s,
    };
    let b = with_if(a, f.needed.len() > 0, needs + columns::joined(f.needed, ", "@));
    let c = with_if(b, f.bind_now, "BIND_NOW"@);
    let d = with_if(c, f.has_relr, "DT_RELR"@);
    with_if(d, !f.has_dynamic, "static"@)
}

pub(crate) fn push_text(out: &mut Vec<String>, t: String)
    ensures
        text::views(final(out)@) == text::views(old(out)@).push(t@),
{
    let ghost before = out@;
    out.push(t);
    assert(text::views(out@) =~= text::views(before).push(t@));
}

/// Adds what the file says of how it is linked.
pub(crate) fn push_linkage(summary: &Summary, needs: &str, out: &mut Vec<String>)
    ensures
        text::views(final(out)@) == linkage(text::views(old(out)@), summary@, needs@),
{
    if let Some(i) = &summary.interp {
        let mut t = "interp ".to_string();
        t.append(i.as_str());
        push_text(out, t);
    }
    if summary.needed.len() > 0 {
        let mut t = needs.to_string();
        t.append(columns::join(&summary.needed, ", ").as_str());
        push_text(out, t);
    }
    if summary.bind_now {
        push_text(out, "BIND_NOW".to_string());
    }
    if summary.has_relr {
        push_text(out, "DT_RELR".to_string());
    }
    if !summary.has_dynamic {
        push_text(out, "static".to_string());
    }
}

// Where a hole sits.

/// The name of the outermost structure a claim belongs to, where it has one.
pub open spec fn top_note(claims: Seq<ClaimView>, id: ClaimId) -> Option<Seq<char>> {
    let top = render::outermost(claims, id);
    if top.0 < claims.len() {
        match claims[top.0 as int].note {
            Some(n) => if n.len() == 0 {
                None
            } else {
                Some(n)
            },
            None => None,
        }
    } else {
        None
    }
}

/// The name of the structure at an offset of the file.
pub open spec fn note_at(cov: Coverage, off: u64) -> Option<Seq<char>> {
    let stack = cov.covering(FileId(0), off);
    if stack.len() > 0 {
        top_note(cov@.claims, stack[0])
    } else {
        None
    }
}

/// A hole between structures, named by its neighbours. A page-aligned end is the signature
/// of segment padding rather than a mystery.
pub open spec fn between(
    before: Option<Seq<char>>,
    after: Option<Seq<char>>,
    aligned: bool,
) -> Seq<char> {
    let s = match (before, after) {
        (Some(b), Some(a)) => "after "@ + b + ", before "@ + a,
        (Some(b), None) => "after "@ + b + ", to end of file"@,
        (None, Some(a)) => "before "@ + a,
        (None, None) => "between structures"@,
    };
    if aligned {
        s + "  (page alignment)"@
    } else {
        s
    }
}

/// Where a claim sits: inside something, or between its neighbours.
pub open spec fn context_of(cov: Coverage, id: ClaimId) -> Seq<char> {
    let claims = cov@.claims;
    if id.0 >= claims.len() {
        Seq::empty()
    } else {
        let c = claims[id.0 as int];
        let inside = match c.parent {
            Some(p) => top_note(claims, p),
            None => None,
        };
        match inside {
            Some(name) => "inside "@ + name,
            None => between(
                if c.span.start > 0 {
                    note_at(cov, (c.span.start - 1) as u64)
                } else {
                    None
                },
                note_at(cov, c.span.spec_end()),
                c.span.spec_end() % 0x1000 == 0,
            ),
        }
    }
}

/// The name of the outermost structure a claim belongs to: in practice, its section.
#[must_use]
pub fn top_level_note(cov: &Coverage, id: ClaimId) -> (r: Option<String>)
    requires
        cov.wf(),
    ensures
        text::opt_view(r) == top_note(cov@.claims, id),
{
    let chain = cov.ancestry(id);
    let top = chain[chain.len() - 1];
    match cov.claim(top) {
        None => None,
        Some(c) => match &c.note {
            None => None,
            Some(n) => if text::is_blank(n.as_str()) {
                None
            } else {
                Some(n.clone())
            },
        },
    }
}

fn note_at_offset(cov: &Coverage, off: u64) -> (r: Option<String>)
    requires
        cov.wf(),
    ensures
        text::opt_view(r) == note_at(*cov, off),
{
    match cov.innermost_at(FileId::primary(), off) {
        Some(id) => top_level_note(cov, id),
        None => None,
    }
}

/// Where a hole sits, named by its neighbours.
///
/// "between structures" is true and useless. What a reader wants is "after .rela.plt,
/// before .init", which, once you see it, immediately explains the hole: those two are in
/// different segments, and segments are page-aligned in the file.
#[must_use]
pub fn context(cov: &Coverage, id: ClaimId) -> (r: String)
    requires
        cov.wf(),
    ensures
        r@ == context_of(*cov, id),
{
    let span = match cov.span_of(id) {
        Some(s) => s,
        None => return String::new(),
    };
    // A hole inside something is described by what it is inside.
    if let Some(parent) = cov.parent(id) {
        if let Some(name) = top_level_note(cov, parent) {
            let mut r = "inside ".to_string();
            r.append(name.as_str());
            return r;
        }
    }
    let before = if span.start > 0 {
        note_at_offset(cov, span.start - 1)
    } else {
        None
    };
    let after = note_at_offset(cov, span.end());
    let mut s = match (&before, &after) {
        (Some(b), Some(a)) => {
            let mut r = "after ".to_string();
            r.append(b.as_str());
            r.append(", before ");
            r.append(a.as_str());
            r
        },
        (Some(b), None) => {
            let mut r = "after ".to_string();
            r.append(b.as_str());
            r.append(", to end of file");
            r
        },
        (None, Some(a)) => {
            let mut r = "before ".to_string();
            r.append(a.as_str());
            r
        },
        (None, None) => "between structures".to_string(),
    };
    if span.end() % 0x1000 == 0 {
        s.append("  (page alignment)");
    }
    s
}

// The accounting.

/// The unexplained leaves among the first `n` of these claims.
pub open spec fn holes_among(claims: Seq<ClaimView>, ids: Seq<ClaimId>, n: int) -> Seq<ClaimId>
    decreases n,
{
    if n <= 0 {
        Seq::empty()
    } else {
        let id = ids[n - 1];
        if id.0 < claims.len() && claims[id.0 as int].kind is Unclaimed {
            holes_among(claims, ids, n - 1).push(id)
        } else {
            holes_among(claims, ids, n - 1)
        }
    }
}

/// The unexplained leaves, in order.
pub open spec fn holes_of(claims: Seq<ClaimView>) -> Seq<ClaimId> {
    let ids = coverage::leaf_ids(claims, claims.len() as int);
    holes_among(claims, ids, ids.len() as int)
}

/// Sort keys by which the longest comes first, and holes of one length keep their order.
pub open spec fn hole_keys(claims: Seq<ClaimView>, holes: Seq<ClaimId>) -> Seq<Key> {
    Seq::new(
        holes.len(),
        |i: int|
            (
                (u64::MAX - claims[holes[i].0 as int].span.len) as u64,
                i as u64,
                holes[i].0 as u64,
            ),
    )
}

/// The unexplained leaves, the longest first.
pub open spec fn ranked_holes(claims: Seq<ClaimView>) -> Seq<Key> {
    order::sorted(hole_keys(claims, holes_of(claims)))
}

/// One hole.
pub open spec fn hole_line(cov: Coverage, id: ClaimId) -> Seq<char> {
    let s = cov@.claims[id.0 as int].span;
    "    "@ + columns::wide_hex(s.start as int, 8) + "  "@ + columns::right(
        audit::grouped(text::dec(s.len as int)),
        10,
    ) + "  "@ + context_of(cov, id) + "\n"@
}

/// The first `n` holes.
pub open spec fn hole_lines(cov: Coverage, keys: Seq<Key>, n: int) -> Seq<char>
    decreases n,
{
    if n <= 0 {
        Seq::empty()
    } else {
        hole_lines(cov, keys, n - 1) + hole_line(cov, ClaimId(keys[n - 1].2 as u32))
    }
}

/// The largest holes, at most eight.
pub open spec fn holes_part(cov: Coverage) -> Seq<char> {
    let keys = ranked_holes(cov@.claims);
    if keys.len() == 0 {
        Seq::empty()
    } else if keys.len() <= 8 {
        "\n  largest unexplained regions\n"@ + hole_lines(cov, keys, keys.len() as int)
    } else {
        "\n  largest unexplained regions\n"@ + hole_lines(cov, keys, 8) + "    … and "@ + text::dec(
            keys.len() - 8,
        ) + " more\n"@
    }
}

/// The lines that say how much is explained. The two shares are in percent.
pub open spec fn accounting(cov: Coverage, explained: Seq<char>, unexplained: Seq<char>) -> Seq<
    char,
> {
    let claims = cov@.claims;
    let n = claims.len() as int;
    let total = coverage::total_len(cov@.files, cov@.files.len() as int);
    let filler = coverage::filler_len(claims, n);
    let known = if filler < total {
        (total - filler) as u64
    } else {
        0
    };
    "\n  coverage      ok — every byte claimed exactly once\n"@ + "  size          "@
        + audit::grouped(text::dec(total as int)) + " bytes\n"@ + "  claims        "@
        + audit::grouped(text::dec(n)) + " ("@ + audit::grouped(
        text::dec(coverage::leaf_ids(claims, n).len() as int),
    ) + " leaves, depth "@ + text::dec(coverage::depth(claims, n) as int) + ")\n"@
        + "  explained     "@ + columns::right(audit::grouped(text::dec(known as int)), 12) + "  "@
        + explained + "%\n"@ + "  unexplained   "@ + columns::right(
        audit::grouped(text::dec(filler as int)),
        12,
    ) + "  "@ + unexplained + "%\n"@
}

/// The line of linkage, where there is anything to say.
pub open spec fn linkage_line(f: SummaryView) -> Seq<char> {
    let parts = linkage(Seq::empty(), f, "needed "@);
    if parts.len() == 0 {
        Seq::empty()
    } else {
        "  "@ + columns::joined(parts, "   "@) + "\n"@
    }
}

/// The report on one file.
pub open spec fn report_of(
    path: Seq<char>,
    p: Parsed,
    explained: Seq<char>,
    unexplained: Seq<char>,
) -> Seq<char> {
    let f = p.summary@;
    path + "  "@ + type_text(f.e_type) + " "@ + machine_text(f.machine) + "  entry "@ + text::hex(
        f.entry as int,
    ) + "\n"@ + linkage_line(f) + accounting(p.coverage, explained, unexplained) + holes_part(
        p.coverage,
    ) + "\n"@
}

fn holes_in(cov: &Coverage) -> (r: Vec<ClaimId>)
    requires
        cov.wf(),
    ensures
        r@ == holes_of(cov@.claims),
        forall|i: int| 0 <= i < r@.len() ==> (#[trigger] r@[i]).0 < cov@.claims.len(),
{
    let ids = cov.leaves();
    let mut out: Vec<ClaimId> = Vec::new();
    let mut k: usize = 0;
    while k < ids.len()
        invariant
            k <= ids@.len(),
            out@ == holes_among(cov@.claims, ids@, k as int),
            forall|i: int| 0 <= i < out@.len() ==> (#[trigger] out@[i]).0 < cov@.claims.len(),
        decreases ids.len() - k,
    {
        if let Some(c) = cov.claim(ids[k]) {
            if let ClaimKind::Unclaimed = c.kind {
                out.push(ids[k]);
            }
        }
        k += 1;
    }
    out
}

fn rank_holes(cov: &Coverage) -> (r: Vec<Key>)
    requires
        cov.wf(),
    ensures
        r@ == ranked_holes(cov@.claims),
        forall|i: int|
            0 <= i < r@.len() ==> (#[trigger] r@[i]).2 < cov@.claims.len() && r@[i].2 <= u32::MAX,
{
    let holes = holes_in(cov);
    let ghost claims = cov@.claims;
    let mut keys: Vec<Key> = Vec::new();
    let mut i: usize = 0;
    while i < holes.len()
        invariant
            i <= holes@.len(),
            claims == cov@.claims,
            forall|k: int| 0 <= k < holes@.len() ==> (#[trigger] holes@[k]).0 < claims.len(),
            keys@ =~= hole_keys(claims, holes@).take(i as int),
        decreases holes.len() - i,
    {
        let len: u64 = match cov.span_of(holes[i]) {
            Some(s) => s.len,
            None => 0,
        };
        keys.push((u64::MAX - len, i as u64, holes[i].0 as u64));
        i += 1;
    }
    assert(keys@ =~= hole_keys(claims, holes@));
    let r = order::sort_keys(keys.as_slice());
    proof {
        order::lemma_sorted(keys@);
        assert forall|i: int| 0 <= i < r@.len() implies (#[trigger] r@[i]).2 < claims.len()
            && r@[i].2 <= u32::MAX by {
            assert(r@.contains(r@[i]));
            assert(keys@.contains(r@[i]));
            let k = choose|k: int| 0 <= k < keys@.len() && keys@[k] == r@[i];
            assert(holes@[k].0 < claims.len());
        }
    }
    r
}

fn hole_text(cov: &Coverage, id: ClaimId) -> (r: String)
    requires
        cov.wf(),
        id.0 < cov@.claims.len(),
    ensures
        r@ == hole_line(*cov, id),
{
    let s = match cov.span_of(id) {
        Some(s) => s,
        None => Span::empty_at(FileId::primary(), 0),
    };
    let mut r = "    ".to_string();
    r.append(columns::wide_hex_text(s.start, 8).as_str());
    r.append("  ");
    r.append(columns::at_right(audit::commas(s.len).as_str(), 10).as_str());
    r.append("  ");
    r.append(context(cov, id).as_str());
    r.append("\n");
    r
}

fn holes_text(cov: &Coverage) -> (r: String)
    requires
        cov.wf(),
    ensures
        r@ == holes_part(*cov),
{
    let keys = rank_holes(cov);
    if keys.len() == 0 {
        return String::new();
    }
    let shown: usize = if keys.len() < 8 {
        keys.len()
    } else {
        8
    };
    let mut lines = String::new();
    let mut i: usize = 0;
    while i < shown
        invariant
            i <= shown <= keys@.len(),
            cov.wf(),
            forall|k: int|
                0 <= k < keys@.len() ==> (#[trigger] keys@[k]).2 < cov@.claims.len() && keys@[k].2
                    <= u32::MAX,
            lines@ =~= hole_lines(*cov, keys@, i as int),
        decreases shown - i,
    {
        let id = ClaimId(keys[i].2 as u32);
        assert(id.0 == keys@[i as int].2);
        lines.append(hole_text(cov, id).as_str());
        i += 1;
    }
    let mut r = "\n  largest unexplained regions\n".to_string();
    r.append(lines.as_str());
    if keys.len() > 8 {
        r.append("    … and ");
        r.append(text::dec_text((keys.len() - 8) as u64).as_str());
        r.append(" more\n");
    }
    r
}

fn accounting_text(cov: &Coverage, explained: &str, unexplained: &str) -> (r: String)
    requires
        cov.wf(),
    ensures
        r@ == accounting(*cov, explained@, unexplained@),
{
    let stats = cov.stats();
    let mut r = "\n  coverage      ok — every byte claimed exactly once\n".to_string();
    r.append("  size          ");
    r.append(audit::commas(stats.total_bytes).as_str());
    r.append(" bytes\n");
    r.append("  claims        ");
    r.append(audit::commas(stats.claim_count as u64).as_str());
    r.append(" (");
    r.append(audit::commas(stats.leaf_count as u64).as_str());
    r.append(" leaves, depth ");
    r.append(text::dec_text(stats.max_depth as u64).as_str());
    r.append(")\n");
    r.append("  explained     ");
    r.append(columns::at_right(audit::commas(stats.explained_bytes).as_str(), 12).as_str());
    r.append("  ");
    r.append(explained);
    r.append("%\n");
    r.append("  unexplained   ");
    r.append(columns::at_right(audit::commas(stats.filler_bytes).as_str(), 12).as_str());
    r.append("  ");
    r.append(unexplained);
    r.append("%\n");
    r
}

/// The report on one file. `explained` and `unexplained` are shares of its bytes in percent,
/// as they are to be read.
#[must_use]
pub fn report(path: &str, p: &Parsed, explained: &str, unexplained: &str) -> (r: String)
    requires
        p.coverage.wf(),
    ensures
        r@ == report_of(path@, *p, explained@, unexplained@),
{
    let s = &p.summary;
    let mut r = path.to_string();
    r.append("  ");
    r.append(et_text(s.e_type));
    r.append(" ");
    r.append(em_text(s.machine));
    r.append("  entry ");
    r.append(text::hex_text(s.entry).as_str());
    r.append("\n");
    let mut parts: Vec<String> = Vec::new();
    assert(text::views(parts@) =~= Seq::empty());
    push_linkage(s, "needed ", &mut parts);
    let mut line = String::new();
    if parts.len() > 0 {
        line = "  ".to_string();
        line.append(columns::join(&parts, "   ").as_str());
        line.append("\n");
    }
    assert(line@ =~= linkage_line(s@));
    r.append(line.as_str());
    r.append(accounting_text(&p.coverage, explained, unexplained).as_str());
    r.append(holes_text(&p.coverage).as_str());
    r.append("\n");
    r
}

// The claim tree.

/// What a claim is called: the field it is, or its kind.
pub open spec fn claim_name(c: ClaimView) -> Seq<char> {
    match c.kind.spec_field_name() {
        Some(n) => n@,
        None => c.kind.spec_label()@,
    }
}

/// A value with its note, where it has one.
pub open spec fn noted(v: Seq<char>, note: Option<Seq<char>>) -> Seq<char> {
    match note {
        Some(n) => v + "  "@ + n,
        None => v,
    }
}

/// What a claim says, in short.
pub open spec fn detail_of(c: ClaimView) -> Seq<char> {
    match c.value {
        ValueView::Text(t) => "\""@ + t + "\""@,
        ValueView::Address(a) => noted(text::hex(a as int), c.note),
        ValueView::FileOffset(o) => "@"@ + text::hex(o as int),
        ValueView::Unsigned(v) => noted(text::dec(v as int), c.note),
        ValueView::Flags(v) => text::hex(v as int),
        _ => render::note_of(c),
    }
}

/// The line of one claim.
pub open spec fn claim_line(c: ClaimView, level: int) -> Seq<char> {
    columns::wide_hex(c.span.start as int, 8) + " "@ + columns::right(
        audit::grouped(text::dec(c.span.len as int)),
        9,
    ) + "  "@ + columns::filled(' ', 2 * level) + columns::left(claim_name(c), 16) + " "@
        + detail_of(c) + "\n"@
}

/// The line that stands for what is too deep to show.
pub open spec fn cut_line(kids: int, level: int) -> Seq<char> {
    if kids > 0 {
        columns::right(""@, 21) + "  "@ + columns::filled(' ', 2 * level) + "  … "@ + text::dec(
            kids,
        ) + " children\n"@
    } else {
        Seq::empty()
    }
}

/// A claim and what is inside it, down to level `max`.
pub open spec fn tree(claims: Seq<ClaimView>, i: int, level: int, max: int) -> Seq<char>
    decreases claims.len() - i, 1int, 0int,
{
    if i < 0 || i >= claims.len() {
        Seq::empty()
    } else {
        let kids = coverage::child_ids(claims, i);
        claim_line(claims[i], level) + if level >= max {
            cut_line(kids.len() as int, level)
        } else {
            subtrees(claims, i, kids, kids.len() as int, level + 1, max)
        }
    }
}

/// The first `n` claims inside `i`. Each comes after the claim it is inside.
pub open spec fn subtrees(
    claims: Seq<ClaimView>,
    i: int,
    kids: Seq<ClaimId>,
    n: int,
    level: int,
    max: int,
) -> Seq<char>
    decreases claims.len() - i, 0int, n,
{
    if n <= 0 || i < 0 || i >= claims.len() {
        Seq::empty()
    } else {
        subtrees(claims, i, kids, n - 1, level, max) + if i < kids[n - 1].0 < claims.len() {
            tree(claims, kids[n - 1].0 as int, level, max)
        } else {
            Seq::empty()
        }
    }
}

/// The first `n` of these trees.
pub open spec fn forest(claims: Seq<ClaimView>, roots: Seq<ClaimId>, n: int, max: int) -> Seq<char>
    decreases n,
{
    if n <= 0 {
        Seq::empty()
    } else {
        forest(claims, roots, n - 1, max) + tree(claims, roots[n - 1].0 as int, 0, max)
    }
}

fn name_of(c: &Claim) -> (r: &'static str)
    ensures
        r@ == claim_name(c@),
{
    match c.kind.field_name() {
        Some(n) => n,
        None => c.kind.label(),
    }
}

fn noted_text(v: String, note: &Option<String>) -> (r: String)
    ensures
        r@ == noted(v@, text::opt_view(*note)),
{
    match note {
        Some(n) => {
            let mut r = v;
            r.append("  ");
            r.append(n.as_str());
            r
        },
        None => v,
    }
}

fn detail_text(c: &Claim) -> (r: String)
    ensures
        r@ == detail_of(c@),
{
    match &c.value {
        Value::Text(t) => {
            let mut r = "\"".to_string();
            r.append(t.as_str());
            r.append("\"");
            r
        },
        Value::Address(a) => noted_text(text::hex_text(*a), &c.note),
        Value::FileOffset(o) => {
            let mut r = "@".to_string();
            r.append(text::hex_text(*o).as_str());
            r
        },
        Value::Unsigned(v) => noted_text(text::dec_text(*v), &c.note),
        Value::Flags(v) => text::hex_text(*v),
        _ => match &c.note {
            Some(n) => n.clone(),
            None => {
                let r = String::new();
                assert(r@ =~= Seq::<char>::empty());
                r
            },
        },
    }
}

fn indent(level: usize) -> (r: String)
    ensures
        r@ == columns::filled(' ', 2 * level),
{
    let mut r = String::new();
    let mut i: usize = 0;
    while i < level
        invariant
            i <= level,
            r@ =~= columns::filled(' ', 2 * i),
        decreases level - i,
    {
        r.push(' ');
        r.push(' ');
        i += 1;
    }
    r
}

fn claim_text(c: &Claim, level: usize) -> (r: String)
    ensures
        r@ == claim_line(c@, level as int),
{
    let mut r = columns::wide_hex_text(c.span.start, 8);
    r.append(" ");
    r.append(columns::at_right(audit::commas(c.span.len).as_str(), 9).as_str());
    r.append("  ");
    r.append(indent(level).as_str());
    r.append(columns::at_left(name_of(c), 16).as_str());
    r.append(" ");
    r.append(detail_text(c).as_str());
    r.append("\n");
    r
}

fn cut_text(kids: usize, level: usize) -> (r: String)
    ensures
        r@ == cut_line(kids as int, level as int),
{
    if kids > 0 {
        let mut r = columns::at_right("", 21);
        r.append("  ");
        r.append(indent(level).as_str());
        r.append("  … ");
        r.append(text::dec_text(kids as u64).as_str());
        r.append(" children\n");
        r
    } else {
        let r = String::new();
        assert(r@ =~= Seq::<char>::empty());
        r
    }
}

fn tree_text(cov: &Coverage, id: ClaimId, level: usize, max: usize) -> (r: String)
    requires
        cov.wf(),
        level <= id.0,
    ensures
        r@ == tree(cov@.claims, id.0 as int, level as int, max as int),
    decreases cov@.claims.len() - id.0,
{
    let ghost claims = cov@.claims;
    let c = match cov.claim(id) {
        Some(c) => c,
        None => {
            let r = String::new();
            assert(r@ =~= Seq::<char>::empty());
            return r;
        },
    };
    let kids = cov.children(id);
    let mut r = claim_text(c, level);
    if level >= max {
        r.append(cut_text(kids.len(), level).as_str());
        return r;
    }
    let mut inside = String::new();
    let mut k: usize = 0;
    while k < kids.len()
        invariant
            k <= kids@.len(),
            cov.wf(),
            claims == cov@.claims,
            level <= id.0,
            id.0 < claims.len(),
            kids@ == coverage::child_ids(claims, id.0 as int),
            inside@ =~= subtrees(
                claims,
                id.0 as int,
                kids@,
                k as int,
                level + 1,
                max as int,
            ),
        decreases kids.len() - k,
    {
        let kid = kids[k];
        if kid.0 > id.0 && (kid.0 as usize) < cov.len() {
            inside.append(tree_text(cov, kid, level + 1, max).as_str());
        }
        k += 1;
    }
    r.append(inside.as_str());
    r
}

/// The claim tree, down to level `max`.
#[must_use]
pub fn dump(cov: &Coverage, max: usize) -> (r: String)
    requires
        cov.wf(),
    ensures
        ({
            let roots = coverage::root_ids(cov@.claims);
            r@ == forest(cov@.claims, roots, roots.len() as int, max as int)
        }),
{
    let roots = cov.roots();
    let mut out = String::new();
    let mut i: usize = 0;
    while i < roots.len()
        invariant
            i <= roots@.len(),
            cov.wf(),
            out@ =~= forest(cov@.claims, roots@, i as int, max as int),
        decreases roots.len() - i,
    {
        out.append(tree_text(cov, roots[i], 0, max).as_str());
        i += 1;
    }
    out
}

// One byte.

/// A file offset as it is typed: decimal, or hexadecimal behind `0x`.
pub open spec fn offset_of(s: Seq<char>) -> Option<int> {
    if text::stands_at(s, "0x"@, 0) {
        scan::parsed(s.skip(2), 16, u64::MAX as int)
    } else {
        scan::parsed(s, 10, u64::MAX as int)
    }
}

/// A file offset as it is typed: decimal, or hexadecimal behind `0x`.
#[must_use]
pub fn parse_offset(s: &str) -> (r: Option<u64>)
    ensures
        match r {
            Some(v) => offset_of(s@) == Some(v as int),
            None => offset_of(s@) is None,
        },
{
    proof {
        reveal_strlit("0x");
    }
    let chars = text::chars_of(s);
    if scan::begins(chars.as_slice(), "0x") {
        scan::parse_number(scan::from(chars.as_slice(), 2), 16, u64::MAX)
    } else {
        scan::parse_number(chars.as_slice(), 10, u64::MAX)
    }
}

/// The line of one claim over a byte.
pub open spec fn cover_line(c: ClaimView, level: int) -> Seq<char> {
    columns::filled(' ', 2 * level) + columns::left(claim_name(c), 16) + " "@ + columns::wide_hex(
        c.span.start as int,
        8,
    ) + ".."@ + columns::wide_hex(c.span.spec_end() as int, 8) + "  "@ + render::note_of(c) + "\n"@
}

/// The lines of the first `n` claims over a byte.
pub open spec fn cover_lines(claims: Seq<ClaimView>, stack: Seq<ClaimId>, n: int) -> Seq<char>
    decreases n,
{
    if n <= 0 {
        Seq::empty()
    } else {
        cover_lines(claims, stack, n - 1) + if stack[n - 1].0 < claims.len() {
            cover_line(claims[stack[n - 1].0 as int], n - 1)
        } else {
            Seq::empty()
        }
    }
}

/// What covers a byte.
pub open spec fn covers(cov: Coverage, off: u64) -> Seq<char> {
    let stack = cov.covering(FileId(0), off);
    if stack.len() == 0 {
        text::hex(off as int) + " is past the end of the file\n"@
    } else {
        "byte "@ + text::hex(off as int) + ", innermost first:\n\n"@ + cover_lines(
            cov@.claims,
            stack,
            stack.len() as int,
        )
    }
}

fn cover_text(c: &Claim, level: usize) -> (r: String)
    ensures
        r@ == cover_line(c@, level as int),
{
    let mut r = indent(level);
    r.append(columns::at_left(name_of(c), 16).as_str());
    r.append(" ");
    r.append(columns::wide_hex_text(c.span.start, 8).as_str());
    r.append("..");
    r.append(columns::wide_hex_text(c.span.end(), 8).as_str());
    r.append("  ");
    let note = match &c.note {
        Some(n) => n.clone(),
        None => String::new(),
    };
    assert(note@ =~= render::note_of(c@));
    r.append(note.as_str());
    r.append("\n");
    r
}

/// What covers a byte, innermost first.
#[must_use]
pub fn at(cov: &Coverage, off: u64) -> (r: String)
    requires
        cov.wf(),
    ensures
        r@ == covers(*cov, off),
{
    let stack = cov.claims_at(FileId::primary(), off);
    if stack.len() == 0 {
        let mut r = text::hex_text(off);
        r.append(" is past the end of the file\n");
        return r;
    }
    let mut lines = String::new();
    let mut i: usize = 0;
    while i < stack.len()
        invariant
            i <= stack@.len(),
            lines@ =~= cover_lines(cov@.claims, stack@, i as int),
        decreases stack.len() - i,
    {
        if let Some(c) = cov.claim(stack[i]) {
            lines.append(cover_text(c, i).as_str());
        }
        i += 1;
    }
    let mut r = "byte ".to_string();
    r.append(text::hex_text(off).as_str());
    r.append(", innermost first:\n\n");
    r.append(lines.as_str());
    r
}

// Memory.

/// Where a mapping comes from.
pub open spec fn source_of(s: MapSource) -> Seq<char> {
    match s {
        MapSource::FromFile(f) => "file "@ + text::hex(f.start as int) + ".."@ + text::hex(
            f.spec_end() as int,
        ),
        MapSource::ZeroFill => "zero-fill — in no file"@,
    }
}

/// One mapping.
pub open spec fn mapping_line(m: Mapping) -> Seq<char> {
    "  "@ + columns::left(columns::wide_hex(m.vaddr as int, 8), 20) + " "@ + columns::right(
        audit::grouped(text::dec(m.len as int)),
        12,
    ) + "  "@ + columns::left(m.prot.spec_str()@, 5) + " "@ + source_of(m.source) + "\n"@
}

/// The first `n` mappings.
pub open spec fn mapping_lines(maps: Seq<Mapping>, n: int) -> Seq<char>
    decreases n,
{
    if n <= 0 {
        Seq::empty()
    } else {
        mapping_lines(maps, n - 1) + mapping_line(maps[n - 1])
    }
}

/// One mapping as the kernel shows it.
pub open spec fn vma_line(v: Vma) -> Seq<char> {
    "    "@ + columns::wide_hex(v.start as int, 8) + "-"@ + columns::wide_hex(v.end as int, 8)
        + "  "@ + v.prot.spec_str()@ + "  "@ + columns::right(
        audit::grouped(
            text::dec(
                if v.start < v.end {
                    v.end - v.start
                } else {
                    0
                },
            ),
        ),
        10,
    ) + " bytes\n"@
}

/// The first `n` mappings as the kernel shows them.
pub open spec fn vma_lines(vmas: Seq<Vma>, n: int) -> Seq<char>
    decreases n,
{
    if n <= 0 {
        Seq::empty()
    } else {
        vma_lines(vmas, n - 1) + vma_line(vmas[n - 1])
    }
}

/// How many bytes of a file of `total` bytes are never loaded.
pub open spec fn never(image: MemImage, total: u64) -> int {
    let resident = residency::resident_set(image.ranges()).len();
    if resident < total {
        total - resident
    } else {
        0
    }
}

/// What the kernel maps of a file of `total` bytes. The two shares are in percent.
pub open spec fn map_of(
    path: Seq<char>,
    image: MemImage,
    total: u64,
    loaded: Seq<char>,
    left: Seq<char>,
) -> Seq<char> {
    let maps = image.maps();
    let vmas = state::table(maps);
    let double = residency::shared_set(image.ranges()).len() as int;
    let head = path + "  "@ + text::dec(maps.len() as int) + " mappings\n\n"@
        + "  vaddr                        size  prot  source\n"@ + mapping_lines(
        maps,
        maps.len() as int,
    ) + "\n  kernel mappings — page-rounded, as /proc/<pid>/maps would show\n"@ + vma_lines(
        vmas,
        vmas.len() as int,
    );
    let sums = head + "\n  in the process    "@ + columns::right(
        audit::grouped(text::dec(residency::resident_set(image.ranges()).len() as int)),
        12,
    ) + "  "@ + loaded + "%   including whatever shares a mapped page\n"@ + "  never loaded      "@
        + columns::right(audit::grouped(text::dec(never(image, total))), 12) + "  "@ + left
        + "%   section headers, symbols, debug info\n"@ + "  zero-filled       "@ + columns::right(
        audit::grouped(text::dec(model::zero_bytes(maps, maps.len() as int) as int)),
        12,
    ) + "          .bss — memory with no file behind it\n"@;
    if double > 0 {
        sums + "  mapped twice      "@ + columns::right(audit::grouped(text::dec(double)), 12)
            + "          file pages shared by two segments\n"@ + "\n"@
    } else {
        sums + "\n"@
    }
}

fn mapping_text(m: &Mapping) -> (r: String)
    ensures
        r@ == mapping_line(*m),
{
    let mut r = "  ".to_string();
    r.append(columns::at_left(columns::wide_hex_text(m.vaddr, 8).as_str(), 20).as_str());
    r.append(" ");
    r.append(columns::at_right(audit::commas(m.len).as_str(), 12).as_str());
    r.append("  ");
    r.append(columns::at_left(m.prot.as_str(), 5).as_str());
    r.append(" ");
    let source = match m.source {
        MapSource::FromFile(s) => {
            let mut t = "file ".to_string();
            t.append(text::hex_text(s.start).as_str());
            t.append("..");
            t.append(text::hex_text(s.end()).as_str());
            t
        },
        MapSource::ZeroFill => "zero-fill — in no file".to_string(),
    };
    r.append(source.as_str());
    r.append("\n");
    r
}

fn vma_text(v: &Vma) -> (r: String)
    ensures
        r@ == vma_line(*v),
{
    let mut r = "    ".to_string();
    r.append(columns::wide_hex_text(v.start, 8).as_str());
    r.append("-");
    r.append(columns::wide_hex_text(v.end, 8).as_str());
    r.append("  ");
    r.append(v.prot.as_str());
    r.append("  ");
    r.append(columns::at_right(audit::commas(v.end.saturating_sub(v.start)).as_str(), 10).as_str());
    r.append(" bytes\n");
    r
}

/// What the kernel maps, and what it leaves behind. `total` is the length of the file;
/// `loaded` and `left` are the shares of it that are in memory and that are not, in
/// percent, as they are to be read.
#[must_use]
pub fn map(path: &str, image: &MemImage, total: u64, loaded: &str, left: &str) -> (r: String)
    ensures
        r@ == map_of(path@, *image, total, loaded@, left@),
{
    let maps = image.mappings();
    let mut lines = String::new();
    let mut i: usize = 0;
    while i < maps.len()
        invariant
            i <= maps@.len(),
            lines@ =~= mapping_lines(maps@, i as int),
        decreases maps.len() - i,
    {
        lines.append(mapping_text(&maps[i]).as_str());
        i += 1;
    }
    let vmas = image.vmas();
    let mut kernel = String::new();
    let mut k: usize = 0;
    while k < vmas.len()
        invariant
            k <= vmas@.len(),
            kernel@ =~= vma_lines(vmas@, k as int),
        decreases vmas.len() - k,
    {
        kernel.append(vma_text(&vmas[k]).as_str());
        k += 1;
    }
    let resident: u64 = image.resident_bytes();
    let double: u64 = image.double_mapped_bytes();
    let mut r = path.to_string();
    r.append("  ");
    r.append(text::dec_text(maps.len() as u64).as_str());
    r.append(" mappings\n\n");
    r.append("  vaddr                        size  prot  source\n");
    r.append(lines.as_str());
    r.append("\n  kernel mappings — page-rounded, as /proc/<pid>/maps would show\n");
    r.append(kernel.as_str());
    r.append("\n  in the process    ");
    r.append(columns::at_right(audit::commas(resident).as_str(), 12).as_str());
    r.append("  ");
    r.append(loaded);
    r.append("%   including whatever shares a mapped page\n");
    r.append("  never loaded      ");
    r.append(
        columns::at_right(audit::commas(total.saturating_sub(resident)).as_str(), 12).as_str(),
    );
    r.append("  ");
    r.append(left);
    r.append("%   section headers, symbols, debug info\n");
    r.append("  zero-filled       ");
    r.append(columns::at_right(audit::commas(image.zero_filled_bytes()).as_str(), 12).as_str());
    r.append("          .bss — memory with no file behind it\n");
    if double > 0 {
        r.append("  mapped twice      ");
        r.append(columns::at_right(audit::commas(double).as_str(), 12).as_str());
        r.append("          file pages shared by two segments\n");
    }
    r.append("\n");
    r
}

// The modelled load.

/// Whether a step is to be shown under this filter.
pub open spec fn wanted(s: StepFacts, phase: Option<Seq<char>>) -> bool {
    match phase {
        Some(p) => p == s.phase.spec_str()@,
        None => true,
    }
}

/// The lines from step `i` on, when `shown` steps were shown, the last of them of phase
/// `last`.
pub open spec fn step_lines(
    steps: Seq<StepFacts>,
    i: int,
    shown: int,
    last: Option<timeline::Phase>,
    phase: Option<Seq<char>>,
    limit: int,
) -> Seq<char>
    decreases steps.len() - i,
{
    if i < 0 || i >= steps.len() {
        Seq::empty()
    } else if !wanted(steps[i], phase) {
        step_lines(steps, i + 1, shown, last, phase, limit)
    } else if shown >= limit {
        "    … "@ + text::dec(steps.len() - shown) + " more steps\n"@
    } else {
        step_line(steps[i], last) + step_lines(
            steps,
            i + 1,
            shown + 1,
            Some(steps[i].phase),
            phase,
            limit,
        )
    }
}

/// The line of one step, under a heading where its phase is new.
pub open spec fn step_line(s: StepFacts, last: Option<timeline::Phase>) -> Seq<char> {
    let line = "    "@ + columns::right(text::dec(s.n as int), 4) + "  "@ + s.narration + "\n"@;
    if last == Some(s.phase) {
        line
    } else {
        "  "@ + s.phase.spec_str()@ + " · "@ + s.actor.spec_str()@ + "\n"@ + line
    }
}

/// The modelled load, step by step.
pub open spec fn steps_of(
    path: Seq<char>,
    steps: Seq<StepFacts>,
    phase: Option<Seq<char>>,
    limit: int,
) -> Seq<char> {
    let end = timeline::after_steps(steps, steps.len() as int);
    path + "  "@ + text::dec(steps.len() as int) + " steps modelled\n\n"@ + step_lines(
        steps,
        0,
        0,
        None,
        phase,
        limit,
    ) + "\n  at the end: "@ + text::dec(end.mappings.len() as int) + " mappings, "@ + text::dec(
        end.poked.len() as int,
    ) + " addresses written before the program ran\n\n"@
}

fn step_text(s: &Step, last: Option<timeline::Phase>) -> (r: String)
    ensures
        r@ == step_line(s@, last),
{
    let mut line = "    ".to_string();
    line.append(columns::at_right(text::dec_text(s.n as u64).as_str(), 4).as_str());
    line.append("  ");
    line.append(s.narration.as_str());
    line.append("\n");
    let known = match last {
        Some(p) => p == s.phase,
        None => false,
    };
    if known {
        line
    } else {
        let mut r = "  ".to_string();
        r.append(s.phase.as_str());
        r.append(" · ");
        r.append(s.actor.as_str());
        r.append("\n");
        r.append(line.as_str());
        r
    }
}

fn steps_text(all: &[Step], phase: Option<&str>, limit: usize) -> (r: String)
    ensures
        r@ == step_lines(
            timeline::step_views(all@),
            0,
            0,
            None,
            str_view(phase),
            limit as int,
        ),
{
    let ghost steps = timeline::step_views(all@);
    let ghost p = str_view(phase);
    let ghost whole = step_lines(steps, 0, 0, None, p, limit as int);
    let mut out = String::new();
    let mut last: Option<timeline::Phase> = None;
    let mut shown: usize = 0;
    let mut i: usize = 0;
    assert(out@ + whole =~= whole);
    while i < all.len()
        invariant
            shown <= i <= all@.len(),
            steps == timeline::step_views(all@),
            p == str_view(phase),
            whole == step_lines(steps, 0, 0, None, p, limit as int),
            out@ + step_lines(steps, i as int, shown as int, last, p, limit as int) == whole,
        decreases all.len() - i,
    {
        let ghost before = out@;
        let s = &all[i];
        assert(steps[i as int] == s@);
        let show = match phase {
            Some(f) => text::same(f, s.phase.as_str()),
            None => true,
        };
        if show {
            if shown >= limit {
                out.append("    … ");
                out.append(text::dec_text((all.len() - shown) as u64).as_str());
                out.append(" more steps\n");
                assert(out@ =~= whole);
                return out;
            }
            let line = step_text(s, last);
            out.append(line.as_str());
            proof {
                let rest = step_lines(
                    steps,
                    i + 1,
                    shown + 1,
                    Some(s.phase),
                    p,
                    limit as int,
                );
                assert(before + (line@ + rest) =~= before + line@ + rest);
            }
            last = Some(s.phase);
            shown += 1;
        }
        i += 1;
    }
    assert(out@ + Seq::<char>::empty() =~= out@);
    out
}

/// The characters of an optional borrowed text.
pub open spec fn str_view(s: Option<&str>) -> Option<Seq<char>> {
    match s {
        Some(t) => Some(t@),
        None => None,
    }
}

/// The modelled load, step by step: at most `limit` steps, and of one phase only where one
/// is given.
#[must_use]
pub fn steps(path: &str, timeline: &Timeline, phase: Option<&str>, limit: usize) -> (r: String)
    ensures
        r@ == steps_of(path@, timeline.facts(), str_view(phase), limit as int),
{
    let all = timeline.steps();
    let end = timeline.state_at(all.len());
    let mut r = path.to_string();
    r.append("  ");
    r.append(text::dec_text(all.len() as u64).as_str());
    r.append(" steps modelled\n\n");
    r.append(steps_text(all, phase, limit).as_str());
    r.append("\n  at the end: ");
    r.append(text::dec_text(end.mappings.len() as u64).as_str());
    r.append(" mappings, ");
    r.append(text::dec_text(end.poked.len() as u64).as_str());
    r.append(" addresses written before the program ran\n\n");
    r
}

// Findings.

/// One finding.
pub open spec fn finding_line(f: FindingView) -> Seq<char> {
    "  "@ + columns::left(f.severity.spec_str()@, 8) + " "@ + f.title + "\n"@ + "           "@
        + f.detail + "\n"@
}

/// The first `n` findings.
pub open spec fn finding_lines(s: Seq<FindingView>, n: int) -> Seq<char>
    decreases n,
{
    if n <= 0 {
        Seq::empty()
    } else {
        finding_lines(s, n - 1) + finding_line(s[n - 1])
    }
}

/// How many of the first `n` findings are suspicious.
pub open spec fn flags(s: Seq<FindingView>, n: int) -> nat
    decreases n,
{
    if n <= 0 {
        0
    } else {
        flags(s, n - 1) + if s[n - 1].severity == Severity::Suspicious {
            1nat
        } else {
            0nat
        }
    }
}

/// What an audit of a file of `size` bytes found. The share is in percent.
pub open spec fn suspect_of(
    path: Seq<char>,
    size: u64,
    explained: Seq<char>,
    found: Seq<FindingView>,
) -> Seq<char> {
    path + "  "@ + audit::grouped(text::dec(size as int)) + " bytes, "@ + explained
        + "% accounted for\n"@ + if found.len() == 0 {
        "  nothing to report\n\n"@
    } else {
        finding_lines(found, found.len() as int) + "\n"@
    }
}

/// What an audit of a file of `size` bytes found, and how many of the findings are
/// suspicious. `explained` is the share of its bytes that is accounted for, in percent.
#[must_use]
pub fn suspect(path: &str, size: u64, explained: &str, found: &[Finding]) -> (r: (String, usize))
    ensures
        r.0@ == suspect_of(path@, size, explained@, audit::finding_views(found@)),
        r.1 == flags(audit::finding_views(found@), found@.len() as int),
{
    let ghost all = audit::finding_views(found@);
    let mut lines = String::new();
    let mut flagged: usize = 0;
    let mut i: usize = 0;
    while i < found.len()
        invariant
            flagged <= i <= found@.len(),
            all == audit::finding_views(found@),
            lines@ =~= finding_lines(all, i as int),
            flagged == flags(all, i as int),
        decreases found.len() - i,
    {
        let f = &found[i];
        assert(all[i as int] == f@);
        let mut line = "  ".to_string();
        line.append(columns::at_left(f.severity.as_str(), 8).as_str());
        line.append(" ");
        line.append(f.title);
        line.append("\n");
        line.append("           ");
        line.append(f.detail.as_str());
        line.append("\n");
        lines.append(line.as_str());
        if f.severity == Severity::Suspicious {
            flagged += 1;
        }
        i += 1;
    }
    let mut r = path.to_string();
    r.append("  ");
    r.append(audit::commas(size).as_str());
    r.append(" bytes, ");
    r.append(explained);
    r.append("% accounted for\n");
    if found.len() == 0 {
        r.append("  nothing to report\n\n");
    } else {
        lines.append("\n");
        r.append(lines.as_str());
    }
    (r, flagged)
}

// What is typed, and what comes first.

/// An offset is read as it is written: in decimal, or in hexadecimal behind its prefix.
pub proof fn law_an_offset_is_read_back(n: u64)
    ensures
        offset_of(text::dec(n as int)) == Some(n as int),
        offset_of(text::hex(n as int)) == Some(n as int),
{
    reveal_strlit("0x");
    let d = text::dec(n as int);
    let h = text::digits(n as nat, 16);
    scan::lemma_digits_are_digits(n as nat, 10);
    scan::law_a_written_number_is_read_back(n as nat, 10, u64::MAX as int);
    scan::law_a_written_number_is_read_back(n as nat, 16, u64::MAX as int);
    if text::stands_at(d, "0x"@, 0) {
        assert(d.subrange(0, 2)[1] == d[1]);
    }
    let p = text::hex(n as int);
    assert(p.subrange(0, 2) =~= "0x"@);
    assert(p.skip(2) =~= h);
}

/// The longest of the unexplained regions come first.
pub proof fn law_the_longest_holes_come_first(claims: Seq<ClaimView>, a: int, b: int)
    requires
        0 <= a <= b < ranked_holes(claims).len(),
    ensures
        ({
            let r = ranked_holes(claims);
            &&& r.len() == holes_of(claims).len()
            &&& holes_of(claims).contains(ClaimId(r[a].2 as u32))
            &&& claims[r[a].2 as int].span.len >= claims[r[b].2 as int].span.len
        }),
{
    let holes = holes_of(claims);
    let keys = hole_keys(claims, holes);
    let r = ranked_holes(claims);
    order::lemma_sorted(keys);
    lemma_hole_key(claims, a);
    lemma_hole_key(claims, b);
    if a < b {
        assert(order::key_le(r[a], r[b]));
    }
}

proof fn lemma_hole_key(claims: Seq<ClaimView>, a: int)
    requires
        0 <= a < ranked_holes(claims).len(),
    ensures
        ({
            let r = ranked_holes(claims);
            &&& r[a].0 == u64::MAX - claims[r[a].2 as int].span.len
            &&& holes_of(claims).contains(ClaimId(r[a].2 as u32))
        }),
{
    let holes = holes_of(claims);
    let keys = hole_keys(claims, holes);
    let r = ranked_holes(claims);
    order::lemma_sorted(keys);
    assert(r.contains(r[a]));
    assert(keys.contains(r[a]));
    let i = choose|i: int| 0 <= i < keys.len() && keys[i] == r[a];
    assert(keys[i].2 == holes[i].0 as u64);
    assert(ClaimId(r[a].2 as u32) == holes[i]);
}

proof fn lemma_flags(s: Seq<FindingView>, n: int)
    requires
        0 <= n <= s.len(),
        forall|i: int, j: int|
            #![trigger s[i], s[j]]
            0 <= i <= j < s.len() && s[j].severity == Severity::Suspicious ==> s[i].severity
                == Severity::Suspicious,
    ensures
        flags(s, n) <= n,
        forall|i: int|
            0 <= i < n ==> ((#[trigger] s[i]).severity == Severity::Suspicious <==> i < flags(s, n)),
    decreases n,
{
    if n > 0 {
        lemma_flags(s, n - 1);
        if s[n - 1].severity == Severity::Suspicious && flags(s, n - 1) < n - 1 {
            let i = flags(s, n - 1) as int;
            assert(s[i].severity == Severity::Suspicious);
        }
    }
}

/// The count of suspicious findings is where they end: in an audit's own order, those before it
/// are suspicious and those from it on are not.
pub proof fn law_the_flags_are_the_suspicious(s: Seq<FindingView>, i: int)
    requires
        0 <= i < audit::ranked(s).len(),
    ensures
        ({
            let r = audit::ranked(s);
            r[i].severity == Severity::Suspicious <==> i < flags(r, r.len() as int)
        }),
{
    let r = audit::ranked(s);
    assert forall|a: int, b: int|
        #![trigger r[a], r[b]]
        0 <= a <= b < r.len() && r[b].severity == Severity::Suspicious implies r[a].severity
        == Severity::Suspicious by {
        if a < b {
            audit::law_the_worst_come_first(s, a, b);
        }
    }
    lemma_flags(r, r.len() as int);
}

/// The unexplained regions are the leaves that no structure claims, none left out.
pub proof fn law_the_holes_are_the_unclaimed_leaves(claims: Seq<ClaimView>, id: ClaimId)
    ensures
        holes_of(claims).contains(id) <==> coverage::leaf_ids(
            claims,
            claims.len() as int,
        ).contains(id) && id.0 < claims.len() && claims[id.0 as int].kind is Unclaimed,
{
    let ids = coverage::leaf_ids(claims, claims.len() as int);
    lemma_holes_among(claims, ids, ids.len() as int, id);
    if ids.contains(id) {
        let k = choose|k: int| 0 <= k < ids.len() && ids[k] == id;
        assert(ids[k] == id);
    }
}

proof fn lemma_holes_among(claims: Seq<ClaimView>, ids: Seq<ClaimId>, n: int, id: ClaimId)
    requires
        0 <= n <= ids.len(),
    ensures
        holes_among(claims, ids, n).contains(id) <==> id.0 < claims.len()
            && claims[id.0 as int].kind is Unclaimed && exists|k: int|
            0 <= k < n && #[trigger] ids[k] == id,
    decreases n,
{
    if n > 0 {
        lemma_holes_among(claims, ids, n - 1, id);
        let before = holes_among(claims, ids, n - 1);
        let all = holes_among(claims, ids, n);
        if before.contains(id) {
            let k = choose|k: int| 0 <= k < before.len() && before[k] == id;
            assert(all[k] == id);
            let j = choose|j: int| 0 <= j < n - 1 && #[trigger] ids[j] == id;
            assert(ids[j] == id);
        }
        if all.contains(id) {
            let k = choose|k: int| 0 <= k < all.len() && all[k] == id;
            if k < before.len() {
                assert(before[k] == id);
            } else {
                assert(ids[n - 1] == id);
            }
        }
        if ids[n - 1] == id && id.0 < claims.len() && claims[id.0 as int].kind is Unclaimed {
            assert(all[before.len() as int] == id);
        }
    }
}

} // verus!
