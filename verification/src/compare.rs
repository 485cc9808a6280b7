//! The model against an observed load.
//!
//! Checks compare like with like, or do not claim a comparison at all. Anything the model
//! makes no claim about is marked as such rather than passed silently.

use vstd::prelude::*;

use crate::claim::RelocTableKind;
use crate::columns;
use crate::load;
use crate::model;
use crate::model::{Prot, Vma};
use crate::observed;
use crate::observed::{MapRow, MapRowView, Trace};
use crate::parse;
use crate::parse::{Parsed, RelocView, Summary, SummaryView};
use crate::state;
use crate::state::State;
use crate::text;
use crate::trace::StepKindView;

verus! {

/// A mapping as both sides describe it: base-relative range, protection, file offset.
pub type Row = (u64, u64, Prot, Option<u64>);

#[derive(Clone, Copy, PartialEq, Eq, Debug, Structural)]
pub enum Verdict {
    Match,
    Differ,
    /// The model does not claim anything here, so there is nothing to check. Said out
    /// loud rather than silently passing: an unchecked area that looks checked is worse
    /// than a gap you can see.
    NotModelled,
}

impl Verdict {
    pub open spec fn spec_mark(self) -> &'static str {
        match self {
            Self::Match => "ok  ",
            Self::Differ => "DIFF",
            Self::NotModelled => "--  ",
        }
    }

    #[must_use]
    pub fn mark(&self) -> (r: &'static str)
        ensures
            r == self.spec_mark(),
    {
        match self {
            Self::Match => "ok  ",
            Self::Differ => "DIFF",
            Self::NotModelled => "--  ",
        }
    }
}

/// One comparison between the model and an observed load.
#[derive(Clone, PartialEq, Eq, Debug)]
pub struct Check {
    pub name: &'static str,
    pub verdict: Verdict,
    pub detail: String,
}

/// A [`Check`] with its texts as character sequences.
pub struct CheckView {
    pub name: Seq<char>,
    pub verdict: Verdict,
    pub detail: Seq<char>,
}

impl View for Check {
    type V = CheckView;

    open spec fn view(&self) -> CheckView {
        CheckView { name: self.name@, verdict: self.verdict, detail: self.detail@ }
    }
}

/// The checks as views.
pub open spec fn check_views(s: Seq<Check>) -> Seq<CheckView> {
    s.map_values(|c: Check| c@)
}

// Mappings.

/// Whether a row belongs to the object whose path ends in `stem`, or is an anonymous
/// mapping that continues directly from its rows.
///
/// When `.bss` spills past the last file-backed page, the kernel gives it an anonymous VMA
/// with no path, and going by the path alone silently drops it: the model is then accused
/// of inventing a mapping that genuinely exists.
pub open spec fn belongs(
    r: MapRowView,
    stem: Seq<char>,
    taken: Seq<MapRowView>,
    taking: bool,
) -> bool {
    ||| stem.len() > 0 && text::ends(r.path, stem)
    ||| taking && r.path.len() == 0 && taken.len() > 0 && taken.last().end == r.start
}

/// The rows of the object among the first `n`, and whether the last of them may be
/// continued.
pub open spec fn own_rows(rows: Seq<MapRowView>, stem: Seq<char>, n: int) -> (
    Seq<MapRowView>,
    bool,
)
    decreases n,
{
    if n <= 0 {
        (Seq::empty(), false)
    } else {
        let (taken, taking) = own_rows(rows, stem, n - 1);
        let r = rows[n - 1];
        if belongs(r, stem, taken, taking) {
            (taken.push(r), true)
        } else if r.path.len() > 0 {
            (taken, false)
        } else {
            (taken, taking)
        }
    }
}

/// The lowest start among the first `n` rows; 0 without any.
pub open spec fn lowest(rows: Seq<MapRowView>, n: int) -> u64
    decreases n,
{
    if n <= 0 {
        0
    } else if n == 1 || rows[n - 1].start < lowest(rows, n - 1) {
        rows[n - 1].start
    } else {
        lowest(rows, n - 1)
    }
}

/// What is subtracted from observed addresses.
///
/// Only a position-independent executable has a load base to subtract. An `ET_EXEC` is
/// mapped at the addresses written in its headers, and "normalising" those would turn a
/// perfect match into a whole-table divergence.
pub open spec fn load_base(e_type: u16, rows: Seq<MapRowView>) -> u64 {
    if e_type == 3 {
        lowest(rows, rows.len() as int)
    } else {
        0
    }
}

/// The difference, or 0.
pub open spec fn less(a: u64, b: u64) -> u64 {
    if b < a {
        (a - b) as u64
    } else {
        0
    }
}

/// An observed row, base-relative. File offset is part of the comparison: it is what makes
/// two adjacent mappings with the same protection two VMAs instead of one.
pub open spec fn observed_row(r: MapRowView, base: u64) -> Row {
    (
        less(r.start, base),
        less(r.end, base),
        Prot::of_perms(r.perms),
        if r.path.len() == 0 {
            None
        } else {
            Some(r.offset)
        },
    )
}

/// The observed rows of the object, base-relative.
pub open spec fn observed_rows(e_type: u16, rows: Seq<MapRowView>, stem: Seq<char>) -> Seq<Row> {
    let own = own_rows(rows, stem, rows.len() as int).0;
    let base = load_base(e_type, own);
    own.map_values(|r: MapRowView| observed_row(r, base))
}

/// The modelled rows.
pub open spec fn modelled_rows(vmas: Seq<Vma>) -> Seq<Row> {
    vmas.map_values(|v: Vma| (v.start, v.end, v.prot, v.offset))
}

/// One side of a line.
pub open spec fn half_line(rows: Seq<Row>, i: int) -> Seq<char> {
    if i < rows.len() {
        let (start, end, prot, offset) = rows[i];
        columns::wide_hex(start as int, 6) + "-"@ + columns::wide_hex(end as int, 6) + " "@
            + prot.spec_str()@ + " off "@ + match offset {
            None => "anon"@,
            Some(o) => columns::wide_hex(o as int, 5),
        }
    } else {
        columns::filled(' ', 33)
    }
}

/// Whether both sides say the same in this line.
pub open spec fn agree(a: Seq<Row>, b: Seq<Row>, i: int) -> bool {
    if i < a.len() && i < b.len() {
        a[i] == b[i]
    } else {
        i >= a.len() && i >= b.len()
    }
}

/// The first `n` lines of both tables, side by side, with a mark where they differ.
pub open spec fn table_lines(a: Seq<Row>, b: Seq<Row>, n: int) -> Seq<char>
    decreases n,
{
    if n <= 0 {
        Seq::empty()
    } else {
        table_lines(a, b, n - 1) + "\n        "@ + (if agree(a, b, n - 1) {
            " "@
        } else {
            "*"@
        }) + " "@ + half_line(a, n - 1) + "   "@ + half_line(b, n - 1)
    }
}

/// The larger of two lengths.
pub open spec fn longest(a: nat, b: nat) -> int {
    if a < b {
        b as int
    } else {
        a as int
    }
}

/// Both tables, side by side.
pub open spec fn tables(a: Seq<Row>, b: Seq<Row>) -> Seq<char> {
    table_lines(a, b, longest(a.len(), b.len()))
}

/// The mapping tables.
pub open spec fn mappings_check(model: Seq<Row>, seen: Seq<Row>) -> CheckView {
    if seen.len() == 0 {
        CheckView {
            name: "mappings"@,
            verdict: Verdict::NotModelled,
            detail: "gdb reported no mappings for the target"@,
        }
    } else if seen == model {
        CheckView {
            name: "mappings"@,
            verdict: Verdict::Match,
            detail: text::dec(seen.len() as int) + " vmas, identical base-relative"@,
        }
    } else {
        CheckView {
            name: "mappings"@,
            verdict: Verdict::Differ,
            detail: "model "@ + text::dec(model.len() as int) + " vmas, observed "@ + text::dec(
                seen.len() as int,
            ) + "\n"@ + tables(model, seen),
        }
    }
}

fn row_belongs(r: &MapRow, stem: &str, taken: &Vec<Row>, last_end: u64, taking: bool) -> (b: bool)
    ensures
        b == (stem@.len() > 0 && text::ends(r.path@, stem@) || (taking && r.path@.len() == 0
            && taken@.len() > 0 && last_end == r.start)),
{
    if !text::is_blank(stem) && text::ends_with(r.path.as_str(), stem) {
        return true;
    }
    taking && text::is_blank(r.path.as_str()) && taken.len() > 0 && last_end == r.start
}

/// The rows of the object, before the base is subtracted.
fn take_rows(rows: &Vec<MapRow>, stem: &str) -> (out: Vec<Row>)
    ensures
        ({
            let own = own_rows(observed::row_views(rows@), stem@, rows@.len() as int).0;
            out@ == own.map_values(|r: MapRowView| observed_row(r, 0))
        }),
{
    let ghost all = observed::row_views(rows@);
    let mut out: Vec<Row> = Vec::new();
    let mut last_end: u64 = 0;
    let mut taking = false;
    let mut i: usize = 0;
    assert(out@ =~= Seq::<MapRowView>::empty().map_values(|r: MapRowView| observed_row(r, 0)));
    while i < rows.len()
        invariant
            i <= rows@.len(),
            all == observed::row_views(rows@),
            out@ == own_rows(all, stem@, i as int).0.map_values(
                |r: MapRowView| observed_row(r, 0),
            ),
            taking == own_rows(all, stem@, i as int).1,
            own_rows(all, stem@, i as int).0.len() > 0 ==> last_end == own_rows(
                all,
                stem@,
                i as int,
            ).0.last().end,
        decreases rows.len() - i,
    {
        let ghost (taken, was) = own_rows(all, stem@, i as int);
        let r = &rows[i];
        assert(all[i as int] == r@);
        assert(out@.len() == taken.len());
        if row_belongs(r, stem, &out, last_end, taking) {
            let offset: Option<u64> = if text::is_blank(r.path.as_str()) {
                None
            } else {
                Some(r.offset)
            };
            let row: Row = (r.start, r.end, Prot::from_perms(r.perms.as_str()), offset);
            out.push(row);
            assert(out@ =~= taken.push(r@).map_values(|x: MapRowView| observed_row(x, 0)));
            last_end = r.end;
            taking = true;
        } else if !text::is_blank(r.path.as_str()) {
            taking = false;
        }
        i += 1;
    }
    out
}

/// The observed rows of the object, base-relative.
fn relative_rows(e_type: u16, rows: &Vec<MapRow>, stem: &str) -> (out: Vec<Row>)
    ensures
        out@ == observed_rows(e_type, observed::row_views(rows@), stem@),
{
    let own = take_rows(rows, stem);
    let ghost taken = own_rows(observed::row_views(rows@), stem@, rows@.len() as int).0;
    let mut base: u64 = 0;
    if e_type == 3 {
        let mut k: usize = 0;
        while k < own.len()
            invariant
                k <= own@.len(),
                own@ == taken.map_values(|r: MapRowView| observed_row(r, 0)),
                base == lowest(taken, k as int),
            decreases own.len() - k,
        {
            assert(own@[k as int].0 == taken[k as int].start);
            if k == 0 || own[k].0 < base {
                base = own[k].0;
            }
            k += 1;
        }
    }
    let mut out: Vec<Row> = Vec::new();
    let mut i: usize = 0;
    let ghost want = taken.map_values(|r: MapRowView| observed_row(r, base));
    while i < own.len()
        invariant
            i <= own@.len(),
            own@ == taken.map_values(|r: MapRowView| observed_row(r, 0)),
            want == taken.map_values(|r: MapRowView| observed_row(r, base)),
            out@ =~= want.take(i as int),
        decreases own.len() - i,
    {
        let (start, end, prot, offset) = own[i];
        assert(own@[i as int] == observed_row(taken[i as int], 0));
        out.push((start.saturating_sub(base), end.saturating_sub(base), prot, offset));
        assert(want[i as int] == observed_row(taken[i as int], base));
        assert(want.take(i + 1) =~= want.take(i as int).push(want[i as int]));
        i += 1;
    }
    assert(want.take(i as int) =~= want);
    out
}

fn model_rows(vmas: &Vec<Vma>) -> (out: Vec<Row>)
    ensures
        out@ == modelled_rows(vmas@),
{
    let mut out: Vec<Row> = Vec::new();
    let mut i: usize = 0;
    while i < vmas.len()
        invariant
            i <= vmas@.len(),
            out@ =~= modelled_rows(vmas@).take(i as int),
        decreases vmas.len() - i,
    {
        let v = vmas[i];
        out.push((v.start, v.end, v.prot, v.offset));
        assert(modelled_rows(vmas@).take(i + 1) =~= modelled_rows(vmas@).take(i as int).push(
            modelled_rows(vmas@)[i as int],
        ));
        i += 1;
    }
    assert(modelled_rows(vmas@).take(i as int) =~= modelled_rows(vmas@));
    out
}

fn same_row(a: &Row, b: &Row) -> (r: bool)
    ensures
        r == (*a == *b),
{
    let offsets = match (a.3, b.3) {
        (None, None) => true,
        (Some(x), Some(y)) => x == y,
        _ => false,
    };
    a.0 == b.0 && a.1 == b.1 && a.2.read == b.2.read && a.2.write == b.2.write && a.2.execute
        == b.2.execute && offsets
}

fn same_rows(a: &Vec<Row>, b: &Vec<Row>) -> (r: bool)
    ensures
        r == (a@ == b@),
{
    if a.len() != b.len() {
        return false;
    }
    let mut i: usize = 0;
    while i < a.len()
        invariant
            i <= a@.len() == b@.len(),
            forall|k: int| 0 <= k < i ==> a@[k] == b@[k],
        decreases a.len() - i,
    {
        if !same_row(&a[i], &b[i]) {
            return false;
        }
        i += 1;
    }
    assert(a@ =~= b@);
    true
}

fn half_text(rows: &Vec<Row>, i: usize) -> (r: String)
    ensures
        r@ == half_line(rows@, i as int),
{
    if i < rows.len() {
        let (start, end, prot, offset) = rows[i];
        let mut r = columns::wide_hex_text(start, 6);
        r.append("-");
        r.append(columns::wide_hex_text(end, 6).as_str());
        r.append(" ");
        r.append(prot.as_str());
        r.append(" off ");
        match offset {
            None => r.append("anon"),
            Some(o) => r.append(columns::wide_hex_text(o, 5).as_str()),
        }
        r
    } else {
        columns::repeated(' ', 33)
    }
}

/// Both tables, side by side, with a mark where they differ.
#[must_use]
pub fn side_by_side(a: &Vec<Row>, b: &Vec<Row>) -> (r: String)
    ensures
        r@ == tables(a@, b@),
{
    let n: usize = if a.len() < b.len() {
        b.len()
    } else {
        a.len()
    };
    let mut s = String::new();
    let mut i: usize = 0;
    while i < n
        invariant
            i <= n,
            n == longest(a@.len(), b@.len()),
            s@ =~= table_lines(a@, b@, i as int),
        decreases n - i,
    {
        let same = if i < a.len() && i < b.len() {
            same_row(&a[i], &b[i])
        } else {
            false
        };
        s.append("\n        ");
        s.append(
            if same {
                " "
            } else {
                "*"
            },
        );
        s.append(" ");
        s.append(half_text(a, i).as_str());
        s.append("   ");
        s.append(half_text(b, i).as_str());
        i += 1;
    }
    s
}

fn check_mappings(model: &Vec<Row>, seen: &Vec<Row>) -> (r: Check)
    ensures
        r@ == mappings_check(model@, seen@),
{
    if seen.len() == 0 {
        Check {
            name: "mappings",
            verdict: Verdict::NotModelled,
            detail: "gdb reported no mappings for the target".to_string(),
        }
    } else if same_rows(seen, model) {
        let mut detail = text::dec_text(seen.len() as u64);
        detail.append(" vmas, identical base-relative");
        Check { name: "mappings", verdict: Verdict::Match, detail }
    } else {
        let mut detail = "model ".to_string();
        detail.append(text::dec_text(model.len() as u64).as_str());
        detail.append(" vmas, observed ");
        detail.append(text::dec_text(seen.len() as u64).as_str());
        detail.append("\n");
        detail.append(side_by_side(model, seen).as_str());
        Check { name: "mappings", verdict: Verdict::Differ, detail }
    }
}

// Dependencies.

/// The libraries that have to be searched for, among the first `n` that are needed.
///
/// A `DT_NEEDED` naming the interpreter is already satisfied: `ld.so` is in the process
/// before the first `DT_NEEDED` is read, so it is never searched for. libc depends on it and
/// would otherwise be reported as having a missing dependency.
pub open spec fn searched(needed: Seq<Seq<char>>, interp: Seq<char>, n: int) -> Seq<Seq<char>>
    decreases n,
{
    if n <= 0 {
        Seq::empty()
    } else if needed[n - 1] != interp {
        searched(needed, interp, n - 1).push(needed[n - 1])
    } else {
        searched(needed, interp, n - 1)
    }
}

/// The names, among the first `n`, that are not in the set.
pub open spec fn absent(names: Seq<Seq<char>>, known: Set<Seq<char>>, n: int) -> Seq<Seq<char>>
    decreases n,
{
    if n <= 0 {
        Seq::empty()
    } else if known.contains(names[n - 1]) {
        absent(names, known, n - 1)
    } else {
        absent(names, known, n - 1).push(names[n - 1])
    }
}

/// A list as `Debug` writes it, of texts as `Debug` writes them.
pub open spec fn bracketed(forms: Seq<Seq<char>>) -> Seq<char> {
    "["@ + columns::joined(forms, ", "@) + "]"@
}

/// How `Debug` writes each of the texts.
pub open spec fn debug_forms(s: Seq<Seq<char>>) -> Seq<Seq<char>> {
    s.map_values(|t: Seq<char>| text::debug_form(t))
}

/// The dependencies, given the libraries that had to be searched for and those that were
/// not.
pub open spec fn needed_check(wanted: Seq<Seq<char>>, missing: Seq<Seq<char>>) -> CheckView {
    if wanted.len() == 0 {
        CheckView {
            name: "DT_NEEDED"@,
            verdict: Verdict::NotModelled,
            detail: "nothing beyond the interpreter, which is loaded before any search happens"@,
        }
    } else if missing.len() == 0 {
        CheckView {
            name: "DT_NEEDED"@,
            verdict: Verdict::Match,
            detail: text::dec(wanted.len() as int) + " resolved: "@ + columns::joined(
                wanted,
                ", "@,
            ),
        }
    } else {
        CheckView {
            name: "DT_NEEDED"@,
            verdict: Verdict::Differ,
            detail: "never searched for: "@ + bracketed(debug_forms(missing)),
        }
    }
}

/// A list in brackets, of texts that are written already.
#[must_use]
pub fn bracket(forms: &Vec<String>) -> (r: String)
    ensures
        r@ == bracketed(text::views(forms@)),
{
    let mut r = "[".to_string();
    r.append(columns::join(forms, ", ").as_str());
    r.append("]");
    r
}

/// A list of texts as `Debug` writes it.
pub(crate) fn debug_list(s: &Vec<String>) -> (r: String)
    ensures
        r@ == bracketed(debug_forms(text::views(s@))),
{
    let ghost want = debug_forms(text::views(s@));
    let mut forms: Vec<String> = Vec::new();
    let mut i: usize = 0;
    assert(text::views(forms@) =~= want.take(0));
    while i < s.len()
        invariant
            i <= s@.len(),
            want == debug_forms(text::views(s@)),
            text::views(forms@) == want.take(i as int),
        decreases s.len() - i,
    {
        let ghost before = forms@;
        let t = text::debug_text(s[i].as_str());
        let ghost added = t@;
        forms.push(t);
        proof {
            assert(want[i as int] == added);
            assert(text::views(forms@) =~= text::views(before).push(added));
            assert(want.take(i + 1) =~= want.take(i as int).push(added));
        }
        i += 1;
    }
    assert(want.take(i as int) =~= want);
    bracket(&forms)
}

fn searched_for(needed: &Vec<String>, interp: &str) -> (out: Vec<String>)
    ensures
        text::views(out@) == searched(text::views(needed@), interp@, needed@.len() as int),
{
    let ghost all = text::views(needed@);
    let mut out: Vec<String> = Vec::new();
    assert(text::views(out@) =~= Seq::empty());
    let mut i: usize = 0;
    while i < needed.len()
        invariant
            i <= needed@.len(),
            all == text::views(needed@),
            text::views(out@) == searched(all, interp@, i as int),
        decreases needed.len() - i,
    {
        let ghost before = out@;
        assert(all[i as int] == needed@[i as int]@);
        if !text::same(needed[i].as_str(), interp) {
            out.push(needed[i].clone());
            assert(text::views(out@) =~= text::views(before).push(all[i as int]));
        }
        i += 1;
    }
    out
}

/// The names that none of the pairs resolves.
fn unresolved(names: &Vec<String>, observed: &Trace) -> (out: Vec<String>)
    ensures
        text::views(out@) == absent(
            text::views(names@),
            observed.found().dom(),
            names@.len() as int,
        ),
{
    let ghost all = text::views(names@);
    let ghost known = observed.found().dom();
    let mut out: Vec<String> = Vec::new();
    assert(text::views(out@) =~= Seq::empty());
    let mut i: usize = 0;
    while i < names.len()
        invariant
            i <= names@.len(),
            all == text::views(names@),
            known == observed.found().dom(),
            text::views(out@) == absent(all, known, i as int),
        decreases names.len() - i,
    {
        let ghost before = out@;
        assert(all[i as int] == names@[i as int]@);
        if observed.resolved(names[i].as_str()).is_none() {
            out.push(names[i].clone());
            assert(text::views(out@) =~= text::views(before).push(all[i as int]));
        }
        i += 1;
    }
    out
}

fn check_needed(wanted: &Vec<String>, missing: &Vec<String>) -> (r: Check)
    ensures
        r@ == needed_check(text::views(wanted@), text::views(missing@)),
{
    if wanted.len() == 0 {
        Check {
            name: "DT_NEEDED",
            verdict: Verdict::NotModelled,
            detail: "nothing beyond the interpreter, which is loaded before any search happens".to_string(),
        }
    } else if missing.len() == 0 {
        let mut detail = text::dec_text(wanted.len() as u64);
        detail.append(" resolved: ");
        detail.append(columns::join(wanted, ", ").as_str());
        Check { name: "DT_NEEDED", verdict: Verdict::Match, detail }
    } else {
        let mut detail = "never searched for: ".to_string();
        detail.append(debug_list(missing).as_str());
        Check { name: "DT_NEEDED", verdict: Verdict::Differ, detail }
    }
}

// Order.

/// The first place, from `i` on, of a name that ends in `stem`.
pub open spec fn place_of(names: Seq<Seq<char>>, stem: Seq<char>, i: int) -> Option<int>
    decreases names.len() - i,
{
    if i < 0 || i >= names.len() {
        None
    } else if text::ends(names[i], stem) {
        Some(i)
    } else {
        place_of(names, stem, i + 1)
    }
}

/// Dependencies are relocated before the program: the trace can confirm or refute that, but
/// only when there are dependencies. Run a shared library directly and it is the main object
/// with nothing beneath it, so "first" is correct and the check has nothing to say.
pub open spec fn order_check(dependencies: nat, at: Option<int>) -> CheckView {
    if dependencies == 0 {
        CheckView {
            name: "relocation order"@,
            verdict: Verdict::NotModelled,
            detail: "no dependencies, so nothing is required to precede it"@,
        }
    } else {
        match at {
            Some(i) => if i > 0 {
                CheckView {
                    name: "relocation order"@,
                    verdict: Verdict::Match,
                    detail: text::dec(i) + " object(s) relocated before the program"@,
                }
            } else {
                CheckView {
                    name: "relocation order"@,
                    verdict: Verdict::Differ,
                    detail: "the program was relocated first, before its dependencies"@,
                }
            },
            None => CheckView {
                name: "relocation order"@,
                verdict: Verdict::NotModelled,
                detail: "the program does not appear in the observed order"@,
            },
        }
    }
}

/// The program is initialised last: again only when the loader treated the target as a
/// program at all. glibc emits "initialize program" for an executable, and a library invoked
/// directly never gets one.
pub open spec fn init_check(order: Seq<Seq<char>>, stem: Seq<char>) -> CheckView {
    if place_of(order, stem, 0) is None {
        CheckView {
            name: "initialiser order"@,
            verdict: Verdict::NotModelled,
            detail: "the loader ran no initialiser for this object"@,
        }
    } else if text::ends(order.last(), stem) {
        CheckView {
            name: "initialiser order"@,
            verdict: Verdict::Match,
            detail: "program last, after "@ + text::dec(order.len() - 1),
        }
    } else {
        CheckView {
            name: "initialiser order"@,
            verdict: Verdict::Differ,
            detail: "expected the program last, observed "@ + order.last(),
        }
    }
}

fn find_place(names: &Vec<&str>, stem: &str) -> (r: Option<usize>)
    ensures
        match r {
            Some(i) => place_of(observed::str_views(names@), stem@, 0) == Some(i as int) && i
                < names@.len(),
            None => place_of(observed::str_views(names@), stem@, 0) is None,
        },
{
    let ghost all = observed::str_views(names@);
    let mut i: usize = 0;
    while i < names.len()
        invariant
            i <= names@.len(),
            all == observed::str_views(names@),
            place_of(all, stem@, 0) == place_of(all, stem@, i as int),
        decreases names.len() - i,
    {
        assert(all[i as int] == names@[i as int]@);
        if text::ends_with(names[i], stem) {
            return Some(i);
        }
        i += 1;
    }
    None
}

fn check_order(dependencies: usize, at: Option<usize>) -> (r: Check)
    ensures
        r@ == order_check(
            dependencies as nat,
            match at {
                Some(i) => Some(i as int),
                None => None,
            },
        ),
{
    let name = "relocation order";
    if dependencies == 0 {
        return Check {
            name,
            verdict: Verdict::NotModelled,
            detail: "no dependencies, so nothing is required to precede it".to_string(),
        };
    }
    match at {
        Some(i) => if i > 0 {
            let mut detail = text::dec_text(i as u64);
            detail.append(" object(s) relocated before the program");
            Check { name, verdict: Verdict::Match, detail }
        } else {
            Check {
                name,
                verdict: Verdict::Differ,
                detail: "the program was relocated first, before its dependencies".to_string(),
            }
        },
        None => Check {
            name,
            verdict: Verdict::NotModelled,
            detail: "the program does not appear in the observed order".to_string(),
        },
    }
}

fn check_init(order: &Vec<&str>, stem: &str) -> (r: Check)
    ensures
        r@ == init_check(observed::str_views(order@), stem@),
{
    let name = "initialiser order";
    match find_place(order, stem) {
        None => Check {
            name,
            verdict: Verdict::NotModelled,
            detail: "the loader ran no initialiser for this object".to_string(),
        },
        Some(_) => {
            let last = order[order.len() - 1];
            assert(observed::str_views(order@).last() == last@);
            if text::ends_with(last, stem) {
                let mut detail = "program last, after ".to_string();
                detail.append(text::dec_text((order.len() - 1) as u64).as_str());
                Check { name, verdict: Verdict::Match, detail }
            } else {
                let mut detail = "expected the program last, observed ".to_string();
                detail.append(last);
                Check { name, verdict: Verdict::Differ, detail }
            }
        },
    }
}

// Binding.

/// A binding mode, in words.
pub open spec fn mode_name(lazy: bool) -> Seq<char> {
    if lazy {
        "lazy"@
    } else {
        "BIND_NOW"@
    }
}

/// Binding mode: the model reads `DT_FLAGS`, the loader says what it actually did.
pub open spec fn binding_check(bind_now: bool, seen: Option<bool>) -> CheckView {
    match seen {
        Some(lazy) => if lazy == !bind_now {
            CheckView {
                name: "binding mode"@,
                verdict: Verdict::Match,
                detail: if lazy {
                    "lazy — PLT relocations deferred to first call"@
                } else {
                    "BIND_NOW — PLT relocations applied before main"@
                },
            }
        } else {
            CheckView {
                name: "binding mode"@,
                verdict: Verdict::Differ,
                detail: "model says "@ + mode_name(!bind_now) + ", loader reports "@ + mode_name(
                    lazy,
                ),
            }
        },
        None => CheckView {
            name: "binding mode"@,
            verdict: Verdict::NotModelled,
            detail: "the loader did not report relocating this object"@,
        },
    }
}

/// The symbols that the first `n` relocations name, weak and deferred ones excepted.
pub open spec fn named_symbols(relocs: Seq<RelocView>, bind_now: bool, n: int) -> Seq<Seq<char>>
    decreases n,
{
    if n <= 0 {
        Seq::empty()
    } else {
        let before = named_symbols(relocs, bind_now, n - 1);
        let r = relocs[n - 1];
        if !r.weak && !model::deferred(bind_now, r.table) {
            match r.symbol {
                Some(s) => before.push(s),
                None => before,
            }
        } else {
            before
        }
    }
}

/// Symbol binds. The two sides count different things and forcing the numbers to agree would
/// be fitting the model to the measurement:
///
///   - The model has one entry per relocation that names a symbol. Some of those are weak
///     and undefined (`__gmon_start__`, the `_ITM_*` pair) and the loader neither binds nor
///     reports them; they resolve to zero and nothing happens.
///   - The trace has one entry per lookup the loader performed for this object, which
///     covers lookups no relocation asked for: `_r_debug`, and the malloc family, which
///     ld.so resolves against the global scope so a program can interpose them.
///
/// So the check is containment, not equality: every non-weak symbol the relocations name
/// must have been bound. The loader's extra lookups are reported, not judged.
pub open spec fn binds_check(
    named: Seq<Seq<char>>,
    bound: Seq<Seq<char>>,
    missing: Seq<Seq<char>>,
) -> CheckView {
    if bound.len() == 0 {
        CheckView {
            name: "symbol binds"@,
            verdict: Verdict::NotModelled,
            detail: "model names "@ + text::dec(named.len() as int)
                + "; the loader attributed no binds to this object"@,
        }
    } else if missing.len() == 0 {
        CheckView {
            name: "symbol binds"@,
            verdict: Verdict::Match,
            detail: "all "@ + text::dec(named.len() as int)
                + " named by relocations were bound; the loader resolved "@ + text::dec(
                if named.len() < bound.len() {
                    bound.len() - named.len()
                } else {
                    0
                },
            ) + " more of its own"@,
        }
    } else {
        CheckView {
            name: "symbol binds"@,
            verdict: Verdict::Differ,
            detail: "never bound: "@ + bracketed(debug_forms(missing)),
        }
    }
}

fn check_binding(bind_now: bool, seen: Option<bool>) -> (r: Check)
    ensures
        r@ == binding_check(bind_now, seen),
{
    let name = "binding mode";
    match seen {
        Some(lazy) => if lazy == !bind_now {
            Check {
                name,
                verdict: Verdict::Match,
                detail: if lazy {
                    "lazy — PLT relocations deferred to first call".to_string()
                } else {
                    "BIND_NOW — PLT relocations applied before main".to_string()
                },
            }
        } else {
            let mut detail = "model says ".to_string();
            detail.append(
                if bind_now {
                    "BIND_NOW"
                } else {
                    "lazy"
                },
            );
            detail.append(", loader reports ");
            detail.append(
                if lazy {
                    "lazy"
                } else {
                    "BIND_NOW"
                },
            );
            Check { name, verdict: Verdict::Differ, detail }
        },
        None => Check {
            name,
            verdict: Verdict::NotModelled,
            detail: "the loader did not report relocating this object".to_string(),
        },
    }
}

fn symbols_named(summary: &Summary) -> (out: Vec<String>)
    ensures
        text::views(out@) == named_symbols(
            summary@.relocs,
            summary@.bind_now,
            summary@.relocs.len() as int,
        ),
{
    let ghost relocs = summary@.relocs;
    let mut out: Vec<String> = Vec::new();
    assert(text::views(out@) =~= Seq::empty());
    let mut i: usize = 0;
    while i < summary.relocs.len()
        invariant
            i <= summary.relocs@.len(),
            relocs == parse::reloc_views(summary.relocs@),
            text::views(out@) == named_symbols(relocs, summary.bind_now, i as int),
        decreases summary.relocs.len() - i,
    {
        let ghost before = out@;
        let r = &summary.relocs[i];
        assert(relocs[i as int] == r@);
        if !r.weak && !model::is_deferred(summary, r) {
            if let Some(s) = &r.symbol {
                out.push(s.clone());
                assert(text::views(out@) =~= text::views(before).push(s@));
            }
        }
        i += 1;
    }
    out
}

/// The names that are not in the list.
fn not_listed(names: &Vec<String>, list: &Vec<&str>) -> (out: Vec<String>)
    ensures
        text::views(out@) == absent(
            text::views(names@),
            observed::str_views(list@).to_set(),
            names@.len() as int,
        ),
{
    let ghost all = text::views(names@);
    let ghost known = observed::str_views(list@).to_set();
    let mut out: Vec<String> = Vec::new();
    assert(text::views(out@) =~= Seq::empty());
    let mut i: usize = 0;
    while i < names.len()
        invariant
            i <= names@.len(),
            all == text::views(names@),
            known == observed::str_views(list@).to_set(),
            text::views(out@) == absent(all, known, i as int),
        decreases names.len() - i,
    {
        let ghost before = out@;
        assert(all[i as int] == names@[i as int]@);
        if !is_listed(list, names[i].as_str()) {
            out.push(names[i].clone());
            assert(text::views(out@) =~= text::views(before).push(all[i as int]));
        }
        i += 1;
    }
    out
}

fn is_listed(list: &Vec<&str>, s: &str) -> (r: bool)
    ensures
        r == observed::str_views(list@).to_set().contains(s@),
{
    let ghost all = observed::str_views(list@);
    let mut i: usize = 0;
    while i < list.len()
        invariant
            i <= list@.len(),
            all == observed::str_views(list@),
            forall|k: int| 0 <= k < i ==> #[trigger] all[k] != s@,
        decreases list.len() - i,
    {
        assert(all[i as int] == list@[i as int]@);
        if text::same(list[i], s) {
            assert(all.contains(s@));
            return true;
        }
        i += 1;
    }
    false
}

fn check_binds(named: &Vec<String>, bound: usize, missing: &Vec<String>) -> (r: Check)
    ensures
        forall|b: Seq<Seq<char>>|
            b.len() == bound ==> r@ == #[trigger] binds_check(
                text::views(named@),
                b,
                text::views(missing@),
            ),
{
    let name = "symbol binds";
    if bound == 0 {
        let mut detail = "model names ".to_string();
        detail.append(text::dec_text(named.len() as u64).as_str());
        detail.append("; the loader attributed no binds to this object");
        Check { name, verdict: Verdict::NotModelled, detail }
    } else if missing.len() == 0 {
        let mut detail = "all ".to_string();
        detail.append(text::dec_text(named.len() as u64).as_str());
        detail.append(" named by relocations were bound; the loader resolved ");
        let extra: usize = bound.saturating_sub(named.len());
        detail.append(text::dec_text(extra as u64).as_str());
        detail.append(" more of its own");
        Check { name, verdict: Verdict::Match, detail }
    } else {
        let mut detail = "never bound: ".to_string();
        detail.append(debug_list(missing).as_str());
        Check { name, verdict: Verdict::Differ, detail }
    }
}

// All checks.

/// Every check of the model against what was observed of the object whose paths end in
/// `stem`.
pub open spec fn checks(
    stem: Seq<char>,
    f: SummaryView,
    vmas: Seq<Vma>,
    observed: Trace,
) -> Seq<CheckView> {
    let kinds = observed.kinds();
    let n = kinds.len() as int;
    let wanted = searched(f.needed, load::interp_name(f.interp), f.needed.len() as int);
    let named = named_symbols(f.relocs, f.bind_now, f.relocs.len() as int);
    let bound = observed::bound_for(kinds, stem, n);
    seq![
        mappings_check(
            modelled_rows(vmas),
            observed_rows(f.e_type, observed::row_views(observed.maps_at_entry@), stem),
        ),
        needed_check(wanted, absent(wanted, observed.found().dom(), wanted.len() as int)),
        order_check(wanted.len(), place_of(observed::relocated(kinds, n), stem, 0)),
        init_check(observed::initialised(kinds, n), stem),
        binding_check(f.bind_now, observed::lazily(kinds, stem, 0)),
        binds_check(named, bound, absent(named, bound.to_set(), named.len() as int)),
    ]
}

/// Checks the model against an observed load. `stem` is the file name of the target,
/// without its directory; `modelled` is memory at the end of the modelled load.
#[must_use]
pub fn compare(stem: &str, p: &Parsed, modelled: &State, observed: &Trace) -> (r: Vec<Check>)
    ensures
        check_views(r@) == checks(
            stem@,
            p.summary@,
            state::table(modelled@.mappings),
            *observed,
        ),
{
    let s = &p.summary;
    let seen = relative_rows(s.e_type, &observed.maps_at_entry, stem);
    let model = model_rows(&modelled.vmas());
    let a = check_mappings(&model, &seen);

    let interp = load::interp_base(&s.interp);
    let wanted = searched_for(&s.needed, interp.as_str());
    let missing = unresolved(&wanted, observed);
    let b = check_needed(&wanted, &missing);

    let order = observed.relocation_order();
    let c = check_order(wanted.len(), find_place(&order, stem));

    let init = observed.init_order();
    let d = check_init(&init, stem);

    let e = check_binding(s.bind_now, observed.binds_lazily(stem));

    let named = symbols_named(s);
    let bound = observed.bound_symbols(stem);
    let unbound = not_listed(&named, &bound);
    let f = check_binds(&named, bound.len(), &unbound);
    assert(f@ == binds_check(
        text::views(named@),
        observed::str_views(bound@),
        text::views(unbound@),
    ));

    let ghost want = checks(stem@, p.summary@, state::table(modelled@.mappings), *observed);
    let r = vec![a, b, c, d, e, f];
    assert(check_views(r@) =~= want);
    r
}

/// The lines of the first `n` checks.
pub open spec fn check_lines(s: Seq<CheckView>, n: int) -> Seq<char>
    decreases n,
{
    if n <= 0 {
        Seq::empty()
    } else {
        check_lines(s, n - 1) + "  "@ + s[n - 1].verdict.spec_mark()@ + "  "@ + columns::left(
            s[n - 1].name,
            22,
        ) + " "@ + s[n - 1].detail + "\n"@
    }
}

/// How many of the first `n` checks differ.
pub open spec fn divergences(s: Seq<CheckView>, n: int) -> nat
    decreases n,
{
    if n <= 0 {
        0
    } else {
        divergences(s, n - 1) + if s[n - 1].verdict == Verdict::Differ {
            1nat
        } else {
            0nat
        }
    }
}

/// The closing remark on `n` divergences.
pub open spec fn remark(n: int) -> Seq<char> {
    if n > 0 {
        "  "@ + text::dec(n) + " divergence"@ + (if n == 1 {
            ""@
        } else {
            "s"@
        })
            + ". A divergence is a fact about loading until it is\n  explained; see docs/CONFORMANCE.md.\n\n"@
    } else {
        Seq::empty()
    }
}

/// The checks as text.
pub open spec fn diff_of(path: Seq<char>, s: Seq<CheckView>) -> Seq<char> {
    "\n"@ + path + "  model vs observed\n\n"@ + check_lines(s, s.len() as int) + "\n"@ + remark(
        divergences(s, s.len() as int) as int,
    )
}

/// The checks as text.
#[must_use]
pub fn diff(path: &str, checks: &Vec<Check>) -> (r: String)
    ensures
        r@ == diff_of(path@, check_views(checks@)),
{
    let ghost all = check_views(checks@);
    let mut lines = String::new();
    let mut diverged: usize = 0;
    let mut i: usize = 0;
    while i < checks.len()
        invariant
            diverged <= i <= checks@.len(),
            all == check_views(checks@),
            lines@ =~= check_lines(all, i as int),
            diverged == divergences(all, i as int),
        decreases checks.len() - i,
    {
        let c = &checks[i];
        assert(all[i as int] == c@);
        lines.append("  ");
        lines.append(c.verdict.mark());
        lines.append("  ");
        lines.append(columns::at_left(c.name, 22).as_str());
        lines.append(" ");
        lines.append(c.detail.as_str());
        lines.append("\n");
        if c.verdict == Verdict::Differ {
            diverged += 1;
        }
        i += 1;
    }
    let mut end = String::new();
    if diverged > 0 {
        end.append("  ");
        end.append(text::dec_text(diverged as u64).as_str());
        end.append(" divergence");
        end.append(
            if diverged == 1 {
                ""
            } else {
                "s"
            },
        );
        end.append(
            ". A divergence is a fact about loading until it is\n  explained; see docs/CONFORMANCE.md.\n\n",
        );
    }
    assert(end@ =~= remark(diverged as int));
    let mut r = "\n".to_string();
    r.append(path);
    r.append("  model vs observed\n\n");
    r.append(lines.as_str());
    r.append("\n");
    r.append(end.as_str());
    r
}

// Laws.

proof fn lemma_absent(names: Seq<Seq<char>>, known: Set<Seq<char>>, n: int)
    requires
        0 <= n <= names.len(),
    ensures
        absent(names, known, n).len() == 0 <==> forall|i: int|
            0 <= i < n ==> known.contains(#[trigger] names[i]),
    decreases n,
{
    if n > 0 {
        lemma_absent(names, known, n - 1);
    }
}

/// Symbols are checked by containment, not equality: the check passes where every symbol that
/// a relocation names was bound, whatever else the loader looked up.
pub proof fn law_symbols_are_checked_by_containment(
    named: Seq<Seq<char>>,
    bound: Seq<Seq<char>>,
)
    requires
        bound.len() > 0,
    ensures
        binds_check(named, bound, absent(named, bound.to_set(), named.len() as int)).verdict
            == Verdict::Match <==> forall|i: int|
            0 <= i < named.len() ==> bound.contains(#[trigger] named[i]),
{
    lemma_absent(named, bound.to_set(), named.len() as int);
    assert forall|s: Seq<char>| bound.to_set().contains(s) == bound.contains(s) by {}
}

/// The row at addresses that are higher by `d`.
pub open spec fn moved(r: MapRowView, d: int) -> MapRowView {
    MapRowView { start: (r.start + d) as u64, end: (r.end + d) as u64, ..r }
}

/// The rows at addresses that are higher by `d`.
pub open spec fn all_moved(rows: Seq<MapRowView>, d: int) -> Seq<MapRowView> {
    rows.map_values(|r: MapRowView| moved(r, d))
}

/// Whether the addresses can be higher by `d`.
pub open spec fn movable(rows: Seq<MapRowView>, d: int) -> bool {
    &&& 0 <= d
    &&& forall|i: int|
        0 <= i < rows.len() ==> (#[trigger] rows[i]).start + d <= u64::MAX && rows[i].end + d
            <= u64::MAX
}

proof fn lemma_moved_rows(rows: Seq<MapRowView>, stem: Seq<char>, d: int, n: int)
    requires
        movable(rows, d),
        0 <= n <= rows.len(),
    ensures
        own_rows(all_moved(rows, d), stem, n).0 == all_moved(own_rows(rows, stem, n).0, d),
        own_rows(all_moved(rows, d), stem, n).1 == own_rows(rows, stem, n).1,
        movable(own_rows(rows, stem, n).0, d),
    decreases n,
{
    if n > 0 {
        lemma_moved_rows(rows, stem, d, n - 1);
        let (taken, taking) = own_rows(rows, stem, n - 1);
        let r = rows[n - 1];
        let up = all_moved(rows, d);
        assert(up[n - 1] == moved(r, d));
        if taken.len() > 0 {
            assert(taken[taken.len() - 1].end + d <= u64::MAX);
            assert(all_moved(taken, d).last() == moved(taken.last(), d));
        }
        assert(belongs(moved(r, d), stem, all_moved(taken, d), taking) == belongs(
            r,
            stem,
            taken,
            taking,
        ));
        assert(all_moved(taken.push(r), d) =~= all_moved(taken, d).push(moved(r, d)));
    } else {
        assert(all_moved(Seq::<MapRowView>::empty(), d) =~= Seq::<MapRowView>::empty());
    }
}

proof fn lemma_moved_lowest(rows: Seq<MapRowView>, d: int, n: int)
    requires
        movable(rows, d),
        0 < n <= rows.len(),
    ensures
        lowest(all_moved(rows, d), n) == lowest(rows, n) + d,
        forall|i: int| 0 <= i < n ==> lowest(rows, n) <= (#[trigger] rows[i]).start,
    decreases n,
{
    assert(all_moved(rows, d)[n - 1] == moved(rows[n - 1], d));
    if n > 1 {
        lemma_moved_lowest(rows, d, n - 1);
    }
}

/// A position-independent program may be loaded anywhere: the check on its mappings does not
/// see where.
pub proof fn law_the_load_base_does_not_matter(rows: Seq<MapRowView>, stem: Seq<char>, d: int)
    requires
        movable(rows, d),
    ensures
        observed_rows(3, all_moved(rows, d), stem) == observed_rows(3, rows, stem),
{
    let n = rows.len() as int;
    lemma_moved_rows(rows, stem, d, n);
    let own = own_rows(rows, stem, n).0;
    if own.len() > 0 {
        lemma_moved_lowest(own, d, own.len() as int);
        let base = lowest(own, own.len() as int);
        let up = all_moved(own, d);
        assert forall|i: int| 0 <= i < own.len() implies observed_row(
            #[trigger] up[i],
            (base + d) as u64,
        ) == observed_row(own[i], base) by {
            assert(up[i] == moved(own[i], d));
        }
    }
    assert(observed_rows(3, all_moved(rows, d), stem) =~= observed_rows(3, rows, stem));
}

/// A program linked at fixed addresses is compared at those: nothing is subtracted.
pub proof fn law_fixed_addresses_stay(
    e_type: u16,
    rows: Seq<MapRowView>,
    stem: Seq<char>,
    i: int,
)
    requires
        e_type != 3,
        0 <= i < observed_rows(e_type, rows, stem).len(),
    ensures
        ({
            let own = own_rows(rows, stem, rows.len() as int).0;
            let row = observed_rows(e_type, rows, stem)[i];
            row.0 == own[i].start && row.1 == own[i].end
        }),
{
}

// What each verdict means.

/// The library at `i` of those needed had to be searched for: it is not the interpreter, which
/// is there already.
pub open spec fn outstanding(f: SummaryView, i: int) -> bool {
    0 <= i < f.needed.len() && f.needed[i] != load::interp_name(f.interp)
}

/// Relocation `i` names a symbol that has to be bound at startup: not a weak one, and not one
/// of the PLT of an object that binds lazily.
pub open spec fn owed(f: SummaryView, i: int) -> bool {
    &&& 0 <= i < f.relocs.len()
    &&& f.relocs[i].symbol is Some
    &&& !f.relocs[i].weak
    &&& f.relocs[i].table == RelocTableKind::JmpRel ==> f.bind_now
}

/// Some step binds `symbol` for an object whose name ends in `stem`.
pub open spec fn binds_it(kinds: Seq<StepKindView>, stem: Seq<char>, symbol: Seq<char>) -> bool {
    exists|k: int|
        0 <= k < kinds.len() && (#[trigger] kinds[k] matches StepKindView::Bind {
            from,
            symbol: s,
            ..
        } && text::ends(from, stem) && s == symbol)
}

/// The step runs the initialisers of an object whose name ends in `stem`.
pub open spec fn initialises(kind: StepKindView, stem: Seq<char>) -> bool {
    match kind {
        StepKindView::Init { object } => text::ends(object, stem),
        StepKindView::InitializeProgram { object } => text::ends(object, stem),
        _ => false,
    }
}

proof fn lemma_searched(needed: Seq<Seq<char>>, interp: Seq<char>, n: int)
    requires
        0 <= n <= needed.len(),
    ensures
        forall|x: Seq<char>| #[trigger]
            searched(needed, interp, n).contains(x) <==> x != interp && exists|i: int|
                0 <= i < n && #[trigger] needed[i] == x,
    decreases n,
{
    if n > 0 {
        lemma_searched(needed, interp, n - 1);
        let before = searched(needed, interp, n - 1);
        let after = searched(needed, interp, n);
        assert forall|x: Seq<char>| #[trigger] after.contains(x) <==> x != interp && exists|i: int|
            0 <= i < n && #[trigger] needed[i] == x by {
            if before.contains(x) {
                let j = choose|j: int| 0 <= j < before.len() && before[j] == x;
                assert(after[j] == x);
                let i = choose|i: int| 0 <= i < n - 1 && #[trigger] needed[i] == x;
                assert(needed[i] == x);
            }
            if x == needed[n - 1] && x != interp {
                assert(after[after.len() - 1] == x);
            }
            if after.contains(x) && !before.contains(x) {
                let j = choose|j: int| 0 <= j < after.len() && after[j] == x;
                if j < before.len() {
                    assert(before[j] == x);
                }
                assert(needed[n - 1] == x);
            }
        }
    }
}

/// The dependencies agree exactly where every library that had to be searched for was found by
/// a search, and there was one; where there was none, nothing is claimed.
pub proof fn law_dependencies_agree_where_all_were_found(
    stem: Seq<char>,
    f: SummaryView,
    vmas: Seq<Vma>,
    observed: Trace,
)
    ensures
        ({
            let v = checks(stem, f, vmas, observed)[1].verdict;
            let known = observed.found().dom();
            &&& v == Verdict::NotModelled <==> forall|i: int| !#[trigger] outstanding(f, i)
            &&& v == Verdict::Match <==> (exists|i: int| #[trigger] outstanding(f, i)) && forall|
                i: int,
            |
                #[trigger] outstanding(f, i) ==> known.contains(f.needed[i])
            &&& v == Verdict::Differ <==> exists|i: int|
                #[trigger] outstanding(f, i) && !known.contains(f.needed[i])
        }),
{
    let interp = load::interp_name(f.interp);
    let n = f.needed.len() as int;
    let wanted = searched(f.needed, interp, n);
    let known = observed.found().dom();
    lemma_searched(f.needed, interp, n);
    lemma_absent(wanted, known, wanted.len() as int);
    assert forall|i: int| #[trigger] outstanding(f, i) implies wanted.contains(f.needed[i]) by {}
    if wanted.len() > 0 {
        assert(wanted.contains(wanted[0]));
        let i = choose|i: int| 0 <= i < n && #[trigger] f.needed[i] == wanted[0];
        assert(outstanding(f, i));
    }
    if absent(wanted, known, wanted.len() as int).len() == 0 {
        assert forall|i: int| #[trigger] outstanding(f, i) implies known.contains(f.needed[i]) by {
            let j = choose|j: int| 0 <= j < wanted.len() && wanted[j] == f.needed[i];
            assert(known.contains(wanted[j]));
        }
    } else {
        let j = choose|j: int| 0 <= j < wanted.len() && !known.contains(#[trigger] wanted[j]);
        assert(wanted.contains(wanted[j]));
        let i = choose|i: int| 0 <= i < n && #[trigger] f.needed[i] == wanted[j];
        assert(outstanding(f, i));
    }
}

/// The binding mode agrees exactly where the loader, when it first relocated the object, said
/// the mode that the file asks for, and differs exactly where it said the other.
pub proof fn law_binding_agrees_where_the_loader_said_so(
    stem: Seq<char>,
    f: SummaryView,
    vmas: Seq<Vma>,
    observed: Trace,
)
    ensures
        ({
            let v = checks(stem, f, vmas, observed)[4].verdict;
            let kinds = observed.kinds();
            &&& v == Verdict::NotModelled <==> forall|k: int|
                0 <= k < kinds.len() ==> !observed::relocates(#[trigger] kinds[k], stem)
            &&& forall|k: int|
                0 <= k < kinds.len() && observed::relocates(#[trigger] kinds[k], stem) && (forall|
                    m: int,
                |
                    0 <= m < k ==> !observed::relocates(#[trigger] kinds[m], stem)) ==> {
                    &&& v == Verdict::Match <==> kinds[k]->Relocate_lazy != f.bind_now
                    &&& v == Verdict::Differ <==> kinds[k]->Relocate_lazy == f.bind_now
                }
        }),
{
    observed::law_the_first_relocation_tells_the_mode(observed.kinds(), stem, 0);
}

pub proof fn lemma_place_of(names: Seq<Seq<char>>, stem: Seq<char>, i: int)
    requires
        0 <= i <= names.len(),
    ensures
        match place_of(names, stem, i) {
            Some(k) => i <= k < names.len() && text::ends(names[k], stem) && forall|m: int|
                i <= m < k ==> !text::ends(#[trigger] names[m], stem),
            None => forall|m: int| i <= m < names.len() ==> !text::ends(#[trigger] names[m], stem),
        },
    decreases names.len() - i,
{
    if i < names.len() {
        lemma_place_of(names, stem, i + 1);
    }
}

/// Step `k` relocates `name`, and is number `j` of those that relocate.
spec fn relocates_as(kinds: Seq<StepKindView>, name: Seq<char>, j: int, k: int) -> bool {
    &&& kinds[k] matches StepKindView::Relocate { object, .. } && object == name
    &&& j == observed::steps_with(kinds, observed::relocating(), k)
}

/// Every name in the list of relocated objects is that of a step.
proof fn lemma_relocated_place(kinds: Seq<StepKindView>, n: int, j: int) -> (k: int)
    requires
        0 <= n <= kinds.len(),
        0 <= j < observed::relocated(kinds, n).len(),
    ensures
        0 <= k < n,
        relocates_as(kinds, observed::relocated(kinds, n)[j], j, k),
    decreases n,
{
    let before = observed::relocated(kinds, n - 1);
    if j < before.len() {
        lemma_relocated_place(kinds, n - 1, j)
    } else {
        observed::law_steps_are_listed_in_order(kinds, Seq::empty(), n - 1);
        n - 1
    }
}

/// The relocation order agrees exactly where there are dependencies and the loader relocated
/// some object before it first relocated this one, and differs exactly where it relocated
/// this one first of all.
pub proof fn law_order_agrees_where_something_went_first(
    stem: Seq<char>,
    f: SummaryView,
    vmas: Seq<Vma>,
    observed: Trace,
    k: int,
)
    requires
        0 <= k < observed.kinds().len(),
        observed::relocates(observed.kinds()[k], stem),
        forall|m: int| 0 <= m < k ==> !observed::relocates(#[trigger] observed.kinds()[m], stem),
        exists|i: int| #[trigger] outstanding(f, i),
    ensures
        ({
            let v = checks(stem, f, vmas, observed)[2].verdict;
            let kinds = observed.kinds();
            &&& v == Verdict::Match <==> exists|m: int| 0 <= m < k && #[trigger] kinds[m] is Relocate
            &&& v == Verdict::Differ <==> forall|m: int|
                0 <= m < k ==> !(#[trigger] kinds[m] is Relocate)
        }),
{
    let kinds = observed.kinds();
    let n = kinds.len() as int;
    let names = observed::relocated(kinds, n);
    let about = observed::relocating();
    law_dependencies_agree_where_all_were_found(stem, f, vmas, observed);
    lemma_place_of(names, stem, 0);
    observed::law_steps_are_listed_in_order(kinds, stem, n);
    let at = observed::steps_with(kinds, about, k);
    observed::lemma_counted(kinds, about, k, n);
    assert(names[at] == kinds[k]->Relocate_object);
    assert(text::ends(names[at], stem));
    let first = place_of(names, stem, 0)->0;
    if first < at {
        let m = lemma_relocated_place(kinds, n, first);
        assert(observed::relocates(kinds[m], stem));
        if m > k {
            observed::lemma_counted(kinds, about, k, m);
        }
        assert(m < k);
    }
    assert(first == at);
    if exists|m: int| 0 <= m < k && #[trigger] kinds[m] is Relocate {
        let m = choose|m: int| 0 <= m < k && #[trigger] kinds[m] is Relocate;
        observed::lemma_counted(kinds, about, m, k);
    } else {
        lemma_none_counted(kinds, k);
    }
}

proof fn lemma_none_counted(kinds: Seq<StepKindView>, k: int)
    requires
        0 <= k <= kinds.len(),
        forall|m: int| 0 <= m < k ==> !(#[trigger] kinds[m] is Relocate),
    ensures
        observed::steps_with(kinds, observed::relocating(), k) == 0,
    decreases k,
{
    if k > 0 {
        lemma_none_counted(kinds, k - 1);
        assert(!(kinds[k - 1] is Relocate));
    }
}

/// The step runs initialisers.
pub open spec fn runs(kind: StepKindView) -> bool {
    kind is Init || kind is InitializeProgram
}

/// Step `k` is the last of the first `n` to run initialisers.
pub open spec fn runs_last(kinds: Seq<StepKindView>, n: int, k: int) -> bool {
    &&& 0 <= k < n
    &&& runs(kinds[k])
    &&& forall|m: int| k < m < n ==> !runs(#[trigger] kinds[m])
}

/// Some name in the list ends in `stem` exactly where some step is of such an object.
proof fn lemma_initialised(kinds: Seq<StepKindView>, stem: Seq<char>, n: int)
    requires
        0 <= n <= kinds.len(),
    ensures
        (exists|j: int|
            0 <= j < observed::initialised(kinds, n).len() && text::ends(
                #[trigger] observed::initialised(kinds, n)[j],
                stem,
            )) <==> exists|k: int| 0 <= k < n && initialises(#[trigger] kinds[k], stem),
    decreases n,
{
    if n > 0 {
        lemma_initialised(kinds, stem, n - 1);
        let before = observed::initialised(kinds, n - 1);
        let names = observed::initialised(kinds, n);
        if exists|j: int| 0 <= j < names.len() && text::ends(#[trigger] names[j], stem) {
            let j = choose|j: int| 0 <= j < names.len() && text::ends(#[trigger] names[j], stem);
            if j < before.len() {
                assert(text::ends(before[j], stem));
                let k = choose|k: int| 0 <= k < n - 1 && initialises(#[trigger] kinds[k], stem);
                assert(initialises(kinds[k], stem));
            } else {
                assert(initialises(kinds[n - 1], stem));
            }
        }
        if exists|k: int| 0 <= k < n && initialises(#[trigger] kinds[k], stem) {
            let k = choose|k: int| 0 <= k < n && initialises(#[trigger] kinds[k], stem);
            if k < n - 1 {
                let j = choose|j: int|
                    0 <= j < before.len() && text::ends(#[trigger] before[j], stem);
                assert(text::ends(names[j], stem));
            } else {
                assert(text::ends(names[names.len() - 1], stem));
            }
        }
    }
}

proof fn lemma_last_initialised(kinds: Seq<StepKindView>, stem: Seq<char>, n: int, k: int)
    requires
        0 <= n <= kinds.len(),
        runs_last(kinds, n, k),
    ensures
        observed::initialised(kinds, n).len() > 0,
        text::ends(observed::initialised(kinds, n).last(), stem) <==> initialises(kinds[k], stem),
    decreases n,
{
    if k < n - 1 {
        assert(!runs(kinds[n - 1]));
        lemma_last_initialised(kinds, stem, n - 1, k);
    }
}

/// The initialiser order agrees exactly where the last initialisers to run were those of the
/// object, differs where they were of another, and is not judged where it had none.
pub proof fn law_initialisers_agree_where_the_program_is_last(
    stem: Seq<char>,
    f: SummaryView,
    vmas: Seq<Vma>,
    observed: Trace,
)
    ensures
        ({
            let v = checks(stem, f, vmas, observed)[3].verdict;
            let kinds = observed.kinds();
            &&& v == Verdict::NotModelled <==> forall|k: int|
                0 <= k < kinds.len() ==> !initialises(#[trigger] kinds[k], stem)
            &&& forall|k: int|
                v != Verdict::NotModelled && #[trigger] runs_last(kinds, kinds.len() as int, k)
                    ==> {
                    &&& v == Verdict::Match <==> initialises(kinds[k], stem)
                    &&& v == Verdict::Differ <==> !initialises(kinds[k], stem)
                }
        }),
{
    let kinds = observed.kinds();
    let n = kinds.len() as int;
    let names = observed::initialised(kinds, n);
    lemma_initialised(kinds, stem, n);
    lemma_place_of(names, stem, 0);
    if place_of(names, stem, 0) is Some {
        assert(text::ends(names[place_of(names, stem, 0)->0], stem));
    }
    assert forall|k: int| #[trigger] runs_last(kinds, n, k) implies names.len() > 0 && (text::ends(
        names.last(),
        stem,
    ) <==> initialises(kinds[k], stem)) by {
        lemma_last_initialised(kinds, stem, n, k);
    }
}

proof fn lemma_named_symbols(f: SummaryView, n: int)
    requires
        0 <= n <= f.relocs.len(),
    ensures
        forall|x: Seq<char>| #[trigger]
            named_symbols(f.relocs, f.bind_now, n).contains(x) <==> exists|i: int|
                0 <= i < n && #[trigger] owed(f, i) && f.relocs[i].symbol == Some(x),
    decreases n,
{
    if n > 0 {
        lemma_named_symbols(f, n - 1);
        let before = named_symbols(f.relocs, f.bind_now, n - 1);
        let after = named_symbols(f.relocs, f.bind_now, n);
        assert forall|x: Seq<char>| #[trigger] after.contains(x) <==> exists|i: int|
            0 <= i < n && #[trigger] owed(f, i) && f.relocs[i].symbol == Some(x) by {
            if before.contains(x) {
                let j = choose|j: int| 0 <= j < before.len() && before[j] == x;
                assert(after[j] == x);
                let i = choose|i: int|
                    0 <= i < n - 1 && #[trigger] owed(f, i) && f.relocs[i].symbol == Some(x);
                assert(owed(f, i));
            }
            if owed(f, n - 1) && f.relocs[n - 1].symbol == Some(x) {
                assert(after[after.len() - 1] == x);
            }
            if after.contains(x) && !before.contains(x) {
                let j = choose|j: int| 0 <= j < after.len() && after[j] == x;
                if j < before.len() {
                    assert(before[j] == x);
                }
                assert(owed(f, n - 1));
            }
        }
    }
}

proof fn lemma_bound_for(kinds: Seq<StepKindView>, stem: Seq<char>, n: int, x: Seq<char>)
    requires
        0 <= n <= kinds.len(),
    ensures
        observed::bound_for(kinds, stem, n).contains(x) <==> exists|k: int|
            0 <= k < n && (#[trigger] kinds[k] matches StepKindView::Bind { from, symbol, .. }
                && text::ends(from, stem) && symbol == x),
    decreases n,
{
    if n > 0 {
        lemma_bound_for(kinds, stem, n - 1, x);
        let before = observed::bound_for(kinds, stem, n - 1);
        let after = observed::bound_for(kinds, stem, n);
        if before.contains(x) {
            let j = choose|j: int| 0 <= j < before.len() && before[j] == x;
            assert(after[j] == x);
        }
        if after.contains(x) && !before.contains(x) {
            let j = choose|j: int| 0 <= j < after.len() && after[j] == x;
            if j < before.len() {
                assert(before[j] == x);
            }
            assert(kinds[n - 1] is Bind);
        }
        if kinds[n - 1] matches StepKindView::Bind { from, symbol, .. } && text::ends(from, stem)
            && symbol == x {
            assert(after[after.len() - 1] == x);
        }
    }
}

/// The symbols agree exactly where the loader bound some for the object, and among them every
/// one that a relocation applied at startup names, weak ones left out.
pub proof fn law_symbols_agree_where_all_owed_were_bound(
    stem: Seq<char>,
    f: SummaryView,
    vmas: Seq<Vma>,
    observed: Trace,
)
    ensures
        ({
            let v = checks(stem, f, vmas, observed)[5].verdict;
            let kinds = observed.kinds();
            &&& v == Verdict::NotModelled <==> forall|s: Seq<char>|
                !#[trigger] binds_it(kinds, stem, s)
            &&& v == Verdict::Differ <==> (exists|s: Seq<char>| #[trigger]
                binds_it(kinds, stem, s)) && exists|i: int|
                #[trigger] owed(f, i) && !binds_it(kinds, stem, f.relocs[i].symbol->0)
        }),
{
    let kinds = observed.kinds();
    let n = kinds.len() as int;
    let m = f.relocs.len() as int;
    let named = named_symbols(f.relocs, f.bind_now, m);
    let bound = observed::bound_for(kinds, stem, n);
    let known = bound.to_set();
    lemma_named_symbols(f, m);
    lemma_absent(named, known, named.len() as int);
    assert forall|x: Seq<char>| known.contains(x) <==> #[trigger] binds_it(kinds, stem, x) by {
        lemma_bound_for(kinds, stem, n, x);
        assert(known.contains(x) <==> bound.contains(x));
        if binds_it(kinds, stem, x) {
            let k = choose|k: int|
                0 <= k < n && (#[trigger] kinds[k] matches StepKindView::Bind {
                    from,
                    symbol: s,
                    ..
                } && text::ends(from, stem) && s == x);
            assert(kinds[k] is Bind);
        }
    }
    if bound.len() > 0 {
        assert(bound.contains(bound[0]));
        assert(known.contains(bound[0]));
        assert(binds_it(kinds, stem, bound[0]));
    } else {
        assert forall|s: Seq<char>| !#[trigger] binds_it(kinds, stem, s) by {
            assert(!bound.contains(s));
        }
    }
    if exists|i: int| #[trigger] owed(f, i) && !binds_it(kinds, stem, f.relocs[i].symbol->0) {
        let i = choose|i: int|
            #[trigger] owed(f, i) && !binds_it(kinds, stem, f.relocs[i].symbol->0);
        let x = f.relocs[i].symbol->0;
        assert(named.contains(x));
        let j = choose|j: int| 0 <= j < named.len() && named[j] == x;
        assert(!known.contains(named[j]));
    }
    if absent(named, known, named.len() as int).len() != 0 {
        let j = choose|j: int| 0 <= j < named.len() && !known.contains(#[trigger] named[j]);
        assert(named.contains(named[j]));
        let i = choose|i: int|
            0 <= i < m && #[trigger] owed(f, i) && f.relocs[i].symbol == Some(named[j]);
        assert(!binds_it(kinds, stem, f.relocs[i].symbol->0));
    }
}

// Which rows are compared, and when they agree.

/// The first `n` rows that are of the object.
pub open spec fn taken(rows: Seq<MapRowView>, stem: Seq<char>, n: int) -> Seq<MapRowView> {
    own_rows(rows, stem, n).0
}

/// A row with the object's path is compared, one with another path is not, and one without a
/// path is where it starts at the end of the row above it and that one is compared; above the
/// first row of the object nothing is.
pub proof fn law_rows_of_the_object_are_compared(rows: Seq<MapRowView>, stem: Seq<char>, k: int)
    requires
        0 <= k < rows.len(),
        stem.len() > 0,
    ensures
        ({
            let before = taken(rows, stem, k);
            let after = taken(rows, stem, k + 1);
            let r = rows[k];
            &&& text::ends(r.path, stem) ==> after == before.push(r)
            &&& r.path.len() > 0 && !text::ends(r.path, stem) ==> after == before
            &&& r.path.len() == 0 && before.len() == 0 ==> after == before
            &&& r.path.len() == 0 && k > 0 && before == taken(rows, stem, k - 1).push(rows[k - 1])
                ==> after == if rows[k - 1].end == r.start {
                before.push(r)
            } else {
                before
            }
            &&& after == before || after == before.push(r)
        }),
{
    assert(text::ends(Seq::<char>::empty(), stem) ==> stem.len() == 0);
    if k > 0 && taken(rows, stem, k) == taken(rows, stem, k - 1).push(rows[k - 1]) {
        assert(taken(rows, stem, k).len() != taken(rows, stem, k - 1).len());
        assert(own_rows(rows, stem, k).1);
        assert(taken(rows, stem, k).last() == rows[k - 1]);
    }
}

/// A row of the object and a row of the model say the same: the same pages once `base` is
/// taken off, the same protection, and the same place in the file, or none without a path.
pub open spec fn tells_same(v: Vma, r: MapRowView, base: int) -> bool {
    &&& v.start == r.start - base
    &&& v.end == (if r.end > base {
        r.end - base
    } else {
        0
    })
    &&& v.prot == Prot::of_perms(r.perms)
    &&& v.offset == if r.path.len() == 0 {
        None
    } else {
        Some(r.offset)
    }
}

/// `base` is what observed addresses are counted from: the lowest row of a
/// position-independent object, and nothing for any other.
pub open spec fn counted_from(e_type: u16, own: Seq<MapRowView>, base: int) -> bool {
    if e_type == 3 {
        &&& exists|i: int| 0 <= i < own.len() && (#[trigger] own[i]).start == base
        &&& forall|i: int| 0 <= i < own.len() ==> base <= (#[trigger] own[i]).start
    } else {
        base == 0
    }
}

proof fn lemma_lowest(rows: Seq<MapRowView>, n: int)
    requires
        0 < n <= rows.len(),
    ensures
        exists|i: int| 0 <= i < n && (#[trigger] rows[i]).start == lowest(rows, n),
        forall|i: int| 0 <= i < n ==> lowest(rows, n) <= (#[trigger] rows[i]).start,
    decreases n,
{
    if n > 1 {
        lemma_lowest(rows, n - 1);
        if rows[n - 1].start < lowest(rows, n - 1) {
            assert(rows[n - 1].start == lowest(rows, n));
        } else {
            let i = choose|i: int|
                0 <= i < n - 1 && (#[trigger] rows[i]).start == lowest(rows, n - 1);
            assert(rows[i].start == lowest(rows, n));
        }
    } else {
        assert(rows[0].start == lowest(rows, n));
    }
}

/// The mappings agree exactly where there are as many rows of the object as the model has, and
/// each says the same as the model's; where there is none, nothing is claimed.
pub proof fn law_mappings_agree_row_by_row(
    stem: Seq<char>,
    f: SummaryView,
    vmas: Seq<Vma>,
    observed: Trace,
    base: int,
)
    requires
        counted_from(
            f.e_type,
            taken(
                observed::row_views(observed.maps_at_entry@),
                stem,
                observed.maps_at_entry@.len() as int,
            ),
            base,
        ),
    ensures
        ({
            let v = checks(stem, f, vmas, observed)[0].verdict;
            let rows = observed::row_views(observed.maps_at_entry@);
            let own = taken(rows, stem, rows.len() as int);
            &&& v == Verdict::NotModelled <==> own.len() == 0
            &&& v == Verdict::Match <==> own.len() > 0 && own.len() == vmas.len() && forall|i: int|
                0 <= i < own.len() ==> tells_same(#[trigger] vmas[i], own[i], base)
        }),
{
    let rows = observed::row_views(observed.maps_at_entry@);
    let own = taken(rows, stem, rows.len() as int);
    let model = modelled_rows(vmas);
    let seen = observed_rows(f.e_type, rows, stem);
    if own.len() > 0 {
        lemma_lowest(own, own.len() as int);
        if f.e_type == 3 {
            let i = choose|i: int| 0 <= i < own.len() && (#[trigger] own[i]).start == base;
            assert(lowest(own, own.len() as int) <= own[i].start);
            let j = choose|j: int|
                0 <= j < own.len() && (#[trigger] own[j]).start == lowest(own, own.len() as int);
            assert(base <= own[j].start);
        }
        assert(load_base(f.e_type, own) == base);
        assert forall|i: int| 0 <= i < own.len() && i < vmas.len() implies (tells_same(
            #[trigger] vmas[i],
            own[i],
            base,
        ) <==> seen[i] == model[i]) by {
            assert(own[i].start >= base);
        }
        if own.len() == vmas.len() && (forall|i: int|
            0 <= i < own.len() ==> tells_same(#[trigger] vmas[i], own[i], base)) {
            assert forall|i: int| 0 <= i < seen.len() implies seen[i] == model[i] by {
                assert(tells_same(vmas[i], own[i], base));
            }
            assert(seen =~= model);
        }
        if seen == model {
            assert forall|i: int| 0 <= i < own.len() implies tells_same(
                #[trigger] vmas[i],
                own[i],
                base,
            ) by {
                assert(seen[i] == model[i]);
            }
        }
    }
}

} // verus!
