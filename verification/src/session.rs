//! One parsed binary, held across the calls of a viewer.
//!
//! The expensive step is parsing, and that happens once. Everything a viewer asks for
//! afterwards, on every tick of a slider, is answered from the parse.

use vstd::prelude::*;

use crate::claim::{Claim, ClaimId, ClaimView, Value, ValueView};
use crate::columns;
use crate::coverage;
use crate::coverage::Coverage;
use crate::layout;
use crate::model;
use crate::model::MemImage;
use crate::parse;
use crate::parse::{Parsed, SummaryView};
use crate::render;
use crate::report;
use crate::residency;
use crate::span::{FileId, Span};
use crate::state::State;
use crate::text;
use crate::timeline;
use crate::timeline::{Effect, EffectView, Step, StepFacts, Timeline};

verus! {

/// How many frames the file-to-memory morph is divided into.
pub const MORPH_FRAMES: usize = 36;

/// A character inside a JSON string; control characters become spaces.
pub open spec fn json_char(c: char) -> Seq<char> {
    if c == '"' {
        seq!['\\', '"']
    } else if c == '\\' {
        seq!['\\', '\\']
    } else if c == '\n' {
        seq!['\\', 'n']
    } else if (c as u32) < 0x20 {
        seq![' ']
    } else {
        seq![c]
    }
}

/// The inside of a JSON string.
pub open spec fn json_inside(s: Seq<char>) -> Seq<char>
    decreases s.len(),
{
    if s.len() == 0 {
        Seq::empty()
    } else {
        json_inside(s.drop_last()) + json_char(s.last())
    }
}

/// A JSON string.
pub open spec fn json_string(s: Seq<char>) -> Seq<char> {
    "\""@ + json_inside(s) + "\""@
}

fn json_str(s: &str) -> (r: String)
    ensures
        r@ == json_string(s@),
{
    let chars = text::chars_of(s);
    let mut out = "\"".to_string();
    let mut i: usize = 0;
    while i < chars.len()
        invariant
            i <= chars@.len(),
            out@ == "\""@ + json_inside(chars@.take(i as int)),
        decreases chars.len() - i,
    {
        let ghost before = out@;
        let c = chars[i];
        if c == '"' {
            out.push('\\');
            out.push('"');
        } else if c == '\\' {
            out.push('\\');
            out.push('\\');
        } else if c == '\n' {
            out.push('\\');
            out.push('n');
        } else if (c as u32) < 0x20 {
            out.push(' ');
        } else {
            out.push(c);
        }
        proof {
            assert(chars@.take(i + 1).drop_last() =~= chars@.take(i as int));
            assert(out@ =~= before + json_char(c));
            assert(before + json_char(c) =~= "\""@ + (json_inside(chars@.take(i as int))
                + json_char(c)));
        }
        i += 1;
    }
    assert(chars@.take(i as int) =~= chars@);
    out.append("\"");
    out
}

// What is at a byte.

/// A decoded value, in words.
pub open spec fn value_of(v: ValueView) -> Seq<char> {
    match v {
        ValueView::Address(a) => text::hex(a as int),
        ValueView::FileOffset(o) => "@"@ + text::hex(o as int),
        ValueView::Unsigned(u) => text::dec(u as int),
        ValueView::Signed(i) => columns::signed(i as int),
        ValueView::Flags(f) => text::hex(f as int),
        ValueView::Text(s) => "\""@ + s + "\""@,
        ValueView::Raw => Seq::empty(),
        ValueView::Nothing => Seq::empty(),
    }
}

/// A value and a note, as far as there are any.
pub open spec fn combined(v: Seq<char>, note: Seq<char>) -> Seq<char> {
    if v.len() > 0 && note.len() > 0 {
        v + "  —  "@ + note
    } else if v.len() > 0 {
        v
    } else {
        note
    }
}

/// What a claim says.
pub open spec fn claim_detail(c: ClaimView) -> Seq<char> {
    combined(value_of(c.value), render::note_of(c))
}

/// The names of the first `n` claims over a byte, as JSON strings.
pub open spec fn path_names(claims: Seq<ClaimView>, stack: Seq<ClaimId>, n: int) -> Seq<Seq<char>>
    decreases n,
{
    if n <= 0 {
        Seq::empty()
    } else {
        let before = path_names(claims, stack, n - 1);
        let i = stack[n - 1].0 as int;
        if i < claims.len() {
            before.push(json_string(report::claim_name(claims[i])))
        } else {
            before
        }
    }
}

/// Whether a step reads the byte at this offset, or writes the address it is loaded at.
pub open spec fn touches(s: StepFacts, offset: u64, va: Option<u64>) -> bool {
    ||| exists|k: int|
        0 <= k < s.reads.len() && (#[trigger] s.reads[k]).start <= offset < s.reads[k].spec_end()
    ||| va is Some && exists|k: int|
        0 <= k < s.effects.len() && writes_at(#[trigger] s.effects[k], va->0)
}

/// Whether an effect writes this address.
pub open spec fn writes_at(e: EffectView, va: u64) -> bool {
    e matches EffectView::Write(p) && p.addr == va
}

/// Which of the first `n` steps touch the byte.
pub open spec fn touching(steps: Seq<StepFacts>, offset: u64, va: Option<u64>, n: int) -> Seq<int>
    decreases n,
{
    if n <= 0 {
        Seq::empty()
    } else if touches(steps[n - 1], offset, va) {
        touching(steps, offset, va, n - 1).push(n - 1)
    } else {
        touching(steps, offset, va, n - 1)
    }
}

/// Numbers in decimal.
pub open spec fn decimals(s: Seq<int>) -> Seq<Seq<char>> {
    s.map_values(|n: int| text::dec(n))
}

/// What is at a byte, as JSON.
pub open spec fn inspection(
    cov: Coverage,
    image: MemImage,
    steps: Seq<StepFacts>,
    offset: u64,
) -> Seq<char> {
    let claims = cov@.claims;
    let stack = cov.covering(FileId(0), offset);
    let known = stack.len() > 0 && stack[0].0 < claims.len();
    let c = claims[stack[0].0 as int];
    let va = render::address_of(image, offset);
    "{\"off\":"@ + text::dec(
        if known {
            c.span.start as int
        } else {
            offset as int
        },
    ) + ",\"len\":"@ + text::dec(
        if known {
            c.span.len as int
        } else {
            0
        },
    ) + ",\"path\":["@ + columns::joined(
        path_names(claims, stack, stack.len() as int),
        ","@,
    ) + "],\"detail\":"@ + json_string(
        if known {
            claim_detail(c)
        } else {
            Seq::empty()
        },
    ) + ",\"va\":"@ + (match va {
        Some(v) => text::dec(v as int),
        None => "null"@,
    }) + ",\"steps\":["@ + columns::joined(
        decimals(touching(steps, offset, va, steps.len() as int)),
        ","@,
    ) + "]}"@
}

fn value_text(v: &Value) -> (r: String)
    ensures
        r@ == value_of(v@),
{
    match v {
        Value::Address(a) => text::hex_text(*a),
        Value::FileOffset(o) => {
            let mut r = "@".to_string();
            r.append(text::hex_text(*o).as_str());
            r
        },
        Value::Unsigned(u) => text::dec_text(*u),
        Value::Signed(i) => columns::signed_text(*i),
        Value::Flags(f) => text::hex_text(*f),
        Value::Text(s) => {
            let mut r = "\"".to_string();
            r.append(s.as_str());
            r.append("\"");
            r
        },
        _ => {
            let r = String::new();
            assert(r@ =~= Seq::<char>::empty());
            r
        },
    }
}

fn detail_text(c: &Claim) -> (r: String)
    ensures
        r@ == claim_detail(c@),
{
    let v = value_text(&c.value);
    let note = match &c.note {
        Some(n) => n.clone(),
        None => String::new(),
    };
    assert(note@ =~= render::note_of(c@));
    if text::is_blank(v.as_str()) {
        note
    } else if text::is_blank(note.as_str()) {
        v
    } else {
        let mut r = v;
        r.append("  —  ");
        r.append(note.as_str());
        r
    }
}

fn path_text(cov: &Coverage, stack: &Vec<ClaimId>) -> (r: Vec<String>)
    ensures
        text::views(r@) == path_names(cov@.claims, stack@, stack@.len() as int),
{
    let mut out: Vec<String> = Vec::new();
    assert(text::views(out@) =~= Seq::empty());
    let mut n: usize = 0;
    while n < stack.len()
        invariant
            n <= stack@.len(),
            text::views(out@) == path_names(cov@.claims, stack@, n as int),
        decreases stack.len() - n,
    {
        let ghost before = out@;
        let id = stack[n];
        if let Some(c) = cov.claim(id) {
            let name = match c.kind.field_name() {
                Some(f) => f,
                None => c.kind.label(),
            };
            let t = json_str(name);
            let ghost added = t@;
            out.push(t);
            assert(text::views(out@) =~= text::views(before).push(added));
        }
        n += 1;
    }
    out
}

fn step_touches(s: &Step, offset: u64, va: Option<u64>) -> (r: bool)
    ensures
        r == touches(s@, offset, va),
{
    let mut k: usize = 0;
    while k < s.reads.len()
        invariant
            k <= s.reads@.len(),
            forall|j: int|
                0 <= j < k ==> !((#[trigger] s@.reads[j]).start <= offset
                    < s@.reads[j].spec_end()),
        decreases s.reads.len() - k,
    {
        let span = s.reads[k];
        assert(s@.reads[k as int] == span);
        if offset >= span.start && offset < span.end() {
            return true;
        }
        k += 1;
    }
    if let Some(addr) = va {
        let mut e: usize = 0;
        while e < s.effects.len()
            invariant
                e <= s.effects@.len(),
                va == Some(addr),
                forall|j: int| 0 <= j < e ==> !writes_at(#[trigger] s@.effects[j], addr),
            decreases s.effects.len() - e,
        {
            assert(s@.effects[e as int] == s.effects@[e as int]@);
            if let Effect::Write(p) = &s.effects[e] {
                if p.addr == addr {
                    assert(writes_at(s@.effects[e as int], va->0));
                    return true;
                }
            }
            e += 1;
        }
    }
    false
}

fn touching_text(all: &[Step], offset: u64, va: Option<u64>) -> (r: Vec<String>)
    ensures
        text::views(r@) == decimals(
            touching(timeline::step_views(all@), offset, va, all@.len() as int),
        ),
{
    let ghost steps = timeline::step_views(all@);
    let mut out: Vec<String> = Vec::new();
    assert(text::views(out@) =~= decimals(touching(steps, offset, va, 0)));
    let mut i: usize = 0;
    while i < all.len()
        invariant
            i <= all@.len(),
            steps == timeline::step_views(all@),
            text::views(out@) == decimals(touching(steps, offset, va, i as int)),
        decreases all.len() - i,
    {
        let ghost before = out@;
        assert(steps[i as int] == all@[i as int]@);
        if step_touches(&all[i], offset, va) {
            out.push(text::dec_text(i as u64));
            proof {
                let t = touching(steps, offset, va, i as int);
                assert(text::views(out@) =~= text::views(before).push(text::dec(i as int)));
                assert(decimals(t.push(i as int)) =~= decimals(t).push(text::dec(i as int)));
            }
        }
        i += 1;
    }
    out
}

// The spans of a step.

/// The first `n` spans, as JSON objects.
pub open spec fn span_objects(s: Seq<Span>, n: int) -> Seq<Seq<char>>
    decreases n,
{
    if n <= 0 {
        Seq::empty()
    } else {
        span_objects(s, n - 1).push(
            "{\"off\":"@ + text::dec(s[n - 1].start as int) + ",\"len\":"@ + text::dec(
                s[n - 1].len as int,
            ) + "}"@,
        )
    }
}

/// The spans that a step reads.
pub open spec fn reads_of(steps: Seq<StepFacts>, n: int) -> Seq<Span> {
    if n < steps.len() {
        steps[n].reads
    } else {
        Seq::empty()
    }
}

// The session.

/// What was parsed, in one line. The share is the part of the file that is never loaded, in
/// percent.
pub open spec fn headline(
    cov: Coverage,
    f: SummaryView,
    image: MemImage,
    share: Seq<char>,
) -> Seq<char> {
    let a = seq![text::dec(cov@.claims.len() as int) + " claims"@, share + "% never loaded"@];
    let double = residency::shared_set(image.ranges()).len() as int;
    let b = report::linkage(a, f, "needs "@);
    columns::joined(
        report::with_if(b, double > 0, text::dec(double) + " bytes mapped twice"@),
        "   ·   "@,
    )
}

/// One parsed binary, held across calls.
#[derive(Debug)]
pub struct Session {
    parsed: Parsed,
    image: MemImage,
    timeline: Timeline,
    title: String,
    subtitle: String,
}

impl Session {
    pub closed spec fn coverage(&self) -> Coverage {
        self.parsed.coverage
    }

    pub closed spec fn facts(&self) -> SummaryView {
        self.parsed.summary@
    }

    pub closed spec fn memory(&self) -> MemImage {
        self.image
    }

    pub closed spec fn steps(&self) -> Seq<StepFacts> {
        self.timeline.facts()
    }

    pub closed spec fn heading(&self) -> (Seq<char>, Seq<char>) {
        (self.title@, self.subtitle@)
    }

    pub closed spec fn wf(&self) -> bool {
        self.parsed.coverage.wf()
    }

    /// Parse a file. The bytes are not retained.
    pub fn new(name: &str, bytes: &[u8]) -> (r: Result<Session, String>)
        ensures
            match layout::outcome(bytes@) {
                Ok((ledger, facts)) => {
                    let total = coverage::total_len(ledger.files, ledger.files.len() as int);
                    let maps = model::mappings_of(facts.segments);
                    if maps.len() == 0 {
                        r is Err && r->Err_0@
                            == "no PT_LOAD segments — an object file or a core dump has nothing to map"@
                    } else {
                        &&& r is Ok
                        &&& r->Ok_0.wf()
                        &&& r->Ok_0.coverage()@ == ledger
                        &&& r->Ok_0.facts() == facts
                        &&& r->Ok_0.memory().maps() == maps
                        &&& r->Ok_0.memory().ranges() == model::residents(
                            facts.segments,
                            total,
                            facts.segments.len() as int,
                        )
                        &&& r->Ok_0.steps() == timeline::planned(facts, maps)
                        &&& r->Ok_0.heading() == (
                            name@,
                            report::subtitle_of(facts, text::dec(total as int)),
                        )
                    }
                },
                Err(e) => r is Err && r->Err_0@ == e.text(),
            },
    {
        let parsed = match parse::parse(bytes) {
            Ok(p) => p,
            Err(e) => return Err(e.to_text()),
        };
        let total: u64 = parsed.coverage.stats().total_bytes;
        let image = MemImage::for_file(parsed.summary.segments.as_slice(), total);
        if image.is_empty() {
            return Err(
                "no PT_LOAD segments — an object file or a core dump has nothing to map".to_string(),
            );
        }
        let timeline = Timeline::plan(&parsed.summary, &image);
        let subtitle = report::subtitle(&parsed.summary, text::dec_text(total).as_str());
        Ok(Session { parsed, image, timeline, title: name.to_string(), subtitle })
    }

    /// How many frames the morph has.
    #[must_use]
    pub fn morph_frames(&self) -> (r: usize)
        ensures
            r == 36,
    {
        MORPH_FRAMES
    }

    /// How many steps the modelled load has.
    #[must_use]
    pub fn step_count(&self) -> (r: usize)
        ensures
            r == self.steps().len(),
    {
        self.timeline.len()
    }

    /// How many bytes the file has, and how many of them are never loaded.
    #[must_use]
    pub fn sizes(&self) -> (r: (u64, u64))
        requires
            self.wf(),
        ensures
            ({
                let files = self.coverage()@.files;
                let total = coverage::total_len(files, files.len() as int);
                r.0 == total && r.1 == report::never(self.memory(), total)
            }),
    {
        let total: u64 = self.parsed.coverage.stats().total_bytes;
        (total, total.saturating_sub(self.image.resident_bytes()))
    }

    /// One-line description of what was parsed, for the header. `share` is the part of the
    /// file that is never loaded, in percent.
    #[must_use]
    pub fn summary(&self, share: &str) -> (r: String)
        requires
            self.wf(),
        ensures
            r@ == headline(self.coverage(), self.facts(), self.memory(), share@),
    {
        let mut first = text::dec_text(self.parsed.coverage.len() as u64);
        first.append(" claims");
        let mut second = share.to_string();
        second.append("% never loaded");
        let mut bits: Vec<String> = Vec::new();
        let ghost want = seq![first@, second@];
        bits.push(first);
        bits.push(second);
        assert(text::views(bits@) =~= want);
        report::push_linkage(&self.parsed.summary, "needs ", &mut bits);
        let double: u64 = self.image.double_mapped_bytes();
        if double > 0 {
            let mut t = text::dec_text(double);
            t.append(" bytes mapped twice");
            report::push_text(&mut bits, t);
        }
        columns::join(&bits, "   ·   ")
    }

    /// What is at a file offset, and who touches it, as JSON: the claim path innermost
    /// first, what the innermost claim says, the virtual address if the byte is loaded, and
    /// the steps that read or write it.
    ///
    /// This is the query the whole data model was built for: every step already records the
    /// file spans it reads, so "which steps of the load care about this byte" costs one pass
    /// over a few dozen steps.
    #[must_use]
    pub fn inspect(&self, offset: u64) -> (r: String)
        requires
            self.wf(),
        ensures
            r@ == inspection(self.coverage(), self.memory(), self.steps(), offset),
    {
        let cov = &self.parsed.coverage;
        let stack = cov.claims_at(FileId::primary(), offset);
        let path = path_text(cov, &stack);
        let mut start: u64 = offset;
        let mut len: u64 = 0;
        let mut detail = String::new();
        assert(detail@ =~= Seq::<char>::empty());
        if stack.len() > 0 {
            if let Some(c) = cov.claim(stack[0]) {
                start = c.span.start;
                len = c.span.len;
                detail = detail_text(c);
            }
        }
        let vaddr = self.image.vaddr_of(offset);
        let touched = touching_text(self.timeline.steps(), offset, vaddr);
        let mut r = "{\"off\":".to_string();
        r.append(text::dec_text(start).as_str());
        r.append(",\"len\":");
        r.append(text::dec_text(len).as_str());
        r.append(",\"path\":[");
        r.append(columns::join(&path, ",").as_str());
        r.append("],\"detail\":");
        r.append(json_str(detail.as_str()).as_str());
        r.append(",\"va\":");
        let va = match vaddr {
            Some(v) => text::dec_text(v),
            None => "null".to_string(),
        };
        r.append(va.as_str());
        r.append(",\"steps\":[");
        r.append(columns::join(&touched, ",").as_str());
        r.append("]}");
        r
    }

    /// The file spans one step of the load reads, as JSON.
    ///
    /// Selecting a step and seeing which bytes caused it is the same relationship as
    /// selecting a byte and seeing which steps touch it, read the other way.
    #[must_use]
    pub fn step_spans(&self, n: usize) -> (r: String)
        ensures
            ({
                let spans = reads_of(self.steps(), n as int);
                r@ == "["@ + columns::joined(span_objects(spans, spans.len() as int), ","@) + "]"@
            }),
    {
        let all = self.timeline.steps();
        let ghost spans = reads_of(self.steps(), n as int);
        let mut parts: Vec<String> = Vec::new();
        assert(text::views(parts@) =~= Seq::empty());
        if n < all.len() {
            let reads = &all[n].reads;
            assert(self.steps()[n as int] == all@[n as int]@);
            let mut i: usize = 0;
            while i < reads.len()
                invariant
                    i <= reads@.len(),
                    reads@ == spans,
                    text::views(parts@) == span_objects(spans, i as int),
                decreases reads.len() - i,
            {
                let ghost before = parts@;
                let mut t = "{\"off\":".to_string();
                t.append(text::dec_text(reads[i].start).as_str());
                t.append(",\"len\":");
                t.append(text::dec_text(reads[i].len).as_str());
                t.append("}");
                let ghost added = t@;
                parts.push(t);
                assert(text::views(parts@) =~= text::views(before).push(added));
                i += 1;
            }
        }
        let mut r = "[".to_string();
        r.append(columns::join(&parts, ",").as_str());
        r.append("]");
        r
    }

    /// The narration for one step.
    #[must_use]
    pub fn step_narration(&self, n: usize) -> (r: String)
        ensures
            r@ == (if n < self.steps().len() {
                self.steps()[n as int].narration
            } else {
                Seq::empty()
            }),
    {
        let all = self.timeline.steps();
        if n < all.len() {
            assert(self.steps()[n as int] == all@[n as int]@);
            all[n].narration.clone()
        } else {
            let r = String::new();
            assert(r@ =~= Seq::<char>::empty());
            r
        }
    }

    /// The number of the step that is shown for `n`: there is no step past the last.
    #[must_use]
    pub fn shown_step(&self, n: usize) -> (r: usize)
        ensures
            r == (if self.steps().len() == 0 {
                0
            } else if n < self.steps().len() {
                n as int
            } else {
                self.steps().len() - 1
            }),
    {
        let count: usize = self.timeline.len();
        if count == 0 {
            0
        } else if n < count {
            n
        } else {
            count - 1
        }
    }

    /// Memory as of step `n` of the modelled load.
    #[must_use]
    pub fn state_at(&self, n: usize) -> (r: State)
        ensures
            r@ == timeline::after_steps(
                self.steps(),
                if n < self.steps().len() {
                    n + 1
                } else {
                    self.steps().len() as int
                },
            ),
    {
        self.timeline.state_at(n)
    }

    /// A frame of this file, without a step.
    #[must_use]
    pub fn base(&self) -> (r: render::Frame<'_>)
        requires
            self.wf(),
        ensures
            r.coverage == self.coverage(),
            r.coverage.wf(),
            r.image == self.memory(),
            (r.title@, r.subtitle@) == self.heading(),
            r.step is None,
    {
        render::Frame {
            coverage: &self.parsed.coverage,
            image: &self.image,
            title: self.title.as_str(),
            subtitle: self.subtitle.as_str(),
            step: None,
        }
    }
}

// Laws.

/// Selecting a byte shows exactly the steps that touch it: the same relationship as
/// selecting a step and seeing the bytes it reads, read the other way.
pub proof fn law_a_byte_shows_the_steps_that_touch_it(
    steps: Seq<StepFacts>,
    offset: u64,
    va: Option<u64>,
    n: int,
    i: int,
)
    requires
        0 <= n <= steps.len(),
    ensures
        touching(steps, offset, va, n).contains(i) <==> 0 <= i < n && touches(
            steps[i],
            offset,
            va,
        ),
    decreases n,
{
    if n > 0 {
        law_a_byte_shows_the_steps_that_touch_it(steps, offset, va, n - 1, i);
        let before = touching(steps, offset, va, n - 1);
        let all = touching(steps, offset, va, n);
        if touches(steps[n - 1], offset, va) {
            assert(all[before.len() as int] == n - 1);
            if before.contains(i) {
                let k = before.index_of(i);
                assert(all[k] == i);
            }
            if all.contains(i) {
                let k = all.index_of(i);
                if k < before.len() {
                    assert(before[k] == i);
                }
            }
        }
    }
}

/// Text is put into JSON character by character: a quote, a backslash and a line feed behind a
/// backslash, any other control character as a space, anything else as it is, in order.
pub proof fn law_text_is_written_character_by_character(a: Seq<char>, c: char, b: Seq<char>)
    ensures
        json_inside(Seq::empty()) == Seq::<char>::empty(),
        json_inside(a + seq![c] + b) == json_inside(a) + (if c == '"' || c == '\\' {
            seq!['\\', c]
        } else if c == '\n' {
            seq!['\\', 'n']
        } else if (c as u32) < 32 {
            seq![' ']
        } else {
            seq![c]
        }) + json_inside(b),
    decreases b.len(),
{
    let s = a + seq![c] + b;
    if b.len() == 0 {
        assert(s.drop_last() =~= a);
        assert(json_inside(s) =~= json_inside(a) + json_char(c) + json_inside(b));
    } else {
        law_text_is_written_character_by_character(a, c, b.drop_last());
        assert(s.drop_last() =~= a + seq![c] + b.drop_last());
        assert(json_inside(s) =~= json_inside(a) + json_char(c) + json_inside(b));
    }
}

/// A step is shown for a byte exactly where one of the spans it reads holds the byte, or one of
/// its writes is to the address that the byte is loaded at.
pub proof fn law_a_step_is_shown_for_what_it_reads_and_writes(
    steps: Seq<StepFacts>,
    offset: u64,
    va: Option<u64>,
    i: int,
)
    requires
        0 <= i < steps.len(),
    ensures
        touching(steps, offset, va, steps.len() as int).contains(i) <==> {
            ||| exists|k: int|
                0 <= k < steps[i].reads.len() && (#[trigger] steps[i].reads[k]).start <= offset
                    && offset < steps[i].reads[k].spec_end()
            ||| exists|k: int|
                0 <= k < steps[i].effects.len() && (#[trigger] steps[i].effects[k]) is Write
                    && va == Some(steps[i].effects[k]->Write_0.addr)
        },
{
    law_a_byte_shows_the_steps_that_touch_it(steps, offset, va, steps.len() as int, i);
    let s = steps[i];
    if touches(s, offset, va) && va is Some && exists|k: int|
        0 <= k < s.effects.len() && writes_at(#[trigger] s.effects[k], va->0) {
        let k = choose|k: int| 0 <= k < s.effects.len() && writes_at(#[trigger] s.effects[k], va->0);
        assert(s.effects[k] is Write && va == Some(s.effects[k]->Write_0.addr));
    }
    if exists|k: int|
        0 <= k < s.effects.len() && (#[trigger] s.effects[k]) is Write && va == Some(
            s.effects[k]->Write_0.addr,
        ) {
        let k = choose|k: int|
            0 <= k < s.effects.len() && (#[trigger] s.effects[k]) is Write && va == Some(
                s.effects[k]->Write_0.addr,
            );
        assert(writes_at(s.effects[k], va->0));
    }
}

} // verus!
