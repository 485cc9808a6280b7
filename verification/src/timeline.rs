//! The modelled load: an ordered list of steps, derived from the file alone.
//!
//! [`Timeline::plan`] turns a parsed file into steps. [`Timeline::state_at`] replays the
//! effects of the steps up to one of them. Nothing is stored per step: state is derived, so
//! scrubbing backwards costs what scrubbing forwards costs and the two cannot disagree.

use vstd::prelude::*;

use crate::claim::RelocTableKind;
use crate::elf;
use crate::layout;
use crate::model;
use crate::model::{MapSource, Mapping, MemImage, Prot};
use crate::parse::{Reloc, RelocView, Segment, Summary, SummaryView};
use crate::span;
use crate::span::{FileId, Span};
use crate::state;
use crate::state::{Poke, PokeView, State, StateView};
use crate::text;

verus! {

/// Which part of the load a step belongs to.
#[derive(Clone, Copy, PartialEq, Eq, Debug, Structural)]
pub enum Phase {
    Kernel,
    Interp,
    Resolve,
    Relocate,
    Protect,
    Init,
    Entry,
}

impl Phase {
    pub open spec fn spec_str(self) -> &'static str {
        match self {
            Self::Kernel => "kernel",
            Self::Interp => "interp",
            Self::Resolve => "resolve",
            Self::Relocate => "relocate",
            Self::Protect => "protect",
            Self::Init => "init",
            Self::Entry => "entry",
        }
    }

    #[must_use]
    pub fn as_str(self) -> (r: &'static str)
        ensures
            r == self.spec_str(),
    {
        match self {
            Self::Kernel => "kernel",
            Self::Interp => "interp",
            Self::Resolve => "resolve",
            Self::Relocate => "relocate",
            Self::Protect => "protect",
            Self::Init => "init",
            Self::Entry => "entry",
        }
    }
}

/// Who acts in a step.
#[derive(Clone, Copy, PartialEq, Eq, Debug, Structural)]
pub enum Actor {
    Kernel,
    Interp,
    Program,
}

impl Actor {
    pub open spec fn spec_str(self) -> &'static str {
        match self {
            Self::Kernel => "kernel",
            Self::Interp => "ld.so",
            Self::Program => "program",
        }
    }

    #[must_use]
    pub fn as_str(self) -> (r: &'static str)
        ensures
            r == self.spec_str(),
    {
        match self {
            Self::Kernel => "kernel",
            Self::Interp => "ld.so",
            Self::Program => "program",
        }
    }
}

/// What a step does to memory.
#[derive(Clone, PartialEq, Eq, Debug)]
pub enum Effect {
    Mapped(Mapping),
    Protect { start: u64, len: u64, to: Prot },
    Write(Poke),
}

/// An [`Effect`] with its texts as character sequences.
pub enum EffectView {
    Mapped(Mapping),
    Protect { start: u64, len: u64, to: Prot },
    Write(PokeView),
}

impl View for Effect {
    type V = EffectView;

    open spec fn view(&self) -> EffectView {
        match self {
            Effect::Mapped(m) => EffectView::Mapped(*m),
            Effect::Protect { start, len, to } => EffectView::Protect {
                start: *start,
                len: *len,
                to: *to,
            },
            Effect::Write(p) => EffectView::Write(p@),
        }
    }
}

/// One step of the load.
#[derive(Clone, Debug)]
pub struct Step {
    pub n: u32,
    pub phase: Phase,
    pub actor: Actor,
    pub narration: String,
    /// File bytes this step consults: selecting a step selects the bytes that caused it.
    pub reads: Vec<Span>,
    pub effects: Vec<Effect>,
}

/// A [`Step`] with its texts as character sequences.
pub struct StepFacts {
    pub n: u32,
    pub phase: Phase,
    pub actor: Actor,
    pub narration: Seq<char>,
    pub reads: Seq<Span>,
    pub effects: Seq<EffectView>,
}

/// The effects as views.
pub open spec fn effect_views(e: Seq<Effect>) -> Seq<EffectView> {
    e.map_values(|x: Effect| x@)
}

impl View for Step {
    type V = StepFacts;

    open spec fn view(&self) -> StepFacts {
        StepFacts {
            n: self.n,
            phase: self.phase,
            actor: self.actor,
            narration: self.narration@,
            reads: self.reads@,
            effects: effect_views(self.effects@),
        }
    }
}

/// The steps as views.
pub open spec fn step_views(s: Seq<Step>) -> Seq<StepFacts> {
    s.map_values(|x: Step| x@)
}

/// `s` with one more step.
pub open spec fn told(
    s: Seq<StepFacts>,
    phase: Phase,
    actor: Actor,
    narration: Seq<char>,
    reads: Seq<Span>,
    effects: Seq<EffectView>,
) -> Seq<StepFacts> {
    s.push(
        StepFacts { n: layout::narrow(s.len() as int), phase, actor, narration, reads, effects },
    )
}

/// The file bytes of the first segment of type `t`.
pub open spec fn first_span(segs: Seq<Segment>, t: u32) -> Seq<Span>
    decreases segs.len(),
{
    if segs.len() == 0 {
        Seq::empty()
    } else if segs[0].p_type == t {
        seq![Span { file: FileId(0), start: segs[0].offset, len: segs[0].filesz }]
    } else {
        first_span(segs.drop_first(), t)
    }
}

/// The step that maps one mapping.
pub open spec fn map_step(s: Seq<StepFacts>, m: Mapping) -> Seq<StepFacts> {
    match m.source {
        MapSource::FromFile(f) => told(
            s,
            Phase::Kernel,
            Actor::Kernel,
            "map "@ + text::dec(m.len as int) + " bytes of the file at "@ + text::hex(
                m.vaddr as int,
            ) + ", "@ + m.prot.spec_str()@,
            seq![f],
            seq![EffectView::Mapped(m)],
        ),
        MapSource::ZeroFill => told(
            s,
            Phase::Kernel,
            Actor::Kernel,
            "zero-fill "@ + text::dec(m.len as int) + " bytes at "@ + text::hex(m.vaddr as int)
                + ": .bss, in no file"@,
            Seq::empty(),
            seq![EffectView::Mapped(m)],
        ),
    }
}

/// The steps that map the first `n` mappings.
pub open spec fn map_steps(s: Seq<StepFacts>, maps: Seq<Mapping>, n: int) -> Seq<StepFacts>
    decreases n,
{
    if n <= 0 {
        s
    } else {
        map_step(map_steps(s, maps, n - 1), maps[n - 1])
    }
}

/// Everything before any code of the program's has run.
pub open spec fn kernel_steps(f: SummaryView, maps: Seq<Mapping>) -> Seq<StepFacts> {
    let s = told(
        Seq::empty(),
        Phase::Kernel,
        Actor::Kernel,
        "read the first page and check e_ident"@,
        seq![Span { file: FileId(0), start: 0, len: 16 }],
        Seq::empty(),
    );
    let s = match f.interp {
        Some(path) => told(
            s,
            Phase::Kernel,
            Actor::Kernel,
            "PT_INTERP names "@ + path + ": the program is dynamic"@,
            first_span(f.segments, 3),
            Seq::empty(),
        ),
        None => s,
    };
    let s = map_steps(s, maps, maps.len() as int);
    let s = told(
        s,
        Phase::Kernel,
        Actor::Kernel,
        "build the stack: argv, envp and the auxiliary vector"@,
        Seq::empty(),
        Seq::empty(),
    );
    match f.interp {
        Some(_) => told(
            s,
            Phase::Kernel,
            Actor::Kernel,
            "jump to the interpreter's entry, not the program's own"@,
            Seq::empty(),
            Seq::empty(),
        ),
        None => s,
    }
}

/// The steps that resolve the first `n` dependencies.
pub open spec fn needed_steps(s: Seq<StepFacts>, needed: Seq<Seq<char>>, n: int) -> Seq<StepFacts>
    decreases n,
{
    if n <= 0 {
        s
    } else {
        told(
            needed_steps(s, needed, n - 1),
            Phase::Resolve,
            Actor::Interp,
            "resolve DT_NEEDED "@ + needed[n - 1],
            Seq::empty(),
            Seq::empty(),
        )
    }
}

/// What the interpreter does before it relocates anything but itself.
pub open spec fn interp_steps(s: Seq<StepFacts>, f: SummaryView) -> Seq<StepFacts> {
    if f.interp is None {
        s
    } else {
        let s = told(
            s,
            Phase::Interp,
            Actor::Interp,
            "ld.so relocates itself before it can touch a global"@,
            Seq::empty(),
            Seq::empty(),
        );
        let s = if f.has_dynamic {
            told(
                s,
                Phase::Interp,
                Actor::Interp,
                "read PT_DYNAMIC"@,
                first_span(f.segments, 2),
                Seq::empty(),
            )
        } else {
            s
        };
        let s = needed_steps(s, f.needed, f.needed.len() as int);
        told(
            s,
            Phase::Resolve,
            Actor::Interp,
            "build the global symbol scope"@,
            Seq::empty(),
            Seq::empty(),
        )
    }
}

/// The name of a relocation table.
pub open spec fn table_name(t: RelocTableKind) -> &'static str {
    match t {
        RelocTableKind::Rel => "DT_REL",
        RelocTableKind::Rela => "DT_RELA",
        RelocTableKind::Relr => "DT_RELR",
        RelocTableKind::JmpRel => "DT_JMPREL",
    }
}

/// Who applies relocations: the interpreter, or a static program itself.
pub open spec fn relocator(f: SummaryView) -> Actor {
    if f.interp is Some {
        Actor::Interp
    } else {
        Actor::Program
    }
}

/// The step that applies one relocation: a write, and the entry that asked for it.
pub open spec fn reloc_step(s: Seq<StepFacts>, r: RelocView, actor: Actor) -> Seq<StepFacts> {
    let cause = match r.symbol {
        Some(name) => layout::reloc_type_text(r.r_type) + " "@ + name,
        None => layout::reloc_type_text(r.r_type),
    };
    told(
        s,
        Phase::Relocate,
        actor,
        table_name(r.table)@ + ": write "@ + text::hex(r.offset as int) + ", "@ + cause,
        seq![r.file_span],
        seq![EffectView::Write(PokeView { addr: r.offset, len: 8, cause })],
    )
}

/// The steps that apply those of the first `n` relocations that are in `table`.
pub open spec fn table_steps(
    s: Seq<StepFacts>,
    relocs: Seq<RelocView>,
    table: RelocTableKind,
    actor: Actor,
    n: int,
) -> Seq<StepFacts>
    decreases n,
{
    if n <= 0 {
        s
    } else {
        let s = table_steps(s, relocs, table, actor, n - 1);
        if relocs[n - 1].table == table {
            reloc_step(s, relocs[n - 1], actor)
        } else {
            s
        }
    }
}

/// How many of the first `n` relocations are in `table`.
pub open spec fn in_table(relocs: Seq<RelocView>, table: RelocTableKind, n: int) -> nat
    decreases n,
{
    if n <= 0 {
        0
    } else {
        in_table(relocs, table, n - 1) + if relocs[n - 1].table == table {
            1nat
        } else {
            0nat
        }
    }
}

/// The PLT relocations of a lazily bound object.
pub open spec fn lazy_count(f: SummaryView) -> nat {
    if f.bind_now {
        0
    } else {
        in_table(f.relocs, RelocTableKind::JmpRel, f.relocs.len() as int)
    }
}

/// Relocation, table by table in the order glibc applies them. Under lazy binding
/// `DT_JMPREL` produces no writes at all, and a step says so.
pub open spec fn reloc_steps(s: Seq<StepFacts>, f: SummaryView) -> Seq<StepFacts> {
    let n = f.relocs.len() as int;
    let actor = relocator(f);
    let s = table_steps(s, f.relocs, RelocTableKind::Relr, actor, n);
    let s = table_steps(s, f.relocs, RelocTableKind::Rela, actor, n);
    let s = table_steps(s, f.relocs, RelocTableKind::Rel, actor, n);
    if f.bind_now {
        table_steps(s, f.relocs, RelocTableKind::JmpRel, actor, n)
    } else if lazy_count(f) > 0 {
        told(
            s,
            Phase::Relocate,
            actor,
            "DT_JMPREL: "@ + text::dec(lazy_count(f) as int)
                + " relocation(s) left alone, the object binds lazily"@,
            Seq::empty(),
            Seq::empty(),
        )
    } else {
        s
    }
}

/// The range that RELRO seals: rounded down at both ends, as glibc does, which can mean
/// nothing at all.
pub open spec fn relro_range(seg: Segment) -> (u64, u64) {
    (
        model::page_down(seg.vaddr),
        model::page_down(span::sat_add(seg.vaddr, seg.memsz)),
    )
}

/// The step that seals one segment.
pub open spec fn relro_step(s: Seq<StepFacts>, seg: Segment, actor: Actor) -> Seq<StepFacts> {
    let (start, end) = relro_range(seg);
    if start < end {
        told(
            s,
            Phase::Protect,
            actor,
            "PT_GNU_RELRO: "@ + text::hex(start as int) + ".."@ + text::hex(end as int)
                + " becomes read-only"@,
            Seq::empty(),
            seq![
                EffectView::Protect {
                    start,
                    len: (end - start) as u64,
                    to: Prot { read: true, write: false, execute: false },
                },
            ],
        )
    } else {
        told(
            s,
            Phase::Protect,
            actor,
            "PT_GNU_RELRO covers no whole page: nothing is sealed"@,
            Seq::empty(),
            Seq::empty(),
        )
    }
}

/// The steps that seal those of the first `n` segments that ask for it.
pub open spec fn relro_steps(
    s: Seq<StepFacts>,
    segs: Seq<Segment>,
    actor: Actor,
    n: int,
) -> Seq<StepFacts>
    decreases n,
{
    if n <= 0 {
        s
    } else {
        let s = relro_steps(s, segs, actor, n - 1);
        if segs[n - 1].p_type == elf::PT_GNU_RELRO {
            relro_step(s, segs[n - 1], actor)
        } else {
            s
        }
    }
}

/// Initialisers, then the jump to the entry point. Initialisers are narrated but write
/// nothing here: modelling what a constructor writes would mean running it.
pub open spec fn final_steps(s: Seq<StepFacts>, f: SummaryView) -> Seq<StepFacts> {
    let s = match f.init {
        Some(a) => told(
            s,
            Phase::Init,
            Actor::Program,
            "run DT_INIT at "@ + text::hex(a as int),
            Seq::empty(),
            Seq::empty(),
        ),
        None => s,
    };
    let s = match f.init_array {
        Some((a, size)) => told(
            s,
            Phase::Init,
            Actor::Program,
            "run "@ + text::dec((size / 8) as int) + " initialiser(s) of DT_INIT_ARRAY at "@
                + text::hex(a as int),
            Seq::empty(),
            Seq::empty(),
        ),
        None => s,
    };
    let s = told(
        s,
        Phase::Entry,
        Actor::Program,
        "jump to the program's entry at "@ + text::hex(f.entry as int),
        Seq::empty(),
        Seq::empty(),
    );
    if lazy_count(f) > 0 {
        told(
            s,
            Phase::Entry,
            relocator(f),
            "each of the "@ + text::dec(lazy_count(f) as int)
                + " PLT symbol(s) is bound when it is first called"@,
            Seq::empty(),
            Seq::empty(),
        )
    } else {
        s
    }
}

/// The whole load.
pub open spec fn planned(f: SummaryView, maps: Seq<Mapping>) -> Seq<StepFacts> {
    let s = kernel_steps(f, maps);
    let s = interp_steps(s, f);
    let s = reloc_steps(s, f);
    let s = relro_steps(s, f.segments, relocator(f), f.segments.len() as int);
    final_steps(s, f)
}

/// Memory after one effect.
pub open spec fn after_effect(m: StateView, e: EffectView) -> StateView {
    match e {
        EffectView::Mapped(x) => StateView { mappings: m.mappings.push(x), ..m },
        EffectView::Protect { start, len, to } => StateView {
            mappings: state::protected(
                m.mappings,
                start,
                span::sat_add(start, len),
                to,
                m.mappings.len() as int,
            ),
            ..m
        },
        EffectView::Write(p) => StateView { poked: m.poked.push(p), ..m },
    }
}

/// Memory after the first `n` effects.
pub open spec fn after_effects(m: StateView, e: Seq<EffectView>, n: int) -> StateView
    decreases n,
{
    if n <= 0 {
        m
    } else {
        after_effect(after_effects(m, e, n - 1), e[n - 1])
    }
}

/// Memory after the first `n` steps.
pub open spec fn after_steps(s: Seq<StepFacts>, n: int) -> StateView
    decreases n,
{
    if n <= 0 {
        StateView { mappings: Seq::empty(), poked: Seq::empty() }
    } else {
        let e = s[n - 1].effects;
        after_effects(after_steps(s, n - 1), e, e.len() as int)
    }
}

/// The modelled load of one object.
#[derive(Clone, Debug)]
pub struct Timeline {
    steps: Vec<Step>,
}

/// Adds one step.
fn tell(
    steps: &mut Vec<Step>,
    phase: Phase,
    actor: Actor,
    narration: String,
    reads: Vec<Span>,
    effects: Vec<Effect>,
)
    ensures
        step_views(final(steps)@) == told(
            step_views(old(steps)@),
            phase,
            actor,
            narration@,
            reads@,
            effect_views(effects@),
        ),
{
    let n: u32 = if steps.len() as u64 > u32::MAX as u64 {
        u32::MAX
    } else {
        steps.len() as u32
    };
    steps.push(Step { n, phase, actor, narration, reads, effects });
    assert(step_views(steps@) =~= told(
        step_views(old(steps)@),
        phase,
        actor,
        narration@,
        reads@,
        effect_views(effects@),
    ));
}

/// Adds one step that touches no memory and reads no particular bytes.
fn tell_plain(steps: &mut Vec<Step>, phase: Phase, actor: Actor, narration: &str)
    ensures
        step_views(final(steps)@) == told(
            step_views(old(steps)@),
            phase,
            actor,
            narration@,
            Seq::empty(),
            Seq::empty(),
        ),
{
    let effects: Vec<Effect> = Vec::new();
    assert(effect_views(effects@) =~= Seq::<EffectView>::empty());
    tell(steps, phase, actor, narration.to_string(), Vec::new(), effects);
}

/// Adds one step with an effect.
fn tell_effect(
    steps: &mut Vec<Step>,
    phase: Phase,
    actor: Actor,
    narration: String,
    reads: Vec<Span>,
    effect: Effect,
)
    ensures
        step_views(final(steps)@) == told(
            step_views(old(steps)@),
            phase,
            actor,
            narration@,
            reads@,
            seq![effect@],
        ),
{
    let mut effects: Vec<Effect> = Vec::new();
    effects.push(effect);
    assert(effect_views(effects@) =~= seq![effect@]);
    tell(steps, phase, actor, narration, reads, effects);
}

/// The file bytes of the first segment of type `t`.
fn find_span(segs: &Vec<Segment>, t: u32) -> (r: Vec<Span>)
    ensures
        r@ == first_span(segs@, t),
{
    let mut i: usize = 0;
    assert(segs@.skip(0) =~= segs@);
    while i < segs.len()
        invariant
            i <= segs@.len(),
            first_span(segs@, t) == first_span(segs@.skip(i as int), t),
        decreases segs.len() - i,
    {
        assert(segs@.skip(i as int).drop_first() =~= segs@.skip(i + 1));
        if segs[i].p_type == t {
            return one(Span::new(FileId::primary(), segs[i].offset, segs[i].filesz));
        }
        i += 1;
    }
    Vec::new()
}

fn one(span: Span) -> (r: Vec<Span>)
    ensures
        r@ == seq![span],
{
    let mut r: Vec<Span> = Vec::new();
    r.push(span);
    assert(r@ =~= seq![span]);
    r
}

fn plan_mapping(steps: &mut Vec<Step>, m: Mapping)
    ensures
        step_views(final(steps)@) == map_step(step_views(old(steps)@), m),
{
    match m.source {
        MapSource::FromFile(f) => {
            let mut text = "map ".to_string();
            text.append(text::dec_text(m.len).as_str());
            text.append(" bytes of the file at ");
            text.append(text::hex_text(m.vaddr).as_str());
            text.append(", ");
            text.append(m.prot.as_str());
            tell_effect(steps, Phase::Kernel, Actor::Kernel, text, one(f), Effect::Mapped(m));
        },
        MapSource::ZeroFill => {
            let mut text = "zero-fill ".to_string();
            text.append(text::dec_text(m.len).as_str());
            text.append(" bytes at ");
            text.append(text::hex_text(m.vaddr).as_str());
            text.append(": .bss, in no file");
            tell_effect(steps, Phase::Kernel, Actor::Kernel, text, Vec::new(), Effect::Mapped(m));
        },
    }
}

fn plan_kernel(f: &Summary, maps: &[Mapping]) -> (steps: Vec<Step>)
    ensures
        step_views(steps@) == kernel_steps(f@, maps@),
{
    let mut steps: Vec<Step> = Vec::new();
    let nothing: Vec<Effect> = Vec::new();
    assert(step_views(steps@) =~= Seq::<StepFacts>::empty());
    assert(effect_views(nothing@) =~= Seq::<EffectView>::empty());
    tell(
        &mut steps,
        Phase::Kernel,
        Actor::Kernel,
        "read the first page and check e_ident".to_string(),
        one(Span::new(FileId::primary(), 0, 16)),
        nothing,
    );
    if let Some(path) = &f.interp {
        let mut text = "PT_INTERP names ".to_string();
        text.append(path.as_str());
        text.append(": the program is dynamic");
        let nothing: Vec<Effect> = Vec::new();
        assert(effect_views(nothing@) =~= Seq::<EffectView>::empty());
        let reads = find_span(&f.segments, 3);
        tell(&mut steps, Phase::Kernel, Actor::Kernel, text, reads, nothing);
    }
    let ghost head = step_views(steps@);
    let mut i: usize = 0;
    while i < maps.len()
        invariant
            i <= maps@.len(),
            step_views(steps@) == map_steps(head, maps@, i as int),
        decreases maps.len() - i,
    {
        plan_mapping(&mut steps, maps[i]);
        i += 1;
    }
    tell_plain(
        &mut steps,
        Phase::Kernel,
        Actor::Kernel,
        "build the stack: argv, envp and the auxiliary vector",
    );
    if f.interp.is_some() {
        tell_plain(
            &mut steps,
            Phase::Kernel,
            Actor::Kernel,
            "jump to the interpreter's entry, not the program's own",
        );
    }
    steps
}

fn plan_interp(steps: &mut Vec<Step>, f: &Summary)
    ensures
        step_views(final(steps)@) == interp_steps(step_views(old(steps)@), f@),
{
    if f.interp.is_none() {
        return ;
    }
    tell_plain(
        steps,
        Phase::Interp,
        Actor::Interp,
        "ld.so relocates itself before it can touch a global",
    );
    if f.has_dynamic {
        let nothing: Vec<Effect> = Vec::new();
        assert(effect_views(nothing@) =~= Seq::<EffectView>::empty());
        let reads = find_span(&f.segments, 2);
        tell(
            steps,
            Phase::Interp,
            Actor::Interp,
            "read PT_DYNAMIC".to_string(),
            reads,
            nothing,
        );
    }
    let ghost head = step_views(steps@);
    let mut i: usize = 0;
    while i < f.needed.len()
        invariant
            i <= f.needed@.len(),
            step_views(steps@) == needed_steps(head, f@.needed, i as int),
        decreases f.needed.len() - i,
    {
        let mut text = "resolve DT_NEEDED ".to_string();
        text.append(f.needed[i].as_str());
        tell_plain(steps, Phase::Resolve, Actor::Interp, text.as_str());
        i += 1;
    }
    tell_plain(steps, Phase::Resolve, Actor::Interp, "build the global symbol scope");
}

fn relocator_of(f: &Summary) -> (r: Actor)
    ensures
        r == relocator(f@),
{
    if f.interp.is_some() {
        Actor::Interp
    } else {
        Actor::Program
    }
}

fn plan_reloc(steps: &mut Vec<Step>, r: &Reloc, actor: Actor)
    ensures
        step_views(final(steps)@) == reloc_step(step_views(old(steps)@), r@, actor),
{
    let mut cause = match elf::r_x86_64_name(r.r_type) {
        Some(n) => n.to_string(),
        None => {
            let mut n = "type ".to_string();
            n.append(text::dec_text(r.r_type as u64).as_str());
            n
        },
    };
    if let Some(name) = &r.symbol {
        cause.append(" ");
        cause.append(name.as_str());
    }
    let table: &'static str = match r.table {
        RelocTableKind::Rel => "DT_REL",
        RelocTableKind::Rela => "DT_RELA",
        RelocTableKind::Relr => "DT_RELR",
        RelocTableKind::JmpRel => "DT_JMPREL",
    };
    let mut text = table.to_string();
    text.append(": write ");
    text.append(text::hex_text(r.offset).as_str());
    text.append(", ");
    text.append(cause.as_str());
    let poke = Poke { addr: r.offset, len: 8, cause };
    tell_effect(steps, Phase::Relocate, actor, text, one(r.file_span), Effect::Write(poke));
}

fn plan_table(steps: &mut Vec<Step>, relocs: &Vec<Reloc>, table: RelocTableKind, actor: Actor)
    ensures
        step_views(final(steps)@) == table_steps(
            step_views(old(steps)@),
            crate::parse::reloc_views(relocs@),
            table,
            actor,
            relocs@.len() as int,
        ),
{
    let ghost head = step_views(steps@);
    let ghost all = crate::parse::reloc_views(relocs@);
    let mut i: usize = 0;
    while i < relocs.len()
        invariant
            i <= relocs@.len(),
            all == crate::parse::reloc_views(relocs@),
            step_views(steps@) == table_steps(head, all, table, actor, i as int),
        decreases relocs.len() - i,
    {
        assert(all[i as int] == relocs@[i as int]@);
        if relocs[i].table == table {
            plan_reloc(steps, &relocs[i], actor);
        }
        i += 1;
    }
}

/// The PLT relocations of a lazily bound object.
fn count_lazy(f: &Summary) -> (r: u64)
    ensures
        r == lazy_count(f@),
{
    if f.bind_now {
        return 0;
    }
    let ghost all = f@.relocs;
    let mut count: u64 = 0;
    let mut i: usize = 0;
    while i < f.relocs.len()
        invariant
            i <= f.relocs@.len(),
            all == f@.relocs,
            all.len() == f.relocs@.len(),
            count <= i,
            count == in_table(all, RelocTableKind::JmpRel, i as int),
        decreases f.relocs.len() - i,
    {
        assert(all[i as int] == f.relocs@[i as int]@);
        if f.relocs[i].table == RelocTableKind::JmpRel {
            count += 1;
        }
        i += 1;
    }
    count
}

fn plan_relocs(steps: &mut Vec<Step>, f: &Summary)
    ensures
        step_views(final(steps)@) == reloc_steps(step_views(old(steps)@), f@),
{
    let actor = relocator_of(f);
    plan_table(steps, &f.relocs, RelocTableKind::Relr, actor);
    plan_table(steps, &f.relocs, RelocTableKind::Rela, actor);
    plan_table(steps, &f.relocs, RelocTableKind::Rel, actor);
    let lazy: u64 = count_lazy(f);
    if f.bind_now {
        plan_table(steps, &f.relocs, RelocTableKind::JmpRel, actor);
    } else if lazy > 0 {
        let mut text = "DT_JMPREL: ".to_string();
        text.append(text::dec_text(lazy).as_str());
        text.append(" relocation(s) left alone, the object binds lazily");
        tell_plain(steps, Phase::Relocate, actor, text.as_str());
    }
}

fn plan_relro(steps: &mut Vec<Step>, seg: Segment, actor: Actor)
    ensures
        step_views(final(steps)@) == relro_step(step_views(old(steps)@), seg, actor),
{
    let start: u64 = model::round_down(seg.vaddr);
    let end: u64 = model::round_down(seg.vaddr.saturating_add(seg.memsz));
    if start < end {
        let mut text = "PT_GNU_RELRO: ".to_string();
        text.append(text::hex_text(start).as_str());
        text.append("..");
        text.append(text::hex_text(end).as_str());
        text.append(" becomes read-only");
        let effect = Effect::Protect {
            start,
            len: end - start,
            to: Prot { read: true, write: false, execute: false },
        };
        tell_effect(steps, Phase::Protect, actor, text, Vec::new(), effect);
    } else {
        tell_plain(
            steps,
            Phase::Protect,
            actor,
            "PT_GNU_RELRO covers no whole page: nothing is sealed",
        );
    }
}

fn plan_protect(steps: &mut Vec<Step>, f: &Summary)
    ensures
        step_views(final(steps)@) == relro_steps(
            step_views(old(steps)@),
            f@.segments,
            relocator(f@),
            f@.segments.len() as int,
        ),
{
    let actor = relocator_of(f);
    let ghost head = step_views(steps@);
    let mut i: usize = 0;
    while i < f.segments.len()
        invariant
            i <= f.segments@.len(),
            step_views(steps@) == relro_steps(head, f.segments@, actor, i as int),
        decreases f.segments.len() - i,
    {
        if f.segments[i].p_type == elf::PT_GNU_RELRO {
            plan_relro(steps, f.segments[i], actor);
        }
        i += 1;
    }
}

fn plan_end(steps: &mut Vec<Step>, f: &Summary)
    ensures
        step_views(final(steps)@) == final_steps(step_views(old(steps)@), f@),
{
    if let Some(a) = f.init {
        let mut text = "run DT_INIT at ".to_string();
        text.append(text::hex_text(a).as_str());
        tell_plain(steps, Phase::Init, Actor::Program, text.as_str());
    }
    if let Some((a, size)) = f.init_array {
        let mut text = "run ".to_string();
        text.append(text::dec_text(size / 8).as_str());
        text.append(" initialiser(s) of DT_INIT_ARRAY at ");
        text.append(text::hex_text(a).as_str());
        tell_plain(steps, Phase::Init, Actor::Program, text.as_str());
    }
    let mut text = "jump to the program's entry at ".to_string();
    text.append(text::hex_text(f.entry).as_str());
    tell_plain(steps, Phase::Entry, Actor::Program, text.as_str());
    let lazy: u64 = count_lazy(f);
    if lazy > 0 {
        let mut text = "each of the ".to_string();
        text.append(text::dec_text(lazy).as_str());
        text.append(" PLT symbol(s) is bound when it is first called");
        tell_plain(steps, Phase::Entry, relocator_of(f), text.as_str());
    }
}

impl Timeline {
    /// The steps.
    pub closed spec fn facts(&self) -> Seq<StepFacts> {
        step_views(self.steps@)
    }

    /// Derive the load of a file from its headers and its image.
    #[must_use]
    pub fn plan(summary: &Summary, image: &MemImage) -> (r: Timeline)
        ensures
            r.facts() == planned(summary@, image.maps()),
    {
        let mut steps = plan_kernel(summary, image.mappings());
        plan_interp(&mut steps, summary);
        plan_relocs(&mut steps, summary);
        plan_protect(&mut steps, summary);
        plan_end(&mut steps, summary);
        Timeline { steps }
    }

    #[must_use]
    pub fn steps(&self) -> (r: &[Step])
        ensures
            step_views(r@) == self.facts(),
    {
        self.steps.as_slice()
    }

    #[must_use]
    pub fn len(&self) -> (r: usize)
        ensures
            r == self.facts().len(),
    {
        self.steps.len()
    }

    #[must_use]
    pub fn is_empty(&self) -> (r: bool)
        ensures
            r == (self.facts().len() == 0),
    {
        self.steps.len() == 0
    }

    /// Memory after the steps up to and including step `n`; after all of them where there is
    /// no such step.
    #[must_use]
    pub fn state_at(&self, n: usize) -> (r: State)
        ensures
            r@ == after_steps(
                self.facts(),
                if n < self.facts().len() {
                    n + 1
                } else {
                    self.facts().len() as int
                },
            ),
    {
        let ghost all = self.facts();
        let stop: usize = if n < self.steps.len() {
            n + 1
        } else {
            self.steps.len()
        };
        let mut m = State::new();
        let mut i: usize = 0;
        while i < stop
            invariant
                i <= stop <= self.steps@.len(),
                all == self.facts(),
                m@ == after_steps(all, i as int),
            decreases stop - i,
        {
            assert(all[i as int] == self.steps@[i as int]@);
            apply(&mut m, &self.steps[i].effects);
            i += 1;
        }
        m
    }
}

/// Replays the effects of one step.
fn apply(m: &mut State, effects: &Vec<Effect>)
    ensures
        final(m)@ == after_effects(old(m)@, effect_views(effects@), effects@.len() as int),
{
    let ghost all = effect_views(effects@);
    let mut i: usize = 0;
    while i < effects.len()
        invariant
            i <= effects@.len(),
            all == effect_views(effects@),
            m@ == after_effects(old(m)@, all, i as int),
        decreases effects.len() - i,
    {
        let ghost was = m@;
        assert(all[i as int] == effects@[i as int]@);
        match &effects[i] {
            Effect::Mapped(x) => {
                m.mappings.push(*x);
                assert(m@ =~= after_effect(was, all[i as int]));
            },
            Effect::Protect { start, len, to } => {
                m.protect(*start, *len, *to);
            },
            Effect::Write(p) => {
                m.poked.push(p.copy());
                assert(m@ =~= after_effect(was, all[i as int]));
            },
        }
        i += 1;
    }
}

/// Memory after a step depends on that step and the ones before it alone: whatever comes
/// later, replaying up to a step gives the same memory.
pub proof fn law_state_depends_on_the_past_alone(s: Seq<StepFacts>, t: Seq<StepFacts>, n: int)
    requires
        0 <= n <= s.len(),
        n <= t.len(),
        s.take(n) == t.take(n),
    ensures
        after_steps(s, n) == after_steps(t, n),
    decreases n,
{
    if n > 0 {
        assert(s.take(n - 1) =~= s.take(n).take(n - 1));
        assert(t.take(n - 1) =~= t.take(n).take(n - 1));
        law_state_depends_on_the_past_alone(s, t, n - 1);
        assert(s[n - 1] == s.take(n)[n - 1]);
        assert(t[n - 1] == t.take(n)[n - 1]);
    }
}

/// The writes of all the steps of `s`.
pub open spec fn writes(s: Seq<StepFacts>) -> Seq<PokeView> {
    after_steps(s, s.len() as int).poked
}

/// The write that applying a relocation makes.
pub open spec fn reloc_write(r: RelocView) -> PokeView {
    PokeView {
        addr: r.offset,
        len: 8,
        cause: match r.symbol {
            Some(name) => layout::reloc_type_text(r.r_type) + " "@ + name,
            None => layout::reloc_type_text(r.r_type),
        },
    }
}

/// The writes of those of the first `n` relocations that are in `table`, in order.
pub open spec fn table_writes(relocs: Seq<RelocView>, table: RelocTableKind, n: int) -> Seq<
    PokeView,
>
    decreases n,
{
    if n <= 0 {
        Seq::empty()
    } else {
        let s = table_writes(relocs, table, n - 1);
        if relocs[n - 1].table == table {
            s.push(reloc_write(relocs[n - 1]))
        } else {
            s
        }
    }
}

/// The writes of a whole load: table by table, and nothing from the PLT of a lazily bound
/// object.
pub open spec fn startup_writes(f: SummaryView) -> Seq<PokeView> {
    let n = f.relocs.len() as int;
    let s = table_writes(f.relocs, RelocTableKind::Relr, n) + table_writes(
        f.relocs,
        RelocTableKind::Rela,
        n,
    ) + table_writes(f.relocs, RelocTableKind::Rel, n);
    if f.bind_now {
        s + table_writes(f.relocs, RelocTableKind::JmpRel, n)
    } else {
        s
    }
}

proof fn lemma_told_writes(s: Seq<StepFacts>, x: StepFacts)
    requires
        x.effects.len() <= 1,
    ensures
        writes(s.push(x)) == if x.effects.len() == 1 && x.effects[0] is Write {
            writes(s).push(x.effects[0]->Write_0)
        } else {
            writes(s)
        },
{
    let t = s.push(x);
    assert(t.take(s.len() as int) =~= s.take(s.len() as int));
    law_state_depends_on_the_past_alone(t, s, s.len() as int);
    reveal_with_fuel(after_effects, 2);
}

proof fn lemma_map_writes(s: Seq<StepFacts>, maps: Seq<Mapping>, n: int)
    requires
        0 <= n <= maps.len(),
    ensures
        writes(map_steps(s, maps, n)) == writes(s),
    decreases n,
{
    if n > 0 {
        lemma_map_writes(s, maps, n - 1);
        let before = map_steps(s, maps, n - 1);
        let after = map_steps(s, maps, n);
        lemma_told_writes(before, after.last());
        assert(after =~= before.push(after.last()));
    }
}

proof fn lemma_plain_writes(
    s: Seq<StepFacts>,
    phase: Phase,
    actor: Actor,
    narration: Seq<char>,
    reads: Seq<Span>,
)
    ensures
        writes(told(s, phase, actor, narration, reads, Seq::empty())) == writes(s),
{
    lemma_told_writes(s, told(s, phase, actor, narration, reads, Seq::empty()).last());
}

proof fn lemma_kernel_writes(f: SummaryView, maps: Seq<Mapping>)
    ensures
        writes(kernel_steps(f, maps)) == Seq::<PokeView>::empty(),
{
    let k = Phase::Kernel;
    let a = Actor::Kernel;
    let reads = seq![Span { file: FileId(0), start: 0, len: 16 }];
    let t0 = "read the first page and check e_ident"@;
    lemma_plain_writes(Seq::empty(), k, a, t0, reads);
    let s = told(Seq::empty(), k, a, t0, reads, Seq::empty());
    let s1 = match f.interp {
        Some(path) => {
            let t = "PT_INTERP names "@ + path + ": the program is dynamic"@;
            told(s, k, a, t, first_span(f.segments, 3), Seq::empty())
        },
        None => s,
    };
    if let Some(path) = f.interp {
        let t = "PT_INTERP names "@ + path + ": the program is dynamic"@;
        lemma_plain_writes(s, k, a, t, first_span(f.segments, 3));
    }
    lemma_map_writes(s1, maps, maps.len() as int);
    let s2 = map_steps(s1, maps, maps.len() as int);
    let t3 = "build the stack: argv, envp and the auxiliary vector"@;
    lemma_plain_writes(s2, k, a, t3, Seq::empty());
    let s3 = told(s2, k, a, t3, Seq::empty(), Seq::empty());
    let t4 = "jump to the interpreter's entry, not the program's own"@;
    lemma_plain_writes(s3, k, a, t4, Seq::empty());
}

proof fn lemma_needed_writes(s: Seq<StepFacts>, needed: Seq<Seq<char>>, n: int)
    requires
        0 <= n <= needed.len(),
    ensures
        writes(needed_steps(s, needed, n)) == writes(s),
    decreases n,
{
    if n > 0 {
        lemma_needed_writes(s, needed, n - 1);
        lemma_plain_writes(
            needed_steps(s, needed, n - 1),
            Phase::Resolve,
            Actor::Interp,
            "resolve DT_NEEDED "@ + needed[n - 1],
            Seq::empty(),
        );
    }
}

proof fn lemma_interp_writes(s: Seq<StepFacts>, f: SummaryView)
    ensures
        writes(interp_steps(s, f)) == writes(s),
{
    let a = Actor::Interp;
    let t0 = "ld.so relocates itself before it can touch a global"@;
    lemma_plain_writes(s, Phase::Interp, a, t0, Seq::empty());
    let s0 = told(s, Phase::Interp, a, t0, Seq::empty(), Seq::empty());
    let t1 = "read PT_DYNAMIC"@;
    lemma_plain_writes(s0, Phase::Interp, a, t1, first_span(f.segments, 2));
    let s1 = if f.has_dynamic {
        told(s0, Phase::Interp, a, t1, first_span(f.segments, 2), Seq::empty())
    } else {
        s0
    };
    lemma_needed_writes(s1, f.needed, f.needed.len() as int);
    let s2 = needed_steps(s1, f.needed, f.needed.len() as int);
    lemma_plain_writes(s2, Phase::Resolve, a, "build the global symbol scope"@, Seq::empty());
}

proof fn lemma_table_writes(
    s: Seq<StepFacts>,
    relocs: Seq<RelocView>,
    table: RelocTableKind,
    actor: Actor,
    n: int,
)
    requires
        0 <= n <= relocs.len(),
    ensures
        writes(table_steps(s, relocs, table, actor, n)) == writes(s) + table_writes(
            relocs,
            table,
            n,
        ),
    decreases n,
{
    if n > 0 {
        lemma_table_writes(s, relocs, table, actor, n - 1);
        let before = table_steps(s, relocs, table, actor, n - 1);
        let after = table_steps(s, relocs, table, actor, n);
        if relocs[n - 1].table == table {
            lemma_told_writes(before, after.last());
            assert(after =~= before.push(after.last()));
            assert(writes(after) =~= writes(s) + table_writes(relocs, table, n));
        }
    } else {
        assert(writes(s) =~= writes(s) + table_writes(relocs, table, n));
    }
}

proof fn lemma_relro_writes(s: Seq<StepFacts>, segs: Seq<Segment>, actor: Actor, n: int)
    requires
        0 <= n <= segs.len(),
    ensures
        writes(relro_steps(s, segs, actor, n)) == writes(s),
    decreases n,
{
    if n > 0 {
        lemma_relro_writes(s, segs, actor, n - 1);
        let before = relro_steps(s, segs, actor, n - 1);
        let after = relro_steps(s, segs, actor, n);
        if segs[n - 1].p_type == elf::PT_GNU_RELRO {
            lemma_told_writes(before, after.last());
            assert(after =~= before.push(after.last()));
        }
    }
}

proof fn lemma_final_writes(s: Seq<StepFacts>, f: SummaryView)
    ensures
        writes(final_steps(s, f)) == writes(s),
{
    let a = Actor::Program;
    let s1 = match f.init {
        Some(x) => told(
            s,
            Phase::Init,
            a,
            "run DT_INIT at "@ + text::hex(x as int),
            Seq::empty(),
            Seq::empty(),
        ),
        None => s,
    };
    if let Some(x) = f.init {
        let t = "run DT_INIT at "@ + text::hex(x as int);
        lemma_plain_writes(s, Phase::Init, a, t, Seq::empty());
    }
    let s2 = match f.init_array {
        Some((x, size)) => told(
            s1,
            Phase::Init,
            a,
            "run "@ + text::dec((size / 8) as int) + " initialiser(s) of DT_INIT_ARRAY at "@
                + text::hex(x as int),
            Seq::empty(),
            Seq::empty(),
        ),
        None => s1,
    };
    if let Some((x, size)) = f.init_array {
        let t = "run "@ + text::dec((size / 8) as int) + " initialiser(s) of DT_INIT_ARRAY at "@
            + text::hex(x as int);
        lemma_plain_writes(s1, Phase::Init, a, t, Seq::empty());
    }
    let t3 = "jump to the program's entry at "@ + text::hex(f.entry as int);
    lemma_plain_writes(s2, Phase::Entry, a, t3, Seq::empty());
    let s3 = told(s2, Phase::Entry, a, t3, Seq::empty(), Seq::empty());
    let t4 = "each of the "@ + text::dec(lazy_count(f) as int)
        + " PLT symbol(s) is bound when it is first called"@;
    lemma_plain_writes(s3, Phase::Entry, relocator(f), t4, Seq::empty());
}

/// The loader writes what the startup relocations ask for, table by table and once each, and
/// nothing else: under lazy binding the PLT relocations write nothing at all.
pub proof fn law_writes_are_the_startup_relocations(f: SummaryView, maps: Seq<Mapping>)
    ensures
        writes(planned(f, maps)) == startup_writes(f),
{
    let n = f.relocs.len() as int;
    let actor = relocator(f);
    lemma_kernel_writes(f, maps);
    let a = kernel_steps(f, maps);
    lemma_interp_writes(a, f);
    let b = interp_steps(a, f);
    lemma_table_writes(b, f.relocs, RelocTableKind::Relr, actor, n);
    let c = table_steps(b, f.relocs, RelocTableKind::Relr, actor, n);
    lemma_table_writes(c, f.relocs, RelocTableKind::Rela, actor, n);
    let d = table_steps(c, f.relocs, RelocTableKind::Rela, actor, n);
    lemma_table_writes(d, f.relocs, RelocTableKind::Rel, actor, n);
    let e = table_steps(d, f.relocs, RelocTableKind::Rel, actor, n);
    lemma_table_writes(e, f.relocs, RelocTableKind::JmpRel, actor, n);
    lemma_plain_writes(
        e,
        Phase::Relocate,
        actor,
        "DT_JMPREL: "@ + text::dec(lazy_count(f) as int)
            + " relocation(s) left alone, the object binds lazily"@,
        Seq::empty(),
    );
    let g = reloc_steps(b, f);
    lemma_relro_writes(g, f.segments, actor, f.segments.len() as int);
    let h = relro_steps(g, f.segments, actor, f.segments.len() as int);
    lemma_final_writes(h, f);
    assert(writes(g) =~= startup_writes(f));
}

/// How many of the first `n` relocations are applied at startup.
pub open spec fn startup_count(relocs: Seq<RelocView>, bind_now: bool, n: int) -> nat
    decreases n,
{
    if n <= 0 {
        0
    } else {
        startup_count(relocs, bind_now, n - 1) + if model::deferred(
            bind_now,
            relocs[n - 1].table,
        ) {
            0nat
        } else {
            1nat
        }
    }
}

proof fn lemma_startup_count(f: SummaryView, n: int)
    requires
        0 <= n <= f.relocs.len(),
    ensures
        startup_count(f.relocs, f.bind_now, n) == table_writes(
            f.relocs,
            RelocTableKind::Relr,
            n,
        ).len() + table_writes(f.relocs, RelocTableKind::Rela, n).len() + table_writes(
            f.relocs,
            RelocTableKind::Rel,
            n,
        ).len() + if f.bind_now {
            table_writes(f.relocs, RelocTableKind::JmpRel, n).len()
        } else {
            0
        },
    decreases n,
{
    if n > 0 {
        lemma_startup_count(f, n - 1);
    }
}

/// A load writes as many addresses as there are relocations that are not deferred.
pub proof fn law_each_startup_relocation_writes_once(f: SummaryView, maps: Seq<Mapping>)
    ensures
        writes(planned(f, maps)).len() == startup_count(
            f.relocs,
            f.bind_now,
            f.relocs.len() as int,
        ),
{
    law_writes_are_the_startup_relocations(f, maps);
    lemma_startup_count(f, f.relocs.len() as int);
}

/// RELRO seals whole pages only, and none past the end of its region: a region that stops
/// mid-page leaves that page writable, and one within a page seals nothing.
pub proof fn law_relro_rounds_down_at_both_ends(seg: Segment)
    ensures
        ({
            let (start, end) = relro_range(seg);
            &&& start % 4096 == 0
            &&& end % 4096 == 0
            &&& start <= seg.vaddr < start + 4096
            &&& end <= span::sat_add(seg.vaddr, seg.memsz) < end + 4096
            &&& seg.vaddr % 4096 + seg.memsz < 4096 ==> start == end
        }),
{
}

// The order of the load, and what each step may do.

/// Where a phase stands in a load.
pub open spec fn turn(p: Phase) -> int {
    match p {
        Phase::Kernel => 0,
        Phase::Interp => 1,
        Phase::Resolve => 2,
        Phase::Relocate => 3,
        Phase::Protect => 4,
        Phase::Init => 5,
        Phase::Entry => 6,
    }
}

/// The phases never go back.
pub open spec fn in_turn(s: Seq<StepFacts>) -> bool {
    forall|i: int, j: int|
        #![trigger s[i], s[j]]
        0 <= i < j < s.len() ==> turn(s[i].phase) <= turn(s[j].phase)
}

/// The mapping that a step makes is one of the image, and the step reads the bytes it maps.
pub open spec fn maps_one(x: StepFacts, maps: Seq<Mapping>) -> bool {
    x.effects[0] matches EffectView::Mapped(m) && maps.contains(m) && x.reads == match m.source {
        MapSource::FromFile(f) => seq![f],
        MapSource::ZeroFill => Seq::empty(),
    }
}

/// The write that a step makes is that of relocation `k`, which is not left to the first
/// call, and the step reads the entry that asked for it.
pub open spec fn applies(x: StepFacts, f: SummaryView, k: int) -> bool {
    &&& 0 <= k < f.relocs.len()
    &&& x.effects[0] matches EffectView::Write(p) && p.addr == f.relocs[k].offset && p.len == 8
    &&& x.reads == seq![f.relocs[k].file_span]
    &&& f.relocs[k].table == RelocTableKind::JmpRel ==> f.bind_now
}

/// The range that a step protects is what segment `k`, which is of the type of RELRO, has of
/// whole pages, its first one taken whole; and it is then read-only.
pub open spec fn seals(x: StepFacts, f: SummaryView, k: int) -> bool {
    &&& 0 <= k < f.segments.len()
    &&& f.segments[k].p_type == 0x6474_e552
    &&& x.effects[0] matches EffectView::Protect { start, len, to } && {
        let end = f.segments[k].vaddr + f.segments[k].memsz;
        &&& start == f.segments[k].vaddr / 4096 * 4096
        &&& start + len == (if end > u64::MAX {
            u64::MAX as int
        } else {
            end
        }) / 4096 * 4096
        &&& len > 0
        &&& to.read && !to.write && !to.execute
    }
}

/// What a step of each phase may do, and who acts in it.
pub open spec fn in_role(x: StepFacts, f: SummaryView, maps: Seq<Mapping>) -> bool {
    let idle = x.effects.len() == 0;
    let one = x.effects.len() == 1;
    match x.phase {
        Phase::Kernel => x.actor == Actor::Kernel && (idle || (one && maps_one(x, maps))),
        Phase::Interp => x.actor == Actor::Interp && f.interp is Some && idle,
        Phase::Resolve => x.actor == Actor::Interp && f.interp is Some && idle,
        Phase::Relocate => x.actor == (if f.interp is Some {
            Actor::Interp
        } else {
            Actor::Program
        }) && (idle || (one && exists|k: int| #[trigger] applies(x, f, k))),
        Phase::Protect => x.actor == (if f.interp is Some {
            Actor::Interp
        } else {
            Actor::Program
        }) && (idle || (one && exists|k: int| #[trigger] seals(x, f, k))),
        Phase::Init => x.actor == Actor::Program && idle,
        Phase::Entry => idle,
    }
}

/// The steps so far keep their turns and their roles, and none is later than `p`.
spec fn so_far(s: Seq<StepFacts>, f: SummaryView, maps: Seq<Mapping>, p: Phase) -> bool {
    &&& in_turn(s)
    &&& forall|i: int|
        0 <= i < s.len() ==> turn((#[trigger] s[i]).phase) <= turn(p) && in_role(s[i], f, maps)
            && s[i].n == layout::narrow(i)
}

proof fn lemma_step(s: Seq<StepFacts>, x: StepFacts, f: SummaryView, maps: Seq<Mapping>, p: Phase)
    requires
        so_far(s, f, maps, p),
        turn(p) <= turn(x.phase),
        in_role(x, f, maps),
        x.n == layout::narrow(s.len() as int),
    ensures
        so_far(s.push(x), f, maps, x.phase),
{
    let t = s.push(x);
    assert forall|i: int| 0 <= i < t.len() implies turn((#[trigger] t[i]).phase) <= turn(x.phase)
        && in_role(t[i], f, maps) && t[i].n == layout::narrow(i) by {
        if i < s.len() {
            assert(t[i] == s[i]);
        }
    }
    assert forall|i: int, j: int|
        #![trigger t[i], t[j]]
        0 <= i < j < t.len() implies turn(t[i].phase) <= turn(t[j].phase) by {
        assert(t[i] == s[i]);
        if j < s.len() {
            assert(t[j] == s[j]);
        }
    }
}

proof fn lemma_later(s: Seq<StepFacts>, f: SummaryView, maps: Seq<Mapping>, p: Phase, q: Phase)
    requires
        so_far(s, f, maps, p),
        turn(p) <= turn(q),
    ensures
        so_far(s, f, maps, q),
{
}

proof fn lemma_map_roles(s: Seq<StepFacts>, f: SummaryView, maps: Seq<Mapping>, n: int)
    requires
        so_far(s, f, maps, Phase::Kernel),
        0 <= n <= maps.len(),
    ensures
        so_far(map_steps(s, maps, n), f, maps, Phase::Kernel),
    decreases n,
{
    if n > 0 {
        lemma_map_roles(s, f, maps, n - 1);
        let before = map_steps(s, maps, n - 1);
        let after = map_steps(s, maps, n);
        assert(maps.contains(maps[n - 1]));
        lemma_step(before, after.last(), f, maps, Phase::Kernel);
        assert(after =~= before.push(after.last()));
    }
}

proof fn lemma_idle(
    s: Seq<StepFacts>,
    f: SummaryView,
    maps: Seq<Mapping>,
    p: Phase,
    q: Phase,
    actor: Actor,
    narration: Seq<char>,
    reads: Seq<Span>,
)
    requires
        so_far(s, f, maps, p),
        turn(p) <= turn(q),
        match q {
            Phase::Kernel => actor == Actor::Kernel,
            Phase::Interp => actor == Actor::Interp && f.interp is Some,
            Phase::Resolve => actor == Actor::Interp && f.interp is Some,
            Phase::Relocate => actor == relocator(f),
            Phase::Protect => actor == relocator(f),
            Phase::Init => actor == Actor::Program,
            Phase::Entry => true,
        },
    ensures
        so_far(told(s, q, actor, narration, reads, Seq::empty()), f, maps, q),
{
    lemma_step(s, told(s, q, actor, narration, reads, Seq::empty()).last(), f, maps, p);
}

proof fn lemma_kernel_roles(f: SummaryView, maps: Seq<Mapping>)
    ensures
        so_far(kernel_steps(f, maps), f, maps, Phase::Kernel),
{
    let k = Phase::Kernel;
    let a = Actor::Kernel;
    let reads = seq![Span { file: FileId(0), start: 0, len: 16 }];
    let t0 = "read the first page and check e_ident"@;
    let none = Seq::<StepFacts>::empty();
    assert(so_far(none, f, maps, k));
    lemma_idle(none, f, maps, k, k, a, t0, reads);
    let s = told(none, k, a, t0, reads, Seq::empty());
    let s1 = match f.interp {
        Some(path) => {
            let t = "PT_INTERP names "@ + path + ": the program is dynamic"@;
            told(s, k, a, t, first_span(f.segments, 3), Seq::empty())
        },
        None => s,
    };
    if let Some(path) = f.interp {
        let t = "PT_INTERP names "@ + path + ": the program is dynamic"@;
        lemma_idle(s, f, maps, k, k, a, t, first_span(f.segments, 3));
    }
    lemma_map_roles(s1, f, maps, maps.len() as int);
    let s2 = map_steps(s1, maps, maps.len() as int);
    let t3 = "build the stack: argv, envp and the auxiliary vector"@;
    lemma_idle(s2, f, maps, k, k, a, t3, Seq::empty());
    let s3 = told(s2, k, a, t3, Seq::empty(), Seq::empty());
    let t4 = "jump to the interpreter's entry, not the program's own"@;
    lemma_idle(s3, f, maps, k, k, a, t4, Seq::empty());
}

proof fn lemma_needed_roles(s: Seq<StepFacts>, f: SummaryView, maps: Seq<Mapping>, n: int)
    requires
        so_far(s, f, maps, Phase::Resolve),
        f.interp is Some,
        0 <= n <= f.needed.len(),
    ensures
        so_far(needed_steps(s, f.needed, n), f, maps, Phase::Resolve),
    decreases n,
{
    if n > 0 {
        lemma_needed_roles(s, f, maps, n - 1);
        let r = Phase::Resolve;
        let t = "resolve DT_NEEDED "@ + f.needed[n - 1];
        lemma_idle(
            needed_steps(s, f.needed, n - 1),
            f,
            maps,
            r,
            r,
            Actor::Interp,
            t,
            Seq::empty(),
        );
    }
}

proof fn lemma_interp_roles(s: Seq<StepFacts>, f: SummaryView, maps: Seq<Mapping>)
    requires
        so_far(s, f, maps, Phase::Kernel),
    ensures
        so_far(interp_steps(s, f), f, maps, Phase::Relocate),
{
    if f.interp is Some {
        let a = Actor::Interp;
        let p = Phase::Interp;
        let t0 = "ld.so relocates itself before it can touch a global"@;
        lemma_idle(s, f, maps, Phase::Kernel, p, a, t0, Seq::empty());
        let s0 = told(s, p, a, t0, Seq::empty(), Seq::empty());
        let t1 = "read PT_DYNAMIC"@;
        let s1 = if f.has_dynamic {
            told(s0, p, a, t1, first_span(f.segments, 2), Seq::empty())
        } else {
            s0
        };
        lemma_idle(s0, f, maps, p, p, a, t1, first_span(f.segments, 2));
        lemma_later(s1, f, maps, p, Phase::Resolve);
        lemma_needed_roles(s1, f, maps, f.needed.len() as int);
        let s2 = needed_steps(s1, f.needed, f.needed.len() as int);
        let t3 = "build the global symbol scope"@;
        let r = Phase::Resolve;
        lemma_idle(s2, f, maps, r, r, a, t3, Seq::empty());
        lemma_later(
            told(s2, r, a, t3, Seq::empty(), Seq::empty()),
            f,
            maps,
            r,
            Phase::Relocate,
        );
    } else {
        lemma_later(s, f, maps, Phase::Kernel, Phase::Relocate);
    }
}

proof fn lemma_table_roles(
    s: Seq<StepFacts>,
    f: SummaryView,
    maps: Seq<Mapping>,
    table: RelocTableKind,
    n: int,
)
    requires
        so_far(s, f, maps, Phase::Relocate),
        table == RelocTableKind::JmpRel ==> f.bind_now,
        0 <= n <= f.relocs.len(),
    ensures
        so_far(table_steps(s, f.relocs, table, relocator(f), n), f, maps, Phase::Relocate),
    decreases n,
{
    if n > 0 {
        lemma_table_roles(s, f, maps, table, n - 1);
        let before = table_steps(s, f.relocs, table, relocator(f), n - 1);
        let after = table_steps(s, f.relocs, table, relocator(f), n);
        if f.relocs[n - 1].table == table {
            assert(applies(after.last(), f, n - 1));
            lemma_step(before, after.last(), f, maps, Phase::Relocate);
            assert(after =~= before.push(after.last()));
        }
    }
}

proof fn lemma_reloc_roles(s: Seq<StepFacts>, f: SummaryView, maps: Seq<Mapping>)
    requires
        so_far(s, f, maps, Phase::Relocate),
    ensures
        so_far(reloc_steps(s, f), f, maps, Phase::Relocate),
{
    let n = f.relocs.len() as int;
    let a = relocator(f);
    lemma_table_roles(s, f, maps, RelocTableKind::Relr, n);
    let c = table_steps(s, f.relocs, RelocTableKind::Relr, a, n);
    lemma_table_roles(c, f, maps, RelocTableKind::Rela, n);
    let d = table_steps(c, f.relocs, RelocTableKind::Rela, a, n);
    lemma_table_roles(d, f, maps, RelocTableKind::Rel, n);
    let e = table_steps(d, f.relocs, RelocTableKind::Rel, a, n);
    if f.bind_now {
        lemma_table_roles(e, f, maps, RelocTableKind::JmpRel, n);
    } else {
        let t = "DT_JMPREL: "@ + text::dec(lazy_count(f) as int)
            + " relocation(s) left alone, the object binds lazily"@;
        lemma_idle(e, f, maps, Phase::Relocate, Phase::Relocate, a, t, Seq::empty());
    }
}

proof fn lemma_relro_roles(s: Seq<StepFacts>, f: SummaryView, maps: Seq<Mapping>, n: int)
    requires
        so_far(s, f, maps, Phase::Protect),
        0 <= n <= f.segments.len(),
    ensures
        so_far(relro_steps(s, f.segments, relocator(f), n), f, maps, Phase::Protect),
    decreases n,
{
    if n > 0 {
        lemma_relro_roles(s, f, maps, n - 1);
        let before = relro_steps(s, f.segments, relocator(f), n - 1);
        let after = relro_steps(s, f.segments, relocator(f), n);
        let seg = f.segments[n - 1];
        if seg.p_type == elf::PT_GNU_RELRO {
            let (start, end) = relro_range(seg);
            if start < end {
                assert(seals(after.last(), f, n - 1));
            }
            lemma_step(before, after.last(), f, maps, Phase::Protect);
            assert(after =~= before.push(after.last()));
        }
    }
}

proof fn lemma_final_roles(s: Seq<StepFacts>, f: SummaryView, maps: Seq<Mapping>)
    requires
        so_far(s, f, maps, Phase::Init),
    ensures
        so_far(final_steps(s, f), f, maps, Phase::Entry),
{
    let a = Actor::Program;
    let p = Phase::Init;
    let s1 = match f.init {
        Some(x) => told(
            s,
            p,
            a,
            "run DT_INIT at "@ + text::hex(x as int),
            Seq::empty(),
            Seq::empty(),
        ),
        None => s,
    };
    if let Some(x) = f.init {
        lemma_idle(s, f, maps, p, p, a, "run DT_INIT at "@ + text::hex(x as int), Seq::empty());
    }
    let s2 = match f.init_array {
        Some((x, size)) => told(
            s1,
            p,
            a,
            "run "@ + text::dec((size / 8) as int) + " initialiser(s) of DT_INIT_ARRAY at "@
                + text::hex(x as int),
            Seq::empty(),
            Seq::empty(),
        ),
        None => s1,
    };
    if let Some((x, size)) = f.init_array {
        let t = "run "@ + text::dec((size / 8) as int) + " initialiser(s) of DT_INIT_ARRAY at "@
            + text::hex(x as int);
        lemma_idle(s1, f, maps, p, p, a, t, Seq::empty());
    }
    let t3 = "jump to the program's entry at "@ + text::hex(f.entry as int);
    let e = Phase::Entry;
    lemma_idle(s2, f, maps, p, e, a, t3, Seq::empty());
    let s3 = told(s2, e, a, t3, Seq::empty(), Seq::empty());
    let t4 = "each of the "@ + text::dec(lazy_count(f) as int)
        + " PLT symbol(s) is bound when it is first called"@;
    lemma_idle(s3, f, maps, e, e, relocator(f), t4, Seq::empty());
}

/// A load goes kernel, interpreter, resolution, relocation, protection, initialisers, entry,
/// and never back; and in each phase only what belongs there is done, by who does it there.
pub proof fn law_phases_never_go_back(f: SummaryView, maps: Seq<Mapping>)
    ensures
        in_turn(planned(f, maps)),
        forall|i: int|
            0 <= i < planned(f, maps).len() ==> in_role(#[trigger] planned(f, maps)[i], f, maps)
                && planned(f, maps)[i].n == layout::narrow(i),
{
    lemma_kernel_roles(f, maps);
    let a = kernel_steps(f, maps);
    lemma_interp_roles(a, f, maps);
    let b = interp_steps(a, f);
    lemma_reloc_roles(b, f, maps);
    let c = reloc_steps(b, f);
    lemma_later(c, f, maps, Phase::Relocate, Phase::Protect);
    lemma_relro_roles(c, f, maps, f.segments.len() as int);
    let d = relro_steps(c, f.segments, relocator(f), f.segments.len() as int);
    lemma_later(d, f, maps, Phase::Protect, Phase::Init);
    lemma_final_roles(d, f, maps);
}

/// The loader writes through a page before it is sealed: no step that protects comes before
/// one that writes, and none that writes or protects before one that maps.
pub proof fn law_sealing_comes_after_writing(f: SummaryView, maps: Seq<Mapping>, i: int, j: int)
    requires
        0 <= i < j < planned(f, maps).len(),
        planned(f, maps)[i].effects.len() > 0,
        planned(f, maps)[j].effects.len() > 0,
    ensures
        ({
            let a = planned(f, maps)[i].effects[0];
            let b = planned(f, maps)[j].effects[0];
            &&& a is Protect ==> b is Protect
            &&& a is Write ==> !(b is Mapped)
        }),
{
    law_phases_never_go_back(f, maps);
    let x = planned(f, maps)[i];
    let y = planned(f, maps)[j];
    assert(in_role(x, f, maps) && in_role(y, f, maps));
    assert(turn(x.phase) <= turn(y.phase));
    if x.phase == Phase::Relocate {
        let k = choose|k: int| #[trigger] applies(x, f, k);
        assert(applies(x, f, k));
    }
    if y.phase == Phase::Relocate {
        let k = choose|k: int| #[trigger] applies(y, f, k);
        assert(applies(y, f, k));
    }
    if x.phase == Phase::Protect {
        let k = choose|k: int| #[trigger] seals(x, f, k);
        assert(seals(x, f, k));
    }
    if y.phase == Phase::Protect {
        let k = choose|k: int| #[trigger] seals(y, f, k);
        assert(seals(y, f, k));
    }
}

// What the steps of each phase are, taken together.

/// What the steps of phase `p` say, in order.
pub open spec fn said_in(s: Seq<StepFacts>, p: Phase) -> Seq<Seq<char>>
    decreases s.len(),
{
    if s.len() == 0 {
        Seq::empty()
    } else if s.last().phase == p {
        said_in(s.drop_last(), p).push(s.last().narration)
    } else {
        said_in(s.drop_last(), p)
    }
}

/// What the steps of phase `p` do to memory, in order.
pub open spec fn done_in(s: Seq<StepFacts>, p: Phase) -> Seq<EffectView>
    decreases s.len(),
{
    if s.len() == 0 {
        Seq::empty()
    } else if s.last().phase == p {
        done_in(s.drop_last(), p) + s.last().effects
    } else {
        done_in(s.drop_last(), p)
    }
}

proof fn lemma_told_in(
    s: Seq<StepFacts>,
    phase: Phase,
    actor: Actor,
    narration: Seq<char>,
    reads: Seq<Span>,
    effects: Seq<EffectView>,
    p: Phase,
)
    ensures
        ({
            let t = told(s, phase, actor, narration, reads, effects);
            &&& said_in(t, p) == if phase == p {
                said_in(s, p).push(narration)
            } else {
                said_in(s, p)
            }
            &&& done_in(t, p) == if phase == p {
                done_in(s, p) + effects
            } else {
                done_in(s, p)
            }
        }),
{
    let t = told(s, phase, actor, narration, reads, effects);
    assert(t.drop_last() =~= s);
}

proof fn lemma_nothing_done(s: Seq<EffectView>)
    ensures
        s + Seq::<EffectView>::empty() == s,
{
    assert(s + Seq::<EffectView>::empty() =~= s);
}

/// The mappings as effects.
pub open spec fn as_mapped(maps: Seq<Mapping>) -> Seq<EffectView> {
    maps.map_values(|m: Mapping| EffectView::Mapped(m))
}

proof fn lemma_map_does(s: Seq<StepFacts>, maps: Seq<Mapping>, n: int, p: Phase)
    requires
        0 <= n <= maps.len(),
    ensures
        done_in(map_steps(s, maps, n), p) == if p == Phase::Kernel {
            done_in(s, p) + as_mapped(maps.take(n))
        } else {
            done_in(s, p)
        },
        p != Phase::Kernel ==> said_in(map_steps(s, maps, n), p) == said_in(s, p),
    decreases n,
{
    if n > 0 {
        lemma_map_does(s, maps, n - 1, p);
        let before = map_steps(s, maps, n - 1);
        let after = map_steps(s, maps, n);
        let x = after.last();
        lemma_told_in(before, x.phase, x.actor, x.narration, x.reads, x.effects, p);
        assert(after =~= told(before, x.phase, x.actor, x.narration, x.reads, x.effects));
        assert(done_in(s, p) + as_mapped(maps.take(n)) =~= done_in(s, p) + as_mapped(
            maps.take(n - 1),
        ) + seq![EffectView::Mapped(maps[n - 1])]);
    } else {
        assert(done_in(s, p) + as_mapped(maps.take(0)) =~= done_in(s, p));
    }
}

proof fn lemma_kernel_does(f: SummaryView, maps: Seq<Mapping>, p: Phase)
    ensures
        done_in(kernel_steps(f, maps), p) == if p == Phase::Kernel {
            as_mapped(maps)
        } else {
            Seq::empty()
        },
        p != Phase::Kernel ==> said_in(kernel_steps(f, maps), p) == Seq::<Seq<char>>::empty(),
{
    let k = Phase::Kernel;
    let a = Actor::Kernel;
    let reads = seq![Span { file: FileId(0), start: 0, len: 16 }];
    let t0 = "read the first page and check e_ident"@;
    let none = Seq::<StepFacts>::empty();
    let idle = Seq::<EffectView>::empty();
    lemma_told_in(none, k, a, t0, reads, idle, p);
    let s = told(none, k, a, t0, reads, idle);
    lemma_nothing_done(done_in(none, p));
    let s1 = match f.interp {
        Some(path) => {
            let t = "PT_INTERP names "@ + path + ": the program is dynamic"@;
            told(s, k, a, t, first_span(f.segments, 3), idle)
        },
        None => s,
    };
    if let Some(path) = f.interp {
        let t = "PT_INTERP names "@ + path + ": the program is dynamic"@;
        lemma_told_in(s, k, a, t, first_span(f.segments, 3), idle, p);
        lemma_nothing_done(done_in(s, p));
    }
    let n = maps.len() as int;
    lemma_map_does(s1, maps, n, p);
    assert(maps.take(n) =~= maps);
    assert(Seq::<EffectView>::empty() + as_mapped(maps) =~= as_mapped(maps));
    let s2 = map_steps(s1, maps, n);
    let t3 = "build the stack: argv, envp and the auxiliary vector"@;
    lemma_told_in(s2, k, a, t3, Seq::empty(), idle, p);
    lemma_nothing_done(done_in(s2, p));
    let s3 = told(s2, k, a, t3, Seq::empty(), idle);
    let t4 = "jump to the interpreter's entry, not the program's own"@;
    lemma_told_in(s3, k, a, t4, Seq::empty(), idle, p);
    lemma_nothing_done(done_in(s3, p));
}

proof fn lemma_needed_says(s: Seq<StepFacts>, needed: Seq<Seq<char>>, n: int, p: Phase)
    requires
        0 <= n <= needed.len(),
    ensures
        done_in(needed_steps(s, needed, n), p) == done_in(s, p),
        said_in(needed_steps(s, needed, n), p) == if p == Phase::Resolve {
            said_in(s, p) + needed.take(n).map_values(
                |name: Seq<char>| "resolve DT_NEEDED "@ + name,
            )
        } else {
            said_in(s, p)
        },
    decreases n,
{
    let says = |name: Seq<char>| "resolve DT_NEEDED "@ + name;
    if n > 0 {
        lemma_needed_says(s, needed, n - 1, p);
        let before = needed_steps(s, needed, n - 1);
        let t = "resolve DT_NEEDED "@ + needed[n - 1];
        lemma_told_in(before, Phase::Resolve, Actor::Interp, t, Seq::empty(), Seq::empty(), p);
        lemma_nothing_done(done_in(before, p));
        assert(said_in(s, p) + needed.take(n).map_values(says) =~= (said_in(s, p) + needed.take(
            n - 1,
        ).map_values(says)).push(t));
    } else {
        assert(said_in(s, p) + needed.take(0).map_values(says) =~= said_in(s, p));
    }
}

/// What the interpreter says while it resolves.
pub open spec fn resolution(f: SummaryView) -> Seq<Seq<char>> {
    if f.interp is None {
        Seq::empty()
    } else {
        f.needed.map_values(|name: Seq<char>| "resolve DT_NEEDED "@ + name).push(
            "build the global symbol scope"@,
        )
    }
}

proof fn lemma_interp_says(s: Seq<StepFacts>, f: SummaryView, p: Phase)
    requires
        p != Phase::Interp,
    ensures
        done_in(interp_steps(s, f), p) == done_in(s, p),
        said_in(interp_steps(s, f), p) == if p == Phase::Resolve {
            said_in(s, p) + resolution(f)
        } else {
            said_in(s, p)
        },
{
    if f.interp is Some {
        let a = Actor::Interp;
        let i = Phase::Interp;
        let idle = Seq::<EffectView>::empty();
        let t0 = "ld.so relocates itself before it can touch a global"@;
        lemma_told_in(s, i, a, t0, Seq::empty(), idle, p);
        let s0 = told(s, i, a, t0, Seq::empty(), idle);
        let t1 = "read PT_DYNAMIC"@;
        lemma_told_in(s0, i, a, t1, first_span(f.segments, 2), idle, p);
        let s1 = if f.has_dynamic {
            told(s0, i, a, t1, first_span(f.segments, 2), idle)
        } else {
            s0
        };
        let n = f.needed.len() as int;
        lemma_needed_says(s1, f.needed, n, p);
        assert(f.needed.take(n) =~= f.needed);
        let s2 = needed_steps(s1, f.needed, n);
        let t3 = "build the global symbol scope"@;
        lemma_told_in(s2, Phase::Resolve, a, t3, Seq::empty(), idle, p);
        lemma_nothing_done(done_in(s2, p));
        let says = |name: Seq<char>| "resolve DT_NEEDED "@ + name;
        assert((said_in(s, p) + f.needed.map_values(says)).push(t3) =~= said_in(s, p)
            + resolution(f));
    } else {
        assert(said_in(s, p) + resolution(f) =~= said_in(s, p));
    }
}

proof fn lemma_table_does(
    s: Seq<StepFacts>,
    relocs: Seq<RelocView>,
    table: RelocTableKind,
    actor: Actor,
    n: int,
    p: Phase,
)
    requires
        p != Phase::Relocate,
    ensures
        done_in(table_steps(s, relocs, table, actor, n), p) == done_in(s, p),
        said_in(table_steps(s, relocs, table, actor, n), p) == said_in(s, p),
    decreases n,
{
    if n > 0 {
        lemma_table_does(s, relocs, table, actor, n - 1, p);
        let before = table_steps(s, relocs, table, actor, n - 1);
        let after = table_steps(s, relocs, table, actor, n);
        if relocs[n - 1].table == table {
            let x = after.last();
            lemma_told_in(before, x.phase, x.actor, x.narration, x.reads, x.effects, p);
            assert(after =~= told(before, x.phase, x.actor, x.narration, x.reads, x.effects));
        }
    }
}

proof fn lemma_reloc_does(s: Seq<StepFacts>, f: SummaryView, p: Phase)
    requires
        p != Phase::Relocate,
    ensures
        done_in(reloc_steps(s, f), p) == done_in(s, p),
        said_in(reloc_steps(s, f), p) == said_in(s, p),
{
    let n = f.relocs.len() as int;
    let a = relocator(f);
    lemma_table_does(s, f.relocs, RelocTableKind::Relr, a, n, p);
    let c = table_steps(s, f.relocs, RelocTableKind::Relr, a, n);
    lemma_table_does(c, f.relocs, RelocTableKind::Rela, a, n, p);
    let d = table_steps(c, f.relocs, RelocTableKind::Rela, a, n);
    lemma_table_does(d, f.relocs, RelocTableKind::Rel, a, n, p);
    let e = table_steps(d, f.relocs, RelocTableKind::Rel, a, n);
    lemma_table_does(e, f.relocs, RelocTableKind::JmpRel, a, n, p);
    let t = "DT_JMPREL: "@ + text::dec(lazy_count(f) as int)
        + " relocation(s) left alone, the object binds lazily"@;
    lemma_told_in(e, Phase::Relocate, a, t, Seq::empty(), Seq::empty(), p);
}

/// The whole pages that the RELRO segments among the first `n` cover, made read-only.
pub open spec fn sealed_pages(segs: Seq<Segment>, n: int) -> Seq<EffectView>
    decreases n,
{
    if n <= 0 {
        Seq::empty()
    } else {
        let from = segs[n - 1].vaddr / 4096 * 4096;
        let end = segs[n - 1].vaddr + segs[n - 1].memsz;
        let to = (if end > u64::MAX {
            u64::MAX as int
        } else {
            end
        }) / 4096 * 4096;
        if segs[n - 1].p_type == 0x6474_e552 && from < to {
            sealed_pages(segs, n - 1).push(
                EffectView::Protect {
                    start: from as u64,
                    len: (to - from) as u64,
                    to: Prot { read: true, write: false, execute: false },
                },
            )
        } else {
            sealed_pages(segs, n - 1)
        }
    }
}

proof fn lemma_relro_does(s: Seq<StepFacts>, segs: Seq<Segment>, actor: Actor, n: int, p: Phase)
    requires
        0 <= n <= segs.len(),
    ensures
        done_in(relro_steps(s, segs, actor, n), p) == if p == Phase::Protect {
            done_in(s, p) + sealed_pages(segs, n)
        } else {
            done_in(s, p)
        },
        p != Phase::Protect ==> said_in(relro_steps(s, segs, actor, n), p) == said_in(s, p),
    decreases n,
{
    if n > 0 {
        lemma_relro_does(s, segs, actor, n - 1, p);
        let before = relro_steps(s, segs, actor, n - 1);
        let after = relro_steps(s, segs, actor, n);
        if segs[n - 1].p_type == elf::PT_GNU_RELRO {
            let x = after.last();
            lemma_told_in(before, x.phase, x.actor, x.narration, x.reads, x.effects, p);
            assert(after =~= told(before, x.phase, x.actor, x.narration, x.reads, x.effects));
            lemma_nothing_done(done_in(before, p));
            let (start, end) = relro_range(segs[n - 1]);
            if start < end {
                assert(done_in(s, p) + sealed_pages(segs, n) =~= done_in(s, p) + sealed_pages(
                    segs,
                    n - 1,
                ) + x.effects);
            }
        }
    } else {
        assert(done_in(s, p) + sealed_pages(segs, 0) =~= done_in(s, p));
    }
}

/// What is said of the initialisers.
pub open spec fn initialisers(f: SummaryView) -> Seq<Seq<char>> {
    let a = match f.init {
        Some(x) => seq!["run DT_INIT at "@ + text::hex(x as int)],
        None => Seq::empty(),
    };
    let b = match f.init_array {
        Some((x, size)) => seq![
            "run "@ + text::dec((size / 8) as int) + " initialiser(s) of DT_INIT_ARRAY at "@
                + text::hex(x as int),
        ],
        None => Seq::empty(),
    };
    a + b
}

proof fn lemma_final_says(s: Seq<StepFacts>, f: SummaryView, p: Phase)
    requires
        said_in(s, Phase::Entry) == Seq::<Seq<char>>::empty(),
    ensures
        done_in(final_steps(s, f), p) == done_in(s, p),
        said_in(final_steps(s, f), p) == if p == Phase::Init {
            said_in(s, p) + initialisers(f)
        } else if p == Phase::Entry {
            said_in(final_steps(s, f), p)
        } else {
            said_in(s, p)
        },
        p == Phase::Entry ==> said_in(final_steps(s, f), p).len() > 0 && said_in(
            final_steps(s, f),
            p,
        )[0] == "jump to the program's entry at "@ + text::hex(f.entry as int),
{
    let a = Actor::Program;
    let i = Phase::Init;
    let e = Phase::Entry;
    let idle = Seq::<EffectView>::empty();
    let s1 = match f.init {
        Some(x) => told(s, i, a, "run DT_INIT at "@ + text::hex(x as int), Seq::empty(), idle),
        None => s,
    };
    if let Some(x) = f.init {
        lemma_told_in(s, i, a, "run DT_INIT at "@ + text::hex(x as int), Seq::empty(), idle, p);
        lemma_nothing_done(done_in(s, p));
    }
    let s2 = match f.init_array {
        Some((x, size)) => told(
            s1,
            i,
            a,
            "run "@ + text::dec((size / 8) as int) + " initialiser(s) of DT_INIT_ARRAY at "@
                + text::hex(x as int),
            Seq::empty(),
            idle,
        ),
        None => s1,
    };
    if let Some((x, size)) = f.init_array {
        let t = "run "@ + text::dec((size / 8) as int) + " initialiser(s) of DT_INIT_ARRAY at "@
            + text::hex(x as int);
        lemma_told_in(s1, i, a, t, Seq::empty(), idle, p);
        lemma_nothing_done(done_in(s1, p));
    }
    if p == i {
        assert(said_in(s2, p) =~= said_in(s, p) + initialisers(f));
    }
    let t3 = "jump to the program's entry at "@ + text::hex(f.entry as int);
    lemma_told_in(s2, e, a, t3, Seq::empty(), idle, p);
    lemma_nothing_done(done_in(s2, p));
    let s3 = told(s2, e, a, t3, Seq::empty(), idle);
    let t4 = "each of the "@ + text::dec(lazy_count(f) as int)
        + " PLT symbol(s) is bound when it is first called"@;
    lemma_told_in(s3, e, relocator(f), t4, Seq::empty(), idle, p);
    lemma_nothing_done(done_in(s3, p));
}

/// Nothing of a load is left out: the kernel makes every mapping of the image, in order; each
/// needed library is resolved, in order; every RELRO segment is sealed as far as it covers
/// whole pages; the initialisers that there are run; and the program is then entered where
/// its header says.
pub proof fn law_a_load_is_complete(f: SummaryView, maps: Seq<Mapping>)
    ensures
        ({
            let s = planned(f, maps);
            &&& done_in(s, Phase::Kernel) == as_mapped(maps)
            &&& said_in(s, Phase::Resolve) == resolution(f)
            &&& done_in(s, Phase::Protect) == sealed_pages(f.segments, f.segments.len() as int)
            &&& said_in(s, Phase::Init) == initialisers(f)
            &&& said_in(s, Phase::Entry).len() > 0
            &&& said_in(s, Phase::Entry)[0] == "jump to the program's entry at "@ + text::hex(
                f.entry as int,
            )
        }),
{
    lemma_phase(f, maps, Phase::Kernel);
    lemma_phase(f, maps, Phase::Resolve);
    lemma_phase(f, maps, Phase::Protect);
    lemma_phase(f, maps, Phase::Init);
    lemma_phase(f, maps, Phase::Entry);
}

proof fn lemma_phase(f: SummaryView, maps: Seq<Mapping>, p: Phase)
    requires
        p != Phase::Interp && p != Phase::Relocate,
    ensures
        ({
            let s = planned(f, maps);
            &&& p == Phase::Kernel ==> done_in(s, p) == as_mapped(maps)
            &&& p == Phase::Resolve ==> said_in(s, p) == resolution(f)
            &&& p == Phase::Protect ==> done_in(s, p) == sealed_pages(
                f.segments,
                f.segments.len() as int,
            )
            &&& p == Phase::Init ==> said_in(s, p) == initialisers(f)
            &&& p == Phase::Entry ==> said_in(s, p).len() > 0 && said_in(s, p)[0]
                == "jump to the program's entry at "@ + text::hex(f.entry as int)
        }),
{
    let n = f.segments.len() as int;
    let a = kernel_steps(f, maps);
    let b = interp_steps(a, f);
    let c = reloc_steps(b, f);
    let d = relro_steps(c, f.segments, relocator(f), n);
    lemma_kernel_does(f, maps, p);
    lemma_interp_says(a, f, p);
    lemma_reloc_does(b, f, p);
    lemma_relro_does(c, f.segments, relocator(f), n, p);
    let e = Phase::Entry;
    lemma_kernel_does(f, maps, e);
    lemma_interp_says(a, f, e);
    lemma_reloc_does(b, f, e);
    lemma_relro_does(c, f.segments, relocator(f), n, e);
    lemma_final_says(d, f, p);
    assert(Seq::<Seq<char>>::empty() + resolution(f) =~= resolution(f));
    assert(Seq::<Seq<char>>::empty() + initialisers(f) =~= initialisers(f));
    assert(Seq::<EffectView>::empty() + sealed_pages(f.segments, n) =~= sealed_pages(
        f.segments,
        n,
    ));
}

/// The loader applies this relocation before the program runs: it is not for the PLT, or the
/// object is bound at once.
pub open spec fn applied_at_start(f: SummaryView, i: int) -> bool {
    0 <= i < f.relocs.len() && (f.relocs[i].table != RelocTableKind::JmpRel || f.bind_now)
}

/// The write is that of relocation `i`: eight bytes at its address.
pub open spec fn writes_for(w: PokeView, relocs: Seq<RelocView>, i: int) -> bool {
    0 <= i < relocs.len() && w.addr == relocs[i].offset && w.len == 8
}

proof fn lemma_table_write(relocs: Seq<RelocView>, table: RelocTableKind, n: int)
    requires
        0 <= n <= relocs.len(),
    ensures
        ({
            let w = table_writes(relocs, table, n);
            &&& forall|k: int|
                0 <= k < w.len() ==> written_from(#[trigger] w[k], relocs, table, n)
            &&& forall|i: int|
                0 <= i < n && (#[trigger] relocs[i]).table == table ==> is_written(w, relocs, i)
        }),
    decreases n,
{
    if n > 0 {
        lemma_table_write(relocs, table, n - 1);
        let before = table_writes(relocs, table, n - 1);
        let w = table_writes(relocs, table, n);
        assert forall|k: int| 0 <= k < w.len() implies written_from(
            #[trigger] w[k],
            relocs,
            table,
            n,
        ) by {
            if k < before.len() {
                assert(written_from(before[k], relocs, table, n - 1));
                let i = choose|i: int|
                    0 <= i < n - 1 && (#[trigger] relocs[i]).table == table && writes_for(
                        before[k],
                        relocs,
                        i,
                    );
                assert(relocs[i].table == table && writes_for(w[k], relocs, i));
            } else {
                assert(relocs[n - 1].table == table && writes_for(w[k], relocs, n - 1));
            }
        }
        assert forall|i: int| 0 <= i < n && (#[trigger] relocs[i]).table == table implies is_written(
            w,
            relocs,
            i,
        ) by {
            if i < n - 1 {
                assert(is_written(before, relocs, i));
                let k = choose|k: int|
                    0 <= k < before.len() && writes_for(#[trigger] before[k], relocs, i);
                assert(writes_for(w[k], relocs, i));
            } else {
                assert(writes_for(w[before.len() as int], relocs, i));
            }
        }
    }
}

/// One of the first `n` relocations of the table makes this write.
spec fn written_from(
    w: PokeView,
    relocs: Seq<RelocView>,
    table: RelocTableKind,
    n: int,
) -> bool {
    exists|i: int|
        0 <= i < n && (#[trigger] relocs[i]).table == table && writes_for(w, relocs, i)
}

/// One of the writes is that of relocation `i`.
pub open spec fn is_written(w: Seq<PokeView>, relocs: Seq<RelocView>, i: int) -> bool {
    exists|k: int| 0 <= k < w.len() && writes_for(#[trigger] w[k], relocs, i)
}

/// Some relocation that is applied at the start makes this write.
pub open spec fn is_called_for(w: PokeView, f: SummaryView) -> bool {
    exists|i: int| #[trigger] applied_at_start(f, i) && writes_for(w, f.relocs, i)
}

proof fn lemma_written_called(f: SummaryView, table: RelocTableKind, w: PokeView)
    requires
        written_from(w, f.relocs, table, f.relocs.len() as int),
        table != RelocTableKind::JmpRel || f.bind_now,
    ensures
        is_called_for(w, f),
{
    let i = choose|i: int|
        0 <= i < f.relocs.len() && (#[trigger] f.relocs[i]).table == table && writes_for(
            w,
            f.relocs,
            i,
        );
    assert(applied_at_start(f, i));
}

/// A load writes eight bytes at the address of every relocation that is applied before the
/// program runs, and writes nowhere else. The relocations of the PLT are among them exactly
/// where the object is bound at once.
pub proof fn law_a_load_writes_where_relocations_ask(f: SummaryView, maps: Seq<Mapping>)
    ensures
        ({
            let w = writes(planned(f, maps));
            &&& forall|k: int| 0 <= k < w.len() ==> is_called_for(#[trigger] w[k], f)
            &&& forall|i: int| #[trigger] applied_at_start(f, i) ==> is_written(w, f.relocs, i)
        }),
{
    let n = f.relocs.len() as int;
    law_writes_are_the_startup_relocations(f, maps);
    let w = writes(planned(f, maps));
    let a = table_writes(f.relocs, RelocTableKind::Relr, n);
    let b = table_writes(f.relocs, RelocTableKind::Rela, n);
    let c = table_writes(f.relocs, RelocTableKind::Rel, n);
    let d = table_writes(f.relocs, RelocTableKind::JmpRel, n);
    lemma_table_write(f.relocs, RelocTableKind::Relr, n);
    lemma_table_write(f.relocs, RelocTableKind::Rela, n);
    lemma_table_write(f.relocs, RelocTableKind::Rel, n);
    lemma_table_write(f.relocs, RelocTableKind::JmpRel, n);
    assert forall|k: int| 0 <= k < w.len() implies is_called_for(#[trigger] w[k], f) by {
        if k < a.len() {
            assert(w[k] == a[k]);
            lemma_written_called(f, RelocTableKind::Relr, a[k]);
        } else if k < a.len() + b.len() {
            assert(w[k] == b[k - a.len()]);
            lemma_written_called(f, RelocTableKind::Rela, b[k - a.len()]);
        } else if k < a.len() + b.len() + c.len() {
            assert(w[k] == c[k - a.len() - b.len()]);
            lemma_written_called(f, RelocTableKind::Rel, c[k - a.len() - b.len()]);
        } else {
            assert(w[k] == d[k - a.len() - b.len() - c.len()]);
            lemma_written_called(
                f,
                RelocTableKind::JmpRel,
                d[k - a.len() - b.len() - c.len()],
            );
        }
    }
    assert forall|i: int| #[trigger] applied_at_start(f, i) implies is_written(w, f.relocs, i) by {
        match f.relocs[i].table {
            RelocTableKind::Relr => {
                assert(is_written(a, f.relocs, i));
                let k = choose|k: int|
                    0 <= k < a.len() && writes_for(#[trigger] a[k], f.relocs, i);
                assert(writes_for(w[k], f.relocs, i));
            },
            RelocTableKind::Rela => {
                assert(is_written(b, f.relocs, i));
                let k = choose|k: int|
                    0 <= k < b.len() && writes_for(#[trigger] b[k], f.relocs, i);
                assert(writes_for(w[a.len() + k], f.relocs, i));
            },
            RelocTableKind::Rel => {
                assert(is_written(c, f.relocs, i));
                let k = choose|k: int|
                    0 <= k < c.len() && writes_for(#[trigger] c[k], f.relocs, i);
                assert(writes_for(w[a.len() + b.len() + k], f.relocs, i));
            },
            RelocTableKind::JmpRel => {
                assert(is_written(d, f.relocs, i));
                let k = choose|k: int|
                    0 <= k < d.len() && writes_for(#[trigger] d[k], f.relocs, i);
                assert(writes_for(w[a.len() + b.len() + c.len() + k], f.relocs, i));
            },
        }
    }
}

} // verus!
