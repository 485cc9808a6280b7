//! Observed mode: what a real loader did.
//!
//! A hand-written loader animation is a blog post with a `<canvas>`. This is the other half
//! of that argument: a real load, read back, so the model has ground truth to be checked
//! against.
//!
//! Two sources, both already present on any Linux box with glibc:
//!
//! - **`LD_DEBUG=all`**, which is glibc narrating its own work: dependency resolution,
//!   search paths tried, link maps, scope construction, relocation order, symbol binding,
//!   and initialiser order.
//! - **gdb**, stopped twice: at the interpreter's first instruction (the kernel's work,
//!   finished; the loader's, not started) and at the program's entry (the loader's work,
//!   finished). The difference between those two snapshots *is* the dynamic linker.

use vstd::prelude::*;

use crate::layout;
use crate::scan;
use crate::text;

verus! {

#[derive(Clone, PartialEq, Eq, Debug)]
pub enum TraceError {
    Spawn { what: &'static str, detail: String },
    NoOutput { what: &'static str },
}

impl TraceError {
    /// The error in words.
    pub open spec fn text(&self) -> Seq<char> {
        match self {
            Self::Spawn { what, detail } => "could not run "@ + what@ + ": "@ + detail@,
            Self::NoOutput { what } => what@ + " produced no usable output"@,
        }
    }

    /// The error in words.
    pub fn to_text(&self) -> (r: String)
        ensures
            r@ == self.text(),
    {
        match self {
            Self::Spawn { what, detail } => {
                let mut r = "could not run ".to_string();
                r.append(*what);
                r.append(": ");
                r.append(detail.as_str());
                r
            },
            Self::NoOutput { what } => {
                let mut r = (*what).to_string();
                r.append(" produced no usable output");
                r
            },
        }
    }
}

/// Which part of the load a step belongs to.
#[derive(Clone, Copy, PartialEq, Eq, PartialOrd, Ord, Debug, Structural)]
pub enum Phase {
    Resolve,
    Mapping,
    Scope,
    Relocate,
    Init,
    Entry,
    Fini,
}

impl Phase {
    pub open spec fn spec_str(self) -> &'static str {
        match self {
            Self::Resolve => "resolve",
            Self::Mapping => "map",
            Self::Scope => "scope",
            Self::Relocate => "relocate",
            Self::Init => "init",
            Self::Entry => "entry",
            Self::Fini => "fini",
        }
    }

    #[must_use]
    pub fn as_str(self) -> (r: &'static str)
        ensures
            r == self.spec_str(),
    {
        match self {
            Self::Resolve => "resolve",
            Self::Mapping => "map",
            Self::Scope => "scope",
            Self::Relocate => "relocate",
            Self::Init => "init",
            Self::Entry => "entry",
            Self::Fini => "fini",
        }
    }
}

#[allow(inconsistent_fields)]
#[derive(Clone, PartialEq, Eq, Debug)]
pub enum StepKind {
    /// `DT_NEEDED` seen: `file` is wanted by `needed_by`.
    Needed { file: String, needed_by: String },
    /// The search for a library, in the order the paths were tried.
    Search { library: String, tried: Vec<String> },
    /// A link map was built: the loader now knows where the object lives.
    LinkMap { file: String, base: u64, entry: u64, phnum: u32 },
    /// The symbol lookup order for one object. First definition wins.
    Scope { object: String, order: Vec<String> },
    /// Relocations applied to one object. The loader says when it leaves the PLT for later.
    Relocate { object: String, lazy: bool },
    /// One symbol resolved: `symbol` in `from` bound to a definition in `to`.
    Bind { from: String, to: String, symbol: String },
    Init { object: String },
    InitializeProgram { object: String },
    TransferControl { object: String },
    Fini { object: String },
}

/// A [`StepKind`] with its texts as character sequences.
#[allow(inconsistent_fields)]
pub enum StepKindView {
    Needed { file: Seq<char>, needed_by: Seq<char> },
    Search { library: Seq<char>, tried: Seq<Seq<char>> },
    LinkMap { file: Seq<char>, base: u64, entry: u64, phnum: u32 },
    Scope { object: Seq<char>, order: Seq<Seq<char>> },
    Relocate { object: Seq<char>, lazy: bool },
    Bind { from: Seq<char>, to: Seq<char>, symbol: Seq<char> },
    Init { object: Seq<char> },
    InitializeProgram { object: Seq<char> },
    TransferControl { object: Seq<char> },
    Fini { object: Seq<char> },
}

impl View for StepKind {
    type V = StepKindView;

    open spec fn view(&self) -> StepKindView {
        match self {
            Self::Needed { file, needed_by } => StepKindView::Needed {
                file: file@,
                needed_by: needed_by@,
            },
            Self::Search { library, tried } => StepKindView::Search {
                library: library@,
                tried: text::views(tried@),
            },
            Self::LinkMap { file, base, entry, phnum } => StepKindView::LinkMap {
                file: file@,
                base: *base,
                entry: *entry,
                phnum: *phnum,
            },
            Self::Scope { object, order } => StepKindView::Scope {
                object: object@,
                order: text::views(order@),
            },
            Self::Relocate { object, lazy } => StepKindView::Relocate {
                object: object@,
                lazy: *lazy,
            },
            Self::Bind { from, to, symbol } => StepKindView::Bind {
                from: from@,
                to: to@,
                symbol: symbol@,
            },
            Self::Init { object } => StepKindView::Init { object: object@ },
            Self::InitializeProgram { object } => StepKindView::InitializeProgram {
                object: object@,
            },
            Self::TransferControl { object } => StepKindView::TransferControl { object: object@ },
            Self::Fini { object } => StepKindView::Fini { object: object@ },
        }
    }
}

impl StepKindView {
    pub open spec fn phase(self) -> Phase {
        match self {
            Self::Needed { .. } => Phase::Resolve,
            Self::Search { .. } => Phase::Resolve,
            Self::LinkMap { .. } => Phase::Mapping,
            Self::Scope { .. } => Phase::Scope,
            Self::Relocate { .. } => Phase::Relocate,
            Self::Bind { .. } => Phase::Relocate,
            Self::Init { .. } => Phase::Init,
            Self::InitializeProgram { .. } => Phase::Init,
            Self::TransferControl { .. } => Phase::Entry,
            Self::Fini { .. } => Phase::Fini,
        }
    }

    pub open spec fn tag(self) -> &'static str {
        match self {
            Self::Needed { .. } => "needed",
            Self::Search { .. } => "search",
            Self::LinkMap { .. } => "link-map",
            Self::Scope { .. } => "scope",
            Self::Relocate { .. } => "relocate",
            Self::Bind { .. } => "bind",
            Self::Init { .. } => "init",
            Self::InitializeProgram { .. } => "initialize-program",
            Self::TransferControl { .. } => "transfer-control",
            Self::Fini { .. } => "fini",
        }
    }
}

impl StepKind {
    #[must_use]
    pub fn phase(&self) -> (r: Phase)
        ensures
            r == self@.phase(),
    {
        match self {
            Self::Needed { .. } => Phase::Resolve,
            Self::Search { .. } => Phase::Resolve,
            Self::LinkMap { .. } => Phase::Mapping,
            Self::Scope { .. } => Phase::Scope,
            Self::Relocate { .. } => Phase::Relocate,
            Self::Bind { .. } => Phase::Relocate,
            Self::Init { .. } => Phase::Init,
            Self::InitializeProgram { .. } => Phase::Init,
            Self::TransferControl { .. } => Phase::Entry,
            Self::Fini { .. } => Phase::Fini,
        }
    }

    #[must_use]
    pub fn tag(&self) -> (r: &'static str)
        ensures
            r == self@.tag(),
    {
        match self {
            Self::Needed { .. } => "needed",
            Self::Search { .. } => "search",
            Self::LinkMap { .. } => "link-map",
            Self::Scope { .. } => "scope",
            Self::Relocate { .. } => "relocate",
            Self::Bind { .. } => "bind",
            Self::Init { .. } => "init",
            Self::InitializeProgram { .. } => "initialize-program",
            Self::TransferControl { .. } => "transfer-control",
            Self::Fini { .. } => "fini",
        }
    }
}

#[derive(Clone, PartialEq, Eq, Debug)]
pub struct Step {
    pub n: u32,
    pub kind: StepKind,
}

/// The kinds of the steps, in order.
pub open spec fn kinds(s: Seq<Step>) -> Seq<StepKindView> {
    s.map_values(|x: Step| x.kind@)
}

/// The kinds as views.
pub open spec fn kind_views(s: Seq<StepKind>) -> Seq<StepKindView> {
    s.map_values(|x: StepKind| x@)
}

// One line of `LD_DEBUG=all`.

/// What a line says, without the process id in front of it.
pub open spec fn content(raw: Seq<char>) -> Seq<char> {
    match scan::cut_at(raw, ":\t"@) {
        Some((_, rest)) => rest,
        None => scan::trimmed(raw),
    }
}

/// What follows the first `pat`, trimmed.
pub open spec fn after(s: Seq<char>, pat: Seq<char>) -> Option<Seq<char>> {
    match scan::cut_at(s, pat) {
        Some((_, rest)) => Some(scan::trimmed(rest)),
        None => None,
    }
}

/// A name without glibc's `[0]` namespace suffix and any trailing punctuation.
pub open spec fn object_name(s: Seq<char>) -> Seq<char> {
    scan::trimmed(scan::up_to(scan::without_end(scan::trimmed(s), ';'), " ["@))
}

/// The name in a relocation line, without the mark of lazy binding.
pub open spec fn eager_name(s: Seq<char>) -> Seq<char> {
    if text::ends(s, " (lazy)"@) {
        s.take(s.len() - 7)
    } else {
        s
    }
}

/// A hexadecimal number, with or without its prefix.
pub open spec fn hex(s: Seq<char>) -> Option<u64> {
    match scan::parsed(
        scan::without_start(scan::trimmed(s), "0x"@),
        16,
        u64::MAX as int,
    ) {
        Some(v) => Some(v as u64),
        None => None,
    }
}

/// The hexadecimal number that `s` starts with, or 0.
pub open spec fn leading_hex(s: Seq<char>) -> u64 {
    let w = scan::words(s);
    match hex(
        if w.len() > 0 {
            w[0]
        } else {
            Seq::empty()
        },
    ) {
        Some(v) => v,
        None => 0,
    }
}

/// The number of program headers at the end of a line, or 0.
pub open spec fn trailing_phnum(s: Seq<char>) -> u32 {
    match scan::past_last(s, "phnum:"@) {
        Some(v) => match scan::parsed(scan::trimmed(v), 10, u32::MAX as int) {
            Some(n) => n as u32,
            None => 0,
        },
        None => 0,
    }
}

/// What a line is about.
#[allow(inconsistent_fields)]
pub enum LineView {
    Blank,
    /// A search begins.
    Find(Seq<char>),
    /// A place was tried.
    Tried(Seq<char>),
    /// A step that is complete on its own line.
    Whole(StepKindView),
    /// A link map is announced for this file.
    Announced(Seq<char>),
    /// The base of the announced link map.
    Base(u64),
    /// The rest of the last link map.
    Rest(u64, u32),
    /// The scope of this object follows.
    ScopeOf(Seq<char>),
    /// Objects in scope, in order.
    InScope(Seq<Seq<char>>),
    /// Nothing of interest: the format is undocumented and unstable.
    Other,
}

/// What the symbol line says, where it is one.
pub open spec fn binding(t: Seq<char>) -> Option<StepKindView> {
    if text::stands_at(t, "binding file "@, 0) {
        match scan::cut_at(t.skip("binding file "@.len() as int), " to "@) {
            Some((from, rest)) => match scan::cut_at(rest, ": normal symbol `"@) {
                Some((to, symbol)) => Some(
                    StepKindView::Bind {
                        from: object_name(from),
                        to: object_name(to),
                        symbol: scan::up_to(symbol, "'"@),
                    },
                ),
                None => None,
            },
            None => None,
        }
    } else {
        None
    }
}

/// What the scope line lists, where it is one.
pub open spec fn scope_list(t: Seq<char>) -> Option<Seq<Seq<char>>> {
    if text::stands_at(t, "scope "@, 0) {
        match scan::cut_at(t.skip("scope "@.len() as int), ":"@) {
            Some((_, list)) => Some(scan::words(list)),
            None => None,
        }
    } else {
        None
    }
}

/// The last few kinds of line: what is run, in order.
pub open spec fn running(t: Seq<char>) -> LineView {
    if let Some(rest) = after(t, "calling init:"@) {
        LineView::Whole(StepKindView::Init { object: object_name(rest) })
    } else if let Some(rest) = after(t, "initialize program:"@) {
        LineView::Whole(StepKindView::InitializeProgram { object: object_name(rest) })
    } else if let Some(rest) = after(t, "transferring control:"@) {
        LineView::Whole(StepKindView::TransferControl { object: object_name(rest) })
    } else if let Some(rest) = after(t, "calling fini:"@) {
        LineView::Whole(StepKindView::Fini { object: object_name(rest) })
    } else {
        LineView::Other
    }
}

/// The lines about scopes, relocation and binding, and what is run.
pub open spec fn late_line(t: Seq<char>, scoping: bool) -> LineView {
    if let Some(rest) = after(t, "object="@) {
        LineView::ScopeOf(object_name(rest))
    } else if scoping && scope_list(t) is Some {
        LineView::InScope(scope_list(t)->0)
    } else if let Some(rest) = after(t, "relocation processing:"@) {
        let name = object_name(rest);
        LineView::Whole(
            StepKindView::Relocate {
                object: eager_name(name),
                lazy: text::ends(name, " (lazy)"@),
            },
        )
    } else if let Some(kind) = binding(t) {
        LineView::Whole(kind)
    } else {
        running(t)
    }
}

/// What a trimmed line is about, given what is under way.
pub open spec fn classified(t: Seq<char>, searching: bool, mapping: bool, scoping: bool) -> LineView {
    if t.len() == 0 {
        LineView::Blank
    } else if let Some(rest) = after(t, "find library="@) {
        LineView::Find(object_name(scan::up_to(rest, ";"@)))
    } else if searching && (text::stands_at(t, "search "@, 0) || text::stands_at(
        t,
        "trying file="@,
        0,
    )) {
        LineView::Tried(scan::trimmed(scan::without_start(t, "trying file="@)))
    } else if let Some((file, by)) = scan::cut_at(t, ";  needed by "@) {
        LineView::Whole(
            StepKindView::Needed {
                file: object_name(scan::without_start(file, "file="@)),
                needed_by: object_name(by),
            },
        )
    } else if scan::find(t, ";  generating link map"@) is Some {
        LineView::Announced(object_name(scan::without_start(scan::up_to(t, ";"@), "file="@)))
    } else if mapping && after(t, "base:"@) is Some {
        LineView::Base(leading_hex(after(t, "base:"@)->0))
    } else if let Some(rest) = after(t, "entry:"@) {
        LineView::Rest(leading_hex(rest), trailing_phnum(t))
    } else {
        late_line(t, scoping)
    }
}

/// What has been read so far, and what is under way.
#[verifier::ext_equal]
pub struct ReadingView {
    pub steps: Seq<StepKindView>,
    pub search: Option<(Seq<char>, Seq<Seq<char>>)>,
    pub scope: Option<(Seq<char>, Seq<Seq<char>>)>,
    pub map: Option<Seq<char>>,
}

impl ReadingView {
    pub open spec fn blank() -> ReadingView {
        ReadingView { steps: Seq::empty(), search: None, scope: None, map: None }
    }

    /// With the search and the scope under way completed.
    pub open spec fn flushed(self) -> ReadingView {
        let a = match self.search {
            Some((library, tried)) => self.steps.push(StepKindView::Search { library, tried }),
            None => self.steps,
        };
        let b = match self.scope {
            Some((object, order)) => a.push(StepKindView::Scope { object, order }),
            None => a,
        };
        ReadingView { steps: b, search: None, scope: None, map: self.map }
    }

    /// After one more line.
    pub open spec fn fed(self, line: LineView) -> ReadingView {
        match line {
            LineView::Blank => self.flushed(),
            LineView::Find(library) => ReadingView {
                search: Some((library, Seq::empty())),
                ..self
            },
            LineView::Tried(path) => match self.search {
                Some((library, tried)) => ReadingView {
                    search: Some((library, tried.push(path))),
                    ..self
                },
                None => self,
            },
            LineView::Whole(kind) => ReadingView { steps: self.steps.push(kind), ..self },
            LineView::Announced(file) => ReadingView { map: Some(file), ..self },
            LineView::Base(base) => match self.map {
                Some(file) => ReadingView {
                    steps: self.steps.push(
                        StepKindView::LinkMap { file, base, entry: 0, phnum: 0 },
                    ),
                    ..self
                },
                None => self,
            },
            LineView::Rest(entry, phnum) => ReadingView {
                steps: if self.steps.len() > 0 {
                    match self.steps.last() {
                        StepKindView::LinkMap { file, base, .. } => self.steps.drop_last().push(
                            StepKindView::LinkMap { file, base, entry, phnum },
                        ),
                        _ => self.steps,
                    }
                } else {
                    self.steps
                },
                map: None,
                ..self
            },
            LineView::ScopeOf(object) => ReadingView {
                scope: Some((object, Seq::empty())),
                ..self
            },
            LineView::InScope(list) => match self.scope {
                Some((object, order)) => ReadingView {
                    scope: Some((object, order + list)),
                    ..self
                },
                None => self,
            },
            LineView::Other => self,
        }
    }

    /// After one more line of output.
    pub open spec fn read(self, raw: Seq<char>) -> ReadingView {
        self.fed(
            classified(
                scan::trimmed(content(raw)),
                self.search is Some,
                self.map is Some,
                self.scope is Some,
            ),
        )
    }
}

/// What the first `n` lines say.
pub open spec fn reading(lines: Seq<Seq<char>>, n: int) -> ReadingView
    decreases n,
{
    if n <= 0 {
        ReadingView::blank()
    } else {
        reading(lines, n - 1).read(lines[n - 1])
    }
}

/// The steps that the output tells of.
pub open spec fn ld_debug_steps(text: Seq<char>) -> Seq<StepKindView> {
    let lines = scan::lines(text);
    reading(lines, lines.len() as int).flushed().steps
}

#[allow(inconsistent_fields)]
enum Line {
    Blank,
    Find(String),
    Tried(String),
    Whole(StepKind),
    Announced(String),
    Base(u64),
    Rest(u64, u32),
    ScopeOf(String),
    InScope(Vec<String>),
    Other,
}

impl Line {
    spec fn view(&self) -> LineView {
        match self {
            Line::Blank => LineView::Blank,
            Line::Find(s) => LineView::Find(s@),
            Line::Tried(s) => LineView::Tried(s@),
            Line::Whole(k) => LineView::Whole(k@),
            Line::Announced(s) => LineView::Announced(s@),
            Line::Base(b) => LineView::Base(*b),
            Line::Rest(e, p) => LineView::Rest(*e, *p),
            Line::ScopeOf(s) => LineView::ScopeOf(s@),
            Line::InScope(l) => LineView::InScope(text::views(l@)),
            Line::Other => LineView::Other,
        }
    }
}

fn strip_prefix(raw: &[char]) -> (r: &[char])
    ensures
        r@ == content(raw@),
{
    // Every line is "\t  NNNNN:\t<content>".
    match scan::split_once(raw, ":\t") {
        Some((_, rest)) => rest,
        None => scan::trim(raw),
    }
}

fn after_text<'a>(s: &'a [char], pat: &str) -> (r: Option<&'a [char]>)
    ensures
        match r {
            Some(t) => after(s@, pat@) == Some(t@),
            None => after(s@, pat@) is None,
        },
{
    match scan::split_once(s, pat) {
        Some((_, rest)) => Some(scan::trim(rest)),
        None => None,
    }
}

/// The name, without glibc's `[0]` namespace suffix and any trailing punctuation.
fn name_of(s: &[char]) -> (r: String)
    ensures
        r@ == object_name(s@),
{
    text::string_of(scan::trim(scan::before(scan::drop_end(scan::trim(s), ';'), " [")))
}

pub(crate) fn hex_of(s: &[char]) -> (r: Option<u64>)
    ensures
        r == hex(s@),
{
    scan::parse_number(scan::drop_start(scan::trim(s), "0x"), 16, u64::MAX)
}

fn leading_hex_of(s: &[char]) -> (r: u64)
    ensures
        r == leading_hex(s@),
{
    let w = scan::split_words(s);
    if w.len() > 0 {
        assert(scan::slice_views(w@)[0] == w@[0]@);
        match hex_of(w[0]) {
            Some(v) => v,
            None => 0,
        }
    } else {
        proof {
            let nothing = Seq::<char>::empty();
            assert(scan::words(s@).len() == 0);
            assert(scan::trimmed(nothing) == nothing);
            reveal_strlit("0x");
            assert(scan::without_start(nothing, "0x"@) == nothing);
        }
        0
    }
}

fn trailing_phnum_of(t: &[char]) -> (r: u32)
    ensures
        r == trailing_phnum(t@),
{
    match scan::after_last(t, "phnum:") {
        Some(v) => match scan::parse_number(scan::trim(v), 10, u32::MAX as u64) {
            Some(n) => n as u32,
            None => 0,
        },
        None => 0,
    }
}

fn binding_of(t: &[char]) -> (r: Option<StepKind>)
    ensures
        match r {
            Some(k) => binding(t@) == Some(k@),
            None => binding(t@) is None,
        },
{
    if !scan::begins(t, "binding file ") {
        return None;
    }
    let n: usize = "binding file ".unicode_len();
    match scan::split_once(scan::from(t, n), " to ") {
        Some((from, rest)) => match scan::split_once(rest, ": normal symbol `") {
            Some((to, symbol)) => Some(
                StepKind::Bind {
                    from: name_of(from),
                    to: name_of(to),
                    symbol: text::string_of(scan::before(symbol, "'")),
                },
            ),
            None => None,
        },
        None => None,
    }
}

/// The words as strings.
fn strings_of(w: &Vec<&[char]>) -> (r: Vec<String>)
    ensures
        text::views(r@) == scan::slice_views(w@),
{
    let mut out: Vec<String> = Vec::new();
    let mut i: usize = 0;
    while i < w.len()
        invariant
            i <= w@.len(),
            text::views(out@) =~= scan::slice_views(w@.take(i as int)),
        decreases w.len() - i,
    {
        let ghost before = out@;
        out.push(text::string_of(w[i]));
        proof {
            assert(text::views(out@) =~= text::views(before).push(w@[i as int]@));
            assert(scan::slice_views(w@.take(i + 1)) =~= scan::slice_views(w@.take(i as int)).push(
                w@[i as int]@,
            ));
        }
        i += 1;
    }
    assert(w@.take(i as int) =~= w@);
    out
}

fn scope_list_of(t: &[char]) -> (r: Option<Vec<String>>)
    ensures
        match r {
            Some(l) => scope_list(t@) == Some(text::views(l@)),
            None => scope_list(t@) is None,
        },
{
    if !scan::begins(t, "scope ") {
        return None;
    }
    let n: usize = "scope ".unicode_len();
    match scan::split_once(scan::from(t, n), ":") {
        Some((_, list)) => {
            let words = scan::split_words(list);
            Some(strings_of(&words))
        },
        None => None,
    }
}

fn running_line(t: &[char]) -> (r: Line)
    ensures
        r.view() == running(t@),
{
    if let Some(rest) = after_text(t, "calling init:") {
        return Line::Whole(StepKind::Init { object: name_of(rest) });
    }
    if let Some(rest) = after_text(t, "initialize program:") {
        return Line::Whole(StepKind::InitializeProgram { object: name_of(rest) });
    }
    if let Some(rest) = after_text(t, "transferring control:") {
        return Line::Whole(StepKind::TransferControl { object: name_of(rest) });
    }
    if let Some(rest) = after_text(t, "calling fini:") {
        return Line::Whole(StepKind::Fini { object: name_of(rest) });
    }
    Line::Other
}

/// The name in a relocation line, and whether it is marked as lazily bound.
fn relocated(rest: &[char]) -> (r: StepKind)
    ensures
        r@ == (StepKindView::Relocate {
            object: eager_name(object_name(rest@)),
            lazy: text::ends(object_name(rest@), " (lazy)"@),
        }),
{
    let name = name_of(rest);
    let lazy: bool = text::ends_with(name.as_str(), " (lazy)");
    if lazy {
        proof {
            reveal_strlit(" (lazy)");
        }
        let chars = text::chars_of(name.as_str());
        let object = text::string_of(scan::upto(chars.as_slice(), chars.len() - 7));
        StepKind::Relocate { object, lazy }
    } else {
        StepKind::Relocate { object: name, lazy }
    }
}

fn late_line_of(t: &[char], scoping: bool) -> (r: Line)
    ensures
        r.view() == late_line(t@, scoping),
{
    if let Some(rest) = after_text(t, "object=") {
        return Line::ScopeOf(name_of(rest));
    }
    if scoping {
        if let Some(list) = scope_list_of(t) {
            return Line::InScope(list);
        }
    }
    if let Some(rest) = after_text(t, "relocation processing:") {
        return Line::Whole(relocated(rest));
    }
    if let Some(kind) = binding_of(t) {
        return Line::Whole(kind);
    }
    running_line(t)
}

fn classify(t: &[char], searching: bool, mapping: bool, scoping: bool) -> (r: Line)
    ensures
        r.view() == classified(t@, searching, mapping, scoping),
{
    if t.len() == 0 {
        return Line::Blank;
    }
    if let Some(rest) = after_text(t, "find library=") {
        return Line::Find(name_of(scan::before(rest, ";")));
    }
    if searching && (scan::begins(t, "search ") || scan::begins(t, "trying file=")) {
        return Line::Tried(text::string_of(scan::trim(scan::drop_start(t, "trying file="))));
    }
    if let Some((file, by)) = scan::split_once(t, ";  needed by ") {
        return Line::Whole(
            StepKind::Needed {
                file: name_of(scan::drop_start(file, "file=")),
                needed_by: name_of(by),
            },
        );
    }
    if scan::position(t, ";  generating link map").is_some() {
        return Line::Announced(name_of(scan::drop_start(scan::before(t, ";"), "file=")));
    }
    if mapping {
        if let Some(rest) = after_text(t, "base:") {
            return Line::Base(leading_hex_of(rest));
        }
    }
    if let Some(rest) = after_text(t, "entry:") {
        return Line::Rest(leading_hex_of(rest), trailing_phnum_of(t));
    }
    late_line_of(t, scoping)
}

/// What has been read so far, and what is under way.
struct Reading {
    steps: Vec<StepKind>,
    search: Option<(String, Vec<String>)>,
    scope: Option<(String, Vec<String>)>,
    map: Option<String>,
}

spec fn pair_view(p: Option<(String, Vec<String>)>) -> Option<(Seq<char>, Seq<Seq<char>>)> {
    match p {
        Some((a, b)) => Some((a@, text::views(b@))),
        None => None,
    }
}

impl Reading {
    spec fn view(&self) -> ReadingView {
        ReadingView {
            steps: kind_views(self.steps@),
            search: pair_view(self.search),
            scope: pair_view(self.scope),
            map: text::opt_view(self.map),
        }
    }

    fn add(&mut self, kind: StepKind)
        ensures
            final(self).view() == (ReadingView {
                steps: old(self).view().steps.push(kind@),
                ..old(self).view()
            }),
    {
        self.steps.push(kind);
        assert(kind_views(self.steps@) =~= kind_views(old(self).steps@).push(kind@));
    }

    /// Completes the search and the scope under way.
    fn flush(&mut self)
        ensures
            final(self).view() == old(self).view().flushed(),
    {
        if let Some((library, tried)) = self.search.take() {
            self.add(StepKind::Search { library, tried });
        }
        if let Some((object, order)) = self.scope.take() {
            self.add(StepKind::Scope { object, order });
        }
    }

    /// Takes in one line.
    fn feed(&mut self, line: Line)
        ensures
            final(self).view() == old(self).view().fed(line.view()),
    {
        match line {
            Line::Blank => self.flush(),
            Line::Find(library) => {
                let none: Vec<String> = Vec::new();
                assert(text::views(none@) =~= Seq::<Seq<char>>::empty());
                self.search = Some((library, none));
            },
            Line::Tried(path) => {
                if let Some((library, tried)) = self.search.take() {
                    let mut tried = tried;
                    let ghost was = text::views(tried@);
                    let ghost said = path@;
                    tried.push(path);
                    assert(text::views(tried@) =~= was.push(said));
                    self.search = Some((library, tried));
                }
            },
            Line::Whole(kind) => self.add(kind),
            Line::Announced(file) => {
                self.map = Some(file);
            },
            Line::Base(base) => {
                if let Some(file) = &self.map {
                    let file = file.clone();
                    self.add(StepKind::LinkMap { file, base, entry: 0, phnum: 0 });
                }
            },
            Line::Rest(entry, phnum) => {
                let ghost was = self.steps@;
                if let Some(kind) = self.steps.pop() {
                    assert(kind_views(was).last() == kind@);
                    assert(kind_views(self.steps@) =~= kind_views(was).drop_last());
                    match kind {
                        StepKind::LinkMap { file, base, .. } => {
                            self.add(StepKind::LinkMap { file, base, entry, phnum });
                        },
                        other => {
                            self.add(other);
                            assert(kind_views(self.steps@) =~= kind_views(was));
                        },
                    }
                }
                self.map = None;
            },
            Line::ScopeOf(object) => {
                let none: Vec<String> = Vec::new();
                assert(text::views(none@) =~= Seq::<Seq<char>>::empty());
                self.scope = Some((object, none));
            },
            Line::InScope(list) => {
                if let Some((object, order)) = self.scope.take() {
                    let mut order = order;
                    let mut list = list;
                    let ghost was = text::views(order@);
                    let ghost more = text::views(list@);
                    order.append(&mut list);
                    assert(text::views(order@) =~= was + more);
                    self.scope = Some((object, order));
                }
            },
            Line::Other => {},
        }
    }
}

/// Parse `LD_DEBUG=all` output into ordered steps.
///
/// Written against the real output of glibc 2.42 rather than from memory; the format is
/// not documented and not stable, so unrecognised lines are skipped rather than fought.
#[must_use]
pub fn parse_ld_debug(text: &str) -> (r: Vec<Step>)
    ensures
        kinds(r@) == ld_debug_steps(text@),
        forall|i: int| 0 <= i < r@.len() ==> (#[trigger] r@[i]).n == layout::narrow(i),
{
    let chars = text::chars_of(text);
    let lines = scan::split_lines(chars.as_slice());
    let ghost all = scan::lines(text@);
    let mut st = Reading { steps: Vec::new(), search: None, scope: None, map: None };
    assert(st.view() =~= ReadingView::blank());
    let mut i: usize = 0;
    while i < lines.len()
        invariant
            i <= lines@.len(),
            all == scan::slice_views(lines@),
            st.view() == reading(all, i as int),
        decreases lines.len() - i,
    {
        assert(all[i as int] == lines@[i as int]@);
        let t = scan::trim(strip_prefix(lines[i]));
        let line = classify(t, st.search.is_some(), st.map.is_some(), st.scope.is_some());
        st.feed(line);
        i += 1;
    }
    st.flush();
    number(st.steps)
}

/// Numbers the steps.
fn number(found: Vec<StepKind>) -> (r: Vec<Step>)
    ensures
        kinds(r@) == kind_views(found@),
        forall|i: int| 0 <= i < r@.len() ==> (#[trigger] r@[i]).n == layout::narrow(i),
{
    let mut out: Vec<Step> = Vec::new();
    for kind in it: found
        invariant
            it.seq() == found@,
            out@.len() == it.index(),
            kinds(out@) =~= kind_views(found@.take(it.index())),
            forall|i: int| 0 <= i < out@.len() ==> (#[trigger] out@[i]).n == layout::narrow(i),
    {
        let ghost before = out@;
        let n: u32 = if out.len() as u64 > u32::MAX as u64 {
            u32::MAX
        } else {
            out.len() as u32
        };
        out.push(Step { n, kind });
        proof {
            assert(kinds(out@) =~= kinds(before).push(kind@));
            assert(kind_views(found@.take(it.index() + 1)) =~= kind_views(
                found@.take(it.index()),
            ).push(kind@));
        }
    }
    assert(found@.take(found@.len() as int) =~= found@);
    out
}

/// The format is undocumented and unstable, so a line that is not recognised is skipped:
/// what was read so far stays as it is, and so does what is under way.
pub proof fn law_unrecognised_lines_are_skipped(v: ReadingView, raw: Seq<char>)
    requires
        classified(
            scan::trimmed(content(raw)),
            v.search is Some,
            v.map is Some,
            v.scope is Some,
        ) is Other,
    ensures
        v.read(raw) == v,
{
}

/// Reading on never takes back a step: the steps that a part of the output tells of stand at
/// the start of what more of it tells of, but for the last of them, which the next line may
/// complete.
pub proof fn law_steps_are_only_added(lines: Seq<Seq<char>>, n: int, m: int, k: int)
    requires
        0 <= n <= m,
        0 <= k < reading(lines, n).steps.len() - 1,
    ensures
        reading(lines, m).steps.len() > k + 1,
        reading(lines, m).steps[k] == reading(lines, n).steps[k],
    decreases m,
{
    if n < m {
        law_steps_are_only_added(lines, n, m - 1, k);
    }
}

/// `t` is the number in hexadecimal, with its prefix or without.
pub open spec fn writes(t: Seq<char>, n: u64) -> bool {
    t == text::hex(n as int) || t == text::digits(n as nat, 16)
}

/// A number written in hexadecimal, with its prefix or without, is read back.
pub proof fn law_a_written_address_is_read_back(t: Seq<char>, n: u64)
    requires
        writes(t, n),
    ensures
        hex(t) == Some(n),
        scan::solid(t),
{
    let d = text::digits(n as nat, 16);
    reveal_strlit("0x");
    scan::lemma_digits_are_digits(n as nat, 16);
    let none = Seq::<char>::empty();
    let p = text::hex(n as int);
    assert forall|i: int| 0 <= i < p.len() implies !scan::is_space(#[trigger] p[i]) by {
        if i >= 2 {
            assert(p[i] == d[i - 2]);
        }
    }
    assert(none + t + none =~= t);
    scan::law_trimming_keeps_the_text(none, t, none);
    assert(!text::stands_at(d, "0x"@, 0)) by {
        if text::stands_at(d, "0x"@, 0) {
            assert(d.subrange(0, 2)[1] == d[1]);
        }
    }
    assert(scan::without_start(d, "0x"@) == d);
    assert(p.skip(2) =~= d);
    assert(p.subrange(0, 2) =~= "0x"@);
    assert(scan::without_start(p, "0x"@) == scan::without_start(d, "0x"@));
    scan::law_a_written_number_is_read_back(n as nat, 16, u64::MAX as int);
}

} // verus!
