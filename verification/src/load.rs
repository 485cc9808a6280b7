//! The dependency closure: every object a program needs, resolved and parsed.
//!
//! The model covers one object, with `DT_NEEDED` named but never followed. This follows
//! it, which is what turns "a binary being mapped" into "a process starting", because most
//! of the relocations, most of the symbols and most of the initialisers in a running
//! program belong to libc rather than to the program.
//!
//! Resolution is the loader's search order. That is a claim about behaviour like any
//! other, so it is checkable: a trace records the paths the real loader settled on.
//!
//! Nothing here reads a file. [`Loader`] says which library is wanted next, and takes the
//! bytes that were found.

use vstd::prelude::*;

use crate::coverage;
use crate::coverage::Ledger;
use crate::layout;
use crate::model;
use crate::model::{MemImage, Mapping, Resident};
use crate::parse;
use crate::parse::{Parsed, SummaryView};
use crate::residency;
use crate::scan;
use crate::span;
use crate::text;
use crate::timeline;

verus! {

/// Where to look for a dependency, in the order glibc looks.
#[derive(Clone, Debug)]
pub struct SearchPath {
    /// `LD_LIBRARY_PATH`, split on `:`.
    pub env: Vec<String>,
    /// The default directories, after the cache.
    pub default: Vec<String>,
}

/// The parts of `s` between colons that are not empty.
pub open spec fn colon_parts(s: Seq<char>) -> Seq<Seq<char>>
    decreases s.len(),
{
    match scan::cut_at(s, ":"@) {
        Some((head, rest)) => if rest.len() < s.len() {
            kept(head) + colon_parts(rest)
        } else {
            kept(s)
        },
        None => kept(s),
    }
}

/// The part, unless it is empty.
pub open spec fn kept(s: Seq<char>) -> Seq<Seq<char>> {
    if s.len() == 0 {
        Seq::empty()
    } else {
        seq![s]
    }
}

/// The directories that stand in for the cache, which is right on a normal system and wrong
/// on an unusual one.
pub open spec fn default_dirs() -> Seq<Seq<char>> {
    seq![
        "/lib/x86_64-linux-gnu"@,
        "/usr/lib/x86_64-linux-gnu"@,
        "/lib64"@,
        "/usr/lib64"@,
        "/lib"@,
        "/usr/lib"@,
    ]
}

/// A file name in a directory; an absolute name stands for itself.
pub open spec fn in_dir(dir: Seq<char>, name: Seq<char>) -> Seq<char> {
    if name.len() > 0 && name[0] == '/' {
        name
    } else if dir.len() == 0 || dir.last() == '/' {
        dir + name
    } else {
        dir + "/"@ + name
    }
}

fn path_in(dir: &String, name: &str) -> (r: String)
    ensures
        r@ == in_dir(dir@, name@),
{
    let n = text::chars_of(name);
    let d = text::chars_of(dir.as_str());
    if n.len() > 0 && n[0] == '/' {
        name.to_string()
    } else if d.len() == 0 || d[d.len() - 1] == '/' {
        let mut r = dir.clone();
        r.append(name);
        r
    } else {
        let mut r = dir.clone();
        r.append("/");
        r.append(name);
        r
    }
}

impl SearchPath {
    /// The directories, in the order in which they are searched.
    pub open spec fn dirs(&self) -> Seq<Seq<char>> {
        text::views(self.env@) + text::views(self.default@)
    }

    /// The search path under this `LD_LIBRARY_PATH`.
    #[must_use]
    pub fn new(ld_library_path: &str) -> (r: Self)
        ensures
            text::views(r.env@) == colon_parts(ld_library_path@),
            text::views(r.default@) == default_dirs(),
    {
        let default: Vec<String> =
            vec![
            "/lib/x86_64-linux-gnu".to_string(),
            "/usr/lib/x86_64-linux-gnu".to_string(),
            "/lib64".to_string(),
            "/usr/lib64".to_string(),
            "/lib".to_string(),
            "/usr/lib".to_string(),
        ];
        assert(text::views(default@) =~= default_dirs());
        let chars = text::chars_of(ld_library_path);
        let env = split_colons(chars.as_slice());
        SearchPath { env, default }
    }

    /// The places where a library is looked for, in order: `LD_LIBRARY_PATH`, then the
    /// default directories. The first that is a file is the one that is loaded.
    #[must_use]
    pub fn candidates(&self, soname: &str) -> (r: Vec<String>)
        ensures
            text::views(r@) == self.dirs().map_values(|d: Seq<char>| in_dir(d, soname@)),
    {
        let mut out: Vec<String> = Vec::new();
        push_candidates(&self.env, soname, &mut out);
        push_candidates(&self.default, soname, &mut out);
        assert(text::views(out@) =~= self.dirs().map_values(|d: Seq<char>| in_dir(d, soname@)));
        out
    }
}

fn push_candidates(dirs: &Vec<String>, soname: &str, out: &mut Vec<String>)
    ensures
        text::views(final(out)@) == text::views(old(out)@) + text::views(dirs@).map_values(
            |d: Seq<char>| in_dir(d, soname@),
        ),
{
    let ghost start = text::views(out@);
    let ghost all = text::views(dirs@).map_values(|d: Seq<char>| in_dir(d, soname@));
    assert(start + all.take(0) =~= start);
    let mut i: usize = 0;
    while i < dirs.len()
        invariant
            i <= dirs@.len(),
            all == text::views(dirs@).map_values(|d: Seq<char>| in_dir(d, soname@)),
            text::views(out@) == start + all.take(i as int),
        decreases dirs.len() - i,
    {
        let ghost before = out@;
        let path = path_in(&dirs[i], soname);
        let ghost added = path@;
        out.push(path);
        proof {
            assert(all[i as int] == added);
            assert(text::views(out@) =~= text::views(before).push(added));
            assert(start + all.take(i + 1) =~= (start + all.take(i as int)).push(added));
        }
        i += 1;
    }
    assert(all.take(i as int) =~= all);
}

/// The parts between colons that are not empty.
fn split_colons(s: &[char]) -> (r: Vec<String>)
    ensures
        text::views(r@) == colon_parts(s@),
{
    let mut out: Vec<String> = Vec::new();
    let mut rest: &[char] = s;
    assert(text::views(out@) + colon_parts(rest@) =~= colon_parts(s@));
    loop
        invariant
            text::views(out@) + colon_parts(rest@) == colon_parts(s@),
        decreases rest@.len(),
    {
        let ghost before = text::views(out@);
        match scan::split_once(rest, ":") {
            Some((head, tail)) => {
                if tail.len() >= rest.len() {
                    push_kept(rest, &mut out);
                    return out;
                }
                push_kept(head, &mut out);
                assert(text::views(out@) + colon_parts(tail@) =~= before + (kept(head@)
                    + colon_parts(tail@)));
                rest = tail;
            },
            None => {
                push_kept(rest, &mut out);
                return out;
            },
        }
    }
}

fn push_kept(s: &[char], out: &mut Vec<String>)
    ensures
        text::views(final(out)@) == text::views(old(out)@) + kept(s@),
{
    let ghost before = out@;
    if s.len() > 0 {
        out.push(text::string_of(s));
    }
    assert(text::views(out@) =~= text::views(before) + kept(s@));
}

#[allow(inconsistent_fields)]
#[derive(Clone, PartialEq, Eq, Debug)]
pub enum LoadError {
    Read { path: String, detail: String },
    Parse { path: String, detail: String },
    NotFound { soname: String, needed_by: String },
}

impl LoadError {
    /// The error in words.
    pub open spec fn text(&self) -> Seq<char> {
        match self {
            Self::Read { path, detail } => path@ + ": "@ + detail@,
            Self::Parse { path, detail } => path@ + ": "@ + detail@,
            Self::NotFound { soname, needed_by } => soname@
                + ": not found on any search path (needed by "@ + needed_by@ + ")"@,
        }
    }

    /// The error in words.
    pub fn to_text(&self) -> (r: String)
        ensures
            r@ == self.text(),
    {
        match self {
            Self::Read { path, detail } => {
                let mut r = path.clone();
                r.append(": ");
                r.append(detail.as_str());
                r
            },
            Self::Parse { path, detail } => {
                let mut r = path.clone();
                r.append(": ");
                r.append(detail.as_str());
                r
            },
            Self::NotFound { soname, needed_by } => {
                let mut r = soname.clone();
                r.append(": not found on any search path (needed by ");
                r.append(needed_by.as_str());
                r.append(")");
                r
            },
        }
    }
}

/// One loaded object.
#[derive(Debug)]
pub struct Object {
    pub id: u32,
    pub path: String,
    /// What the dependency was called before it was found.
    pub requested: String,
    /// Which object asked for it; `None` for the program itself.
    pub needed_by: Option<u32>,
    pub parsed: Parsed,
    pub image: MemImage,
    /// Address the object is placed at in this model.
    pub base: u64,
}

/// What an [`Object`] is.
pub struct ObjectView {
    pub id: u32,
    pub path: Seq<char>,
    pub requested: Seq<char>,
    pub needed_by: Option<u32>,
    pub ledger: Ledger,
    pub facts: SummaryView,
    pub maps: Seq<Mapping>,
    pub ranges: Seq<Resident>,
    pub base: u64,
}

impl View for Object {
    type V = ObjectView;

    open spec fn view(&self) -> ObjectView {
        ObjectView {
            id: self.id,
            path: self.path@,
            requested: self.requested@,
            needed_by: self.needed_by,
            ledger: self.parsed.coverage@,
            facts: self.parsed.summary@,
            maps: self.image.maps(),
            ranges: self.image.ranges(),
            base: self.base,
        }
    }
}

/// The objects as views.
pub open spec fn object_views(s: Seq<Object>) -> Seq<ObjectView> {
    s.map_values(|o: Object| o@)
}

impl ObjectView {
    /// How many relocations this object applies at startup.
    pub open spec fn startup(self) -> nat {
        timeline::startup_count(self.facts.relocs, self.facts.bind_now, self.facts.relocs.len() as int)
    }

    /// How many bytes from the lowest address of the object to the highest.
    pub open spec fn reach(self) -> u64 {
        reach_of(self.maps)
    }
}

impl Object {
    /// Relocations this object applies at startup, deferred PLT entries excluded.
    ///
    /// Uses the model's own rule so the two cannot drift apart.
    #[must_use]
    pub fn startup_relocations(&self) -> (r: usize)
        ensures
            r == self@.startup(),
    {
        let summary = &self.parsed.summary;
        let ghost relocs = self@.facts.relocs;
        let mut n: usize = 0;
        let mut i: usize = 0;
        while i < summary.relocs.len()
            invariant
                n <= i <= summary.relocs@.len(),
                summary == self.parsed.summary,
                relocs == parse::reloc_views(summary.relocs@),
                n == timeline::startup_count(relocs, summary.bind_now, i as int),
            decreases summary.relocs.len() - i,
        {
            assert(relocs[i as int] == summary.relocs@[i as int]@);
            if !model::is_deferred(summary, &summary.relocs[i]) {
                n += 1;
            }
            i += 1;
        }
        n
    }
}

/// A program and everything it needs.
#[derive(Debug)]
pub struct Process {
    pub objects: Vec<Object>,
}

/// How many relocations the first `n` objects apply at startup.
pub open spec fn relocations_in(objs: Seq<ObjectView>, n: int) -> nat
    decreases n,
{
    if n <= 0 {
        0
    } else {
        relocations_in(objs, n - 1) + objs[n - 1].startup()
    }
}

/// How many bytes of their files the first `n` objects have in memory, saturating.
pub open spec fn mapped_in(objs: Seq<ObjectView>, n: int) -> u64
    decreases n,
{
    if n <= 0 {
        0
    } else {
        span::sat_add(
            mapped_in(objs, n - 1),
            residency::resident_set(objs[n - 1].ranges).len() as u64,
        )
    }
}

proof fn lemma_relocations_grow(objs: Seq<ObjectView>, n: int, m: int)
    requires
        0 <= n <= m,
    ensures
        relocations_in(objs, n) <= relocations_in(objs, m),
    decreases m,
{
    if n < m {
        lemma_relocations_grow(objs, n, m - 1);
    }
}

impl Process {
    /// What the objects are.
    pub open spec fn view(&self) -> Seq<ObjectView> {
        object_views(self.objects@)
    }

    /// The program itself.
    #[must_use]
    pub fn program(&self) -> (r: Option<&Object>)
        ensures
            match r {
                Some(o) => self@.len() > 0 && o@ == self@[0],
                None => self@.len() == 0,
            },
    {
        if self.objects.len() > 0 {
            Some(&self.objects[0])
        } else {
            None
        }
    }

    /// How many relocations are applied at startup, in all objects.
    #[must_use]
    pub fn total_relocations(&self) -> (r: usize)
        requires
            relocations_in(self@, self@.len() as int) <= usize::MAX,
        ensures
            r == relocations_in(self@, self@.len() as int),
    {
        let mut sum: usize = 0;
        let mut i: usize = 0;
        while i < self.objects.len()
            invariant
                i <= self.objects@.len(),
                self@.len() == self.objects@.len(),
                relocations_in(self@, self@.len() as int) <= usize::MAX,
                sum == relocations_in(self@, i as int),
            decreases self.objects.len() - i,
        {
            assert(self@[i as int] == self.objects@[i as int]@);
            proof {
                lemma_relocations_grow(self@, i + 1, self@.len() as int);
            }
            sum = sum + self.objects[i].startup_relocations();
            i += 1;
        }
        sum
    }

    /// How many bytes of files are in memory, in all objects.
    #[must_use]
    pub fn total_mapped(&self) -> (r: u64)
        ensures
            r == mapped_in(self@, self@.len() as int),
    {
        let mut sum: u64 = 0;
        let mut i: usize = 0;
        while i < self.objects.len()
            invariant
                i <= self.objects@.len(),
                sum == mapped_in(self@, i as int),
            decreases self.objects.len() - i,
        {
            assert(self@[i as int] == self.objects@[i as int]@);
            sum = sum.saturating_add(self.objects[i].image.resident_bytes());
            i += 1;
        }
        sum
    }

    /// Objects in the order the loader relocates them: dependencies before the objects
    /// that need them, which for a breadth-first closure is simply the reverse of the
    /// order they were discovered in.
    #[must_use]
    pub fn relocation_order(&self) -> (r: Vec<&Object>)
        ensures
            r@.len() == self@.len(),
            forall|i: int|
                0 <= i < r@.len() ==> (#[trigger] r@[i])@ == self@.reverse()[i],
    {
        let mut out: Vec<&Object> = Vec::new();
        let mut n: usize = self.objects.len();
        while n > 0
            invariant
                n <= self.objects@.len() == self@.len(),
                out@.len() == self@.len() - n,
                forall|i: int|
                    0 <= i < out@.len() ==> (#[trigger] out@[i])@ == self@.reverse()[i],
            decreases n,
        {
            n -= 1;
            assert(self@[n as int] == self.objects@[n as int]@);
            out.push(&self.objects[n]);
        }
        out
    }
}

// Placement.

/// Space left between objects so a reader can tell them apart. The real loader's spacing
/// is whatever `mmap` returns and is not reproducible anyway.
pub const GAP: u64 = 0x10_0000;

/// How many bytes from the lowest mapped address to the highest.
pub open spec fn reach_of(maps: Seq<Mapping>) -> u64 {
    if maps.len() == 0 || model::top_of(maps) < maps[0].vaddr {
        0
    } else {
        (model::top_of(maps) - maps[0].vaddr) as u64
    }
}

/// Where the object after one at `base` is placed.
pub open spec fn advanced(base: u64, maps: Seq<Mapping>) -> u64 {
    model::page_down(span::sat_add(span::sat_add(base, reach_of(maps)), GAP))
}

fn advance(base: u64, image: &MemImage) -> (r: u64)
    ensures
        r == advanced(base, image.maps()),
{
    let reach: u64 = match image.extent() {
        Some((lo, hi)) => hi.saturating_sub(lo),
        None => 0,
    };
    model::round_down(base.saturating_add(reach).saturating_add(GAP))
}

// The walk.

/// An object that was asked for.
struct Wanted {
    soname: String,
    /// The path of the object that asks.
    asker: String,
    needed_by: u32,
}

/// An object that was asked for.
pub struct WantedView {
    pub soname: Seq<char>,
    pub asker: Seq<char>,
    pub needed_by: u32,
}

impl Wanted {
    spec fn view(&self) -> WantedView {
        WantedView { soname: self.soname@, asker: self.asker@, needed_by: self.needed_by }
    }
}

spec fn wanted_views(s: Seq<Wanted>) -> Seq<WantedView> {
    s.map_values(|w: Wanted| w.view())
}

/// What is loaded, and what is still wanted.
#[verifier::ext_equal]
pub struct LoaderView {
    pub objects: Seq<ObjectView>,
    pub queue: Seq<WantedView>,
    pub interp: Seq<char>,
    pub next_base: u64,
}

/// The name of a file without its directory.
pub open spec fn base_name(path: Seq<char>) -> Seq<char> {
    match scan::past_last(path, "/"@) {
        Some(name) => name,
        None => path,
    }
}

/// The name of the interpreter without its directory; empty where there is none.
pub open spec fn interp_name(interp: Option<Seq<char>>) -> Seq<char> {
    match interp {
        Some(path) => base_name(path),
        None => Seq::empty(),
    }
}

/// An object, as its file says.
pub open spec fn object_of(
    path: Seq<char>,
    requested: Seq<char>,
    needed_by: Option<u32>,
    id: u32,
    base: u64,
    ledger: Ledger,
    facts: SummaryView,
) -> ObjectView {
    ObjectView {
        id,
        path,
        requested,
        needed_by,
        ledger,
        facts,
        maps: model::mappings_of(facts.segments),
        ranges: model::residents(
            facts.segments,
            coverage::total_len(ledger.files, ledger.files.len() as int),
            facts.segments.len() as int,
        ),
        base,
    }
}

/// What an object asks for.
pub open spec fn wants(needed: Seq<Seq<char>>, asker: Seq<char>, id: u32) -> Seq<WantedView> {
    needed.map_values(|n: Seq<char>| WantedView { soname: n, asker, needed_by: id })
}

/// The walk after the program itself was read.
pub open spec fn begun(path: Seq<char>, ledger: Ledger, facts: SummaryView) -> LoaderView {
    let program = object_of(path, path, None, 0, 0, ledger, facts);
    LoaderView {
        objects: seq![program],
        queue: wants(facts.needed, path, 0),
        interp: interp_name(facts.interp),
        next_base: advanced(0, program.maps),
    }
}

/// Whether one of the objects was asked for under this name.
pub open spec fn loaded(objs: Seq<ObjectView>, soname: Seq<char>) -> bool {
    exists|i: int| 0 <= i < objs.len() && (#[trigger] objs[i]).requested == soname
}

/// Whether a name needs no search: it is the interpreter, or loaded.
pub open spec fn satisfied(objs: Seq<ObjectView>, interp: Seq<char>, soname: Seq<char>) -> bool {
    soname == interp || loaded(objs, soname)
}

impl LoaderView {
    /// Without the requests, at the head of the queue, that need no search.
    pub open spec fn pruned(self) -> LoaderView
        decreases self.queue.len(),
    {
        if self.queue.len() > 0 && satisfied(self.objects, self.interp, self.queue[0].soname) {
            (LoaderView { queue: self.queue.drop_first(), ..self }).pruned()
        } else {
            self
        }
    }

    /// Whether a search is owed to the head of the queue.
    pub open spec fn waiting(self) -> bool {
        self.queue.len() > 0 && !satisfied(self.objects, self.interp, self.queue[0].soname)
    }

    /// With the file that was found for the head of the queue.
    pub open spec fn supplied(self, path: Seq<char>, ledger: Ledger, facts: SummaryView) -> LoaderView {
        let w = self.queue[0];
        let id = layout::narrow(self.objects.len() as int);
        let obj = object_of(
            path,
            w.soname,
            Some(w.needed_by),
            id,
            self.next_base,
            ledger,
            facts,
        );
        LoaderView {
            objects: self.objects.push(obj),
            queue: self.queue.drop_first() + wants(facts.needed, path, id),
            interp: self.interp,
            next_base: advanced(self.next_base, obj.maps),
        }
    }
}

fn read_object(
    path: &str,
    requested: String,
    needed_by: Option<u32>,
    id: u32,
    base: u64,
    bytes: &[u8],
) -> (r: Result<Object, LoadError>)
    ensures
        match layout::outcome(bytes@) {
            Ok((ledger, facts)) => r is Ok && r->Ok_0@ == object_of(
                path@,
                requested@,
                needed_by,
                id,
                base,
                ledger,
                facts,
            ) && r->Ok_0.parsed.coverage.wf(),
            Err(e) => r is Err && refused(r->Err_0, path@, e.text()),
        },
{
    match parse::parse(bytes) {
        Ok(parsed) => {
            let image = MemImage::for_file(
                parsed.summary.segments.as_slice(),
                parsed.coverage.stats().total_bytes,
            );
            Ok(Object { id, path: path.to_string(), requested, needed_by, parsed, image, base })
        },
        Err(e) => Err(LoadError::Parse { path: path.to_string(), detail: e.to_text() }),
    }
}

/// Whether the error says that this file is not understood, and why.
pub open spec fn refused(e: LoadError, path: Seq<char>, detail: Seq<char>) -> bool {
    e matches LoadError::Parse { path: p, detail: d } && p@ == path && d@ == detail
}

fn base_name_of(path: &str) -> (r: String)
    ensures
        r@ == base_name(path@),
{
    let chars = text::chars_of(path);
    match scan::after_last(chars.as_slice(), "/") {
        Some(name) => text::string_of(name),
        None => path.to_string(),
    }
}

/// The name of the interpreter without its directory; empty where there is none.
#[must_use]
pub fn interp_base(interp: &Option<String>) -> (r: String)
    ensures
        r@ == interp_name(text::opt_view(*interp)),
{
    match interp {
        Some(i) => base_name_of(i.as_str()),
        None => {
            let r = String::new();
            assert(r@ =~= Seq::<char>::empty());
            r
        },
    }
}

/// The walk of the closure, breadth-first, the way `ld.so` walks `DT_NEEDED`.
///
/// The interpreter is deliberately not followed. It is already in the process before the
/// first `DT_NEEDED` is read, and treating it as a dependency of libc produces a cycle.
pub struct Loader {
    objects: Vec<Object>,
    queue: Vec<Wanted>,
    interp: String,
    next_base: u64,
}

impl Loader {
    /// What is loaded, and what is still wanted.
    pub closed spec fn view(&self) -> LoaderView {
        LoaderView {
            objects: object_views(self.objects@),
            queue: wanted_views(self.queue@),
            interp: self.interp@,
            next_base: self.next_base,
        }
    }

    /// Every object is understood, and the walk went as it has to.
    pub closed spec fn wf(&self) -> bool {
        &&& walked(self@)
        &&& forall|i: int|
            0 <= i < self.objects@.len() ==> (#[trigger] self.objects@[i]).parsed.coverage.wf()
    }

    fn ask(&mut self, needed: &Vec<String>, asker: &str, id: u32)
        ensures
            final(self)@ == (LoaderView {
                queue: old(self)@.queue + wants(text::views(needed@), asker@, id),
                ..old(self)@
            }),
            final(self).objects == old(self).objects,
    {
        let ghost start = self@;
        let ghost all = wants(text::views(needed@), asker@, id);
        let mut i: usize = 0;
        assert(start.queue + all.take(0) =~= start.queue);
        while i < needed.len()
            invariant
                i <= needed@.len(),
                all == wants(text::views(needed@), asker@, id),
                self.objects == old(self).objects,
                self@ == (LoaderView { queue: start.queue + all.take(i as int), ..start }),
            decreases needed.len() - i,
        {
            let ghost before = self.queue@;
            let w = Wanted {
                soname: needed[i].clone(),
                asker: asker.to_string(),
                needed_by: id,
            };
            let ghost added = w.view();
            self.queue.push(w);
            proof {
                assert(all[i as int] == added);
                assert(wanted_views(self.queue@) =~= wanted_views(before).push(added));
                assert(start.queue + all.take(i + 1) =~= (start.queue + all.take(i as int)).push(
                    added,
                ));
            }
            i += 1;
        }
        assert(all.take(i as int) =~= all);
    }

    /// Starts from the program itself.
    pub fn begin(path: &str, bytes: &[u8]) -> (r: Result<Loader, LoadError>)
        ensures
            match layout::outcome(bytes@) {
                Ok((ledger, facts)) => r is Ok && r->Ok_0.wf() && r->Ok_0@ == begun(
                    path@,
                    ledger,
                    facts,
                ),
                Err(e) => r is Err && refused(r->Err_0, path@, e.text()),
            },
    {
        let program = match read_object(path, path.to_string(), None, 0, 0, bytes) {
            Ok(o) => o,
            Err(e) => return Err(e),
        };
        let ghost facts = program@.facts;
        let interp = interp_base(&program.parsed.summary.interp);
        let next_base: u64 = advance(0, &program.image);
        let mut needed: Vec<String> = Vec::new();
        let mut i: usize = 0;
        assert(text::views(needed@) =~= facts.needed.take(0));
        while i < program.parsed.summary.needed.len()
            invariant
                i <= program.parsed.summary.needed@.len(),
                facts.needed == text::views(program.parsed.summary.needed@),
                text::views(needed@) == facts.needed.take(i as int),
            decreases program.parsed.summary.needed.len() - i,
        {
            let ghost before = needed@;
            needed.push(program.parsed.summary.needed[i].clone());
            proof {
                assert(text::views(needed@) =~= text::views(before).push(facts.needed[i as int]));
                assert(facts.needed.take(i + 1) =~= facts.needed.take(i as int).push(
                    facts.needed[i as int],
                ));
            }
            i += 1;
        }
        assert(facts.needed.take(i as int) =~= facts.needed);
        let ghost first = program@;
        let mut r = Loader { objects: vec![program], queue: Vec::new(), interp, next_base };
        assert(r@.objects =~= seq![first]);
        assert(r@.queue =~= Seq::<WantedView>::empty());
        r.ask(&needed, path, 0);
        proof {
            let (ledger, f) = layout::outcome(bytes@)->Ok_0;
            assert(r@ =~= begun(path@, ledger, f));
            lemma_begun(path@, ledger, f);
        }
        Ok(r)
    }

    /// The library to search for next; `None` when everything that is needed is loaded.
    pub fn wanted(&mut self) -> (r: Option<String>)
        requires
            old(self).wf(),
        ensures
            final(self).wf(),
            final(self)@ == old(self)@.pruned(),
            match r {
                Some(s) => final(self)@.waiting() && s@ == final(self)@.queue[0].soname,
                None => final(self)@.queue.len() == 0,
            },
    {
        let ghost start = self@;
        while self.queue.len() > 0
            invariant
                self.wf(),
                start == old(self)@,
                self@.pruned() == start.pruned(),
            ensures
                self.wf(),
                self@ == start.pruned(),
                self@.queue.len() == 0,
            decreases self.queue.len(),
        {
            assert(self@.queue[0] == self.queue@[0].view());
            if !self.is_satisfied(self.queue[0].soname.as_str()) {
                return Some(self.queue[0].soname.clone());
            }
            let ghost before = self@;
            let _ = self.queue.remove(0);
            proof {
                assert(self@.queue =~= before.queue.drop_first());
                assert(self@ =~= (LoaderView { queue: before.queue.drop_first(), ..before }));
                lemma_dropped(before);
            }
        }
        None
    }

    fn is_satisfied(&self, soname: &str) -> (r: bool)
        ensures
            r == satisfied(self@.objects, self@.interp, soname@),
    {
        if text::same(soname, self.interp.as_str()) {
            return true;
        }
        let mut i: usize = 0;
        while i < self.objects.len()
            invariant
                i <= self.objects@.len() == self@.objects.len(),
                forall|k: int| 0 <= k < i ==> (#[trigger] self@.objects[k]).requested != soname@,
            decreases self.objects.len() - i,
        {
            assert(self@.objects[i as int] == self.objects@[i as int]@);
            if text::same(self.objects[i].requested.as_str(), soname) {
                return true;
            }
            i += 1;
        }
        false
    }

    /// Takes the file that was found for the library that was wanted.
    pub fn supply(&mut self, found: &str, bytes: &[u8]) -> (r: Result<(), LoadError>)
        requires
            old(self).wf(),
            old(self)@.waiting(),
        ensures
            final(self).wf(),
            match layout::outcome(bytes@) {
                Ok((ledger, facts)) => r is Ok && final(self)@ == old(self)@.supplied(
                    found@,
                    ledger,
                    facts,
                ),
                Err(e) => r is Err && refused(r->Err_0, found@, e.text()) && final(self)@ == old(
                    self,
                )@,
            },
    {
        let ghost start = self@;
        let id: u32 = if self.objects.len() as u64 > u32::MAX as u64 {
            u32::MAX
        } else {
            self.objects.len() as u32
        };
        assert(start.queue[0] == self.queue@[0].view());
        let soname = self.queue[0].soname.clone();
        let needed_by: u32 = self.queue[0].needed_by;
        let obj = match read_object(found, soname, Some(needed_by), id, self.next_base, bytes) {
            Ok(o) => o,
            Err(e) => return Err(e),
        };
        let _ = self.queue.remove(0);
        assert(self@.queue =~= start.queue.drop_first());
        self.next_base = advance(self.next_base, &obj.image);
        let ghost added = obj@;
        self.ask(&obj.parsed.summary.needed, found, id);
        let ghost before = self.objects@;
        self.objects.push(obj);
        proof {
            assert(object_views(self.objects@) =~= object_views(before).push(added));
            let (ledger, facts) = layout::outcome(bytes@)->Ok_0;
            assert(self@ =~= start.supplied(found@, ledger, facts));
            lemma_supplied(start, found@, ledger, facts);
        }
        Ok(())
    }

    /// Says that the library that was wanted was found nowhere.
    #[must_use]
    pub fn not_found(&self) -> (r: LoadError)
        requires
            self@.queue.len() > 0,
        ensures
            r matches LoadError::NotFound { soname, needed_by } && soname@
                == self@.queue[0].soname && needed_by@ == self@.queue[0].asker,
    {
        assert(self@.queue[0] == self.queue@[0].view());
        LoadError::NotFound {
            soname: self.queue[0].soname.clone(),
            needed_by: self.queue[0].asker.clone(),
        }
    }

    /// The process, once nothing is wanted any more.
    #[must_use]
    pub fn finish(self) -> (r: Process)
        requires
            self.wf(),
            self@.queue.len() == 0,
        ensures
            r@ == self@.objects,
            complete(r@),
            forall|i: int|
                0 <= i < r.objects@.len() ==> (#[trigger] r.objects@[i]).parsed.coverage.wf(),
    {
        Process { objects: self.objects }
    }
}

// What holds of every walk.

/// The objects are distinct requests, the interpreter is not among the dependencies, each
/// was asked for by an object before it, and each is placed after the one before it.
pub open spec fn chained(objs: Seq<ObjectView>, interp: Seq<char>) -> bool {
    &&& objs.len() > 0
    &&& interp == interp_name(objs[0].facts.interp)
    &&& objs[0].base == 0
    &&& objs[0].needed_by is None
    &&& forall|i: int, j: int|
        #![trigger objs[i], objs[j]]
        0 <= i < j < objs.len() ==> objs[i].requested != objs[j].requested
    &&& forall|i: int| 1 <= i < objs.len() ==> (#[trigger] objs[i]).requested != interp
    &&& forall|i: int|
        0 <= i < objs.len() ==> (#[trigger] objs[i]).id == layout::narrow(i)
    &&& forall|i: int|
        1 <= i < objs.len() ==> asked_before(objs, i, #[trigger] objs[i])
    &&& forall|i: int, j: int|
        #![trigger objs[i], objs[j]]
        0 <= i && j == i + 1 && j < objs.len() ==> objs[j].base == advanced(
            objs[i].base,
            objs[i].maps,
        )
}

/// Whether one of the first `n` objects asks for this one.
pub open spec fn asked_before(objs: Seq<ObjectView>, n: int, o: ObjectView) -> bool {
    exists|p: int|
        0 <= p < n && o.needed_by == Some((#[trigger] objs[p]).id) && objs[p].facts.needed.contains(
            o.requested,
        )
}

/// Whether the queue asks for this name.
pub open spec fn queued(queue: Seq<WantedView>, soname: Seq<char>) -> bool {
    exists|q: int| 0 <= q < queue.len() && (#[trigger] queue[q]).soname == soname
}

/// Whether a request comes from one of the objects.
pub open spec fn genuine(objs: Seq<ObjectView>, w: WantedView) -> bool {
    exists|p: int|
        0 <= p < objs.len() && w.needed_by == (#[trigger] objs[p]).id && w.asker == objs[p].path
            && objs[p].facts.needed.contains(w.soname)
}

/// What holds of every walk: everything an object needs is there, or is in the queue.
pub open spec fn walked(v: LoaderView) -> bool {
    &&& chained(v.objects, v.interp)
    &&& v.next_base == advanced(v.objects.last().base, v.objects.last().maps)
    &&& forall|q: int| 0 <= q < v.queue.len() ==> genuine(v.objects, #[trigger] v.queue[q])
    &&& forall|p: int, k: int|
        0 <= p < v.objects.len() && 0 <= k < v.objects[p].facts.needed.len() ==> satisfied(
            v.objects,
            v.interp,
            #[trigger] v.objects[p].facts.needed[k],
        ) || queued(v.queue, v.objects[p].facts.needed[k])
}

/// A closure: the chain, and everything that any object needs.
pub open spec fn complete(objs: Seq<ObjectView>) -> bool {
    &&& objs.len() > 0
    &&& chained(objs, interp_name(objs[0].facts.interp))
    &&& forall|p: int, k: int|
        0 <= p < objs.len() && 0 <= k < objs[p].facts.needed.len() ==> satisfied(
            objs,
            interp_name(objs[0].facts.interp),
            #[trigger] objs[p].facts.needed[k],
        )
}

proof fn lemma_begun(path: Seq<char>, ledger: Ledger, facts: SummaryView)
    ensures
        walked(begun(path, ledger, facts)),
{
    let v = begun(path, ledger, facts);
    assert forall|q: int| 0 <= q < v.queue.len() implies genuine(
        v.objects,
        #[trigger] v.queue[q],
    ) by {
        assert(v.objects[0].facts.needed[q] == v.queue[q].soname);
    }
    assert forall|p: int, k: int|
        0 <= p < v.objects.len() && 0 <= k < v.objects[p].facts.needed.len() implies satisfied(
        v.objects,
        v.interp,
        #[trigger] v.objects[p].facts.needed[k],
    ) || queued(v.queue, v.objects[p].facts.needed[k]) by {
        assert(v.queue[k].soname == v.objects[p].facts.needed[k]);
    }
}

proof fn lemma_dropped(v: LoaderView)
    requires
        walked(v),
        v.queue.len() > 0,
        satisfied(v.objects, v.interp, v.queue[0].soname),
    ensures
        walked(LoaderView { queue: v.queue.drop_first(), ..v }),
{
    let t = v.queue.drop_first();
    assert forall|q: int| 0 <= q < t.len() implies genuine(v.objects, #[trigger] t[q]) by {
        assert(t[q] == v.queue[q + 1]);
    }
    assert forall|p: int, k: int|
        0 <= p < v.objects.len() && 0 <= k < v.objects[p].facts.needed.len() implies satisfied(
        v.objects,
        v.interp,
        #[trigger] v.objects[p].facts.needed[k],
    ) || queued(t, v.objects[p].facts.needed[k]) by {
        let n = v.objects[p].facts.needed[k];
        if !satisfied(v.objects, v.interp, n) {
            let q = choose|q: int| 0 <= q < v.queue.len() && (#[trigger] v.queue[q]).soname == n;
            assert(t[q - 1].soname == n);
        }
    }
}

proof fn lemma_supplied(v: LoaderView, path: Seq<char>, ledger: Ledger, facts: SummaryView)
    requires
        walked(v),
        v.waiting(),
    ensures
        walked(v.supplied(path, ledger, facts)),
{
    let w = v.queue[0];
    let s = v.supplied(path, ledger, facts);
    let n = v.objects.len() as int;
    let obj = s.objects[n];
    assert(s.objects.last() == obj);
    assert forall|i: int| 0 <= i < n implies s.objects[i] == v.objects[i] by {}
    assert(genuine(v.objects, w));
    assert forall|i: int, j: int| #![trigger s.objects[i], s.objects[j]] 0 <= i < j
        < s.objects.len() implies s.objects[i].requested != s.objects[j].requested by {
        if j == n {
            assert(v.objects[i].requested != w.soname);
        } else {
            assert(v.objects[i].requested != v.objects[j].requested);
        }
    }
    assert forall|i: int| 1 <= i < s.objects.len() implies (#[trigger] s.objects[i]).requested
        != s.interp by {
        if i < n {
            assert(v.objects[i].requested != v.interp);
        }
    }
    assert forall|i: int| 0 <= i < s.objects.len() implies (#[trigger] s.objects[i]).id
        == layout::narrow(i) by {
        if i < n {
            assert(v.objects[i].id == layout::narrow(i));
        }
    }
    assert forall|i: int| 1 <= i < s.objects.len() implies asked_before(
        s.objects,
        i,
        #[trigger] s.objects[i],
    ) by {
        if i < n {
            assert(asked_before(v.objects, i, v.objects[i]));
            let p = choose|p: int|
                0 <= p < i && v.objects[i].needed_by == Some((#[trigger] v.objects[p]).id)
                    && v.objects[p].facts.needed.contains(v.objects[i].requested);
            assert(s.objects[p] == v.objects[p]);
        } else {
            let p = choose|p: int|
                0 <= p < n && w.needed_by == (#[trigger] v.objects[p]).id && w.asker
                    == v.objects[p].path && v.objects[p].facts.needed.contains(w.soname);
            assert(s.objects[p] == v.objects[p]);
        }
    }
    assert forall|i: int, j: int| #![trigger s.objects[i], s.objects[j]] 0 <= i && j == i + 1 && j
        < s.objects.len() implies s.objects[j].base == advanced(
        s.objects[i].base,
        s.objects[i].maps,
    ) by {
        if j < n {
            assert(v.objects[j].base == advanced(v.objects[i].base, v.objects[i].maps));
        } else {
            assert(v.objects.last() == v.objects[i]);
        }
    }
    let more = wants(facts.needed, path, obj.id);
    let rest = v.queue.drop_first();
    assert forall|q: int| 0 <= q < s.queue.len() implies genuine(
        s.objects,
        #[trigger] s.queue[q],
    ) by {
        if q < rest.len() {
            assert(s.queue[q] == v.queue[q + 1]);
            let x = v.queue[q + 1];
            assert(genuine(v.objects, x));
            let p = choose|p: int|
                0 <= p < n && x.needed_by == (#[trigger] v.objects[p]).id && x.asker
                    == v.objects[p].path && v.objects[p].facts.needed.contains(x.soname);
            assert(s.objects[p] == v.objects[p]);
        } else {
            let k = q - rest.len();
            assert(s.queue[q] == more[k]);
            assert(facts.needed[k] == more[k].soname);
            assert(s.objects[n].facts.needed.contains(s.queue[q].soname));
        }
    }
    assert forall|p: int, k: int|
        0 <= p < s.objects.len() && 0 <= k < s.objects[p].facts.needed.len() implies satisfied(
        s.objects,
        s.interp,
        #[trigger] s.objects[p].facts.needed[k],
    ) || queued(s.queue, s.objects[p].facts.needed[k]) by {
        let name = s.objects[p].facts.needed[k];
        if p == n {
            assert(s.queue[rest.len() + k] == more[k]);
            assert(s.queue[rest.len() + k].soname == name);
        } else {
            assert(v.objects[p].facts.needed[k] == name);
            if loaded(v.objects, name) {
                let i = choose|i: int|
                    0 <= i < n && (#[trigger] v.objects[i]).requested == name;
                assert(s.objects[i].requested == name);
            } else if name != v.interp {
                let q = choose|q: int|
                    0 <= q < v.queue.len() && (#[trigger] v.queue[q]).soname == name;
                if q == 0 {
                    assert(s.objects[n].requested == name);
                } else {
                    assert(s.queue[q - 1] == v.queue[q]);
                    assert(s.queue[q - 1].soname == name);
                }
            }
        }
    }
}

// Laws.

/// No library is loaded twice, however many objects ask for it.
pub proof fn law_each_library_is_loaded_once(objs: Seq<ObjectView>, i: int, j: int)
    requires
        complete(objs),
        0 <= i < j < objs.len(),
    ensures
        objs[i].requested != objs[j].requested,
{
}

/// The interpreter is not followed: it is no dependency, whoever names it.
pub proof fn law_the_interpreter_is_not_followed(objs: Seq<ObjectView>, i: int)
    requires
        complete(objs),
        1 <= i < objs.len(),
    ensures
        objs[i].requested != interp_name(objs[0].facts.interp),
{
}

/// Everything that any object needs is in the process: it is the interpreter, or it is
/// loaded.
pub proof fn law_the_closure_is_closed(objs: Seq<ObjectView>, p: int, k: int)
    requires
        complete(objs),
        0 <= p < objs.len(),
        0 <= k < objs[p].facts.needed.len(),
    ensures
        objs[p].facts.needed[k] == interp_name(objs[0].facts.interp) || loaded(
            objs,
            objs[p].facts.needed[k],
        ),
{
}

/// Every object but the program is there because an object met before it needs it, so in
/// relocation order, which is the reverse, it comes before that object.
pub proof fn law_what_asked_for_an_object_is_relocated_after_it(objs: Seq<ObjectView>, i: int)
    requires
        complete(objs),
        1 <= i < objs.len(),
    ensures
        exists|p: int|
            0 <= p < i && objs[i].needed_by == Some((#[trigger] objs[p]).id)
                && objs[p].facts.needed.contains(objs[i].requested) && objs.reverse()[objs.len() - 1
                - p] == objs[p] && objs.reverse()[objs.len() - 1 - i] == objs[i],
{
    assert(asked_before(objs, i, objs[i]));
    let p = choose|p: int|
        0 <= p < i && objs[i].needed_by == Some((#[trigger] objs[p]).id)
            && objs[p].facts.needed.contains(objs[i].requested);
    assert(objs[p].id == objs[p].id);
}

/// A program without dependencies is a closure of one.
pub proof fn law_a_static_program_is_a_closure_of_one(objs: Seq<ObjectView>)
    requires
        complete(objs),
        objs[0].facts.needed.len() == 0,
    ensures
        objs.len() == 1,
{
    if objs.len() > 1 {
        assert(asked_before(objs, 1, objs[1]));
    }
}

/// Where an object lies in the address space.
pub open spec fn lies_at(o: ObjectView, va: int) -> bool {
    o.maps.len() > 0 && o.base + o.maps[0].vaddr <= va < o.base + model::top_of(o.maps)
}

proof fn lemma_bases(objs: Seq<ObjectView>, interp: Seq<char>, i: int, j: int)
    requires
        chained(objs, interp),
        0 <= i < j < objs.len(),
        forall|k: int|
            i <= k < j ==> (#[trigger] objs[k]).base + objs[k].reach() + GAP <= u64::MAX,
    ensures
        objs[j].base >= objs[i].base + objs[i].reach() + GAP - 4095,
    decreases j - i,
{
    assert(objs[j].base == advanced(objs[j - 1].base, objs[j - 1].maps));
    if j > i + 1 {
        lemma_bases(objs, interp, i, j - 1);
    }
}

/// Objects do not overlap in the address space, while the addresses fit, and where the
/// earlier is not linked so much higher than the later that this eats up the gap between
/// them. Position-independent objects are all linked near zero.
pub proof fn law_objects_do_not_overlap(objs: Seq<ObjectView>, i: int, j: int, va: int)
    requires
        complete(objs),
        0 <= i < j < objs.len(),
        objs[i].maps.len() > 0 && objs[j].maps.len() > 0 ==> objs[i].maps[0].vaddr
            <= objs[j].maps[0].vaddr + GAP - 4095,
        forall|k: int|
            i <= k < j ==> (#[trigger] objs[k]).base + objs[k].reach() + GAP <= u64::MAX,
    ensures
        !(lies_at(objs[i], va) && lies_at(objs[j], va)),
{
    lemma_bases(objs, interp_name(objs[0].facts.interp), i, j);
}

// The order of the walk.

/// The objects were asked for in the order in which the askers were met, and so are those that
/// are still wanted.
pub open spec fn in_turn(v: LoaderView) -> bool {
    &&& v.objects.len() > 0
    &&& forall|i: int| 1 <= i < v.objects.len() ==> (#[trigger] v.objects[i]).needed_by is Some
    &&& forall|i: int, j: int|
        #![trigger v.objects[i], v.objects[j]]
        1 <= i <= j < v.objects.len() ==> v.objects[i].needed_by->0 <= v.objects[j].needed_by->0
    &&& forall|i: int, q: int|
        #![trigger v.objects[i], v.queue[q]]
        1 <= i < v.objects.len() && 0 <= q < v.queue.len() ==> v.objects[i].needed_by->0
            <= v.queue[q].needed_by
    &&& forall|p: int, q: int|
        #![trigger v.queue[p], v.queue[q]]
        0 <= p <= q < v.queue.len() ==> v.queue[p].needed_by <= v.queue[q].needed_by
    &&& forall|q: int|
        0 <= q < v.queue.len() ==> (#[trigger] v.queue[q]).needed_by < v.objects.len()
}

/// The walk is breadth-first: what the objects met earlier need is loaded before what the
/// objects met later need.
pub proof fn law_the_walk_is_breadth_first(
    v: LoaderView,
    path: Seq<char>,
    ledger: Ledger,
    facts: SummaryView,
)
    ensures
        in_turn(begun(path, ledger, facts)),
        in_turn(v) ==> in_turn(v.pruned()),
        in_turn(v) && v.waiting() ==> in_turn(v.supplied(path, ledger, facts)),
    decreases v.queue.len(),
{
    if in_turn(v) && v.queue.len() > 0 {
        let d = LoaderView { queue: v.queue.drop_first(), ..v };
        assert(in_turn(d)) by {
            assert forall|i: int, q: int|
                #![trigger d.objects[i], d.queue[q]]
                1 <= i < d.objects.len() && 0 <= q < d.queue.len() implies d.objects[i].needed_by->0
                <= d.queue[q].needed_by by {
                assert(d.queue[q] == v.queue[q + 1]);
            }
            assert forall|p: int, q: int|
                #![trigger d.queue[p], d.queue[q]]
                0 <= p <= q < d.queue.len() implies d.queue[p].needed_by <= d.queue[q].needed_by by {
                assert(d.queue[p] == v.queue[p + 1] && d.queue[q] == v.queue[q + 1]);
            }
            assert forall|q: int| 0 <= q < d.queue.len() implies (#[trigger] d.queue[q]).needed_by
                < d.objects.len() by {
                assert(d.queue[q] == v.queue[q + 1]);
            }
        }
        if satisfied(v.objects, v.interp, v.queue[0].soname) {
            law_the_walk_is_breadth_first(d, path, ledger, facts);
        } else {
            lemma_supplied_in_turn(v, path, ledger, facts);
        }
    }
}

proof fn lemma_supplied_in_turn(v: LoaderView, path: Seq<char>, ledger: Ledger, facts: SummaryView)
    requires
        in_turn(v),
        v.waiting(),
    ensures
        in_turn(v.supplied(path, ledger, facts)),
{
    let s = v.supplied(path, ledger, facts);
    let n = v.objects.len() as int;
    let w = v.queue[0];
    let m = v.queue.len() - 1;
    let id = layout::narrow(n);
    assert forall|i: int| 0 <= i < n implies s.objects[i] == v.objects[i] by {}
    assert(s.objects[n].needed_by == Some(w.needed_by));
    assert forall|q: int| 0 <= q < s.queue.len() implies (#[trigger] s.queue[q]) == if q < m {
        v.queue[q + 1]
    } else {
        WantedView { soname: facts.needed[q - m], asker: path, needed_by: id }
    } by {
        if q < m {
            assert(s.queue[q] == v.queue.drop_first()[q]);
        } else {
            assert(s.queue[q] == wants(facts.needed, path, id)[q - m]);
        }
    }
    assert forall|i: int, j: int|
        #![trigger s.objects[i], s.objects[j]]
        1 <= i <= j < s.objects.len() implies s.objects[i].needed_by->0
        <= s.objects[j].needed_by->0 by {
        if j == n && i < n {
            assert(v.objects[i].needed_by->0 <= v.queue[0].needed_by);
        }
    }
    assert forall|i: int, q: int|
        #![trigger s.objects[i], s.queue[q]]
        1 <= i < s.objects.len() && 0 <= q < s.queue.len() implies s.objects[i].needed_by->0
        <= s.queue[q].needed_by by {
        if i < n {
            assert(v.objects[i].needed_by->0 <= v.queue[0].needed_by);
        }
        assert(v.queue[0].needed_by < n);
        if q < m {
            assert(v.queue[0].needed_by <= v.queue[q + 1].needed_by);
        }
    }
    assert forall|p: int, q: int|
        #![trigger s.queue[p], s.queue[q]]
        0 <= p <= q < s.queue.len() implies s.queue[p].needed_by <= s.queue[q].needed_by by {
        if q < m {
            assert(v.queue[p + 1].needed_by <= v.queue[q + 1].needed_by);
        } else if p < m {
            assert(v.queue[p + 1].needed_by < n);
        }
    }
    assert forall|q: int| 0 <= q < s.queue.len() implies (#[trigger] s.queue[q]).needed_by
        < s.objects.len() by {
        if q < m {
            assert(v.queue[q + 1].needed_by < n);
        }
    }
}

/// A file that is supplied is the object that was wanted first, asked for by whoever wanted it;
/// everything that was wanted after it is wanted still, in the same order, and then what the
/// new object needs, in the order of its table. The objects before it stay as they are.
pub proof fn law_requests_are_served_in_order(
    v: LoaderView,
    path: Seq<char>,
    ledger: Ledger,
    facts: SummaryView,
)
    requires
        v.waiting(),
    ensures
        ({
            let s = v.supplied(path, ledger, facts);
            let n = v.objects.len() as int;
            let m = v.queue.len() - 1;
            &&& s.objects.len() == n + 1
            &&& forall|i: int| 0 <= i < n ==> #[trigger] s.objects[i] == v.objects[i]
            &&& s.objects[n].requested == v.queue[0].soname
            &&& s.objects[n].needed_by == Some(v.queue[0].needed_by)
            &&& s.objects[n].path == path
            &&& s.objects[n].facts == facts
            &&& s.objects[n].maps == model::mappings_of(facts.segments)
            &&& s.objects[n].base == v.next_base
            &&& n <= u32::MAX ==> s.objects[n].id == n
            &&& s.queue.len() == m + facts.needed.len()
            &&& forall|q: int| 0 <= q < m ==> #[trigger] s.queue[q] == v.queue[q + 1]
            &&& forall|k: int|
                0 <= k < facts.needed.len() ==> (#[trigger] s.queue[m + k]).soname
                    == facts.needed[k] && s.queue[m + k].asker == path && s.queue[m + k].needed_by
                    == s.objects[n].id
            &&& s.interp == v.interp
        }),
{
    let s = v.supplied(path, ledger, facts);
    let m = v.queue.len() - 1;
    assert forall|k: int| 0 <= k < facts.needed.len() implies (#[trigger] s.queue[m + k]).soname
        == facts.needed[k] && s.queue[m + k].asker == path && s.queue[m + k].needed_by
        == s.objects[v.objects.len() as int].id by {
        assert(s.queue[m + k] == wants(
            facts.needed,
            path,
            s.objects[v.objects.len() as int].id,
        )[k]);
    }
}

/// Only requests that need no search are passed over: those for the interpreter and for what
/// is loaded. The first of the others is what is searched for next.
pub proof fn law_only_met_requests_are_passed_over(v: LoaderView)
    ensures
        ({
            let p = v.pruned();
            let dropped = v.queue.len() - p.queue.len();
            &&& dropped >= 0
            &&& p.queue == v.queue.skip(dropped)
            &&& forall|q: int|
                0 <= q < dropped ==> (#[trigger] v.queue[q]).soname == v.interp || loaded(
                    v.objects,
                    v.queue[q].soname,
                )
            &&& p.queue.len() > 0 ==> p.queue[0].soname != v.interp && !loaded(
                v.objects,
                p.queue[0].soname,
            )
            &&& p.objects == v.objects
            &&& p.interp == v.interp
            &&& p.next_base == v.next_base
        }),
    decreases v.queue.len(),
{
    if v.queue.len() > 0 && satisfied(v.objects, v.interp, v.queue[0].soname) {
        let d = LoaderView { queue: v.queue.drop_first(), ..v };
        law_only_met_requests_are_passed_over(d);
        let p = v.pruned();
        let k = d.queue.len() - p.queue.len();
        assert(p.queue =~= v.queue.skip(k + 1));
        assert forall|q: int| 0 <= q < k + 1 implies (#[trigger] v.queue[q]).soname == v.interp
            || loaded(v.objects, v.queue[q].soname) by {
            if q > 0 {
                assert(d.queue[q - 1] == v.queue[q]);
            }
        }
    } else {
        assert(v.queue.skip(0) =~= v.queue);
    }
}

/// Each object is placed on a page boundary, a mebibyte past the one before it, give or take
/// the rest of a page.
pub proof fn law_objects_are_a_gap_apart(objs: Seq<ObjectView>, i: int)
    requires
        complete(objs),
        0 <= i < objs.len() - 1,
        objs[i].base + objs[i].reach() + 0x10_0000 <= u64::MAX,
    ensures
        objs[0].base == 0,
        objs[i + 1].base % 4096 == 0,
        objs[i].base + objs[i].reach() + 0x10_0000 - 4096 < objs[i + 1].base,
        objs[i + 1].base <= objs[i].base + objs[i].reach() + 0x10_0000,
{
    let j = i + 1;
    assert(objs[j].base == advanced(objs[i].base, objs[i].maps));
}

// Where a library is looked for.

/// A list of directories is read part by part: each part between colons is one, in order, but
/// for the empty ones.
pub proof fn law_a_path_is_its_parts(part: Seq<char>, rest: Seq<char>)
    requires
        forall|i: int| 0 <= i < part.len() ==> #[trigger] part[i] != ':',
    ensures
        colon_parts(Seq::empty()) == Seq::<Seq<char>>::empty(),
        part.len() > 0 ==> colon_parts(part) == seq![part],
        part.len() > 0 ==> colon_parts(part + seq![':'] + rest) == seq![part] + colon_parts(rest),
        colon_parts(seq![':'] + rest) == colon_parts(rest),
{
    reveal_strlit(":");
    assert(":"@ =~= seq![':']);
    let none = Seq::<char>::empty();
    lemma_no_colon(none);
    lemma_no_colon(part);
    lemma_first_colon(part, rest);
    lemma_first_colon(none, rest);
    assert(none + seq![':'] + rest =~= seq![':'] + rest);
    assert(Seq::<Seq<char>>::empty() + colon_parts(rest) =~= colon_parts(rest));
}

proof fn lemma_no_colon(part: Seq<char>)
    requires
        forall|i: int| 0 <= i < part.len() ==> #[trigger] part[i] != ':',
    ensures
        colon_parts(part) == kept(part),
{
    reveal_strlit(":");
    scan::law_a_search_finds_the_first(part, ":"@);
    if let Some(k) = scan::find(part, ":"@) {
        assert(part.subrange(k, k + 1)[0] == part[k]);
    }
}

proof fn lemma_first_colon(part: Seq<char>, rest: Seq<char>)
    requires
        forall|i: int| 0 <= i < part.len() ==> #[trigger] part[i] != ':',
    ensures
        colon_parts(part + seq![':'] + rest) == kept(part) + colon_parts(rest),
{
    reveal_strlit(":");
    let s = part + seq![':'] + rest;
    let n = part.len() as int;
    scan::law_a_search_finds_the_first(s, ":"@);
    assert(s.subrange(n, n + 1) =~= ":"@);
    if let Some(k) = scan::find(s, ":"@) {
        if k < n {
            assert(s.subrange(k, k + 1)[0] == s[k]);
            assert(s[k] == part[k]);
        }
    }
    assert(s.take(n) =~= part);
    assert(s.skip(n + 1) =~= rest);
}

/// The directories of the environment are searched before the default ones, each list in its
/// own order.
pub proof fn law_the_environment_is_searched_first(path: SearchPath, i: int)
    requires
        0 <= i < path.env@.len() + path.default@.len(),
    ensures
        path.dirs().len() == path.env@.len() + path.default@.len(),
        path.dirs()[i] == if i < path.env@.len() {
            path.env@[i]@
        } else {
            path.default@[i - path.env@.len()]@
        },
{
}

/// A library is looked for in a directory under its own name: the directory, one separator,
/// the name. A name that is a path of its own stands for itself.
pub proof fn law_a_place_is_a_directory_and_a_name(dir: Seq<char>, name: Seq<char>)
    ensures
        name.len() > 0 && name[0] == '/' ==> in_dir(dir, name) == name,
        dir.len() > 0 && dir.last() != '/' && (name.len() == 0 || name[0] != '/') ==> in_dir(
            dir,
            name,
        ) == dir + seq!['/'] + name && in_dir(dir.push('/'), name) == in_dir(dir, name),
{
    reveal_strlit("/");
    assert("/"@ =~= seq!['/']);
    assert(dir.push('/') + name =~= dir + seq!['/'] + name);
}

/// The name of a file is what follows the last separator, or all of it where there is none.
pub proof fn law_a_base_name_follows_the_last_separator(dir: Seq<char>, name: Seq<char>)
    requires
        forall|i: int| 0 <= i < name.len() ==> #[trigger] name[i] != '/',
    ensures
        base_name(name) == name,
        base_name(dir + seq!['/'] + name) == name,
        interp_name(Some(dir + seq!['/'] + name)) == name,
        interp_name(None) == Seq::<char>::empty(),
{
    reveal_strlit("/");
    scan::law_a_search_back_finds_the_last(name, "/"@);
    if let Some(k) = scan::rfind(name, "/"@) {
        assert(name.subrange(k, k + 1)[0] == name[k]);
    }
    let s = dir + seq!['/'] + name;
    let n = dir.len() as int;
    scan::law_a_search_back_finds_the_last(s, "/"@);
    assert(s.subrange(n, n + 1) =~= "/"@);
    if let Some(k) = scan::rfind(s, "/"@) {
        if k > n {
            assert(s.subrange(k, k + 1)[0] == s[k]);
            assert(s[k] == name[k - n - 1]);
        }
    }
    assert(s.skip(n + 1) =~= name);
}

} // verus!
