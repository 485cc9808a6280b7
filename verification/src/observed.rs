//! One observed load: the loader's steps, and the mappings before and after it ran.

use vstd::prelude::*;

use crate::columns;
use crate::scan;
use crate::text;
use crate::trace;
use crate::trace::{Step, StepKind, StepKindView, TraceError};

verus! {

/// One row of `info proc mappings`.
#[derive(Clone, PartialEq, Eq, Debug)]
pub struct MapRow {
    pub start: u64,
    pub end: u64,
    pub offset: u64,
    pub perms: String,
    pub path: String,
}

/// A [`MapRow`] with its texts as character sequences.
pub struct MapRowView {
    pub start: u64,
    pub end: u64,
    pub offset: u64,
    pub perms: Seq<char>,
    pub path: Seq<char>,
}

impl View for MapRow {
    type V = MapRowView;

    open spec fn view(&self) -> MapRowView {
        MapRowView {
            start: self.start,
            end: self.end,
            offset: self.offset,
            perms: self.perms@,
            path: self.path@,
        }
    }
}

/// The rows as views.
pub open spec fn row_views(s: Seq<MapRow>) -> Seq<MapRowView> {
    s.map_values(|r: MapRow| r@)
}

#[derive(Clone, PartialEq, Eq, Debug)]
pub struct Trace {
    pub target: String,
    pub steps: Vec<Step>,
    /// Mappings at the interpreter's first instruction: the kernel's work alone.
    pub maps_at_interp: Vec<MapRow>,
    /// Mappings at the program's entry: after the loader is done.
    pub maps_at_entry: Vec<MapRow>,
}

impl Default for Trace {
    fn default() -> (r: Self)
        ensures
            r.target@ == Seq::<char>::empty(),
            r.steps@ == Seq::<Step>::empty(),
            r.maps_at_interp@ == Seq::<MapRow>::empty(),
            r.maps_at_entry@ == Seq::<MapRow>::empty(),
    {
        Trace {
            target: String::new(),
            steps: Vec::new(),
            maps_at_interp: Vec::new(),
            maps_at_entry: Vec::new(),
        }
    }
}

// Names.

/// Whether a place that was tried is a path of the file system.
pub open spec fn is_path(p: Seq<char>) -> bool {
    p.len() > 0 && p[0] == '/' && scan::find(p, "cache="@) is None
}

/// The last path among the first `n` places that were tried.
pub open spec fn last_path(tried: Seq<Seq<char>>, n: int) -> Option<Seq<char>>
    decreases n,
{
    if n <= 0 {
        None
    } else if is_path(tried[n - 1]) {
        Some(tried[n - 1])
    } else {
        last_path(tried, n - 1)
    }
}

/// What the first `n` steps say of where each library was found. The last search wins.
pub open spec fn found(kinds: Seq<StepKindView>, n: int) -> Map<Seq<char>, Seq<char>>
    decreases n,
{
    if n <= 0 {
        Map::empty()
    } else {
        let before = found(kinds, n - 1);
        match kinds[n - 1] {
            StepKindView::Search { library, tried } => match last_path(tried, tried.len() as int) {
                Some(path) => before.insert(library, path),
                None => before,
            },
            _ => before,
        }
    }
}

/// The name under which an object is known: its path, where that was found.
pub open spec fn canonical_name(
    aliases: Map<Seq<char>, Seq<char>>,
    name: Seq<char>,
) -> Seq<char> {
    if aliases.dom().contains(name) {
        aliases[name]
    } else {
        name
    }
}

/// The pairs as views.
pub open spec fn pair_views(s: Seq<(String, String)>) -> Seq<(Seq<char>, Seq<char>)> {
    s.map_values(|p: (String, String)| (p.0@, p.1@))
}

/// The pairs, in strictly ascending order of their first halves.
pub open spec fn ascending(s: Seq<(Seq<char>, Seq<char>)>) -> bool {
    forall|i: int, j: int|
        #![trigger s[i], s[j]]
        0 <= i < j < s.len() ==> text::precedes(s[i].0, s[j].0)
}

/// The pairs as a map.
pub open spec fn paired(s: Seq<(Seq<char>, Seq<char>)>) -> Map<Seq<char>, Seq<char>> {
    Map::new(
        |k: Seq<char>| exists|i: int| 0 <= i < s.len() && (#[trigger] s[i]).0 == k,
        |k: Seq<char>| s[choose|i: int| 0 <= i < s.len() && (#[trigger] s[i]).0 == k].1,
    )
}

/// In an ascending list a key stands at one place only.
proof fn lemma_paired_at(s: Seq<(Seq<char>, Seq<char>)>, i: int)
    requires
        ascending(s),
        0 <= i < s.len(),
    ensures
        paired(s).dom().contains(s[i].0),
        paired(s)[s[i].0] == s[i].1,
{
    let k = s[i].0;
    let j = choose|j: int| 0 <= j < s.len() && (#[trigger] s[j]).0 == k;
    assert(0 <= j < s.len() && s[j].0 == k);
    text::lemma_precedes_total(k, k);
    if j < i {
        assert(text::precedes(s[j].0, s[i].0));
    } else if i < j {
        assert(text::precedes(s[i].0, s[j].0));
    }
}

/// Setting the value at a key that is listed.
proof fn lemma_paired_update(s: Seq<(Seq<char>, Seq<char>)>, i: int, v: Seq<char>)
    requires
        ascending(s),
        0 <= i < s.len(),
    ensures
        ascending(s.update(i, (s[i].0, v))),
        paired(s.update(i, (s[i].0, v))) == paired(s).insert(s[i].0, v),
{
    let k = s[i].0;
    let t = s.update(i, (k, v));
    assert forall|a: int, b: int| #![trigger t[a], t[b]] 0 <= a < b < t.len() implies text::precedes(
        t[a].0,
        t[b].0,
    ) by {
        assert(text::precedes(s[a].0, s[b].0));
    }
    assert(paired(t) =~= paired(s).insert(k, v)) by {
        assert forall|x: Seq<char>|
            paired(t).dom().contains(x) == paired(s).insert(k, v).dom().contains(x) by {
            if paired(t).dom().contains(x) {
                let a = choose|a: int| 0 <= a < t.len() && (#[trigger] t[a]).0 == x;
                assert(s[a].0 == x);
            }
            if paired(s).insert(k, v).dom().contains(x) {
                if x == k {
                    assert(t[i].0 == x);
                } else {
                    let a = choose|a: int| 0 <= a < s.len() && (#[trigger] s[a]).0 == x;
                    assert(t[a].0 == x);
                }
            }
        }
        assert forall|x: Seq<char>| #[trigger] paired(t).dom().contains(x) implies paired(t)[x]
            == paired(s).insert(k, v)[x] by {
            let a = choose|a: int| 0 <= a < t.len() && (#[trigger] t[a]).0 == x;
            lemma_paired_at(t, a);
            lemma_paired_at(s, a);
            if x == k && a != i {
                lemma_paired_at(t, i);
                text::lemma_precedes_total(k, k);
                if a < i {
                    assert(text::precedes(t[a].0, t[i].0));
                } else {
                    assert(text::precedes(t[i].0, t[a].0));
                }
            }
        }
    }
}

/// Putting a key that is not listed in its place.
proof fn lemma_paired_insert(s: Seq<(Seq<char>, Seq<char>)>, i: int, k: Seq<char>, v: Seq<char>)
    requires
        ascending(s),
        0 <= i <= s.len(),
        forall|a: int| 0 <= a < i ==> text::precedes((#[trigger] s[a]).0, k),
        i < s.len() ==> text::precedes(k, s[i].0),
    ensures
        ascending(s.insert(i, (k, v))),
        paired(s.insert(i, (k, v))) == paired(s).insert(k, v),
{
    let t = s.insert(i, (k, v));
    assert forall|a: int, b: int| #![trigger t[a], t[b]] 0 <= a < b < t.len() implies text::precedes(
        t[a].0,
        t[b].0,
    ) by {
        if a < i && b > i {
            assert(t[a] == s[a] && t[b] == s[b - 1]);
            assert(text::precedes(s[a].0, s[b - 1].0));
        } else if a == i && b > i {
            assert(t[b] == s[b - 1]);
            if b - 1 > i {
                assert(text::precedes(s[i].0, s[b - 1].0));
                text::lemma_precedes_transitive(k, s[i].0, s[b - 1].0);
            }
        } else if a > i {
            assert(t[a] == s[a - 1] && t[b] == s[b - 1]);
            assert(text::precedes(s[a - 1].0, s[b - 1].0));
        } else if b < i {
            assert(t[a] == s[a] && t[b] == s[b]);
            assert(text::precedes(s[a].0, s[b].0));
        } else {
            assert(t[a] == s[a]);
        }
    }
    assert(paired(t) =~= paired(s).insert(k, v)) by {
        assert forall|x: Seq<char>|
            paired(t).dom().contains(x) == paired(s).insert(k, v).dom().contains(x) by {
            if paired(t).dom().contains(x) {
                let a = choose|a: int| 0 <= a < t.len() && (#[trigger] t[a]).0 == x;
                if a < i {
                    assert(s[a].0 == x);
                } else if a > i {
                    assert(s[a - 1].0 == x);
                }
            }
            if paired(s).insert(k, v).dom().contains(x) {
                if x == k {
                    assert(t[i].0 == x);
                } else {
                    let a = choose|a: int| 0 <= a < s.len() && (#[trigger] s[a]).0 == x;
                    if a < i {
                        assert(t[a].0 == x);
                    } else {
                        assert(t[a + 1].0 == x);
                    }
                }
            }
        }
        assert forall|x: Seq<char>| #[trigger] paired(t).dom().contains(x) implies paired(t)[x]
            == paired(s).insert(k, v)[x] by {
            let a = choose|a: int| 0 <= a < t.len() && (#[trigger] t[a]).0 == x;
            lemma_paired_at(t, a);
            lemma_paired_at(t, i);
            if x != k {
                if a < i {
                    lemma_paired_at(s, a);
                } else {
                    lemma_paired_at(s, a - 1);
                }
            }
        }
    }
}

/// A key between its neighbours in an ascending list is not listed.
proof fn lemma_paired_absent(s: Seq<(Seq<char>, Seq<char>)>, i: int, k: Seq<char>)
    requires
        ascending(s),
        0 <= i <= s.len(),
        forall|a: int| 0 <= a < i ==> text::precedes((#[trigger] s[a]).0, k),
        i < s.len() ==> text::precedes(k, s[i].0),
    ensures
        !paired(s).dom().contains(k),
{
    text::lemma_precedes_total(k, k);
    if paired(s).dom().contains(k) {
        let a = choose|a: int| 0 <= a < s.len() && (#[trigger] s[a]).0 == k;
        if a < i {
            assert(text::precedes(s[a].0, k));
        } else if a > i {
            assert(text::precedes(s[i].0, s[a].0));
            text::lemma_precedes_total(k, s[i].0);
        }
    }
}

/// The first place in an ascending list that does not come before `key`.
fn place(list: &Vec<(String, String)>, key: &str) -> (r: usize)
    ensures
        r <= list@.len(),
        forall|a: int|
            0 <= a < r ==> text::precedes((#[trigger] pair_views(list@)[a]).0, key@),
        r < list@.len() ==> !text::precedes(pair_views(list@)[r as int].0, key@),
{
    let mut i: usize = 0;
    while i < list.len() && text::is_before(list[i].0.as_str(), key)
        invariant
            i <= list@.len(),
            forall|a: int|
                0 <= a < i ==> text::precedes((#[trigger] pair_views(list@)[a]).0, key@),
        decreases list.len() - i,
    {
        assert(pair_views(list@)[i as int].0 == list@[i as int].0@);
        i += 1;
    }
    i
}

/// The last path that was tried.
fn last_path_of(tried: &Vec<String>) -> (r: Option<&String>)
    ensures
        match r {
            Some(p) => last_path(text::views(tried@), tried@.len() as int) == Some(p@),
            None => last_path(text::views(tried@), tried@.len() as int) is None,
        },
{
    let mut n: usize = tried.len();
    while n > 0
        invariant
            n <= tried@.len(),
            last_path(text::views(tried@), tried@.len() as int) == last_path(
                text::views(tried@),
                n as int,
            ),
        decreases n,
    {
        let p = &tried[n - 1];
        assert(text::views(tried@)[n - 1] == p@);
        let chars = text::chars_of(p.as_str());
        if chars.len() > 0 && chars[0] == '/' && scan::position(chars.as_slice(), "cache=").is_none() {
            return Some(p);
        }
        n -= 1;
    }
    None
}

/// The names that a step gives to objects, in the order in which they count as met.
pub open spec fn names(kind: StepKindView) -> Seq<Seq<char>> {
    match kind {
        StepKindView::Needed { file, needed_by } => seq![needed_by, file],
        StepKindView::LinkMap { file, .. } => seq![file],
        StepKindView::Scope { object, .. } => seq![object],
        StepKindView::Relocate { object, .. } => seq![object],
        StepKindView::Init { object } => seq![object],
        StepKindView::InitializeProgram { object } => seq![object],
        StepKindView::TransferControl { object } => seq![object],
        _ => Seq::empty(),
    }
}

/// The list, with one more name met.
pub open spec fn met(
    seen: Seq<Seq<char>>,
    aliases: Map<Seq<char>, Seq<char>>,
    name: Seq<char>,
) -> Seq<Seq<char>> {
    let known = canonical_name(aliases, name);
    if name.len() == 0 || seen.contains(known) {
        seen
    } else {
        seen.push(known)
    }
}

/// The list, with the first `n` of more names met.
pub open spec fn met_all(
    seen: Seq<Seq<char>>,
    aliases: Map<Seq<char>, Seq<char>>,
    more: Seq<Seq<char>>,
    n: int,
) -> Seq<Seq<char>>
    decreases n,
{
    if n <= 0 {
        seen
    } else {
        met(met_all(seen, aliases, more, n - 1), aliases, more[n - 1])
    }
}

/// The objects that the first `n` steps name.
pub open spec fn objects_of(
    kinds: Seq<StepKindView>,
    aliases: Map<Seq<char>, Seq<char>>,
    n: int,
) -> Seq<Seq<char>>
    decreases n,
{
    if n <= 0 {
        Seq::empty()
    } else {
        let more = names(kinds[n - 1]);
        met_all(objects_of(kinds, aliases, n - 1), aliases, more, more.len() as int)
    }
}

/// The objects that the first `n` steps relocate, in order.
pub open spec fn relocated(kinds: Seq<StepKindView>, n: int) -> Seq<Seq<char>>
    decreases n,
{
    if n <= 0 {
        Seq::empty()
    } else {
        match kinds[n - 1] {
            StepKindView::Relocate { object, .. } => relocated(kinds, n - 1).push(object),
            _ => relocated(kinds, n - 1),
        }
    }
}

/// The objects that the first `n` steps initialise, in order.
pub open spec fn initialised(kinds: Seq<StepKindView>, n: int) -> Seq<Seq<char>>
    decreases n,
{
    if n <= 0 {
        Seq::empty()
    } else {
        match kinds[n - 1] {
            StepKindView::Init { object } => initialised(kinds, n - 1).push(object),
            StepKindView::InitializeProgram { object } => initialised(kinds, n - 1).push(object),
            _ => initialised(kinds, n - 1),
        }
    }
}

/// The symbols that the first `n` steps bind for an object whose name ends in `stem`.
pub open spec fn bound_for(kinds: Seq<StepKindView>, stem: Seq<char>, n: int) -> Seq<Seq<char>>
    decreases n,
{
    if n <= 0 {
        Seq::empty()
    } else {
        let before = bound_for(kinds, stem, n - 1);
        match kinds[n - 1] {
            StepKindView::Bind { from, symbol, .. } => if text::ends(from, stem) {
                before.push(symbol)
            } else {
                before
            },
            _ => before,
        }
    }
}

/// How many of the first `n` steps bind a symbol.
pub open spec fn binds(kinds: Seq<StepKindView>, n: int) -> nat
    decreases n,
{
    if n <= 0 {
        0
    } else {
        binds(kinds, n - 1) + if kinds[n - 1] is Bind {
            1nat
        } else {
            0nat
        }
    }
}

/// The binding mode in the first relocation, from step `i` on, of an object whose name
/// ends in `stem`.
pub open spec fn lazily(kinds: Seq<StepKindView>, stem: Seq<char>, i: int) -> Option<bool>
    decreases kinds.len() - i,
{
    if i < 0 || i >= kinds.len() {
        None
    } else {
        match kinds[i] {
            StepKindView::Relocate { object, lazy } => if text::ends(object, stem) {
                Some(lazy)
            } else {
                lazily(kinds, stem, i + 1)
            },
            _ => lazily(kinds, stem, i + 1),
        }
    }
}

/// The borrowed texts as character sequences.
pub open spec fn str_views(s: Seq<&str>) -> Seq<Seq<char>> {
    s.map_values(|t: &str| t@)
}

fn meet(seen: &mut Vec<String>, aliases: &Vec<(String, String)>, name: &str)
    requires
        ascending(pair_views(aliases@)),
    ensures
        text::views(final(seen)@) == met(
            text::views(old(seen)@),
            paired(pair_views(aliases@)),
            name@,
        ),
{
    if text::is_blank(name) {
        return;
    }
    let known = canonical_of(aliases, name);
    if !text::lists(seen, known.as_str()) {
        let ghost before = seen@;
        let ghost added = known@;
        seen.push(known);
        assert(text::views(seen@) =~= text::views(before).push(added));
    }
}

/// The path that the list gives for a name.
fn path_of(aliases: &Vec<(String, String)>, name: &str) -> (r: Option<String>)
    requires
        ascending(pair_views(aliases@)),
    ensures
        match r {
            Some(path) => paired(pair_views(aliases@)).dom().contains(name@) && path@ == paired(
                pair_views(aliases@),
            )[name@],
            None => !paired(pair_views(aliases@)).dom().contains(name@),
        },
{
    let i = place(aliases, name);
    let ghost p = pair_views(aliases@);
    if i < aliases.len() && text::same(aliases[i].0.as_str(), name) {
        proof {
            assert(p[i as int] == (aliases@[i as int].0@, aliases@[i as int].1@));
            lemma_paired_at(p, i as int);
        }
        Some(aliases[i].1.clone())
    } else {
        proof {
            if i < p.len() {
                assert(p[i as int].0 == aliases@[i as int].0@);
                text::lemma_precedes_total(name@, p[i as int].0);
            }
            lemma_paired_absent(p, i as int, name@);
        }
        None
    }
}

/// The name under which the list knows an object.
fn canonical_of(aliases: &Vec<(String, String)>, name: &str) -> (r: String)
    requires
        ascending(pair_views(aliases@)),
    ensures
        r@ == canonical_name(paired(pair_views(aliases@)), name@),
{
    match path_of(aliases, name) {
        Some(path) => path,
        None => name.to_string(),
    }
}

impl Trace {
    /// What the steps are, in order.
    pub open spec fn kinds(&self) -> Seq<StepKindView> {
        trace::kinds(self.steps@)
    }

    /// Where each library was found.
    pub open spec fn found(&self) -> Map<Seq<char>, Seq<char>> {
        found(self.kinds(), self.kinds().len() as int)
    }

    /// SONAME to resolved path, from the searches the loader performed, by SONAME.
    ///
    /// The loader names the same object two ways: `libc.so.6` when something asks for it,
    /// `/usr/lib/x86_64-linux-gnu/libc.so.6` once found. Listing both as separate objects
    /// is wrong, and matching a model against a trace needs one canonical name.
    ///
    /// Heuristic: the resolved path is the last real path in the search list. `LD_DEBUG`
    /// prints every path tried and does not mark which one succeeded, but a search that
    /// does not end in success ends the process.
    #[must_use]
    pub fn aliases(&self) -> (r: Vec<(String, String)>)
        ensures
            ascending(pair_views(r@)),
            paired(pair_views(r@)) == self.found(),
    {
        let mut out: Vec<(String, String)> = Vec::new();
        let ghost kinds = self.kinds();
        assert(paired(pair_views(out@)) =~= Map::empty());
        let mut i: usize = 0;
        while i < self.steps.len()
            invariant
                i <= self.steps@.len(),
                kinds == self.kinds(),
                ascending(pair_views(out@)),
                paired(pair_views(out@)) == found(kinds, i as int),
            decreases self.steps.len() - i,
        {
            assert(kinds[i as int] == self.steps@[i as int].kind@);
            if let StepKind::Search { library, tried } = &self.steps[i].kind {
                if let Some(path) = last_path_of(tried) {
                    let at = place(&out, library.as_str());
                    let ghost before = pair_views(out@);
                    if at < out.len() && text::same(out[at].0.as_str(), library.as_str()) {
                        let pair = (library.clone(), path.clone());
                        out.set(at, pair);
                        proof {
                            assert(before[at as int].0 == library@);
                            lemma_paired_update(before, at as int, path@);
                            assert(pair_views(out@) =~= before.update(
                                at as int,
                                (library@, path@),
                            ));
                        }
                    } else {
                        proof {
                            if at < before.len() {
                                assert(before[at as int].0 == out@[at as int].0@);
                                text::lemma_precedes_total(library@, before[at as int].0);
                            }
                            lemma_paired_insert(before, at as int, library@, path@);
                        }
                        out.insert(at, (library.clone(), path.clone()));
                        assert(pair_views(out@) =~= before.insert(at as int, (library@, path@)));
                    }
                }
            }
            i += 1;
        }
        out
    }

    /// Where the library of this name was found, if it was searched for.
    #[must_use]
    pub fn resolved(&self, name: &str) -> (r: Option<String>)
        ensures
            match r {
                Some(path) => self.found().dom().contains(name@) && path@ == self.found()[name@],
                None => !self.found().dom().contains(name@),
            },
    {
        path_of(&self.aliases(), name)
    }

    /// The name this trace should be indexed under: a resolved path where one is known.
    #[must_use]
    pub fn canonical(&self, name: &str) -> (r: String)
        ensures
            r@ == canonical_name(self.found(), name@),
    {
        canonical_of(&self.aliases(), name)
    }

    /// Objects in the order the loader first mentioned them, one entry each.
    ///
    /// Drawn from every step kind that names one, not just `LinkMap`: glibc emits
    /// "generating link map" only for objects it newly opens, so the executable itself
    /// and `ld.so` never appear there despite obviously being loaded.
    #[must_use]
    pub fn objects(&self) -> (r: Vec<String>)
        ensures
            text::views(r@) == objects_of(
                self.kinds(),
                self.found(),
                self.kinds().len() as int,
            ),
    {
        let aliases = self.aliases();
        let mut seen: Vec<String> = Vec::new();
        assert(text::views(seen@) =~= Seq::empty());
        let mut i: usize = 0;
        while i < self.steps.len()
            invariant
                i <= self.steps@.len(),
                ascending(pair_views(aliases@)),
                paired(pair_views(aliases@)) == self.found(),
                text::views(seen@) == objects_of(self.kinds(), self.found(), i as int),
            decreases self.steps.len() - i,
        {
            let ghost before = text::views(seen@);
            let kind = &self.steps[i].kind;
            assert(self.kinds()[i as int] == kind@);
            proof {
                reveal_with_fuel(met_all, 3);
            }
            match kind {
                StepKind::Needed { file, needed_by } => {
                    meet(&mut seen, &aliases, needed_by.as_str());
                    meet(&mut seen, &aliases, file.as_str());
                },
                StepKind::LinkMap { file, .. } => meet(&mut seen, &aliases, file.as_str()),
                StepKind::Scope { object, .. } => meet(&mut seen, &aliases, object.as_str()),
                StepKind::Relocate { object, .. } => meet(&mut seen, &aliases, object.as_str()),
                StepKind::Init { object } => meet(&mut seen, &aliases, object.as_str()),
                StepKind::InitializeProgram { object } => meet(
                    &mut seen,
                    &aliases,
                    object.as_str(),
                ),
                StepKind::TransferControl { object } => meet(&mut seen, &aliases, object.as_str()),
                _ => {},
            }
            i += 1;
        }
        seen
    }

    /// Relocation order, as observed.
    #[must_use]
    pub fn relocation_order(&self) -> (r: Vec<&str>)
        ensures
            str_views(r@) == relocated(self.kinds(), self.kinds().len() as int),
    {
        let mut out: Vec<&str> = Vec::new();
        assert(str_views(out@) =~= Seq::empty());
        let mut i: usize = 0;
        while i < self.steps.len()
            invariant
                i <= self.steps@.len(),
                str_views(out@) == relocated(self.kinds(), i as int),
            decreases self.steps.len() - i,
        {
            let ghost before = out@;
            assert(self.kinds()[i as int] == self.steps@[i as int].kind@);
            if let StepKind::Relocate { object, .. } = &self.steps[i].kind {
                out.push(object.as_str());
                assert(str_views(out@) =~= str_views(before).push(object@));
            }
            i += 1;
        }
        out
    }

    /// Initialiser order, program last.
    #[must_use]
    pub fn init_order(&self) -> (r: Vec<&str>)
        ensures
            str_views(r@) == initialised(self.kinds(), self.kinds().len() as int),
    {
        let mut out: Vec<&str> = Vec::new();
        assert(str_views(out@) =~= Seq::empty());
        let mut i: usize = 0;
        while i < self.steps.len()
            invariant
                i <= self.steps@.len(),
                str_views(out@) == initialised(self.kinds(), i as int),
            decreases self.steps.len() - i,
        {
            let ghost before = out@;
            assert(self.kinds()[i as int] == self.steps@[i as int].kind@);
            match &self.steps[i].kind {
                StepKind::Init { object } => {
                    out.push(object.as_str());
                    assert(str_views(out@) =~= str_views(before).push(object@));
                },
                StepKind::InitializeProgram { object } => {
                    out.push(object.as_str());
                    assert(str_views(out@) =~= str_views(before).push(object@));
                },
                _ => {},
            }
            i += 1;
        }
        out
    }

    /// How many symbols were bound.
    #[must_use]
    pub fn bind_count(&self) -> (r: usize)
        ensures
            r == binds(self.kinds(), self.kinds().len() as int),
    {
        let mut n: usize = 0;
        let mut i: usize = 0;
        while i < self.steps.len()
            invariant
                n <= i <= self.steps@.len(),
                n == binds(self.kinds(), i as int),
            decreases self.steps.len() - i,
        {
            assert(self.kinds()[i as int] == self.steps@[i as int].kind@);
            if let StepKind::Bind { .. } = &self.steps[i].kind {
                n += 1;
            }
            i += 1;
        }
        n
    }

    /// The symbols bound for the object whose name ends in `stem`, one entry per lookup.
    #[must_use]
    pub fn bound_symbols(&self, stem: &str) -> (r: Vec<&str>)
        ensures
            str_views(r@) == bound_for(self.kinds(), stem@, self.kinds().len() as int),
    {
        let mut out: Vec<&str> = Vec::new();
        assert(str_views(out@) =~= Seq::empty());
        let mut i: usize = 0;
        while i < self.steps.len()
            invariant
                i <= self.steps@.len(),
                str_views(out@) == bound_for(self.kinds(), stem@, i as int),
            decreases self.steps.len() - i,
        {
            let ghost before = out@;
            assert(self.kinds()[i as int] == self.steps@[i as int].kind@);
            if let StepKind::Bind { from, symbol, .. } = &self.steps[i].kind {
                if text::ends_with(from.as_str(), stem) {
                    out.push(symbol.as_str());
                    assert(str_views(out@) =~= str_views(before).push(symbol@));
                }
            }
            i += 1;
        }
        out
    }

    /// Whether the loader relocated the object whose name ends in `stem` lazily, where it
    /// says so at all.
    #[must_use]
    pub fn binds_lazily(&self, stem: &str) -> (r: Option<bool>)
        ensures
            r == lazily(self.kinds(), stem@, 0),
    {
        let mut i: usize = 0;
        while i < self.steps.len()
            invariant
                i <= self.steps@.len(),
                lazily(self.kinds(), stem@, 0) == lazily(self.kinds(), stem@, i as int),
            decreases self.steps.len() - i,
        {
            assert(self.kinds()[i as int] == self.steps@[i as int].kind@);
            if let StepKind::Relocate { object, lazy } = &self.steps[i].kind {
                if text::ends_with(object.as_str(), stem) {
                    return Some(*lazy);
                }
            }
            i += 1;
        }
        None
    }
}

// Mapping tables.

/// What one line of the table says, where it is a mapping.
pub open spec fn row_of(line: Seq<char>) -> Option<MapRowView> {
    let f = scan::words(line);
    if f.len() < 5 || f[4].len() == 0 || (f[4][0] != 'r' && f[4][0] != '-') {
        None
    } else {
        match (trace::hex(f[0]), trace::hex(f[1]), trace::hex(f[3])) {
            (Some(start), Some(end), Some(offset)) => Some(
                MapRowView { start, end, offset, perms: f[4], path: columns::joined(f.skip(5), " "@) },
            ),
            _ => None,
        }
    }
}

/// What the first `n` lines of the table say.
pub open spec fn rows_of(lines: Seq<Seq<char>>, n: int) -> Seq<MapRowView>
    decreases n,
{
    if n <= 0 {
        Seq::empty()
    } else {
        match row_of(lines[n - 1]) {
            Some(row) => rows_of(lines, n - 1).push(row),
            None => rows_of(lines, n - 1),
        }
    }
}

/// What a mapping table says.
pub open spec fn table(text: Seq<char>) -> Seq<MapRowView> {
    let lines = scan::lines(text);
    rows_of(lines, lines.len() as int)
}

fn join(w: &Vec<&[char]>, from: usize) -> (r: String)
    requires
        from <= w@.len(),
    ensures
        r@ == columns::joined(scan::slice_views(w@).skip(from as int), " "@),
{
    let ghost all = scan::slice_views(w@).skip(from as int);
    let mut out = String::new();
    let mut i: usize = from;
    while i < w.len()
        invariant
            from <= i <= w@.len(),
            all == scan::slice_views(w@).skip(from as int),
            out@ =~= columns::joined(all.take(i - from), " "@),
        decreases w.len() - i,
    {
        proof {
            assert(all.take(i - from + 1).drop_last() =~= all.take(i - from));
            assert(all[i - from] == w@[i as int]@);
        }
        if i > from {
            out.append(" ");
        }
        let word = text::string_of(w[i]);
        out.append(word.as_str());
        i += 1;
    }
    assert(all.take(w@.len() - from) =~= all);
    out
}

fn map_row(line: &[char]) -> (r: Option<MapRow>)
    ensures
        match r {
            Some(row) => row_of(line@) == Some(row@),
            None => row_of(line@) is None,
        },
{
    // Start End Size Offset Perms [objfile]
    let f = scan::split_words(line);
    let ghost w = scan::words(line@);
    assert(w == scan::slice_views(f@));
    if f.len() < 5 {
        return None;
    }
    assert(w[0] == f@[0]@ && w[1] == f@[1]@ && w[3] == f@[3]@ && w[4] == f@[4]@);
    let perms = f[4];
    if perms.len() == 0 || (perms[0] != 'r' && perms[0] != '-') {
        return None;
    }
    match (trace::hex_of(f[0]), trace::hex_of(f[1]), trace::hex_of(f[3])) {
        (Some(start), Some(end), Some(offset)) => Some(
            MapRow { start, end, offset, perms: text::string_of(perms), path: join(&f, 5) },
        ),
        _ => None,
    }
}

fn table_of(t: &[char]) -> (r: Vec<MapRow>)
    ensures
        row_views(r@) == table(t@),
{
    let lines = scan::split_lines(t);
    let ghost all = scan::lines(t@);
    let mut out: Vec<MapRow> = Vec::new();
    assert(row_views(out@) =~= Seq::empty());
    let mut i: usize = 0;
    while i < lines.len()
        invariant
            i <= lines@.len(),
            all == scan::slice_views(lines@),
            row_views(out@) == rows_of(all, i as int),
        decreases lines.len() - i,
    {
        let ghost before = out@;
        assert(all[i as int] == lines@[i as int]@);
        if let Some(row) = map_row(lines[i]) {
            let ghost added = row@;
            out.push(row);
            assert(row_views(out@) =~= row_views(before).push(added));
        }
        i += 1;
    }
    out
}

/// Parse gdb's `info proc mappings` table.
#[must_use]
pub fn parse_maps(text: &str) -> (r: Vec<MapRow>)
    ensures
        row_views(r@) == table(text@),
{
    let chars = text::chars_of(text);
    table_of(chars.as_slice())
}

// What goes to the outside, and what comes back.

/// Accepts what the target printed under `LD_DEBUG=all`, unless it is blank.
pub fn narration(text: String) -> (r: Result<String, TraceError>)
    ensures
        match r {
            Ok(t) => t@ == text@ && scan::trimmed(text@).len() > 0,
            Err(e) => scan::trimmed(text@).len() == 0 && e == (TraceError::NoOutput {
                what: "LD_DEBUG (is this a static binary?)",
            }),
        },
{
    let chars = text::chars_of(text.as_str());
    if scan::trim(chars.as_slice()).len() == 0 {
        Err(TraceError::NoOutput { what: "LD_DEBUG (is this a static binary?)" })
    } else {
        Ok(text)
    }
}

/// A file name as it can stand in a Python string: without quotes and backslashes.
pub open spec fn unquoted(s: Seq<char>) -> Seq<char>
    decreases s.len(),
{
    if s.len() == 0 {
        Seq::empty()
    } else if s.last() == '"' || s.last() == '\\' {
        unquoted(s.drop_last())
    } else {
        unquoted(s.drop_last()).push(s.last())
    }
}

/// The script that stops the target twice and prints its mappings each time.
pub open spec fn script(name: Seq<char>, entry: u64, position_independent: bool) -> Seq<char> {
    "\nimport gdb\ngdb.execute(\"set confirm off\")\ngdb.execute(\"set pagination off\")\ngdb.execute(\"starti\", to_string=True)\na = gdb.execute(\"info proc mappings\", to_string=True)\nbase = 0\nif "@
        + (if position_independent {
        "True"@
    } else {
        "False"@
    })
        + ":\n    for line in a.splitlines():\n        f = line.split()\n        if len(f) >= 6 and f[5].endswith(\""@
        + unquoted(name)
        + "\"):\n            base = int(f[0], 16)\n            break\ntry:\n    gdb.execute(\"tbreak *%d\" % (base + "@
        + text::dec(entry as int)
        + "), to_string=True)\n    gdb.execute(\"continue\", to_string=True)\nexcept gdb.error as e:\n    print(\"BREAK_FAILED\", e)\nb = gdb.execute(\"info proc mappings\", to_string=True)\nprint(\"===ELFA_SNAP_A===\")\nprint(a)\nprint(\"===ELFA_SNAP_B===\")\nprint(b)\n"@
}

fn unquote(s: &str) -> (r: String)
    ensures
        r@ == unquoted(s@),
{
    let chars = text::chars_of(s);
    let mut out = String::new();
    let mut i: usize = 0;
    while i < chars.len()
        invariant
            i <= chars@.len(),
            out@ == unquoted(chars@.take(i as int)),
        decreases chars.len() - i,
    {
        assert(chars@.take(i + 1).drop_last() =~= chars@.take(i as int));
        if chars[i] != '"' && chars[i] != '\\' {
            out.push(chars[i]);
        }
        i += 1;
    }
    assert(chars@.take(i as int) =~= chars@);
    out
}

/// The script that stops the target twice under gdb and prints its mappings each time.
///
/// The second breakpoint is the *program's* entry, computed from the load base gdb
/// reports plus `e_entry` from the file. Using the entry rather than `main` keeps
/// this working on stripped binaries, where there is no `main` to break on.
#[must_use]
pub fn gdb_script(name: &str, entry: u64, position_independent: bool) -> (r: String)
    ensures
        r@ == script(name@, entry, position_independent),
{
    let mut r =
        "\nimport gdb\ngdb.execute(\"set confirm off\")\ngdb.execute(\"set pagination off\")\ngdb.execute(\"starti\", to_string=True)\na = gdb.execute(\"info proc mappings\", to_string=True)\nbase = 0\nif ".to_string();
    if position_independent {
        r.append("True");
    } else {
        r.append("False");
    }
    r.append(
        ":\n    for line in a.splitlines():\n        f = line.split()\n        if len(f) >= 6 and f[5].endswith(\"",
    );
    // Embedded in a Python string literal, so anything that could close it goes.
    r.append(unquote(name).as_str());
    r.append(
        "\"):\n            base = int(f[0], 16)\n            break\ntry:\n    gdb.execute(\"tbreak *%d\" % (base + ",
    );
    r.append(text::dec_text(entry).as_str());
    r.append(
        "), to_string=True)\n    gdb.execute(\"continue\", to_string=True)\nexcept gdb.error as e:\n    print(\"BREAK_FAILED\", e)\nb = gdb.execute(\"info proc mappings\", to_string=True)\nprint(\"===ELFA_SNAP_A===\")\nprint(a)\nprint(\"===ELFA_SNAP_B===\")\nprint(b)\n",
    );
    r
}

/// The two tables that gdb printed, where it printed both.
pub open spec fn snapshots_in(text: Seq<char>) -> Option<(Seq<MapRowView>, Seq<MapRowView>)> {
    match scan::cut_at(text, "===ELFA_SNAP_A==="@) {
        Some((_, rest)) => match scan::cut_at(rest, "===ELFA_SNAP_B==="@) {
            Some((a, b)) => Some((table(a), table(b))),
            None => None,
        },
        None => None,
    }
}

/// The mappings at the interpreter's first instruction and at the program's entry, from
/// what gdb printed.
pub fn snapshots(text: &str) -> (r: Result<(Vec<MapRow>, Vec<MapRow>), TraceError>)
    ensures
        match r {
            Ok((a, b)) => snapshots_in(text@) == Some((row_views(a@), row_views(b@))),
            Err(e) => snapshots_in(text@) is None && e == (TraceError::NoOutput { what: "gdb" }),
        },
{
    let chars = text::chars_of(text);
    match scan::split_once(chars.as_slice(), "===ELFA_SNAP_A===") {
        Some((_, rest)) => match scan::split_once(rest, "===ELFA_SNAP_B===") {
            Some((a, b)) => Ok((table_of(a), table_of(b))),
            None => Err(TraceError::NoOutput { what: "gdb" }),
        },
        None => Err(TraceError::NoOutput { what: "gdb" }),
    }
}

// Laws.

/// The list of objects never names one twice, whatever the loader printed.
pub proof fn law_an_object_is_listed_once(
    kinds: Seq<StepKindView>,
    aliases: Map<Seq<char>, Seq<char>>,
    n: int,
)
    ensures
        objects_of(kinds, aliases, n).no_duplicates(),
    decreases n,
{
    if n > 0 {
        law_an_object_is_listed_once(kinds, aliases, n - 1);
        let more = names(kinds[n - 1]);
        lemma_met_all_once(objects_of(kinds, aliases, n - 1), aliases, more, more.len() as int);
    }
}

proof fn lemma_met_all_once(
    seen: Seq<Seq<char>>,
    aliases: Map<Seq<char>, Seq<char>>,
    more: Seq<Seq<char>>,
    n: int,
)
    requires
        seen.no_duplicates(),
    ensures
        met_all(seen, aliases, more, n).no_duplicates(),
    decreases n,
{
    if n > 0 {
        lemma_met_all_once(seen, aliases, more, n - 1);
    }
}

proof fn lemma_met_all_keeps(
    seen: Seq<Seq<char>>,
    aliases: Map<Seq<char>, Seq<char>>,
    more: Seq<Seq<char>>,
    n: int,
)
    requires
        n <= more.len(),
    ensures
        forall|x: Seq<char>|
            seen.contains(x) ==> #[trigger] met_all(seen, aliases, more, n).contains(x),
        forall|k: int|
            0 <= k < n && (#[trigger] more[k]).len() > 0 ==> met_all(
                seen,
                aliases,
                more,
                n,
            ).contains(canonical_name(aliases, more[k])),
    decreases n,
{
    if n > 0 {
        lemma_met_all_keeps(seen, aliases, more, n - 1);
        let before = met_all(seen, aliases, more, n - 1);
        let after = met_all(seen, aliases, more, n);
        assert forall|x: Seq<char>| before.contains(x) implies after.contains(x) by {
            let i = before.index_of(x);
            assert(after[i] == x);
        }
        if more[n - 1].len() > 0 {
            let known = canonical_name(aliases, more[n - 1]);
            if !before.contains(known) {
                assert(after[before.len() as int] == known);
            }
        }
    }
}

/// Every object that a step names is listed, under its resolved path where one is known.
pub proof fn law_every_named_object_is_listed(
    kinds: Seq<StepKindView>,
    aliases: Map<Seq<char>, Seq<char>>,
    n: int,
    i: int,
    k: int,
)
    requires
        0 <= i < n <= kinds.len(),
        0 <= k < names(kinds[i]).len(),
        names(kinds[i])[k].len() > 0,
    ensures
        objects_of(kinds, aliases, n).contains(canonical_name(aliases, names(kinds[i])[k])),
    decreases n,
{
    let more = names(kinds[n - 1]);
    let before = objects_of(kinds, aliases, n - 1);
    lemma_met_all_keeps(before, aliases, more, more.len() as int);
    if i < n - 1 {
        law_every_named_object_is_listed(kinds, aliases, n - 1, i, k);
    }
}

/// A resolved path is never one of the cache lines that a search prints.
pub proof fn law_aliases_are_paths(kinds: Seq<StepKindView>, n: int, name: Seq<char>)
    requires
        found(kinds, n).dom().contains(name),
    ensures
        is_path(found(kinds, n)[name]),
    decreases n,
{
    if n > 0 {
        match kinds[n - 1] {
            StepKindView::Search { library, tried } => {
                lemma_last_path(tried, tried.len() as int);
                if library != name || last_path(tried, tried.len() as int) is None {
                    law_aliases_are_paths(kinds, n - 1, name);
                }
            },
            _ => law_aliases_are_paths(kinds, n - 1, name),
        }
    }
}

proof fn lemma_last_path(tried: Seq<Seq<char>>, n: int)
    ensures
        last_path(tried, n) matches Some(p) ==> is_path(p),
    decreases n,
{
    if n > 0 {
        lemma_last_path(tried, n - 1);
    }
}

/// Step `k` is a search for `name` that tried a path of the file system, and the last such
/// path it tried is `path`.
pub open spec fn finds(kind: StepKindView, name: Seq<char>, path: Seq<char>) -> bool {
    kind matches StepKindView::Search { library, tried } && library == name && exists|j: int|
        0 <= j < tried.len() && #[trigger] tried[j] == path && is_path(path) && forall|m: int|
            j < m < tried.len() ==> !is_path(#[trigger] tried[m])
}

proof fn lemma_finds(tried: Seq<Seq<char>>, n: int)
    requires
        0 <= n <= tried.len(),
    ensures
        match last_path(tried, n) {
            Some(p) => exists|j: int|
                0 <= j < n && #[trigger] tried[j] == p && is_path(p) && forall|m: int|
                    j < m < n ==> !is_path(#[trigger] tried[m]),
            None => forall|m: int| 0 <= m < n ==> !is_path(#[trigger] tried[m]),
        },
    decreases n,
{
    if n > 0 {
        lemma_finds(tried, n - 1);
    }
}

/// What a search finds is the last path it tried, and it finds nothing exactly where it tried
/// none.
proof fn lemma_finds_exactly(kind: StepKindView, name: Seq<char>, path: Seq<char>)
    ensures
        finds(kind, name, path) <==> (kind matches StepKindView::Search { library, tried }
            && library == name && last_path(tried, tried.len() as int) == Some(path)),
{
    if let StepKindView::Search { library, tried } = kind {
        lemma_finds(tried, tried.len() as int);
        if finds(kind, name, path) {
            let j = choose|j: int|
                0 <= j < tried.len() && #[trigger] tried[j] == path && is_path(path)
                    && forall|m: int| j < m < tried.len() ==> !is_path(#[trigger] tried[m]);
            assert(is_path(tried[j]));
            let p = last_path(tried, tried.len() as int)->0;
            let k = choose|k: int|
                0 <= k < tried.len() && #[trigger] tried[k] == p && is_path(p) && forall|m: int|
                    k < m < tried.len() ==> !is_path(#[trigger] tried[m]);
            if j < k {
                assert(!is_path(tried[k]));
            }
            if k < j {
                assert(!is_path(tried[j]));
            }
        }
    }
}

/// A name is resolved exactly where some search for it tried a path, and then to the last
/// path that the last such search tried.
pub proof fn law_the_last_search_decides(kinds: Seq<StepKindView>, n: int, name: Seq<char>)
    requires
        0 <= n <= kinds.len(),
    ensures
        found(kinds, n).dom().contains(name) <==> exists|k: int, path: Seq<char>|
            0 <= k < n && #[trigger] finds(kinds[k], name, path),
        found(kinds, n).dom().contains(name) ==> exists|k: int|
            0 <= k < n && #[trigger] finds(kinds[k], name, found(kinds, n)[name]) && forall|
                m: int,
                other: Seq<char>,
            |
                k < m < n ==> !#[trigger] finds(kinds[m], name, other),
    decreases n,
{
    if n > 0 {
        law_the_last_search_decides(kinds, n - 1, name);
        let before = found(kinds, n - 1);
        let after = found(kinds, n);
        assert forall|other: Seq<char>| #[trigger] finds(kinds[n - 1], name, other) implies
            after.dom().contains(name) && after[name] == other by {
            lemma_finds_exactly(kinds[n - 1], name, other);
        }
        if after.dom().contains(name) {
            lemma_finds_exactly(kinds[n - 1], name, after[name]);
            if finds(kinds[n - 1], name, after[name]) {
            } else {
                assert(before.dom().contains(name) && before[name] == after[name]);
                let k = choose|k: int|
                    0 <= k < n - 1 && #[trigger] finds(kinds[k], name, before[name]) && forall|
                        m: int,
                        other: Seq<char>,
                    |
                        k < m < n - 1 ==> !#[trigger] finds(kinds[m], name, other);
                assert(finds(kinds[k], name, after[name]));
            }
        }
        if exists|k: int, path: Seq<char>|
            0 <= k < n - 1 && #[trigger] finds(kinds[k], name, path) {
            assert(before.dom().contains(name));
            assert(after.dom().contains(name));
        }
    }
}

/// The step relocates an object whose name ends in `stem`.
pub open spec fn relocates(kind: StepKindView, stem: Seq<char>) -> bool {
    kind matches StepKindView::Relocate { object, .. } && text::ends(object, stem)
}

/// How an object binds is what the loader said when it first relocated it, and is not known
/// exactly where it never did.
pub proof fn law_the_first_relocation_tells_the_mode(
    kinds: Seq<StepKindView>,
    stem: Seq<char>,
    from: int,
)
    requires
        0 <= from <= kinds.len(),
    ensures
        lazily(kinds, stem, from) is None <==> forall|k: int|
            from <= k < kinds.len() ==> !relocates(#[trigger] kinds[k], stem),
        forall|k: int|
            from <= k < kinds.len() && relocates(#[trigger] kinds[k], stem) && (forall|m: int|
                from <= m < k ==> !relocates(#[trigger] kinds[m], stem)) ==> lazily(
                kinds,
                stem,
                from,
            ) == Some(kinds[k]->Relocate_lazy),
    decreases kinds.len() - from,
{
    if from < kinds.len() {
        law_the_first_relocation_tells_the_mode(kinds, stem, from + 1);
        assert forall|k: int|
            from <= k < kinds.len() && relocates(#[trigger] kinds[k], stem) && (forall|m: int|
                from <= m < k ==> !relocates(#[trigger] kinds[m], stem)) implies lazily(
            kinds,
            stem,
            from,
        ) == Some(kinds[k]->Relocate_lazy) by {
            if from < k {
                assert(!relocates(kinds[from], stem));
            }
        }
    }
}

/// How many of the first `n` steps have this about them.
pub open spec fn steps_with(kinds: Seq<StepKindView>, about: spec_fn(StepKindView) -> bool, n: int) -> int
    decreases n,
{
    if n <= 0 {
        0
    } else {
        steps_with(kinds, about, n - 1) + if about(kinds[n - 1]) {
            1int
        } else {
            0int
        }
    }
}

/// The steps that relocate an object.
pub open spec fn relocating() -> spec_fn(StepKindView) -> bool {
    |k: StepKindView| k is Relocate
}

/// The steps that run initialisers.
pub open spec fn initialising() -> spec_fn(StepKindView) -> bool {
    |k: StepKindView| k is Init || k is InitializeProgram
}

/// The steps that bind a symbol for an object whose name ends in `stem`.
pub open spec fn binding_for(stem: Seq<char>) -> spec_fn(StepKindView) -> bool {
    |k: StepKindView| k matches StepKindView::Bind { from, .. } && text::ends(from, stem)
}

/// Each step that relocates, initialises or binds is listed once, at the place that the
/// number of such steps before it gives, and nothing else is.
pub proof fn law_steps_are_listed_in_order(kinds: Seq<StepKindView>, stem: Seq<char>, n: int)
    requires
        0 <= n <= kinds.len(),
    ensures
        relocated(kinds, n).len() == steps_with(kinds, relocating(), n),
        initialised(kinds, n).len() == steps_with(kinds, initialising(), n),
        bound_for(kinds, stem, n).len() == steps_with(kinds, binding_for(stem), n),
        forall|k: int|
            0 <= k < n ==> match #[trigger] kinds[k] {
                StepKindView::Relocate { object, .. } => relocated(kinds, n)[steps_with(
                    kinds,
                    relocating(),
                    k,
                )] == object,
                StepKindView::Init { object } => initialised(kinds, n)[steps_with(
                    kinds,
                    initialising(),
                    k,
                )] == object,
                StepKindView::InitializeProgram { object } => initialised(kinds, n)[steps_with(
                    kinds,
                    initialising(),
                    k,
                )] == object,
                StepKindView::Bind { from, symbol, .. } => text::ends(from, stem) ==> bound_for(
                    kinds,
                    stem,
                    n,
                )[steps_with(kinds, binding_for(stem), k)] == symbol,
                _ => true,
            },
    decreases n,
{
    if n > 0 {
        law_steps_are_listed_in_order(kinds, stem, n - 1);
        assert forall|k: int| 0 <= k < n - 1 implies match #[trigger] kinds[k] {
            StepKindView::Relocate { .. } => 0 <= steps_with(kinds, relocating(), k) < relocated(
                kinds,
                n - 1,
            ).len(),
            StepKindView::Init { .. } => 0 <= steps_with(kinds, initialising(), k) < initialised(
                kinds,
                n - 1,
            ).len(),
            StepKindView::InitializeProgram { .. } => 0 <= steps_with(kinds, initialising(), k)
                < initialised(kinds, n - 1).len(),
            StepKindView::Bind { from, .. } => text::ends(from, stem) ==> 0 <= steps_with(
                kinds,
                binding_for(stem),
                k,
            ) < bound_for(kinds, stem, n - 1).len(),
            _ => true,
        } by {
            lemma_counted(kinds, relocating(), k, n - 1);
            lemma_counted(kinds, initialising(), k, n - 1);
            lemma_counted(kinds, binding_for(stem), k, n - 1);
        }
    }
}

/// The number of such steps only grows.
pub proof fn lemma_counted(
    kinds: Seq<StepKindView>,
    about: spec_fn(StepKindView) -> bool,
    k: int,
    n: int,
)
    requires
        0 <= k <= n <= kinds.len(),
    ensures
        0 <= steps_with(kinds, about, k) <= steps_with(kinds, about, n),
        k < n && about(kinds[k]) ==> steps_with(kinds, about, k) < steps_with(kinds, about, n),
    decreases n,
{
    if n > 0 {
        if k < n {
            lemma_counted(kinds, about, k, n - 1);
        } else {
            lemma_counted(kinds, about, k - 1, n - 1);
        }
    }
}

// What a mapping table says, column by column.

/// The words behind one space each.
pub open spec fn spaced(words: Seq<Seq<char>>) -> Seq<char>
    decreases words.len(),
{
    if words.len() == 0 {
        Seq::empty()
    } else {
        spaced(words.drop_last()) + seq![' '] + words.last()
    }
}

proof fn lemma_joined_is_spaced(words: Seq<Seq<char>>)
    ensures
        words.len() > 0 ==> seq![' '] + columns::joined(words, " "@) == spaced(words),
        words.len() == 0 ==> columns::joined(words, " "@) == Seq::<char>::empty(),
    decreases words.len(),
{
    reveal_strlit(" ");
    assert(" "@ =~= seq![' ']);
    if words.len() == 1 {
        assert(spaced(words.drop_last()) =~= Seq::<char>::empty());
        assert(seq![' '] + columns::joined(words, " "@) =~= spaced(words));
    } else if words.len() > 1 {
        lemma_joined_is_spaced(words.drop_last());
        assert(seq![' '] + columns::joined(words, " "@) =~= spaced(words.drop_last()) + seq![' ']
            + words.last());
    }
}

/// A row is read column by column, whatever white space keeps the columns apart: the first is
/// where the mapping starts, the second where it ends, the third is not read, the fourth is
/// the place in the file, the fifth says what is allowed, and the rest is the name of the
/// file. It is a row exactly where there are five columns and the fifth starts as one that
/// says what is allowed does.
pub proof fn law_a_row_is_read_column_by_column(
    gaps: Seq<Seq<char>>,
    words: Seq<Seq<char>>,
    trail: Seq<char>,
    start: u64,
    end: u64,
    offset: u64,
)
    requires
        scan::apart(gaps, words),
        scan::blank(trail),
        words.len() > 0 ==> trace::writes(words[0], start),
        words.len() > 1 ==> trace::writes(words[1], end),
        words.len() > 3 ==> trace::writes(words[3], offset),
    ensures
        match row_of(scan::set_out(gaps, words) + trail) {
            Some(row) => {
                &&& words.len() >= 5
                &&& words[4][0] == 'r' || words[4][0] == '-'
                &&& row.start == start
                &&& row.end == end
                &&& row.offset == offset
                &&& row.perms == words[4]
                &&& words.len() == 5 ==> row.path == Seq::<char>::empty()
                &&& words.len() > 5 ==> seq![' '] + row.path == spaced(words.skip(5))
            },
            None => words.len() < 5 || (words[4][0] != 'r' && words[4][0] != '-'),
        },
{
    scan::law_words_are_found_again(gaps, words, trail);
    if words.len() >= 5 {
        assert(scan::solid(words[4]));
        trace::law_a_written_address_is_read_back(words[0], start);
        trace::law_a_written_address_is_read_back(words[1], end);
        trace::law_a_written_address_is_read_back(words[3], offset);
        lemma_joined_is_spaced(words.skip(5));
    }
}

/// A row needs its numbers: where the first, the second or the fourth column starts with
/// something that no number holds, the line is no row.
pub proof fn law_a_heading_is_no_row(
    gaps: Seq<Seq<char>>,
    words: Seq<Seq<char>>,
    trail: Seq<char>,
    column: int,
)
    requires
        scan::apart(gaps, words),
        scan::blank(trail),
        0 <= column < words.len(),
        column == 0 || column == 1 || column == 3,
        scan::digit_value(words[column][0], 16) is None,
        words[column][0] != '+',
    ensures
        row_of(scan::set_out(gaps, words) + trail) is None,
{
    scan::law_words_are_found_again(gaps, words, trail);
    let w = words[column];
    let none = Seq::<char>::empty();
    reveal_strlit("0x");
    assert(scan::solid(w));
    assert(none + w + none =~= w);
    scan::law_trimming_keeps_the_text(none, w, none);
    assert(!text::stands_at(w, "0x"@, 0)) by {
        if text::stands_at(w, "0x"@, 0) {
            assert(w.subrange(0, 2)[0] == w[0]);
        }
    }
    assert(scan::without_start(w, "0x"@) == w);
    assert(!scan::all_digits(w, 16));
    assert(trace::hex(w) is None);
}

proof fn lemma_rows_of(first: Seq<char>, lines: Seq<Seq<char>>, n: int)
    requires
        0 <= n <= lines.len(),
    ensures
        rows_of(seq![first] + lines, n + 1) == match row_of(first) {
            Some(row) => seq![row],
            None => Seq::empty(),
        } + rows_of(lines, n),
    decreases n,
{
    let all = seq![first] + lines;
    if n > 0 {
        lemma_rows_of(first, lines, n - 1);
        assert(all[n] == lines[n - 1]);
        assert(rows_of(all, n + 1) =~= match row_of(first) {
            Some(row) => seq![row],
            None => Seq::empty(),
        } + rows_of(lines, n));
    } else {
        assert(all[0] == first);
        assert(rows_of(all, 0) =~= Seq::empty());
        assert(rows_of(lines, 0) =~= Seq::empty());
        assert(rows_of(all, 1) =~= match row_of(first) {
            Some(row) => seq![row],
            None => Seq::empty(),
        } + rows_of(lines, 0));
    }
}

/// A table holds the rows of its lines, in order, and skips the lines that are none.
pub proof fn law_a_table_is_its_rows(line: Seq<char>, rest: Seq<char>)
    requires
        forall|i: int| 0 <= i < line.len() ==> #[trigger] line[i] != '\n',
        line.len() > 0 ==> line.last() != '\r',
    ensures
        table(Seq::empty()) == Seq::<MapRowView>::empty(),
        table(line.push('\n') + rest) == match row_of(line) {
            Some(row) => seq![row] + table(rest),
            None => table(rest),
        },
{
    scan::law_lines_end_at_line_feeds(line, rest);
    let more = scan::lines(rest);
    lemma_rows_of(line, more, more.len() as int);
    assert(Seq::<MapRowView>::empty() + table(rest) =~= table(rest));
}

} // verus!
