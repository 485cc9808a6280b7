//! A process, and an observed load, as text.

use vstd::prelude::*;

use crate::audit;
use crate::columns;
use crate::compare;
use crate::compare::Verdict;
use crate::load;
use crate::load::{ObjectView, Process};
use crate::observed;
use crate::observed::Trace;
use crate::residency;
use crate::scan;
use crate::text;
use crate::trace::{StepKind, StepKindView};

verus! {

/// The first `n` texts, one to a line.
pub open spec fn lines(s: Seq<Seq<char>>, n: int) -> Seq<char>
    decreases n,
{
    if n <= 0 {
        Seq::empty()
    } else {
        lines(s, n - 1) + "    "@ + s[n - 1] + "\n"@
    }
}

fn lines_text(s: &Vec<String>) -> (r: String)
    ensures
        r@ == lines(text::views(s@), s@.len() as int),
{
    let mut out = String::new();
    let mut i: usize = 0;
    while i < s.len()
        invariant
            i <= s@.len(),
            out@ =~= lines(text::views(s@), i as int),
        decreases s.len() - i,
    {
        assert(text::views(s@)[i as int] == s@[i as int]@);
        out.append("    ");
        out.append(s[i].as_str());
        out.append("\n");
        i += 1;
    }
    out
}

fn str_lines_text(s: &Vec<&str>) -> (r: String)
    ensures
        r@ == lines(observed::str_views(s@), s@.len() as int),
{
    let mut out = String::new();
    let mut i: usize = 0;
    while i < s.len()
        invariant
            i <= s@.len(),
            out@ =~= lines(observed::str_views(s@), i as int),
        decreases s.len() - i,
    {
        assert(observed::str_views(s@)[i as int] == s@[i as int]@);
        out.append("    ");
        out.append(s[i]);
        out.append("\n");
        i += 1;
    }
    out
}

// An observed load.

/// The lines under a heading, where there are any.
pub open spec fn headed(heading: Seq<char>, s: Seq<Seq<char>>) -> Seq<char> {
    if s.len() == 0 {
        Seq::empty()
    } else {
        heading + lines(s, s.len() as int)
    }
}

/// The searches among the first `n` steps.
pub open spec fn searches(kinds: Seq<StepKindView>, n: int) -> Seq<char>
    decreases n,
{
    if n <= 0 {
        Seq::empty()
    } else {
        searches(kinds, n - 1) + match kinds[n - 1] {
            StepKindView::Search { library, tried } => "\n  search for "@ + library + "\n"@ + lines(
                tried,
                tried.len() as int,
            ),
            _ => Seq::empty(),
        }
    }
}

/// What the loader added between the two snapshots.
pub open spec fn growth(before: nat, after: nat) -> Seq<char> {
    if before < after {
        "  the dynamic linker added "@ + text::dec(after - before) + " mappings\n"@
    } else {
        Seq::empty()
    }
}

/// An observed load.
pub open spec fn trace_of(t: Trace) -> Seq<char> {
    let kinds = t.kinds();
    let n = kinds.len() as int;
    let objects = observed::objects_of(kinds, t.found(), n);
    t.target@ + "  "@ + text::dec(n) + " steps observed\n\n"@
        + "  objects, in the order the loader met them\n"@ + lines(objects, objects.len() as int)
        + headed(
        "\n  relocation order — dependencies first, the loader itself last\n"@,
        observed::relocated(kinds, n),
    ) + headed("\n  initialiser order — program last\n"@, observed::initialised(kinds, n))
        + searches(kinds, n) + "\n  "@ + text::dec(observed::binds(kinds, n) as int)
        + " symbols bound before the program ran\n"@ + "  mappings: "@ + text::dec(
        t.maps_at_interp@.len() as int,
    ) + " at the interpreter's first instruction, "@ + text::dec(t.maps_at_entry@.len() as int)
        + " at the program's entry\n"@ + growth(t.maps_at_interp@.len(), t.maps_at_entry@.len())
        + "\n"@
}

fn headed_text(heading: &str, s: &Vec<&str>) -> (r: String)
    ensures
        r@ == headed(heading@, observed::str_views(s@)),
{
    if s.len() == 0 {
        let r = String::new();
        assert(r@ =~= Seq::<char>::empty());
        r
    } else {
        let mut r = heading.to_string();
        r.append(str_lines_text(s).as_str());
        r
    }
}

fn searches_text(t: &Trace) -> (r: String)
    ensures
        r@ == searches(t.kinds(), t.kinds().len() as int),
{
    let ghost kinds = t.kinds();
    let mut out = String::new();
    let mut i: usize = 0;
    while i < t.steps.len()
        invariant
            i <= t.steps@.len(),
            kinds == t.kinds(),
            out@ =~= searches(kinds, i as int),
        decreases t.steps.len() - i,
    {
        assert(kinds[i as int] == t.steps@[i as int].kind@);
        if let StepKind::Search { library, tried } = &t.steps[i].kind {
            let mut part = "\n  search for ".to_string();
            part.append(library.as_str());
            part.append("\n");
            part.append(lines_text(tried).as_str());
            out.append(part.as_str());
        }
        i += 1;
    }
    out
}

/// An observed load.
#[must_use]
pub fn report_trace(t: &Trace) -> (r: String)
    ensures
        r@ == trace_of(*t),
{
    let mut r = t.target.clone();
    r.append("  ");
    r.append(text::dec_text(t.steps.len() as u64).as_str());
    r.append(" steps observed\n\n");
    r.append("  objects, in the order the loader met them\n");
    r.append(lines_text(&t.objects()).as_str());
    r.append(
        headed_text(
            "\n  relocation order — dependencies first, the loader itself last\n",
            &t.relocation_order(),
        ).as_str(),
    );
    r.append(headed_text("\n  initialiser order — program last\n", &t.init_order()).as_str());
    r.append(searches_text(t).as_str());
    r.append("\n  ");
    r.append(text::dec_text(t.bind_count() as u64).as_str());
    r.append(" symbols bound before the program ran\n");
    r.append("  mappings: ");
    r.append(text::dec_text(t.maps_at_interp.len() as u64).as_str());
    r.append(" at the interpreter's first instruction, ");
    r.append(text::dec_text(t.maps_at_entry.len() as u64).as_str());
    r.append(" at the program's entry\n");
    let mut grew = String::new();
    if t.maps_at_entry.len() > t.maps_at_interp.len() {
        grew.append("  the dynamic linker added ");
        grew.append(text::dec_text((t.maps_at_entry.len() - t.maps_at_interp.len()) as u64).as_str());
        grew.append(" mappings\n");
    }
    assert(grew@ =~= growth(t.maps_at_interp@.len(), t.maps_at_entry@.len()));
    r.append(grew.as_str());
    r.append("\n");
    r
}

// A process.

/// Who asked for an object, by name.
pub open spec fn asker(needed_by: Option<u32>, names: Seq<Seq<char>>) -> Seq<char> {
    match needed_by {
        None => "—"@,
        Some(n) => if n < names.len() {
            names[n as int]
        } else {
            text::dec(n as int)
        },
    }
}

/// The line of one object.
pub open spec fn object_line(o: ObjectView, name: Seq<char>, names: Seq<Seq<char>>) -> Seq<char> {
    "  "@ + columns::left(text::dec(o.id as int), 2) + " "@ + columns::left(name, 38) + " "@
        + columns::right(
        audit::grouped(text::dec(residency::resident_set(o.ranges).len() as int)),
        10,
    ) + " "@ + columns::right(audit::grouped(text::dec(o.startup() as int)), 9) + "  "@ + asker(
        o.needed_by,
        names,
    ) + "\n"@
}

/// The lines of the first `n` objects.
pub open spec fn object_lines(objs: Seq<ObjectView>, names: Seq<Seq<char>>, n: int) -> Seq<char>
    decreases n,
{
    if n <= 0 {
        Seq::empty()
    } else {
        object_lines(objs, names, n - 1) + object_line(objs[n - 1], names[n - 1], names)
    }
}

/// The share of the program in the relocations, where there are any.
pub open spec fn share_line(share: Option<Seq<char>>) -> Seq<char> {
    match share {
        Some(s) => "\n  the program is "@ + s
            + "% of the relocations its own startup performs\n"@,
        None => Seq::empty(),
    }
}

/// The whole dependency closure.
pub open spec fn process_of(
    path: Seq<char>,
    objs: Seq<ObjectView>,
    names: Seq<Seq<char>>,
    share: Option<Seq<char>>,
) -> Seq<char> {
    let n = objs.len() as int;
    path + "  "@ + text::dec(n) + " objects, "@ + audit::grouped(
        text::dec(load::mapped_in(objs, n) as int),
    ) + " mapped, "@ + audit::grouped(text::dec(load::relocations_in(objs, n) as int))
        + " startup relocations\n\n"@ + "  "@ + columns::left("#"@, 2) + " "@ + columns::left(
        "object"@,
        38,
    ) + " "@ + columns::right("mapped"@, 10) + " "@ + columns::right("relocs"@, 9)
        + "  needed by\n"@ + object_lines(objs, names, n)
        + "\n  relocation order — dependencies first\n"@ + lines(names.reverse(), n) + share_line(share)
        + "\n"@
}

fn object_text(p: &Process, i: usize, names: &Vec<String>) -> (r: String)
    requires
        i < p@.len() == names@.len(),
    ensures
        r@ == object_line(p@[i as int], names@[i as int]@, text::views(names@)),
{
    let o = &p.objects[i];
    assert(p@[i as int] == o@);
    let mut r = "  ".to_string();
    r.append(columns::at_left(text::dec_text(o.id as u64).as_str(), 2).as_str());
    r.append(" ");
    r.append(columns::at_left(names[i].as_str(), 38).as_str());
    r.append(" ");
    r.append(columns::at_right(audit::commas(o.image.resident_bytes()).as_str(), 10).as_str());
    r.append(" ");
    r.append(
        columns::at_right(audit::commas(o.startup_relocations() as u64).as_str(), 9).as_str(),
    );
    r.append("  ");
    let by = match o.needed_by {
        None => "—".to_string(),
        Some(n) => if (n as usize) < names.len() {
            assert(text::views(names@)[n as int] == names@[n as int]@);
            names[n as usize].clone()
        } else {
            text::dec_text(n as u64)
        },
    };
    r.append(by.as_str());
    r.append("\n");
    r
}

fn reversed(names: &Vec<String>) -> (r: Vec<String>)
    ensures
        text::views(r@) == text::views(names@).reverse(),
{
    let ghost all = text::views(names@);
    let mut out: Vec<String> = Vec::new();
    let mut n: usize = names.len();
    while n > 0
        invariant
            n <= names@.len(),
            all == text::views(names@),
            out@.len() == all.len() - n,
            forall|i: int| 0 <= i < out@.len() ==> (#[trigger] out@[i])@ == all.reverse()[i],
        decreases n,
    {
        n -= 1;
        assert(all[n as int] == names@[n as int]@);
        out.push(names[n].clone());
    }
    assert(text::views(out@) =~= all.reverse());
    out
}

/// The whole dependency closure. `names` are the file names of its objects, in their order;
/// `share` is the part of the relocations that the program performs itself, in percent,
/// where there are any.
#[must_use]
pub fn process(path: &str, p: &Process, names: &Vec<String>, share: Option<&str>) -> (r: String)
    requires
        names@.len() == p@.len(),
        load::relocations_in(p@, p@.len() as int) <= usize::MAX,
    ensures
        r@ == process_of(path@, p@, text::views(names@), crate::report::str_view(share)),
{
    let ghost views = text::views(names@);
    let mut rows = String::new();
    let mut i: usize = 0;
    while i < p.objects.len()
        invariant
            i <= p.objects@.len() == p@.len() == names@.len(),
            views == text::views(names@),
            rows@ =~= object_lines(p@, views, i as int),
        decreases p.objects.len() - i,
    {
        assert(views[i as int] == names@[i as int]@);
        rows.append(object_text(p, i, names).as_str());
        i += 1;
    }
    let mut r = path.to_string();
    r.append("  ");
    r.append(text::dec_text(p.objects.len() as u64).as_str());
    r.append(" objects, ");
    r.append(audit::commas(p.total_mapped()).as_str());
    r.append(" mapped, ");
    r.append(audit::commas(p.total_relocations() as u64).as_str());
    r.append(" startup relocations\n\n");
    r.append("  ");
    r.append(columns::at_left("#", 2).as_str());
    r.append(" ");
    r.append(columns::at_left("object", 38).as_str());
    r.append(" ");
    r.append(columns::at_right("mapped", 10).as_str());
    r.append(" ");
    r.append(columns::at_right("relocs", 9).as_str());
    r.append("  needed by\n");
    r.append(rows.as_str());
    r.append("\n  relocation order — dependencies first\n");
    let back = reversed(names);
    assert(text::views(back@).len() == p@.len());
    r.append(lines_text(&back).as_str());
    let mut part = String::new();
    if let Some(s) = share {
        part.append("\n  the program is ");
        part.append(s);
        part.append("% of the relocations its own startup performs\n");
    }
    assert(part@ =~= share_line(crate::report::str_view(share)));
    r.append(part.as_str());
    r.append("\n");
    r
}

// Resolution, ours against the loader's.

/// The verdict on where a library was found: `same` says that both paths name one file.
pub open spec fn resolution_verdict(theirs: Option<Seq<char>>, same: bool) -> Verdict {
    match theirs {
        Some(_) => if same {
            Verdict::Match
        } else {
            Verdict::Differ
        },
        None => Verdict::NotModelled,
    }
}

/// The line of one library.
pub open spec fn resolution_line(
    requested: Seq<char>,
    ours: Seq<char>,
    theirs: Option<Seq<char>>,
    same: bool,
) -> Seq<char> {
    "    "@ + resolution_verdict(theirs, same).spec_mark()@ + "  "@ + columns::left(requested, 24)
        + " "@ + ours + (match theirs {
        None => "   (the loader did not search for it)"@,
        Some(t) => if same {
            Seq::empty()
        } else {
            "\n              loader chose "@ + t
        },
    }) + "\n"@
}

/// Where the loader found a library.
pub open spec fn chosen(t: Trace, requested: Seq<char>) -> Option<Seq<char>> {
    if t.found().dom().contains(requested) {
        Some(t.found()[requested])
    } else {
        None
    }
}

/// The verdict on where a library was found, and its line. `ours` is the path that was
/// found for it; `same` says that it names the same file as the path the loader chose, if
/// it chose one.
#[must_use]
pub fn resolution(observed: &Trace, requested: &str, ours: &str, same: bool) -> (r: (
    Verdict,
    String,
))
    ensures
        r.0 == resolution_verdict(chosen(*observed, requested@), same),
        r.1@ == resolution_line(requested@, ours@, chosen(*observed, requested@), same),
{
    let theirs = observed.resolved(requested);
    let (verdict, tail): (Verdict, String) = match &theirs {
        None => (Verdict::NotModelled, "   (the loader did not search for it)".to_string()),
        Some(t) => if same {
            (Verdict::Match, String::new())
        } else {
            let mut s = "\n              loader chose ".to_string();
            s.append(t.as_str());
            (Verdict::Differ, s)
        },
    };
    proof {
        let want = match chosen(*observed, requested@) {
            None => "   (the loader did not search for it)"@,
            Some(t) => if same {
                Seq::empty()
            } else {
                "\n              loader chose "@ + t
            },
        };
        assert(tail@ =~= want);
    }
    let mut line = "    ".to_string();
    line.append(verdict.mark());
    line.append("  ");
    line.append(columns::at_left(requested, 24).as_str());
    line.append(" ");
    line.append(ours);
    line.append(tail.as_str());
    line.append("\n");
    (verdict, line)
}

// Order, ours against the loader's.

/// The objects, among the first `n`, that are not the loader itself.
pub open spec fn without_loader(order: Seq<Seq<char>>, n: int) -> Seq<Seq<char>>
    decreases n,
{
    if n <= 0 {
        Seq::empty()
    } else if scan::find(order[n - 1], "ld-linux"@) is None {
        without_loader(order, n - 1).push(order[n - 1])
    } else {
        without_loader(order, n - 1)
    }
}

/// Whether a dependency was relocated after the object that needs it.
pub open spec fn too_late(
    objs: Seq<ObjectView>,
    names: Seq<Seq<char>>,
    order: Seq<Seq<char>>,
    i: int,
) -> bool {
    match objs[i].needed_by {
        Some(p) => if p < objs.len() {
            match (
                compare::place_of(order, names[i], 0),
                compare::place_of(order, names[p as int], 0),
            ) {
                (Some(dep), Some(user)) => dep > user,
                _ => false,
            }
        } else {
            false
        },
        None => false,
    }
}

/// The dependencies among the first `n` objects that were relocated too late, in words.
pub open spec fn late_objects(
    objs: Seq<ObjectView>,
    names: Seq<Seq<char>>,
    order: Seq<Seq<char>>,
    n: int,
) -> Seq<Seq<char>>
    decreases n,
{
    if n <= 0 {
        Seq::empty()
    } else {
        let before = late_objects(objs, names, order, n - 1);
        if too_late(objs, names, order, n - 1) {
            before.push(names[n - 1] + " after "@ + names[(objs[n - 1].needed_by->0) as int])
        } else {
            before
        }
    }
}

/// How many of the first `n` objects were asked for by another.
pub open spec fn edges(objs: Seq<ObjectView>, n: int) -> nat
    decreases n,
{
    if n <= 0 {
        0
    } else {
        edges(objs, n - 1) + if objs[n - 1].needed_by is Some {
            1nat
        } else {
            0nat
        }
    }
}

/// The verdict on the order of relocation, in words.
///
/// The claim is that dependencies are relocated before the objects that need them: a
/// partial order, not a sequence. glibc also has a total order, produced by its own sort of
/// the link map, and it breaks ties between unrelated objects differently. Both satisfy the
/// claim. Asserting the sequence would be asserting glibc's tie-breaking, which is not
/// modelled and not part of the claim.
pub open spec fn order_line(
    edges: int,
    order: Seq<Seq<char>>,
    late: Seq<Seq<char>>,
) -> Seq<char> {
    "\n  relocation order      "@ + (if late.len() == 0 {
        "ok    "@ + text::dec(edges) + " dependency edge(s) respected; order "@
            + compare::bracketed(compare::debug_forms(order))
    } else {
        "DIFF  "@ + compare::bracketed(compare::debug_forms(late))
    }) + "\n"@
}

fn others(order: &Vec<&str>) -> (r: Vec<String>)
    ensures
        text::views(r@) == without_loader(observed::str_views(order@), order@.len() as int),
{
    let ghost all = observed::str_views(order@);
    let mut out: Vec<String> = Vec::new();
    assert(text::views(out@) =~= Seq::empty());
    let mut i: usize = 0;
    while i < order.len()
        invariant
            i <= order@.len(),
            all == observed::str_views(order@),
            text::views(out@) == without_loader(all, i as int),
        decreases order.len() - i,
    {
        let ghost before = out@;
        assert(all[i as int] == order@[i as int]@);
        let chars = text::chars_of(order[i]);
        if scan::position(chars.as_slice(), "ld-linux").is_none() {
            out.push(order[i].to_string());
            assert(text::views(out@) =~= text::views(before).push(all[i as int]));
        }
        i += 1;
    }
    out
}

fn rank(order: &Vec<String>, name: &str) -> (r: Option<usize>)
    ensures
        match r {
            Some(i) => compare::place_of(text::views(order@), name@, 0) == Some(i as int),
            None => compare::place_of(text::views(order@), name@, 0) is None,
        },
{
    let ghost all = text::views(order@);
    let mut i: usize = 0;
    while i < order.len()
        invariant
            i <= order@.len(),
            all == text::views(order@),
            compare::place_of(all, name@, 0) == compare::place_of(all, name@, i as int),
        decreases order.len() - i,
    {
        assert(all[i as int] == order@[i as int]@);
        if text::ends_with(order[i].as_str(), name) {
            return Some(i);
        }
        i += 1;
    }
    None
}

fn is_late(p: &Process, names: &Vec<String>, order: &Vec<String>, i: usize) -> (r: bool)
    requires
        i < p@.len() == names@.len(),
    ensures
        r == too_late(p@, text::views(names@), text::views(order@), i as int),
{
    let ghost views = text::views(names@);
    assert(p@[i as int] == p.objects@[i as int]@);
    assert(views[i as int] == names@[i as int]@);
    match p.objects[i].needed_by {
        Some(n) => if (n as usize) < p.objects.len() {
            assert(views[n as int] == names@[n as int]@);
            match (rank(order, names[i].as_str()), rank(order, names[n as usize].as_str())) {
                (Some(dep), Some(user)) => dep > user,
                _ => false,
            }
        } else {
            false
        },
        None => false,
    }
}

/// The verdict on the order of relocation against the loader's, and its line. `names` are
/// the file names of the objects, in their order.
#[must_use]
pub fn relocation_check(p: &Process, names: &Vec<String>, observed: &Trace) -> (r: (bool, String))
    requires
        names@.len() == p@.len(),
    ensures
        ({
            let kinds = observed.kinds();
            let n = p@.len() as int;
            let all = observed::relocated(kinds, kinds.len() as int);
            let order = without_loader(all, all.len() as int);
            let late = late_objects(p@, text::views(names@), order, n);
            &&& r.0 == (late.len() == 0)
            &&& r.1@ == order_line(edges(p@, n) as int, order, late)
        }),
{
    let theirs = observed.relocation_order();
    let order = others(&theirs);
    let ghost views = text::views(names@);
    let ghost seq = text::views(order@);
    let mut late: Vec<String> = Vec::new();
    assert(text::views(late@) =~= Seq::empty());
    let mut count: usize = 0;
    let mut i: usize = 0;
    while i < p.objects.len()
        invariant
            count <= i <= p.objects@.len() == p@.len() == names@.len(),
            views == text::views(names@),
            seq == text::views(order@),
            count == edges(p@, i as int),
            text::views(late@) == late_objects(p@, views, seq, i as int),
        decreases p.objects.len() - i,
    {
        let ghost before = late@;
        assert(p@[i as int] == p.objects@[i as int]@);
        if p.objects[i].needed_by.is_some() {
            count += 1;
        }
        if is_late(p, names, &order, i) {
            if let Some(n) = p.objects[i].needed_by {
                assert(views[i as int] == names@[i as int]@);
                assert(views[n as int] == names@[n as int]@);
                let mut t = names[i].clone();
                t.append(" after ");
                t.append(names[n as usize].as_str());
                let ghost added = t@;
                late.push(t);
                assert(text::views(late@) =~= text::views(before).push(added));
            }
        }
        i += 1;
    }
    let mut line = "\n  relocation order      ".to_string();
    let mut part = String::new();
    if late.len() == 0 {
        part.append("ok    ");
        part.append(text::dec_text(count as u64).as_str());
        part.append(" dependency edge(s) respected; order ");
        part.append(compare::debug_list(&order).as_str());
    } else {
        part.append("DIFF  ");
        part.append(compare::debug_list(&late).as_str());
    }
    proof {
        let l = text::views(late@);
        let want = if l.len() == 0 {
            "ok    "@ + text::dec(count as int) + " dependency edge(s) respected; order "@
                + compare::bracketed(compare::debug_forms(seq))
        } else {
            "DIFF  "@ + compare::bracketed(compare::debug_forms(l))
        };
        assert(part@ =~= want);
    }
    line.append(part.as_str());
    line.append("\n");
    (late.len() == 0, line)
}

/// The closing remark on the resolution.
pub open spec fn closing(wrong: int) -> Seq<char> {
    "\n"@ + if wrong > 0 {
        "  "@ + text::dec(wrong) + " divergence(s); see docs/CONFORMANCE.md\n\n"@
    } else {
        Seq::empty()
    }
}

/// The closing remark on the resolution.
#[must_use]
pub fn close(wrong: usize) -> (r: String)
    ensures
        r@ == closing(wrong as int),
{
    let mut r = "\n".to_string();
    let mut part = String::new();
    if wrong > 0 {
        part.append("  ");
        part.append(text::dec_text(wrong as u64).as_str());
        part.append(" divergence(s); see docs/CONFORMANCE.md\n\n");
    }
    assert(part@ =~= if wrong > 0 {
        "  "@ + text::dec(wrong as int) + " divergence(s); see docs/CONFORMANCE.md\n\n"@
    } else {
        Seq::empty()
    });
    r.append(part.as_str());
    r
}

// What the verdicts rest on.

/// Where a library is found agrees exactly where the loader searched for it and found the same
/// file, and differs exactly where it found another.
pub proof fn law_a_resolution_agrees_where_the_files_are_one(
    theirs: Option<Seq<char>>,
    same: bool,
)
    ensures
        resolution_verdict(theirs, same) is Match <==> theirs is Some && same,
        resolution_verdict(theirs, same) is Differ <==> theirs is Some && !same,
{
}

/// The name occurs at place `k` of the order, at the end of a path, and at none before it.
pub open spec fn comes_at(order: Seq<Seq<char>>, name: Seq<char>, k: int) -> bool {
    &&& 0 <= k < order.len()
    &&& text::ends(order[k], name)
    &&& forall|j: int| 0 <= j < k ==> !text::ends(#[trigger] order[j], name)
}

/// Object `i` comes later in the order than the object that asked for it.
pub open spec fn comes_late(
    objs: Seq<ObjectView>,
    names: Seq<Seq<char>>,
    order: Seq<Seq<char>>,
    i: int,
) -> bool {
    exists|a: int, b: int|
        {
            &&& objs[i].needed_by is Some
            &&& objs[i].needed_by->0 < objs.len()
            &&& #[trigger] comes_at(order, names[i], a)
            &&& #[trigger] comes_at(order, names[(objs[i].needed_by->0) as int], b)
            &&& a > b
        }
}

proof fn lemma_one_place(order: Seq<Seq<char>>, name: Seq<char>, a: int, b: int)
    requires
        comes_at(order, name, a),
        comes_at(order, name, b),
    ensures
        a == b,
{
    if a < b {
        assert(!text::ends(order[a], name));
    }
    if b < a {
        assert(!text::ends(order[b], name));
    }
}

proof fn lemma_comes_at(order: Seq<Seq<char>>, name: Seq<char>)
    ensures
        match compare::place_of(order, name, 0) {
            Some(k) => comes_at(order, name, k),
            None => forall|k: int| !#[trigger] comes_at(order, name, k),
        },
{
    compare::lemma_place_of(order, name, 0);
    if compare::place_of(order, name, 0) is None {
        assert forall|k: int| !#[trigger] comes_at(order, name, k) by {
            if 0 <= k < order.len() {
                assert(!text::ends(order[k], name));
            }
        }
    }
}

proof fn lemma_too_late(
    objs: Seq<ObjectView>,
    names: Seq<Seq<char>>,
    order: Seq<Seq<char>>,
    i: int,
)
    ensures
        too_late(objs, names, order, i) <==> comes_late(objs, names, order, i),
{
    if let Some(p) = objs[i].needed_by {
        lemma_comes_at(order, names[i]);
        lemma_comes_at(order, names[p as int]);
        if comes_late(objs, names, order, i) {
            let (a, b) = choose|a: int, b: int|
                {
                    &&& objs[i].needed_by is Some
                    &&& objs[i].needed_by->0 < objs.len()
                    &&& #[trigger] comes_at(order, names[i], a)
                    &&& #[trigger] comes_at(order, names[(objs[i].needed_by->0) as int], b)
                    &&& a > b
                };
            lemma_one_place(order, names[i], a, compare::place_of(order, names[i], 0)->0);
            lemma_one_place(
                order,
                names[p as int],
                b,
                compare::place_of(order, names[p as int], 0)->0,
            );
        }
    }
}

/// The order of relocation is right exactly where no object comes later than the one that asked
/// for it; objects that the loader did not relocate say nothing.
pub proof fn law_the_order_is_right_where_nothing_is_late(
    objs: Seq<ObjectView>,
    names: Seq<Seq<char>>,
    order: Seq<Seq<char>>,
    n: int,
)
    requires
        0 <= n <= objs.len(),
    ensures
        late_objects(objs, names, order, n).len() == 0 <==> forall|i: int|
            0 <= i < n ==> !#[trigger] comes_late(objs, names, order, i),
    decreases n,
{
    if n > 0 {
        law_the_order_is_right_where_nothing_is_late(objs, names, order, n - 1);
        lemma_too_late(objs, names, order, n - 1);
        if late_objects(objs, names, order, n).len() == 0 {
            assert forall|i: int| 0 <= i < n implies !#[trigger] comes_late(
                objs,
                names,
                order,
                i,
            ) by {}
        } else if late_objects(objs, names, order, n - 1).len() > 0 {
            let i = choose|i: int| 0 <= i < n - 1 && #[trigger] comes_late(objs, names, order, i);
            assert(comes_late(objs, names, order, i));
        } else {
            assert(comes_late(objs, names, order, n - 1));
        }
    }
}

/// In a closure every object but the program has one that asked for it.
pub proof fn law_a_closure_has_an_edge_for_each_library(objs: Seq<ObjectView>)
    requires
        crate::load::complete(objs),
    ensures
        edges(objs, objs.len() as int) == objs.len() - 1,
{
    lemma_edges(objs, objs.len() as int);
}

proof fn lemma_edges(objs: Seq<ObjectView>, n: int)
    requires
        crate::load::complete(objs),
        1 <= n <= objs.len(),
    ensures
        edges(objs, n) == n - 1,
    decreases n,
{
    if n > 1 {
        lemma_edges(objs, n - 1);
        assert(crate::load::asked_before(objs, n - 1, objs[n - 1]));
    } else {
        assert(edges(objs, 0) == 0);
        assert(objs[0].needed_by is None);
    }
}

/// The loader's own name stands somewhere in the path.
pub open spec fn is_loader(path: Seq<char>) -> bool {
    exists|k: int|
        0 <= k <= path.len() - 8 && #[trigger] path.subrange(k, k + 8) == "ld-linux"@
}

/// The order is compared without the loader itself, and without anything else left out.
pub proof fn law_only_the_loader_is_left_out(order: Seq<Seq<char>>, last: Seq<char>)
    ensures
        without_loader(Seq::empty(), 0) == Seq::<Seq<char>>::empty(),
        ({
            let n = order.len() as int;
            without_loader(order.push(last), n + 1) == if is_loader(last) {
                without_loader(order, n)
            } else {
                without_loader(order, n).push(last)
            }
        }),
{
    reveal_strlit("ld-linux");
    let n = order.len() as int;
    lemma_without_loader_prefix(order, last, n);
    scan::law_a_search_finds_the_first(last, "ld-linux"@);
    if let Some(k) = scan::find(last, "ld-linux"@) {
        assert(last.subrange(k, k + 8) == "ld-linux"@);
    } else if is_loader(last) {
        let k = choose|k: int|
            0 <= k <= last.len() - 8 && #[trigger] last.subrange(k, k + 8) == "ld-linux"@;
        assert(last.subrange(k, k + "ld-linux"@.len()) != "ld-linux"@);
    }
}

proof fn lemma_without_loader_prefix(order: Seq<Seq<char>>, last: Seq<char>, n: int)
    requires
        0 <= n <= order.len(),
    ensures
        without_loader(order.push(last), n) == without_loader(order, n),
    decreases n,
{
    if n > 0 {
        lemma_without_loader_prefix(order, last, n - 1);
    }
}

} // verus!
