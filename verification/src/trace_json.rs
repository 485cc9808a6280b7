//! The observed load as `trace.json`.

use vstd::prelude::*;

use crate::observed;
use crate::observed::{MapRow, MapRowView, Trace};
use crate::scan;
use crate::text;
use crate::trace::{Step, StepKind, StepKindView};

verus! {

/// A character inside a JSON string.
pub open spec fn escaped_char(c: char) -> Seq<char> {
    if c == '"' {
        seq!['\\', '"']
    } else if c == '\\' {
        seq!['\\', '\\']
    } else if c == '\n' {
        seq!['\\', 'n']
    } else if c == '\t' {
        seq!['\\', 't']
    } else if (c as u32) < 0x20 {
        seq![
            '\\',
            'u',
            '0',
            '0',
            text::digit((c as u32 / 16) as int),
            text::digit((c as u32 % 16) as int),
        ]
    } else {
        seq![c]
    }
}

/// The inside of a JSON string.
pub open spec fn escaped(s: Seq<char>) -> Seq<char>
    decreases s.len(),
{
    if s.len() == 0 {
        Seq::empty()
    } else {
        escaped(s.drop_last()) + escaped_char(s.last())
    }
}

/// A JSON string.
pub open spec fn quoted(s: Seq<char>) -> Seq<char> {
    "\""@ + escaped(s) + "\""@
}

/// What stands between the first `n` items of a list and the next: nothing before the first.
pub open spec fn separated(s: Seq<char>, n: int) -> Seq<char> {
    if n > 0 {
        s + ","@
    } else {
        s
    }
}

/// The first `n` items of a JSON list of strings.
pub open spec fn items(s: Seq<Seq<char>>, n: int) -> Seq<char>
    decreases n,
{
    if n <= 0 {
        Seq::empty()
    } else {
        separated(items(s, n - 1), n - 1) + quoted(s[n - 1])
    }
}

/// A JSON list of strings.
pub open spec fn list(s: Seq<Seq<char>>) -> Seq<char> {
    "["@ + items(s, s.len() as int) + "]"@
}

/// One mapping.
pub open spec fn row_json(r: MapRowView) -> Seq<char> {
    "{\"start\":"@ + text::dec(r.start as int) + ",\"end\":"@ + text::dec(r.end as int)
        + ",\"offset\":"@ + text::dec(r.offset as int) + ",\"perms\":"@ + quoted(r.perms)
        + ",\"path\":"@ + quoted(r.path) + "}"@
}

/// The first `n` mappings.
pub open spec fn rows_json(s: Seq<MapRowView>, n: int) -> Seq<char>
    decreases n,
{
    if n <= 0 {
        Seq::empty()
    } else {
        separated(rows_json(s, n - 1), n - 1) + row_json(s[n - 1])
    }
}

/// A list of mappings.
pub open spec fn maps(s: Seq<MapRowView>) -> Seq<char> {
    "["@ + rows_json(s, s.len() as int) + "]"@
}

/// What a step says beside its kind.
pub open spec fn fields(kind: StepKindView) -> Seq<char> {
    match kind {
        StepKindView::Needed { file, needed_by } => ",\"file\":"@ + quoted(file)
            + ",\"needed_by\":"@ + quoted(needed_by),
        StepKindView::Search { library, tried } => ",\"library\":"@ + quoted(library)
            + ",\"tried\":"@ + list(tried),
        StepKindView::LinkMap { file, base, entry, phnum } => ",\"file\":"@ + quoted(file)
            + ",\"base\":"@ + text::dec(base as int) + ",\"entry\":"@ + text::dec(entry as int)
            + ",\"phnum\":"@ + text::dec(phnum as int),
        StepKindView::Scope { object, order } => ",\"object\":"@ + quoted(object) + ",\"order\":"@
            + list(order),
        StepKindView::Relocate { object, .. } => ",\"object\":"@ + quoted(object),
        StepKindView::Bind { from, to, symbol } => ",\"from\":"@ + quoted(from) + ",\"to\":"@
            + quoted(to) + ",\"symbol\":"@ + quoted(symbol),
        StepKindView::Init { object } => ",\"object\":"@ + quoted(object),
        StepKindView::InitializeProgram { object } => ",\"object\":"@ + quoted(object),
        StepKindView::TransferControl { object } => ",\"object\":"@ + quoted(object),
        StepKindView::Fini { object } => ",\"object\":"@ + quoted(object),
    }
}

/// One step.
pub open spec fn step_json(n: u32, kind: StepKindView) -> Seq<char> {
    "{\"n\":"@ + text::dec(n as int) + ",\"phase\":\""@ + kind.phase().spec_str()@
        + "\",\"kind\":\""@ + kind.tag()@ + "\""@ + fields(kind) + "}"@
}

/// The first `n` steps.
pub open spec fn steps_json(s: Seq<Step>, n: int) -> Seq<char>
    decreases n,
{
    if n <= 0 {
        Seq::empty()
    } else {
        separated(steps_json(s, n - 1), n - 1) + step_json(s[n - 1].n, s[n - 1].kind@)
    }
}

/// The first `n` aliases.
pub open spec fn aliases_json(s: Seq<(Seq<char>, Seq<char>)>, n: int) -> Seq<char>
    decreases n,
{
    if n <= 0 {
        Seq::empty()
    } else {
        separated(aliases_json(s, n - 1), n - 1) + quoted(s[n - 1].0) + ":"@ + quoted(s[n - 1].1)
    }
}

/// The kinds of steps, by name.
pub open spec fn spec_tag_at(k: int) -> &'static str {
    if k == 0 {
        "bind"
    } else if k == 1 {
        "fini"
    } else if k == 2 {
        "init"
    } else if k == 3 {
        "initialize-program"
    } else if k == 4 {
        "link-map"
    } else if k == 5 {
        "needed"
    } else if k == 6 {
        "relocate"
    } else if k == 7 {
        "scope"
    } else if k == 8 {
        "search"
    } else {
        "transfer-control"
    }
}

/// How many of the first `n` steps carry this tag.
pub open spec fn tagged(kinds: Seq<StepKindView>, tag: Seq<char>, n: int) -> nat
    decreases n,
{
    if n <= 0 {
        0
    } else {
        tagged(kinds, tag, n - 1) + if kinds[n - 1].tag()@ == tag {
            1nat
        } else {
            0nat
        }
    }
}

/// How many steps there are of each of the first `k` kinds, where there are any.
pub open spec fn counts(kinds: Seq<StepKindView>, k: int) -> Seq<char>
    decreases k,
{
    if k <= 0 {
        Seq::empty()
    } else {
        let before = counts(kinds, k - 1);
        let tag = spec_tag_at(k - 1)@;
        let n = tagged(kinds, tag, kinds.len() as int);
        if n == 0 {
            before
        } else {
            separated(before, before.len() as int) + "\""@ + tag + "\":"@ + text::dec(n as int)
        }
    }
}

/// The trace as JSON, given its aliases by name.
pub open spec fn document(trace: Trace, aliases: Seq<(Seq<char>, Seq<char>)>) -> Seq<char> {
    let kinds = trace.kinds();
    "{\"schema\":1,\"target\":"@ + quoted(trace.target@) + ",\"steps\":["@ + steps_json(
        trace.steps@,
        trace.steps@.len() as int,
    ) + "],\"objects\":"@ + list(
        observed::objects_of(kinds, trace.found(), kinds.len() as int),
    ) + ",\"aliases\":{"@ + aliases_json(aliases, aliases.len() as int)
        + "},\"maps_at_interp\":"@ + maps(observed::row_views(trace.maps_at_interp@))
        + ",\"maps_at_entry\":"@ + maps(observed::row_views(trace.maps_at_entry@))
        + ",\"counts\":{"@ + counts(kinds, 10) + "}}\n"@
}

fn json_str(s: &str) -> (r: String)
    ensures
        r@ == quoted(s@),
{
    let chars = text::chars_of(s);
    let mut out = "\"".to_string();
    let mut i: usize = 0;
    while i < chars.len()
        invariant
            i <= chars@.len(),
            out@ == "\""@ + escaped(chars@.take(i as int)),
        decreases chars.len() - i,
    {
        let ghost before = out@;
        let c = chars[i];
        if c == '"' {
            out.push('\\');
            out.push('"');
        } else if c == '\\' {
            out.push('\\');
            out.push('\\');
        } else if c == '\n' {
            out.push('\\');
            out.push('n');
        } else if c == '\t' {
            out.push('\\');
            out.push('t');
        } else if (c as u32) < 0x20 {
            let code: u32 = c as u32;
            out.push('\\');
            out.push('u');
            out.push('0');
            out.push('0');
            text::push_digit(&mut out, (code / 16) as u8);
            text::push_digit(&mut out, (code % 16) as u8);
        } else {
            out.push(c);
        }
        proof {
            assert(chars@.take(i + 1).drop_last() =~= chars@.take(i as int));
            assert(out@ =~= before + escaped_char(c));
            assert(before + escaped_char(c) =~= "\""@ + (escaped(chars@.take(i as int))
                + escaped_char(c)));
        }
        i += 1;
    }
    assert(chars@.take(i as int) =~= chars@);
    out.append("\"");
    out
}

fn json_list(s: &Vec<String>) -> (r: String)
    ensures
        r@ == list(text::views(s@)),
{
    let mut body = String::new();
    let mut i: usize = 0;
    while i < s.len()
        invariant
            i <= s@.len(),
            body@ =~= items(text::views(s@), i as int),
        decreases s.len() - i,
    {
        assert(text::views(s@)[i as int] == s@[i as int]@);
        if i > 0 {
            body.append(",");
        }
        body.append(json_str(s[i].as_str()).as_str());
        i += 1;
    }
    let mut out = "[".to_string();
    out.append(body.as_str());
    out.append("]");
    out
}

fn row_text(r: &MapRow) -> (t: String)
    ensures
        t@ == row_json(r@),
{
    let mut out = "{\"start\":".to_string();
    out.append(text::dec_text(r.start).as_str());
    out.append(",\"end\":");
    out.append(text::dec_text(r.end).as_str());
    out.append(",\"offset\":");
    out.append(text::dec_text(r.offset).as_str());
    out.append(",\"perms\":");
    out.append(json_str(r.perms.as_str()).as_str());
    out.append(",\"path\":");
    out.append(json_str(r.path.as_str()).as_str());
    out.append("}");
    out
}

fn maps_json(rows: &Vec<MapRow>) -> (r: String)
    ensures
        r@ == maps(observed::row_views(rows@)),
{
    let mut body = String::new();
    let mut i: usize = 0;
    while i < rows.len()
        invariant
            i <= rows@.len(),
            body@ =~= rows_json(observed::row_views(rows@), i as int),
        decreases rows.len() - i,
    {
        assert(observed::row_views(rows@)[i as int] == rows@[i as int]@);
        if i > 0 {
            body.append(",");
        }
        body.append(row_text(&rows[i]).as_str());
        i += 1;
    }
    let mut out = "[".to_string();
    out.append(body.as_str());
    out.append("]");
    out
}

fn object_field(object: &String) -> (r: String)
    ensures
        r@ == ",\"object\":"@ + quoted(object@),
{
    let mut out = ",\"object\":".to_string();
    out.append(json_str(object.as_str()).as_str());
    out
}

fn fields_text(kind: &StepKind) -> (r: String)
    ensures
        r@ == fields(kind@),
{
    match kind {
        StepKind::Needed { file, needed_by } => {
            let mut out = ",\"file\":".to_string();
            out.append(json_str(file.as_str()).as_str());
            out.append(",\"needed_by\":");
            out.append(json_str(needed_by.as_str()).as_str());
            out
        },
        StepKind::Search { library, tried } => {
            let mut out = ",\"library\":".to_string();
            out.append(json_str(library.as_str()).as_str());
            out.append(",\"tried\":");
            out.append(json_list(tried).as_str());
            out
        },
        StepKind::LinkMap { file, base, entry, phnum } => {
            let mut out = ",\"file\":".to_string();
            out.append(json_str(file.as_str()).as_str());
            out.append(",\"base\":");
            out.append(text::dec_text(*base).as_str());
            out.append(",\"entry\":");
            out.append(text::dec_text(*entry).as_str());
            out.append(",\"phnum\":");
            out.append(text::dec_text(*phnum as u64).as_str());
            out
        },
        StepKind::Scope { object, order } => {
            let mut out = object_field(object);
            out.append(",\"order\":");
            out.append(json_list(order).as_str());
            out
        },
        StepKind::Relocate { object, .. } => object_field(object),
        StepKind::Bind { from, to, symbol } => {
            let mut out = ",\"from\":".to_string();
            out.append(json_str(from.as_str()).as_str());
            out.append(",\"to\":");
            out.append(json_str(to.as_str()).as_str());
            out.append(",\"symbol\":");
            out.append(json_str(symbol.as_str()).as_str());
            out
        },
        StepKind::Init { object } => object_field(object),
        StepKind::InitializeProgram { object } => object_field(object),
        StepKind::TransferControl { object } => object_field(object),
        StepKind::Fini { object } => object_field(object),
    }
}

fn step_text(step: &Step) -> (r: String)
    ensures
        r@ == step_json(step.n, step.kind@),
{
    let mut out = "{\"n\":".to_string();
    out.append(text::dec_text(step.n as u64).as_str());
    out.append(",\"phase\":\"");
    out.append(step.kind.phase().as_str());
    out.append("\",\"kind\":\"");
    out.append(step.kind.tag());
    out.append("\"");
    out.append(fields_text(&step.kind).as_str());
    out.append("}");
    out
}

fn steps_text(steps: &Vec<Step>) -> (r: String)
    ensures
        r@ == steps_json(steps@, steps@.len() as int),
{
    let mut out = String::new();
    let mut i: usize = 0;
    while i < steps.len()
        invariant
            i <= steps@.len(),
            out@ =~= steps_json(steps@, i as int),
        decreases steps.len() - i,
    {
        if i > 0 {
            out.append(",");
        }
        out.append(step_text(&steps[i]).as_str());
        i += 1;
    }
    out
}

fn aliases_text(pairs: &Vec<(String, String)>) -> (r: String)
    ensures
        r@ == aliases_json(observed::pair_views(pairs@), pairs@.len() as int),
{
    let mut out = String::new();
    let mut i: usize = 0;
    while i < pairs.len()
        invariant
            i <= pairs@.len(),
            out@ =~= aliases_json(observed::pair_views(pairs@), i as int),
        decreases pairs.len() - i,
    {
        assert(observed::pair_views(pairs@)[i as int] == (
            pairs@[i as int].0@,
            pairs@[i as int].1@,
        ));
        if i > 0 {
            out.append(",");
        }
        out.append(json_str(pairs[i].0.as_str()).as_str());
        out.append(":");
        out.append(json_str(pairs[i].1.as_str()).as_str());
        i += 1;
    }
    out
}

fn tag_at(k: usize) -> (r: &'static str)
    ensures
        r == spec_tag_at(k as int),
{
    match k {
        0 => "bind",
        1 => "fini",
        2 => "init",
        3 => "initialize-program",
        4 => "link-map",
        5 => "needed",
        6 => "relocate",
        7 => "scope",
        8 => "search",
        _ => "transfer-control",
    }
}

fn count_tag(trace: &Trace, tag: &str) -> (r: usize)
    ensures
        r == tagged(trace.kinds(), tag@, trace.kinds().len() as int),
{
    let mut n: usize = 0;
    let mut i: usize = 0;
    while i < trace.steps.len()
        invariant
            n <= i <= trace.steps@.len(),
            n == tagged(trace.kinds(), tag@, i as int),
        decreases trace.steps.len() - i,
    {
        assert(trace.kinds()[i as int] == trace.steps@[i as int].kind@);
        if text::same(trace.steps[i].kind.tag(), tag) {
            n += 1;
        }
        i += 1;
    }
    n
}

/// A small digest so a reader can see the shape without parsing every step.
fn counts_text(trace: &Trace) -> (r: String)
    ensures
        r@ == counts(trace.kinds(), 10),
{
    let mut out = String::new();
    let mut first = true;
    let mut k: usize = 0;
    while k < 10
        invariant
            k <= 10,
            out@ =~= counts(trace.kinds(), k as int),
            first == (out@.len() == 0),
        decreases 10 - k,
    {
        let tag = tag_at(k);
        let n: usize = count_tag(trace, tag);
        if n > 0 {
            if !first {
                out.append(",");
            }
            out.append("\"");
            out.append(tag);
            out.append("\":");
            out.append(text::dec_text(n as u64).as_str());
            proof {
                reveal_strlit("\"");
            }
            first = false;
        }
        k += 1;
    }
    out
}

/// Serialise to `trace.json`.
///
/// Hand-rolled rather than derived. The schema is small, and keeping it that way means
/// the capture tool builds anywhere the target runs.
#[must_use]
pub fn to_json(trace: &Trace) -> (r: String)
    ensures
        exists|aliases: Seq<(Seq<char>, Seq<char>)>| #[trigger]
            observed::ascending(aliases) && observed::paired(aliases) == trace.found() && r@
                == document(*trace, aliases),
{
    let aliases = trace.aliases();
    let mut s = "{\"schema\":1,\"target\":".to_string();
    s.append(json_str(trace.target.as_str()).as_str());
    s.append(",\"steps\":[");
    s.append(steps_text(&trace.steps).as_str());
    s.append("],\"objects\":");
    s.append(json_list(&trace.objects()).as_str());
    s.append(",\"aliases\":{");
    s.append(aliases_text(&aliases).as_str());
    s.append("},\"maps_at_interp\":");
    s.append(maps_json(&trace.maps_at_interp).as_str());
    s.append(",\"maps_at_entry\":");
    s.append(maps_json(&trace.maps_at_entry).as_str());
    s.append(",\"counts\":{");
    s.append(counts_text(trace).as_str());
    s.append("}}\n");
    proof {
        let pairs = observed::pair_views(aliases@);
        assert(observed::ascending(pairs));
        assert(s@ == document(*trace, pairs));
    }
    s
}

/// Whether the character after `s` is one that no backslash escapes.
pub open spec fn unescaped_end(s: Seq<char>) -> bool
    decreases s.len(),
{
    if s.len() == 0 {
        true
    } else {
        !(unescaped_end(s.drop_last()) && s.last() == '\\')
    }
}

/// No text, whatever it holds, ends the JSON string it is put in: every quote inside is
/// escaped, and no backslash is left to escape the closing quote.
pub proof fn law_no_text_ends_its_string(s: Seq<char>, i: int)
    requires
        0 <= i < escaped(s).len(),
    ensures
        escaped(s)[i] == '"' ==> !unescaped_end(escaped(s).take(i)),
        (escaped(s)[i] as u32) >= 0x20,
        unescaped_end(escaped(s)),
    decreases s.len(),
{
    let before = escaped(s.drop_last());
    let e = escaped_char(s.last());
    let all = escaped(s);
    lemma_ends_unescaped(s);
    lemma_ends_unescaped(s.drop_last());
    if i < before.len() {
        law_no_text_ends_its_string(s.drop_last(), i);
        assert(all.take(i) =~= before.take(i));
    } else {
        assert(all[i] == e[i - before.len()]);
        if i == before.len() + 1 {
            assert(all.take(i).drop_last() =~= before);
        }
    }
}

proof fn lemma_ends_unescaped(s: Seq<char>)
    ensures
        unescaped_end(escaped(s)),
    decreases s.len(),
{
    if s.len() > 0 {
        lemma_ends_unescaped(s.drop_last());
        let before = escaped(s.drop_last());
        let e = escaped_char(s.last());
        let all = escaped(s);
        assert(all.last() == e.last());
        if e.len() == 1 {
            assert(all.drop_last() =~= before);
        } else if e.len() == 2 {
            assert(all.drop_last().drop_last() =~= before);
            assert(all.drop_last().last() == e[0]);
            assert(!unescaped_end(all.drop_last()));
        } else {
            assert(e.last() == text::digit((s.last() as u32 % 16) as int));
        }
    }
}

/// Text is put into JSON character by character, in order: a quote and a backslash behind a
/// backslash, a line feed and a tab by their letters, any other control character by its
/// number, anything else as it is.
pub proof fn law_text_is_written_character_by_character(a: Seq<char>, c: char, b: Seq<char>)
    ensures
        escaped(Seq::empty()) == Seq::<char>::empty(),
        escaped(a + seq![c] + b) == escaped(a) + escaped(seq![c]) + escaped(b),
        c == '"' || c == '\\' ==> escaped(seq![c]) == seq!['\\', c],
        c == '\n' ==> escaped(seq![c]) == seq!['\\', 'n'],
        c == '\t' ==> escaped(seq![c]) == seq!['\\', 't'],
        (c as u32) < 32 && c != '\n' && c != '\t' ==> escaped(seq![c]).len() == 6 && escaped(
            seq![c],
        ).take(2) == seq!['\\', 'u'] && scan::number(escaped(seq![c]).skip(2), 16) == c as int,
        (c as u32) >= 32 && c != '"' && c != '\\' ==> escaped(seq![c]) == seq![c],
    decreases b.len(),
{
    let s = a + seq![c] + b;
    let one = seq![c];
    assert(one.drop_last() =~= Seq::<char>::empty());
    assert(escaped(one.drop_last()) =~= Seq::<char>::empty());
    assert(escaped(one) =~= escaped_char(c));
    if b.len() == 0 {
        assert(s.drop_last() =~= a);
        assert(escaped(s) =~= escaped(a) + escaped_char(c) + escaped(b));
    } else {
        law_text_is_written_character_by_character(a, c, b.drop_last());
        assert(s.drop_last() =~= a + seq![c] + b.drop_last());
        assert(escaped(s) =~= escaped(a) + escaped_char(c) + escaped(b));
    }
    if (c as u32) < 32 && c != '\n' && c != '\t' {
        let e = escaped_char(c);
        assert(e.take(2) =~= seq!['\\', 'u']);
        let n = e.skip(2);
        let hi = text::digit((c as u32 / 16) as int);
        let lo = text::digit((c as u32 % 16) as int);
        assert(n =~= seq!['0', '0', hi, lo]);
        assert(n.drop_last() =~= seq!['0', '0', hi]);
        assert(n.drop_last().drop_last() =~= seq!['0', '0']);
        assert(n.drop_last().drop_last().drop_last() =~= seq!['0']);
        assert(n.drop_last().drop_last().drop_last().drop_last() =~= Seq::<char>::empty());
        reveal_with_fuel(scan::number, 5);
    }
}

} // verus!
