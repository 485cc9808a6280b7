//! What a loader that narrates its work is understood to say: each line that it writes, read
//! back.

use vstd::prelude::*;

use crate::scan;
use crate::text;
use crate::trace;
use crate::trace::{ReadingView, StepKindView};

verus! {

/// The line that a process writes: its number, then what it says.
pub open spec fn line(pid: Seq<char>, said: Seq<char>) -> Seq<char> {
    pid + ":\t"@ + said
}

/// What stands before a line: nothing that ends it.
pub open spec fn is_pid(pid: Seq<char>) -> bool {
    forall|i: int| 0 <= i < pid.len() ==> #[trigger] pid[i] != ':'
}

/// A name without white space and without the marks that the lines are made of.
pub open spec fn plain(name: Seq<char>) -> bool {
    &&& scan::solid(name)
    &&& forall|i: int|
        0 <= i < name.len() ==> #[trigger] name[i] != ';' && name[i] != ':' && name[i] != '='
            && name[i] != '['
}

/// What may follow a name: nothing, or the number of its namespace in brackets.
pub open spec fn namespace(tail: Seq<char>) -> bool {
    tail == ""@ || tail == " [0]"@
}

proof fn lemma_lacks(t: Seq<char>, pat: Seq<char>, j: int)
    requires
        0 <= j < pat.len(),
        forall|q: int| 0 <= q < t.len() ==> #[trigger] t[q] != pat[j],
    ensures
        scan::find(t, pat) is None,
        scan::cut_at(t, pat) is None,
        trace::after(t, pat) is None,
{
    scan::law_a_search_finds_the_first(t, pat);
    if let Some(k) = scan::find(t, pat) {
        assert(t.subrange(k, k + pat.len())[j] == t[k + j]);
    }
}

proof fn lemma_lacks_pair(t: Seq<char>, pat: Seq<char>, j: int)
    requires
        0 < j < pat.len(),
        forall|q: int| 0 < q < t.len() && #[trigger] t[q] == pat[j] ==> t[q - 1] != pat[j - 1],
    ensures
        scan::find(t, pat) is None,
        scan::cut_at(t, pat) is None,
        trace::after(t, pat) is None,
{
    scan::law_a_search_finds_the_first(t, pat);
    if let Some(k) = scan::find(t, pat) {
        assert(t.subrange(k, k + pat.len())[j] == t[k + j]);
        assert(t.subrange(k, k + pat.len())[j - 1] == t[k + j - 1]);
    }
}

/// What comes first is found first.
proof fn lemma_starts_with(pat: Seq<char>, rest: Seq<char>)
    ensures
        scan::find(pat + rest, pat) == Some(0int),
        scan::cut_at(pat + rest, pat) == Some((Seq::<char>::empty(), rest)),
        trace::after(pat + rest, pat) == Some(scan::trimmed(rest)),
        text::stands_at(pat + rest, pat, 0),
{
    let t = pat + rest;
    scan::law_a_search_finds_the_first(t, pat);
    assert(t.subrange(0, 0int + pat.len()) =~= pat);
    assert(t.take(0) =~= Seq::<char>::empty());
    assert(t.skip(0int + pat.len()) =~= rest);
}

/// Where the first character of the pattern stands nowhere before it, it is found there.
proof fn lemma_found_behind(a: Seq<char>, pat: Seq<char>, b: Seq<char>)
    requires
        pat.len() > 0,
        forall|i: int| 0 <= i < a.len() ==> #[trigger] a[i] != pat[0],
    ensures
        scan::find(a + pat + b, pat) == Some(a.len() as int),
        scan::cut_at(a + pat + b, pat) == Some((a, b)),
        scan::up_to(a + pat + b, pat) == a,
{
    let t = a + pat + b;
    let n = a.len() as int;
    scan::law_a_search_finds_the_first(t, pat);
    assert(t.subrange(n, n + pat.len()) =~= pat);
    if let Some(k) = scan::find(t, pat) {
        if k < n {
            assert(t.subrange(k, k + pat.len())[0] == t[k]);
            assert(t[k] == a[k]);
        }
    }
    assert(t.take(n) =~= a);
    assert(t.skip(n + pat.len()) =~= b);
}

/// A name is read without its namespace, whatever white space stands before it.
proof fn lemma_object_name(gap: Seq<char>, name: Seq<char>, tail: Seq<char>)
    requires
        scan::blank(gap),
        plain(name),
        namespace(tail),
    ensures
        trace::object_name(gap + name + tail) == name,
        trace::object_name(scan::trimmed(gap + name + tail)) == name,
{
    reveal_strlit("");
    reveal_strlit(" [0]");
    reveal_strlit(" [");
    let none = Seq::<char>::empty();
    let s = name + tail;
    assert(gap + name + tail =~= gap + s + none);
    assert(s[0] == name[0]);
    assert(s.last() == if tail.len() == 0 {
        name.last()
    } else {
        ']'
    });
    scan::law_trimming_keeps_the_text(gap, s, none);
    assert(none + s + none =~= s);
    scan::law_trimming_keeps_the_text(none, s, none);
    assert(scan::without_end(s, ';') == s);
    if tail.len() == 0 {
        assert(s =~= name);
        lemma_lacks(name, " ["@, 0);
    } else {
        let more = "0]"@;
        reveal_strlit("0]");
        assert(s =~= name + " ["@ + more);
        lemma_found_behind(name, " ["@, more);
    }
    assert(none + name + none =~= name);
    scan::law_trimming_keeps_the_text(none, name, none);
}

/// A line says what follows the number of the process.
proof fn lemma_said(pid: Seq<char>, gap: Seq<char>, said: Seq<char>)
    requires
        is_pid(pid),
        scan::blank(gap),
        said.len() > 0 ==> !scan::is_space(said[0]) && !scan::is_space(said.last()),
    ensures
        scan::trimmed(trace::content(line(pid, gap + said))) == said,
{
    reveal_strlit(":\t");
    lemma_found_behind(pid, ":\t"@, gap + said);
    let none = Seq::<char>::empty();
    assert(gap + said + none =~= gap + said);
    scan::law_trimming_keeps_the_text(gap, said, none);
}

/// How a line ends that says what is run.
proof fn lemma_said_of(head: Seq<char>, name: Seq<char>, tail: Seq<char>)
    requires
        head.len() > 0,
        !scan::is_space(head[0]),
        plain(name),
        namespace(tail),
    ensures
        ({
            let t = head + (seq![' '] + name + tail);
            &&& t.len() > 0
            &&& t[0] == head[0]
            &&& !scan::is_space(t.last())
            &&& trace::after(t, head) is Some
            &&& trace::object_name(trace::after(t, head)->0) == name
        }),
{
    reveal_strlit("");
    reveal_strlit(" [0]");
    let t = head + (seq![' '] + name + tail);
    lemma_starts_with(head, seq![' '] + name + tail);
    lemma_object_name(seq![' '], name, tail);
    assert(t.last() == if tail.len() == 0 {
        name.last()
    } else {
        ']'
    });
}

/// The lines on what is run hold none of the marks of the others.
proof fn lemma_runs(t: Seq<char>, searching: bool, mapping: bool, scoping: bool)
    requires
        t.len() > 0,
        t[0] != 's',
        t[0] != 'b',
        forall|q: int| 0 <= q < t.len() ==> #[trigger] t[q] != '=' && t[q] != ';',
        forall|q: int|
            0 < q < t.len() && #[trigger] t[q] == ':' ==> t[q - 1] != 'y' && t[q - 1] != 'g' && t[q
                - 1] != 'e',
    ensures
        trace::classified(t, searching, mapping, scoping) == trace::running(t),
{
    reveal_strlit("find library=");
    reveal_strlit("search ");
    reveal_strlit("trying file=");
    reveal_strlit(";  needed by ");
    reveal_strlit(";  generating link map");
    reveal_strlit("base:");
    reveal_strlit("entry:");
    reveal_strlit("object=");
    reveal_strlit("scope ");
    reveal_strlit("relocation processing:");
    reveal_strlit("binding file ");
    lemma_lacks(t, "find library="@, 12);
    if text::stands_at(t, "search "@, 0) {
        assert(t.subrange(0, 7)[0] == t[0]);
    }
    if text::stands_at(t, "trying file="@, 0) {
        assert(t.subrange(0, 12)[11] == t[11]);
    }
    lemma_lacks(t, ";  needed by "@, 0);
    lemma_lacks(t, ";  generating link map"@, 0);
    lemma_lacks_pair(t, "base:"@, 4);
    lemma_lacks_pair(t, "entry:"@, 5);
    lemma_lacks(t, "object="@, 6);
    if text::stands_at(t, "scope "@, 0) {
        assert(t.subrange(0, 6)[0] == t[0]);
    }
    lemma_lacks_pair(t, "relocation processing:"@, 21);
    if text::stands_at(t, "binding file "@, 0) {
        assert(t.subrange(0, 13)[0] == t[0]);
    }
}

/// What the loader says it runs is one step each, with the object that is named: an
/// initialiser, the program's own, the entry of the program, a finaliser. What is under way
/// stays under way.
pub proof fn law_what_is_run_is_read(
    v: ReadingView,
    pid: Seq<char>,
    gap: Seq<char>,
    name: Seq<char>,
    tail: Seq<char>,
)
    requires
        is_pid(pid),
        scan::blank(gap),
        plain(name),
        namespace(tail),
    ensures
        ({
            let end = seq![' '] + name + tail;
            &&& v.read(line(pid, gap + ("calling init:"@ + end))) == (ReadingView {
                steps: v.steps.push(StepKindView::Init { object: name }),
                ..v
            })
            &&& v.read(line(pid, gap + ("initialize program:"@ + end))) == (ReadingView {
                steps: v.steps.push(StepKindView::InitializeProgram { object: name }),
                ..v
            })
            &&& v.read(line(pid, gap + ("transferring control:"@ + end))) == (ReadingView {
                steps: v.steps.push(StepKindView::TransferControl { object: name }),
                ..v
            })
            &&& v.read(line(pid, gap + ("calling fini:"@ + end))) == (ReadingView {
                steps: v.steps.push(StepKindView::Fini { object: name }),
                ..v
            })
        }),
{
    reveal_strlit("calling init:");
    reveal_strlit("initialize program:");
    reveal_strlit("transferring control:");
    reveal_strlit("calling fini:");
    lemma_run_line(v, pid, gap, "calling init:"@, name, tail);
    lemma_run_line(v, pid, gap, "initialize program:"@, name, tail);
    lemma_run_line(v, pid, gap, "transferring control:"@, name, tail);
    lemma_run_line(v, pid, gap, "calling fini:"@, name, tail);
    let end = seq![' '] + name + tail;
    lemma_said_of("calling init:"@, name, tail);
    lemma_said_of("initialize program:"@, name, tail);
    lemma_said_of("transferring control:"@, name, tail);
    lemma_said_of("calling fini:"@, name, tail);
    lemma_other_heads(name, tail);
}

/// The head of a line on what is run.
spec fn runs_with(head: Seq<char>) -> bool {
    head == "calling init:"@ || head == "initialize program:"@ || head
        == "transferring control:"@ || head == "calling fini:"@
}

proof fn lemma_run_line(
    v: ReadingView,
    pid: Seq<char>,
    gap: Seq<char>,
    head: Seq<char>,
    name: Seq<char>,
    tail: Seq<char>,
)
    requires
        is_pid(pid),
        scan::blank(gap),
        runs_with(head),
        plain(name),
        namespace(tail),
    ensures
        v.read(line(pid, gap + (head + (seq![' '] + name + tail)))) == v.fed(
            trace::running(head + (seq![' '] + name + tail)),
        ),
{
    reveal_strlit("");
    reveal_strlit(" [0]");
    reveal_strlit("calling init:");
    reveal_strlit("initialize program:");
    reveal_strlit("transferring control:");
    reveal_strlit("calling fini:");
    let t = head + (seq![' '] + name + tail);
    let n = head.len() as int;
    lemma_said_of(head, name, tail);
    lemma_said(pid, gap, t);
    assert forall|q: int| 0 <= q < t.len() implies #[trigger] t[q] != '=' && t[q] != ';' && (t[q]
        == ':' ==> q == n - 1) by {
        if q < n {
            assert(t[q] == head[q]);
        } else if q > n && q <= n + name.len() {
            assert(t[q] == name[q - n - 1]);
        } else if q > n {
            assert(t[q] == tail[q - n - 1 - name.len()]);
        }
    }
    assert(t[n - 2] == head[n - 2]);
    lemma_runs(t, v.search is Some, v.map is Some, v.scope is Some);
}

proof fn lemma_other_heads(name: Seq<char>, tail: Seq<char>)
    requires
        plain(name),
        namespace(tail),
    ensures
        ({
            let end = seq![' '] + name + tail;
            &&& trace::after("initialize program:"@ + end, "calling init:"@) is None
            &&& trace::after("transferring control:"@ + end, "calling init:"@) is None
            &&& trace::after("transferring control:"@ + end, "initialize program:"@) is None
            &&& trace::after("calling fini:"@ + end, "calling init:"@) is None
            &&& trace::after("calling fini:"@ + end, "initialize program:"@) is None
            &&& trace::after("calling fini:"@ + end, "transferring control:"@) is None
        }),
{
    lemma_other_head("initialize program:"@, name, tail);
    lemma_other_head("transferring control:"@, name, tail);
    lemma_other_head("calling fini:"@, name, tail);
}

proof fn lemma_other_head(head: Seq<char>, name: Seq<char>, tail: Seq<char>)
    requires
        runs_with(head),
        plain(name),
        namespace(tail),
    ensures
        ({
            let t = head + (seq![' '] + name + tail);
            &&& head[head.len() - 2] != 't' ==> trace::after(t, "calling init:"@) is None
            &&& head[head.len() - 2] != 'm' ==> trace::after(t, "initialize program:"@) is None
            &&& head[head.len() - 2] != 'l' ==> trace::after(t, "transferring control:"@) is None
        }),
        head == "initialize program:"@ ==> head[head.len() - 2] == 'm',
        head == "transferring control:"@ ==> head[head.len() - 2] == 'l',
        head == "calling fini:"@ ==> head[head.len() - 2] == 'i',
{
    reveal_strlit("");
    reveal_strlit(" [0]");
    reveal_strlit("calling init:");
    reveal_strlit("initialize program:");
    reveal_strlit("transferring control:");
    reveal_strlit("calling fini:");
    let t = head + (seq![' '] + name + tail);
    let n = head.len() as int;
    assert forall|q: int| 0 <= q < t.len() && #[trigger] t[q] == ':' implies q == n - 1 by {
        if q < n {
            assert(t[q] == head[q]);
        } else if q > n && q <= n + name.len() {
            assert(t[q] == name[q - n - 1]);
        } else if q > n {
            assert(t[q] == tail[q - n - 1 - name.len()]);
        }
    }
    assert(t[n - 2] == head[n - 2]);
    if head[n - 2] != 't' {
        lemma_lacks_pair(t, "calling init:"@, 12);
    }
    if head[n - 2] != 'm' {
        lemma_lacks_pair(t, "initialize program:"@, 18);
    }
    if head[n - 2] != 'l' {
        lemma_lacks_pair(t, "transferring control:"@, 20);
    }
}

proof fn lemma_lacks_ahead(t: Seq<char>, pat: Seq<char>, j: int, m: int)
    requires
        0 <= j < m < pat.len(),
        forall|q: int|
            0 <= q < t.len() && #[trigger] t[q] == pat[j] ==> q + m - j >= t.len() || t[q + m - j]
                != pat[m],
    ensures
        scan::find(t, pat) is None,
        scan::cut_at(t, pat) is None,
        trace::after(t, pat) is None,
{
    scan::law_a_search_finds_the_first(t, pat);
    if let Some(k) = scan::find(t, pat) {
        assert(t.subrange(k, k + pat.len())[j] == t[k + j]);
        assert(t.subrange(k, k + pat.len())[m] == t[k + m]);
    }
}

/// The lines before those on what is run hold none of the marks that are looked for first.
proof fn lemma_late(t: Seq<char>, searching: bool, mapping: bool, scoping: bool)
    requires
        t.len() > 0,
        t[0] != 's' || (t.len() > 1 && t[1] != 'e'),
        t[0] != 't',
        forall|q: int| 0 <= q < t.len() ==> #[trigger] t[q] != ';',
        forall|q: int| 0 < q < t.len() && #[trigger] t[q] == '=' ==> t[q - 1] != 'y',
        forall|q: int|
            0 < q < t.len() && #[trigger] t[q] == ':' ==> t[q - 1] != 'y' && t[q - 1] != 'e',
    ensures
        trace::classified(t, searching, mapping, scoping) == trace::late_line(t, scoping),
{
    reveal_strlit("find library=");
    reveal_strlit("search ");
    reveal_strlit("trying file=");
    reveal_strlit(";  needed by ");
    reveal_strlit(";  generating link map");
    reveal_strlit("base:");
    reveal_strlit("entry:");
    lemma_lacks_pair(t, "find library="@, 12);
    if text::stands_at(t, "search "@, 0) {
        assert(t.subrange(0, 7)[0] == t[0]);
        assert(t.subrange(0, 7)[1] == t[1]);
    }
    if text::stands_at(t, "trying file="@, 0) {
        assert(t.subrange(0, 12)[0] == t[0]);
    }
    lemma_lacks(t, ";  needed by "@, 0);
    lemma_lacks(t, ";  generating link map"@, 0);
    lemma_lacks_pair(t, "base:"@, 4);
    lemma_lacks_pair(t, "entry:"@, 5);
}

/// A relocation is one step with the object that is named, and lazy exactly where the line
/// says so.
pub proof fn law_a_relocation_is_read(
    v: ReadingView,
    pid: Seq<char>,
    gap: Seq<char>,
    name: Seq<char>,
    lazy: bool,
)
    requires
        is_pid(pid),
        scan::blank(gap),
        plain(name),
    ensures
        v.read(
            line(
                pid,
                gap + ("relocation processing:"@ + (seq![' '] + name + if lazy {
                    " (lazy)"@
                } else {
                    ""@
                })),
            ),
        ) == (ReadingView {
            steps: v.steps.push(StepKindView::Relocate { object: name, lazy }),
            ..v
        }),
{
    reveal_strlit("relocation processing:");
    reveal_strlit(" (lazy)");
    reveal_strlit("");
    reveal_strlit(" [");
    reveal_strlit("object=");
    reveal_strlit("scope ");
    let head = "relocation processing:"@;
    let tail = if lazy {
        " (lazy)"@
    } else {
        ""@
    };
    let none = Seq::<char>::empty();
    let s = name + tail;
    let t = head + (seq![' '] + name + tail);
    let n = head.len() as int;
    assert(s[0] == name[0]);
    assert(s.last() == if lazy {
        ')'
    } else {
        name.last()
    });
    assert(t.last() == s.last());
    assert(t[0] == 'r');
    lemma_said(pid, gap, t);
    assert forall|q: int| 0 <= q < t.len() implies #[trigger] t[q] != '=' && t[q] != ';' && t[q]
        != '[' && (t[q] == ':' ==> q == n - 1) by {
        if q < n {
            assert(t[q] == head[q]);
        } else if q > n && q <= n + name.len() {
            assert(t[q] == name[q - n - 1]);
        } else if q > n {
            assert(t[q] == tail[q - n - 1 - name.len()]);
        }
    }
    assert(t[n - 2] == head[n - 2]);
    lemma_late(t, v.search is Some, v.map is Some, v.scope is Some);
    lemma_lacks(t, "object="@, 6);
    if text::stands_at(t, "scope "@, 0) {
        assert(t.subrange(0, 6)[0] == t[0]);
    }
    lemma_starts_with(head, seq![' '] + name + tail);
    assert(seq![' '] + name + tail =~= seq![' '] + s + none);
    scan::law_trimming_keeps_the_text(seq![' '], s, none);
    assert(none + s + none =~= s);
    scan::law_trimming_keeps_the_text(none, s, none);
    assert(scan::without_end(s, ';') == s);
    assert forall|q: int| 0 <= q < s.len() implies #[trigger] s[q] != " ["@[1] by {
        assert(s[q] == t[n + 1 + q]);
    }
    lemma_lacks(s, " ["@, 1);
    assert(trace::object_name(trace::after(t, head)->0) == s);
    if lazy {
        assert(s.subrange(s.len() - 7, s.len() as int) =~= " (lazy)"@);
        assert(s.take(s.len() - 7) =~= name);
    } else {
        assert(s =~= name);
        if text::ends(s, " (lazy)"@) {
            assert(s.subrange(s.len() - 7, s.len() as int)[0] == s[s.len() - 7]);
        }
    }
}

/// A symbol that is bound is one step: where it is used, where it is defined, and its name.
pub proof fn law_a_binding_is_read(
    v: ReadingView,
    pid: Seq<char>,
    gap: Seq<char>,
    from: Seq<char>,
    to: Seq<char>,
    symbol: Seq<char>,
)
    requires
        is_pid(pid),
        scan::blank(gap),
        plain(from),
        plain(to),
        plain(symbol),
        forall|i: int| 0 <= i < symbol.len() ==> #[trigger] symbol[i] != '\'',
    ensures
        v.read(
            line(
                pid,
                gap + ("binding file "@ + (from + " [0]"@ + " to "@ + (to + " [0]"@
                    + ": normal symbol `"@ + (symbol + "'"@)))),
            ),
        ) == (ReadingView { steps: v.steps.push(StepKindView::Bind { from, to, symbol }), ..v }),
{
    reveal_strlit("binding file ");
    reveal_strlit(" [0]");
    reveal_strlit(" to ");
    reveal_strlit(": normal symbol `");
    reveal_strlit("'");
    reveal_strlit("object=");
    reveal_strlit("scope ");
    reveal_strlit("relocation processing:");
    let none = Seq::<char>::empty();
    let head = "binding file "@;
    let a = from + " [0]"@;
    let b = to + " [0]"@;
    let c = symbol + "'"@;
    let tail = b + ": normal symbol `"@ + c;
    let rest = a + " to "@ + tail;
    let t = head + rest;
    assert(t[0] == 'b');
    assert(t.last() == '\'');
    lemma_said(pid, gap, t);
    let at_a = head.len() as int;
    let at_to = at_a + a.len();
    let at_b = at_to + 4;
    let at_m = at_b + b.len();
    let at_c = at_m + 17;
    assert forall|q: int| 0 <= q < t.len() implies #[trigger] t[q] != '=' && t[q] != ';' && (t[q]
        == ':' ==> q == at_m) by {
        if q < at_a {
            assert(t[q] == head[q]);
        } else if q < at_to {
            if q - at_a < from.len() {
                assert(t[q] == from[q - at_a]);
            } else {
                assert(t[q] == " [0]"@[q - at_a - from.len()]);
            }
        } else if q < at_b {
            assert(t[q] == " to "@[q - at_to]);
        } else if q < at_m {
            if q - at_b < to.len() {
                assert(t[q] == to[q - at_b]);
            } else {
                assert(t[q] == " [0]"@[q - at_b - to.len()]);
            }
        } else if q < at_c {
            assert(t[q] == ": normal symbol `"@[q - at_m]);
        } else if q - at_c < symbol.len() {
            assert(t[q] == symbol[q - at_c]);
        } else {
            assert(t[q] == '\'');
        }
    }
    assert(t[at_m - 1] == ']') by {
        assert(t[at_m - 1] == " [0]"@[3]);
    }
    lemma_late(t, v.search is Some, v.map is Some, v.scope is Some);
    lemma_lacks(t, "object="@, 6);
    if text::stands_at(t, "scope "@, 0) {
        assert(t.subrange(0, 6)[0] == t[0]);
    }
    lemma_lacks_pair(t, "relocation processing:"@, 21);
    lemma_starts_with(head, rest);
    assert(t.skip(head.len() as int) =~= rest);
    lemma_to(from, tail);
    assert forall|i: int| 0 <= i < b.len() implies #[trigger] b[i] != ": normal symbol `"@[0] by {
        if i < to.len() {
            assert(b[i] == to[i]);
        } else {
            assert(b[i] == " [0]"@[i - to.len()]);
        }
    }
    lemma_found_behind(b, ": normal symbol `"@, c);
    lemma_found_behind(symbol, "'"@, none);
    assert(symbol + "'"@ + none =~= c);
    lemma_object_name(none, from, " [0]"@);
    lemma_object_name(none, to, " [0]"@);
    assert(none + from + " [0]"@ =~= a);
    assert(none + to + " [0]"@ =~= b);
}

/// The first ` to ` behind a name and its namespace.
proof fn lemma_to(from: Seq<char>, tail: Seq<char>)
    requires
        plain(from),
    ensures
        scan::cut_at(from + " [0]"@ + " to "@ + tail, " to "@) == Some((from + " [0]"@, tail)),
{
    reveal_strlit(" [0]");
    reveal_strlit(" to ");
    let a = from + " [0]"@;
    let t = a + " to "@ + tail;
    let n = a.len() as int;
    scan::law_a_search_finds_the_first(t, " to "@);
    assert(t.subrange(n, n + 4) =~= " to "@);
    if let Some(k) = scan::find(t, " to "@) {
        if k < n {
            assert(t.subrange(k, k + 4)[0] == t[k]);
            assert(t.subrange(k, k + 4)[1] == t[k + 1]);
            if k < from.len() {
                assert(t[k] == from[k]);
            } else {
                assert(t[k] == " [0]"@[k - from.len()]);
                assert(t[from.len() as int + 1] == '[');
            }
        }
    }
    assert(t.take(n) =~= a);
    assert(t.skip(n + 4) =~= tail);
}

/// A dependency is one step: the file that is wanted, and what wants it.
pub proof fn law_a_dependency_is_read(
    v: ReadingView,
    pid: Seq<char>,
    gap: Seq<char>,
    file: Seq<char>,
    by: Seq<char>,
    tail: Seq<char>,
)
    requires
        is_pid(pid),
        scan::blank(gap),
        plain(file),
        plain(by),
        namespace(tail),
    ensures
        v.read(line(pid, gap + ("file="@ + file + tail + ";  needed by "@ + (by + tail)))) == (
        ReadingView {
            steps: v.steps.push(StepKindView::Needed { file, needed_by: by }),
            ..v
        }),
{
    reveal_strlit("");
    reveal_strlit(" [0]");
    reveal_strlit("find library=");
    reveal_strlit("search ");
    reveal_strlit("trying file=");
    reveal_strlit(";  needed by ");
    reveal_strlit("file=");
    let none = Seq::<char>::empty();
    let a = "file="@ + file + tail;
    let b = by + tail;
    let t = a + ";  needed by "@ + b;
    lemma_file_part(file, tail);
    assert(t[0] == a[0]);
    assert(b.last() == if tail.len() == 0 {
        by.last()
    } else {
        ']'
    });
    assert(t.last() == b.last());
    lemma_said(pid, gap, t);
    assert forall|q: int| 0 < q < t.len() && #[trigger] t[q] == '=' implies t[q - 1] != 'y' by {
        if q < a.len() {
            assert(t[q] == a[q]);
            assert(t[q - 1] == a[q - 1]);
        } else if q < a.len() + 13 {
            assert(t[q] == ";  needed by "@[q - a.len()]);
        } else if q - a.len() - 13 < by.len() {
            assert(t[q] == by[q - a.len() - 13]);
        } else {
            assert(t[q] == tail[q - a.len() - 13 - by.len()]);
        }
    }
    lemma_lacks_pair(t, "find library="@, 12);
    if text::stands_at(t, "search "@, 0) {
        assert(t.subrange(0, 7)[0] == t[0]);
    }
    if text::stands_at(t, "trying file="@, 0) {
        assert(t.subrange(0, 12)[0] == t[0]);
    }
    lemma_found_behind(a, ";  needed by "@, b);
    lemma_object_name(none, by, tail);
    assert(none + by + tail =~= b);
}

/// The name of a file behind its mark.
proof fn lemma_file_part(file: Seq<char>, tail: Seq<char>)
    requires
        plain(file),
        namespace(tail),
    ensures
        ({
            let a = "file="@ + file + tail;
            &&& a[0] == 'f'
            &&& forall|q: int| 0 <= q < a.len() ==> #[trigger] a[q] != ';' && a[q] != ':'
            &&& forall|q: int| 0 <= q < a.len() && #[trigger] a[q] == '=' ==> q == 4
            &&& a[3] == 'e'
            &&& trace::object_name(scan::without_start(a, "file="@)) == file
        }),
{
    reveal_strlit("");
    reveal_strlit(" [0]");
    reveal_strlit("file=");
    let none = Seq::<char>::empty();
    let a = "file="@ + file + tail;
    let s = file + tail;
    assert(a =~= "file="@ + s);
    assert forall|q: int| 0 <= q < s.len() implies #[trigger] s[q] != ';' && s[q] != ':' && s[q]
        != '=' by {
        if q < file.len() {
            assert(s[q] == file[q]);
        } else {
            assert(s[q] == tail[q - file.len()]);
        }
    }
    assert forall|q: int| 0 <= q < a.len() implies #[trigger] a[q] != ';' && a[q] != ':' && (a[q]
        == '=' ==> q == 4) by {
        if q < 5 {
            assert(a[q] == "file="@[q]);
        } else {
            assert(a[q] == s[q - 5]);
        }
    }
    assert(a[3] == "file="@[3]);
    assert(a.subrange(0, 5) =~= "file="@);
    assert(a.skip(5) =~= s);
    if text::stands_at(s, "file="@, 0) {
        assert(s.subrange(0, 5)[4] == s[4]);
    }
    assert(scan::without_start(s, "file="@) == s);
    lemma_object_name(none, file, tail);
    assert(none + file + tail =~= s);
}

/// A link map is announced for the file that is named.
pub proof fn law_a_link_map_is_announced(
    v: ReadingView,
    pid: Seq<char>,
    gap: Seq<char>,
    file: Seq<char>,
    tail: Seq<char>,
)
    requires
        is_pid(pid),
        scan::blank(gap),
        plain(file),
        namespace(tail),
    ensures
        v.read(line(pid, gap + ("file="@ + file + tail + ";  generating link map"@))) == (
        ReadingView { map: Some(file), ..v }),
{
    reveal_strlit("find library=");
    reveal_strlit("search ");
    reveal_strlit("trying file=");
    reveal_strlit(";  needed by ");
    reveal_strlit(";  generating link map");
    reveal_strlit(";");
    reveal_strlit("file=");
    let none = Seq::<char>::empty();
    let mark = ";  generating link map"@;
    let a = "file="@ + file + tail;
    let t = a + mark;
    let n = a.len() as int;
    lemma_file_part(file, tail);
    assert(t[0] == a[0]);
    assert(t.last() == 'p');
    lemma_said(pid, gap, t);
    assert forall|q: int| 0 <= q < t.len() implies (#[trigger] t[q] == ';' ==> q == n) && (t[q]
        == '=' ==> q == 4) by {
        if q < n {
            assert(t[q] == a[q]);
        } else {
            assert(t[q] == mark[q - n]);
        }
    }
    assert(t[3] == a[3]);
    assert(t[n + 3] == mark[3]);
    lemma_lacks_pair(t, "find library="@, 12);
    if text::stands_at(t, "search "@, 0) {
        assert(t.subrange(0, 7)[0] == t[0]);
    }
    if text::stands_at(t, "trying file="@, 0) {
        assert(t.subrange(0, 12)[0] == t[0]);
    }
    lemma_lacks_ahead(t, ";  needed by "@, 0, 3);
    assert(t =~= a + mark + none);
    lemma_found_behind(a, mark, none);
    assert(t =~= a + ";"@ + mark.skip(1));
    lemma_found_behind(a, ";"@, mark.skip(1));
}

/// A search begins for the library that is named, with no place tried yet.
pub proof fn law_a_search_begins(
    v: ReadingView,
    pid: Seq<char>,
    gap: Seq<char>,
    library: Seq<char>,
    tail: Seq<char>,
)
    requires
        is_pid(pid),
        scan::blank(gap),
        plain(library),
        namespace(tail),
    ensures
        v.read(line(pid, gap + ("find library="@ + (library + tail + "; searching"@)))) == (
        ReadingView { search: Some((library, Seq::empty())), ..v }),
{
    reveal_strlit("");
    reveal_strlit(" [0]");
    reveal_strlit("find library=");
    reveal_strlit("; searching");
    reveal_strlit(";");
    let none = Seq::<char>::empty();
    let head = "find library="@;
    let a = library + tail;
    let mark = "; searching"@;
    let rest = a + mark;
    let t = head + rest;
    assert(t[0] == 'f');
    assert(t.last() == 'g');
    lemma_said(pid, gap, t);
    lemma_starts_with(head, rest);
    assert(rest[0] == library[0]);
    assert(rest.last() == 'g');
    assert(none + rest + none =~= rest);
    scan::law_trimming_keeps_the_text(none, rest, none);
    assert forall|q: int| 0 <= q < a.len() implies #[trigger] a[q] != ';' by {
        if q < library.len() {
            assert(a[q] == library[q]);
        } else {
            assert(a[q] == tail[q - library.len()]);
        }
    }
    assert(rest =~= a + ";"@ + mark.skip(1));
    lemma_found_behind(a, ";"@, mark.skip(1));
    lemma_object_name(none, library, tail);
    assert(none + library + tail =~= a);
}

/// While a search is under way, each file that is tried is put down behind those before it.
pub proof fn law_a_try_is_put_down(
    v: ReadingView,
    pid: Seq<char>,
    gap: Seq<char>,
    path: Seq<char>,
    library: Seq<char>,
    tried: Seq<Seq<char>>,
)
    requires
        is_pid(pid),
        scan::blank(gap),
        plain(path),
        v.search == Some((library, tried)),
    ensures
        v.read(line(pid, gap + ("trying file="@ + path))) == (ReadingView {
            search: Some((library, tried.push(path))),
            ..v
        }),
{
    reveal_strlit("find library=");
    reveal_strlit("search ");
    reveal_strlit("trying file=");
    let none = Seq::<char>::empty();
    let head = "trying file="@;
    let t = head + path;
    assert(t[0] == 't');
    assert(t.last() == path.last());
    lemma_said(pid, gap, t);
    assert forall|q: int| 0 <= q < t.len() && #[trigger] t[q] == '=' implies q == 11 by {
        if q < 12 {
            assert(t[q] == head[q]);
        } else {
            assert(t[q] == path[q - 12]);
        }
    }
    assert(t[10] == head[10]);
    lemma_lacks_pair(t, "find library="@, 12);
    lemma_starts_with(head, path);
    assert(t.skip(12) =~= path);
    if text::stands_at(path, head, 0) {
        assert(path.subrange(0, 12)[11] == path[11]);
    }
    assert(scan::without_start(path, head) == path);
    assert(none + path + none =~= path);
    scan::law_trimming_keeps_the_text(none, path, none);
}

/// While a search is under way, each list of places that is searched is put down as it is
/// written.
pub proof fn law_a_search_path_is_put_down(
    v: ReadingView,
    pid: Seq<char>,
    gap: Seq<char>,
    places: Seq<char>,
    library: Seq<char>,
    tried: Seq<Seq<char>>,
)
    requires
        is_pid(pid),
        scan::blank(gap),
        places.len() > 0,
        !scan::is_space(places.last()),
        forall|q: int| 0 <= q < places.len() ==> #[trigger] places[q] != '=',
        v.search == Some((library, tried)),
    ensures
        v.read(line(pid, gap + ("search path="@ + places))) == (ReadingView {
            search: Some((library, tried.push("search path="@ + places))),
            ..v
        }),
{
    reveal_strlit("find library=");
    reveal_strlit("search ");
    reveal_strlit("search path=");
    reveal_strlit("trying file=");
    let none = Seq::<char>::empty();
    let head = "search path="@;
    let t = head + places;
    assert(t[0] == 's');
    assert(t.last() == places.last());
    lemma_said(pid, gap, t);
    assert forall|q: int| 0 <= q < t.len() && #[trigger] t[q] == '=' implies q == 11 by {
        if q < 12 {
            assert(t[q] == head[q]);
        } else {
            assert(t[q] == places[q - 12]);
        }
    }
    assert(t[10] == head[10]);
    lemma_lacks_pair(t, "find library="@, 12);
    assert(t.subrange(0, 7) =~= "search "@) by {
        assert forall|q: int| 0 <= q < 7 implies #[trigger] t.subrange(0, 7)[q] == "search "@[q] by {
            assert(t[q] == head[q]);
        }
    }
    if text::stands_at(t, "trying file="@, 0) {
        assert(t.subrange(0, 12)[0] == t[0]);
    }
    assert(scan::without_start(t, "trying file="@) == t);
    assert(none + t + none =~= t);
    scan::law_trimming_keeps_the_text(none, t, none);
}

/// The scope of the object that is named follows, with nothing in it yet.
pub proof fn law_a_scope_begins(
    v: ReadingView,
    pid: Seq<char>,
    gap: Seq<char>,
    object: Seq<char>,
    tail: Seq<char>,
)
    requires
        is_pid(pid),
        scan::blank(gap),
        plain(object),
        namespace(tail),
    ensures
        v.read(line(pid, gap + ("object="@ + (object + tail)))) == (ReadingView {
            scope: Some((object, Seq::empty())),
            ..v
        }),
{
    reveal_strlit("");
    reveal_strlit(" [0]");
    reveal_strlit("object=");
    let none = Seq::<char>::empty();
    let head = "object="@;
    let s = object + tail;
    let t = head + s;
    assert(t[0] == 'o');
    assert(t.last() == s.last());
    assert(s.last() == if tail.len() == 0 {
        object.last()
    } else {
        ']'
    });
    lemma_said(pid, gap, t);
    assert forall|q: int| 0 <= q < t.len() implies #[trigger] t[q] != ';' && t[q] != ':' && (t[q]
        == '=' ==> q == 6) by {
        if q < 7 {
            assert(t[q] == head[q]);
        } else if q - 7 < object.len() {
            assert(t[q] == object[q - 7]);
        } else {
            assert(t[q] == tail[q - 7 - object.len()]);
        }
    }
    assert(t[5] == head[5]);
    lemma_late(t, v.search is Some, v.map is Some, v.scope is Some);
    lemma_starts_with(head, s);
    lemma_object_name(none, object, tail);
    assert(none + object + tail =~= s);
}

/// Where a search and a scope are under way, an empty line completes them: the search first,
/// then the scope.
pub proof fn law_an_empty_line_completes(v: ReadingView, pid: Seq<char>, gap: Seq<char>)
    requires
        is_pid(pid),
        scan::blank(gap),
    ensures
        ({
            let r = v.read(line(pid, gap));
            let searched = v.steps + match v.search {
                Some((library, tried)) => seq![StepKindView::Search { library, tried }],
                None => Seq::empty(),
            };
            let scoped = searched + match v.scope {
                Some((object, order)) => seq![StepKindView::Scope { object, order }],
                None => Seq::empty(),
            };
            &&& r.steps == scoped
            &&& r.search is None
            &&& r.scope is None
            &&& r.map == v.map
        }),
{
    let none = Seq::<char>::empty();
    assert(gap + none =~= gap);
    lemma_said(pid, gap, none);
    let r = v.read(line(pid, gap));
    let searched = v.steps + match v.search {
        Some((library, tried)) => seq![StepKindView::Search { library, tried }],
        None => Seq::empty(),
    };
    let scoped = searched + match v.scope {
        Some((object, order)) => seq![StepKindView::Scope { object, order }],
        None => Seq::empty(),
    };
    assert(r.steps =~= scoped);
}

/// The first number behind a mark, whatever white space stands before it.
proof fn lemma_leading(gap: Seq<char>, w: Seq<char>, n: u64, more: Seq<char>)
    requires
        scan::blank(gap),
        trace::writes(w, n),
        more.len() > 0 ==> scan::is_space(more[0]) && !scan::is_space(more.last()),
    ensures
        trace::leading_hex(scan::trimmed(gap + (w + more))) == n,
{
    let none = Seq::<char>::empty();
    trace::law_a_written_address_is_read_back(w, n);
    let s = w + more;
    assert(s[0] == w[0]);
    assert(s.last() == if more.len() == 0 {
        w.last()
    } else {
        more.last()
    });
    assert(gap + s + none =~= gap + s);
    scan::law_trimming_keeps_the_text(gap, s, none);
    assert(none + w + more =~= s);
    scan::lemma_first_word(none, w, more);
    assert(scan::words(s)[0] == w);
}

/// Once a link map is announced, the line with the base makes it a step, with nothing known
/// of the rest.
pub proof fn law_a_base_is_read(
    v: ReadingView,
    pid: Seq<char>,
    gap: Seq<char>,
    before: Seq<char>,
    w: Seq<char>,
    more: Seq<char>,
    base: u64,
    file: Seq<char>,
)
    requires
        is_pid(pid),
        scan::blank(gap),
        v.map == Some(file),
        trace::writes(w, base),
        forall|q: int|
            0 <= q < before.len() ==> #[trigger] before[q] != 's' && before[q] != '=' && before[q]
                != ';',
        forall|q: int| 0 <= q < more.len() ==> #[trigger] more[q] != '=' && more[q] != ';',
        more.len() > 0 ==> scan::is_space(more[0]) && !scan::is_space(more.last()),
    ensures
        v.read(line(pid, gap + ("dynamic: "@ + before + "base:"@ + (seq![' '] + (w + more)))))
            == (ReadingView {
            steps: v.steps.push(StepKindView::LinkMap { file, base, entry: 0, phnum: 0 }),
            ..v
        }),
{
    reveal_strlit("dynamic: ");
    reveal_strlit("find library=");
    reveal_strlit("search ");
    reveal_strlit("trying file=");
    reveal_strlit(";  needed by ");
    reveal_strlit(";  generating link map");
    reveal_strlit("base:");
    let a = "dynamic: "@ + before;
    let end = seq![' '] + (w + more);
    let t = a + "base:"@ + end;
    let n = a.len() as int;
    trace::law_a_written_address_is_read_back(w, base);
    lemma_address_marks(w, base);
    assert(t[0] == 'd');
    assert(t.last() == end.last());
    assert(end.last() == if more.len() == 0 {
        w.last()
    } else {
        more.last()
    });
    lemma_said(pid, gap, t);
    assert forall|q: int| 0 <= q < t.len() implies #[trigger] t[q] != '=' && t[q] != ';' && (t[q]
        == 's' ==> q >= n + 2) by {
        if q < 9 {
            assert(t[q] == "dynamic: "@[q]);
        } else if q < n {
            assert(t[q] == before[q - 9]);
        } else if q < n + 5 {
            assert(t[q] == "base:"@[q - n]);
        } else if q == n + 5 {
            assert(t[q] == ' ');
        } else if q - n - 6 < w.len() {
            assert(t[q] == w[q - n - 6]);
        } else {
            assert(t[q] == more[q - n - 6 - w.len()]);
        }
    }
    lemma_lacks(t, "find library="@, 12);
    if text::stands_at(t, "search "@, 0) {
        assert(t.subrange(0, 7)[0] == t[0]);
    }
    if text::stands_at(t, "trying file="@, 0) {
        assert(t.subrange(0, 12)[0] == t[0]);
    }
    lemma_lacks(t, ";  needed by "@, 0);
    lemma_lacks(t, ";  generating link map"@, 0);
    scan::law_a_search_finds_the_first(t, "base:"@);
    assert(t.subrange(n, n + 5) =~= "base:"@);
    if let Some(k) = scan::find(t, "base:"@) {
        if k < n {
            assert(t.subrange(k, k + 5)[2] == t[k + 2]);
        }
    }
    assert(t.skip(n + 5) =~= end);
    assert(trace::after(t, "base:"@) == Some(scan::trimmed(end)));
    lemma_leading(seq![' '], w, base, more);
}

/// A written address holds none of the marks.
proof fn lemma_address_marks(w: Seq<char>, n: u64)
    requires
        trace::writes(w, n),
    ensures
        forall|i: int|
            0 <= i < w.len() ==> #[trigger] w[i] != '=' && w[i] != ';' && w[i] != 's' && w[i]
                != 'p' && w[i] != ':',
{
    let d = text::digits(n as nat, 16);
    reveal_strlit("0x");
    scan::lemma_digits_are_digits(n as nat, 16);
    assert forall|i: int| 0 <= i < d.len() implies #[trigger] d[i] != '=' && d[i] != ';' && d[i]
        != 's' && d[i] != 'p' && d[i] != ':' by {
        assert(scan::digit_value(d[i], 16) is Some);
    }
    assert forall|i: int| 0 <= i < w.len() implies #[trigger] w[i] != '=' && w[i] != ';' && w[i]
        != 's' && w[i] != 'p' && w[i] != ':' by {
        if w != d {
            if i >= 2 {
                assert(w[i] == d[i - 2]);
            }
        }
    }
}

/// The line with the entry completes the link map before it: where it enters and how many
/// program headers it has. No link map is announced after it.
pub proof fn law_an_entry_is_read(
    v: ReadingView,
    pid: Seq<char>,
    gap: Seq<char>,
    w: Seq<char>,
    middle: Seq<char>,
    pad: Seq<char>,
    entry: u64,
    phnum: u32,
)
    requires
        is_pid(pid),
        scan::blank(gap),
        scan::blank(pad),
        trace::writes(w, entry),
        middle.len() > 0,
        scan::is_space(middle[0]),
        forall|q: int|
            0 <= q < middle.len() ==> #[trigger] middle[q] != 's' && middle[q] != '='
                && middle[q] != ';',
    ensures
        ({
            let r = v.read(
                line(
                    pid,
                    gap + ("entry:"@ + (seq![' '] + (w + (middle + "phnum:"@ + (pad + text::dec(
                        phnum as int,
                    )))))),
                ),
            );
            &&& r.search == v.search
            &&& r.scope == v.scope
            &&& r.map is None
            &&& match v.steps.last() {
                StepKindView::LinkMap { file, base, .. } if v.steps.len() > 0 => {
                    &&& r.steps.len() == v.steps.len()
                    &&& r.steps.drop_last() == v.steps.drop_last()
                    &&& r.steps.last() == (StepKindView::LinkMap { file, base, entry, phnum })
                },
                _ => r.steps == v.steps,
            }
        }),
{
    let end = seq![' '] + (w + (middle + "phnum:"@ + (pad + text::dec(phnum as int))));
    let t = "entry:"@ + end;
    lemma_entry_line(
        w,
        middle,
        pad,
        entry,
        phnum,
        v.search is Some,
        v.map is Some,
        v.scope is Some,
    );
    lemma_said(pid, gap, t);
    let r = v.read(line(pid, gap + t));
    if v.steps.len() > 0 {
        if let StepKindView::LinkMap { file, base, .. } = v.steps.last() {
            assert(r.steps.drop_last() =~= v.steps.drop_last());
        }
    }
}

/// The number of program headers at the end of a line.
proof fn lemma_phnum(before: Seq<char>, pad: Seq<char>, phnum: u32)
    requires
        scan::blank(pad),
    ensures
        trace::trailing_phnum(before + "phnum:"@ + (pad + text::dec(phnum as int))) == phnum,
{
    reveal_strlit("phnum:");
    let none = Seq::<char>::empty();
    let d = text::dec(phnum as int);
    let number = pad + d;
    let t = before + "phnum:"@ + number;
    let n = before.len() as int;
    scan::lemma_digits_are_digits(phnum as nat, 10);
    assert forall|i: int| 0 <= i < number.len() implies #[trigger] number[i] != 'p' by {
        if i < pad.len() {
            assert(number[i] == pad[i]);
            assert(scan::is_space(pad[i]));
        } else {
            assert(number[i] == d[i - pad.len()]);
            assert(scan::digit_value(d[i - pad.len()], 10) is Some);
        }
    }
    scan::law_a_search_back_finds_the_last(t, "phnum:"@);
    assert(t.subrange(n, n + 6) =~= "phnum:"@);
    if let Some(k) = scan::rfind(t, "phnum:"@) {
        if k > n {
            assert(t.subrange(k, k + 6)[0] == t[k]);
            if k < n + 6 {
                assert(t[k] == "phnum:"@[k - n]);
            } else {
                assert(t[k] == number[k - n - 6]);
            }
        }
    }
    assert(t.skip(n + 6) =~= number);
    assert(pad + d + none =~= number);
    scan::law_trimming_keeps_the_text(pad, d, none);
    scan::law_a_written_number_is_read_back(phnum as nat, 10, u32::MAX as int);
}

/// A line that starts with an entry holds none of the marks that are looked for first.
proof fn lemma_entry_first(t: Seq<char>, searching: bool, mapping: bool, scoping: bool)
    requires
        t.len() > 0,
        t[0] == 'e',
        forall|q: int| 0 <= q < t.len() ==> #[trigger] t[q] != '=' && t[q] != ';' && t[q] != 's',
        trace::after(t, "entry:"@) is Some,
    ensures
        trace::classified(t, searching, mapping, scoping) == trace::LineView::Rest(
            trace::leading_hex(trace::after(t, "entry:"@)->0),
            trace::trailing_phnum(t),
        ),
{
    reveal_strlit("find library=");
    reveal_strlit("search ");
    reveal_strlit("trying file=");
    reveal_strlit(";  needed by ");
    reveal_strlit(";  generating link map");
    reveal_strlit("base:");
    lemma_lacks(t, "find library="@, 12);
    if text::stands_at(t, "search "@, 0) {
        assert(t.subrange(0, 7)[0] == t[0]);
    }
    if text::stands_at(t, "trying file="@, 0) {
        assert(t.subrange(0, 12)[0] == t[0]);
    }
    lemma_lacks(t, ";  needed by "@, 0);
    lemma_lacks(t, ";  generating link map"@, 0);
    lemma_lacks(t, "base:"@, 2);
}

proof fn lemma_entry_line(
    w: Seq<char>,
    middle: Seq<char>,
    pad: Seq<char>,
    entry: u64,
    phnum: u32,
    searching: bool,
    mapping: bool,
    scoping: bool,
)
    requires
        scan::blank(pad),
        trace::writes(w, entry),
        middle.len() > 0,
        scan::is_space(middle[0]),
        forall|q: int|
            0 <= q < middle.len() ==> #[trigger] middle[q] != 's' && middle[q] != '='
                && middle[q] != ';',
    ensures
        ({
            let t = "entry:"@ + (seq![' '] + (w + (middle + "phnum:"@ + (pad + text::dec(
                phnum as int,
            )))));
            &&& t.len() > 0
            &&& !scan::is_space(t[0])
            &&& !scan::is_space(t.last())
            &&& trace::classified(t, searching, mapping, scoping) == trace::LineView::Rest(
                entry,
                phnum,
            )
        }),
{
    reveal_strlit("entry:");
    reveal_strlit("phnum:");
    let d = text::dec(phnum as int);
    let number = pad + d;
    let more = middle + "phnum:"@ + number;
    let end = seq![' '] + (w + more);
    let t = "entry:"@ + end;
    scan::lemma_digits_are_digits(phnum as nat, 10);
    lemma_address_marks(w, entry);
    lemma_number_marks(pad, phnum);
    assert(t[0] == "entry:"@[0]);
    assert(t.last() == d.last());
    assert forall|q: int| 0 <= q < more.len() implies #[trigger] more[q] != '=' && more[q] != ';'
        && more[q] != 's' by {
        if q < middle.len() {
            assert(more[q] == middle[q]);
        } else if q < middle.len() + 6 {
            assert(more[q] == "phnum:"@[q - middle.len()]);
        } else {
            assert(more[q] == number[q - middle.len() - 6]);
        }
    }
    assert forall|q: int| 0 <= q < t.len() implies #[trigger] t[q] != '=' && t[q] != ';' && t[q]
        != 's' by {
        if q < 6 {
            assert(t[q] == "entry:"@[q]);
        } else if q == 6 {
            assert(t[q] == ' ');
        } else if q - 7 < w.len() {
            assert(t[q] == w[q - 7]);
        } else {
            assert(t[q] == more[q - 7 - w.len()]);
        }
    }
    lemma_starts_with("entry:"@, end);
    lemma_entry_first(t, searching, mapping, scoping);
    assert(more[0] == middle[0]);
    assert(more.last() == d.last());
    lemma_leading(seq![' '], w, entry, more);
    let before = "entry:"@ + (seq![' '] + (w + middle));
    assert(t =~= before + "phnum:"@ + number);
    lemma_phnum(before, pad, phnum);
}

proof fn lemma_number_marks(pad: Seq<char>, n: u32)
    requires
        scan::blank(pad),
    ensures
        ({
            let number = pad + text::dec(n as int);
            forall|i: int|
                0 <= i < number.len() ==> #[trigger] number[i] != '=' && number[i] != ';'
                    && number[i] != 's'
        }),
{
    let d = text::dec(n as int);
    let number = pad + d;
    scan::lemma_digits_are_digits(n as nat, 10);
    assert forall|i: int| 0 <= i < number.len() implies #[trigger] number[i] != '=' && number[i]
        != ';' && number[i] != 's' by {
        if i < pad.len() {
            assert(number[i] == pad[i]);
            assert(scan::is_space(pad[i]));
        } else {
            assert(number[i] == d[i - pad.len()]);
            assert(scan::digit_value(d[i - pad.len()], 10) is Some);
        }
    }
}

/// What is set out is white space and the words.
proof fn lemma_set_out_holds(gaps: Seq<Seq<char>>, w: Seq<Seq<char>>)
    requires
        scan::apart(gaps, w),
        forall|i: int| 0 <= i < w.len() ==> plain(#[trigger] w[i]),
    ensures
        ({
            let s = scan::set_out(gaps, w);
            &&& forall|q: int|
                0 <= q < s.len() ==> #[trigger] s[q] != ';' && s[q] != ':' && s[q] != '='
            &&& w.len() > 0 ==> s.len() > 0 && !scan::is_space(s.last())
        }),
    decreases w.len(),
{
    if w.len() > 0 {
        let g = gaps.drop_first();
        let x = w.drop_first();
        assert forall|i: int| 0 <= i < x.len() implies plain(#[trigger] x[i]) by {
            assert(x[i] == w[i + 1]);
        }
        assert forall|i: int| 0 <= i < g.len() implies scan::blank(#[trigger] g[i]) by {
            assert(g[i] == gaps[i + 1]);
        }
        assert forall|i: int| 0 < i < g.len() implies (#[trigger] g[i]).len() > 0 by {
            assert(g[i] == gaps[i + 1]);
        }
        assert forall|i: int| 0 <= i < x.len() implies scan::solid(#[trigger] x[i]) by {
            assert(x[i] == w[i + 1]);
        }
        lemma_set_out_holds(g, x);
        let rest = scan::set_out(g, x);
        let s = scan::set_out(gaps, w);
        assert(plain(w[0]) && scan::blank(gaps[0]));
        assert forall|q: int| 0 <= q < s.len() implies #[trigger] s[q] != ';' && s[q] != ':' && s[q]
            != '=' by {
            if q < gaps[0].len() {
                assert(s[q] == gaps[0][q]);
                assert(scan::is_space(gaps[0][q]));
            } else if q < gaps[0].len() + w[0].len() {
                assert(s[q] == w[0][q - gaps[0].len()]);
            } else {
                assert(s[q] == rest[q - gaps[0].len() - w[0].len()]);
            }
        }
        if x.len() > 0 {
            assert(s.last() == rest.last());
        } else {
            assert(rest.len() == 0);
            assert(s.last() == w[0].last());
        }
    }
}

/// While a scope is under way, the objects that a line lists are put down in order, behind
/// those before them.
pub proof fn law_a_scope_is_read_in_order(
    v: ReadingView,
    pid: Seq<char>,
    gap: Seq<char>,
    level: nat,
    gaps: Seq<Seq<char>>,
    listed: Seq<Seq<char>>,
    object: Seq<char>,
    order: Seq<Seq<char>>,
)
    requires
        is_pid(pid),
        scan::blank(gap),
        listed.len() > 0,
        scan::apart(gaps, listed),
        forall|i: int| 0 <= i < listed.len() ==> plain(#[trigger] listed[i]),
        v.scope == Some((object, order)),
    ensures
        v.read(
            line(
                pid,
                gap + ("scope "@ + (text::digits(level, 10) + ":"@ + scan::set_out(gaps, listed))),
            ),
        ) == (ReadingView { scope: Some((object, order + listed)), ..v }),
{
    reveal_strlit("scope ");
    reveal_strlit(":");
    reveal_strlit("object=");
    let none = Seq::<char>::empty();
    let d = text::digits(level, 10);
    let s = scan::set_out(gaps, listed);
    let rest = d + ":"@ + s;
    let t = "scope "@ + rest;
    let n = d.len() as int;
    scan::lemma_digits_are_digits(level, 10);
    lemma_set_out_holds(gaps, listed);
    assert(t[0] == 's' && t[1] == 'c');
    assert(t.last() == s.last());
    lemma_said(pid, gap, t);
    assert forall|q: int| 0 <= q < t.len() implies #[trigger] t[q] != '=' && t[q] != ';' && (t[q]
        == ':' ==> q == n + 6) by {
        if q < 6 {
            assert(t[q] == "scope "@[q]);
        } else if q < n + 6 {
            assert(t[q] == d[q - 6]);
            assert(scan::digit_value(d[q - 6], 10) is Some);
        } else if q > n + 6 {
            assert(t[q] == s[q - n - 7]);
        }
    }
    assert(t[n + 5] == d[n - 1]);
    assert(scan::digit_value(d[n - 1], 10) is Some);
    lemma_late(t, v.search is Some, v.map is Some, v.scope is Some);
    lemma_lacks(t, "object="@, 6);
    lemma_starts_with("scope "@, rest);
    assert(t.skip(6) =~= rest);
    assert forall|q: int| 0 <= q < d.len() implies #[trigger] d[q] != ":"@[0] by {
        assert(scan::digit_value(d[q], 10) is Some);
    }
    lemma_found_behind(d, ":"@, s);
    assert(s + none =~= s);
    scan::law_words_are_found_again(gaps, listed, none);
}

// A whole narration.

/// One line for each object whose initialiser is run.
pub open spec fn narrated(pid: Seq<char>, objects: Seq<Seq<char>>) -> Seq<char>
    decreases objects.len(),
{
    if objects.len() == 0 {
        Seq::empty()
    } else {
        line(pid, "calling init:"@ + (seq![' '] + objects[0])).push('\n') + narrated(
            pid,
            objects.drop_first(),
        )
    }
}

proof fn lemma_narrated_lines(pid: Seq<char>, objects: Seq<Seq<char>>)
    requires
        is_pid(pid),
        forall|i: int| 0 <= i < pid.len() ==> #[trigger] pid[i] != '\n',
        forall|i: int| 0 <= i < objects.len() ==> plain(#[trigger] objects[i]),
    ensures
        scan::lines(narrated(pid, objects)) == Seq::new(
            objects.len(),
            |i: int| line(pid, "calling init:"@ + (seq![' '] + objects[i])),
        ),
    decreases objects.len(),
{
    let want = Seq::new(
        objects.len(),
        |i: int| line(pid, "calling init:"@ + (seq![' '] + objects[i])),
    );
    if objects.len() > 0 {
        reveal_strlit(":\t");
        reveal_strlit("calling init:");
        let more = objects.drop_first();
        assert forall|i: int| 0 <= i < more.len() implies plain(#[trigger] more[i]) by {
            assert(more[i] == objects[i + 1]);
        }
        lemma_narrated_lines(pid, more);
        let name = objects[0];
        assert(plain(name));
        let first = line(pid, "calling init:"@ + (seq![' '] + name));
        let n = pid.len() as int;
        assert forall|i: int| 0 <= i < first.len() implies #[trigger] first[i] != '\n' by {
            if i < n {
                assert(first[i] == pid[i]);
            } else if i < n + 2 {
                assert(first[i] == ":\t"@[i - n]);
            } else if i < n + 15 {
                assert(first[i] == "calling init:"@[i - n - 2]);
            } else if i == n + 15 {
                assert(first[i] == ' ');
            } else {
                assert(first[i] == name[i - n - 16]);
                assert(!scan::is_space(name[i - n - 16]));
            }
        }
        assert(first.last() == name.last());
        assert(!scan::is_space(name.last()));
        scan::law_lines_end_at_line_feeds(first, narrated(pid, more));
        let rest = Seq::new(
            more.len(),
            |i: int| line(pid, "calling init:"@ + (seq![' '] + more[i])),
        );
        assert(scan::lines(narrated(pid, objects)) =~= seq![first] + rest);
        assert(seq![first] + rest =~= want) by {
            assert forall|i: int| 0 <= i < want.len() implies (seq![first] + rest)[i]
                == #[trigger] want[i] by {
                if i > 0 {
                    assert(more[i - 1] == objects[i]);
                }
            }
        }
    } else {
        assert(scan::lines(narrated(pid, objects)) =~= want);
    }
}

proof fn lemma_narrated_reading(
    pid: Seq<char>,
    objects: Seq<Seq<char>>,
    lines: Seq<Seq<char>>,
    n: int,
)
    requires
        is_pid(pid),
        forall|i: int| 0 <= i < objects.len() ==> plain(#[trigger] objects[i]),
        lines == Seq::new(
            objects.len(),
            |i: int| line(pid, "calling init:"@ + (seq![' '] + objects[i])),
        ),
        0 <= n <= lines.len(),
    ensures
        ({
            let r = trace::reading(lines, n);
            &&& r.steps == Seq::new(n as nat, |i: int| StepKindView::Init { object: objects[i] })
            &&& r.search is None
            &&& r.scope is None
        }),
    decreases n,
{
    let want = Seq::new(n as nat, |i: int| StepKindView::Init { object: objects[i] });
    if n > 0 {
        lemma_narrated_reading(pid, objects, lines, n - 1);
        let v = trace::reading(lines, n - 1);
        let none = Seq::<char>::empty();
        let name = objects[n - 1];
        reveal_strlit("");
        assert(none + ("calling init:"@ + (seq![' '] + name + ""@)) =~= "calling init:"@ + (
        seq![' '] + name));
        law_what_is_run_is_read(v, pid, none, name, ""@);
        assert(lines[n - 1] == line(pid, "calling init:"@ + (seq![' '] + name)));
        assert(trace::reading(lines, n).steps =~= want);
    } else {
        assert(trace::reading(lines, 0).steps =~= want);
    }
}

/// A narration is read line by line, from the first to the last: one step for each object
/// whose initialiser is run, in the order of the lines.
pub proof fn law_a_narration_is_read_in_order(pid: Seq<char>, objects: Seq<Seq<char>>)
    requires
        is_pid(pid),
        forall|i: int| 0 <= i < pid.len() ==> #[trigger] pid[i] != '\n',
        forall|i: int| 0 <= i < objects.len() ==> plain(#[trigger] objects[i]),
    ensures
        trace::ld_debug_steps(narrated(pid, objects)) == Seq::new(
            objects.len(),
            |i: int| StepKindView::Init { object: objects[i] },
        ),
{
    lemma_narrated_lines(pid, objects);
    let lines = scan::lines(narrated(pid, objects));
    lemma_narrated_reading(pid, objects, lines, lines.len() as int);
}

} // verus!
