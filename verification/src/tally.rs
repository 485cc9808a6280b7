//! What the numbers of a coverage promise: they count every byte of every file, once.

use vstd::prelude::*;
use vstd::set_lib::{lemma_int_range, lemma_len_subset, lemma_set_disjoint_lens, set_int_range};

use crate::claim::ClaimView;
use crate::coverage;
use crate::coverage::{CoverageError, Ledger};
use crate::partition;
use crate::span::{FileId, Span};

verus! {

/// The length of the first `n` files together.
pub open spec fn files_sum(files: Seq<(FileId, u64)>, n: int) -> nat
    decreases n,
{
    if n <= 0 {
        0
    } else {
        files_sum(files, n - 1) + files[n - 1].1 as nat
    }
}

/// The bytes of the filler leaves among the first `n` claims.
pub open spec fn filler_sum(claims: Seq<ClaimView>, n: int) -> nat
    decreases n,
{
    if n <= 0 {
        0
    } else if coverage::leaf(claims, n - 1) && claims[n - 1].kind.filler() {
        filler_sum(claims, n - 1) + claims[n - 1].span.len as nat
    } else {
        filler_sum(claims, n - 1)
    }
}

proof fn lemma_files_sum_grows(files: Seq<(FileId, u64)>, a: int, b: int)
    requires
        a <= b,
    ensures
        files_sum(files, a) <= files_sum(files, b),
    decreases b - a,
{
    if a < b {
        lemma_files_sum_grows(files, a, b - 1);
    }
}

/// A sum that fits does not saturate.
proof fn lemma_total_len(files: Seq<(FileId, u64)>, n: int)
    requires
        files_sum(files, n) <= u64::MAX,
    ensures
        coverage::total_len(files, n) == files_sum(files, n),
    decreases n,
{
    if n > 0 {
        lemma_total_len(files, n - 1);
    }
}

/// A sum that fits does not saturate.
proof fn lemma_filler_len(claims: Seq<ClaimView>, n: int)
    requires
        filler_sum(claims, n) <= u64::MAX,
    ensures
        coverage::filler_len(claims, n) == filler_sum(claims, n),
    decreases n,
{
    if n > 0 {
        lemma_filler_len(claims, n - 1);
    }
}

/// The place of `file` among the files.
spec fn home(files: Seq<(FileId, u64)>, file: FileId) -> int {
    choose|k: int| 0 <= k < files.len() && (#[trigger] files[k]).0 == file
}

proof fn lemma_home(files: Seq<(FileId, u64)>, file: FileId)
    requires
        coverage::ascending(files),
        coverage::len_of(files, file) is Some,
    ensures
        0 <= home(files, file) < files.len(),
        files[home(files, file)].0 == file,
        files[home(files, file)].1 == coverage::len_of(files, file)->0,
{
    lemma_declared_somewhere(files, file);
    partition::lemma_len_of(files, home(files, file));
}

proof fn lemma_declared_somewhere(files: Seq<(FileId, u64)>, file: FileId)
    requires
        coverage::len_of(files, file) is Some,
    ensures
        exists|k: int| 0 <= k < files.len() && (#[trigger] files[k]).0 == file,
    decreases files.len(),
{
    if files[0].0 != file {
        let rest = files.drop_first();
        lemma_declared_somewhere(rest, file);
        let k = choose|k: int| 0 <= k < rest.len() && (#[trigger] rest[k]).0 == file;
        assert(files[k + 1] == rest[k]);
    }
}

/// Where the claim at `i` starts when the files are laid end to end.
spec fn laid_at(l: Ledger, i: int) -> int {
    files_sum(l.files, home(l.files, l.claims[i].span.file)) + l.claims[i].span.start
}

/// With the files laid end to end, `at` lies in the filler leaf at `i`.
spec fn fills(l: Ledger, i: int, at: int) -> bool {
    &&& coverage::leaf(l.claims, i)
    &&& l.claims[i].kind.filler()
    &&& laid_at(l, i) <= at < laid_at(l, i) + l.claims[i].span.len
}

/// What the filler leaves among the first `n` claims take, the files laid end to end.
spec fn filler(l: Ledger, n: int) -> Set<int> {
    Set::new(|at: int| exists|i: int| 0 <= i < n && #[trigger] fills(l, i, at))
}

/// A finished ledger whose claims lie within their files, and whose files can be counted.
pub open spec fn countable(l: Ledger) -> bool {
    &&& l.valid()
    &&& l.contained()
    &&& l.fault(0) is None
    &&& files_sum(l.files, l.files.len() as int) < u64::MAX
}

/// A claim lies within its file, and so within the files laid end to end.
proof fn lemma_laid_inside(l: Ledger, i: int)
    requires
        countable(l),
        0 <= i < l.claims.len(),
    ensures
        ({
            let c = l.claims[i].span;
            let k = home(l.files, c.file);
            &&& 0 <= k < l.files.len()
            &&& l.files[k].0 == c.file
            &&& c.start + c.len <= l.files[k].1
            &&& c.spec_end() == c.start + c.len
            &&& laid_at(l, i) + c.len <= files_sum(l.files, k + 1)
            &&& files_sum(l.files, k + 1) <= files_sum(l.files, l.files.len() as int)
        }),
{
    let c = l.claims[i].span;
    assert(coverage::len_of(l.files, c.file) is Some);
    lemma_home(l.files, c.file);
    let k = home(l.files, c.file);
    lemma_files_sum_grows(l.files, k + 1, l.files.len() as int);
    assert(files_sum(l.files, k + 1) == files_sum(l.files, k) + l.files[k].1);
}

/// A filler leaf shares nothing with those before it.
proof fn lemma_apart(l: Ledger, n: int, at: int)
    requires
        countable(l),
        0 <= n < l.claims.len(),
        fills(l, n, at),
    ensures
        !filler(l, n).contains(at),
{
    if filler(l, n).contains(at) {
        let i = choose|i: int| 0 <= i < n && #[trigger] fills(l, i, at);
        lemma_laid_inside(l, i);
        lemma_laid_inside(l, n);
        let a = home(l.files, l.claims[i].span.file);
        let b = home(l.files, l.claims[n].span.file);
        if a < b {
            lemma_files_sum_grows(l.files, a + 1, b);
        }
        if b < a {
            lemma_files_sum_grows(l.files, b + 1, a);
        }
        let off = at - files_sum(l.files, a);
        partition::law_every_byte_has_one_leaf(l, a, off as u64);
        assert(partition::owns(l.claims, i, l.files[a].0, off));
        assert(partition::owns(l.claims, n, l.files[a].0, off));
    }
}

proof fn lemma_filler(l: Ledger, n: int)
    requires
        countable(l),
        0 <= n <= l.claims.len(),
    ensures
        filler(l, n).finite(),
        filler(l, n).subset_of(set_int_range(0, files_sum(l.files, l.files.len() as int) as int)),
        filler(l, n).len() == filler_sum(l.claims, n),
    decreases n,
{
    if n == 0 {
        assert(filler(l, 0) =~= Set::<int>::empty());
    } else {
        lemma_filler(l, n - 1);
        lemma_laid_inside(l, n - 1);
        let c = l.claims[n - 1];
        let from = laid_at(l, n - 1);
        let before = filler(l, n - 1);
        let here = if coverage::leaf(l.claims, n - 1) && c.kind.filler() {
            set_int_range(from, from + c.span.len)
        } else {
            set_int_range(0, 0)
        };
        lemma_int_range(from, from + c.span.len);
        lemma_int_range(0, 0);
        assert forall|at: int| here.contains(at) == fills(l, n - 1, at) by {}
        assert forall|at: int| here.contains(at) implies !before.contains(at) by {
            lemma_apart(l, n - 1, at);
        }
        assert forall|at: int| #[trigger]
            filler(l, n).contains(at) == (before.contains(at) || here.contains(at)) by {
            if before.contains(at) {
                let i = choose|i: int| 0 <= i < n - 1 && #[trigger] fills(l, i, at);
                assert(fills(l, i, at));
            }
            if here.contains(at) {
                assert(fills(l, n - 1, at));
            }
        }
        assert(filler(l, n) =~= before + here);
        assert(before.disjoint(here));
        lemma_set_disjoint_lens(before, here);
    }
}

/// In a finished coverage, the total is the sum of the lengths of the files, the filler is
/// the sum of the lengths of the filler leaves, and what is explained and what is filler are
/// together the total: nothing is counted twice, and nothing saturates.
pub proof fn law_explained_and_filler_make_the_total(l: Ledger)
    requires
        countable(l),
    ensures
        ({
            let total = coverage::total_len(l.files, l.files.len() as int);
            let filler = coverage::filler_len(l.claims, l.claims.len() as int);
            &&& total == files_sum(l.files, l.files.len() as int)
            &&& filler == filler_sum(l.claims, l.claims.len() as int)
            &&& coverage::explained_len(l) + filler == total
        }),
{
    let n = l.claims.len() as int;
    let whole = files_sum(l.files, l.files.len() as int) as int;
    lemma_filler(l, n);
    lemma_int_range(0, whole);
    lemma_len_subset(filler(l, n), set_int_range(0, whole));
    lemma_total_len(l.files, l.files.len() as int);
    lemma_filler_len(l.claims, n);
}

/// The depth is the length of the longest path to a root, and 0 where there is no claim.
pub proof fn law_the_depth_is_that_of_the_deepest(claims: Seq<ClaimView>, n: int)
    requires
        0 <= n <= claims.len(),
    ensures
        n == 0 ==> coverage::depth(claims, n) == 0,
        forall|i: int|
            0 <= i < n ==> (#[trigger] coverage::chain(claims, coverage::mint(i))).len()
                <= coverage::depth(claims, n),
        n > 0 ==> exists|i: int|
            0 <= i < n && (#[trigger] coverage::chain(claims, coverage::mint(i))).len()
                == coverage::depth(claims, n),
    decreases n,
{
    if n > 0 {
        law_the_depth_is_that_of_the_deepest(claims, n - 1);
        coverage::lemma_chain_is_bounded(claims, coverage::mint(n - 1));
    }
}

// Where every file is declared once, and before its claims, every claim lies within its file.

proof fn lemma_len_of_declared(files: Seq<(FileId, u64)>, file: FileId, len: u64, other: FileId)
    requires
        coverage::ascending(files),
        coverage::len_of(files, file) is None,
    ensures
        coverage::len_of(coverage::declared(files, file, len), other) == if other == file {
            Some(len)
        } else {
            coverage::len_of(files, other)
        },
    decreases files.len(),
{
    let d = coverage::declared(files, file, len);
    if files.len() == 0 {
        assert(d.drop_first() =~= files);
    } else {
        let rest = files.drop_first();
        if files[0].0.0 < file.0 {
            assert forall|i: int, j: int|
                #![trigger rest[i], rest[j]]
                0 <= i < j < rest.len() implies rest[i].0.0 < rest[j].0.0 by {
                assert(rest[i] == files[i + 1] && rest[j] == files[j + 1]);
            }
            lemma_len_of_declared(rest, file, len, other);
            assert(d.drop_first() =~= coverage::declared(rest, file, len));
        } else {
            assert(d.drop_first() =~= files);
        }
    }
}

/// Declaring a file that was not declared before keeps every claim within its file.
pub proof fn law_a_new_file_keeps_claims_inside(l: Ledger, file: FileId, len: u64)
    requires
        coverage::ascending(l.files),
        l.contained(),
        coverage::len_of(l.files, file) is None,
    ensures
        (Ledger { files: coverage::declared(l.files, file, len), ..l }).contained(),
{
    let m = Ledger { files: coverage::declared(l.files, file, len), ..l };
    assert forall|i: int|
        #![trigger m.claims[i]]
        0 <= i < m.claims.len() implies {
        let c = m.claims[i].span;
        coverage::len_of(m.files, c.file) is Some && c.spec_end() <= coverage::len_of(
            m.files,
            c.file,
        )->0
    } by {
        assert(l.claims[i] == m.claims[i]);
        lemma_len_of_declared(l.files, file, len, l.claims[i].span.file);
    }
}

/// A claim that can be added lies within its file, as those before it do.
pub proof fn law_a_new_claim_lies_inside(l: Ledger, c: ClaimView)
    requires
        l.contained(),
        l.push_fault(c) is None,
    ensures
        l.with(c).contained(),
{
    let m = l.with(c);
    assert forall|i: int|
        #![trigger m.claims[i]]
        0 <= i < m.claims.len() implies {
        let s = m.claims[i].span;
        coverage::len_of(m.files, s.file) is Some && s.spec_end() <= coverage::len_of(
            m.files,
            s.file,
        )->0
    } by {
        if i < l.claims.len() {
            assert(m.claims[i] == l.claims[i]);
        }
    }
}

/// The span ends where the other does or before, and starts where it does or after.
pub open spec fn lies_in(inner: Span, outer: Span) -> bool {
    inner.file == outer.file && outer.start <= inner.start && inner.spec_end() <= outer.spec_end()
}

/// A claim of a declared file is taken exactly where the file has its bytes and, if it names a
/// parent, the parent is there and has them too. The first of these that fails is the fault.
pub proof fn law_a_claim_is_taken_where_it_fits(l: Ledger, c: ClaimView, k: int)
    requires
        coverage::ascending(l.files),
        0 <= k < l.files.len(),
        l.files[k].0 == c.span.file,
    ensures
        ({
            let past = c.span.spec_end() > l.files[k].1;
            let orphan = c.parent is Some && (c.parent->0).0 >= l.claims.len();
            let outside = c.parent is Some && !orphan && !lies_in(
                c.span,
                l.claims[(c.parent->0).0 as int].span,
            );
            &&& l.push_fault(c) is None <==> !past && !orphan && !outside
            &&& (l.push_fault(c) matches Some(CoverageError::SpanExceedsFile { .. })) <==> past
            &&& (l.push_fault(c) matches Some(CoverageError::UnknownParent { .. })) <==> !past
                && orphan
            &&& (l.push_fault(c) matches Some(CoverageError::ChildEscapesParent { .. })) <==> !past
                && outside
        }),
{
    partition::lemma_len_of(l.files, k);
}

/// The innermost claim around a span holds it and has bytes; none that holds it is shorter; and
/// there is one wherever some claim with bytes holds the span.
pub proof fn law_the_innermost_is_the_shortest_around(claims: Seq<ClaimView>, span: Span)
    ensures
        match coverage::innermost(claims, span) {
            Some(i) => {
                &&& 0 <= i < claims.len()
                &&& claims[i].span.len > 0
                &&& lies_in(span, claims[i].span)
                &&& forall|j: int|
                    0 <= j < claims.len() && (#[trigger] claims[j]).span.len > 0 && lies_in(
                        span,
                        claims[j].span,
                    ) ==> claims[i].span.len <= claims[j].span.len
            },
            None => forall|j: int|
                0 <= j < claims.len() && (#[trigger] claims[j]).span.len > 0 ==> !lies_in(
                    span,
                    claims[j].span,
                ),
        },
    decreases claims.len(),
{
    if claims.len() > 0 {
        let less = claims.drop_last();
        law_the_innermost_is_the_shortest_around(less, span);
        assert forall|j: int| 0 <= j < less.len() implies less[j] == claims[j] by {}
        match coverage::innermost(claims, span) {
            Some(i) => {
                assert forall|j: int|
                    0 <= j < claims.len() && (#[trigger] claims[j]).span.len > 0 && lies_in(
                        span,
                        claims[j].span,
                    ) implies claims[i].span.len <= claims[j].span.len by {
                    if j < less.len() {
                        assert(less[j] == claims[j]);
                    }
                }
            },
            None => {
                assert forall|j: int|
                    0 <= j < claims.len() && (#[trigger] claims[j]).span.len > 0 implies !lies_in(
                    span,
                    claims[j].span,
                ) by {
                    if j < less.len() {
                        assert(less[j] == claims[j]);
                    }
                }
            },
        }
    }
}

} // verus!
