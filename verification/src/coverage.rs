//! The claim tree and the invariant that keeps it honest.

use vstd::prelude::*;

use crate::claim::{Claim, ClaimId, ClaimKind, ClaimView};
use crate::index;
use crate::index::IntervalIndex;
use crate::order;
use crate::order::Key;
use crate::span;
use crate::span::{FileId, Span};
use crate::text;

verus! {

/// Ways a claim set can fail to describe a file.
#[allow(inconsistent_fields)]
#[derive(Clone, Copy, PartialEq, Eq, Debug, Structural)]
pub enum CoverageError {
    /// A claim referenced a file that was never declared with
    /// [`CoverageBuilder::add_file`].
    UnknownFile { file: FileId },
    /// A claim runs past the end of its file: almost always a bad size field.
    SpanExceedsFile { claim: ClaimId, span: Span, file_len: u64 },
    UnknownParent { claim: ClaimId, parent: ClaimId },
    /// A child must lie within its parent. A violation means a structure's extent was
    /// computed one way and its contents another.
    ChildEscapesParent { claim: ClaimId, child: Span, parent: Span },
    /// Two leaf claims cover the same byte. The parser double-counted.
    LeafOverlap { a: ClaimId, b: ClaimId, at: Span },
    /// Bytes no leaf accounts for. Call [`CoverageBuilder::fill_unclaimed`] to turn these
    /// into explicit [`ClaimKind::Unclaimed`] claims: silence is not permitted.
    Gap { span: Span },
}

impl CoverageError {
    /// The error in words.
    pub open spec fn text(self) -> Seq<char> {
        match self {
            Self::UnknownFile { file } => "claim references undeclared file "@ + file.text(),
            Self::SpanExceedsFile { claim, span, file_len } => "claim "@ + claim.text() + " at "@
                + span.text() + " runs past end of file ("@ + text::dec(file_len as int)
                + " bytes)"@,
            Self::UnknownParent { claim, parent } => "claim "@ + claim.text()
                + " names unknown parent "@ + parent.text(),
            Self::ChildEscapesParent { claim, child, parent } => "claim "@ + claim.text() + " at "@
                + child.text() + " is not contained by its parent at "@ + parent.text(),
            Self::LeafOverlap { a, b, at } => "leaf claims "@ + a.text() + " and "@ + b.text()
                + " both cover "@ + at.text(),
            Self::Gap { span } => "no leaf claim covers "@ + span.text(),
        }
    }

    /// The error in words.
    pub fn to_text(self) -> (r: String)
        ensures
            r@ == self.text(),
    {
        match self {
            Self::UnknownFile { file } => {
                let mut r = "claim references undeclared file ".to_string();
                r.append(file.to_text().as_str());
                r
            },
            Self::SpanExceedsFile { claim, span, file_len } => {
                let mut r = "claim ".to_string();
                r.append(claim.to_text().as_str());
                r.append(" at ");
                r.append(span.to_text().as_str());
                r.append(" runs past end of file (");
                r.append(text::dec_text(file_len).as_str());
                r.append(" bytes)");
                r
            },
            Self::UnknownParent { claim, parent } => {
                let mut r = "claim ".to_string();
                r.append(claim.to_text().as_str());
                r.append(" names unknown parent ");
                r.append(parent.to_text().as_str());
                r
            },
            Self::ChildEscapesParent { claim, child, parent } => {
                let mut r = "claim ".to_string();
                r.append(claim.to_text().as_str());
                r.append(" at ");
                r.append(child.to_text().as_str());
                r.append(" is not contained by its parent at ");
                r.append(parent.to_text().as_str());
                r
            },
            Self::LeafOverlap { a, b, at } => {
                let mut r = "leaf claims ".to_string();
                r.append(a.to_text().as_str());
                r.append(" and ");
                r.append(b.to_text().as_str());
                r.append(" both cover ");
                r.append(at.to_text().as_str());
                r
            },
            Self::Gap { span } => {
                let mut r = "no leaf claim covers ".to_string();
                r.append(span.to_text().as_str());
                r
            },
        }
    }
}

/// The id of the claim at position `n`. Positions past the last id share it.
pub open spec fn mint(n: int) -> ClaimId {
    if n > u32::MAX {
        ClaimId(u32::MAX)
    } else {
        ClaimId(n as u32)
    }
}

/// The id of the claim at position `n`.
pub(crate) fn mint_id(n: u64) -> (r: ClaimId)
    ensures
        r == mint(n as int),
{
    if n > u32::MAX as u64 {
        ClaimId(u32::MAX)
    } else {
        ClaimId(n as u32)
    }
}

/// Claims in the order they were made, and the declared files by ascending id.
#[verifier::ext_equal]
pub struct Ledger {
    pub claims: Seq<ClaimView>,
    pub files: Seq<(FileId, u64)>,
}

/// The declared length of `file`.
pub open spec fn len_of(files: Seq<(FileId, u64)>, file: FileId) -> Option<u64>
    decreases files.len(),
{
    if files.len() == 0 {
        None
    } else if files[0].0 == file {
        Some(files[0].1)
    } else {
        len_of(files.drop_first(), file)
    }
}

/// `files` with `file` declared to be `len` bytes long, by ascending id.
pub open spec fn declared(files: Seq<(FileId, u64)>, file: FileId, len: u64) -> Seq<(FileId, u64)>
    decreases files.len(),
{
    if files.len() == 0 {
        seq![(file, len)]
    } else if files[0].0.0 < file.0 {
        seq![files[0]] + declared(files.drop_first(), file, len)
    } else if files[0].0 == file {
        seq![(file, len)] + files.drop_first()
    } else {
        seq![(file, len)] + files
    }
}

/// Each file is declared once, in ascending order.
pub open spec fn ascending(files: Seq<(FileId, u64)>) -> bool {
    forall|i: int, j: int|
        #![trigger files[i], files[j]]
        0 <= i < j < files.len() ==> files[i].0.0 < files[j].0.0
}

/// The claim at `i` is the parent of the claim at `j`.
pub open spec fn parents(claims: Seq<ClaimView>, i: int, j: int) -> bool {
    claims[j].parent is Some && (claims[j].parent->0).0 == i
}

/// No claim names the one at `i` as its parent.
pub open spec fn leaf(claims: Seq<ClaimView>, i: int) -> bool {
    forall|j: int| 0 <= j < claims.len() ==> !#[trigger] parents(claims, i, j)
}

/// The ids of the claims whose parent is the claim at `i`, in order.
pub open spec fn child_ids(claims: Seq<ClaimView>, i: int) -> Seq<ClaimId>
    decreases claims.len(),
{
    if claims.len() == 0 {
        Seq::empty()
    } else {
        let rest = child_ids(claims.drop_last(), i);
        if parents(claims, i, claims.len() - 1) {
            rest.push(mint(claims.len() - 1))
        } else {
            rest
        }
    }
}

/// The ids of the claims without a parent, in order.
pub open spec fn root_ids(claims: Seq<ClaimView>) -> Seq<ClaimId>
    decreases claims.len(),
{
    if claims.len() == 0 {
        Seq::empty()
    } else {
        let rest = root_ids(claims.drop_last());
        if claims.last().parent is None {
            rest.push(mint(claims.len() - 1))
        } else {
            rest
        }
    }
}

/// Every parent comes before its child and contains it.
pub open spec fn nested(claims: Seq<ClaimView>) -> bool {
    forall|i: int|
        #![trigger claims[i]]
        0 <= i < claims.len() && claims[i].parent is Some ==> {
            let p = (claims[i].parent->0).0 as int;
            p < i && claims[p].span.nests(claims[i].span)
        }
}

/// The ranges of the non-empty leaves of `file` among the first `n` claims, each with its
/// position.
pub open spec fn leaf_keys(claims: Seq<ClaimView>, n: int, file: FileId) -> Seq<Key>
    decreases n,
{
    if n <= 0 {
        Seq::empty()
    } else {
        let rest = leaf_keys(claims, n - 1, file);
        let c = claims[n - 1];
        if c.span.file == file && c.span.len != 0 && leaf(claims, n - 1) {
            rest.push((c.span.start, c.span.spec_end(), (n - 1) as u64))
        } else {
            rest
        }
    }
}

/// The non-empty leaves of `file` by start, then end, then position.
pub open spec fn sorted_leaves(claims: Seq<ClaimView>, file: FileId) -> Seq<Key> {
    order::sorted(leaf_keys(claims, claims.len() as int, file))
}

/// Where the leaf at `k` has to start for the leaves before it to tile.
pub open spec fn tiled_to(leaves: Seq<Key>, k: int) -> u64 {
    if k <= 0 {
        0
    } else {
        leaves[k - 1].1
    }
}

/// The first place, from leaf `k` on, where the leaves fail to tile `len` bytes of `file`.
pub open spec fn tiling_fault(leaves: Seq<Key>, k: int, file: FileId, len: u64) -> Option<
    CoverageError,
>
    decreases leaves.len() - k,
{
    let cursor = tiled_to(leaves, k);
    if k >= leaves.len() {
        if cursor < len {
            Some(
                CoverageError::Gap {
                    span: Span { file, start: cursor, len: (len - cursor) as u64 },
                },
            )
        } else {
            None
        }
    } else {
        let (start, end, at) = leaves[k];
        if start < cursor {
            let stop = if cursor < end {
                cursor
            } else {
                end
            };
            Some(
                CoverageError::LeafOverlap {
                    a: mint(leaves[k - 1].2 as int),
                    b: mint(at as int),
                    at: Span {
                        file,
                        start,
                        len: if stop < start {
                            0
                        } else {
                            (stop - start) as u64
                        },
                    },
                },
            )
        } else if start > cursor {
            Some(
                CoverageError::Gap {
                    span: Span { file, start: cursor, len: (start - cursor) as u64 },
                },
            )
        } else {
            tiling_fault(leaves, k + 1, file, len)
        }
    }
}

/// The holes the leaves leave in the first `len` bytes of `file`, from `cursor` on.
pub open spec fn holes(leaves: Seq<Key>, cursor: u64, file: FileId, len: u64) -> Seq<Span>
    decreases leaves.len(),
{
    if leaves.len() == 0 {
        if cursor < len {
            seq![Span { file, start: cursor, len: (len - cursor) as u64 }]
        } else {
            Seq::empty()
        }
    } else {
        let (start, end, at) = leaves[0];
        let next = if cursor < end {
            end
        } else {
            cursor
        };
        let rest = holes(leaves.drop_first(), next, file, len);
        if start > cursor {
            seq![Span { file, start: cursor, len: (start - cursor) as u64 }] + rest
        } else {
            rest
        }
    }
}

/// The first of the shortest non-empty claims that contain `span`.
pub open spec fn innermost(claims: Seq<ClaimView>, span: Span) -> Option<int>
    decreases claims.len(),
{
    if claims.len() == 0 {
        None
    } else {
        let best = innermost(claims.drop_last(), span);
        let c = claims.last().span;
        if c.len != 0 && c.nests(span) && (best is None || c.len < claims[best->0].span.len) {
            Some(claims.len() - 1)
        } else {
            best
        }
    }
}

impl Ledger {
    pub open spec fn empty() -> Ledger {
        Ledger { claims: Seq::empty(), files: Seq::empty() }
    }

    /// Files are declared once each, claims nest, and there are no more of them than memory
    /// can hold.
    pub open spec fn valid(self) -> bool {
        &&& ascending(self.files)
        &&& nested(self.claims)
        &&& self.claims.len() <= usize::MAX
    }

    /// Every claim ends within its file, as long as no file is declared shorter afterwards.
    pub open spec fn contained(self) -> bool {
        forall|i: int|
            #![trigger self.claims[i]]
            0 <= i < self.claims.len() ==> {
                let c = self.claims[i].span;
                len_of(self.files, c.file) is Some && c.spec_end() <= len_of(
                    self.files,
                    c.file,
                )->0
            }
    }

    /// Why `c` cannot be added, if it cannot.
    pub open spec fn push_fault(self, c: ClaimView) -> Option<CoverageError> {
        let id = mint(self.claims.len() as int);
        match len_of(self.files, c.span.file) {
            None => Some(CoverageError::UnknownFile { file: c.span.file }),
            Some(file_len) => if c.span.spec_end() > file_len {
                Some(CoverageError::SpanExceedsFile { claim: id, span: c.span, file_len })
            } else {
                match c.parent {
                    None => None,
                    Some(parent) => if parent.0 >= self.claims.len() {
                        Some(CoverageError::UnknownParent { claim: id, parent })
                    } else if !self.claims[parent.0 as int].span.nests(c.span) {
                        Some(
                            CoverageError::ChildEscapesParent {
                                claim: id,
                                child: c.span,
                                parent: self.claims[parent.0 as int].span,
                            },
                        )
                    } else {
                        None
                    },
                }
            },
        }
    }

    /// With `c` added at the end.
    pub open spec fn with(self, c: ClaimView) -> Ledger {
        Ledger { claims: self.claims.push(c), ..self }
    }

    /// The claim that names `hole` as unexplained, under the innermost claim around it.
    pub open spec fn hole_claim(self, hole: Span) -> ClaimView {
        let c = ClaimView::bare(hole, ClaimKind::Unclaimed);
        match innermost(self.claims, hole) {
            Some(i) => c.under(mint(i)),
            None => c,
        }
    }

    /// With the holes named, in order; one that cannot be added is left out.
    pub open spec fn with_holes(self, holes: Seq<Span>) -> Ledger
        decreases holes.len(),
    {
        if holes.len() == 0 {
            self
        } else {
            let l = self.with_holes(holes.drop_last());
            let c = l.hole_claim(holes.last());
            if l.push_fault(c) is None {
                l.with(c)
            } else {
                l
            }
        }
    }

    /// With the holes of the first `n` files named.
    pub open spec fn filled(self, n: int) -> Ledger
        decreases n,
    {
        if n <= 0 {
            self
        } else {
            let l = self.filled(n - 1);
            let (file, len) = self.files[n - 1];
            l.with_holes(holes(sorted_leaves(l.claims, file), 0, file, len))
        }
    }

    /// The first fault in the partition, from file `k` on.
    pub open spec fn fault(self, k: int) -> Option<CoverageError>
        decreases self.files.len() - k,
    {
        if k < 0 || k >= self.files.len() {
            None
        } else {
            let (file, len) = self.files[k];
            match tiling_fault(sorted_leaves(self.claims, file), 0, file, len) {
                Some(e) => Some(e),
                None => self.fault(k + 1),
            }
        }
    }

    /// The spans of all claims with their ids.
    pub open spec fn spans(self) -> Seq<(Span, ClaimId)> {
        Seq::new(self.claims.len(), |i: int| (self.claims[i].span, mint(i)))
    }
}

/// A claim no claim names as parent is one whose list of children is empty.
pub proof fn lemma_leaf_has_no_children(claims: Seq<ClaimView>, i: int)
    ensures
        leaf(claims, i) <==> child_ids(claims, i).len() == 0,
    decreases claims.len(),
{
    if claims.len() > 0 {
        let front = claims.drop_last();
        let n = claims.len() - 1;
        lemma_leaf_has_no_children(front, i);
        assert forall|j: int| 0 <= j < front.len() implies parents(front, i, j) == parents(
            claims,
            i,
            j,
        ) by {}
        if leaf(claims, i) {
            assert(!parents(claims, i, n));
            assert forall|j: int| 0 <= j < front.len() implies !#[trigger] parents(front, i, j) by {
                assert(!parents(claims, i, j));
            }
        }
        if child_ids(claims, i).len() == 0 {
            assert forall|j: int| 0 <= j < claims.len() implies !#[trigger] parents(
                claims,
                i,
                j,
            ) by {
                if j < n {
                    assert(!parents(front, i, j));
                }
            }
        }
    }
}

/// A position past the last claim has no children.
proof fn lemma_new_claim_is_leaf(claims: Seq<ClaimView>, i: int)
    requires
        nested(claims),
        i >= claims.len(),
    ensures
        child_ids(claims, i) == Seq::<ClaimId>::empty(),
{
    assert forall|j: int| 0 <= j < claims.len() implies !#[trigger] parents(claims, i, j) by {
        assert(claims[j].parent is Some ==> (claims[j].parent->0).0 < j);
    }
    lemma_leaf_has_no_children(claims, i);
}

/// Accumulates claims, then validates them into a [`Coverage`].
///
/// Structural errors (bad parent, span past end of file) are caught eagerly at
/// [`push`](Self::push) so the parser fails near the bug. The coverage invariant is a
/// whole-file property and is checked at [`finish`](Self::finish).
#[derive(Clone, Debug)]
pub struct CoverageBuilder {
    claims: Vec<Claim>,
    children: Vec<Vec<ClaimId>>,
    files: Vec<(FileId, u64)>,
}

spec fn claim_views(claims: Seq<Claim>) -> Seq<ClaimView> {
    claims.map_values(|c: Claim| c@)
}

/// The children of each claim are those that name it as parent.
spec fn links(claims: Seq<ClaimView>, children: Seq<Vec<ClaimId>>) -> bool {
    &&& children.len() == claims.len()
    &&& forall|i: int|
        0 <= i < children.len() ==> (#[trigger] children[i])@ == child_ids(claims, i)
}

impl View for CoverageBuilder {
    type V = Ledger;

    closed spec fn view(&self) -> Ledger {
        Ledger { claims: claim_views(self.claims@), files: self.files@ }
    }
}

/// The declared length of `file`.
fn find_len(files: &Vec<(FileId, u64)>, file: FileId) -> (r: Option<u64>)
    ensures
        r == len_of(files@, file),
{
    let mut i: usize = 0;
    assert(files@.skip(0) =~= files@);
    while i < files.len()
        invariant
            i <= files@.len(),
            len_of(files@, file) == len_of(files@.skip(i as int), file),
        decreases files.len() - i,
    {
        assert(files@.skip(i as int).drop_first() =~= files@.skip(i + 1));
        if files[i].0.0 == file.0 {
            return Some(files[i].1);
        }
        i += 1;
    }
    None
}

proof fn lemma_declared(files: Seq<(FileId, u64)>, at: int, file: FileId, len: u64)
    requires
        0 <= at <= files.len(),
        forall|i: int| 0 <= i < at ==> (#[trigger] files[i]).0.0 < file.0,
        at < files.len() ==> files[at].0.0 >= file.0,
    ensures
        declared(files, file, len) == if at < files.len() && files[at].0 == file {
            files.update(at, (file, len))
        } else {
            files.insert(at, (file, len))
        },
    decreases at,
{
    if at > 0 {
        assert(files[0].0.0 < file.0);
        let rest = files.drop_first();
        assert forall|i: int| 0 <= i < at - 1 implies (#[trigger] rest[i]).0.0 < file.0 by {
            assert(rest[i] == files[i + 1]);
        }
        lemma_declared(rest, at - 1, file, len);
        assert(declared(files, file, len) =~= if at < files.len() && files[at].0 == file {
            files.update(at, (file, len))
        } else {
            files.insert(at, (file, len))
        });
    } else {
        assert(declared(files, file, len) =~= if at < files.len() && files[at].0 == file {
            files.update(at, (file, len))
        } else {
            files.insert(at, (file, len))
        });
    }
}

impl Default for CoverageBuilder {
    fn default() -> (r: Self)
        ensures
            r.wf(),
            r@ == Ledger::empty(),
    {
        CoverageBuilder::new()
    }
}

impl CoverageBuilder {
    /// The files and claims are valid and every claim knows its children.
    pub closed spec fn wf(&self) -> bool {
        self@.valid() && links(self@.claims, self.children@)
    }

    #[must_use]
    pub fn new() -> (r: Self)
        ensures
            r.wf(),
            r@ == Ledger::empty(),
    {
        let r = Self { claims: Vec::new(), children: Vec::new(), files: Vec::new() };
        assert(r@ =~= Ledger::empty());
        r
    }

    /// What being well-formed says of the ledger.
    pub proof fn lemma_valid(&self)
        requires
            self.wf(),
        ensures
            self@.valid(),
    {
    }

    /// Declare a file and its length in bytes. Every claim must belong to one.
    pub fn add_file(&mut self, file: FileId, len: u64)
        requires
            old(self).wf(),
        ensures
            final(self).wf(),
            final(self)@ == (Ledger { files: declared(old(self)@.files, file, len), ..old(self)@ }),
    {
        let mut at: usize = 0;
        while at < self.files.len() && self.files[at].0.0 < file.0
            invariant
                at <= self.files@.len(),
                forall|i: int| 0 <= i < at ==> (#[trigger] self.files@[i]).0.0 < file.0,
            decreases self.files.len() - at,
        {
            at += 1;
        }
        proof {
            lemma_declared(self.files@, at as int, file, len);
        }
        if at < self.files.len() && self.files[at].0.0 == file.0 {
            self.files[at] = (file, len);
        } else {
            self.files.insert(at, (file, len));
        }
        assert(ascending(self.files@));
    }

    /// Add a claim, returning the id later claims use to parent themselves to it.
    pub fn push(&mut self, claim: Claim) -> (r: Result<ClaimId, CoverageError>)
        requires
            old(self).wf(),
        ensures
            final(self).wf(),
            match r {
                Ok(id) => {
                    &&& old(self)@.push_fault(claim@) is None
                    &&& id == mint(old(self)@.claims.len() as int)
                    &&& final(self)@ == old(self)@.with(claim@)
                },
                Err(e) => {
                    &&& old(self)@.push_fault(claim@) == Some(e)
                    &&& final(self)@ == old(self)@
                },
            },
    {
        let id = mint_id(self.claims.len() as u64);
        let file_len: u64 = match find_len(&self.files, claim.span.file) {
            Some(len) => len,
            None => {
                return Err(CoverageError::UnknownFile { file: claim.span.file });
            },
        };
        if claim.span.end() > file_len {
            return Err(CoverageError::SpanExceedsFile { claim: id, span: claim.span, file_len });
        }
        let ghost before = self@.claims;
        if let Some(parent) = claim.parent {
            let at: usize = parent.0 as usize;
            if at >= self.claims.len() {
                return Err(CoverageError::UnknownParent { claim: id, parent });
            }
            assert(before[at as int] == self.claims@[at as int]@);
            if !self.claims[at].span.contains_span(claim.span) {
                return Err(
                    CoverageError::ChildEscapesParent {
                        claim: id,
                        child: claim.span,
                        parent: self.claims[at].span,
                    },
                );
            }
            self.children[at].push(id);
        }
        proof {
            lemma_new_claim_is_leaf(before, before.len() as int);
            let after = before.push(claim@);
            assert(after.drop_last() =~= before);
            assert forall|i: int| 0 <= i < after.len() && (#[trigger] after[i]).parent is Some implies {
                let p = (after[i].parent->0).0 as int;
                p < i && after[p].span.nests(after[i].span)
            } by {
                if i < before.len() {
                    assert(after[i] == before[i]);
                }
            }
        }
        self.claims.push(claim);
        self.children.push(Vec::new());
        assert(self@ =~= old(self)@.with(claim@));
        assert(self@.claims.len() == self.claims.len());
        Ok(id)
    }

    /// How many claims there are so far.
    pub(crate) fn claim_count(&self) -> (r: usize)
        ensures
            r == self@.claims.len(),
    {
        self.claims.len()
    }

    fn is_leaf(&self, i: usize) -> (r: bool)
        requires
            self.wf(),
            i < self@.claims.len(),
        ensures
            r == leaf(self@.claims, i as int),
    {
        proof {
            lemma_leaf_has_no_children(self@.claims, i as int);
        }
        self.children[i].len() == 0
    }

    /// The non-empty leaves of one file, sorted by start. Empty spans are excluded: they
    /// cover no byte and so cannot participate in a partition.
    fn sorted_leaves(&self, file: FileId) -> (r: Vec<Key>)
        requires
            self.wf(),
        ensures
            r@ == sorted_leaves(self@.claims, file),
    {
        let mut out: Vec<Key> = Vec::new();
        let mut i: usize = 0;
        while i < self.claims.len()
            invariant
                i <= self@.claims.len(),
                self@.claims.len() == self.claims@.len(),
                self.wf(),
                out@ == leaf_keys(self@.claims, i as int, file),
            decreases self.claims.len() - i,
        {
            assert(self@.claims[i as int] == self.claims@[i as int]@);
            let span = self.claims[i].span;
            if span.file.0 == file.0 && !span.is_empty() && self.is_leaf(i) {
                out.push((span.start, span.end(), i as u64));
            }
            i += 1;
        }
        order::sort_keys(out.as_slice())
    }

    /// Smallest claim that fully contains `span`. Linear; called once per hole, and holes
    /// number in the dozens even for large binaries.
    fn innermost_containing(&self, span: Span) -> (r: Option<ClaimId>)
        ensures
            r == (match innermost(self@.claims, span) {
                Some(i) => Some(mint(i)),
                None => None,
            }),
    {
        let ghost all = self@.claims;
        let mut best: Option<usize> = None;
        let mut i: usize = 0;
        assert(all.take(0) =~= Seq::<ClaimView>::empty());
        while i < self.claims.len()
            invariant
                i <= all.len(),
                all == self@.claims,
                all.len() == self.claims@.len(),
                best matches Some(b) ==> b < i,
                innermost(all.take(i as int), span) == (match best {
                    Some(b) => Some(b as int),
                    None => None,
                }),
            decreases self.claims.len() - i,
        {
            assert(all.take(i + 1).drop_last() =~= all.take(i as int));
            assert(all[i as int] == self.claims@[i as int]@);
            let c = self.claims[i].span;
            if !c.is_empty() && c.contains_span(span) {
                let better: bool = match best {
                    None => true,
                    Some(b) => {
                        assert(all[b as int] == self.claims@[b as int]@);
                        c.len < self.claims[b].span.len
                    },
                };
                if better {
                    best = Some(i);
                }
            }
            i += 1;
        }
        assert(all.take(i as int) =~= all);
        match best {
            Some(b) => Some(mint_id(b as u64)),
            None => None,
        }
    }

    /// Turn every hole in the leaf partition into an explicit [`ClaimKind::Unclaimed`]
    /// claim, parented to the innermost claim that contains it.
    ///
    /// This is what makes the invariant achievable in practice, and it is also where the
    /// interesting output comes from: run it and the leftovers *are* the alignment
    /// padding, the linker gaps, and the appended data.
    ///
    /// Returns the number of claims inserted.
    pub fn fill_unclaimed(&mut self) -> (inserted: usize)
        requires
            old(self).wf(),
        ensures
            final(self).wf(),
            final(self)@ == old(self)@.filled(old(self)@.files.len() as int),
            inserted == final(self)@.claims.len() - old(self)@.claims.len(),
    {
        let ghost start = self@;
        let before: usize = self.claims.len();
        let mut f: usize = 0;
        while f < self.files.len()
            invariant
                f <= start.files.len(),
                self.wf(),
                self@ == start.filled(f as int),
                self@.files == start.files,
                self.files@ == start.files,
                before == start.claims.len(),
                self@.claims.len() >= before,
            decreases start.files.len() - f,
        {
            let (file, len) = self.files[f];
            let holes = self.holes_of(file, len);
            let ghost here = self@;
            let mut h: usize = 0;
            assert(holes@.take(0) =~= Seq::<Span>::empty());
            while h < holes.len()
                invariant
                    h <= holes@.len(),
                    self.wf(),
                    self@ == here.with_holes(holes@.take(h as int)),
                    self@.files == start.files,
                    here.files == start.files,
                    self@.claims.len() >= before,
                decreases holes.len() - h,
            {
                let hole = holes[h];
                assert(holes@.take(h + 1).drop_last() =~= holes@.take(h as int));
                let mut claim = Claim::new(hole, ClaimKind::Unclaimed);
                if let Some(parent) = self.innermost_containing(hole) {
                    claim = claim.child_of(parent);
                }
                let added = self.push(claim);
                h += 1;
            }
            assert(holes@.take(h as int) =~= holes@);
            f += 1;
        }
        self.claims.len() - before
    }

    /// The holes the leaves of `file` leave in its `len` bytes.
    fn holes_of(&self, file: FileId, len: u64) -> (r: Vec<Span>)
        requires
            self.wf(),
        ensures
            r@ == holes(sorted_leaves(self@.claims, file), 0, file, len),
    {
        let leaves = self.sorted_leaves(file);
        let mut out: Vec<Span> = Vec::new();
        let mut cursor: u64 = 0;
        let mut i: usize = 0;
        assert(leaves@.skip(0) =~= leaves@);
        while i < leaves.len()
            invariant
                i <= leaves@.len(),
                out@ + holes(leaves@.skip(i as int), cursor, file, len) == holes(
                    leaves@,
                    0,
                    file,
                    len,
                ),
            decreases leaves.len() - i,
        {
            let (start, end, at) = leaves[i];
            assert(leaves@.skip(i as int).drop_first() =~= leaves@.skip(i + 1));
            let ghost was = out@;
            let ghost from = cursor;
            if start > cursor {
                out.push(Span::new(file, cursor, start - cursor));
            }
            if cursor < end {
                cursor = end;
            }
            i += 1;
            assert(out@ + holes(leaves@.skip(i as int), cursor, file, len) =~= was + holes(
                leaves@.skip(i - 1),
                from,
                file,
                len,
            ));
        }
        let ghost was = out@;
        if cursor < len {
            out.push(Span::new(file, cursor, len - cursor));
        }
        assert(out@ =~= was + holes(leaves@.skip(i as int), cursor, file, len));
        out
    }

    /// The first fault in the tiling of one file.
    fn fault_in(&self, file: FileId, len: u64) -> (r: Option<CoverageError>)
        requires
            self.wf(),
        ensures
            r == tiling_fault(sorted_leaves(self@.claims, file), 0, file, len),
    {
        let leaves = self.sorted_leaves(file);
        let mut cursor: u64 = 0;
        let mut k: usize = 0;
        while k < leaves.len()
            invariant
                k <= leaves@.len(),
                leaves@ == sorted_leaves(self@.claims, file),
                cursor == tiled_to(leaves@, k as int),
                tiling_fault(leaves@, 0, file, len) == tiling_fault(leaves@, k as int, file, len),
            decreases leaves.len() - k,
        {
            let (start, end, at) = leaves[k];
            if start < cursor {
                let stop: u64 = if cursor < end {
                    cursor
                } else {
                    end
                };
                return Some(
                    CoverageError::LeafOverlap {
                        a: mint_id(leaves[k - 1].2),
                        b: mint_id(at),
                        at: Span::new(file, start, stop.saturating_sub(start)),
                    },
                );
            }
            if start > cursor {
                return Some(CoverageError::Gap { span: Span::new(file, cursor, start - cursor) });
            }
            cursor = end;
            k += 1;
        }
        if cursor < len {
            return Some(CoverageError::Gap { span: Span::new(file, cursor, len - cursor) });
        }
        None
    }

    /// Validate the invariant and freeze into a queryable [`Coverage`].
    pub fn finish(self) -> (r: Result<Coverage, CoverageError>)
        requires
            self.wf(),
        ensures
            match r {
                Ok(coverage) => {
                    &&& self@.fault(0) is None
                    &&& coverage.wf()
                    &&& coverage@ == self@
                },
                Err(e) => self@.fault(0) == Some(e),
            },
    {
        let mut f: usize = 0;
        while f < self.files.len()
            invariant
                f <= self@.files.len(),
                self.files@ == self@.files,
                self.wf(),
                self@.fault(0) == self@.fault(f as int),
            decreases self@.files.len() - f,
        {
            let (file, len) = self.files[f];
            if let Some(e) = self.fault_in(file, len) {
                return Err(e);
            }
            f += 1;
        }
        let ghost all = self@.claims;
        let mut spans: Vec<(Span, ClaimId)> = Vec::new();
        let mut roots: Vec<ClaimId> = Vec::new();
        let mut i: usize = 0;
        assert(all.take(0) =~= Seq::<ClaimView>::empty());
        while i < self.claims.len()
            invariant
                i <= all.len(),
                all == self@.claims,
                all.len() == self.claims@.len(),
                spans@ =~= self@.spans().take(i as int),
                roots@ == root_ids(all.take(i as int)),
            decreases self.claims.len() - i,
        {
            assert(all[i as int] == self.claims@[i as int]@);
            assert(all.take(i + 1).drop_last() =~= all.take(i as int));
            let id = mint_id(i as u64);
            spans.push((self.claims[i].span, id));
            if self.claims[i].parent.is_none() {
                roots.push(id);
            }
            i += 1;
        }
        assert(all.take(i as int) =~= all);
        assert(spans@ =~= self@.spans());
        let index = IntervalIndex::build(spans.as_slice());
        let coverage = Coverage {
            claims: self.claims,
            children: self.children,
            roots,
            files: self.files,
            index,
        };
        assert(coverage@ =~= self@);
        Ok(coverage)
    }
}

/// The path from a claim up to its root, innermost first.
pub open spec fn chain(claims: Seq<ClaimView>, id: ClaimId) -> Seq<ClaimId>
    decreases id.0,
{
    if id.0 < claims.len() && claims[id.0 as int].parent is Some && (
    claims[id.0 as int].parent->0).0 < id.0 {
        seq![id] + chain(claims, claims[id.0 as int].parent->0)
    } else {
        seq![id]
    }
}

/// The ids of the leaves among the first `n` claims, in order.
pub open spec fn leaf_ids(claims: Seq<ClaimView>, n: int) -> Seq<ClaimId>
    decreases n,
{
    if n <= 0 {
        Seq::empty()
    } else if leaf(claims, n - 1) {
        leaf_ids(claims, n - 1).push(mint(n - 1))
    } else {
        leaf_ids(claims, n - 1)
    }
}

/// The spans of the unclaimed regions, in claim order.
pub open spec fn unclaimed_spans(claims: Seq<ClaimView>) -> Seq<Span>
    decreases claims.len(),
{
    if claims.len() == 0 {
        Seq::empty()
    } else if claims.last().kind is Unclaimed {
        unclaimed_spans(claims.drop_last()).push(claims.last().span)
    } else {
        unclaimed_spans(claims.drop_last())
    }
}

/// The length of the first `n` files together, saturating.
pub open spec fn total_len(files: Seq<(FileId, u64)>, n: int) -> u64
    decreases n,
{
    if n <= 0 {
        0
    } else {
        span::sat_add(total_len(files, n - 1), files[n - 1].1)
    }
}

/// The bytes of the filler leaves among the first `n` claims, saturating.
pub open spec fn filler_len(claims: Seq<ClaimView>, n: int) -> u64
    decreases n,
{
    if n <= 0 {
        0
    } else if leaf(claims, n - 1) && claims[n - 1].kind.filler() {
        span::sat_add(filler_len(claims, n - 1), claims[n - 1].span.len)
    } else {
        filler_len(claims, n - 1)
    }
}

/// The bytes that are not filler: what is left of the files without it.
pub open spec fn explained_len(l: Ledger) -> u64 {
    let total = total_len(l.files, l.files.len() as int);
    let filler = filler_len(l.claims, l.claims.len() as int);
    if filler < total {
        (total - filler) as u64
    } else {
        0
    }
}

/// The longest path to a root among the first `n` claims.
pub open spec fn depth(claims: Seq<ClaimView>, n: int) -> nat
    decreases n,
{
    if n <= 0 {
        0
    } else {
        let here = chain(claims, mint(n - 1)).len();
        let rest = depth(claims, n - 1);
        if here > rest {
            here
        } else {
            rest
        }
    }
}

/// A path is never longer than the claims before it.
pub proof fn lemma_chain_is_bounded(claims: Seq<ClaimView>, id: ClaimId)
    ensures
        1 <= chain(claims, id).len() <= id.0 + 1,
        id.0 >= claims.len() ==> chain(claims, id).len() == 1,
    decreases id.0,
{
    if id.0 < claims.len() && claims[id.0 as int].parent is Some && (
    claims[id.0 as int].parent->0).0 < id.0 {
        lemma_chain_is_bounded(claims, claims[id.0 as int].parent->0);
    }
}

/// A validated, queryable claim tree.
#[derive(Clone, Debug)]
pub struct Coverage {
    claims: Vec<Claim>,
    children: Vec<Vec<ClaimId>>,
    roots: Vec<ClaimId>,
    files: Vec<(FileId, u64)>,
    index: IntervalIndex,
}

impl View for Coverage {
    type V = Ledger;

    closed spec fn view(&self) -> Ledger {
        Ledger { claims: claim_views(self.claims@), files: self.files@ }
    }
}

impl Coverage {
    /// Valid, without a fault in its partition, and indexed.
    pub closed spec fn wf(&self) -> bool {
        &&& self@.valid()
        &&& self@.fault(0) is None
        &&& links(self@.claims, self.children@)
        &&& self.roots@ == root_ids(self@.claims)
        &&& self.index.wf()
        &&& forall|file: FileId| #[trigger]
            self.index.list(file) == order::sorted(index::file_keys(self@.spans(), file))
    }

    /// What being well-formed says of the ledger: it nests, and its leaves tile every file.
    pub proof fn lemma_valid(&self)
        requires
            self.wf(),
        ensures
            self@.valid(),
            self@.fault(0) is None,
    {
    }

    /// The claims that cover `off`, shortest first.
    pub open spec fn covering(&self, file: FileId, off: u64) -> Seq<ClaimId> {
        index::innermost_first(index::file_keys(self@.spans(), file), off)
    }

    #[must_use]
    pub fn claim(&self, id: ClaimId) -> (r: Option<&Claim>)
        ensures
            r is Some <==> id.0 < self@.claims.len(),
            r matches Some(c) ==> c@ == self@.claims[id.0 as int],
    {
        let i: usize = id.0 as usize;
        if i < self.claims.len() {
            Some(&self.claims[i])
        } else {
            None
        }
    }

    #[must_use]
    pub fn span_of(&self, id: ClaimId) -> (r: Option<Span>)
        ensures
            r == (if id.0 < self@.claims.len() {
                Some(self@.claims[id.0 as int].span)
            } else {
                None
            }),
    {
        match self.claim(id) {
            Some(c) => Some(c.span),
            None => None,
        }
    }

    /// The claims directly inside `id`, in the order they were made.
    #[must_use]
    pub fn children(&self, id: ClaimId) -> (r: &[ClaimId])
        requires
            self.wf(),
        ensures
            r@ == child_ids(self@.claims, id.0 as int),
    {
        let i: usize = id.0 as usize;
        if i < self.children.len() {
            self.children[i].as_slice()
        } else {
            proof {
                lemma_new_claim_is_leaf(self@.claims, i as int);
            }
            &[]
        }
    }

    #[must_use]
    pub fn parent(&self, id: ClaimId) -> (r: Option<ClaimId>)
        ensures
            r == (if id.0 < self@.claims.len() {
                self@.claims[id.0 as int].parent
            } else {
                None
            }),
    {
        match self.claim(id) {
            Some(c) => c.parent,
            None => None,
        }
    }

    #[must_use]
    pub fn roots(&self) -> (r: &[ClaimId])
        requires
            self.wf(),
        ensures
            r@ == root_ids(self@.claims),
    {
        self.roots.as_slice()
    }

    #[must_use]
    pub fn file_len(&self, file: FileId) -> (r: Option<u64>)
        ensures
            r == len_of(self@.files, file),
    {
        find_len(&self.files, file)
    }

    /// The files described, by ascending id, with their lengths.
    pub fn files(&self) -> (r: Vec<(FileId, u64)>)
        ensures
            r@ == self@.files,
    {
        vstd::slice::slice_to_vec(self.files.as_slice())
    }

    /// Claims covering `off`, innermost first. The hover query.
    #[must_use]
    pub fn claims_at(&self, file: FileId, off: u64) -> (r: Vec<ClaimId>)
        requires
            self.wf(),
        ensures
            r@ == self.covering(file, off),
    {
        proof {
            index::lemma_queries_of_sorted(
                index::file_keys(self@.spans(), file),
                off,
                Span { file, start: 0, len: 0 },
            );
        }
        self.index.at(file, off)
    }

    #[must_use]
    pub fn innermost_at(&self, file: FileId, off: u64) -> (r: Option<ClaimId>)
        requires
            self.wf(),
        ensures
            r == (if self.covering(file, off).len() > 0 {
                Some(self.covering(file, off)[0])
            } else {
                None
            }),
    {
        proof {
            index::lemma_queries_of_sorted(
                index::file_keys(self@.spans(), file),
                off,
                Span { file, start: 0, len: 0 },
            );
        }
        self.index.innermost(file, off)
    }

    /// Claims intersecting `probe`, ascending. The viewport query.
    #[must_use]
    pub fn overlapping(&self, probe: Span) -> (r: Vec<ClaimId>)
        requires
            self.wf(),
        ensures
            r@ == index::by_start(index::file_keys(self@.spans(), probe.file), probe),
    {
        proof {
            index::lemma_queries_of_sorted(index::file_keys(self@.spans(), probe.file), 0, probe);
        }
        self.index.overlapping(probe)
    }

    /// The path from a claim up to its root, innermost first. The UI breadcrumb.
    #[must_use]
    pub fn ancestry(&self, id: ClaimId) -> (r: Vec<ClaimId>)
        requires
            self.wf(),
        ensures
            r@ == chain(self@.claims, id),
    {
        let ghost claims = self@.claims;
        let mut out: Vec<ClaimId> = Vec::new();
        let mut at: ClaimId = id;
        loop
            invariant
                self.wf(),
                claims == self@.claims,
                out@ + chain(claims, at) == chain(claims, id),
            decreases at.0,
        {
            let ghost was = out@;
            let ghost from = at;
            out.push(at);
            match self.parent(at) {
                Some(p) => {
                    assert(claims[at.0 as int].parent == Some(p));
                    assert(p.0 < at.0);
                    at = p;
                    assert(out@ + chain(claims, at) =~= was + chain(claims, from));
                },
                None => {
                    assert(out@ =~= was + chain(claims, from));
                    return out;
                },
            }
        }
    }

    /// The claims nothing nests in, in order.
    pub fn leaves(&self) -> (r: Vec<ClaimId>)
        requires
            self.wf(),
        ensures
            r@ == leaf_ids(self@.claims, self@.claims.len() as int),
    {
        let mut out: Vec<ClaimId> = Vec::new();
        let mut i: usize = 0;
        while i < self.children.len()
            invariant
                i <= self@.claims.len(),
                self.children@.len() == self@.claims.len(),
                self.wf(),
                out@ == leaf_ids(self@.claims, i as int),
            decreases self.children.len() - i,
        {
            proof {
                lemma_leaf_has_no_children(self@.claims, i as int);
            }
            if self.children[i].len() == 0 {
                out.push(mint_id(i as u64));
            }
            i += 1;
        }
        out
    }

    /// The non-empty leaves of one file, sorted by start.
    pub(crate) fn sorted_leaves(&self, file: FileId) -> (r: Vec<Key>)
        requires
            self.wf(),
        ensures
            r@ == sorted_leaves(self@.claims, file),
    {
        let mut out: Vec<Key> = Vec::new();
        let mut i: usize = 0;
        while i < self.claims.len()
            invariant
                i <= self@.claims.len(),
                self@.claims.len() == self.claims@.len(),
                self.children@.len() == self@.claims.len(),
                self.wf(),
                out@ == leaf_keys(self@.claims, i as int, file),
            decreases self.claims.len() - i,
        {
            assert(self@.claims[i as int] == self.claims@[i as int]@);
            proof {
                lemma_leaf_has_no_children(self@.claims, i as int);
            }
            let span = self.claims[i].span;
            if span.file.0 == file.0 && !span.is_empty() && self.children[i].len() == 0 {
                out.push((span.start, span.end(), i as u64));
            }
            i += 1;
        }
        order::sort_keys(out.as_slice())
    }

    /// The span of the claim at a position.
    pub(crate) fn nth_span(&self, i: usize) -> (r: Span)
        requires
            i < self@.claims.len(),
        ensures
            r == self@.claims[i as int].span,
    {
        assert(self@.claims[i as int] == self.claims@[i as int]@);
        self.claims[i].span
    }

    /// Spans no structure explained. After
    /// [`CoverageBuilder::fill_unclaimed`], this is the honest answer to "what is the rest
    /// of this file".
    pub fn unclaimed(&self) -> (r: Vec<Span>)
        ensures
            r@ == unclaimed_spans(self@.claims),
    {
        let ghost all = self@.claims;
        let mut out: Vec<Span> = Vec::new();
        let mut i: usize = 0;
        assert(all.take(0) =~= Seq::<ClaimView>::empty());
        while i < self.claims.len()
            invariant
                i <= all.len(),
                all == self@.claims,
                all.len() == self.claims@.len(),
                out@ == unclaimed_spans(all.take(i as int)),
            decreases self.claims.len() - i,
        {
            assert(all[i as int] == self.claims@[i as int]@);
            assert(all.take(i + 1).drop_last() =~= all.take(i as int));
            if let ClaimKind::Unclaimed = self.claims[i].kind {
                out.push(self.claims[i].span);
            }
            i += 1;
        }
        assert(all.take(i as int) =~= all);
        out
    }

    #[must_use]
    pub fn len(&self) -> (r: usize)
        ensures
            r == self@.claims.len(),
    {
        self.claims.len()
    }

    #[must_use]
    pub fn is_empty(&self) -> (r: bool)
        ensures
            r == (self@.claims.len() == 0),
    {
        self.claims.len() == 0
    }

    #[must_use]
    pub fn stats(&self) -> (r: CoverageStats)
        requires
            self.wf(),
        ensures
            r.files == self@.files.len(),
            r.total_bytes == total_len(self@.files, self@.files.len() as int),
            r.filler_bytes == filler_len(self@.claims, self@.claims.len() as int),
            r.explained_bytes == explained_len(self@),
            r.claim_count == self@.claims.len(),
            r.leaf_count == leaf_ids(self@.claims, self@.claims.len() as int).len(),
            r.max_depth == depth(self@.claims, self@.claims.len() as int),
    {
        let ghost all = self@.claims;
        let mut total_bytes: u64 = 0;
        let mut f: usize = 0;
        while f < self.files.len()
            invariant
                f <= self@.files.len(),
                self.files@ == self@.files,
                total_bytes == total_len(self@.files, f as int),
            decreases self.files.len() - f,
        {
            total_bytes = total_bytes.saturating_add(self.files[f].1);
            f += 1;
        }
        let mut filler_bytes: u64 = 0;
        let mut leaf_count: usize = 0;
        let mut max_depth: usize = 0;
        let mut i: usize = 0;
        while i < self.claims.len()
            invariant
                i <= all.len(),
                all == self@.claims,
                all.len() == self.claims@.len(),
                self.children@.len() == all.len(),
                self.wf(),
                filler_bytes == filler_len(all, i as int),
                leaf_count == leaf_ids(all, i as int).len(),
                leaf_count <= i,
                max_depth == depth(all, i as int),
            decreases self.claims.len() - i,
        {
            assert(all[i as int] == self.claims@[i as int]@);
            proof {
                lemma_leaf_has_no_children(all, i as int);
            }
            if self.children[i].len() == 0 {
                leaf_count += 1;
                if self.claims[i].kind.is_filler() {
                    filler_bytes = filler_bytes.saturating_add(self.claims[i].span.len);
                }
            }
            let path = self.ancestry(mint_id(i as u64));
            if path.len() > max_depth {
                max_depth = path.len();
            }
            i += 1;
        }
        CoverageStats {
            files: self.files.len(),
            total_bytes,
            explained_bytes: total_bytes.saturating_sub(filler_bytes),
            filler_bytes,
            claim_count: self.claims.len(),
            leaf_count,
            max_depth,
        }
    }
}

/// Summary of a coverage, printed by `elfa verify` and used in snapshot tests.
#[derive(Clone, Copy, PartialEq, Eq, Debug, Structural)]
pub struct CoverageStats {
    pub files: usize,
    pub total_bytes: u64,
    /// Bytes attributed to a real structure.
    pub explained_bytes: u64,
    /// Bytes that are padding or unclaimed: the number the README is about.
    pub filler_bytes: u64,
    pub claim_count: usize,
    pub leaf_count: usize,
    pub max_depth: usize,
}

} // verus!
