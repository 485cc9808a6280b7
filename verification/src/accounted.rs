//! What a successful parse promises: every byte of the file is accounted for, once.

use vstd::prelude::*;

use crate::claim::ClaimView;
use crate::coverage;
use crate::coverage::Ledger;
use crate::layout;
use crate::partition;
use crate::span::{FileId, Span};
use crate::tally;

verus! {

/// The claims nest, and each lies within its file.
spec fn sound(l: Ledger) -> bool {
    coverage::nested(l.claims) && l.contained()
}

proof fn lemma_with(l: Ledger, c: ClaimView)
    requires
        sound(l),
        l.push_fault(c) is None,
    ensures
        sound(l.with(c)),
{
    let m = l.with(c);
    let n = l.claims.len() as int;
    assert forall|i: int| #![trigger m.claims[i]] 0 <= i < m.claims.len() && m.claims[i].parent
        is Some implies ({
        let p = (m.claims[i].parent->0).0 as int;
        p < i && m.claims[p].span.nests(m.claims[i].span)
    }) by {
        if i < n {
            assert(m.claims[i] == l.claims[i]);
            let p = (l.claims[i].parent->0).0 as int;
            assert(m.claims[p] == l.claims[p]);
        } else {
            let p = (c.parent->0).0 as int;
            assert(m.claims[p] == l.claims[p]);
        }
    }
    tally::law_a_new_claim_lies_inside(l, c);
}

proof fn lemma_push_all(l: Ledger, claims: Seq<ClaimView>)
    requires
        sound(l),
    ensures
        layout::push_all(l, claims) matches Ok(m) ==> sound(m),
    decreases claims.len(),
{
    if claims.len() > 0 {
        lemma_push_all(l, claims.drop_last());
        if let Ok(m) = layout::push_all(l, claims.drop_last()) {
            if m.push_fault(claims.last()) is None {
                lemma_with(m, claims.last());
            }
        }
    }
}

proof fn lemma_with_holes(l: Ledger, holes: Seq<Span>)
    requires
        sound(l),
    ensures
        sound(l.with_holes(holes)),
        l.with_holes(holes).files == l.files,
    decreases holes.len(),
{
    if holes.len() > 0 {
        lemma_with_holes(l, holes.drop_last());
        let m = l.with_holes(holes.drop_last());
        let c = m.hole_claim(holes.last());
        if m.push_fault(c) is None {
            lemma_with(m, c);
        }
    }
}

proof fn lemma_claimed(bytes: Seq<u8>)
    ensures
        layout::claimed(bytes) matches Ok(l) ==> sound(l),
{
    let blank = layout::blank(bytes);
    lemma_push_all(blank, layout::header(bytes));
    if let Ok(a) = layout::push_all(blank, layout::header(bytes)) {
        let t = layout::section_table(bytes, a.claims.len() as int);
        lemma_push_all(a, t);
        if let Ok(b) = layout::push_all(a, t) {
            let t = layout::program_table(bytes, b.claims.len() as int);
            lemma_push_all(b, t);
            if let Ok(c) = layout::push_all(b, t) {
                let secs = layout::sections(bytes);
                lemma_push_all(
                    c,
                    layout::bodies(bytes, secs, secs.len() as int, c.claims.len() as int),
                );
            }
        }
    }
}

/// In what a parse produces, every claim lies inside its parent and inside the file, which
/// is the only one there is.
pub proof fn law_claims_of_a_parse_nest(bytes: Seq<u8>)
    requires
        layout::outcome(bytes) is Ok,
    ensures
        ({
            let l = (layout::outcome(bytes)->Ok_0).0;
            &&& l.files == seq![(FileId(0), bytes.len() as u64)]
            &&& coverage::nested(l.claims)
            &&& l.contained()
        }),
{
    lemma_claimed(bytes);
    layout::lemma_claimed_is_one_file(bytes);
    let l = layout::claimed(bytes)->Ok_0;
    reveal_with_fuel(Ledger::filled, 2);
    let (file, len) = l.files[0];
    lemma_with_holes(l, coverage::holes(coverage::sorted_leaves(l.claims, file), 0, file, len));
}

/// A successful parse is a true partition: every byte of the file belongs to exactly one
/// leaf.
pub proof fn law_a_parsed_file_is_accounted_for(bytes: Seq<u8>, off: u64)
    requires
        layout::outcome(bytes) is Ok,
        bytes.len() <= u64::MAX,
        (layout::outcome(bytes)->Ok_0).0.claims.len() <= usize::MAX,
        off < bytes.len(),
    ensures
        ({
            let claims = (layout::outcome(bytes)->Ok_0).0.claims;
            &&& partition::owned(claims, FileId(0), off as int)
            &&& forall|i: int, j: int|
                partition::owns(claims, i, FileId(0), off as int) && partition::owns(
                    claims,
                    j,
                    FileId(0),
                    off as int,
                ) ==> i == j
        }),
{
    law_claims_of_a_parse_nest(bytes);
    let l = (layout::outcome(bytes)->Ok_0).0;
    partition::law_every_byte_has_one_leaf(l, 0, off);
}

/// The leaves of a successful parse tile the file: the first starts at its start, each
/// starts where the one before it ends, and the last ends where the file ends.
pub proof fn law_leaves_of_a_parse_tile_the_file(bytes: Seq<u8>)
    requires
        layout::outcome(bytes) is Ok,
        bytes.len() <= u64::MAX,
        (layout::outcome(bytes)->Ok_0).0.claims.len() <= usize::MAX,
    ensures
        ({
            let claims = (layout::outcome(bytes)->Ok_0).0.claims;
            let leaves = coverage::sorted_leaves(claims, FileId(0));
            &&& forall|p: int|
                0 <= p < leaves.len() ==> (#[trigger] leaves[p]).0 == coverage::tiled_to(leaves, p)
                    && leaves[p].0 == claims[leaves[p].2 as int].span.start && leaves[p].1
                    == claims[leaves[p].2 as int].span.spec_end()
            &&& coverage::tiled_to(leaves, leaves.len() as int) == bytes.len()
        }),
{
    law_claims_of_a_parse_nest(bytes);
    let l = (layout::outcome(bytes)->Ok_0).0;
    partition::lemma_leaves_tile(l, 0);
    let leaves = coverage::sorted_leaves(l.claims, FileId(0));
    if leaves.len() > 0 {
        let c = l.claims[leaves[leaves.len() - 1].2 as int].span;
        assert(coverage::len_of(l.files, c.file) is Some);
        partition::lemma_len_of(l.files, 0);
    }
}

/// The bytes that a structure explains and those that are filler are together the bytes of
/// the file.
pub proof fn law_explained_and_filler_make_the_file(bytes: Seq<u8>)
    requires
        layout::outcome(bytes) is Ok,
        bytes.len() <= u64::MAX,
        (layout::outcome(bytes)->Ok_0).0.claims.len() <= usize::MAX,
    ensures
        ({
            let l = (layout::outcome(bytes)->Ok_0).0;
            let filler = coverage::filler_len(l.claims, l.claims.len() as int);
            &&& coverage::total_len(l.files, l.files.len() as int) == bytes.len()
            &&& coverage::explained_len(l) + filler == bytes.len()
        }),
{
    let l = (layout::outcome(bytes)->Ok_0).0;
    let len = bytes.len() as u64;
    law_claims_of_a_parse_nest(bytes);
    assert(coverage::total_len(l.files, 0) == 0);
    assert(coverage::total_len(l.files, 1) == len);
    assert(tally::files_sum(l.files, 0) == 0);
    assert(tally::files_sum(l.files, 1) == len);
    if len < u64::MAX {
        tally::law_explained_and_filler_make_the_total(l);
    }
}

} // verus!
