//! The partition.

use elf_anatomy::claim::{Claim, ClaimId, ClaimKind, PadReason, Value};
use elf_anatomy::coverage::{CoverageBuilder, CoverageError};
use elf_anatomy::span::{FileId, Span};

const F: FileId = FileId(0);

fn ehdr_only(len: u64) -> CoverageBuilder {
    let mut b = CoverageBuilder::new();
    b.add_file(F, len);
    let h = b
        .push(Claim::new(Span::new(F, 0, 64), ClaimKind::FileHeader))
        .unwrap();
    b.push(
        Claim::new(
            Span::new(F, 0, 24),
            ClaimKind::FileHeaderField {
                name: "e_ident..e_version",
            },
        )
        .child_of(h),
    )
    .unwrap();
    b.push(
        Claim::new(
            Span::new(F, 24, 40),
            ClaimKind::FileHeaderField { name: "e_entry.." },
        )
        .child_of(h)
        .with_value(Value::Address(0x1040)),
    )
    .unwrap();
    b
}

#[test]
fn interior_claims_may_overlap_their_children() {
    // The whole point: ehdr covers 0..64 and its fields tile the same bytes.
    let cov = ehdr_only(64).finish().unwrap();
    assert_eq!(cov.claims_at(F, 30).len(), 2);
    assert_eq!(cov.stats().leaf_count, 2);
}

#[test]
fn a_hole_is_an_error_until_it_is_named() {
    let err = ehdr_only(4096).finish().unwrap_err();
    assert_eq!(
        err,
        CoverageError::Gap {
            span: Span::new(F, 64, 4096 - 64)
        }
    );
}

#[test]
fn fill_unclaimed_closes_holes_and_parents_them_correctly() {
    let mut b = ehdr_only(4096);
    assert_eq!(b.fill_unclaimed(), 1);
    let cov = b.finish().unwrap();

    let holes: Vec<Span> = cov.unclaimed();
    assert_eq!(holes, vec![Span::new(F, 64, 4096 - 64)]);
    // Outside every existing claim, so it parents to nothing.
    let id = cov.innermost_at(F, 100).unwrap();
    assert_eq!(cov.parent(id), None);
    assert_eq!(cov.stats().filler_bytes, 4096 - 64);
    assert_eq!(cov.stats().explained_bytes, 64);
}

#[test]
fn an_interior_hole_parents_to_the_innermost_container() {
    let mut b = CoverageBuilder::new();
    b.add_file(F, 128);
    let table = b
        .push(Claim::new(
            Span::new(F, 0, 128),
            ClaimKind::ProgramHeaderTable,
        ))
        .unwrap();
    b.push(Claim::new(Span::new(F, 0, 56), ClaimKind::ProgramHeader { idx: 0 }).child_of(table))
        .unwrap();
    b.push(Claim::new(Span::new(F, 64, 56), ClaimKind::ProgramHeader { idx: 1 }).child_of(table))
        .unwrap();

    assert_eq!(b.fill_unclaimed(), 2); // the 56..64 gap and the 120..128 tail
    let cov = b.finish().unwrap();
    let hole = cov.innermost_at(F, 60).unwrap();
    assert_eq!(cov.parent(hole), Some(table));
    assert_eq!(cov.ancestry(hole).len(), 2);
}

#[test]
fn overlapping_leaves_are_rejected_with_the_overlap_named() {
    let mut b = CoverageBuilder::new();
    b.add_file(F, 64);
    b.push(Claim::new(
        Span::new(F, 0, 40),
        ClaimKind::SectionBody { idx: 1 },
    ))
    .unwrap();
    b.push(Claim::new(
        Span::new(F, 32, 32),
        ClaimKind::SectionBody { idx: 2 },
    ))
    .unwrap();
    match b.finish().unwrap_err() {
        CoverageError::LeafOverlap { at, .. } => {
            assert_eq!(at, Span::new(F, 32, 8));
        }
        other => panic!("expected overlap, got {other:?}"),
    }
}

#[test]
fn a_child_may_not_escape_its_parent() {
    let mut b = CoverageBuilder::new();
    b.add_file(F, 128);
    let p = b
        .push(Claim::new(Span::new(F, 0, 64), ClaimKind::FileHeader))
        .unwrap();
    let err = b
        .push(
            Claim::new(
                Span::new(F, 60, 16),
                ClaimKind::FileHeaderField { name: "e_shoff" },
            )
            .child_of(p),
        )
        .unwrap_err();
    assert!(matches!(err, CoverageError::ChildEscapesParent { .. }));
}

#[test]
fn a_bad_size_field_is_caught_at_push() {
    let mut b = CoverageBuilder::new();
    b.add_file(F, 128);
    let err = b
        .push(Claim::new(
            Span::new(F, 64, u64::MAX),
            ClaimKind::SectionBody { idx: 3 },
        ))
        .unwrap_err();
    assert!(matches!(err, CoverageError::SpanExceedsFile { .. }));
}

#[test]
fn undeclared_files_are_rejected() {
    let mut b = CoverageBuilder::new();
    let err = b
        .push(Claim::new(Span::new(FileId(7), 0, 1), ClaimKind::FileHeader))
        .unwrap_err();
    assert_eq!(err, CoverageError::UnknownFile { file: FileId(7) });
}

#[test]
fn zero_length_claims_are_legal_and_ignored_by_the_partition() {
    let mut b = CoverageBuilder::new();
    b.add_file(F, 16);
    b.push(Claim::new(
        Span::new(F, 0, 16),
        ClaimKind::SectionBody { idx: 0 },
    ))
    .unwrap();
    // An empty .bss section header points at offset 16 with size 0.
    b.push(Claim::new(
        Span::empty_at(F, 16),
        ClaimKind::SectionBody { idx: 1 },
    ))
    .unwrap();
    assert!(b.finish().is_ok());
}

#[test]
fn a_dependency_closure_is_covered_per_file() {
    let mut b = CoverageBuilder::new();
    b.add_file(F, 32);
    b.add_file(FileId(1), 16);
    b.push(Claim::new(
        Span::new(F, 0, 32),
        ClaimKind::SectionBody { idx: 0 },
    ))
    .unwrap();
    // libc is declared but unparsed: the gap must be reported against *its* file.
    match b.clone().finish().unwrap_err() {
        CoverageError::Gap { span } => assert_eq!(span.file, FileId(1)),
        other => panic!("expected gap in f1, got {other:?}"),
    }
    assert_eq!(b.fill_unclaimed(), 1);
    assert!(b.finish().is_ok());
}

#[test]
fn padding_counts_as_filler() {
    let mut b = CoverageBuilder::new();
    b.add_file(F, 32);
    b.push(Claim::new(
        Span::new(F, 0, 24),
        ClaimKind::SectionBody { idx: 0 },
    ))
    .unwrap();
    b.push(Claim::new(
        Span::new(F, 24, 8),
        ClaimKind::Padding {
            reason: PadReason::Alignment { to: 16 },
        },
    ))
    .unwrap();
    let cov = b.finish().unwrap();
    assert_eq!(cov.stats().filler_bytes, 8);
}

#[test]
fn an_unknown_parent_is_rejected() {
    let mut b = CoverageBuilder::default();
    b.add_file(F, 8);
    let err = b
        .push(Claim::new(Span::new(F, 0, 8), ClaimKind::FileHeader).child_of(ClaimId(5)))
        .unwrap_err();
    assert_eq!(
        err,
        CoverageError::UnknownParent {
            claim: ClaimId(0),
            parent: ClaimId(5)
        }
    );
    assert_eq!(err.to_text(), "claim #0 names unknown parent #5");
}

#[test]
fn coverage_errors_read_as_sentences() {
    assert_eq!(
        CoverageError::UnknownFile { file: FileId(7) }.to_text(),
        "claim references undeclared file f7"
    );
    assert_eq!(
        CoverageError::Gap { span: Span::new(F, 4, 4) }.to_text(),
        "no leaf claim covers f0:0x4..0x8 (4)"
    );
}

#[test]
fn every_byte_has_exactly_one_leaf() {
    let mut b = ehdr_only(300);
    b.push(Claim::new(
        Span::new(F, 128, 64),
        ClaimKind::SectionBody { idx: 0 },
    ))
    .unwrap();
    assert_eq!(b.fill_unclaimed(), 2);
    let cov = b.finish().unwrap();
    for off in 0..300 {
        let stack = cov.claims_at(F, off);
        let leaves = stack.iter().filter(|id| cov.children(**id).is_empty()).count();
        assert_eq!(leaves, 1);
        let top = *cov.ancestry(stack[0]).last().unwrap();
        assert_eq!(cov.parent(top), None);
        assert!(cov.ancestry(stack[0]).len() <= cov.len());
    }
    assert_eq!(cov.files(), vec![(F, 300)]);
    assert_eq!(cov.file_len(F), Some(300));
    assert_eq!(cov.file_len(FileId(3)), None);
    assert_eq!(cov.roots().len(), 4);
    assert_eq!(cov.leaves().len(), 5);
    assert_eq!(cov.stats().max_depth, 2);
    assert!(cov.overlapping(Span::new(F, 60, 8)).contains(&ClaimId(2)));
    assert!(!cov.is_empty());
}

#[test]
fn filling_twice_adds_nothing() {
    let mut b = ehdr_only(4096);
    assert_eq!(b.fill_unclaimed(), 1);
    assert_eq!(b.fill_unclaimed(), 0);
    assert!(b.finish().is_ok());
}

#[test]
fn filling_only_names_holes() {
    let body = |start, len| Claim::new(Span::new(F, start, len), ClaimKind::SectionBody { idx: 0 });
    let mut b = CoverageBuilder::new();
    b.add_file(F, 100);
    let outer = b.push(body(10, 80)).unwrap();
    let inner = b.push(body(20, 40).child_of(outer)).unwrap();
    let leaf = b.push(body(30, 10).child_of(inner)).unwrap();
    let other = b.push(body(45, 5).child_of(inner)).unwrap();
    assert_eq!(b.fill_unclaimed(), 3);
    let cov = b.finish().unwrap();
    // Earlier claims keep their places.
    assert_eq!(cov.span_of(leaf), Some(Span::new(F, 30, 10)));
    assert_eq!(cov.span_of(other), Some(Span::new(F, 45, 5)));
    // A hole between two leaves lies in the inner claim; those across its ends, in none.
    let added: Vec<(u64, u64, Option<ClaimId>)> = (4..cov.len())
        .map(|i| cov.claim(ClaimId(i as u32)).unwrap())
        .map(|c| {
            assert_eq!(c.kind, ClaimKind::Unclaimed);
            (c.span.start, c.span.len, c.parent)
        })
        .collect();
    assert_eq!(
        added,
        vec![(0, 30, None), (40, 5, Some(inner)), (50, 50, None)]
    );
}

#[test]
fn explained_and_filler_make_the_total_of_several_files() {
    let mut b = CoverageBuilder::new();
    b.add_file(FileId(1), 16);
    b.add_file(F, 32);
    let h = b
        .push(Claim::new(Span::new(F, 0, 24), ClaimKind::FileHeader))
        .unwrap();
    b.push(Claim::new(Span::new(F, 8, 8), ClaimKind::FileHeaderField { name: "x" }).child_of(h))
        .unwrap();
    b.push(Claim::new(
        Span::new(FileId(1), 0, 12),
        ClaimKind::SectionBody { idx: 0 },
    ))
    .unwrap();
    b.fill_unclaimed();
    let stats = b.finish().unwrap().stats();
    assert_eq!(stats.files, 2);
    assert_eq!(stats.total_bytes, 48);
    assert_eq!(stats.explained_bytes, 8 + 12);
    assert_eq!(stats.filler_bytes, 28);
    assert_eq!(stats.max_depth, 2);
}

#[test]
fn the_tree_is_walked_by_id() {
    let body = |start, len| Claim::new(Span::new(F, start, len), ClaimKind::SectionBody { idx: 0 });
    let mut b = CoverageBuilder::new();
    b.add_file(F, 64);
    let top = b.push(body(0, 32)).unwrap();
    let late = b.push(body(16, 16).child_of(top)).unwrap();
    let early = b.push(body(0, 16).child_of(top)).unwrap();
    let second = b.push(body(32, 32)).unwrap();
    let deep = b.push(body(16, 16).child_of(late)).unwrap();
    let cov = b.finish().unwrap();
    // In order of id, not of offset.
    assert_eq!(cov.children(top), [late, early]);
    assert_eq!(cov.children(late), [deep]);
    assert!(cov.children(second).is_empty());
    assert!(cov.children(ClaimId(99)).is_empty());
    assert_eq!(cov.roots(), [top, second]);
    assert_eq!(cov.leaves(), vec![early, second, deep]);
    for i in 0..cov.len() {
        let path = cov.ancestry(ClaimId(i as u32));
        assert!(cov.roots().contains(path.last().unwrap()));
    }
    // Shortest first, those of one length by id.
    assert_eq!(cov.claims_at(F, 20), vec![late, deep, top]);
    // Nothing past the end, nor in a file that was not declared.
    assert!(cov.claims_at(F, 64).is_empty());
    assert!(cov.claims_at(FileId(7), 0).is_empty());
}

#[test]
fn a_partition_is_accepted() {
    // Exactly one leaf per byte, out of order and over two files, with an empty claim.
    let part = |f, start, len| Claim::new(Span::new(f, start, len), ClaimKind::SectionBody { idx: 0 });
    let mut b = CoverageBuilder::new();
    b.add_file(F, 20);
    b.add_file(FileId(1), 5);
    for c in [part(F, 12, 8), part(FileId(1), 0, 5), part(F, 0, 12), part(F, 12, 0)] {
        b.push(c).unwrap();
    }
    assert!(b.clone().finish().is_ok());
    b.push(part(F, 3, 1)).unwrap();
    assert!(matches!(b.finish(), Err(CoverageError::LeafOverlap { .. })));
}
