//! The structural audit.

use elf_anatomy::audit::{byte_counts, commas, identify, Severity};

#[test]
fn byte_counts_read_the_same_everywhere() {
    assert_eq!(commas(0), "0");
    assert_eq!(commas(999), "999");
    assert_eq!(commas(1000), "1,000");
    assert_eq!(commas(171_131), "171,131");
    assert_eq!(commas(u64::MAX), "18,446,744,073,709,551,615");
}

#[test]
fn containers_are_named_when_recognisable() {
    assert_eq!(identify(b"\x7fELF\x02\x01"), Some("an ELF file"));
    assert_eq!(
        identify(b"ARJ_SFX\x00rest"),
        Some("an ARJ self-extracting stub")
    );
    assert_eq!(identify(b"PK\x03\x04zip"), Some("a zip archive"));
    assert_eq!(identify(b"nothing in particular"), None);
    assert_eq!(identify(b""), None);
}

#[test]
fn every_container_has_a_name() {
    assert_eq!(identify(b"\x1f\x8b\x08"), Some("gzip data"));
    assert_eq!(identify(b"7z\xbc\xaf\x27\x1c"), Some("a 7-zip archive"));
    assert_eq!(identify(b"\xfd7zXZ\x00"), Some("xz data"));
    assert_eq!(identify(b"ustar"), Some("a tar archive"));
    assert_eq!(identify(b"MZ\x90"), Some("a PE/DOS executable"));
    assert_eq!(
        identify(b"\xca\xfe\xba\xbe"),
        Some("a Mach-O fat binary or Java class")
    );
    assert_eq!(identify(b"\xca\xfe\xba"), None);
}

#[test]
fn severity_orders_worst_first() {
    let mut v = [Severity::Note, Severity::Suspicious, Severity::Odd];
    v.sort_by(|a, b| b.cmp(a));
    assert_eq!(v, [Severity::Suspicious, Severity::Odd, Severity::Note]);
}

#[test]
fn bytes_are_counted_by_value() {
    let counts = byte_counts(b"aab\xff");
    assert_eq!(counts.len(), 256);
    assert_eq!(counts[97], 2);
    assert_eq!(counts[98], 1);
    assert_eq!(counts[255], 1);
    assert_eq!(counts.iter().sum::<u32>(), 4);
}

#[test]
fn severities_have_short_names() {
    assert_eq!(Severity::Note.as_str(), "note");
    assert_eq!(Severity::Odd.as_str(), "odd");
    assert_eq!(Severity::Suspicious.as_str(), "suspect");
}
