use kobo_core::cpu::access::{AccessKind, UnsupportedAccesses, MAX_ACCESSES};
use kobo_core::cpu::sa1::Processor;

#[test]
fn reports_are_bounded_without_losing_repeat_counts() {
    let mut report = UnsupportedAccesses::default();
    for address in 0..100 {
        report.record(Processor::Main, address, AccessKind::Read);
    }
    report.record(Processor::Main, 0, AccessKind::Read);
    assert_eq!(report.accesses.len(), MAX_ACCESSES);
    assert_eq!(report.accesses[0].count, 2);
    assert_eq!(report.omitted, 68);
}

#[test]
fn consecutive_addresses_display_as_ranges() {
    let mut report = UnsupportedAccesses::default();
    for address in 0x3800..0x3808 {
        report.record(Processor::Main, address, AccessKind::Read);
    }
    report.record(Processor::Main, 0x420C, AccessKind::Write);
    report.record(Processor::Main, 0x420C, AccessKind::Write);
    report.record(Processor::Sa1, 0x420D, AccessKind::Write);
    assert_eq!(
        report.to_string(),
        "unmodelled hardware accesses, so the picture may be incomplete: \
         S-CPU read $003800-$003807 (8 times), S-CPU write $00420C (2 times), \
         SA-1 write $00420D (once)"
    );
}

#[test]
fn an_empty_report_is_empty_and_says_so() {
    let report = UnsupportedAccesses::default();
    assert!(report.is_empty());
    let mut report = UnsupportedAccesses::default();
    for address in 0..40 {
        report.record(Processor::Sa1, address * 2, AccessKind::Write);
    }
    assert!(!report.is_empty());
    assert!(report.to_string().ends_with("; 8 further accesses omitted"));
}
