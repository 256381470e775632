use appopt::cpuset::{cpu_mask, CpuSet};

#[test]
fn lists_are_read() {
    assert_eq!(cpu_mask("0"), 1);
    assert_eq!(cpu_mask("0-3"), 0b1111);
    assert_eq!(cpu_mask("0-1, 4 ,6-7"), 0b1101_0011);
    assert_eq!(cpu_mask("63"), 1u64 << 63);
    assert_eq!(cpu_mask("0-63"), u64::MAX);
    assert_eq!(cpu_mask("60-1000"), 0xf000_0000_0000_0000);
}

#[test]
fn what_cannot_be_read_names_nothing() {
    assert_eq!(cpu_mask(""), 0);
    assert_eq!(cpu_mask(",,"), 0);
    assert_eq!(cpu_mask("x"), 0);
    assert_eq!(cpu_mask("64"), 0);
    assert_eq!(cpu_mask("64-70"), 0);
    assert_eq!(cpu_mask("5-3"), 0);
    assert_eq!(cpu_mask("99999999999999999999999"), 0);
}

#[test]
fn ranges_that_cannot_be_read() {
    // An end that cannot be read is the start, a start that cannot be is 0.
    assert_eq!(cpu_mask("3-"), 0b1000);
    assert_eq!(cpu_mask("3-x"), 0b1000);
    assert_eq!(cpu_mask("x-2"), 0b111);
    assert_eq!(cpu_mask("1-3-5"), 0b10);
    assert_eq!(cpu_mask("2 -3"), 0b1111);
}

#[test]
fn lists_are_written_as_ranges() {
    assert_eq!(CpuSet { mask: 0 }.to_range_string(), "");
    assert_eq!(CpuSet { mask: 1 }.to_range_string(), "0");
    assert_eq!(CpuSet { mask: 0b1101_0011 }.to_range_string(), "0-1,4,6-7");
    assert_eq!(CpuSet { mask: u64::MAX }.to_range_string(), "0-63");
    assert_eq!(CpuSet { mask: 1u64 << 63 }.to_range_string(), "63");
}

#[test]
fn written_lists_read_back() {
    for mask in [0u64, 1, 0b1010, 0xff00_00ff, 0x8000_0000_0000_0001, u64::MAX] {
        let set = CpuSet { mask };
        assert_eq!(CpuSet::from_range(&set.to_range_string()), set);
    }
}

#[test]
fn empty_sets_are_told() {
    assert!(CpuSet::new().is_zero());
    assert!(CpuSet::from_range("x").is_zero());
    assert!(!CpuSet::from_range("0").is_zero());
}
