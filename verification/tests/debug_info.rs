use miner_core::DebugInfo;

#[test]
fn empty_has_zero_counters_and_no_reads() {
    let info = DebugInfo::empty();
    assert_eq!(info.read_count, 0);
    assert_eq!(info.db_read_time_us, 0);
    assert!(info.reads.is_empty());
}

#[test]
fn inc_read_count_adds_one() {
    let mut info = DebugInfo::empty();
    info.inc_read_count();
    info.inc_read_count();
    assert_eq!(info.read_count, 2);
    assert_eq!(info.db_read_time_us, 0);
    assert!(info.reads.is_empty());
}

#[test]
fn add_read_logs_the_key_as_lower_case_hex() {
    let mut info = DebugInfo::empty();
    info.add_read(17, &[0x00, 0x0f, 0xa5, 0xff]);
    assert_eq!(info.reads.len(), 1);
    assert_eq!(info.reads[0].time_us(), 17);
    assert_eq!(info.reads[0].key().as_str(), "000fa5ff");
    assert_eq!(info.read_count, 0);
}

#[test]
fn add_read_of_an_empty_key_logs_empty_text() {
    let mut info = DebugInfo::empty();
    info.add_read(u128::MAX, &[]);
    assert_eq!(info.reads[0].time_us(), u128::MAX);
    assert_eq!(info.reads[0].key().as_str(), "");
}

#[test]
fn add_read_keeps_earlier_reads_in_order() {
    let mut info = DebugInfo::empty();
    info.add_read(1, &[0x12]);
    info.add_read(2, &[0x34, 0x56]);
    assert_eq!(info.reads.len(), 2);
    assert_eq!(info.reads[0].key().as_str(), "12");
    assert_eq!(info.reads[1].key().as_str(), "3456");
    assert_eq!(info.reads[1].time_us(), 2);
}
