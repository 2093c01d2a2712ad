use omni_track::line_by_line_iterator::{LineByLineIterator, MAX_BUFFER};

#[test]
fn new_buffer_is_empty() {
    let it = LineByLineIterator::new();
    assert_eq!(it.bytes_available(), MAX_BUFFER);
    assert_eq!(it.space_for_next_fill(), MAX_BUFFER);
}

#[test]
fn drains_complete_lines_only() {
    let mut it = LineByLineIterator::new();
    assert_eq!(it.fill_from(b"$GPA,1*00\r\n$GPB,2*00\n$GPC"), 25);
    let lines = it.drain_lines();
    assert_eq!(lines, vec!["$GPA,1*00".to_string(), "$GPB,2*00".to_string()]);
    assert_eq!(it.bytes_available(), MAX_BUFFER - 4);
    it.fill_from(b",3*00\r\n");
    assert_eq!(it.drain_lines(), vec!["$GPC,3*00".to_string()]);
    assert_eq!(it.bytes_available(), MAX_BUFFER);
}

#[test]
fn skips_empty_and_invalid_lines() {
    let mut it = LineByLineIterator::new();
    it.fill_from(b"\r\n\n\xff\xfe\nok\r\r\n");
    assert_eq!(it.drain_lines(), vec!["ok\r".to_string()]);
    assert!(it.drain_lines().is_empty());
}

#[test]
fn full_buffer_is_discarded() {
    let mut it = LineByLineIterator::new();
    let junk = vec![b'x'; MAX_BUFFER + 10];
    assert_eq!(it.fill_from(&junk), MAX_BUFFER);
    assert!(it.drain_lines().is_empty());
    assert_eq!(it.bytes_available(), 0);
    assert_eq!(it.space_for_next_fill(), MAX_BUFFER);
    assert_eq!(it.fill_from(b"ab\n"), 3);
    assert_eq!(it.drain_lines(), vec!["ab".to_string()]);
}
