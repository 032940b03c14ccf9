use registry_store::index::{make_entry, split_records};

fn lines(content: &[u8]) -> Vec<Vec<u8>> {
    split_records(&content.to_vec())
}

#[test]
fn entry_is_the_record_and_a_line_break() {
    assert_eq!(make_entry(&b"{\"a\":1}".to_vec()), b"{\"a\":1}\n".to_vec());
    assert_eq!(make_entry(&Vec::new()), b"\n".to_vec());
}

#[test]
fn empty_index_has_no_records() {
    assert_eq!(lines(b""), Vec::<Vec<u8>>::new());
}

#[test]
fn each_line_break_ends_a_record() {
    assert_eq!(lines(b"one\ntwo\nthree\n"), vec![b"one".to_vec(), b"two".to_vec(), b"three".to_vec()]);
    assert_eq!(lines(b"one\n"), vec![b"one".to_vec()]);
}

#[test]
fn bytes_after_the_last_line_break_are_a_record() {
    assert_eq!(lines(b"one\ntw"), vec![b"one".to_vec(), b"tw".to_vec()]);
    assert_eq!(lines(b"tw"), vec![b"tw".to_vec()]);
}

#[test]
fn empty_lines_are_records() {
    assert_eq!(lines(b"\n"), vec![Vec::<u8>::new()]);
    assert_eq!(lines(b"a\n\nb\n"), vec![b"a".to_vec(), Vec::new(), b"b".to_vec()]);
    assert_eq!(lines(b"\n\n"), vec![Vec::<u8>::new(), Vec::new()]);
}

#[test]
fn records_written_are_read_back_in_order() {
    let records: Vec<Vec<u8>> = vec![
        b"{\"package\":{\"name\":\"biff/minimal\",\"version\":\"0.1.0\"}}".to_vec(),
        b"".to_vec(),
        b"plain text with spaces".to_vec(),
        vec![0, 255, 13, 9],
    ];
    let mut content: Vec<u8> = Vec::new();
    for record in &records {
        content.extend_from_slice(&make_entry(record));
    }
    assert_eq!(split_records(&content), records);
}
