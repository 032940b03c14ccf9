use registry_store::snapshot::{capture, insert_entry, Child, Entry, RawChild, RawEntry, SnapshotError};

fn raw_file(name: &str, text: &str) -> RawChild {
    RawChild { name: name.to_string(), entry: RawEntry::File(text.as_bytes().to_vec()) }
}

fn raw_dir(name: &str, children: Vec<RawChild>) -> RawChild {
    RawChild { name: name.to_string(), entry: RawEntry::Dir(children) }
}

fn file(name: &str, text: &str) -> Child {
    Child { name: name.to_string(), entry: Entry::File(text.to_string()) }
}

fn dir(name: &str, children: Vec<Child>) -> Child {
    Child { name: name.to_string(), entry: Entry::Dir(children) }
}

#[test]
fn file_is_captured_as_its_text() {
    assert_eq!(
        capture(&RawEntry::File(b"hello\n".to_vec())),
        Ok(Entry::File("hello\n".to_string()))
    );
    assert_eq!(capture(&RawEntry::File(Vec::new())), Ok(Entry::File(String::new())));
    assert_eq!(
        capture(&RawEntry::File(vec![0xe2, 0x82, 0xac, 0x20, 0xc3, 0xa9])),
        Ok(Entry::File("\u{20ac} \u{e9}".to_string()))
    );
}

#[test]
fn file_that_is_no_text_fails_the_capture() {
    assert_eq!(capture(&RawEntry::File(vec![0xff])), Err(SnapshotError::NotText));
    assert_eq!(capture(&RawEntry::File(vec![b'a', 0xc3])), Err(SnapshotError::NotText));
    assert_eq!(capture(&RawEntry::File(vec![0xed, 0xa0, 0x80])), Err(SnapshotError::NotText));
    let nested = RawEntry::Dir(vec![
        raw_file("good", "text"),
        raw_dir("sub", vec![raw_file("fine", "x"), RawChild {
            name: "bad".to_string(),
            entry: RawEntry::File(vec![0x80]),
        }]),
    ]);
    assert_eq!(capture(&nested), Err(SnapshotError::NotText));
}

#[test]
fn empty_directory_is_an_empty_node() {
    assert_eq!(capture(&RawEntry::Dir(vec![])), Ok(Entry::Dir(vec![])));
}

#[test]
fn entries_are_put_in_the_order_of_their_names() {
    let raw = RawEntry::Dir(vec![
        raw_file("zeta", "z"),
        raw_dir("index", vec![raw_file("b", "2"), raw_file("a", "1"), raw_file("ab", "3")]),
        raw_file("alpha", "a"),
        raw_dir("contents", vec![]),
    ]);
    assert_eq!(
        capture(&raw),
        Ok(Entry::Dir(vec![
            file("alpha", "a"),
            dir("contents", vec![]),
            dir("index", vec![file("a", "1"), file("ab", "3"), file("b", "2")]),
            file("zeta", "z"),
        ]))
    );
}

#[test]
fn listing_order_does_not_show() {
    let one = RawEntry::Dir(vec![
        raw_dir("index", vec![raw_dir("biff", vec![raw_file("minimal", "{}\n")]), raw_file("config.json", "{}")]),
        raw_dir("contents", vec![raw_dir("biff", vec![raw_dir("minimal", vec![
            raw_file("0.1.0.blob", "one"),
            raw_file("0.2.0.blob", "two"),
        ])])]),
    ]);
    let other = RawEntry::Dir(vec![
        raw_dir("contents", vec![raw_dir("biff", vec![raw_dir("minimal", vec![
            raw_file("0.2.0.blob", "two"),
            raw_file("0.1.0.blob", "one"),
        ])])]),
        raw_dir("index", vec![raw_file("config.json", "{}"), raw_dir("biff", vec![raw_file("minimal", "{}\n")])]),
    ]);
    let first = capture(&one);
    assert!(first.is_ok());
    assert_eq!(first, capture(&other));
    assert_eq!(first, capture(&one));
}

#[test]
fn every_order_of_three_entries_gives_one_picture() {
    let names = ["b", "a", "c"];
    let orders = [[0, 1, 2], [0, 2, 1], [1, 0, 2], [1, 2, 0], [2, 0, 1], [2, 1, 0]];
    let expected = Ok(Entry::Dir(vec![file("a", "a!"), file("b", "b!"), file("c", "c!")]));
    for order in orders {
        let listing = order.iter().map(|&i| raw_file(names[i], &format!("{}!", names[i]))).collect();
        assert_eq!(capture(&RawEntry::Dir(listing)), expected);
    }
}

#[test]
fn later_entry_of_the_same_name_counts() {
    let raw = RawEntry::Dir(vec![raw_file("a", "first"), raw_file("b", "x"), raw_file("a", "second")]);
    assert_eq!(capture(&raw), Ok(Entry::Dir(vec![file("a", "second"), file("b", "x")])));
}

#[test]
fn insert_entry_keeps_the_order() {
    let mut children: Vec<Child> = Vec::new();
    insert_entry(&mut children, file("m", "1"));
    assert_eq!(children, vec![file("m", "1")]);
    insert_entry(&mut children, file("z", "2"));
    assert_eq!(children, vec![file("m", "1"), file("z", "2")]);
    insert_entry(&mut children, file("a", "3"));
    assert_eq!(children, vec![file("a", "3"), file("m", "1"), file("z", "2")]);
    insert_entry(&mut children, file("n", "4"));
    assert_eq!(children, vec![file("a", "3"), file("m", "1"), file("n", "4"), file("z", "2")]);
    insert_entry(&mut children, file("m", "5"));
    assert_eq!(children, vec![file("a", "3"), file("m", "5"), file("n", "4"), file("z", "2")]);
    insert_entry(&mut children, file("a", "6"));
    insert_entry(&mut children, file("z", "7"));
    assert_eq!(children, vec![file("a", "6"), file("m", "5"), file("n", "4"), file("z", "7")]);
}
