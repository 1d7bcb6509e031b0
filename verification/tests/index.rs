use apk_rs::index::{IndexError, IndexReader, PackageIndex, PackageInfo};

fn lookup(index: &PackageIndex, name: &str) -> Option<(String, String)> {
    index
        .get(name)
        .map(|info| (info.name().to_string(), info.version().to_string()))
}

fn record(name: &str, version: &str) -> Option<(String, String)> {
    Some((name.to_string(), version.to_string()))
}

#[test]
fn parses_two_records() {
    let index = PackageIndex::new(b"P:foo\nV:1.0\n\nP:bar\nV:2.0\n\n").unwrap();
    assert_eq!(index.len(), 2);
    assert_eq!(lookup(&index, "foo"), record("foo", "1.0"));
    assert_eq!(lookup(&index, "bar"), record("bar", "2.0"));
    assert!(index.get("baz").is_none());
}

#[test]
fn empty_text_gives_empty_index() {
    let index = PackageIndex::new(b"").unwrap();
    assert_eq!(index.len(), 0);
    assert!(index.get("foo").is_none());
    assert_eq!(PackageIndex::from_text("").len(), 0);
}

#[test]
fn text_and_bytes_give_the_same_index() {
    let text = "P:foo\nV:1.0\n\nP:b\u{e4}r\nV:2.0\n\n";
    let from_text = PackageIndex::from_text(text);
    let from_bytes = PackageIndex::new(text.as_bytes()).unwrap();
    assert_eq!(from_text.len(), 2);
    assert_eq!(from_bytes.len(), 2);
    for name in ["foo", "b\u{e4}r", "bar"] {
        assert_eq!(lookup(&from_text, name), lookup(&from_bytes, name));
    }
}

#[test]
fn later_record_replaces_earlier_one() {
    let text = b"P:foo\nV:1.0\n\nP:bar\nV:2.0\n\nP:foo\nV:3.1\n\n";
    let index = PackageIndex::new(text).unwrap();
    assert_eq!(index.len(), 2);
    assert_eq!(lookup(&index, "foo"), record("foo", "3.1"));
    assert_eq!(lookup(&index, "bar"), record("bar", "2.0"));
}

#[test]
fn other_keys_are_ignored() {
    let text = b"C:Q1abc=\nP:musl\nV:1.2.5-r1\nA:x86_64\nS:41234\nT:the musl c library\n\n";
    let index = PackageIndex::new(text).unwrap();
    assert_eq!(index.len(), 1);
    assert_eq!(lookup(&index, "musl"), record("musl", "1.2.5-r1"));
}

#[test]
fn records_with_other_keys_among_their_lines() {
    let text = b"C:Q1a=\nP:foo\nA:x86_64\nS:1\nV:1.0\nT:first\n\n\
                 P:bar\nV:2.0\nL:MIT\n\n\
                 C:Q1b=\nx\nP:foo\n:\nV:3.0\n\n";
    let index = PackageIndex::new(text).unwrap();
    assert_eq!(index.len(), 2);
    assert_eq!(lookup(&index, "foo"), record("foo", "3.0"));
    assert_eq!(lookup(&index, "bar"), record("bar", "2.0"));
    assert!(index.get("x").is_none());
}

#[test]
fn version_may_come_before_name() {
    let index = PackageIndex::new(b"V:9\nP:late\n").unwrap();
    assert_eq!(lookup(&index, "late"), record("late", "9"));
}

#[test]
fn blank_line_does_not_end_a_record() {
    let index = PackageIndex::new(b"P:foo\n\nX:y\n\nV:1.0\n").unwrap();
    assert_eq!(lookup(&index, "foo"), record("foo", "1.0"));
}

#[test]
fn second_name_before_version_replaces_first() {
    let index = PackageIndex::new(b"P:a\nP:b\nV:1\n").unwrap();
    assert_eq!(index.len(), 1);
    assert!(index.get("a").is_none());
    assert_eq!(lookup(&index, "b"), record("b", "1"));
}

#[test]
fn lines_after_a_complete_record_start_the_next_one() {
    let index = PackageIndex::new(b"P:a\nV:1\nV:2\nP:b\n").unwrap();
    assert_eq!(index.len(), 2);
    assert_eq!(lookup(&index, "a"), record("a", "1"));
    assert_eq!(lookup(&index, "b"), record("b", "2"));
}

#[test]
fn trailing_name_without_version_is_dropped() {
    let index = PackageIndex::new(b"P:foo\nV:1.0\n\nP:bar\n").unwrap();
    assert_eq!(index.len(), 1);
    assert_eq!(lookup(&index, "foo"), record("foo", "1.0"));
    assert!(index.get("bar").is_none());
}

#[test]
fn trailing_name_without_line_feed_is_dropped() {
    let index = PackageIndex::new(b"P:foo\nV:1.0\n\nP:bar").unwrap();
    assert_eq!(index.len(), 1);
    assert_eq!(lookup(&index, "foo"), record("foo", "1.0"));
    assert!(index.get("bar").is_none());
}

#[test]
fn trailing_version_without_name_is_dropped() {
    let index = PackageIndex::new(b"P:foo\nV:1.0\n\nV:2.0\n").unwrap();
    assert_eq!(index.len(), 1);
    assert_eq!(lookup(&index, "foo"), record("foo", "1.0"));
}

#[test]
fn trailing_partial_record_leaves_earlier_records_as_they_are() {
    let whole = PackageIndex::new(b"P:foo\nV:1.0\n\nP:bar\nV:2.0\n\n").unwrap();
    for tail in ["P:baz\n", "P:baz", "P:foo\n", "P:\n", "X:1\nP:baz\nT:text\n", "V:7\n"] {
        let text = format!("P:foo\nV:1.0\n\nP:bar\nV:2.0\n\n{}", tail);
        let cut = PackageIndex::new(text.as_bytes()).unwrap();
        assert_eq!(cut.len(), whole.len(), "{:?}", tail);
        for name in ["foo", "bar", "baz", ""] {
            assert_eq!(lookup(&cut, name), lookup(&whole, name), "{:?}", tail);
        }
    }
}

#[test]
fn last_line_counts_without_its_line_feed() {
    let index = PackageIndex::new(b"P:foo\nV:1.0").unwrap();
    assert_eq!(index.len(), 1);
    assert_eq!(lookup(&index, "foo"), record("foo", "1.0"));
}

#[test]
fn unterminated_other_line_is_ignored() {
    let index = PackageIndex::new(b"P:foo\nV:1.0\nT:no line feed").unwrap();
    assert_eq!(index.len(), 1);
    assert_eq!(lookup(&index, "foo"), record("foo", "1.0"));
}

#[test]
fn key_is_stripped_once() {
    let index = PackageIndex::new(b"P:P:foo\nV:V:V:1\n").unwrap();
    assert_eq!(index.len(), 1);
    assert_eq!(lookup(&index, "P:foo"), record("P:foo", "V:V:1"));
    assert!(index.get("foo").is_none());
}

#[test]
fn name_that_begins_with_a_key_is_found_under_itself() {
    let index = PackageIndex::new(b"P:P:x\nV:1\n\nP:V:y\nV:P:2\n\nP:P:x\nV:3\n\n").unwrap();
    assert_eq!(index.len(), 2);
    assert_eq!(lookup(&index, "P:x"), record("P:x", "3"));
    assert_eq!(lookup(&index, "V:y"), record("V:y", "P:2"));
    assert!(index.get("x").is_none());
    assert!(index.get("y").is_none());
}

#[test]
fn parse_takes_what_follows_the_first_key() {
    let mut reader = IndexReader::new("P:P:foo\nV:1\n");
    let info = PackageInfo::parse(&mut reader).unwrap();
    assert_eq!(info.name(), "P:foo");
    assert_eq!(info.version(), "1");
    assert!(PackageInfo::parse(&mut reader).is_none());
}

#[test]
fn key_inside_a_value_stays() {
    let index = PackageIndex::new(b"P:xP:foo\nV:1V:\n").unwrap();
    assert_eq!(lookup(&index, "xP:foo"), record("xP:foo", "1V:"));
}

#[test]
fn key_needs_its_colon() {
    let index = PackageIndex::new(b"P\nPfoo\nP:real\nV\nV1\nV:2\n").unwrap();
    assert_eq!(index.len(), 1);
    assert_eq!(lookup(&index, "real"), record("real", "2"));
}

#[test]
fn empty_name_and_version_are_kept() {
    let index = PackageIndex::new(b"P:\nV:\n").unwrap();
    assert_eq!(lookup(&index, ""), record("", ""));
}

#[test]
fn carriage_return_stays_in_the_value() {
    let index = PackageIndex::new(b"P:foo\r\nV:1.0\r\n").unwrap();
    assert_eq!(lookup(&index, "foo\r"), record("foo\r", "1.0\r"));
    assert!(index.get("foo").is_none());
}

#[test]
fn non_ascii_text_is_read_by_characters() {
    let index = PackageIndex::new("P:caf\u{e9}\nV:1.0\u{2605}\n".as_bytes()).unwrap();
    assert_eq!(lookup(&index, "caf\u{e9}"), record("caf\u{e9}", "1.0\u{2605}"));
}

#[test]
fn bytes_that_are_no_text_are_malformed() {
    assert!(matches!(PackageIndex::new(b"P:foo\nV:1.0\n\xff\n"), Err(IndexError::Malformed)));
    assert!(matches!(PackageIndex::new(b"\xc3"), Err(IndexError::Malformed)));
    assert!(matches!(PackageIndex::new(b"P:a\xed\xa0\x80\nV:1\n"), Err(IndexError::Malformed)));
    assert!(matches!(PackageIndex::new(b"T:\xc0\xaf\n"), Err(IndexError::Malformed)));
}

#[test]
fn parse_reads_one_record_at_a_time() {
    let mut reader = IndexReader::new("P:foo\nV:1.0\n\nP:bar\nV:2.0\nP:baz\n");
    let first = PackageInfo::parse(&mut reader).unwrap();
    assert_eq!(first.name(), "foo");
    assert_eq!(first.version(), "1.0");
    let second = PackageInfo::parse(&mut reader).unwrap();
    assert_eq!(second.name(), "bar");
    assert_eq!(second.version(), "2.0");
    assert!(PackageInfo::parse(&mut reader).is_none());
    assert!(PackageInfo::parse(&mut reader).is_none());
}

#[test]
fn parse_of_text_without_records() {
    assert!(PackageInfo::parse(&mut IndexReader::new("")).is_none());
    assert!(PackageInfo::parse(&mut IndexReader::new("\n\n")).is_none());
    assert!(PackageInfo::parse(&mut IndexReader::new("X:1\nV:2")).is_none());
}

#[test]
fn file_name_joins_name_and_version() {
    let index = PackageIndex::new(b"P:foo\nV:1.0\n\nP:bar\nV:2.0\n\n").unwrap();
    assert_eq!(index.get("foo").unwrap().file_name(), "foo-1.0.apk");
    assert_eq!(index.get("bar").unwrap().file_name(), "bar-2.0.apk");
}

#[test]
fn file_name_of_empty_record() {
    let index = PackageIndex::new(b"P:\nV:\n").unwrap();
    assert_eq!(index.get("").unwrap().file_name(), "-.apk");
}

#[test]
fn many_records_are_all_found() {
    let mut text = String::new();
    for i in 0..500 {
        let name = format!("pkg-{}", (i * 7) % 500);
        let version = format!("{}.{}-r{}", i, i % 10, i % 3);
        text.push_str(&format!("C:Q1x{}=\nP:{}\nV:{}\nA:x86_64\n\n", i, name, version));
    }
    let index = PackageIndex::new(text.as_bytes()).unwrap();
    assert_eq!(index.len(), 500);
    for i in 0..500 {
        let name = format!("pkg-{}", (i * 7) % 500);
        let version = format!("{}.{}-r{}", i, i % 10, i % 3);
        assert_eq!(lookup(&index, &name), record(&name, &version));
        assert_eq!(index.get(&name).unwrap().file_name(), format!("{}-{}.apk", name, version));
    }
}
