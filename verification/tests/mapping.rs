use apk_rs::mapping::DestinationMapping;
use apk_rs::order::{place_of, same_text, Place};
use apk_rs::table::StringTable;
use apk_rs::text::{has_prefix, to_chars, to_string};

fn entries(mapping: &DestinationMapping) -> Vec<(String, String)> {
    (0..mapping.len())
        .map(|i| (mapping.dest_at(i).clone(), mapping.source_at(i).clone()))
        .collect()
}

fn pair(dest: &str, source: &str) -> (String, String) {
    (dest.to_string(), source.to_string())
}

#[test]
fn new_mapping_is_empty() {
    let mapping = DestinationMapping::new();
    assert_eq!(mapping.len(), 0);
    assert!(mapping.get("etc/foo").is_none());
    assert!(!mapping.contains("etc/foo"));
}

#[test]
fn insert_if_absent_keeps_the_first_source() {
    let mut mapping = DestinationMapping::new();
    assert!(mapping.insert_if_absent("etc/foo".to_string(), "/a/etc/foo".to_string()));
    assert!(!mapping.insert_if_absent("etc/foo".to_string(), "/b/etc/foo".to_string()));
    assert_eq!(mapping.get("etc/foo").map(String::as_str), Some("/a/etc/foo"));
    assert_eq!(mapping.len(), 1);
}

#[test]
fn insert_overwrites_the_source() {
    let mut mapping = DestinationMapping::new();
    assert!(!mapping.insert("etc/foo".to_string(), "/a/etc/foo".to_string()));
    assert!(mapping.insert("etc/foo".to_string(), "/b/etc/foo".to_string()));
    assert_eq!(mapping.get("etc/foo").map(String::as_str), Some("/b/etc/foo"));
    assert_eq!(mapping.len(), 1);
    assert!(mapping.contains("etc/foo"));
}

#[test]
fn entries_stand_in_order_of_destinations() {
    let mut mapping = DestinationMapping::new();
    mapping.insert("b".to_string(), "1".to_string());
    mapping.insert("c".to_string(), "4".to_string());
    mapping.insert("a".to_string(), "2".to_string());
    mapping.insert("b".to_string(), "3".to_string());
    mapping.insert_if_absent("ab".to_string(), "5".to_string());
    assert_eq!(
        entries(&mapping),
        vec![pair("a", "2"), pair("ab", "5"), pair("b", "3"), pair("c", "4")]
    );
}

#[test]
fn entries_are_ordered_like_a_btree_map() {
    let dests = [
        "usr/bin/env", "etc", "etc/passwd", "etc0", "Etc", "", "usr", "~", "\u{e9}tc", "zz",
        "etc/", "a\u{10348}", "a\u{e9}", "a\u{ffff}", "az", "a",
    ];
    let mut mapping = DestinationMapping::new();
    let mut expected = std::collections::BTreeMap::new();
    for (i, dest) in dests.iter().enumerate() {
        mapping.insert(dest.to_string(), format!("source {}", i));
        expected.insert(dest.to_string(), format!("source {}", i));
    }
    assert_eq!(entries(&mapping), expected.into_iter().collect::<Vec<_>>());
}

#[test]
fn merge_keeps_what_the_first_mapping_holds() {
    let mut a = DestinationMapping::new();
    a.insert("etc/foo".to_string(), "/a/etc/foo".to_string());
    a.insert("bin/a".to_string(), "/a/bin/a".to_string());
    let mut b = DestinationMapping::new();
    b.insert("bin/b".to_string(), "/b/bin/b".to_string());
    b.insert("etc/foo".to_string(), "/b/etc/foo".to_string());
    let skipped = a.merge(&b);
    assert_eq!(skipped, vec!["etc/foo".to_string()]);
    assert_eq!(
        entries(&a),
        vec![
            pair("bin/a", "/a/bin/a"),
            pair("bin/b", "/b/bin/b"),
            pair("etc/foo", "/a/etc/foo"),
        ]
    );
    assert_eq!(entries(&b), vec![pair("bin/b", "/b/bin/b"), pair("etc/foo", "/b/etc/foo")]);
}

#[test]
fn merge_in_the_other_order_keeps_the_other_source() {
    let mut a = DestinationMapping::new();
    a.insert("etc/foo".to_string(), "/a/etc/foo".to_string());
    let mut b = DestinationMapping::new();
    b.insert("etc/foo".to_string(), "/b/etc/foo".to_string());
    let skipped = b.merge(&a);
    assert_eq!(skipped, vec!["etc/foo".to_string()]);
    assert_eq!(b.get("etc/foo").map(String::as_str), Some("/b/etc/foo"));
}

#[test]
fn merge_reports_skipped_destinations_in_their_order() {
    let mut a = DestinationMapping::new();
    for dest in ["x", "m", "a", "q"] {
        a.insert(dest.to_string(), "first".to_string());
    }
    let mut b = DestinationMapping::new();
    for dest in ["q", "b", "x", "a", "z"] {
        b.insert(dest.to_string(), "second".to_string());
    }
    let skipped = a.merge(&b);
    assert_eq!(skipped, vec!["a".to_string(), "q".to_string(), "x".to_string()]);
    assert_eq!(
        entries(&a),
        vec![
            pair("a", "first"),
            pair("b", "second"),
            pair("m", "first"),
            pair("q", "first"),
            pair("x", "first"),
            pair("z", "second"),
        ]
    );
}

#[test]
fn merge_of_empty_mappings() {
    let mut a = DestinationMapping::new();
    let b = DestinationMapping::new();
    assert!(a.merge(&b).is_empty());
    assert_eq!(a.len(), 0);
    let mut c = DestinationMapping::new();
    c.insert("x".to_string(), "y".to_string());
    assert!(c.merge(&b).is_empty());
    assert!(a.merge(&c).is_empty());
    assert_eq!(entries(&a), vec![pair("x", "y")]);
}

#[test]
fn table_insert_and_get() {
    let mut table: StringTable<u32> = StringTable::new();
    assert_eq!(table.len(), 0);
    assert!(!table.insert("one".to_string(), 1));
    assert!(!table.insert("two".to_string(), 2));
    assert!(table.insert("one".to_string(), 11));
    assert_eq!(table.len(), 2);
    assert_eq!(table.get("one"), Some(&11));
    assert_eq!(table.get("two"), Some(&2));
    assert_eq!(table.get("three"), None);
    assert!(table.contains_key("two"));
    assert!(!table.contains_key(""));
    assert_eq!(table.key_at(0), "one");
    assert_eq!(*table.value_at(0), 11);
    assert_eq!(table.key_at(1), "two");
    assert_eq!(*table.value_at(1), 2);
    table.entries_sorted();
}

#[test]
fn table_insert_if_absent() {
    let mut table: StringTable<u32> = StringTable::new();
    assert!(table.insert_if_absent("k".to_string(), 1));
    assert!(!table.insert_if_absent("k".to_string(), 2));
    assert!(table.insert_if_absent("".to_string(), 3));
    assert_eq!(table.get("k"), Some(&1));
    assert_eq!(table.get(""), Some(&3));
    assert_eq!(table.len(), 2);
    assert_eq!(table.key_at(0), "");
    assert_eq!(table.key_at(1), "k");
}

#[test]
fn table_finds_each_of_many_keys() {
    let mut table: StringTable<usize> = StringTable::new();
    let keys: Vec<String> = (0..200).map(|i| format!("key-{}", (i * 37) % 200)).collect();
    for (i, key) in keys.iter().enumerate() {
        assert!(!table.insert(key.clone(), i));
    }
    assert_eq!(table.len(), 200);
    for (i, key) in keys.iter().enumerate() {
        assert_eq!(table.get(key), Some(&i));
    }
    assert_eq!(table.get("key-200"), None);
    assert_eq!(table.get("key"), None);
    for i in 1..table.len() {
        assert!(table.key_at(i - 1) < table.key_at(i));
    }
}

#[test]
fn place_of_follows_the_order_of_strings() {
    let texts =
        ["", "a", "A", "ab", "b", "a/b", "a b", "\u{e9}", "z", "\u{10348}", "\u{ffff}", "aa"];
    for a in texts {
        for b in texts {
            let expected = match a.cmp(b) {
                std::cmp::Ordering::Less => Place::Before,
                std::cmp::Ordering::Equal => Place::Same,
                std::cmp::Ordering::Greater => Place::After,
            };
            assert_eq!(place_of(a, b), expected, "{:?} {:?}", a, b);
        }
    }
}

#[test]
fn place_of_given_texts() {
    assert_eq!(place_of("etc", "etc/foo"), Place::Before);
    assert_eq!(place_of("etc/foo", "etc"), Place::After);
    assert_eq!(place_of("etc/foo", "etc/foo"), Place::Same);
    assert_eq!(place_of("Z", "a"), Place::Before);
    assert_eq!(place_of("", ""), Place::Same);
}

#[test]
fn chars_and_back() {
    let chars = to_chars("a\u{e9}b");
    assert_eq!(chars, vec!['a', '\u{e9}', 'b']);
    assert_eq!(to_string(&chars, 0, 3), "a\u{e9}b");
    assert_eq!(to_string(&chars, 1, 2), "\u{e9}");
    assert_eq!(to_string(&chars, 2, 2), "");
    assert_eq!(to_chars(""), Vec::<char>::new());
}

#[test]
fn prefix_of_texts() {
    let chars = to_chars(".SIGN.RSA");
    assert!(has_prefix(&chars, ".SIGN"));
    assert!(has_prefix(&chars, ""));
    assert!(has_prefix(&chars, ".SIGN.RSA"));
    assert!(!has_prefix(&chars, ".SIGN.RSA.x"));
    assert!(!has_prefix(&chars, "SIGN"));
    assert!(has_prefix(&to_chars(""), ""));
    assert!(!has_prefix(&to_chars(""), "x"));
}

#[test]
fn same_text_compares_whole_texts() {
    assert!(same_text(".SIGN.RSA", ".SIGN.RSA"));
    assert!(!same_text(".SIGN.RSA", ".SIGN"));
    assert!(!same_text(".SIGN", ".SIGN.RSA"));
    assert!(!same_text("a", "b"));
    assert!(same_text("", ""));
    assert!(same_text("\u{e9}", "\u{e9}"));
    assert!(!same_text("\u{e9}", "e"));
}
