use ttags::index::{TagData, TagEntry};
use ttags::query::{lookup, lower_bound, table_fits_lists};

fn entry(file_index: usize, is_definition: bool, row: usize) -> TagEntry {
    TagEntry { file_index, is_definition, syntax_type_id: 0, row, column: 1 }
}

#[test]
fn new_entry_is_all_zero() {
    let e = TagEntry::new();
    assert_eq!(e, TagEntry { file_index: 0, is_definition: false, syntax_type_id: 0, row: 0, column: 0 });
}

#[test]
fn files_get_their_positions() {
    let mut data = TagData::new();
    assert_eq!(data.add_file("a.rs".to_string(), 10), 0);
    assert_eq!(data.add_file("b.rs".to_string(), 20), 1);
    assert_eq!(data.files().len(), 2);
    assert_eq!(data.files()[1].path, "b.rs");
    assert_eq!(data.files()[1].modification, 20);
}

#[test]
fn tags_are_listed_by_name_in_order() {
    let mut data = TagData::new();
    data.add_file("a.rs".to_string(), 0);
    data.add_file("b.rs".to_string(), 0);
    data.add_tag("foo".to_string(), entry(0, true, 1));
    data.add_tag("bar".to_string(), entry(0, false, 2));
    data.add_tag("foo".to_string(), entry(1, false, 3));
    assert_eq!(data.entries().len(), 3);
    assert_eq!(data.entries()[2], entry(1, false, 3));
    assert_eq!(data.name_lists(), &vec![vec![0, 2], vec![1]]);
}

#[test]
fn name_table_is_sorted_by_bytes() {
    let mut data = TagData::new();
    data.add_file("a.rs".to_string(), 0);
    data.add_tag("zeta".to_string(), entry(0, true, 1));
    data.add_tag("Alpha".to_string(), entry(0, true, 2));
    data.add_tag("alpha".to_string(), entry(0, true, 3));
    data.add_tag("zeta".to_string(), entry(0, false, 4));
    let table = data.name_table();
    assert_eq!(
        table,
        vec![("Alpha".to_string(), 1), ("alpha".to_string(), 2), ("zeta".to_string(), 0)]
    );
}

#[test]
fn lookup_shows_what_was_added() {
    let mut data = TagData::new();
    data.add_file("a.rs".to_string(), 0);
    data.add_file("b.rs".to_string(), 0);
    data.add_tag("foo".to_string(), entry(0, true, 1));
    data.add_tag("bar".to_string(), entry(0, false, 2));
    data.add_tag("foo".to_string(), entry(1, false, 3));
    data.add_tag("baz".to_string(), entry(1, true, 4));
    let table = data.name_table();
    let lists = data.name_lists();
    for (name, expected) in [("foo", vec![0, 2]), ("bar", vec![1]), ("baz", vec![3])] {
        assert!(table_fits_lists(&table, lists));
        assert_eq!(lookup(&table, lists, name), Some(&expected));
    }
}

#[test]
fn lookup_of_absent_name_finds_nothing() {
    let mut data = TagData::new();
    data.add_file("a.rs".to_string(), 0);
    data.add_tag("apple".to_string(), entry(0, true, 1));
    data.add_tag("cherry".to_string(), entry(0, true, 2));
    let table = data.name_table();
    assert_eq!(lower_bound(&table, "banana"), 1);
    assert_eq!(lookup(&table, data.name_lists(), "banana"), None);
    assert_eq!(lower_bound(&table, "zzz"), 2);
    assert_eq!(lookup(&table, data.name_lists(), "zzz"), None);
    assert_eq!(lookup(&table, data.name_lists(), "cherry"), Some(&vec![1]));
}

#[test]
fn entry_kind_test() {
    assert!(entry(0, true, 1).has_kind(true));
    assert!(!entry(0, true, 1).has_kind(false));
    assert!(entry(0, false, 1).has_kind(false));
}
