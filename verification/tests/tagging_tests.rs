use ttags::db::{entries_of_tags, insert_statement, store_chunk_size, store_file_name, tokenize_entries, worker_count};
use ttags::index::{TagData, TagEntry};
use ttags::language::Language;
use ttags::tagging::{ConfigCache, ConfigError, Configuration, KeyKind, QueryFiles, SourceTag};
use ttags::tokenize::{record_tags, tokenize, TaggedCode, TokenizeFailure};

const RUST_QUERY: &str = "(function_item name: (identifier) @name) @definition.function\n(call_expression function: (identifier) @name) @reference.call\n";

fn no_files() -> QueryFiles {
    QueryFiles { rust: None, cpp: None }
}

#[test]
fn python_configuration_kinds() {
    let conf = Configuration::for_language(Language::Python, &no_files()).ok().unwrap();
    assert_eq!(conf.get_language(), Language::Python);
    assert_eq!(conf.syntax_type_count(), 4);
    assert_eq!(conf.syntax_name(0), Some("constant"));
    assert_eq!(conf.syntax_name(2), Some("function"));
    assert_eq!(conf.syntax_name(3), Some("call"));
    assert_eq!(conf.syntax_name(4), None);
}

#[test]
fn configurations_need_their_queries() {
    assert!(matches!(Configuration::for_language(Language::Rust, &no_files()), Err(ConfigError::MissingQueries(Language::Rust))));
    let files = QueryFiles { rust: Some(RUST_QUERY.to_string()), cpp: Some("(nonsense_node) @oops".to_string()) };
    assert!(Configuration::for_language(Language::Rust, &files).is_ok());
    assert!(matches!(Configuration::for_language(Language::Cpp, &files), Err(ConfigError::Invalid(Language::Cpp))));
    assert!(Configuration::for_language(Language::JavaScript, &files).is_ok());
}

#[test]
fn cache_by_mime_type() {
    let mut cache = ConfigCache::new(KeyKind::Mime, no_files());
    let c = cache.get("text/x-python").ok().unwrap().unwrap();
    assert_eq!(c.get_language(), Language::Python);
    let again = cache.get("text/x-python").ok().unwrap().unwrap();
    assert!(std::rc::Rc::ptr_eq(&c, &again));
    assert!(cache.get("image/png").ok().unwrap().is_none());
    assert!(matches!(cache.get("text/x-rs"), Err(ConfigError::MissingQueries(Language::Rust))));
}

#[test]
fn cache_by_extension_shares_configurations() {
    let files = QueryFiles { rust: None, cpp: Some(String::new()) };
    let mut cache = ConfigCache::new(KeyKind::Extension, files);
    let c = cache.get("hpp").ok().unwrap().unwrap();
    assert_eq!(c.get_language(), Language::Cpp);
    let h = cache.get("h").ok().unwrap().unwrap();
    assert!(std::rc::Rc::ptr_eq(&c, &h));
}

#[test]
fn tokenize_python_records_tags() {
    let conf = Configuration::for_language(Language::Python, &no_files()).ok().unwrap();
    let mut data = TagData::new();
    let file = data.add_file("m.py".to_string(), 0);
    let code = b"X = 1\ndef foo():\n    pass\n\nfoo()\n";
    let out = tokenize(code, file, &conf, &Vec::new(), &mut data);
    assert_eq!(out.failure, None);
    assert_eq!(out.names, vec!["X".to_string(), "foo".to_string(), "foo".to_string()]);
    assert_eq!(
        data.entries(),
        &vec![
            TagEntry { file_index: 0, is_definition: true, syntax_type_id: 0, row: 1, column: 1 },
            TagEntry { file_index: 0, is_definition: true, syntax_type_id: 2, row: 2, column: 5 },
            TagEntry { file_index: 0, is_definition: false, syntax_type_id: 3, row: 5, column: 1 },
        ]
    );
    assert_eq!(data.name_table(), vec![("X".to_string(), 0), ("foo".to_string(), 1)]);
    assert_eq!(data.name_lists(), &vec![vec![0], vec![1, 2]]);
}

#[test]
fn tokenize_reads_invalid_bytes_lossily() {
    let conf = Configuration::for_language(Language::Python, &no_files()).ok().unwrap();
    let mut data = TagData::new();
    data.add_file("m.py".to_string(), 0);
    let out = tokenize(b"# \xff\xfe\ndef foo():\n    pass\n", 0, &conf, &Vec::new(), &mut data);
    assert_eq!(out.failure, None);
    assert_eq!(out.names, vec!["foo".to_string()]);
    assert_eq!(data.entries()[0].row, 2);
}

#[test]
fn tokenize_rewrites_before_tagging() {
    let conf = Configuration::for_language(Language::Python, &no_files()).ok().unwrap();
    let rules = ttags::rewrite::read_rules(b"foo | bar\n");
    let mut data = TagData::new();
    data.add_file("m.py".to_string(), 0);
    let out = tokenize(b"def foo():\n    pass\n", 0, &conf, &rules, &mut data);
    assert_eq!(out.names, vec!["bar".to_string()]);
    assert_eq!(out.failure, None::<TokenizeFailure>);
}

#[test]
fn rows_for_the_store() {
    let conf = Configuration::for_language(Language::Python, &no_files()).ok().unwrap();
    let (rows, failure) = tokenize_entries("m.py", b"def foo():\n    foo()\n", &conf);
    assert_eq!(failure, None);
    assert_eq!(rows.len(), 2);
    assert_eq!((rows[0].file.as_str(), rows[0].name.as_str(), rows[0].is_definition, rows[0].row), ("m.py", "foo", true, 1));
    assert_eq!((rows[1].name.as_str(), rows[1].is_definition, rows[1].row, rows[1].column), ("foo", false, 2, 5));
}

#[test]
fn store_statements_and_sizes() {
    assert_eq!(insert_statement(1), "INSERT INTO tags VALUES (NULL, ?, ?, ?, ?, ?, ?)");
    assert_eq!(
        insert_statement(2),
        "INSERT INTO tags VALUES (NULL, ?, ?, ?, ?, ?, ?), (NULL, ?, ?, ?, ?, ?, ?)"
    );
    assert_eq!(insert_statement(0), "INSERT INTO tags VALUE");
    assert_eq!(worker_count(1), 1);
    assert_eq!(worker_count(2), 1);
    assert_eq!(worker_count(8), 7);
    assert_eq!(store_chunk_size(100, 8), 14);
    assert_eq!(store_chunk_size(100, 32), 11);
    assert_eq!(store_chunk_size(5, 1), 5);
    assert_eq!(store_file_name(3), ".ttags.3.db");
}

fn found(name_start: usize, name_end: usize, row: usize, column: usize, is_definition: bool) -> SourceTag {
    SourceTag {
        name_start,
        name_end,
        start_row: row,
        start_column: column,
        end_row: row,
        end_column: column + 1,
        is_definition,
        syntax_type_id: 1,
        docs: None,
    }
}

#[test]
fn rows_from_found_tags() {
    let code = b"ab cd";
    let tags = vec![found(0, 2, 0, 0, true), found(3, 5, 4, 3, false), found(4, 9, 0, 0, true), found(0, 1, 0, 0, true)];
    let (rows, failure) = entries_of_tags("f.c", code, &tags, false);
    assert_eq!(failure, Some(TokenizeFailure::NameOutsideCode));
    assert_eq!(rows.len(), 2);
    assert_eq!((rows[0].file.as_str(), rows[0].name.as_str(), rows[0].is_definition, rows[0].row, rows[0].column), ("f.c", "ab", true, 1, 1));
    assert_eq!((rows[1].name.as_str(), rows[1].is_definition, rows[1].syntax_type_id, rows[1].row, rows[1].column), ("cd", false, 1, 5, 4));
    let (rows, failure) = entries_of_tags("f.c", code, &tags[..1].to_vec(), true);
    assert_eq!(failure, Some(TokenizeFailure::Tagging));
    assert_eq!(rows.len(), 1);
    let (rows, failure) = entries_of_tags("f.c", code, &vec![found(0, 2, usize::MAX, 0, true)], false);
    assert_eq!(failure, Some(TokenizeFailure::PositionOverflow));
    assert!(rows.is_empty());
    let (rows, failure) = entries_of_tags("f.c", code, &Vec::new(), false);
    assert_eq!(failure, None);
    assert!(rows.is_empty());
}

#[test]
fn recording_keeps_the_order_of_names() {
    let mut data = TagData::new();
    data.add_file("f.c".to_string(), 0);
    data.add_file("g.c".to_string(), 0);
    let first = TaggedCode { code: b"aa bb".to_vec(), tags: vec![found(0, 2, 0, 0, true), found(3, 5, 0, 3, true)], failed: false };
    let out = record_tags(&first, 0, &mut data);
    assert_eq!(out.names, vec!["aa".to_string(), "bb".to_string()]);
    let second = TaggedCode {
        code: b"cc bb aa cc".to_vec(),
        tags: vec![found(0, 2, 0, 0, true), found(3, 5, 0, 3, false), found(6, 8, 0, 6, false), found(9, 11, 0, 9, false)],
        failed: false,
    };
    let out = record_tags(&second, 1, &mut data);
    assert_eq!(out.failure, None);
    assert_eq!(out.names, vec!["cc".to_string(), "bb".to_string(), "aa".to_string(), "cc".to_string()]);
    assert_eq!(data.name_lists(), &vec![vec![0, 4], vec![1, 3], vec![2, 5]]);
    let mut table = data.name_table();
    table.sort();
    assert_eq!(table, vec![("aa".to_string(), 0), ("bb".to_string(), 1), ("cc".to_string(), 2)]);
    assert_eq!(data.entries()[5], TagEntry { file_index: 1, is_definition: false, syntax_type_id: 1, row: 1, column: 10 });
    let table = data.name_table();
    assert!(ttags::query::table_fits_lists(&table, data.name_lists()));
    assert_eq!(ttags::query::lookup(&table, data.name_lists(), "cc"), Some(&vec![2, 5]));
    assert_eq!(ttags::query::lookup(&table, data.name_lists(), "aa"), Some(&vec![0, 4]));
    assert_eq!(ttags::query::lookup(&table, data.name_lists(), "b"), None);
    assert_eq!(ttags::query::lookup(&table, data.name_lists(), "dd"), None);
}

#[test]
fn recording_no_tags_changes_nothing() {
    let mut data = TagData::new();
    data.add_file("f.c".to_string(), 0);
    data.add_file("g.c".to_string(), 0);
    record_tags(&TaggedCode { code: b"aa".to_vec(), tags: vec![found(0, 2, 0, 0, true)], failed: false }, 0, &mut data);
    let out = record_tags(&TaggedCode { code: b"zz".to_vec(), tags: Vec::new(), failed: true }, 1, &mut data);
    assert_eq!(out.failure, Some(TokenizeFailure::Tagging));
    assert!(out.names.is_empty());
    assert_eq!(data.entries().len(), 1);
    assert_eq!(data.name_lists(), &vec![vec![0]]);
    assert_eq!(data.name_table(), vec![("aa".to_string(), 0)]);
    let conf = Configuration::for_language(Language::Python, &no_files()).ok().unwrap();
    let out = tokenize(b"1\n", 0, &conf, &Vec::new(), &mut data);
    assert_eq!(out.failure, None);
    assert_eq!(data.entries().len(), 1);
    assert_eq!(data.name_lists(), &vec![vec![0]]);
}

#[test]
fn store_file_names_are_decimal() {
    assert_eq!(store_file_name(0), ".ttags.0.db");
    assert_eq!(store_file_name(10), ".ttags.10.db");
    assert_eq!(store_file_name(1234567), ".ttags.1234567.db");
}
