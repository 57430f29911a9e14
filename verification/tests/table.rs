use reference_table::LoadError;
use reference_table::ReferenceTable;

#[test]
fn from_records_lookup_finds_entries() {
    let table = ReferenceTable::from_records(vec![
        ("intro".to_string(), "chapters/intro.md".to_string()),
        ("guide".to_string(), "guide/index.md".to_string()),
    ]);
    assert_eq!(table.lookup_path("intro"), Some(&"chapters/intro.md".to_string()));
    assert_eq!(table.lookup_path("guide"), Some(&"guide/index.md".to_string()));
    assert_eq!(table.lookup_path("absent"), None);
}

#[test]
fn duplicate_identifier_last_record_wins() {
    let table = ReferenceTable::from_records(vec![
        ("a".to_string(), "x.md".to_string()),
        ("b".to_string(), "b.md".to_string()),
        ("a".to_string(), "y.md".to_string()),
    ]);
    assert_eq!(table.lookup_path("a"), Some(&"y.md".to_string()));
    assert_eq!(table.lookup_path("b"), Some(&"b.md".to_string()));
}

#[test]
fn loads_mapping_file_content() {
    let yaml = "reference-table:\n  - id: intro\n    path: chapters/intro.md\n  - id: guide\n    path: guide/index.md\n";
    let table = ReferenceTable::new(yaml).unwrap();
    assert_eq!(table.lookup_path("intro"), Some(&"chapters/intro.md".to_string()));
    assert_eq!(table.lookup_path("guide"), Some(&"guide/index.md".to_string()));
    assert_eq!(table.lookup_path("other"), None);
}

#[test]
fn loading_twice_gives_identical_tables() {
    let yaml = "reference-table:\n  - id: b\n    path: y/b.md\n  - id: a\n    path: x/a.md\n";
    let first = ReferenceTable::new(yaml).unwrap();
    let second = ReferenceTable::new(yaml).unwrap();
    for id in ["a", "b", "missing"] {
        assert_eq!(first.lookup_path(id), second.lookup_path(id));
    }
}

#[test]
fn record_order_does_not_change_lookups_of_distinct_ids() {
    let forward = ReferenceTable::new("reference-table:\n  - id: a\n    path: x/a.md\n  - id: b\n    path: y/b.md\n").unwrap();
    let backward = ReferenceTable::new("reference-table:\n  - id: b\n    path: y/b.md\n  - id: a\n    path: x/a.md\n").unwrap();
    for id in ["a", "b", "missing"] {
        assert_eq!(forward.lookup_path(id), backward.lookup_path(id));
    }
}

#[test]
fn records_missing_fields_are_skipped() {
    let yaml = "reference-table:\n  - id: only-id\n  - path: only/path.md\n  - id: full\n    path: ok.md\n  - note: unrelated\n";
    let table = ReferenceTable::new(yaml).unwrap();
    assert_eq!(table.lookup_path("only-id"), None);
    assert_eq!(table.lookup_path("full"), Some(&"ok.md".to_string()));
}

#[test]
fn unrelated_record_fields_are_ignored() {
    let yaml = "reference-table:\n  - id: a\n    path: a.md\n    extra: 7\n";
    let table = ReferenceTable::new(yaml).unwrap();
    assert_eq!(table.lookup_path("a"), Some(&"a.md".to_string()));
}

#[test]
fn invalid_yaml_is_a_parse_error() {
    let err = ReferenceTable::new("foo: [unclosed").unwrap_err();
    assert_eq!(err, LoadError::MappingFileParseError);
}

#[test]
fn missing_table_key_is_a_parse_error() {
    let err = ReferenceTable::new("other-key: 1\n").unwrap_err();
    assert_eq!(err, LoadError::MappingFileParseError);
}

#[test]
fn non_sequence_table_is_a_parse_error() {
    let err = ReferenceTable::new("reference-table: 5\n").unwrap_err();
    assert_eq!(err, LoadError::MappingFileParseError);
}
