use reference_table::rewrite::process_documents;
use reference_table::rewrite::rewrite_document;
use reference_table::rewrite::Document;
use reference_table::rewrite::ProcessError;
use reference_table::ReferenceTable;

fn sample_table() -> ReferenceTable {
    ReferenceTable::from_records(vec![
        ("guide".to_string(), "guide/index.md".to_string()),
        ("one".to_string(), "x/one.md".to_string()),
        ("two".to_string(), "y/z/two.md".to_string()),
    ])
}

#[test]
fn known_reference_becomes_relative_link() {
    let table = sample_table();
    let text = "Read {{reference: {id: \"guide\", title: \"The Guide\"}}} first.";
    let (out, unresolved) = rewrite_document("chapters/one.md", text, &table);
    assert_eq!(out, "Read [The Guide](../guide/index.md) first.");
    assert!(unresolved.is_empty());
}

#[test]
fn round_trip_single_tag_document() {
    let table = sample_table();
    let text = "{{reference: {id: \"one\", title: \"Chapter One\"}}}";
    let (out, unresolved) = rewrite_document("d/doc.md", text, &table);
    assert_eq!(out, "[Chapter One](../x/one.md)");
    assert!(unresolved.is_empty());
}

#[test]
fn unknown_reference_becomes_inline_marker() {
    let table = sample_table();
    let text = "See {{reference: {id: \"nope\", title: \"Missing\"}}}.";
    let (out, unresolved) = rewrite_document("a.md", text, &table);
    assert_eq!(out, "See Missing (reference not found).");
    assert_eq!(unresolved, vec!["nope".to_string()]);
}

#[test]
fn unresolved_identifier_recorded_once_per_occurrence() {
    let table = sample_table();
    let text = "{{reference: {id: \"gone\", title: \"A\"}}} {{reference: {id: \"gone\", title: \"B\"}}}";
    let (out, unresolved) = rewrite_document("a.md", text, &table);
    assert_eq!(out, "A (reference not found) B (reference not found)");
    assert_eq!(unresolved, vec!["gone".to_string(), "gone".to_string()]);
}

#[test]
fn multiple_tags_rewritten_independently() {
    let table = sample_table();
    let text = "see {{reference: {id: \"one\", title: \"One\"}}} and {{reference: {id: \"two\", title: \"Two\"}}}!";
    let (out, unresolved) = rewrite_document("d/doc.md", text, &table);
    assert_eq!(out, "see [One](../x/one.md) and [Two](../y/z/two.md)!");
    assert!(unresolved.is_empty());
}

#[test]
fn whitespace_around_tag_fields_is_tolerated() {
    let table = sample_table();
    let text = "{{reference:\n  {id:  \"guide\" ,\ttitle: \"G\"}}}";
    let (out, unresolved) = rewrite_document("intro.md", text, &table);
    assert_eq!(out, "[G](./guide/index.md)");
    assert!(unresolved.is_empty());
}

#[test]
fn unicode_whitespace_inside_tag_is_tolerated() {
    let table = sample_table();
    let text = "{{reference:\u{000C}{id:\u{00A0}\"guide\"\u{2003},\u{000B}title: \"G\"}}}";
    let (out, unresolved) = rewrite_document("intro.md", text, &table);
    assert_eq!(out, "[G](./guide/index.md)");
    assert!(unresolved.is_empty());
}

#[test]
fn three_adjacent_tags_rewritten_in_order() {
    let table = sample_table();
    let text = "{{reference: {id: \"one\", title: \"A\"}}}{{reference: {id: \"lost\", title: \"B\"}}}{{reference: {id: \"two\", title: \"C\"}}}";
    let (out, unresolved) = rewrite_document("d/doc.md", text, &table);
    assert_eq!(
        out,
        "[A](../x/one.md)B (reference not found)[C](../y/z/two.md)"
    );
    assert_eq!(unresolved, vec!["lost".to_string()]);
}

#[test]
fn text_without_tags_is_unchanged() {
    let table = sample_table();
    let text = "hello {not a tag} {{reference: almost}} plain";
    let (out, unresolved) = rewrite_document("a.md", text, &table);
    assert_eq!(out, text);
    assert!(unresolved.is_empty());
}

#[test]
fn empty_identifier_does_not_match() {
    let table = sample_table();
    let text = "{{reference: {id: \"\", title: \"T\"}}}";
    let (out, unresolved) = rewrite_document("a.md", text, &table);
    assert_eq!(out, text);
    assert!(unresolved.is_empty());
}

#[test]
fn document_without_path_is_reported_and_scan_continues() {
    let table = sample_table();
    let docs = vec![
        Document {
            name: "Orphan".to_string(),
            path: None,
            content: "{{reference: {id: \"one\", title: \"One\"}}}".to_string(),
        },
        Document {
            name: "Chapter".to_string(),
            path: Some("d/doc.md".to_string()),
            content: "{{reference: {id: \"one\", title: \"One\"}}}".to_string(),
        },
    ];
    let outcome = process_documents(&table, &docs);
    assert_eq!(
        outcome.errors,
        vec![ProcessError::MissingDocumentPath {
            document_name: "Orphan".to_string()
        }]
    );
    // the pathless document is kept as it is; the later one is still rewritten
    assert_eq!(outcome.documents[0].content, docs[0].content);
    assert_eq!(outcome.documents[1].content, "[One](../x/one.md)");
    assert!(outcome.unresolved.is_empty());
}

#[test]
fn processing_aggregates_unresolved_across_documents() {
    let table = sample_table();
    let docs = vec![
        Document {
            name: "A".to_string(),
            path: Some("a.md".to_string()),
            content: "{{reference: {id: \"ghost\", title: \"G\"}}}".to_string(),
        },
        Document {
            name: "B".to_string(),
            path: Some("b.md".to_string()),
            content: "{{reference: {id: \"wraith\", title: \"W\"}}}".to_string(),
        },
    ];
    let outcome = process_documents(&table, &docs);
    assert!(outcome.errors.is_empty());
    assert_eq!(outcome.documents[0].content, "G (reference not found)");
    assert_eq!(outcome.documents[1].content, "W (reference not found)");
    assert_eq!(
        outcome.unresolved,
        vec!["ghost".to_string(), "wraith".to_string()]
    );
}
