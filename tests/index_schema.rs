use oas_media::index_schema::{index_field_type, media_index_fields, IndexFieldType};

#[test]
fn media_index_schema_rows() {
    let rows: Vec<(String, IndexFieldType)> =
        media_index_fields().into_iter().map(|f| (f.name, f.kind)).collect();
    let expected = vec![
        ("transcript".to_string(), IndexFieldType::ObjectDisabled),
        ("contentUrl".to_string(), IndexFieldType::Keyword),
        ("duration".to_string(), IndexFieldType::Float),
        ("contentSize".to_string(), IndexFieldType::Float),
        ("encodingFormat".to_string(), IndexFieldType::Keyword),
        ("nlp".to_string(), IndexFieldType::Object),
        ("posts".to_string(), IndexFieldType::Keyword),
        ("feeds".to_string(), IndexFieldType::Keyword),
    ];
    assert_eq!(rows, expected);
}

#[test]
fn media_index_schema_is_stable() {
    let a: Vec<(String, IndexFieldType)> =
        media_index_fields().into_iter().map(|f| (f.name, f.kind)).collect();
    let b: Vec<(String, IndexFieldType)> =
        media_index_fields().into_iter().map(|f| (f.name, f.kind)).collect();
    assert_eq!(a, b);
    let mut names: Vec<String> = a.into_iter().map(|r| r.0).collect();
    names.sort();
    names.dedup();
    assert_eq!(names.len(), 8);
}

#[test]
fn index_field_type_lookup() {
    assert_eq!(index_field_type("transcript"), Some(IndexFieldType::ObjectDisabled));
    assert_eq!(index_field_type("contentUrl"), Some(IndexFieldType::Keyword));
    assert_eq!(index_field_type("duration"), Some(IndexFieldType::Float));
    assert_eq!(index_field_type("contentSize"), Some(IndexFieldType::Float));
    assert_eq!(index_field_type("nlp"), Some(IndexFieldType::Object));
    assert_eq!(index_field_type("feeds"), Some(IndexFieldType::Keyword));
}

#[test]
fn fields_outside_the_schema_are_not_indexed() {
    assert_eq!(index_field_type("other"), None);
    assert_eq!(index_field_type("text"), None);
    assert_eq!(index_field_type(""), None);
    assert_eq!(index_field_type("Duration"), None);
}
