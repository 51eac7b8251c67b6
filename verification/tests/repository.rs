use odis::repository::{context_url, parse_catalog, RepositoryEntry, RepositoryError};

#[test]
fn test_parse_catalog_rejects_non_catalog() {
    assert!(matches!(parse_catalog(b"<!DOCTYPE html>"), Err(RepositoryError::InvalidCatalog)));
    assert!(matches!(parse_catalog(b""), Err(RepositoryError::InvalidCatalog)));
}

#[test]
fn the_documented_catalogue_parses() {
    let catalogue = b"livingbeings_en.cxt:\n  title: Living beings and water\n  size:\n  objects: 8\n  attributes: 9\n";
    let entries = parse_catalog(catalogue).unwrap();
    assert_eq!(entries.len(), 1);
    assert_eq!(entries[0].filename, "livingbeings_en.cxt");
    assert_eq!(entries[0].title, "Living beings and water");
    assert_eq!(entries[0].objects, Some(8));
    assert_eq!(entries[0].attributes, Some(9));
    assert_eq!(entries[0].language, None);
}

#[test]
fn both_field_shapes_and_list_items_are_read() {
    let catalogue = [
        "# generated\n",
        "animals_en.cxt:\n",
        "  title: \"Animals\"\n",
        "  objects: 35\n",
        "  attributes: 11\n",
        "  language: English\n",
        "  description: animals and their characteristics\n",
        "\n",
        "triangles_en.cxt:\n",
        "  title: Triangles\n",
        "  size:\n",
        "    - objects: 7\n",
        "    - attributes: 7\n",
        "  source:\n",
        "    - \"Mahn, M. (2014). Gewürze: Das Standardwerk\"\n",
        "    - Second source\n",
        "  note: first\n",
        "  note: second\n",
        "  unknown_field: ignored\n",
    ]
    .concat();
    let entries = parse_catalog(catalogue.as_bytes()).unwrap();
    assert_eq!(entries.len(), 2);
    assert_eq!(entries[0].title, "Animals");
    assert_eq!((entries[0].objects, entries[0].attributes), (Some(35), Some(11)));
    assert_eq!(entries[0].language.as_deref(), Some("English"));
    assert_eq!(entries[0].description.as_deref(), Some("animals and their characteristics"));
    assert_eq!((entries[1].objects, entries[1].attributes), (Some(7), Some(7)));
    assert_eq!(
        entries[1].source,
        vec!["Mahn, M. (2014). Gewürze: Das Standardwerk".to_string(), "Second source".to_string()]
    );
    assert_eq!(entries[1].note, vec!["first".to_string(), "second".to_string()]);
}

#[test]
fn an_indented_line_before_any_entry_is_refused() {
    assert!(matches!(parse_catalog(b"  title: x\n"), Err(RepositoryError::InvalidCatalog)));
    assert!(matches!(parse_catalog(b"entry\n"), Err(RepositoryError::InvalidCatalog)));
    assert!(matches!(parse_catalog(b"a.cxt:\n  no colon here\n"), Err(RepositoryError::InvalidCatalog)));
    assert!(matches!(parse_catalog(&[0xff, 0xfe]), Err(RepositoryError::InvalidCatalog)));
}

#[test]
fn a_number_that_does_not_parse_is_left_unset() {
    let entries = parse_catalog(b"a.cxt:\n  objects: many\n").unwrap();
    assert_eq!(entries[0].objects, None);
}

#[test]
fn test_entry_url() {
    let entries = parse_catalog(b"animals_en.cxt:\n  title: Animals\n").unwrap();
    assert_eq!(entries[0].url(), context_url("animals_en.cxt"));
    assert!(entries[0].url().ends_with("/contexts/animals_en.cxt"));
}

#[test]
fn context_urls_are_served_from_the_repository() {
    assert_eq!(
        context_url("livingbeings_en.cxt"),
        "https://raw.githubusercontent.com/fcatools/contexts/main/contexts/livingbeings_en.cxt"
    );
}

#[test]
fn a_format_error_converts_into_a_repository_error() {
    let e: RepositoryError = odis::formal_context::FormatError::InvalidFormat.into();
    assert!(matches!(e, RepositoryError::Format(odis::formal_context::FormatError::InvalidFormat)));
    let entry = RepositoryEntry::default();
    assert_eq!(entry.filename, "");
}
