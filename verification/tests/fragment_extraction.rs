use loader_rs::fragment::extract_fragment;
use loader_rs::url_helpers::UrlError;
use loader_rs::{Document, LoaderError, ToOwnedJsonType};
use std::sync::Arc;

fn sample_object() -> Document {
    Document::Object(vec![("key".to_string(), Document::Str("Some Text".to_string()))])
}

#[test]
fn test_extract_key_from_object() {
    let doc = Arc::new(sample_object());
    let extracted = extract_fragment(&doc, "/key").unwrap();
    assert_eq!(*extracted, Document::Str("Some Text".to_string()));
}

#[test]
fn test_extract_missing_key_fails() {
    let doc = Arc::new(sample_object());
    match extract_fragment(&doc, "/missing").unwrap_err() {
        LoaderError::InvalidURL(UrlError::JsonFragmentError(message)) => {
            assert_eq!(
                message,
                "Fragment '/missing' not found in {\"key\":\"Some Text\"}"
            );
        },
        other => panic!("Expected a JsonFragmentError, received {:?}", other),
    }
}

#[test]
fn test_document_renders_as_json_text() {
    let doc = Document::Object(vec![
        ("a".to_string(), Document::Array(vec![Document::Null, Document::Int(-3)])),
        ("quote\"and\\slash".to_string(), Document::Str("line\none".to_string())),
        ("ok".to_string(), Document::Bool(true)),
    ]);
    assert_eq!(
        doc.to_json_string(),
        "{\"a\":[null,-3],\"quote\\\"and\\\\slash\":\"line\\none\",\"ok\":true}"
    );
}

#[test]
fn test_extract_root_is_identity() {
    let doc = Arc::new(sample_object());
    let extracted = extract_fragment(&doc, "/").unwrap();
    assert_eq!(*extracted, sample_object());
    assert!(Arc::ptr_eq(&doc, &extracted));
}

#[test]
fn test_extract_decodes_escapes() {
    let doc = Arc::new(Document::Object(vec![
        ("a/b".to_string(), Document::Int(1)),
        ("m~n".to_string(), Document::Int(2)),
    ]));
    assert_eq!(*extract_fragment(&doc, "/a~1b").unwrap(), Document::Int(1));
    assert_eq!(*extract_fragment(&doc, "/m~0n").unwrap(), Document::Int(2));
}

#[test]
fn test_extract_array_by_index() {
    let doc = Arc::new(Document::Array(vec![
        Document::Null,
        Document::Bool(true),
        Document::Int(7),
    ]));
    assert_eq!(*extract_fragment(&doc, "/1").unwrap(), Document::Bool(true));
    assert_eq!(*extract_fragment(&doc, "/2").unwrap(), Document::Int(7));
    assert!(extract_fragment(&doc, "/3").is_err());
    assert!(extract_fragment(&doc, "/x").is_err());
}

#[test]
fn test_extract_nested_path() {
    let doc = Arc::new(Document::Object(vec![(
        "outer".to_string(),
        Document::Array(vec![Document::Object(vec![(
            "inner".to_string(),
            Document::Str("deep".to_string()),
        )])]),
    )]));
    assert_eq!(
        *extract_fragment(&doc, "/outer/0/inner").unwrap(),
        Document::Str("deep".to_string())
    );
}

#[test]
fn test_extract_scalar_is_not_indexable() {
    let doc = Arc::new(Document::Bool(false));
    assert!(extract_fragment(&doc, "/anything").is_err());
}

#[test]
fn test_fragment_to_tokens_decodes_escapes() {
    let tokens = loader_rs::fragment::fragment_to_tokens("/a~1b/c~0d//e");
    assert_eq!(
        tokens,
        vec!["a/b".to_string(), "c~d".to_string(), "".to_string(), "e".to_string()]
    );
    assert!(loader_rs::fragment::fragment_to_tokens("/").is_empty());
    assert!(loader_rs::fragment::fragment_to_tokens("").is_empty());
}

#[test]
fn test_to_owned_json_type_copies_deeply() {
    let original = Document::Object(vec![
        ("list".to_string(), Document::Array(vec![Document::Int(1), Document::Str("x".to_string())])),
        ("flag".to_string(), Document::Bool(true)),
    ]);
    let copy = original.to_owned_json_type();
    assert_eq!(copy, original);
}
