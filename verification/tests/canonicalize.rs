use loader_rs::url_helpers::{ParseErrorKind, SyntaxViolationKind, UrlError, canonicalize};

fn canonical_string(raw: &str) -> String {
    canonicalize(raw).unwrap().as_string()
}

#[test]
fn test_url_with_no_path_no_fragment() {
    assert_eq!(canonical_string("memory://"), "memory:///#/");
}

#[test]
fn test_url_with_no_path() {
    assert_eq!(canonical_string("memory://#"), "memory:///#/");
}

#[test]
fn test_url_with_no_fragment() {
    assert_eq!(canonical_string("memory:///"), "memory:///#/");
}

#[test]
fn test_url_with_path_and_fragment() {
    assert_eq!(canonical_string("memory:///#"), "memory:///#/");
}

#[test]
fn test_url_with_path_and_fragment_normalized() {
    assert_eq!(canonical_string("memory:///#/"), "memory:///#/");
}

#[test]
fn test_url_with_not_empty_fragment_without_leading_slash() {
    assert_eq!(canonical_string("memory:///#fragment"), "memory:///#/fragment");
}

#[test]
fn test_url_with_not_empty_fragment_with_leading_slash() {
    assert_eq!(canonical_string("memory:///#/fragment"), "memory:///#/fragment");
}

#[test]
fn test_url_with_not_empty_fragment_with_trailing_slash() {
    assert_eq!(canonical_string("memory:///#/fragment/"), "memory:///#/fragment");
}

#[test]
fn test_parse_error_empty_host() {
    assert_eq!(
        canonicalize("http:///").unwrap_err(),
        UrlError::ParseError(ParseErrorKind::EmptyHost)
    );
}

#[test]
fn test_parse_error_invalid_ipv4() {
    assert_eq!(
        canonicalize("http://300.0.0.0/").unwrap_err(),
        UrlError::ParseError(ParseErrorKind::InvalidIpv4Address)
    );
}

#[test]
fn test_syntax_violation_null_in_fragment() {
    assert_eq!(
        canonicalize("memory://#/\0a").unwrap_err(),
        UrlError::SyntaxViolation(SyntaxViolationKind::NullInFragment)
    );
}

#[test]
fn test_syntax_violation_expected_double_slash() {
    assert_eq!(
        canonicalize("http:/example").unwrap_err(),
        UrlError::SyntaxViolation(SyntaxViolationKind::ExpectedDoubleSlash)
    );
}

#[test]
fn test_canonicalize_idempotent_on_samples() {
    for raw in [
        "memory://",
        "memory:///#/fragment/",
        "a://h",
        "a://h/#x",
        "http://example.com/a/b?q=1#/c/~0d",
        "file:///tmp/some/file",
    ] {
        let first = canonicalize(raw).unwrap();
        let second = canonicalize(&first.as_string()).unwrap();
        assert_eq!(second, first);
        assert_eq!(second.as_string(), first.as_string());
    }
}

#[test]
fn test_fragment_round_trip_resource_keys_equal() {
    let a = canonicalize("a://h/#").unwrap().resource_key();
    let b = canonicalize("a://h/").unwrap().resource_key();
    let c = canonicalize("a://h").unwrap().resource_key();
    assert_eq!(a, b);
    assert_eq!(b, c);
    assert_eq!(a.fragment(), "/");
}

#[test]
fn test_fragment_trailing_and_missing_slash_normalize_alike() {
    assert_eq!(canonicalize("a://h/#/x/").unwrap().fragment(), "/x");
    assert_eq!(canonicalize("a://h/#x").unwrap().fragment(), "/x");
}

#[test]
fn test_query_is_part_of_resource_identity() {
    let with_query = canonicalize("http://h/p?q=1#/x").unwrap();
    assert_eq!(with_query.as_string(), "http://h/p?q=1#/x");
    assert_eq!(with_query.resource_key().as_string(), "http://h/p?q=1#/");

    let other_query = canonicalize("http://h/p?q=2#/x").unwrap();
    assert_ne!(with_query.resource_key(), other_query.resource_key());

    let no_query = canonicalize("http://h/p#/x").unwrap();
    assert_eq!(no_query.resource_key().as_string(), "http://h/p#/");
}

#[test]
fn test_invalid_pointer_escape_trailing_tilde() {
    assert_eq!(
        canonicalize("a://h/#/~").unwrap_err(),
        UrlError::JsonFragmentError("~".to_string())
    );
}

#[test]
fn test_invalid_pointer_escape_bad_follower() {
    assert_eq!(
        canonicalize("a://h/#/~a").unwrap_err(),
        UrlError::JsonFragmentError("~a".to_string())
    );
}

#[test]
fn test_invalid_pointer_escape_first_offender_wins() {
    assert_eq!(
        canonicalize("a://h/#/~0/~1/~c").unwrap_err(),
        UrlError::JsonFragmentError("~c".to_string())
    );
}

#[test]
fn test_valid_pointer_escapes_pass() {
    assert_eq!(canonicalize("a://h/#/~0/~1").unwrap().fragment(), "/~0/~1");
}
