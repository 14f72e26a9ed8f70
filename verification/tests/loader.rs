use loader_rs::url_helpers::{CanonicalUrl, ParseErrorKind, SyntaxViolationKind, UrlError};
use loader_rs::{Document, Loader, LoaderError};
use std::cell::Cell;

fn sample_object() -> Document {
    Document::Object(vec![("key".to_string(), Document::Str("Some Text".to_string()))])
}

#[test]
fn test_default_loader_error() {
    let loader_error_enum = LoaderError::default();
    if let LoaderError::UnknownError = loader_error_enum {
    } else {
        panic!("Expected LoaderError::UnknownError, received {:?}", loader_error_enum);
    }
}

#[test]
fn mod_test_load_wrong_url_parse_error() {
    let mut loader = Loader::default();
    match loader.get_or_fetch("this-is-a-wrong-url", |_u: CanonicalUrl| Ok(Document::Null)).unwrap_err() {
        LoaderError::InvalidURL(UrlError::ParseError(ParseErrorKind::RelativeUrlWithoutBase)) => (),
        loader_error => panic!(
            "Expected LoaderError::InvalidURL(UrlError::ParseError(ParseErrorKind::RelativeUrlWithoutBase)), received {:?}",
            loader_error,
        ),
    }
}

#[test]
fn mod_test_load_wrong_url_syntax_error() {
    let mut loader = Loader::default();
    match loader.get_or_fetch("http:/this-is-syntactically-invalid-url", |_u: CanonicalUrl| Ok(Document::Null)).unwrap_err() {
        LoaderError::InvalidURL(UrlError::SyntaxViolation(SyntaxViolationKind::ExpectedDoubleSlash)) => (),
        loader_error => panic!(
            "Expected LoaderError::InvalidURL(UrlError::SyntaxViolation(SyntaxViolationKind::ExpectedDoubleSlash)), received {:?}",
            loader_error,
        ),
    }
}

#[test]
fn _testing_test_load_wrong_url_parse_error() {
    let mut loader = Loader::default();
    let expression_result = loader.get_or_fetch("this-is-a-wrong-url", |_u: CanonicalUrl| Ok(Document::Null));
    if let Err(LoaderError::InvalidURL(UrlError::ParseError(ParseErrorKind::RelativeUrlWithoutBase))) = expression_result {
    } else {
        panic!(
            "Expected LoaderError::InvalidURL(UrlError::ParseError(ParseErrorKind::RelativeUrlWithoutBase)), received {:?}",
            expression_result
        );
    }
}

#[test]
fn _testing_test_load_wrong_url_syntax_error() {
    let mut loader = Loader::default();
    let load_result = loader.get_or_fetch("http:/this-is-syntactically-invalid-url", |_u: CanonicalUrl| Ok(Document::Null));
    if let Err(LoaderError::InvalidURL(UrlError::SyntaxViolation(SyntaxViolationKind::ExpectedDoubleSlash))) = load_result {
    } else {
        panic!(
            "Expected LoaderError::InvalidURL(UrlError::SyntaxViolation(SyntaxViolationKind::ExpectedDoubleSlash)), received {:?}",
            load_result
        );
    }
}

#[test]
fn test_cache_hit_fetches_only_once() {
    let calls = Cell::new(0usize);
    let mut loader = Loader::default();
    let fetch = |_u: CanonicalUrl| {
        calls.set(calls.get() + 1);
        Ok(sample_object())
    };

    let whole = loader.get_or_fetch("scheme:///doc", fetch).unwrap();
    assert_eq!(*whole, sample_object());
    assert_eq!(calls.get(), 1);

    let part = loader.get_or_fetch("scheme:///doc#/key", fetch).unwrap();
    assert_eq!(*part, Document::Str("Some Text".to_string()));
    assert_eq!(calls.get(), 1);

    let stats = loader.stats();
    assert_eq!(stats.get_hits(), 1);
    assert_eq!(stats.get_misses(), 1);
}

#[test]
fn test_fetch_receives_resource_identity() {
    let mut loader = Loader::default();
    let seen = Cell::new(false);
    let result = loader.get_or_fetch("scheme:///doc#/key", |u: CanonicalUrl| {
        seen.set(true);
        assert_eq!(u.fragment(), "/");
        assert_eq!(u.as_string(), "scheme:///doc#/");
        Ok(sample_object())
    });
    assert!(seen.get());
    assert_eq!(*result.unwrap(), Document::Str("Some Text".to_string()));
}

#[test]
fn test_decode_failure_not_cached() {
    let calls = Cell::new(0usize);
    let mut loader = Loader::default();
    let fetch = |_u: CanonicalUrl| {
        calls.set(calls.get() + 1);
        Err(LoaderError::FormatError("bad bytes".to_string()))
    };

    for _ in 0..2 {
        match loader.get_or_fetch("scheme:///doc", fetch).unwrap_err() {
            LoaderError::FormatError(text) => assert_eq!(text, "bad bytes"),
            other => panic!("Expected LoaderError::FormatError(...), received {:?}", other),
        }
    }
    assert_eq!(calls.get(), 2);
    assert_eq!(loader.stats().get_misses(), 2);
    assert_eq!(loader.stats().get_hits(), 0);
}

#[test]
fn test_load_from_file_invalid_content() {
    let mut loader = Loader::default();
    let load_result = loader.get_or_fetch("file:///invalid-doc", |_u: CanonicalUrl| {
        loader_rs::text::load_from_string("ERR")
    });
    if let Err(LoaderError::FormatError(_)) = load_result {
    } else {
        panic!("Expected LoaderError::FormatError(...), received {:?}", load_result);
    }
}

#[test]
fn test_load_from_url_invalid_content() {
    let mut loader = Loader::default();
    let load_result = loader.get_or_fetch("http://127.0.0.1/invalid-doc", |_u: CanonicalUrl| {
        loader_rs::text::load_from_string("ERR")
    });
    if let Err(LoaderError::FormatError(_)) = load_result {
    } else {
        panic!("Expected LoaderError::FormatError(...), received {:?}", load_result);
    }
}

#[test]
fn test_load_from_url_http_error() {
    let mut loader = Loader::default();
    let load_result = loader.get_or_fetch("http://127.0.0.1/missing-doc", |_u: CanonicalUrl| {
        Err(LoaderError::FetchURLFailed(Some(404)))
    });
    if let Err(LoaderError::FetchURLFailed(status)) = load_result {
        assert_eq!(status, Some(404));
    } else {
        panic!("Expected LoaderError::FetchURLFailed(...), received {:?}", load_result);
    }
}

#[test]
fn test_set_seeds_cache_without_fetching() {
    let mut loader = Loader::default();
    loader.set("scheme:///doc#/ignored-fragment", sample_object()).unwrap();
    let result = loader.get_or_fetch("scheme:///doc#/key", |_u: CanonicalUrl| {
        panic!("the fetch step must not run for a seeded resource");
    });
    assert_eq!(*result.unwrap(), Document::Str("Some Text".to_string()));
    assert_eq!(loader.stats().get_hits(), 1);
    assert_eq!(loader.stats().get_misses(), 0);
}

#[test]
fn test_set_rejects_invalid_url() {
    let mut loader = Loader::default();
    match loader.set("not a url", Document::Null).unwrap_err() {
        LoaderError::InvalidURL(_) => (),
        other => panic!("Expected LoaderError::InvalidURL(...), received {:?}", other),
    }
}

#[test]
fn test_clear_stats_keeps_entries() {
    let mut loader = Loader::default();
    loader.set("scheme:///doc", sample_object()).unwrap();
    loader.get_or_fetch("scheme:///doc", |_u: CanonicalUrl| Ok(Document::Null)).unwrap();
    assert_eq!(loader.stats().get_hits(), 1);
    loader.clear_stats();
    assert_eq!(loader.stats().get_hits(), 0);
    assert_eq!(loader.stats().get_misses(), 0);
    let again = loader.get_or_fetch("scheme:///doc", |_u: CanonicalUrl| Ok(Document::Null)).unwrap();
    assert_eq!(*again, sample_object());
}

#[test]
fn test_stats_counters_direct() {
    let mut stats = loader_rs::cache::stats::Stats::default();
    assert_eq!(stats.get_hits(), 0);
    assert_eq!(stats.get_misses(), 0);
    stats.register_hit();
    stats.register_hit();
    stats.register_miss();
    assert_eq!(stats.get_hits(), 2);
    assert_eq!(stats.get_misses(), 1);
    stats.clear();
    assert_eq!(stats.get_hits(), 0);
    assert_eq!(stats.get_misses(), 0);
}
