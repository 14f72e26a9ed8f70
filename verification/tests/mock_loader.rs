//! The mocked-transport scenarios: the fetch step is a closure standing in
//! for the HTTP client, handing a scripted response to the loader, with a
//! call counter standing in for the mock server's request count.

use loader_rs::text::load_from_string;
use loader_rs::url_helpers::CanonicalUrl;
use loader_rs::{Document, Loader, LoaderError};
use std::cell::Cell;

#[test]
fn test_mock_loader_request_resp_body() {
    let requests = Cell::new(0usize);
    let mut loader = Loader::default();

    let value = loader.get_or_fetch("http://127.0.0.1/", |_u: CanonicalUrl| {
        requests.set(requests.get() + 1);
        // The mocked response: status 200 with body "Content".
        load_from_string("Content")
    });

    assert_eq!(requests.get(), 1);
    assert_eq!(*value.unwrap(), Document::Str("Content".to_string()));
}

#[test]
fn test_mock_loader_request_resp_body_file_path_existing() {
    let requests = Cell::new(0usize);
    let mut loader = Loader::default();

    let value = loader.get_or_fetch("http://127.0.0.1/", |_u: CanonicalUrl| {
        requests.set(requests.get() + 1);
        // The mocked response: status 200 with the empty body of an empty source.
        load_from_string("")
    });

    assert_eq!(requests.get(), 1);
    assert_eq!(*value.unwrap(), Document::Null);
}

#[test]
fn test_mock_loader_ensure_test_not_called() {
    let mut server = mockito::Server::new();
    let mock = server.mock("GET", "/").with_status(200).with_body("").expect(0).create();

    // The mock context is set up, but no request is issued against it.
    let _unused_url = server.url();

    mock.assert();
}

#[test]
fn test_load_from_not_existing_url() {
    let requests = Cell::new(0usize);
    let mut loader = Loader::default();

    let load_result = loader.get_or_fetch("http://127.0.0.1/", |_u: CanonicalUrl| {
        requests.set(requests.get() + 1);
        // The mocked response: status 404, no usable body.
        Err(LoaderError::FetchURLFailed(Some(404)))
    });

    assert_eq!(requests.get(), 1);
    assert!(matches!(
        load_result.unwrap_err(),
        LoaderError::FetchURLFailed(value) if value == Some(404)
    ));
}

#[test]
fn test_mock_loader_caches_across_fragments() {
    let requests = Cell::new(0usize);
    let mut loader = Loader::default();
    let fetch = |_u: CanonicalUrl| {
        requests.set(requests.get() + 1);
        load_from_string("Content")
    };

    let whole = loader.get_or_fetch("http://127.0.0.1/", fetch).unwrap();
    let again = loader.get_or_fetch("http://127.0.0.1/#/", fetch).unwrap();

    assert_eq!(requests.get(), 1);
    assert_eq!(*whole, Document::Str("Content".to_string()));
    assert_eq!(*again, Document::Str("Content".to_string()));
    assert_eq!(loader.stats().get_hits(), 1);
    assert_eq!(loader.stats().get_misses(), 1);
}
