//! Attaching the link to a header map and reading it back.

use c2pa_http::{append_to, extract_from, Error, ManifestLinkLayer};
use http::header::LINK;
use http::{HeaderMap, HeaderValue};

const URI: &str = "https://a.example/m.c2pa";

#[test]
fn append_and_extract_round_trip() {
    let mut headers = HeaderMap::new();
    assert_eq!(extract_from(&headers), Err(Error::NotFound));
    append_to(&mut headers, URI).unwrap();
    assert_eq!(extract_from(&headers).unwrap().uri, URI);
}

#[test]
fn append_preserves_unrelated_links() {
    let mut headers = HeaderMap::new();
    headers.append(LINK, HeaderValue::from_static("</a>; rel=next"));
    append_to(&mut headers, URI).unwrap();
    assert_eq!(headers.get_all(LINK).iter().count(), 2);
    assert_eq!(extract_from(&headers).unwrap().uri, URI);
}

#[test]
fn a_hostile_target_cannot_inject_a_header() {
    // The CR/LF is percent-encoded, so the payload lands inside the URI
    // rather than becoming a header of its own.
    let mut headers = HeaderMap::new();
    append_to(&mut headers, "https://a.example/\r\nX-Evil: 1").unwrap();
    assert_eq!(headers.len(), 1, "a second header was injected");
    assert!(headers.get("x-evil").is_none());
    assert!(extract_from(&headers).unwrap().uri.contains("%0D%0A"));
}

#[test]
fn strict_construction_rejects_what_lenient_repairs() {
    // For a target from configuration, a stray space should be a startup
    // error rather than a silent %20 and a 404 much later.
    assert!(ManifestLinkLayer::new_strict("https://a.example/a b").is_err());
    assert!(ManifestLinkLayer::new("https://a.example/a b").is_ok());
    assert!(ManifestLinkLayer::new_strict("https://a.example/m.c2pa").is_ok());
}

#[test]
fn a_jumbf_target_survives_the_header_round_trip() {
    let mut headers = HeaderMap::new();
    append_to(&mut headers, "https://a.example/i.jpg#jumbf=c2pa").unwrap();
    let found = extract_from(&headers).unwrap();
    assert!(found.is_embedded());
    assert_eq!(found.jumbf.as_deref(), Some("c2pa"));
}

#[test]
fn competing_targets_across_two_fields_are_rejected() {
    let mut headers = HeaderMap::new();
    append_to(&mut headers, "https://a.example/a.c2pa").unwrap();
    append_to(&mut headers, "https://a.example/b.c2pa").unwrap();
    assert_eq!(extract_from(&headers), Err(Error::MultipleLinks));
}

#[test]
fn a_non_utf8_header_value_does_not_hide_a_good_one() {
    let mut headers = HeaderMap::new();
    headers.append(
        LINK,
        HeaderValue::from_bytes(b"</\xFF\xFE>; rel=next").unwrap(),
    );
    append_to(&mut headers, URI).unwrap();
    assert_eq!(extract_from(&headers).unwrap().uri, URI);
}

#[test]
fn append_preserves_unrelated_link_headers() {
    let uri = "https://fabrikam.example/m.c2pa";
    let mut headers = HeaderMap::new();
    headers.append(
        http::header::LINK,
        HeaderValue::from_static("</a>; rel=next"),
    );
    append_to(&mut headers, uri).unwrap();
    assert_eq!(headers.get_all(http::header::LINK).iter().count(), 2);
    assert_eq!(extract_from(&headers).unwrap().uri, uri);
}

#[test]
fn a_layer_can_be_built_and_rejects_a_bad_configured_target() {
    let uri = "https://fabrikam.example/m.c2pa";
    assert!(ManifestLinkLayer::new(uri).is_ok());
    assert!(ManifestLinkLayer::new_strict(uri).is_ok());
    assert!(matches!(
        ManifestLinkLayer::new_strict("https://a.example/a b"),
        Err(Error::Malformed(_))
    ));
}
