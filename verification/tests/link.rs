//! The parser and printer of the `c2pa-manifest` link, case by case.

use c2pa_http::link;
use c2pa_http::link::{encode_target, extract, format_strict, locate_all};
use c2pa_http::{Error, ManifestLink};

fn one(header: &str) -> ManifestLink {
    extract(&[header]).expect("expected exactly one c2pa-manifest link")
}

#[test]
fn parses_a_quoted_relation() {
    let l = one(r#"<https://a.example/m.c2pa>; rel="c2pa-manifest""#);
    assert_eq!(l.uri, "https://a.example/m.c2pa");
    assert_eq!(l.jumbf, None);
    assert!(!l.is_embedded());
}

#[test]
fn parses_an_unquoted_relation() {
    assert_eq!(
        one("<https://a.example/m.c2pa>; rel=c2pa-manifest").uri,
        "https://a.example/m.c2pa"
    );
}

#[test]
fn relation_matching_is_case_insensitive() {
    assert_eq!(
        one(r#"<m.c2pa>; REL="C2PA-Manifest""#).uri,
        "m.c2pa",
        "rel name and value are both case-insensitive"
    );
}

#[test]
fn a_relation_token_list_containing_the_relation_matches() {
    assert_eq!(
        one(r#"<m.c2pa>; rel="preload c2pa-manifest""#).uri,
        "m.c2pa"
    );
}

#[test]
fn a_near_miss_relation_is_not_a_match() {
    for header in [
        r#"<m.c2pa>; rel="c2pa-manifest-x""#,
        r#"<m.c2pa>; rel="x-c2pa-manifest""#,
        r#"<m.c2pa>; rel="stylesheet""#,
        "<m.c2pa>",
    ] {
        assert_eq!(extract(&[header]), Err(Error::NotFound), "{header}");
    }
}

#[test]
fn picks_the_c2pa_link_out_of_a_multi_value_header() {
    let h = r#"</style.css>; rel=preload, <https://a.example/m.c2pa>; rel="c2pa-manifest", </next>; rel=next"#;
    assert_eq!(one(h).uri, "https://a.example/m.c2pa");
}

#[test]
fn searches_across_several_header_fields() {
    let l = extract(&["</a>; rel=preload", r#"<m.c2pa>; rel="c2pa-manifest""#]).unwrap();
    assert_eq!(l.uri, "m.c2pa");
}

#[test]
fn a_comma_inside_the_target_does_not_split_the_value() {
    // A query string may legally contain commas.
    let h = r#"<https://a.example/m.c2pa?ids=1,2,3>; rel="c2pa-manifest""#;
    assert_eq!(one(h).uri, "https://a.example/m.c2pa?ids=1,2,3");
}

#[test]
fn a_comma_or_semicolon_inside_a_quoted_param_does_not_split() {
    let h = r#"<m.c2pa>; title="a, b; c"; rel="c2pa-manifest""#;
    assert_eq!(one(h).uri, "m.c2pa");
}

#[test]
fn an_escaped_quote_inside_a_param_is_handled() {
    let h = r#"<m.c2pa>; title="say \"hi\", ok"; rel="c2pa-manifest""#;
    assert_eq!(one(h).uri, "m.c2pa");
}

#[test]
fn only_the_first_rel_parameter_counts() {
    // RFC 8288: later occurrences MUST be ignored.
    assert_eq!(
        one(r#"<m.c2pa>; rel="c2pa-manifest"; rel="next""#).uri,
        "m.c2pa"
    );
    assert_eq!(
        extract(&[r#"<m.c2pa>; rel="next"; rel="c2pa-manifest""#]),
        Err(Error::NotFound),
        "a later rel must not rescue a non-matching first one"
    );
}

#[test]
fn a_jumbf_fragment_names_an_embedded_store() {
    let l = one(r#"<https://a.example/image.jpg#jumbf=c2pa>; rel="c2pa-manifest""#);
    assert_eq!(l.uri, "https://a.example/image.jpg#jumbf=c2pa");
    assert_eq!(l.jumbf.as_deref(), Some("c2pa"));
    assert!(l.is_embedded());
}

#[test]
fn a_jumbf_childlabel_is_discarded() {
    // Referencing a specific manifest inside the store is not permitted, and
    // the validator shall ignore the childlabel portion.
    let l = one(
        r#"<https://a.example/i.jpg#jumbf=c2pa/urn:uuid:1234/c2pa.assertions>; rel="c2pa-manifest""#,
    );
    assert_eq!(l.uri, "https://a.example/i.jpg#jumbf=c2pa");
    assert_eq!(l.jumbf.as_deref(), Some("c2pa"));
}

#[test]
fn a_non_jumbf_fragment_is_left_alone() {
    let l = one(r#"<https://a.example/m.c2pa#section>; rel="c2pa-manifest""#);
    assert_eq!(l.uri, "https://a.example/m.c2pa#section");
    assert_eq!(l.jumbf, None);
}

#[test]
fn duplicate_identical_links_are_not_a_conflict() {
    let h = r#"<m.c2pa>; rel="c2pa-manifest", <m.c2pa>; rel="c2pa-manifest""#;
    assert_eq!(one(h).uri, "m.c2pa");
}

#[test]
fn competing_targets_are_rejected() {
    // No precedence is defined between them, so choosing would invent a rule.
    let h = r#"<a.c2pa>; rel="c2pa-manifest", <b.c2pa>; rel="c2pa-manifest""#;
    assert_eq!(extract(&[h]), Err(Error::MultipleLinks));
    assert_eq!(locate_all(&[h]).len(), 2);
}

#[test]
fn malformed_values_are_skipped_not_fatal() {
    // A neighbouring link that does not parse must not hide a good one.
    let h = r#"no-brackets; rel=whatever, <m.c2pa>; rel="c2pa-manifest""#;
    assert_eq!(one(h).uri, "m.c2pa");
    assert_eq!(
        extract(&["<unterminated; rel=c2pa-manifest"]),
        Err(Error::NotFound)
    );
    assert_eq!(extract(&["<>; rel=c2pa-manifest"]), Err(Error::NotFound));
    assert_eq!(extract(&[""]), Err(Error::NotFound));
}

#[test]
fn whitespace_around_the_delimiters_is_tolerated() {
    let h = "  <m.c2pa>  ;  rel  =  c2pa-manifest  ";
    assert_eq!(one(h).uri, "m.c2pa");
}

#[test]
fn format_round_trips_through_the_parser() {
    let header = link::format("https://a.example/m.c2pa").unwrap();
    assert_eq!(header, r#"<https://a.example/m.c2pa>; rel="c2pa-manifest""#);
    assert_eq!(one(&header).uri, "https://a.example/m.c2pa");
}

#[test]
fn format_neutralises_header_injection_rather_than_refusing() {
    // Each of these would split the header or close the target early if it
    // reached the wire raw. Encoding makes them inert while keeping them.
    for hostile in [
        "https://a.example/\r\nX-Injected: yes",
        "https://a.example/\nX-Injected: yes",
        "https://a.example/\r",
        "https://a.example/m>; rel=\"evil\", <b",
        "https://a.example/\u{7}bell",
        "https://a.example/a b",
    ] {
        let header = link::format(hostile).expect("encoding must never reject");
        assert!(
            !header.contains('\r') && !header.contains('\n'),
            "a line break survived: {header:?}"
        );
        // Exactly one target, so nothing closed it early and started a
        // second link-value.
        assert_eq!(header.matches('<').count(), 1, "{header:?}");
        assert_eq!(header.matches('>').count(), 1, "{header:?}");
        // And it still parses back to exactly one link.
        assert_eq!(locate_all(&[header.as_str()]).len(), 1, "{header:?}");
    }
    assert!(matches!(link::format(""), Err(Error::Malformed(_))));
}

#[test]
fn an_injected_header_name_becomes_part_of_the_uri() {
    // The payload is preserved, not silently dropped — it is simply no
    // longer a header of its own.
    let header = link::format("https://a.example/\r\nX-Injected: yes").unwrap();
    assert!(header.contains("%0D%0A"), "{header}");
    let found = extract(&[header.as_str()]).unwrap();
    assert_eq!(found.uri, "https://a.example/%0D%0AX-Injected:%20yes");
}

#[test]
fn encoding_covers_exactly_the_characters_a_uri_excludes() {
    assert_eq!(encode_target("a b"), "a%20b");
    assert_eq!(encode_target("a\r\nb"), "a%0D%0Ab");
    assert_eq!(encode_target("a<b>c"), "a%3Cb%3Ec");
    assert_eq!(
        encode_target("a\"b\\c^d`e{f|g}h"),
        "a%22b%5Cc%5Ed%60e%7Bf%7Cg%7Dh"
    );
    assert_eq!(encode_target("a\u{7F}b"), "a%7Fb");
    // Non-ASCII travels as percent-encoded UTF-8.
    assert_eq!(encode_target("café"), "caf%C3%A9");
}

#[test]
fn encoding_preserves_a_uri_that_is_already_correct() {
    // Every delimiter a URI needs must survive untouched, or a query string
    // or fragment would be corrupted.
    for good in [
        "https://a.example/m.c2pa",
        "https://user@a.example:8443/p/q?x=1&y=2#frag",
        "https://a.example/i.jpg#jumbf=c2pa",
        "https://a.example/a~b_c-d.e!$&'()*+,;=:@/f",
    ] {
        assert_eq!(encode_target(good), good, "mangled a valid URI");
    }
}

#[test]
fn encoding_is_idempotent() {
    // `%` is left alone, so an already-encoded target is not double-encoded
    // into `%2520`.
    let once = encode_target("a b");
    assert_eq!(encode_target(&once), once);
    assert_eq!(encode_target("%20"), "%20");
}

#[test]
fn format_strict_reports_what_format_would_have_repaired() {
    assert!(format_strict("https://a.example/m.c2pa").is_ok());
    for needs_repair in ["https://a.example/a b", "https://a.example/\r\n", "café"] {
        assert!(
            matches!(format_strict(needs_repair), Err(Error::Malformed(_))),
            "strict mode accepted {needs_repair:?}"
        );
        // What strict rejects, lenient repairs.
        assert!(link::format(needs_repair).is_ok());
    }
    assert!(matches!(format_strict(""), Err(Error::Malformed(_))));
}

#[test]
fn format_accepts_a_jumbf_target() {
    let header = link::format("https://a.example/i.jpg#jumbf=c2pa").unwrap();
    assert!(one(&header).is_embedded());
}

#[test]
fn the_scanner_terminates_on_adversarial_input() {
    // Unbalanced delimiters must not loop or panic.
    for h in [
        "<<<<",
        "\"\"\"",
        "<a\"b>; rel=c2pa-manifest",
        ";;;;",
        ",,,,",
        "<a>;rel=",
        "\\",
        "<a>; rel=\"unterminated",
    ] {
        let _ = locate_all(&[h]);
    }
}

#[test]
fn multibyte_targets_do_not_split_a_character() {
    let h = "<https://a.example/café/münchen.c2pa>; rel=c2pa-manifest";
    assert_eq!(one(h).uri, "https://a.example/café/münchen.c2pa");
}

