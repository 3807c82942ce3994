//! The library's promises checked on concrete values, and the edge cases the
//! parser handles.

use c2pa_http::link::{encode_target, extract, format_strict, locate_all};
use c2pa_http::text::{ascii_lower_char, is_ascii_space_char, is_white_space_char};
use c2pa_http::{append_to, extract_from, link, Error, ManifestLink, ManifestLinkLayer};
use http::header::LINK;
use http::{HeaderMap, HeaderValue};

const SAMPLES: [&str; 9] = [
    "https://a.example/m.c2pa",
    "a b",
    "a\r\nb",
    "café",
    "%20",
    "%",
    "https://a.example/m>; rel=\"evil\", <b",
    "\u{0}\u{1F}\u{7F}",
    "日本/語#jumbf=c2pa",
];

#[test]
fn encoding_twice_equals_encoding_once() {
    for s in SAMPLES {
        let once = encode_target(s);
        assert_eq!(encode_target(&once), once, "{s:?}");
    }
}

#[test]
fn encoding_uses_upper_case_hex_for_every_excluded_byte() {
    assert_eq!(encode_target("\u{0}"), "%00");
    assert_eq!(encode_target("\u{1F}"), "%1F");
    assert_eq!(encode_target("\u{7F}"), "%7F");
    assert_eq!(encode_target("\t"), "%09");
    assert_eq!(encode_target("日"), "%E6%97%A5");
    assert_eq!(encode_target(""), "");
    assert_eq!(encode_target("~!$&'()*+,;=:@/?#%"), "~!$&'()*+,;=:@/?#%");
}

#[test]
fn formatted_headers_are_visible_ascii_with_one_target() {
    for s in SAMPLES {
        let header = link::format(s).unwrap();
        assert!(header.bytes().all(|b| (32..127).contains(&b)), "{header:?}");
        assert!(!header.contains('\r') && !header.contains('\n'));
        assert_eq!(header.find('<'), Some(0));
        assert_eq!(header.matches('<').count(), 1);
        assert_eq!(header.matches('>').count(), 1);
        assert_eq!(header.find('>'), Some(encode_target(s).len() + 1));
    }
}

#[test]
fn every_formatted_header_parses_back_to_its_encoded_target() {
    for s in SAMPLES {
        let header = link::format(s).unwrap();
        let found = locate_all(&[header.as_str()]);
        assert_eq!(found.len(), 1, "{header:?}");
        assert_eq!(extract(&[header.as_str()]), Ok(found[0].clone()));
    }
    let header = link::format("日本/語#jumbf=c2pa/child").unwrap();
    let found = extract(&[header.as_str()]).unwrap();
    assert_eq!(found.uri, "%E6%97%A5%E6%9C%AC/%E8%AA%9E#jumbf=c2pa");
    assert_eq!(found.jumbf.as_deref(), Some("c2pa"));
}

#[test]
fn strict_and_lenient_agree_on_valid_targets() {
    for good in [
        "https://a.example/m.c2pa",
        "https://user@a.example:8443/p/q?x=1&y=2#frag",
        "%20",
    ] {
        assert_eq!(format_strict(good), link::format(good));
    }
    assert_eq!(
        format_strict("a b"),
        Err(Error::Malformed(
            "target URI contains characters that a URI must percent-encode"
        ))
    );
    assert_eq!(format_strict(""), Err(Error::Malformed("target URI is empty")));
    assert_eq!(link::format(""), Err(Error::Malformed("target URI is empty")));
}

#[test]
fn searching_several_fields_concatenates_their_links() {
    let a = r#"<a.c2pa>; rel="c2pa-manifest", </x>; rel=next"#;
    let b = r#"<b.c2pa>; rel="c2pa-manifest"; title="one, two""#;
    let mut both = locate_all(&[a]);
    both.extend(locate_all(&[b]));
    assert_eq!(locate_all(&[a, b]), both);
    assert_eq!(both.len(), 2);
}

#[test]
fn an_appended_link_follows_the_existing_ones() {
    let mut headers = HeaderMap::new();
    headers.append(LINK, HeaderValue::from_static("</s.css>; rel=preload"));
    append_to(&mut headers, "https://a.example/a b").unwrap();
    let values: Vec<&[u8]> = headers.get_all(LINK).iter().map(|v| v.as_bytes()).collect();
    assert_eq!(values.len(), 2);
    assert_eq!(values[0], b"</s.css>; rel=preload");
    assert_eq!(
        values[1],
        link::format("https://a.example/a b").unwrap().as_bytes()
    );
    assert_eq!(
        extract_from(&headers).unwrap().uri,
        "https://a.example/a%20b"
    );
    assert_eq!(append_to(&mut headers, ""), Err(Error::Malformed("target URI is empty")));
    assert_eq!(headers.get_all(LINK).iter().count(), 2);
}

#[test]
fn a_layer_renders_the_formatted_value() {
    let layer = ManifestLinkLayer::new("https://a.example/a b").unwrap();
    assert_eq!(
        layer.header().as_bytes(),
        link::format("https://a.example/a b").unwrap().as_bytes()
    );
    let strict = ManifestLinkLayer::new_strict("https://a.example/m.c2pa").unwrap();
    assert_eq!(
        strict.header().to_str().unwrap(),
        r#"<https://a.example/m.c2pa>; rel="c2pa-manifest""#
    );
    assert!(matches!(
        ManifestLinkLayer::new(""),
        Err(Error::Malformed("target URI is empty"))
    ));
}

#[test]
fn a_value_with_a_control_byte_is_skipped() {
    let mut headers = HeaderMap::new();
    headers.append(
        LINK,
        HeaderValue::from_bytes(b"<x.c2pa>; rel=c2pa-manifest\x01").unwrap_or(
            HeaderValue::from_bytes(b"<x.c2pa>; rel=c2pa-manifest \xE9").unwrap(),
        ),
    );
    assert_eq!(extract_from(&headers), Err(Error::NotFound));
    headers.append(LINK, HeaderValue::from_static("<y.c2pa>;\trel=c2pa-manifest"));
    assert_eq!(extract_from(&headers).unwrap().uri, "y.c2pa");
}

#[test]
fn every_error_either_carries_a_code_or_locates_nothing() {
    for e in [
        Error::NotFound,
        Error::MultipleLinks,
        Error::Malformed("x"),
        Error::Inaccessible,
    ] {
        assert_ne!(e.code().is_some(), e.is_no_manifest_located(), "{e:?}");
    }
}

#[test]
fn error_messages_are_exact() {
    assert_eq!(Error::NotFound.to_string(), "no c2pa-manifest Link header found");
    assert_eq!(
        Error::MultipleLinks.to_string(),
        "more than one c2pa-manifest target was advertised"
    );
    assert_eq!(
        Error::Malformed("target URI is empty").to_string(),
        "malformed Link header: target URI is empty"
    );
    assert_eq!(
        Error::Inaccessible.to_string(),
        "the advertised manifest could not be retrieved"
    );
}

#[test]
fn escapes_in_the_relation_are_resolved() {
    let l = extract(&[r#"<m>; rel="c2pa\-manifest""#]).unwrap();
    assert_eq!(l.uri, "m");
    // A trailing backslash escapes the closing quote and stands for nothing.
    let l = extract(&[r#"<n>; rel="c2pa-manifest\""#]).unwrap();
    assert_eq!(l.uri, "n");
    assert_eq!(extract(&[r#"<m>; rel="c2pa-\\manifest""#]), Err(Error::NotFound));
}

#[test]
fn relation_tokens_are_split_on_ascii_whitespace_only() {
    assert_eq!(
        extract(&["<m>; rel=\"preload\tc2pa-manifest\nnext\""]).unwrap().uri,
        "m"
    );
    assert_eq!(
        extract(&["<m>; rel=\"preload\u{A0}c2pa-manifest\""]),
        Err(Error::NotFound)
    );
}

#[test]
fn parameters_without_a_value_are_kept_and_ignored() {
    assert_eq!(
        extract(&["<m>; crossorigin; REL = c2pa-MANIFEST"]).unwrap().uri,
        "m"
    );
    assert_eq!(extract(&["<m>; rel"]), Err(Error::NotFound));
}

#[test]
fn unicode_whitespace_is_trimmed_around_values_and_targets() {
    let l = extract(&["\u{3000}<\u{2003}m.c2pa\u{A0}>\u{3000}; rel=c2pa-manifest\u{85}"]).unwrap();
    assert_eq!(l.uri, "m.c2pa");
    assert_eq!(extract(&["< \t >; rel=c2pa-manifest"]), Err(Error::NotFound));
}

#[test]
fn jumbf_fragments_are_recognised_without_case() {
    let l = extract(&["<i.jpg#JUMBF=c2pa/x>; rel=c2pa-manifest"]).unwrap();
    assert_eq!(l.uri, "i.jpg#jumbf=c2pa");
    assert_eq!(l.jumbf.as_deref(), Some("c2pa"));
    for unchanged in ["i.jpg#jumbf=", "i.jpg#jumbf=/x", "i.jpg#jumb", "i.jpg#jumbfé"] {
        let header = format!("<{unchanged}>; rel=c2pa-manifest");
        let l = extract(&[header.as_str()]).unwrap();
        assert_eq!(l.uri, unchanged);
        assert_eq!(l.jumbf, None);
        assert!(!l.is_embedded());
    }
    let l = extract(&["<a#b#jumbf=c2pa>; rel=c2pa-manifest"]).unwrap();
    assert_eq!(l.uri, "a#b#jumbf=c2pa");
    assert_eq!(l.jumbf, None);
}

#[test]
fn identical_links_across_fields_collapse_and_distinct_ones_conflict() {
    let a = "<a.c2pa>; rel=c2pa-manifest";
    let b = "<b.c2pa>; rel=c2pa-manifest";
    assert_eq!(extract(&[a, "</x>; rel=next", a]).unwrap().uri, "a.c2pa");
    assert_eq!(extract(&[a, b, a]), Err(Error::MultipleLinks));
    assert_eq!(extract(&[]), Err(Error::NotFound));
    let embedded = "<a.c2pa#jumbf=c2pa>; rel=c2pa-manifest";
    assert_eq!(
        extract(&["<a.c2pa#jumbf=c2pa/child>; rel=c2pa-manifest", embedded]).unwrap(),
        ManifestLink {
            uri: "a.c2pa#jumbf=c2pa".to_string(),
            jumbf: Some("c2pa".to_string())
        }
    );
}

#[test]
fn character_classes_agree_with_std() {
    for u in 0u32..=0x10FFFF {
        if let Some(c) = char::from_u32(u) {
            assert_eq!(is_white_space_char(c), c.is_whitespace(), "{u:#x}");
            assert_eq!(is_ascii_space_char(c), c.is_ascii_whitespace(), "{u:#x}");
            assert_eq!(ascii_lower_char(c), c.to_ascii_lowercase(), "{u:#x}");
        }
    }
}


#[test]
fn reordering_or_repeating_fields_does_not_change_extract() {
    let a = "<a.c2pa>; rel=c2pa-manifest";
    let b = "</x>; rel=next";
    let c = "<c.c2pa>; rel=c2pa-manifest";
    assert_eq!(extract(&[a, b]), extract(&[b, a, a, b]));
    assert_eq!(extract(&[a, c]), extract(&[c, c, a]));
    assert_eq!(extract(&[b]), extract(&[b, b]));
}

#[test]
fn a_target_without_a_fragment_comes_back_encoded_with_no_label() {
    for (uri, encoded) in [("a b", "a%20b"), ("https://a.example/m.c2pa", "https://a.example/m.c2pa")] {
        let header = link::format(uri).unwrap();
        assert_eq!(
            extract(&[header.as_str()]),
            Ok(ManifestLink { uri: encoded.to_string(), jumbf: None })
        );
    }
}

#[test]
fn encoding_distributes_over_concatenation() {
    for a in SAMPLES {
        for b in SAMPLES {
            let ab = format!("{a}{b}");
            assert_eq!(encode_target(&ab), encode_target(a) + &encode_target(b));
        }
    }
}

#[test]
fn split_pieces_rejoin_to_the_input() {
    for s in [
        r#"<a,b>; t="x,y", <c>"#,
        ",,",
        "",
        r#""a\",b", c"#,
        "<<>,>",
    ] {
        let chars: Vec<char> = s.chars().collect();
        let pieces = link::split_unquoted(&chars, ',');
        assert!(!pieces.is_empty());
        let joined: Vec<String> = pieces.iter().map(|p| p.iter().collect()).collect();
        assert_eq!(joined.join(","), s);
    }
}

#[test]
fn unquote_undoes_quoting() {
    for t in ["", "plain", "say \"hi\"", "back\\slash", "\\\"", "日本"] {
        let mut q = String::from("\"");
        for c in t.chars() {
            if c == '"' || c == '\\' {
                q.push('\\');
            }
            q.push(c);
        }
        q.push('"');
        let quoted: Vec<char> = q.chars().collect();
        let back: String = link::unquote(&quoted).into_iter().collect();
        assert_eq!(back, t);
    }
    for s in ["", "\"", "a\"", "\"a", "abc"] {
        let v: Vec<char> = s.chars().collect();
        assert_eq!(link::unquote(&v), v);
    }
}

#[test]
fn separating_the_jumbf_fragment_twice_changes_nothing() {
    for target in ["x#jumbf=c2pa/a/b", "x#JUMBF=c2pa", "x#jumbf=/a", "x#frag", "x"] {
        let header = format!("<{target}>; rel=c2pa-manifest");
        let first = extract(&[header.as_str()]).unwrap();
        let again = format!("<{}>; rel=c2pa-manifest", first.uri);
        assert_eq!(extract(&[again.as_str()]), Ok(first.clone()));
        if first.jumbf.is_none() {
            assert_eq!(first.uri, target);
        }
    }
}

#[test]
fn link_texts_are_the_readable_link_values_in_order() {
    let mut headers = HeaderMap::new();
    assert!(c2pa_http::layer::has_room_for_link(&headers));
    headers.append(LINK, HeaderValue::from_static("</a>; rel=next"));
    headers.append(LINK, HeaderValue::from_bytes(b"</\xFF>; rel=next").unwrap());
    headers.append(http::header::HOST, HeaderValue::from_static("a.example"));
    append_to(&mut headers, "m.c2pa").unwrap();
    let expected: Vec<&str> = headers
        .get_all(LINK)
        .iter()
        .filter_map(|v| v.to_str().ok())
        .collect();
    assert_eq!(c2pa_http::layer::link_texts(&headers), expected);
    assert_eq!(expected.len(), 2);
    assert_eq!(extract_from(&headers), extract(&expected));
}

#[test]
fn split_jumbf_is_idempotent_at_the_function() {
    for t in ["x#jumbf=c2pa/a/b", "x#JUMBF=c2pa", "x#jumbf=/a", "x#frag", "x", "a#b#jumbf=c", "é#jumbf=ü/x"] {
        let chars: Vec<char> = t.chars().collect();
        let (u, j) = link::split_jumbf(&chars);
        assert_eq!(link::split_jumbf(&u), (u.clone(), j.clone()), "{t:?}");
        match &j {
            None => assert_eq!(u, chars),
            Some(label) => {
                assert!(!label.is_empty() && !label.contains(&'/'));
                let h = t.find('#').unwrap();
                let label: String = label.iter().collect();
                let expected: Vec<char> = format!("{}#jumbf={label}", &t[..h]).chars().collect();
                assert_eq!(u, expected);
            }
        }
    }
    let chars: Vec<char> = "x#jumbf=/a".chars().collect();
    assert_eq!(link::split_jumbf(&chars), (chars.clone(), None));
}

#[test]
fn splitting_cuts_only_at_unquoted_separators() {
    let s = r#"<a,b>,"c\",d",e"#;
    let chars: Vec<char> = s.chars().collect();
    let pieces: Vec<String> = link::split_unquoted(&chars, ',')
        .iter()
        .map(|p| p.iter().collect())
        .collect();
    assert_eq!(pieces, vec!["<a,b>", r#""c\",d""#, "e"]);
}

#[test]
fn the_layer_header_is_appended_after_existing_links() {
    let layer = ManifestLinkLayer::new("https://a.example/m.c2pa").unwrap();
    let copy = layer.duplicate();
    assert_eq!(copy.header(), layer.header());
    let mut headers = HeaderMap::new();
    headers.append(LINK, HeaderValue::from_static("</s.css>; rel=preload"));
    headers.append(http::header::HOST, HeaderValue::from_static("a.example"));
    c2pa_http::layer::append_header(&mut headers, &copy);
    let values: Vec<&HeaderValue> = headers.get_all(LINK).iter().collect();
    assert_eq!(values.len(), 2);
    assert_eq!(values[0], "</s.css>; rel=preload");
    assert_eq!(values[1], layer.header());
    assert_eq!(headers.get(http::header::HOST).unwrap(), "a.example");
    assert_eq!(extract_from(&headers).unwrap().uri, "https://a.example/m.c2pa");
}
